use vstd::prelude::*;
use crate::machine::{in_word_range, WORD_MAX, WORD_MIN};

verus! {

/// Number of slots of a standard memory; also the most that a two-digit
/// operand can address.
pub const CAPACITY: usize = 100;

/// Why a memory access fails.
#[derive(Clone, Copy, Debug, PartialEq, Eq)]
pub enum MemoryError {
    /// The index names no slot.
    OutOfBounds,
    /// The value lies outside the machine's word range.
    ValueOutOfRange,
}

/// Why a program cannot be loaded.
#[derive(Clone, Copy, Debug, PartialEq, Eq)]
pub enum LoadError {
    /// The program has more words than the memory has slots.
    ProgramTooLong,
    /// A word lies outside the machine's word range.
    WordOutOfRange,
}

/// A fixed number of word slots, indexed from zero.
pub struct Memory {
    items: Vec<i64>,
}

impl View for Memory {
    type V = Seq<i64>;

    closed spec fn view(&self) -> Seq<i64> {
        self.items@
    }
}

/// Every word of the sequence lies in the machine's word range.
pub open spec fn all_in_word_range(ws: Seq<i64>) -> bool {
    forall|i: int| 0 <= i < ws.len() ==> in_word_range(#[trigger] ws[i] as int)
}

impl Memory {
    /// At most `CAPACITY` slots, each holding a word in range.
    pub open spec fn wf(&self) -> bool {
        self@.len() <= CAPACITY && all_in_word_range(self@)
    }

    /// A memory of `CAPACITY` slots, all zero.
    pub fn new() -> (r: Memory)
        ensures
            r.wf(),
            r@ == Seq::new(CAPACITY as nat, |i: int| 0i64),
    {
        Memory::with_capacity(CAPACITY)
    }

    /// A memory of `capacity` slots, all zero.
    pub fn with_capacity(capacity: usize) -> (r: Memory)
        requires
            capacity <= CAPACITY,
        ensures
            r.wf(),
            r@ == Seq::new(capacity as nat, |i: int| 0i64),
    {
        let mut items: Vec<i64> = Vec::new();
        let mut i: usize = 0;
        while i < capacity
            invariant
                i <= capacity,
                items@ == Seq::new(i as nat, |j: int| 0i64),
            decreases capacity - i,
        {
            items.push(0);
            i = i + 1;
            assert(items@ =~= Seq::new(i as nat, |j: int| 0i64));
        }
        Memory { items }
    }

    /// The number of slots.
    pub fn len(&self) -> (r: usize)
        ensures
            r == self@.len(),
    {
        self.items.len()
    }

    /// The word in slot `index`.
    pub fn read(&self, index: usize) -> (r: Result<i64, MemoryError>)
        ensures
            r == if index < self@.len() {
                Ok::<i64, MemoryError>(self@[index as int])
            } else {
                Err(MemoryError::OutOfBounds)
            },
    {
        if index < self.items.len() {
            Ok(self.items[index])
        } else {
            Err(MemoryError::OutOfBounds)
        }
    }

    /// Puts `value` into slot `index`; on failure the memory is unchanged.
    pub fn write(&mut self, index: usize, value: i64) -> (r: Result<(), MemoryError>)
        requires
            old(self).wf(),
        ensures
            final(self).wf(),
            r == if index >= old(self)@.len() {
                Err(MemoryError::OutOfBounds)
            } else if !in_word_range(value as int) {
                Err(MemoryError::ValueOutOfRange)
            } else {
                Ok::<(), MemoryError>(())
            },
            final(self)@ == if r is Ok {
                old(self)@.update(index as int, value)
            } else {
                old(self)@
            },
    {
        if index >= self.items.len() {
            return Err(MemoryError::OutOfBounds);
        }
        if value < WORD_MIN || value > WORD_MAX {
            return Err(MemoryError::ValueOutOfRange);
        }
        self.items.set(index, value);
        assert(all_in_word_range(self@)) by {
            assert forall|i: int| 0 <= i < self@.len() implies in_word_range(#[trigger] self@[i] as int) by {
                if i != index {
                    assert(self@[i] == old(self)@[i]);
                }
            }
        }
        Ok(())
    }

    /// Copies `program` into the lowest slots, in order; the other slots keep
    /// their words. On failure the memory is unchanged.
    pub fn load(&mut self, program: &Vec<i64>) -> (r: Result<(), LoadError>)
        requires
            old(self).wf(),
        ensures
            final(self).wf(),
            r == if program@.len() > old(self)@.len() {
                Err(LoadError::ProgramTooLong)
            } else if !all_in_word_range(program@) {
                Err(LoadError::WordOutOfRange)
            } else {
                Ok::<(), LoadError>(())
            },
            final(self)@ == if r is Ok {
                program@ + old(self)@.subrange(program@.len() as int, old(self)@.len() as int)
            } else {
                old(self)@
            },
    {
        if program.len() > self.items.len() {
            return Err(LoadError::ProgramTooLong);
        }
        let mut k: usize = 0;
        while k < program.len()
            invariant
                k <= program@.len() <= self@.len(),
                self@ == old(self)@,
                self.wf(),
                forall|i: int| 0 <= i < k ==> in_word_range(#[trigger] program@[i] as int),
            decreases program@.len() - k,
        {
            if program[k] < WORD_MIN || program[k] > WORD_MAX {
                return Err(LoadError::WordOutOfRange);
            }
            k = k + 1;
        }
        let ghost start = self@;
        k = 0;
        while k < program.len()
            invariant
                k <= program@.len() <= start.len(),
                all_in_word_range(program@),
                all_in_word_range(start),
                self@.len() == start.len(),
                forall|i: int| 0 <= i < k ==> #[trigger] self@[i] == program@[i],
                forall|i: int| k <= i < start.len() ==> #[trigger] self@[i] == start[i],
            decreases program@.len() - k,
        {
            self.items.set(k, program[k]);
            k = k + 1;
        }
        assert(self@ =~= program@ + start.subrange(program@.len() as int, start.len() as int));
        assert forall|i: int| 0 <= i < self@.len() implies in_word_range(#[trigger] self@[i] as int) by {
            if i < program@.len() {
                assert(self@[i] == program@[i]);
            } else {
                assert(self@[i] == start[i]);
            }
        }
        Ok(())
    }
}

} // verus!
