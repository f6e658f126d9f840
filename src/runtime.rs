use vstd::prelude::*;
use crate::machine::{clamp_word, in_word_range, saturate};
use crate::memory::{all_in_word_range, LoadError, Memory};

verus! {

/// Why execution stopped abnormally.
#[derive(Clone, Copy, Debug, PartialEq, Eq, Structural)]
pub enum Fault {
    /// The program counter or an operand names no slot of the memory.
    AddressOutOfBounds,
    /// An input instruction ran with no input left.
    InputExhausted,
    /// The fetched word is no instruction.
    InvalidInstruction,
}

/// Where execution stands.
#[derive(Clone, Copy, Debug, PartialEq, Eq, Structural)]
pub enum Status {
    Running,
    Halted,
    Faulted(Fault),
}

/// The state of a machine as a mathematical value.
pub struct MachineState {
    pub mem: Seq<i64>,
    pub acc: int,
    pub pc: int,
    pub status: Status,
    pub inputs: Seq<i64>,
    pub input_pos: int,
    pub outputs: Seq<i64>,
}

/// The state stopped by fault `f`; the program counter stays at the
/// offending instruction.
pub open spec fn fault(s: MachineState, f: Fault) -> MachineState {
    MachineState { status: Status::Faulted(f), ..s }
}

/// One fetch, decode and execute cycle. A word `w` decodes into the class
/// `w / 100` and the operand `w % 100`; `0` halts, `901` reads an input and
/// `902` writes the accumulator. The counter moves past the instruction
/// before a branch sets it. Sums and differences saturate at the word range.
pub open spec fn step(s: MachineState) -> MachineState {
    if s.status != Status::Running {
        s
    } else if !(0 <= s.pc < s.mem.len()) {
        fault(s, Fault::AddressOutOfBounds)
    } else {
        let w = s.mem[s.pc] as int;
        let next = s.pc + 1;
        let a: int = w % 100;
        if w == 0 {
            MachineState { status: Status::Halted, pc: next, ..s }
        } else if w == 901 {
            if s.input_pos < s.inputs.len() {
                MachineState {
                    acc: saturate(s.inputs[s.input_pos] as int),
                    input_pos: s.input_pos + 1,
                    pc: next,
                    ..s
                }
            } else {
                fault(s, Fault::InputExhausted)
            }
        } else if w == 902 {
            MachineState { outputs: s.outputs.push(s.acc as i64), pc: next, ..s }
        } else if w < 100 || w >= 900 || (400 <= w < 500) {
            fault(s, Fault::InvalidInstruction)
        } else if a >= s.mem.len() {
            fault(s, Fault::AddressOutOfBounds)
        } else if w < 200 {
            MachineState { acc: saturate(s.acc + s.mem[a]), pc: next, ..s }
        } else if w < 300 {
            MachineState { acc: saturate(s.acc - s.mem[a]), pc: next, ..s }
        } else if w < 400 {
            MachineState { mem: s.mem.update(a, s.acc as i64), pc: next, ..s }
        } else if w < 600 {
            MachineState { acc: s.mem[a] as int, pc: next, ..s }
        } else if w < 700 {
            MachineState { pc: a, ..s }
        } else if w < 800 {
            MachineState { pc: if s.acc == 0 { a } else { next }, ..s }
        } else {
            MachineState { pc: if s.acc >= 0 { a } else { next }, ..s }
        }
    }
}

/// The state after at most `n` cycles; a stopped machine stays as it is.
pub open spec fn run(s: MachineState, n: nat) -> MachineState
    decreases n,
{
    if n == 0 || s.status != Status::Running {
        s
    } else {
        run(step(s), (n - 1) as nat)
    }
}

/// A machine: its memory, registers, status and its input and output channels.
pub struct Vm {
    pub memory: Memory,
    pub accumulator: i64,
    pub pc: usize,
    pub status: Status,
    pub inputs: Vec<i64>,
    pub input_pos: usize,
    pub outputs: Vec<i64>,
}

impl View for Vm {
    type V = MachineState;

    open spec fn view(&self) -> MachineState {
        MachineState {
            mem: self.memory@,
            acc: self.accumulator as int,
            pc: self.pc as int,
            status: self.status,
            inputs: self.inputs@,
            input_pos: self.input_pos as int,
            outputs: self.outputs@,
        }
    }
}

impl Vm {
    /// Memory well formed, accumulator in the word range, input position
    /// within the inputs.
    pub open spec fn wf(&self) -> bool {
        self.memory.wf() && in_word_range(self.accumulator as int) && self.input_pos
            <= self.inputs@.len()
    }

    /// A running machine at slot zero with a zero accumulator, reading `inputs` in order.
    pub fn new(memory: Memory, inputs: Vec<i64>) -> (r: Vm)
        requires
            memory.wf(),
        ensures
            r.wf(),
            r@ == (MachineState {
                mem: memory@,
                acc: 0,
                pc: 0,
                status: Status::Running,
                inputs: inputs@,
                input_pos: 0,
                outputs: seq![],
            }),
    {
        Vm {
            memory,
            accumulator: 0,
            pc: 0,
            status: Status::Running,
            inputs,
            input_pos: 0,
            outputs: Vec::new(),
        }
    }

    /// Runs one cycle; a stopped machine is left as it is.
    pub fn step(&mut self)
        requires
            old(self).wf(),
        ensures
            final(self).wf(),
            final(self)@ == step(old(self)@),
    {
        if self.status != Status::Running {
            return;
        }
        let w = match self.memory.read(self.pc) {
            Ok(w) => w,
            Err(_) => {
                self.status = Status::Faulted(Fault::AddressOutOfBounds);
                return;
            },
        };
        let next = self.pc + 1;
        if w == 0 {
            self.status = Status::Halted;
            self.pc = next;
            return;
        }
        if w == 901 {
            if self.input_pos < self.inputs.len() {
                self.accumulator = clamp_word(self.inputs[self.input_pos]);
                self.input_pos = self.input_pos + 1;
                self.pc = next;
            } else {
                self.status = Status::Faulted(Fault::InputExhausted);
            }
            return;
        }
        if w == 902 {
            self.outputs.push(self.accumulator);
            self.pc = next;
            return;
        }
        if w < 100 || w >= 900 || (400 <= w && w < 500) {
            self.status = Status::Faulted(Fault::InvalidInstruction);
            return;
        }
        let a = (w % 100) as usize;
        let v = match self.memory.read(a) {
            Ok(v) => v,
            Err(_) => {
                self.status = Status::Faulted(Fault::AddressOutOfBounds);
                return;
            },
        };
        proof {
            assert(in_word_range(self.memory@[a as int] as int));
        }
        if w < 200 {
            self.accumulator = clamp_word(self.accumulator + v);
            self.pc = next;
        } else if w < 300 {
            self.accumulator = clamp_word(self.accumulator - v);
            self.pc = next;
        } else if w < 400 {
            let _ = self.memory.write(a, self.accumulator);
            self.pc = next;
        } else if w < 600 {
            self.accumulator = v;
            self.pc = next;
        } else if w < 700 {
            self.pc = a;
        } else if w < 800 {
            self.pc = if self.accumulator == 0 {
                a
            } else {
                next
            };
        } else {
            self.pc = if self.accumulator >= 0 {
                a
            } else {
                next
            };
        }
    }

    /// Runs until the machine stops or `max_steps` cycles have run.
    pub fn run(&mut self, max_steps: u64)
        requires
            old(self).wf(),
        ensures
            final(self).wf(),
            final(self)@ == run(old(self)@, max_steps as nat),
    {
        let mut k: u64 = 0;
        while k < max_steps && self.status == Status::Running
            invariant
                self.wf(),
                k <= max_steps,
                run(self@, (max_steps - k) as nat) == run(old(self)@, max_steps as nat),
            decreases max_steps - k,
        {
            self.step();
            k = k + 1;
        }
    }
}


/// The state in which a program starts: loaded into the low slots of a zeroed
/// memory of `CAPACITY` slots, counter and accumulator at zero.
pub open spec fn initial_state(program: Seq<i64>, inputs: Seq<i64>) -> MachineState {
    MachineState {
        mem: program + Seq::new((100 - program.len()) as nat, |i: int| 0i64),
        acc: 0,
        pc: 0,
        status: Status::Running,
        inputs,
        input_pos: 0,
        outputs: seq![],
    }
}

/// Loads `program` into a fresh memory and runs it on `inputs` for at most
/// `max_steps` cycles.
pub fn execute(program: &Vec<i64>, inputs: Vec<i64>, max_steps: u64) -> (r: Result<Vm, LoadError>)
    ensures
        match r {
            Ok(vm) => program@.len() <= 100 && all_in_word_range(program@) && vm.wf() && vm@ == run(
                initial_state(program@, inputs@),
                max_steps as nat,
            ),
            Err(e) => e == if program@.len() > 100 {
                LoadError::ProgramTooLong
            } else {
                LoadError::WordOutOfRange
            } && (program@.len() > 100 || !all_in_word_range(program@)),
        },
{
    let mut memory = Memory::new();
    match memory.load(program) {
        Ok(()) => {},
        Err(e) => {
            return Err(e);
        },
    }
    assert(memory@ =~= initial_state(program@, inputs@).mem);
    let mut vm = Vm::new(memory, inputs);
    vm.run(max_steps);
    Ok(vm)
}

/// Loading slot `x` and then writing the accumulator out outputs the word
/// that slot `x` holds, and the machine runs on.
pub proof fn lemma_load_then_output(s: MachineState, x: int)
    requires
        s.status == Status::Running,
        0 <= s.pc,
        s.pc + 1 < s.mem.len(),
        0 <= x < s.mem.len(),
        x < 100,
        s.mem[s.pc] == 500 + x,
        s.mem[s.pc + 1] == 902,
    ensures
        run(s, 2).status == Status::Running,
        run(s, 2).acc == s.mem[x] as int,
        run(s, 2).outputs == s.outputs.push(s.mem[x]),
        run(s, 2).pc == s.pc + 2,
{
    let s1 = step(s);
    assert(s1.acc == s.mem[x] as int && s1.pc == s.pc + 1 && s1.status == Status::Running);
    assert(run(s, 2) == run(s1, 1));
    assert(run(s1, 1) == run(step(s1), 0));
}

/// Storing the accumulator into slot `x` and loading slot `x` back leaves the
/// accumulator as it was and slot `x` holding it (where `x` is not the slot
/// of the load itself, which the store would overwrite).
pub proof fn lemma_store_then_load(s: MachineState, x: int)
    requires
        s.status == Status::Running,
        in_word_range(s.acc),
        0 <= s.pc,
        s.pc + 1 < s.mem.len(),
        0 <= x < s.mem.len(),
        x < 100,
        s.mem[s.pc] == 300 + x,
        s.mem[s.pc + 1] == 500 + x,
        x != s.pc + 1,
    ensures
        run(s, 2).status == Status::Running,
        run(s, 2).acc == s.acc,
        run(s, 2).mem[x] as int == s.acc,
        run(s, 2).pc == s.pc + 2,
{
    let s1 = step(s);
    assert(s1.mem == s.mem.update(x, s.acc as i64));
    assert(s1.mem[s.pc + 1] == 500 + x);
    assert(run(s, 2) == run(s1, 1));
    assert(run(s1, 1) == run(step(s1), 0));
}

/// Adding slot `x` and then subtracting it gives the accumulator back, where
/// the sum stays in the word range.
pub proof fn lemma_add_then_sub(s: MachineState, x: int)
    requires
        s.status == Status::Running,
        in_word_range(s.acc),
        0 <= s.pc,
        s.pc + 1 < s.mem.len(),
        0 <= x < s.mem.len(),
        x < 100,
        s.mem[s.pc] == 100 + x,
        s.mem[s.pc + 1] == 200 + x,
        in_word_range(s.acc + s.mem[x]),
    ensures
        run(s, 2).status == Status::Running,
        run(s, 2).acc == s.acc,
        run(s, 2).mem == s.mem,
{
    let s1 = step(s);
    assert(s1.acc == s.acc + s.mem[x]);
    assert(run(s, 2) == run(s1, 1));
    assert(run(s1, 1) == run(step(s1), 0));
}

/// A halt stops the machine at once: memory, accumulator, inputs and outputs
/// stay as they were, and however many more cycles are allowed, nothing
/// after it runs.
pub proof fn lemma_halt_is_final(s: MachineState, n: nat)
    requires
        s.status == Status::Running,
        0 <= s.pc < s.mem.len(),
        s.mem[s.pc] == 0,
    ensures
        step(s).status == Status::Halted,
        step(s).mem == s.mem,
        step(s).acc == s.acc,
        step(s).input_pos == s.input_pos,
        step(s).outputs == s.outputs,
        run(s, n + 1) == step(s),
{
    assert(run(s, n + 1) == run(step(s), n));
}

/// A branch-if-zero to slot `x` goes to `x` exactly when the accumulator is
/// zero, and otherwise falls through to the next slot; nothing else changes.
pub proof fn lemma_branch_if_zero(s: MachineState, x: int)
    requires
        s.status == Status::Running,
        0 <= s.pc < s.mem.len(),
        0 <= x < s.mem.len(),
        x < 100,
        s.mem[s.pc] == 700 + x,
    ensures
        step(s) == (MachineState { pc: if s.acc == 0 { x } else { s.pc + 1 }, ..s }),
{
}

/// A branch-if-positive to slot `x` goes to `x` exactly when the accumulator
/// is not negative, and otherwise falls through to the next slot; nothing
/// else changes.
pub proof fn lemma_branch_if_positive(s: MachineState, x: int)
    requires
        s.status == Status::Running,
        0 <= s.pc < s.mem.len(),
        0 <= x < s.mem.len(),
        x < 100,
        s.mem[s.pc] == 800 + x,
    ensures
        step(s) == (MachineState { pc: if s.acc >= 0 { x } else { s.pc + 1 }, ..s }),
{
}

} // verus!
