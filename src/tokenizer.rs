use vstd::prelude::*;
use vstd::string::StringSliceAdditionalSpecFns;

verus! {

/// Byte of a newline.
pub const NEWLINE: u8 = 10;

/// Byte of a slash; two in a row start a comment.
pub const SLASH: u8 = 47;

/// Whitespace bytes that separate the words of a line.
pub open spec fn is_space(b: u8) -> bool {
    b == 32 || b == 9 || b == 10 || b == 11 || b == 12 || b == 13
}

/// Position of the first non-space byte in `[i, e)`, or `e`.
pub open spec fn skip_space(s: Seq<u8>, i: int, e: int) -> int
    decreases e - i,
{
    if i >= e || !is_space(s[i]) {
        i
    } else {
        skip_space(s, i + 1, e)
    }
}

/// Position of the first space byte in `[i, e)`, or `e`: the end of a word starting at `i`.
pub open spec fn word_end(s: Seq<u8>, i: int, e: int) -> int
    decreases e - i,
{
    if i >= e || is_space(s[i]) {
        i
    } else {
        word_end(s, i + 1, e)
    }
}

/// Position of the first `//` inside `[i, e)`, or `e`: where the code of a line ends.
pub open spec fn code_end(s: Seq<u8>, i: int, e: int) -> int
    decreases e - i,
{
    if i + 1 >= e {
        e
    } else if s[i] == SLASH && s[i + 1] == SLASH {
        i
    } else {
        code_end(s, i + 1, e)
    }
}

/// A source line that holds code: its zero-based line number and the byte
/// range of its code, comment removed.
#[derive(Clone, Copy, Debug, PartialEq, Eq)]
pub struct Statement {
    pub line: usize,
    pub start: usize,
    pub end: usize,
}

/// The statement that the line `[ls, le)` with number `n` yields: none when the
/// line is blank once its comment is removed.
pub open spec fn line_statement(s: Seq<u8>, ls: int, le: int, n: int) -> Seq<Statement> {
    let ce = code_end(s, ls, le);
    if skip_space(s, ls, ce) < ce {
        seq![Statement { line: n as usize, start: ls as usize, end: ce as usize }]
    } else {
        seq![]
    }
}

/// The statements of the text from position `i` on, where the current line
/// started at `ls` and has number `n`.
pub open spec fn statements(s: Seq<u8>, i: int, ls: int, n: int) -> Seq<Statement>
    decreases s.len() - i,
{
    if i >= s.len() {
        line_statement(s, ls, s.len() as int, n)
    } else if s[i] == NEWLINE {
        line_statement(s, ls, i, n) + statements(s, i + 1, i + 1, n + 1)
    } else {
        statements(s, i + 1, ls, n)
    }
}

/// The statements of a source text, in order; statement `k` goes to memory slot `k`.
pub open spec fn program(s: Seq<u8>) -> Seq<Statement> {
    statements(s, 0, 0, 0)
}

fn skip_space_exec(s: &[u8], i: usize, e: usize) -> (r: usize)
    requires
        i <= e <= s@.len(),
    ensures
        r as int == skip_space(s@, i as int, e as int),
        i <= r <= e,
{
    let mut j: usize = i;
    while j < e && (s[j] == 32 || s[j] == 9 || s[j] == 10 || s[j] == 11 || s[j] == 12 || s[j] == 13)
        invariant
            i <= j <= e,
            e <= s@.len(),
            skip_space(s@, j as int, e as int) == skip_space(s@, i as int, e as int),
        decreases e - j,
    {
        j = j + 1;
    }
    j
}

fn word_end_exec(s: &[u8], i: usize, e: usize) -> (r: usize)
    requires
        i <= e <= s@.len(),
    ensures
        r as int == word_end(s@, i as int, e as int),
        i <= r <= e,
{
    let mut j: usize = i;
    while j < e && !(s[j] == 32 || s[j] == 9 || s[j] == 10 || s[j] == 11 || s[j] == 12 || s[j] == 13)
        invariant
            i <= j <= e,
            e <= s@.len(),
            word_end(s@, j as int, e as int) == word_end(s@, i as int, e as int),
        decreases e - j,
    {
        j = j + 1;
    }
    j
}

fn code_end_exec(s: &[u8], i: usize, e: usize) -> (r: usize)
    requires
        i <= e <= s@.len(),
    ensures
        r as int == code_end(s@, i as int, e as int),
        i <= r <= e,
{
    let mut j: usize = i;
    while e > 0 && j < e - 1
        invariant
            i <= j <= e,
            e <= s@.len(),
            code_end(s@, j as int, e as int) == code_end(s@, i as int, e as int),
        decreases e - j,
    {
        if s[j] == SLASH && s[j + 1] == SLASH {
            return j;
        }
        j = j + 1;
    }
    e
}

fn push_line_statement(s: &[u8], out: &mut Vec<Statement>, ls: usize, le: usize, n: usize)
    requires
        ls <= le <= s@.len(),
    ensures
        final(out)@ == old(out)@ + line_statement(s@, ls as int, le as int, n as int),
        within(s@, old(out)@) ==> within(s@, final(out)@),
{
    let ce = code_end_exec(s, ls, le);
    if skip_space_exec(s, ls, ce) < ce {
        out.push(Statement { line: n, start: ls, end: ce });
    }
    assert(final(out)@ =~= old(out)@ + line_statement(s@, ls as int, le as int, n as int));
}

/// Splits a text into its statements.
fn scan_statements(s: &[u8]) -> (r: Vec<Statement>)
    ensures
        r@ == program(s@),
        within(s@, r@),
{
    let mut out: Vec<Statement> = Vec::new();
    let mut i: usize = 0;
    let mut ls: usize = 0;
    let mut n: usize = 0;
    while i < s.len()
        invariant
            ls <= i <= s@.len(),
            n <= i,
            out@ + statements(s@, i as int, ls as int, n as int) == program(s@),
            within(s@, out@),
        decreases s@.len() - i,
    {
        if s[i] == NEWLINE {
            let ghost before = out@;
            push_line_statement(s, &mut out, ls, i, n);
            assert(before + statements(s@, i as int, ls as int, n as int) =~= out@
                + statements(s@, i + 1, i + 1, n + 1));
            ls = i + 1;
            n = n + 1;
        }
        i = i + 1;
    }
    push_line_statement(s, &mut out, ls, s.len(), n);
    out
}


/// The instruction keywords of the assembly language, `DAT` included.
#[derive(Clone, Copy, Debug, PartialEq, Eq)]
pub enum Mnemonic {
    Add,
    Sub,
    Sta,
    Lda,
    Bra,
    Brz,
    Brp,
    Inp,
    Out,
    Hlt,
    Dat,
}

/// ASCII upper case of a byte.
pub open spec fn upper(b: u8) -> u8 {
    if 97 <= b <= 122 {
        (b - 32) as u8
    } else {
        b
    }
}

/// The keyword spelt by three upper-case bytes.
pub open spec fn keyword(a: u8, b: u8, c: u8) -> Option<Mnemonic> {
    if a == 65 && b == 68 && c == 68 {
        Some(Mnemonic::Add)
    } else if a == 83 && b == 85 && c == 66 {
        Some(Mnemonic::Sub)
    } else if a == 83 && b == 84 && c == 65 {
        Some(Mnemonic::Sta)
    } else if a == 76 && b == 68 && c == 65 {
        Some(Mnemonic::Lda)
    } else if a == 66 && b == 82 && c == 65 {
        Some(Mnemonic::Bra)
    } else if a == 66 && b == 82 && c == 90 {
        Some(Mnemonic::Brz)
    } else if a == 66 && b == 82 && c == 80 {
        Some(Mnemonic::Brp)
    } else if a == 73 && b == 78 && c == 80 {
        Some(Mnemonic::Inp)
    } else if a == 79 && b == 85 && c == 84 {
        Some(Mnemonic::Out)
    } else if a == 72 && b == 76 && c == 84 {
        Some(Mnemonic::Hlt)
    } else if a == 68 && b == 65 && c == 84 {
        Some(Mnemonic::Dat)
    } else {
        None
    }
}

/// The keyword a word spells, ignoring ASCII case.
pub open spec fn mnemonic_of(w: Seq<u8>) -> Option<Mnemonic> {
    if w.len() == 3 {
        keyword(upper(w[0]), upper(w[1]), upper(w[2]))
    } else {
        None
    }
}

/// The class base that an addressable keyword adds to its operand (zero for the others).
pub open spec fn base_of(m: Mnemonic) -> i64 {
    match m {
        Mnemonic::Add => 100,
        Mnemonic::Sub => 200,
        Mnemonic::Sta => 300,
        Mnemonic::Lda => 500,
        Mnemonic::Bra => 600,
        Mnemonic::Brz => 700,
        Mnemonic::Brp => 800,
        _ => 0,
    }
}

fn base_exec(m: Mnemonic) -> (r: i64)
    ensures
        r == base_of(m),
{
    match m {
        Mnemonic::Add => 100,
        Mnemonic::Sub => 200,
        Mnemonic::Sta => 300,
        Mnemonic::Lda => 500,
        Mnemonic::Bra => 600,
        Mnemonic::Brz => 700,
        Mnemonic::Brp => 800,
        _ => 0,
    }
}

fn upper_exec(b: u8) -> (r: u8)
    ensures
        r == upper(b),
{
    if 97 <= b && b <= 122 {
        b - 32
    } else {
        b
    }
}

fn keyword_exec(a: u8, b: u8, c: u8) -> (r: Option<Mnemonic>)
    ensures
        r == keyword(a, b, c),
{
    if a == 65 && b == 68 && c == 68 {
        Some(Mnemonic::Add)
    } else if a == 83 && b == 85 && c == 66 {
        Some(Mnemonic::Sub)
    } else if a == 83 && b == 84 && c == 65 {
        Some(Mnemonic::Sta)
    } else if a == 76 && b == 68 && c == 65 {
        Some(Mnemonic::Lda)
    } else if a == 66 && b == 82 && c == 65 {
        Some(Mnemonic::Bra)
    } else if a == 66 && b == 82 && c == 90 {
        Some(Mnemonic::Brz)
    } else if a == 66 && b == 82 && c == 80 {
        Some(Mnemonic::Brp)
    } else if a == 73 && b == 78 && c == 80 {
        Some(Mnemonic::Inp)
    } else if a == 79 && b == 85 && c == 84 {
        Some(Mnemonic::Out)
    } else if a == 72 && b == 76 && c == 84 {
        Some(Mnemonic::Hlt)
    } else if a == 68 && b == 65 && c == 84 {
        Some(Mnemonic::Dat)
    } else {
        None
    }
}

fn mnemonic_at(s: &[u8], a: usize, b: usize) -> (r: Option<Mnemonic>)
    requires
        a <= b <= s@.len(),
    ensures
        r == mnemonic_of(s@.subrange(a as int, b as int)),
{
    if b - a == 3 {
        keyword_exec(upper_exec(s[a]), upper_exec(s[a + 1]), upper_exec(s[a + 2]))
    } else {
        None
    }
}

/// A byte is an ASCII decimal digit.
pub open spec fn is_digit(b: u8) -> bool {
    48 <= b <= 57
}

/// A word is a non-empty run of decimal digits.
pub open spec fn is_decimal(w: Seq<u8>) -> bool {
    w.len() > 0 && forall|i: int| 0 <= i < w.len() ==> is_digit(#[trigger] w[i])
}

/// The number that a run of decimal digits spells.
pub open spec fn decimal_value(w: Seq<u8>) -> int
    decreases w.len(),
{
    if w.len() == 0 {
        0
    } else {
        decimal_value(w.drop_last()) * 10 + (w.last() - 48)
    }
}

/// The number a word spells, where it is decimal and at most `limit`.
pub open spec fn parse_decimal(w: Seq<u8>, limit: int) -> Option<int> {
    if is_decimal(w) && decimal_value(w) <= limit {
        Some(decimal_value(w))
    } else {
        None
    }
}

fn parse_decimal_exec(s: &[u8], a: usize, b: usize, limit: u64) -> (r: Option<u64>)
    requires
        a <= b <= s@.len(),
        limit <= 999,
    ensures
        match r {
            Some(v) => parse_decimal(s@.subrange(a as int, b as int), limit as int) == Some(v as int),
            None => parse_decimal(s@.subrange(a as int, b as int), limit as int) is None,
        },
{
    let ghost w = s@.subrange(a as int, b as int);
    if a == b {
        return None;
    }
    let mut v: u64 = 0;
    let mut j: usize = a;
    while j < b
        invariant
            a <= j <= b <= s@.len(),
            w == s@.subrange(a as int, b as int),
            limit <= 999,
            v <= limit + 1,
            forall|i: int| a <= i < j ==> is_digit(s@[i]),
            v as int == if decimal_value(s@.subrange(a as int, j as int)) <= limit {
                decimal_value(s@.subrange(a as int, j as int))
            } else {
                limit + 1
            },
        decreases b - j,
    {
        let c = s[j];
        if !(48 <= c && c <= 57) {
            assert(w[j - a] == c);
            return None;
        }
        let ghost p = s@.subrange(a as int, j as int);
        assert(s@.subrange(a as int, j + 1).drop_last() =~= p);
        if v > limit {
            v = limit + 1;
        } else {
            v = v * 10 + (c - 48) as u64;
            if v > limit {
                v = limit + 1;
            }
        }
        j = j + 1;
    }
    assert(s@.subrange(a as int, j as int) =~= w);
    assert forall|i: int| 0 <= i < w.len() implies is_digit(#[trigger] w[i]) by {
        assert(w[i] == s@[a + i]);
    }
    if v > limit {
        None
    } else {
        Some(v)
    }
}


/// Why a source text does not assemble; each carries the zero-based number of
/// the offending source line.
#[derive(Clone, Copy, Debug, PartialEq, Eq)]
pub enum AssemblyError {
    /// The line names no instruction keyword where one is due.
    UnknownInstruction(usize),
    /// An addressable instruction has no operand.
    MissingOperand(usize),
    /// An operand is neither a known label nor a number in range.
    InvalidOperand(usize),
    /// The line defines a label that an earlier line defined already.
    DuplicateLabel(usize),
}

/// The word that starts at or after `i` in `[i, e)`, as a byte range.
pub open spec fn next_word(s: Seq<u8>, i: int, e: int) -> (int, int) {
    let a = skip_space(s, i, e);
    (a, word_end(s, a, e))
}

/// The bytes of a range.
pub open spec fn bytes_of(s: Seq<u8>, w: (int, int)) -> Seq<u8> {
    s.subrange(w.0, w.1)
}

/// The first word of a statement.
pub open spec fn first_word(s: Seq<u8>, st: Statement) -> (int, int) {
    next_word(s, st.start as int, st.end as int)
}

/// A statement whose first word is no keyword starts with a label.
pub open spec fn has_label(s: Seq<u8>, st: Statement) -> bool {
    mnemonic_of(bytes_of(s, first_word(s, st))) is None
}

/// The label a statement defines, if any.
pub open spec fn label_of(s: Seq<u8>, st: Statement) -> Option<Seq<u8>> {
    if has_label(s, st) {
        Some(bytes_of(s, first_word(s, st)))
    } else {
        None
    }
}

/// The word of a statement that should hold its keyword.
pub open spec fn instruction_word(s: Seq<u8>, st: Statement) -> (int, int) {
    if has_label(s, st) {
        next_word(s, first_word(s, st).1, st.end as int)
    } else {
        first_word(s, st)
    }
}

/// The word of a statement after its keyword; empty when there is none.
pub open spec fn operand_word(s: Seq<u8>, st: Statement) -> (int, int) {
    next_word(s, instruction_word(s, st).1, st.end as int)
}

/// The index of the first statement in `[j, k)` that defines label `name`.
pub open spec fn lookup_from(s: Seq<u8>, prog: Seq<Statement>, name: Seq<u8>, j: int, k: int) -> Option<int>
    decreases k - j,
{
    if j >= k {
        None
    } else if label_of(s, prog[j]) == Some(name) {
        Some(j)
    } else {
        lookup_from(s, prog, name, j + 1, k)
    }
}

/// The slot of label `name` among the first `k` statements.
pub open spec fn lookup(s: Seq<u8>, prog: Seq<Statement>, name: Seq<u8>, k: int) -> Option<int> {
    lookup_from(s, prog, name, 0, k)
}

/// The value of an address operand: the slot of a label of that name, else a
/// decimal number; either must address one of the hundred slots.
pub open spec fn resolve(s: Seq<u8>, prog: Seq<Statement>, name: Seq<u8>) -> Option<int> {
    match lookup(s, prog, name, prog.len() as int) {
        Some(j) => if j <= 99 {
            Some(j)
        } else {
            None
        },
        None => parse_decimal(name, 99),
    }
}

/// The word that statement `k` assembles to.
pub open spec fn encode_statement(s: Seq<u8>, prog: Seq<Statement>, k: int) -> Result<i64, AssemblyError> {
    let st = prog[k];
    let operand = bytes_of(s, operand_word(s, st));
    match mnemonic_of(bytes_of(s, instruction_word(s, st))) {
        None => Err(AssemblyError::UnknownInstruction(st.line)),
        Some(Mnemonic::Inp) => Ok(901),
        Some(Mnemonic::Out) => Ok(902),
        Some(Mnemonic::Hlt) => Ok(0),
        Some(Mnemonic::Dat) => if operand.len() == 0 {
            Ok(0)
        } else {
            match parse_decimal(operand, 999) {
                Some(v) => Ok(v as i64),
                None => Err(AssemblyError::InvalidOperand(st.line)),
            }
        },
        Some(m) => if operand.len() == 0 {
            Err(AssemblyError::MissingOperand(st.line))
        } else {
            match resolve(s, prog, operand) {
                Some(v) => Ok((base_of(m) + v) as i64),
                None => Err(AssemblyError::InvalidOperand(st.line)),
            }
        },
    }
}

/// The first statement from `k` on that defines a label an earlier one defined.
pub open spec fn label_clash(s: Seq<u8>, prog: Seq<Statement>, k: int) -> Option<AssemblyError>
    decreases prog.len() - k,
{
    if k >= prog.len() {
        None
    } else {
        match label_of(s, prog[k]) {
            Some(name) if lookup(s, prog, name, k) is Some => Some(
                AssemblyError::DuplicateLabel(prog[k].line),
            ),
            _ => label_clash(s, prog, k + 1),
        }
    }
}

/// The words of the statements from `k` on, or the first statement's error.
pub open spec fn encode_from(s: Seq<u8>, prog: Seq<Statement>, k: int) -> Result<Seq<i64>, AssemblyError>
    decreases prog.len() - k,
{
    if k >= prog.len() {
        Ok(seq![])
    } else {
        match encode_statement(s, prog, k) {
            Err(e) => Err(e),
            Ok(w) => match encode_from(s, prog, k + 1) {
                Ok(ws) => Ok(seq![w] + ws),
                Err(e) => Err(e),
            },
        }
    }
}

/// What a source text assembles to: the label check runs over the whole
/// text first, then the statements are encoded in order.
pub open spec fn assemble(s: Seq<u8>) -> Result<Seq<i64>, AssemblyError> {
    let prog = program(s);
    match label_clash(s, prog, 0) {
        Some(e) => Err(e),
        None => encode_from(s, prog, 0),
    }
}

/// Every statement's code range lies inside the text.
pub open spec fn within(s: Seq<u8>, prog: Seq<Statement>) -> bool {
    forall|k: int| 0 <= k < prog.len() ==> #[trigger] prog[k].start <= prog[k].end <= s.len()
}

fn next_word_exec(s: &[u8], i: usize, e: usize) -> (r: (usize, usize))
    requires
        i <= e <= s@.len(),
    ensures
        r.0 as int == next_word(s@, i as int, e as int).0,
        r.1 as int == next_word(s@, i as int, e as int).1,
        i <= r.0 <= r.1 <= e,
{
    let a = skip_space_exec(s, i, e);
    let b = word_end_exec(s, a, e);
    (a, b)
}

/// The first word of a statement, and whether it is a label.
fn first_word_exec(s: &[u8], st: Statement) -> (r: (usize, usize, bool))
    requires
        st.start <= st.end <= s@.len(),
    ensures
        r.0 as int == first_word(s@, st).0,
        r.1 as int == first_word(s@, st).1,
        st.start <= r.0 <= r.1 <= st.end,
        r.2 == has_label(s@, st),
{
    let (a, b) = next_word_exec(s, st.start, st.end);
    let m = mnemonic_at(s, a, b);
    (a, b, m.is_none())
}

fn same_bytes(s: &[u8], a: usize, b: usize, c: usize, d: usize) -> (r: bool)
    requires
        a <= b <= s@.len(),
        c <= d <= s@.len(),
    ensures
        r == (s@.subrange(a as int, b as int) == s@.subrange(c as int, d as int)),
{
    if b - a != d - c {
        assert(s@.subrange(a as int, b as int).len() != s@.subrange(c as int, d as int).len());
        return false;
    }
    let mut j: usize = 0;
    while j < b - a
        invariant
            a <= b <= s@.len(),
            c <= d <= s@.len(),
            b - a == d - c,
            j <= b - a,
            forall|i: int| 0 <= i < j ==> s@.subrange(a as int, b as int)[i] == #[trigger] s@.subrange(c as int, d as int)[i],
        decreases b - a - j,
    {
        if s[a + j] != s[c + j] {
            assert(s@.subrange(a as int, b as int)[j as int] != s@.subrange(c as int, d as int)[j as int]);
            return false;
        }
        j = j + 1;
    }
    assert(s@.subrange(a as int, b as int) =~= s@.subrange(c as int, d as int));
    true
}

/// The first of the first `k` statements that defines the label spelt by `[a, b)`.
fn find_label(s: &[u8], prog: &Vec<Statement>, a: usize, b: usize, k: usize) -> (r: Option<usize>)
    requires
        within(s@, prog@),
        a <= b <= s@.len(),
        k <= prog@.len(),
    ensures
        match r {
            Some(j) => lookup(s@, prog@, s@.subrange(a as int, b as int), k as int) == Some(j as int),
            None => lookup(s@, prog@, s@.subrange(a as int, b as int), k as int) is None,
        },
{
    let ghost name = s@.subrange(a as int, b as int);
    let mut j: usize = 0;
    while j < k
        invariant
            within(s@, prog@),
            a <= b <= s@.len(),
            k <= prog@.len(),
            j <= k,
            name == s@.subrange(a as int, b as int),
            lookup_from(s@, prog@, name, j as int, k as int) == lookup(s@, prog@, name, k as int),
        decreases k - j,
    {
        let st = prog[j];
        assert(st == prog@[j as int]);
        let (c, d, labelled) = first_word_exec(s, st);
        if labelled && same_bytes(s, c, d, a, b) {
            return Some(j);
        }
        j = j + 1;
    }
    None
}

/// The word that statement `k` assembles to.
fn encode_statement_exec(s: &[u8], prog: &Vec<Statement>, k: usize) -> (r: Result<i64, AssemblyError>)
    requires
        within(s@, prog@),
        k < prog@.len(),
    ensures
        r == encode_statement(s@, prog@, k as int),
{
    let st = prog[k];
    assert(st == prog@[k as int]);
    let (a, b, labelled) = first_word_exec(s, st);
    let (ia, ib) = if labelled {
        next_word_exec(s, b, st.end)
    } else {
        (a, b)
    };
    let (oa, ob) = next_word_exec(s, ib, st.end);
    let m = mnemonic_at(s, ia, ib);
    match m {
        None => Err(AssemblyError::UnknownInstruction(st.line)),
        Some(Mnemonic::Inp) => Ok(901),
        Some(Mnemonic::Out) => Ok(902),
        Some(Mnemonic::Hlt) => Ok(0),
        Some(Mnemonic::Dat) => {
            if oa == ob {
                Ok(0)
            } else {
                match parse_decimal_exec(s, oa, ob, 999) {
                    Some(v) => Ok(v as i64),
                    None => Err(AssemblyError::InvalidOperand(st.line)),
                }
            }
        },
        Some(m) => {
            if oa == ob {
                return Err(AssemblyError::MissingOperand(st.line));
            }
            let v = match find_label(s, prog, oa, ob, prog.len()) {
                Some(j) => if j <= 99 {
                    Some(j as u64)
                } else {
                    None
                },
                None => parse_decimal_exec(s, oa, ob, 99),
            };
            match v {
                Some(v) => Ok(base_exec(m) + v as i64),
                None => Err(AssemblyError::InvalidOperand(st.line)),
            }
        },
    }
}

/// Assembles a source text into its machine words, one per statement, in slot order.
///
/// Pass one collects the labels: a statement whose first word is no keyword
/// defines that word as a label for its own slot. Pass two encodes each
/// statement; an address operand is a label's slot or a decimal number.
pub fn generate_tokenized_instructions(source: &str) -> (r: Result<Vec<i64>, AssemblyError>)
    ensures
        assemble(source.spec_bytes()) == match r {
            Ok(ws) => Ok(ws@),
            Err(e) => Err(e),
        },
{
    let s = source.as_bytes();
    let prog = scan_statements(s);
    let mut k: usize = 0;
    while k < prog.len()
        invariant
            s@ == source.spec_bytes(),
            prog@ == program(s@),
            within(s@, prog@),
            k <= prog@.len(),
            label_clash(s@, prog@, k as int) == label_clash(s@, prog@, 0),
        decreases prog@.len() - k,
    {
        let st = prog[k];
        assert(st == prog@[k as int]);
        let (a, b, labelled) = first_word_exec(s, st);
        if labelled {
            if find_label(s, &prog, a, b, k).is_some() {
                assert(label_of(s@, prog@[k as int]) == Some(s@.subrange(a as int, b as int)));
                assert(label_clash(s@, prog@, k as int) == Some(AssemblyError::DuplicateLabel(st.line)));
                return Err(AssemblyError::DuplicateLabel(st.line));
            }
        }
        k = k + 1;
    }
    let mut out: Vec<i64> = Vec::new();
    k = 0;
    while k < prog.len()
        invariant
            s@ == source.spec_bytes(),
            prog@ == program(s@),
            within(s@, prog@),
            k <= prog@.len(),
            label_clash(s@, prog@, 0) is None,
            encode_from(s@, prog@, 0) == match encode_from(s@, prog@, k as int) {
                Ok(ws) => Ok(out@ + ws),
                Err(e) => Err(e),
            },
        decreases prog@.len() - k,
    {
        match encode_statement_exec(s, &prog, k) {
            Ok(w) => {
                let ghost before = out@;
                out.push(w);
                proof {
                    match encode_from(s@, prog@, k + 1) {
                        Ok(ws) => {
                            assert(before + (seq![w] + ws) =~= out@ + ws);
                        },
                        Err(e) => {},
                    }
                }
            },
            Err(e) => {
                assert(encode_from(s@, prog@, k as int) == Err::<Seq<i64>, AssemblyError>(e));
                return Err(e);
            },
        }
        k = k + 1;
    }
    assert(out@ + seq![] =~= out@);
    Ok(out)
}


proof fn lemma_encode_from(s: Seq<u8>, prog: Seq<Statement>, k: int, ws: Seq<i64>)
    requires
        0 <= k <= prog.len(),
        encode_from(s, prog, k) == Ok::<Seq<i64>, AssemblyError>(ws),
    ensures
        ws.len() == prog.len() - k,
        forall|i: int|
            k <= i < prog.len() ==> encode_statement(s, prog, i) == Ok::<i64, AssemblyError>(
                #[trigger] ws[i - k],
            ),
    decreases prog.len() - k,
{
    if k < prog.len() {
        let w = encode_statement(s, prog, k)->Ok_0;
        let rest = encode_from(s, prog, k + 1)->Ok_0;
        lemma_encode_from(s, prog, k + 1, rest);
        assert(ws == seq![w] + rest);
        assert forall|i: int| k <= i < prog.len() implies encode_statement(s, prog, i) == Ok::<
            i64,
            AssemblyError,
        >(#[trigger] ws[i - k]) by {
            if i > k {
                assert(ws[i - k] == rest[i - (k + 1)]);
            }
        }
    }
}

proof fn lemma_no_clash(s: Seq<u8>, prog: Seq<Statement>, k: int, i: int)
    requires
        0 <= k <= i < prog.len(),
        label_clash(s, prog, k) is None,
        label_of(s, prog[i]) is Some,
    ensures
        lookup(s, prog, label_of(s, prog[i])->Some_0, i) is None,
    decreases i - k,
{
    if k < i {
        lemma_no_clash(s, prog, k + 1, i);
    }
}

proof fn lemma_first_definition(s: Seq<u8>, prog: Seq<Statement>, name: Seq<u8>, j: int, k: int, n: int)
    requires
        0 <= j <= k < n <= prog.len(),
        lookup_from(s, prog, name, j, k) is None,
        label_of(s, prog[k]) == Some(name),
    ensures
        lookup_from(s, prog, name, j, n) == Some(k),
    decreases k - j,
{
    if j < k {
        lemma_first_definition(s, prog, name, j + 1, k, n);
    }
}

/// A label used as the operand of an addressable instruction resolves to the
/// slot of the statement that defines it: its index among the statements, so
/// blank and comment-only lines take no slot, whether the definition comes
/// before or after the use.
pub proof fn lemma_label_resolves_to_slot(s: Seq<u8>, ws: Seq<i64>, j: int, k: int, m: Mnemonic)
    requires
        assemble(s) == Ok::<Seq<i64>, AssemblyError>(ws),
        0 <= j < program(s).len(),
        0 <= k < program(s).len(),
        mnemonic_of(bytes_of(s, instruction_word(s, program(s)[j]))) == Some(m),
        base_of(m) > 0,
        label_of(s, program(s)[k]) == Some(bytes_of(s, operand_word(s, program(s)[j]))),
    ensures
        0 <= k <= 99,
        ws[j] == base_of(m) + k,
{
    let prog = program(s);
    let name = bytes_of(s, operand_word(s, prog[j]));
    lemma_encode_from(s, prog, 0, ws);
    assert(encode_statement(s, prog, j) == Ok::<i64, AssemblyError>(ws[j - 0]));
    lemma_no_clash(s, prog, 0, k);
    lemma_first_definition(s, prog, name, 0, k, prog.len() as int);
    assert(lookup(s, prog, name, prog.len() as int) == Some(k));
    assert(name.len() > 0) by {
        if name.len() == 0 {
            assert(encode_statement(s, prog, j) is Err);
        }
    }
}


/// Why a sequence of words or a binary image cannot be converted.
#[derive(Clone, Copy, Debug, PartialEq, Eq)]
pub enum BinaryError {
    /// A word lies outside `0..=999` and has no three-digit form.
    WordOutOfRange,
    /// The image's length is not a multiple of three.
    MalformedLength,
    /// A byte of the image is not a decimal digit.
    InvalidDigit,
}

/// Every word lies in `0..=999`, the range the binary format can hold.
pub open spec fn words_in_range(ws: Seq<i64>) -> bool {
    forall|i: int| 0 <= i < ws.len() ==> 0 <= #[trigger] ws[i] <= 999
}

/// Digit `d` (0 for hundreds, 1 for tens, 2 for units) of a word, as an ASCII byte.
pub open spec fn digit_byte(w: i64, d: int) -> u8 {
    if d == 0 {
        (48 + w / 100) as u8
    } else if d == 1 {
        (48 + (w / 10) % 10) as u8
    } else {
        (48 + w % 10) as u8
    }
}

/// The binary image of a sequence of words: three zero-padded decimal digits
/// per word, with no separators.
pub open spec fn encode_words(ws: Seq<i64>) -> Seq<u8> {
    Seq::new(3 * ws.len(), |i: int| digit_byte(ws[i / 3], i % 3))
}

/// The word spelt by the three bytes at `i`, if they are all digits.
pub open spec fn chunk_value(b: Seq<u8>, i: int) -> Option<i64> {
    if is_digit(b[i]) && is_digit(b[i + 1]) && is_digit(b[i + 2]) {
        Some(((b[i] - 48) * 100 + (b[i + 1] - 48) * 10 + (b[i + 2] - 48)) as i64)
    } else {
        None
    }
}

/// The words that a binary image holds, read in three-byte chunks.
pub open spec fn decode_binary(b: Seq<u8>) -> Result<Seq<i64>, BinaryError> {
    if b.len() % 3 != 0 {
        Err(BinaryError::MalformedLength)
    } else if forall|k: int| 0 <= k < b.len() / 3 ==> #[trigger] chunk_value(b, 3 * k) is Some {
        Ok(Seq::new((b.len() / 3) as nat, |k: int| chunk_value(b, 3 * k)->Some_0))
    } else {
        Err(BinaryError::InvalidDigit)
    }
}

/// Writes the binary image of a program: each word as three zero-padded
/// decimal digits, concatenated in order.
pub fn generate_binary(tokenized_instructions: Vec<i64>) -> (r: Result<Vec<u8>, BinaryError>)
    ensures
        match r {
            Ok(b) => words_in_range(tokenized_instructions@) && b@ == encode_words(
                tokenized_instructions@,
            ),
            Err(e) => !words_in_range(tokenized_instructions@) && e == BinaryError::WordOutOfRange,
        },
{
    let ws = &tokenized_instructions;
    let mut out: Vec<u8> = Vec::new();
    let mut k: usize = 0;
    while k < ws.len()
        invariant
            ws@ == tokenized_instructions@,
            k <= ws@.len(),
            forall|i: int| 0 <= i < k ==> 0 <= #[trigger] ws@[i] <= 999,
            out@.len() == 3 * k,
            forall|i: int| 0 <= i < 3 * k ==> #[trigger] out@[i] == digit_byte(ws@[i / 3], i % 3),
        decreases ws@.len() - k,
    {
        let w = ws[k];
        if w < 0 || w > 999 {
            assert(!(0 <= ws@[k as int] <= 999));
            return Err(BinaryError::WordOutOfRange);
        }
        out.push((48 + w / 100) as u8);
        out.push((48 + (w / 10) % 10) as u8);
        out.push((48 + w % 10) as u8);
        assert forall|i: int| 0 <= i < 3 * (k + 1) implies #[trigger] out@[i] == digit_byte(
            ws@[i / 3],
            i % 3,
        ) by {
            if i >= 3 * k {
                assert(i / 3 == k);
            }
        }
        k = k + 1;
    }
    assert(out@ =~= encode_words(ws@));
    Ok(out)
}

/// Reads the words of a binary image, three bytes per word.
pub fn generate_instructions(content: &[u8]) -> (r: Result<Vec<i64>, BinaryError>)
    ensures
        decode_binary(content@) == match r {
            Ok(ws) => Ok(ws@),
            Err(e) => Err(e),
        },
{
    let n = content.len();
    if n % 3 != 0 {
        return Err(BinaryError::MalformedLength);
    }
    let mut out: Vec<i64> = Vec::new();
    let mut k: usize = 0;
    while k < n / 3
        invariant
            n == content@.len(),
            n % 3 == 0,
            k <= n / 3,
            out@.len() == k,
            forall|j: int| 0 <= j < k ==> #[trigger] chunk_value(content@, 3 * j) == Some(out@[j]),
        decreases n / 3 - k,
    {
        let i = 3 * k;
        let a = content[i];
        let b = content[i + 1];
        let c = content[i + 2];
        if !(48 <= a && a <= 57 && 48 <= b && b <= 57 && 48 <= c && c <= 57) {
            assert(chunk_value(content@, 3 * k) is None);
            return Err(BinaryError::InvalidDigit);
        }
        out.push(((a - 48) as i64) * 100 + ((b - 48) as i64) * 10 + ((c - 48) as i64));
        k = k + 1;
    }
    assert(out@ =~= Seq::new((n / 3) as nat, |j: int| chunk_value(content@, 3 * j)->Some_0));
    Ok(out)
}

/// Decoding the binary image of words in `0..=999` gives the words back.
pub proof fn lemma_binary_round_trip(ws: Seq<i64>)
    requires
        words_in_range(ws),
    ensures
        decode_binary(encode_words(ws)) == Ok::<Seq<i64>, BinaryError>(ws),
{
    let b = encode_words(ws);
    assert(b.len() / 3 == ws.len());
    assert forall|k: int| 0 <= k < ws.len() implies #[trigger] chunk_value(b, 3 * k) == Some(ws[k]) by {
        assert((3 * k) / 3 == k && (3 * k) % 3 == 0);
        assert((3 * k + 1) / 3 == k && (3 * k + 1) % 3 == 1);
        assert((3 * k + 2) / 3 == k && (3 * k + 2) % 3 == 2);
        let w = ws[k];
        assert(0 <= w <= 999);
        assert((w / 100) * 100 + ((w / 10) % 10) * 10 + w % 10 == w);
    }
    assert(Seq::new((b.len() / 3) as nat, |k: int| chunk_value(b, 3 * k)->Some_0) =~= ws);
}


proof fn lemma_decimal_nonneg(w: Seq<u8>)
    requires
        forall|i: int| 0 <= i < w.len() ==> is_digit(#[trigger] w[i]),
    ensures
        decimal_value(w) >= 0,
    decreases w.len(),
{
    if w.len() > 0 {
        let p = w.drop_last();
        assert forall|i: int| 0 <= i < p.len() implies is_digit(#[trigger] p[i]) by {
            assert(p[i] == w[i]);
        }
        lemma_decimal_nonneg(p);
        assert(is_digit(w[w.len() - 1]));
    }
}

proof fn lemma_lookup_bounds(s: Seq<u8>, prog: Seq<Statement>, name: Seq<u8>, j: int, k: int)
    requires
        0 <= j,
    ensures
        lookup_from(s, prog, name, j, k) matches Some(i) ==> j <= i < k,
    decreases k - j,
{
    if j < k {
        lemma_lookup_bounds(s, prog, name, j + 1, k);
    }
}

proof fn lemma_statement_in_range(s: Seq<u8>, prog: Seq<Statement>, k: int)
    requires
        0 <= k < prog.len(),
        encode_statement(s, prog, k) is Ok,
    ensures
        0 <= encode_statement(s, prog, k)->Ok_0 <= 999,
{
    let operand = bytes_of(s, operand_word(s, prog[k]));
    if is_decimal(operand) {
        lemma_decimal_nonneg(operand);
    }
    lemma_lookup_bounds(s, prog, operand, 0, prog.len() as int);
}

/// Every assembled program lies in the binary format's word range, and
/// decoding its binary image gives exactly the assembled words back.
pub proof fn lemma_assembly_binary_round_trip(s: Seq<u8>, ws: Seq<i64>)
    requires
        assemble(s) == Ok::<Seq<i64>, AssemblyError>(ws),
    ensures
        words_in_range(ws),
        decode_binary(encode_words(ws)) == Ok::<Seq<i64>, BinaryError>(ws),
{
    let prog = program(s);
    lemma_encode_from(s, prog, 0, ws);
    assert forall|i: int| 0 <= i < ws.len() implies 0 <= #[trigger] ws[i] <= 999 by {
        assert(encode_statement(s, prog, i) == Ok::<i64, AssemblyError>(ws[i - 0]));
        lemma_statement_in_range(s, prog, i);
    }
    lemma_binary_round_trip(ws);
}

} // verus!
