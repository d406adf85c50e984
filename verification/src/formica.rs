//! The Formica instruction set: its instructions, the two-pass assembler
//! that turns program text into addressed instructions, and the per-tick
//! instruction interpreter.

use vstd::prelude::*;

use crate::ant::{spec_inc_sat, spec_turn_left, spec_turn_right, Ant, Pheromone, Scent};
use crate::grid::{spec_neighbor, step_safe, Coord, Grid};
use crate::world::Cell;

verus! {

/// A resolved jump target: an absolute, 0-indexed instruction address.
#[derive(Debug, PartialEq, Eq, Copy, Clone, Structural)]
pub enum Address {
    Absolute(u32),
}

/// The closed set of Formica opcodes, with operands where applicable.
#[derive(Debug, PartialEq, Eq, Copy, Clone, Structural)]
pub enum Instruction {
    TurnLeft,
    TurnRight,
    Advance,
    Pickup,
    Drop,
    ReleasePh(u8),
    ErasePh,
    CheckFood,
    CheckPh,
    CheckNest,
    Jmp(Address),
    Jz(Address),
    Jnz(Address),
}

/// Per-ant execution state: program counter and flag register.
#[derive(Debug, PartialEq, Eq, Copy, Clone, Structural)]
pub struct AntState {
    pub pc: u32,
    pub flag: u32,
}

impl AntState {
    /// Execution state at the start of a program: both registers zero.
    pub fn new() -> (s: AntState)
        ensures
            s == (AntState { pc: 0, flag: 0 }),
    {
        AntState { pc: 0, flag: 0 }
    }
}

/// Why an assembly run failed.  Any failure aborts the whole assembly: the
/// caller receives no usable program.
#[derive(Debug, PartialEq, Eq, Copy, Clone, Structural)]
pub enum AsmError {
    /// A line's leading mnemonic token is not one of the thirteen mnemonics.
    UnknownMnemonic,
    /// A mnemonic that takes an operand stands at the end of its line.
    MissingOperand,
    /// A scent operand is not a plain decimal number in the `u8` range.
    InvalidOperand,
    /// A jump target names a label that no line defines.
    UndefinedLabel,
}

/// Whitespace, as line trimming and token splitting understand it (the ASCII
/// whitespace characters).
pub open spec fn is_space(c: char) -> bool {
    c == ' ' || c == '\t' || c == '\n' || c == '\r' || c == '\x0B' || c == '\x0C'
}

/// Index of the first newline at or after `pos`, or `s.len()` when the rest
/// of `s` holds none.
pub open spec fn next_nl(s: Seq<char>, pos: int) -> int
    decreases s.len() - pos,
{
    if pos >= s.len() {
        s.len() as int
    } else if s[pos] == '\n' {
        pos
    } else {
        next_nl(s, pos + 1)
    }
}

/// `next_nl` stays between `pos` and the end, marks a newline when it is not
/// the end, and skips no newline.
pub proof fn lemma_next_nl(s: Seq<char>, pos: int)
    requires
        pos <= s.len(),
    ensures
        pos <= next_nl(s, pos) <= s.len(),
        next_nl(s, pos) < s.len() ==> s[next_nl(s, pos)] == '\n',
        forall|i: int| pos <= i < next_nl(s, pos) && i < s.len() ==> s[i] != '\n',
    decreases s.len() - pos,
{
    if pos < s.len() && s[pos] != '\n' {
        lemma_next_nl(s, pos + 1);
    }
}

/// The lines of `s` from position `pos` on: pieces between newlines, with no
/// trailing empty piece when `s` ends in a newline (as Rust's `str::lines`).
pub open spec fn spec_lines_from(s: Seq<char>, pos: int) -> Seq<Seq<char>>
    decreases s.len() - pos via spec_lines_from_decreases
{
    if pos >= s.len() {
        Seq::empty()
    } else {
        let k: int = next_nl(s, pos);
        if k >= s.len() {
            seq![s.subrange(pos, s.len() as int)]
        } else {
            seq![s.subrange(pos, k)] + spec_lines_from(s, k + 1)
        }
    }
}

#[via_fn]
proof fn spec_lines_from_decreases(s: Seq<char>, pos: int) {
    if pos < s.len() {
        lemma_next_nl(s, pos);
    }
}

/// The lines of a whole program text.
pub open spec fn spec_lines(s: Seq<char>) -> Seq<Seq<char>> {
    spec_lines_from(s, 0)
}

/// A text of `n` characters splits into at most `n` lines.
pub proof fn lemma_lines_count(s: Seq<char>, pos: int)
    requires
        0 <= pos <= s.len(),
    ensures
        spec_lines_from(s, pos).len() <= s.len() - pos,
    decreases s.len() - pos,
{
    if pos < s.len() {
        lemma_next_nl(s, pos);
        let k: int = next_nl(s, pos);
        if k < s.len() {
            lemma_lines_count(s, k + 1);
        }
    }
}

/// `l` with its leading whitespace removed.
pub open spec fn trim_front(l: Seq<char>) -> Seq<char>
    decreases l.len(),
{
    if l.len() > 0 && is_space(l[0]) {
        trim_front(l.drop_first())
    } else {
        l
    }
}

/// `l` with its trailing whitespace removed.
pub open spec fn trim_back(l: Seq<char>) -> Seq<char>
    decreases l.len(),
{
    if l.len() > 0 && is_space(l.last()) {
        trim_back(l.drop_last())
    } else {
        l
    }
}

/// `l` with whitespace removed at both ends, as `str::trim` does on ASCII
/// text.
pub open spec fn spec_trim(l: Seq<char>) -> Seq<char> {
    trim_back(trim_front(l))
}

/// A trimmed line is empty or starts and ends with non-whitespace.
pub proof fn lemma_trim_ends(l: Seq<char>)
    ensures
        spec_trim(l).len() > 0 ==> !is_space(spec_trim(l)[0]),
        spec_trim(l).len() > 0 ==> !is_space(spec_trim(l).last()),
    decreases l.len(),
{
    lemma_trim_front_first(l);
    lemma_trim_back_keeps_first(trim_front(l));
    lemma_trim_back_last(trim_front(l));
}

proof fn lemma_trim_front_first(l: Seq<char>)
    ensures
        trim_front(l).len() > 0 ==> !is_space(trim_front(l)[0]),
    decreases l.len(),
{
    if l.len() > 0 && is_space(l[0]) {
        lemma_trim_front_first(l.drop_first());
    }
}

proof fn lemma_trim_back_last(l: Seq<char>)
    ensures
        trim_back(l).len() > 0 ==> !is_space(trim_back(l).last()),
    decreases l.len(),
{
    if l.len() > 0 && is_space(l.last()) {
        lemma_trim_back_last(l.drop_last());
    }
}

proof fn lemma_trim_back_keeps_first(l: Seq<char>)
    ensures
        trim_back(l).len() > 0 ==> trim_back(l)[0] == l[0],
    decreases l.len(),
{
    if l.len() > 0 && is_space(l.last()) {
        lemma_trim_back_keeps_first(l.drop_last());
    }
}

/// `t` with every trailing colon removed, as `str::trim_end_matches(':')`.
pub open spec fn strip_colons(t: Seq<char>) -> Seq<char>
    decreases t.len(),
{
    if t.len() > 0 && t.last() == ':' {
        strip_colons(t.drop_last())
    } else {
        t
    }
}

/// A line holding only whitespace; skipped by both assembler passes.
pub open spec fn is_blank_line(l: Seq<char>) -> bool {
    spec_trim(l).len() == 0
}

/// A label-definition line: its trimmed text ends in a colon.
pub open spec fn is_label_line(l: Seq<char>) -> bool {
    spec_trim(l).len() > 0 && spec_trim(l).last() == ':'
}

/// The name a label line binds: its trimmed text with trailing colons
/// removed.
pub open spec fn label_name(l: Seq<char>) -> Seq<char> {
    strip_colons(spec_trim(l))
}

/// A line that occupies one instruction slot: neither blank nor a label.
pub open spec fn is_instr_line(l: Seq<char>) -> bool {
    !is_blank_line(l) && !is_label_line(l)
}

/// Number of instruction lines among the first `j` lines: the address the
/// next instruction would get.
pub open spec fn instr_count(lines: Seq<Seq<char>>, j: int) -> int
    decreases j,
{
    if j <= 0 {
        0
    } else {
        instr_count(lines, j - 1) + if is_instr_line(lines[j - 1]) {
            1int
        } else {
            0int
        }
    }
}

/// Counting instruction lines in a prefix ignores the lines beyond it.
pub proof fn lemma_instr_count_take(lines: Seq<Seq<char>>, m: int, j: int)
    requires
        0 <= j <= m <= lines.len(),
    ensures
        instr_count(lines.take(m), j) == instr_count(lines, j),
    decreases j,
{
    if j > 0 {
        lemma_instr_count_take(lines, m, j - 1);
        assert(lines.take(m)[j - 1] == lines[j - 1]);
    }
}

/// The address bound to `name`, when some line defines it: the instruction
/// count before the last defining line (later definitions shadow earlier
/// ones).
pub open spec fn lookup_label(lines: Seq<Seq<char>>, name: Seq<char>) -> Option<int>
    decreases lines.len(),
{
    if lines.len() == 0 {
        None
    } else if is_label_line(lines.last()) && label_name(lines.last()) == name {
        Some(instr_count(lines, lines.len() - 1))
    } else {
        lookup_label(lines.drop_last(), name)
    }
}

/// Index of the first whitespace character at or after `pos`, or `l.len()`.
pub open spec fn next_space(l: Seq<char>, pos: int) -> int
    decreases l.len() - pos,
{
    if pos >= l.len() {
        l.len() as int
    } else if is_space(l[pos]) {
        pos
    } else {
        next_space(l, pos + 1)
    }
}

/// `next_space` stays between `pos` and the end, marks whitespace when it is
/// not the end, and skips no whitespace.
pub proof fn lemma_next_space(l: Seq<char>, pos: int)
    requires
        pos <= l.len(),
    ensures
        pos <= next_space(l, pos) <= l.len(),
        next_space(l, pos) < l.len() ==> is_space(l[next_space(l, pos)]),
        forall|i: int| pos <= i < next_space(l, pos) && i < l.len() ==> !is_space(l[i]),
    decreases l.len() - pos,
{
    if pos < l.len() && !is_space(l[pos]) {
        lemma_next_space(l, pos + 1);
    }
}

/// The whitespace-delimited tokens of `l` from position `pos` on.
pub open spec fn tokens_from(l: Seq<char>, pos: int) -> Seq<Seq<char>>
    decreases l.len() - pos, 1int via tokens_from_decreases
{
    if pos >= l.len() {
        Seq::empty()
    } else if is_space(l[pos]) {
        tokens_from(l, pos + 1)
    } else {
        let e: int = next_space(l, pos);
        seq![l.subrange(pos, e)] + tokens_from(l, e)
    }
}

#[via_fn]
proof fn tokens_from_decreases(l: Seq<char>, pos: int) {
    if pos < l.len() && !is_space(l[pos]) {
        lemma_next_space(l, pos);
    }
}

/// The whitespace-delimited tokens of a line, as `str::split_whitespace`.
pub open spec fn spec_tokens(l: Seq<char>) -> Seq<Seq<char>> {
    tokens_from(l, 0)
}

/// The thirteen mnemonics of the Formica assembly language.
#[derive(Debug, PartialEq, Eq, Copy, Clone, Structural)]
pub enum Mnemonic {
    TurnL,
    TurnR,
    Advance,
    Pickup,
    Drop,
    ReleasePh,
    ErasePh,
    CheckFood,
    CheckPh,
    CheckNest,
    Jmp,
    Jz,
    Jnz,
}

/// Which mnemonic a leading token spells, if any.
pub open spec fn spec_mnemonic(m: Seq<char>) -> Option<Mnemonic> {
    if m == seq!['T', 'U', 'R', 'N', '_', 'L'] {
        Some(Mnemonic::TurnL)
    } else if m == seq!['T', 'U', 'R', 'N', '_', 'R'] {
        Some(Mnemonic::TurnR)
    } else if m == seq!['A', 'D', 'V', 'A', 'N', 'C', 'E'] {
        Some(Mnemonic::Advance)
    } else if m == seq!['P', 'I', 'C', 'K', 'U', 'P'] {
        Some(Mnemonic::Pickup)
    } else if m == seq!['D', 'R', 'O', 'P'] {
        Some(Mnemonic::Drop)
    } else if m == seq!['R', 'E', 'L', 'E', 'A', 'S', 'E', '_', 'P', 'H'] {
        Some(Mnemonic::ReleasePh)
    } else if m == seq!['E', 'R', 'A', 'S', 'E', '_', 'P', 'H'] {
        Some(Mnemonic::ErasePh)
    } else if m == seq!['C', 'H', 'E', 'C', 'K', '_', 'F', 'O', 'O', 'D'] {
        Some(Mnemonic::CheckFood)
    } else if m == seq!['C', 'H', 'E', 'C', 'K', '_', 'P', 'H'] {
        Some(Mnemonic::CheckPh)
    } else if m == seq!['C', 'H', 'E', 'C', 'K', '_', 'N', 'E', 'S', 'T'] {
        Some(Mnemonic::CheckNest)
    } else if m == seq!['J', 'M', 'P'] {
        Some(Mnemonic::Jmp)
    } else if m == seq!['J', 'Z'] {
        Some(Mnemonic::Jz)
    } else if m == seq!['J', 'N', 'Z'] {
        Some(Mnemonic::Jnz)
    } else {
        None
    }
}

/// A decimal digit.
pub open spec fn is_digit(c: char) -> bool {
    48 <= c as u32 <= 57
}

/// Every character of `t` is a decimal digit.
pub open spec fn all_digits(t: Seq<char>) -> bool {
    forall|i: int| 0 <= i < t.len() ==> is_digit(#[trigger] t[i])
}

/// The number a digit string spells, most significant digit first.
pub open spec fn dec_val(t: Seq<char>) -> int
    decreases t.len(),
{
    if t.len() == 0 {
        0
    } else {
        dec_val(t.drop_last()) * 10 + (t.last() as u32 - 48)
    }
}

/// The scent operand a token spells: a nonempty run of decimal digits whose
/// value fits a `u8`; anything else is malformed.
pub open spec fn spec_dec_u8(t: Seq<char>) -> Option<u8> {
    if t.len() > 0 && all_digits(t) && dec_val(t) <= 255 {
        Some(dec_val(t) as u8)
    } else {
        None
    }
}

/// The instruction an instruction line assembles to, or the error that
/// aborts the assembly.  `lines` is the whole program, needed to resolve
/// label operands; extra tokens after the consumed ones are ignored.
pub open spec fn spec_decode(lines: Seq<Seq<char>>, l: Seq<char>) -> Result<
    Instruction,
    AsmError,
> {
    let t = spec_tokens(spec_trim(l));
    if t.len() == 0 {
        Err(AsmError::UnknownMnemonic)
    } else {
        match spec_mnemonic(t[0]) {
            None => Err(AsmError::UnknownMnemonic),
            Some(Mnemonic::TurnL) => Ok(Instruction::TurnLeft),
            Some(Mnemonic::TurnR) => Ok(Instruction::TurnRight),
            Some(Mnemonic::Advance) => Ok(Instruction::Advance),
            Some(Mnemonic::Pickup) => Ok(Instruction::Pickup),
            Some(Mnemonic::Drop) => Ok(Instruction::Drop),
            Some(Mnemonic::ErasePh) => Ok(Instruction::ErasePh),
            Some(Mnemonic::CheckFood) => Ok(Instruction::CheckFood),
            Some(Mnemonic::CheckPh) => Ok(Instruction::CheckPh),
            Some(Mnemonic::CheckNest) => Ok(Instruction::CheckNest),
            Some(Mnemonic::ReleasePh) => {
                if t.len() < 2 {
                    Err(AsmError::MissingOperand)
                } else {
                    match spec_dec_u8(t[1]) {
                        Some(v) => Ok(Instruction::ReleasePh(v)),
                        None => Err(AsmError::InvalidOperand),
                    }
                }
            },
            Some(Mnemonic::Jmp) => {
                if t.len() < 2 {
                    Err(AsmError::MissingOperand)
                } else {
                    match lookup_label(lines, t[1]) {
                        Some(ad) => Ok(Instruction::Jmp(Address::Absolute(ad as u32))),
                        None => Err(AsmError::UndefinedLabel),
                    }
                }
            },
            Some(Mnemonic::Jz) => {
                if t.len() < 2 {
                    Err(AsmError::MissingOperand)
                } else {
                    match lookup_label(lines, t[1]) {
                        Some(ad) => Ok(Instruction::Jz(Address::Absolute(ad as u32))),
                        None => Err(AsmError::UndefinedLabel),
                    }
                }
            },
            Some(Mnemonic::Jnz) => {
                if t.len() < 2 {
                    Err(AsmError::MissingOperand)
                } else {
                    match lookup_label(lines, t[1]) {
                        Some(ad) => Ok(Instruction::Jnz(Address::Absolute(ad as u32))),
                        None => Err(AsmError::UndefinedLabel),
                    }
                }
            },
        }
    }
}

/// The program assembled from the first `j` lines: the instructions of the
/// instruction lines among them, in order, or the first error.
pub open spec fn spec_asm_upto(lines: Seq<Seq<char>>, j: int) -> Result<Seq<Instruction>, AsmError>
    decreases j,
{
    if j <= 0 {
        Ok(Seq::empty())
    } else {
        match spec_asm_upto(lines, j - 1) {
            Err(e) => Err(e),
            Ok(pre) => {
                if !is_instr_line(lines[j - 1]) {
                    Ok(pre)
                } else {
                    match spec_decode(lines, lines[j - 1]) {
                        Err(e) => Err(e),
                        Ok(ins) => Ok(pre.push(ins)),
                    }
                }
            },
        }
    }
}

/// What assembling the program text `s` yields: an ordered, 0-indexed
/// instruction sequence with all jump targets resolved to absolute
/// addresses, or the first error in line order.  Labels are erased from the
/// output; blank lines are skipped by both passes and occupy no instruction
/// slot.
pub open spec fn spec_assembled(s: Seq<char>) -> Result<Seq<Instruction>, AsmError> {
    spec_asm_upto(spec_lines(s), spec_lines(s).len() as int)
}

/// Once a prefix of the lines fails to assemble, the whole program fails
/// with that same first error.
pub proof fn lemma_asm_err_persists(lines: Seq<Seq<char>>, j1: int, j2: int)
    requires
        j1 <= j2,
        spec_asm_upto(lines, j1) is Err,
    ensures
        spec_asm_upto(lines, j2) == spec_asm_upto(lines, j1),
    decreases j2 - j1,
{
    if j1 < j2 {
        lemma_asm_err_persists(lines, j1, j2 - 1);
    }
}

/// The views of a sequence of character vectors.
pub open spec fn views_of(vs: Seq<Vec<char>>) -> Seq<Seq<char>> {
    vs.map_values(|v: Vec<char>| v@)
}

/// `next_nl` is pinned by a stretch without newlines that ends at a newline
/// or at the end of the text.
proof fn lemma_next_nl_is(s: Seq<char>, p: int, e: int)
    requires
        0 <= p <= e <= s.len(),
        forall|i: int| p <= i < e ==> s[i] != '\n',
        e == s.len() || s[e] == '\n',
    ensures
        next_nl(s, p) == e,
    decreases e - p,
{
    if p < e {
        lemma_next_nl_is(s, p + 1, e);
    }
}

/// `next_space` is pinned by a stretch without whitespace that ends at
/// whitespace or at the end of the line.
proof fn lemma_next_space_is(l: Seq<char>, p: int, e: int)
    requires
        0 <= p <= e <= l.len(),
        forall|i: int| p <= i < e ==> !is_space(l[i]),
        e == l.len() || is_space(l[e]),
    ensures
        next_space(l, p) == e,
    decreases e - p,
{
    if p < e {
        lemma_next_space_is(l, p + 1, e);
    }
}

/// Whether `c` counts as whitespace for trimming and token splitting.
fn ch_is_space(c: char) -> (r: bool)
    ensures
        r == is_space(c),
{
    c == ' ' || c == '\t' || c == '\n' || c == '\r' || c == '\x0B' || c == '\x0C'
}

/// The characters of `input`, in order.
fn str_chars(input: &str) -> (r: Vec<char>)
    ensures
        r@ == input@,
{
    let n = input.unicode_len();
    let mut v: Vec<char> = Vec::new();
    let mut i: usize = 0;
    while i < n
        invariant
            i <= n,
            n == input@.len(),
            v@ == input@.take(i as int),
        decreases n - i,
    {
        v.push(input.get_char(i));
        proof {
            assert(v@ =~= input@.take(i as int + 1));
        }
        i = i + 1;
    }
    proof {
        assert(v@ =~= input@);
    }
    v
}

/// Copy of `l` with whitespace removed at both ends.
fn trim_chars(l: &Vec<char>) -> (r: Vec<char>)
    ensures
        r@ == spec_trim(l@),
{
    let mut v: Vec<char> = Vec::new();
    let mut i: usize = 0;
    while i < l.len()
        invariant
            i <= l@.len(),
            v@ == l@.take(i as int),
        decreases l@.len() - i,
    {
        v.push(l[i]);
        proof {
            assert(v@ =~= l@.take(i as int + 1));
        }
        i = i + 1;
    }
    proof {
        assert(v@ =~= l@);
    }
    while v.len() > 0 && ch_is_space(v[0])
        invariant
            trim_front(v@) == trim_front(l@),
        decreases v@.len(),
    {
        let ghost before = v@;
        v.remove(0);
        proof {
            assert(v@ =~= before.drop_first());
        }
    }
    proof {
        assert(v@ == trim_front(l@));
    }
    while v.len() > 0 && ch_is_space(v[v.len() - 1])
        invariant
            trim_back(v@) == trim_back(trim_front(l@)),
        decreases v@.len(),
    {
        let ghost before = v@;
        v.pop();
        proof {
            assert(v@ =~= before.drop_last());
        }
    }
    v
}

/// `t` with every trailing colon removed.
fn strip_label_colons(t: Vec<char>) -> (r: Vec<char>)
    ensures
        r@ == strip_colons(t@),
{
    let mut v = t;
    while v.len() > 0 && v[v.len() - 1] == ':'
        invariant
            strip_colons(v@) == strip_colons(t@),
        decreases v@.len(),
    {
        let ghost before = v@;
        v.pop();
        proof {
            assert(v@ =~= before.drop_last());
        }
    }
    v
}

/// Character-for-character equality of two vectors.
fn chars_eq(a: &Vec<char>, b: &Vec<char>) -> (r: bool)
    ensures
        r == (a@ == b@),
{
    if a.len() != b.len() {
        return false;
    }
    let mut i: usize = 0;
    while i < a.len()
        invariant
            i <= a@.len(),
            a@.len() == b@.len(),
            forall|j: int| 0 <= j < i ==> a@[j] == b@[j],
        decreases a@.len() - i,
    {
        if a[i] != b[i] {
            return false;
        }
        i = i + 1;
    }
    proof {
        assert(a@ =~= b@);
    }
    true
}

/// The lines of the program text, as [`spec_lines`] describes them.
fn vec_lines(chars: &Vec<char>) -> (r: Vec<Vec<char>>)
    ensures
        views_of(r@) == spec_lines(chars@),
{
    let n = chars.len();
    let mut out: Vec<Vec<char>> = Vec::new();
    let mut cur: Vec<char> = Vec::new();
    let mut pos: usize = 0;
    let mut start: usize = 0;
    while pos < n
        invariant
            n == chars@.len(),
            start <= pos <= n,
            start + cur@.len() == pos,
            cur@ == chars@.subrange(start as int, pos as int),
            forall|i: int| start <= i < pos ==> chars@[i] != '\n',
            spec_lines(chars@) == views_of(out@) + spec_lines_from(chars@, start as int),
        decreases n - pos,
    {
        let c = chars[pos];
        if c == '\n' {
            proof {
                lemma_next_nl_is(chars@, start as int, pos as int);
                assert(spec_lines_from(chars@, start as int) == seq![cur@] + spec_lines_from(
                    chars@,
                    pos as int + 1,
                ));
            }
            let ghost out_before = out@;
            let ghost cur_view = cur@;
            out.push(cur);
            cur = Vec::new();
            proof {
                assert(views_of(out@) =~= views_of(out_before).push(cur_view));
                assert(views_of(out@) + spec_lines_from(chars@, pos as int + 1) =~= views_of(
                    out_before,
                ) + (seq![cur_view] + spec_lines_from(chars@, pos as int + 1)));
            }
            pos = pos + 1;
            start = pos;
        } else {
            cur.push(c);
            proof {
                assert(cur@ =~= chars@.subrange(start as int, pos as int + 1));
            }
            pos = pos + 1;
        }
    }
    if cur.len() > 0 {
        proof {
            lemma_next_nl_is(chars@, start as int, n as int);
            assert(spec_lines_from(chars@, start as int) =~= seq![cur@]);
        }
        let ghost out_before = out@;
        let ghost cur_view = cur@;
        out.push(cur);
        proof {
            assert(views_of(out@) =~= views_of(out_before).push(cur_view));
            assert(views_of(out@) =~= views_of(out_before) + seq![cur_view]);
        }
    } else {
        proof {
            assert(start == n);
            assert(spec_lines_from(chars@, n as int) =~= Seq::<Seq<char>>::empty());
        }
    }
    proof {
        assert(views_of(out@) =~= spec_lines(chars@));
    }
    out
}

/// The whitespace-delimited tokens of `l`, as [`spec_tokens`] describes
/// them.
fn split_ws(l: &Vec<char>) -> (r: Vec<Vec<char>>)
    ensures
        views_of(r@) == spec_tokens(l@),
{
    let n = l.len();
    let mut out: Vec<Vec<char>> = Vec::new();
    let mut pos: usize = 0;
    while pos < n
        invariant
            n == l@.len(),
            pos <= n,
            spec_tokens(l@) == views_of(out@) + tokens_from(l@, pos as int),
        decreases n - pos,
    {
        if ch_is_space(l[pos]) {
            pos = pos + 1;
        } else {
            let start = pos;
            let mut cur: Vec<char> = Vec::new();
            while pos < n && !ch_is_space(l[pos])
                invariant
                    n == l@.len(),
                    start <= pos <= n,
                    cur@ == l@.subrange(start as int, pos as int),
                    forall|i: int| start <= i < pos ==> !is_space(l@[i]),
                decreases n - pos,
            {
                cur.push(l[pos]);
                proof {
                    assert(cur@ =~= l@.subrange(start as int, pos as int + 1));
                }
                pos = pos + 1;
            }
            proof {
                lemma_next_space_is(l@, start as int, pos as int);
                assert(tokens_from(l@, start as int) == seq![cur@] + tokens_from(
                    l@,
                    pos as int,
                ));
            }
            let ghost out_before = out@;
            let ghost cur_view = cur@;
            out.push(cur);
            proof {
                assert(views_of(out@) =~= views_of(out_before).push(cur_view));
                assert(views_of(out@) + tokens_from(l@, pos as int) =~= views_of(out_before) + (
                seq![cur_view] + tokens_from(l@, pos as int)));
            }
        }
    }
    out
}

/// The scent operand `t` spells, when it is a nonempty digit run whose
/// value fits a `u8`.
fn parse_u8_tok(t: &Vec<char>) -> (r: Option<u8>)
    ensures
        r == spec_dec_u8(t@),
{
    if t.len() == 0 {
        return None;
    }
    let mut acc: u32 = 0;
    let mut i: usize = 0;
    while i < t.len()
        invariant
            i <= t@.len(),
            all_digits(t@.take(i as int)),
            acc <= 256,
            acc as int == if dec_val(t@.take(i as int)) > 255 {
                256int
            } else {
                dec_val(t@.take(i as int))
            },
        decreases t@.len() - i,
    {
        let cv = t[i] as u32;
        if cv < 48 || cv > 57 {
            proof {
                assert(!is_digit(t@[i as int]));
            }
            return None;
        }
        let d: u32 = cv - 48;
        proof {
            assert(t@.take(i as int + 1).drop_last() =~= t@.take(i as int));
            assert(t@.take(i as int + 1).last() == t@[i as int]);
            assert(t@.take(i as int + 1).len() > 0);
            assert(dec_val(t@.take(i as int + 1)) == dec_val(t@.take(i as int + 1).drop_last())
                * 10 + (t@.take(i as int + 1).last() as u32 - 48));
            assert(t@[i as int] as u32 == cv);
            assert(dec_val(t@.take(i as int + 1)) == dec_val(t@.take(i as int)) * 10 + d);
        }
        let next: u32 = acc * 10 + d;
        acc = if next > 255 {
            256
        } else {
            next
        };
        i = i + 1;
    }
    proof {
        assert(t@.take(t@.len() as int) =~= t@);
    }
    if acc <= 255 {
        Some(acc as u8)
    } else {
        None
    }
}

/// Which mnemonic the leading token spells, if any.
fn mnemonic_of(t: &Vec<char>) -> (r: Option<Mnemonic>)
    ensures
        r == spec_mnemonic(t@),
{
    let n = t.len();
    if n == 6 && t[0] == 'T' && t[1] == 'U' && t[2] == 'R' && t[3] == 'N' && t[4] == '_' && t[5]
        == 'L' {
        proof {
            assert(t@ =~= seq!['T', 'U', 'R', 'N', '_', 'L']);
        }
        Some(Mnemonic::TurnL)
    } else if n == 6 && t[0] == 'T' && t[1] == 'U' && t[2] == 'R' && t[3] == 'N' && t[4] == '_'
        && t[5] == 'R' {
        proof {
            assert(t@ =~= seq!['T', 'U', 'R', 'N', '_', 'R']);
        }
        Some(Mnemonic::TurnR)
    } else if n == 7 && t[0] == 'A' && t[1] == 'D' && t[2] == 'V' && t[3] == 'A' && t[4] == 'N'
        && t[5] == 'C' && t[6] == 'E' {
        proof {
            assert(t@ =~= seq!['A', 'D', 'V', 'A', 'N', 'C', 'E']);
        }
        Some(Mnemonic::Advance)
    } else if n == 6 && t[0] == 'P' && t[1] == 'I' && t[2] == 'C' && t[3] == 'K' && t[4] == 'U'
        && t[5] == 'P' {
        proof {
            assert(t@ =~= seq!['P', 'I', 'C', 'K', 'U', 'P']);
        }
        Some(Mnemonic::Pickup)
    } else if n == 4 && t[0] == 'D' && t[1] == 'R' && t[2] == 'O' && t[3] == 'P' {
        proof {
            assert(t@ =~= seq!['D', 'R', 'O', 'P']);
        }
        Some(Mnemonic::Drop)
    } else if n == 10 && t[0] == 'R' && t[1] == 'E' && t[2] == 'L' && t[3] == 'E' && t[4] == 'A'
        && t[5] == 'S' && t[6] == 'E' && t[7] == '_' && t[8] == 'P' && t[9] == 'H' {
        proof {
            assert(t@ =~= seq!['R', 'E', 'L', 'E', 'A', 'S', 'E', '_', 'P', 'H']);
        }
        Some(Mnemonic::ReleasePh)
    } else if n == 8 && t[0] == 'E' && t[1] == 'R' && t[2] == 'A' && t[3] == 'S' && t[4] == 'E'
        && t[5] == '_' && t[6] == 'P' && t[7] == 'H' {
        proof {
            assert(t@ =~= seq!['E', 'R', 'A', 'S', 'E', '_', 'P', 'H']);
        }
        Some(Mnemonic::ErasePh)
    } else if n == 10 && t[0] == 'C' && t[1] == 'H' && t[2] == 'E' && t[3] == 'C' && t[4] == 'K'
        && t[5] == '_' && t[6] == 'F' && t[7] == 'O' && t[8] == 'O' && t[9] == 'D' {
        proof {
            assert(t@ =~= seq!['C', 'H', 'E', 'C', 'K', '_', 'F', 'O', 'O', 'D']);
        }
        Some(Mnemonic::CheckFood)
    } else if n == 8 && t[0] == 'C' && t[1] == 'H' && t[2] == 'E' && t[3] == 'C' && t[4] == 'K'
        && t[5] == '_' && t[6] == 'P' && t[7] == 'H' {
        proof {
            assert(t@ =~= seq!['C', 'H', 'E', 'C', 'K', '_', 'P', 'H']);
        }
        Some(Mnemonic::CheckPh)
    } else if n == 10 && t[0] == 'C' && t[1] == 'H' && t[2] == 'E' && t[3] == 'C' && t[4] == 'K'
        && t[5] == '_' && t[6] == 'N' && t[7] == 'E' && t[8] == 'S' && t[9] == 'T' {
        proof {
            assert(t@ =~= seq!['C', 'H', 'E', 'C', 'K', '_', 'N', 'E', 'S', 'T']);
        }
        Some(Mnemonic::CheckNest)
    } else if n == 3 && t[0] == 'J' && t[1] == 'M' && t[2] == 'P' {
        proof {
            assert(t@ =~= seq!['J', 'M', 'P']);
        }
        Some(Mnemonic::Jmp)
    } else if n == 2 && t[0] == 'J' && t[1] == 'Z' {
        proof {
            assert(t@ =~= seq!['J', 'Z']);
        }
        Some(Mnemonic::Jz)
    } else if n == 3 && t[0] == 'J' && t[1] == 'N' && t[2] == 'Z' {
        proof {
            assert(t@ =~= seq!['J', 'N', 'Z']);
        }
        Some(Mnemonic::Jnz)
    } else {
        None
    }
}

/// The views of a label table's entries.
pub open spec fn labels_view(t: Seq<(Vec<char>, u32)>) -> Seq<(Seq<char>, u32)> {
    t.map_values(|p: (Vec<char>, u32)| (p.0@, p.1))
}

/// Search the label table from its end, so that later definitions shadow
/// earlier ones, as repeated map insertion would.
pub open spec fn table_lookup(t: Seq<(Seq<char>, u32)>, name: Seq<char>) -> Option<u32>
    decreases t.len(),
{
    if t.len() == 0 {
        None
    } else if t.last().0 == name {
        Some(t.last().1)
    } else {
        table_lookup(t.drop_last(), name)
    }
}

/// A table-lookup result read as a label address.
pub open spec fn opt_addr(o: Option<u32>) -> Option<int> {
    match o {
        Some(v) => Some(v as int),
        None => None,
    }
}

/// The address `name` is bound to in the label table, searching from the
/// end.
fn lookup_label_exec(labels: &Vec<(Vec<char>, u32)>, name: &Vec<char>) -> (r: Option<u32>)
    ensures
        r == table_lookup(labels_view(labels@), name@),
{
    proof {
        assert(labels_view(labels@).take(labels@.len() as int) =~= labels_view(labels@));
    }
    let mut k: usize = labels.len();
    while k > 0
        invariant
            k <= labels@.len(),
            table_lookup(labels_view(labels@), name@) == table_lookup(
                labels_view(labels@).take(k as int),
                name@,
            ),
        decreases k,
    {
        let p = &labels[k - 1];
        proof {
            assert(labels_view(labels@)[k as int - 1] == (labels@[k as int - 1].0@, labels@[
            k as int - 1].1));
            assert(labels_view(labels@).take(k as int).last() == labels_view(labels@)[k as int
                - 1]);
        }
        if chars_eq(&p.0, name) {
            return Some(p.1);
        }
        proof {
            assert(labels_view(labels@).take(k as int).drop_last() =~= labels_view(
                labels@,
            ).take(k as int - 1));
        }
        k = k - 1;
    }
    None
}

/// Assemble the program text into an instruction sequence.
///
/// Two passes: the first binds each label to the count of instruction lines
/// before it; the second translates each instruction line's leading
/// mnemonic, consuming exactly one operand token where the mnemonic takes
/// one and ignoring anything after it.  Blank lines are skipped by both
/// passes and occupy no instruction slot.  Assembly aborts with the first
/// error in line order: an unknown mnemonic, a missing or malformed
/// operand, or a jump to an undefined label.
pub fn parse(input: &str) -> (r: Result<Vec<Instruction>, AsmError>)
    requires
        input@.len() <= u32::MAX,
    ensures
        match r {
            Ok(v) => spec_assembled(input@) == Ok::<Seq<Instruction>, AsmError>(v@),
            Err(e) => spec_assembled(input@) == Err::<Seq<Instruction>, AsmError>(e),
        },
{
    let chars = str_chars(input);
    let lines = vec_lines(&chars);
    let ghost lv = views_of(lines@);
    proof {
        lemma_lines_count(chars@, 0);
        assert(lv == spec_lines(input@));
    }

    // First pass: bind each label to the address of the next instruction.
    let mut labels: Vec<(Vec<char>, u32)> = Vec::new();
    let mut addr: u32 = 0;
    let mut j: usize = 0;
    while j < lines.len()
        invariant
            j <= lines@.len(),
            lv == views_of(lines@),
            lv.len() <= u32::MAX,
            addr as int == instr_count(lv, j as int),
            addr as int <= j as int,
            forall|name: Seq<char>|
                opt_addr(#[trigger] table_lookup(labels_view(labels@), name)) == lookup_label(
                    lv.take(j as int),
                    name,
                ),
        decreases lines@.len() - j,
    {
        proof {
            assert(lv[j as int] == lines@[j as int]@);
            assert(lv.take(j as int + 1).last() == lv[j as int]);
            assert(lv.take(j as int + 1).drop_last() =~= lv.take(j as int));
        }
        let trimmed = trim_chars(&lines[j]);
        if trimmed.len() == 0 {
            proof {
                assert(!is_label_line(lv[j as int]));
                assert(!is_instr_line(lv[j as int]));
                assert forall|name: Seq<char>|
                    opt_addr(#[trigger] table_lookup(labels_view(labels@), name)) == lookup_label(
                        lv.take(j as int + 1),
                        name,
                    ) by {
                    assert(lookup_label(lv.take(j as int + 1), name) == lookup_label(
                        lv.take(j as int),
                        name,
                    ));
                }
            }
            j = j + 1;
        } else if trimmed[trimmed.len() - 1] == ':' {
            proof {
                assert(trimmed@.last() == ':');
                assert(is_label_line(lv[j as int]));
                assert(!is_instr_line(lv[j as int]));
            }
            let ghost labels_before = labels@;
            let name = strip_label_colons(trimmed);
            proof {
                assert(name@ == label_name(lv[j as int]));
            }
            labels.push((name, addr));
            proof {
                let tbl = labels_view(labels@);
                assert(tbl =~= labels_view(labels_before).push((name@, addr)));
                assert(tbl.drop_last() =~= labels_view(labels_before));
                assert forall|nm: Seq<char>|
                    opt_addr(#[trigger] table_lookup(tbl, nm)) == lookup_label(
                        lv.take(j as int + 1),
                        nm,
                    ) by {
                    if nm == name@ {
                        lemma_instr_count_take(lv, j as int + 1, j as int);
                        assert(table_lookup(tbl, nm) == Some(addr));
                        assert(lookup_label(lv.take(j as int + 1), nm) == Some(
                            instr_count(lv.take(j as int + 1), j as int),
                        ));
                    } else {
                        assert(table_lookup(tbl, nm) == table_lookup(
                            labels_view(labels_before),
                            nm,
                        ));
                        assert(lookup_label(lv.take(j as int + 1), nm) == lookup_label(
                            lv.take(j as int),
                            nm,
                        ));
                    }
                }
            }
            j = j + 1;
        } else {
            proof {
                assert(!is_label_line(lv[j as int]));
                assert(!is_blank_line(lv[j as int]));
                assert(is_instr_line(lv[j as int]));
                assert forall|name: Seq<char>|
                    opt_addr(#[trigger] table_lookup(labels_view(labels@), name)) == lookup_label(
                        lv.take(j as int + 1),
                        name,
                    ) by {
                    assert(lookup_label(lv.take(j as int + 1), name) == lookup_label(
                        lv.take(j as int),
                        name,
                    ));
                }
            }
            addr = addr + 1;
            j = j + 1;
        }
    }
    proof {
        assert(lv.take(lv.len() as int) =~= lv);
    }

    // Second pass: translate every instruction line, first error aborts.
    let mut out: Vec<Instruction> = Vec::new();
    let mut i: usize = 0;
    while i < lines.len()
        invariant
            i <= lines@.len(),
            lv == views_of(lines@),
            lv == spec_lines(input@),
            forall|name: Seq<char>|
                opt_addr(#[trigger] table_lookup(labels_view(labels@), name)) == lookup_label(
                    lv,
                    name,
                ),
            spec_asm_upto(lv, i as int) == Ok::<Seq<Instruction>, AsmError>(out@),
        decreases lines@.len() - i,
    {
        proof {
            assert(lv[i as int] == lines@[i as int]@);
        }
        let trimmed = trim_chars(&lines[i]);
        if trimmed.len() == 0 {
            proof {
                assert(!is_instr_line(lv[i as int]));
                assert(spec_asm_upto(lv, i as int + 1) == Ok::<Seq<Instruction>, AsmError>(out@));
            }
            i = i + 1;
        } else if trimmed[trimmed.len() - 1] == ':' {
            proof {
                assert(trimmed@.last() == ':');
                assert(is_label_line(lv[i as int]));
                assert(!is_instr_line(lv[i as int]));
                assert(spec_asm_upto(lv, i as int + 1) == Ok::<Seq<Instruction>, AsmError>(out@));
            }
            i = i + 1;
        } else {
            proof {
                assert(is_instr_line(lv[i as int]));
            }
            let tokens = split_ws(&trimmed);
            let ghost t = spec_tokens(spec_trim(lv[i as int]));
            proof {
                assert(t == views_of(tokens@));
                assert(t.len() == tokens@.len());
                assert(t.len() > 0) by {
                    let tl = spec_trim(lv[i as int]);
                    lemma_trim_ends(lv[i as int]);
                    lemma_next_space(tl, 0);
                }
                assert(t[0] == tokens@[0]@);
            }
            let m = mnemonic_of(&tokens[0]);
            let decoded: Result<Instruction, AsmError> = match m {
                None => Err(AsmError::UnknownMnemonic),
                Some(Mnemonic::TurnL) => Ok(Instruction::TurnLeft),
                Some(Mnemonic::TurnR) => Ok(Instruction::TurnRight),
                Some(Mnemonic::Advance) => Ok(Instruction::Advance),
                Some(Mnemonic::Pickup) => Ok(Instruction::Pickup),
                Some(Mnemonic::Drop) => Ok(Instruction::Drop),
                Some(Mnemonic::ErasePh) => Ok(Instruction::ErasePh),
                Some(Mnemonic::CheckFood) => Ok(Instruction::CheckFood),
                Some(Mnemonic::CheckPh) => Ok(Instruction::CheckPh),
                Some(Mnemonic::CheckNest) => Ok(Instruction::CheckNest),
                Some(Mnemonic::ReleasePh) => {
                    if tokens.len() < 2 {
                        Err(AsmError::MissingOperand)
                    } else {
                        proof {
                            assert(t[1] == tokens@[1]@);
                        }
                        match parse_u8_tok(&tokens[1]) {
                            Some(v) => Ok(Instruction::ReleasePh(v)),
                            None => Err(AsmError::InvalidOperand),
                        }
                    }
                },
                Some(Mnemonic::Jmp) => {
                    if tokens.len() < 2 {
                        Err(AsmError::MissingOperand)
                    } else {
                        proof {
                            assert(t[1] == tokens@[1]@);
                        }
                        match lookup_label_exec(&labels, &tokens[1]) {
                            Some(v) => Ok(Instruction::Jmp(Address::Absolute(v))),
                            None => Err(AsmError::UndefinedLabel),
                        }
                    }
                },
                Some(Mnemonic::Jz) => {
                    if tokens.len() < 2 {
                        Err(AsmError::MissingOperand)
                    } else {
                        proof {
                            assert(t[1] == tokens@[1]@);
                        }
                        match lookup_label_exec(&labels, &tokens[1]) {
                            Some(v) => Ok(Instruction::Jz(Address::Absolute(v))),
                            None => Err(AsmError::UndefinedLabel),
                        }
                    }
                },
                Some(Mnemonic::Jnz) => {
                    if tokens.len() < 2 {
                        Err(AsmError::MissingOperand)
                    } else {
                        proof {
                            assert(t[1] == tokens@[1]@);
                        }
                        match lookup_label_exec(&labels, &tokens[1]) {
                            Some(v) => Ok(Instruction::Jnz(Address::Absolute(v))),
                            None => Err(AsmError::UndefinedLabel),
                        }
                    }
                },
            };
            proof {
                assert(spec_decode(lv, lv[i as int]) == decoded);
            }
            match decoded {
                Ok(ins) => {
                    out.push(ins);
                    proof {
                        assert(spec_asm_upto(lv, i as int + 1) == Ok::<
                            Seq<Instruction>,
                            AsmError,
                        >(out@));
                    }
                    i = i + 1;
                },
                Err(e) => {
                    proof {
                        assert(spec_asm_upto(lv, i as int + 1) == Err::<
                            Seq<Instruction>,
                            AsmError,
                        >(e));
                        lemma_asm_err_persists(lv, i as int + 1, lv.len() as int);
                    }
                    return Err(e);
                },
            }
        }
    }
    Ok(out)
}

/// The fatal condition of fetching an instruction at a program counter at or
/// beyond the program length.
#[derive(Debug, PartialEq, Eq, Copy, Clone, Structural)]
pub struct PcOutOfBounds {
    pub pc: u32,
}

/// One interpreter step of ant `a` against grid contents `g` under program
/// `p`: `None` when the program counter is out of bounds, otherwise the new
/// grid contents and ant state.
///
/// Design decisions, made explicit: the conditional jumps branch on the
/// ant's carried-food count, not on the flag register; `CheckPh` reads the
/// pheromone through the colony-filtered query, so another colony's scent
/// reads as absent; instructions whose effect table leaves the flag
/// "unchanged" really do leave it unchanged.
pub open spec fn step_one(p: Seq<Instruction>, g: Map<Coord, Cell>, a: Ant) -> Option<
    (Map<Coord, Cell>, Ant),
> {
    if a.state.pc >= p.len() {
        None
    } else {
        let pc1 = ((a.state.pc + 1) as u32);
        let c = a.coord;
        match p[a.state.pc as int] {
            Instruction::TurnLeft => Some(
                (
                    g,
                    Ant {
                        facing: spec_turn_left(a.facing),
                        state: AntState { pc: pc1, flag: a.state.flag },
                        ..a
                    },
                ),
            ),
            Instruction::TurnRight => Some(
                (
                    g,
                    Ant {
                        facing: spec_turn_right(a.facing),
                        state: AntState { pc: pc1, flag: a.state.flag },
                        ..a
                    },
                ),
            ),
            Instruction::Advance => {
                let nb = spec_neighbor(a.coord, a.facing);
                if g.dom().contains(nb) && !g[nb].is_obstacle {
                    Some((g, Ant { coord: nb, state: AntState { pc: pc1, flag: 1 }, ..a }))
                } else {
                    Some((g, Ant { state: AntState { pc: pc1, flag: 0 }, ..a }))
                }
            },
            Instruction::Pickup => {
                if g.dom().contains(c) && g[c].food > 0 {
                    Some(
                        (
                            g.insert(c, Cell { food: (g[c].food - 1) as u32, ..g[c] }),
                            Ant {
                                food: spec_inc_sat(a.food),
                                state: AntState { pc: pc1, flag: 1 },
                                ..a
                            },
                        ),
                    )
                } else {
                    Some((g, Ant { state: AntState { pc: pc1, flag: 0 }, ..a }))
                }
            },
            Instruction::Drop => {
                if a.food > 0 && g.dom().contains(c) {
                    Some(
                        (
                            g.insert(c, Cell { food: spec_inc_sat(g[c].food), ..g[c] }),
                            Ant {
                                food: (a.food - 1) as u32,
                                state: AntState { pc: pc1, flag: 1 },
                                ..a
                            },
                        ),
                    )
                } else {
                    Some((g, Ant { state: AntState { pc: pc1, flag: 0 }, ..a }))
                }
            },
            Instruction::ReleasePh(sv) => {
                let g2 = if g.dom().contains(c) {
                    g.insert(
                        c,
                        Cell {
                            pheromone: Some(Pheromone { scent: Scent(sv), colony: a.colony }),
                            ..g[c]
                        },
                    )
                } else {
                    g
                };
                Some((g2, Ant { state: AntState { pc: pc1, flag: a.state.flag }, ..a }))
            },
            Instruction::ErasePh => {
                let g2 = if g.dom().contains(c) {
                    g.insert(c, Cell { pheromone: None, ..g[c] })
                } else {
                    g
                };
                Some((g2, Ant { state: AntState { pc: pc1, flag: a.state.flag }, ..a }))
            },
            Instruction::CheckFood => {
                let f = if g.dom().contains(c) {
                    g[c].food
                } else {
                    0
                };
                Some((g, Ant { state: AntState { pc: pc1, flag: f }, ..a }))
            },
            Instruction::CheckPh => {
                let f = if g.dom().contains(c) && g[c].pheromone is Some && g[c].pheromone->0.colony
                    == a.colony {
                    g[c].pheromone->0.scent.0 as u32
                } else {
                    0
                };
                Some((g, Ant { state: AntState { pc: pc1, flag: f }, ..a }))
            },
            Instruction::CheckNest => {
                let f = if g.dom().contains(c) && g[c].nest is Some {
                    (g[c].nest->0).0
                } else {
                    0
                };
                Some((g, Ant { state: AntState { pc: pc1, flag: f }, ..a }))
            },
            Instruction::Jmp(Address::Absolute(ad)) => Some(
                (g, Ant { state: AntState { pc: ad, flag: a.state.flag }, ..a }),
            ),
            Instruction::Jz(Address::Absolute(ad)) => {
                let npc = if a.food == 0 {
                    ad
                } else {
                    pc1
                };
                Some((g, Ant { state: AntState { pc: npc, flag: a.state.flag }, ..a }))
            },
            Instruction::Jnz(Address::Absolute(ad)) => {
                let npc = if a.food != 0 {
                    ad
                } else {
                    pc1
                };
                Some((g, Ant { state: AntState { pc: npc, flag: a.state.flag }, ..a }))
            },
        }
    }
}

/// Execute exactly one instruction of `ant`'s program against the grid.
///
/// Fetching at a program counter at or beyond the program length is the
/// fatal out-of-bounds condition: it is reported as an error and leaves the
/// grid and the ant untouched.  Every other outcome follows [`step_one`];
/// see there for the documented design decisions (conditional jumps branch
/// on carried food; `CheckPh` senses only the own colony's pheromone).
pub fn run_instruction(program: &Vec<Instruction>, grid: &mut Grid<Cell>, ant: &mut Ant) -> (r:
    Result<(), PcOutOfBounds>)
    requires
        old(grid).wf(),
        program@.len() <= u32::MAX,
        step_safe(old(ant).coord),
    ensures
        final(grid).wf(),
        match r {
            Ok(_) => step_one(program@, old(grid)@, *old(ant)) == Some(
                (final(grid)@, *final(ant)),
            ),
            Err(e) => {
                &&& step_one(program@, old(grid)@, *old(ant)) is None
                &&& e == (PcOutOfBounds { pc: old(ant).state.pc })
                &&& *final(ant) == *old(ant)
                &&& final(grid)@ == old(grid)@
                &&& *final(grid) == *old(grid)
            },
        },
{
    let pc = ant.state.pc;
    if pc as usize >= program.len() {
        return Err(PcOutOfBounds { pc });
    }
    let instruction = program[pc as usize];
    ant.state.pc = pc + 1;
    match instruction {
        Instruction::TurnLeft => {
            ant.turn_left();
        },
        Instruction::TurnRight => {
            ant.turn_right();
        },
        Instruction::Advance => {
            let moved = ant.advance(grid);
            ant.state.flag = if moved {
                1
            } else {
                0
            };
        },
        Instruction::Pickup => {
            let ok = ant.pickup(grid);
            ant.state.flag = if ok {
                1
            } else {
                0
            };
        },
        Instruction::Drop => {
            let ok = ant.drop_food(grid);
            ant.state.flag = if ok {
                1
            } else {
                0
            };
        },
        Instruction::ReleasePh(sv) => {
            let here: Option<Cell> = match grid.get(&ant.coord) {
                Some(c) => Some(*c),
                None => None,
            };
            if let Some(cell) = here {
                grid.set(
                    ant.coord,
                    Cell { pheromone: Some(Pheromone::new(Scent(sv), ant.colony)), ..cell },
                );
            }
        },
        Instruction::ErasePh => {
            let here: Option<Cell> = match grid.get(&ant.coord) {
                Some(c) => Some(*c),
                None => None,
            };
            if let Some(cell) = here {
                grid.set(ant.coord, Cell { pheromone: None, ..cell });
            }
        },
        Instruction::CheckFood => {
            ant.state.flag = match grid.get(&ant.coord) {
                Some(c) => c.food,
                None => 0,
            };
        },
        Instruction::CheckPh => {
            ant.state.flag = match grid.get(&ant.coord) {
                Some(c) => match c.pheromone {
                    Some(p) => {
                        if p.colony == ant.colony {
                            p.scent.0 as u32
                        } else {
                            0
                        }
                    },
                    None => 0,
                },
                None => 0,
            };
        },
        Instruction::CheckNest => {
            ant.state.flag = match grid.get(&ant.coord) {
                Some(c) => match c.nest {
                    Some(n) => n.0,
                    None => 0,
                },
                None => 0,
            };
        },
        Instruction::Jmp(Address::Absolute(ad)) => {
            ant.state.pc = ad;
        },
        Instruction::Jz(Address::Absolute(ad)) => {
            if ant.food == 0 {
                ant.state.pc = ad;
            }
        },
        Instruction::Jnz(Address::Absolute(ad)) => {
            if ant.food != 0 {
                ant.state.pc = ad;
            }
        },
    }
    Ok(())
}

} // verus!
