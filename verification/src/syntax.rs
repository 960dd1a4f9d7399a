//! The text format of trace files, as a grammar over bytes and a parser
//! proved to follow it.
//!
//! A trace file is a sequence of named blocks:
//!
//! ```text
//! compare 'name' {
//!     0x100..32..0x140        // a range: start .. instruction bits .. end
//!     other()                 // the ops of another block
//!     loop(3) { ... }         // a block repeated
//!     switch:                 // one block picked at random, by weight
//!         (1): { ... }
//!         (3): { ... }
//!     endswitch
//! }
//! ```
//!
//! Numbers are decimal or carry a `0x`, `0b` or `0o` prefix; `//` starts a
//! comment that runs to the end of the line.
use vstd::prelude::*;

verus! {

// ---------------------------------------------------------------------------
// The parsed form, as mathematical values
// ---------------------------------------------------------------------------

/// One operation of a block.
pub enum SpecOp {
    /// The instructions from `start` up to `end`, `length` bits each.
    Range { start: usize, length: usize, end: usize },
    /// The operations of the block called `name`.
    Call { name: Seq<u8> },
    /// `body`, `count` times over.
    Loop { count: usize, body: Seq<SpecOp> },
    /// One of `cases`, picked at random by weight.
    Switch { cases: Seq<SpecCase> },
}

/// One case of a switch.
pub struct SpecCase {
    pub weight: usize,
    pub body: Seq<SpecOp>,
}

/// A named block of a trace file.
pub struct SpecBlock {
    /// Marked `compare`: a trace to simulate, not only a block to call.
    pub compare: bool,
    pub name: Seq<u8>,
    pub ops: Seq<SpecOp>,
}

// ---------------------------------------------------------------------------
// Bytes
// ---------------------------------------------------------------------------

/// The kinds of bytes that the scanners take runs of.
#[derive(Clone, Copy, PartialEq, Eq, Structural)]
pub enum ByteClass {
    /// Space or tab.
    Space,
    /// Space, tab, carriage return or line feed.
    MultiSpace,
    /// `0`-`9`.
    Digit,
    /// `0`-`9`, `a`-`f`, `A`-`F`.
    Hex,
    /// `0`, `1`.
    Bin,
    /// `0`-`7`.
    Oct,
    /// ASCII letters and digits, `_` and `-`.
    Name,
    /// Anything but carriage return and line feed.
    NotLineEnd,
    /// ASCII letters and digits.
    Alnum,
}

pub open spec fn is_letter(b: u8) -> bool {
    (65 <= b <= 90) || (97 <= b <= 122)
}

pub open spec fn is_digit(b: u8) -> bool {
    48 <= b <= 57
}

pub open spec fn in_class(c: ByteClass, b: u8) -> bool {
    match c {
        ByteClass::Space => b == 32 || b == 9,
        ByteClass::MultiSpace => b == 32 || b == 9 || b == 13 || b == 10,
        ByteClass::Digit => is_digit(b),
        ByteClass::Hex => is_digit(b) || (97 <= b <= 102) || (65 <= b <= 70),
        ByteClass::Bin => b == 48 || b == 49,
        ByteClass::Oct => 48 <= b <= 55,
        ByteClass::Name => is_letter(b) || is_digit(b) || b == 95 || b == 45,
        ByteClass::NotLineEnd => b != 13 && b != 10,
        ByteClass::Alnum => is_letter(b) || is_digit(b),
    }
}

/// The value of a digit byte (of any radix up to 16).
pub open spec fn digit_value(b: u8) -> nat {
    if is_digit(b) {
        (b - 48) as nat
    } else if 97 <= b <= 102 {
        (b - 87) as nat
    } else {
        (b - 55) as nat
    }
}

/// The number that `digits` spell in `radix`.
pub open spec fn digits_value(digits: Seq<u8>, radix: nat) -> nat
    decreases digits.len(),
{
    if digits.len() == 0 {
        0
    } else {
        digits_value(digits.drop_last(), radix) * radix + digit_value(digits.last())
    }
}

/// Where the run of `c` bytes that starts at `p` ends.
pub open spec fn scan(s: Seq<u8>, p: int, c: ByteClass) -> int
    decreases s.len() - p,
{
    if 0 <= p < s.len() && in_class(c, s[p]) {
        scan(s, p + 1, c)
    } else {
        p
    }
}

/// `s` holds `word` at `p`.
pub open spec fn lit(s: Seq<u8>, p: int, word: Seq<u8>) -> bool {
    0 <= p && p + word.len() <= s.len() && s.subrange(p, p + word.len()) == word
}

/// `s` holds the byte `b` at `p`.
pub open spec fn byte_at(s: Seq<u8>, p: int, b: u8) -> bool {
    0 <= p < s.len() && s[p] == b
}

pub open spec fn word_compare() -> Seq<u8> {
    seq![99u8, 111, 109, 112, 97, 114, 101]
}

pub open spec fn word_loop() -> Seq<u8> {
    seq![108u8, 111, 111, 112]
}

pub open spec fn word_switch() -> Seq<u8> {
    seq![115u8, 119, 105, 116, 99, 104, 58]
}

pub open spec fn word_endswitch() -> Seq<u8> {
    seq![101u8, 110, 100, 115, 119, 105, 116, 99, 104]
}

pub open spec fn word_comment() -> Seq<u8> {
    seq![47u8, 47]
}

pub open spec fn word_call() -> Seq<u8> {
    seq![40u8, 41]
}

pub open spec fn word_dots() -> Seq<u8> {
    seq![46u8, 46]
}

pub open spec fn word_crlf() -> Seq<u8> {
    seq![13u8, 10]
}

pub open spec fn word_hex() -> Seq<u8> {
    seq![48u8, 120]
}

pub open spec fn word_bin() -> Seq<u8> {
    seq![48u8, 98]
}

pub open spec fn word_oct() -> Seq<u8> {
    seq![48u8, 111]
}

// ---------------------------------------------------------------------------
// Blanks and line ends
// ---------------------------------------------------------------------------

/// The rest of a line: up to a line feed, a carriage return that starts
/// `\r\n`, or the end of the input. A carriage return alone fails.
pub open spec fn till_line_ending(s: Seq<u8>, p: int) -> Option<int> {
    let q = scan(s, p, ByteClass::NotLineEnd);
    if byte_at(s, q, 13) && !lit(s, q, word_crlf()) {
        None
    } else {
        Some(q)
    }
}

/// A comment: `//` and the rest of the line.
pub open spec fn comment(s: Seq<u8>, p: int) -> Option<int> {
    if lit(s, p, word_comment()) {
        till_line_ending(s, p + 2)
    } else {
        None
    }
}

/// Blanks within a line: spaces and tabs, and at most one comment.
pub open spec fn space(s: Seq<u8>, p: int) -> int {
    let q = scan(s, p, ByteClass::Space);
    let r = match comment(s, q) {
        Some(r) => r,
        None => q,
    };
    scan(s, r, ByteClass::Space)
}

/// Comments, each followed by any blank space, for as long as they come.
pub open spec fn comments(s: Seq<u8>, p: int) -> int
    decreases s.len() - p,
{
    match comment(s, p) {
        Some(q) => {
            let r = scan(s, q, ByteClass::MultiSpace);
            if p < r <= s.len() {
                comments(s, r)
            } else {
                p
            }
        },
        None => p,
    }
}

/// Blank space across lines, comments included.
pub open spec fn multispace(s: Seq<u8>, p: int) -> int {
    let q = scan(s, p, ByteClass::MultiSpace);
    scan(s, comments(s, q), ByteClass::MultiSpace)
}

/// The end of a line: blanks, a line ending or the end of the input, then
/// any blank space.
pub open spec fn end(s: Seq<u8>, p: int) -> Option<int> {
    let q = space(s, p);
    if byte_at(s, q, 10) {
        Some(multispace(s, q + 1))
    } else if lit(s, q, word_crlf()) {
        Some(multispace(s, q + 2))
    } else if q == s.len() {
        Some(multispace(s, q))
    } else {
        None
    }
}

// ---------------------------------------------------------------------------
// Numbers and names
// ---------------------------------------------------------------------------

/// A non-empty run of `c` digits read in `radix`, if its value fits a
/// `usize`.
pub open spec fn digits(s: Seq<u8>, p: int, c: ByteClass, radix: nat) -> Option<(usize, int)> {
    let q = scan(s, p, c);
    if q == p {
        None
    } else {
        let v = digits_value(s.subrange(p, q), radix);
        if v <= usize::MAX {
            Some((v as usize, q))
        } else {
            None
        }
    }
}

pub open spec fn decimal(s: Seq<u8>, p: int) -> Option<(usize, int)> {
    digits(s, p, ByteClass::Digit, 10)
}

/// A number: hexadecimal after `0x`, binary after `0b`, octal after `0o`,
/// decimal otherwise.
pub open spec fn integer(s: Seq<u8>, p: int) -> Option<(usize, int)> {
    if lit(s, p, word_hex()) {
        digits(s, p + 2, ByteClass::Hex, 16)
    } else if lit(s, p, word_bin()) {
        digits(s, p + 2, ByteClass::Bin, 2)
    } else if lit(s, p, word_oct()) {
        digits(s, p + 2, ByteClass::Oct, 8)
    } else {
        decimal(s, p)
    }
}

/// A block name: a non-empty run of letters, digits, `_` and `-`.
pub open spec fn name(s: Seq<u8>, p: int) -> Option<(Seq<u8>, int)> {
    let q = scan(s, p, ByteClass::Name);
    if q == p {
        None
    } else {
        Some((s.subrange(p, q), q))
    }
}

// ---------------------------------------------------------------------------
// Operations
// ---------------------------------------------------------------------------

/// The checks that a range must pass: it is not empty, its instruction size
/// is a whole, non-zero number of bytes, and whole instructions fill it.
pub open spec fn range_ok(start: usize, length: usize, end: usize) -> bool {
    &&& start < end
    &&& length % 8 == 0
    &&& length != 0
    &&& (end - start) % (length / 8) as int == 0
}

/// `start..length..end` and the end of the line.
pub open spec fn range(s: Seq<u8>, p: int) -> Option<(SpecOp, int)> {
    match integer(s, p) {
        None => None,
        Some((a, p1)) => if !lit(s, p1, word_dots()) {
            None
        } else {
            match integer(s, p1 + 2) {
                None => None,
                Some((l, p2)) => if !lit(s, p2, word_dots()) {
                    None
                } else {
                    match integer(s, p2 + 2) {
                        None => None,
                        Some((e, p3)) => match end(s, p3) {
                            None => None,
                            Some(p4) => if range_ok(a, l, e) {
                                Some((SpecOp::Range { start: a, length: l, end: e }, p4))
                            } else {
                                None
                            },
                        },
                    }
                },
            }
        },
    }
}

/// `name()` and the end of the line.
pub open spec fn call(s: Seq<u8>, p: int) -> Option<(SpecOp, int)> {
    match name(s, p) {
        None => None,
        Some((n, p1)) => if !lit(s, p1, word_call()) {
            None
        } else {
            match end(s, p1 + 2) {
                None => None,
                Some(p2) => Some((SpecOp::Call { name: n }, p2)),
            }
        },
    }
}

/// `(` number `)` with blanks around each part.
pub open spec fn parenthesized(s: Seq<u8>, p: int) -> Option<(usize, int)> {
    let q = space(s, p);
    if !byte_at(s, q, 40) {
        None
    } else {
        match decimal(s, space(s, q + 1)) {
            None => None,
            Some((v, q2)) => {
                let q3 = space(s, q2);
                if !byte_at(s, q3, 41) {
                    None
                } else {
                    Some((v, space(s, q3 + 1)))
                }
            },
        }
    }
}

/// `loop(count)` and a block, where `p` is just after the word `loop`.
pub open spec fn loop_rest(s: Seq<u8>, p: int) -> Option<(SpecOp, int)>
    decreases s.len() - p, 0int,
{
    match parenthesized(s, p) {
        None => None,
        Some((count, q)) => if p < q <= s.len() {
            match block(s, q) {
                None => None,
                Some((body, r)) => Some((SpecOp::Loop { count, body }, r)),
            }
        } else {
            None
        },
    }
}

/// `(weight): block`.
pub open spec fn case(s: Seq<u8>, p: int) -> Option<(SpecCase, int)>
    decreases s.len() - p, 1int,
{
    match parenthesized(s, p) {
        None => None,
        Some((weight, q)) => {
            let q2 = space(s, q);
            if !byte_at(s, q2, 58) {
                None
            } else {
                let q3 = space(s, q2 + 1);
                if p < q3 <= s.len() {
                    match block(s, q3) {
                        None => None,
                        Some((body, r)) => Some((SpecCase { weight, body }, r)),
                    }
                } else {
                    None
                }
            }
        },
    }
}

/// Cases up to the word `endswitch`; the first case comes before any check
/// for that word.
pub open spec fn cases(s: Seq<u8>, p: int, first: bool) -> Option<(Seq<SpecCase>, int)>
    decreases s.len() - p, 2int,
{
    let q = multispace(s, p);
    if !first && lit(s, q, word_endswitch()) {
        Some((Seq::empty(), q + 9))
    } else {
        match case(s, p) {
            None => None,
            Some((c, q2)) => if p < q2 <= s.len() {
                match cases(s, q2, false) {
                    None => None,
                    Some((rest, r)) => Some((seq![c] + rest, r)),
                }
            } else {
                None
            },
        }
    }
}

/// `switch:`, the end of its line, the cases, `endswitch` and the end of
/// its line, where `p` is just after `switch:`.
pub open spec fn switch_rest(s: Seq<u8>, p: int) -> Option<(SpecOp, int)>
    decreases s.len() - p, 3int,
{
    match end(s, p) {
        None => None,
        Some(q) => if p <= q <= s.len() {
            match cases(s, q, true) {
                None => None,
                Some((cs, r)) => match end(s, r) {
                    None => None,
                    Some(e) => Some((SpecOp::Switch { cases: cs }, e)),
                },
            }
        } else {
            None
        },
    }
}

/// One operation, after any blank space: a call, a loop, a switch or a
/// range, tried in that order. Once the word `loop` or `switch:` is read,
/// the rest must be a loop or a switch.
pub open spec fn op(s: Seq<u8>, p: int) -> Option<(SpecOp, int)>
    decreases s.len() - p, 4int,
{
    let q = multispace(s, p);
    if !(p <= q <= s.len()) {
        None
    } else {
        match call(s, q) {
            Some(r) => Some(r),
            None => if lit(s, q, word_loop()) {
                loop_rest(s, q + 4)
            } else if lit(s, q, word_switch()) {
                switch_rest(s, q + 7)
            } else {
                range(s, q)
            },
        }
    }
}

/// Operations up to a closing brace.
pub open spec fn ops(s: Seq<u8>, p: int) -> Option<(Seq<SpecOp>, int)>
    decreases s.len() - p, 5int,
{
    let q = multispace(s, p);
    if byte_at(s, q, 125) {
        Some((Seq::empty(), q + 1))
    } else {
        match op(s, p) {
            None => None,
            Some((o, q2)) => if p < q2 <= s.len() {
                match ops(s, q2) {
                    None => None,
                    Some((rest, r)) => Some((seq![o] + rest, r)),
                }
            } else {
                None
            },
        }
    }
}

/// `{`, operations, `}` and the end of the line.
pub open spec fn block(s: Seq<u8>, p: int) -> Option<(Seq<SpecOp>, int)>
    decreases s.len() - p, 6int,
{
    let q = multispace(s, p);
    if !(p <= q < s.len()) || s[q] != 123 {
        None
    } else {
        match ops(s, q + 1) {
            None => None,
            Some((body, r)) => match end(s, r) {
                None => None,
                Some(e) => Some((body, e)),
            },
        }
    }
}

/// Whether the word `compare` and blanks start a named block at `p`, and
/// where the rest starts.
pub open spec fn compare_mark(s: Seq<u8>, p: int) -> (bool, int) {
    if lit(s, p, word_compare()) && scan(s, p + 7, ByteClass::Space) > p + 7 {
        (true, scan(s, p + 7, ByteClass::Space))
    } else {
        (false, p)
    }
}

/// `compare`, if there, the name in single quotes, and a block.
pub open spec fn named_block(s: Seq<u8>, p: int) -> Option<(SpecBlock, int)> {
    let (compare, q) = compare_mark(s, p);
    if !byte_at(s, q, 39) {
        None
    } else {
        match name(s, q + 1) {
            None => None,
            Some((n, q2)) => if !byte_at(s, q2, 39) {
                None
            } else {
                match block(s, q2 + 1) {
                    None => None,
                    Some((body, r)) => Some((SpecBlock { compare, name: n, ops: body }, r)),
                }
            },
        }
    }
}

/// Named blocks, each after blank space, for as long as they come.
pub open spec fn named_blocks(s: Seq<u8>, p: int) -> (Seq<SpecBlock>, int)
    decreases s.len() - p,
{
    match named_block(s, multispace(s, p)) {
        Some((b, q)) => if p < q <= s.len() {
            let (rest, r) = named_blocks(s, q);
            (seq![b] + rest, r)
        } else {
            (Seq::empty(), p)
        },
        None => (Seq::empty(), p),
    }
}

/// Where reading whole named blocks stops: the end of the input for a
/// trace file, else the first byte that no named block takes in.
pub open spec fn parse_stop(s: Seq<u8>) -> int {
    named_blocks(s, 0).1
}

/// The blocks of a trace file, if the whole input is one.
#[verifier::opaque]
pub open spec fn parse_blocks(s: Seq<u8>) -> Option<Seq<SpecBlock>> {
    let (blocks, q) = named_blocks(s, 0);
    if q == s.len() {
        Some(blocks)
    } else {
        None
    }
}

} // verus!

verus! {

// ---------------------------------------------------------------------------
// The parsed form, as values the program holds
// ---------------------------------------------------------------------------

/// One operation of a block.
#[derive(Debug)]
pub enum Op {
    Range { addr_start: usize, instr_length: usize, addr_end: usize },
    BlockCall { block_name: Vec<u8> },
    Loop { count: usize, block: Block },
    Switch { cases: Vec<SwitchCase> },
}

/// The operations between a pair of braces.
#[derive(Debug)]
pub struct Block {
    pub ops: Vec<Op>,
}

/// One case of a switch.
#[derive(Debug)]
pub struct SwitchCase {
    pub weight: usize,
    pub block: Block,
}

/// A named block of a trace file.
#[derive(Debug)]
pub struct NamedBlock {
    pub compare: bool,
    pub name: Vec<u8>,
    pub ops: Vec<Op>,
}

pub open spec fn op_view(o: Op) -> SpecOp
    decreases o,
{
    match o {
        Op::Range { addr_start, instr_length, addr_end } => SpecOp::Range {
            start: addr_start,
            length: instr_length,
            end: addr_end,
        },
        Op::BlockCall { block_name } => SpecOp::Call { name: block_name@ },
        Op::Loop { count, block } => SpecOp::Loop { count, body: ops_view(block.ops@) },
        Op::Switch { cases } => SpecOp::Switch { cases: cases_view(cases@) },
    }
}

pub open spec fn ops_view(s: Seq<Op>) -> Seq<SpecOp>
    decreases s,
{
    if s.len() == 0 {
        Seq::empty()
    } else {
        ops_view(s.subrange(0, s.len() - 1)).push(op_view(s[s.len() - 1]))
    }
}

pub open spec fn cases_view(s: Seq<SwitchCase>) -> Seq<SpecCase>
    decreases s,
{
    if s.len() == 0 {
        Seq::empty()
    } else {
        cases_view(s.subrange(0, s.len() - 1)).push(
            SpecCase { weight: s[s.len() - 1].weight, body: ops_view(s[s.len() - 1].block.ops@) },
        )
    }
}

pub open spec fn named_block_view(b: NamedBlock) -> SpecBlock {
    SpecBlock { compare: b.compare, name: b.name@, ops: ops_view(b.ops@) }
}

pub open spec fn blocks_view(s: Seq<NamedBlock>) -> Seq<SpecBlock> {
    s.map_values(|b: NamedBlock| named_block_view(b))
}

pub proof fn lemma_ops_view(s: Seq<Op>)
    ensures
        ops_view(s).len() == s.len(),
        forall|i: int| 0 <= i < s.len() ==> #[trigger] ops_view(s)[i] == op_view(s[i]),
    decreases s.len(),
{
    if s.len() > 0 {
        lemma_ops_view(s.subrange(0, s.len() - 1));
    }
}

pub proof fn lemma_cases_view(s: Seq<SwitchCase>)
    ensures
        cases_view(s).len() == s.len(),
        forall|i: int|
            0 <= i < s.len() ==> #[trigger] cases_view(s)[i] == (SpecCase {
                weight: s[i].weight,
                body: ops_view(s[i].block.ops@),
            }),
    decreases s.len(),
{
    if s.len() > 0 {
        lemma_cases_view(s.subrange(0, s.len() - 1));
    }
}

proof fn lemma_ops_view_push(s: Seq<Op>, o: Op)
    ensures
        ops_view(s.push(o)) == ops_view(s).push(op_view(o)),
{
    assert(s.push(o).subrange(0, s.len() as int) =~= s);
}

proof fn lemma_cases_view_push(s: Seq<SwitchCase>, c: SwitchCase)
    ensures
        cases_view(s.push(c)) == cases_view(s).push(
            SpecCase { weight: c.weight, body: ops_view(c.block.ops@) },
        ),
{
    assert(s.push(c).subrange(0, s.len() as int) =~= s);
}

/// A parser's position as an `int`.
pub open spec fn at(r: Option<usize>) -> Option<int> {
    match r {
        Some(q) => Some(q as int),
        None => None,
    }
}

/// A parsed value and position, as the grammar states them.
pub open spec fn value_at<T>(r: Option<(T, usize)>) -> Option<(T, int)> {
    match r {
        Some((v, q)) => Some((v, q as int)),
        None => None,
    }
}

// ---------------------------------------------------------------------------
// Scanning
// ---------------------------------------------------------------------------

fn is_in_class(c: ByteClass, b: u8) -> (r: bool)
    ensures
        r == in_class(c, b),
{
    match c {
        ByteClass::Space => b == 32 || b == 9,
        ByteClass::MultiSpace => b == 32 || b == 9 || b == 13 || b == 10,
        ByteClass::Digit => 48 <= b && b <= 57,
        ByteClass::Hex => (48 <= b && b <= 57) || (97 <= b && b <= 102) || (65 <= b && b <= 70),
        ByteClass::Bin => b == 48 || b == 49,
        ByteClass::Oct => 48 <= b && b <= 55,
        ByteClass::Name => (65 <= b && b <= 90) || (97 <= b && b <= 122) || (48 <= b && b <= 57)
            || b == 95 || b == 45,
        ByteClass::NotLineEnd => b != 13 && b != 10,
        ByteClass::Alnum => (65 <= b && b <= 90) || (97 <= b && b <= 122) || (48 <= b && b <= 57),
    }
}

pub(crate) proof fn lemma_scan(s: Seq<u8>, p: int, c: ByteClass)
    requires
        0 <= p <= s.len(),
    ensures
        p <= scan(s, p, c) <= s.len(),
    decreases s.len() - p,
{
    if p < s.len() && in_class(c, s[p]) {
        lemma_scan(s, p + 1, c);
    }
}

pub(crate) fn scan_run(s: &[u8], p: usize, c: ByteClass) -> (q: usize)
    requires
        p <= s@.len(),
    ensures
        q == scan(s@, p as int, c),
        p <= q <= s@.len(),
{
    let mut q = p;
    while q < s.len() && is_in_class(c, s[q])
        invariant
            p <= q <= s@.len(),
            scan(s@, q as int, c) == scan(s@, p as int, c),
        decreases s@.len() - q,
    {
        q += 1;
    }
    q
}

pub(crate) fn has_word(s: &[u8], p: usize, word: &[u8]) -> (r: bool)
    ensures
        r == lit(s@, p as int, word@),
        r ==> p + word@.len() <= s.len(),
{
    if p > s.len() || word.len() > s.len() - p {
        return false;
    }
    let mut i: usize = 0;
    while i < word.len()
        invariant
            p + word@.len() <= s.len(),
            i <= word@.len(),
            forall|k: int| 0 <= k < i ==> s@[p + k] == word@[k],
        decreases word.len() - i,
    {
        if s[p + i] != word[i] {
            assert(s@.subrange(p as int, p + word@.len())[i as int] != word@[i as int]);
            return false;
        }
        i += 1;
    }
    assert(s@.subrange(p as int, p + word@.len()) =~= word@);
    true
}

pub(crate) fn has_byte(s: &[u8], p: usize, b: u8) -> (r: bool)
    ensures
        r == byte_at(s@, p as int, b),
        r ==> p < s.len(),
{
    p < s.len() && s[p] == b
}

fn till_line_ending_exec(s: &[u8], p: usize) -> (r: Option<usize>)
    requires
        p <= s@.len(),
    ensures
        at(r) == till_line_ending(s@, p as int),
        r matches Some(q) ==> p <= q <= s@.len(),
{
    let q = scan_run(s, p, ByteClass::NotLineEnd);
    let crlf = [13u8, 10];
    assert(crlf@ =~= word_crlf());
    if has_byte(s, q, 13) && !has_word(s, q, &crlf) {
        None
    } else {
        Some(q)
    }
}

fn comment_exec(s: &[u8], p: usize) -> (r: Option<usize>)
    requires
        p <= s@.len(),
    ensures
        at(r) == comment(s@, p as int),
        r matches Some(q) ==> p < q <= s@.len(),
{
    let w = [47u8, 47];
    assert(w@ =~= word_comment());
    if has_word(s, p, &w) {
        till_line_ending_exec(s, p + 2)
    } else {
        None
    }
}

fn space_exec(s: &[u8], p: usize) -> (q: usize)
    requires
        p <= s@.len(),
    ensures
        q == space(s@, p as int),
        p <= q <= s@.len(),
{
    let q = scan_run(s, p, ByteClass::Space);
    let r = match comment_exec(s, q) {
        Some(r) => r,
        None => q,
    };
    scan_run(s, r, ByteClass::Space)
}

fn multispace_exec(s: &[u8], p: usize) -> (q: usize)
    requires
        p <= s@.len(),
    ensures
        q == multispace(s@, p as int),
        p <= q <= s@.len(),
{
    let start = scan_run(s, p, ByteClass::MultiSpace);
    let mut q = start;
    loop
        invariant
            start <= q <= s@.len(),
            comments(s@, q as int) == comments(s@, start as int),
        ensures
            start <= q <= s@.len(),
            comments(s@, start as int) == q,
        decreases s@.len() - q,
    {
        match comment_exec(s, q) {
            Some(c) => {
                let r = scan_run(s, c, ByteClass::MultiSpace);
                if q < r && r <= s.len() {
                    q = r;
                } else {
                    break ;
                }
            },
            None => {
                break ;
            },
        }
    }
    scan_run(s, q, ByteClass::MultiSpace)
}

fn end_exec(s: &[u8], p: usize) -> (r: Option<usize>)
    requires
        p <= s@.len(),
    ensures
        at(r) == end(s@, p as int),
        r matches Some(q) ==> p <= q <= s@.len(),
{
    let q = space_exec(s, p);
    let crlf = [13u8, 10];
    assert(crlf@ =~= word_crlf());
    if has_byte(s, q, 10) {
        Some(multispace_exec(s, q + 1))
    } else if has_word(s, q, &crlf) {
        Some(multispace_exec(s, q + 2))
    } else if q == s.len() {
        Some(multispace_exec(s, q))
    } else {
        None
    }
}

} // verus!

verus! {

// ---------------------------------------------------------------------------
// Numbers and names
// ---------------------------------------------------------------------------

pub(crate) proof fn lemma_scan_run_in_class(s: Seq<u8>, p: int, c: ByteClass, k: int)
    requires
        0 <= p <= k < scan(s, p, c),
    ensures
        in_class(c, s[k]),
    decreases s.len() - p,
{
    if p < s.len() && in_class(c, s[p]) {
        if k > p {
            lemma_scan_run_in_class(s, p + 1, c, k);
        }
    }
}

proof fn lemma_digits_prefix_le(t: Seq<u8>, j: int, radix: nat)
    requires
        0 <= j <= t.len(),
        radix >= 1,
    ensures
        digits_value(t.subrange(0, j), radix) <= digits_value(t, radix),
    decreases t.len(),
{
    if j < t.len() {
        let u = t.drop_last();
        lemma_digits_prefix_le(u, j, radix);
        assert(u.subrange(0, j) =~= t.subrange(0, j));
        let a = digits_value(u, radix);
        assert(a * radix >= a) by (nonlinear_arith)
            requires
                radix >= 1,
                a >= 0,
        ;
    } else {
        assert(t.subrange(0, j) =~= t);
    }
}

fn digit_of(b: u8) -> (d: usize)
    requires
        in_class(ByteClass::Hex, b),
    ensures
        d == digit_value(b),
        d < 16,
{
    if 48 <= b && b <= 57 {
        (b - 48) as usize
    } else if 97 <= b && b <= 102 {
        (b - 87) as usize
    } else {
        (b - 55) as usize
    }
}

pub(crate) fn digits_exec(s: &[u8], p: usize, c: ByteClass, radix: usize) -> (r: Option<(usize, usize)>)
    requires
        p <= s@.len(),
        2 <= radix <= 16,
        c == ByteClass::Digit || c == ByteClass::Hex || c == ByteClass::Bin || c == ByteClass::Oct,
    ensures
        value_at(r) == digits(s@, p as int, c, radix as nat),
        r matches Some((_, q)) ==> p < q <= s@.len(),
{
    let q = scan_run(s, p, c);
    if q == p {
        return None;
    }
    let ghost t = s@.subrange(p as int, q as int);
    let mut v: usize = 0;
    let mut k: usize = p;
    while k < q
        invariant
            p <= k <= q <= s@.len(),
            q == scan(s@, p as int, c),
            t == s@.subrange(p as int, q as int),
            2 <= radix <= 16,
            c == ByteClass::Digit || c == ByteClass::Hex || c == ByteClass::Bin || c
                == ByteClass::Oct,
            v == digits_value(s@.subrange(p as int, k as int), radix as nat),
        decreases q - k,
    {
        proof {
            lemma_scan_run_in_class(s@, p as int, c, k as int);
        }
        let d = digit_of(s[k]);
        let ghost next = s@.subrange(p as int, k + 1);
        assert(next.drop_last() =~= s@.subrange(p as int, k as int));
        let limit = (usize::MAX - d) / radix;
        if v > limit {
            assert(v * radix + d > usize::MAX) by (nonlinear_arith)
                requires
                    limit as int == (usize::MAX - d) as int / radix as int,
                    v > limit,
                    radix >= 2,
                    d < 16,
            ;
            proof {
                lemma_digits_prefix_le(t, k + 1 - p, radix as nat);
                assert(t.subrange(0, k + 1 - p) =~= next);
            }
            return None;
        }
        assert(v * radix + d <= usize::MAX) by (nonlinear_arith)
            requires
                limit as int == (usize::MAX - d) as int / radix as int,
                v <= limit,
                radix >= 2,
                d < 16,
        ;
        v = v * radix + d;
        k += 1;
    }
    Some((v, q))
}

pub(crate) fn decimal_exec(s: &[u8], p: usize) -> (r: Option<(usize, usize)>)
    requires
        p <= s@.len(),
    ensures
        value_at(r) == decimal(s@, p as int),
        r matches Some((_, q)) ==> p < q <= s@.len(),
{
    digits_exec(s, p, ByteClass::Digit, 10)
}

fn integer_exec(s: &[u8], p: usize) -> (r: Option<(usize, usize)>)
    requires
        p <= s@.len(),
    ensures
        value_at(r) == integer(s@, p as int),
        r matches Some((_, q)) ==> p < q <= s@.len(),
{
    let hex = [48u8, 120];
    let bin = [48u8, 98];
    let oct = [48u8, 111];
    assert(hex@ =~= word_hex());
    assert(bin@ =~= word_bin());
    assert(oct@ =~= word_oct());
    if has_word(s, p, &hex) {
        digits_exec(s, p + 2, ByteClass::Hex, 16)
    } else if has_word(s, p, &bin) {
        digits_exec(s, p + 2, ByteClass::Bin, 2)
    } else if has_word(s, p, &oct) {
        digits_exec(s, p + 2, ByteClass::Oct, 8)
    } else {
        decimal_exec(s, p)
    }
}

pub(crate) fn copy_bytes(s: &[u8], from: usize, to: usize) -> (v: Vec<u8>)
    requires
        from <= to <= s@.len(),
    ensures
        v@ == s@.subrange(from as int, to as int),
{
    let mut v: Vec<u8> = Vec::new();
    let mut k = from;
    while k < to
        invariant
            from <= k <= to <= s@.len(),
            v@ == s@.subrange(from as int, k as int),
        decreases to - k,
    {
        v.push(s[k]);
        k += 1;
        assert(v@ =~= s@.subrange(from as int, k as int));
    }
    v
}

fn name_exec(s: &[u8], p: usize) -> (r: Option<(Vec<u8>, usize)>)
    requires
        p <= s@.len(),
    ensures
        match r {
            Some((n, q)) => name(s@, p as int) == Some((n@, q as int)) && p < q <= s@.len(),
            None => name(s@, p as int) is None,
        },
{
    let q = scan_run(s, p, ByteClass::Name);
    if q == p {
        None
    } else {
        Some((copy_bytes(s, p, q), q))
    }
}

fn range_ok_exec(start: usize, length: usize, end: usize) -> (r: bool)
    ensures
        r == range_ok(start, length, end),
{
    start < end && length % 8 == 0 && length != 0 && (end - start) % (length / 8) == 0
}

/// The view of a parsed operation and its position.
pub open spec fn op_at(r: Option<(Op, usize)>) -> Option<(SpecOp, int)> {
    match r {
        Some((o, q)) => Some((op_view(o), q as int)),
        None => None,
    }
}

fn range_exec(s: &[u8], p: usize) -> (r: Option<(Op, usize)>)
    requires
        p <= s@.len(),
    ensures
        op_at(r) == range(s@, p as int),
        r matches Some((_, q)) ==> p < q <= s@.len(),
{
    let dots = [46u8, 46];
    assert(dots@ =~= word_dots());
    let (a, p1) = match integer_exec(s, p) {
        Some(x) => x,
        None => return None,
    };
    if !has_word(s, p1, &dots) {
        return None;
    }
    let (l, p2) = match integer_exec(s, p1 + 2) {
        Some(x) => x,
        None => return None,
    };
    if !has_word(s, p2, &dots) {
        return None;
    }
    let (e, p3) = match integer_exec(s, p2 + 2) {
        Some(x) => x,
        None => return None,
    };
    let p4 = match end_exec(s, p3) {
        Some(x) => x,
        None => return None,
    };
    if range_ok_exec(a, l, e) {
        Some((Op::Range { addr_start: a, instr_length: l, addr_end: e }, p4))
    } else {
        None
    }
}

fn call_exec(s: &[u8], p: usize) -> (r: Option<(Op, usize)>)
    requires
        p <= s@.len(),
    ensures
        op_at(r) == call(s@, p as int),
        r matches Some((_, q)) ==> p < q <= s@.len(),
{
    let parens = [40u8, 41];
    assert(parens@ =~= word_call());
    let (n, p1) = match name_exec(s, p) {
        Some(x) => x,
        None => return None,
    };
    if !has_word(s, p1, &parens) {
        return None;
    }
    match end_exec(s, p1 + 2) {
        Some(p2) => Some((Op::BlockCall { block_name: n }, p2)),
        None => None,
    }
}

fn parenthesized_exec(s: &[u8], p: usize) -> (r: Option<(usize, usize)>)
    requires
        p <= s@.len(),
    ensures
        value_at(r) == parenthesized(s@, p as int),
        r matches Some((_, q)) ==> p < q <= s@.len(),
{
    let q = space_exec(s, p);
    if !has_byte(s, q, 40) {
        return None;
    }
    let q1 = space_exec(s, q + 1);
    match decimal_exec(s, q1) {
        None => None,
        Some((v, q2)) => {
            let q3 = space_exec(s, q2);
            if !has_byte(s, q3, 41) {
                None
            } else {
                Some((v, space_exec(s, q3 + 1)))
            }
        },
    }
}

} // verus!

verus! {

// ---------------------------------------------------------------------------
// Blocks
// ---------------------------------------------------------------------------

pub open spec fn ops_at(r: Option<(Vec<Op>, usize)>) -> Option<(Seq<SpecOp>, int)> {
    match r {
        Some((v, q)) => Some((ops_view(v@), q as int)),
        None => None,
    }
}

pub open spec fn block_at(r: Option<(Block, usize)>) -> Option<(Seq<SpecOp>, int)> {
    match r {
        Some((b, q)) => Some((ops_view(b.ops@), q as int)),
        None => None,
    }
}

pub open spec fn case_at(r: Option<(SwitchCase, usize)>) -> Option<(SpecCase, int)> {
    match r {
        Some((c, q)) => Some((SpecCase { weight: c.weight, body: ops_view(c.block.ops@) }, q as int)),
        None => None,
    }
}

pub open spec fn cases_at(r: Option<(Vec<SwitchCase>, usize)>) -> Option<(Seq<SpecCase>, int)> {
    match r {
        Some((v, q)) => Some((cases_view(v@), q as int)),
        None => None,
    }
}

/// `r` with `prefix` put in front of the values it parsed.
pub open spec fn after_prefix<T>(prefix: Seq<T>, r: Option<(Seq<T>, int)>) -> Option<(Seq<T>, int)> {
    match r {
        Some((rest, q)) => Some((prefix + rest, q)),
        None => None,
    }
}

fn loop_rest_exec(s: &[u8], p: usize) -> (r: Option<(Op, usize)>)
    requires
        p <= s@.len(),
    ensures
        op_at(r) == loop_rest(s@, p as int),
        r matches Some((_, q)) ==> p < q <= s@.len(),
    decreases s@.len() - p, 0int,
{
    match parenthesized_exec(s, p) {
        None => None,
        Some((count, q)) => {
            if p < q && q <= s.len() {
                match block_exec(s, q) {
                    None => None,
                    Some((body, r)) => Some((Op::Loop { count, block: body }, r)),
                }
            } else {
                None
            }
        },
    }
}

fn case_exec(s: &[u8], p: usize) -> (r: Option<(SwitchCase, usize)>)
    requires
        p <= s@.len(),
    ensures
        case_at(r) == case(s@, p as int),
        r matches Some((_, q)) ==> p < q <= s@.len(),
    decreases s@.len() - p, 1int,
{
    match parenthesized_exec(s, p) {
        None => None,
        Some((weight, q)) => {
            let q2 = space_exec(s, q);
            if !has_byte(s, q2, 58) {
                None
            } else {
                let q3 = space_exec(s, q2 + 1);
                if p < q3 && q3 <= s.len() {
                    match block_exec(s, q3) {
                        None => None,
                        Some((body, r)) => Some((SwitchCase { weight, block: body }, r)),
                    }
                } else {
                    None
                }
            }
        },
    }
}

fn cases_exec(s: &[u8], p: usize) -> (r: Option<(Vec<SwitchCase>, usize)>)
    requires
        p <= s@.len(),
    ensures
        cases_at(r) == cases(s@, p as int, true),
        r matches Some((_, q)) ==> p < q <= s@.len(),
    decreases s@.len() - p, 2int,
{
    let endswitch = [101u8, 110, 100, 115, 119, 105, 116, 99, 104];
    assert(endswitch@ =~= word_endswitch());
    let mut acc: Vec<SwitchCase> = Vec::new();
    let mut cur = p;
    let mut first = true;
    loop
        invariant
            p <= cur <= s@.len(),
            first ==> cur == p && acc@.len() == 0,
            !first ==> p < cur,
            endswitch@ == word_endswitch(),
            cases(s@, p as int, true) == after_prefix(cases_view(acc@), cases(s@, cur as int, first)),
        decreases s@.len() - cur,
    {
        let q = multispace_exec(s, cur);
        if !first && has_word(s, q, &endswitch) {
            assert(cases_view(acc@) + Seq::<SpecCase>::empty() =~= cases_view(acc@));
            return Some((acc, q + 9));
        }
        match case_exec(s, cur) {
            None => {
                return None;
            },
            Some((c, q2)) => {
                if cur < q2 && q2 <= s.len() {
                    proof {
                        lemma_cases_view_push(acc@, c);
                        let cv = SpecCase { weight: c.weight, body: ops_view(c.block.ops@) };
                        match cases(s@, q2 as int, false) {
                            Some((rest, _)) => {
                                assert(cases_view(acc@) + (seq![cv] + rest) =~= cases_view(
                                    acc@,
                                ).push(cv) + rest);
                            },
                            None => {},
                        }
                    }
                    acc.push(c);
                    cur = q2;
                    first = false;
                } else {
                    return None;
                }
            },
        }
    }
}

fn switch_rest_exec(s: &[u8], p: usize) -> (r: Option<(Op, usize)>)
    requires
        p <= s@.len(),
    ensures
        op_at(r) == switch_rest(s@, p as int),
        r matches Some((_, q)) ==> p < q <= s@.len(),
    decreases s@.len() - p, 3int,
{
    match end_exec(s, p) {
        None => None,
        Some(q) => {
            if p <= q && q <= s.len() {
                match cases_exec(s, q) {
                    None => None,
                    Some((cs, r)) => match end_exec(s, r) {
                        None => None,
                        Some(e) => Some((Op::Switch { cases: cs }, e)),
                    },
                }
            } else {
                None
            }
        },
    }
}

fn op_exec(s: &[u8], p: usize) -> (r: Option<(Op, usize)>)
    requires
        p <= s@.len(),
    ensures
        op_at(r) == op(s@, p as int),
        r matches Some((_, q)) ==> p < q <= s@.len(),
    decreases s@.len() - p, 4int,
{
    let q = multispace_exec(s, p);
    let kw_loop = [108u8, 111, 111, 112];
    let kw_switch = [115u8, 119, 105, 116, 99, 104, 58];
    assert(kw_loop@ =~= word_loop());
    assert(kw_switch@ =~= word_switch());
    match call_exec(s, q) {
        Some(r) => Some(r),
        None => {
            if has_word(s, q, &kw_loop) {
                loop_rest_exec(s, q + 4)
            } else if has_word(s, q, &kw_switch) {
                switch_rest_exec(s, q + 7)
            } else {
                range_exec(s, q)
            }
        },
    }
}

fn ops_exec(s: &[u8], p: usize) -> (r: Option<(Vec<Op>, usize)>)
    requires
        p <= s@.len(),
    ensures
        ops_at(r) == ops(s@, p as int),
        r matches Some((_, q)) ==> p < q <= s@.len(),
    decreases s@.len() - p, 5int,
{
    let mut acc: Vec<Op> = Vec::new();
    let mut cur = p;
    loop
        invariant
            p <= cur <= s@.len(),
            ops(s@, p as int) == after_prefix(ops_view(acc@), ops(s@, cur as int)),
        decreases s@.len() - cur,
    {
        let q = multispace_exec(s, cur);
        if has_byte(s, q, 125) {
            assert(ops_view(acc@) + Seq::<SpecOp>::empty() =~= ops_view(acc@));
            return Some((acc, q + 1));
        }
        match op_exec(s, cur) {
            None => {
                return None;
            },
            Some((o, q2)) => {
                if cur < q2 && q2 <= s.len() {
                    proof {
                        lemma_ops_view_push(acc@, o);
                        match ops(s@, q2 as int) {
                            Some((rest, _)) => {
                                assert(ops_view(acc@) + (seq![op_view(o)] + rest) =~= ops_view(
                                    acc@,
                                ).push(op_view(o)) + rest);
                            },
                            None => {},
                        }
                    }
                    acc.push(o);
                    cur = q2;
                } else {
                    return None;
                }
            },
        }
    }
}

fn block_exec(s: &[u8], p: usize) -> (r: Option<(Block, usize)>)
    requires
        p <= s@.len(),
    ensures
        block_at(r) == block(s@, p as int),
        r matches Some((_, q)) ==> p < q <= s@.len(),
    decreases s@.len() - p, 6int,
{
    let q = multispace_exec(s, p);
    if !(q < s.len()) || s[q] != 123 {
        return None;
    }
    match ops_exec(s, q + 1) {
        None => None,
        Some((body, r)) => match end_exec(s, r) {
            None => None,
            Some(e) => Some((Block { ops: body }, e)),
        },
    }
}

} // verus!

verus! {

// ---------------------------------------------------------------------------
// Trace files
// ---------------------------------------------------------------------------

fn compare_mark_exec(s: &[u8], p: usize) -> (r: (bool, usize))
    requires
        p <= s@.len(),
    ensures
        (r.0, r.1 as int) == compare_mark(s@, p as int),
        p <= r.1 <= s@.len(),
{
    let word = [99u8, 111, 109, 112, 97, 114, 101];
    assert(word@ =~= word_compare());
    if has_word(s, p, &word) {
        let q = scan_run(s, p + 7, ByteClass::Space);
        if q > p + 7 {
            return (true, q);
        }
    }
    (false, p)
}

fn named_block_exec(s: &[u8], p: usize) -> (r: Option<(NamedBlock, usize)>)
    requires
        p <= s@.len(),
    ensures
        match r {
            Some((b, q)) => named_block(s@, p as int) == Some((named_block_view(b), q as int))
                && p < q <= s@.len(),
            None => named_block(s@, p as int) is None,
        },
{
    let (compare, q) = compare_mark_exec(s, p);
    if !has_byte(s, q, 39) {
        return None;
    }
    let (n, q2) = match name_exec(s, q + 1) {
        Some(x) => x,
        None => return None,
    };
    if !has_byte(s, q2, 39) {
        return None;
    }
    match block_exec(s, q2 + 1) {
        None => None,
        Some((body, r)) => Some((NamedBlock { compare, name: n, ops: body.ops }, r)),
    }
}

/// Parses a whole trace file into its named blocks, in the order they
/// appear; `None` where the input is not a trace file.
pub fn parse_named_blocks(s: &[u8]) -> (r: Result<Vec<NamedBlock>, usize>)
    ensures
        match r {
            Ok(v) => parse_blocks(s@) == Some(blocks_view(v@)),
            Err(p) => parse_blocks(s@) is None && p == parse_stop(s@),
        },
{
    reveal(parse_blocks);
    let mut acc: Vec<NamedBlock> = Vec::new();
    let mut cur: usize = 0;
    loop
        invariant
            cur <= s@.len(),
            ({
                let (rest, e) = named_blocks(s@, cur as int);
                named_blocks(s@, 0) == (blocks_view(acc@) + rest, e)
            }),
        ensures
            named_blocks(s@, 0) == (blocks_view(acc@), cur as int),
        decreases s@.len() - cur,
    {
        let start = multispace_exec(s, cur);
        match named_block_exec(s, start) {
            Some((b, q)) => {
                if cur < q && q <= s.len() {
                    proof {
                        let (rest, e) = named_blocks(s@, q as int);
                        assert(blocks_view(acc@.push(b)) =~= blocks_view(acc@).push(
                            named_block_view(b),
                        ));
                        assert(blocks_view(acc@) + (seq![named_block_view(b)] + rest)
                            =~= blocks_view(acc@).push(named_block_view(b)) + rest);
                    }
                    acc.push(b);
                    cur = q;
                } else {
                    assert(blocks_view(acc@) + Seq::<SpecBlock>::empty() =~= blocks_view(acc@));
                    break ;
                }
            },
            None => {
                assert(blocks_view(acc@) + Seq::<SpecBlock>::empty() =~= blocks_view(acc@));
                break ;
            },
        }
    }
    if cur == s.len() {
        Ok(acc)
    } else {
        Err(cur)
    }
}

} // verus!

verus! {

/// A block name as the grammar allows it: letters, digits, `_` and `-`,
/// at least one of them.
pub open spec fn is_block_name(n: Seq<u8>) -> bool {
    n.len() > 0 && forall|k: int| 0 <= k < n.len() ==> in_class(ByteClass::Name, #[trigger] n[k])
}

proof fn lemma_named_block_name(s: Seq<u8>, p: int)
    requires
        named_block(s, p) is Some,
    ensures
        is_block_name(named_block(s, p).unwrap().0.name),
{
    let q = compare_mark(s, p).1;
    assert(byte_at(s, q, 39));
    lemma_scan(s, q + 1, ByteClass::Name);
    let q2 = scan(s, q + 1, ByteClass::Name);
    let n = s.subrange(q + 1, q2);
    assert(name(s, q + 1) == Some((n, q2)));
    assert(named_block(s, p).unwrap().0.name == n);
    assert forall|k: int| 0 <= k < n.len() implies in_class(ByteClass::Name, #[trigger] n[k]) by {
        lemma_scan_run_in_class(s, q + 1, ByteClass::Name, q + 1 + k);
    }
}

proof fn lemma_named_blocks_names(s: Seq<u8>, p: int)
    ensures
        forall|i: int|
            0 <= i < named_blocks(s, p).0.len() ==> is_block_name(
                #[trigger] named_blocks(s, p).0[i].name,
            ),
    decreases s.len() - p,
{
    let m = multispace(s, p);
    match named_block(s, m) {
        Some((b, q)) => {
            if p < q <= s.len() {
                lemma_named_block_name(s, m);
                lemma_named_blocks_names(s, q);
                let rest = named_blocks(s, q).0;
                assert forall|i: int| 0 <= i < named_blocks(s, p).0.len() implies is_block_name(
                    #[trigger] named_blocks(s, p).0[i].name,
                ) by {
                    if i > 0 {
                        assert(named_blocks(s, p).0[i] == rest[i - 1]);
                    }
                }
            }
        },
        None => {},
    }
}

/// Every block that a trace file names has a name that the grammar allows.
pub proof fn law_parsed_names_are_block_names(s: Seq<u8>)
    requires
        parse_blocks(s) is Some,
    ensures
        forall|i: int|
            0 <= i < parse_blocks(s)->0.len() ==> is_block_name(
                #[trigger] parse_blocks(s)->0[i].name,
            ),
{
    reveal(parse_blocks);
    lemma_named_blocks_names(s, 0);
}

// ---------------------------------------------------------------------------
// Parsed blocks are well formed
// ---------------------------------------------------------------------------

/// Every range in `o`, loop bodies and switch cases included, passes the
/// range checks, every switch has a case, and every call names a block as
/// the grammar allows it.
pub open spec fn op_well_formed(o: SpecOp) -> bool
    decreases o,
{
    match o {
        SpecOp::Range { start, length, end } => range_ok(start, length, end),
        SpecOp::Call { name } => is_block_name(name),
        SpecOp::Loop { count, body } => forall|i: int|
            0 <= i < body.len() ==> op_well_formed(#[trigger] body[i]),
        SpecOp::Switch { cases } => cases.len() > 0 && forall|i: int, j: int|
            0 <= i < cases.len() && 0 <= j < cases[i].body.len() ==> op_well_formed(
                #[trigger] cases[i].body[j],
            ),
    }
}

/// Every operation of `ops` is well formed.
pub open spec fn ops_well_formed(ops: Seq<SpecOp>) -> bool {
    forall|i: int| 0 <= i < ops.len() ==> op_well_formed(#[trigger] ops[i])
}

/// Every operation of every block is well formed.
pub open spec fn blocks_well_formed(blocks: Seq<SpecBlock>) -> bool {
    forall|k: int| 0 <= k < blocks.len() ==> ops_well_formed(#[trigger] blocks[k].ops)
}

proof fn lemma_loop_rest_well_formed(s: Seq<u8>, p: int)
    requires
        loop_rest(s, p) is Some,
    ensures
        op_well_formed(loop_rest(s, p).unwrap().0),
    decreases s.len() - p, 0int,
{
    match parenthesized(s, p) {
        None => {},
        Some((count, q)) => if p < q <= s.len() {
            lemma_block_well_formed(s, q);
        },
    }
}

proof fn lemma_case_well_formed(s: Seq<u8>, p: int)
    requires
        case(s, p) is Some,
    ensures
        ops_well_formed(case(s, p).unwrap().0.body),
    decreases s.len() - p, 1int,
{
    match parenthesized(s, p) {
        None => {},
        Some((weight, q)) => {
            let q2 = space(s, q);
            if byte_at(s, q2, 58) {
                let q3 = space(s, q2 + 1);
                if p < q3 <= s.len() {
                    lemma_block_well_formed(s, q3);
                }
            }
        },
    }
}

proof fn lemma_cases_well_formed(s: Seq<u8>, p: int, first: bool)
    requires
        cases(s, p, first) is Some,
    ensures
        ({
            let cs = cases(s, p, first).unwrap().0;
            &&& first ==> cs.len() > 0
            &&& forall|i: int| 0 <= i < cs.len() ==> ops_well_formed(#[trigger] cs[i].body)
        }),
    decreases s.len() - p, 2int,
{
    let q = multispace(s, p);
    if !first && lit(s, q, word_endswitch()) {
    } else {
        match case(s, p) {
            None => {},
            Some((c, q2)) => if p < q2 <= s.len() {
                lemma_case_well_formed(s, p);
                lemma_cases_well_formed(s, q2, false);
                let cs = cases(s, p, first).unwrap().0;
                let rest = cases(s, q2, false).unwrap().0;
                assert forall|i: int| 0 <= i < cs.len() implies ops_well_formed(#[trigger] cs[i].body) by {
                    if i > 0 {
                        assert(cs[i] == rest[i - 1]);
                    }
                }
            },
        }
    }
}

proof fn lemma_switch_rest_well_formed(s: Seq<u8>, p: int)
    requires
        switch_rest(s, p) is Some,
    ensures
        op_well_formed(switch_rest(s, p).unwrap().0),
    decreases s.len() - p, 3int,
{
    match end(s, p) {
        None => {},
        Some(q) => if p <= q <= s.len() {
            lemma_cases_well_formed(s, q, true);
            let cs = cases(s, q, true).unwrap().0;
            assert forall|i: int, j: int|
                0 <= i < cs.len() && 0 <= j < cs[i].body.len() implies op_well_formed(
                #[trigger] cs[i].body[j],
            ) by {
                assert(ops_well_formed(cs[i].body));
            }
        },
    }
}

proof fn lemma_op_well_formed(s: Seq<u8>, p: int)
    requires
        op(s, p) is Some,
    ensures
        op_well_formed(op(s, p).unwrap().0),
    decreases s.len() - p, 4int,
{
    let q = multispace(s, p);
    if p <= q <= s.len() {
        match call(s, q) {
            Some(r) => {
                lemma_call_name(s, q);
            },
            None => if lit(s, q, word_loop()) {
                lemma_loop_rest_well_formed(s, q + 4);
            } else if lit(s, q, word_switch()) {
                lemma_switch_rest_well_formed(s, q + 7);
            } else {
            },
        }
    }
}

proof fn lemma_call_name(s: Seq<u8>, p: int)
    requires
        call(s, p) is Some,
    ensures
        call(s, p).unwrap().0 matches SpecOp::Call { name } && is_block_name(name),
{
    lemma_scan(s, p, ByteClass::Name);
    let q = scan(s, p, ByteClass::Name);
    let n = s.subrange(p, q);
    assert(name(s, p) == Some((n, q)));
    assert forall|k: int| 0 <= k < n.len() implies in_class(ByteClass::Name, #[trigger] n[k]) by {
        lemma_scan_run_in_class(s, p, ByteClass::Name, p + k);
    }
}

proof fn lemma_ops_well_formed(s: Seq<u8>, p: int)
    requires
        ops(s, p) is Some,
    ensures
        ops_well_formed(ops(s, p).unwrap().0),
    decreases s.len() - p, 5int,
{
    let q = multispace(s, p);
    if !byte_at(s, q, 125) {
        match op(s, p) {
            None => {},
            Some((o, q2)) => if p < q2 <= s.len() {
                lemma_op_well_formed(s, p);
                lemma_ops_well_formed(s, q2);
                let v = ops(s, p).unwrap().0;
                let rest = ops(s, q2).unwrap().0;
                assert forall|i: int| 0 <= i < v.len() implies op_well_formed(#[trigger] v[i]) by {
                    if i > 0 {
                        assert(v[i] == rest[i - 1]);
                    }
                }
            },
        }
    }
}

proof fn lemma_block_well_formed(s: Seq<u8>, p: int)
    requires
        block(s, p) is Some,
    ensures
        ops_well_formed(block(s, p).unwrap().0),
    decreases s.len() - p, 6int,
{
    let q = multispace(s, p);
    if p <= q < s.len() && s[q] == 123 {
        lemma_ops_well_formed(s, q + 1);
    }
}

proof fn lemma_named_blocks_well_formed(s: Seq<u8>, p: int)
    ensures
        blocks_well_formed(named_blocks(s, p).0),
    decreases s.len() - p,
{
    let m = multispace(s, p);
    match named_block(s, m) {
        Some((b, q)) => {
            if p < q <= s.len() {
                let cm = compare_mark(s, m).1;
                let q2 = name(s, cm + 1).unwrap().1;
                lemma_block_well_formed(s, q2 + 1);
                lemma_named_blocks_well_formed(s, q);
                let all = named_blocks(s, p).0;
                let rest = named_blocks(s, q).0;
                assert forall|k: int| 0 <= k < all.len() implies ops_well_formed(#[trigger] all[k].ops) by {
                    if k > 0 {
                        assert(all[k] == rest[k - 1]);
                    }
                }
            }
        },
        None => {},
    }
}

/// The blocks of a trace file are well formed: the grammar reads no range
/// that fails its checks and no switch without a case.
pub proof fn lemma_parsed_blocks_well_formed(s: Seq<u8>)
    requires
        parse_blocks(s) is Some,
    ensures
        blocks_well_formed(parse_blocks(s)->0),
{
    reveal(parse_blocks);
    lemma_named_blocks_well_formed(s, 0);
}

/// The bytes a block name is made of are exactly the ASCII letters, upper
/// and lower case, the digits, `_` and `-`.
pub proof fn law_name_bytes(b: u8)
    ensures
        in_class(ByteClass::Name, b) <==> ((65 <= b <= 90) || (97 <= b <= 122) || (48 <= b <= 57) || b
            == 95 || b == 45),
{
}

proof fn lemma_scan_stops(s: Seq<u8>, p: int, c: ByteClass)
    requires
        0 <= p <= s.len(),
    ensures
        scan(s, p, c) == s.len() || !in_class(c, s[scan(s, p, c)]),
    decreases s.len() - p,
{
    if p < s.len() && in_class(c, s[p]) {
        lemma_scan_stops(s, p + 1, c);
    }
}

/// A block name is read as the longest run, from `p`, of ASCII letters,
/// digits, `_` and `-`; there is none where that run is empty.
pub proof fn law_name_reads_the_longest_run(s: Seq<u8>, p: int)
    requires
        0 <= p <= s.len(),
    ensures
        match name(s, p) {
            Some((n, q)) => {
                &&& p < q <= s.len()
                &&& n == s.subrange(p, q)
                &&& forall|k: int|
                    p <= k < q ==> (65 <= #[trigger] s[k] <= 90) || (97 <= s[k] <= 122) || (48 <= s[k]
                        <= 57) || s[k] == 95 || s[k] == 45
                &&& q == s.len() || !((65 <= s[q] <= 90) || (97 <= s[q] <= 122) || (48 <= s[q] <= 57)
                    || s[q] == 95 || s[q] == 45)
            },
            None => p == s.len() || !((65 <= s[p] <= 90) || (97 <= s[p] <= 122) || (48 <= s[p] <= 57)
                || s[p] == 95 || s[p] == 45),
        },
{
    lemma_scan(s, p, ByteClass::Name);
    lemma_scan_stops(s, p, ByteClass::Name);
    let q = scan(s, p, ByteClass::Name);
    assert forall|k: int| p <= k < q implies (65 <= #[trigger] s[k] <= 90) || (97 <= s[k] <= 122) || (48
        <= s[k] <= 57) || s[k] == 95 || s[k] == 45 by {
        lemma_scan_run_in_class(s, p, ByteClass::Name, k);
    }
}

} // verus!
