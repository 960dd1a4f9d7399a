//! The first trace format: functions and one main block of addresses.
//!
//! ```text
//! fn name {
//!     0x10            // an address
//! }
//! {
//!     0x00..0x20      // a range of addresses
//!     name()          // a function call
//!     loop(10) { ... }
//!     switch:
//!         (0.5): { ... }
//!         (0.5): { ... }
//!     endswitch
//! }
//! ```
//!
//! Every alternative of this grammar may give way to the next, so the first
//! one that parses wins. A switch's probabilities are kept as the text of
//! the numbers; checking that they add up to at most one is floating-point
//! arithmetic and is left to the caller.
use crate::syntax::{
    byte_at, copy_bytes, decimal, decimal_exec, digits, digits_exec, has_byte, has_word, is_digit,
    is_letter, lemma_scan, lit, scan, scan_run, word_bin, word_crlf, word_hex, word_oct, ByteClass,
};
use vstd::prelude::*;
use vstd::string::StringSliceAdditionalSpecFns;

verus! {

// ---------------------------------------------------------------------------
// The parsed form
// ---------------------------------------------------------------------------

/// One statement of a block.
pub enum SpecStatement {
    Address { addr: usize },
    Range { start: usize, end: usize },
    Call { name: Seq<u8> },
    Loop { count: usize, body: Seq<SpecStatement> },
    Switch { cases: Seq<SpecSwitchCase> },
}

/// One case of a switch: the text of its probability, and its block.
pub struct SpecSwitchCase {
    pub probability: Seq<u8>,
    pub body: Seq<SpecStatement>,
}

/// One statement of a block.
#[derive(Debug)]
pub enum Statement {
    Address { addr: usize },
    Range { addr_start: usize, addr_end: usize },
    FunctionCall { function_name: Vec<u8> },
    Loop { count: usize, block: Vec<Statement> },
    Switch { cases: Vec<SwitchCase> },
}

/// One case of a switch.
#[derive(Debug)]
pub struct SwitchCase {
    /// The probability as written, a floating-point number.
    pub probability: Vec<u8>,
    pub block: Vec<Statement>,
}

pub open spec fn statement_view(st: Statement) -> SpecStatement
    decreases st,
{
    match st {
        Statement::Address { addr } => SpecStatement::Address { addr },
        Statement::Range { addr_start, addr_end } => SpecStatement::Range {
            start: addr_start,
            end: addr_end,
        },
        Statement::FunctionCall { function_name } => SpecStatement::Call { name: function_name@ },
        Statement::Loop { count, block } => SpecStatement::Loop {
            count,
            body: statements_view(block@),
        },
        Statement::Switch { cases } => SpecStatement::Switch { cases: switch_cases_view(cases@) },
    }
}

pub open spec fn statements_view(s: Seq<Statement>) -> Seq<SpecStatement>
    decreases s,
{
    if s.len() == 0 {
        Seq::empty()
    } else {
        statements_view(s.subrange(0, s.len() - 1)).push(statement_view(s[s.len() - 1]))
    }
}

pub open spec fn switch_cases_view(s: Seq<SwitchCase>) -> Seq<SpecSwitchCase>
    decreases s,
{
    if s.len() == 0 {
        Seq::empty()
    } else {
        switch_cases_view(s.subrange(0, s.len() - 1)).push(
            SpecSwitchCase {
                probability: s[s.len() - 1].probability@,
                body: statements_view(s[s.len() - 1].block@),
            },
        )
    }
}

proof fn lemma_statements_view_push(s: Seq<Statement>, st: Statement)
    ensures
        statements_view(s.push(st)) == statements_view(s).push(statement_view(st)),
{
    assert(s.push(st).subrange(0, s.len() as int) =~= s);
}

proof fn lemma_switch_cases_view_push(s: Seq<SwitchCase>, c: SwitchCase)
    ensures
        switch_cases_view(s.push(c)) == switch_cases_view(s).push(
            SpecSwitchCase { probability: c.probability@, body: statements_view(c.block@) },
        ),
{
    assert(s.push(c).subrange(0, s.len() as int) =~= s);
}

// ---------------------------------------------------------------------------
// The grammar
// ---------------------------------------------------------------------------

/// The end of a line: spaces and tabs, a line ending or the end of the
/// input, then any blank space.
pub open spec fn line_end(s: Seq<u8>, p: int) -> Option<int> {
    let q = scan(s, p, ByteClass::Space);
    if byte_at(s, q, 10) {
        Some(scan(s, q + 1, ByteClass::MultiSpace))
    } else if lit(s, q, word_crlf()) {
        Some(scan(s, q + 2, ByteClass::MultiSpace))
    } else if q == s.len() {
        Some(scan(s, q, ByteClass::MultiSpace))
    } else {
        None
    }
}

/// A function name: a letter, then letters and digits.
pub open spec fn function_name(s: Seq<u8>, p: int) -> Option<(Seq<u8>, int)> {
    if 0 <= p < s.len() && is_letter(s[p]) {
        let q = scan(s, p, ByteClass::Alnum);
        Some((s.subrange(p, q), q))
    } else {
        None
    }
}

/// A number with a `0b`, `0o` or `0x` prefix, or else a decimal one.
pub open spec fn number(s: Seq<u8>, p: int) -> Option<(usize, int)> {
    let prefixed = if lit(s, p, word_bin()) {
        digits(s, p + 2, ByteClass::Bin, 2)
    } else if lit(s, p, word_oct()) {
        digits(s, p + 2, ByteClass::Oct, 8)
    } else if lit(s, p, word_hex()) {
        digits(s, p + 2, ByteClass::Hex, 16)
    } else {
        None
    };
    match prefixed {
        Some(r) => Some(r),
        None => decimal(s, p),
    }
}

/// `b` as a lower-case ASCII letter, if it is an upper-case one.
pub open spec fn to_lower(b: u8) -> u8 {
    if 65 <= b <= 90 {
        (b + 32) as u8
    } else {
        b
    }
}

/// `s` holds `word` at `p`, ignoring the case of letters.
pub open spec fn lit_caseless(s: Seq<u8>, p: int, word: Seq<u8>) -> bool {
    &&& 0 <= p
    &&& p + word.len() <= s.len()
    &&& forall|k: int| 0 <= k < word.len() ==> to_lower(#[trigger] s[p + k]) == word[k]
}

pub open spec fn word_nan() -> Seq<u8> {
    seq![110u8, 97, 110]
}

pub open spec fn word_inf() -> Seq<u8> {
    seq![105u8, 110, 102]
}

pub open spec fn word_inity() -> Seq<u8> {
    seq![105u8, 110, 105, 116, 121]
}

/// An exponent, if one starts here: `e` or `E`, a sign if any, digits.
pub open spec fn exponent(s: Seq<u8>, p: int) -> Option<int> {
    if byte_at(s, p, 101) || byte_at(s, p, 69) {
        let q = if byte_at(s, p + 1, 43) || byte_at(s, p + 1, 45) {
            p + 2
        } else {
            p + 1
        };
        let r = scan(s, q, ByteClass::Digit);
        if r > q {
            Some(r)
        } else {
            None
        }
    } else {
        Some(p)
    }
}

/// A number without sign: `inf`, `infinity`, `.digits`, or digits with an
/// optional fraction, then an optional exponent.
pub open spec fn unsigned_float(s: Seq<u8>, p: int) -> Option<int> {
    if byte_at(s, p, 73) || byte_at(s, p, 105) {
        if lit_caseless(s, p, word_inf()) {
            if lit_caseless(s, p + 3, word_inity()) {
                Some(p + 8)
            } else {
                Some(p + 3)
            }
        } else {
            None
        }
    } else if byte_at(s, p, 46) {
        let q = scan(s, p + 1, ByteClass::Digit);
        if q > p + 1 {
            exponent(s, q)
        } else {
            None
        }
    } else {
        let q = scan(s, p, ByteClass::Digit);
        if q == p {
            None
        } else {
            let r = if byte_at(s, q, 46) {
                scan(s, q + 1, ByteClass::Digit)
            } else {
                q
            };
            exponent(s, r)
        }
    }
}

/// A floating-point number, as its text: `nan`, or a sign if any and an
/// unsigned number.
pub open spec fn float_text(s: Seq<u8>, p: int) -> Option<(Seq<u8>, int)> {
    let end = if byte_at(s, p, 78) || byte_at(s, p, 110) {
        if lit_caseless(s, p, word_nan()) {
            Some(p + 3)
        } else {
            None
        }
    } else if byte_at(s, p, 43) || byte_at(s, p, 45) {
        unsigned_float(s, p + 1)
    } else {
        unsigned_float(s, p)
    };
    match end {
        Some(q) => if p <= q <= s.len() {
            Some((s.subrange(p, q), q))
        } else {
            None
        },
        None => None,
    }
}

/// A number and the end of its line.
pub open spec fn address(s: Seq<u8>, p: int) -> Option<(SpecStatement, int)> {
    match number(s, p) {
        Some((a, q)) => match line_end(s, q) {
            Some(r) => Some((SpecStatement::Address { addr: a }, r)),
            None => None,
        },
        None => None,
    }
}

/// `start..end` and the end of its line.
pub open spec fn range(s: Seq<u8>, p: int) -> Option<(SpecStatement, int)> {
    match number(s, p) {
        Some((a, q)) => if lit(s, q, seq![46u8, 46]) {
            match number(s, q + 2) {
                Some((e, q2)) => match line_end(s, q2) {
                    Some(r) => Some((SpecStatement::Range { start: a, end: e }, r)),
                    None => None,
                },
                None => None,
            }
        } else {
            None
        },
        None => None,
    }
}

/// `name()` and the end of its line.
pub open spec fn function_call(s: Seq<u8>, p: int) -> Option<(SpecStatement, int)> {
    match function_name(s, p) {
        Some((n, q)) => if lit(s, q, seq![40u8, 41]) {
            match line_end(s, q + 2) {
                Some(r) => Some((SpecStatement::Call { name: n }, r)),
                None => None,
            }
        } else {
            None
        },
        None => None,
    }
}

/// `(count)` and a block, after the word `loop`.
pub open spec fn loop_body(s: Seq<u8>, p: int) -> Option<(SpecStatement, int)>
    decreases s.len() - p, 0int,
{
    let q = scan(s, p, ByteClass::Space);
    if !byte_at(s, q, 40) {
        None
    } else {
        match number(s, scan(s, q + 1, ByteClass::Space)) {
            None => None,
            Some((count, q2)) => {
                let q3 = scan(s, q2, ByteClass::Space);
                if !byte_at(s, q3, 41) || !(p < q3 + 1 <= s.len()) {
                    None
                } else {
                    match block(s, q3 + 1) {
                        None => None,
                        Some((body, r)) => Some((SpecStatement::Loop { count, body }, r)),
                    }
                }
            },
        }
    }
}

/// `(probability): block`.
pub open spec fn switch_case(s: Seq<u8>, p: int) -> Option<(SpecSwitchCase, int)>
    decreases s.len() - p, 1int,
{
    let q = scan(s, p, ByteClass::Space);
    if !byte_at(s, q, 40) {
        None
    } else {
        match float_text(s, scan(s, q + 1, ByteClass::Space)) {
            None => None,
            Some((probability, q2)) => {
                let q3 = scan(s, q2, ByteClass::Space);
                if !byte_at(s, q3, 41) {
                    None
                } else {
                    let q4 = scan(s, scan(s, q3 + 1, ByteClass::Space), ByteClass::Space);
                    if !byte_at(s, q4, 58) {
                        None
                    } else {
                        let q5 = scan(s, q4 + 1, ByteClass::Space);
                        if !(p < q5 <= s.len()) {
                            None
                        } else {
                            match block(s, q5) {
                                None => None,
                                Some((body, r)) => Some((SpecSwitchCase { probability, body }, r)),
                            }
                        }
                    }
                }
            },
        }
    }
}

/// Cases up to the word `endswitch`; the first one before any check for it.
pub open spec fn switch_cases(s: Seq<u8>, p: int, first: bool) -> Option<
    (Seq<SpecSwitchCase>, int),
>
    decreases s.len() - p, 2int,
{
    let q = scan(s, p, ByteClass::MultiSpace);
    if !first && lit(s, q, seq![101u8, 110, 100, 115, 119, 105, 116, 99, 104]) {
        Some((Seq::empty(), q + 9))
    } else {
        match switch_case(s, p) {
            None => None,
            Some((c, q2)) => if p < q2 <= s.len() {
                match switch_cases(s, q2, false) {
                    None => None,
                    Some((rest, r)) => Some((seq![c] + rest, r)),
                }
            } else {
                None
            },
        }
    }
}

/// The end of the line after `switch:`, the cases, and the end of the line
/// after `endswitch`.
pub open spec fn switch_body(s: Seq<u8>, p: int) -> Option<(SpecStatement, int)>
    decreases s.len() - p, 3int,
{
    match line_end(s, p) {
        None => None,
        Some(q) => if p <= q <= s.len() {
            match switch_cases(s, q, true) {
                None => None,
                Some((cases, r)) => match line_end(s, r) {
                    None => None,
                    Some(e) => Some((SpecStatement::Switch { cases }, e)),
                },
            }
        } else {
            None
        },
    }
}

/// One statement after blank space: the first of a range, an address, a
/// call, a loop and a switch that parses.
pub open spec fn statement(s: Seq<u8>, p: int) -> Option<(SpecStatement, int)>
    decreases s.len() - p, 4int,
{
    let q = scan(s, p, ByteClass::MultiSpace);
    if !(p <= q <= s.len()) {
        None
    } else {
        match range(s, q) {
            Some(r) => Some(r),
            None => match address(s, q) {
                Some(r) => Some(r),
                None => match function_call(s, q) {
                    Some(r) => Some(r),
                    None => {
                        let as_loop = if lit(s, q, seq![108u8, 111, 111, 112]) {
                            loop_body(s, q + 4)
                        } else {
                            None
                        };
                        match as_loop {
                            Some(r) => Some(r),
                            None => if lit(s, q, seq![115u8, 119, 105, 116, 99, 104, 58]) {
                                switch_body(s, q + 7)
                            } else {
                                None
                            },
                        }
                    },
                },
            },
        }
    }
}

/// Statements up to a closing brace.
pub open spec fn statements(s: Seq<u8>, p: int) -> Option<(Seq<SpecStatement>, int)>
    decreases s.len() - p, 5int,
{
    let q = scan(s, p, ByteClass::MultiSpace);
    if byte_at(s, q, 125) {
        Some((Seq::empty(), q + 1))
    } else {
        match statement(s, p) {
            None => None,
            Some((st, q2)) => if p < q2 <= s.len() {
                match statements(s, q2) {
                    None => None,
                    Some((rest, r)) => Some((seq![st] + rest, r)),
                }
            } else {
                None
            },
        }
    }
}

/// `{`, statements, `}` and the end of its line.
pub open spec fn block(s: Seq<u8>, p: int) -> Option<(Seq<SpecStatement>, int)>
    decreases s.len() - p, 6int,
{
    let q = scan(s, p, ByteClass::MultiSpace);
    if !(p <= q < s.len()) || s[q] != 123 {
        None
    } else {
        match statements(s, q + 1) {
            None => None,
            Some((body, r)) => match line_end(s, r) {
                None => None,
                Some(e) => Some((body, e)),
            },
        }
    }
}

/// `fn`, a name, a block and the end of a line.
pub open spec fn function(s: Seq<u8>, p: int) -> Option<((Seq<u8>, Seq<SpecStatement>), int)> {
    let q = scan(s, p, ByteClass::MultiSpace);
    if !lit(s, q, seq![102u8, 110]) {
        None
    } else {
        match function_name(s, scan(s, q + 2, ByteClass::Space)) {
            None => None,
            Some((n, q2)) => match block(s, q2) {
                None => None,
                Some((body, q3)) => match line_end(s, q3) {
                    None => None,
                    Some(e) => Some(((n, body), e)),
                },
            },
        }
    }
}

/// Functions, for as long as they come.
pub open spec fn functions(s: Seq<u8>, p: int) -> (Seq<(Seq<u8>, Seq<SpecStatement>)>, int)
    decreases s.len() - p,
{
    match function(s, p) {
        Some((f, q)) => if p < q <= s.len() {
            let (rest, r) = functions(s, q);
            (seq![f] + rest, r)
        } else {
            (Seq::empty(), p)
        },
        None => (Seq::empty(), p),
    }
}

/// The functions and the main block of an access trace, if the whole input
/// is one (before its switches' probabilities are checked).
pub open spec fn parse_access_trace(s: Seq<u8>) -> Option<
    (Seq<(Seq<u8>, Seq<SpecStatement>)>, Seq<SpecStatement>),
> {
    let (fs, q) = functions(s, 0);
    match block(s, q) {
        Some((main, e)) => if e == s.len() {
            Some((fs, main))
        } else {
            None
        },
        None => None,
    }
}

} // verus!

verus! {

// ---------------------------------------------------------------------------
// The parser
// ---------------------------------------------------------------------------

pub open spec fn stmt_at(r: Option<(Statement, usize)>) -> Option<(SpecStatement, int)> {
    match r {
        Some((st, q)) => Some((statement_view(st), q as int)),
        None => None,
    }
}

pub open spec fn stmts_at(r: Option<(Vec<Statement>, usize)>) -> Option<(Seq<SpecStatement>, int)> {
    match r {
        Some((v, q)) => Some((statements_view(v@), q as int)),
        None => None,
    }
}

pub open spec fn bytes_at(r: Option<(Vec<u8>, usize)>) -> Option<(Seq<u8>, int)> {
    match r {
        Some((v, q)) => Some((v@, q as int)),
        None => None,
    }
}

pub open spec fn int_at(r: Option<usize>) -> Option<int> {
    match r {
        Some(q) => Some(q as int),
        None => None,
    }
}

pub open spec fn num_at(r: Option<(usize, usize)>) -> Option<(usize, int)> {
    match r {
        Some((v, q)) => Some((v, q as int)),
        None => None,
    }
}

fn line_end_exec(s: &[u8], p: usize) -> (r: Option<usize>)
    requires
        p <= s@.len(),
    ensures
        int_at(r) == line_end(s@, p as int),
        r matches Some(q) ==> p <= q <= s@.len(),
{
    let q = scan_run(s, p, ByteClass::Space);
    let crlf = [13u8, 10];
    assert(crlf@ =~= word_crlf());
    if has_byte(s, q, 10) {
        Some(scan_run(s, q + 1, ByteClass::MultiSpace))
    } else if has_word(s, q, &crlf) {
        Some(scan_run(s, q + 2, ByteClass::MultiSpace))
    } else if q == s.len() {
        Some(scan_run(s, q, ByteClass::MultiSpace))
    } else {
        None
    }
}

fn function_name_exec(s: &[u8], p: usize) -> (r: Option<(Vec<u8>, usize)>)
    requires
        p <= s@.len(),
    ensures
        bytes_at(r) == function_name(s@, p as int),
        r matches Some((_, q)) ==> p < q <= s@.len(),
{
    if p < s.len() && ((65 <= s[p] && s[p] <= 90) || (97 <= s[p] && s[p] <= 122)) {
        proof {
            lemma_scan(s@, p + 1, ByteClass::Alnum);
            assert(scan(s@, p as int, ByteClass::Alnum) == scan(s@, p + 1, ByteClass::Alnum));
        }
        let q = scan_run(s, p, ByteClass::Alnum);
        Some((copy_bytes(s, p, q), q))
    } else {
        None
    }
}

fn number_exec(s: &[u8], p: usize) -> (r: Option<(usize, usize)>)
    requires
        p <= s@.len(),
    ensures
        num_at(r) == number(s@, p as int),
        r matches Some((_, q)) ==> p < q <= s@.len(),
{
    let hex = [48u8, 120];
    let bin = [48u8, 98];
    let oct = [48u8, 111];
    assert(hex@ =~= word_hex());
    assert(bin@ =~= word_bin());
    assert(oct@ =~= word_oct());
    let prefixed = if has_word(s, p, &bin) {
        digits_exec(s, p + 2, ByteClass::Bin, 2)
    } else if has_word(s, p, &oct) {
        digits_exec(s, p + 2, ByteClass::Oct, 8)
    } else if has_word(s, p, &hex) {
        digits_exec(s, p + 2, ByteClass::Hex, 16)
    } else {
        None
    };
    match prefixed {
        Some(r) => Some(r),
        None => decimal_exec(s, p),
    }
}

fn has_word_caseless(s: &[u8], p: usize, word: &[u8]) -> (r: bool)
    ensures
        r == lit_caseless(s@, p as int, word@),
        r ==> p + word@.len() <= s.len(),
{
    if p > s.len() || word.len() > s.len() - p {
        return false;
    }
    let mut i: usize = 0;
    while i < word.len()
        invariant
            p + word@.len() <= s.len(),
            i <= word@.len(),
            forall|k: int| 0 <= k < i ==> to_lower(#[trigger] s@[p + k]) == word@[k],
        decreases word.len() - i,
    {
        let b = s[p + i];
        let lower = if 65 <= b && b <= 90 {
            b + 32
        } else {
            b
        };
        if lower != word[i] {
            assert(to_lower(s@[p + i]) != word@[i as int]);
            return false;
        }
        i += 1;
    }
    true
}

fn exponent_exec(s: &[u8], p: usize) -> (r: Option<usize>)
    requires
        p <= s@.len(),
    ensures
        int_at(r) == exponent(s@, p as int),
        r matches Some(q) ==> p <= q <= s@.len(),
{
    if has_byte(s, p, 101) || has_byte(s, p, 69) {
        let q = if has_byte(s, p + 1, 43) || has_byte(s, p + 1, 45) {
            p + 2
        } else {
            p + 1
        };
        let r = scan_run(s, q, ByteClass::Digit);
        if r > q {
            Some(r)
        } else {
            None
        }
    } else {
        Some(p)
    }
}

fn unsigned_float_exec(s: &[u8], p: usize) -> (r: Option<usize>)
    requires
        p <= s@.len(),
    ensures
        int_at(r) == unsigned_float(s@, p as int),
        r matches Some(q) ==> p <= q <= s@.len(),
{
    if has_byte(s, p, 73) || has_byte(s, p, 105) {
        let inf = [105u8, 110, 102];
        let inity = [105u8, 110, 105, 116, 121];
        assert(inf@ =~= word_inf());
        assert(inity@ =~= word_inity());
        if has_word_caseless(s, p, &inf) {
            if has_word_caseless(s, p + 3, &inity) {
                Some(p + 8)
            } else {
                Some(p + 3)
            }
        } else {
            None
        }
    } else if has_byte(s, p, 46) {
        let q = scan_run(s, p + 1, ByteClass::Digit);
        if q > p + 1 {
            exponent_exec(s, q)
        } else {
            None
        }
    } else {
        let q = scan_run(s, p, ByteClass::Digit);
        if q == p {
            None
        } else {
            let r = if has_byte(s, q, 46) {
                scan_run(s, q + 1, ByteClass::Digit)
            } else {
                q
            };
            exponent_exec(s, r)
        }
    }
}

fn float_text_exec(s: &[u8], p: usize) -> (r: Option<(Vec<u8>, usize)>)
    requires
        p <= s@.len(),
    ensures
        bytes_at(r) == float_text(s@, p as int),
        r matches Some((_, q)) ==> p <= q <= s@.len(),
{
    let end = if has_byte(s, p, 78) || has_byte(s, p, 110) {
        let nan = [110u8, 97, 110];
        assert(nan@ =~= word_nan());
        if has_word_caseless(s, p, &nan) {
            Some(p + 3)
        } else {
            None
        }
    } else if has_byte(s, p, 43) || has_byte(s, p, 45) {
        unsigned_float_exec(s, p + 1)
    } else {
        unsigned_float_exec(s, p)
    };
    match end {
        Some(q) => if p <= q && q <= s.len() {
            Some((copy_bytes(s, p, q), q))
        } else {
            None
        },
        None => None,
    }
}

fn address_exec(s: &[u8], p: usize) -> (r: Option<(Statement, usize)>)
    requires
        p <= s@.len(),
    ensures
        stmt_at(r) == address(s@, p as int),
        r matches Some((_, q)) ==> p < q <= s@.len(),
{
    match number_exec(s, p) {
        Some((a, q)) => match line_end_exec(s, q) {
            Some(r) => Some((Statement::Address { addr: a }, r)),
            None => None,
        },
        None => None,
    }
}

fn range_exec(s: &[u8], p: usize) -> (r: Option<(Statement, usize)>)
    requires
        p <= s@.len(),
    ensures
        stmt_at(r) == range(s@, p as int),
        r matches Some((_, q)) ==> p < q <= s@.len(),
{
    let dots = [46u8, 46];
    assert(dots@ =~= seq![46u8, 46]);
    match number_exec(s, p) {
        Some((a, q)) => if has_word(s, q, &dots) {
            match number_exec(s, q + 2) {
                Some((e, q2)) => match line_end_exec(s, q2) {
                    Some(r) => Some((Statement::Range { addr_start: a, addr_end: e }, r)),
                    None => None,
                },
                None => None,
            }
        } else {
            None
        },
        None => None,
    }
}

fn function_call_exec(s: &[u8], p: usize) -> (r: Option<(Statement, usize)>)
    requires
        p <= s@.len(),
    ensures
        stmt_at(r) == function_call(s@, p as int),
        r matches Some((_, q)) ==> p < q <= s@.len(),
{
    let parens = [40u8, 41];
    assert(parens@ =~= seq![40u8, 41]);
    match function_name_exec(s, p) {
        Some((n, q)) => if has_word(s, q, &parens) {
            match line_end_exec(s, q + 2) {
                Some(r) => Some((Statement::FunctionCall { function_name: n }, r)),
                None => None,
            }
        } else {
            None
        },
        None => None,
    }
}

fn loop_body_exec(s: &[u8], p: usize) -> (r: Option<(Statement, usize)>)
    requires
        p <= s@.len(),
    ensures
        stmt_at(r) == loop_body(s@, p as int),
        r matches Some((_, q)) ==> p < q <= s@.len(),
    decreases s@.len() - p, 0int,
{
    let q = scan_run(s, p, ByteClass::Space);
    if !has_byte(s, q, 40) {
        return None;
    }
    let q1 = scan_run(s, q + 1, ByteClass::Space);
    match number_exec(s, q1) {
        None => None,
        Some((count, q2)) => {
            let q3 = scan_run(s, q2, ByteClass::Space);
            if !has_byte(s, q3, 41) || !(p < q3 + 1 && q3 + 1 <= s.len()) {
                None
            } else {
                match block_exec(s, q3 + 1) {
                    None => None,
                    Some((body, r)) => Some((Statement::Loop { count, block: body }, r)),
                }
            }
        },
    }
}

pub open spec fn case_at(r: Option<(SwitchCase, usize)>) -> Option<(SpecSwitchCase, int)> {
    match r {
        Some((c, q)) => Some(
            (SpecSwitchCase { probability: c.probability@, body: statements_view(c.block@) }, q as int),
        ),
        None => None,
    }
}

pub open spec fn cases_at(r: Option<(Vec<SwitchCase>, usize)>) -> Option<(Seq<SpecSwitchCase>, int)> {
    match r {
        Some((v, q)) => Some((switch_cases_view(v@), q as int)),
        None => None,
    }
}

/// `r` with `prefix` put in front of what it parsed.
pub open spec fn with_prefix<T>(prefix: Seq<T>, r: Option<(Seq<T>, int)>) -> Option<(Seq<T>, int)> {
    match r {
        Some((rest, q)) => Some((prefix + rest, q)),
        None => None,
    }
}

fn switch_case_exec(s: &[u8], p: usize) -> (r: Option<(SwitchCase, usize)>)
    requires
        p <= s@.len(),
    ensures
        case_at(r) == switch_case(s@, p as int),
        r matches Some((_, q)) ==> p < q <= s@.len(),
    decreases s@.len() - p, 1int,
{
    let q = scan_run(s, p, ByteClass::Space);
    if !has_byte(s, q, 40) {
        return None;
    }
    let q1 = scan_run(s, q + 1, ByteClass::Space);
    match float_text_exec(s, q1) {
        None => None,
        Some((probability, q2)) => {
            let q3 = scan_run(s, q2, ByteClass::Space);
            if !has_byte(s, q3, 41) {
                return None;
            }
            let q4a = scan_run(s, q3 + 1, ByteClass::Space);
            let q4 = scan_run(s, q4a, ByteClass::Space);
            if !has_byte(s, q4, 58) {
                return None;
            }
            let q5 = scan_run(s, q4 + 1, ByteClass::Space);
            if !(p < q5 && q5 <= s.len()) {
                return None;
            }
            match block_exec(s, q5) {
                None => None,
                Some((body, r)) => Some((SwitchCase { probability, block: body }, r)),
            }
        },
    }
}

fn switch_cases_exec(s: &[u8], p: usize) -> (r: Option<(Vec<SwitchCase>, usize)>)
    requires
        p <= s@.len(),
    ensures
        cases_at(r) == switch_cases(s@, p as int, true),
        r matches Some((_, q)) ==> p < q <= s@.len(),
    decreases s@.len() - p, 2int,
{
    let endswitch = [101u8, 110, 100, 115, 119, 105, 116, 99, 104];
    assert(endswitch@ =~= seq![101u8, 110, 100, 115, 119, 105, 116, 99, 104]);
    let mut acc: Vec<SwitchCase> = Vec::new();
    let mut cur = p;
    let mut first = true;
    loop
        invariant
            p <= cur <= s@.len(),
            first ==> cur == p && acc@.len() == 0,
            !first ==> p < cur,
            endswitch@ == seq![101u8, 110, 100, 115, 119, 105, 116, 99, 104],
            switch_cases(s@, p as int, true) == with_prefix(
                switch_cases_view(acc@),
                switch_cases(s@, cur as int, first),
            ),
        decreases s@.len() - cur,
    {
        let q = scan_run(s, cur, ByteClass::MultiSpace);
        if !first && has_word(s, q, &endswitch) {
            assert(switch_cases_view(acc@) + Seq::<SpecSwitchCase>::empty() =~= switch_cases_view(
                acc@,
            ));
            return Some((acc, q + 9));
        }
        match switch_case_exec(s, cur) {
            None => {
                return None;
            },
            Some((c, q2)) => {
                if cur < q2 && q2 <= s.len() {
                    proof {
                        lemma_switch_cases_view_push(acc@, c);
                        let cv = SpecSwitchCase {
                            probability: c.probability@,
                            body: statements_view(c.block@),
                        };
                        match switch_cases(s@, q2 as int, false) {
                            Some((rest, _)) => {
                                assert(switch_cases_view(acc@) + (seq![cv] + rest)
                                    =~= switch_cases_view(acc@).push(cv) + rest);
                            },
                            None => {},
                        }
                    }
                    acc.push(c);
                    cur = q2;
                    first = false;
                } else {
                    return None;
                }
            },
        }
    }
}

fn switch_body_exec(s: &[u8], p: usize) -> (r: Option<(Statement, usize)>)
    requires
        p <= s@.len(),
    ensures
        stmt_at(r) == switch_body(s@, p as int),
        r matches Some((_, q)) ==> p < q <= s@.len(),
    decreases s@.len() - p, 3int,
{
    match line_end_exec(s, p) {
        None => None,
        Some(q) => {
            if p <= q && q <= s.len() {
                match switch_cases_exec(s, q) {
                    None => None,
                    Some((cases, r)) => match line_end_exec(s, r) {
                        None => None,
                        Some(e) => Some((Statement::Switch { cases }, e)),
                    },
                }
            } else {
                None
            }
        },
    }
}

fn statement_exec(s: &[u8], p: usize) -> (r: Option<(Statement, usize)>)
    requires
        p <= s@.len(),
    ensures
        stmt_at(r) == statement(s@, p as int),
        r matches Some((_, q)) ==> p < q <= s@.len(),
    decreases s@.len() - p, 4int,
{
    let q = scan_run(s, p, ByteClass::MultiSpace);
    if let Some(r) = range_exec(s, q) {
        return Some(r);
    }
    if let Some(r) = address_exec(s, q) {
        return Some(r);
    }
    if let Some(r) = function_call_exec(s, q) {
        return Some(r);
    }
    let kw_loop = [108u8, 111, 111, 112];
    let kw_switch = [115u8, 119, 105, 116, 99, 104, 58];
    assert(kw_loop@ =~= seq![108u8, 111, 111, 112]);
    assert(kw_switch@ =~= seq![115u8, 119, 105, 116, 99, 104, 58]);
    let as_loop = if has_word(s, q, &kw_loop) {
        loop_body_exec(s, q + 4)
    } else {
        None
    };
    match as_loop {
        Some(r) => Some(r),
        None => if has_word(s, q, &kw_switch) {
            switch_body_exec(s, q + 7)
        } else {
            None
        },
    }
}

fn statements_exec(s: &[u8], p: usize) -> (r: Option<(Vec<Statement>, usize)>)
    requires
        p <= s@.len(),
    ensures
        stmts_at(r) == statements(s@, p as int),
        r matches Some((_, q)) ==> p < q <= s@.len(),
    decreases s@.len() - p, 5int,
{
    let mut acc: Vec<Statement> = Vec::new();
    let mut cur = p;
    loop
        invariant
            p <= cur <= s@.len(),
            statements(s@, p as int) == with_prefix(
                statements_view(acc@),
                statements(s@, cur as int),
            ),
        decreases s@.len() - cur,
    {
        let q = scan_run(s, cur, ByteClass::MultiSpace);
        if has_byte(s, q, 125) {
            assert(statements_view(acc@) + Seq::<SpecStatement>::empty() =~= statements_view(
                acc@,
            ));
            return Some((acc, q + 1));
        }
        match statement_exec(s, cur) {
            None => {
                return None;
            },
            Some((st, q2)) => {
                if cur < q2 && q2 <= s.len() {
                    proof {
                        lemma_statements_view_push(acc@, st);
                        match statements(s@, q2 as int) {
                            Some((rest, _)) => {
                                assert(statements_view(acc@) + (seq![statement_view(st)] + rest)
                                    =~= statements_view(acc@).push(statement_view(st)) + rest);
                            },
                            None => {},
                        }
                    }
                    acc.push(st);
                    cur = q2;
                } else {
                    return None;
                }
            },
        }
    }
}

fn block_exec(s: &[u8], p: usize) -> (r: Option<(Vec<Statement>, usize)>)
    requires
        p <= s@.len(),
    ensures
        stmts_at(r) == block(s@, p as int),
        r matches Some((_, q)) ==> p < q <= s@.len(),
    decreases s@.len() - p, 6int,
{
    let q = scan_run(s, p, ByteClass::MultiSpace);
    if !(q < s.len()) || s[q] != 123 {
        return None;
    }
    match statements_exec(s, q + 1) {
        None => None,
        Some((body, r)) => match line_end_exec(s, r) {
            None => None,
            Some(e) => Some((body, e)),
        },
    }
}

} // verus!

verus! {

fn function_exec(s: &[u8], p: usize) -> (r: Option<((Vec<u8>, Vec<Statement>), usize)>)
    requires
        p <= s@.len(),
    ensures
        match r {
            Some(((n, body), q)) => function(s@, p as int) == Some(
                ((n@, statements_view(body@)), q as int),
            ) && p < q <= s@.len(),
            None => function(s@, p as int) is None,
        },
{
    let q = scan_run(s, p, ByteClass::MultiSpace);
    let kw_fn = [102u8, 110];
    assert(kw_fn@ =~= seq![102u8, 110]);
    if !has_word(s, q, &kw_fn) {
        return None;
    }
    let q1 = scan_run(s, q + 2, ByteClass::Space);
    match function_name_exec(s, q1) {
        None => None,
        Some((n, q2)) => match block_exec(s, q2) {
            None => None,
            Some((body, q3)) => match line_end_exec(s, q3) {
                None => None,
                Some(e) => Some(((n, body), e)),
            },
        },
    }
}

pub open spec fn functions_view(v: Seq<(Vec<u8>, Vec<Statement>)>) -> Seq<
    (Seq<u8>, Seq<SpecStatement>),
> {
    v.map_values(|f: (Vec<u8>, Vec<Statement>)| (f.0@, statements_view(f.1@)))
}

/// A parsed access trace: its functions, in file order, and its main block.
#[derive(Debug)]
pub struct AccessTrace {
    functions: Vec<(Vec<u8>, Vec<Statement>)>,
    main_block: Vec<Statement>,
}

impl AccessTrace {
    /// The functions, each with its name, in file order.
    pub closed spec fn spec_functions(&self) -> Seq<(Seq<u8>, Seq<SpecStatement>)> {
        functions_view(self.functions@)
    }

    /// The main block.
    pub closed spec fn spec_main_block(&self) -> Seq<SpecStatement> {
        statements_view(self.main_block@)
    }

    /// Parses an access trace: functions, then the main block, to the end of
    /// the input. The switches' probabilities are not checked here.
    pub fn parse(input: &str) -> (r: Option<AccessTrace>)
        ensures
            match parse_access_trace(input.spec_bytes()) {
                Some((fs, main)) => r matches Some(t) && t.spec_functions() == fs
                    && t.spec_main_block() == main,
                None => r is None,
            },
    {
        let s = input.as_bytes();
        let mut fs: Vec<(Vec<u8>, Vec<Statement>)> = Vec::new();
        let mut cur: usize = 0;
        loop
            invariant
                cur <= s@.len(),
                ({
                    let (rest, e) = functions(s@, cur as int);
                    functions(s@, 0) == (functions_view(fs@) + rest, e)
                }),
            ensures
                functions(s@, 0) == (functions_view(fs@), cur as int),
            decreases s@.len() - cur,
        {
            match function_exec(s, cur) {
                Some((f, q)) => {
                    if cur < q && q <= s.len() {
                        proof {
                            let (rest, e) = functions(s@, q as int);
                            let fv = (f.0@, statements_view(f.1@));
                            assert(functions_view(fs@.push(f)) =~= functions_view(fs@).push(fv));
                            assert(functions_view(fs@) + (seq![fv] + rest) =~= functions_view(
                                fs@,
                            ).push(fv) + rest);
                        }
                        fs.push(f);
                        cur = q;
                    } else {
                        assert(functions_view(fs@) + Seq::<(Seq<u8>, Seq<SpecStatement>)>::empty()
                            =~= functions_view(fs@));
                        break ;
                    }
                },
                None => {
                    assert(functions_view(fs@) + Seq::<(Seq<u8>, Seq<SpecStatement>)>::empty()
                        =~= functions_view(fs@));
                    break ;
                },
            }
        }
        match block_exec(s, cur) {
            Some((main, e)) => if e == s.len() {
                Some(AccessTrace { functions: fs, main_block: main })
            } else {
                None
            },
            None => None,
        }
    }

    /// The probabilities of every switch, one list per switch, as written:
    /// those of the functions, in order, then those of the main block.
    /// Within a block, a switch comes before the switches inside its cases.
    pub fn switch_probabilities(&self) -> (r: Vec<Vec<Vec<u8>>>)
        ensures
            r.deep_view() == functions_switches(self.spec_functions()) + statements_switches(
                self.spec_main_block(),
            ),
    {
        let mut out: Vec<Vec<Vec<u8>>> = Vec::new();
        let mut i: usize = 0;
        while i < self.functions.len()
            invariant
                i <= self.functions@.len(),
                out.deep_view() == functions_switches(
                    functions_view(self.functions@).subrange(0, i as int),
                ),
            decreases self.functions@.len() - i,
        {
            let ghost fv = functions_view(self.functions@);
            assert(fv.subrange(0, i + 1).drop_last() =~= fv.subrange(0, i as int));
            collect_statements(&self.functions[i].1, &mut out);
            i += 1;
        }
        assert(functions_view(self.functions@).subrange(0, i as int) =~= functions_view(
            self.functions@,
        ));
        collect_statements(&self.main_block, &mut out);
        out
    }
}

/// Parses `input`, to its end, as one block.
pub fn parse_block(input: &str) -> (r: Option<Vec<Statement>>)
    ensures
        match block(input.spec_bytes(), 0) {
            Some((b, e)) => if e == input.spec_bytes().len() {
                r matches Some(v) && statements_view(v@) == b
            } else {
                r is None
            },
            None => r is None,
        },
{
    let s = input.as_bytes();
    match block_exec(s, 0) {
        Some((b, e)) => if e == s.len() {
            Some(b)
        } else {
            None
        },
        None => None,
    }
}

// ---------------------------------------------------------------------------
// Switch probabilities
// ---------------------------------------------------------------------------

/// The probabilities of the switches of a statement, one list per switch.
pub open spec fn statement_switches(st: SpecStatement) -> Seq<Seq<Seq<u8>>>
    decreases st,
{
    match st {
        SpecStatement::Loop { count, body } => statements_switches(body),
        SpecStatement::Switch { cases } => seq![
            cases.map_values(|c: SpecSwitchCase| c.probability),
        ] + cases_switches(cases),
        _ => Seq::empty(),
    }
}

pub open spec fn statements_switches(s: Seq<SpecStatement>) -> Seq<Seq<Seq<u8>>>
    decreases s,
{
    if s.len() == 0 {
        Seq::empty()
    } else {
        statements_switches(s.subrange(0, s.len() - 1)) + statement_switches(s[s.len() - 1])
    }
}

pub open spec fn cases_switches(cases: Seq<SpecSwitchCase>) -> Seq<Seq<Seq<u8>>>
    decreases cases,
{
    if cases.len() == 0 {
        Seq::empty()
    } else {
        cases_switches(cases.subrange(0, cases.len() - 1)) + statements_switches(
            cases[cases.len() - 1].body,
        )
    }
}

pub open spec fn functions_switches(fs: Seq<(Seq<u8>, Seq<SpecStatement>)>) -> Seq<Seq<Seq<u8>>>
    decreases fs.len(),
{
    if fs.len() == 0 {
        Seq::empty()
    } else {
        functions_switches(fs.drop_last()) + statements_switches(fs.last().1)
    }
}

/// The switch with these cases occurs in `st`: it is `st`, or it occurs in
/// a statement of `st`'s loop body or of one of its cases.
pub open spec fn occurs_in(cases: Seq<SpecSwitchCase>, st: SpecStatement) -> bool
    decreases st,
{
    match st {
        SpecStatement::Loop { count, body } => exists|i: int|
            0 <= i < body.len() && occurs_in(cases, #[trigger] body[i]),
        SpecStatement::Switch { cases: cs } => cs == cases || exists|i: int, j: int|
            0 <= i < cs.len() && 0 <= j < cs[i].body.len() && occurs_in(cases, #[trigger] cs[i].body[j]),
        _ => false,
    }
}

/// The probabilities of a switch's cases, in order.
pub open spec fn probabilities(cases: Seq<SpecSwitchCase>) -> Seq<Seq<u8>> {
    cases.map_values(|c: SpecSwitchCase| c.probability)
}

proof fn lemma_contains_left(a: Seq<Seq<Seq<u8>>>, b: Seq<Seq<Seq<u8>>>, x: Seq<Seq<u8>>)
    requires
        a.contains(x),
    ensures
        (a + b).contains(x),
{
    let i = choose|i: int| 0 <= i < a.len() && a[i] == x;
    assert((a + b)[i] == x);
}

proof fn lemma_contains_right(a: Seq<Seq<Seq<u8>>>, b: Seq<Seq<Seq<u8>>>, x: Seq<Seq<u8>>)
    requires
        b.contains(x),
    ensures
        (a + b).contains(x),
{
    let i = choose|i: int| 0 <= i < b.len() && b[i] == x;
    assert((a + b)[a.len() + i] == x);
}

proof fn lemma_listed_in_statement(cases: Seq<SpecSwitchCase>, st: SpecStatement)
    requires
        occurs_in(cases, st),
    ensures
        statement_switches(st).contains(probabilities(cases)),
    decreases st,
{
    match st {
        SpecStatement::Loop { count, body } => {
            let i = choose|i: int| 0 <= i < body.len() && occurs_in(cases, #[trigger] body[i]);
            lemma_listed_in_statements(cases, body, i);
        },
        SpecStatement::Switch { cases: cs } => {
            let head = seq![cs.map_values(|c: SpecSwitchCase| c.probability)];
            if cs == cases {
                assert(head[0] == probabilities(cases));
                lemma_contains_left(head, cases_switches(cs), probabilities(cases));
            } else {
                let (i, j) = choose|i: int, j: int|
                    0 <= i < cs.len() && 0 <= j < cs[i].body.len() && occurs_in(cases, #[trigger] cs[i].body[j]);
                lemma_listed_in_statements(cases, cs[i].body, j);
                lemma_listed_in_cases(cases, cs, i);
                lemma_contains_right(head, cases_switches(cs), probabilities(cases));
            }
        },
        _ => {},
    }
}

proof fn lemma_listed_in_statements(cases: Seq<SpecSwitchCase>, s: Seq<SpecStatement>, i: int)
    requires
        0 <= i < s.len(),
        occurs_in(cases, s[i]),
    ensures
        statements_switches(s).contains(probabilities(cases)),
    decreases s, 0int,
{
    let prefix = s.subrange(0, s.len() - 1);
    if i == s.len() - 1 {
        lemma_listed_in_statement(cases, s[i]);
        lemma_contains_right(statements_switches(prefix), statement_switches(s[i]), probabilities(cases));
    } else {
        assert(prefix[i] == s[i]);
        lemma_listed_in_statements(cases, prefix, i);
        lemma_contains_left(
            statements_switches(prefix),
            statement_switches(s[s.len() - 1]),
            probabilities(cases),
        );
    }
}

proof fn lemma_listed_in_cases(cases: Seq<SpecSwitchCase>, cs: Seq<SpecSwitchCase>, i: int)
    requires
        0 <= i < cs.len(),
        statements_switches(cs[i].body).contains(probabilities(cases)),
    ensures
        cases_switches(cs).contains(probabilities(cases)),
    decreases cs,
{
    let prefix = cs.subrange(0, cs.len() - 1);
    if i == cs.len() - 1 {
        lemma_contains_right(cases_switches(prefix), statements_switches(cs[i].body), probabilities(cases));
    } else {
        assert(prefix[i] == cs[i]);
        lemma_listed_in_cases(cases, prefix, i);
        lemma_contains_left(
            cases_switches(prefix),
            statements_switches(cs[cs.len() - 1].body),
            probabilities(cases),
        );
    }
}

/// Every switch that occurs anywhere in a block, inside loop bodies and
/// switch cases too, has its list of probabilities among the lists that
/// the block's switches give.
pub proof fn law_every_switch_is_listed(cases: Seq<SpecSwitchCase>, block: Seq<SpecStatement>, i: int)
    requires
        0 <= i < block.len(),
        occurs_in(cases, block[i]),
    ensures
        statements_switches(block).contains(probabilities(cases)),
{
    lemma_listed_in_statements(cases, block, i);
}

proof fn lemma_listed_in_functions(
    cases: Seq<SpecSwitchCase>,
    fs: Seq<(Seq<u8>, Seq<SpecStatement>)>,
    f: int,
    i: int,
)
    requires
        0 <= f < fs.len(),
        0 <= i < fs[f].1.len(),
        occurs_in(cases, fs[f].1[i]),
    ensures
        functions_switches(fs).contains(probabilities(cases)),
    decreases fs.len(),
{
    let prefix = fs.drop_last();
    if f == fs.len() - 1 {
        lemma_listed_in_statements(cases, fs[f].1, i);
        lemma_contains_right(functions_switches(prefix), statements_switches(fs.last().1), probabilities(cases));
    } else {
        assert(prefix[f] == fs[f]);
        lemma_listed_in_functions(cases, prefix, f, i);
        lemma_contains_left(functions_switches(prefix), statements_switches(fs.last().1), probabilities(cases));
    }
}

/// Every switch of an access trace, in a function or in the main block, at
/// any depth, has its list of probabilities among those that
/// `switch_probabilities` gives.
pub proof fn law_every_switch_of_a_trace_is_listed(
    t: AccessTrace,
    cases: Seq<SpecSwitchCase>,
    f: int,
    i: int,
)
    requires
        (f == -1 && 0 <= i < t.spec_main_block().len() && occurs_in(cases, t.spec_main_block()[i])) || (0
            <= f < t.spec_functions().len() && 0 <= i < t.spec_functions()[f].1.len() && occurs_in(
            cases,
            t.spec_functions()[f].1[i],
        )),
    ensures
        (functions_switches(t.spec_functions()) + statements_switches(t.spec_main_block())).contains(
            probabilities(cases),
        ),
{
    if f == -1 {
        lemma_listed_in_statements(cases, t.spec_main_block(), i);
        lemma_contains_right(
            functions_switches(t.spec_functions()),
            statements_switches(t.spec_main_block()),
            probabilities(cases),
        );
    } else {
        lemma_listed_in_functions(cases, t.spec_functions(), f, i);
        lemma_contains_left(
            functions_switches(t.spec_functions()),
            statements_switches(t.spec_main_block()),
            probabilities(cases),
        );
    }
}

fn collect_statements(stmts: &Vec<Statement>, out: &mut Vec<Vec<Vec<u8>>>)
    ensures
        final(out).deep_view() == old(out).deep_view() + statements_switches(statements_view(stmts@)),
    decreases stmts@, 1int,
{
    let ghost sv = statements_view(stmts@);
    let ghost start = out.deep_view();
    let mut i: usize = 0;
    while i < stmts.len()
        invariant
            sv == statements_view(stmts@),
            i <= stmts@.len(),
            out.deep_view() == start + statements_switches(statements_view(stmts@.subrange(0, i as int))),
        decreases stmts@.len() - i,
    {
        assert(stmts@.subrange(0, i + 1).subrange(0, i as int) =~= stmts@.subrange(0, i as int));
        let ghost before = out.deep_view();
        collect_statement(&stmts[i], out);
        assert(stmts@.subrange(0, i + 1)[i as int] == stmts@[i as int]);
        let ghost prev = statements_view(stmts@.subrange(0, i as int));
        let ghost x = statement_view(stmts@[i as int]);
        assert(statements_view(stmts@.subrange(0, i + 1)) == prev.push(x));
        assert(prev.push(x).subrange(0, prev.len() as int) =~= prev);
        assert(statements_switches(prev.push(x)) == statements_switches(prev) + statement_switches(x));
        assert(start + statements_switches(statements_view(stmts@.subrange(0, i as int)))
            + statement_switches(statement_view(stmts@[i as int])) =~= start + (statements_switches(
            statements_view(stmts@.subrange(0, i as int)),
        ) + statement_switches(statement_view(stmts@[i as int]))));
        i += 1;
    }
    assert(stmts@.subrange(0, i as int) =~= stmts@);
}

fn collect_cases(cases: &Vec<SwitchCase>, out: &mut Vec<Vec<Vec<u8>>>)
    ensures
        final(out).deep_view() == old(out).deep_view() + cases_switches(switch_cases_view(cases@)),
    decreases cases@, 1int,
{
    let ghost start = out.deep_view();
    let mut i: usize = 0;
    while i < cases.len()
        invariant
            i <= cases@.len(),
            out.deep_view() == start + cases_switches(switch_cases_view(cases@.subrange(0, i as int))),
        decreases cases@.len() - i,
    {
        assert(cases@.subrange(0, i + 1).subrange(0, i as int) =~= cases@.subrange(0, i as int));
        collect_statements(&cases[i].block, out);
        assert(cases@.subrange(0, i + 1)[i as int] == cases@[i as int]);
        let ghost prev = switch_cases_view(cases@.subrange(0, i as int));
        let ghost x = SpecSwitchCase {
            probability: cases@[i as int].probability@,
            body: statements_view(cases@[i as int].block@),
        };
        assert(switch_cases_view(cases@.subrange(0, i + 1)) == prev.push(x));
        assert(prev.push(x).subrange(0, prev.len() as int) =~= prev);
        assert(cases_switches(prev.push(x)) == cases_switches(prev) + statements_switches(x.body));
        assert(start + cases_switches(switch_cases_view(cases@.subrange(0, i as int)))
            + statements_switches(statements_view(cases@[i as int].block@)) =~= start + (
        cases_switches(switch_cases_view(cases@.subrange(0, i as int))) + statements_switches(
            statements_view(cases@[i as int].block@),
        )));
        i += 1;
    }
    assert(cases@.subrange(0, i as int) =~= cases@);
}

fn collect_statement(st: &Statement, out: &mut Vec<Vec<Vec<u8>>>)
    ensures
        final(out).deep_view() == old(out).deep_view() + statement_switches(statement_view(*st)),
    decreases *st, 0int,
{
    match st {
        Statement::Loop { count, block } => {
            collect_statements(block, out);
        },
        Statement::Switch { cases } => {
            let mut probabilities: Vec<Vec<u8>> = Vec::new();
            let mut i: usize = 0;
            while i < cases.len()
                invariant
                    i <= cases@.len(),
                    probabilities.deep_view() == switch_cases_view(cases@.subrange(0, i as int)).map_values(
                        |c: SpecSwitchCase| c.probability,
                    ),
                decreases cases@.len() - i,
            {
                let text = copy_text(&cases[i].probability);
                let ghost before = probabilities.deep_view();
                assert(text.deep_view() =~= text@);
                probabilities.push(text);
                assert(probabilities.deep_view() =~= before.push(text@));
                assert(cases@.subrange(0, i + 1).subrange(0, i as int) =~= cases@.subrange(0, i as int));
                assert(cases@.subrange(0, i + 1)[i as int] == cases@[i as int]);
                let ghost prev = switch_cases_view(cases@.subrange(0, i as int));
                let ghost x = SpecSwitchCase {
                    probability: cases@[i as int].probability@,
                    body: statements_view(cases@[i as int].block@),
                };
                assert(switch_cases_view(cases@.subrange(0, i + 1)) == prev.push(x));
                assert(probabilities.deep_view() =~= switch_cases_view(cases@.subrange(0, i + 1)).map_values(
                    |c: SpecSwitchCase| c.probability,
                ));
                i += 1;
            }
            assert(cases@.subrange(0, i as int) =~= cases@);
            let ghost before = out.deep_view();
            out.push(probabilities);
            assert(out.deep_view() =~= before.push(switch_cases_view(cases@).map_values(
                |c: SpecSwitchCase| c.probability,
            )));
            collect_cases(cases, out);
            assert(out.deep_view() =~= before + statement_switches(statement_view(*st)));
        },
        _ => {
            assert(out.deep_view() =~= out.deep_view() + Seq::<Seq<Seq<u8>>>::empty());
        },
    }
}

fn copy_text(text: &Vec<u8>) -> (r: Vec<u8>)
    ensures
        r@ == text@,
{
    let mut r: Vec<u8> = Vec::new();
    let mut i: usize = 0;
    while i < text.len()
        invariant
            i <= text@.len(),
            r@ == text@.subrange(0, i as int),
        decreases text@.len() - i,
    {
        r.push(text[i]);
        i += 1;
        assert(r@ =~= text@.subrange(0, i as int));
    }
    assert(text@.subrange(0, i as int) =~= text@);
    r
}

} // verus!
