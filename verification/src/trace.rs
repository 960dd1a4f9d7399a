//! Trace files: parsing and checking them, and unfolding their traces.
//!
//! A trace file holds named blocks; the blocks marked `compare` are the
//! traces to simulate. A file is accepted when it follows the grammar of
//! [`crate::syntax`], no two blocks share a name, and every call names a
//! block of the file.
use crate::expansion::{
    expand_block, names_distinct, trace_expansion, trace_failure, ExpansionError, Instruction,
};
use crate::syntax::{
    op_well_formed, ops_well_formed, blocks_well_formed, lemma_parsed_blocks_well_formed, blocks_view, cases_view, is_block_name, lemma_cases_view, lemma_ops_view, law_parsed_names_are_block_names,
    op_view, ops_view, parse_blocks, parse_named_blocks, parse_stop, ByteClass, NamedBlock, Op, SpecBlock,
    SpecCase, SpecOp, SwitchCase, in_class,
};
use std::string::FromUtf8Error;
use vstd::prelude::*;
use vstd::string::StringSliceAdditionalSpecFns;

verus! {

/// Why a trace file was refused.
#[derive(Debug, Clone)]
pub enum TraceParseError {
    /// The text does not follow the grammar; named blocks are read as far
    /// as the byte at `offset`, where the text stops following it.
    ParseError { offset: usize },
    /// Two blocks share this name.
    DuplicateBlock { name: Vec<u8> },
    /// A call names this block, which the file does not define.
    UnknownBlock { name: Vec<u8> },
}

// ---------------------------------------------------------------------------
// What a file must satisfy
// ---------------------------------------------------------------------------

/// Some block is called `name`.
pub open spec fn defines(blocks: Seq<SpecBlock>, name: Seq<u8>) -> bool {
    exists|k: int| 0 <= k < blocks.len() && blocks[k].name == name
}

/// Block `i` has the name of an earlier block.
pub open spec fn repeats_name(blocks: Seq<SpecBlock>, i: int) -> bool {
    exists|j: int| 0 <= j < i && blocks[j].name == blocks[i].name
}

/// The first block, in file order, whose name an earlier block has.
pub open spec fn first_duplicate(blocks: Seq<SpecBlock>) -> Option<int> {
    if exists|i: int| 0 <= i < blocks.len() && repeats_name(blocks, i) {
        Some(
            choose|i: int|
                0 <= i < blocks.len() && repeats_name(blocks, i) && forall|k: int|
                    0 <= k < i ==> !repeats_name(blocks, k),
        )
    } else {
        None
    }
}

/// Every call in `o` names a block of `blocks`.
pub open spec fn op_calls_defined(blocks: Seq<SpecBlock>, o: SpecOp) -> bool
    decreases o,
{
    match o {
        SpecOp::Call { name } => defines(blocks, name),
        SpecOp::Loop { count, body } => ops_calls_defined(blocks, body),
        SpecOp::Switch { cases } => cases_calls_defined(blocks, cases),
        SpecOp::Range { .. } => true,
    }
}

pub open spec fn ops_calls_defined(blocks: Seq<SpecBlock>, ops: Seq<SpecOp>) -> bool
    decreases ops,
{
    if ops.len() == 0 {
        true
    } else {
        ops_calls_defined(blocks, ops.subrange(0, ops.len() - 1)) && op_calls_defined(
            blocks,
            ops[ops.len() - 1],
        )
    }
}

pub open spec fn cases_calls_defined(blocks: Seq<SpecBlock>, cases: Seq<SpecCase>) -> bool
    decreases cases,
{
    if cases.len() == 0 {
        true
    } else {
        cases_calls_defined(blocks, cases.subrange(0, cases.len() - 1)) && ops_calls_defined(
            blocks,
            cases[cases.len() - 1].body,
        )
    }
}

/// `o` calls `name` somewhere, switch cases and loop bodies included.
pub open spec fn op_calls(o: SpecOp, name: Seq<u8>) -> bool
    decreases o,
{
    match o {
        SpecOp::Call { name: n } => n == name,
        SpecOp::Loop { count, body } => ops_call(body, name),
        SpecOp::Switch { cases } => cases_call(cases, name),
        SpecOp::Range { .. } => false,
    }
}

pub open spec fn ops_call(ops: Seq<SpecOp>, name: Seq<u8>) -> bool
    decreases ops,
{
    if ops.len() == 0 {
        false
    } else {
        ops_call(ops.subrange(0, ops.len() - 1), name) || op_calls(ops[ops.len() - 1], name)
    }
}

pub open spec fn cases_call(cases: Seq<SpecCase>, name: Seq<u8>) -> bool
    decreases cases,
{
    if cases.len() == 0 {
        false
    } else {
        cases_call(cases.subrange(0, cases.len() - 1), name) || ops_call(
            cases[cases.len() - 1].body,
            name,
        )
    }
}

/// Every call in the file names one of its blocks.
pub open spec fn calls_resolve(blocks: Seq<SpecBlock>) -> bool {
    forall|i: int| 0 <= i < blocks.len() ==> ops_calls_defined(blocks, #[trigger] blocks[i].ops)
}

/// Some block calls `name`, which no block is called.
pub open spec fn called_but_undefined(blocks: Seq<SpecBlock>, name: Seq<u8>) -> bool {
    &&& !defines(blocks, name)
    &&& exists|i: int| 0 <= i < blocks.len() && ops_call(#[trigger] blocks[i].ops, name)
}

/// The text is a trace file that is accepted: it follows the grammar, no
/// two blocks share a name, and every call names a block.
pub open spec fn file_accepted(bytes: Seq<u8>) -> bool {
    &&& parse_blocks(bytes) is Some
    &&& first_duplicate(parse_blocks(bytes).unwrap()) is None
    &&& calls_resolve(parse_blocks(bytes).unwrap())
}

/// `e` is the error with which a file of these bytes is refused: `ParseError`
/// when it does not follow the grammar, else `DuplicateBlock` with the name
/// of the first block whose name an earlier block has, else `UnknownBlock`
/// with a name that some call names and no block is.
pub open spec fn refused_as(bytes: Seq<u8>, e: TraceParseError) -> bool {
    match parse_blocks(bytes) {
        None => e matches TraceParseError::ParseError { offset } && offset == parse_stop(bytes),
        Some(bs) => match first_duplicate(bs) {
            Some(i) => e matches TraceParseError::DuplicateBlock { name } && name@ == bs[i].name
                && is_block_name(name@),
            None => !calls_resolve(bs) && (e matches TraceParseError::UnknownBlock { name }
                && called_but_undefined(bs, name@) && is_block_name(name@)),
        },
    }
}

/// The first block marked `compare`, in file order, whose trace does not
/// unfold stops with error `e`.
pub open spec fn some_trace_stops(blocks: Seq<SpecBlock>, depth: nat, e: ExpansionError) -> bool {
    exists|k: int|
        0 <= k < compared(blocks).len() && #[trigger] trace_failure(blocks, compared(blocks)[k].ops, depth)
            == Some(e) && trace_expansion(blocks, compared(blocks)[k].ops, depth) is None && forall|j: int|
            0 <= j < k ==> trace_expansion(blocks, #[trigger] compared(blocks)[j].ops, depth) is Some
}

/// The blocks marked `compare`, in file order.
pub open spec fn compared(blocks: Seq<SpecBlock>) -> Seq<SpecBlock>
    decreases blocks.len(),
{
    if blocks.len() == 0 {
        Seq::empty()
    } else {
        let rest = compared(blocks.drop_last());
        if blocks.last().compare {
            rest.push(blocks.last())
        } else {
            rest
        }
    }
}

/// Every byte is below 128.
pub open spec fn all_ascii(bytes: Seq<u8>) -> bool {
    forall|k: int| 0 <= k < bytes.len() ==> bytes[k] < 128
}

/// The characters of ASCII bytes.
pub open spec fn ascii_chars(bytes: Seq<u8>) -> Seq<char> {
    bytes.map_values(|b: u8| b as char)
}


/// The decimal digits of `x`, without leading zeros.
pub open spec fn decimal_digits(x: nat) -> Seq<u8>
    decreases x,
{
    if x < 10 {
        seq![(48 + x) as u8]
    } else {
        decimal_digits(x / 10).push((48 + x % 10) as u8)
    }
}

proof fn lemma_decimal_digits_ascii(x: nat)
    ensures
        forall|k: int| 0 <= k < decimal_digits(x).len() ==> #[trigger] decimal_digits(x)[k] < 128,
    decreases x,
{
    if x >= 10 {
        lemma_decimal_digits_ascii(x / 10);
        let prev = decimal_digits(x / 10);
        assert forall|k: int| 0 <= k < decimal_digits(x).len() implies #[trigger] decimal_digits(x)[k]
            < 128 by {
            if k < prev.len() {
                assert(decimal_digits(x)[k] == prev[k]);
            }
        }
    }
}

fn push_decimal(out: &mut Vec<u8>, x: usize)
    ensures
        final(out)@ == old(out)@ + decimal_digits(x as nat),
    decreases x,
{
    if x >= 10 {
        push_decimal(out, x / 10);
    }
    let d = (x % 10) as u8;
    out.push(48 + d);
    if x >= 10 {
        assert(final(out)@ =~= old(out)@ + decimal_digits(x as nat));
    } else {
        assert(out@ =~= old(out)@ + decimal_digits(x as nat));
    }
}

/// The text of a refusal: `block 'name()' defined multiple times`,
/// `unknown function 'name()'`, or, for text off the grammar, `the text
/// does not follow the trace syntax at byte ` and the offset in decimal.
pub open spec fn error_text(e: TraceParseError) -> Seq<u8> {
    match e {
        TraceParseError::ParseError { offset } => seq![116u8, 104, 101, 32, 116, 101, 120, 116, 32, 100, 111, 101, 115, 32, 110, 111, 116, 32, 102, 111, 108, 108, 111, 119, 32, 116, 104, 101, 32, 116, 114, 97, 99, 101, 32, 115, 121, 110, 116, 97, 120] + seq![32u8, 97, 116, 32, 98, 121, 116, 101, 32] + decimal_digits(offset as nat),
        TraceParseError::DuplicateBlock { name } => seq![98u8, 108, 111, 99, 107, 32, 39] + name@ + seq![40u8, 41, 39, 32, 100, 101, 102, 105, 110, 101, 100, 32, 109, 117, 108, 116, 105, 112, 108, 101, 32, 116, 105, 109, 101, 115],
        TraceParseError::UnknownBlock { name } => seq![117u8, 110, 107, 110, 111, 119, 110, 32, 102, 117, 110, 99, 116, 105, 111, 110, 32, 39] + name@ + seq![40u8, 41, 39],
    }
}

fn push_bytes(out: &mut Vec<u8>, bytes: &[u8])
    ensures
        final(out)@ == old(out)@ + bytes@,
{
    let ghost start = out@;
    let mut i: usize = 0;
    while i < bytes.len()
        invariant
            i <= bytes@.len(),
            out@ == start + bytes@.subrange(0, i as int),
        decreases bytes@.len() - i,
    {
        out.push(bytes[i]);
        i += 1;
        assert(out@ =~= start + bytes@.subrange(0, i as int));
    }
    assert(bytes@.subrange(0, i as int) =~= bytes@);
}

/// The names a refusal carries, if any, are block names as the grammar
/// allows them.
pub open spec fn names_block_names(e: TraceParseError) -> bool {
    match e {
        TraceParseError::ParseError { .. } => true,
        TraceParseError::DuplicateBlock { name } => is_block_name(name@),
        TraceParseError::UnknownBlock { name } => is_block_name(name@),
    }
}

impl TraceParseError {
    /// The refusal as text, as `error_text` gives it. Every refusal of
    /// `TraceFile::try_from` names a block as the grammar allows it, and for
    /// those the text is stated; it is also stated whenever the text is
    /// ASCII.
    pub fn describe(&self) -> (s: String)
        ensures
            names_block_names(*self) || all_ascii(error_text(*self)) ==> s@ == ascii_chars(
                error_text(*self),
            ),
    {
        proof {
            if names_block_names(*self) {
                let t = error_text(*self);
                assert forall|k: int| 0 <= k < t.len() implies t[k] < 128 by {
                    match *self {
                        TraceParseError::DuplicateBlock { name } => {
                            if 7 <= k < 7 + name@.len() {
                                assert(t[k] == name@[k - 7]);
                                assert(in_class(ByteClass::Name, name@[k - 7]));
                            }
                        },
                        TraceParseError::UnknownBlock { name } => {
                            if 18 <= k < 18 + name@.len() {
                                assert(t[k] == name@[k - 18]);
                                assert(in_class(ByteClass::Name, name@[k - 18]));
                            }
                        },
                        TraceParseError::ParseError { offset } => {
                            lemma_decimal_digits_ascii(offset as nat);
                            if k >= 50 {
                                assert(t[k] == decimal_digits(offset as nat)[k - 50]);
                            }
                        },
                    }
                }
            }
        }
        let mut out: Vec<u8> = Vec::new();
        match self {
            TraceParseError::ParseError { offset } => {
                push_bytes(&mut out, &[116u8, 104, 101, 32, 116, 101, 120, 116, 32, 100, 111, 101, 115, 32, 110, 111, 116, 32, 102, 111, 108, 108, 111, 119, 32, 116, 104, 101, 32, 116, 114, 97, 99, 101, 32, 115, 121, 110, 116, 97, 120]);
                push_bytes(&mut out, &[32u8, 97, 116, 32, 98, 121, 116, 101, 32]);
                push_decimal(&mut out, *offset);
            },
            TraceParseError::DuplicateBlock { name } => {
                push_bytes(&mut out, &[98u8, 108, 111, 99, 107, 32, 39]);
                push_bytes(&mut out, name.as_slice());
                push_bytes(&mut out, &[40u8, 41, 39, 32, 100, 101, 102, 105, 110, 101, 100, 32, 109, 117, 108, 116, 105, 112, 108, 101, 32, 116, 105, 109, 101, 115]);
            },
            TraceParseError::UnknownBlock { name } => {
                push_bytes(&mut out, &[117u8, 110, 107, 110, 111, 119, 110, 32, 102, 117, 110, 99, 116, 105, 111, 110, 32, 39]);
                push_bytes(&mut out, name.as_slice());
                push_bytes(&mut out, &[40u8, 41, 39]);
            },
        }
        assert(out@ =~= error_text(*self));
        match string_from_utf8(out) {
            Ok(s) => s,
            Err(_) => String::new(),
        }
    }
}

// ---------------------------------------------------------------------------
// Checking a parsed file
// ---------------------------------------------------------------------------

proof fn lemma_ops_call_at(ops: Seq<SpecOp>, i: int, name: Seq<u8>)
    requires
        0 <= i < ops.len(),
        op_calls(ops[i], name),
    ensures
        ops_call(ops, name),
    decreases ops.len(),
{
    if i < ops.len() - 1 {
        lemma_ops_call_at(ops.subrange(0, ops.len() - 1), i, name);
    }
}

proof fn lemma_cases_call_at(cases: Seq<SpecCase>, i: int, name: Seq<u8>)
    requires
        0 <= i < cases.len(),
        ops_call(cases[i].body, name),
    ensures
        cases_call(cases, name),
    decreases cases.len(),
{
    if i < cases.len() - 1 {
        lemma_cases_call_at(cases.subrange(0, cases.len() - 1), i, name);
    }
}

fn undefined_call_in_op(blocks: &Vec<NamedBlock>, o: &Op) -> (r: Option<Vec<u8>>)
    ensures
        match r {
            None => op_calls_defined(blocks_view(blocks@), op_view(*o)),
            Some(n) => !defines(blocks_view(blocks@), n@) && op_calls(op_view(*o), n@),
        },
    decreases *o, 0int,
{
    let ghost bv = blocks_view(blocks@);
    match o {
        Op::Range { .. } => None,
        Op::BlockCall { block_name } => {
            match crate::expansion::find_block(blocks, block_name) {
                Some(k) => {
                    assert(bv[k as int].name == block_name@);
                    None
                },
                None => {
                    assert(!defines(bv, block_name@)) by {
                        if defines(bv, block_name@) {
                            let k = choose|k: int| 0 <= k < bv.len() && bv[k].name == block_name@;
                            assert(blocks@[k].name@ == block_name@);
                        }
                    }
                    Some(copy_name(block_name))
                },
            }
        },
        Op::Loop { count, block } => undefined_call_in_ops(blocks, &block.ops),
        Op::Switch { cases } => undefined_call_in_cases(blocks, cases),
    }
}

fn undefined_call_in_ops(blocks: &Vec<NamedBlock>, ops: &Vec<Op>) -> (r: Option<Vec<u8>>)
    ensures
        match r {
            None => ops_calls_defined(blocks_view(blocks@), ops_view(ops@)),
            Some(n) => !defines(blocks_view(blocks@), n@) && ops_call(ops_view(ops@), n@),
        },
    decreases ops@, 1int,
{
    let ghost bv = blocks_view(blocks@);
    let ghost ov = ops_view(ops@);
    proof {
        lemma_ops_view(ops@);
    }
    let mut i: usize = 0;
    while i < ops.len()
        invariant
            bv == blocks_view(blocks@),
            ov == ops_view(ops@),
            ov.len() == ops@.len(),
            forall|k: int| 0 <= k < ops@.len() ==> #[trigger] ov[k] == op_view(ops@[k]),
            i <= ops@.len(),
            ops_calls_defined(bv, ov.subrange(0, i as int)),
        decreases ops@.len() - i,
    {
        match undefined_call_in_op(blocks, &ops[i]) {
            Some(n) => {
                proof {
                    lemma_ops_call_at(ov, i as int, n@);
                }
                return Some(n);
            },
            None => {},
        }
        assert(ov.subrange(0, i + 1).subrange(0, i as int) =~= ov.subrange(0, i as int));
        i += 1;
    }
    assert(ov.subrange(0, i as int) =~= ov);
    None
}

fn undefined_call_in_cases(blocks: &Vec<NamedBlock>, cases: &Vec<SwitchCase>) -> (r: Option<
    Vec<u8>,
>)
    ensures
        match r {
            None => cases_calls_defined(blocks_view(blocks@), cases_view(cases@)),
            Some(n) => !defines(blocks_view(blocks@), n@) && cases_call(cases_view(cases@), n@),
        },
    decreases cases@, 1int,
{
    let ghost bv = blocks_view(blocks@);
    let ghost cv = cases_view(cases@);
    proof {
        lemma_cases_view(cases@);
    }
    let mut i: usize = 0;
    while i < cases.len()
        invariant
            bv == blocks_view(blocks@),
            cv == cases_view(cases@),
            cv.len() == cases@.len(),
            forall|k: int|
                0 <= k < cases@.len() ==> #[trigger] cv[k] == (SpecCase {
                    weight: cases@[k].weight,
                    body: ops_view(cases@[k].block.ops@),
                }),
            i <= cases@.len(),
            cases_calls_defined(bv, cv.subrange(0, i as int)),
        decreases cases@.len() - i,
    {
        match undefined_call_in_ops(blocks, &cases[i].block.ops) {
            Some(n) => {
                proof {
                    lemma_cases_call_at(cv, i as int, n@);
                }
                return Some(n);
            },
            None => {},
        }
        assert(cv.subrange(0, i + 1).subrange(0, i as int) =~= cv.subrange(0, i as int));
        i += 1;
    }
    assert(cv.subrange(0, i as int) =~= cv);
    None
}

fn copy_name(name: &Vec<u8>) -> (r: Vec<u8>)
    ensures
        r@ == name@,
{
    let mut r: Vec<u8> = Vec::new();
    let mut i: usize = 0;
    while i < name.len()
        invariant
            i <= name@.len(),
            r@ == name@.subrange(0, i as int),
        decreases name@.len() - i,
    {
        r.push(name[i]);
        i += 1;
        assert(r@ =~= name@.subrange(0, i as int));
    }
    assert(name@.subrange(0, i as int) =~= name@);
    r
}

/// The first call, over the blocks in file order, that names no block.
fn undefined_call(blocks: &Vec<NamedBlock>) -> (r: Option<Vec<u8>>)
    ensures
        match r {
            None => calls_resolve(blocks_view(blocks@)),
            Some(n) => called_but_undefined(blocks_view(blocks@), n@),
        },
{
    let ghost bv = blocks_view(blocks@);
    let mut i: usize = 0;
    while i < blocks.len()
        invariant
            bv == blocks_view(blocks@),
            i <= blocks@.len(),
            forall|k: int| 0 <= k < i ==> ops_calls_defined(bv, #[trigger] bv[k].ops),
        decreases blocks@.len() - i,
    {
        assert(bv[i as int].ops == ops_view(blocks@[i as int].ops@));
        match undefined_call_in_ops(blocks, &blocks[i].ops) {
            Some(n) => {
                return Some(n);
            },
            None => {},
        }
        i += 1;
    }
    None
}

/// Whether an earlier block has the name of block `i`.
fn name_seen_before(blocks: &Vec<NamedBlock>, i: usize) -> (r: bool)
    requires
        i < blocks@.len(),
    ensures
        r == repeats_name(blocks_view(blocks@), i as int),
{
    let ghost bv = blocks_view(blocks@);
    let mut j: usize = 0;
    while j < i
        invariant
            bv == blocks_view(blocks@),
            j <= i < blocks@.len(),
            forall|k: int| 0 <= k < j ==> bv[k].name != bv[i as int].name,
        decreases i - j,
    {
        assert(bv[j as int].name == blocks@[j as int].name@);
        assert(bv[i as int].name == blocks@[i as int].name@);
        if crate::expansion::bytes_eq(&blocks[j].name, &blocks[i].name) {
            return true;
        }
        j += 1;
    }
    false
}

/// The first block, in file order, whose name an earlier block has.
fn duplicate_block(blocks: &Vec<NamedBlock>) -> (r: Option<usize>)
    ensures
        match r {
            Some(i) => i < blocks@.len() && first_duplicate(blocks_view(blocks@)) == Some(i as int),
            None => first_duplicate(blocks_view(blocks@)) is None,
        },
{
    let ghost bv = blocks_view(blocks@);
    let mut i: usize = 0;
    while i < blocks.len()
        invariant
            bv == blocks_view(blocks@),
            i <= blocks@.len(),
            forall|k: int| 0 <= k < i ==> !repeats_name(bv, k),
        decreases blocks@.len() - i,
    {
        if name_seen_before(blocks, i) {
            proof {
                lemma_first_duplicate_at(bv, i as int);
            }
            return Some(i);
        }
        i += 1;
    }
    None
}

proof fn lemma_first_duplicate_at(bv: Seq<SpecBlock>, i: int)
    requires
        0 <= i < bv.len(),
        repeats_name(bv, i),
        forall|k: int| 0 <= k < i ==> !repeats_name(bv, k),
    ensures
        first_duplicate(bv) == Some(i),
{
    let c = choose|c: int|
        0 <= c < bv.len() && repeats_name(bv, c) && forall|k: int| 0 <= k < c ==> !repeats_name(bv, k);
    assert(c == i) by {
        if c < i {
            assert(!repeats_name(bv, c));
        } else if c > i {
            assert(!repeats_name(bv, i));
        }
    }
}

// ---------------------------------------------------------------------------
// Trace files
// ---------------------------------------------------------------------------

/// The blocks of a trace file that was accepted.
#[derive(Debug)]
pub struct TraceFile {
    named_blocks: Vec<NamedBlock>,
}

/// `String::from_utf8`. For bytes that are all ASCII it succeeds, and the
/// string holds one character per byte, of the same code.
#[verifier::external_body]
pub(crate) fn string_from_utf8(bytes: Vec<u8>) -> (r: Result<String, FromUtf8Error>)
    ensures
        r is Ok || !all_ascii(bytes@),
        r is Ok ==> r.unwrap()@ == ascii_chars(bytes@) || !all_ascii(bytes@),
{
    String::from_utf8(bytes)
}

#[verifier::external_type_specification]
#[verifier::external_body]
pub struct ExFromUtf8Error(FromUtf8Error);

impl TraceFile {
    /// The blocks of the file, in file order.
    pub closed spec fn blocks(&self) -> Seq<SpecBlock> {
        blocks_view(self.named_blocks@)
    }

    #[verifier::type_invariant]
    spec fn accepted(&self) -> bool {
        &&& names_distinct(self.blocks())
        &&& calls_resolve(self.blocks())
        &&& blocks_well_formed(self.blocks())
        &&& forall|i: int| 0 <= i < self.blocks().len() ==> is_block_name(#[trigger] self.blocks()[i].name)
    }

    /// Parses and checks a trace file. It is refused with `ParseError` when
    /// the text does not follow the grammar, with `DuplicateBlock` naming
    /// the first block whose name an earlier block has, and with
    /// `UnknownBlock` naming a block that some call names and no block is.
    pub fn try_from(input: &str) -> (r: Result<TraceFile, TraceParseError>)
        ensures
            match parse_blocks(input.spec_bytes()) {
                None => r matches Err(TraceParseError::ParseError { offset }) && offset == parse_stop(
                    input.spec_bytes(),
                ),
                Some(bs) => match first_duplicate(bs) {
                    Some(i) => r matches Err(TraceParseError::DuplicateBlock { name }) && name@
                        == bs[i].name && is_block_name(name@),
                    None => if calls_resolve(bs) {
                        r matches Ok(f) && f.blocks() == bs
                    } else {
                        r matches Err(TraceParseError::UnknownBlock { name })
                            && called_but_undefined(bs, name@) && is_block_name(name@)
                    },
                },
            },
    {
        let bytes = input.as_bytes();
        let blocks = match parse_named_blocks(bytes) {
            Ok(b) => b,
            Err(offset) => return Err(TraceParseError::ParseError { offset }),
        };
        let ghost bs = blocks_view(blocks@);
        proof {
            law_parsed_names_are_block_names(bytes@);
            lemma_parsed_blocks_well_formed(bytes@);
        }
        match duplicate_block(&blocks) {
            Some(i) => {
                assert(bs[i as int].name == blocks@[i as int].name@);
                let name = copy_name(&blocks[i].name);
                return Err(TraceParseError::DuplicateBlock { name });
            },
            None => {},
        }
        assert(names_distinct(bs)) by {
            assert forall|i: int, j: int| 0 <= i < j < bs.len() implies bs[i].name != bs[j].name by {
                if bs[i].name == bs[j].name {
                    assert(repeats_name(bs, j));
                }
            }
        }
        match undefined_call(&blocks) {
            Some(n) => {
                proof {
                    let i = choose|i: int| 0 <= i < bs.len() && ops_call(#[trigger] bs[i].ops, n@);
                    if calls_resolve(bs) {
                        lemma_calls_defined_no_undefined(bs, bs[i].ops, n@);
                    }
                    lemma_called_names_ops(bs[i].ops, n@);
                }
                Err(TraceParseError::UnknownBlock { name: n })
            },
            None => Ok(TraceFile { named_blocks: blocks }),
        }
    }

    /// Unfolds each block marked `compare`, in file order, into its name and
    /// its instructions, with calls nested at most `max_call_depth` deep.
    /// Each trace draws from its own generator seeded with 0, handing it each
    /// switch's total weight as bound: each trace is exactly
    /// `trace_expansion` of its block. An error is the reason, as
    /// `trace_failure` has it, why the first trace that does not unfold
    /// stops: a call with no depth left or a switch whose weights add up to
    /// more than `usize::MAX`.
    pub fn into_iter(&self, max_call_depth: usize) -> (r: Result<
        Vec<(String, Vec<Instruction>)>,
        ExpansionError,
    >)
        ensures
            match r {
                Ok(v) => {
                    &&& v@.len() == compared(self.blocks()).len()
                    &&& forall|k: int|
                        0 <= k < v@.len() ==> {
                            let b = #[trigger] compared(self.blocks())[k];
                            &&& v@[k].0@ == ascii_chars(b.name)
                            &&& trace_expansion(self.blocks(), b.ops, max_call_depth as nat) == Some(v@[k].1@)
                        }
                },
                Err(e) => some_trace_stops(self.blocks(), max_call_depth as nat, e),
            },
    {
        proof {
            use_type_invariant(self);
        }
        let ghost bv = self.blocks();
        let mut traces: Vec<(String, Vec<Instruction>)> = Vec::new();
        let mut i: usize = 0;
        while i < self.named_blocks.len()
            invariant
                bv == self.blocks(),
                bv == blocks_view(self.named_blocks@),
                names_distinct(bv),
                calls_resolve(bv),
                blocks_well_formed(bv),
                forall|j: int| 0 <= j < bv.len() ==> is_block_name(#[trigger] bv[j].name),
                i <= bv.len(),
                traces@.len() == compared(bv.subrange(0, i as int)).len(),
                forall|k: int|
                    0 <= k < traces@.len() ==> {
                        let b = #[trigger] compared(bv.subrange(0, i as int))[k];
                        &&& traces@[k].0@ == ascii_chars(b.name)
                        &&& trace_expansion(bv, b.ops, max_call_depth as nat) == Some(traces@[k].1@)
                    },
            decreases bv.len() - i,
        {
            let ghost prev = compared(bv.subrange(0, i as int));
            assert(bv.subrange(0, i + 1).drop_last() =~= bv.subrange(0, i as int));
            if self.named_blocks[i].compare {
                assert(compared(bv.subrange(0, i + 1)) == prev.push(bv[i as int]));
                match expand_block(&self.named_blocks, i, max_call_depth) {
                    Err(e) => {
                        proof {
                            lemma_compared_prefix(bv, i + 1);
                            let m = traces@.len() as int;
                            assert(compared(bv.subrange(0, i + 1))[m] == bv[i as int]);
                            assert(compared(bv)[m] == bv[i as int]);
                            assert forall|j: int| 0 <= j < m implies trace_expansion(
                                bv,
                                #[trigger] compared(bv)[j].ops,
                                max_call_depth as nat,
                            ) is Some by {
                                assert(compared(bv)[j] == compared(bv.subrange(0, i + 1))[j]);
                                assert(compared(bv.subrange(0, i + 1))[j] == prev[j]);
                            }
                        }
                        return Err(e);
                    },
                    Ok(instructions) => {
                        let name = block_name_string(&self.named_blocks[i].name);
                        proof {
                            assert(is_block_name(bv[i as int].name));
                        }
                        traces.push((name, instructions));
                    },
                }
            } else {
                assert(compared(bv.subrange(0, i + 1)) == prev);
            }
            i += 1;
        }
        assert(bv.subrange(0, i as int) =~= bv);
        Ok(traces)
    }
}

/// The name of a block, as a string.
fn block_name_string(name: &Vec<u8>) -> (s: String)
    requires
        is_block_name(name@),
    ensures
        s@ == ascii_chars(name@),
{
    let bytes = copy_name(name);
    assert forall|k: int| 0 <= k < bytes@.len() implies #[trigger] bytes@[k] < 128 by {
        assert(in_class(ByteClass::Name, name@[k]));
    }
    match string_from_utf8(bytes) {
        Ok(s) => s,
        Err(_) => String::new(),
    }
}

/// The compared blocks of a prefix of the file come first among those of
/// the whole file.
proof fn lemma_compared_prefix(bv: Seq<SpecBlock>, n: int)
    requires
        0 <= n <= bv.len(),
    ensures
        compared(bv.subrange(0, n)).len() <= compared(bv).len(),
        forall|j: int|
            0 <= j < compared(bv.subrange(0, n)).len() ==> #[trigger] compared(bv)[j] == compared(
                bv.subrange(0, n),
            )[j],
    decreases bv.len(),
{
    if n == bv.len() {
        assert(bv.subrange(0, n) =~= bv);
    } else {
        lemma_compared_prefix(bv.drop_last(), n);
        assert(bv.drop_last().subrange(0, n) =~= bv.subrange(0, n));
    }
}

/// The names that well-formed operations call are block names.
proof fn lemma_called_names_ops(ops: Seq<SpecOp>, name: Seq<u8>)
    requires
        ops_call(ops, name),
        ops_well_formed(ops),
    ensures
        is_block_name(name),
    decreases ops,
{
    if ops.len() > 0 {
        let prefix = ops.subrange(0, ops.len() - 1);
        if ops_call(prefix, name) {
            assert forall|i: int| 0 <= i < prefix.len() implies op_well_formed(#[trigger] prefix[i]) by {
                assert(prefix[i] == ops[i]);
            }
            lemma_called_names_ops(prefix, name);
        } else {
            assert(op_well_formed(ops[ops.len() - 1]));
            lemma_called_names_op(ops[ops.len() - 1], name);
        }
    }
}

proof fn lemma_called_names_op(o: SpecOp, name: Seq<u8>)
    requires
        op_calls(o, name),
        op_well_formed(o),
    ensures
        is_block_name(name),
    decreases o,
{
    match o {
        SpecOp::Loop { count, body } => lemma_called_names_ops(body, name),
        SpecOp::Switch { cases } => lemma_called_names_cases(cases, name),
        _ => {},
    }
}

proof fn lemma_called_names_cases(cases: Seq<SpecCase>, name: Seq<u8>)
    requires
        cases_call(cases, name),
        forall|i: int, j: int|
            0 <= i < cases.len() && 0 <= j < cases[i].body.len() ==> op_well_formed(
                #[trigger] cases[i].body[j],
            ),
    ensures
        is_block_name(name),
    decreases cases,
{
    if cases.len() > 0 {
        let prefix = cases.subrange(0, cases.len() - 1);
        if cases_call(prefix, name) {
            assert forall|i: int, j: int|
                0 <= i < prefix.len() && 0 <= j < prefix[i].body.len() implies op_well_formed(
                #[trigger] prefix[i].body[j],
            ) by {
                assert(prefix[i] == cases[i]);
            }
            lemma_called_names_cases(prefix, name);
        } else {
            let last = cases[cases.len() - 1];
            assert forall|j: int| 0 <= j < last.body.len() implies op_well_formed(#[trigger] last.body[j]) by {
                assert(op_well_formed(cases[cases.len() - 1].body[j]));
            }
            lemma_called_names_ops(last.body, name);
        }
    }
}

proof fn lemma_calls_defined_no_undefined(bs: Seq<SpecBlock>, ops: Seq<SpecOp>, n: Seq<u8>)
    requires
        ops_calls_defined(bs, ops),
        ops_call(ops, n),
    ensures
        defines(bs, n),
    decreases ops, 1int,
{
    if ops.len() > 0 {
        let prefix = ops.subrange(0, ops.len() - 1);
        if ops_call(prefix, n) {
            lemma_calls_defined_no_undefined(bs, prefix, n);
        } else {
            lemma_op_calls_defined_no_undefined(bs, ops[ops.len() - 1], n);
        }
    }
}

proof fn lemma_op_calls_defined_no_undefined(bs: Seq<SpecBlock>, o: SpecOp, n: Seq<u8>)
    requires
        op_calls_defined(bs, o),
        op_calls(o, n),
    ensures
        defines(bs, n),
    decreases o, 0int,
{
    match o {
        SpecOp::Loop { count, body } => lemma_calls_defined_no_undefined(bs, body, n),
        SpecOp::Switch { cases } => lemma_cases_calls_defined_no_undefined(bs, cases, n),
        _ => {},
    }
}

proof fn lemma_cases_calls_defined_no_undefined(bs: Seq<SpecBlock>, cases: Seq<SpecCase>, n: Seq<u8>)
    requires
        cases_calls_defined(bs, cases),
        cases_call(cases, n),
    ensures
        defines(bs, n),
    decreases cases, 1int,
{
    if cases.len() > 0 {
        let prefix = cases.subrange(0, cases.len() - 1);
        if cases_call(prefix, n) {
            lemma_cases_calls_defined_no_undefined(bs, prefix, n);
        } else {
            lemma_calls_defined_no_undefined(bs, cases[cases.len() - 1].body, n);
        }
    }
}

} // verus!
