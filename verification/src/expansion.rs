//! Unfolding a block of a trace file into the instructions it stands for.
//!
//! Ranges give their instructions, calls the instructions of the block they
//! name, loops their body the given number of times, and a switch the body
//! of one case picked by a random draw. Each trace draws from a generator
//! seeded with 0, so the numbers it draws depend only on the bounds it hands
//! the generator; `seeded_draw` names them.
use crate::syntax::{
    blocks_view, blocks_well_formed, cases_view, lemma_cases_view, lemma_ops_view, op_view,
    op_well_formed, ops_view, ops_well_formed, range_ok, NamedBlock, Op, SpecBlock, SpecCase, SpecOp, SwitchCase,
};
use crate::trace::{calls_resolve, cases_calls_defined, op_calls_defined, ops_calls_defined};
use rand::rngs::StdRng;
use rand::{Rng, SeedableRng};
use vstd::prelude::*;

verus! {

/// One instruction of a trace: its address and its length in bits.
#[derive(Debug, Clone, Copy, PartialEq, Eq, Structural)]
pub struct Instruction {
    pub address: usize,
    pub length: usize,
}

// ---------------------------------------------------------------------------
// Random draws
// ---------------------------------------------------------------------------

#[verifier::external_type_specification]
#[verifier::external_body]
pub struct ExStdRng(StdRng);

/// The number that a generator made by `StdRng::seed_from_u64(seed)` gives
/// from `random_range(0..=b)` for the last bound `b` of `bounds`, once it has
/// made one such draw for each earlier bound of `bounds`, in order. For the
/// version of rand this crate is built with, this depends on nothing else:
/// the generator is ChaCha12 and the sampling of a `usize` range is the same
/// on every platform.
pub uninterp spec fn seeded_draw(seed: u64, bounds: Seq<usize>) -> usize;

/// A random generator, with the seed it was started with and the bounds of
/// the draws it has made so far, in order.
struct Generator {
    rng: StdRng,
    seed: Ghost<u64>,
    made: Ghost<Seq<usize>>,
}

impl Generator {
    spec fn seed(&self) -> u64 {
        self.seed@
    }

    spec fn made(&self) -> Seq<usize> {
        self.made@
    }
}

/// `StdRng::seed_from_u64`: the generator that `seed` starts, which has made
/// no draw yet.
#[verifier::external_body]
fn seeded_generator(seed: u64) -> (g: Generator)
    ensures
        g.seed() == seed,
        g.made() == Seq::<usize>::empty(),
{
    Generator { rng: StdRng::seed_from_u64(seed), seed: Ghost(seed), made: Ghost(Seq::empty()) }
}

/// `Rng::random_range` over `0..=upper`: a number from 0 to `upper`, both
/// included, namely `seeded_draw` of the generator's seed and the bounds of
/// its draws so far followed by `upper`; `upper` joins those bounds.
#[verifier::external_body]
fn draw_at_most(g: &mut Generator, upper: usize) -> (r: usize)
    ensures
        r <= upper,
        r == seeded_draw(old(g).seed(), old(g).made().push(upper)),
        final(g).seed() == old(g).seed(),
        final(g).made() == old(g).made().push(upper),
{
    let r = g.rng.random_range(0..=upper);
    g.made = Ghost(g.made@.push(upper));
    r
}

/// Why unfolding a trace stopped.
#[derive(Debug, Clone, Copy, PartialEq, Eq, Structural)]
pub enum ExpansionError {
    /// Calls nest deeper than allowed.
    CallDepth,
    /// The weights of a switch that was reached add up to more than
    /// `usize::MAX`.
    WeightOverflow,
}

// ---------------------------------------------------------------------------
// Picking a case
// ---------------------------------------------------------------------------

/// The weights of the cases of a switch.
pub open spec fn case_weights(cases: Seq<SpecCase>) -> Seq<usize> {
    cases.map_values(|c: SpecCase| c.weight)
}

/// Case `j` comes before case `i` when the cases are put in order of
/// weight, equal weights keeping their order in the file.
pub open spec fn precedes(ws: Seq<usize>, j: int, i: int) -> bool {
    ws[j] < ws[i] || (ws[j] == ws[i] && j < i)
}

/// The sum of the weights among the first `n` that are case `i` or come
/// before it.
pub open spec fn weight_up_to(ws: Seq<usize>, i: int, n: int) -> int
    decreases n,
{
    if n <= 0 {
        0
    } else {
        weight_up_to(ws, i, n - 1) + if n - 1 == i || precedes(ws, n - 1, i) {
            ws[n - 1] as int
        } else {
            0
        }
    }
}

/// The running total of the weights, in order of weight, up to and
/// including case `i`.
pub open spec fn running_total(ws: Seq<usize>, i: int) -> int {
    weight_up_to(ws, i, ws.len() as int)
}

/// The sum of the first `n` weights.
pub open spec fn weight_sum(ws: Seq<usize>, n: int) -> int
    decreases n,
{
    if n <= 0 {
        0
    } else {
        weight_sum(ws, n - 1) + ws[n - 1] as int
    }
}

pub open spec fn total_weight(ws: Seq<usize>) -> int {
    weight_sum(ws, ws.len() as int)
}

/// Case `i` is the one that draw `d` picks: taking the cases in order of
/// weight, it is the first at which the running total reaches `d`.
pub open spec fn is_pick(ws: Seq<usize>, d: int, i: int) -> bool {
    &&& 0 <= i < ws.len()
    &&& running_total(ws, i) >= d
    &&& forall|j: int| 0 <= j < ws.len() && precedes(ws, j, i) ==> running_total(ws, j) < d
}

/// The case that draw `d` picks, if any.
pub open spec fn pick(ws: Seq<usize>, d: int) -> Option<int> {
    if exists|i: int| is_pick(ws, d, i) {
        Some(choose|i: int| is_pick(ws, d, i))
    } else {
        None
    }
}

/// A draw picks at most one case.
pub proof fn law_draw_picks_at_most_one_case(ws: Seq<usize>, d: int, i: int, k: int)
    requires
        is_pick(ws, d, i),
        is_pick(ws, d, k),
    ensures
        i == k,
{
    if i != k {
        if precedes(ws, i, k) {
            assert(running_total(ws, i) < d);
        } else {
            assert(precedes(ws, k, i));
            assert(running_total(ws, k) < d);
        }
    }
}

proof fn lemma_weight_up_to_bounded(ws: Seq<usize>, i: int, n: int)
    requires
        n <= ws.len(),
    ensures
        0 <= weight_up_to(ws, i, n) <= weight_sum(ws, n),
    decreases n,
{
    if n > 0 {
        lemma_weight_up_to_bounded(ws, i, n - 1);
    }
}

/// Every draw up to the total weight picks a case.
pub proof fn law_draw_within_total_picks_a_case(ws: Seq<usize>, d: int)
    requires
        ws.len() > 0,
        d <= total_weight(ws),
    ensures
        pick(ws, d) is Some,
{
    // The last case in order of weight reaches the total.
    let last = choose_last(ws, ws.len() as int);
    lemma_last_reaches_total(ws, last, ws.len() as int);
    lemma_choose_last(ws, ws.len() as int);
    // Among the cases that reach `d`, one comes first.
    lemma_first_is_pick(ws, d, last);
}

/// A case among the first `n` that no other of them comes after.
spec fn choose_last(ws: Seq<usize>, n: int) -> int
    decreases n,
{
    if n <= 1 {
        0
    } else {
        let k = choose_last(ws, n - 1);
        if precedes(ws, k, n - 1) {
            n - 1
        } else {
            k
        }
    }
}

proof fn lemma_choose_last(ws: Seq<usize>, n: int)
    requires
        0 < n <= ws.len(),
    ensures
        0 <= choose_last(ws, n) < n,
        forall|j: int| 0 <= j < n && j != choose_last(ws, n) ==> precedes(ws, j, choose_last(ws, n)),
    decreases n,
{
    if n > 1 {
        lemma_choose_last(ws, n - 1);
        let k = choose_last(ws, n - 1);
        let m = choose_last(ws, n);
        assert forall|j: int| 0 <= j < n && j != m implies precedes(ws, j, m) by {
            if j != k && j < n - 1 {
                assert(precedes(ws, j, k));
            }
        }
    }
}

proof fn lemma_last_reaches_total(ws: Seq<usize>, last: int, n: int)
    requires
        last == choose_last(ws, ws.len() as int),
        0 <= n <= ws.len(),
        ws.len() > 0,
    ensures
        weight_up_to(ws, last, n) == weight_sum(ws, n),
    decreases n,
{
    lemma_choose_last(ws, ws.len() as int);
    if n > 0 {
        lemma_last_reaches_total(ws, last, n - 1);
    }
}

/// The first, in order of weight, of the cases among the first `n` that
/// reach `d`, given that `witness` does.
spec fn choose_first_reaching(ws: Seq<usize>, d: int, n: int, witness: int) -> int
    decreases n,
{
    if n <= 0 {
        witness
    } else {
        let k = choose_first_reaching(ws, d, n - 1, witness);
        if running_total(ws, n - 1) >= d && precedes(ws, n - 1, k) {
            n - 1
        } else {
            k
        }
    }
}

proof fn lemma_choose_first_reaching(ws: Seq<usize>, d: int, n: int, witness: int)
    requires
        0 <= n <= ws.len(),
        0 <= witness < ws.len(),
        running_total(ws, witness) >= d,
    ensures
        ({
            let k = choose_first_reaching(ws, d, n, witness);
            &&& 0 <= k < ws.len()
            &&& running_total(ws, k) >= d
            &&& forall|j: int|
                0 <= j < n && running_total(ws, j) >= d ==> j == k || !precedes(ws, j, k)
        }),
    decreases n,
{
    if n > 0 {
        lemma_choose_first_reaching(ws, d, n - 1, witness);
        let k = choose_first_reaching(ws, d, n - 1, witness);
        let k2 = choose_first_reaching(ws, d, n, witness);
        assert forall|j: int|
            0 <= j < n && running_total(ws, j) >= d implies j == k2 || !precedes(ws, j, k2) by {
            if j < n - 1 && k2 == n - 1 && precedes(ws, j, k2) {
                // j comes before n - 1, which comes before k: j comes before k.
                assert(precedes(ws, j, k));
            }
        }
    }
}

proof fn lemma_first_is_pick(ws: Seq<usize>, d: int, witness: int)
    requires
        0 <= witness < ws.len(),
        running_total(ws, witness) >= d,
    ensures
        is_pick(ws, d, choose_first_reaching(ws, d, ws.len() as int, witness)),
{
    lemma_choose_first_reaching(ws, d, ws.len() as int, witness);
}

} // verus!

verus! {

proof fn lemma_weight_sum_monotone(ws: Seq<usize>, k: int, n: int)
    requires
        0 <= k <= n <= ws.len(),
    ensures
        weight_sum(ws, k) <= weight_sum(ws, n),
    decreases n - k,
{
    if k < n {
        lemma_weight_sum_monotone(ws, k, n - 1);
    }
}

fn running_total_exec(weights: &Vec<usize>, i: usize) -> (t: usize)
    requires
        total_weight(weights@) <= usize::MAX,
        i < weights@.len(),
    ensures
        t == running_total(weights@, i as int),
{
    let n = weights.len();
    let mut acc: usize = 0;
    let mut k: usize = 0;
    while k < n
        invariant
            n == weights@.len(),
            i < n,
            k <= n,
            total_weight(weights@) <= usize::MAX,
            acc == weight_up_to(weights@, i as int, k as int),
        decreases n - k,
    {
        proof {
            lemma_weight_up_to_bounded(weights@, i as int, k + 1);
            lemma_weight_sum_monotone(weights@, k + 1, n as int);
        }
        if k == i || weights[k] < weights[i] || (weights[k] == weights[i] && k < i) {
            acc = acc + weights[k];
        }
        k += 1;
    }
    acc
}

/// The case that `draw` picks among cases of the given weights: in order
/// of weight, equal weights in file order, the first at which the running
/// total of weights reaches `draw`; `None` if the draw exceeds the total.
pub fn select_case(weights: &Vec<usize>, draw: usize) -> (r: Option<usize>)
    requires
        total_weight(weights@) <= usize::MAX,
    ensures
        match r {
            Some(i) => pick(weights@, draw as int) == Some(i as int),
            None => pick(weights@, draw as int) is None,
        },
{
    let ghost ws = weights@;
    let n = weights.len();
    let mut best: Option<usize> = None;
    let mut i: usize = 0;
    while i < n
        invariant
            n == ws.len(),
            ws == weights@,
            i <= n,
            total_weight(ws) <= usize::MAX,
            match best {
                Some(b) => {
                    &&& b < i
                    &&& running_total(ws, b as int) >= draw
                    &&& forall|j: int|
                        0 <= j < i && running_total(ws, j) >= draw ==> j == b || !precedes(
                            ws,
                            j,
                            b as int,
                        )
                },
                None => forall|j: int| 0 <= j < i ==> running_total(ws, j) < draw,
            },
        decreases n - i,
    {
        let t = running_total_exec(weights, i);
        if t >= draw {
            match best {
                None => {
                    best = Some(i);
                },
                Some(b) => {
                    if weights[i] < weights[b] || (weights[i] == weights[b] && i < b) {
                        assert forall|j: int|
                            0 <= j < i + 1 && running_total(ws, j) >= draw implies j == i
                            || !precedes(ws, j, i as int) by {
                            if j != i && precedes(ws, j, i as int) {
                                assert(precedes(ws, j, b as int));
                            }
                        }
                        best = Some(i);
                    }
                },
            }
        }
        i += 1;
    }
    match best {
        Some(b) => {
            assert(is_pick(ws, draw as int, b as int));
            let ghost k = choose|k: int| is_pick(ws, draw as int, k);
            proof {
                law_draw_picks_at_most_one_case(ws, draw as int, k, b as int);
            }
            Some(b)
        },
        None => None,
    }
}

} // verus!

verus! {

// ---------------------------------------------------------------------------
// The expansion, as mathematics
// ---------------------------------------------------------------------------

/// No two blocks share a name.
pub open spec fn names_distinct(blocks: Seq<SpecBlock>) -> bool {
    forall|i: int, j: int| 0 <= i < j < blocks.len() ==> blocks[i].name != blocks[j].name
}

/// The block called `name`, if there is one.
pub open spec fn lookup(blocks: Seq<SpecBlock>, name: Seq<u8>) -> Option<int> {
    if exists|k: int| 0 <= k < blocks.len() && blocks[k].name == name {
        Some(choose|k: int| 0 <= k < blocks.len() && blocks[k].name == name)
    } else {
        None
    }
}

/// The instructions of a range: from `start`, one every `length / 8`
/// addresses, up to but not including `end`.
pub open spec fn range_instructions(start: usize, length: usize, end: usize) -> Seq<Instruction> {
    let step = length as int / 8;
    Seq::new(
        ((end - start) / step) as nat,
        |k: int| Instruction { address: (start + k * step) as usize, length },
    )
}

/// `r` with `prefix` put in front of the instructions it holds.
pub open spec fn after_output(prefix: Seq<Instruction>, r: Option<(Seq<Instruction>, Seq<usize>)>) -> Option<
    (Seq<Instruction>, Seq<usize>),
> {
    match r {
        Some((out, made)) => Some((prefix + out, made)),
        None => None,
    }
}

/// The instructions of `ops` from the `i`-th on, drawing from the generator
/// started with `seed` that has already made draws with the bounds `made`,
/// together with the bounds of all its draws afterwards; `None` where calls
/// nest deeper than `depth`, a switch's weights overflow, or a draw picks no
/// case.
pub open spec fn expand_seq(
    blocks: Seq<SpecBlock>,
    ops: Seq<SpecOp>,
    i: int,
    seed: u64,
    made: Seq<usize>,
    depth: nat,
) -> Option<(Seq<Instruction>, Seq<usize>)>
    decreases depth, ops, 0int, ops.len() - i,
{
    if 0 <= i < ops.len() {
        match expand_op(blocks, ops[i], seed, made, depth) {
            None => None,
            Some((out, made2)) => after_output(out, expand_seq(blocks, ops, i + 1, seed, made2, depth)),
        }
    } else {
        Some((Seq::empty(), made))
    }
}

/// The instructions of one operation. A call goes one level deeper; a
/// switch draws a number up to its total weight and takes the case it
/// picks.
pub open spec fn expand_op(
    blocks: Seq<SpecBlock>,
    o: SpecOp,
    seed: u64,
    made: Seq<usize>,
    depth: nat,
) -> Option<(Seq<Instruction>, Seq<usize>)>
    decreases depth, o, 0int, 0int,
{
    match o {
        SpecOp::Range { start, length, end } => if range_ok(start, length, end) {
            Some((range_instructions(start, length, end), made))
        } else {
            None
        },
        SpecOp::Call { name } => if depth == 0 {
            None
        } else {
            match lookup(blocks, name) {
                Some(k) => if 0 <= k < blocks.len() {
                    expand_seq(blocks, blocks[k].ops, 0, seed, made, (depth - 1) as nat)
                } else {
                    None
                },
                None => None,
            }
        },
        SpecOp::Loop { count, body } => expand_loop(blocks, body, count as nat, seed, made, depth),
        SpecOp::Switch { cases } => {
            let total = total_weight(case_weights(cases));
            if total > usize::MAX {
                None
            } else {
                let made2 = made.push(total as usize);
                match pick(case_weights(cases), seeded_draw(seed, made2) as int) {
                    Some(k) => if 0 <= k < cases.len() {
                        expand_seq(blocks, cases[k].body, 0, seed, made2, depth)
                    } else {
                        None
                    },
                    None => None,
                }
            }
        },
    }
}

/// The instructions of `body` repeated `n` times.
pub open spec fn expand_loop(
    blocks: Seq<SpecBlock>,
    body: Seq<SpecOp>,
    n: nat,
    seed: u64,
    made: Seq<usize>,
    depth: nat,
) -> Option<(Seq<Instruction>, Seq<usize>)>
    decreases depth, body, n, 0int,
{
    if n == 0 {
        Some((Seq::empty(), made))
    } else {
        match expand_seq(blocks, body, 0, seed, made, depth) {
            None => None,
            Some((out, made2)) => after_output(
                out,
                expand_loop(blocks, body, (n - 1) as nat, seed, made2, depth),
            ),
        }
    }
}

/// Why the expansion of `ops` from the `i`-th on, as `expand_seq` has it,
/// stops: a call with no depth left, or a switch whose weights add up to
/// more than `usize::MAX`. `None` where it does not stop for either.
pub open spec fn failure_seq(
    blocks: Seq<SpecBlock>,
    ops: Seq<SpecOp>,
    i: int,
    seed: u64,
    made: Seq<usize>,
    depth: nat,
) -> Option<ExpansionError>
    decreases depth, ops, 0int, ops.len() - i,
{
    if 0 <= i < ops.len() {
        match expand_op(blocks, ops[i], seed, made, depth) {
            None => failure_op(blocks, ops[i], seed, made, depth),
            Some((out, made2)) => failure_seq(blocks, ops, i + 1, seed, made2, depth),
        }
    } else {
        None
    }
}

/// Why the expansion of `o` stops.
pub open spec fn failure_op(
    blocks: Seq<SpecBlock>,
    o: SpecOp,
    seed: u64,
    made: Seq<usize>,
    depth: nat,
) -> Option<ExpansionError>
    decreases depth, o, 0int, 0int,
{
    match o {
        SpecOp::Range { .. } => None,
        SpecOp::Call { name } => if depth == 0 {
            Some(ExpansionError::CallDepth)
        } else {
            match lookup(blocks, name) {
                Some(k) => if 0 <= k < blocks.len() {
                    failure_seq(blocks, blocks[k].ops, 0, seed, made, (depth - 1) as nat)
                } else {
                    None
                },
                None => None,
            }
        },
        SpecOp::Loop { count, body } => failure_loop(blocks, body, count as nat, seed, made, depth),
        SpecOp::Switch { cases } => {
            let total = total_weight(case_weights(cases));
            if total > usize::MAX {
                Some(ExpansionError::WeightOverflow)
            } else {
                let made2 = made.push(total as usize);
                match pick(case_weights(cases), seeded_draw(seed, made2) as int) {
                    Some(k) => if 0 <= k < cases.len() {
                        failure_seq(blocks, cases[k].body, 0, seed, made2, depth)
                    } else {
                        None
                    },
                    None => None,
                }
            }
        },
    }
}

/// Why the expansion of `body` repeated `n` times stops.
pub open spec fn failure_loop(
    blocks: Seq<SpecBlock>,
    body: Seq<SpecOp>,
    n: nat,
    seed: u64,
    made: Seq<usize>,
    depth: nat,
) -> Option<ExpansionError>
    decreases depth, body, n, 0int,
{
    if n == 0 {
        None
    } else {
        match expand_seq(blocks, body, 0, seed, made, depth) {
            None => failure_seq(blocks, body, 0, seed, made, depth),
            Some((out, made2)) => failure_loop(blocks, body, (n - 1) as nat, seed, made2, depth),
        }
    }
}

/// The instructions of a trace made of `ops`: unfolded with a generator
/// seeded with 0, nesting calls at most `depth` deep.
pub open spec fn trace_expansion(blocks: Seq<SpecBlock>, ops: Seq<SpecOp>, depth: nat) -> Option<
    Seq<Instruction>,
> {
    match expand_seq(blocks, ops, 0, 0, Seq::empty(), depth) {
        Some((out, made)) => Some(out),
        None => None,
    }
}

/// Why the trace made of `ops`, unfolded as `trace_expansion` has it, stops.
pub open spec fn trace_failure(blocks: Seq<SpecBlock>, ops: Seq<SpecOp>, depth: nat) -> Option<
    ExpansionError,
> {
    failure_seq(blocks, ops, 0, 0, Seq::empty(), depth)
}

proof fn lemma_ops_calls_defined(blocks: Seq<SpecBlock>, ops: Seq<SpecOp>, i: int)
    requires
        ops_calls_defined(blocks, ops),
        0 <= i < ops.len(),
    ensures
        op_calls_defined(blocks, ops[i]),
    decreases ops.len(),
{
    if i < ops.len() - 1 {
        lemma_ops_calls_defined(blocks, ops.subrange(0, ops.len() - 1), i);
    }
}

proof fn lemma_cases_calls_defined(blocks: Seq<SpecBlock>, cases: Seq<SpecCase>, i: int)
    requires
        cases_calls_defined(blocks, cases),
        0 <= i < cases.len(),
    ensures
        ops_calls_defined(blocks, cases[i].body),
    decreases cases.len(),
{
    if i < cases.len() - 1 {
        lemma_cases_calls_defined(blocks, cases.subrange(0, cases.len() - 1), i);
    }
}

} // verus!

verus! {

// ---------------------------------------------------------------------------
// The expansion, as a program
// ---------------------------------------------------------------------------

fn push_range(out: &mut Vec<Instruction>, start: usize, length: usize, end: usize)
    requires
        range_ok(start, length, end),
    ensures
        final(out)@ == old(out)@ + range_instructions(start, length, end),
{
    let step = length / 8;
    let ghost m: int = (end - start) / step as int;
    proof {
        vstd::arithmetic::div_mod::lemma_fundamental_div_mod((end - start) as int, step as int);
        assert(m >= 0) by (nonlinear_arith)
            requires
                m == (end - start) / step as int,
                step > 0,
                end > start,
        ;
    }
    let ghost old_out = out@;
    let mut addr = start;
    let ghost mut k: int = 0;
    while addr < end
        invariant
            step == length / 8,
            step > 0,
            start < end,
            end - start == step * m,
            m == (end - start) / (step as int),
            0 <= k <= m,
            addr == start + k * step,
            out@ == old_out + range_instructions(start, length, end).take(k),
        decreases end - addr,
    {
        assert(k < m) by (nonlinear_arith)
            requires
                start + k * step < end,
                end - start == step * m,
                step > 0,
        ;
        assert(addr + step <= end) by (nonlinear_arith)
            requires
                addr == start + k * step,
                k < m,
                end - start == step * m,
                step > 0,
        ;
        let ghost ri = range_instructions(start, length, end);
        assert(length as int / 8 == step as int);
        assert((end - start) / (length as int / 8) == m);
        assert(ri.len() == m);
        assert(ri[k] == Instruction { address: addr, length });
        out.push(Instruction { address: addr, length });
        assert(range_instructions(start, length, end).take(k + 1) =~= range_instructions(
            start,
            length,
            end,
        ).take(k).push(Instruction { address: addr, length }));
        addr = addr + step;
        proof {
            k = k + 1;
        }
        assert(addr == start + k * step) by (nonlinear_arith)
            requires
                addr == start + (k - 1) * step + step,
        ;
    }
    assert(k == m) by (nonlinear_arith)
        requires
            start + k * step >= end,
            end - start == step * m,
            step > 0,
            k <= m,
    ;
    assert(range_instructions(start, length, end).take(k) =~= range_instructions(
        start,
        length,
        end,
    ));
}

pub(crate) fn bytes_eq(a: &Vec<u8>, b: &Vec<u8>) -> (r: bool)
    ensures
        r == (a@ == b@),
{
    if a.len() != b.len() {
        return false;
    }
    let mut i: usize = 0;
    while i < a.len()
        invariant
            a@.len() == b@.len(),
            i <= a@.len(),
            forall|k: int| 0 <= k < i ==> a@[k] == b@[k],
        decreases a@.len() - i,
    {
        if a[i] != b[i] {
            return false;
        }
        i += 1;
    }
    assert(a@ =~= b@);
    true
}

/// Finds the block called `name`.
pub fn find_block(blocks: &Vec<NamedBlock>, name: &Vec<u8>) -> (r: Option<usize>)
    ensures
        match r {
            Some(k) => k < blocks@.len() && blocks@[k as int].name@ == name@,
            None => forall|k: int| 0 <= k < blocks@.len() ==> blocks@[k].name@ != name@,
        },
{
    let mut k: usize = 0;
    while k < blocks.len()
        invariant
            k <= blocks@.len(),
            forall|j: int| 0 <= j < k ==> blocks@[j].name@ != name@,
        decreases blocks@.len() - k,
    {
        if bytes_eq(&blocks[k].name, name) {
            return Some(k);
        }
        k += 1;
    }
    None
}

fn weights_of(cases: &Vec<SwitchCase>) -> (ws: Vec<usize>)
    ensures
        ws@ == case_weights(cases_view(cases@)),
{
    proof {
        lemma_cases_view(cases@);
    }
    let mut ws: Vec<usize> = Vec::new();
    let mut i: usize = 0;
    while i < cases.len()
        invariant
            i <= cases@.len(),
            cases_view(cases@).len() == cases@.len(),
            ws@.len() == i,
            forall|k: int| 0 <= k < i ==> ws@[k] == cases@[k].weight,
        decreases cases@.len() - i,
    {
        ws.push(cases[i].weight);
        i += 1;
    }
    assert(ws@ =~= case_weights(cases_view(cases@)));
    ws
}

/// A run of an expansion went as `expected` and `failure` say: on success
/// it added these instructions and left the generator with the bounds
/// `made` of its draws; on an error, it stopped for that reason.
pub open spec fn ran_as(
    expected: Option<(Seq<Instruction>, Seq<usize>)>,
    failure: Option<ExpansionError>,
    r: Result<(), ExpansionError>,
    added: Seq<Instruction>,
    made: Seq<usize>,
) -> bool {
    match r {
        Ok(()) => expected == Some((added, made)),
        Err(e) => expected is None && failure == Some(e),
    }
}

fn expand_seq_exec(
    blocks: &Vec<NamedBlock>,
    ops: &Vec<Op>,
    depth: usize,
    g: &mut Generator,
    out: &mut Vec<Instruction>,
) -> (r: Result<(), ExpansionError>)
    requires
        names_distinct(blocks_view(blocks@)),
        calls_resolve(blocks_view(blocks@)),
        blocks_well_formed(blocks_view(blocks@)),
        ops_calls_defined(blocks_view(blocks@), ops_view(ops@)),
        ops_well_formed(ops_view(ops@)),
    ensures
        final(g).seed() == old(g).seed(),
        old(out)@.len() <= final(out)@.len(),
        final(out)@.subrange(0, old(out)@.len() as int) == old(out)@,
        ran_as(
            expand_seq(blocks_view(blocks@), ops_view(ops@), 0, old(g).seed(), old(g).made(), depth as nat),
            failure_seq(blocks_view(blocks@), ops_view(ops@), 0, old(g).seed(), old(g).made(), depth as nat),
            r,
            final(out)@.subrange(old(out)@.len() as int, final(out)@.len() as int),
            final(g).made(),
        ),
    decreases depth, ops@, 1int,
{
    let ghost bv = blocks_view(blocks@);
    let ghost ov = ops_view(ops@);
    let ghost start = out@.len();
    let ghost old_out = out@;
    let ghost seed = g.seed();
    let ghost made0 = g.made();
    proof {
        lemma_ops_view(ops@);
    }
    let mut i: usize = 0;
    while i < ops.len()
        invariant
            bv == blocks_view(blocks@),
            ov == ops_view(ops@),
            ov.len() == ops@.len(),
            forall|k: int| 0 <= k < ops@.len() ==> #[trigger] ov[k] == op_view(ops@[k]),
            names_distinct(bv),
            calls_resolve(bv),
            blocks_well_formed(bv),
            ops_calls_defined(bv, ov),
            ops_well_formed(ov),
            i <= ops@.len(),
            g.seed() == seed,
            seed == old(g).seed(),
            made0 == old(g).made(),
            start == old(out)@.len(),
            old_out == old(out)@,
            start <= out@.len(),
            out@.subrange(0, start as int) == old_out,
            expand_seq(bv, ov, 0, seed, made0, depth as nat) == after_output(
                out@.subrange(start as int, out@.len() as int),
                expand_seq(bv, ov, i as int, seed, g.made(), depth as nat),
            ),
            failure_seq(bv, ov, 0, seed, made0, depth as nat) == failure_seq(
                bv,
                ov,
                i as int,
                seed,
                g.made(),
                depth as nat,
            ),
        decreases ops@.len() - i,
    {
        proof {
            lemma_ops_calls_defined(bv, ov, i as int);
        }
        let ghost before = out@;
        let ghost made_before = g.made();
        let res = expand_op_exec(blocks, &ops[i], depth, g, out);
        let ghost produced = before.subrange(start as int, before.len() as int);
        let ghost added = out@.subrange(before.len() as int, out@.len() as int);
        assert(out@.subrange(0, start as int) =~= old_out) by {
            assert(out@.subrange(0, before.len() as int).subrange(0, start as int) =~= out@.subrange(
                0,
                start as int,
            ));
        }
        match res {
            Err(e) => {
                assert(expand_op(bv, ov[i as int], seed, made_before, depth as nat) is None);
                return Err(e);
            },
            Ok(()) => {},
        }
        assert(out@.subrange(start as int, out@.len() as int) =~= produced + added);
        assert(expand_op(bv, ov[i as int], seed, made_before, depth as nat) == Some((added, g.made())));
        proof {
            match expand_seq(bv, ov, i + 1, seed, g.made(), depth as nat) {
                Some((o2, t2)) => {
                    assert(produced + (added + o2) =~= (produced + added) + o2);
                },
                None => {},
            }
        }
        i += 1;
    }
    assert(out@.subrange(start as int, out@.len() as int) + Seq::<Instruction>::empty()
        =~= out@.subrange(start as int, out@.len() as int));
    Ok(())
}

fn expand_op_exec(
    blocks: &Vec<NamedBlock>,
    o: &Op,
    depth: usize,
    g: &mut Generator,
    out: &mut Vec<Instruction>,
) -> (r: Result<(), ExpansionError>)
    requires
        names_distinct(blocks_view(blocks@)),
        calls_resolve(blocks_view(blocks@)),
        blocks_well_formed(blocks_view(blocks@)),
        op_calls_defined(blocks_view(blocks@), op_view(*o)),
        op_well_formed(op_view(*o)),
    ensures
        final(g).seed() == old(g).seed(),
        old(out)@.len() <= final(out)@.len(),
        final(out)@.subrange(0, old(out)@.len() as int) == old(out)@,
        ran_as(
            expand_op(blocks_view(blocks@), op_view(*o), old(g).seed(), old(g).made(), depth as nat),
            failure_op(blocks_view(blocks@), op_view(*o), old(g).seed(), old(g).made(), depth as nat),
            r,
            final(out)@.subrange(old(out)@.len() as int, final(out)@.len() as int),
            final(g).made(),
        ),
    decreases depth, *o, 0int,
{
    let ghost bv = blocks_view(blocks@);
    let ghost old_out = out@;
    let ghost seed = g.seed();
    let ghost made0 = g.made();
    match o {
        Op::Range { addr_start, instr_length, addr_end } => {
            assert(op_view(*o) == SpecOp::Range {
                start: *addr_start,
                length: *instr_length,
                end: *addr_end,
            });
            // The range passed its checks when the file was parsed.
            push_range(out, *addr_start, *instr_length, *addr_end);
            assert(out@.subrange(0, old_out.len() as int) =~= old_out);
            assert(out@.subrange(old_out.len() as int, out@.len() as int) =~= range_instructions(
                *addr_start,
                *instr_length,
                *addr_end,
            ));
            Ok(())
        },
        Op::BlockCall { block_name } => {
            assert(op_view(*o) == SpecOp::Call { name: block_name@ });
            if depth == 0 {
                assert(out@.subrange(0, old_out.len() as int) =~= old_out);
                return Err(ExpansionError::CallDepth);
            }
            match find_block(blocks, block_name) {
                None => {
                    // Every call names a block: this cannot happen.
                    assert(out@.subrange(0, old_out.len() as int) =~= old_out);
                    Err(ExpansionError::CallDepth)
                },
                Some(k) => {
                    assert(bv[k as int].ops == ops_view(blocks@[k as int].ops@));
                    assert(ops_calls_defined(bv, bv[k as int].ops));
                    assert(ops_well_formed(bv[k as int].ops));
                    let res = expand_seq_exec(blocks, &blocks[k].ops, depth - 1, g, out);
                    proof {
                        assert(bv[k as int].name == block_name@);
                        let kk = choose|kk: int| 0 <= kk < bv.len() && bv[kk].name == block_name@;
                        assert(bv[kk].name == bv[k as int].name);
                        assert(kk == k);
                    }
                    res
                },
            }
        },
        Op::Loop { count, block } => {
            assert(op_view(*o) == SpecOp::Loop { count: *count, body: ops_view(block.ops@) });
            assert(ops_well_formed(ops_view(block.ops@)));
            expand_loop_exec(blocks, &block.ops, *count, depth, g, out)
        },
        Op::Switch { cases } => {
            let ghost cv = cases_view(cases@);
            proof {
                lemma_cases_view(cases@);
            }
            let ws = weights_of(cases);
            assert(op_view(*o) == SpecOp::Switch { cases: cv });
            let total = match checked_total(&ws) {
                Some(t) => t,
                None => {
                    assert(out@.subrange(0, old_out.len() as int) =~= old_out);
                    return Err(ExpansionError::WeightOverflow);
                },
            };
            let d = draw_at_most(g, total);
            proof {
                // A switch has a case, and the draw is at most the total: it picks one.
                law_draw_within_total_picks_a_case(ws@, d as int);
            }
            match select_case(&ws, d) {
                None => {
                    // The draw picks a case: this cannot happen.
                    assert(out@.subrange(0, old_out.len() as int) =~= old_out);
                    Err(ExpansionError::WeightOverflow)
                },
                Some(k) => {
                    proof {
                        lemma_cases_calls_defined(bv, cv, k as int);
                    }
                    assert(cv[k as int].body == ops_view(cases@[k as int].block.ops@));
                    assert(ops_well_formed(cv[k as int].body));
                    expand_seq_exec(blocks, &cases[k].block.ops, depth, g, out)
                },
            }
        },
    }
}

fn expand_loop_exec(
    blocks: &Vec<NamedBlock>,
    ops: &Vec<Op>,
    count: usize,
    depth: usize,
    g: &mut Generator,
    out: &mut Vec<Instruction>,
) -> (r: Result<(), ExpansionError>)
    requires
        names_distinct(blocks_view(blocks@)),
        calls_resolve(blocks_view(blocks@)),
        blocks_well_formed(blocks_view(blocks@)),
        ops_calls_defined(blocks_view(blocks@), ops_view(ops@)),
        ops_well_formed(ops_view(ops@)),
    ensures
        final(g).seed() == old(g).seed(),
        old(out)@.len() <= final(out)@.len(),
        final(out)@.subrange(0, old(out)@.len() as int) == old(out)@,
        ran_as(
            expand_loop(blocks_view(blocks@), ops_view(ops@), count as nat, old(g).seed(), old(g).made(), depth as nat),
            failure_loop(blocks_view(blocks@), ops_view(ops@), count as nat, old(g).seed(), old(g).made(), depth as nat),
            r,
            final(out)@.subrange(old(out)@.len() as int, final(out)@.len() as int),
            final(g).made(),
        ),
    decreases depth, ops@, 2int,
{
    let ghost bv = blocks_view(blocks@);
    let ghost body = ops_view(ops@);
    let ghost old_out = out@;
    let ghost seed = g.seed();
    let ghost made0 = g.made();
    let mut c: usize = 0;
    while c < count
        invariant
            bv == blocks_view(blocks@),
            body == ops_view(ops@),
            names_distinct(bv),
            calls_resolve(bv),
            blocks_well_formed(bv),
            ops_calls_defined(bv, body),
            ops_well_formed(body),
            c <= count,
            g.seed() == seed,
            seed == old(g).seed(),
            made0 == old(g).made(),
            old_out == old(out)@,
            old_out.len() <= out@.len(),
            out@.subrange(0, old_out.len() as int) == old_out,
            expand_loop(bv, body, count as nat, seed, made0, depth as nat) == after_output(
                out@.subrange(old_out.len() as int, out@.len() as int),
                expand_loop(bv, body, (count - c) as nat, seed, g.made(), depth as nat),
            ),
            failure_loop(bv, body, count as nat, seed, made0, depth as nat) == failure_loop(
                bv,
                body,
                (count - c) as nat,
                seed,
                g.made(),
                depth as nat,
            ),
        decreases count - c,
    {
        let ghost before = out@;
        let ghost made_before = g.made();
        let res = expand_seq_exec(blocks, ops, depth, g, out);
        let ghost produced = before.subrange(old_out.len() as int, before.len() as int);
        let ghost added = out@.subrange(before.len() as int, out@.len() as int);
        assert(out@.subrange(0, old_out.len() as int) =~= old_out) by {
            assert(out@.subrange(0, before.len() as int).subrange(0, old_out.len() as int)
                =~= out@.subrange(0, old_out.len() as int));
        }
        match res {
            Err(e) => {
                assert(expand_seq(bv, body, 0, seed, made_before, depth as nat) is None);
                return Err(e);
            },
            Ok(()) => {},
        }
        assert(out@.subrange(old_out.len() as int, out@.len() as int) =~= produced + added);
        assert(expand_seq(bv, body, 0, seed, made_before, depth as nat) == Some((added, g.made())));
        proof {
            match expand_loop(bv, body, (count - (c + 1)) as nat, seed, g.made(), depth as nat) {
                Some((o2, t2)) => {
                    assert(produced + (added + o2) =~= (produced + added) + o2);
                },
                None => {},
            }
        }
        c += 1;
    }
    assert(out@.subrange(old_out.len() as int, out@.len() as int) + Seq::<Instruction>::empty()
        =~= out@.subrange(old_out.len() as int, out@.len() as int));
    Ok(())
}

/// The sum of `ws`, or `None` where it exceeds `usize::MAX`.
fn checked_total(ws: &Vec<usize>) -> (t: Option<usize>)
    ensures
        match t {
            Some(v) => v == total_weight(ws@),
            None => total_weight(ws@) > usize::MAX,
        },
{
    let mut acc: usize = 0;
    let mut k: usize = 0;
    while k < ws.len()
        invariant
            k <= ws@.len(),
            acc == weight_sum(ws@, k as int),
        decreases ws@.len() - k,
    {
        match acc.checked_add(ws[k]) {
            Some(v) => acc = v,
            None => {
                proof {
                    lemma_weight_sum_monotone(ws@, k + 1, ws@.len() as int);
                }
                return None;
            },
        }
        k += 1;
    }
    Some(acc)
}

} // verus!

verus! {

/// Expands the operations of block `index` into instructions, drawing from
/// a generator seeded with 0 and handing it each switch's total weight as
/// bound, and nesting calls at most `max_depth` deep: exactly
/// `trace_expansion`, or the error `trace_failure` gives.
pub fn expand_block(blocks: &Vec<NamedBlock>, index: usize, max_depth: usize) -> (r: Result<
    Vec<Instruction>,
    ExpansionError,
>)
    requires
        names_distinct(blocks_view(blocks@)),
        calls_resolve(blocks_view(blocks@)),
        blocks_well_formed(blocks_view(blocks@)),
        index < blocks@.len(),
    ensures
        match r {
            Ok(v) => trace_expansion(
                blocks_view(blocks@),
                blocks_view(blocks@)[index as int].ops,
                max_depth as nat,
            ) == Some(v@),
            Err(e) => trace_expansion(
                blocks_view(blocks@),
                blocks_view(blocks@)[index as int].ops,
                max_depth as nat,
            ) is None && trace_failure(
                blocks_view(blocks@),
                blocks_view(blocks@)[index as int].ops,
                max_depth as nat,
            ) == Some(e),
        },
{
    let ghost bv = blocks_view(blocks@);
    assert(bv[index as int].ops == ops_view(blocks@[index as int].ops@));
    assert(ops_calls_defined(bv, bv[index as int].ops));
    assert(ops_well_formed(bv[index as int].ops));
    let mut g = seeded_generator(0);
    let mut out: Vec<Instruction> = Vec::new();
    let res = expand_seq_exec(blocks, &blocks[index].ops, max_depth, &mut g, &mut out);
    assert(out@.subrange(0, out@.len() as int) =~= out@);
    match res {
        Ok(()) => Ok(out),
        Err(e) => Err(e),
    }
}

} // verus!

verus! {

/// A range's instructions cover it exactly: there are `(end - start) / (length / 8)`
/// of them, the `k`-th at `start + k * (length / 8)`, all from `start` up to
/// but not including `end`, and all of the range's instruction length.
pub proof fn law_range_covers_its_addresses(start: usize, length: usize, end: usize)
    requires
        range_ok(start, length, end),
    ensures
        ({
            let ri = range_instructions(start, length, end);
            let step = length as int / 8;
            &&& ri.len() * step == end - start
            &&& forall|k: int|
                0 <= k < ri.len() ==> {
                    &&& #[trigger] ri[k].address == start + k * step
                    &&& start <= ri[k].address < end
                    &&& ri[k].length == length
                }
        }),
{
    let ri = range_instructions(start, length, end);
    let step = length as int / 8;
    let m = (end - start) / step;
    vstd::arithmetic::div_mod::lemma_fundamental_div_mod((end - start) as int, step);
    assert(m * step == end - start);
    assert forall|k: int| 0 <= k < ri.len() implies {
        &&& #[trigger] ri[k].address == start + k * step
        &&& start <= ri[k].address < end
        &&& ri[k].length == length
    } by {
        assert(0 <= k * step < m * step) by (nonlinear_arith)
            requires
                0 <= k < m,
                step > 0,
        ;
    }
}

/// A draw of 0 picks a case of least weight, the first in the file among
/// cases of that weight.
pub proof fn law_draw_zero_picks_a_lightest_case(ws: Seq<usize>, k: int)
    requires
        pick(ws, 0) == Some(k),
    ensures
        0 <= k < ws.len(),
        forall|j: int| 0 <= j < ws.len() ==> ws[k] < ws[j] || (ws[k] == ws[j] && k <= j),
{
    assert(exists|i: int| is_pick(ws, 0, i));
    assert(is_pick(ws, 0, k));
    assert forall|j: int| 0 <= j < ws.len() implies ws[k] < ws[j] || (ws[k] == ws[j] && k <= j) by {
        if !(ws[k] < ws[j] || (ws[k] == ws[j] && k <= j)) {
            assert(precedes(ws, j, k));
            lemma_weight_up_to_bounded(ws, j, ws.len() as int);
            assert(running_total(ws, j) >= 0);
        }
    }
}

/// A larger draw never picks a lighter case: the cases are taken in order
/// of weight as the draw grows.
pub proof fn law_larger_draw_picks_no_lighter_case(ws: Seq<usize>, d1: int, d2: int, k1: int, k2: int)
    requires
        d1 <= d2,
        pick(ws, d1) == Some(k1),
        pick(ws, d2) == Some(k2),
    ensures
        ws[k1] <= ws[k2],
        ws[k1] == ws[k2] ==> k1 <= k2,
{
    assert(exists|i: int| is_pick(ws, d1, i));
    assert(exists|i: int| is_pick(ws, d2, i));
    assert(is_pick(ws, d1, k1));
    assert(is_pick(ws, d2, k2));
    if ws[k2] < ws[k1] || (ws[k2] == ws[k1] && k2 < k1) {
        assert(precedes(ws, k2, k1));
        assert(running_total(ws, k2) < d1);
        assert(running_total(ws, k2) >= d2);
    }
}

/// A switch yields the instructions of the case its draw picks, and of no
/// other case: the draw is the generator's next number, with the switch's
/// total weight as bound.
pub proof fn law_switch_takes_the_picked_case(
    blocks: Seq<SpecBlock>,
    cases: Seq<SpecCase>,
    seed: u64,
    made: Seq<usize>,
    depth: nat,
    k: int,
)
    requires
        total_weight(case_weights(cases)) <= usize::MAX,
        pick(
            case_weights(cases),
            seeded_draw(seed, made.push(total_weight(case_weights(cases)) as usize)) as int,
        ) == Some(k),
    ensures
        0 <= k < cases.len(),
        expand_op(blocks, SpecOp::Switch { cases }, seed, made, depth) == expand_seq(
            blocks,
            cases[k].body,
            0,
            seed,
            made.push(total_weight(case_weights(cases)) as usize),
            depth,
        ),
        failure_op(blocks, SpecOp::Switch { cases }, seed, made, depth) == failure_seq(
            blocks,
            cases[k].body,
            0,
            seed,
            made.push(total_weight(case_weights(cases)) as usize),
            depth,
        ),
{
    let ws = case_weights(cases);
    let d = seeded_draw(seed, made.push(total_weight(ws) as usize)) as int;
    assert(exists|i: int| is_pick(ws, d, i));
    assert(is_pick(ws, d, k));
}

/// `o` repeated `n` times.
pub open spec fn repeated(o: Seq<Instruction>, n: nat) -> Seq<Instruction>
    decreases n,
{
    if n == 0 {
        Seq::empty()
    } else {
        o + repeated(o, (n - 1) as nat)
    }
}

/// `o` repeated `n` times holds `n` times as many instructions, the `k`-th
/// being the `k % o.len()`-th of `o`.
pub proof fn law_repeated_length(o: Seq<Instruction>, n: nat)
    ensures
        repeated(o, n).len() == n * o.len(),
        forall|k: int| 0 <= k < repeated(o, n).len() ==> #[trigger] repeated(o, n)[k] == o[k % o.len() as int],
    decreases n,
{
    if n > 0 {
        law_repeated_length(o, (n - 1) as nat);
        let r = repeated(o, (n - 1) as nat);
        assert(repeated(o, n).len() == n * o.len()) by (nonlinear_arith)
            requires
                repeated(o, n).len() == o.len() + r.len(),
                r.len() == (n - 1) * o.len(),
        ;
        assert forall|k: int| 0 <= k < repeated(o, n).len() implies #[trigger] repeated(o, n)[k] == o[k
            % o.len() as int] by {
            let m = o.len() as int;
            if k < m {
                vstd::arithmetic::div_mod::lemma_small_mod(k as nat, m as nat);
            } else {
                assert(repeated(o, n)[k] == r[k - m]);
                vstd::arithmetic::div_mod::lemma_mod_add_multiples_vanish(k - m, m);
                assert(m + (k - m) == k);
            }
        }
    } else {
        assert(n * o.len() == 0) by (nonlinear_arith)
            requires
                n == 0,
        ;
    }
}

/// A loop runs its body as many times as its count says. Where the body
/// unfolds to `o` without drawing, a loop of count `n` unfolds to `o`
/// repeated `n` times.
pub proof fn law_loop_repeats_its_body(
    blocks: Seq<SpecBlock>,
    count: usize,
    body: Seq<SpecOp>,
    seed: u64,
    made: Seq<usize>,
    depth: nat,
    o: Seq<Instruction>,
)
    requires
        forall|h: Seq<usize>| #[trigger] expand_seq(blocks, body, 0, seed, h, depth) == Some((o, h)),
    ensures
        expand_op(blocks, SpecOp::Loop { count, body }, seed, made, depth) == Some(
            (repeated(o, count as nat), made),
        ),
{
    lemma_loop_repeats(blocks, body, count as nat, seed, made, depth, o);
}

proof fn lemma_loop_repeats(
    blocks: Seq<SpecBlock>,
    body: Seq<SpecOp>,
    n: nat,
    seed: u64,
    made: Seq<usize>,
    depth: nat,
    o: Seq<Instruction>,
)
    requires
        forall|h: Seq<usize>| #[trigger] expand_seq(blocks, body, 0, seed, h, depth) == Some((o, h)),
    ensures
        expand_loop(blocks, body, n, seed, made, depth) == Some((repeated(o, n), made)),
    decreases n,
{
    if n > 0 {
        lemma_loop_repeats(blocks, body, (n - 1) as nat, seed, made, depth, o);
        assert(expand_seq(blocks, body, 0, seed, made, depth) == Some((o, made)));
    }
}

} // verus!
