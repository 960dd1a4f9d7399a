//! Running the traces of a trace file through a cache and counting hits and
//! misses.
use crate::expansion::{trace_expansion, ExpansionError, Instruction};
use crate::lru::{cache_after_run, empty_cache, hits_in_run, set_index, LruCache};
use crate::simulation_result::{describe_hit, hit_text};
use crate::syntax::{parse_blocks, SpecBlock};
use crate::trace::{
    ascii_chars, compared, file_accepted, refused_as, some_trace_stops, TraceFile, TraceParseError,
};
use vstd::prelude::*;
use vstd::string::StringSliceAdditionalSpecFns;

verus! {

/// Whether a lookup found its line, and on a miss the address of the line
/// it evicted, if any.
#[derive(Debug, Copy, Clone, PartialEq, Eq, Structural)]
pub enum CacheHit {
    Hit,
    Miss { prev: Option<usize> },
}

impl CacheHit {
    /// The outcome as text: `Hit`, `Miss`, or `Miss prev=` and the evicted
    /// address in upper-case hexadecimal with `0x` in front.
    pub fn describe(&self) -> (s: String)
        ensures
            s@ == ascii_chars(
                match self {
                    CacheHit::Hit => hit_text(true, None),
                    CacheHit::Miss { prev } => hit_text(false, *prev),
                },
            ),
    {
        match self {
            CacheHit::Hit => describe_hit(true, None),
            CacheHit::Miss { prev } => describe_hit(false, *prev),
        }
    }
}

/// Why a simulation did not run to the end.
#[derive(Debug, Clone)]
pub enum SimulationError {
    /// The trace file was refused.
    Parse(TraceParseError),
    /// A switch that a trace reached has weights that add up to more than
    /// `usize::MAX`.
    WeightOverflow,
    /// Unfolding a trace nested calls deeper than allowed.
    CallDepth,
    /// A trace has more instructions than a `u32` counts.
    TooManyInstructions,
    /// An address falls in a set that the cache does not have.
    SetOutOfRange { address: usize },
}

/// The addresses of `instructions`, in order.
pub open spec fn addresses(instructions: Seq<Instruction>) -> Seq<usize> {
    instructions.map_values(|i: Instruction| i.address)
}

/// The result of one trace: its name and how its lookups went.
#[derive(Debug, Clone)]
pub struct Simulation<const CLOCK_SPEED_MHZ: u32, const CYCLES_HIT: u32, const CYCLES_MISS: u32> {
    name: String,
    hit_count: u32,
    miss_count: u32,
}

impl<const CLOCK_SPEED_MHZ: u32, const CYCLES_HIT: u32, const CYCLES_MISS: u32> Simulation<
    CLOCK_SPEED_MHZ,
    CYCLES_HIT,
    CYCLES_MISS,
> {
    pub closed spec fn spec_name(&self) -> Seq<char> {
        self.name@
    }

    pub closed spec fn spec_hits(&self) -> u32 {
        self.hit_count
    }

    pub closed spec fn spec_misses(&self) -> u32 {
        self.miss_count
    }

    /// This is the result of running `instructions` through an empty cache
    /// of `SETS` sets of `LINES` ways of `LINE_SIZE` bytes, for a trace
    /// called `name`.
    pub open spec fn counts(
        &self,
        name: Seq<u8>,
        instructions: Seq<Instruction>,
        sets: nat,
        lines: nat,
        line_size: nat,
    ) -> bool {
        &&& self.spec_name() == ascii_chars(name)
        &&& self.spec_hits() == hits_in_run(
            empty_cache(sets, lines),
            addresses(instructions),
            line_size as int,
            lines as int,
        )
        &&& self.spec_hits() + self.spec_misses() == instructions.len()
    }

    /// `sim` is the result of the trace of block `b`: it counts the lookups
    /// of the instructions that block unfolds to.
    pub open spec fn result_of(
        sim: Self,
        b: SpecBlock,
        blocks: Seq<SpecBlock>,
        depth: nat,
        sets: nat,
        lines: nat,
        line_size: nat,
    ) -> bool {
        match trace_expansion(blocks, b.ops, depth) {
            Some(instructions) => sim.counts(b.name, instructions, sets, lines, line_size),
            None => false,
        }
    }

    /// How a run of the traces of `blocks` leaves the cache: as it was where
    /// there is no trace, else holding what the last trace's lookups left in
    /// a cache that started empty.
    pub open spec fn leaves_cache<const SIZE: usize, const SETS: usize, const LINES: usize, const LINE_SIZE: usize>(
        before: LruCache<'_, SIZE, SETS, LINES, LINE_SIZE>,
        after: LruCache<'_, SIZE, SETS, LINES, LINE_SIZE>,
        blocks: Seq<SpecBlock>,
        depth: nat,
    ) -> bool {
        let traces = compared(blocks);
        if traces.len() == 0 {
            after == before
        } else {
            after.slots() == cache_after_run(
                empty_cache(SETS as nat, LINES as nat),
                addresses(trace_expansion(blocks, traces.last().ops, depth)->0),
                LINE_SIZE as int,
                LINES as int,
            )
        }
    }

    /// Two runs of the same trace file give the same results: the name and
    /// the counts of each trace are fixed by the file, the bound on call
    /// depth and the shape of the cache, whatever the cache held before.
    pub proof fn law_simulation_is_reproducible(
        v1: Seq<Self>,
        v2: Seq<Self>,
        blocks: Seq<SpecBlock>,
        depth: nat,
        sets: nat,
        lines: nat,
        line_size: nat,
    )
        requires
            Self::runs_traces(v1, blocks, depth, sets, lines, line_size),
            Self::runs_traces(v2, blocks, depth, sets, lines, line_size),
        ensures
            v1.len() == v2.len(),
            forall|k: int|
                0 <= k < v1.len() ==> {
                    &&& (#[trigger] v1[k]).spec_name() == v2[k].spec_name()
                    &&& v1[k].spec_hits() == v2[k].spec_hits()
                    &&& v1[k].spec_misses() == v2[k].spec_misses()
                },
    {
        assert forall|k: int| 0 <= k < v1.len() implies {
            &&& (#[trigger] v1[k]).spec_name() == v2[k].spec_name()
            &&& v1[k].spec_hits() == v2[k].spec_hits()
            &&& v1[k].spec_misses() == v2[k].spec_misses()
        } by {
            assert(Self::result_of(v1[k], compared(blocks)[k], blocks, depth, sets, lines, line_size));
            assert(Self::result_of(v2[k], compared(blocks)[k], blocks, depth, sets, lines, line_size));
        }
    }

    /// `v` are the results of the traces of `blocks`, in file order.
    pub open spec fn runs_traces(
        v: Seq<Self>,
        blocks: Seq<SpecBlock>,
        depth: nat,
        sets: nat,
        lines: nat,
        line_size: nat,
    ) -> bool {
        &&& v.len() == compared(blocks).len()
        &&& forall|k: int|
            0 <= k < v.len() ==> Self::result_of(
                #[trigger] v[k],
                compared(blocks)[k],
                blocks,
                depth,
                sets,
                lines,
                line_size,
            )
    }

    /// The name of the trace.
    pub fn name(&self) -> (r: &String)
        ensures
            r@ == self.spec_name(),
    {
        &self.name
    }

    /// How many lookups hit.
    pub fn hit_count(&self) -> (r: u32)
        ensures
            r == self.spec_hits(),
    {
        self.hit_count
    }

    /// How many lookups missed.
    pub fn miss_count(&self) -> (r: u32)
        ensures
            r == self.spec_misses(),
    {
        self.miss_count
    }

    /// Runs one trace through the cache, from empty, and counts hits and
    /// misses. It stops with `SetOutOfRange` at the first address whose set
    /// the cache does not have.
    pub fn run_trace<const SIZE: usize, const SETS: usize, const LINES: usize, const LINE_SIZE: usize>(
        lru_cache: &mut LruCache<'_, SIZE, SETS, LINES, LINE_SIZE>,
        name: String,
        instructions: &Vec<Instruction>,
    ) -> (r: Result<Self, SimulationError>)
        requires
            old(lru_cache).wf(),
            instructions@.len() <= u32::MAX,
        ensures
            final(lru_cache).wf(),
            final(lru_cache).memory() == old(lru_cache).memory(),
            match r {
                Ok(sim) => sim.spec_name() == name@ && sim.spec_hits() == hits_in_run(
                    empty_cache(SETS as nat, LINES as nat),
                    addresses(instructions@),
                    LINE_SIZE as int,
                    LINES as int,
                ) && sim.spec_hits() + sim.spec_misses() == instructions@.len()
                    && final(lru_cache).slots() == cache_after_run(
                    empty_cache(SETS as nat, LINES as nat),
                    addresses(instructions@),
                    LINE_SIZE as int,
                    LINES as int,
                ),
                Err(SimulationError::SetOutOfRange { address }) => exists|k: int|
                    0 <= k < instructions@.len() && address == #[trigger] instructions@[k].address
                        && set_index(address as int, LINE_SIZE as int, LINES as int) >= SETS,
                Err(_) => false,
            },
    {
        lru_cache.reset();
        let ghost start = lru_cache.slots();
        assert(start =~= empty_cache(SETS as nat, LINES as nat));
        let ghost addrs = addresses(instructions@);
        let mut hit_count: u32 = 0;
        let mut miss_count: u32 = 0;
        let mut k: usize = 0;
        while k < instructions.len()
            invariant
                lru_cache.wf(),
                lru_cache.memory() == old(lru_cache).memory(),
                instructions@.len() <= u32::MAX,
                addrs == addresses(instructions@),
                start == empty_cache(SETS as nat, LINES as nat),
                k <= instructions@.len(),
                lru_cache.slots() == cache_after_run(
                    start,
                    addrs.take(k as int),
                    LINE_SIZE as int,
                    LINES as int,
                ),
                hit_count == hits_in_run(start, addrs.take(k as int), LINE_SIZE as int, LINES as int),
                hit_count + miss_count == k,
            decreases instructions@.len() - k,
        {
            let address = instructions[k].address;
            proof {
                lemma_cache_facts::<SIZE, SETS, LINES, LINE_SIZE>(lru_cache);
            }
            if address / LINE_SIZE % LINES >= SETS {
                return Err(SimulationError::SetOutOfRange { address });
            }
            let ghost before = lru_cache.slots();
            let (_, hit) = lru_cache.get(address);
            assert(addrs.take(k + 1).drop_last() =~= addrs.take(k as int));
            assert(addrs.take(k + 1).last() == address);
            match hit {
                crate::lru::CacheHit::Hit => {
                    hit_count = hit_count + 1;
                },
                crate::lru::CacheHit::Miss => {
                    miss_count = miss_count + 1;
                },
            }
            k += 1;
        }
        assert(addrs.take(k as int) =~= addrs);
        Ok(Simulation { name, hit_count, miss_count })
    }

    /// Parses `file_data` as a trace file and runs each of its traces, in
    /// file order, through the cache from empty, nesting calls at most
    /// `max_call_depth` deep. Each trace's counts are those of the
    /// instructions its block unfolds to, with a generator seeded with 0.
    /// On success the cache holds what the last trace left in it.
    pub fn simulate<const SIZE: usize, const SETS: usize, const LINES: usize, const LINE_SIZE: usize>(
        lru_cache: &mut LruCache<'_, SIZE, SETS, LINES, LINE_SIZE>,
        file_data: &str,
        max_call_depth: usize,
    ) -> (r: Result<Vec<Self>, SimulationError>)
        requires
            old(lru_cache).wf(),
        ensures
            final(lru_cache).wf(),
            final(lru_cache).memory() == old(lru_cache).memory(),
            (r matches Err(SimulationError::Parse(_))) == !file_accepted(file_data.spec_bytes()),
            !file_accepted(file_data.spec_bytes()) ==> {
                &&& r matches Err(SimulationError::Parse(e)) && refused_as(file_data.spec_bytes(), e)
                &&& *final(lru_cache) == *old(lru_cache)
            },
            r matches Err(SimulationError::WeightOverflow) ==> {
                &&& file_accepted(file_data.spec_bytes())
                &&& some_trace_stops(
                    parse_blocks(file_data.spec_bytes()).unwrap(),
                    max_call_depth as nat,
                    ExpansionError::WeightOverflow,
                )
            },
            r matches Err(SimulationError::CallDepth) ==> {
                &&& file_accepted(file_data.spec_bytes())
                &&& some_trace_stops(
                    parse_blocks(file_data.spec_bytes()).unwrap(),
                    max_call_depth as nat,
                    ExpansionError::CallDepth,
                )
            },
            r matches Err(SimulationError::TooManyInstructions) ==> {
                let bs = parse_blocks(file_data.spec_bytes()).unwrap();
                &&& file_accepted(file_data.spec_bytes())
                &&& exists|k: int|
                    0 <= k < compared(bs).len() && #[trigger] trace_expansion(
                        bs,
                        compared(bs)[k].ops,
                        max_call_depth as nat,
                    ) is Some && trace_expansion(bs, compared(bs)[k].ops, max_call_depth as nat)->0.len()
                        > u32::MAX
            },
            r matches Err(SimulationError::SetOutOfRange { address }) ==> {
                let bs = parse_blocks(file_data.spec_bytes()).unwrap();
                &&& file_accepted(file_data.spec_bytes())
                &&& set_index(address as int, LINE_SIZE as int, LINES as int) >= SETS
                &&& exists|k: int|
                    0 <= k < compared(bs).len() && #[trigger] trace_expansion(
                        bs,
                        compared(bs)[k].ops,
                        max_call_depth as nat,
                    ) is Some && addresses(
                        trace_expansion(bs, compared(bs)[k].ops, max_call_depth as nat)->0,
                    ).contains(address)
            },
            r matches Ok(v) ==> file_accepted(file_data.spec_bytes()) && Self::runs_traces(
                v@,
                parse_blocks(file_data.spec_bytes()).unwrap(),
                max_call_depth as nat,
                SETS as nat,
                LINES as nat,
                LINE_SIZE as nat,
            ),
            r is Ok ==> Self::leaves_cache(
                *old(lru_cache),
                *final(lru_cache),
                parse_blocks(file_data.spec_bytes()).unwrap(),
                max_call_depth as nat,
            ),
    {
        let trace_file = match TraceFile::try_from(file_data) {
            Ok(f) => f,
            Err(e) => return Err(SimulationError::Parse(e)),
        };
        let traces = match trace_file.into_iter(max_call_depth) {
            Ok(t) => t,
            Err(ExpansionError::CallDepth) => return Err(SimulationError::CallDepth),
            Err(ExpansionError::WeightOverflow) => return Err(SimulationError::WeightOverflow),
        };
        let ghost bs = trace_file.blocks();
        let ghost tr = compared(bs);
        let ghost tv = traces@;
        let mut results: Vec<Self> = Vec::new();
        let mut k: usize = 0;
        while k < traces.len()
            invariant
                file_accepted(file_data.spec_bytes()),
                parse_blocks(file_data.spec_bytes()) == Some(bs),
                traces@ == tv,
                lru_cache.wf(),
                lru_cache.memory() == old(lru_cache).memory(),
                k == 0 ==> *lru_cache == *old(lru_cache),
                k > 0 ==> lru_cache.slots() == cache_after_run(
                    empty_cache(SETS as nat, LINES as nat),
                    addresses(traces@[k - 1].1@),
                    LINE_SIZE as int,
                    LINES as int,
                ),
                tr == compared(bs),
                traces@.len() == tr.len(),
                k <= traces@.len(),
                results@.len() == k,
                forall|j: int|
                    0 <= j < traces@.len() ==> {
                        let b = #[trigger] tr[j];
                        &&& traces@[j].0@ == ascii_chars(b.name)
                        &&& trace_expansion(bs, b.ops, max_call_depth as nat) == Some(traces@[j].1@)
                    },
                forall|j: int|
                    0 <= j < k ==> Self::result_of(
                        #[trigger] results@[j],
                        tr[j],
                        bs,
                        max_call_depth as nat,
                        SETS as nat,
                        LINES as nat,
                        LINE_SIZE as nat,
                    ),
            decreases traces@.len() - k,
        {
            let (name, instructions) = &traces[k];
            proof {
                let b = tr[k as int];
                assert(trace_expansion(bs, b.ops, max_call_depth as nat) == Some(traces@[k as int].1@));
            }
            if instructions.len() > 4294967295usize {
                return Err(SimulationError::TooManyInstructions);
            }
            let sim = match Self::run_trace(lru_cache, name.clone(), instructions) {
                Ok(sim) => sim,
                Err(e) => {
                    proof {
                        if let SimulationError::SetOutOfRange { address } = e {
                            let j = choose|j: int|
                                0 <= j < instructions@.len() && address == #[trigger] instructions@[j].address
                                    && set_index(address as int, LINE_SIZE as int, LINES as int) >= SETS;
                            assert(addresses(instructions@)[j] == address);
                        }
                    }
                    return Err(e);
                },
            };
            proof {
                let b = tr[k as int];
                assert(trace_expansion(bs, b.ops, max_call_depth as nat) == Some(traces@[k as int].1@));
                assert(sim.counts(b.name, traces@[k as int].1@, SETS as nat, LINES as nat, LINE_SIZE as nat));
                assert(Self::result_of(sim, b, bs, max_call_depth as nat, SETS as nat, LINES as nat, LINE_SIZE as nat));
            }
            results.push(sim);
            k += 1;
        }
        assert(parse_blocks(file_data.spec_bytes()).unwrap() == bs);
        assert(results@.len() == compared(bs).len());
        Ok(results)
    }
}

proof fn lemma_cache_facts<const SIZE: usize, const SETS: usize, const LINES: usize, const LINE_SIZE: usize>(
    c: &LruCache<'_, SIZE, SETS, LINES, LINE_SIZE>,
)
    requires
        c.wf(),
    ensures
        LINE_SIZE > 0,
        LINES > 0,
        c.slots().len() == SETS,
{
    c.lemma_wf_facts();
}

impl<const CLOCK_SPEED_MHZ: u32, const CYCLES_HIT: u32, const CYCLES_MISS: u32> Default for Simulation<
    CLOCK_SPEED_MHZ,
    CYCLES_HIT,
    CYCLES_MISS,
> {
    /// A result with an empty name and no lookups.
    fn default() -> (r: Self)
        ensures
            r.spec_name() == Seq::<char>::empty(),
            r.spec_hits() == 0,
            r.spec_misses() == 0,
    {
        Simulation { name: String::new(), hit_count: 0, miss_count: 0 }
    }
}

} // verus!
