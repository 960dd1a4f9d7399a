//! The record of a simulation: the shape of the cache, the lookups made,
//! and how many hit.
use crate::trace::{ascii_chars, string_from_utf8};
use vstd::prelude::*;

verus! {

/// Whether a lookup found its line, and on a miss the address of the line
/// it evicted, if any.
#[derive(Debug, Copy, Clone, PartialEq, Eq, Structural)]
pub enum CacheHit {
    Hit,
    Miss { prev: Option<usize> },
}

/// The upper-case hexadecimal digit of `d`, below 16.
pub open spec fn hex_digit(d: nat) -> u8 {
    if d < 10 {
        (48 + d) as u8
    } else {
        (55 + d) as u8
    }
}

/// The upper-case hexadecimal digits of `x`, without leading zeros.
pub open spec fn hex_digits(x: nat) -> Seq<u8>
    decreases x,
{
    if x < 16 {
        seq![hex_digit(x)]
    } else {
        hex_digits(x / 16).push(hex_digit(x % 16))
    }
}

/// How a lookup reads: `Hit`, `Miss`, or `Miss prev=0x` and the evicted
/// address in upper-case hexadecimal.
pub open spec fn hit_text(hit: bool, prev: Option<usize>) -> Seq<u8> {
    if hit {
        seq![72u8, 105, 116]
    } else {
        match prev {
            None => seq![77u8, 105, 115, 115],
            Some(p) => seq![77u8, 105, 115, 115, 32, 112, 114, 101, 118, 61, 48, 120] + hex_digits(
                p as nat,
            ),
        }
    }
}

fn push_hex_digits(out: &mut Vec<u8>, x: usize)
    ensures
        final(out)@ == old(out)@ + hex_digits(x as nat),
    decreases x,
{
    if x >= 16 {
        push_hex_digits(out, x / 16);
    }
    let d = x % 16;
    let b: u8 = if d < 10 {
        48 + d as u8
    } else {
        55 + d as u8
    };
    out.push(b);
    if x >= 16 {
        assert(final(out)@ =~= old(out)@ + hex_digits(x as nat));
    } else {
        assert(out@ =~= old(out)@ + hex_digits(x as nat));
    }
}

proof fn lemma_hit_text_ascii(hit: bool, prev: Option<usize>)
    ensures
        forall|k: int| 0 <= k < hit_text(hit, prev).len() ==> #[trigger] hit_text(hit, prev)[k] < 128,
{
    if !hit {
        if let Some(p) = prev {
            lemma_hex_digits_ascii(p as nat);
            let prefix = seq![77u8, 105, 115, 115, 32, 112, 114, 101, 118, 61, 48, 120];
            assert forall|k: int| 0 <= k < hit_text(hit, prev).len() implies #[trigger] hit_text(
                hit,
                prev,
            )[k] < 128 by {
                if k >= prefix.len() {
                    assert(hit_text(hit, prev)[k] == hex_digits(p as nat)[k - prefix.len()]);
                }
            }
        }
    }
}

proof fn lemma_hex_digits_ascii(x: nat)
    ensures
        forall|k: int| 0 <= k < hex_digits(x).len() ==> #[trigger] hex_digits(x)[k] < 128,
    decreases x,
{
    if x >= 16 {
        lemma_hex_digits_ascii(x / 16);
        let d = x % 16;
        assert(d < 16);
        assert(hex_digit(d) < 128);
        let h = hex_digits(x);
        assert forall|k: int| 0 <= k < h.len() implies #[trigger] h[k] < 128 by {
            if k < h.len() - 1 {
                assert(h[k] == hex_digits(x / 16)[k]);
            }
        }
    }
}

/// The text of a lookup's outcome, as [`hit_text`] spells it.
pub fn describe_hit(hit: bool, prev: Option<usize>) -> (s: String)
    ensures
        s@ == ascii_chars(hit_text(hit, prev)),
{
    let mut bytes: Vec<u8> = Vec::new();
    if hit {
        bytes.push(72);
        bytes.push(105);
        bytes.push(116);
    } else {
        bytes.push(77);
        bytes.push(105);
        bytes.push(115);
        bytes.push(115);
        if let Some(p) = prev {
            bytes.push(32);
            bytes.push(112);
            bytes.push(114);
            bytes.push(101);
            bytes.push(118);
            bytes.push(61);
            bytes.push(48);
            bytes.push(120);
            push_hex_digits(&mut bytes, p);
        }
    }
    assert(bytes@ =~= hit_text(hit, prev));
    proof {
        lemma_hit_text_ascii(hit, prev);
    }
    match string_from_utf8(bytes) {
        Ok(s) => s,
        Err(_) => String::new(),
    }
}

impl CacheHit {
    /// The outcome as text: `Hit`, `Miss`, or `Miss prev=` and the evicted
    /// address in upper-case hexadecimal with `0x` in front.
    pub fn describe(&self) -> (s: String)
        ensures
            s@ == ascii_chars(
                match self {
                    CacheHit::Hit => hit_text(true, None),
                    CacheHit::Miss { prev } => hit_text(false, *prev),
                },
            ),
    {
        match self {
            CacheHit::Hit => describe_hit(true, None),
            CacheHit::Miss { prev } => describe_hit(false, *prev),
        }
    }
}

/// A simulation's record: the cache's sets, ways and line size, each lookup
/// with its outcome, and the counts of hits and misses.
#[derive(Debug)]
pub struct SimulationResult {
    pub cache_sets: usize,
    pub cache_ways: usize,
    pub line_size: usize,
    pub data: Vec<(usize, CacheHit)>,
    pub hit_count: u32,
    pub miss_count: u32,
}

impl SimulationResult {
    /// A record for a cache of these sizes, with no lookups yet.
    pub fn new(cache_sets: usize, cache_ways: usize, line_size: usize) -> (r: Self)
        ensures
            r.cache_sets == cache_sets,
            r.cache_ways == cache_ways,
            r.line_size == line_size,
            r.data@ == Seq::<(usize, CacheHit)>::empty(),
            r.hit_count == 0,
            r.miss_count == 0,
    {
        Self { cache_sets, cache_ways, line_size, data: Vec::new(), hit_count: 0, miss_count: 0 }
    }
}

impl Default for SimulationResult {
    fn default() -> (r: Self)
        ensures
            r.cache_sets == 0,
            r.cache_ways == 0,
            r.line_size == 0,
            r.data@ == Seq::<(usize, CacheHit)>::empty(),
            r.hit_count == 0,
            r.miss_count == 0,
    {
        Self::new(0, 0, 0)
    }
}

} // verus!
