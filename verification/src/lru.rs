//! A set-associative cache with least-recently-used replacement, sitting in
//! front of a read-only main memory.
//!
//! The cache is modelled, set by set, as a sequence of `LINES` slots in
//! recency order: slot 0 holds the most recently used line, and empty ways
//! (`None`) always trail the occupied ones. A slot holds the line-aligned
//! address of the line cached there.
use std::collections::VecDeque;
use vstd::prelude::*;

verus! {

/// Whether a lookup found its line in the cache.
#[derive(Debug, Clone, Copy, PartialEq, Eq, Structural)]
pub enum CacheHit {
    Hit,
    Miss,
}

/// `n` is a power of two (1 counts as `2^0`).
pub open spec fn is_pow2(n: nat) -> bool
    decreases n,
{
    if n <= 1 {
        n == 1
    } else {
        n % 2 == 0 && is_pow2(n / 2)
    }
}

/// The condition that the cache's sizes must meet: a power of two above one.
pub open spec fn spec_is_power_of_two(i: usize) -> bool {
    i > 1 && is_pow2(i as nat)
}

/// Tells whether `i` is a power of two greater than one.
pub fn is_power_of_two(i: usize) -> (r: bool)
    ensures
        r == spec_is_power_of_two(i),
{
    if i <= 1 {
        return false;
    }
    let mut x: usize = i;
    while x > 1 && x % 2 == 0
        invariant
            x >= 1,
            is_pow2(x as nat) == is_pow2(i as nat),
        decreases x,
    {
        x = x / 2;
    }
    x == 1
}

/// The byte at `index` of `bytes`, or 0 past its end.
pub open spec fn byte_or_zero(bytes: Seq<u8>, index: int) -> u8 {
    if 0 <= index < bytes.len() {
        bytes[index]
    } else {
        0
    }
}

/// The first address of the line of `line_size` bytes that holds `address`.
pub open spec fn line_start(address: int, line_size: int) -> int {
    address / line_size * line_size
}

/// A read-only memory of `SIZE` bytes, read in lines of `LINE_SIZE` bytes.
pub struct MainMemory<const SIZE: usize, const LINE_SIZE: usize> {
    data: [u8; SIZE],
}

impl<const SIZE: usize, const LINE_SIZE: usize> MainMemory<SIZE, LINE_SIZE> {
    /// The bytes of the memory.
    pub closed spec fn bytes(&self) -> Seq<u8> {
        self.data@
    }

    /// Both sizes are powers of two; `new` establishes this.
    pub closed spec fn wf(&self) -> bool {
        &&& spec_is_power_of_two(SIZE)
        &&& spec_is_power_of_two(LINE_SIZE)
        &&& self.data@.len() == SIZE
    }

    /// The line that holds `address`: `LINE_SIZE` bytes from the start of
    /// that line, where bytes past the end of the memory read as 0.
    pub open spec fn line_at(&self, address: int) -> Seq<u8> {
        Seq::new(
            LINE_SIZE as nat,
            |i: int| byte_or_zero(self.bytes(), line_start(address, LINE_SIZE as int) + i),
        )
    }

    /// Makes a memory that holds `data`. Both sizes must be powers of two.
    pub fn new(data: [u8; SIZE]) -> (m: Self)
        requires
            spec_is_power_of_two(SIZE),
            spec_is_power_of_two(LINE_SIZE),
        ensures
            m.wf(),
            m.bytes() == data@,
    {
        Self { data }
    }

    /// Makes an empty cache of `SETS` sets of `LINES` ways in front of this
    /// memory. Both counts must be powers of two and the cache no larger
    /// than the memory.
    pub fn create_cache<const SETS: usize, const LINES: usize>(&self) -> (c: LruCache<
        '_,
        SIZE,
        SETS,
        LINES,
        LINE_SIZE,
    >)
        requires
            self.wf(),
            spec_is_power_of_two(SETS),
            spec_is_power_of_two(LINES),
            LINE_SIZE * LINES * SETS <= SIZE,
        ensures
            c.wf(),
            c.memory() == *self,
            c.is_fresh(),
    {
        LruCache::new(self)
    }

    /// Reads the whole line that holds `address`.
    fn get(&self, address: usize) -> (line: [u8; LINE_SIZE])
        requires
            self.wf(),
        ensures
            line@ == self.line_at(address as int),
    {
        assert(address / LINE_SIZE * LINE_SIZE <= address) by (nonlinear_arith)
            requires
                LINE_SIZE > 0,
        ;
        let addr = address / LINE_SIZE * LINE_SIZE;
        let mut line = [0u8; LINE_SIZE];
        let mut i: usize = 0;
        while i < LINE_SIZE
            invariant
                self.wf(),
                addr == line_start(address as int, LINE_SIZE as int),
                i <= LINE_SIZE,
                line@.len() == LINE_SIZE,
                forall|j: int|
                    0 <= j < i ==> line@[j] == byte_or_zero(self.bytes(), addr + j),
            decreases LINE_SIZE - i,
        {
            let b = match addr.checked_add(i) {
                Some(at) => if at < SIZE {
                    self.data[at]
                } else {
                    0
                },
                None => 0,
            };
            line[i] = b;
            i += 1;
        }
        assert(line@ =~= self.line_at(address as int));
        line
    }
}

/// One cached line: its line-aligned address and its bytes.
#[derive(Debug, Clone)]
pub struct CacheLine<const LINE_SIZE: usize> {
    set_address: usize,
    line: [u8; LINE_SIZE],
}

impl<const LINE_SIZE: usize> CacheLine<LINE_SIZE> {
    /// The line-aligned address of the line.
    pub closed spec fn address(&self) -> usize {
        self.set_address
    }

    /// The bytes of the line.
    pub closed spec fn bytes(&self) -> Seq<u8> {
        self.line@
    }

    fn new(set_address: usize, line: [u8; LINE_SIZE]) -> (c: Self)
        ensures
            c.address() == set_address,
            c.bytes() == line@,
    {
        Self { set_address, line }
    }
}

/// The address held by a way, if any.
pub open spec fn way_address<const LINE_SIZE: usize>(way: Option<CacheLine<LINE_SIZE>>) -> Option<
    usize,
> {
    match way {
        Some(l) => Some(l.address()),
        None => None,
    }
}

/// Empty slots come only after occupied ones.
pub open spec fn empties_trail(slots: Seq<Option<usize>>) -> bool {
    forall|i: int, j: int| 0 <= i < j < slots.len() && slots[i] is None ==> slots[j] is None
}

/// No address is held by two slots.
pub open spec fn addresses_distinct(slots: Seq<Option<usize>>) -> bool {
    forall|i: int, j: int|
        0 <= i < j < slots.len() && slots[i] is Some ==> slots[i] != slots[j]
}

/// The shape that every set of the cache keeps: `lines` slots, empty ones
/// last, no address twice.
pub open spec fn slots_wf(slots: Seq<Option<usize>>, lines: nat) -> bool {
    &&& slots.len() == lines
    &&& empties_trail(slots)
    &&& addresses_distinct(slots)
}

/// The slots of an empty set.
pub open spec fn empty_slots(lines: nat) -> Seq<Option<usize>> {
    Seq::new(lines, |i: int| None)
}

/// The slots of a set after a lookup of the line at `line_address`: a hit
/// moves that line to the front; a miss puts it in front and drops the last
/// slot, which is the least recently used line or an empty way.
pub open spec fn slots_after_access(slots: Seq<Option<usize>>, line_address: usize) -> Seq<
    Option<usize>,
> {
    if slots.contains(Some(line_address)) {
        seq![Some(line_address)] + slots.remove(slots.index_of(Some(line_address)))
    } else {
        seq![Some(line_address)] + slots.drop_last()
    }
}

/// The recency order of the ways of a new set: way `lines - 1` first, way 0
/// last, so that way 0 is the first to be filled.
pub open spec fn initial_way_order(lines: nat) -> Seq<usize> {
    Seq::new(lines, |k: int| (lines - 1 - k) as usize)
}

/// The recency order of a set's ways after a lookup of the line at
/// `line_address`, given the addresses `ways` hold: on a hit the way that
/// holds it moves to the front; on a miss the last way moves to the front.
pub open spec fn order_after_access(
    order: Seq<usize>,
    ways: Seq<Option<usize>>,
    line_address: usize,
) -> Seq<usize> {
    let slots = Seq::new(order.len(), |i: int| ways[order[i] as int]);
    if slots.contains(Some(line_address)) {
        let p = slots.index_of(Some(line_address));
        seq![order[p]] + order.remove(p)
    } else {
        seq![order.last()] + order.drop_last()
    }
}

/// The addresses a set's ways hold after a lookup of the line at
/// `line_address`: a hit leaves them as they were; a miss writes the line
/// into the least recently used way, the last in `order`.
pub open spec fn ways_after_access(
    order: Seq<usize>,
    ways: Seq<Option<usize>>,
    line_address: usize,
) -> Seq<Option<usize>> {
    let slots = Seq::new(order.len(), |i: int| ways[order[i] as int]);
    if slots.contains(Some(line_address)) {
        ways
    } else {
        ways.update(order.last() as int, Some(line_address))
    }
}

/// One set of the cache: the ways, and the ways in recency order.
#[derive(Debug, Clone)]
struct CacheSet<const LINES: usize, const LINE_SIZE: usize> {
    lines: Vec<Option<CacheLine<LINE_SIZE>>>,
    meta: VecDeque<usize>,
}

impl<const LINES: usize, const LINE_SIZE: usize> CacheSet<LINES, LINE_SIZE> {
    /// The addresses held by the ways, in recency order.
    spec fn slots(&self) -> Seq<Option<usize>> {
        Seq::new(self.meta@.len(), |i: int| way_address(self.lines@[self.meta@[i] as int]))
    }

    /// The addresses held by the ways, by way number.
    spec fn ways(&self) -> Seq<Option<usize>> {
        Seq::new(self.lines@.len(), |w: int| way_address(self.lines@[w]))
    }

    spec fn wf(&self) -> bool {
        &&& LINES > 0
        &&& self.lines@.len() == LINES
        &&& self.meta@.len() == LINES
        &&& self.meta@.no_duplicates()
        &&& forall|i: int| 0 <= i < LINES ==> #[trigger] self.meta@[i] < LINES
        &&& slots_wf(self.slots(), LINES as nat)
    }

    /// Every occupied way holds an aligned address and the memory's bytes there.
    spec fn holds_memory<const SIZE: usize>(&self, memory: MainMemory<SIZE, LINE_SIZE>) -> bool {
        forall|w: int|
            0 <= w < self.lines@.len() && #[trigger] self.lines@[w] is Some ==> {
                let l = self.lines@[w]->0;
                &&& l.address() % LINE_SIZE == 0
                &&& l.bytes() == memory.line_at(l.address() as int)
            }
    }

    /// Every line the set holds belongs to set `k`.
    spec fn lines_map_to(&self, k: int) -> bool {
        forall|w: int|
            0 <= w < self.ways().len() && #[trigger] self.ways()[w] is Some ==> set_index(
                self.ways()[w]->0 as int,
                LINE_SIZE as int,
                LINES as int,
            ) == k
    }

    spec fn all_empty(&self) -> bool {
        forall|w: int| 0 <= w < self.lines@.len() ==> #[trigger] self.lines@[w] is None
    }

    fn new() -> (s: Self)
        requires
            LINES > 0,
        ensures
            s.wf(),
            s.all_empty(),
            s.slots() == empty_slots(LINES as nat),
            s.meta@ == initial_way_order(LINES as nat),
            s.ways() == empty_slots(LINES as nat),
    {
        let mut meta: VecDeque<usize> = VecDeque::with_capacity(LINES);
        let mut lines: Vec<Option<CacheLine<LINE_SIZE>>> = Vec::new();
        let mut i: usize = LINES;
        while i > 0
            invariant
                i <= LINES,
                meta@.len() == LINES - i,
                lines@.len() == LINES - i,
                forall|k: int| 0 <= k < meta@.len() ==> meta@[k] == LINES - 1 - k,
                forall|k: int| 0 <= k < lines@.len() ==> lines@[k] is None,
            decreases i,
        {
            i -= 1;
            meta.push_back(i);
            lines.push(None);
        }
        let s = Self { lines, meta };
        assert(s.slots() =~= empty_slots(LINES as nat));
        assert(s.meta@ =~= initial_way_order(LINES as nat));
        assert(s.ways() =~= empty_slots(LINES as nat));
        s
    }
}

impl<const LINES: usize, const LINE_SIZE: usize> CacheSet<LINES, LINE_SIZE> {
    /// Where in recency order the line at `line_addr` sits, if it is cached.
    fn position_of(&self, line_addr: usize) -> (r: Option<usize>)
        requires
            self.wf(),
        ensures
            match r {
                Some(p) => p < LINES && self.slots()[p as int] == Some(line_addr),
                None => !self.slots().contains(Some(line_addr)),
            },
    {
        let mut p: usize = 0;
        while p < self.meta.len()
            invariant
                self.wf(),
                p <= LINES,
                forall|k: int| 0 <= k < p ==> self.slots()[k] != Some(line_addr),
            decreases LINES - p,
        {
            let w = self.meta[p];
            assert(self.meta@[p as int] < LINES);
            match &self.lines[w] {
                Some(l) => {
                    if l.set_address == line_addr {
                        assert(self.slots()[p as int] == Some(line_addr));
                        return Some(p);
                    }
                },
                None => {},
            }
            assert(self.slots()[p as int] != Some(line_addr));
            p += 1;
        }
        None
    }

    /// Looks up the line at `line_addr`, which holds `address`, filling it
    /// from `memory` on a miss.
    fn access<const SIZE: usize>(
        &mut self,
        line_addr: usize,
        address: usize,
        memory: &MainMemory<SIZE, LINE_SIZE>,
    ) -> (r: ([u8; LINE_SIZE], CacheHit))
        requires
            old(self).wf(),
            old(self).holds_memory(*memory),
            memory.wf(),
            line_addr == line_start(address as int, LINE_SIZE as int),
            old(self).lines_map_to(set_index(line_addr as int, LINE_SIZE as int, LINES as int)),
        ensures
            final(self).wf(),
            final(self).lines_map_to(set_index(line_addr as int, LINE_SIZE as int, LINES as int)),
            final(self).holds_memory(*memory),
            r.0@ == memory.line_at(address as int),
            (r.1 == CacheHit::Hit) == old(self).slots().contains(Some(line_addr)),
            final(self).slots() == slots_after_access(old(self).slots(), line_addr),
            final(self).meta@ == order_after_access(old(self).meta@, old(self).ways(), line_addr),
            final(self).ways() == ways_after_access(old(self).meta@, old(self).ways(), line_addr),
    {
        let ghost old_slots = self.slots();
        let ghost old_ways = self.ways();
        assert(old_slots =~= Seq::new(self.meta@.len(), |i: int| old_ways[self.meta@[i] as int]));
        proof {
            lemma_line_start_aligned(address as int, LINE_SIZE as int);
        }
        match self.position_of(line_addr) {
            Some(p) => {
                let idx = self.meta[p];
                assert(self.meta@[p as int] < LINES);
                let data = match &self.lines[idx] {
                    Some(l) => l.line,
                    None => {
                        assert(false);
                        [0u8; LINE_SIZE]
                    },
                };
                assert(old_slots.contains(Some(line_addr)));
                assert(old_slots.index_of(Some(line_addr)) == p);
                let ghost old_meta = self.meta@;
                self.meta.remove(p);
                self.meta.push_front(idx);
                assert(self.meta@ =~= seq![idx] + old_meta.remove(p as int));
                assert(self.slots() =~= seq![Some(line_addr)] + old_slots.remove(p as int));
                assert(self.ways() =~= old_ways);
                assert(self.meta@.no_duplicates()) by {
                    assert forall|i: int, j: int|
                        0 <= i < j < self.meta@.len() implies self.meta@[i] != self.meta@[j] by {
                        if i == 0 {
                            assert(self.meta@[j] == old_meta.remove(p as int)[j - 1]);
                        }
                    }
                }
                assert(forall|i: int| 0 <= i < LINES ==> #[trigger] self.meta@[i] < LINES) by {
                    assert forall|i: int| 0 <= i < LINES implies #[trigger] self.meta@[i] < LINES by {
                        if i > 0 {
                            assert(self.meta@[i] == old_meta.remove(p as int)[i - 1]);
                        }
                    }
                }
                (data, CacheHit::Hit)
            },
            None => {
                let line = memory.get(address);
                let ghost old_meta = self.meta@;
                let ghost old_lines = self.lines@;
                let lru = self.meta.pop_back().unwrap();
                assert(old_meta[LINES - 1] < LINES);
                self.meta.push_front(lru);
                self.lines[lru] = Some(CacheLine::new(line_addr, line));
                assert(self.meta@ =~= seq![lru] + old_meta.drop_last());
                assert(self.ways() =~= old_ways.update(lru as int, Some(line_addr)));
                assert(self.lines_map_to(set_index(line_addr as int, LINE_SIZE as int, LINES as int))) by {
                    let k = set_index(line_addr as int, LINE_SIZE as int, LINES as int);
                    assert forall|w: int|
                        0 <= w < self.ways().len() && #[trigger] self.ways()[w] is Some implies set_index(
                        self.ways()[w]->0 as int,
                        LINE_SIZE as int,
                        LINES as int,
                    ) == k by {
                        if w != lru {
                            assert(self.ways()[w] == old_ways[w]);
                        }
                    }
                }
                assert forall|i: int| 0 <= i < LINES - 1 implies old_meta[i] != lru by {
                    assert(old_meta[i] != old_meta[LINES - 1]);
                }
                assert(self.slots() =~= seq![Some(line_addr)] + old_slots.drop_last()) by {
                    assert forall|i: int| 0 < i < LINES implies self.slots()[i] == old_slots[i - 1] by {
                        assert(self.meta@[i] == old_meta[i - 1]);
                        assert(old_meta[i - 1] != lru);
                    }
                }
                assert(self.meta@.no_duplicates()) by {
                    assert forall|i: int, j: int|
                        0 <= i < j < self.meta@.len() implies self.meta@[i] != self.meta@[j] by {
                        if i > 0 {
                            assert(old_meta[i - 1] != old_meta[j - 1]);
                        }
                    }
                }
                assert(forall|i: int| 0 <= i < LINES ==> #[trigger] self.meta@[i] < LINES) by {
                    assert forall|i: int| 0 <= i < LINES implies #[trigger] self.meta@[i] < LINES by {
                        if i > 0 {
                            assert(self.meta@[i] == old_meta[i - 1]);
                        }
                    }
                }
                assert(self.holds_memory(*memory)) by {
                    assert forall|w: int|
                        0 <= w < self.lines@.len() && #[trigger] self.lines@[w] is Some implies {
                        let l = self.lines@[w]->0;
                        &&& l.address() % LINE_SIZE == 0
                        &&& l.bytes() == memory.line_at(l.address() as int)
                    } by {
                        if w != lru {
                            assert(self.lines@[w] == old_lines[w]);
                        } else {
                            assert(memory.line_at(line_addr as int) =~= memory.line_at(
                                address as int,
                            ));
                        }
                    }
                }
                (line, CacheHit::Miss)
            },
        }
    }
}

/// The start of a line is its own line start, and a multiple of the line size.
proof fn lemma_line_start_aligned(address: int, line_size: int)
    requires
        address >= 0,
        line_size > 0,
    ensures
        0 <= line_start(address, line_size) <= address,
        line_start(address, line_size) % line_size == 0,
        line_start(line_start(address, line_size), line_size) == line_start(address, line_size),
{
    let q = address / line_size;
    assert(q >= 0) by (nonlinear_arith)
        requires
            address >= 0,
            line_size > 0,
            q == address / line_size,
    ;
    assert(q * line_size <= address) by (nonlinear_arith)
        requires
            address >= 0,
            line_size > 0,
            q == address / line_size,
    ;
    vstd::arithmetic::div_mod::lemma_mod_multiples_basic(q, line_size);
    vstd::arithmetic::div_mod::lemma_div_by_multiple(q, line_size);
}

/// A cache of `SETS` sets of `LINES` ways of `LINE_SIZE` bytes in front of a
/// main memory of `SIZE` bytes.
pub struct LruCache<
    'mm,
    const SIZE: usize,
    const SETS: usize,
    const LINES: usize,
    const LINE_SIZE: usize,
> {
    main_memory: &'mm MainMemory<SIZE, LINE_SIZE>,
    sets: Vec<CacheSet<LINES, LINE_SIZE>>,
}

/// The set that a lookup of `address` goes to: the line number modulo the
/// number of ways.
pub open spec fn set_index(address: int, line_size: int, lines: int) -> int {
    address / line_size % lines
}

impl<
    'mm,
    const SIZE: usize,
    const SETS: usize,
    const LINES: usize,
    const LINE_SIZE: usize,
> LruCache<'mm, SIZE, SETS, LINES, LINE_SIZE> {
    /// The memory behind the cache.
    pub closed spec fn memory(&self) -> MainMemory<SIZE, LINE_SIZE> {
        *self.main_memory
    }

    /// For each set, its slots in recency order (most recent first).
    pub closed spec fn slots(&self) -> Seq<Seq<Option<usize>>> {
        Seq::new(self.sets@.len(), |s: int| self.sets@[s].slots())
    }

    /// For each set, its ways by number in recency order (most recent first).
    pub closed spec fn way_order(&self) -> Seq<Seq<usize>> {
        Seq::new(self.sets@.len(), |s: int| self.sets@[s].meta@)
    }

    /// For each set, the address of the line each way holds, by way number.
    pub closed spec fn ways(&self) -> Seq<Seq<Option<usize>>> {
        Seq::new(self.sets@.len(), |s: int| self.sets@[s].ways())
    }

    /// Every set is as a new cache has it: no way holds a line, and the
    /// ways are in the order `initial_way_order`.
    pub open spec fn is_fresh(&self) -> bool {
        &&& self.is_empty()
        &&& self.way_order().len() == SETS
        &&& self.ways().len() == SETS
        &&& forall|s: int|
            0 <= s < SETS ==> #[trigger] self.way_order()[s] == initial_way_order(LINES as nat)
                && self.ways()[s] == empty_slots(LINES as nat)
    }

    /// The cache's structure holds together.
    pub closed spec fn wf(&self) -> bool {
        &&& self.main_memory.wf()
        &&& spec_is_power_of_two(SETS)
        &&& spec_is_power_of_two(LINES)
        &&& self.sets@.len() == SETS
        &&& forall|s: int| 0 <= s < SETS ==> #[trigger] self.sets@[s].wf()
        &&& forall|s: int| 0 <= s < SETS ==> #[trigger] self.sets@[s].holds_memory(*self.main_memory)
        &&& forall|s: int| 0 <= s < SETS ==> #[trigger] self.sets@[s].lines_map_to(s)
    }

    /// What a cache's structure gives of its sizes and of where lines sit.
    pub proof fn lemma_wf_facts(&self)
        requires
            self.wf(),
        ensures
            forall|s: int, w: int|
                0 <= s < SETS && 0 <= w < LINES && #[trigger] self.ways()[s][w] is Some ==> set_index(
                    self.ways()[s][w]->0 as int,
                    LINE_SIZE as int,
                    LINES as int,
                ) == s,
            LINE_SIZE > 0,
            LINES > 0,
            SETS > 0,
            self.slots().len() == SETS,
            forall|s: int| 0 <= s < SETS ==> slots_wf(#[trigger] self.slots()[s], LINES as nat),
            self.way_order().len() == SETS,
            self.ways().len() == SETS,
            forall|s: int|
                0 <= s < SETS ==> {
                    &&& (#[trigger] self.way_order()[s]).len() == LINES
                    &&& self.way_order()[s].no_duplicates()
                    &&& self.ways()[s].len() == LINES
                    &&& forall|i: int| 0 <= i < LINES ==> #[trigger] self.way_order()[s][i] < LINES
                    &&& self.slots()[s] == Seq::new(
                        LINES as nat,
                        |i: int| self.ways()[s][self.way_order()[s][i] as int],
                    )
                },
    {
        assert forall|s: int| 0 <= s < SETS implies slots_wf(#[trigger] self.slots()[s], LINES as nat) by {
            assert(self.sets@[s].wf());
        }
        assert forall|s: int, w: int|
            0 <= s < SETS && 0 <= w < LINES && #[trigger] self.ways()[s][w] is Some implies set_index(
            self.ways()[s][w]->0 as int,
            LINE_SIZE as int,
            LINES as int,
        ) == s by {
            assert(self.sets@[s].wf());
            assert(self.sets@[s].lines_map_to(s));
            assert(self.ways()[s] == self.sets@[s].ways());
        }
        assert forall|s: int| 0 <= s < SETS implies {
            &&& (#[trigger] self.way_order()[s]).len() == LINES
            &&& self.way_order()[s].no_duplicates()
            &&& self.ways()[s].len() == LINES
            &&& forall|i: int| 0 <= i < LINES ==> #[trigger] self.way_order()[s][i] < LINES
            &&& self.slots()[s] == Seq::new(
                LINES as nat,
                |i: int| self.ways()[s][self.way_order()[s][i] as int],
            )
        } by {
            assert(self.sets@[s].wf());
            assert(self.slots()[s] =~= Seq::new(
                LINES as nat,
                |i: int| self.ways()[s][self.way_order()[s][i] as int],
            ));
        }
    }

    /// Every set holds `LINES` slots, none of them occupied.
    pub open spec fn is_empty(&self) -> bool {
        &&& self.slots() == empty_cache(SETS as nat, LINES as nat)
        &&& self.slots().len() == SETS
        &&& forall|s: int| 0 <= s < SETS ==> #[trigger] self.slots()[s] == empty_slots(LINES as nat)
    }

    fn new(main_memory: &'mm MainMemory<SIZE, LINE_SIZE>) -> (c: Self)
        requires
            main_memory.wf(),
            spec_is_power_of_two(SETS),
            spec_is_power_of_two(LINES),
        ensures
            c.wf(),
            c.memory() == *main_memory,
            c.is_fresh(),
    {
        let sets = Self::empty_sets();
        let c = Self { main_memory, sets };
        assert forall|s: int| 0 <= s < SETS implies #[trigger] c.sets@[s].holds_memory(
            *c.main_memory,
        ) by {
            assert(c.sets@[s].all_empty());
        }
        assert(c.slots() =~= Seq::new(SETS as nat, |s: int| empty_slots(LINES as nat)));
        assert(c.way_order().len() == SETS);
        c
    }

    /// The line-aligned address of the line that holds `address`.
    pub open spec fn line_address(address: usize) -> usize {
        line_start(address as int, LINE_SIZE as int) as usize
    }

    /// Looks up the line that holds `address`. It returns that line's bytes
    /// as the memory holds them, and whether the line was cached. A hit makes
    /// the line the most recently used of its set; a miss caches it there,
    /// evicting the set's least recently used line when no way is empty.
    /// Other sets are left as they were.
    pub fn get(&mut self, address: usize) -> (r: ([u8; LINE_SIZE], CacheHit))
        requires
            old(self).wf(),
            set_index(address as int, LINE_SIZE as int, LINES as int) < SETS,
        ensures
            final(self).wf(),
            final(self).memory() == old(self).memory(),
            r.0@ == old(self).memory().line_at(address as int),
            (r.1 == CacheHit::Hit) == lookup_hits(old(self).slots(), address, LINE_SIZE as int, LINES as int),
            final(self).slots() == cache_after_access(
                old(self).slots(),
                address,
                LINE_SIZE as int,
                LINES as int,
            ),
            ({
                let s = set_index(address as int, LINE_SIZE as int, LINES as int);
                let line = Self::line_address(address);
                &&& (r.1 == CacheHit::Hit) == old(self).slots()[s].contains(Some(line))
                &&& final(self).slots() == old(self).slots().update(
                    s,
                    slots_after_access(old(self).slots()[s], line),
                )
                &&& final(self).way_order() == old(self).way_order().update(
                    s,
                    order_after_access(old(self).way_order()[s], old(self).ways()[s], line),
                )
                &&& final(self).ways() == old(self).ways().update(
                    s,
                    ways_after_access(old(self).way_order()[s], old(self).ways()[s], line),
                )
            }),
    {
        proof {
            lemma_line_start_aligned(address as int, LINE_SIZE as int);
        }
        let line_addr = address / LINE_SIZE * LINE_SIZE;
        let set_idx = address / LINE_SIZE % LINES;
        let memory = self.main_memory;
        let ghost old_sets = self.sets@;
        proof {
            let q = address as int / LINE_SIZE as int;
            vstd::arithmetic::div_mod::lemma_div_by_multiple(q, LINE_SIZE as int);
            assert(set_index(line_addr as int, LINE_SIZE as int, LINES as int) == set_idx);
            assert(old_sets[set_idx as int].lines_map_to(set_idx as int));
        }
        let r = self.sets[set_idx].access(line_addr, address, memory);
        assert(self.sets@ == old_sets.update(set_idx as int, self.sets@[set_idx as int]));
        assert(self.slots() =~= old(self).slots().update(
            set_idx as int,
            slots_after_access(old(self).slots()[set_idx as int], line_addr),
        ));
        assert(self.way_order() =~= old(self).way_order().update(
            set_idx as int,
            order_after_access(old_sets[set_idx as int].meta@, old_sets[set_idx as int].ways(), line_addr),
        ));
        assert(self.ways() =~= old(self).ways().update(
            set_idx as int,
            ways_after_access(old_sets[set_idx as int].meta@, old_sets[set_idx as int].ways(), line_addr),
        ));
        proof {
            let k = set_idx as int;
            assert forall|s: int| 0 <= s < SETS implies #[trigger] self.sets@[s].lines_map_to(s) by {
                if s != k {
                    assert(self.sets@[s] == old_sets[s]);
                }
            }
        }
        r
    }

    /// Empties every set, as a new cache is.
    pub fn reset(&mut self)
        requires
            old(self).wf(),
        ensures
            final(self).wf(),
            final(self).memory() == old(self).memory(),
            final(self).is_fresh(),
    {
        self.sets = Self::empty_sets();
        assert(self.slots() =~= Seq::new(SETS as nat, |s: int| empty_slots(LINES as nat)));
        assert forall|s: int| 0 <= s < SETS implies #[trigger] self.sets@[s].holds_memory(
            *self.main_memory,
        ) by {
            assert(self.sets@[s].all_empty());
        }
    }

    fn empty_sets() -> (sets: Vec<CacheSet<LINES, LINE_SIZE>>)
        requires
            LINES > 0,
        ensures
            sets@.len() == SETS,
            forall|s: int| 0 <= s < SETS ==> #[trigger] sets@[s].wf(),
            forall|s: int| 0 <= s < SETS ==> #[trigger] sets@[s].all_empty(),
            forall|s: int| 0 <= s < SETS ==> #[trigger] sets@[s].slots() == empty_slots(LINES as nat),
            forall|s: int| 0 <= s < SETS ==> #[trigger] sets@[s].meta@ == initial_way_order(LINES as nat),
            forall|s: int| 0 <= s < SETS ==> #[trigger] sets@[s].ways() == empty_slots(LINES as nat),
    {
        let mut sets: Vec<CacheSet<LINES, LINE_SIZE>> = Vec::new();
        let mut i: usize = 0;
        while i < SETS
            invariant
                LINES > 0,
                i <= SETS,
                sets@.len() == i,
                forall|s: int| 0 <= s < i ==> #[trigger] sets@[s].wf(),
                forall|s: int| 0 <= s < i ==> #[trigger] sets@[s].all_empty(),
                forall|s: int| 0 <= s < i ==> #[trigger] sets@[s].slots() == empty_slots(LINES as nat),
                forall|s: int| 0 <= s < i ==> #[trigger] sets@[s].meta@ == initial_way_order(LINES as nat),
                forall|s: int| 0 <= s < i ==> #[trigger] sets@[s].ways() == empty_slots(LINES as nat),
            decreases SETS - i,
        {
            sets.push(CacheSet::new());
            i += 1;
        }
        sets
    }
}

} // verus!

verus! {

/// The slots of a set after looking up each line of `lines` in turn.
pub open spec fn slots_after_accesses(slots: Seq<Option<usize>>, lines: Seq<usize>) -> Seq<
    Option<usize>,
>
    decreases lines.len(),
{
    if lines.len() == 0 {
        slots
    } else {
        slots_after_accesses(slots_after_access(slots, lines[0]), lines.drop_first())
    }
}

/// A lookup keeps the shape of a set: the same number of slots, empty slots
/// last, and no line cached twice.
pub proof fn law_access_keeps_shape(slots: Seq<Option<usize>>, lines: nat, line_address: usize)
    requires
        slots_wf(slots, lines),
        lines > 0,
    ensures
        slots_wf(slots_after_access(slots, line_address), lines),
{
    let x = Some(line_address);
    let r = slots_after_access(slots, line_address);
    if slots.contains(x) {
        let p = slots.index_of(x);
        let rest = slots.remove(p);
        assert(r == seq![x] + rest);
        assert forall|i: int, j: int| 0 <= i < j < r.len() && r[i] is Some implies r[i] != r[j] by {
            if i == 0 {
                if j - 1 < p {
                    assert(r[j] == slots[j - 1]);
                } else {
                    assert(r[j] == slots[j]);
                }
            } else {
                let si = if i - 1 < p { i - 1 } else { i };
                let sj = if j - 1 < p { j - 1 } else { j };
                assert(r[i] == slots[si]);
                assert(r[j] == slots[sj]);
            }
        }
        assert forall|i: int, j: int| 0 <= i < j < r.len() && r[i] is None implies r[j] is None by {
            let si = if i - 1 < p { i - 1 } else { i };
            let sj = if j - 1 < p { j - 1 } else { j };
            assert(r[i] == slots[si]);
            assert(r[j] == slots[sj]);
        }
    } else {
        assert forall|i: int, j: int| 0 <= i < j < r.len() && r[i] is Some implies r[i] != r[j] by {
            if i == 0 {
                assert(r[j] == slots[j - 1]);
            } else {
                assert(r[i] == slots[i - 1]);
                assert(r[j] == slots[j - 1]);
            }
        }
        assert forall|i: int, j: int| 0 <= i < j < r.len() && r[i] is None implies r[j] is None by {
            assert(r[i] == slots[i - 1]);
            assert(r[j] == slots[j - 1]);
        }
    }
}

/// The line just looked up is the most recently used line of its set, so
/// looking it up again right away is a hit.
pub proof fn law_accessed_line_is_most_recent(slots: Seq<Option<usize>>, line_address: usize)
    ensures
        slots_after_access(slots, line_address)[0] == Some(line_address),
        slots_after_access(slots, line_address).contains(Some(line_address)),
{
    assert(slots_after_access(slots, line_address)[0] == Some(line_address));
}

/// Looking up the line just looked up changes nothing: the set's slots, the
/// recency order of its ways and the lines its ways hold stay as they are.
pub proof fn law_repeated_lookup_is_idempotent(
    order: Seq<usize>,
    ways: Seq<Option<usize>>,
    line_address: usize,
)
    requires
        order.len() > 0,
        order.no_duplicates(),
        forall|i: int| 0 <= i < order.len() ==> #[trigger] order[i] < ways.len(),
        slots_wf(Seq::new(order.len(), |i: int| ways[order[i] as int]), order.len()),
    ensures
        ({
            let slots = Seq::new(order.len(), |i: int| ways[order[i] as int]);
            let order1 = order_after_access(order, ways, line_address);
            let ways1 = ways_after_access(order, ways, line_address);
            let slots1 = slots_after_access(slots, line_address);
            &&& slots1 == Seq::new(order1.len(), |i: int| ways1[order1[i] as int])
            &&& slots_after_access(slots1, line_address) == slots1
            &&& order_after_access(order1, ways1, line_address) == order1
            &&& ways_after_access(order1, ways1, line_address) == ways1
        }),
{
    let x = Some(line_address);
    let slots = Seq::new(order.len(), |i: int| ways[order[i] as int]);
    let order1 = order_after_access(order, ways, line_address);
    let ways1 = ways_after_access(order, ways, line_address);
    let slots1 = slots_after_access(slots, line_address);
    let view1 = Seq::new(order1.len(), |i: int| ways1[order1[i] as int]);
    if slots.contains(x) {
        let p = slots.index_of(x);
        assert(slots[p] == x);
        assert(slots1 =~= view1) by {
            assert forall|i: int| 0 <= i < view1.len() implies view1[i] == slots1[i] by {
                if i > 0 {
                    if i - 1 < p {
                        assert(order1[i] == order[i - 1]);
                        assert(slots1[i] == slots[i - 1]);
                    } else {
                        assert(order1[i] == order[i]);
                        assert(slots1[i] == slots[i]);
                    }
                }
            }
        }
    } else {
        let last = order.last();
        assert(slots1 =~= view1) by {
            assert forall|i: int| 0 <= i < view1.len() implies view1[i] == slots1[i] by {
                if i > 0 {
                    assert(order1[i] == order[i - 1]);
                    assert(slots1[i] == slots[i - 1]);
                    assert(slots[i - 1] != x);
                    if order[i - 1] == last {
                        assert(slots[i - 1] == ways[last as int]);
                    }
                    assert(order[i - 1] != last);
                }
            }
        }
    }
    law_access_keeps_shape(slots, order.len(), line_address);
    assert(slots1[0] == x);
    assert(slots1.contains(x));
    assert(slots1.index_of(x) == 0) by {
        let k = slots1.index_of(x);
        if k != 0 {
            assert(slots1[0] == slots1[k]);
        }
    }
    assert(view1.contains(x));
    assert(view1.index_of(x) == 0);
    assert(slots1.remove(0) =~= slots1.drop_first());
    assert(seq![x] + slots1.drop_first() =~= slots1);
    assert(order1.remove(0) =~= order1.drop_first());
    assert(seq![order1[0]] + order1.drop_first() =~= order1);
}

/// A hit changes only the order of a set: the same lines stay cached.
pub proof fn law_hit_keeps_lines(slots: Seq<Option<usize>>, line_address: usize, other: usize)
    requires
        slots.contains(Some(line_address)),
    ensures
        slots_after_access(slots, line_address).contains(Some(other)) == slots.contains(
            Some(other),
        ),
{
    let x = Some(line_address);
    let p = slots.index_of(x);
    let r = slots_after_access(slots, line_address);
    if slots.contains(Some(other)) {
        let k = choose|k: int| 0 <= k < slots.len() && slots[k] == Some(other);
        if k == p {
            assert(r[0] == Some(other));
        } else if k < p {
            assert(r[k + 1] == Some(other));
        } else {
            assert(r[k] == Some(other));
        }
    }
    if r.contains(Some(other)) {
        let k = choose|k: int| 0 <= k < r.len() && r[k] == Some(other);
        if k == 0 {
            assert(slots[p] == Some(other));
        } else if k - 1 < p {
            assert(slots[k - 1] == Some(other));
        } else {
            assert(slots[k] == Some(other));
        }
    }
}

/// While a set has an empty way, a miss evicts nothing: every line it held
/// is still cached afterwards.
pub proof fn law_no_eviction_while_not_full(
    slots: Seq<Option<usize>>,
    lines: nat,
    line_address: usize,
    other: usize,
)
    requires
        slots_wf(slots, lines),
        slots.contains(None),
        slots.contains(Some(other)),
    ensures
        slots_after_access(slots, line_address).contains(Some(other)),
{
    let r = slots_after_access(slots, line_address);
    let k = choose|k: int| 0 <= k < slots.len() && slots[k] == Some(other);
    let e = choose|e: int| 0 <= e < slots.len() && slots[e] == None::<usize>;
    if !slots.contains(Some(line_address)) {
        if k == slots.len() - 1 {
            assert(e < k);
            assert(false);
        }
        assert(r[k + 1] == Some(other));
    } else {
        law_hit_keeps_lines(slots, line_address, other);
    }
}

/// A miss in a full set evicts exactly its least recently used line: the
/// line in the last slot leaves and every other line stays.
pub proof fn law_miss_evicts_least_recent(
    slots: Seq<Option<usize>>,
    lines: nat,
    line_address: usize,
    other: usize,
)
    requires
        slots_wf(slots, lines),
        lines > 0,
        !slots.contains(None),
        !slots.contains(Some(line_address)),
        slots.contains(Some(other)),
    ensures
        slots_after_access(slots, line_address).contains(Some(other)) == (slots.last() != Some(
            other,
        )),
{
    let r = slots_after_access(slots, line_address);
    let k = choose|k: int| 0 <= k < slots.len() && slots[k] == Some(other);
    if k < slots.len() - 1 {
        assert(r[k + 1] == Some(other));
        assert(slots.last() != Some(other)) by {
            if slots.last() == Some(other) {
                assert(slots[k] == slots[slots.len() - 1]);
            }
        }
    } else {
        assert(slots.last() == Some(other));
        if r.contains(Some(other)) {
            let j = choose|j: int| 0 <= j < r.len() && r[j] == Some(other);
            assert(j > 0);
            assert(slots[j - 1] == Some(other));
            assert(slots[j - 1] == slots[k]);
        }
    }
}

/// Where `line_address` sits after one more lookup: at most one slot further
/// back, or at the front if it was the line looked up.
proof fn lemma_position_after_access(
    slots: Seq<Option<usize>>,
    lines: nat,
    x: usize,
    i: int,
    y: usize,
)
    requires
        slots_wf(slots, lines),
        lines > 0,
        0 <= i < lines,
        i + 1 < lines || x == y,
        slots[i] == Some(x),
    ensures
        exists|j: int|
            0 <= j <= i + 1 && j < lines && #[trigger] slots_after_access(slots, y)[j] == Some(x),
{
    let r = slots_after_access(slots, y);
    if x == y {
        assert(r[0] == Some(x));
    } else if slots.contains(Some(y)) {
        let p = slots.index_of(Some(y));
        if i < p {
            assert(r[i + 1] == Some(x));
        } else {
            assert(r[i] == Some(x));
        }
    } else {
        assert(r[i + 1] == Some(x));
    }
}

/// The least-recently-used guarantee: once a line has been looked up, it
/// stays cached through the next `lines - 1` lookups of its set, whatever
/// lines they are for.
pub proof fn law_line_survives_fewer_than_ways_lookups(
    slots: Seq<Option<usize>>,
    lines: nat,
    line_address: usize,
    later: Seq<usize>,
)
    requires
        slots_wf(slots, lines),
        lines > 0,
        later.len() < lines,
    ensures
        slots_after_accesses(slots_after_access(slots, line_address), later).contains(
            Some(line_address),
        ),
{
    law_access_keeps_shape(slots, lines, line_address);
    law_accessed_line_is_most_recent(slots, line_address);
    lemma_survives(slots_after_access(slots, line_address), lines, line_address, 0, later);
}

proof fn lemma_survives(
    slots: Seq<Option<usize>>,
    lines: nat,
    x: usize,
    i: int,
    later: Seq<usize>,
)
    requires
        slots_wf(slots, lines),
        lines > 0,
        0 <= i,
        i + later.len() < lines,
        slots[i] == Some(x),
    ensures
        slots_after_accesses(slots, later).contains(Some(x)),
    decreases later.len(),
{
    if later.len() == 0 {
        assert(slots.contains(Some(x)));
    } else {
        let y = later[0];
        lemma_position_after_access(slots, lines, x, i, y);
        law_access_keeps_shape(slots, lines, y);
        let next = slots_after_access(slots, y);
        let j = choose|j: int| 0 <= j <= i + 1 && j < lines && #[trigger] next[j] == Some(x);
        lemma_survives(next, lines, x, j, later.drop_first());
    }
}

} // verus!

verus! {

/// The slots of every set of an empty cache.
pub open spec fn empty_cache(sets: nat, lines: nat) -> Seq<Seq<Option<usize>>> {
    Seq::new(sets, |s: int| empty_slots(lines))
}

/// A lookup of `address` in a cache whose sets have these slots finds its
/// line cached.
pub open spec fn lookup_hits(
    slots: Seq<Seq<Option<usize>>>,
    address: usize,
    line_size: int,
    lines: int,
) -> bool {
    slots[set_index(address as int, line_size, lines)].contains(
        Some(line_start(address as int, line_size) as usize),
    )
}

/// The slots of every set after a lookup of `address`: only its set changes.
pub open spec fn cache_after_access(
    slots: Seq<Seq<Option<usize>>>,
    address: usize,
    line_size: int,
    lines: int,
) -> Seq<Seq<Option<usize>>> {
    let s = set_index(address as int, line_size, lines);
    slots.update(s, slots_after_access(slots[s], line_start(address as int, line_size) as usize))
}

/// The slots of every set after looking up each address in turn.
pub open spec fn cache_after_run(
    slots: Seq<Seq<Option<usize>>>,
    addresses: Seq<usize>,
    line_size: int,
    lines: int,
) -> Seq<Seq<Option<usize>>>
    decreases addresses.len(),
{
    if addresses.len() == 0 {
        slots
    } else {
        cache_after_access(
            cache_after_run(slots, addresses.drop_last(), line_size, lines),
            addresses.last(),
            line_size,
            lines,
        )
    }
}

/// How many of the lookups of `addresses`, in turn, are hits.
pub open spec fn hits_in_run(
    slots: Seq<Seq<Option<usize>>>,
    addresses: Seq<usize>,
    line_size: int,
    lines: int,
) -> nat
    decreases addresses.len(),
{
    if addresses.len() == 0 {
        0
    } else {
        hits_in_run(slots, addresses.drop_last(), line_size, lines) + if lookup_hits(
            cache_after_run(slots, addresses.drop_last(), line_size, lines),
            addresses.last(),
            line_size,
            lines,
        ) {
            1nat
        } else {
            0nat
        }
    }
}

/// Looking up the same address twice in a row, the second lookup is a hit.
pub proof fn law_repeated_lookup_hits(
    slots: Seq<Seq<Option<usize>>>,
    address: usize,
    line_size: int,
    lines: int,
)
    requires
        line_size > 0,
        lines > 0,
        set_index(address as int, line_size, lines) < slots.len(),
    ensures
        lookup_hits(cache_after_access(slots, address, line_size, lines), address, line_size, lines),
{
    let s = set_index(address as int, line_size, lines);
    assert(0 <= s) by (nonlinear_arith)
        requires
            s == address as int / line_size % lines,
            lines > 0,
    ;
    law_accessed_line_is_most_recent(slots[s], line_start(address as int, line_size) as usize);
}

/// In an empty cache the first lookup of any address is a miss.
pub proof fn law_first_lookup_misses(sets: nat, lines: nat, address: usize, line_size: int)
    requires
        line_size > 0,
        lines > 0,
        set_index(address as int, line_size, lines as int) < sets,
    ensures
        !lookup_hits(empty_cache(sets, lines), address, line_size, lines as int),
{
    let s = set_index(address as int, line_size, lines as int);
    assert(0 <= s) by (nonlinear_arith)
        requires
            s == address as int / line_size % lines as int,
            lines > 0,
    ;
    let x = Some(line_start(address as int, line_size) as usize);
    if empty_cache(sets, lines)[s].contains(x) {
        let k = choose|k: int| 0 <= k < lines && empty_cache(sets, lines)[s][k] == x;
        assert(empty_slots(lines)[k] is None);
    }
}

/// The lines of `ls`, each once, most recently looked up first.
pub open spec fn recency(ls: Seq<usize>) -> Seq<usize>
    decreases ls.len(),
{
    if ls.len() == 0 {
        Seq::empty()
    } else {
        let r = recency(ls.drop_last());
        let x = ls.last();
        if r.contains(x) {
            seq![x] + r.remove(r.index_of(x))
        } else {
            seq![x] + r
        }
    }
}

/// The slots of a set of `n` ways that holds the lines of `r`, in that
/// order, as far as they fit.
pub open spec fn slots_holding(r: Seq<usize>, n: nat) -> Seq<Option<usize>> {
    Seq::new(n, |i: int| if i < r.len() { Some(r[i]) } else { None })
}

proof fn lemma_recency(ls: Seq<usize>)
    ensures
        recency(ls).no_duplicates(),
        forall|y: usize| recency(ls).contains(y) <==> ls.contains(y),
    decreases ls.len(),
{
    if ls.len() > 0 {
        let l0 = ls.drop_last();
        lemma_recency(l0);
        let r = recency(l0);
        let x = ls.last();
        let r2 = recency(ls);
        if r.contains(x) {
            let p = r.index_of(x);
            let rest = r.remove(p);
            assert forall|i: int, j: int| 0 <= i < j < r2.len() implies r2[i] != r2[j] by {
                if i == 0 {
                    if j - 1 < p {
                        assert(r2[j] == r[j - 1]);
                        assert(r[j - 1] != r[p]);
                    } else {
                        assert(r2[j] == r[j]);
                        assert(r[j] != r[p]);
                    }
                } else {
                    let a = if i - 1 < p { i - 1 } else { i };
                    let b = if j - 1 < p { j - 1 } else { j };
                    assert(r2[i] == r[a]);
                    assert(r2[j] == r[b]);
                }
            }
            assert forall|y: usize| r2.contains(y) <==> ls.contains(y) by {
                if ls.contains(y) {
                    let k = choose|k: int| 0 <= k < ls.len() && ls[k] == y;
                    if y != x {
                        assert(l0[k] == y);
                        assert(l0.contains(y));
                        let q = choose|q: int| 0 <= q < r.len() && r[q] == y;
                        if q < p {
                            assert(r2[q + 1] == y);
                        } else {
                            assert(q != p);
                            assert(r2[q] == y);
                        }
                    } else {
                        assert(r2[0] == y);
                    }
                }
                if r2.contains(y) {
                    let q = choose|q: int| 0 <= q < r2.len() && r2[q] == y;
                    if q == 0 {
                        assert(ls[ls.len() - 1] == y);
                    } else {
                        let a = if q - 1 < p { q - 1 } else { q };
                        assert(r[a] == y);
                        assert(r.contains(y));
                        assert(l0.contains(y));
                        let k = choose|k: int| 0 <= k < l0.len() && l0[k] == y;
                        assert(ls[k] == y);
                    }
                }
            }
        } else {
            assert forall|i: int, j: int| 0 <= i < j < r2.len() implies r2[i] != r2[j] by {
                if i == 0 {
                    assert(r2[j] == r[j - 1]);
                } else {
                    assert(r2[i] == r[i - 1]);
                    assert(r2[j] == r[j - 1]);
                }
            }
            assert forall|y: usize| r2.contains(y) <==> ls.contains(y) by {
                if ls.contains(y) {
                    let k = choose|k: int| 0 <= k < ls.len() && ls[k] == y;
                    if k < ls.len() - 1 {
                        assert(l0[k] == y);
                        assert(l0.contains(y));
                        let q = choose|q: int| 0 <= q < r.len() && r[q] == y;
                        assert(r2[q + 1] == y);
                    } else {
                        assert(r2[0] == y);
                    }
                }
                if r2.contains(y) {
                    let q = choose|q: int| 0 <= q < r2.len() && r2[q] == y;
                    if q == 0 {
                        assert(ls[ls.len() - 1] == y);
                    } else {
                        assert(r[q - 1] == y);
                        assert(r.contains(y));
                        assert(l0.contains(y));
                        let k = choose|k: int| 0 <= k < l0.len() && l0[k] == y;
                        assert(ls[k] == y);
                    }
                }
            }
        }
    }
}

proof fn lemma_accesses_push(slots: Seq<Option<usize>>, ls: Seq<usize>, x: usize)
    ensures
        slots_after_accesses(slots, ls.push(x)) == slots_after_access(
            slots_after_accesses(slots, ls),
            x,
        ),
    decreases ls.len(),
{
    if ls.len() == 0 {
        assert(ls.push(x).drop_first() =~= Seq::<usize>::empty());
        assert(slots_after_accesses(slots, ls) == slots);
        assert(slots_after_accesses(slots_after_access(slots, x), Seq::<usize>::empty())
            == slots_after_access(slots, x));
    } else {
        assert(ls.push(x).drop_first() =~= ls.drop_first().push(x));
        assert(ls.push(x)[0] == ls[0]);
        lemma_accesses_push(slots_after_access(slots, ls[0]), ls.drop_first(), x);
        assert(slots_after_accesses(slots, ls) == slots_after_accesses(
            slots_after_access(slots, ls[0]),
            ls.drop_first(),
        ));
    }
}

/// From an empty set, the slots hold the lines looked up, each once, most
/// recently looked up first, as far as they fit.
proof fn lemma_slots_follow_recency(n: nat, ls: Seq<usize>)
    requires
        n > 0,
    ensures
        slots_after_accesses(empty_slots(n), ls) == slots_holding(recency(ls), n),
    decreases ls.len(),
{
    if ls.len() == 0 {
        assert(slots_holding(recency(ls), n) =~= empty_slots(n));
    } else {
        let l0 = ls.drop_last();
        let x = ls.last();
        assert(l0.push(x) =~= ls);
        lemma_slots_follow_recency(n, l0);
        lemma_accesses_push(empty_slots(n), l0, x);
        lemma_recency(l0);
        let r = recency(l0);
        let sl = slots_holding(r, n);
        let s2 = slots_after_access(sl, x);
        let r2 = recency(ls);
        let want = slots_holding(r2, n);
        if r.contains(x) {
            let p = r.index_of(x);
            assert(r[p] == x);
            assert forall|i: int| 0 <= i < r.len() && r[i] == x implies i == p by {
                if i != p {
                    assert(r[i] != r[p]);
                }
            }
            if p < n {
                assert(sl[p] == Some(x));
                assert(sl.contains(Some(x)));
                let q = sl.index_of(Some(x));
                assert(sl[q] == Some(x));
                assert(q == p);
                assert(s2 =~= want) by {
                    assert forall|i: int| 0 <= i < n implies s2[i] == want[i] by {
                        if i > 0 {
                            if i - 1 < p {
                                assert(r2[i] == r[i - 1]);
                            } else {
                                if i < r2.len() {
                                    assert(r2[i] == r[i]);
                                }
                            }
                        }
                    }
                }
            } else {
                assert(!sl.contains(Some(x))) by {
                    if sl.contains(Some(x)) {
                        let q = choose|q: int| 0 <= q < sl.len() && sl[q] == Some(x);
                        assert(r[q] == x);
                    }
                }
                assert(s2 =~= want) by {
                    assert forall|i: int| 0 <= i < n implies s2[i] == want[i] by {
                        if i > 0 {
                            assert(r2[i] == r[i - 1]);
                        }
                    }
                }
            }
        } else {
            assert(!sl.contains(Some(x))) by {
                if sl.contains(Some(x)) {
                    let q = choose|q: int| 0 <= q < sl.len() && sl[q] == Some(x);
                    assert(r[q] == x);
                }
            }
            assert(s2 =~= want) by {
                assert forall|i: int| 0 <= i < n implies s2[i] == want[i] by {
                    if i > 0 && i < r2.len() {
                        assert(r2[i] == r[i - 1]);
                    }
                }
            }
        }
    }
}

/// After `u`, then `x`, then lines `t` none of which is `x`, the lines
/// before `x` in recency order are those of `t`, in their own recency order.
proof fn lemma_recency_since(u: Seq<usize>, x: usize, t: Seq<usize>)
    requires
        !t.contains(x),
    ensures
        ({
            let big = recency(u.push(x) + t);
            let m = recency(t).len();
            &&& m < big.len()
            &&& big.subrange(0, m as int) == recency(t)
            &&& big[m as int] == x
        }),
    decreases t.len(),
{
    if t.len() == 0 {
        assert(u.push(x) + t =~= u.push(x));
        assert(u.push(x).drop_last() =~= u);
    } else {
        let t0 = t.drop_last();
        let y = t.last();
        assert(!t0.contains(x)) by {
            if t0.contains(x) {
                let k = choose|k: int| 0 <= k < t0.len() && t0[k] == x;
                assert(t[k] == x);
            }
        }
        assert(y != x);
        lemma_recency_since(u, x, t0);
        let w0 = u.push(x) + t0;
        assert((u.push(x) + t).drop_last() =~= w0);
        assert((u.push(x) + t).last() == y);
        lemma_recency(w0);
        lemma_recency(t0);
        let big0 = recency(w0);
        let m0 = recency(t0).len();
        let rt0 = recency(t0);
        let big = recency(u.push(x) + t);
        let rt = recency(t);
        assert(t0.push(y) =~= t);
        assert(t.drop_last() =~= t0);
        if t0.contains(y) {
            assert(rt0.contains(y));
            let qq = rt0.index_of(y);
            assert(big0[qq] == y);
            assert(big0.contains(y));
            let q = big0.index_of(y);
            assert(q == qq) by {
                if q != qq {
                    assert(big0[q] != big0[qq]);
                }
            }
            assert(rt.len() == m0);
            assert(big.subrange(0, m0 as int) =~= rt) by {
                assert forall|i: int| 0 <= i < m0 implies big[i] == rt[i] by {
                    if i > 0 {
                        if i - 1 < q {
                            assert(big[i] == big0[i - 1]);
                            assert(rt[i] == rt0[i - 1]);
                        } else {
                            assert(big[i] == big0[i]);
                            assert(rt[i] == rt0[i]);
                        }
                    }
                }
            }
            assert(big[m0 as int] == big0[m0 as int]);
        } else {
            assert(!rt0.contains(y));
            assert(rt.len() == m0 + 1);
            if big0.contains(y) {
                let q = big0.index_of(y);
                assert(big0[q] == y);
                assert(q > m0) by {
                    if q < m0 {
                        assert(rt0[q] == big0.subrange(0, m0 as int)[q]);
                        assert(rt0.contains(y));
                    }
                }
                assert(big.subrange(0, m0 + 1 as int) =~= rt) by {
                    assert forall|i: int| 0 <= i < m0 + 1 implies big[i] == rt[i] by {
                        if i > 0 {
                            assert(big[i] == big0[i - 1]);
                            assert(rt[i] == rt0[i - 1]);
                            assert(rt0[i - 1] == big0.subrange(0, m0 as int)[i - 1]);
                        }
                    }
                }
                assert(big[m0 + 1 as int] == big0[m0 as int]);
            } else {
                assert(big.subrange(0, m0 + 1 as int) =~= rt) by {
                    assert forall|i: int| 0 <= i < m0 + 1 implies big[i] == rt[i] by {
                        if i > 0 {
                            assert(big[i] == big0[i - 1]);
                            assert(rt[i] == rt0[i - 1]);
                            assert(rt0[i - 1] == big0.subrange(0, m0 as int)[i - 1]);
                        }
                    }
                }
                assert(big[m0 + 1 as int] == big0[m0 as int]);
            }
        }
    }
}

/// The least-recently-used rule, exactly. In a set of `n` ways that starts
/// empty, after lookups of the lines `u`, then `x`, then the lines `t`, none
/// of which is `x`, the line `x` is still cached, so that looking it up hits,
/// if and only if `t` holds fewer than `n` distinct lines.
pub proof fn law_hit_iff_fewer_than_ways_distinct_lines_since(
    n: nat,
    u: Seq<usize>,
    x: usize,
    t: Seq<usize>,
)
    requires
        n > 0,
        !t.contains(x),
    ensures
        slots_after_accesses(empty_slots(n), u.push(x) + t).contains(Some(x)) <==> t.to_set().len()
            < n,
{
    let ls = u.push(x) + t;
    lemma_slots_follow_recency(n, ls);
    lemma_recency_since(u, x, t);
    lemma_recency(ls);
    lemma_recency(t);
    let big = recency(ls);
    let m = recency(t).len();
    recency(t).unique_seq_to_set();
    assert(recency(t).to_set() =~= t.to_set());
    let sl = slots_holding(big, n);
    if m < n {
        assert(sl[m as int] == Some(x));
    }
    if sl.contains(Some(x)) {
        let q = choose|q: int| 0 <= q < sl.len() && sl[q] == Some(x);
        assert(big[q] == x);
        if q != m {
            assert(big[q] != big[m as int]);
        }
    }
}

/// A line that was never looked up is not cached: looking it up misses.
pub proof fn law_unseen_line_misses(n: nat, ls: Seq<usize>, x: usize)
    requires
        n > 0,
        !ls.contains(x),
    ensures
        !slots_after_accesses(empty_slots(n), ls).contains(Some(x)),
{
    lemma_slots_follow_recency(n, ls);
    lemma_recency(ls);
    let sl = slots_holding(recency(ls), n);
    if sl.contains(Some(x)) {
        let q = choose|q: int| 0 <= q < sl.len() && sl[q] == Some(x);
        assert(recency(ls)[q] == x);
        assert(recency(ls).contains(x));
    }
}

/// The lines, by their first address, of the addresses of `addresses` that
/// fall in set `s`, in the order they are looked up.
pub open spec fn set_lines(addresses: Seq<usize>, s: int, line_size: int, lines: int) -> Seq<usize>
    decreases addresses.len(),
{
    if addresses.len() == 0 {
        Seq::empty()
    } else {
        let rest = set_lines(addresses.drop_last(), s, line_size, lines);
        let a = addresses.last();
        if set_index(a as int, line_size, lines) == s {
            rest.push(line_start(a as int, line_size) as usize)
        } else {
            rest
        }
    }
}

/// Every address of `addresses` falls in one of `sets` sets.
pub open spec fn all_in_sets(addresses: Seq<usize>, sets: nat, line_size: int, lines: int) -> bool {
    forall|i: int|
        0 <= i < addresses.len() ==> #[trigger] set_index(addresses[i] as int, line_size, lines) < sets
}

proof fn lemma_run_by_sets(sets: nat, lines: nat, line_size: int, addresses: Seq<usize>)
    requires
        lines > 0,
        line_size > 0,
        all_in_sets(addresses, sets, line_size, lines as int),
    ensures
        cache_after_run(empty_cache(sets, lines), addresses, line_size, lines as int) == Seq::new(
            sets,
            |s: int|
                slots_after_accesses(empty_slots(lines), set_lines(addresses, s, line_size, lines as int)),
        ),
    decreases addresses.len(),
{
    let want = Seq::new(
        sets,
        |s: int| slots_after_accesses(empty_slots(lines), set_lines(addresses, s, line_size, lines as int)),
    );
    if addresses.len() == 0 {
        assert forall|s: int| 0 <= s < sets implies want[s] == empty_slots(lines) by {
            assert(slots_after_accesses(empty_slots(lines), Seq::<usize>::empty()) == empty_slots(lines));
        }
        assert(empty_cache(sets, lines) =~= want);
    } else {
        let prefix = addresses.drop_last();
        let a = addresses.last();
        assert(all_in_sets(prefix, sets, line_size, lines as int)) by {
            assert forall|i: int| 0 <= i < prefix.len() implies #[trigger] set_index(
                prefix[i] as int,
                line_size,
                lines as int,
            ) < sets by {
                assert(prefix[i] == addresses[i]);
            }
        }
        lemma_run_by_sets(sets, lines, line_size, prefix);
        let si = set_index(a as int, line_size, lines as int);
        assert(set_index(addresses[addresses.len() - 1] as int, line_size, lines as int) < sets);
        let line = line_start(a as int, line_size) as usize;
        lemma_accesses_push(empty_slots(lines), set_lines(prefix, si, line_size, lines as int), line);
        let got = cache_after_run(empty_cache(sets, lines), addresses, line_size, lines as int);
        assert(got =~= want) by {
            assert forall|s: int| 0 <= s < sets implies got[s] == want[s] by {
                if s != si {
                    assert(set_lines(addresses, s, line_size, lines as int) == set_lines(
                        prefix,
                        s,
                        line_size,
                        lines as int,
                    ));
                }
            }
        }
    }
}

proof fn lemma_set_lines_append(x: Seq<usize>, y: Seq<usize>, s: int, line_size: int, lines: int)
    ensures
        set_lines(x + y, s, line_size, lines) == set_lines(x, s, line_size, lines) + set_lines(
            y,
            s,
            line_size,
            lines,
        ),
    decreases y.len(),
{
    if y.len() == 0 {
        assert(x + y =~= x);
        assert(set_lines(x, s, line_size, lines) + Seq::<usize>::empty() =~= set_lines(
            x,
            s,
            line_size,
            lines,
        ));
    } else {
        assert((x + y).drop_last() =~= x + y.drop_last());
        assert((x + y).last() == y.last());
        lemma_set_lines_append(x, y.drop_last(), s, line_size, lines);
        let sx = set_lines(x, s, line_size, lines);
        let sy0 = set_lines(y.drop_last(), s, line_size, lines);
        if set_index(y.last() as int, line_size, lines) == s {
            assert((sx + sy0).push(line_start(y.last() as int, line_size) as usize) =~= sx + sy0.push(
                line_start(y.last() as int, line_size) as usize,
            ));
        }
    }
}

/// Addresses on one line have one line start, and only they do.
proof fn lemma_same_line(x: usize, y: usize, line_size: int)
    requires
        line_size > 0,
    ensures
        (line_start(x as int, line_size) as usize == line_start(y as int, line_size) as usize) <==> (x
            as int / line_size == y as int / line_size),
{
    lemma_line_start_aligned(x as int, line_size);
    lemma_line_start_aligned(y as int, line_size);
    let qx = x as int / line_size;
    let qy = y as int / line_size;
    if qx * line_size == qy * line_size {
        assert(qx == qy) by (nonlinear_arith)
            requires
                qx * line_size == qy * line_size,
                line_size > 0,
        ;
    }
}

proof fn lemma_set_lines_miss(y: Seq<usize>, s: int, line_size: int, lines: int, x: usize)
    requires
        line_size > 0,
        forall|i: int| 0 <= i < y.len() ==> #[trigger] y[i] as int / line_size != x as int / line_size,
    ensures
        !set_lines(y, s, line_size, lines).contains(line_start(x as int, line_size) as usize),
    decreases y.len(),
{
    if y.len() > 0 {
        let y0 = y.drop_last();
        assert forall|i: int| 0 <= i < y0.len() implies #[trigger] y0[i] as int / line_size != x as int
            / line_size by {
            assert(y0[i] == y[i]);
        }
        lemma_set_lines_miss(y0, s, line_size, lines, x);
        assert(y[y.len() - 1] as int / line_size != x as int / line_size);
        lemma_same_line(y.last(), x, line_size);
    }
}

/// The least-recently-used rule over a run of lookups of the whole cache.
/// Starting from an empty cache of `sets` sets of `lines` ways, look up the
/// addresses `before`, then `a`, then `after`, none of which lies on the
/// line of `a`. A lookup of an address `b` on the line of `a` then hits if
/// and only if `after` looks up fewer than `lines` distinct lines of the set
/// of `a`.
pub proof fn law_cache_hit_iff_fewer_than_ways_distinct_lines_since(
    sets: nat,
    lines: nat,
    line_size: int,
    before: Seq<usize>,
    a: usize,
    after: Seq<usize>,
    b: usize,
)
    requires
        lines > 0,
        line_size > 0,
        all_in_sets(before.push(a) + after, sets, line_size, lines as int),
        b as int / line_size == a as int / line_size,
        forall|i: int| 0 <= i < after.len() ==> #[trigger] after[i] as int / line_size != a as int / line_size,
    ensures
        lookup_hits(
            cache_after_run(empty_cache(sets, lines), before.push(a) + after, line_size, lines as int),
            b,
            line_size,
            lines as int,
        ) <==> set_lines(after, set_index(a as int, line_size, lines as int), line_size, lines as int).to_set().len()
            < lines,
{
    let all = before.push(a) + after;
    let si = set_index(a as int, line_size, lines as int);
    let line = line_start(a as int, line_size) as usize;
    lemma_run_by_sets(sets, lines, line_size, all);
    assert(all[before.len() as int] == a);
    assert(si < sets);
    assert(0 <= si) by {
        assert(0 <= (a as int / line_size) % (lines as int));
    }
    lemma_set_lines_append(before.push(a), after, si, line_size, lines as int);
    assert(before.push(a).drop_last() =~= before);
    let u = set_lines(before, si, line_size, lines as int);
    let t = set_lines(after, si, line_size, lines as int);
    assert(set_lines(all, si, line_size, lines as int) == u.push(line) + t);
    lemma_set_lines_miss(after, si, line_size, lines as int, a);
    law_hit_iff_fewer_than_ways_distinct_lines_since(lines, u, line, t);
    lemma_same_line(b, a, line_size);
    assert(set_index(b as int, line_size, lines as int) == si);
}

/// In a cache that started empty, an address on a line that no lookup so
/// far touched misses.
pub proof fn law_cache_unseen_line_misses(
    sets: nat,
    lines: nat,
    line_size: int,
    addresses: Seq<usize>,
    b: usize,
)
    requires
        lines > 0,
        line_size > 0,
        all_in_sets(addresses, sets, line_size, lines as int),
        set_index(b as int, line_size, lines as int) < sets,
        forall|i: int| 0 <= i < addresses.len() ==> #[trigger] addresses[i] as int / line_size != b as int / line_size,
    ensures
        !lookup_hits(
            cache_after_run(empty_cache(sets, lines), addresses, line_size, lines as int),
            b,
            line_size,
            lines as int,
        ),
{
    let si = set_index(b as int, line_size, lines as int);
    assert(0 <= si) by {
        assert(0 <= (b as int / line_size) % (lines as int));
    }
    lemma_run_by_sets(sets, lines, line_size, addresses);
    lemma_set_lines_miss(addresses, si, line_size, lines as int, b);
    law_unseen_line_misses(lines, set_lines(addresses, si, line_size, lines as int), line_start(b as int, line_size) as usize);
}

} // verus!
