//! A zone: one physically contiguous run of pages managed by a binary buddy
//! tree stored as a byte arena, one level after another.
use vstd::prelude::*;
use crate::addr::{MAX_PHYS_ADDR, PAGE_SIZE};
use crate::block::{Block, MAX_ORDER};
use crate::tree::{
    allocs_valid, anc, arena_len, in_subtree, lemma_anc_step, lemma_unnested_disjoint, lemma_empty_is_full,
    lemma_frame, lemma_full, lemma_layout, lemma_layout_closed_form, lemma_level_nonneg, lemma_model_bound, lemma_node_in_arena,
    lemma_level_len_pages, lemma_pos_distinct, lemma_pow2_positive, lemma_pow2_strictly_increasing, level_len, level_off,
    descend, model, node_pos, pow2, valid_node,
};

verus! {

/// A run of page frames, by physical address: `start` inclusive, `end` exclusive.
#[derive(Clone, Copy, Debug, PartialEq, Eq, Structural)]
pub struct FrameRange {
    pub start: u64,
    pub end: u64,
}

/// The frames of block `i` of order `o` in a zone whose first page is at `start`.
pub open spec fn block_range(start: int, o: int, i: int) -> (int, int) {
    (start + i * pow2(o) * 4096, start + (i + 1) * pow2(o) * 4096)
}

/// Whether `r` covers the frames of block `x` of a zone starting at `start`.
pub open spec fn covers(r: FrameRange, start: int, x: (int, int)) -> bool {
    (r.start as int, r.end as int) == block_range(start, x.0, x.1)
}

/// `after` is `before` with one more block of order `o`, not live before,
/// whose frames are `fr`.
pub open spec fn grew_by(
    before: Set<(int, int)>,
    after: Set<(int, int)>,
    start: int,
    fr: FrameRange,
    o: int,
) -> bool {
    exists|i: int|
        !before.contains((o, i)) && after == before.insert((o, i)) && #[trigger] covers(
            fr,
            start,
            (o, i),
        )
}

/// `fr` covers the block that a search for a free block of `order` finds in
/// `z`: from the first top-level node that holds one, down the tree, left
/// child first.
pub open spec fn first_fit_block(z: Zone, order: int, fr: FrameRange) -> bool {
    exists|j: int|
        0 <= j < z.top() && z.top_node(j) > order && (forall|j2: int|
            0 <= j2 < j ==> #[trigger] z.top_node(j2) <= order) && #[trigger] covers(
            fr,
            z.start(),
            (order, descend(z.allocated(), z.pages(), 11, j, order)),
        )
}

/// Number of nodes on the top level of the tree of a zone of `n` pages.
pub open spec fn top_blocks(n: int) -> int {
    (n + 2047) / 2048
}

/// Number of nodes in the tree of a zone of `n` pages.
pub open spec fn spec_blocks_in_region(n: int) -> int {
    top_blocks(n) * 4095
}

/// A buddy allocator over `num_pages` pages from `start`. Node `i` of level
/// `k` stands for pages `i * 2^k .. (i + 1) * 2^k` and holds, as a `Block`
/// byte, the largest order free beneath it; the levels lie one after another
/// in `arena`, top level first, from `level_start[k]` on.
pub struct Zone {
    start: u64,
    num_pages: usize,
    top: usize,
    level_start: Vec<usize>,
    arena: Vec<u8>,
    tree_addr: u64,
    allocated: Ghost<Set<(int, int)>>,
}

impl Zone {
    /// Physical address of the zone's first page.
    pub closed spec fn start(&self) -> int {
        self.start as int
    }

    /// Number of pages the zone manages.
    pub closed spec fn pages(&self) -> int {
        self.num_pages as int
    }

    /// The live allocations, each as an order and an index on that order's level.
    pub closed spec fn allocated(&self) -> Set<(int, int)> {
        self.allocated@
    }

    /// Physical address of the memory that holds the zone's tree.
    pub closed spec fn tree_addr(&self) -> int {
        self.tree_addr as int
    }

    /// Bytes of the zone's tree: one per node.
    pub closed spec fn tree_len(&self) -> int {
        self.arena@.len() as int
    }

    /// Number of nodes on the top level.
    pub closed spec fn top(&self) -> int {
        self.top as int
    }

    /// The byte held by node `i` of level `k`.
    pub closed spec fn stored(&self, k: int, i: int) -> int {
        self.arena@[node_pos(self.top as int, k, i)] as int
    }

    /// The largest free order recorded at node `i` of the top level, as a byte.
    pub open spec fn top_node(&self, i: int) -> int {
        self.stored(MAX_ORDER as int, i)
    }

    /// Whether `r` is a live allocation of this zone.
    pub open spec fn is_live(&self, r: FrameRange) -> bool {
        exists|x: (int, int)| #[trigger] self.allocated().contains(x) && covers(r, self.start(), x)
    }

    pub closed spec fn wf_shape(&self) -> bool {
        &&& self.start % 4096 == 0
        &&& self.start + self.num_pages * 4096 <= MAX_PHYS_ADDR
        &&& self.top == top_blocks(self.num_pages as int)
        &&& self.level_start@.len() == 12
        &&& forall|k: int| 0 <= k <= 11 ==> #[trigger] self.level_start@[k] == level_off(self.top as int, k)
        &&& self.arena@.len() == arena_len(self.top as int)
    }

    pub closed spec fn wf_tree(&self) -> bool {
        forall|k: int, i: int|
            valid_node(self.top as int, k, i) ==> #[trigger] self.stored(k, i) == model(
                self.allocated@,
                self.num_pages as int,
                k,
                i,
            )
    }

    /// The zone's invariant: the tree records, at every node, the largest
    /// free order beneath it given the live allocations.
    pub closed spec fn wf(&self) -> bool {
        &&& self.wf_shape()
        &&& allocs_valid(self.allocated@, self.num_pages as int)
        &&& self.wf_tree()
    }

    fn node(&self, k: usize, i: usize) -> (r: u8)
        requires
            self.wf_shape(),
            valid_node(self.top as int, k as int, i as int),
        ensures
            r as int == self.stored(k as int, i as int),
    {
        let _len = self.arena.len();
        proof {
            lemma_node_in_arena(self.top as int, k as int, i as int);
            assert(self.level_start@[k as int] == level_off(self.top as int, k as int));
        }
        self.arena[self.level_start[k] + i]
    }

    fn set_node(&mut self, k: usize, i: usize, v: u8)
        requires
            old(self).wf_shape(),
            valid_node(old(self).top as int, k as int, i as int),
        ensures
            final(self).wf_shape(),
            final(self).start == old(self).start,
            final(self).num_pages == old(self).num_pages,
            final(self).top == old(self).top,
            final(self).allocated == old(self).allocated,
            final(self).stored(k as int, i as int) == v as int,
            forall|k2: int, i2: int|
                valid_node(old(self).top as int, k2, i2) && (k2 != k || i2 != i) ==> #[trigger] final(self).stored(k2, i2)
                    == old(self).stored(k2, i2),
    {
        let _len = self.arena.len();
        proof {
            lemma_node_in_arena(self.top as int, k as int, i as int);
            lemma_pos_distinct(self.top as int, k as int, i as int);
            assert(self.level_start@[k as int] == level_off(self.top as int, k as int));
        }
        let p = self.level_start[k] + i;
        let ghost before = self.arena@;
        self.arena.set(p, v);
        proof {
            assert forall|k2: int, i2: int|
                valid_node(self.top as int, k2, i2) && (k2 != k || i2 != i) implies #[trigger] self.stored(k2, i2)
                    == old(self).stored(k2, i2) by {
                lemma_node_in_arena(self.top as int, k2, i2);
                assert(node_pos(self.top as int, k2, i2) != node_pos(self.top as int, k as int, i as int));
                assert(self.arena@[node_pos(self.top as int, k2, i2)] == before[node_pos(self.top as int, k2, i2)]);
            }
        }
    }

    /// Walks from node `idx` of level `order` up to the top, setting each
    /// ancestor to the state of its two children.
    fn update_tree(&mut self, order: usize, idx: usize)
        requires
            old(self).wf_shape(),
            allocs_valid(old(self).allocated@, old(self).num_pages as int),
            order <= 11,
            valid_node(old(self).top as int, order as int, idx as int),
            forall|k: int, i: int|
                valid_node(old(self).top as int, k, i) && !(k > order && i == anc(
                    order as int,
                    idx as int,
                    k,
                )) ==> #[trigger] old(self).stored(k, i) == model(
                    old(self).allocated@,
                    old(self).num_pages as int,
                    k,
                    i,
                ),
            forall|k: int|
                order < k <= 11 ==> !old(self).allocated@.contains(
                    (k, #[trigger] anc(order as int, idx as int, k)),
                ),
        ensures
            final(self).wf(),
            final(self).start == old(self).start,
            final(self).num_pages == old(self).num_pages,
            final(self).top == old(self).top,
            final(self).allocated == old(self).allocated,
    {
        let ghost allocs = self.allocated@;
        let ghost n = self.num_pages as int;
        let ghost top = self.top as int;
        let mut cur: usize = order + 1;
        let mut i: usize = idx;
        while cur <= 11
            invariant
                self.wf_shape(),
                self.allocated@ == allocs,
                self.num_pages == n,
                self.top == top,
                self.start == old(self).start,
                allocs_valid(allocs, n),
                order < cur <= 12,
                i == anc(order as int, idx as int, cur - 1),
                valid_node(top, cur - 1, i as int),
                forall|k: int, j: int|
                    valid_node(top, k, j) && !(k >= cur && j == anc(order as int, idx as int, k))
                        ==> #[trigger] self.stored(k, j) == model(allocs, n, k, j),
                forall|k: int|
                    order < k <= 11 ==> !allocs.contains((k, #[trigger] anc(order as int, idx as int, k))),
            decreases 12 - cur,
        {
            let p = i / 2;
            proof {
                assert(anc(order as int, idx as int, cur as int) == i / 2);
                assert(level_len(top, cur - 1) == 2 * level_len(top, cur as int));
                assert(!(cur - 1 >= cur));
            }
            let left = self.node(cur - 1, 2 * p);
            let right = self.node(cur - 1, 2 * p + 1);
            proof {
                lemma_model_bound(allocs, n, cur - 1, 2 * p);
                lemma_model_bound(allocs, n, cur - 1, 2 * p + 1);
            }
            let v = Block::parent_state(Block::from_byte(left), Block::from_byte(right), (cur - 1) as u8);
            self.set_node(cur, p, v.to_byte());
            proof {
                assert(!allocs.contains((cur as int, anc(order as int, idx as int, cur as int))));
                assert(self.stored(cur as int, p as int) == model(allocs, n, cur as int, p as int));
                assert forall|k: int, j: int|
                    valid_node(top, k, j) && !(k >= cur + 1 && j == anc(order as int, idx as int, k))
                        implies #[trigger] self.stored(k, j) == model(allocs, n, k, j) by {
                    if k == cur && j == p {
                    } else {
                        assert(!(k >= cur && j == anc(order as int, idx as int, k)));
                    }
                }
            }
            i = p;
            cur = cur + 1;
        }
    }

    /// Builds the zone over the `size / PAGE_SIZE` pages at `addr`, with
    /// `blocks` as the tree's arena. The arena arrives zero-filled, that is
    /// with every node `Used`: each existing page becomes a free leaf, and each
    /// level above is the `parent_state` of the level below, so the pages past
    /// the end of the zone are never reported free.
    pub fn new(addr: u64, size: u64, blocks: Vec<u8>, tree_addr: u64) -> (r: Zone)
        requires
            addr % PAGE_SIZE == 0,
            addr + size <= MAX_PHYS_ADDR,
            blocks@.len() == spec_blocks_in_region((size / PAGE_SIZE) as int),
            forall|i: int| 0 <= i < blocks@.len() ==> blocks@[i] == 0u8,
        ensures
            r.wf(),
            r.start() == addr,
            r.pages() == (size / PAGE_SIZE) as int,
            r.allocated() == Set::<(int, int)>::empty(),
            r.tree_addr() == tree_addr,
            r.tree_len() == blocks@.len(),
    {
        let n64 = size / PAGE_SIZE;
        let top64 = (n64 + 2047) / 2048;
        let total = blocks.len();
        proof {
            lemma_top_covers(n64 as int);
            lemma_layout_closed_form(top64 as int);
            assert(n64 <= total);
            vstd::arithmetic::div_mod::lemma_div_multiples_vanish(top64 as int, 4095);
            assert(4095 * top64 == top64 * 4095) by (nonlinear_arith);
        }
        let top: usize = total / 4095;
        let n: usize = n64 as usize;
        let ghost e = Set::<(int, int)>::empty();
        let mut level_start: Vec<usize> = Vec::new();
        let mut k: usize = 0;
        while k < 12
            invariant
                k <= 12,
                level_start@.len() == k,
            decreases 12 - k,
        {
            level_start.push(0);
            k = k + 1;
        }
        let mut off: usize = 0;
        let mut cnt: usize = top;
        let mut k: usize = 11;
        while k > 0
            invariant
                0 <= k <= 11,
                top == top64,
                total == arena_len(top as int),
                level_start@.len() == 12,
                off == level_off(top as int, k as int),
                cnt == level_len(top as int, k as int),
                forall|j: int| k < j <= 11 ==> #[trigger] level_start@[j] == level_off(top as int, j),
            decreases k,
        {
            proof {
                lemma_level_nonneg(top as int, k - 1);
                if k - 1 > 0 {
                    lemma_layout(top as int, 0, k - 1);
                }
                lemma_level_nonneg(top as int, 0);
            }
            level_start.set(k, off);
            off = off + cnt;
            cnt = cnt * 2;
            k = k - 1;
        }
        level_start.set(0, off);
        let mut zone = Zone {
            start: addr,
            num_pages: n,
            top,
            level_start,
            arena: blocks,
            tree_addr: 0,
            allocated: Ghost(e),
        };
        proof {
            assert(zone.level_start@[0] == level_off(top as int, 0));
            assert forall|k: int| 0 <= k <= 11 implies #[trigger] zone.level_start@[k] == level_off(
                top as int,
                k,
            ) by {}
            assert(zone.wf_shape());
            assert forall|k: int, j: int| valid_node(top as int, k, j) implies #[trigger] zone.stored(
                k,
                j,
            ) == 0int by {
                lemma_node_in_arena(top as int, k, j);
            }
        }
        let mut i: usize = 0;
        while i < n
            invariant
                zone.wf_shape(),
                zone.allocated@ == e,
                e == Set::<(int, int)>::empty(),
                zone.num_pages == n,
                zone.top == top,
                zone.start == addr,
                n <= level_len(top as int, 0),
                i <= n,
                forall|k: int, j: int|
                    valid_node(top as int, k, j) ==> #[trigger] zone.stored(k, j) == (if k == 0 && j
                        < i { 1int } else { 0int }),
            decreases n - i,
        {
            zone.set_node(0, i, 1);
            i = i + 1;
        }
        let mut k: usize = 1;
        while k <= 11
            invariant
                zone.wf_shape(),
                zone.allocated@ == e,
                e == Set::<(int, int)>::empty(),
                zone.num_pages == n,
                zone.top == top,
                zone.start == addr,
                1 <= k <= 12,
                forall|k2: int, j: int|
                    valid_node(top as int, k2, j) && k2 < k ==> #[trigger] zone.stored(k2, j) == model(
                        e,
                        n as int,
                        k2,
                        j,
                    ),
            decreases 12 - k,
        {
            let count = zone.level_len_of(k);
            let mut j: usize = 0;
            while j < count
                invariant
                    zone.wf_shape(),
                    zone.allocated@ == e,
                    e == Set::<(int, int)>::empty(),
                    zone.num_pages == n,
                    zone.top == top,
                    zone.start == addr,
                    1 <= k <= 11,
                    count == level_len(top as int, k as int),
                    j <= count,
                    forall|k2: int, j2: int|
                        valid_node(top as int, k2, j2) && (k2 < k || (k2 == k && j2 < j))
                            ==> #[trigger] zone.stored(k2, j2) == model(e, n as int, k2, j2),
                decreases count - j,
            {
                let _len = zone.arena.len();
                proof {
                    assert(level_len(top as int, k - 1) == 2 * level_len(top as int, k as int));
                    lemma_node_in_arena(top as int, k - 1, 2 * j + 1);
                    lemma_level_nonneg(top as int, k - 1);
                    lemma_model_bound(e, n as int, k - 1, 2 * j);
                    lemma_model_bound(e, n as int, k - 1, 2 * j + 1);
                }
                let left = zone.node(k - 1, 2 * j);
                let right = zone.node(k - 1, 2 * j + 1);
                let v = Block::parent_state(Block::from_byte(left), Block::from_byte(right), (k - 1) as u8);
                proof {
                    assert(left as int == model(e, n as int, k - 1, 2 * j));
                    assert(right as int == model(e, n as int, k - 1, 2 * j + 1));
                    assert(!e.contains((k as int, j as int)));
                    assert(v.byte() == model(e, n as int, k as int, j as int));
                }
                zone.set_node(k, j, v.to_byte());
                proof {
                    assert(zone.stored(k as int, j as int) == model(e, n as int, k as int, j as int));
                }
                j = j + 1;
            }
            k = k + 1;
        }
        let ghost built = zone;
        proof {
            assert(built.wf());
        }
        zone.tree_addr = tree_addr;
        proof {
            assert(zone.arena@ == built.arena@ && zone.top == built.top);
            assert forall|k: int, i: int| valid_node(top as int, k, i) implies #[trigger] zone.stored(k, i)
                == built.stored(k, i) by {}
            assert(zone.wf());
        }
        zone
    }

    /// Number of nodes on level `k`.
    fn level_len_of(&self, k: usize) -> (r: usize)
        requires
            self.wf_shape(),
            1 <= k <= 11,
        ensures
            r == level_len(self.top as int, k as int),
    {
        proof {
            lemma_level_nonneg(self.top as int, k as int);
            assert(self.level_start@[k - 1] == level_off(self.top as int, k - 1));
            assert(self.level_start@[k as int] == level_off(self.top as int, k as int));
        }
        self.level_start[k - 1] - self.level_start[k]
    }

    /// Physical address of the zone's first page.
    pub fn start_address(&self) -> (r: u64)
        ensures
            r == self.start(),
    {
        self.start
    }

    /// Number of pages the zone manages.
    pub fn num_pages(&self) -> (r: usize)
        ensures
            r == self.pages(),
    {
        self.num_pages
    }

    /// The nodes of the top level, each the largest free block under it.
    pub fn top_level(&self) -> (r: Vec<Block>)
        requires
            self.wf(),
        ensures
            r@.len() == self.top(),
            forall|j: int| 0 <= j < r@.len() ==> (#[trigger] r@[j]).byte() == self.top_node(j),
    {
        let mut r: Vec<Block> = Vec::new();
        let mut j: usize = 0;
        while j < self.top
            invariant
                self.wf(),
                j <= self.top,
                r@.len() == j,
                forall|k: int| 0 <= k < j ==> (#[trigger] r@[k]).byte() == self.stored(11, k),
            decreases self.top - j,
        {
            let b = self.node(MAX_ORDER, j);
            r.push(Block::from_byte(b));
            j = j + 1;
        }
        r
    }

    /// Whether the frames of `range` all belong to this zone.
    pub fn contains_range(&self, range: FrameRange) -> (r: bool)
        requires
            self.wf(),
        ensures
            r == (self.start() <= range.start && range.end <= self.start() + self.pages() * 4096),
    {
        range.start >= self.start && range.end <= self.start + (self.num_pages as u64) * PAGE_SIZE
    }

    /// Whether `range` is a live allocation of this zone: it has the shape
    /// of a block, its node is `Used`, and it was allocated at that node
    /// (a leaf that exists, or a node whose children are both wholly free).
    pub fn is_allocated(&self, range: FrameRange) -> (r: bool)
        requires
            self.wf(),
        ensures
            r == self.is_live(range),
    {
        let ghost allocs = self.allocated@;
        let ghost n = self.num_pages as int;
        let ghost top = self.top as int;
        let zone_end = self.start + (self.num_pages as u64) * PAGE_SIZE;
        if !(range.start >= self.start && range.end <= zone_end && range.start < range.end) {
            proof {
                if self.is_live(range) {
                    lemma_live_in_zone(self, range);
                }
            }
            return false;
        }
        let len = range.end - range.start;
        if len % PAGE_SIZE != 0 {
            proof {
                if self.is_live(range) {
                    lemma_live_in_zone(self, range);
                    let o = choose|o: int| 0 <= o <= MAX_ORDER && range.end - range.start == #[trigger] pow2(o) * PAGE_SIZE;
                    vstd::arithmetic::div_mod::lemma_mod_multiples_basic(pow2(o), 4096);
                }
            }
            return false;
        }
        let pages = len / PAGE_SIZE;
        let mut order: usize = 0;
        let mut p: u64 = 1;
        while p < pages && order < MAX_ORDER
            invariant
                p == pow2(order as int),
                order <= 11,
                p <= 2048,
                order > 0 ==> pow2(order - 1) < pages,
            decreases 11 - order,
        {
            proof {
                reveal_with_fuel(pow2, 12);
                lemma_pow2_strictly_increasing(order as int, 11);
            }
            p = p * 2;
            order = order + 1;
        }
        if p != pages {
            proof {
                if self.is_live(range) {
                    let x = choose|x: (int, int)| #[trigger] allocs.contains(x) && covers(range, self.start as int, x);
                    lemma_block_shape(self, range, x);
                    assert(pages == pow2(x.0));
                    if x.0 < order {
                        if x.0 < order - 1 {
                            lemma_pow2_strictly_increasing(x.0, order - 1);
                        }
                    } else if x.0 > order {
                        lemma_pow2_strictly_increasing(order as int, x.0);
                    }
                }
            }
            return false;
        }
        let off = range.start - self.start;
        if off % len != 0 {
            proof {
                if self.is_live(range) {
                    let x = choose|x: (int, int)| #[trigger] allocs.contains(x) && covers(range, self.start as int, x);
                    lemma_block_shape(self, range, x);
                    vstd::arithmetic::div_mod::lemma_mod_multiples_basic(x.1, len as int);
                    assert(x.1 * len == x.1 * pow2(x.0) * 4096) by (nonlinear_arith)
                        requires
                            len == pow2(x.0) * 4096,
                    ;
                }
            }
            return false;
        }
        let idx64 = off / len;
        proof {
            lemma_pow2_positive(order as int);
            vstd::arithmetic::div_mod::lemma_fundamental_div_mod(off as int, len as int);
            let i = idx64 as int;
            let P = pow2(order as int);
            assert(off == len * i);
            assert(off == i * len) by (nonlinear_arith)
                requires
                    off == len * i,
            ;
            assert((i + 1) * P <= n) by (nonlinear_arith)
                requires
                    range.start == self.start + off,
                    range.end == range.start + len,
                    range.end <= self.start + n * 4096,
                    off == i * len,
                    len == P * 4096,
                    P >= 1,
                    i >= 0,
            ;
            assert(i <= (i + 1) * P) by (nonlinear_arith)
                requires
                    P >= 1,
                    i >= 0,
            ;
            lemma_level_len_pages(top, order as int);
            lemma_top_covers(n);
            assert(i + 1 <= level_len(top, order as int)) by (nonlinear_arith)
                requires
                    (i + 1) * P <= n,
                    n <= level_len(top, 0),
                    level_len(top, order as int) * P == level_len(top, 0),
                    P >= 1,
            ;
            assert(covers(range, self.start as int, (order as int, i))) by {
                assert(range.start == self.start + i * P * 4096 && range.end == self.start + (i + 1) * P * 4096)
                    by (nonlinear_arith)
                    requires
                        range.start == self.start + off,
                        range.end == range.start + len,
                        off == i * len,
                        len == P * 4096,
                ;
            }
        }
        let idx = idx64 as usize;
        let x_used = self.node(order, idx) == 0;
        let ghost x = (order as int, idx as int);
        let wholly_free = if order == 0 {
            true
        } else {
            let _len = self.arena.len();
            proof {
                assert(level_len(top, order - 1) == 2 * level_len(top, order as int));
                lemma_node_in_arena(top, order - 1, 2 * idx + 1);
                lemma_level_nonneg(top, order - 1);
            }
            let l = self.node(order - 1, 2 * idx);
            let r = self.node(order - 1, 2 * idx + 1);
            l as usize == order && r as usize == order
        };
        proof {
            lemma_allocated_node(self, x);
            if self.is_live(range) {
                let y = choose|y: (int, int)| #[trigger] allocs.contains(y) && covers(range, self.start as int, y);
                lemma_allocated_bounds(self, y);
                lemma_block_range_injective(self.start as int, x, y);
            }
        }
        x_used && wholly_free
    }

    /// Allocates a block of `2^order` pages: the first top-level node that
    /// holds a free block that large, then down the tree, left child first.
    /// Returns `None`, and changes nothing, when no such block is free.
    pub fn allocate(&mut self, order: u8) -> (r: Option<FrameRange>)
        requires
            old(self).wf(),
            order as usize <= MAX_ORDER,
        ensures
            final(self).wf(),
            final(self).start() == old(self).start(),
            final(self).pages() == old(self).pages(),
            final(self).top() == old(self).top(),
            r.is_none() <==> forall|j: int| 0 <= j < old(self).top() ==> old(self).top_node(j) <= order,
            r.is_none() ==> *final(self) == *old(self),
            r is Some ==> grew_by(
                old(self).allocated(),
                final(self).allocated(),
                old(self).start(),
                r->Some_0,
                order as int,
            ),
            r is Some ==> first_fit_block(*old(self), order as int, r->Some_0),
    {
        let ghost allocs = self.allocated@;
        let ghost n = self.num_pages as int;
        let ghost top = self.top as int;
        let ghost o = order as int;
        let mut j: usize = 0;
        let mut found = false;
        while j < self.top && !found
            invariant
                self.wf(),
                self.allocated@ == allocs,
                self.num_pages == n,
                self.top == top,
                self.start == old(self).start,
                self == old(self),
                o == order as int,
                j <= top,
                found ==> j < top && self.stored(11, j as int) > o,
                forall|j2: int| 0 <= j2 < j ==> self.stored(11, j2) <= o,
            decreases top - j + (if found { 0int } else { 1int }),
        {
            let blk = Block::from_byte(self.node(MAX_ORDER, j));
            let fits = blk.larger_than(order);
            if fits {
                found = true;
            } else {
                j = j + 1;
            }
        }
        if !found {
            return None;
        }
        let mut idx: usize = j;
        let mut cur: usize = MAX_ORDER;
        proof {
            assert(old(self).top_node(j as int) > o);
            assert forall|j2: int| 0 <= j2 < j implies #[trigger] old(self).top_node(j2) <= o by {
                assert(self.stored(11, j2) <= o);
            }
            assert(anc(11, j as int, 11) == j);
        }
        while cur > order as usize
            invariant
                self.wf(),
                self == old(self),
                self.allocated@ == allocs,
                self.num_pages == n,
                self.top == top,
                o == order as int,
                o <= cur <= 11,
                j < top,
                old(self).top_node(j as int) > o,
                forall|j2: int| 0 <= j2 < j ==> #[trigger] old(self).top_node(j2) <= o,
                descend(allocs, n, cur as int, idx as int, o) == descend(allocs, n, 11, j as int, o),
                valid_node(top, cur as int, idx as int),
                forall|c: int|
                    cur <= c <= 11 ==> model(allocs, n, c, #[trigger] anc(cur as int, idx as int, c)) > o,
            decreases cur,
        {
            let _len = self.arena.len();
            proof {
                assert(level_len(top, cur - 1) == 2 * level_len(top, cur as int));
                lemma_node_in_arena(top, cur - 1, 2 * idx + 1);
                lemma_level_nonneg(top, cur - 1);
                assert(2 * idx + 1 < _len);
            }
            let l = 2 * idx;
            proof {
                assert(anc(cur as int, idx as int, cur as int) == idx);
                assert(model(allocs, n, cur as int, anc(cur as int, idx as int, cur as int)) > o);
                assert(!allocs.contains((cur as int, idx as int)));
                assert(self.stored(cur - 1, l as int) == model(allocs, n, cur - 1, l as int));
                assert(self.stored(cur - 1, l + 1) == model(allocs, n, cur - 1, l + 1));
                assert(model(allocs, n, cur as int, idx as int) > o);
                assert(level_len(top, cur - 1) == 2 * level_len(top, cur as int));
                lemma_model_bound(allocs, n, cur - 1, l as int);
                lemma_model_bound(allocs, n, cur - 1, l + 1);
            }
            let next = if Block::from_byte(self.node(cur - 1, l)).larger_than(order) {
                l
            } else {
                l + 1
            };
            proof {
                assert(model(allocs, n, cur - 1, next as int) > o);
                assert forall|c: int| cur - 1 <= c <= 11 implies model(
                    allocs,
                    n,
                    c,
                    #[trigger] anc(cur - 1, next as int, c),
                ) > o by {
                    if c >= cur {
                        lemma_anc_step(cur - 1, next as int, c);
                        assert(next / 2 == idx);
                    } else {
                        assert(anc(cur - 1, next as int, c) == next);
                    }
                }
            }
            idx = next;
            cur = cur - 1;
        }
        let ghost x = (o, idx as int);
        proof {
            assert(anc(o, idx as int, o) == idx);
            lemma_model_bound(allocs, n, o, idx as int);
            lemma_full(allocs, n, o, idx as int);
            assert(!allocs.contains(x));
            assert forall|k: int| o < k <= 11 implies !allocs.contains(
                (k, #[trigger] anc(o, idx as int, k)),
            ) by {
                assert(model(allocs, n, k, anc(o, idx as int, k)) > o);
            }
            let na = allocs.insert(x);
            assert forall|a: (int, int), b: (int, int)|
                #[trigger] na.contains(a) && #[trigger] na.contains(b) && a != b && a.0 <= b.0
                    implies anc(a.0, a.1, b.0) != b.1 by {
                if a == x {
                    if b.0 == o {
                        assert(allocs.contains(b));
                    } else {
                        assert(allocs.contains(b));
                        assert(!allocs.contains((b.0, anc(o, idx as int, b.0))));
                    }
                } else if b == x {
                    assert(allocs.contains(a));
                    assert(!in_subtree(a, o, idx as int));
                } else {
                    assert(allocs.contains(a) && allocs.contains(b));
                }
            }
            assert(allocs_valid(na, n));
        }
        self.allocated = Ghost(allocs.insert(x));
        self.set_node(order as usize, idx, 0);
        proof {
            let na = allocs.insert(x);
            assert forall|k: int, i: int|
                valid_node(top, k, i) && !(k > o && i == anc(o, idx as int, k))
                    implies #[trigger] self.stored(k, i) == model(na, n, k, i) by {
                if k == o && i == idx {
                } else {
                    if k == o {
                        assert(anc(o, idx as int, o) == idx);
                    }
                    assert(!in_subtree(x, k, i));
                    lemma_frame(allocs, x, n, k, i);
                    assert(old(self).stored(k, i) == model(allocs, n, k, i));
                }
            }
        }
        self.update_tree(order as usize, idx);
        let pages = order_pages(order);
        proof {
            lemma_pow2_positive(o);
            let p = pow2(o);
            let ii = idx as int;
            assert(ii * p * 4096 + p * 4096 == (ii + 1) * p * 4096) by (nonlinear_arith);
            assert((ii + 1) * p * 4096 <= n * 4096) by (nonlinear_arith)
                requires
                    (ii + 1) * p <= n,
            ;
            assert(ii * p * 4096 >= 0) by (nonlinear_arith)
                requires
                    ii >= 0,
                    p >= 1,
            ;
        }
        let first = self.start + (idx as u64) * pages * PAGE_SIZE;
        let end = first + pages * PAGE_SIZE;
        let r = FrameRange { start: first, end };
        proof {
            assert(covers(r, old(self).start(), (order as int, idx as int)));
            assert(descend(allocs, n, o, idx as int, o) == idx);
            assert(first_fit_block(*old(self), o, r));
            assert(grew_by(old(self).allocated(), self.allocated(), old(self).start(), r, order as int));
        }
        Some(r)
    }

    /// Returns a live allocation to the zone.
    pub fn free(&mut self, range: FrameRange)
        requires
            old(self).wf(),
            old(self).is_live(range),
        ensures
            final(self).wf(),
            final(self).start() == old(self).start(),
            final(self).pages() == old(self).pages(),
            final(self).top() == old(self).top(),
            forall|x: (int, int)|
                old(self).allocated().contains(x) && #[trigger] covers(range, old(self).start(), x)
                    ==> final(self).allocated() == old(self).allocated().remove(x),
    {
        let ghost allocs = self.allocated@;
        let ghost n = self.num_pages as int;
        let ghost top = self.top as int;
        let ghost x = choose|x: (int, int)| #[trigger] allocs.contains(x) && covers(range, self.start as int, x);
        let ghost o = x.0;
        let ghost P = pow2(o);
        proof {
            lemma_pow2_positive(o);
            let ii = x.1;
            assert(range.end - range.start == P * 4096) by (nonlinear_arith)
                requires
                    range.start == self.start + ii * P * 4096,
                    range.end == self.start + (ii + 1) * P * 4096,
            ;
            assert((P * 4096) / 4096 == P) by {
                vstd::arithmetic::div_mod::lemma_div_multiples_vanish(P, 4096);
            }
        }
        let len = (range.end - range.start) / PAGE_SIZE;
        let mut order: usize = 0;
        let mut p: u64 = 1;
        while p < len
            invariant
                len == P,
                P == pow2(o),
                p == pow2(order as int),
                order <= o,
                0 <= o <= 11,
            decreases o - order,
        {
            proof {
                assert(p < len);
                assert(len == P);
                assert(p == pow2(order as int));
                assert(order < o);
                lemma_pow2_strictly_increasing(order as int, 11);
                reveal_with_fuel(pow2, 12);
            }
            p = p * 2;
            order = order + 1;
        }
        proof {
            if order < o {
                lemma_pow2_strictly_increasing(order as int, o);
            }
            assert(order == o);
            let ii = x.1;
            assert(range.start - self.start == ii * (P * 4096)) by (nonlinear_arith)
                requires
                    range.start == self.start + ii * P * 4096,
            ;
            vstd::arithmetic::div_mod::lemma_div_multiples_vanish(ii, P * 4096);
            assert((P * 4096) * ii == ii * (P * 4096)) by (nonlinear_arith);
            assert(ii <= (ii + 1) * P) by (nonlinear_arith)
                requires
                    P >= 1,
                    ii >= 0,
            ;
            lemma_level_len_pages(top, o);
            lemma_top_covers(n);
            assert(ii + 1 <= level_len(top, o)) by (nonlinear_arith)
                requires
                    (ii + 1) * P <= n,
                    n <= level_len(top, 0),
                    level_len(top, o) * P == level_len(top, 0),
                    P >= 1,
            ;
        }
        let idx = ((range.start - self.start) / (p * PAGE_SIZE)) as usize;
        proof {
            assert(idx == x.1);
            assert(valid_node(top, o, idx as int));
        }
        let ghost na = allocs.remove(x);
        proof {
            assert forall|y: (int, int)| #[trigger] na.contains(y) implies !in_subtree(y, o, idx as int) by {
                assert(allocs.contains(y) && y != x);
                if 0 <= y.0 <= o {
                    assert(anc(y.0, y.1, x.0) != x.1);
                }
            }
            lemma_empty_is_full(na, n, o, idx as int);
            assert forall|k: int| o < k <= 11 implies !na.contains(
                (k, #[trigger] anc(o, idx as int, k)),
            ) by {
                let y = (k, anc(o, idx as int, k));
                if na.contains(y) {
                    assert(allocs.contains(y) && allocs.contains(x) && x != y);
                }
            }
            assert(allocs_valid(na, n));
        }
        self.allocated = Ghost(na);
        self.set_node(order, idx, (order + 1) as u8);
        proof {
            assert forall|k: int, i: int|
                valid_node(top, k, i) && !(k > o && i == anc(o, idx as int, k))
                    implies #[trigger] self.stored(k, i) == model(na, n, k, i) by {
                if k == o && i == idx {
                } else {
                    if k == o {
                        assert(anc(o, idx as int, o) == idx);
                    }
                    assert(!in_subtree(x, k, i));
                    lemma_frame(allocs, x, n, k, i);
                    assert(old(self).stored(k, i) == model(allocs, n, k, i));
                }
            }
            assert forall|y: (int, int)|
                allocs.contains(y) && #[trigger] covers(range, old(self).start(), y) implies y == x by {
                lemma_block_range_injective(self.start as int, x, y);
            }
        }
        self.update_tree(order, idx);
    }
}

/// Number of pages in a block of `order`.
pub fn order_pages(order: u8) -> (r: u64)
    requires
        order as usize <= MAX_ORDER,
    ensures
        r == pow2(order as int),
{
    let mut r: u64 = 1;
    let mut k: u8 = 0;
    while k < order
        invariant
            k <= order <= 11,
            r == pow2(k as int),
            r <= 2048,
        decreases order - k,
    {
        proof {
            lemma_pow2_strictly_increasing(k + 1, 12);
            reveal_with_fuel(pow2, 12);
        }
        r = r * 2;
        k = k + 1;
    }
    r
}

pub proof fn lemma_top_covers(n: int)
    requires
        n >= 0,
    ensures
        n <= 2048 * top_blocks(n),
        top_blocks(n) >= 0,
        level_len(top_blocks(n), 0) == 2048 * top_blocks(n),
{
    vstd::arithmetic::div_mod::lemma_fundamental_div_mod(n + 2047, 2048);
    lemma_layout_closed_form(top_blocks(n));
}

/// Distinct blocks of a zone cover distinct frame ranges.
pub proof fn lemma_block_range_injective(start: int, x: (int, int), y: (int, int))
    requires
        0 <= x.0 <= 11,
        0 <= y.0 <= 11,
        0 <= x.1,
        0 <= y.1,
        block_range(start, x.0, x.1) == block_range(start, y.0, y.1),
    ensures
        x == y,
{
    lemma_pow2_positive(x.0);
    lemma_pow2_positive(y.0);
    let px = pow2(x.0);
    let py = pow2(y.0);
    assert(px == py) by (nonlinear_arith)
        requires
            x.1 * px * 4096 == y.1 * py * 4096,
            (x.1 + 1) * px * 4096 == (y.1 + 1) * py * 4096,
    ;
    if x.0 < y.0 {
        lemma_pow2_strictly_increasing(x.0, y.0);
    } else if y.0 < x.0 {
        lemma_pow2_strictly_increasing(y.0, x.0);
    }
    assert(x.1 == y.1) by (nonlinear_arith)
        requires
            x.1 * px * 4096 == y.1 * px * 4096,
            px >= 1,
    ;
}

/// The tree is a function of the zone's pages and its live allocations: once
/// every block allocated since some moment is freed again, each top-level
/// node holds the largest free order it held at that moment.
pub proof fn lemma_tree_determined(a: &Zone, b: &Zone)
    requires
        a.wf(),
        b.wf(),
        a.pages() == b.pages(),
        a.allocated() == b.allocated(),
    ensures
        a.top() == b.top(),
        forall|j: int| 0 <= j < a.top() ==> #[trigger] a.top_node(j) == b.top_node(j),
{
    assert forall|j: int| 0 <= j < a.top() implies #[trigger] a.top_node(j) == b.top_node(j) by {
        assert(valid_node(a.top as int, 11, j));
    }
}

/// Every live allocation of a zone is page aligned, lies within the zone,
/// and spans `2^order` pages.
pub proof fn lemma_live_in_zone(z: &Zone, r: FrameRange)
    requires
        z.wf(),
        z.is_live(r),
    ensures
        r.start % PAGE_SIZE == 0,
        z.start() <= r.start < r.end <= z.start() + z.pages() * PAGE_SIZE,
        z.start() + z.pages() * PAGE_SIZE <= MAX_PHYS_ADDR,
        exists|o: int| 0 <= o <= MAX_ORDER && r.end - r.start == #[trigger] pow2(o) * PAGE_SIZE,
{
    let x = choose|x: (int, int)| #[trigger] z.allocated().contains(x) && covers(r, z.start(), x);
    let p = pow2(x.0);
    lemma_pow2_positive(x.0);
    let i = x.1;
    let n = z.pages();
    assert(r.end - r.start == p * 4096 && i * p * 4096 >= 0 && (i + 1) * p * 4096 <= n * 4096)
        by (nonlinear_arith)
        requires
            r.start == z.start() + i * p * 4096,
            r.end == z.start() + (i + 1) * p * 4096,
            (i + 1) * p <= n,
            i >= 0,
            p >= 1,
    ;
    assert((i * p * 4096) % 4096 == 0) by {
        vstd::arithmetic::div_mod::lemma_mod_multiples_basic(i * p, 4096);
    }
    assert(z.start() % 4096 == 0);
    vstd::arithmetic::div_mod::lemma_add_mod_noop(z.start(), i * p * 4096, 4096);
}

/// A live allocation of a zone has an order up to `MAX_ORDER` and an index on its level.
pub proof fn lemma_allocated_bounds(z: &Zone, x: (int, int))
    requires
        z.wf(),
        z.allocated().contains(x),
    ensures
        0 <= x.0 <= MAX_ORDER,
        0 <= x.1,
{
}

/// A top-level node holds the largest free order beneath it given the live
/// allocations.
pub proof fn lemma_top_node_model(z: &Zone, j: int)
    requires
        z.wf(),
        0 <= j < z.top(),
    ensures
        z.top_node(j) == model(z.allocated(), z.pages(), 11, j),
{
    assert(valid_node(z.top as int, 11, j));
}

/// A zone with no live allocation serves a block of every order whose pages
/// it has: its first top-level node holds a free block that large.
pub proof fn lemma_fresh_zone_serves(z: &Zone, o: int)
    requires
        z.wf(),
        z.allocated() == Set::<(int, int)>::empty(),
        0 <= o <= MAX_ORDER,
        pow2(o) <= z.pages(),
    ensures
        z.top() > 0,
        z.top_node(0) > o,
{
    let n = z.num_pages as int;
    let e = Set::<(int, int)>::empty();
    lemma_top_covers(n);
    lemma_pow2_positive(o);
    vstd::arithmetic::div_mod::lemma_fundamental_div_mod(n + 2047, 2048);
    assert(z.top() > 0);
    lemma_empty_is_full(e, n, o, 0);
    lemma_leftmost_grows(n, o, 11);
    lemma_top_node_model(z, 0);
}

/// With nothing allocated, the leftmost node of a level holds at least what
/// the leftmost node of any level below holds.
pub proof fn lemma_leftmost_grows(n: int, o: int, k: int)
    requires
        0 <= o <= k,
    ensures
        model(Set::<(int, int)>::empty(), n, k, 0) >= model(Set::<(int, int)>::empty(), n, o, 0),
    decreases k - o,
{
    if k > o {
        lemma_leftmost_grows(n, o, k - 1);
        lemma_model_bound(Set::<(int, int)>::empty(), n, k - 1, 0);
        lemma_model_bound(Set::<(int, int)>::empty(), n, k - 1, 1);
        assert(2 * 0 == 0);
    }
}

/// A zone's page count and tree size are never negative.
pub proof fn lemma_sizes_nonneg(z: &Zone)
    ensures
        z.pages() >= 0,
        z.tree_len() >= 0,
{
}

/// A live allocation has the shape of a block of its order in the zone.
pub proof fn lemma_block_shape(z: &Zone, r: FrameRange, x: (int, int))
    requires
        z.wf(),
        z.allocated().contains(x),
        covers(r, z.start(), x),
    ensures
        0 <= x.0 <= MAX_ORDER,
        0 <= x.1,
        r.end - r.start == pow2(x.0) * 4096,
        r.start - z.start() == x.1 * (pow2(x.0) * 4096),
        (r.end - r.start) / 4096 == pow2(x.0),
{
    let p = pow2(x.0);
    assert(r.end - r.start == p * 4096 && r.start - z.start() == x.1 * (p * 4096)) by (nonlinear_arith)
        requires
            r.start == z.start() + x.1 * p * 4096,
            r.end == z.start() + (x.1 + 1) * p * 4096,
    ;
    vstd::arithmetic::div_mod::lemma_div_multiples_vanish(p, 4096);
    assert(4096 * p == p * 4096);
}

/// A node was allocated as a block exactly when it reads `Used` while its
/// pages exist, at a leaf, or while both its children read wholly free.
pub proof fn lemma_allocated_node(z: &Zone, x: (int, int))
    requires
        z.wf(),
        valid_node(z.top(), x.0, x.1),
        (x.1 + 1) * pow2(x.0) <= z.pages(),
    ensures
        z.allocated().contains(x) <==> z.stored(x.0, x.1) == 0 && (x.0 == 0 || (z.stored(x.0 - 1, 2 * x.1)
            == x.0 && z.stored(x.0 - 1, 2 * x.1 + 1) == x.0)),
{
    let allocs = z.allocated@;
    let n = z.num_pages as int;
    let (o, i) = x;
    if o > 0 {
        assert(level_len(z.top as int, o - 1) == 2 * level_len(z.top as int, o));
        let p = pow2(o - 1);
        lemma_pow2_positive(o - 1);
        assert((2 * i + 2) * p == (i + 1) * pow2(o) && (2 * i + 1) * p <= (2 * i + 2) * p) by (nonlinear_arith)
            requires
                pow2(o) == 2 * p,
                p >= 1,
        ;
        if allocs.contains(x) {
            assert forall|y: (int, int)| #[trigger] allocs.contains(y) implies !in_subtree(y, o - 1, 2 * i) && !in_subtree(y, o - 1, 2 * i + 1) by {
                if 0 <= y.0 <= o - 1 {
                    assert(anc(y.0, y.1, o) == anc(y.0, y.1, o - 1) / 2);
                    if anc(y.0, y.1, o - 1) == 2 * i || anc(y.0, y.1, o - 1) == 2 * i + 1 {
                        assert(y != x);
                    }
                }
            }
            lemma_empty_is_full(allocs, n, o - 1, 2 * i);
            lemma_empty_is_full(allocs, n, o - 1, 2 * i + 1);
        }
    }
}

/// Two distinct live allocations of a zone share no frame.
pub proof fn lemma_live_disjoint(z: &Zone, r1: FrameRange, r2: FrameRange)
    requires
        z.wf(),
        z.is_live(r1),
        z.is_live(r2),
        r1 != r2,
    ensures
        r1.end <= r2.start || r2.end <= r1.start,
{
    let x = choose|x: (int, int)| #[trigger] z.allocated().contains(x) && covers(r1, z.start(), x);
    let y = choose|y: (int, int)| #[trigger] z.allocated().contains(y) && covers(r2, z.start(), y);
    assert(x != y);
    let s = z.start();
    if x.0 <= y.0 {
        lemma_unnested_disjoint(x, y);
    } else {
        lemma_unnested_disjoint(y, x);
    }
    let a = x.1 * pow2(x.0);
    let b = y.1 * pow2(y.0);
    let a1 = (x.1 + 1) * pow2(x.0);
    let b1 = (y.1 + 1) * pow2(y.0);
    assert(r1.start == s + a * 4096 && r1.end == s + a1 * 4096) by (nonlinear_arith)
        requires
            r1.start == s + x.1 * pow2(x.0) * 4096,
            r1.end == s + (x.1 + 1) * pow2(x.0) * 4096,
            a == x.1 * pow2(x.0),
            a1 == (x.1 + 1) * pow2(x.0),
    ;
    assert(r2.start == s + b * 4096 && r2.end == s + b1 * 4096) by (nonlinear_arith)
        requires
            r2.start == s + y.1 * pow2(y.0) * 4096,
            r2.end == s + (y.1 + 1) * pow2(y.0) * 4096,
            b == y.1 * pow2(y.0),
            b1 == (y.1 + 1) * pow2(y.0),
    ;
}

} // verus!
