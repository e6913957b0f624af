//! The physical memory allocator: one buddy zone per usable region, each
//! carrying its own tree, carved from the front of that region.
use vstd::prelude::*;
use arrayvec::ArrayVec;
use crate::addr::{align_up, spec_align_up, to_phys, MAX_PHYS_ADDR, PAGE_SIZE};
use crate::block::{Block, MAX_ORDER};
use crate::map::{MemoryMap, Region, RegionBumpAllocator, RegionIter};
use crate::tree::pow2;
use crate::zone::{
    covers, first_fit_block, grew_by, lemma_live_disjoint, lemma_live_in_zone, spec_blocks_in_region,
    top_blocks, FrameRange, Zone,
};

verus! {

/// Most zones an allocator holds.
pub const MAX_ZONES: usize = 64;

/// Pages in a block of the largest order.
pub const MAX_ORDER_PAGES: u64 = 2048;

/// The zones an `ArrayVec` of zones holds, in order.
pub uninterp spec fn zone_seq(v: ArrayVec<Zone, 64>) -> Seq<Zone>;

/// Relies on `ArrayVec::new`: the new vector is empty.
#[verifier::external_body]
fn zones_new() -> (r: ArrayVec<Zone, 64>)
    ensures
        zone_seq(r) == Seq::<Zone>::empty(),
{
    ArrayVec::new()
}

/// Relies on `ArrayVec::len`: the number of elements, never above the capacity.
#[verifier::external_body]
fn zones_len(v: &ArrayVec<Zone, 64>) -> (r: usize)
    ensures
        r == zone_seq(*v).len(),
        r <= 64,
{
    v.len()
}

/// Relies on `ArrayVec::push`, which appends and panics only on a full vector.
#[verifier::external_body]
fn zones_push(v: &mut ArrayVec<Zone, 64>, z: Zone)
    requires
        zone_seq(*old(v)).len() < 64,
    ensures
        zone_seq(*final(v)) == zone_seq(*old(v)).push(z),
{
    v.push(z)
}

/// Relies on indexing an `ArrayVec` (through its slice): a reference to element `i`.
#[verifier::external_body]
fn zones_get(v: &ArrayVec<Zone, 64>, i: usize) -> (r: &Zone)
    requires
        i < zone_seq(*v).len(),
    ensures
        *r == zone_seq(*v)[i as int],
{
    &v[i]
}

/// Relies on `IndexMut` of an `ArrayVec` and `core::mem::replace`: puts `z` in
/// place of element `i` and returns what was there.
#[verifier::external_body]
fn zones_replace(v: &mut ArrayVec<Zone, 64>, i: usize, z: Zone) -> (r: Zone)
    requires
        i < zone_seq(*old(v)).len(),
    ensures
        r == zone_seq(*old(v))[i as int],
        zone_seq(*final(v)) == zone_seq(*old(v)).update(i as int, z),
{
    core::mem::replace(&mut v[i], z)
}

/// Number of buddy-tree nodes that describe a zone of `pages` pages: a whole
/// tree of `2^(MAX_ORDER + 1) - 1` nodes for every top-level block.
pub fn blocks_in_region(pages: u64) -> (r: u64)
    requires
        pages <= 0x1_0000_0000_0000,
    ensures
        r == spec_blocks_in_region(pages as int),
{
    proof {
        vstd::arithmetic::div_mod::lemma_fundamental_div_mod(pages as int, 2048);
        vstd::arithmetic::div_mod::lemma_fundamental_div_mod(pages + 2047, 2048);
        assert(crate::addr::is_power_of_two(2048)) by {
            reveal_with_fuel(crate::addr::is_power_of_two, 12);
        }
        let q = pages as int / 2048;
        if pages as int % 2048 == 0 {
            assert((pages + 2047) / 2048 == q);
        } else {
            assert((pages + 2047) / 2048 == q + 1);
            assert(spec_align_up(pages as int, 2048) == 2048 * (q + 1));
        }
        vstd::arithmetic::div_mod::lemma_div_multiples_vanish(q, 2048);
        vstd::arithmetic::div_mod::lemma_div_multiples_vanish(q + 1, 2048);
    }
    let max_order_blocks = align_up(pages, MAX_ORDER_PAGES) / MAX_ORDER_PAGES;
    proof {
        assert(max_order_blocks as int == top_blocks(pages as int));
        assert(top_blocks(pages as int) <= pages + 1);
        assert(max_order_blocks * 4095 <= 0x1_0000_0000_0001 * 4095) by (nonlinear_arith)
            requires
                max_order_blocks <= 0x1_0000_0000_0001,
        ;
    }
    max_order_blocks * (4096 - 1)
}

/// `usable_pages` over integers: what the equation of the tree's overhead
/// leaves, less a page of safety margin, and nothing when that is negative.
pub open spec fn spec_usable_pages(total: int) -> int {
    let u = (4096 * total - spec_blocks_in_region(total)) / 4096 - 2;
    if u < 0 {
        0
    } else {
        u
    }
}

/// How many of a region's `total_pages` pages a zone can hand out once the
/// region's front holds the zone's tree: with `N` usable pages of `T`, the
/// tree's `blocks_in_region` bytes must fit in the `T - N` pages left over.
pub fn usable_pages(total_pages: u64) -> (r: u64)
    requires
        total_pages <= 0x1_0000_0000_0000,
    ensures
        r == spec_usable_pages(total_pages as int),
{
    let blocks = blocks_in_region(total_pages);
    proof {
        lemma_blocks_le(total_pages as int);
    }
    let u = (4096 * total_pages - blocks) / 4096;
    if u < 2 {
        0
    } else {
        u - 2
    }
}

pub proof fn lemma_blocks_le(t: int)
    requires
        t >= 0,
    ensures
        spec_blocks_in_region(t) <= 4096 * t,
        spec_blocks_in_region(t) >= 0,
{
    vstd::arithmetic::div_mod::lemma_fundamental_div_mod(t + 2047, 2048);
    if t > 0 {
        assert(top_blocks(t) <= t);
    }
}

/// A larger zone never needs a smaller tree.
pub proof fn lemma_blocks_monotone(a: int, b: int)
    requires
        0 <= a <= b,
    ensures
        spec_blocks_in_region(a) <= spec_blocks_in_region(b),
{
    vstd::arithmetic::div_mod::lemma_div_is_ordered(a + 2047, b + 2047, 2048);
}

impl Block {
    /// Carves the tree of a zone of `usable_pages` pages from the front of
    /// `region` with a bump allocator over it, and returns the tree's physical
    /// address with its nodes zero-filled: every node `Used` until the zone is built.
    pub fn new_blocks_for_region(region: Region, usable_pages: u64) -> (r: (u64, Vec<u8>))
        requires
            region.addr + region.size < MAX_PHYS_ADDR,
            usable_pages <= 0x1_0000_0000_0000,
            spec_blocks_in_region(usable_pages as int) <= region.size,
            spec_blocks_in_region(usable_pages as int) <= usize::MAX,
        ensures
            r.0 == region.addr,
            r.0 + r.1@.len() <= region.addr + region.size,
            r.1@.len() == spec_blocks_in_region(usable_pages as int),
            forall|i: int| 0 <= i < r.1@.len() ==> r.1@[i] == 0u8,
    {
        let block_count = blocks_in_region(usable_pages);
        let mut carver = RegionBumpAllocator::from_region(region);
        proof {
            assert(crate::addr::is_power_of_two(1));
            assert(spec_align_up(0, 1) == 0);
        }
        let at = match carver.alloc_bytes(block_count, 1) {
            Some(virt) => to_phys(virt),
            None => {
                proof {
                    assert(false);
                }
                region.addr
            },
        };
        let n = block_count as usize;
        let blocks: Vec<u8> = vec![0u8; n];
        proof {
            assert forall|i: int| 0 <= i < blocks@.len() implies blocks@[i] == 0u8 by {
                assert(vstd::pervasive::cloned(0u8, blocks@[i]));
            }
        }
        (at, blocks)
    }
}

/// Whether no top-level node of `z` holds a free block of `order`.
pub open spec fn zone_full(z: Zone, order: int) -> bool {
    forall|j: int| 0 <= j < z.top() ==> #[trigger] z.top_node(j) <= order
}

/// Total pages of a run of zones.
pub open spec fn zone_pages(s: Seq<Zone>) -> int
    decreases s.len(),
{
    if s.len() == 0 {
        0
    } else {
        zone_pages(s.drop_last()) + s.last().pages()
    }
}

/// The zones built from a run of regions: each region keeps the pages that
/// its tree leaves usable, after the tree at its front, unless that is one
/// page or none. A zone is given as its first page's address, its page
/// count, and the address of the region it comes from.
pub open spec fn zone_plan(regions: Seq<Region>) -> Seq<(int, int, int)>
    decreases regions.len(),
{
    if regions.len() == 0 {
        Seq::empty()
    } else {
        let rest = zone_plan(regions.drop_last());
        let rg = regions.last();
        let t = rg.size as int / 4096;
        let u = spec_usable_pages(t);
        if u <= 1 {
            rest
        } else {
            rest.push((rg.addr + (t - u) * 4096, u, rg.addr as int))
        }
    }
}

/// The tree of zone `a` shares no byte with the pages of zone `b`.
pub open spec fn tree_apart(a: Zone, b: Zone) -> bool {
    a.tree_addr() + a.tree_len() <= b.start() || b.start() + b.pages() * 4096 <= a.tree_addr()
}

/// `after` is `before` with a block of `order` allocated in zone `i`, the
/// first zone that had one free, whose frames are `fr`.
pub open spec fn allocated_in(before: Seq<Zone>, after: Seq<Zone>, fr: FrameRange, order: int, i: int) -> bool {
    &&& 0 <= i < before.len()
    &&& after.len() == before.len()
    &&& forall|k: int| 0 <= k < i ==> zone_full(#[trigger] before[k], order)
    &&& forall|k: int| 0 <= k < before.len() && k != i ==> #[trigger] after[k] == before[k]
    &&& after[i].start() == before[i].start()
    &&& after[i].pages() == before[i].pages()
    &&& grew_by(before[i].allocated(), after[i].allocated(), before[i].start(), fr, order)
    &&& first_fit_block(before[i], order, fr)
}

/// `after` is `before` with the live block `fr` of zone `i` freed.
pub open spec fn freed_in(before: Seq<Zone>, after: Seq<Zone>, fr: FrameRange, i: int) -> bool {
    &&& 0 <= i < before.len()
    &&& after.len() == before.len()
    &&& before[i].is_live(fr)
    &&& forall|k: int| 0 <= k < before.len() && k != i ==> #[trigger] after[k] == before[k]
    &&& after[i].start() == before[i].start()
    &&& after[i].pages() == before[i].pages()
    &&& forall|x: (int, int)|
        before[i].allocated().contains(x) && #[trigger] covers(fr, before[i].start(), x)
            ==> after[i].allocated() == before[i].allocated().remove(x)
}

pub proof fn lemma_zone_pages_append(a: Seq<Zone>, b: Seq<Zone>)
    ensures
        zone_pages(a + b) == zone_pages(a) + zone_pages(b),
    decreases b.len(),
{
    if b.len() == 0 {
        assert(a + b =~= a);
    } else {
        lemma_zone_pages_append(a, b.drop_last());
        assert((a + b).drop_last() =~= a + b.drop_last());
    }
}

/// Replacing a zone by one of as many pages keeps the total.
pub proof fn lemma_zone_pages_update(s: Seq<Zone>, i: int, z: Zone)
    requires
        0 <= i < s.len(),
        z.pages() == s[i].pages(),
    ensures
        zone_pages(s.update(i, z)) == zone_pages(s),
{
    let pre = s.subrange(0, i);
    let post = s.subrange(i + 1, s.len() as int);
    assert(s =~= pre + seq![s[i]] + post);
    assert(s.update(i, z) =~= pre + seq![z] + post);
    lemma_zone_pages_append(pre + seq![s[i]], post);
    lemma_zone_pages_append(pre + seq![z], post);
    lemma_zone_pages_append(pre, seq![s[i]]);
    lemma_zone_pages_append(pre, seq![z]);
    assert(seq![z].drop_last() =~= Seq::<Zone>::empty());
    assert(seq![s[i]].drop_last() =~= Seq::<Zone>::empty());
    assert(zone_pages(Seq::<Zone>::empty()) == 0);
    assert(seq![z].last() == z);
    assert(seq![s[i]].last() == s[i]);
}

/// The allocator of physical page frames: one buddy zone per usable region.
pub struct PhysAllocator {
    zones: ArrayVec<Zone, 64>,
    num_pages: u64,
}

impl PhysAllocator {
    /// The zones, in ascending order of address.
    pub closed spec fn zones(&self) -> Seq<Zone> {
        zone_seq(self.zones)
    }

    /// Total pages of all zones.
    pub closed spec fn page_count(&self) -> int {
        self.num_pages as int
    }

    /// Whether `r` is a live allocation of one of the zones.
    pub open spec fn is_live(&self, r: FrameRange) -> bool {
        exists|i: int| 0 <= i < self.zones().len() && (#[trigger] self.zones()[i]).is_live(r)
    }

    /// Each zone is well formed, the zones lie in ascending order without
    /// overlap, and `num_pages` is the sum of their pages.
    pub open spec fn wf(&self) -> bool {
        &&& self.zones().len() <= MAX_ZONES
        &&& forall|i: int| 0 <= i < self.zones().len() ==> (#[trigger] self.zones()[i]).wf()
        &&& forall|i: int, j: int|
            0 <= i < j < self.zones().len() ==> (#[trigger] self.zones()[i]).start() + self.zones()[i].pages()
                * 4096 <= (#[trigger] self.zones()[j]).start()
        &&& self.page_count() == zone_pages(self.zones())
    }

    /// Builds a zone for each region of the map that leaves more than one
    /// usable page once the zone's tree is carved from its front.
    pub fn new(map: MemoryMap) -> (r: PhysAllocator)
        requires
            map.wf(),
            forall|i: int|
                0 <= i < map.regions().len() ==> spec_blocks_in_region(
                    (#[trigger] map.regions()[i]).size as int / 4096,
                ) <= usize::MAX,
        ensures
            r.wf(),
            r.zones().len() == zone_plan(map.regions()).len(),
            forall|i: int|
                0 <= i < r.zones().len() ==> (#[trigger] r.zones()[i]).start() == zone_plan(map.regions())[i].0
                    && r.zones()[i].pages() == zone_plan(map.regions())[i].1
                    && r.zones()[i].allocated() == Set::<(int, int)>::empty(),
            forall|i: int|
                0 <= i < r.zones().len() ==> (#[trigger] r.zones()[i]).tree_addr() == zone_plan(map.regions())[i].2
                    && r.zones()[i].tree_addr() + r.zones()[i].tree_len() <= r.zones()[i].start(),
            forall|i: int, j: int|
                0 <= i < r.zones().len() && 0 <= j < r.zones().len() ==> tree_apart(
                    #[trigger] r.zones()[i],
                    #[trigger] r.zones()[j],
                ),
    {
        let ghost regions = map.regions();
        proof {
            crate::map::lemma_pages_bound(regions);
            crate::map::lemma_pages_of_nonneg(regions);
        }
        let mut zones = zones_new();
        let mut num_pages: u64 = 0;
        let mut it: RegionIter = map.into_iter();
        let mut done = false;
        let ghost mut k: int = 0;
        proof {
            assert(regions.subrange(0, 0) =~= Seq::<Region>::empty());
            assert(regions.subrange(0, regions.len() as int) =~= regions);
        }
        while !done
            invariant
                crate::map::regions_ordered(regions),
                regions.len() <= 64,
                forall|i: int|
                    0 <= i < regions.len() ==> spec_blocks_in_region((#[trigger] regions[i]).size as int / 4096)
                        <= usize::MAX,
                crate::map::pages_of(regions) * 4096 <= MAX_PHYS_ADDR,
                0 <= k <= regions.len(),
                it.remaining() == regions.subrange(k, regions.len() as int),
                done ==> k == regions.len(),
                zone_seq(zones).len() == zone_plan(regions.subrange(0, k)).len(),
                zone_seq(zones).len() <= k,
                num_pages == zone_pages(zone_seq(zones)),
                num_pages <= crate::map::pages_of(regions.subrange(0, k)),
                crate::map::pages_of(regions.subrange(0, k)) + crate::map::pages_of(
                    regions.subrange(k, regions.len() as int),
                ) == crate::map::pages_of(regions),
                forall|i: int|
                    0 <= i < zone_seq(zones).len() ==> (#[trigger] zone_seq(zones)[i]).wf()
                        && zone_seq(zones)[i].start() == zone_plan(regions.subrange(0, k))[i].0
                        && zone_seq(zones)[i].pages() == zone_plan(regions.subrange(0, k))[i].1
                        && zone_seq(zones)[i].allocated() == Set::<(int, int)>::empty()
                        && zone_seq(zones)[i].tree_addr() == zone_plan(regions.subrange(0, k))[i].2
                        && zone_seq(zones)[i].tree_addr() + zone_seq(zones)[i].tree_len()
                        <= zone_seq(zones)[i].start(),
                forall|i: int, j: int|
                    0 <= i < zone_seq(zones).len() && 0 <= j < zone_seq(zones).len() ==> tree_apart(
                        #[trigger] zone_seq(zones)[i],
                        #[trigger] zone_seq(zones)[j],
                    ),
                forall|i: int, j: int|
                    0 <= i < j < zone_seq(zones).len() ==> (#[trigger] zone_seq(zones)[i]).start()
                        + zone_seq(zones)[i].pages() * 4096 <= (#[trigger] zone_seq(zones)[j]).start(),
                k < regions.len() ==> forall|i: int|
                    0 <= i < zone_seq(zones).len() ==> (#[trigger] zone_seq(zones)[i]).start()
                        + zone_seq(zones)[i].pages() * 4096 <= regions[k].addr,
            decreases regions.len() - k + (if done { 0int } else { 1int }),
        {
            match it.next() {
                None => {
                    done = true;
                },
                Some(rg) => {
                    let ghost pre = regions.subrange(0, k);
                    let ghost zs = zone_seq(zones);
                    proof {
                        assert(rg == regions[k]);
                        assert(regions.subrange(0, k + 1).drop_last() =~= pre);
                        assert(regions.subrange(0, k + 1).last() == rg);
                        let post = regions.subrange(k, regions.len() as int);
                        assert(post =~= seq![rg] + regions.subrange(k + 1, regions.len() as int));
                        crate::map::lemma_pages_of_append(seq![rg], regions.subrange(k + 1, regions.len() as int));
                        crate::map::lemma_pages_of_single(rg);
                        crate::map::lemma_pages_of_nonneg(regions.subrange(k + 1, regions.len() as int));
                        crate::map::lemma_pages_of_nonneg(pre);
                        if k + 1 < regions.len() {
                            assert(rg.addr + rg.size <= regions[k + 1].addr);
                        }
                    }
                    let pages_in_rg = rg.size / PAGE_SIZE;
                    let usable = usable_pages(pages_in_rg);
                    if usable > 1 {
                        proof {
                            lemma_usable_fits(pages_in_rg as int);
                            lemma_blocks_monotone(usable as int, pages_in_rg as int);
                            vstd::arithmetic::div_mod::lemma_fundamental_div_mod(rg.size as int, 4096);
                        }
                        let (reserved, rest) = rg.split_at((pages_in_rg - usable) * PAGE_SIZE);
                        proof {
                            vstd::arithmetic::div_mod::lemma_mod_multiples_basic((pages_in_rg - usable) as int, 4096);
                            vstd::arithmetic::div_mod::lemma_add_mod_noop(rg.addr as int, reserved.size as int, 4096);
                            vstd::arithmetic::div_mod::lemma_div_multiples_vanish(usable as int, 4096);
                        }
                        let (tree_addr, blocks) = Block::new_blocks_for_region(reserved, usable);
                        let zone = Zone::new(rest.addr, rest.size, blocks, tree_addr);
                        num_pages = num_pages + zone.num_pages() as u64;
                        proof {
                            assert(zs.push(zone).drop_last() =~= zs);
                        }
                        zones_push(&mut zones, zone);
                        proof {
                            let zs2 = zone_seq(zones);
                            assert(zs2.last() == zone);
                            assert(zone_plan(regions.subrange(0, k + 1)) == zone_plan(pre).push(
                                (rg.addr + (pages_in_rg - usable) * 4096, usable as int, rg.addr as int),
                            ));
                            assert(zone.tree_addr() == rg.addr);
                            assert(zone.tree_addr() + zone.tree_len() <= zone.start());
                            assert forall|i: int| 0 <= i < zs.len() implies (#[trigger] zs[i]).start()
                                + zs[i].pages() * 4096 <= rg.addr && zs[i].tree_addr() + zs[i].tree_len()
                                <= zs[i].start() by {}
                            assert forall|i: int, j: int|
                                0 <= i < zs2.len() && 0 <= j < zs2.len() implies tree_apart(
                                    #[trigger] zs2[i],
                                    #[trigger] zs2[j],
                                ) by {
                                crate::zone::lemma_sizes_nonneg(&zs2[i]);
                                crate::zone::lemma_sizes_nonneg(&zs2[j]);
                                if i < zs2.len() - 1 {
                                    assert(zs2[i] == zs[i]);
                                }
                                if j < zs2.len() - 1 {
                                    assert(zs2[j] == zs[j]);
                                }
                            }
                            assert forall|i: int, j: int|
                                0 <= i < j < zs2.len() implies (#[trigger] zs2[i]).start() + zs2[i].pages() * 4096
                                    <= (#[trigger] zs2[j]).start() by {
                                if j == zs2.len() - 1 {
                                    assert(zs2[i] == zs[i]);
                                }
                            }
                        }
                    }
                    proof {
                        k = k + 1;
                    }
                },
            }
        }
        proof {
            assert(regions.subrange(0, regions.len() as int) =~= regions);
        }
        PhysAllocator { zones, num_pages }
    }

    /// Allocates a block of `2^order` pages from the first zone that has one
    /// free. `None` when no zone has: memory is exhausted for that order.
    pub fn allocate(&mut self, order: u8) -> (r: Option<FrameRange>)
        requires
            old(self).wf(),
            order as usize <= MAX_ORDER,
        ensures
            final(self).wf(),
            final(self).page_count() == old(self).page_count(),
            r.is_none() <==> forall|i: int|
                0 <= i < old(self).zones().len() ==> zone_full(#[trigger] old(self).zones()[i], order as int),
            r.is_none() ==> final(self).zones() == old(self).zones(),
            r is Some ==> exists|i: int|
                allocated_in(old(self).zones(), final(self).zones(), r->Some_0, order as int, i),
            r is Some ==> final(self).is_live(r->Some_0),
            r is Some ==> !old(self).is_live(r->Some_0),
            forall|x: FrameRange| old(self).is_live(x) ==> #[trigger] final(self).is_live(x),
            r is Some ==> r->Some_0.start % PAGE_SIZE == 0,
            r is Some ==> r->Some_0.end - r->Some_0.start == pow2(order as int) * 4096,
    {
        let ghost zs = self.zones();
        let n = zones_len(&self.zones);
        let mut i: usize = 0;
        while i < n
            invariant
                self.wf(),
                self.zones() == zs,
                self.page_count() == old(self).page_count(),
                zs == old(self).zones(),
                n == zs.len(),
                i <= n,
                order as usize <= MAX_ORDER,
                forall|k: int| 0 <= k < i ==> zone_full(#[trigger] zs[k], order as int),
            decreases n - i,
        {
            let mut z = zones_replace(&mut self.zones, i, Zone::new(0, 0, Vec::new(), 0));
            let got = z.allocate(order);
            let ghost z2 = z;
            zones_replace(&mut self.zones, i, z);
            match got {
                Some(fr) => {
                    proof {
                        let after = self.zones();
                        assert(after =~= zs.update(i as int, z2));
                        lemma_zone_pages_update(zs, i as int, z2);
                        assert forall|a: int, b: int|
                            0 <= a < b < after.len() implies (#[trigger] after[a]).start() + after[a].pages()
                                * 4096 <= (#[trigger] after[b]).start() by {
                            assert(zs[a].start() + zs[a].pages() * 4096 <= zs[b].start());
                        }
                        assert(allocated_in(zs, after, fr, order as int, i as int));
                        let w = choose|w: int|
                            !zs[i as int].allocated().contains((order as int, w))
                                && z2.allocated() == zs[i as int].allocated().insert((order as int, w))
                                && #[trigger] covers(fr, zs[i as int].start(), (order as int, w));
                        assert(z2.allocated().contains((order as int, w)));
                        assert(z2.is_live(fr));
                        assert(after[i as int] == z2);
                        lemma_live_in_zone(&z2, fr);
                        crate::tree::lemma_pow2_positive(order as int);
                        assert(fr.end - fr.start == pow2(order as int) * 4096) by (nonlinear_arith)
                            requires
                                fr.start == zs[i as int].start() + w * pow2(order as int) * 4096,
                                fr.end == zs[i as int].start() + (w + 1) * pow2(order as int) * 4096,
                        ;
                        assert forall|x: FrameRange| old(self).is_live(x) implies #[trigger] self.is_live(x) by {
                            let k = choose|k: int| 0 <= k < zs.len() && (#[trigger] zs[k]).is_live(x);
                            if k == i {
                                let y = choose|y: (int, int)| #[trigger] zs[k].allocated().contains(y) && covers(x, zs[k].start(), y);
                                assert(z2.allocated().contains(y));
                                assert(after[k].is_live(x));
                            } else {
                                assert(after[k] == zs[k]);
                            }
                        }
                        if old(self).is_live(fr) {
                            let k = choose|k: int| 0 <= k < zs.len() && (#[trigger] zs[k]).is_live(fr);
                            lemma_live_in_zone(&zs[k], fr);
                            if k == i {
                                let y = choose|y: (int, int)| #[trigger] zs[k].allocated().contains(y) && covers(fr, zs[k].start(), y);
                                crate::zone::lemma_allocated_bounds(&zs[k], y);
                                crate::zone::lemma_allocated_bounds(&z2, (order as int, w));
                                crate::zone::lemma_block_range_injective(zs[k].start(), y, (order as int, w));
                            } else if k < i {
                                assert(zs[k].start() + zs[k].pages() * 4096 <= zs[i as int].start());
                            } else {
                                assert(zs[i as int].start() + zs[i as int].pages() * 4096 <= zs[k].start());
                            }
                        }
                    }
                    return Some(fr);
                },
                None => {
                    proof {
                        assert(self.zones() =~= zs);
                    }
                },
            }
            i = i + 1;
        }
        None
    }

    /// Returns a live block to the zone that holds it.
    pub fn free(&mut self, range: FrameRange)
        requires
            old(self).wf(),
            old(self).is_live(range),
        ensures
            final(self).wf(),
            final(self).page_count() == old(self).page_count(),
            exists|i: int| freed_in(old(self).zones(), final(self).zones(), range, i),
    {
        let ghost zs = self.zones();
        let ghost owner = choose|k: int| 0 <= k < zs.len() && (#[trigger] zs[k]).is_live(range);
        proof {
            lemma_live_in_zone(&zs[owner], range);
        }
        let n = zones_len(&self.zones);
        let mut i: usize = 0;
        while !zones_get(&self.zones, i).contains_range(range)
            invariant
                self.wf(),
                self.zones() == zs,
                zs == old(self).zones(),
                n == zs.len(),
                0 <= owner < n,
                zs[owner].is_live(range),
                zs[owner].start() <= range.start < range.end <= zs[owner].start() + zs[owner].pages() * 4096,
                i <= owner,
            decreases owner - i,
        {
            proof {
                if i == owner {
                    assert(false);
                }
            }
            i = i + 1;
        }
        proof {
            if i != owner {
                assert(zs[i as int].start() + zs[i as int].pages() * 4096 <= zs[owner].start());
            }
        }
        let mut z = zones_replace(&mut self.zones, i, Zone::new(0, 0, Vec::new(), 0));
        z.free(range);
        let ghost z2 = z;
        zones_replace(&mut self.zones, i, z);
        proof {
            let after = self.zones();
            assert(after =~= zs.update(i as int, z2));
            lemma_zone_pages_update(zs, i as int, z2);
            assert forall|a: int, b: int|
                0 <= a < b < after.len() implies (#[trigger] after[a]).start() + after[a].pages() * 4096
                    <= (#[trigger] after[b]).start() by {
                assert(zs[a].start() + zs[a].pages() * 4096 <= zs[b].start());
            }
            assert(freed_in(zs, after, range, i as int));
        }
    }

    /// Whether `range` is a live allocation of one of the zones.
    pub fn is_allocated(&self, range: FrameRange) -> (r: bool)
        requires
            self.wf(),
        ensures
            r == self.is_live(range),
    {
        let n = zones_len(&self.zones);
        let mut i: usize = 0;
        while i < n
            invariant
                self.wf(),
                n == self.zones().len(),
                i <= n,
                forall|k: int| 0 <= k < i ==> !(#[trigger] self.zones()[k]).is_live(range),
            decreases n - i,
        {
            if zones_get(&self.zones, i).is_allocated(range) {
                return true;
            }
            i = i + 1;
        }
        false
    }

    /// Whether some zone holds all the frames of `range`.
    pub fn manages(&self, range: FrameRange) -> (r: bool)
        requires
            self.wf(),
        ensures
            r == exists|i: int|
                0 <= i < self.zones().len() && (#[trigger] self.zones()[i]).start() <= range.start && range.end
                    <= self.zones()[i].start() + self.zones()[i].pages() * 4096,
    {
        let n = zones_len(&self.zones);
        let mut i: usize = 0;
        while i < n
            invariant
                self.wf(),
                n == self.zones().len(),
                i <= n,
                forall|k: int|
                    0 <= k < i ==> !((#[trigger] self.zones()[k]).start() <= range.start && range.end
                        <= self.zones()[k].start() + self.zones()[k].pages() * 4096),
            decreases n - i,
        {
            if zones_get(&self.zones, i).contains_range(range) {
                return true;
            }
            i = i + 1;
        }
        false
    }

    /// Total pages of all zones.
    pub fn num_pages(&self) -> (r: u64)
        ensures
            r == self.page_count(),
    {
        self.num_pages
    }
}

/// A region whose tree leaves `u > 1` pages usable has room for that tree
/// in the pages before them.
pub proof fn lemma_usable_fits(t: int)
    requires
        t >= 0,
        spec_usable_pages(t) > 1,
    ensures
        spec_usable_pages(t) + 2 <= t,
        spec_blocks_in_region(t) + 8192 <= 4096 * (t - spec_usable_pages(t)),
{
    lemma_blocks_le(t);
    let x = 4096 * t - spec_blocks_in_region(t);
    vstd::arithmetic::div_mod::lemma_fundamental_div_mod(x, 4096);
}

/// Every frame address the allocator hands out is page aligned, and every
/// live block spans `2^order` pages for an order up to `MAX_ORDER`.
pub proof fn lemma_live_aligned(pa: &PhysAllocator, r: FrameRange)
    requires
        pa.wf(),
        pa.is_live(r),
    ensures
        r.start % PAGE_SIZE == 0,
        r.end % PAGE_SIZE == 0,
        r.start < r.end <= MAX_PHYS_ADDR,
        exists|o: int| 0 <= o <= MAX_ORDER && r.end - r.start == #[trigger] pow2(o) * PAGE_SIZE,
{
    let i = choose|i: int| 0 <= i < pa.zones().len() && (#[trigger] pa.zones()[i]).is_live(r);
    lemma_live_in_zone(&pa.zones()[i], r);
    let o = choose|o: int| 0 <= o <= MAX_ORDER && r.end - r.start == #[trigger] pow2(o) * PAGE_SIZE;
    vstd::arithmetic::div_mod::lemma_mod_multiples_basic(pow2(o), 4096);
    vstd::arithmetic::div_mod::lemma_add_mod_noop(r.start as int, pow2(o) * 4096, 4096);
}

/// Two distinct live allocations, in any zones and of any orders, share no frame.
pub proof fn lemma_live_disjoint_all(pa: &PhysAllocator, r1: FrameRange, r2: FrameRange)
    requires
        pa.wf(),
        pa.is_live(r1),
        pa.is_live(r2),
        r1 != r2,
    ensures
        r1.end <= r2.start || r2.end <= r1.start,
{
    let zs = pa.zones();
    let i = choose|i: int| 0 <= i < zs.len() && (#[trigger] zs[i]).is_live(r1);
    let j = choose|j: int| 0 <= j < zs.len() && (#[trigger] zs[j]).is_live(r2);
    lemma_live_in_zone(&zs[i], r1);
    lemma_live_in_zone(&zs[j], r2);
    if i == j {
        lemma_live_disjoint(&zs[i], r1, r2);
    } else if i < j {
        assert(zs[i].start() + zs[i].pages() * 4096 <= zs[j].start());
    } else {
        assert(zs[j].start() + zs[j].pages() * 4096 <= zs[i].start());
    }
}

} // verus!
