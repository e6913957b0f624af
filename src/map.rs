//! The boot-time memory map: the usable regions that the firmware reports,
//! splittable by page count, plus a bump allocator over one region.
use vstd::prelude::*;
use arrayvec::ArrayVec;
use crate::addr::{align_up, is_power_of_two, spec_align_up, MAX_PHYS_ADDR, PAGE_SIZE, PHYS_OFFSET};

verus! {

/// Most regions a memory map holds (the number the bootloader uses).
pub const MAX_REGIONS: usize = 64;

/// A physically contiguous run of memory: `size` bytes from `addr`.
#[derive(Clone, Copy, Debug, PartialEq, Eq, Structural)]
pub struct Region {
    pub addr: u64,
    pub size: u64,
}

/// What the firmware says a region of memory is for.
#[derive(Clone, Copy, Debug, PartialEq, Eq, Structural)]
pub enum MemoryRegionType {
    Usable,
    InUse,
    Reserved,
    AcpiReclaimable,
    AcpiNvs,
    BadMemory,
    Kernel,
    KernelStack,
    PageTable,
    Bootloader,
    FrameZero,
    Empty,
    BootInfo,
    Package,
}

/// One row of the firmware memory map: the bytes from `start_addr` up to
/// `end_addr`, and their type.
#[derive(Clone, Copy, Debug, PartialEq, Eq, Structural)]
pub struct MemoryRegion {
    pub start_addr: u64,
    pub end_addr: u64,
    pub region_type: MemoryRegionType,
}

#[verifier::external_type_specification]
#[verifier::external_body]
#[verifier::reject_recursive_types(T)]
pub struct ExArrayVec<T, const CAP: usize>(ArrayVec<T, CAP>);

/// The regions an `ArrayVec` of regions holds, in order.
pub uninterp spec fn region_seq(v: ArrayVec<Region, 64>) -> Seq<Region>;

/// Relies on `ArrayVec::new`: the new vector is empty.
#[verifier::external_body]
fn regions_new() -> (r: ArrayVec<Region, 64>)
    ensures
        region_seq(r) == Seq::<Region>::empty(),
{
    ArrayVec::new()
}

/// Relies on `ArrayVec::len`: the number of elements, never above the capacity.
#[verifier::external_body]
fn regions_len(v: &ArrayVec<Region, 64>) -> (r: usize)
    ensures
        r == region_seq(*v).len(),
        r <= 64,
{
    v.len()
}

/// Relies on `ArrayVec::push`, which appends and panics only on a full vector.
#[verifier::external_body]
fn regions_push(v: &mut ArrayVec<Region, 64>, rg: Region)
    requires
        region_seq(*old(v)).len() < 64,
    ensures
        region_seq(*final(v)) == region_seq(*old(v)).push(rg),
{
    v.push(rg)
}

/// Relies on indexing an `ArrayVec` (through its slice): element `i`.
#[verifier::external_body]
fn regions_get(v: &ArrayVec<Region, 64>, i: usize) -> (r: Region)
    requires
        i < region_seq(*v).len(),
    ensures
        r == region_seq(*v)[i as int],
{
    v[i]
}

/// Relies on assigning through `IndexMut` of an `ArrayVec`: element `i` replaced.
#[verifier::external_body]
fn regions_set(v: &mut ArrayVec<Region, 64>, i: usize, rg: Region)
    requires
        i < region_seq(*old(v)).len(),
    ensures
        region_seq(*final(v)) == region_seq(*old(v)).update(i as int, rg),
{
    v[i] = rg;
}

/// Relies on `ArrayVec::remove`: takes element `i` out and shifts the rest down;
/// it panics only on an index out of bounds.
#[verifier::external_body]
fn regions_remove(v: &mut ArrayVec<Region, 64>, i: usize) -> (r: Region)
    requires
        i < region_seq(*old(v)).len(),
    ensures
        r == region_seq(*old(v))[i as int],
        region_seq(*final(v)) == region_seq(*old(v)).remove(i as int),
{
    v.remove(i)
}

/// Number of whole pages in `s`.
pub open spec fn pages_of(s: Seq<Region>) -> int
    decreases s.len(),
{
    if s.len() == 0 {
        0
    } else {
        pages_of(s.drop_last()) + s.last().size / 4096
    }
}

/// Regions are page aligned, whole pages long, within physical memory, and in
/// ascending order without overlap.
pub open spec fn regions_ordered(s: Seq<Region>) -> bool {
    &&& forall|i: int|
        0 <= i < s.len() ==> (#[trigger] s[i]).addr % 4096 == 0 && s[i].size % 4096 == 0
            && s[i].addr + s[i].size <= MAX_PHYS_ADDR
    &&& forall|i: int, j: int|
        0 <= i < j < s.len() ==> (#[trigger] s[i]).addr + s[i].size <= (#[trigger] s[j]).addr
}

/// The regions of the firmware map that are usable, in order.
pub open spec fn usable_regions(m: Seq<MemoryRegion>) -> Seq<Region>
    decreases m.len(),
{
    if m.len() == 0 {
        Seq::empty()
    } else {
        let rest = usable_regions(m.drop_last());
        let last = m.last();
        if last.region_type == MemoryRegionType::Usable {
            rest.push(Region { addr: last.start_addr, size: (last.end_addr - last.start_addr) as u64 })
        } else {
            rest
        }
    }
}

/// The firmware map is page aligned, within physical memory, and in
/// ascending order without overlap.
pub open spec fn firmware_map_ordered(m: Seq<MemoryRegion>) -> bool {
    &&& forall|i: int|
        0 <= i < m.len() ==> (#[trigger] m[i]).start_addr <= m[i].end_addr <= MAX_PHYS_ADDR
            && m[i].start_addr % 4096 == 0 && m[i].end_addr % 4096 == 0
    &&& forall|i: int, j: int|
        0 <= i < j < m.len() ==> (#[trigger] m[i]).end_addr <= (#[trigger] m[j]).start_addr
}

pub proof fn lemma_pages_of_append(a: Seq<Region>, b: Seq<Region>)
    ensures
        pages_of(a + b) == pages_of(a) + pages_of(b),
    decreases b.len(),
{
    if b.len() == 0 {
        assert(a + b =~= a);
    } else {
        lemma_pages_of_append(a, b.drop_last());
        assert((a + b).drop_last() =~= a + b.drop_last());
    }
}

pub proof fn lemma_pages_of_single(r: Region)
    ensures
        pages_of(seq![r]) == r.size / 4096,
{
    assert(seq![r].drop_last() =~= Seq::<Region>::empty());
    assert(pages_of(Seq::<Region>::empty()) == 0);
    assert(seq![r].last() == r);
}

pub proof fn lemma_pages_of_nonneg(s: Seq<Region>)
    ensures
        pages_of(s) >= 0,
    decreases s.len(),
{
    if s.len() > 0 {
        lemma_pages_of_nonneg(s.drop_last());
    }
}

/// Replacing region `i` changes the page count by the difference of the two regions.
pub proof fn lemma_pages_of_update(s: Seq<Region>, i: int, r: Region)
    requires
        0 <= i < s.len(),
    ensures
        pages_of(s.update(i, r)) == pages_of(s) - s[i].size / 4096 + r.size / 4096,
        pages_of(s.remove(i)) == pages_of(s) - s[i].size / 4096,
{
    let pre = s.subrange(0, i);
    let post = s.subrange(i + 1, s.len() as int);
    assert(s =~= pre + seq![s[i]] + post);
    assert(s.update(i, r) =~= pre + seq![r] + post);
    assert(s.remove(i) =~= pre + post);
    lemma_pages_of_append(pre + seq![s[i]], post);
    lemma_pages_of_append(pre, seq![s[i]]);
    lemma_pages_of_append(pre + seq![r], post);
    lemma_pages_of_append(pre, seq![r]);
    lemma_pages_of_append(pre, post);
    lemma_pages_of_single(s[i]);
    lemma_pages_of_single(r);
}

impl Region {
    /// Splits the region `offset` bytes in: the bytes before and the bytes from there on.
    pub fn split_at(self, offset: u64) -> (r: (Region, Region))
        requires
            0 < offset < self.size,
            self.addr + self.size <= u64::MAX,
        ensures
            r.0 == (Region { addr: self.addr, size: offset }),
            r.1 == (Region { addr: (self.addr + offset) as u64, size: (self.size - offset) as u64 }),
    {
        (Region { addr: self.addr, size: offset }, Region { addr: self.addr + offset, size: self.size - offset })
    }
}

/// The usable memory: its regions in ascending order, and how many pages they hold.
pub struct MemoryMap {
    regions: ArrayVec<Region, 64>,
    num_pages: u64,
}

impl MemoryMap {
    /// The regions, in ascending order.
    pub closed spec fn regions(&self) -> Seq<Region> {
        region_seq(self.regions)
    }

    /// Number of whole pages in the map.
    pub closed spec fn page_count(&self) -> int {
        self.num_pages as int
    }

    /// Number of whole pages in the map.
    pub fn num_pages(&self) -> (r: u64)
        ensures
            r == self.page_count(),
    {
        self.num_pages
    }

    /// The regions are ordered and the page count is their total.
    pub open spec fn wf(&self) -> bool {
        &&& regions_ordered(self.regions())
        &&& self.regions().len() <= 64
        &&& self.page_count() == pages_of(self.regions())
    }

    /// Keeps the usable rows of the firmware map, in order, and counts their
    /// pages. Boot cannot go on without memory, so the map must hold at least
    /// one usable row.
    pub fn new(memory_map: &[MemoryRegion]) -> (r: MemoryMap)
        requires
            usable_regions(memory_map@).len() <= MAX_REGIONS,
            firmware_map_ordered(memory_map@),
            exists|i: int|
                0 <= i < memory_map@.len() && (#[trigger] memory_map@[i]).region_type
                    == MemoryRegionType::Usable,
        ensures
            r.wf(),
            r.regions() == usable_regions(memory_map@),
            r.regions().len() > 0,
            r.page_count() == pages_of(usable_regions(memory_map@)),
    {
        let mut map = MemoryMap { regions: regions_new(), num_pages: 0 };
        let mut i: usize = 0;
        while i < memory_map.len()
            invariant
                i <= memory_map@.len(),
                usable_regions(memory_map@).len() <= 64,
                firmware_map_ordered(memory_map@),
                map.wf(),
                map.regions() == usable_regions(memory_map@.subrange(0, i as int)),
                i > 0 ==> forall|k: int|
                    0 <= k < map.regions().len() ==> (#[trigger] map.regions()[k]).addr
                        + map.regions()[k].size <= memory_map@[i - 1].end_addr,
            decreases memory_map@.len() - i,
        {
            let reg = memory_map[i];
            proof {
                assert(memory_map@.subrange(0, i + 1).drop_last() =~= memory_map@.subrange(0, i as int));
                assert(memory_map@.subrange(0, i + 1).last() == reg);
                if i > 0 {
                    assert(memory_map@[i - 1].end_addr <= reg.start_addr);
                }
            }
            if reg.region_type == MemoryRegionType::Usable {
                let rg = Region { addr: reg.start_addr, size: reg.end_addr - reg.start_addr };
                proof {
                    lemma_usable_prefix(memory_map@, i + 1, memory_map@.len() as int);
                    assert(memory_map@.subrange(0, memory_map@.len() as int) =~= memory_map@);
                }
                map.push(rg);
            }
            i = i + 1;
        }
        proof {
            assert(memory_map@.subrange(0, memory_map@.len() as int) =~= memory_map@);
            lemma_usable_nonempty(memory_map@);
        }
        map
    }

    /// Appends a region that lies after all the others.
    fn push(&mut self, rg: Region)
        requires
            old(self).wf(),
            old(self).regions().len() < 64,
            rg.addr % 4096 == 0,
            rg.size % 4096 == 0,
            rg.addr + rg.size <= MAX_PHYS_ADDR,
            forall|k: int|
                0 <= k < old(self).regions().len() ==> (#[trigger] old(self).regions()[k]).addr
                    + old(self).regions()[k].size <= rg.addr,
        ensures
            final(self).wf(),
            final(self).regions() == old(self).regions().push(rg),
            final(self).page_count() == old(self).page_count() + rg.size / 4096,
    {
        proof {
            let s = self.regions();
            lemma_pages_bound(s);
            if s.len() > 0 {
                assert(s.last() == s[s.len() - 1]);
            }
            assert(s.push(rg).drop_last() =~= s);
        }
        self.num_pages = self.num_pages + rg.size / PAGE_SIZE;
        regions_push(&mut self.regions, rg);
    }

    /// Takes the first page of the first region that still holds a whole
    /// page, and returns its address. The map must hold a page.
    pub fn alloc_page(&mut self) -> (r: u64)
        requires
            old(self).wf(),
            old(self).page_count() > 0,
        ensures
            final(self).wf(),
            final(self).page_count() == old(self).page_count() - 1,
            took_page(old(self).regions(), final(self).regions(), r),
    {
        let ghost s = self.regions();
        proof {
            lemma_some_page(s);
        }
        let n = regions_len(&self.regions);
        let mut i: usize = 0;
        while regions_get(&self.regions, i).size < PAGE_SIZE
            invariant
                self.regions() == s,
                self.wf(),
                n == s.len(),
                0 <= i < n,
                exists|j: int| i <= j < s.len() && (#[trigger] s[j]).size >= 4096,
                forall|j: int| 0 <= j < i ==> (#[trigger] s[j]).size < 4096,
            decreases n - i,
        {
            proof {
                let j = choose|j: int| i <= j < s.len() && (#[trigger] s[j]).size >= 4096;
                assert(j != i);
            }
            i = i + 1;
        }
        let rg = regions_get(&self.regions, i);
        let out = rg.addr;
        let rest = Region { addr: rg.addr + PAGE_SIZE, size: rg.size - PAGE_SIZE };
        proof {
            assert(rg == s[i as int]);
            assert(rg.size % 4096 == 0);
            assert((rest.size as int) / 4096 == rg.size / 4096 - 1) by {
                vstd::arithmetic::div_mod::lemma_fundamental_div_mod(rg.size as int, 4096);
                vstd::arithmetic::div_mod::lemma_fundamental_div_mod(rest.size as int, 4096);
            }
            assert(rest.size % 4096 == 0) by {
                vstd::arithmetic::div_mod::lemma_fundamental_div_mod(rg.size as int, 4096);
                vstd::arithmetic::div_mod::lemma_fundamental_div_mod(rest.size as int, 4096);
            }
            lemma_pages_of_update(s, i as int, rest);
        }
        self.num_pages = self.num_pages - 1;
        if rest.size == 0 {
            regions_remove(&mut self.regions, i);
            proof {
                let t = self.regions();
                assert(t == s.remove(i as int));
                assert forall|a: int, b: int| 0 <= a < b < t.len() implies (#[trigger] t[a]).addr + t[a].size <= (#[trigger] t[b]).addr by {
                    let a1 = if a < i { a } else { a + 1 };
                    let b1 = if b < i { b } else { b + 1 };
                    assert(t[a] == s[a1] && t[b] == s[b1]);
                }
                assert forall|a: int| 0 <= a < t.len() implies (#[trigger] t[a]).addr % 4096 == 0 && t[a].size % 4096 == 0 && t[a].addr + t[a].size <= MAX_PHYS_ADDR by {
                    let a1 = if a < i { a } else { a + 1 };
                    assert(t[a] == s[a1]);
                }
            }
        } else {
            regions_set(&mut self.regions, i, rest);
            proof {
                let t = self.regions();
                assert(rest.addr % 4096 == 0) by {
                    vstd::arithmetic::div_mod::lemma_fundamental_div_mod(rg.addr as int, 4096);
                    vstd::arithmetic::div_mod::lemma_fundamental_div_mod(rest.addr as int, 4096);
                }
                assert forall|a: int, b: int| 0 <= a < b < t.len() implies (#[trigger] t[a]).addr + t[a].size <= (#[trigger] t[b]).addr by {
                    assert(s[a].addr + s[a].size <= s[b].addr);
                }
            }
        }
        out
    }

    /// Splits the map into the regions that hold its first `num_pages` pages
    /// and the regions that hold the rest, cutting the region that straddles
    /// the boundary in two.
    pub fn split_at(self, num_pages: u64) -> (r: (MemoryMap, MemoryMap))
        requires
            self.wf(),
            num_pages <= self.page_count(),
        ensures
            r.0.wf(),
            r.1.wf(),
            r.0.page_count() == num_pages,
            r.1.page_count() == self.page_count() - num_pages,
            forall|i: int, j: int|
                0 <= i < r.0.regions().len() && 0 <= j < r.1.regions().len() ==> (#[trigger] r.0.regions()[i]).addr
                    + r.0.regions()[i].size <= (#[trigger] r.1.regions()[j]).addr,
            forall|a: int|
                #[trigger] covers_addr(self.regions(), a) <==> covers_addr(r.0.regions(), a)
                    || covers_addr(r.1.regions(), a),
            split_shape(self.regions(), r.0.regions(), r.1.regions()),
    {
        let ghost s = self.regions();
        let ghost mut started = false;
        let ghost mut cut = false;
        let ghost mut k: int = 0;
        let ghost mut c: int = 0;
        let n = regions_len(&self.regions);
        let mut left = MemoryMap { regions: regions_new(), num_pages: 0 };
        let mut right = MemoryMap { regions: regions_new(), num_pages: 0 };
        let mut remaining = num_pages;
        let mut i: usize = 0;
        proof {
            lemma_pages_of_nonneg(s);
            assert(s.subrange(0, 0) =~= Seq::<Region>::empty());
            assert(s.subrange(0, n as int) =~= s);
            assert(pages_of(Seq::<Region>::empty()) == 0);
        }
        while i < n
            invariant
                self.wf(),
                self.regions() == s,
                n == s.len(),
                i <= n,
                left.wf(),
                right.wf(),
                left.regions().len() <= i,
                right.regions().len() <= i,
                left.num_pages + remaining == num_pages,
                right.num_pages + num_pages == pages_of(s.subrange(0, i as int)) + remaining,
                remaining <= num_pages,
                pages_of(s.subrange(0, i as int)) + pages_of(s.subrange(i as int, n as int)) == pages_of(s),
                remaining <= pages_of(s.subrange(i as int, n as int)),
                right.regions().len() > 0 ==> remaining == 0,
                i < n ==> forall|k: int|
                    0 <= k < left.regions().len() ==> (#[trigger] left.regions()[k]).addr
                        + left.regions()[k].size <= s[i as int].addr,
                i < n ==> forall|k: int|
                    0 <= k < right.regions().len() ==> (#[trigger] right.regions()[k]).addr
                        + right.regions()[k].size <= s[i as int].addr,
                forall|a: int, b: int|
                    0 <= a < left.regions().len() && 0 <= b < right.regions().len() ==> (#[trigger] left.regions()[a]).addr
                        + left.regions()[a].size <= (#[trigger] right.regions()[b]).addr,
                forall|a: int|
                    #[trigger] covers_addr(s.subrange(0, i as int), a) <==> covers_addr(left.regions(), a)
                        || covers_addr(right.regions(), a),
                !started ==> right.regions().len() == 0 && left.regions() == s.subrange(0, i as int),
                started ==> right.regions().len() > 0 && 0 <= k < i,
                started && !cut ==> left.regions() == s.subrange(0, k) && right.regions() == s.subrange(
                    k,
                    i as int,
                ),
                started && cut ==> 0 < c < s[k].size && left.regions() == s.subrange(0, k).push(head_of(s[k], c))
                    && right.regions() == seq![tail_of(s[k], c)] + s.subrange(k + 1, i as int),
            decreases n - i,
        {
            let rg = regions_get(&self.regions, i);
            let pages = rg.size / PAGE_SIZE;
            let ghost pre = s.subrange(0, i as int);
            let ghost lr = left.regions();
            let ghost rr = right.regions();
            proof {
                assert(rg == s[i as int]);
                assert(s.subrange(0, i + 1) =~= pre.push(rg));
                assert(pre.push(rg).drop_last() =~= pre);
                let post = s.subrange(i as int, n as int);
                assert(post =~= seq![rg] + s.subrange(i + 1, n as int));
                lemma_pages_of_append(seq![rg], s.subrange(i + 1, n as int));
                lemma_pages_of_single(rg);
                lemma_pages_of_nonneg(s.subrange(i + 1, n as int));
                if i + 1 < n {
                    assert(rg.addr + rg.size <= s[i + 1].addr);
                }
                assert forall|a: int| #[trigger] covers_addr(pre.push(rg), a) <==> covers_addr(pre, a) || in_region(rg, a) by {
                    lemma_covers_push(pre, rg, a);
                }
            }
            if remaining == 0 {
                right.push(rg);
                proof {
                    assert forall|a: int| #[trigger] covers_addr(right.regions(), a) <==> covers_addr(rr, a) || in_region(rg, a) by {
                        lemma_covers_push(rr, rg, a);
                    }
                    if !started {
                        started = true;
                        cut = false;
                        k = i as int;
                        assert(right.regions() =~= s.subrange(k, i + 1));
                    } else if !cut {
                        assert(right.regions() =~= s.subrange(k, i + 1));
                    } else {
                        assert(right.regions() =~= seq![tail_of(s[k], c)] + s.subrange(k + 1, i + 1));
                    }
                }
            } else if remaining >= pages {
                proof {
                    assert(rr.len() == 0);
                }
                left.push(rg);
                remaining = remaining - pages;
                proof {
                    assert(!started);
                    assert(left.regions() =~= s.subrange(0, i + 1));
                    assert forall|a: int| #[trigger] covers_addr(left.regions(), a) <==> covers_addr(lr, a) || in_region(rg, a) by {
                        lemma_covers_push(lr, rg, a);
                    }
                }
            } else {
                proof {
                    assert(rr.len() == 0);
                    assert(rg.size % 4096 == 0);
                    vstd::arithmetic::div_mod::lemma_fundamental_div_mod(rg.size as int, 4096);
                }
                let (a, b) = rg.split_at(remaining * PAGE_SIZE);
                proof {
                    assert(a.size / 4096 == remaining) by {
                        vstd::arithmetic::div_mod::lemma_div_multiples_vanish(remaining as int, 4096);
                    }
                    assert(b.size / 4096 == pages - remaining && b.size % 4096 == 0) by {
                        vstd::arithmetic::div_mod::lemma_div_multiples_vanish((pages - remaining) as int, 4096);
                        vstd::arithmetic::div_mod::lemma_mod_multiples_basic((pages - remaining) as int, 4096);
                    }
                    assert(a.size % 4096 == 0) by {
                        vstd::arithmetic::div_mod::lemma_mod_multiples_basic(remaining as int, 4096);
                    }
                    assert(b.addr % 4096 == 0) by {
                        vstd::arithmetic::div_mod::lemma_mod_multiples_basic(remaining as int, 4096);
                        vstd::arithmetic::div_mod::lemma_add_mod_noop(rg.addr as int, a.size as int, 4096);
                    }
                }
                left.push(a);
                right.push(b);
                remaining = 0;
                proof {
                    assert(!started);
                    started = true;
                    cut = true;
                    k = i as int;
                    c = a.size as int;
                    assert(right.regions() =~= seq![b] + s.subrange(k + 1, i + 1));
                    assert forall|x: int| #[trigger] covers_addr(left.regions(), x) <==> covers_addr(lr, x) || in_region(a, x) by {
                        lemma_covers_push(lr, a, x);
                    }
                    assert forall|x: int| #[trigger] covers_addr(right.regions(), x) <==> covers_addr(rr, x) || in_region(b, x) by {
                        lemma_covers_push(rr, b, x);
                    }
                }
            }
            i = i + 1;
        }
        proof {
            assert(s.subrange(0, n as int) =~= s);
            assert(s.subrange(n as int, n as int) =~= Seq::<Region>::empty());
            if !started {
                assert(left.regions() == s.subrange(0, n as int) && right.regions() =~= s.subrange(n as int, n as int));
                assert(split_shape(s, left.regions(), right.regions()));
            } else if cut {
                assert(head_of(s[k], c) == head_of(s[k], c));
                assert(split_shape(s, left.regions(), right.regions()));
            } else {
                assert(split_shape(s, left.regions(), right.regions()));
            }
        }
        (left, right)
    }

    /// Hands the regions out one by one, in ascending order.
    pub fn into_iter(self) -> (r: RegionIter)
        requires
            self.wf(),
        ensures
            r.remaining() == self.regions(),
    {
        RegionIter { regions: self.regions }
    }
}

/// Walks the regions of a consumed memory map.
pub struct RegionIter {
    regions: ArrayVec<Region, 64>,
}

impl RegionIter {
    /// The regions not yet handed out.
    pub closed spec fn remaining(&self) -> Seq<Region> {
        region_seq(self.regions)
    }

    /// The lowest region not yet handed out, if any.
    pub fn next(&mut self) -> (r: Option<Region>)
        ensures
            old(self).remaining().len() == 0 ==> r.is_none() && final(self).remaining() == old(self).remaining(),
            old(self).remaining().len() > 0 ==> r == Some(old(self).remaining()[0])
                && final(self).remaining() == old(self).remaining().remove(0),
    {
        if regions_len(&self.regions) == 0 {
            None
        } else {
            Some(regions_remove(&mut self.regions, 0))
        }
    }
}

/// Hands out memory from one physically contiguous region by bumping a
/// cursor; nothing is ever given back.
pub struct RegionBumpAllocator {
    start: u64,
    size: u64,
    offset: u64,
}

impl RegionBumpAllocator {
    pub closed spec fn start(&self) -> int {
        self.start as int
    }

    pub closed spec fn size(&self) -> int {
        self.size as int
    }

    /// How far into the region the cursor stands.
    pub closed spec fn offset(&self) -> int {
        self.offset as int
    }

    pub closed spec fn wf(&self) -> bool {
        self.offset <= self.size && self.start + self.size < MAX_PHYS_ADDR
    }

    /// Starts at the beginning of `rg`.
    pub fn from_region(rg: Region) -> (r: RegionBumpAllocator)
        requires
            rg.addr + rg.size < MAX_PHYS_ADDR,
        ensures
            r.wf(),
            r.start() == rg.addr,
            r.size() == rg.size,
            r.offset() == 0,
    {
        RegionBumpAllocator { start: rg.addr, size: rg.size, offset: 0 }
    }

    /// Hands out `size` bytes at the next offset aligned to `align`, as a
    /// direct-map virtual address, and moves the cursor to their end; `None`,
    /// with nothing changed, when they do not fit in the rest of the region.
    pub fn alloc_bytes(&mut self, size: u64, align: u64) -> (r: Option<u64>)
        requires
            old(self).wf(),
            is_power_of_two(align as int),
            size + align <= 0x8000_0000_0000_0000u64,
        ensures
            final(self).wf(),
            final(self).start() == old(self).start(),
            final(self).size() == old(self).size(),
            ({
                let at = spec_align_up(old(self).offset(), align as int);
                &&& old(self).offset() <= at
                &&& (at + size > old(self).size() ==> r.is_none() && final(self).offset() == old(self).offset())
                &&& (at + size <= old(self).size() ==> r == Some((old(self).start() + at + PHYS_OFFSET) as u64)
                    && final(self).offset() == at + size)
            }),
    {
        proof {
            crate::addr::lemma_power_of_two_positive(align as int);
        }
        let at = align_up(self.offset, align);
        if at > self.size || self.size - at < size {
            None
        } else {
            self.offset = at + size;
            Some(self.start + at + PHYS_OFFSET)
        }
    }
}

/// `l` and `r` are `s` split at one place: the leading regions and the rest,
/// with the region at the boundary, if any, cut in two.
pub open spec fn split_shape(s: Seq<Region>, l: Seq<Region>, r: Seq<Region>) -> bool {
    exists|k: int|
        0 <= k <= s.len() && ((l == s.subrange(0, k) && r == s.subrange(k, s.len() as int)) || (k
            < s.len() && exists|c: int|
            0 < c < s[k].size && l == s.subrange(0, k).push(#[trigger] head_of(s[k], c)) && r == seq![
                tail_of(s[k], c),
            ] + s.subrange(k + 1, s.len() as int)))
}

/// The first `c` bytes of `rg`.
pub open spec fn head_of(rg: Region, c: int) -> Region {
    Region { addr: rg.addr, size: c as u64 }
}

/// `rg` from byte `c` on.
pub open spec fn tail_of(rg: Region, c: int) -> Region {
    Region { addr: (rg.addr + c) as u64, size: (rg.size - c) as u64 }
}

/// Whether address `a` lies in `rg`.
pub open spec fn in_region(rg: Region, a: int) -> bool {
    rg.addr <= a < rg.addr + rg.size
}

/// Whether address `a` lies in one of the regions of `s`.
pub open spec fn covers_addr(s: Seq<Region>, a: int) -> bool {
    exists|i: int| 0 <= i < s.len() && in_region(#[trigger] s[i], a)
}

pub proof fn lemma_covers_push(s: Seq<Region>, rg: Region, a: int)
    ensures
        covers_addr(s.push(rg), a) <==> covers_addr(s, a) || in_region(rg, a),
{
    let t = s.push(rg);
    if covers_addr(s, a) {
        let i = choose|i: int| 0 <= i < s.len() && in_region(#[trigger] s[i], a);
        assert(t[i] == s[i]);
    }
    if in_region(rg, a) {
        assert(t[s.len() as int] == rg);
    }
    if covers_addr(t, a) {
        let i = choose|i: int| 0 <= i < t.len() && in_region(#[trigger] t[i], a);
        if i < s.len() {
            assert(t[i] == s[i]);
        }
    }
}

/// `after` is `before` less the first page of its first region that holds a
/// whole page, and that page is at `page`.
pub open spec fn took_page(before: Seq<Region>, after: Seq<Region>, page: u64) -> bool {
    exists|i: int|
        0 <= i < before.len() && (#[trigger] before[i]).size >= 4096 && (forall|j: int|
            0 <= j < i ==> (#[trigger] before[j]).size < 4096) && page == before[i].addr && after == (if before[i].size
            == 4096 {
            before.remove(i)
        } else {
            before.update(
                i,
                Region { addr: (before[i].addr + 4096) as u64, size: (before[i].size - 4096) as u64 },
            )
        })
}

/// A map that holds a page has a region that holds a whole page.
pub proof fn lemma_some_page(s: Seq<Region>)
    requires
        pages_of(s) > 0,
    ensures
        exists|j: int| 0 <= j < s.len() && (#[trigger] s[j]).size >= 4096,
    decreases s.len(),
{
    if s.last().size < 4096 {
        lemma_some_page(s.drop_last());
        let j = choose|j: int| 0 <= j < s.drop_last().len() && (#[trigger] s.drop_last()[j]).size >= 4096;
        assert(s[j] == s.drop_last()[j]);
    } else {
        assert(s[s.len() - 1] == s.last());
    }
}

/// A longer prefix of the firmware map has at least as many usable regions.
pub proof fn lemma_usable_prefix(m: Seq<MemoryRegion>, i: int, j: int)
    requires
        0 <= i <= j <= m.len(),
    ensures
        usable_regions(m.subrange(0, i)).len() <= usable_regions(m.subrange(0, j)).len(),
    decreases j - i,
{
    if i < j {
        lemma_usable_prefix(m, i, j - 1);
        assert(m.subrange(0, j).drop_last() =~= m.subrange(0, j - 1));
    }
}

/// A usable row in the firmware map gives the map at least one region.
pub proof fn lemma_usable_nonempty(m: Seq<MemoryRegion>)
    requires
        exists|i: int| 0 <= i < m.len() && (#[trigger] m[i]).region_type == MemoryRegionType::Usable,
    ensures
        usable_regions(m).len() > 0,
    decreases m.len(),
{
    if m.last().region_type != MemoryRegionType::Usable {
        let i = choose|i: int| 0 <= i < m.len() && (#[trigger] m[i]).region_type == MemoryRegionType::Usable;
        assert(m.drop_last()[i] == m[i]);
        lemma_usable_nonempty(m.drop_last());
    }
}

/// Ordered regions hold no more pages than fit below the end of the last one.
pub proof fn lemma_pages_bound(s: Seq<Region>)
    requires
        regions_ordered(s),
    ensures
        s.len() == 0 ==> pages_of(s) == 0,
        s.len() > 0 ==> pages_of(s) * 4096 <= s.last().addr + s.last().size,
        pages_of(s) * 4096 <= MAX_PHYS_ADDR,
    decreases s.len(),
{
    if s.len() > 0 {
        let t = s.drop_last();
        assert(regions_ordered(t)) by {
            assert forall|i: int, j: int| 0 <= i < j < t.len() implies (#[trigger] t[i]).addr + t[i].size <= (#[trigger] t[j]).addr by {
                assert(t[i] == s[i] && t[j] == s[j]);
            }
            assert forall|i: int| 0 <= i < t.len() implies (#[trigger] t[i]).addr % 4096 == 0 && t[i].size % 4096 == 0 && t[i].addr + t[i].size <= MAX_PHYS_ADDR by {
                assert(t[i] == s[i]);
            }
        }
        lemma_pages_bound(t);
        let l = s[s.len() - 1];
        assert(l == s.last());
        assert(l.size % 4096 == 0);
        if t.len() > 0 {
            assert(t.last() == s[s.len() - 2]);
        }
        assert((l.size / 4096) * 4096 == l.size) by {
            vstd::arithmetic::div_mod::lemma_fundamental_div_mod(l.size as int, 4096);
        }
    }
}

} // verus!
