//! The kernel heap: a first-fit, address-ordered free list of blocks, each a
//! header followed by its payload, that asks the physical allocator for
//! fresh pages when no free block fits.
use vstd::prelude::*;
use crate::addr::{align_up, is_power_of_two, spec_align_up, to_virt, PAGE_SIZE, PHYS_OFFSET};
use crate::pmm::{allocated_in, zone_full, PhysAllocator};
use crate::tree::pow2;
use crate::zone::FrameRange;

verus! {

/// Bytes of the header in front of every heap block.
pub const HEADER_SIZE: u64 = 16;

/// Largest request the heap serves: its pages must come in one block of the
/// physical allocator.
pub const MAX_HEAP_REQUEST: u64 = 0x7F_FFD0;

/// A free block of the heap: its header at `addr`, then `size` payload bytes.
#[derive(Clone, Copy, Debug, PartialEq, Eq, Structural)]
pub struct FreeBlock {
    pub addr: u64,
    pub size: u64,
}

/// Why a block could not be returned to the heap.
#[derive(Clone, Copy, Debug, PartialEq, Eq, Structural)]
pub enum HeapError {
    /// The block's header is already on the free list.
    DoubleFree,
}

/// One past the last byte of a block.
pub open spec fn block_end(b: FreeBlock) -> int {
    b.addr + 16 + b.size
}

/// Two blocks share no byte.
pub open spec fn apart(a: FreeBlock, b: FreeBlock) -> bool {
    block_end(a) <= b.addr || block_end(b) <= a.addr
}

/// The free list is in ascending order of address, without overlap.
pub open spec fn list_ok(s: Seq<FreeBlock>) -> bool {
    &&& forall|i: int| 0 <= i < s.len() ==> block_end(#[trigger] s[i]) <= u64::MAX
    &&& forall|i: int, j: int| 0 <= i < j < s.len() ==> block_end(#[trigger] s[i]) <= (#[trigger] s[j]).addr
}

/// `r` directly follows `l` and both headers lie in one page, so the two may
/// become one block; blocks in different pages are never merged, since pages
/// go back to the physical allocator whole.
pub open spec fn mergeable(l: FreeBlock, r: FreeBlock) -> bool {
    l.addr / 4096 == r.addr / 4096 && block_end(l) == r.addr
}

/// The block made of `l` followed by `r`.
pub open spec fn merged(l: FreeBlock, r: FreeBlock) -> FreeBlock {
    FreeBlock { addr: l.addr, size: (l.size + 16 + r.size) as u64 }
}

/// Number of blocks of the (ordered) list below address `a`: where a block
/// at `a` goes.
pub open spec fn count_below(s: Seq<FreeBlock>, a: int) -> int
    decreases s.len(),
{
    if s.len() == 0 {
        0
    } else if s.last().addr < a {
        s.len() as int
    } else {
        count_below(s.drop_last(), a)
    }
}

/// The free list once `b` is put back: inserted in address order, merged
/// into the block before it when they may merge, and then with the block
/// after it when they may merge.
pub open spec fn freed_list(s: Seq<FreeBlock>, b: FreeBlock) -> Seq<FreeBlock> {
    let i = count_below(s, b.addr as int);
    if i > 0 && mergeable(s[i - 1], b) {
        let m = merged(s[i - 1], b);
        if i < s.len() && mergeable(m, s[i]) {
            s.update(i - 1, merged(m, s[i])).remove(i)
        } else {
            s.update(i - 1, m)
        }
    } else if i < s.len() && mergeable(b, s[i]) {
        s.update(i, merged(b, s[i]))
    } else {
        s.insert(i, b)
    }
}

/// A free block can serve a request of `len` payload bytes: exactly, or with
/// room to leave a block behind.
pub open spec fn fits(b: FreeBlock, len: int) -> bool {
    b.size == len || b.size > len + 16
}

/// `after` is `before` once the first block that fits `len` served it, and
/// `p` is the payload handed out.
pub open spec fn took_first_fit(before: Seq<FreeBlock>, after: Seq<FreeBlock>, len: int, p: u64) -> bool {
    exists|i: int|
        0 <= i < before.len() && fits(#[trigger] before[i], len) && (forall|j: int|
            0 <= j < i ==> !fits(#[trigger] before[j], len)) && p == before[i].addr + 16 && after == (
        if before[i].size == len {
            before.remove(i)
        } else {
            before.update(
                i,
                FreeBlock { addr: (before[i].addr + 16 + len) as u64, size: (before[i].size - len - 16) as u64 },
            )
        })
}

/// `o` is the smallest order whose blocks hold `pages` pages.
pub open spec fn order_for(o: int, pages: int) -> bool {
    0 <= o <= 11 && pow2(o) >= pages && (o == 0 || pow2(o - 1) < pages)
}

/// Pages the heap asks for when no free block serves a request of `size`
/// bytes: enough that the new block, after its header, is larger than the
/// request with its own header.
pub open spec fn heap_pages(size: int) -> int {
    (alloc_len(size) + 32) / 4096 + 1
}

/// The payload bytes a request of `size` bytes takes: rounded up to the
/// header's alignment.
pub open spec fn alloc_len(size: int) -> int {
    spec_align_up(size, 16)
}

/// Block `b` lies, through the direct map, inside one live block of `pa`.
pub open spec fn in_chunk(b: FreeBlock, pa: PhysAllocator) -> bool {
    exists|r: FrameRange|
        #[trigger] pa.is_live(r) && r.start + PHYS_OFFSET <= b.addr && block_end(b) <= r.end + PHYS_OFFSET
}

/// A block the heap can track: inside a live block of `pa`, and aligned to
/// the header's alignment.
pub open spec fn heap_block(b: FreeBlock, pa: PhysAllocator) -> bool {
    in_chunk(b, pa) && b.addr % 16 == 0 && b.size % 16 == 0
}

/// The heap: its free blocks, in ascending order of address. An allocated
/// block keeps its header in front of the payload, holding the payload size,
/// so that freeing it puts the same block back.
pub struct SlobAllocator {
    free: Vec<FreeBlock>,
}

impl SlobAllocator {
    /// The free list, in ascending order of address.
    pub closed spec fn free_list(&self) -> Seq<FreeBlock> {
        self.free@
    }

    pub open spec fn wf(&self) -> bool {
        list_ok(self.free_list())
    }

    /// The heap's invariant against the physical allocator it draws on:
    /// every free block lies in a live block of `pa`.
    pub open spec fn inv(&self, pa: &PhysAllocator) -> bool {
        &&& self.wf()
        &&& pa.wf()
        &&& forall|j: int| 0 <= j < self.free_list().len() ==> heap_block(#[trigger] self.free_list()[j], *pa)
    }

    /// An empty heap: it gets its first pages on its first allocation.
    pub fn new() -> (r: SlobAllocator)
        ensures
            r.wf(),
            r.free_list() == Seq::<FreeBlock>::empty(),
    {
        SlobAllocator { free: Vec::new() }
    }

    /// The free blocks, as `(header address, payload size)` pairs in address order.
    pub fn blocks(&self) -> (r: Vec<(u64, u64)>)
        ensures
            r@.len() == self.free_list().len(),
            forall|i: int|
                0 <= i < r@.len() ==> (#[trigger] r@[i]) == (self.free_list()[i].addr, self.free_list()[i].size),
    {
        let mut r: Vec<(u64, u64)> = Vec::new();
        let mut i: usize = 0;
        while i < self.free.len()
            invariant
                i <= self.free@.len(),
                r@.len() == i,
                forall|j: int| 0 <= j < i ==> (#[trigger] r@[j]) == (self.free@[j].addr, self.free@[j].size),
            decreases self.free@.len() - i,
        {
            r.push((self.free[i].addr, self.free[i].size));
            i = i + 1;
        }
        r
    }

    /// Serves `len` payload bytes from the first free block that fits, and
    /// returns the payload's address.
    pub fn take(&mut self, len: u64) -> (r: Option<u64>)
        requires
            old(self).wf(),
        ensures
            final(self).wf(),
            r.is_none() <==> forall|j: int| 0 <= j < old(self).free_list().len() ==> !fits(#[trigger] old(self).free_list()[j], len as int),
            r.is_none() ==> final(self).free_list() == old(self).free_list(),
            r is Some ==> took_first_fit(old(self).free_list(), final(self).free_list(), len as int, r->Some_0),
    {
        let ghost s = self.free@;
        let n = self.free.len();
        let mut i: usize = 0;
        while i < n
            invariant
                self.free@ == s,
                s == old(self).free@,
                n == s.len(),
                i <= n,
                list_ok(s),
                forall|j: int| 0 <= j < i ==> !fits(#[trigger] s[j], len as int),
            decreases n - i,
        {
            let c = self.free[i];
            if c.size == len {
                self.free.remove(i);
                proof {
                    let t = self.free@;
                    assert(fits(s[i as int], len as int));
                    lemma_served_list_ok(s, t, len as int, i as int);
                    assert(old(self).free_list() == s);
                    assert(fits(old(self).free_list()[i as int], len as int));
                    assert(took_first_fit(s, t, len as int, (c.addr + 16) as u64));
                }
                return Some(c.addr + HEADER_SIZE);
            } else if c.size > len && c.size - len > HEADER_SIZE {
                let rest = FreeBlock { addr: c.addr + HEADER_SIZE + len, size: c.size - len - HEADER_SIZE };
                self.free.set(i, rest);
                proof {
                    let t = self.free@;
                    assert(fits(s[i as int], len as int));
                    lemma_served_list_ok(s, t, len as int, i as int);
                    assert(old(self).free_list() == s);
                    assert(fits(old(self).free_list()[i as int], len as int));
                    assert(t == s.update(i as int, FreeBlock { addr: (s[i as int].addr + 16 + len) as u64, size: (s[i as int].size - len - 16) as u64 }));
                    assert(took_first_fit(s, t, len as int, (c.addr + 16) as u64));
                }
                return Some(c.addr + HEADER_SIZE);
            }
            i = i + 1;
        }
        None
    }

    /// Puts block `b` back on the free list, merging it with its neighbours
    /// where they may merge. A block whose header is already on the list is
    /// refused: that is a double free.
    pub fn free_block(&mut self, b: FreeBlock) -> (r: Result<(), HeapError>)
        requires
            old(self).wf(),
            block_end(b) <= u64::MAX,
            forall|j: int|
                0 <= j < old(self).free_list().len() && (#[trigger] old(self).free_list()[j]).addr != b.addr
                    ==> apart(old(self).free_list()[j], b),
        ensures
            final(self).wf(),
            r is Err <==> exists|j: int|
                0 <= j < old(self).free_list().len() && (#[trigger] old(self).free_list()[j]).addr == b.addr,
            r is Err ==> r == Err::<(), HeapError>(HeapError::DoubleFree) && final(self).free_list() == old(self).free_list(),
            r is Ok ==> final(self).free_list() == freed_list(old(self).free_list(), b),
    {
        let ghost s = self.free@;
        let n = self.free.len();
        let mut i: usize = 0;
        let mut stop = false;
        while i < n && !stop
            invariant
                self.free@ == s,
                s == old(self).free@,
                n == s.len(),
                i <= n,
                list_ok(s),
                forall|j: int| 0 <= j < i ==> (#[trigger] s[j]).addr < b.addr,
                stop ==> i < n && s[i as int].addr > b.addr,
            decreases n - i + (if stop { 0int } else { 1int }),
        {
            let c = self.free[i];
            if c.addr == b.addr {
                proof {
                    assert(old(self).free_list() == s);
                    assert(old(self).free_list()[i as int].addr == b.addr);
                }
                return Err(HeapError::DoubleFree);
            }
            if c.addr > b.addr {
                stop = true;
            } else {
                i = i + 1;
            }
        }
        proof {
            lemma_count_below(s, b.addr as int, i as int);
            assert forall|j: int| 0 <= j < s.len() implies (#[trigger] s[j]).addr != b.addr by {
                if j >= i {
                    if j > i {
                        assert(block_end(s[i as int]) <= s[j].addr);
                    }
                }
            }
        }
        if i > 0 && same_page(self.free[i - 1].addr, b.addr) && self.free[i - 1].addr + HEADER_SIZE
            + self.free[i - 1].size == b.addr {
            let p = self.free[i - 1];
            let m = FreeBlock { addr: p.addr, size: p.size + HEADER_SIZE + b.size };
            if i < n && same_page(m.addr, self.free[i].addr) && m.addr + HEADER_SIZE + m.size
                == self.free[i].addr {
                let c = self.free[i];
                proof {
                    assert(apart(s[i as int], b));
                }
                self.free.set(i - 1, FreeBlock { addr: m.addr, size: m.size + HEADER_SIZE + c.size });
                self.free.remove(i);
            } else {
                self.free.set(i - 1, m);
            }
        } else if i < n && same_page(b.addr, self.free[i].addr) && b.addr + HEADER_SIZE + b.size
            == self.free[i].addr {
            let c = self.free[i];
            proof {
                assert(apart(s[i as int], b));
            }
            self.free.set(i, FreeBlock { addr: b.addr, size: b.size + HEADER_SIZE + c.size });
        } else {
            self.free.insert(i, b);
        }
        proof {
            let t = self.free@;
            assert(t == freed_list(s, b));
            lemma_freed_list_ok(s, b);
        }
        Ok(())
    }
}

/// Whether two addresses lie in the same page.
pub fn same_page(a: u64, b: u64) -> (r: bool)
    ensures
        r == (a / 4096 == b / 4096),
{
    a / PAGE_SIZE == b / PAGE_SIZE
}

pub proof fn lemma_count_below(s: Seq<FreeBlock>, a: int, i: int)
    requires
        list_ok(s),
        0 <= i <= s.len(),
        forall|j: int| 0 <= j < i ==> (#[trigger] s[j]).addr < a,
        i < s.len() ==> s[i].addr > a,
    ensures
        count_below(s, a) == i,
    decreases s.len(),
{
    if s.len() > 0 {
        if i == s.len() {
            assert(s.last() == s[s.len() - 1]);
        } else {
            let t = s.drop_last();
            assert(s.last() == s[s.len() - 1]);
            if i < s.len() - 1 {
                assert(block_end(s[i]) <= s[s.len() - 1].addr);
            }
            assert forall|x: int, y: int| 0 <= x < y < t.len() implies block_end(#[trigger] t[x]) <= (#[trigger] t[y]).addr by {
                assert(t[x] == s[x] && t[y] == s[y]);
            }
            assert forall|x: int| 0 <= x < t.len() implies block_end(#[trigger] t[x]) <= u64::MAX by {
                assert(t[x] == s[x]);
            }
            lemma_count_below(t, a, i);
        }
    }
}

/// Putting back a block that overlaps no free block keeps the list ordered
/// and without overlap.
pub proof fn lemma_freed_list_ok(s: Seq<FreeBlock>, b: FreeBlock)
    requires
        list_ok(s),
        block_end(b) <= u64::MAX,
        forall|j: int| 0 <= j < s.len() ==> apart(#[trigger] s[j], b),
    ensures
        list_ok(freed_list(s, b)),
{
    let i = count_below(s, b.addr as int);
    lemma_count_below_facts(s, b.addr as int);
    let t = freed_list(s, b);
    if i > 0 && mergeable(s[i - 1], b) {
        let m = merged(s[i - 1], b);
        if i < s.len() && mergeable(m, s[i]) {
            assert forall|x: int, y: int| 0 <= x < y < t.len() implies block_end(#[trigger] t[x]) <= (#[trigger] t[y]).addr by {
                let x1 = if x < i { x } else { x + 1 };
                let y1 = if y < i { y } else { y + 1 };
                if y1 > i {
                    assert(block_end(s[i]) <= s[y1].addr);
                }
                if x1 < i - 1 {
                    assert(block_end(s[x1]) <= s[i - 1].addr);
                }
            }
            assert forall|x: int| 0 <= x < t.len() implies block_end(#[trigger] t[x]) <= u64::MAX by {
                let x1 = if x < i { x } else { x + 1 };
            }
        } else {
            assert forall|x: int, y: int| 0 <= x < y < t.len() implies block_end(#[trigger] t[x]) <= (#[trigger] t[y]).addr by {
                if y >= i {
                    assert(apart(s[y], b));
                }
                if x < i - 1 {
                    assert(block_end(s[x]) <= s[i - 1].addr);
                }
            }
        }
    } else if i < s.len() && mergeable(b, s[i]) {
        assert forall|x: int, y: int| 0 <= x < y < t.len() implies block_end(#[trigger] t[x]) <= (#[trigger] t[y]).addr by {
            if x < i {
                assert(apart(s[x], b));
            }
            if y > i {
                assert(block_end(s[i]) <= s[y].addr);
            }
        }
    } else {
        assert forall|x: int, y: int| 0 <= x < y < t.len() implies block_end(#[trigger] t[x]) <= (#[trigger] t[y]).addr by {
            if x < i && y == i {
                assert(apart(s[x], b));
            } else if x == i {
                assert(apart(s[y - 1], b));
            } else if x < i && y > i {
                assert(block_end(s[x]) <= s[y - 1].addr);
            } else if x > i {
                assert(block_end(s[x - 1]) <= s[y - 1].addr);
            }
        }
        assert forall|x: int| 0 <= x < t.len() implies block_end(#[trigger] t[x]) <= u64::MAX by {
            if x > i {
                assert(t[x] == s[x - 1]);
            }
        }
    }
}

/// Where `count_below` stands: every block before it is below `a`, every
/// block from it on is above `a` or at it.
pub proof fn lemma_count_below_facts(s: Seq<FreeBlock>, a: int)
    requires
        list_ok(s),
    ensures
        0 <= count_below(s, a) <= s.len(),
        forall|j: int| 0 <= j < count_below(s, a) ==> (#[trigger] s[j]).addr < a,
        forall|j: int| count_below(s, a) <= j < s.len() ==> (#[trigger] s[j]).addr >= a,
    decreases s.len(),
{
    if s.len() > 0 {
        let t = s.drop_last();
        assert forall|x: int, y: int| 0 <= x < y < t.len() implies block_end(#[trigger] t[x]) <= (#[trigger] t[y]).addr by {
            assert(t[x] == s[x] && t[y] == s[y]);
        }
        assert forall|x: int| 0 <= x < t.len() implies block_end(#[trigger] t[x]) <= u64::MAX by {
            assert(t[x] == s[x]);
        }
        lemma_count_below_facts(t, a);
        assert(s.last() == s[s.len() - 1]);
        if s.last().addr < a {
            assert forall|j: int| 0 <= j < s.len() implies (#[trigger] s[j]).addr < a by {
                if j < s.len() - 1 {
                    assert(block_end(s[j]) <= s[s.len() - 1].addr);
                }
            }
        } else {
            assert forall|j: int| count_below(s, a) <= j < s.len() implies (#[trigger] s[j]).addr >= a by {
                if j < s.len() - 1 {
                    assert(t[j] == s[j]);
                }
            }
            assert forall|j: int| 0 <= j < count_below(s, a) implies (#[trigger] s[j]).addr < a by {
                assert(t[j] == s[j]);
            }
        }
    }
}

/// The block of `len` payload bytes whose payload starts at `p` lies inside a
/// live block of `pa`, and no free block of `s` shares a byte with it.
pub open spec fn handed_out(s: Seq<FreeBlock>, pa: PhysAllocator, p: int, len: int) -> bool {
    let c = FreeBlock { addr: (p - 16) as u64, size: len as u64 };
    &&& p >= 16
    &&& in_chunk(c, pa)
    &&& forall|j: int| 0 <= j < s.len() ==> apart(#[trigger] s[j], c)
}

impl SlobAllocator {
    /// Allocates `size` bytes aligned to `align`: the first free block that
    /// fits serves it; when none does, the heap grows by the pages the
    /// request needs and tries once more. Returns the payload's address.
    pub fn allocate(&mut self, pa: &mut PhysAllocator, size: u64, align: u64) -> (r: Option<u64>)
        requires
            old(self).inv(old(pa)),
            is_power_of_two(align as int),
            align <= HEADER_SIZE,
            size <= MAX_HEAP_REQUEST,
        ensures
            final(self).inv(final(pa)),
            (exists|j: int|
                0 <= j < old(self).free_list().len() && fits(
                    #[trigger] old(self).free_list()[j],
                    alloc_len(size as int),
                )) ==> r is Some && took_first_fit(
                old(self).free_list(),
                final(self).free_list(),
                alloc_len(size as int),
                r->Some_0,
            ) && final(pa).zones() == old(pa).zones(),
            r is Some ==> r->Some_0 % align == 0,
            (forall|j: int|
                0 <= j < old(self).free_list().len() ==> !fits(
                    #[trigger] old(self).free_list()[j],
                    alloc_len(size as int),
                )) && (forall|o: int|
                #[trigger] order_for(o, heap_pages(size as int)) ==> exists|i: int|
                    0 <= i < old(pa).zones().len() && !zone_full(#[trigger] old(pa).zones()[i], o))
                ==> r is Some,
            r is None ==> forall|j: int|
                0 <= j < final(self).free_list().len() ==> !fits(
                    #[trigger] final(self).free_list()[j],
                    alloc_len(size as int),
                ),
            r is Some ==> handed_out(final(self).free_list(), *final(pa), r->Some_0 as int, alloc_len(size as int)),
    {
        proof {
            assert(is_power_of_two(16)) by {
                reveal_with_fuel(is_power_of_two, 6);
            }
            lemma_small_alignment(align as int);
        }
        let len = align_up(size, HEADER_SIZE);
        let ghost s0 = self.free@;
        let first = self.take(len);
        if first.is_some() {
            proof {
                lemma_take_inv(s0, self.free@, len as int, first->Some_0, *pa, align as int);
            }
            return first;
        }
        let total = len + HEADER_SIZE;
        let pages = (total + HEADER_SIZE) / PAGE_SIZE + 1;
        let ghost pa0 = *pa;
        proof {
            assert(pages == heap_pages(size as int));
        }
        if !self.morecore(pa, pages) {
            proof {
                let o = choose|o: int|
                    #[trigger] order_for(o, pages as int) && forall|i: int|
                        0 <= i < pa0.zones().len() ==> zone_full(#[trigger] pa0.zones()[i], o);
                if forall|o: int|
                    #[trigger] order_for(o, heap_pages(size as int)) ==> exists|i: int|
                        0 <= i < pa0.zones().len() && !zone_full(#[trigger] pa0.zones()[i], o) {
                    assert(order_for(o, heap_pages(size as int)));
                }
            }
            return None;
        }
        let ghost s1 = self.free@;
        proof {
            let (fr, o, i) = choose|fr: FrameRange, o: int, i: int|
                #[trigger] order_for(o, pages as int) && #[trigger] allocated_in(pa0.zones(), pa.zones(), fr, o, i)
                    && fr.start + PHYS_OFFSET + pages * 4096 <= u64::MAX && s1 == freed_list(
                    s0,
                    FreeBlock { addr: (fr.start + PHYS_OFFSET) as u64, size: (pages * 4096 - 16) as u64 },
                );
            let b = FreeBlock { addr: (fr.start + PHYS_OFFSET) as u64, size: (pages * 4096 - 16) as u64 };
            vstd::arithmetic::div_mod::lemma_fundamental_div_mod(total + 16, 4096);
            lemma_freed_list_has_fit(s0, b, len as int);
        }
        let second = self.take(len);
        proof {
            if second is Some {
                lemma_take_inv(s1, self.free@, len as int, second->Some_0, *pa, align as int);
            }
        }
        second
    }

    /// Whether a block whose payload starts at `ptr`, of `size` bytes, has
    /// the shape of a heap block and overlaps no free block other than one
    /// with the same header (which `dealloc` refuses as a double free).
    pub fn may_free(&self, ptr: u64, size: u64) -> (r: bool)
        ensures
            r == (ptr >= HEADER_SIZE && size <= MAX_HEAP_REQUEST && (ptr - 16) % 16 == 0 && forall|j: int|
                0 <= j < self.free_list().len() && (#[trigger] self.free_list()[j]).addr != ptr - 16 ==> apart(
                    self.free_list()[j],
                    FreeBlock { addr: (ptr - 16) as u64, size: alloc_len(size as int) as u64 },
                )),
    {
        if ptr < HEADER_SIZE || size > MAX_HEAP_REQUEST || (ptr - HEADER_SIZE) % 16 != 0 {
            return false;
        }
        proof {
            assert(is_power_of_two(16)) by {
                reveal_with_fuel(is_power_of_two, 6);
            }
        }
        let len = align_up(size, HEADER_SIZE);
        let b = FreeBlock { addr: ptr - HEADER_SIZE, size: len };
        let mut j: usize = 0;
        while j < self.free.len()
            invariant
                j <= self.free@.len(),
                ptr >= 16,
                size <= MAX_HEAP_REQUEST,
                b.addr == ptr - 16,
                b.size == alloc_len(size as int),
                forall|x: int| 0 <= x < j && (#[trigger] self.free@[x]).addr != b.addr ==> apart(self.free@[x], b),
            decreases self.free@.len() - j,
        {
            let c = self.free[j];
            if c.addr != b.addr {
                let c_end = c.addr as u128 + 16 + c.size as u128;
                let b_end = b.addr as u128 + 16 + b.size as u128;
                if !(c_end <= b.addr as u128 || b_end <= c.addr as u128) {
                    proof {
                        assert(self.free_list()[j as int] == c);
                        assert(!apart(c, b));
                    }
                    return false;
                }
            }
            j = j + 1;
        }
        true
    }

    /// Returns the block whose payload starts at `ptr`, of `size` bytes, to
    /// the free list. A block whose header is already on the list is refused
    /// as a double free, and nothing changes.
    pub fn dealloc(&mut self, pa: &PhysAllocator, ptr: u64, size: u64) -> (r: Result<(), HeapError>)
        requires
            old(self).inv(pa),
            ptr >= HEADER_SIZE,
            size <= MAX_HEAP_REQUEST,
            heap_block(FreeBlock { addr: (ptr - 16) as u64, size: alloc_len(size as int) as u64 }, *pa),
            forall|j: int|
                0 <= j < old(self).free_list().len() && (#[trigger] old(self).free_list()[j]).addr != ptr - 16
                    ==> apart(
                    old(self).free_list()[j],
                    FreeBlock { addr: (ptr - 16) as u64, size: alloc_len(size as int) as u64 },
                ),
        ensures
            final(self).inv(pa),
            r is Err <==> exists|j: int|
                0 <= j < old(self).free_list().len() && (#[trigger] old(self).free_list()[j]).addr == ptr - 16,
            r is Err ==> final(self).free_list() == old(self).free_list(),
            r is Ok ==> final(self).free_list() == freed_list(
                old(self).free_list(),
                FreeBlock { addr: (ptr - 16) as u64, size: alloc_len(size as int) as u64 },
            ),
    {
        proof {
            assert(is_power_of_two(16)) by {
                reveal_with_fuel(is_power_of_two, 6);
            }
        }
        let len = align_up(size, HEADER_SIZE);
        let b = FreeBlock { addr: ptr - HEADER_SIZE, size: len };
        let ghost s0 = self.free@;
        proof {
            assert(in_chunk(b, *pa));
            crate::addr::lemma_power_of_two_positive(16);
            let c = choose|c: FrameRange|
                #[trigger] pa.is_live(c) && c.start + PHYS_OFFSET <= b.addr && block_end(b) <= c.end + PHYS_OFFSET;
            crate::pmm::lemma_live_aligned(pa, c);
        }
        let r = self.free_block(b);
        proof {
            if r is Ok {
                assert forall|j: int| 0 <= j < s0.len() implies heap_block(#[trigger] s0[j], *pa) by {}
                lemma_freed_list_blocks(s0, b, *pa);
            }
        }
        r
    }

    /// Asks `pa` for `num_pages` pages, in the smallest block that holds
    /// them, and puts them on the free list as one block. `false`, with
    /// nothing changed, when `pa` has no such block.
    pub fn morecore(&mut self, pa: &mut PhysAllocator, num_pages: u64) -> (r: bool)
        requires
            old(self).inv(old(pa)),
            1 <= num_pages <= 2048,
        ensures
            final(self).inv(final(pa)),
            !r ==> final(self).free_list() == old(self).free_list() && final(pa).zones() == old(pa).zones(),
            !r ==> exists|o: int|
                #[trigger] order_for(o, num_pages as int) && forall|i: int|
                    0 <= i < old(pa).zones().len() ==> zone_full(#[trigger] old(pa).zones()[i], o),
            r ==> exists|fr: FrameRange, o: int, i: int|
                #[trigger] order_for(o, num_pages as int) && #[trigger] allocated_in(
                    old(pa).zones(),
                    final(pa).zones(),
                    fr,
                    o,
                    i,
                ) && fr.start + PHYS_OFFSET + num_pages * 4096 <= u64::MAX && final(self).free_list() == freed_list(
                    old(self).free_list(),
                    FreeBlock { addr: (fr.start + PHYS_OFFSET) as u64, size: (num_pages * 4096 - 16) as u64 },
                ),
    {
        let mut order: u8 = 0;
        let mut p: u64 = 1;
        while p < num_pages
            invariant
                p == pow2(order as int),
                order <= 11,
                1 <= num_pages <= 2048,
                p < 2 * num_pages,
                order == 0 || pow2(order - 1) < num_pages,
            decreases 2048 - p,
        {
            proof {
                reveal_with_fuel(pow2, 12);
                if order >= 11 {
                    crate::tree::lemma_pow2_strictly_increasing(11, order as int);
                }
            }
            p = p * 2;
            order = order + 1;
        }
        let ghost pa0 = *pa;
        match pa.allocate(order) {
            None => {
                proof {
                    assert(pow2(order as int) >= num_pages);
                    assert(order_for(order as int, num_pages as int));
                    assert forall|j: int| 0 <= j < self.free@.len() implies heap_block(
                        #[trigger] self.free_list()[j],
                        *pa,
                    ) by {
                        assert(heap_block(self.free_list()[j], pa0));
                        let c = self.free_list()[j];
                        let r0 = choose|r0: FrameRange|
                            #[trigger] pa0.is_live(r0) && r0.start + PHYS_OFFSET <= c.addr && block_end(c)
                                <= r0.end + PHYS_OFFSET;
                        assert(pa.is_live(r0));
                    }
                }
                false
            },
            Some(fr) => {
                let ghost pa1 = *pa;
                proof {
                    crate::pmm::lemma_live_aligned(pa, fr);
                }
                let addr = to_virt(fr.start);
                let size = num_pages * PAGE_SIZE - HEADER_SIZE;
                let b = FreeBlock { addr, size };
                proof {
                    lemma_fresh_chunk(self.free@, b, pa0, pa1, fr);
                    assert(heap_block(b, pa1)) by {
                        vstd::arithmetic::div_mod::lemma_mod_multiples_basic(num_pages * 256 - 1, 16);
                        assert(size == (num_pages * 256 - 1) * 16);
                        assert((fr.start + PHYS_OFFSET) % 16 == 0);
                    }
                }
                let ghost s0 = self.free@;
                let res = self.free_block(b);
                proof {
                    assert(res is Ok) by {
                        if res is Err {
                            let j = choose|j: int| 0 <= j < s0.len() && (#[trigger] s0[j]).addr == b.addr;
                            assert(apart(s0[j], b));
                        }
                    }
                    lemma_freed_list_blocks(s0, b, pa1);
                    let i = choose|i: int| allocated_in(pa0.zones(), pa1.zones(), fr, order as int, i);
                    assert(order_for(order as int, num_pages as int));
                    assert(allocated_in(pa0.zones(), pa1.zones(), fr, order as int, i));
                }
                true
            },
        }
    }
}

/// Blocks whose headers share a page, each inside a live block of `pa`,
/// lie in the same live block, so merging them keeps the result inside it.
pub proof fn lemma_merge_in_chunk(l: FreeBlock, r: FreeBlock, pa: PhysAllocator)
    requires
        pa.wf(),
        in_chunk(l, pa),
        in_chunk(r, pa),
        mergeable(l, r),
    ensures
        in_chunk(merged(l, r), pa),
{
    let c1 = choose|c: FrameRange|
        #[trigger] pa.is_live(c) && c.start + PHYS_OFFSET <= l.addr && block_end(l) <= c.end + PHYS_OFFSET;
    let c2 = choose|c: FrameRange|
        #[trigger] pa.is_live(c) && c.start + PHYS_OFFSET <= r.addr && block_end(r) <= c.end + PHYS_OFFSET;
    crate::pmm::lemma_live_aligned(&pa, c1);
    crate::pmm::lemma_live_aligned(&pa, c2);
    let lo = c1.start + PHYS_OFFSET;
    let hi = c1.end + PHYS_OFFSET;
    let q = l.addr / 4096;
    vstd::arithmetic::div_mod::lemma_fundamental_div_mod(l.addr as int, 4096);
    vstd::arithmetic::div_mod::lemma_fundamental_div_mod(r.addr as int, 4096);
    vstd::arithmetic::div_mod::lemma_fundamental_div_mod(lo, 4096);
    vstd::arithmetic::div_mod::lemma_fundamental_div_mod(hi, 4096);
    vstd::arithmetic::div_mod::lemma_add_mod_noop(c1.start as int, PHYS_OFFSET as int, 4096);
    vstd::arithmetic::div_mod::lemma_add_mod_noop(c1.end as int, PHYS_OFFSET as int, 4096);
    let ql = lo / 4096;
    let qh = hi / 4096;
    assert(lo == 4096 * ql && hi == 4096 * qh);
    assert(ql <= q < qh) by (nonlinear_arith)
        requires
            4096 * ql <= l.addr,
            l.addr < 4096 * qh,
            l.addr == 4096 * q + l.addr % 4096,
            0 <= l.addr % 4096 < 4096,
    ;
    assert(lo <= r.addr < hi) by (nonlinear_arith)
        requires
            ql <= q < qh,
            r.addr == 4096 * q + r.addr % 4096,
            0 <= r.addr % 4096 < 4096,
            lo == 4096 * ql,
            hi == 4096 * qh,
    ;
    if c1 != c2 {
        crate::pmm::lemma_live_disjoint_all(&pa, c1, c2);
    }
}

/// Putting back a block of the heap keeps every free block inside a live
/// block of `pa`, and aligned.
pub proof fn lemma_freed_list_blocks(s: Seq<FreeBlock>, b: FreeBlock, pa: PhysAllocator)
    requires
        pa.wf(),
        list_ok(s),
        heap_block(b, pa),
        forall|j: int| 0 <= j < s.len() ==> heap_block(#[trigger] s[j], pa),
    ensures
        forall|j: int| 0 <= j < freed_list(s, b).len() ==> heap_block(#[trigger] freed_list(s, b)[j], pa),
{
    let i = count_below(s, b.addr as int);
    lemma_count_below_facts(s, b.addr as int);
    let t = freed_list(s, b);
    if i > 0 && mergeable(s[i - 1], b) {
        let m = merged(s[i - 1], b);
        lemma_merge_in_chunk(s[i - 1], b, pa);
        if i < s.len() && mergeable(m, s[i]) {
            lemma_merge_in_chunk(m, s[i], pa);
            assert forall|j: int| 0 <= j < t.len() implies heap_block(#[trigger] t[j], pa) by {
                if j > i - 1 {
                    assert(t[j] == s[j + 1]);
                }
            }
        } else {
            let c = choose|c: FrameRange|
                #[trigger] pa.is_live(c) && c.start + PHYS_OFFSET <= b.addr && block_end(b) <= c.end + PHYS_OFFSET;
            crate::pmm::lemma_live_aligned(&pa, c);
            assert(m.size % 16 == 0);
            assert forall|j: int| 0 <= j < t.len() implies heap_block(#[trigger] t[j], pa) by {
                if j != i - 1 {
                    assert(t[j] == s[j]);
                }
            }
        }
    } else if i < s.len() && mergeable(b, s[i]) {
        lemma_merge_in_chunk(b, s[i], pa);
        let c = choose|c: FrameRange|
            #[trigger] pa.is_live(c) && c.start + PHYS_OFFSET <= s[i].addr && block_end(s[i]) <= c.end + PHYS_OFFSET;
        crate::pmm::lemma_live_aligned(&pa, c);
        assert(merged(b, s[i]).size % 16 == 0);
        assert forall|j: int| 0 <= j < t.len() implies heap_block(#[trigger] t[j], pa) by {
            if j != i {
                assert(t[j] == s[j]);
            }
        }
    } else {
        assert forall|j: int| 0 <= j < t.len() implies heap_block(#[trigger] t[j], pa) by {
            if j > i {
                assert(t[j] == s[j - 1]);
            }
        }
    }
}

/// The free blocks of a heap stay apart from, and stay tracked beside, a
/// block carved from a fresh live block of the physical allocator.
pub proof fn lemma_fresh_chunk(
    s: Seq<FreeBlock>,
    b: FreeBlock,
    pa0: PhysAllocator,
    pa1: PhysAllocator,
    fr: FrameRange,
)
    requires
        pa1.wf(),
        forall|j: int| 0 <= j < s.len() ==> heap_block(#[trigger] s[j], pa0),
        forall|x: FrameRange| pa0.is_live(x) ==> #[trigger] pa1.is_live(x),
        pa1.is_live(fr),
        !pa0.is_live(fr),
        fr.start + PHYS_OFFSET <= b.addr,
        block_end(b) <= fr.end + PHYS_OFFSET,
    ensures
        forall|j: int| 0 <= j < s.len() ==> apart(#[trigger] s[j], b),
        forall|j: int| 0 <= j < s.len() ==> heap_block(#[trigger] s[j], pa1),
{
    assert forall|j: int| 0 <= j < s.len() implies apart(#[trigger] s[j], b) && heap_block(s[j], pa1) by {
        let c = s[j];
        assert(heap_block(c, pa0));
        let r0 = choose|r0: FrameRange|
            #[trigger] pa0.is_live(r0) && r0.start + PHYS_OFFSET <= c.addr && block_end(c) <= r0.end
                + PHYS_OFFSET;
        assert(pa1.is_live(r0));
        assert(r0 != fr);
        crate::pmm::lemma_live_disjoint_all(&pa1, r0, fr);
    }
}

/// A power of two up to 16 divides 16.
pub proof fn lemma_small_alignment(a: int)
    requires
        is_power_of_two(a),
        a <= 16,
    ensures
        a > 0,
        16int % a == 0,
{
    crate::addr::lemma_power_of_two_positive(a);
    reveal_with_fuel(is_power_of_two, 6);
    assert(a == 1 || a == 2 || a == 4 || a == 8 || a == 16) by {
        if a > 1 {
            assert(a % 2 == 0);
            assert(is_power_of_two(a / 2));
            if a / 2 > 1 {
                assert(is_power_of_two(a / 4));
            }
            if a / 4 > 1 {
                assert(is_power_of_two(a / 8));
            }
        }
    }
    if a == 1 {
        assert(16int % 1 == 0);
    } else if a == 2 {
        assert(16int % 2 == 0);
    } else if a == 4 {
        assert(16int % 4 == 0);
    } else if a == 8 {
        assert(16int % 8 == 0);
    } else {
        assert(16int % 16 == 0);
    }
}

/// Serving a request from the first block that fits keeps every free block
/// tracked, and hands out a block that no free block overlaps.
pub proof fn lemma_take_inv(s: Seq<FreeBlock>, t: Seq<FreeBlock>, len: int, p: u64, pa: PhysAllocator, align: int)
    requires
        list_ok(s),
        forall|j: int| 0 <= j < s.len() ==> heap_block(#[trigger] s[j], pa),
        took_first_fit(s, t, len, p),
        len % 16 == 0,
        len >= 0,
        align > 0,
        16int % align == 0,
    ensures
        forall|j: int| 0 <= j < t.len() ==> heap_block(#[trigger] t[j], pa),
        handed_out(t, pa, p as int, len),
        (p as int) % align == 0,
{
    let i = choose|i: int|
        0 <= i < s.len() && fits(#[trigger] s[i], len) && (forall|j: int| 0 <= j < i ==> !fits(#[trigger] s[j], len))
            && p == s[i].addr + 16 && t == (if s[i].size == len {
            s.remove(i)
        } else {
            s.update(i, FreeBlock { addr: (s[i].addr + 16 + len) as u64, size: (s[i].size - len - 16) as u64 })
        });
    let c = FreeBlock { addr: (p - 16) as u64, size: len as u64 };
    assert(heap_block(s[i], pa));
    let r0 = choose|r0: FrameRange|
        #[trigger] pa.is_live(r0) && r0.start + PHYS_OFFSET <= s[i].addr && block_end(s[i]) <= r0.end + PHYS_OFFSET;
    assert(in_chunk(c, pa));
    if s[i].size != len {
        let rest = FreeBlock { addr: (s[i].addr + 16 + len) as u64, size: (s[i].size - len - 16) as u64 };
        assert(in_chunk(rest, pa));
        assert forall|j: int| 0 <= j < t.len() implies heap_block(#[trigger] t[j], pa) by {
            if j != i {
                assert(t[j] == s[j]);
            }
        }
        assert forall|j: int| 0 <= j < t.len() implies apart(#[trigger] t[j], c) by {
            if j < i {
                assert(block_end(s[j]) <= s[i].addr);
            } else if j > i {
                assert(block_end(s[i]) <= s[j].addr);
            }
        }
    } else {
        assert forall|j: int| 0 <= j < t.len() implies heap_block(#[trigger] t[j], pa) by {
            if j >= i {
                assert(t[j] == s[j + 1]);
            }
        }
        assert forall|j: int| 0 <= j < t.len() implies apart(#[trigger] t[j], c) by {
            if j < i {
                assert(block_end(s[j]) <= s[i].addr);
            } else {
                assert(t[j] == s[j + 1]);
                assert(block_end(s[i]) <= s[j + 1].addr);
            }
        }
    }
    let q = s[i].addr / 16;
    vstd::arithmetic::div_mod::lemma_fundamental_div_mod(s[i].addr as int, 16);
    let m = 16int / align;
    vstd::arithmetic::div_mod::lemma_fundamental_div_mod(16int, align);
    assert(p == align * (m * (q + 1))) by (nonlinear_arith)
        requires
            p == s[i].addr + 16,
            s[i].addr == 16 * q,
            16 == align * m,
    ;
    vstd::arithmetic::div_mod::lemma_mod_multiples_basic(m * (q + 1), align);
    assert((m * (q + 1)) * align == align * (m * (q + 1))) by (nonlinear_arith);
}

/// Freeing a block twice: once the block is back on the list its header is
/// on the list, so freeing it again is refused as a double free. This holds
/// unless the first free merged the block into the block before it; its
/// header then lies inside that block and is no longer on the list.
pub proof fn lemma_double_free_detected(s: Seq<FreeBlock>, b: FreeBlock)
    requires
        list_ok(s),
        forall|j: int| 0 <= j < s.len() ==> apart(#[trigger] s[j], b),
        !(count_below(s, b.addr as int) > 0 && mergeable(s[count_below(s, b.addr as int) - 1], b)),
    ensures
        exists|j: int|
            0 <= j < freed_list(s, b).len() && (#[trigger] freed_list(s, b)[j]).addr == b.addr,
{
    let i = count_below(s, b.addr as int);
    lemma_count_below_facts(s, b.addr as int);
    assert(freed_list(s, b)[i].addr == b.addr);
}

/// Full coalescing of one allocation: serving `len` bytes from the first
/// block that fits, block `i`, and then freeing what was handed out gives the
/// free list back. This needs that block `i` could not merge with the block
/// before it, nor, when served whole, with the block after it, and, when it
/// was split, that the rest starts in the page of its header.
#[verifier::rlimit(60)]
pub proof fn lemma_alloc_free_round_trip(s: Seq<FreeBlock>, t: Seq<FreeBlock>, len: int, i: int)
    requires
        list_ok(s),
        0 <= len,
        0 <= i < s.len(),
        fits(s[i], len),
        t == (if s[i].size == len {
            s.remove(i)
        } else {
            s.update(i, FreeBlock { addr: (s[i].addr + 16 + len) as u64, size: (s[i].size - len - 16) as u64 })
        }),
        i > 0 ==> !mergeable(s[i - 1], s[i]),
        s[i].size == len && i + 1 < s.len() ==> !mergeable(s[i], s[i + 1]),
        s[i].size != len ==> s[i].addr / 4096 == (s[i].addr + 16 + len) / 4096,
    ensures
        freed_list(t, FreeBlock { addr: s[i].addr, size: len as u64 }) == s,
{
    let c = FreeBlock { addr: s[i].addr, size: len as u64 };
    lemma_served_list_ok(s, t, len, i);
    assert forall|j: int| 0 <= j < i implies (#[trigger] t[j]).addr < c.addr by {
        assert(t[j] == s[j]);
        assert(block_end(s[j]) <= s[i].addr);
    }
    if i < t.len() {
        if s[i].size == len {
            assert(t[i] == s[i + 1]);
            assert(block_end(s[i]) <= s[i + 1].addr);
        }
    }
    lemma_count_below(t, c.addr as int, i);
    if s[i].size == len {
        assert(c == s[i]);
        if i > 0 {
            assert(t[i - 1] == s[i - 1]);
        }
        if i < t.len() {
            assert(t[i] == s[i + 1]);
        }
        assert(t.insert(i, c) =~= s);
    } else {
        if i > 0 {
            assert(t[i - 1] == s[i - 1]);
        }
        assert(t.update(i, merged(c, t[i])) =~= s);
    }
}

/// Serving a request from block `i` keeps the list ordered and without overlap.
pub proof fn lemma_served_list_ok(s: Seq<FreeBlock>, t: Seq<FreeBlock>, len: int, i: int)
    requires
        list_ok(s),
        0 <= len,
        0 <= i < s.len(),
        fits(s[i], len),
        t == (if s[i].size == len {
            s.remove(i)
        } else {
            s.update(i, FreeBlock { addr: (s[i].addr + 16 + len) as u64, size: (s[i].size - len - 16) as u64 })
        }),
    ensures
        list_ok(t),
{
    if s[i].size == len {
        assert forall|x: int, y: int| 0 <= x < y < t.len() implies block_end(#[trigger] t[x]) <= (#[trigger] t[y]).addr by {
            let x1 = if x < i { x } else { x + 1 };
            let y1 = if y < i { y } else { y + 1 };
            assert(t[x] == s[x1] && t[y] == s[y1]);
        }
        assert forall|x: int| 0 <= x < t.len() implies block_end(#[trigger] t[x]) <= u64::MAX by {
            let x1 = if x < i { x } else { x + 1 };
            assert(t[x] == s[x1]);
        }
    } else {
        assert forall|x: int, y: int| 0 <= x < y < t.len() implies block_end(#[trigger] t[x]) <= (#[trigger] t[y]).addr by {
            assert(block_end(s[x]) <= s[y].addr);
        }
    }
}

/// Putting back a block larger than a request with its header leaves a free
/// block that serves the request.
pub proof fn lemma_freed_list_has_fit(s: Seq<FreeBlock>, b: FreeBlock, len: int)
    requires
        list_ok(s),
        block_end(b) <= u64::MAX,
        b.size > len + 16,
        len >= 0,
    ensures
        exists|j: int| 0 <= j < freed_list(s, b).len() && fits(#[trigger] freed_list(s, b)[j], len),
{
    let i = count_below(s, b.addr as int);
    lemma_count_below_facts(s, b.addr as int);
    let t = freed_list(s, b);
    if i > 0 && mergeable(s[i - 1], b) {
        let m = merged(s[i - 1], b);
        if i < s.len() && mergeable(m, s[i]) {
            assert(block_end(s[i]) <= u64::MAX);
            assert(fits(t[i - 1], len));
        } else {
            assert(fits(t[i - 1], len));
        }
    } else if i < s.len() && mergeable(b, s[i]) {
        assert(block_end(s[i]) <= u64::MAX);
        assert(fits(t[i], len));
    } else {
        assert(t[i] == b);
        assert(fits(t[i], len));
    }
}

} // verus!
