use ddos_kernel::addr::PHYS_OFFSET;
use ddos_kernel::map::{MemoryMap, MemoryRegion, MemoryRegionType};
use ddos_kernel::pmm::PhysAllocator;
use ddos_kernel::slob::{HeapError, SlobAllocator};
use ddos_kernel::zone::FrameRange;

fn allocator() -> PhysAllocator {
    let map = MemoryMap::new(&[MemoryRegion {
        start_addr: 0x100000,
        end_addr: 0x200000,
        region_type: MemoryRegionType::Usable,
    }]);
    PhysAllocator::new(map)
}

// The zone's first page is 0x103000, after three pages of tree.
const FIRST: u64 = PHYS_OFFSET + 0x103000;

#[test]
fn heap_grows_then_splits() {
    let mut pa = allocator();
    let mut heap = SlobAllocator::new();
    assert!(heap.blocks().is_empty());
    assert_eq!(heap.allocate(&mut pa, 32, 8), Some(FIRST + 16));
    assert_eq!(heap.blocks(), vec![(FIRST + 48, 4032)]);
    assert_eq!(heap.allocate(&mut pa, 40, 16), Some(FIRST + 64));
    assert_eq!(heap.blocks(), vec![(FIRST + 112, 3968)]);
}

#[test]
fn heap_full_coalescing_round_trip() {
    let mut pa = allocator();
    let mut heap = SlobAllocator::new();
    let a = heap.allocate(&mut pa, 32, 8).unwrap();
    let b = heap.allocate(&mut pa, 48, 8).unwrap();
    let c = heap.allocate(&mut pa, 64, 8).unwrap();
    assert_eq!((a, b, c), (FIRST + 16, FIRST + 64, FIRST + 128));
    assert_eq!(heap.dealloc(&pa, b, 48), Ok(()));
    assert_eq!(heap.dealloc(&pa, a, 32), Ok(()));
    assert_eq!(heap.dealloc(&pa, c, 64), Ok(()));
    // Everything merged back into the one block of the first page.
    assert_eq!(heap.blocks(), vec![(FIRST, 4080)]);
    // The whole page's payload is served without asking for more pages.
    assert_eq!(heap.allocate(&mut pa, 4080, 16), Some(FIRST + 16));
    assert!(heap.blocks().is_empty());
    // The physical allocator's next page is still the second one.
    assert_eq!(pa.allocate(0), Some(FrameRange { start: 0x104000, end: 0x105000 }));
}

#[test]
fn heap_double_free_is_refused() {
    let mut pa = allocator();
    let mut heap = SlobAllocator::new();
    let _a = heap.allocate(&mut pa, 32, 8).unwrap();
    let b = heap.allocate(&mut pa, 32, 8).unwrap();
    assert_eq!(heap.dealloc(&pa, b, 32), Ok(()));
    let before = heap.blocks();
    assert_eq!(heap.dealloc(&pa, b, 32), Err(HeapError::DoubleFree));
    assert_eq!(heap.blocks(), before);
}

#[test]
fn heap_blocks_in_different_pages_stay_apart() {
    let mut pa = allocator();
    let mut heap = SlobAllocator::new();
    // A request of a whole page's payload plus one byte takes two pages.
    let big = heap.allocate(&mut pa, 4081, 8).unwrap();
    assert_eq!(big % 16, 0);
    let blocks = heap.blocks();
    assert_eq!(blocks.len(), 1);
    let small = heap.allocate(&mut pa, 16, 16).unwrap();
    assert_eq!(small % 16, 0);
    assert_eq!(heap.dealloc(&pa, small, 16), Ok(()));
    assert_eq!(heap.dealloc(&pa, big, 4081), Ok(()));
    // The big block ends where the next header starts, but that header is in
    // the next page: the two are not merged.
    assert_eq!(heap.blocks(), vec![(FIRST, 4096), (FIRST + 4112, 4064)]);
}

#[test]
fn heap_growth_always_fits_the_request() {
    let mut pa = allocator();
    let mut heap = SlobAllocator::new();
    // 4064 bytes take a 4080-byte block with header: a page would not do.
    assert_eq!(heap.allocate(&mut pa, 4064, 16), Some(FIRST + 16));
    assert_eq!(heap.blocks(), vec![(FIRST + 4080, 2 * 4096 - 16 - 4080)]);
}

#[test]
fn heap_may_free_checks_overlap() {
    let mut pa = allocator();
    let mut heap = SlobAllocator::new();
    let a = heap.allocate(&mut pa, 32, 8).unwrap();
    assert!(heap.may_free(a, 32));
    // A block reaching into the free rest of the page overlaps it.
    assert!(!heap.may_free(a, 64));
    assert!(!heap.may_free(a + 8, 32));
}
