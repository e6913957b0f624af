use ddos_kernel::block::{Block, MAX_ORDER};
use ddos_kernel::map::{MemoryMap, MemoryRegion, MemoryRegionType, Region};
use ddos_kernel::pmm::{blocks_in_region, usable_pages, PhysAllocator};
use ddos_kernel::zone::{FrameRange, Zone};

fn zone_of(start: u64, pages: u64) -> Zone {
    Zone::new(start, pages * 4096, vec![0u8; blocks_in_region(pages) as usize], 0)
}

fn overlap(a: FrameRange, b: FrameRange) -> bool {
    a.start < b.end && b.start < a.end
}

#[test]
fn zeroed_node_is_used() {
    assert_eq!(Block::from_byte(0), Block::Used);
    assert_eq!(Block::Used.to_byte(), 0);
    assert_eq!(Block::from_order(3).to_byte(), 4);
    assert_eq!(Block::from_byte(4), Block::LargestFreeOrder(3));
    let (at, arena) = Block::new_blocks_for_region(Region { addr: 0x1000, size: 0x4000 }, 16);
    assert_eq!(at, 0x1000);
    assert_eq!(arena.len(), 4095);
    assert!(arena.iter().all(|b| Block::from_byte(*b) == Block::Used));
}

#[test]
fn parent_state_rules() {
    let free = |o: u8| Block::LargestFreeOrder(o);
    assert_eq!(Block::parent_state(free(2), free(2), 2), free(3));
    assert_eq!(Block::parent_state(free(0), free(0), 2), free(0));
    assert_eq!(Block::parent_state(free(1), free(2), 2), free(2));
    assert_eq!(Block::parent_state(Block::Used, free(1), 2), free(1));
    assert_eq!(Block::parent_state(free(1), Block::Used, 2), free(1));
    assert_eq!(Block::parent_state(Block::Used, Block::Used, 2), Block::Used);
    assert!(free(2).larger_than(2));
    assert!(!free(1).larger_than(2));
    assert!(!Block::Used.larger_than(0));
}

#[test]
fn tree_sizes() {
    assert_eq!(blocks_in_region(0), 0);
    assert_eq!(blocks_in_region(1), 4095);
    assert_eq!(blocks_in_region(2048), 4095);
    assert_eq!(blocks_in_region(2049), 8190);
    assert_eq!(usable_pages(0), 0);
    assert_eq!(usable_pages(3), 0);
    assert_eq!(usable_pages(100), 97);
    assert_eq!(usable_pages(256), 253);
}

#[test]
fn new_zone_reports_true_free_order() {
    let z = zone_of(0x100000, 16);
    assert_eq!(z.top_level(), vec![Block::LargestFreeOrder(4)]);
    let z = zone_of(0x100000, 3);
    assert_eq!(z.top_level(), vec![Block::LargestFreeOrder(1)]);
    assert_eq!(z.num_pages(), 3);
    assert_eq!(z.start_address(), 0x100000);
}

#[test]
fn zone_never_hands_out_missing_pages() {
    let mut z = zone_of(0x100000, 3);
    assert_eq!(z.allocate(2), None);
    let a = z.allocate(1).unwrap();
    assert_eq!(a, FrameRange { start: 0x100000, end: 0x102000 });
    let b = z.allocate(0).unwrap();
    assert_eq!(b, FrameRange { start: 0x102000, end: 0x103000 });
    assert_eq!(z.allocate(0), None);
    assert_eq!(z.top_level(), vec![Block::Used]);
}

#[test]
fn zone_alloc_free_pairs_restore_top_level() {
    let mut z = zone_of(0x100000, 16);
    let before = z.top_level();
    for order in 0..=4u8 {
        let r = z.allocate(order).unwrap();
        assert_eq!(r.end - r.start, 4096u64 << order);
        z.free(r);
        assert_eq!(z.top_level(), before);
    }
    let a = z.allocate(0).unwrap();
    let b = z.allocate(2).unwrap();
    let c = z.allocate(0).unwrap();
    z.free(b);
    z.free(a);
    z.free(c);
    assert_eq!(z.top_level(), before);
}

#[test]
fn zone_first_fit_is_left_biased() {
    let mut z = zone_of(0x100000, 16);
    assert_eq!(z.allocate(0), Some(FrameRange { start: 0x100000, end: 0x101000 }));
    assert_eq!(z.allocate(1), Some(FrameRange { start: 0x102000, end: 0x104000 }));
    assert_eq!(z.allocate(0), Some(FrameRange { start: 0x101000, end: 0x102000 }));
    assert_eq!(z.top_level(), vec![Block::LargestFreeOrder(3)]);
    assert_eq!(z.allocate(4), None);
}

#[test]
fn zone_allocations_are_aligned_and_disjoint() {
    let mut z = zone_of(0x200000, 100);
    let mut live: Vec<FrameRange> = Vec::new();
    let mut order = 0u8;
    while let Some(r) = z.allocate(order % 4) {
        assert_eq!(r.start % 4096, 0);
        assert!(r.start >= 0x200000 && r.end <= 0x200000 + 100 * 4096);
        for other in &live {
            assert!(!overlap(*other, r));
        }
        live.push(r);
        order += 1;
    }
    let total: u64 = live.iter().map(|r| (r.end - r.start) / 4096).sum();
    assert!(total <= 100);
    for r in live {
        z.free(r);
    }
    assert_eq!(z.top_level(), zone_of(0x200000, 100).top_level());
}

fn allocator() -> PhysAllocator {
    let map = MemoryMap::new(&[
        MemoryRegion { start_addr: 0x1000, end_addr: 0x3000, region_type: MemoryRegionType::Usable },
        MemoryRegion { start_addr: 0x100000, end_addr: 0x200000, region_type: MemoryRegionType::Usable },
        MemoryRegion { start_addr: 0x200000, end_addr: 0x300000, region_type: MemoryRegionType::Reserved },
        MemoryRegion { start_addr: 0x400000, end_addr: 0x410000, region_type: MemoryRegionType::Usable },
    ]);
    PhysAllocator::new(map)
}

#[test]
fn phys_allocator_skips_small_regions() {
    let pa = allocator();
    // 256 pages leave 253 after the tree; 16 pages leave 13; 2 pages leave none.
    assert_eq!(pa.num_pages(), 253 + 13);
}

#[test]
fn phys_allocator_first_zone_first() {
    let mut pa = allocator();
    let a = pa.allocate(0).unwrap();
    assert_eq!(a, FrameRange { start: 0x103000, end: 0x104000 });
    let b = pa.allocate(0).unwrap();
    assert_eq!(b, FrameRange { start: 0x104000, end: 0x105000 });
    pa.free(a);
    assert_eq!(pa.allocate(0), Some(a));
    // The first zone still has a block of 8 pages, so it serves the request.
    let c = pa.allocate(3).unwrap();
    assert_eq!(c.end - c.start, 8 * 4096);
    assert!(c.start >= 0x103000 && c.end <= 0x200000);
    let d = pa.allocate(3).unwrap();
    assert!(!overlap(c, d));
}

#[test]
fn phys_allocator_exhaustion_and_alignment() {
    let mut pa = allocator();
    let mut live: Vec<FrameRange> = Vec::new();
    for order in (0..=MAX_ORDER as u8).rev() {
        while let Some(r) = pa.allocate(order) {
            assert_eq!(r.start % 4096, 0);
            assert_eq!(r.end - r.start, 4096u64 << order);
            for other in &live {
                assert!(!overlap(*other, r));
            }
            live.push(r);
        }
    }
    let total: u64 = live.iter().map(|r| (r.end - r.start) / 4096).sum();
    assert_eq!(total, 253 + 13);
    assert_eq!(pa.allocate(0), None);
    for r in live {
        pa.free(r);
    }
    assert!(pa.allocate(7).is_some());
}

#[test]
fn liveness_is_exact() {
    let mut z = zone_of(0x100000, 16);
    let a = z.allocate(1).unwrap();
    assert!(z.is_allocated(a));
    // A part of a block, a block that spans it, and its free buddy are not live.
    assert!(!z.is_allocated(FrameRange { start: a.start, end: a.start + 4096 }));
    assert!(!z.is_allocated(FrameRange { start: a.start, end: a.start + 4 * 4096 }));
    assert!(!z.is_allocated(FrameRange { start: a.end, end: a.end + 2 * 4096 }));
    let b = z.allocate(0).unwrap();
    let c = z.allocate(0).unwrap();
    assert_eq!(b, FrameRange { start: 0x102000, end: 0x103000 });
    assert!(z.is_allocated(b) && z.is_allocated(c));
    // Both halves are live, but the pair was never one block.
    assert!(!z.is_allocated(FrameRange { start: b.start, end: c.end }));
    z.free(a);
    assert!(!z.is_allocated(a));
    assert!(!z.is_allocated(FrameRange { start: 0x100000 + 16 * 4096, end: 0x100000 + 17 * 4096 }));

    let mut pa = allocator();
    let r = pa.allocate(2).unwrap();
    assert!(pa.is_allocated(r));
    assert!(pa.manages(r));
    pa.free(r);
    assert!(!pa.is_allocated(r));
    assert!(!pa.manages(FrameRange { start: 0x300000, end: 0x301000 }));
}
