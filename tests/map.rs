use ddos_kernel::addr::PHYS_OFFSET;
use ddos_kernel::map::{MemoryMap, MemoryRegion, MemoryRegionType, Region, RegionBumpAllocator};

fn row(start_addr: u64, end_addr: u64, region_type: MemoryRegionType) -> MemoryRegion {
    MemoryRegion { start_addr, end_addr, region_type }
}

fn regions_of(map: MemoryMap) -> Vec<Region> {
    let mut it = map.into_iter();
    let mut out = Vec::new();
    while let Some(rg) = it.next() {
        out.push(rg);
    }
    out
}

#[test]
fn region_split_at() {
    assert_eq!(
        Region { addr: 0x1000, size: 4096 }.split_at(100),
        (Region { addr: 0x1000, size: 100 }, Region { addr: 0x1000 + 100, size: 4096 - 100 })
    );
}

#[test]
fn bump_allocate_pages() {
    let mut bump = MemoryMap::new(&[
        row(0x1000, 0x2000, MemoryRegionType::Usable),
        row(0x2000, 0x3000, MemoryRegionType::Reserved),
        row(0x3000, 0x5000, MemoryRegionType::Usable),
    ]);

    assert_eq!(bump.num_pages(), 3);
    assert_eq!(bump.alloc_page(), 0x1000);
    assert_eq!(bump.num_pages(), 2);
    assert_eq!(bump.alloc_page(), 0x3000);
    assert_eq!(bump.num_pages(), 1);
    assert_eq!(bump.alloc_page(), 0x4000);
    assert_eq!(bump.num_pages(), 0);
    assert!(regions_of(bump).is_empty());
}

#[test]
fn map_keeps_usable_rows_in_order() {
    let map = MemoryMap::new(&[
        row(0x0000, 0x1000, MemoryRegionType::FrameZero),
        row(0x1000, 0x3000, MemoryRegionType::Usable),
        row(0x3000, 0x4000, MemoryRegionType::Kernel),
        row(0x8000, 0x9000, MemoryRegionType::Usable),
    ]);
    assert_eq!(map.num_pages(), 3);
    assert_eq!(
        regions_of(map),
        vec![Region { addr: 0x1000, size: 0x2000 }, Region { addr: 0x8000, size: 0x1000 }]
    );
}

#[test]
fn map_split_crosses_region_boundary() {
    let map = MemoryMap::new(&[
        row(0x1000, 0x5000, MemoryRegionType::Usable),
        row(0x6000, 0x8000, MemoryRegionType::Usable),
        row(0x9000, 0xA000, MemoryRegionType::Usable),
    ]);
    assert_eq!(map.num_pages(), 7);
    let (left, right) = map.split_at(5);
    assert_eq!(left.num_pages(), 5);
    assert_eq!(right.num_pages(), 2);
    assert_eq!(
        regions_of(left),
        vec![Region { addr: 0x1000, size: 0x4000 }, Region { addr: 0x6000, size: 0x1000 }]
    );
    assert_eq!(
        regions_of(right),
        vec![Region { addr: 0x7000, size: 0x1000 }, Region { addr: 0x9000, size: 0x1000 }]
    );
}

#[test]
fn map_split_on_region_boundary() {
    let map = MemoryMap::new(&[
        row(0x1000, 0x3000, MemoryRegionType::Usable),
        row(0x4000, 0x5000, MemoryRegionType::Usable),
    ]);
    let (left, right) = map.split_at(2);
    assert_eq!(left.num_pages(), 2);
    assert_eq!(right.num_pages(), 1);
    assert_eq!(regions_of(left), vec![Region { addr: 0x1000, size: 0x2000 }]);
    assert_eq!(regions_of(right), vec![Region { addr: 0x4000, size: 0x1000 }]);
}

#[test]
fn region_bump_allocator() {
    let mut rg_bump = RegionBumpAllocator::from_region(Region { addr: 0x1000, size: 4096 });
    assert_eq!(rg_bump.alloc_bytes(4, 4), Some(PHYS_OFFSET + 0x1000));
    assert_eq!(rg_bump.alloc_bytes(1, 1), Some(PHYS_OFFSET + 0x1004));
    assert_eq!(rg_bump.alloc_bytes(4, 4), Some(PHYS_OFFSET + 0x1008));
    assert_eq!(rg_bump.alloc_bytes(4096, 4), None);
}

#[test]
fn region_bump_allocator_stays_inside() {
    let mut rg_bump = RegionBumpAllocator::from_region(Region { addr: 0x1000, size: 4096 });
    assert_eq!(rg_bump.alloc_bytes(4093, 1), Some(PHYS_OFFSET + 0x1000));
    // Two bytes aligned to 4 would start at the region's end.
    assert_eq!(rg_bump.alloc_bytes(2, 4), None);
    assert_eq!(rg_bump.alloc_bytes(3, 1), Some(PHYS_OFFSET + 0x1000 + 4093));
    assert_eq!(rg_bump.alloc_bytes(1, 1), None);
}

#[test]
fn map_with_many_reserved_rows() {
    let mut rows = Vec::new();
    for k in 0..80u64 {
        let kind = if k % 10 == 0 { MemoryRegionType::Usable } else { MemoryRegionType::Reserved };
        rows.push(row(0x1000 * k, 0x1000 * (k + 1), kind));
    }
    let map = MemoryMap::new(&rows);
    assert_eq!(map.num_pages(), 8);
    assert_eq!(regions_of(map).len(), 8);
}
