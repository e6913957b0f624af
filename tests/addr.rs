use ddos_kernel::addr::{align_down, align_up, phys_to_page_info, to_phys, to_virt, PAGE_INFO_OFFSET, PHYS_OFFSET};

#[test]
pub fn test_align_up() {
    // align 1
    assert_eq!(align_up(0, 1), 0);
    assert_eq!(align_up(1234, 1), 1234);
    assert_eq!(align_up(0xffffffffffffffff, 1), 0xffffffffffffffff);
    // align 2
    assert_eq!(align_up(0, 2), 0);
    assert_eq!(align_up(1233, 2), 1234);
    assert_eq!(align_up(0xfffffffffffffffe, 2), 0xfffffffffffffffe);
    // address 0
    assert_eq!(align_up(0, 128), 0);
    assert_eq!(align_up(0, 1), 0);
    assert_eq!(align_up(0, 2), 0);
    assert_eq!(align_up(0, 0x8000000000000000), 0);
}

#[test]
fn align_down_to_page() {
    assert_eq!(align_down(0x1fff, 0x1000), 0x1000);
    assert_eq!(align_down(0x2000, 0x1000), 0x2000);
    assert_eq!(align_down(7, 1), 7);
    assert_eq!(align_up(0x1001, 0x1000), 0x2000);
}

#[test]
fn direct_map_round_trip() {
    assert_eq!(to_virt(0x1000), PHYS_OFFSET + 0x1000);
    assert_eq!(to_phys(PHYS_OFFSET + 0x1234), 0x1234);
}

#[test]
fn page_info_address() {
    assert_eq!(phys_to_page_info(0), PAGE_INFO_OFFSET);
    assert_eq!(phys_to_page_info(0x5000), PAGE_INFO_OFFSET + 5 * 16);
    assert_eq!(phys_to_page_info(0x5fff), PAGE_INFO_OFFSET + 5 * 16);
}
