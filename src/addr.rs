use vstd::prelude::*;

verus! {

/// Size of a page frame in bytes.
pub const PAGE_SIZE: u64 = 4096;

/// Base of the direct map: physical address `p` is visible at `p + PHYS_OFFSET`.
pub const PHYS_OFFSET: u64 = 0xFFFF_8000_0000_0000;

/// Physical memory that the direct map reaches lies below this address (the
/// last page of the map is left out, so that no virtual address wraps).
pub const MAX_PHYS_ADDR: u64 = 0x0000_7FFF_FFFF_F000;

pub open spec fn is_power_of_two(n: int) -> bool
    decreases n,
{
    if n <= 0 {
        false
    } else if n == 1 {
        true
    } else {
        n % 2 == 0 && is_power_of_two(n / 2)
    }
}

pub proof fn lemma_power_of_two_positive(n: int)
    requires
        is_power_of_two(n),
    ensures
        n > 0,
{
}

/// Base of the array of per-page records.
pub const PAGE_INFO_OFFSET: u64 = 0xFFFF_9000_0000_0000;

/// Bytes between consecutive per-page records: a reader-writer lock word and
/// the record it guards.
pub const PAGE_INFO_STRIDE: u64 = 16;

/// What the kernel records about one page frame.
#[derive(Clone, Copy, Debug, Default, PartialEq, Eq)]
pub struct PageInfo {
    pub dummy: i64,
}

/// Address of the record of the page frame that starts at `frame`: the
/// records sit in frame order from `PAGE_INFO_OFFSET`.
pub fn phys_to_page_info(frame: u64) -> (r: u64)
    requires
        frame < MAX_PHYS_ADDR,
    ensures
        r == PAGE_INFO_OFFSET + (frame / PAGE_SIZE) * PAGE_INFO_STRIDE,
        r < PAGE_INFO_OFFSET + 0x0000_1000_0000_0000,
{
    let idx = frame / PAGE_SIZE;
    PAGE_INFO_OFFSET + idx * PAGE_INFO_STRIDE
}

/// The smallest multiple of `align` that is at least `addr`.
pub open spec fn spec_align_up(addr: int, align: int) -> int {
    if addr % align == 0 {
        addr
    } else {
        addr - addr % align + align
    }
}

/// Align address upwards: the smallest `x` with alignment `align` such that
/// `x >= addr`.
pub fn align_up(addr: u64, align: u64) -> (r: u64)
    requires
        is_power_of_two(align as int),
        spec_align_up(addr as int, align as int) <= u64::MAX,
    ensures
        r as int == spec_align_up(addr as int, align as int),
        r >= addr,
        r % align == 0,
        r - addr < align,
{
    proof {
        lemma_power_of_two_positive(align as int);
    }
    let rem = addr % align;
    proof {
        let a = addr as int;
        let b = align as int;
        vstd::arithmetic::div_mod::lemma_fundamental_div_mod(a, b);
        let q = a / b;
        assert((a - a % b) % b == 0) by {
            vstd::arithmetic::div_mod::lemma_mod_multiples_basic(q, b);
        }
        assert((a - a % b + b) % b == 0) by {
            vstd::arithmetic::div_mod::lemma_mod_multiples_basic(q + 1, b);
            assert((q + 1) * b == q * b + b) by (nonlinear_arith);
        }
    }
    if rem == 0 {
        addr
    } else {
        addr - rem + align
    }
}

/// Align address downwards: the greatest `x` with alignment `align` such that
/// `x <= addr`.
pub fn align_down(addr: u64, align: u64) -> (r: u64)
    requires
        is_power_of_two(align as int),
    ensures
        r as int == addr - addr % align,
        r <= addr,
        r % align == 0,
        addr - r < align,
{
    proof {
        lemma_power_of_two_positive(align as int);
        let a = addr as int;
        let b = align as int;
        vstd::arithmetic::div_mod::lemma_fundamental_div_mod(a, b);
        vstd::arithmetic::div_mod::lemma_mod_multiples_basic(a / b, b);
    }
    addr - addr % align
}

/// The direct-map virtual address of a physical address.
pub fn to_virt(phys: u64) -> (r: u64)
    requires
        phys < MAX_PHYS_ADDR,
    ensures
        r == phys + PHYS_OFFSET,
{
    phys + PHYS_OFFSET
}

/// The physical address behind a direct-map virtual address.
pub fn to_phys(virt: u64) -> (r: u64)
    requires
        virt >= PHYS_OFFSET,
    ensures
        r == virt - PHYS_OFFSET,
{
    virt - PHYS_OFFSET
}

} // verus!
