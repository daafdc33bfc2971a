use os4::address::{PhysAddr, VPNRange, VirtAddr, VirtPageNum};

#[test]
fn floor_and_ceil() {
    assert_eq!(VirtAddr(0).floor(), VirtPageNum(0));
    assert_eq!(VirtAddr(0).ceil(), VirtPageNum(0));
    assert_eq!(VirtAddr(4095).floor(), VirtPageNum(0));
    assert_eq!(VirtAddr(4095).ceil(), VirtPageNum(1));
    assert_eq!(VirtAddr(4096).floor(), VirtPageNum(1));
    assert_eq!(VirtAddr(4096).ceil(), VirtPageNum(1));
    assert_eq!(VirtAddr(4097).ceil(), VirtPageNum(2));
    assert_eq!(VirtAddr(usize::MAX).ceil(), VirtPageNum(usize::MAX / 4096 + 1));
}

#[test]
fn page_offset_and_alignment() {
    assert_eq!(VirtAddr(0x1234).page_offset(), 0x234);
    assert!(VirtAddr(0x3000).aligned());
    assert!(!VirtAddr(0x3001).aligned());
    assert_eq!(VirtAddr(0x3000).to_vpn(), VirtPageNum(3));
}

#[test]
fn addresses_keep_their_low_bits() {
    assert_eq!(VirtAddr::from_usize(usize::MAX - 4095), VirtAddr((1usize << 39) - 4096));
    assert_eq!(VirtAddr::from_usize(0x8020_0000), VirtAddr(0x8020_0000));
    assert_eq!(PhysAddr::from_usize(0x8020_1000).to_ppn().0, 0x80201);
    assert_eq!(VirtPageNum(0x12).to_addr(), VirtAddr(0x12000));
}

#[test]
fn range_bounds() {
    let r = VPNRange::new(VirtPageNum(3), VirtPageNum(7));
    assert_eq!(r.get_start(), VirtPageNum(3));
    assert_eq!(r.get_end(), VirtPageNum(7));
    assert_eq!(r, VPNRange::new(VirtPageNum(3), VirtPageNum(7)));
    assert_ne!(r, VPNRange::new(VirtPageNum(3), VirtPageNum(8)));
}

#[test]
fn physical_alignment() {
    assert_eq!(PhysAddr(0x8020_1234).page_offset(), 0x234);
    assert!(PhysAddr(0x8020_1000).aligned());
    assert!(!PhysAddr(0x8020_1001).aligned());
}

#[test]
fn page_address_wraps() {
    assert_eq!(VirtPageNum(usize::MAX).to_addr(), VirtAddr(usize::MAX << 12));
}
