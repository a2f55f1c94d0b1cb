use rcore_os::mm::address::{PhysAddr, PhysPageNum, VPNRange, VirtAddr, VirtPageNum};

#[test]
fn virt_addr_keeps_low_39_bits() {
    assert_eq!(VirtAddr::from_usize(0x1234_5678).0, 0x1234_5678);
    assert_eq!(VirtAddr::from_usize(usize::MAX).0, 0x7f_ffff_ffff);
    assert_eq!(VirtAddr::from_usize(0xffff_ffc0_0000_1000).0, 0x40_0000_1000);
}

#[test]
fn virt_addr_sign_extends_to_usize() {
    assert_eq!(VirtAddr(0x1000).to_usize(), 0x1000);
    assert_eq!(VirtAddr(0x3f_ffff_ffff).to_usize(), 0x3f_ffff_ffff);
    assert_eq!(VirtAddr(0x40_0000_0000).to_usize(), 0xffff_ffc0_0000_0000);
    assert_eq!(VirtAddr(0x7f_ffff_f000).to_usize(), 0xffff_ffff_ffff_f000);
}

#[test]
fn canonical_address_round_trip() {
    for a in [0usize, 0x8040_0000, 0x3f_ffff_ffff, 0xffff_ffc0_0000_0000, 0xffff_ffff_ffff_f000] {
        assert_eq!(VirtAddr::from_usize(a).to_usize(), a);
    }
}

#[test]
fn floor_and_ceil_of_addresses() {
    assert_eq!(VirtAddr(0).floor().0, 0);
    assert_eq!(VirtAddr(0).ceil().0, 0);
    assert_eq!(VirtAddr(0x1000).floor().0, 1);
    assert_eq!(VirtAddr(0x1000).ceil().0, 1);
    assert_eq!(VirtAddr(0x1001).floor().0, 1);
    assert_eq!(VirtAddr(0x1001).ceil().0, 2);
    assert_eq!(VirtAddr(0x1fff).ceil().0, 2);
}

#[test]
fn page_offset_and_alignment() {
    assert_eq!(VirtAddr(0x1234).page_offset(), 0x234);
    assert!(VirtAddr(0x3000).aligned());
    assert!(!VirtAddr(0x3001).aligned());
    assert_eq!(PhysAddr(0x8020_0123).page_offset(), 0x123);
}

#[test]
fn page_address_round_trip() {
    for v in [0usize, 1, 0x80200, 0x7ff_ffff] {
        let va = VirtAddr::from_vpn(VirtPageNum(v));
        assert_eq!(va.0, v * 4096);
        assert_eq!(va.floor().0, v);
        assert_eq!(va.ceil().0, v);
        assert_eq!(VirtPageNum::from_va(va).0, v);
    }
}

#[test]
fn phys_addr_keeps_low_56_bits() {
    assert_eq!(PhysAddr::from_usize(0x8020_0000).0, 0x8020_0000);
    assert_eq!(PhysAddr::from_usize(usize::MAX).0, 0xff_ffff_ffff_ffff);
    assert_eq!(PhysPageNum::from_pa(PhysAddr(0x8020_0000)).0, 0x80200);
}

#[test]
fn page_number_steps() {
    let mut v = VirtPageNum(41);
    v.step();
    assert_eq!(v.0, 42);
}

#[test]
fn page_range_bounds() {
    let r = VPNRange::new(VirtPageNum(3), VirtPageNum(9));
    assert_eq!(r.get_start().0, 3);
    assert_eq!(r.get_end().0, 9);
}
