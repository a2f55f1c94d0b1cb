use rcore_os::mm::address::{PhysPageNum, VPNRange, VirtAddr, VirtPageNum};
use rcore_os::mm::frame_allocator::FrameAllocator;
use rcore_os::mm::memory_set::{
    check_kernel_layout, remap_test, KernelLayout, MapArea, MapPermission, MapType, MemorySet, MAP_R, MAP_U, MAP_W, MAP_X,
};
use rcore_os::mm::page_table::PageTable;

fn allocator(n: usize) -> FrameAllocator {
    FrameAllocator::new(PhysPageNum(0x80000), PhysPageNum(0x80000 + n))
}

fn rw_user() -> MapPermission {
    MapPermission { bits: MAP_R | MAP_W | MAP_U }
}

#[test]
fn permission_from_port_bits() {
    assert_eq!(MapPermission::from(1u8).bits, MAP_R);
    assert_eq!(MapPermission::from(2u8).bits, MAP_W);
    assert_eq!(MapPermission::from(4u8).bits, MAP_X);
    assert_eq!(MapPermission::from(7u8).bits, MAP_R | MAP_W | MAP_X);
    let p = MapPermission::from_bits_truncate(MAP_R).union(MapPermission { bits: MAP_U });
    assert!(p.contains(MapPermission { bits: MAP_U }));
    assert!(!p.contains(MapPermission { bits: MAP_W }));
    assert_eq!(MapPermission::from_bits_truncate(0xff).bits, MAP_R | MAP_W | MAP_X | MAP_U);
}

#[test]
fn area_rounds_its_addresses_to_pages() {
    let a = MapArea::new(VirtAddr(0x1234), VirtAddr(0x3001), MapType::Framed, rw_user());
    assert_eq!(a.vpn_range().get_start().0, 1);
    assert_eq!(a.vpn_range().get_end().0, 4);
    assert_eq!(a.map_type(), MapType::Framed);
    assert_eq!(a.map_perm().bits, MAP_R | MAP_W | MAP_U);
    let b = MapArea::from_another(&a);
    assert_eq!(b.vpn_range().get_start().0, 1);
    assert_eq!(b.vpn_range().get_end().0, 4);
}

#[test]
fn framed_area_maps_each_page_to_a_new_frame() {
    let mut frames = allocator(16);
    let mut pt = PageTable::new(&mut frames);
    let mut a = MapArea::new(VirtAddr(0x10000), VirtAddr(0x13000), MapType::Framed, rw_user());
    assert!(a.map(&mut pt, &mut frames).is_ok());
    assert_eq!(frames.available(), 12);
    for (i, v) in (0x10..0x13).enumerate() {
        let pte = pt.translate(VirtPageNum(v)).unwrap();
        assert_eq!(pte.ppn().0, 0x80001 + i);
        assert_eq!(pte.flags().bits, MAP_R | MAP_W | MAP_U | 1);
    }
    a.unmap(&mut pt, &mut frames);
    assert!(pt.translate(VirtPageNum(0x10)).is_none());
    assert_eq!(frames.available(), 15);
}

#[test]
fn identical_area_maps_pages_to_themselves() {
    let mut frames = allocator(4);
    let mut pt = PageTable::new(&mut frames);
    let mut a = MapArea::new(VirtAddr(0x8020_0000), VirtAddr(0x8020_2000), MapType::Identical, MapPermission { bits: MAP_R | MAP_X });
    assert!(a.map(&mut pt, &mut frames).is_ok());
    assert_eq!(frames.available(), 3);
    assert_eq!(pt.translate(VirtPageNum(0x80201)).unwrap().ppn().0, 0x80201);
}

#[test]
fn mapping_fails_without_frames() {
    let mut frames = allocator(2);
    let mut pt = PageTable::new(&mut frames);
    let mut a = MapArea::new(VirtAddr(0x10000), VirtAddr(0x13000), MapType::Framed, rw_user());
    assert!(a.map(&mut pt, &mut frames).is_err());
}

#[test]
fn copy_data_fills_pages_in_order() {
    let mut frames = allocator(8);
    let mut pt = PageTable::new(&mut frames);
    let mut a = MapArea::new(VirtAddr(0x10000), VirtAddr(0x12000), MapType::Framed, rw_user());
    a.map(&mut pt, &mut frames).unwrap();
    let mut data = vec![7u8; 4096];
    data.extend_from_slice(&[1, 2, 3]);
    a.copy_data(&pt, &data);
    assert!(a.frame_bytes(VirtPageNum(0x10)).unwrap().iter().all(|b| *b == 7));
    assert_eq!(&a.frame_bytes(VirtPageNum(0x11)).unwrap()[..4], &[1, 2, 3, 0]);
    assert!(a.frame_bytes(VirtPageNum(0x12)).is_none());
}

#[test]
fn split_by_range_keeps_each_frame_with_its_page() {
    let mut frames = allocator(8);
    let mut pt = PageTable::new(&mut frames);
    let mut a = MapArea::new(VirtAddr(0x10000), VirtAddr(0x15000), MapType::Framed, rw_user());
    a.map(&mut pt, &mut frames).unwrap();
    let (l, m, r) = a.split_by_range(VPNRange::new(VirtPageNum(0x11), VirtPageNum(0x13)));
    assert_eq!((l.vpn_range().get_start().0, l.vpn_range().get_end().0), (0x10, 0x11));
    assert_eq!((m.vpn_range().get_start().0, m.vpn_range().get_end().0), (0x11, 0x13));
    assert_eq!((r.vpn_range().get_start().0, r.vpn_range().get_end().0), (0x13, 0x15));
    assert!(l.frame_bytes(VirtPageNum(0x10)).is_some() && l.frame_bytes(VirtPageNum(0x11)).is_none());
    assert!(m.frame_bytes(VirtPageNum(0x11)).is_some() && m.frame_bytes(VirtPageNum(0x12)).is_some());
    assert!(m.frame_bytes(VirtPageNum(0x13)).is_none());
    assert!(r.frame_bytes(VirtPageNum(0x14)).is_some());
    m.release(&mut frames);
    assert_eq!(frames.available(), 4);
}

#[test]
fn area_shrinks_and_grows() {
    let mut frames = allocator(8);
    let mut pt = PageTable::new(&mut frames);
    let mut a = MapArea::new(VirtAddr(0x10000), VirtAddr(0x14000), MapType::Framed, rw_user());
    a.map(&mut pt, &mut frames).unwrap();
    a.shrink_to(&mut pt, &mut frames, VirtPageNum(0x12));
    assert_eq!(a.vpn_range().get_end().0, 0x12);
    assert!(pt.translate(VirtPageNum(0x12)).is_none());
    assert_eq!(frames.available(), 5);
    a.append_to(&mut pt, &mut frames, VirtPageNum(0x15));
    assert_eq!(a.vpn_range().get_end().0, 0x15);
    assert!(pt.translate(VirtPageNum(0x14)).is_some());
    assert_eq!(frames.available(), 2);
}

#[test]
fn map_area_then_unmap_area_restores_the_space() {
    let mut frames = allocator(16);
    let mut ms = MemorySet::new_bare(&mut frames);
    assert!(ms.map_area(VirtAddr(0x10000), VirtAddr(0x12000), rw_user(), &mut frames));
    assert!(ms.translate(VirtPageNum(0x10)).is_some());
    assert!(ms.translate(VirtPageNum(0x11)).is_some());
    assert_eq!(frames.available(), 13);
    assert!(ms.unmap_area(VirtAddr(0x10000), VirtAddr(0x12000), &mut frames));
    assert!(ms.translate(VirtPageNum(0x10)).is_none());
    assert!(ms.translate(VirtPageNum(0x11)).is_none());
    assert_eq!(frames.available(), 15);
    assert!(!ms.unmap_area(VirtAddr(0x10000), VirtAddr(0x11000), &mut frames));
}

#[test]
fn map_area_refuses_overlap_and_lack_of_frames() {
    let mut frames = allocator(5);
    let mut ms = MemorySet::new_bare(&mut frames);
    assert!(ms.map_area(VirtAddr(0x10000), VirtAddr(0x12000), rw_user(), &mut frames));
    assert!(!ms.map_area(VirtAddr(0x11000), VirtAddr(0x13000), rw_user(), &mut frames));
    assert_eq!(frames.available(), 2);
    assert!(!ms.map_area(VirtAddr(0x20000), VirtAddr(0x23000), rw_user(), &mut frames));
    // The frames taken are handed back; the pages that got one stay in the page table.
    assert_eq!(frames.available(), 2);
    assert!(ms.translate(VirtPageNum(0x21)).is_some());
    assert!(ms.translate(VirtPageNum(0x22)).is_none());
}

#[test]
fn unmap_area_cuts_areas_that_join_up() {
    let mut frames = allocator(16);
    let mut ms = MemorySet::new_bare(&mut frames);
    assert!(ms.map_area(VirtAddr(0x10000), VirtAddr(0x13000), rw_user(), &mut frames));
    assert!(ms.map_area(VirtAddr(0x13000), VirtAddr(0x15000), rw_user(), &mut frames));
    assert!(ms.unmap_area(VirtAddr(0x11000), VirtAddr(0x14000), &mut frames));
    assert!(ms.translate(VirtPageNum(0x10)).is_some());
    assert!(ms.translate(VirtPageNum(0x11)).is_none());
    assert!(ms.translate(VirtPageNum(0x13)).is_none());
    assert!(ms.translate(VirtPageNum(0x14)).is_some());
    assert_eq!(frames.available(), 15 - 5 + 3);
    // The pieces left are areas of their own.
    assert!(ms.unmap_area(VirtAddr(0x10000), VirtAddr(0x11000), &mut frames));
    assert!(ms.unmap_area(VirtAddr(0x14000), VirtAddr(0x15000), &mut frames));
    assert_eq!(frames.available(), 15);
}

#[test]
fn unmap_area_refuses_a_gap() {
    let mut frames = allocator(16);
    let mut ms = MemorySet::new_bare(&mut frames);
    assert!(ms.map_area(VirtAddr(0x10000), VirtAddr(0x11000), rw_user(), &mut frames));
    assert!(ms.map_area(VirtAddr(0x12000), VirtAddr(0x13000), rw_user(), &mut frames));
    assert!(!ms.unmap_area(VirtAddr(0x10000), VirtAddr(0x13000), &mut frames));
    assert!(ms.translate(VirtPageNum(0x10)).is_some());
    assert!(ms.translate(VirtPageNum(0x12)).is_some());
}

#[test]
fn insert_remove_shrink_and_append_by_start() {
    let mut frames = allocator(32);
    let mut ms = MemorySet::new_bare(&mut frames);
    ms.insert_framed_area(VirtAddr(0x10000), VirtAddr(0x14000), rw_user(), &mut frames);
    assert_eq!(frames.available(), 27);
    assert!(ms.shrink_to(VirtAddr(0x10000), VirtAddr(0x12000), &mut frames));
    assert!(ms.translate(VirtPageNum(0x12)).is_none());
    assert_eq!(frames.available(), 29);
    assert!(ms.append_to(VirtAddr(0x10000), VirtAddr(0x13000), &mut frames));
    assert!(ms.translate(VirtPageNum(0x12)).is_some());
    assert!(!ms.shrink_to(VirtAddr(0x20000), VirtAddr(0x20000), &mut frames));
    ms.remove_area_with_start_vpn(VirtPageNum(0x10), &mut frames);
    assert!(ms.translate(VirtPageNum(0x10)).is_none());
    assert_eq!(frames.available(), 31);
}

#[test]
fn recycle_data_pages_hands_back_every_frame() {
    let mut frames = allocator(32);
    let mut ms = MemorySet::new_bare(&mut frames);
    ms.insert_framed_area(VirtAddr(0x10000), VirtAddr(0x13000), rw_user(), &mut frames);
    ms.insert_framed_area(VirtAddr(0x20000), VirtAddr(0x22000), rw_user(), &mut frames);
    assert_eq!(frames.available(), 26);
    ms.recycle_data_pages(&mut frames);
    assert_eq!(frames.available(), 31);
    assert!(ms.page_bytes(VirtPageNum(0x10)).is_none());
}

#[test]
fn copy_of_a_user_space_has_the_same_pages_and_bytes() {
    let mut frames = allocator(64);
    let mut ms = MemorySet::new_bare(&mut frames);
    assert!(ms.map_area(VirtAddr(0x10000), VirtAddr(0x12000), rw_user(), &mut frames));
    assert_eq!(ms.frames_to_copy(), Some(3));
    let copy = MemorySet::from_existed_user(&ms, 0x8020_5000, &mut frames);
    assert_eq!(frames.available(), 64 - 1 - 2 - 1 - 2);
    let pte = copy.translate(VirtPageNum(0x10)).unwrap();
    assert_ne!(pte.ppn().0, ms.translate(VirtPageNum(0x10)).unwrap().ppn().0);
    assert_eq!(pte.flags().bits, MAP_R | MAP_W | MAP_U | 1);
    assert_eq!(copy.page_bytes(VirtPageNum(0x11)).unwrap(), ms.page_bytes(VirtPageNum(0x11)).unwrap());
    let tramp = copy.translate(VirtPageNum(0x7ff_ffff)).unwrap();
    assert_eq!(tramp.ppn().0, 0x80205);
    assert!(tramp.readable() && tramp.executable() && !tramp.writable());
}

fn layout() -> KernelLayout {
    KernelLayout {
        stext: 0x8020_0000,
        etext: 0x8020_3000,
        srodata: 0x8020_3000,
        erodata: 0x8020_4000,
        sdata: 0x8020_4000,
        edata: 0x8020_5000,
        sbss_with_stack: 0x8020_5000,
        ebss: 0x8020_8000,
        ekernel: 0x8020_8000,
        strampoline: 0x8020_2000,
    }
}

#[test]
fn kernel_space_maps_sections_identically_and_passes_remap_test() {
    let mut frames = FrameAllocator::new(PhysPageNum(0x80300), PhysPageNum(0x80400));
    let ks = MemorySet::new_kernel(&layout(), &mut frames);
    assert_eq!(frames.available(), 0xff);
    let text = ks.translate(VirtPageNum(0x80201)).unwrap();
    assert_eq!(text.ppn().0, 0x80201);
    assert!(text.readable() && text.executable() && !text.writable());
    let bss = ks.translate(VirtPageNum(0x80206)).unwrap();
    assert!(bss.readable() && bss.writable() && !bss.executable());
    let phys = ks.translate(VirtPageNum(0x87fff)).unwrap();
    assert_eq!(phys.ppn().0, 0x87fff);
    assert!(ks.translate(VirtPageNum(0x88000)).is_none());
    assert!(remap_test(&ks, &layout()));
    assert_eq!(ks.token(), 0x8000_0000_0008_0300);
}

#[test]
fn kernel_layout_check() {
    assert!(check_kernel_layout(&layout()));
    let mut overlapping = layout();
    overlapping.srodata = 0x8020_2000;
    assert!(!check_kernel_layout(&overlapping));
    let mut unaligned = layout();
    unaligned.strampoline = 0x8020_2004;
    assert!(!check_kernel_layout(&unaligned));
    let mut too_high = layout();
    too_high.ekernel = 0x9000_0000;
    assert!(!check_kernel_layout(&too_high));
}

#[test]
fn kernel_sections_in_any_order() {
    let mut l = layout();
    // Data placed below the text.
    l.sdata = 0x8010_0000;
    l.edata = 0x8010_1000;
    assert!(check_kernel_layout(&l));
    let mut frames = FrameAllocator::new(PhysPageNum(0x80300), PhysPageNum(0x80400));
    let ks = MemorySet::new_kernel(&l, &mut frames);
    let data = ks.translate(VirtPageNum(0x80100)).unwrap();
    assert!(data.writable() && !data.executable());
    assert!(remap_test(&ks, &l));
}

#[test]
fn copy_data_writes_through_the_page_table() {
    let mut frames = allocator(8);
    let mut pt = PageTable::new(&mut frames);
    let mut a = MapArea::new(VirtAddr(0x10000), VirtAddr(0x11000), MapType::Framed, rw_user());
    a.map(&mut pt, &mut frames).unwrap();
    // An area over the same page holding no frame of its own: the bytes go to
    // the frame the page is mapped to, which it does not hold.
    let mut b = MapArea::new(VirtAddr(0x10000), VirtAddr(0x11000), MapType::Framed, rw_user());
    b.copy_data(&pt, &[9, 9]);
    assert!(b.frame_bytes(VirtPageNum(0x10)).is_none());
    a.copy_data(&pt, &[5, 6]);
    assert_eq!(&a.frame_bytes(VirtPageNum(0x10)).unwrap()[..3], &[5, 6, 0]);
}
