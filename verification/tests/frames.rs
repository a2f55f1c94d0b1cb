use rcore_os::mm::address::PhysPageNum;
use rcore_os::mm::frame_allocator::{FrameAllocator, FrameTracker};
use rcore_os::mm::page_table::{PTEFlags, PageTable, PageTableEntry};
use rcore_os::mm::address::VirtPageNum;

#[test]
fn frames_come_in_order_until_none_is_left() {
    let mut frames = FrameAllocator::new(PhysPageNum(10), PhysPageNum(13));
    assert_eq!(frames.available(), 3);
    assert_eq!(frames.frame_alloc().unwrap().ppn().0, 10);
    assert_eq!(frames.frame_alloc().unwrap().ppn().0, 11);
    assert_eq!(frames.frame_alloc().unwrap().ppn().0, 12);
    assert!(frames.frame_alloc().is_none());
    assert_eq!(frames.available(), 0);
}

#[test]
fn handed_back_frame_is_reused_first() {
    let mut frames = FrameAllocator::new(PhysPageNum(10), PhysPageNum(20));
    let a = frames.frame_alloc().unwrap();
    let _b = frames.frame_alloc().unwrap();
    frames.frame_dealloc(a.ppn());
    assert_eq!(frames.available(), 9);
    assert_eq!(frames.frame_alloc().unwrap().ppn().0, 10);
    assert_eq!(frames.frame_alloc().unwrap().ppn().0, 12);
}

#[test]
fn handing_back_a_free_frame_is_ignored() {
    let mut frames = FrameAllocator::new(PhysPageNum(10), PhysPageNum(20));
    frames.frame_dealloc(PhysPageNum(15));
    assert_eq!(frames.available(), 10);
    let a = frames.frame_alloc().unwrap();
    frames.frame_dealloc(a.ppn());
    frames.frame_dealloc(a.ppn());
    assert_eq!(frames.available(), 10);
}

#[test]
fn new_frame_is_cleared_and_written() {
    let mut f = FrameTracker::new(PhysPageNum(7));
    assert_eq!(f.get_bytes_array().len(), 4096);
    assert!(f.get_bytes_array().iter().all(|b| *b == 0));
    f.write_prefix(&[1, 2, 3]);
    assert_eq!(&f.get_bytes_array()[..4], &[1, 2, 3, 0]);
    let mut g = FrameTracker::new(PhysPageNum(8));
    g.copy_from(&f);
    assert_eq!(g.ppn().0, 8);
    assert_eq!(g.get_bytes_array(), f.get_bytes_array());
}

#[test]
fn page_table_maps_translates_and_unmaps() {
    let mut frames = FrameAllocator::new(PhysPageNum(0x80000), PhysPageNum(0x80010));
    let mut pt = PageTable::new(&mut frames);
    assert_eq!(frames.available(), 15);
    assert!(pt.translate(VirtPageNum(5)).is_none());
    pt.map(VirtPageNum(5), PhysPageNum(0x90), PTEFlags { bits: 2 | 4 });
    let pte: PageTableEntry = pt.translate(VirtPageNum(5)).unwrap();
    assert_eq!(pte.ppn().0, 0x90);
    assert!(pte.is_valid() && pte.readable() && pte.writable() && !pte.executable());
    pt.unmap(VirtPageNum(5));
    assert!(pt.translate(VirtPageNum(5)).is_none());
}

#[test]
fn page_table_token_selects_sv39() {
    let mut frames = FrameAllocator::new(PhysPageNum(0x80000), PhysPageNum(0x80010));
    let pt = PageTable::new(&mut frames);
    assert_eq!(pt.token(), 0x8000_0000_0008_0000);
}

#[test]
fn pte_flags_union_and_contains() {
    let rw = PTEFlags { bits: 2 }.union(PTEFlags { bits: 4 });
    assert_eq!(rw.bits, 6);
    assert!(rw.contains(PTEFlags { bits: 4 }));
    assert!(!rw.contains(PTEFlags { bits: 8 }));
    assert_eq!(PTEFlags::from_bits(0x1f), Some(PTEFlags { bits: 0x1f }));
}
