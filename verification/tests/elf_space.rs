use rcore_os::mm::address::{PhysPageNum, VirtPageNum};
use rcore_os::mm::elf::load_plan;
use rcore_os::mm::frame_allocator::FrameAllocator;
use rcore_os::mm::memory_set::{MemorySet, MAP_R, MAP_U, MAP_W, MAP_X};

fn put(buf: &mut Vec<u8>, at: usize, bytes: &[u8]) {
    if buf.len() < at + bytes.len() {
        buf.resize(at + bytes.len(), 0);
    }
    buf[at..at + bytes.len()].copy_from_slice(bytes);
}

/// A 64-bit RISC-V executable with the given loadable segments:
/// (virtual address, memory size, flags, bytes of the file).
fn elf(entry: u64, segs: &[(u64, u64, u32, &[u8])]) -> Vec<u8> {
    let mut b: Vec<u8> = Vec::with_capacity(4096);
    put(&mut b, 0, &[0x7f, b'E', b'L', b'F', 2, 1, 1, 0]);
    put(&mut b, 16, &2u16.to_le_bytes());
    put(&mut b, 18, &0xf3u16.to_le_bytes());
    put(&mut b, 20, &1u32.to_le_bytes());
    put(&mut b, 24, &entry.to_le_bytes());
    put(&mut b, 32, &64u64.to_le_bytes());
    put(&mut b, 40, &0u64.to_le_bytes());
    put(&mut b, 48, &0u32.to_le_bytes());
    put(&mut b, 52, &64u16.to_le_bytes());
    put(&mut b, 54, &56u16.to_le_bytes());
    put(&mut b, 56, &(segs.len() as u16).to_le_bytes());
    put(&mut b, 58, &[0, 0, 0, 0, 0, 0]);
    let mut data_at = 64 + 56 * segs.len();
    for (i, (va, memsz, flags, data)) in segs.iter().enumerate() {
        let ph = 64 + 56 * i;
        put(&mut b, ph, &1u32.to_le_bytes());
        put(&mut b, ph + 4, &flags.to_le_bytes());
        put(&mut b, ph + 8, &(data_at as u64).to_le_bytes());
        put(&mut b, ph + 16, &va.to_le_bytes());
        put(&mut b, ph + 24, &va.to_le_bytes());
        put(&mut b, ph + 32, &(data.len() as u64).to_le_bytes());
        put(&mut b, ph + 40, &memsz.to_le_bytes());
        put(&mut b, ph + 48, &4096u64.to_le_bytes());
        put(&mut b, data_at, data);
        data_at += data.len();
    }
    b
}

#[test]
fn load_plan_reads_segments_and_entry() {
    let file = elf(0x10004, &[(0x10000, 0x2000, 5, b"code"), (0x13000, 0x10, 6, b"data!")]);
    let (plan, entry) = load_plan(&file).unwrap();
    assert_eq!(entry, 0x10004);
    assert_eq!(plan.len(), 2);
    assert_eq!((plan[0].start_va, plan[0].end_va), (0x10000, 0x12000));
    assert_eq!(plan[0].perm, MAP_U | MAP_R | MAP_X);
    assert_eq!(plan[1].perm, MAP_U | MAP_R | MAP_W);
    assert_eq!(&file[plan[1].data_start..plan[1].data_end], b"data!");
}

#[test]
fn load_plan_refuses_bad_files() {
    assert!(load_plan(&[]).is_none());
    assert!(load_plan(&[0u8; 64]).is_none());
    let mut file = elf(0x10000, &[(0x10000, 0x1000, 5, b"x")]);
    // A segment whose bytes lie beyond the end of the file.
    put(&mut file, 64 + 32, &0x10000u64.to_le_bytes());
    assert!(load_plan(&file).is_none());
}

#[test]
fn from_elf_maps_segments_stack_and_trap_context() {
    let file = elf(0x10004, &[(0x10000, 0x2000, 5, b"hello, world")]);
    let mut frames = FrameAllocator::new(PhysPageNum(0x80000), PhysPageNum(0x80020));
    let (ms, user_sp, entry) = MemorySet::from_elf(&file, 0x8020_2000, &mut frames).unwrap();
    assert_eq!(entry, 0x10004);
    // One guard page above the segment, then two pages of stack.
    assert_eq!(user_sp, 0x15000);
    // Root, two pages of the segment, two of the stack, one for the trap context.
    assert_eq!(frames.available(), 0x20 - 6);
    let code = ms.translate(VirtPageNum(0x10)).unwrap();
    assert_eq!(code.flags().bits, MAP_U | MAP_R | MAP_X | 1);
    assert_eq!(&ms.page_bytes(VirtPageNum(0x10)).unwrap()[..13], b"hello, world\0");
    assert!(ms.page_bytes(VirtPageNum(0x11)).unwrap().iter().all(|b| *b == 0));
    assert!(ms.translate(VirtPageNum(0x12)).is_none());
    let stack = ms.translate(VirtPageNum(0x13)).unwrap();
    assert_eq!(stack.flags().bits, MAP_U | MAP_R | MAP_W | 1);
    assert!(ms.translate(VirtPageNum(0x14)).is_some());
    assert!(ms.translate(VirtPageNum(0x15)).is_none());
    let trap = ms.translate(VirtPageNum(0x7ff_fffe)).unwrap();
    assert_eq!(trap.flags().bits, MAP_R | MAP_W | 1);
    let tramp = ms.translate(VirtPageNum(0x7ff_ffff)).unwrap();
    assert_eq!(tramp.ppn().0, 0x80202);
}

#[test]
fn from_elf_puts_the_stack_above_the_last_segment() {
    let file = elf(0x10000, &[(0x40000, 0x1000, 6, b"d"), (0x10000, 0x1000, 5, b"c")]);
    let mut frames = FrameAllocator::new(PhysPageNum(0x80000), PhysPageNum(0x80020));
    let (ms, user_sp, _) = MemorySet::from_elf(&file, 0x8020_2000, &mut frames).unwrap();
    assert_eq!(user_sp, 0x14000);
    assert!(ms.translate(VirtPageNum(0x12)).is_some());
    assert!(ms.translate(VirtPageNum(0x40)).is_some());
}

#[test]
fn from_elf_refuses_overlap_and_lack_of_frames() {
    let overlapping = elf(0x10000, &[(0x10000, 0x2000, 5, b"a"), (0x11000, 0x1000, 6, b"b")]);
    let mut frames = FrameAllocator::new(PhysPageNum(0x80000), PhysPageNum(0x80020));
    assert!(MemorySet::from_elf(&overlapping, 0x8020_2000, &mut frames).is_none());
    assert_eq!(frames.available(), 0x20);
    let fine = elf(0x10000, &[(0x10000, 0x2000, 5, b"a")]);
    let mut few = FrameAllocator::new(PhysPageNum(0x80000), PhysPageNum(0x80005));
    assert!(MemorySet::from_elf(&fine, 0x8020_2000, &mut few).is_none());
    assert_eq!(few.available(), 5);
    assert!(MemorySet::from_elf(&[1, 2, 3], 0x8020_2000, &mut few).is_none());
}

#[test]
fn elf_in_a_misaligned_buffer_is_read() {
    let file = elf(0x10004, &[(0x10000, 0x2000, 5, b"code")]);
    let mut shifted = vec![0u8];
    shifted.extend_from_slice(&file);
    let (plan, entry) = load_plan(&shifted[1..]).unwrap();
    assert_eq!(entry, 0x10004);
    assert_eq!(plan.len(), 1);
    let mut frames = FrameAllocator::new(PhysPageNum(0x80000), PhysPageNum(0x80020));
    let (ms, _, _) = MemorySet::from_elf(&shifted[1..], 0x8020_2000, &mut frames).unwrap();
    assert_eq!(&ms.page_bytes(VirtPageNum(0x10)).unwrap()[..4], b"code");
}

#[test]
fn misaligned_program_header_table_is_refused() {
    let mut file = elf(0x10000, &[(0x10000, 0x1000, 5, b"x")]);
    // Move the table one byte on.
    file.insert(64, 0);
    put(&mut file, 32, &65u64.to_le_bytes());
    assert!(load_plan(&file).is_none());
}
