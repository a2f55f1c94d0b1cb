use rcore_os::mm::address::{PhysPageNum, VirtPageNum};
use rcore_os::mm::frame_allocator::FrameAllocator;
use rcore_os::mm::memory_set::{MemorySet, MAP_R, MAP_U, MAP_W, MAP_X};
use rcore_os::syscall::process::{
    check_map_args, sys_exit, sys_get_time, sys_mmap, sys_munmap, sys_sbrk, sys_task_info, sys_yield,
    user_copy_ret, TaskAction, TaskInfo, TimeVal,
};
use rcore_os::task::task::TaskStatus;

#[test]
fn exit_and_yield_ask_the_scheduler() {
    assert_eq!(sys_exit(3), TaskAction::ExitCurrentAndRunNext);
    assert_eq!(sys_yield(), (TaskAction::SuspendCurrentAndRunNext, 0));
}

#[test]
fn get_time_splits_microseconds() {
    assert_eq!(sys_get_time(3_500_007), TimeVal { sec: 3, usec: 500_007 });
    assert_eq!(sys_get_time(999_999), TimeVal { sec: 0, usec: 999_999 });
    assert_eq!(user_copy_ret(0), 0);
    assert_eq!(user_copy_ret(5), -1);
}

#[test]
fn task_info_reports_whether_there_is_a_task() {
    let info = TaskInfo { status: TaskStatus::Running, syscall_times: [0; 500], time: 12 };
    assert_eq!(sys_task_info(Some(info)), 0);
    assert_eq!(sys_task_info(None), -1);
}

#[test]
fn map_arguments_are_checked() {
    assert!(check_map_args(0x1000, 10, Some(1)));
    assert!(check_map_args(0x1000, 10, Some(7)));
    assert!(!check_map_args(0x1000, 10, Some(0)));
    assert!(!check_map_args(0x1000, 10, Some(8)));
    assert!(!check_map_args(0x1001, 10, Some(3)));
    assert!(check_map_args(0x2000, 0, None));
    assert!(!check_map_args(0x2004, 0, None));
}

#[test]
fn sbrk_returns_the_old_break() {
    assert_eq!(sys_sbrk(Some(0x5000)), 0x5000);
    assert_eq!(sys_sbrk(None), -1);
}

#[test]
fn mmap_and_munmap() {
    let mut frames = FrameAllocator::new(PhysPageNum(0x80000), PhysPageNum(0x80010));
    let mut ms = MemorySet::new_bare(&mut frames);
    assert_eq!(sys_mmap(&mut ms, 0x1000_0000, 0x1800, 3, &mut frames), 0);
    let pte = ms.translate(VirtPageNum(0x10001)).unwrap();
    assert_eq!(pte.flags().bits, MAP_R | MAP_W | MAP_U | 1);
    assert_eq!(sys_mmap(&mut ms, 0x1000_1000, 0x1000, 1, &mut frames), -1);
    assert_eq!(sys_mmap(&mut ms, 0x2000_0000, 0x1000, 0, &mut frames), -1);
    assert_eq!(sys_mmap(&mut ms, 0x2000_0010, 0x1000, 1, &mut frames), -1);
    assert_eq!(sys_mmap(&mut ms, 0x2000_0000, 0x1000, 4, &mut frames), 0);
    assert_eq!(ms.translate(VirtPageNum(0x20000)).unwrap().flags().bits, MAP_X | MAP_U | 1);
    assert_eq!(sys_munmap(&mut ms, 0x1000_0000, 0x1000, &mut frames), 0);
    assert!(ms.translate(VirtPageNum(0x10000)).is_none());
    assert_eq!(sys_munmap(&mut ms, 0x1000_0000, 0x1000, &mut frames), -1);
    assert_eq!(sys_munmap(&mut ms, 0x1000_0001, 0x1000, &mut frames), -1);
    assert_eq!(sys_munmap(&mut ms, 0x1000_1000, 0x1000, &mut frames), 0);
    assert_eq!(frames.available(), 14);
    // Refused arguments are answered without adding start and length.
    assert_eq!(sys_mmap(&mut ms, 0x1001, usize::MAX, 1, &mut frames), -1);
    assert_eq!(sys_mmap(&mut ms, 0x1000, usize::MAX, 0, &mut frames), -1);
    assert_eq!(sys_munmap(&mut ms, 0x1001, usize::MAX, &mut frames), -1);
}

#[test]
fn map_target_check() {
    let mut frames = FrameAllocator::new(PhysPageNum(0x80000), PhysPageNum(0x80010));
    let mut ms = MemorySet::new_bare(&mut frames);
    assert!(ms.map_target_ok(0x10, 0x12));
    assert_eq!(sys_mmap(&mut ms, 0x10000, 0x1000, 3, &mut frames), 0);
    assert!(ms.map_target_ok(0x10, 0x12));
    let copy = MemorySet::from_existed_user(&ms, 0x8020_2000, &mut frames);
    assert!(!copy.map_target_ok(0x7ff_fff0, 0x7ff_ffff + 1));
}
