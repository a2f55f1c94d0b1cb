//! Process-management system calls: what each decides and what it returns.
use vstd::prelude::*;
use crate::config::{MAX_SYSCALL_NUM, PAGE_SIZE};
use crate::mm::address::{VirtAddr, va_span, ceil_spec};
use crate::mm::frame_allocator::{FrameAllocator, available, allocs, deallocs};
use crate::mm::memory_set::{
    MemorySet, MapPermission, MapType, MapAreaView, MAP_U, any_overlap, unmapped_range, pt_after_map,
    frames_after_map, mapped_count, range_ppns, overlap_keys, covers, views_after_unmap, area_views,
    pieces_ppns, middle_pieces, key_views, perm_from_spec,
};
use crate::mm::area_map::enumerates;
use crate::task::task::TaskStatus;

verus! {

/// A time: seconds and microseconds.
#[derive(Copy, Clone, Debug, PartialEq, Eq, Structural)]
pub struct TimeVal {
    pub sec: usize,
    pub usec: usize,
}

/// What `sys_task_info` reports of a task.
#[derive(Copy, Clone)]
pub struct TaskInfo {
    /// Task status in its life cycle.
    pub status: TaskStatus,
    /// How many times the task made each system call.
    pub syscall_times: [u32; MAX_SYSCALL_NUM],
    /// Total running time of the task.
    pub time: usize,
}

/// What a system call asks the scheduler to do next.
#[derive(Copy, Clone, Debug, PartialEq, Eq, Structural)]
pub enum TaskAction {
    /// End the current task and run the next one.
    ExitCurrentAndRunNext,
    /// Put the current task back in the ready queue and run the next one.
    SuspendCurrentAndRunNext,
}

/// The current task exits with `_exit_code`: the scheduler ends it and runs the next task.
pub fn sys_exit(_exit_code: i32) -> (r: TaskAction)
    ensures
        r == TaskAction::ExitCurrentAndRunNext,
{
    TaskAction::ExitCurrentAndRunNext
}

/// The current task gives up the processor; the call returns 0.
pub fn sys_yield() -> (r: (TaskAction, isize))
    ensures
        r == (TaskAction::SuspendCurrentAndRunNext, 0isize),
{
    (TaskAction::SuspendCurrentAndRunNext, 0)
}

/// The time to hand to the user for a clock reading of `time_us` microseconds.
pub fn sys_get_time(time_us: usize) -> (tv: TimeVal)
    ensures
        tv.sec == time_us / 1_000_000,
        tv.usec == time_us % 1_000_000,
{
    TimeVal { sec: time_us / 1_000_000, usec: time_us % 1_000_000 }
}

/// What a call that copied a value to the user returns, given the status of
/// the copy: 0 when the copy reported 0, -1 otherwise.
pub fn user_copy_ret(copy_status: isize) -> (r: isize)
    ensures
        r == (if copy_status == 0 { 0isize } else { -1isize }),
{
    match copy_status {
        0 => 0,
        _ => -1,
    }
}

/// What `sys_task_info` returns: 0 when there is a current task's information
/// to copy to the user, -1 otherwise.
pub fn sys_task_info(task_info: Option<TaskInfo>) -> (r: isize)
    ensures
        r == (if task_info is Some { 0isize } else { -1isize }),
{
    if let Some(_task_info) = task_info {
        0
    } else {
        -1
    }
}

/// Whether the arguments of `mmap` (with a `port`) or `munmap` (without) are
/// acceptable: `start` page aligned and `port`, if given, a non-empty subset of
/// the bits `R W X` (values 1 to 7).
pub open spec fn map_args_ok(start: usize, port: Option<usize>) -> bool {
    &&& start % PAGE_SIZE == 0
    &&& match port {
        Some(p) => 0 < p < 8,
        None => true,
    }
}

/// The argument check refuses an unaligned start, a port with a bit outside
/// `R W X` and an empty port, and accepts every other port at an aligned start.
pub proof fn lemma_map_args_port(start: usize, p: usize)
    ensures
        p & !0x7usize != 0 ==> !map_args_ok(start, Some(p)),
        p & 0x7usize == 0 ==> !map_args_ok(start, Some(p)),
        start % PAGE_SIZE == 0 && p & !0x7usize == 0 && p & 0x7usize != 0 ==> map_args_ok(start, Some(p)),
        start % PAGE_SIZE != 0 ==> !map_args_ok(start, Some(p)) && !map_args_ok(start, None),
        start % PAGE_SIZE == 0 ==> map_args_ok(start, None),
{
    assert((p & !0x7usize == 0) == (p < 8)) by (bit_vector);
    assert(p < 8 ==> ((p & 0x7usize == 0) == (p == 0))) by (bit_vector);
}

/// Checks the arguments of `mmap` and `munmap`; see `map_args_ok`.
pub fn check_map_args(start: usize, _len: usize, port: Option<usize>) -> (r: bool)
    ensures
        r == map_args_ok(start, port),
{
    if start % PAGE_SIZE != 0 {
        return false;
    }
    match port {
        Some(p) => {
            assert((p & !0x7usize == 0) == (p < 8)) by (bit_vector);
            assert(p < 8 ==> ((p & 0x7usize == 0) == (p == 0))) by (bit_vector);
            if p & !0x7 != 0 || p & 0x7 == 0 {
                false
            } else {
                true
            }
        },
        None => true,
    }
}

/// The first page of a user range starting at `start`.
pub open spec fn user_start_page(start: usize) -> usize {
    ((start as int % va_span()) / PAGE_SIZE as int) as usize
}

/// The first page above a user range ending at `end`.
pub open spec fn user_end_page(end: usize) -> usize {
    ceil_spec(end as int % va_span()) as usize
}

/// The permission of an `mmap` with `port`: its `R W X` bits shifted into place, and `U`.
pub open spec fn mmap_perm(port: usize) -> u8 {
    perm_from_spec(port as u8) | MAP_U
}

/// Maps `len` bytes from `start` in the address space `memory_set`, user
/// accessible with the permission bits `port` (`R` = 1, `W` = 2, `X` = 4).
/// Returns 0 on success, -1 when the arguments are refused, some area
/// overlaps the range, or there are not enough free frames.
pub fn sys_mmap(memory_set: &mut MemorySet, start: usize, len: usize, port: usize, frames: &mut FrameAllocator) -> (r: isize)
    requires
        old(memory_set).wf(),
        old(frames).wf(),
        map_args_ok(start, Some(port)) ==> start + len <= usize::MAX,
        map_args_ok(start, Some(port)) ==> {
            let s = user_start_page(start) as int;
            let e = user_end_page((start + len) as usize) as int;
            &&& s < e
            &&& !any_overlap(old(memory_set).areas(), s, e) ==> unmapped_range(old(memory_set).pt(), s, e)
        },
    ensures
        final(memory_set).wf(),
        final(frames).wf(),
        old(memory_set).space_inv() ==> final(memory_set).space_inv(),
        ({
            let s = user_start_page(start);
            let e = user_end_page((start + len) as usize);
            let n = e - s;
            let ok = map_args_ok(start, Some(port));
            let ov = any_overlap(old(memory_set).areas(), s as int, e as int);
            let k = mapped_count(MapType::Framed, old(frames)@, n);
            let perm = mmap_perm(port);
            let fresh = frames_after_map(Map::empty(), MapType::Framed, old(frames)@, s, k);
            &&& r == (if ok && !ov && n <= available(old(frames)@) { 0isize } else { -1isize })
            &&& (!ok || ov) ==> {
                &&& final(memory_set).areas() == old(memory_set).areas()
                &&& final(memory_set).pt() == old(memory_set).pt()
                &&& final(frames)@ == old(frames)@
            }
            &&& (ok && !ov) ==> final(memory_set).pt() == pt_after_map(old(memory_set).pt(), MapType::Framed, old(frames)@, s, k, perm)
            &&& r == 0 ==> {
                &&& final(memory_set).areas() == old(memory_set).areas().insert((s, e), final(memory_set).areas()[(s, e)])
                &&& final(memory_set).areas()[(s, e)]@ == (MapAreaView { start: s, end: e, frames: fresh, map_type: MapType::Framed, perm })
                &&& final(frames)@ == allocs(old(frames)@, n as nat)
            }
            &&& (ok && !ov && r != 0) ==> {
                &&& final(memory_set).areas() == old(memory_set).areas()
                &&& final(frames)@ == deallocs(allocs(old(frames)@, k as nat), range_ppns(fresh, s as int, n as nat))
            }
        }),
{
    if check_map_args(start, len, Some(port)) {
        let start_va = VirtAddr::from_usize(start);
        let end_va = VirtAddr::from_usize(start + len);
        proof {
            vstd::arithmetic::div_mod::lemma_mod_mod(start as int, PAGE_SIZE as int, 0x800_0000);
        }
        let perm = MapPermission::from(port as u8).union(MapPermission { bits: MAP_U });
        if memory_set.map_area(start_va, end_va, perm, frames) {
            0
        } else {
            -1
        }
    } else {
        -1
    }
}

/// Unmaps `len` bytes from `start` in the address space `memory_set`. Returns
/// 0 on success, -1 when `start` is not page aligned or the areas overlapping
/// the range do not join up to cover it.
pub fn sys_munmap(memory_set: &mut MemorySet, start: usize, len: usize, frames: &mut FrameAllocator) -> (r: isize)
    requires
        old(memory_set).space_inv(),
        old(frames).wf(),
        map_args_ok(start, None) ==> start + len <= usize::MAX,
        map_args_ok(start, None) ==> user_start_page(start) < user_end_page((start + len) as usize),
    ensures
        final(memory_set).space_inv(),
        final(frames).wf(),
        ({
            let s = user_start_page(start);
            let e = user_end_page((start + len) as usize);
            let q = overlap_keys(old(memory_set).areas(), s as int, e as int);
            let done = map_args_ok(start, None) && covers(q, s as int, e as int);
            &&& map_args_ok(start, None) ==> enumerates(q, old(memory_set).areas(), s as int, e as int)
            &&& r == (if done { 0isize } else { -1isize })
            &&& !done ==> {
                &&& final(memory_set).areas() == old(memory_set).areas()
                &&& final(memory_set).pt() == old(memory_set).pt()
                &&& final(frames)@ == old(frames)@
            }
            &&& done ==> {
                &&& final(memory_set).pt() == old(memory_set).pt().remove_keys(Set::new(|v: usize| s <= v < e))
                &&& area_views(final(memory_set).areas()) == views_after_unmap(old(memory_set).areas(), q, s, e)
                &&& final(frames)@ == deallocs(old(frames)@, pieces_ppns(middle_pieces(key_views(old(memory_set).areas(), q), s, e), q.len()))
            }
        }),
{
    if check_map_args(start, len, None) {
        let start_va = VirtAddr::from_usize(start);
        let end_va = VirtAddr::from_usize(start + len);
        proof {
            vstd::arithmetic::div_mod::lemma_mod_mod(start as int, PAGE_SIZE as int, 0x800_0000);
        }
        if memory_set.unmap_area(start_va, end_va, frames) {
            0
        } else {
            -1
        }
    } else {
        -1
    }
}

/// What `sys_sbrk` returns, given what changing the program break gave: the
/// old break when it changed, -1 when it did not.
pub fn sys_sbrk(old_brk: Option<usize>) -> (r: isize)
    ensures
        r == (match old_brk {
            Some(b) => b as isize,
            None => -1isize,
        }),
{
    if let Some(old_brk) = old_brk {
        old_brk as isize
    } else {
        -1
    }
}

} // verus!
