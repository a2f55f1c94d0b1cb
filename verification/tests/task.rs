use std::cmp::Ordering;
use std::hash::{BuildHasher, Hasher};

use rcore_os::task::manager::{Stride, TaskManager};
use rcore_os::task::sha::{Sha256Builder, Sha256Hasher};
use rcore_os::task::task::{TaskContext, TaskControlBlock, TaskStatus};

#[test]
fn smaller_pass_runs_first() {
    assert_eq!(Stride(5).partial_cmp(&Stride(10)), Some(Ordering::Greater));
    assert_eq!(Stride(10).partial_cmp(&Stride(5)), Some(Ordering::Less));
    assert_eq!(Stride(7).partial_cmp(&Stride(7)), Some(Ordering::Less));
    assert!(Stride(5) > Stride(10));
}

#[test]
fn pass_that_wrapped_around_is_larger() {
    assert_eq!(Stride(0x10_0000).partial_cmp(&Stride(0)), Some(Ordering::Greater));
    assert_eq!(Stride(0).partial_cmp(&Stride(0x10_0000)), Some(Ordering::Less));
    assert_eq!(Stride(0x8_0000).partial_cmp(&Stride(0)), Some(Ordering::Less));
}

#[test]
fn cmp_answers_like_partial_cmp() {
    assert_eq!(Stride(1).cmp(&Stride(2)), Ordering::Greater);
    assert_eq!(Stride(2).cmp(&Stride(1)), Ordering::Less);
    assert_eq!(Stride(0).cmp(&Stride(u64::MAX)), Ordering::Less);
}

#[test]
fn passes_are_never_equal() {
    assert!(Stride(3) != Stride(3));
}

#[test]
fn update_adds_big_stride_over_priority() {
    let mut s = Stride::new();
    assert_eq!(s.0, 0);
    s.update(16);
    assert_eq!(s.0, 0x10000);
    s.update(2);
    assert_eq!(s.0, 0x90000);
    let mut w = Stride(u64::MAX);
    w.update(0x10_0000);
    assert_eq!(w.0, 0);
}

#[test]
fn fetch_takes_the_smallest_pass() {
    let mut tm = TaskManager::new();
    assert_eq!(tm.fetch(), None);
    let (mut a, mut b, mut c) = (Stride::new(), Stride::new(), Stride::new());
    tm.add(1, &mut a, 2);
    tm.add(2, &mut b, 4);
    tm.add(3, &mut c, 16);
    assert_eq!(tm.fetch(), Some(3));
    tm.add(3, &mut c, 16);
    assert_eq!(c.0, 0x20000);
    assert_eq!(tm.fetch(), Some(3));
    assert_eq!(tm.fetch(), Some(2));
    assert_eq!(tm.fetch(), Some(1));
    assert_eq!(tm.fetch(), None);
}

#[test]
fn task_added_to_empty_queue_comes_out_next() {
    let mut tm = TaskManager::new();
    let mut s = Stride(0x1234);
    tm.add(9, &mut s, 5);
    assert_eq!(tm.fetch(), Some(9));
    assert_eq!(tm.fetch(), None);
}

#[test]
fn hasher_gives_the_first_eight_bytes_of_sha256() {
    let h = Sha256Hasher::new();
    assert_eq!(h.finish(), 0x141c_fc98_42c4_b0e3);
    let mut h = Sha256Builder::default().build_hasher();
    h.write(b"ab");
    h.write(b"c");
    assert_eq!(h.finish(), 0xeacf_018f_bf16_78ba);
    let mut g = Sha256Hasher::new();
    g.write(b"abc");
    assert_eq!(g.finish(), h.finish());
}

#[test]
fn new_task_control_block_has_no_history() {
    let cx = TaskContext::zero_init();
    let tcb = TaskControlBlock::new(TaskStatus::Ready, cx);
    assert!(tcb.task_status == TaskStatus::Ready);
    assert_eq!(tcb.task_cx.ra, 0);
    assert_eq!(tcb.task_cx.sp, 0);
    assert!(tcb.syscall_times.iter().all(|n| *n == 0));
    assert_eq!(tcb.start_time, 0);
}

#[test]
fn scheduling_keeps_passes_within_the_limit() {
    let mut tm = TaskManager::new();
    let priorities = [2usize, 3, 5, 8, 16];
    let mut strides = [Stride::new(); 5];
    for (id, p) in priorities.iter().enumerate() {
        tm.add(id, &mut strides[id], *p);
    }
    let mut runs = [0usize; 5];
    for _ in 0..200 {
        let id = tm.fetch().unwrap();
        runs[id] += 1;
        tm.add(id, &mut strides[id], priorities[id]);
        let lo = strides.iter().map(|s| s.0).min().unwrap();
        let hi = strides.iter().map(|s| s.0).max().unwrap();
        assert!(hi - lo <= 0x8_0000);
    }
    // Higher priority, more turns.
    assert!(runs[4] > runs[0]);
}
