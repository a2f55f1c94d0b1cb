//! Stride scheduling: each task's pass grows by a stride inversely
//! proportional to its priority, and the ready queue hands out the task with
//! the smallest pass.
use vstd::prelude::*;
use core::cmp::Ordering;
use priority_queue::PriorityQueue;
use crate::config::{BIG_STRIDE, STRIDE_LIMIT};
use crate::task::sha::Sha256Builder;

verus! {

/// The pass of a task: the sum of the strides it has taken so far, kept modulo 2^64.
#[derive(Copy, Clone, Debug, Eq)]
pub struct Stride(pub u64);

/// How the pass `a` compares with `b` in the ready queue, where greater means
/// run sooner: a smaller pass is greater, unless the two are more than
/// `STRIDE_LIMIT` apart, which means that the larger one has wrapped around.
pub open spec fn stride_order(a: u64, b: u64) -> Ordering {
    if a >= b {
        if a - b <= STRIDE_LIMIT {
            Ordering::Less
        } else {
            Ordering::Greater
        }
    } else {
        if b - a <= STRIDE_LIMIT {
            Ordering::Greater
        } else {
            Ordering::Less
        }
    }
}

impl Stride {
    /// A pass of zero.
    pub fn new() -> (r: Stride)
        ensures
            r.0 == 0,
    {
        Stride(0)
    }

    /// Adds the stride of a task of priority `priority`, `BIG_STRIDE / priority`,
    /// to the pass, wrapping around at 2^64.
    pub fn update(&mut self, priority: usize)
        requires
            priority > 0,
        ensures
            final(self).0 == (old(self).0 + BIG_STRIDE / (priority as u64)) % 0x1_0000_0000_0000_0000,
    {
        self.0 = self.0.wrapping_add(BIG_STRIDE / priority as u64);
    }
}

impl Stride {
    /// The pass order as an `Ordering`: `partial_cmp`, which always answers.
    pub fn cmp(&self, other: &Stride) -> (r: Ordering)
        ensures
            r == stride_order(self.0, other.0),
    {
        self.partial_cmp(other).unwrap()
    }
}

impl PartialOrd for Stride {
    fn partial_cmp(&self, other: &Self) -> (r: Option<Ordering>) {
        if self.0 >= other.0 {
            if (self.0 - other.0) <= STRIDE_LIMIT {
                Some(Ordering::Less)
            } else {
                Some(Ordering::Greater)
            }
        } else {
            if (other.0 - self.0) <= STRIDE_LIMIT {
                Some(Ordering::Greater)
            } else {
                Some(Ordering::Less)
            }
        }
    }
}

impl vstd::std_specs::cmp::PartialOrdSpecImpl for Stride {
    open spec fn obeys_partial_cmp_spec() -> bool {
        true
    }

    open spec fn partial_cmp_spec(&self, other: &Self) -> Option<Ordering> {
        Some(stride_order(self.0, other.0))
    }
}

impl PartialEq for Stride {
    fn eq(&self, _other: &Self) -> (r: bool) {
        false
    }
}

impl vstd::std_specs::cmp::PartialEqSpecImpl for Stride {
    open spec fn obeys_eq_spec() -> bool {
        true
    }

    open spec fn eq_spec(&self, other: &Self) -> bool {
        false
    }
}

/// The priority queue of the `priority_queue` crate.
#[verifier::external_type_specification]
#[verifier::external_body]
#[verifier::reject_recursive_types(I)]
#[verifier::reject_recursive_types(P)]
#[verifier::reject_recursive_types(H)]
pub struct ExPriorityQueue<I: core::hash::Hash + Eq, P: Ord, H>(PriorityQueue<I, P, H>);

/// The tasks waiting in a ready queue, by task id, with their ranks.
pub uninterp spec fn queue_contents(q: PriorityQueue<usize, u64, Sha256Builder>) -> Map<usize, u64>;

/// An empty queue with room for 20 tasks:
/// `PriorityQueue::with_capacity_and_default_hasher`.
#[verifier::external_body]
fn ready_queue_new() -> (fresh: PriorityQueue<usize, u64, Sha256Builder>)
    ensures
        queue_contents(fresh).dom().is_empty(),
        queue_contents(fresh).dom().finite(),
{
    PriorityQueue::with_capacity_and_default_hasher(20)
}

/// Puts task `item` in the queue with rank `priority`, replacing the rank it had
/// if it was there, and returns that old rank: `PriorityQueue::push`. A queue
/// holds finitely many items, before and after.
#[verifier::external_body]
fn ready_queue_push(q: &mut PriorityQueue<usize, u64, Sha256Builder>, item: usize, priority: u64) -> (replaced: Option<u64>)
    ensures
        queue_contents(*old(q)).dom().finite(),
        queue_contents(*final(q)).dom().finite(),
        queue_contents(*final(q)) == queue_contents(*old(q)).insert(item, priority),
        replaced == (if queue_contents(*old(q)).contains_key(item) {
            Some(queue_contents(*old(q))[item])
        } else {
            None
        }),
{
    q.push(item, priority)
}

/// Takes the task with the greatest rank out of the queue, with its rank, or
/// `None` when the queue is empty: `PriorityQueue::pop`. Among tasks of equal
/// rank, which one comes out is not stated here. A queue holds finitely many
/// items, before and after.
#[verifier::external_body]
fn ready_queue_pop(q: &mut PriorityQueue<usize, u64, Sha256Builder>) -> (popped: Option<(usize, u64)>)
    ensures
        queue_contents(*old(q)).dom().finite(),
        queue_contents(*final(q)).dom().finite(),
        match popped {
            Some((item, priority)) => {
                &&& queue_contents(*old(q)).contains_key(item)
                &&& queue_contents(*old(q))[item] == priority
                &&& forall|k: usize| #[trigger] queue_contents(*old(q)).contains_key(k) ==> queue_contents(*old(q))[k] <= priority
                &&& queue_contents(*final(q)) == queue_contents(*old(q)).remove(item)
            },
            None => {
                &&& queue_contents(*old(q)).dom().is_empty()
                &&& queue_contents(*final(q)) == queue_contents(*old(q))
            },
        },
{
    q.pop()
}

/// The place of a task with pass `pass` in the ready queue, whose greatest
/// comes out first: the smaller the pass, the greater the rank.
pub open spec fn rank(pass: u64) -> u64 {
    (u64::MAX - pass) as u64
}

/// Of two distinct passes at most `STRIDE_LIMIT` apart, the smaller compares
/// greater, the two comparisons disagree, and the greater is the one of greater
/// rank: within that distance the pass order is the order of the ready queue.
pub proof fn lemma_stride_order_near(a: u64, b: u64)
    requires
        a != b,
        a >= b ==> a - b <= STRIDE_LIMIT,
        b > a ==> b - a <= STRIDE_LIMIT,
    ensures
        (stride_order(a, b) == Ordering::Greater) <==> a < b,
        (stride_order(a, b) == Ordering::Greater) <==> (stride_order(b, a) == Ordering::Less),
        (stride_order(a, b) == Ordering::Greater) <==> rank(a) > rank(b),
{
}

/// Whether every pass of `r` lies from `lo` to `lo + STRIDE_LIMIT`, so that any
/// two of them are at most `STRIDE_LIMIT` apart.
pub open spec fn passes_within(r: Map<usize, Stride>, lo: u64) -> bool {
    forall|t: usize| #[trigger] r.contains_key(t) ==> lo <= r[t].0 && r[t].0 <= lo + STRIDE_LIMIT
}

/// Whether any two passes of `r` are at most `STRIDE_LIMIT` apart.
pub open spec fn passes_close(r: Map<usize, Stride>) -> bool {
    forall|t: usize, u: usize| #[trigger] r.contains_key(t) && #[trigger] r.contains_key(u) && r[u].0 <= r[t].0
        ==> r[t].0 - r[u].0 <= STRIDE_LIMIT
}

/// Scheduling keeps the passes close: when the task with the smallest pass is
/// fetched and added back with a priority of at least 2 (so a stride of at most
/// `STRIDE_LIMIT`) and its pass does not wrap, every pass lies within
/// `STRIDE_LIMIT` above that task's old pass.
pub proof fn lemma_stride_step_keeps_close(r: Map<usize, Stride>, lo: u64, t: usize, priority: usize)
    requires
        passes_within(r, lo),
        r.contains_key(t),
        forall|u: usize| #[trigger] r.contains_key(u) ==> r[t].0 <= r[u].0,
        priority >= 2,
        r[t].0 + BIG_STRIDE / (priority as u64) <= u64::MAX,
    ensures
        passes_within(r.remove(t).insert(t, Stride((r[t].0 + BIG_STRIDE / (priority as u64)) as u64)), r[t].0),
{
    let p = priority as u64;
    assert(BIG_STRIDE / p <= STRIDE_LIMIT) by (nonlinear_arith)
        requires
            p >= 2,
    {
        assert(BIG_STRIDE / p <= BIG_STRIDE / 2) by {
            vstd::arithmetic::div_mod::lemma_div_is_ordered_by_denominator(BIG_STRIDE as int, 2, p as int);
        }
    }
}

/// The ready queue of a stride scheduler, holding task ids ranked by their passes.
pub struct TaskManager {
    ready_queue: PriorityQueue<usize, u64, Sha256Builder>,
}

impl TaskManager {
    /// The tasks waiting, by id, with their passes.
    pub closed spec fn ready(&self) -> Map<usize, Stride> {
        queue_contents(self.ready_queue).map_values(|r: u64| Stride((u64::MAX - r) as u64))
    }

    /// An empty ready queue.
    pub fn new() -> (r: TaskManager)
        ensures
            r.ready().dom().is_empty(),
            r.ready().dom().finite(),
    {
        let r = TaskManager { ready_queue: ready_queue_new() };
        assert(r.ready().dom() =~= queue_contents(r.ready_queue).dom());
        r
    }

    /// Puts task `task` back in the ready queue after adding its stride for
    /// `priority` to its pass `stride`.
    pub fn add(&mut self, task: usize, stride: &mut Stride, priority: usize)
        requires
            priority > 0,
        ensures
            final(stride).0 == (old(stride).0 + BIG_STRIDE / (priority as u64)) % 0x1_0000_0000_0000_0000,
            final(self).ready() == old(self).ready().insert(task, *final(stride)),
            old(self).ready().dom().finite(),
            final(self).ready().dom().finite(),
    {
        stride.update(priority);
        let _ = ready_queue_push(&mut self.ready_queue, task, u64::MAX - stride.0);
        proof {
            assert(self.ready() =~= old(self).ready().insert(task, *stride));
            assert(old(self).ready().dom() =~= queue_contents(old(self).ready_queue).dom());
            assert(self.ready().dom() =~= queue_contents(self.ready_queue).dom());
        }
    }

    /// Takes the task with the smallest pass out of the ready queue, or `None`
    /// when none is waiting. While the passes waiting are within `STRIDE_LIMIT`
    /// of each other, as scheduling keeps them, that task's pass compares
    /// greater than every other distinct pass, so it is the task the pass order
    /// runs first. Passes farther apart are not compared by the pass order: the
    /// smallest still comes out, where the pass order would take the larger one
    /// for a pass that wrapped around.
    pub fn fetch(&mut self) -> (r: Option<usize>)
        ensures
            old(self).ready().dom().finite(),
            final(self).ready().dom().finite(),
            match r {
                Some(task) => {
                    &&& old(self).ready().contains_key(task)
                    &&& forall|t: usize| #[trigger] old(self).ready().contains_key(t) ==> old(self).ready()[task].0 <= old(self).ready()[t].0
                    &&& passes_close(old(self).ready()) ==> forall|t: usize| #[trigger] old(self).ready().contains_key(t)
                        && old(self).ready()[t].0 != old(self).ready()[task].0
                        ==> stride_order(old(self).ready()[task].0, old(self).ready()[t].0) == Ordering::Greater
                    &&& final(self).ready() == old(self).ready().remove(task)
                },
                None => {
                    &&& old(self).ready().dom().is_empty()
                    &&& final(self).ready() == old(self).ready()
                },
            },
    {
        if let Some((tcb, _)) = ready_queue_pop(&mut self.ready_queue) {
            proof {
                assert(self.ready() =~= old(self).ready().remove(tcb));
                assert forall|t: usize| #[trigger] old(self).ready().contains_key(t) implies old(self).ready()[tcb].0 <= old(self).ready()[t].0 by {
                    assert(queue_contents(old(self).ready_queue).contains_key(t));
                }
                if passes_close(old(self).ready()) {
                    assert forall|t: usize| #[trigger] old(self).ready().contains_key(t)
                        && old(self).ready()[t].0 != old(self).ready()[tcb].0
                        implies stride_order(old(self).ready()[tcb].0, old(self).ready()[t].0) == Ordering::Greater by {
                        assert(old(self).ready().contains_key(tcb));
                        assert(old(self).ready()[tcb].0 <= old(self).ready()[t].0);
                    }
                }
                assert(old(self).ready().dom() =~= queue_contents(old(self).ready_queue).dom());
                assert(self.ready().dom() =~= queue_contents(self.ready_queue).dom());
            }
            Some(tcb)
        } else {
            proof {
                assert(self.ready() =~= old(self).ready());
                assert(old(self).ready().dom() =~= queue_contents(old(self).ready_queue).dom());
            }
            None
        }
    }
}

} // verus!
