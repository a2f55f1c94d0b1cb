//! A stack allocator of physical frames, and the frames it hands out.
use vstd::prelude::*;
use crate::config::PAGE_SIZE;
use crate::mm::address::PhysPageNum;

verus! {

/// Why a mapping could not be made.
#[derive(Copy, Clone, Debug, PartialEq, Eq, Structural)]
pub enum MemoryError {
    /// No free physical frame was left.
    FrameAllocate,
}

/// What a frame holds: its number and the bytes of its page.
pub struct FrameView {
    pub ppn: usize,
    pub data: Seq<u8>,
}

/// A zero-filled page.
pub open spec fn zero_page() -> Seq<u8> {
    Seq::new(PAGE_SIZE as nat, |i: int| 0u8)
}

/// `src` written over the start of `page`.
pub open spec fn write_prefix(page: Seq<u8>, src: Seq<u8>) -> Seq<u8> {
    src + page.skip(src.len() as int)
}

/// A physical frame owned by whoever holds this value, with the bytes of its page.
pub struct FrameTracker {
    pub ppn: PhysPageNum,
    data: Vec<u8>,
}

impl View for FrameTracker {
    type V = FrameView;

    closed spec fn view(&self) -> FrameView {
        FrameView { ppn: self.ppn.0, data: self.data@ }
    }
}

impl FrameTracker {
    /// Takes frame `ppn` and clears its page.
    pub fn new(ppn: PhysPageNum) -> (r: FrameTracker)
        ensures
            r@.ppn == ppn.0,
            r@.data == zero_page(),
    {
        let mut data: Vec<u8> = Vec::new();
        let mut i: usize = 0;
        while i < PAGE_SIZE
            invariant
                i <= PAGE_SIZE,
                data@ == Seq::new(i as nat, |k: int| 0u8),
            decreases PAGE_SIZE - i,
        {
            data.push(0u8);
            i = i + 1;
            assert(data@ =~= Seq::new(i as nat, |k: int| 0u8));
        }
        FrameTracker { ppn, data }
    }

    /// The frame's physical page number.
    pub fn ppn(&self) -> (r: PhysPageNum)
        ensures
            r.0 == self@.ppn,
    {
        self.ppn
    }

    /// The bytes of the page.
    pub fn get_bytes_array(&self) -> (r: &[u8])
        ensures
            r@ == self@.data,
    {
        self.data.as_slice()
    }

    /// Writes `src` over the start of the page.
    pub fn write_prefix(&mut self, src: &[u8])
        requires
            src@.len() <= old(self)@.data.len(),
        ensures
            final(self)@.ppn == old(self)@.ppn,
            final(self)@.data == write_prefix(old(self)@.data, src@),
    {
        let ghost old_data = self.data@;
        let mut i: usize = 0;
        while i < src.len()
            invariant
                i <= src@.len(),
                self.ppn == old(self).ppn,
                src@.len() <= old_data.len(),
                self.data@.len() == old_data.len(),
                forall|k: int| 0 <= k < i ==> self.data@[k] == src@[k],
                forall|k: int| i <= k < old_data.len() ==> self.data@[k] == old_data[k],
            decreases src@.len() - i,
        {
            self.data.set(i, src[i]);
            i = i + 1;
        }
        assert(self.data@ =~= write_prefix(old_data, src@));
    }

    /// Makes the page a copy of the page of `other`.
    pub fn copy_from(&mut self, other: &FrameTracker)
        ensures
            final(self)@.ppn == old(self)@.ppn,
            final(self)@.data == other@.data,
    {
        let mut data: Vec<u8> = Vec::new();
        let mut i: usize = 0;
        while i < other.data.len()
            invariant
                i <= other.data@.len(),
                data@ == other.data@.subrange(0, i as int),
            decreases other.data@.len() - i,
        {
            data.push(other.data[i]);
            i = i + 1;
            assert(data@ =~= other.data@.subrange(0, i as int));
        }
        assert(data@ =~= other.data@);
        self.data = data;
    }
}

/// What the allocator holds: the next never-used frame, the end of the
/// frames it manages, and the stack of frames handed back.
pub struct AllocState {
    pub current: nat,
    pub end: nat,
    pub recycled: Seq<usize>,
}

/// The frame the next allocation hands out, if any.
pub open spec fn alloc_next(s: AllocState) -> Option<usize> {
    if s.recycled.len() > 0 {
        Some(s.recycled.last())
    } else if s.current < s.end {
        Some(s.current as usize)
    } else {
        None
    }
}

/// The allocator after one allocation.
pub open spec fn alloc_step(s: AllocState) -> AllocState {
    if s.recycled.len() > 0 {
        AllocState { recycled: s.recycled.drop_last(), ..s }
    } else if s.current < s.end {
        AllocState { current: s.current + 1, ..s }
    } else {
        s
    }
}

/// The allocator after `k` allocations.
pub open spec fn allocs(s: AllocState, k: nat) -> AllocState
    decreases k,
{
    if k == 0 {
        s
    } else {
        alloc_step(allocs(s, (k - 1) as nat))
    }
}

/// The frame that allocation number `i` (from zero) hands out.
pub open spec fn nth_frame(s: AllocState, i: nat) -> usize {
    alloc_next(allocs(s, i)).unwrap()
}

/// How many frames can still be handed out.
pub open spec fn available(s: AllocState) -> int {
    s.recycled.len() + (s.end - s.current)
}

/// Whether frame `ppn` is handed out at present.
pub open spec fn is_allocated(s: AllocState, ppn: usize) -> bool {
    ppn < s.current && !s.recycled.contains(ppn)
}

/// The allocator after frame `ppn` is handed back; a frame that is not handed
/// out at present leaves it as it is.
pub open spec fn dealloc_step(s: AllocState, ppn: usize) -> AllocState {
    if is_allocated(s, ppn) {
        AllocState { recycled: s.recycled.push(ppn), ..s }
    } else {
        s
    }
}

/// The allocator after the frames of `ppns` are handed back in order.
pub open spec fn deallocs(s: AllocState, ppns: Seq<usize>) -> AllocState
    decreases ppns.len(),
{
    if ppns.len() == 0 {
        s
    } else {
        dealloc_step(deallocs(s, ppns.drop_last()), ppns.last())
    }
}

/// Each allocation takes exactly one frame while frames are left.
pub proof fn lemma_allocs_available(s: AllocState, k: nat)
    requires
        s.current <= s.end,
        k <= available(s),
    ensures
        available(allocs(s, k)) == available(s) - k,
        allocs(s, k).current <= allocs(s, k).end,
        allocs(s, k).end == s.end,
    decreases k,
{
    if k > 0 {
        lemma_allocs_available(s, (k - 1) as nat);
    }
}

/// Whether the frames handed back are distinct and were all handed out before:
/// each lies below the next never-used frame.
pub open spec fn recycled_ok(s: AllocState) -> bool {
    &&& s.recycled.no_duplicates()
    &&& forall|i: int| 0 <= i < s.recycled.len() ==> #[trigger] s.recycled[i] < s.current
}

/// Allocation number `i` takes the frames handed back from the last one back,
/// then the never-used frames in increasing order.
proof fn lemma_nth_frame(s: AllocState, i: nat)
    requires
        s.current <= s.end,
        i < available(s),
    ensures
        nth_frame(s, i) == (if i < s.recycled.len() {
            s.recycled[s.recycled.len() - 1 - i]
        } else {
            (s.current + (i - s.recycled.len())) as usize
        }),
        allocs(s, i).end == s.end,
        i <= s.recycled.len() ==> allocs(s, i).recycled == s.recycled.subrange(0, s.recycled.len() - i)
            && allocs(s, i).current == s.current,
        i >= s.recycled.len() ==> allocs(s, i).recycled.len() == 0 && allocs(s, i).current == s.current + (i - s.recycled.len()),
    decreases i,
{
    if i > 0 {
        lemma_nth_frame(s, (i - 1) as nat);
        let p = allocs(s, (i - 1) as nat);
        if i - 1 < s.recycled.len() {
            assert(p.recycled.drop_last() =~= s.recycled.subrange(0, s.recycled.len() - i));
        }
    }
}

/// The allocator never hands out a frame twice: from a consistent state, the
/// frames of the next `available` allocations are pairwise distinct, and none of
/// them is handed out at present.
pub proof fn lemma_frames_distinct(s: AllocState, i: nat, j: nat)
    requires
        s.current <= s.end <= usize::MAX,
        recycled_ok(s),
        i < j < available(s),
    ensures
        nth_frame(s, i) != nth_frame(s, j),
        !is_allocated(s, nth_frame(s, i)),
{
    lemma_nth_frame(s, i);
    lemma_nth_frame(s, j);
    let n = s.recycled.len();
    if i < n {
        assert(s.recycled.contains(s.recycled[n - 1 - i]));
        if j < n {
            assert(s.recycled[n - 1 - i] != s.recycled[n - 1 - j]);
        } else {
            assert(s.recycled[n - 1 - i] < s.current);
        }
    }
}

/// Allocation number `i` from `j` allocations on is allocation number `j + i`.
pub proof fn lemma_nth_frame_after(s: AllocState, j: nat, i: nat)
    ensures
        nth_frame(allocs(s, j), i) == nth_frame(s, j + i),
{
    lemma_allocs_add(s, j, i);
}

/// `k` allocations after `j` allocations are `j + k` allocations.
pub proof fn lemma_allocs_add(s: AllocState, j: nat, k: nat)
    ensures
        allocs(allocs(s, j), k) == allocs(s, j + k),
    decreases k,
{
    if k > 0 {
        lemma_allocs_add(s, j, (k - 1) as nat);
    }
}

/// None of the frames of the next `available` allocations is handed out at present.
pub proof fn lemma_nth_frame_free(s: AllocState, i: nat)
    requires
        s.current <= s.end <= usize::MAX,
        recycled_ok(s),
        i < available(s),
    ensures
        !is_allocated(s, nth_frame(s, i)),
{
    lemma_nth_frame(s, i);
    let n = s.recycled.len();
    if i < n {
        assert(s.recycled.contains(s.recycled[n - 1 - i]));
    }
}

/// A stack allocator of physical frames: frames handed back are reused first,
/// then never-used frames are taken in increasing order.
pub struct FrameAllocator {
    current: usize,
    end: usize,
    recycled: Vec<usize>,
}

impl View for FrameAllocator {
    type V = AllocState;

    closed spec fn view(&self) -> AllocState {
        AllocState { current: self.current as nat, end: self.end as nat, recycled: self.recycled@ }
    }
}

impl FrameAllocator {
    /// The allocator is consistent: the next never-used frame is within its
    /// range, and the frames handed back are distinct and were handed out.
    pub open spec fn wf(&self) -> bool {
        &&& self@.current <= self@.end <= usize::MAX
        &&& recycled_ok(self@)
    }

    /// An allocator of the frames `[start, end)`.
    pub fn new(start: PhysPageNum, end: PhysPageNum) -> (r: FrameAllocator)
        requires
            start.0 <= end.0,
        ensures
            r.wf(),
            r@.current == start.0,
            r@.end == end.0,
            r@.recycled.len() == 0,
    {
        FrameAllocator { current: start.0, end: end.0, recycled: Vec::new() }
    }

    /// How many frames can still be handed out.
    pub fn available(&self) -> (r: u128)
        requires
            self.wf(),
        ensures
            r == available(self@),
    {
        self.recycled.len() as u128 + (self.end - self.current) as u128
    }

    /// Hands out a frame with a cleared page, or `None` when no frame is left.
    pub fn frame_alloc(&mut self) -> (r: Option<FrameTracker>)
        requires
            old(self).wf(),
        ensures
            final(self).wf(),
            final(self)@ == alloc_step(old(self)@),
            match r {
                Some(f) => alloc_next(old(self)@) == Some(f@.ppn) && f@.data == zero_page(),
                None => alloc_next(old(self)@) is None,
            },
    {
        if self.recycled.len() > 0 {
            let ppn = self.recycled.pop().unwrap();
            Some(FrameTracker::new(PhysPageNum(ppn)))
        } else if self.current < self.end {
            let ppn = self.current;
            self.current = self.current + 1;
            Some(FrameTracker::new(PhysPageNum(ppn)))
        } else {
            None
        }
    }

    /// Hands frame `ppn` back; a frame that is not handed out at present is ignored.
    pub fn frame_dealloc(&mut self, ppn: PhysPageNum)
        requires
            old(self).wf(),
        ensures
            final(self).wf(),
            final(self)@ == dealloc_step(old(self)@, ppn.0),
    {
        if ppn.0 >= self.current {
            return ;
        }
        let mut i: usize = 0;
        while i < self.recycled.len()
            invariant
                i <= self.recycled@.len(),
                self@ == old(self)@,
                self.wf(),
                ppn.0 < self@.current,
                forall|k: int| 0 <= k < i ==> self.recycled@[k] != ppn.0,
            decreases self.recycled@.len() - i,
        {
            if self.recycled[i] == ppn.0 {
                return ;
            }
            i = i + 1;
        }
        self.recycled.push(ppn.0);
    }
}

} // verus!
