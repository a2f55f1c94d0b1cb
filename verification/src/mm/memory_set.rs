//! Map areas and address spaces.
use vstd::prelude::*;
use std::collections::BTreeMap;
use crate::config::PAGE_SIZE;
use crate::mm::address::{VirtAddr, VirtPageNum, VPNRange, floor_spec, ceil_spec};
use crate::mm::frame_allocator::{
    FrameAllocator, FrameTracker, FrameView, AllocState, MemoryError, alloc_next, alloc_step,
    allocs, nth_frame, available, dealloc_step, deallocs, zero_page, write_prefix,
    lemma_allocs_available, lemma_allocs_add, lemma_nth_frame_after, lemma_nth_frame_free, is_allocated,
    recycled_ok, lemma_frames_distinct,
};
use crate::mm::page_table::{PageTable, PageTableEntry, PTEFlags, mapped_entry, PTE_R, PTE_W, PTE_X, PTE_V};
use crate::mm::address::{PhysAddr, PhysPageNum, va_span, pa_span};
use crate::mm::area_map::{
    AreaMap, area_map_contents, area_map_new, area_map_insert, area_map_remove, area_map_get,
    area_map_intervals, area_map_all_intervals, key_lt, sorted_keys, overlaps,
    enumerates, enumerates_all, lemma_sorted_unique,
};
use crate::config::{MEMORY_END, TRAMPOLINE, TRAP_CONTEXT_BASE, USER_STACK_SIZE};

verus! {

broadcast use vstd::std_specs::btree::group_btree_axioms;

/// How the pages of an area are backed.
#[derive(Copy, Clone, Debug, PartialEq, Eq, Structural)]
pub enum MapType {
    /// Each virtual page maps the physical page of the same number.
    Identical,
    /// Each virtual page gets a frame of its own.
    Framed,
}

/// Readable.
pub const MAP_R: u8 = 2;

/// Writable.
pub const MAP_W: u8 = 4;

/// Executable.
pub const MAP_X: u8 = 8;

/// Accessible in user mode.
pub const MAP_U: u8 = 16;

/// Access permission of an area, with the bits of a page table entry: `R W X U`.
#[derive(Copy, Clone, Debug, PartialEq, Eq, Structural)]
pub struct MapPermission {
    pub bits: u8,
}

impl MapPermission {
    /// The permission with the bits of `bits` that name a flag (`R W X U`); the others are dropped.
    pub fn from_bits_truncate(bits: u8) -> (r: MapPermission)
        ensures
            r.bits == bits & (MAP_R | MAP_W | MAP_X | MAP_U),
    {
        MapPermission { bits: bits & (MAP_R | MAP_W | MAP_X | MAP_U) }
    }

    /// The union of two permissions.
    pub fn union(self, other: MapPermission) -> (r: MapPermission)
        ensures
            r.bits == self.bits | other.bits,
    {
        MapPermission { bits: self.bits | other.bits }
    }

    /// Whether every bit of `other` is set here.
    pub fn contains(self, other: MapPermission) -> (r: bool)
        ensures
            r == (self.bits & other.bits == other.bits),
    {
        self.bits & other.bits == other.bits
    }
}

/// The permission that a user's `R W X` bits (bit 0 for R) give: shifted one bit up.
pub open spec fn perm_from_spec(value: u8) -> u8 {
    ((value as int * 2) % 256) as u8
}

impl From<u8> for MapPermission {
    fn from(value: u8) -> (r: MapPermission) {
        assert(value << 1u8 == perm_from_spec(value)) by (bit_vector);
        MapPermission { bits: value << 1u8 }
    }
}

impl vstd::std_specs::convert::FromSpecImpl<u8> for MapPermission {
    open spec fn obeys_from_spec() -> bool {
        true
    }

    open spec fn from_spec(v: u8) -> MapPermission {
        MapPermission { bits: perm_from_spec(v) }
    }
}

/// What an area is: its page range, its frames by page, how it is backed and its permission.
pub struct MapAreaView {
    pub start: usize,
    pub end: usize,
    pub frames: Map<usize, FrameView>,
    pub map_type: MapType,
    pub perm: u8,
}

/// The frames of `m` for the pages in `[a, b)`.
pub open spec fn frames_in(m: Map<usize, FrameView>, a: int, b: int) -> Map<usize, FrameView> {
    m.restrict(Set::new(|v: usize| a <= v < b))
}

/// The physical page that page `v` of an area starting at `start` is mapped to,
/// when the allocator was at `s` as the mapping began.
pub open spec fn page_ppn(t: MapType, s: AllocState, start: usize, v: usize) -> usize {
    match t {
        MapType::Identical => v,
        MapType::Framed => nth_frame(s, (v - start) as nat),
    }
}

/// How many of `n` pages get mapped: all of them for an identical area, as many
/// as there are free frames for a framed one.
pub open spec fn mapped_count(t: MapType, s: AllocState, n: int) -> int {
    match t {
        MapType::Identical => n,
        MapType::Framed => if n <= available(s) { n } else { available(s) },
    }
}

/// The page table after the pages `[start, start + k)` were mapped.
pub open spec fn pt_after_map(
    pt: Map<usize, PageTableEntry>,
    t: MapType,
    s: AllocState,
    start: usize,
    k: int,
    perm: u8,
) -> Map<usize, PageTableEntry> {
    pt.union_prefer_right(
        Map::new(
            |v: usize| start <= v < start + k,
            |v: usize| mapped_entry(page_ppn(t, s, start, v), perm),
        ),
    )
}

/// The frames of an area after the pages `[start, start + k)` were mapped.
pub open spec fn frames_after_map(
    f: Map<usize, FrameView>,
    t: MapType,
    s: AllocState,
    start: usize,
    k: int,
) -> Map<usize, FrameView> {
    match t {
        MapType::Identical => f,
        MapType::Framed => f.union_prefer_right(
            Map::new(
                |v: usize| start <= v < start + k,
                |v: usize| FrameView { ppn: nth_frame(s, (v - start) as nat), data: zero_page() },
            ),
        ),
    }
}

/// The allocator after the pages of a mapping of `k` pages took their frames.
pub open spec fn frames_state_after_map(t: MapType, s: AllocState, k: int) -> AllocState {
    match t {
        MapType::Identical => s,
        MapType::Framed => allocs(s, k as nat),
    }
}

/// Cutting an area at pages `l` and `r` loses no frame and shares none: the
/// frames of the part before `l`, the part from `l` to `r` and the part from `r`
/// on are disjoint and together are the frames of the area.
pub proof fn lemma_split_partitions(a: MapAreaView, l: usize, r: usize)
    requires
        a.start <= l <= r <= a.end,
        forall|v: usize| #[trigger] a.frames.contains_key(v) ==> a.start <= v < a.end,
    ensures
        frames_in(a.frames, a.start as int, l as int).union_prefer_right(frames_in(a.frames, l as int, r as int))
            .union_prefer_right(frames_in(a.frames, r as int, a.end as int)) == a.frames,
        frames_in(a.frames, a.start as int, l as int).dom().disjoint(frames_in(a.frames, l as int, r as int).dom()),
        frames_in(a.frames, a.start as int, l as int).dom().disjoint(frames_in(a.frames, r as int, a.end as int).dom()),
        frames_in(a.frames, l as int, r as int).dom().disjoint(frames_in(a.frames, r as int, a.end as int).dom()),
{
    assert(frames_in(a.frames, a.start as int, l as int).union_prefer_right(frames_in(a.frames, l as int, r as int))
        .union_prefer_right(frames_in(a.frames, r as int, a.end as int)) =~= a.frames);
}

/// The frames, in page order, that an area holds for the pages `[a, a + i)`.
pub open spec fn range_ppns(m: Map<usize, FrameView>, a: int, i: nat) -> Seq<usize>
    decreases i,
{
    if i == 0 {
        Seq::empty()
    } else {
        let prev = range_ppns(m, a, (i - 1) as nat);
        let v = a + i - 1;
        if 0 <= v <= usize::MAX && m.contains_key(v as usize) {
            prev.push(m[v as usize].ppn)
        } else {
            prev
        }
    }
}

/// Whether no page of `[a, b)` is mapped in `pt`.
pub open spec fn unmapped_range(pt: Map<usize, PageTableEntry>, a: int, b: int) -> bool {
    forall|v: usize| a <= v < b ==> !#[trigger] pt.contains_key(v)
}

/// Whether every page of `[a, b)` is mapped in `pt`.
pub open spec fn mapped_range(pt: Map<usize, PageTableEntry>, a: int, b: int) -> bool {
    forall|v: usize| a <= v < b ==> #[trigger] pt.contains_key(v)
}

/// Whether `f` holds no frame for a page of `[a, b)`.
pub open spec fn no_frames_in(f: Map<usize, FrameView>, a: int, b: int) -> bool {
    forall|v: usize| a <= v < b ==> !#[trigger] f.contains_key(v)
}

/// A contiguous piece of virtual memory mapped with one type and one permission.
pub struct MapArea {
    vpn_range: VPNRange,
    data_frames: BTreeMap<usize, FrameTracker>,
    map_type: MapType,
    map_perm: MapPermission,
}

impl View for MapArea {
    type V = MapAreaView;

    closed spec fn view(&self) -> MapAreaView {
        MapAreaView {
            start: self.vpn_range.start(),
            end: self.vpn_range.end(),
            frames: self.data_frames@.map_values(|f: FrameTracker| f@),
            map_type: self.map_type,
            perm: self.map_perm.bits,
        }
    }
}

impl MapArea {
    /// The area is consistent: its range is ordered and it holds frames only for its own pages.
    pub open spec fn wf(&self) -> bool {
        &&& self@.start <= self@.end
        &&& forall|v: usize| #[trigger]
            self@.frames.contains_key(v) ==> self@.start <= v < self@.end && self@.frames[v].data.len()
                == PAGE_SIZE
        &&& self@.map_type == MapType::Identical ==> self@.frames.dom().is_empty()
    }

    proof fn lemma_view_wf(&self)
        ensures
            self.vpn_range.wf() <==> self@.start <= self@.end,
            forall|v: usize| #[trigger]
                self@.frames.contains_key(v) <==> self.data_frames@.contains_key(v),
            forall|v: usize| #[trigger]
                self.data_frames@.contains_key(v) ==> self@.frames[v] == self.data_frames@[v]@,
    {
    }

    /// The area of the pages from `start_va` rounded down to `end_va` rounded up, with no frames yet.
    pub fn new(start_va: VirtAddr, end_va: VirtAddr, map_type: MapType, map_perm: MapPermission) -> (r: MapArea)
        requires
            floor_spec(start_va.0 as int) <= ceil_spec(end_va.0 as int),
        ensures
            r.wf(),
            r@.start == floor_spec(start_va.0 as int),
            r@.end == ceil_spec(end_va.0 as int),
            r@.frames.dom().is_empty(),
            r@.map_type == map_type,
            r@.perm == map_perm.bits,
    {
        let start_vpn = start_va.floor();
        let end_vpn = end_va.ceil();
        let r = MapArea {
            vpn_range: VPNRange::new(start_vpn, end_vpn),
            data_frames: BTreeMap::new(),
            map_type,
            map_perm,
        };
        assert(r@.frames.dom() =~= Set::empty());
        r
    }

    /// An area over the same pages, type and permission as `another`, with no frames yet.
    pub fn from_another(another: &MapArea) -> (r: MapArea)
        requires
            another.wf(),
        ensures
            r.wf(),
            r@.start == another@.start,
            r@.end == another@.end,
            r@.frames.dom().is_empty(),
            r@.map_type == another@.map_type,
            r@.perm == another@.perm,
    {
        proof {
            another.lemma_view_wf();
        }
        let r = MapArea {
            vpn_range: VPNRange::new(another.vpn_range.get_start(), another.vpn_range.get_end()),
            data_frames: BTreeMap::new(),
            map_type: another.map_type,
            map_perm: another.map_perm,
        };
        assert(r@.frames.dom() =~= Set::empty());
        r
    }

    /// The page range of the area.
    pub fn vpn_range(&self) -> (r: VPNRange)
        ensures
            r.start() == self@.start,
            r.end() == self@.end,
    {
        self.vpn_range
    }

    /// How the area is backed.
    pub fn map_type(&self) -> (r: MapType)
        ensures
            r == self@.map_type,
    {
        self.map_type
    }

    /// The permission of the area.
    pub fn map_perm(&self) -> (r: MapPermission)
        ensures
            r.bits == self@.perm,
    {
        self.map_perm
    }

    /// The bytes of the frame that the area holds for page `vpn`, if it holds one.
    pub fn frame_bytes(&self, vpn: VirtPageNum) -> (r: Option<&[u8]>)
        ensures
            match r {
                Some(b) => self@.frames.contains_key(vpn.0) && b@ == self@.frames[vpn.0].data,
                None => !self@.frames.contains_key(vpn.0),
            },
    {
        match self.data_frames.get(&vpn.0) {
            Some(frame) => Some(frame.get_bytes_array()),
            None => None,
        }
    }
}


/// An available frame is what makes the next allocation succeed.
pub(crate) proof fn lemma_alloc_next_some(s: AllocState)
    requires
        s.current <= s.end,
    ensures
        alloc_next(s) is Some <==> available(s) > 0,
{
}

/// Handing back the frames of `q` and then `x` is handing back the frames of `q.push(x)`.
proof fn lemma_deallocs_push(s: AllocState, q: Seq<usize>, x: usize)
    ensures
        deallocs(s, q.push(x)) == dealloc_step(deallocs(s, q), x),
{
    assert(q.push(x).drop_last() =~= q);
}

impl MapArea {
    /// Maps page `vpn`: to the physical page of the same number for an identical
    /// area, to a newly allocated frame for a framed one.
    pub fn map_one(&mut self, page_table: &mut PageTable, frames: &mut FrameAllocator, vpn: VirtPageNum) -> (r: Result<(), MemoryError>)
        requires
            old(frames).wf(),
            !old(page_table)@.contains_key(vpn.0),
        ensures
            final(frames).wf(),
            final(page_table).root_ppn() == old(page_table).root_ppn(),
            final(self)@.start == old(self)@.start,
            final(self)@.end == old(self)@.end,
            final(self)@.map_type == old(self)@.map_type,
            final(self)@.perm == old(self)@.perm,
            old(self).wf() && old(self)@.start <= vpn.0 < old(self)@.end ==> final(self).wf(),
            old(self)@.map_type == MapType::Identical ==> {
                &&& r is Ok
                &&& final(page_table)@ == old(page_table)@.insert(vpn.0, mapped_entry(vpn.0, old(self)@.perm))
                &&& final(self)@.frames == old(self)@.frames
                &&& final(frames)@ == old(frames)@
            },
            old(self)@.map_type == MapType::Framed ==> match alloc_next(old(frames)@) {
                Some(p) => {
                    &&& r is Ok
                    &&& final(page_table)@ == old(page_table)@.insert(vpn.0, mapped_entry(p, old(self)@.perm))
                    &&& final(self)@.frames == old(self)@.frames.insert(vpn.0, FrameView { ppn: p, data: zero_page() })
                    &&& final(frames)@ == (if old(self)@.frames.contains_key(vpn.0) {
                        dealloc_step(alloc_step(old(frames)@), old(self)@.frames[vpn.0].ppn)
                    } else {
                        alloc_step(old(frames)@)
                    })
                },
                None => {
                    &&& r == Err::<(), MemoryError>(MemoryError::FrameAllocate)
                    &&& final(page_table)@ == old(page_table)@
                    &&& final(self)@.frames == old(self)@.frames
                    &&& final(frames)@ == old(frames)@
                },
            },
    {
        proof {
            self.lemma_view_wf();
        }
        let ppn = match self.map_type {
            MapType::Identical => crate::mm::address::PhysPageNum(vpn.0),
            MapType::Framed => {
                if let Some(frame) = frames.frame_alloc() {
                    let ppn = frame.ppn();
                    let ghost fv = frame@;
                    let replaced = self.data_frames.insert(vpn.0, frame);
                    if let Some(old_frame) = replaced {
                        frames.frame_dealloc(old_frame.ppn());
                    }
                    proof {
                        assert(self@.frames =~= old(self)@.frames.insert(vpn.0, fv));
                    }
                    ppn
                } else {
                    return Err(MemoryError::FrameAllocate);
                }
            },
        };
        let pte_flags = PTEFlags::from_bits(self.map_perm.bits).unwrap();
        page_table.map(vpn, ppn, pte_flags);
        Ok(())
    }

    /// Unmaps page `vpn`, handing back the frame the area holds for it.
    pub fn unmap_one(&mut self, page_table: &mut PageTable, frames: &mut FrameAllocator, vpn: VirtPageNum)
        requires
            old(frames).wf(),
            old(page_table)@.contains_key(vpn.0),
        ensures
            final(frames).wf(),
            final(page_table).root_ppn() == old(page_table).root_ppn(),
            final(page_table)@ == old(page_table)@.remove(vpn.0),
            final(self)@.start == old(self)@.start,
            final(self)@.end == old(self)@.end,
            final(self)@.map_type == old(self)@.map_type,
            final(self)@.perm == old(self)@.perm,
            old(self).wf() ==> final(self).wf(),
            old(self)@.map_type == MapType::Identical ==> {
                &&& final(self)@.frames == old(self)@.frames
                &&& final(frames)@ == old(frames)@
            },
            old(self)@.map_type == MapType::Framed ==> {
                &&& final(self)@.frames == old(self)@.frames.remove(vpn.0)
                &&& final(frames)@ == (if old(self)@.frames.contains_key(vpn.0) {
                    dealloc_step(old(frames)@, old(self)@.frames[vpn.0].ppn)
                } else {
                    old(frames)@
                })
            },
    {
        proof {
            self.lemma_view_wf();
        }
        if self.map_type == MapType::Framed {
            let removed = self.data_frames.remove(&vpn.0);
            if let Some(f) = removed {
                frames.frame_dealloc(f.ppn());
            }
            proof {
                assert(self@.frames =~= old(self)@.frames.remove(vpn.0));
            }
        }
        page_table.unmap(vpn);
    }

    /// Maps the pages `[a, b)` in order, stopping at the first that gets no frame.
    fn map_pages(&mut self, page_table: &mut PageTable, frames: &mut FrameAllocator, a: usize, b: usize) -> (r: Result<(), MemoryError>)
        requires
            old(self).wf(),
            old(self)@.start <= a <= b <= old(self)@.end,
            old(frames).wf(),
            unmapped_range(old(page_table)@, a as int, b as int),
            no_frames_in(old(self)@.frames, a as int, b as int),
        ensures
            ({
                let k = mapped_count(old(self)@.map_type, old(frames)@, b - a);
                &&& (r is Ok <==> k == b - a)
                &&& (r is Err ==> r == Err::<(), MemoryError>(MemoryError::FrameAllocate))
                &&& final(page_table)@ == pt_after_map(old(page_table)@, old(self)@.map_type, old(frames)@, a, k, old(self)@.perm)
                &&& final(frames)@ == frames_state_after_map(old(self)@.map_type, old(frames)@, k)
                &&& final(self)@.frames == frames_after_map(old(self)@.frames, old(self)@.map_type, old(frames)@, a, k)
            }),
            final(frames).wf(),
            final(self).wf(),
            final(page_table).root_ppn() == old(page_table).root_ppn(),
            final(self)@.start == old(self)@.start,
            final(self)@.end == old(self)@.end,
            final(self)@.map_type == old(self)@.map_type,
            final(self)@.perm == old(self)@.perm,
    {
        let ghost pt0 = page_table@;
        let ghost s0 = frames@;
        let ghost f0 = self@.frames;
        let ghost t = self@.map_type;
        let ghost perm = self@.perm;
        let mut v = a;
        proof {
            assert(pt_after_map(pt0, t, s0, a, 0, perm) =~= pt0);
            assert(frames_after_map(f0, t, s0, a, 0) =~= f0);
            assert(allocs(s0, 0) == s0);
        }
        while v < b
            invariant
                a <= v <= b,
                self.wf(),
                self@.start <= a,
                b <= self@.end,
                self@.start == old(self)@.start,
                self@.end == old(self)@.end,
                self@.map_type == t,
                self@.perm == perm,
                t == old(self)@.map_type,
                perm == old(self)@.perm,
                pt0 == old(page_table)@,
                s0 == old(frames)@,
                f0 == old(self)@.frames,
                s0.current <= s0.end,
                frames.wf(),
                page_table.root_ppn() == old(page_table).root_ppn(),
                unmapped_range(pt0, a as int, b as int),
                no_frames_in(f0, a as int, b as int),
                t == MapType::Framed ==> v - a <= available(s0),
                page_table@ == pt_after_map(pt0, t, s0, a, v - a, perm),
                frames@ == frames_state_after_map(t, s0, v - a),
                self@.frames == frames_after_map(f0, t, s0, a, v - a),
            decreases b - v,
        {
            let ghost i = (v - a) as nat;
            proof {
                assert(!page_table@.contains_key(v));
                if t == MapType::Framed {
                    lemma_allocs_available(s0, i);
                    assert(!self@.frames.contains_key(v));
                }
            }
            let res = self.map_one(page_table, frames, VirtPageNum(v));
            if res.is_err() {
                proof {
                    assert(t == MapType::Framed);
                    assert(available(s0) == i);
                }
                return Err(MemoryError::FrameAllocate);
            }
            proof {
                assert(allocs(s0, i + 1) == alloc_step(allocs(s0, i)));
                assert(pt_after_map(pt0, t, s0, a, v + 1 - a, perm) =~= pt_after_map(pt0, t, s0, a, v - a, perm).insert(v, mapped_entry(page_ppn(t, s0, a, v), perm)));
                assert(frames_after_map(f0, t, s0, a, v + 1 - a) =~= (match t {
                    MapType::Identical => frames_after_map(f0, t, s0, a, v - a),
                    MapType::Framed => frames_after_map(f0, t, s0, a, v - a).insert(v, FrameView { ppn: nth_frame(s0, i), data: zero_page() }),
                }));
            }
            v = v + 1;
        }
        Ok(())
    }

    /// Unmaps the pages `[a, b)` in order, handing back their frames.
    fn unmap_pages(&mut self, page_table: &mut PageTable, frames: &mut FrameAllocator, a: usize, b: usize)
        requires
            old(self).wf(),
            a <= b,
            old(frames).wf(),
            mapped_range(old(page_table)@, a as int, b as int),
        ensures
            final(page_table)@ == old(page_table)@.remove_keys(Set::new(|v: usize| a <= v < b)),
            old(self)@.map_type == MapType::Framed ==> {
                &&& final(self)@.frames == old(self)@.frames.remove_keys(Set::new(|v: usize| a <= v < b))
                &&& final(frames)@ == deallocs(old(frames)@, range_ppns(old(self)@.frames, a as int, (b - a) as nat))
            },
            old(self)@.map_type == MapType::Identical ==> {
                &&& final(self)@.frames == old(self)@.frames
                &&& final(frames)@ == old(frames)@
            },
            final(frames).wf(),
            final(self).wf(),
            final(page_table).root_ppn() == old(page_table).root_ppn(),
            final(self)@.start == old(self)@.start,
            final(self)@.end == old(self)@.end,
            final(self)@.map_type == old(self)@.map_type,
            final(self)@.perm == old(self)@.perm,
    {
        let ghost pt0 = page_table@;
        let ghost s0 = frames@;
        let ghost f0 = self@.frames;
        let ghost t = self@.map_type;
        let mut v = a;
        proof {
            assert(pt0.remove_keys(Set::new(|x: usize| a <= x < a)) =~= pt0);
            assert(f0.remove_keys(Set::new(|x: usize| a <= x < a)) =~= f0);
        }
        while v < b
            invariant
                a <= v <= b,
                self.wf(),
                self@.start == old(self)@.start,
                self@.end == old(self)@.end,
                self@.map_type == t,
                self@.perm == old(self)@.perm,
                t == old(self)@.map_type,
                pt0 == old(page_table)@,
                s0 == old(frames)@,
                f0 == old(self)@.frames,
                frames.wf(),
                page_table.root_ppn() == old(page_table).root_ppn(),
                mapped_range(pt0, a as int, b as int),
                page_table@ == pt0.remove_keys(Set::new(|x: usize| a <= x < v)),
                t == MapType::Framed ==> self@.frames == f0.remove_keys(Set::new(|x: usize| a <= x < v)),
                t == MapType::Framed ==> frames@ == deallocs(s0, range_ppns(f0, a as int, (v - a) as nat)),
                t == MapType::Identical ==> self@.frames == f0 && frames@ == s0,
            decreases b - v,
        {
            proof {
                assert(pt0.contains_key(v));
                assert(page_table@.contains_key(v));
            }
            let ghost fr = self@.frames;
            self.unmap_one(page_table, frames, VirtPageNum(v));
            proof {
                assert(page_table@ =~= pt0.remove_keys(Set::new(|x: usize| a <= x < v + 1)));
                if t == MapType::Framed {
                    assert(self@.frames =~= f0.remove_keys(Set::new(|x: usize| a <= x < v + 1)));
                    assert(fr.contains_key(v) == f0.contains_key(v));
                    if f0.contains_key(v) {
                        assert(fr[v] == f0[v]);
                        lemma_deallocs_push(s0, range_ppns(f0, a as int, (v - a) as nat), f0[v].ppn);
                    }
                }
            }
            v = v + 1;
        }
    }

    /// Maps every page of the area; stops at the first page that gets no frame,
    /// leaving the pages before it mapped.
    pub fn map(&mut self, page_table: &mut PageTable, frames: &mut FrameAllocator) -> (r: Result<(), MemoryError>)
        requires
            old(self).wf(),
            old(frames).wf(),
            unmapped_range(old(page_table)@, old(self)@.start as int, old(self)@.end as int),
            no_frames_in(old(self)@.frames, old(self)@.start as int, old(self)@.end as int),
        ensures
            ({
                let n = old(self)@.end - old(self)@.start;
                let k = mapped_count(old(self)@.map_type, old(frames)@, n);
                &&& (r is Ok <==> k == n)
                &&& (r is Err ==> r == Err::<(), MemoryError>(MemoryError::FrameAllocate))
                &&& final(page_table)@ == pt_after_map(old(page_table)@, old(self)@.map_type, old(frames)@, old(self)@.start, k, old(self)@.perm)
                &&& final(frames)@ == frames_state_after_map(old(self)@.map_type, old(frames)@, k)
                &&& final(self)@.frames == frames_after_map(old(self)@.frames, old(self)@.map_type, old(frames)@, old(self)@.start, k)
            }),
            final(frames).wf(),
            final(self).wf(),
            final(page_table).root_ppn() == old(page_table).root_ppn(),
            final(self)@.start == old(self)@.start,
            final(self)@.end == old(self)@.end,
            final(self)@.map_type == old(self)@.map_type,
            final(self)@.perm == old(self)@.perm,
    {
        let a = self.vpn_range.get_start().0;
        let b = self.vpn_range.get_end().0;
        self.map_pages(page_table, frames, a, b)
    }

    /// Unmaps every page of the area, handing back its frames.
    pub fn unmap(&mut self, page_table: &mut PageTable, frames: &mut FrameAllocator)
        requires
            old(self).wf(),
            old(frames).wf(),
            mapped_range(old(page_table)@, old(self)@.start as int, old(self)@.end as int),
        ensures
            final(page_table)@ == old(page_table)@.remove_keys(Set::new(|v: usize| old(self)@.start <= v < old(self)@.end)),
            old(self)@.map_type == MapType::Framed ==> {
                &&& final(self)@.frames == old(self)@.frames.remove_keys(Set::new(|v: usize| old(self)@.start <= v < old(self)@.end))
                &&& final(frames)@ == deallocs(old(frames)@, range_ppns(old(self)@.frames, old(self)@.start as int, (old(self)@.end - old(self)@.start) as nat))
            },
            old(self)@.map_type == MapType::Identical ==> {
                &&& final(self)@.frames == old(self)@.frames
                &&& final(frames)@ == old(frames)@
            },
            final(frames).wf(),
            final(self).wf(),
            final(page_table).root_ppn() == old(page_table).root_ppn(),
            final(self)@.start == old(self)@.start,
            final(self)@.end == old(self)@.end,
            final(self)@.map_type == old(self)@.map_type,
            final(self)@.perm == old(self)@.perm,
    {
        let a = self.vpn_range.get_start().0;
        let b = self.vpn_range.get_end().0;
        self.unmap_pages(page_table, frames, a, b);
    }
}


/// How many page-sized pieces `copy_data` writes for `len` bytes: at least one.
pub open spec fn chunk_count(len: int) -> int {
    if len == 0 {
        1
    } else {
        (len + PAGE_SIZE - 1) / PAGE_SIZE as int
    }
}

/// Piece `i` of `data`: the bytes of page `i` that `data` covers.
pub open spec fn chunk(data: Seq<u8>, i: int) -> Seq<u8> {
    let lo = i * PAGE_SIZE;
    let hi = if data.len() < (i + 1) * PAGE_SIZE { data.len() as int } else { (i + 1) * PAGE_SIZE };
    data.subrange(lo, hi)
}

/// The frames of an area starting at page `start` after `data` was copied into them,
/// page by page, each page getting its piece written over its start.
pub open spec fn frames_after_copy(f: Map<usize, FrameView>, start: int, data: Seq<u8>) -> Map<usize, FrameView> {
    Map::new(
        |v: usize| f.contains_key(v),
        |v: usize|
            if start <= v < start + chunk_count(data.len() as int) {
                FrameView { ppn: f[v].ppn, data: write_prefix(f[v].data, chunk(data, v - start)) }
            } else {
                f[v]
            },
    )
}

/// Whether every page from `start` that `copy_data` writes a piece of `len`
/// bytes through is mapped in `pt`.
pub open spec fn copy_pages_mapped(pt: Map<usize, PageTableEntry>, start: int, len: int) -> bool {
    &&& start + chunk_count(len) <= usize::MAX
    &&& forall|v: usize| start <= v < start + chunk_count(len) ==> #[trigger] pt.contains_key(v)
}

/// The frames `f` after piece `i` of `data` was written through `pt`: the frame
/// that page `start + i` is mapped to gets the piece over its start, wherever
/// `f` holds it.
pub open spec fn write_piece(f: Map<usize, FrameView>, pt: Map<usize, PageTableEntry>, start: int, data: Seq<u8>, i: int) -> Map<usize, FrameView> {
    let p = pt[(start + i) as usize].ppn.0;
    Map::new(
        |v: usize| f.contains_key(v),
        |v: usize| if f[v].ppn == p { FrameView { ppn: f[v].ppn, data: write_prefix(f[v].data, chunk(data, i)) } } else { f[v] },
    )
}

/// The frames `f` after the first `i` pieces of `data` were written, in order,
/// through `pt` to the frames that the pages from `start` are mapped to.
pub open spec fn copy_through(f: Map<usize, FrameView>, pt: Map<usize, PageTableEntry>, start: int, data: Seq<u8>, i: nat) -> Map<usize, FrameView>
    decreases i,
{
    if i == 0 {
        f
    } else {
        write_piece(copy_through(f, pt, start, data, (i - 1) as nat), pt, start, data, i - 1)
    }
}

/// The frames that mapping `n` pages from `start` takes are all different.
proof fn lemma_fresh_frames_distinct(s: AllocState, start: usize, n: int)
    requires
        s.current <= s.end <= usize::MAX,
        recycled_ok(s),
        0 <= n <= available(s),
    ensures
        ({
            let f = frames_after_map(Map::empty(), MapType::Framed, s, start, n);
            forall|u: usize, w: usize| #[trigger] f.contains_key(u) && #[trigger] f.contains_key(w) && f[u].ppn == f[w].ppn ==> u == w
        }),
{
    let f = frames_after_map(Map::empty(), MapType::Framed, s, start, n);
    assert forall|u: usize, w: usize| #[trigger] f.contains_key(u) && #[trigger] f.contains_key(w) && f[u].ppn == f[w].ppn implies u == w by {
        if u < w {
            lemma_frames_distinct(s, (u - start) as nat, (w - start) as nat);
        } else if w < u {
            lemma_frames_distinct(s, (w - start) as nat, (u - start) as nat);
        }
    }
}

/// Writing through the page table is writing each piece into the area's own
/// frame for its page, when each of those pages is mapped to the area's frame
/// for it and no two of the area's frames are the same.
proof fn lemma_copy_through_own(f: Map<usize, FrameView>, pt: Map<usize, PageTableEntry>, start: int, data: Seq<u8>, i: nat)
    requires
        forall|j: int| 0 <= j < i ==> {
            &&& #[trigger] f.contains_key((start + j) as usize)
            &&& start + j <= usize::MAX
            &&& pt[(start + j) as usize].ppn.0 == f[(start + j) as usize].ppn
        },
        0 <= start,
        forall|u: usize, w: usize| #[trigger] f.contains_key(u) && #[trigger] f.contains_key(w) && f[u].ppn == f[w].ppn ==> u == w,
    ensures
        copy_through(f, pt, start, data, i) == Map::new(
            |v: usize| f.contains_key(v),
            |v: usize| if start <= v < start + i { FrameView { ppn: f[v].ppn, data: write_prefix(f[v].data, chunk(data, v - start)) } } else { f[v] },
        ),
    decreases i,
{
    if i > 0 {
        lemma_copy_through_own(f, pt, start, data, (i - 1) as nat);
        let prev = copy_through(f, pt, start, data, (i - 1) as nat);
        let w = (start + i - 1) as usize;
        assert(f.contains_key(w));
        assert(copy_through(f, pt, start, data, i) =~= Map::new(
            |v: usize| f.contains_key(v),
            |v: usize| if start <= v < start + i { FrameView { ppn: f[v].ppn, data: write_prefix(f[v].data, chunk(data, v - start)) } } else { f[v] },
        )) by {
            assert forall|v: usize| #[trigger] f.contains_key(v) implies (prev[v].ppn == pt[w].ppn.0 <==> v == w) by {
                assert(prev[v].ppn == f[v].ppn);
            }
        }
    }
}

impl MapArea {
    /// Unmaps the pages from `new_end` to the end of the area, which then ends at `new_end`.
    pub fn shrink_to(&mut self, page_table: &mut PageTable, frames: &mut FrameAllocator, new_end: VirtPageNum)
        requires
            old(self).wf(),
            old(frames).wf(),
            old(self)@.start <= new_end.0 <= old(self)@.end,
            mapped_range(old(page_table)@, new_end.0 as int, old(self)@.end as int),
        ensures
            final(page_table)@ == old(page_table)@.remove_keys(Set::new(|v: usize| new_end.0 <= v < old(self)@.end)),
            old(self)@.map_type == MapType::Framed ==> {
                &&& final(self)@.frames == old(self)@.frames.remove_keys(Set::new(|v: usize| new_end.0 <= v < old(self)@.end))
                &&& final(frames)@ == deallocs(old(frames)@, range_ppns(old(self)@.frames, new_end.0 as int, (old(self)@.end - new_end.0) as nat))
            },
            old(self)@.map_type == MapType::Identical ==> {
                &&& final(self)@.frames == old(self)@.frames
                &&& final(frames)@ == old(frames)@
            },
            final(frames).wf(),
            final(self).wf(),
            final(page_table).root_ppn() == old(page_table).root_ppn(),
            final(self)@.start == old(self)@.start,
            final(self)@.end == new_end.0,
            final(self)@.map_type == old(self)@.map_type,
            final(self)@.perm == old(self)@.perm,
    {
        let end = self.vpn_range.get_end().0;
        self.unmap_pages(page_table, frames, new_end.0, end);
        self.vpn_range = VPNRange::new(self.vpn_range.get_start(), new_end);
    }

    /// Maps the pages from the end of the area up to `new_end`, which then ends
    /// there; a page that gets no frame is left unmapped.
    pub fn append_to(&mut self, page_table: &mut PageTable, frames: &mut FrameAllocator, new_end: VirtPageNum)
        requires
            old(self).wf(),
            old(frames).wf(),
            old(self)@.end <= new_end.0,
            unmapped_range(old(page_table)@, old(self)@.end as int, new_end.0 as int),
        ensures
            ({
                let k = mapped_count(old(self)@.map_type, old(frames)@, new_end.0 - old(self)@.end);
                &&& final(page_table)@ == pt_after_map(old(page_table)@, old(self)@.map_type, old(frames)@, old(self)@.end, k, old(self)@.perm)
                &&& final(frames)@ == frames_state_after_map(old(self)@.map_type, old(frames)@, k)
                &&& final(self)@.frames == frames_after_map(old(self)@.frames, old(self)@.map_type, old(frames)@, old(self)@.end, k)
            }),
            final(frames).wf(),
            final(self).wf(),
            final(page_table).root_ppn() == old(page_table).root_ppn(),
            final(self)@.start == old(self)@.start,
            final(self)@.end == new_end.0,
            final(self)@.map_type == old(self)@.map_type,
            final(self)@.perm == old(self)@.perm,
    {
        let end = self.vpn_range.get_end().0;
        self.vpn_range = VPNRange::new(self.vpn_range.get_start(), new_end);
        proof {
            assert forall|v: usize| #[trigger] self@.frames.contains_key(v) implies self@.start <= v
                < self@.end && self@.frames[v].data.len() == PAGE_SIZE by {
                assert(old(self)@.frames.contains_key(v));
            }
            assert forall|v: usize| end <= v < new_end.0 implies !#[trigger] self@.frames.contains_key(v) by {
                if self@.frames.contains_key(v) {
                    assert(old(self)@.frames.contains_key(v));
                }
            }
        }
        let _ = self.map_pages(page_table, frames, end, new_end.0);
    }

    /// Copies `data` one page-sized piece per page from the first page on, each
    /// piece written over the start of the frame that its page is mapped to in
    /// `page_table`; of the frames, this area holds the ones it can change.
    pub fn copy_data(&mut self, page_table: &PageTable, data: &[u8])
        requires
            old(self).wf(),
            old(self)@.map_type == MapType::Framed,
            copy_pages_mapped(page_table@, old(self)@.start as int, data@.len() as int),
        ensures
            final(self).wf(),
            final(self)@.frames == copy_through(old(self)@.frames, page_table@, old(self)@.start as int, data@,
                chunk_count(data@.len() as int) as nat),
            final(self)@.start == old(self)@.start,
            final(self)@.end == old(self)@.end,
            final(self)@.map_type == old(self)@.map_type,
            final(self)@.perm == old(self)@.perm,
    {
        let ghost f0 = self@.frames;
        let ghost a0 = self@.start as int;
        let mut start: usize = 0;
        let mut current_vpn = self.vpn_range.get_start();
        let first = current_vpn.0;
        let last = self.vpn_range.get_end().0;
        let len = data.len();
        let ghost mut i: int = 0;
        loop
            invariant_except_break
                start == i * PAGE_SIZE,
                0 <= i < chunk_count(len as int),
                current_vpn.0 == a0 + i,
            invariant
                len == data@.len(),
                self.wf(),
                first == a0,
                last == self@.end,
                self@.start == old(self)@.start,
                self@.end == old(self)@.end,
                self@.map_type == old(self)@.map_type,
                self@.perm == old(self)@.perm,
                f0 == old(self)@.frames,
                a0 == old(self)@.start,
                copy_pages_mapped(page_table@, a0, len as int),
                self@.frames == copy_through(f0, page_table@, a0, data@, i as nat),
            ensures
                i == chunk_count(len as int),
                self@.frames == copy_through(f0, page_table@, a0, data@, i as nat),
            decreases chunk_count(len as int) - i,
        {
            proof {
                if len > 0 {
                    assert(i * PAGE_SIZE < len) by (nonlinear_arith)
                        requires
                            0 <= i < (len + PAGE_SIZE - 1) / PAGE_SIZE as int,
                            len > 0,
                    ;
                }
            }
            let hi = if len - start < PAGE_SIZE { len } else { start + PAGE_SIZE };
            let src = &data[start..hi];
            let pte = page_table.translate(current_vpn).unwrap();
            let p = pte.ppn().0;
            proof {
                assert(src@ == chunk(data@, i));
            }
            let ghost g0 = self@.frames;
            let mut u = first;
            while u < last
                invariant
                    first <= u <= last,
                    last == self@.end,
                    first == self@.start,
                    self.wf(),
                    self@.start == old(self)@.start,
                    self@.end == old(self)@.end,
                    self@.map_type == old(self)@.map_type,
                    self@.perm == old(self)@.perm,
                    src@.len() <= PAGE_SIZE,
                    self@.frames == Map::new(
                        |v: usize| g0.contains_key(v),
                        |v: usize| if v < u && g0[v].ppn == p { FrameView { ppn: g0[v].ppn, data: write_prefix(g0[v].data, src@) } } else { g0[v] },
                    ),
                decreases last - u,
            {
                let hit = match self.data_frames.get(&u) {
                    Some(f) => f.ppn().0 == p,
                    None => false,
                };
                if hit {
                    proof {
                        assert(self@.frames.contains_key(u));
                        assert(self@.frames[u].data.len() == PAGE_SIZE);
                    }
                    let mut frame = self.data_frames.remove(&u).unwrap();
                    frame.write_prefix(src);
                    self.data_frames.insert(u, frame);
                }
                proof {
                    assert(self@.frames =~= Map::new(
                        |v: usize| g0.contains_key(v),
                        |v: usize| if v < u + 1 && g0[v].ppn == p { FrameView { ppn: g0[v].ppn, data: write_prefix(g0[v].data, src@) } } else { g0[v] },
                    ));
                }
                u = u + 1;
            }
            proof {
                assert(self@.frames =~= write_piece(g0, page_table@, a0, data@, i));
                i = i + 1;
            }
            if len - start <= PAGE_SIZE {
                proof {
                    if len > 0 {
                        assert(i == (len + PAGE_SIZE - 1) / PAGE_SIZE as int) by (nonlinear_arith)
                            requires
                                (i - 1) * PAGE_SIZE < len <= i * PAGE_SIZE,
                        ;
                    }
                }
                break;
            }
            proof {
                assert(i < (len + PAGE_SIZE - 1) / PAGE_SIZE as int) by (nonlinear_arith)
                    requires
                        i * PAGE_SIZE < len,
                        i >= 1,
                ;
            }
            start = start + PAGE_SIZE;
            current_vpn.step();
        }
    }

    /// Splits the area at the pages `range.start` and `range.end` into the part
    /// before, the part inside and the part after `range`, each keeping the frames
    /// of its own pages.
    pub fn split_by_range(self, range: VPNRange) -> (r: (MapArea, MapArea, MapArea))
        requires
            self.wf(),
            self@.start <= range.start() <= range.end() <= self@.end,
        ensures
            r.0.wf(),
            r.1.wf(),
            r.2.wf(),
            r.0@ == (MapAreaView { start: self@.start, end: range.start(), frames: frames_in(self@.frames, self@.start as int, range.start() as int), ..self@ }),
            r.1@ == (MapAreaView { start: range.start(), end: range.end(), frames: frames_in(self@.frames, range.start() as int, range.end() as int), ..self@ }),
            r.2@ == (MapAreaView { start: range.end(), end: self@.end, frames: frames_in(self@.frames, range.end() as int, self@.end as int), ..self@ }),
    {
        let left = range.get_start();
        let right = range.get_end();
        let ghost f0 = self@.frames;
        let ghost a = self@.start as int;
        let ghost l = left.0 as int;
        let ghost rr = right.0 as int;
        let start = self.vpn_range.get_start().0;
        let end = self.vpn_range.get_end().0;
        let mut data_frames = self.data_frames;
        let mut drop_map: BTreeMap<usize, FrameTracker> = BTreeMap::new();
        let mut left_map: BTreeMap<usize, FrameTracker> = BTreeMap::new();
        let mut right_map: BTreeMap<usize, FrameTracker> = BTreeMap::new();
        let mut v = start;
        proof {
            assert(left_map@.map_values(|f: FrameTracker| f@) =~= frames_in(f0, a, a));
            assert(drop_map@.map_values(|f: FrameTracker| f@) =~= frames_in(f0, l, l));
            assert(right_map@.map_values(|f: FrameTracker| f@) =~= frames_in(f0, rr, rr));
            assert(data_frames@.map_values(|f: FrameTracker| f@) =~= frames_in(f0, a, end as int));
        }
        while v < end
            invariant
                start <= v <= end,
                a == start,
                start <= l <= rr <= end,
                l == left.0,
                rr == right.0,
                forall|x: usize| #[trigger] f0.contains_key(x) ==> start <= x < end,
                data_frames@.map_values(|f: FrameTracker| f@) == frames_in(f0, v as int, end as int),
                left_map@.map_values(|f: FrameTracker| f@) == frames_in(f0, a, if v < l { v as int } else { l }),
                drop_map@.map_values(|f: FrameTracker| f@) == frames_in(f0, l, if v < l { l } else if v < rr { v as int } else { rr }),
                right_map@.map_values(|f: FrameTracker| f@) == frames_in(f0, rr, if v < rr { rr } else { v as int }),
            decreases end - v,
        {
            let ghost dv = data_frames@.map_values(|f: FrameTracker| f@);
            let ghost old_df = data_frames@;
            let removed = data_frames.remove(&v);
            proof {
                assert(data_frames@ == old_df.remove(v));
                assert(data_frames@.map_values(|f: FrameTracker| f@) =~= dv.remove(v));
            }
            let ghost lm = left_map@.map_values(|f: FrameTracker| f@);
            let ghost dm = drop_map@.map_values(|f: FrameTracker| f@);
            let ghost rm = right_map@.map_values(|f: FrameTracker| f@);
            let ghost nv = (v + 1) as int;
            if let Some(tracer) = removed {
                let ghost tv = tracer@;
                proof {
                    assert(old_df.contains_key(v) && old_df[v] == tracer);
                    assert(dv.contains_key(v));
                    assert(dv[v] == tv);
                    assert(frames_in(f0, v as int, end as int).contains_key(v));
                    assert(frames_in(f0, v as int, end as int)[v] == f0[v]);
                    assert(f0.contains_key(v) && f0[v] == tv);
                }
                if v < left.0 {
                    left_map.insert(v, tracer);
                    proof {
                        assert(left_map@.map_values(|f: FrameTracker| f@) =~= lm.insert(v, tv));
                        assert(left_map@.map_values(|f: FrameTracker| f@) =~= frames_in(f0, a, if nv < l { nv } else { l }));
                        assert(drop_map@.map_values(|f: FrameTracker| f@) =~= frames_in(f0, l, if nv < l { l } else if nv < rr { nv } else { rr }));
                        assert(right_map@.map_values(|f: FrameTracker| f@) =~= frames_in(f0, rr, if nv < rr { rr } else { nv }));
                    }
                } else if v >= right.0 {
                    right_map.insert(v, tracer);
                    proof {
                        assert(right_map@.map_values(|f: FrameTracker| f@) =~= rm.insert(v, tv));
                        assert(left_map@.map_values(|f: FrameTracker| f@) =~= frames_in(f0, a, if nv < l { nv } else { l }));
                        assert(drop_map@.map_values(|f: FrameTracker| f@) =~= frames_in(f0, l, if nv < l { l } else if nv < rr { nv } else { rr }));
                        assert(right_map@.map_values(|f: FrameTracker| f@) =~= frames_in(f0, rr, if nv < rr { rr } else { nv }));
                    }
                } else {
                    drop_map.insert(v, tracer);
                    proof {
                        assert(drop_map@.map_values(|f: FrameTracker| f@) =~= dm.insert(v, tv));
                        assert(left_map@.map_values(|f: FrameTracker| f@) =~= frames_in(f0, a, if nv < l { nv } else { l }));
                        assert(drop_map@.map_values(|f: FrameTracker| f@) =~= frames_in(f0, l, if nv < l { l } else if nv < rr { nv } else { rr }));
                        assert(right_map@.map_values(|f: FrameTracker| f@) =~= frames_in(f0, rr, if nv < rr { rr } else { nv }));
                    }
                }
            } else {
                proof {
                    assert(!old_df.contains_key(v));
                    assert(!dv.contains_key(v));
                    if f0.contains_key(v) {
                        assert(frames_in(f0, v as int, end as int).contains_key(v));
                    }
                    assert(left_map@.map_values(|f: FrameTracker| f@) =~= frames_in(f0, a, if nv < l { nv } else { l }));
                    assert(drop_map@.map_values(|f: FrameTracker| f@) =~= frames_in(f0, l, if nv < l { l } else if nv < rr { nv } else { rr }));
                    assert(right_map@.map_values(|f: FrameTracker| f@) =~= frames_in(f0, rr, if nv < rr { rr } else { nv }));
                }
            }
            proof {
                assert(data_frames@.map_values(|f: FrameTracker| f@) =~= frames_in(f0, nv, end as int));
            }
            v = v + 1;
        }
        let left_area = MapArea {
            vpn_range: VPNRange::new(self.vpn_range.get_start(), left),
            data_frames: left_map,
            map_type: self.map_type,
            map_perm: self.map_perm,
        };
        let drop_area = MapArea {
            vpn_range: VPNRange::new(left, right),
            data_frames: drop_map,
            map_type: self.map_type,
            map_perm: self.map_perm,
        };
        let right_area = MapArea {
            vpn_range: VPNRange::new(right, self.vpn_range.get_end()),
            data_frames: right_map,
            map_type: self.map_type,
            map_perm: self.map_perm,
        };
        proof {
            if self@.map_type == MapType::Identical {
                assert(left_area@.frames =~= Map::empty());
                assert(drop_area@.frames =~= Map::empty());
                assert(right_area@.frames =~= Map::empty());
            }
        }
        (left_area, drop_area, right_area)
    }
}


/// The frames, in page order, that an area holds.
pub open spec fn area_ppns(a: MapAreaView) -> Seq<usize> {
    range_ppns(a.frames, a.start as int, (a.end - a.start) as nat)
}

impl MapArea {
    /// Gives the area's frames back to the allocator, in page order, as dropping
    /// the area does.
    pub fn release(self, frames: &mut FrameAllocator)
        requires
            self.wf(),
            old(frames).wf(),
        ensures
            final(frames).wf(),
            final(frames)@ == deallocs(old(frames)@, area_ppns(self@)),
    {
        let ghost f0 = self@.frames;
        let ghost s0 = frames@;
        let ghost a = self@.start as int;
        let start = self.vpn_range.get_start().0;
        let end = self.vpn_range.get_end().0;
        let mut data_frames = self.data_frames;
        let mut v = start;
        proof {
            assert(data_frames@.map_values(|f: FrameTracker| f@) =~= frames_in(f0, a, end as int));
        }
        while v < end
            invariant
                start <= v <= end,
                a == start,
                frames.wf(),
                forall|x: usize| #[trigger] f0.contains_key(x) ==> start <= x < end,
                data_frames@.map_values(|f: FrameTracker| f@) == frames_in(f0, v as int, end as int),
                frames@ == deallocs(s0, range_ppns(f0, a, (v - start) as nat)),
            decreases end - v,
        {
            let ghost dv = data_frames@.map_values(|f: FrameTracker| f@);
            let ghost old_df = data_frames@;
            let removed = data_frames.remove(&v);
            proof {
                assert(data_frames@ == old_df.remove(v));
                assert(data_frames@.map_values(|f: FrameTracker| f@) =~= dv.remove(v));
                assert(dv.remove(v) =~= frames_in(f0, v + 1, end as int));
            }
            if let Some(f) = removed {
                proof {
                    assert(old_df.contains_key(v) && old_df[v] == f);
                    assert(dv.contains_key(v));
                    assert(frames_in(f0, v as int, end as int).contains_key(v));
                    assert(frames_in(f0, v as int, end as int)[v] == f0[v]);
                    assert(f0.contains_key(v) && f0[v] == f@);
                    lemma_deallocs_push(s0, range_ppns(f0, a, (v - start) as nat), f0[v].ppn);
                }
                frames.frame_dealloc(f.ppn());
            } else {
                proof {
                    assert(!dv.contains_key(v));
                    if f0.contains_key(v) {
                        assert(frames_in(f0, v as int, end as int).contains_key(v));
                    }
                }
            }
            v = v + 1;
        }
    }
}


/// The page of the trampoline: the top page of the 39-bit address space.
pub open spec fn trampoline_vpn() -> usize {
    ((TRAMPOLINE as int % va_span()) / PAGE_SIZE as int) as usize
}

/// The area that pushing `a` stores, given the allocator `s` before the push and
/// the bytes copied into it, if any.
pub open spec fn pushed_view(a: MapAreaView, s: AllocState, data: Option<Seq<u8>>) -> MapAreaView {
    let mapped = frames_after_map(a.frames, a.map_type, s, a.start, a.end - a.start);
    MapAreaView {
        frames: match data {
            Some(d) => frames_after_copy(mapped, a.start as int, d),
            None => mapped,
        },
        ..a
    }
}

/// Whether `push` can map the area `a` in a space whose page table is `pt` with
/// the allocator at `s`: its pages are free, it holds no frames yet, every page
/// gets a frame, and the bytes to copy fit in a framed area.
pub open spec fn push_ok(a: MapAreaView, pt: Map<usize, PageTableEntry>, s: AllocState, data_len: Option<int>) -> bool {
    &&& unmapped_range(pt, a.start as int, a.end as int)
    &&& no_frames_in(a.frames, a.start as int, a.end as int)
    &&& mapped_count(a.map_type, s, a.end - a.start) == a.end - a.start
    &&& match data_len {
        Some(len) => a.map_type == MapType::Framed && chunk_count(len) <= a.end - a.start,
        None => true,
    }
}

/// The addresses of the kernel's sections, as the linker placed them.
#[derive(Copy, Clone, Debug, PartialEq, Eq, Structural)]
pub struct KernelLayout {
    pub stext: usize,
    pub etext: usize,
    pub srodata: usize,
    pub erodata: usize,
    pub sdata: usize,
    pub edata: usize,
    pub sbss_with_stack: usize,
    pub ebss: usize,
    pub ekernel: usize,
    pub strampoline: usize,
}

/// The page range that a section from `s` to `e` covers.
pub open spec fn section_pages(s: usize, e: usize) -> (usize, usize) {
    (floor_spec(s as int % va_span()) as usize, ceil_spec(e as int % va_span()) as usize)
}

/// The five identically mapped regions of the kernel space, in address order,
/// with their permissions: text, read-only data, data, bss, and physical memory.
pub open spec fn kernel_sections(l: KernelLayout) -> Seq<((usize, usize), u8)> {
    seq![
        (section_pages(l.stext, l.etext), MAP_R | MAP_X),
        (section_pages(l.srodata, l.erodata), MAP_R),
        (section_pages(l.sdata, l.edata), MAP_R | MAP_W),
        (section_pages(l.sbss_with_stack, l.ebss), MAP_R | MAP_W),
        (section_pages(l.ekernel, MEMORY_END), MAP_R | MAP_W),
    ]
}

/// Whether two page intervals share no page: one of them is empty, or one ends
/// before the other starts.
pub open spec fn intervals_apart(a: (usize, usize), b: (usize, usize)) -> bool {
    a.0 >= a.1 || b.0 >= b.1 || a.1 <= b.0 || b.1 <= a.0
}

/// The layout can be mapped: each section's pages are ordered, no two sections
/// share a page, none holds the trampoline's page, and the trampoline code is
/// page aligned.
pub open spec fn kernel_layout_ok(l: KernelLayout) -> bool {
    let k = kernel_sections(l);
    &&& forall|i: int| 0 <= i < 5 ==> (#[trigger] k[i]).0.0 <= k[i].0.1
    &&& forall|i: int, j: int| 0 <= i < j < 5 ==> intervals_apart(#[trigger] k[i].0, #[trigger] k[j].0)
    &&& forall|i: int| 0 <= i < 5 ==> !((#[trigger] k[i]).0.0 <= trampoline_vpn() < k[i].0.1)
    &&& l.strampoline % PAGE_SIZE == 0
}

/// Whether `kernel_layout_ok` holds of `l`, computed.
pub fn check_kernel_layout(l: &KernelLayout) -> (r: bool)
    ensures
        r == kernel_layout_ok(*l),
{
    let tv = VirtAddr::from_usize(TRAMPOLINE).floor().0;
    let mut secs: Vec<(usize, usize)> = Vec::new();
    secs.push((VirtAddr::from_usize(l.stext).floor().0, VirtAddr::from_usize(l.etext).ceil().0));
    secs.push((VirtAddr::from_usize(l.srodata).floor().0, VirtAddr::from_usize(l.erodata).ceil().0));
    secs.push((VirtAddr::from_usize(l.sdata).floor().0, VirtAddr::from_usize(l.edata).ceil().0));
    secs.push((VirtAddr::from_usize(l.sbss_with_stack).floor().0, VirtAddr::from_usize(l.ebss).ceil().0));
    secs.push((VirtAddr::from_usize(l.ekernel).floor().0, VirtAddr::from_usize(MEMORY_END).ceil().0));
    let ghost k = kernel_sections(*l);
    proof {
        assert(tv == trampoline_vpn());
        assert forall|i: int| 0 <= i < 5 implies secs@[i] == (#[trigger] k[i]).0 by {
        }
    }
    let mut i: usize = 0;
    while i < 5
        invariant
            i <= 5,
            k == kernel_sections(*l),
            secs@.len() == 5,
            tv == trampoline_vpn(),
            forall|x: int| 0 <= x < 5 ==> secs@[x] == (#[trigger] k[x]).0,
            forall|x: int| 0 <= x < i ==> (#[trigger] k[x]).0.0 <= k[x].0.1,
            forall|x: int| 0 <= x < i ==> !((#[trigger] k[x]).0.0 <= trampoline_vpn() < k[x].0.1),
            forall|x: int, y: int| 0 <= x < i && x < y < 5 ==> intervals_apart(#[trigger] k[x].0, #[trigger] k[y].0),
        decreases 5 - i,
    {
        let (a0, a1) = secs[i];
        if a0 > a1 {
            assert(!(k[i as int].0.0 <= k[i as int].0.1));
            return false;
        }
        if a0 <= tv && tv < a1 {
            assert(k[i as int].0.0 <= trampoline_vpn() < k[i as int].0.1);
            return false;
        }
        let mut j: usize = i + 1;
        while j < 5
            invariant
                i < 5,
                i + 1 <= j <= 5,
                k == kernel_sections(*l),
                secs@.len() == 5,
                forall|x: int| 0 <= x < 5 ==> secs@[x] == (#[trigger] k[x]).0,
                (a0, a1) == k[i as int].0,
                forall|y: int| i < y < j ==> intervals_apart(k[i as int].0, #[trigger] k[y].0),
            decreases 5 - j,
        {
            let (b0, b1) = secs[j];
            if !(a0 >= a1 || b0 >= b1 || a1 <= b0 || b1 <= a0) {
                assert(!intervals_apart(k[i as int].0, k[j as int].0));
                return false;
            }
            j = j + 1;
        }
        i = i + 1;
    }
    l.strampoline % PAGE_SIZE == 0
}

/// The entry of the trampoline page: read and execute, pointing to the trampoline code.
pub open spec fn trampoline_entry(strampoline: usize) -> PageTableEntry {
    mapped_entry(((strampoline as int % pa_span()) / PAGE_SIZE as int) as usize, PTE_R | PTE_X)
}

/// The page table of the kernel space after the first `n` sections were mapped.
pub open spec fn kernel_pt(l: KernelLayout, s: AllocState, n: nat) -> Map<usize, PageTableEntry>
    decreases n,
{
    if n == 0 {
        Map::empty().insert(trampoline_vpn(), trampoline_entry(l.strampoline))
    } else {
        let k = kernel_sections(l)[n - 1];
        pt_after_map(kernel_pt(l, s, (n - 1) as nat), MapType::Identical, s, k.0.0, k.0.1 - k.0.0, k.1)
    }
}

/// Whether every page of the area `a` is mapped in `pt` as `a` says: to the page
/// of the same number for an identical area, to the frame the area holds for it
/// for a framed one, with the area's permission.
pub open spec fn area_mapped(a: MapAreaView, pt: Map<usize, PageTableEntry>) -> bool {
    forall|v: usize| a.start <= v < a.end ==> #[trigger] page_mapped_as(a, pt, v)
}

/// Whether page `v` is mapped in `pt` as the area `a` says.
pub open spec fn page_mapped_as(a: MapAreaView, pt: Map<usize, PageTableEntry>, v: usize) -> bool {
    &&& pt.contains_key(v)
    &&& a.map_type == MapType::Framed ==> a.frames.contains_key(v)
    &&& pt[v] == mapped_entry(
        if a.map_type == MapType::Identical { v } else { a.frames[v].ppn },
        a.perm,
    )
}

/// An address space: a page table and the areas mapped in it.
pub struct MemorySet {
    page_table: PageTable,
    areas: AreaMap,
}

impl MemorySet {
    /// The areas, by page interval.
    pub closed spec fn areas(&self) -> Map<(usize, usize), MapArea> {
        area_map_contents(self.areas)
    }

    /// The page table, as a map from virtual pages to entries.
    pub closed spec fn pt(&self) -> Map<usize, PageTableEntry> {
        self.page_table@
    }

    /// The physical page of the root of the page table.
    pub closed spec fn root_ppn(&self) -> usize {
        self.page_table.root_ppn()
    }

    /// Every interval is non-empty and every area is consistent.
    pub open spec fn wf(&self) -> bool {
        forall|k: (usize, usize)| #[trigger]
            self.areas().contains_key(k) ==> k.0 < k.1 && self.areas()[k].wf()
    }

    /// Besides `wf`, every area covers exactly the interval it is stored under.
    pub open spec fn consistent(&self) -> bool {
        &&& self.wf()
        &&& forall|k: (usize, usize)| #[trigger]
            self.areas().contains_key(k) ==> self.areas()[k]@.start == k.0 && self.areas()[k]@.end == k.1
    }

    /// The invariant of an address space: its areas are consistent and pairwise
    /// disjoint, and every page of every area is mapped as the area says.
    pub open spec fn space_inv(&self) -> bool {
        &&& self.consistent()
        &&& forall|k1: (usize, usize), k2: (usize, usize)|
            #![trigger self.areas().contains_key(k1), self.areas().contains_key(k2)]
            self.areas().contains_key(k1) && self.areas().contains_key(k2) && k1 != k2 ==> !overlaps(k1, k2.0 as int, k2.1 as int)
        &&& forall|k: (usize, usize)| #[trigger]
            self.areas().contains_key(k) ==> area_mapped(self.areas()[k]@, self.pt())
    }

    /// An empty address space with a new root frame.
    pub fn new_bare(frames: &mut FrameAllocator) -> (r: MemorySet)
        requires
            old(frames).wf(),
            alloc_next(old(frames)@) is Some,
        ensures
            final(frames).wf(),
            final(frames)@ == alloc_step(old(frames)@),
            r.space_inv(),
            r.areas().dom().is_empty(),
            r.pt().dom().is_empty(),
            Some(r.root_ppn()) == alloc_next(old(frames)@),
    {
        MemorySet { page_table: PageTable::new(frames), areas: area_map_new() }
    }

    /// The `satp` value that selects this space's page table.
    pub fn token(&self) -> (r: usize)
        ensures
            r == (0x8000_0000_0000_0000u64 | self.root_ppn() as u64) as usize,
            self.root_ppn() < 0x1000_0000_0000_0000 ==> r == (0x8000_0000_0000_0000u64 + self.root_ppn() as u64) as usize,
    {
        self.page_table.token()
    }

    /// The page table entry of `vpn`, if it is mapped.
    pub fn translate(&self, vpn: VirtPageNum) -> (r: Option<PageTableEntry>)
        ensures
            r == (if self.pt().contains_key(vpn.0) { Some(self.pt()[vpn.0]) } else { None }),
    {
        self.page_table.translate(vpn)
    }

    /// The bytes of the frame behind page `vpn`, when an area holds a frame for it.
    pub fn page_bytes(&self, vpn: VirtPageNum) -> (r: Option<&[u8]>)
        requires
            self.consistent(),
        ensures
            match r {
                Some(b) => exists|k: (usize, usize)| #[trigger] self.areas().contains_key(k)
                    && self.areas()[k]@.frames.contains_key(vpn.0) && b@ == self.areas()[k]@.frames[vpn.0].data,
                None => forall|k: (usize, usize)| #[trigger] self.areas().contains_key(k)
                    ==> !self.areas()[k]@.frames.contains_key(vpn.0),
            },
    {
        let v = vpn.0;
        if v == usize::MAX {
            proof {
                assert forall|k: (usize, usize)| #[trigger] self.areas().contains_key(k)
                    implies !self.areas()[k]@.frames.contains_key(v) by {
                    assert(self.areas()[k].wf());
                }
            }
            return None;
        }
        let keys = area_map_intervals(&self.areas, v, v + 1);
        let mut i: usize = 0;
        while i < keys.len()
            invariant
                i <= keys@.len(),
                v < usize::MAX,
                v == vpn.0,
                self.consistent(),
                enumerates(keys@, self.areas(), v as int, v + 1),
                forall|j: int| 0 <= j < i ==> !self.areas()[#[trigger] keys@[j]]@.frames.contains_key(v),
            decreases keys@.len() - i,
        {
            let key = keys[i];
            proof {
                assert(keys@.contains(key));
            }
            let area = area_map_get(&self.areas, key.0, key.1).unwrap();
            if let Some(b) = area.frame_bytes(vpn) {
                return Some(b);
            }
            i = i + 1;
        }
        proof {
            assert forall|k: (usize, usize)| #[trigger] self.areas().contains_key(k)
                implies !self.areas()[k]@.frames.contains_key(v) by {
                if self.areas()[k]@.frames.contains_key(v) {
                    assert(self.areas()[k].wf());
                    assert(overlaps(k, v as int, v + 1));
                    assert(keys@.contains(k));
                    let j = choose|j: int| 0 <= j < keys@.len() && keys@[j] == k;
                    assert(!self.areas()[keys@[j]]@.frames.contains_key(v));
                }
            }
        }
        None
    }

    /// Maps `map_area`, copies `data` into it when given, and stores it under its
    /// interval unless it is empty; an area stored under the same interval before
    /// is dropped and its frames handed back.
    pub(crate) fn push(&mut self, map_area: MapArea, data: Option<&[u8]>, frames: &mut FrameAllocator)
        requires
            old(self).wf(),
            map_area.wf(),
            old(frames).wf(),
            push_ok(map_area@, old(self).pt(), old(frames)@, match data { Some(d) => Some(d@.len() as int), None => None }),
        ensures
            final(self).wf(),
            final(frames).wf(),
            final(self).root_ppn() == old(self).root_ppn(),
            final(self).pt() == pt_after_map(old(self).pt(), map_area@.map_type, old(frames)@, map_area@.start, map_area@.end - map_area@.start, map_area@.perm),
            old(self).space_inv() ==> final(self).space_inv(),
            ({
                let k = (map_area@.start, map_area@.end);
                let mapped = frames_state_after_map(map_area@.map_type, old(frames)@, map_area@.end - map_area@.start);
                if map_area@.start < map_area@.end {
                    &&& final(self).areas() == old(self).areas().insert(k, final(self).areas()[k])
                    &&& final(self).areas()[k]@ == pushed_view(map_area@, old(frames)@, match data { Some(d) => Some(d@), None => None })
                    &&& final(frames)@ == (if old(self).areas().contains_key(k) {
                        deallocs(mapped, area_ppns(old(self).areas()[k]@))
                    } else {
                        mapped
                    })
                } else {
                    &&& final(self).areas() == old(self).areas()
                    &&& final(frames)@ == mapped
                }
            }),
    {
        let ghost s0 = frames@;
        let ghost a0 = map_area@;
        let mut map_area = map_area;
        let vpn_range = map_area.vpn_range();
        let vpn_start = vpn_range.get_start();
        let vpn_end = vpn_range.get_end();
        let _ = map_area.map(&mut self.page_table, frames);
        if let Some(d) = data {
            let ghost fm = map_area@.frames;
            let ghost st = map_area@.start as int;
            proof {
                assert forall|v: usize|
                    map_area@.start <= v < map_area@.start + chunk_count(d@.len() as int) implies {
                        &&& #[trigger] self.page_table@.contains_key(v)
                        &&& map_area@.frames.contains_key(v)
                        &&& self.page_table@[v].ppn.0 == map_area@.frames[v].ppn
                    } by {
                }
                lemma_fresh_frames_distinct(s0, map_area@.start, map_area@.end - map_area@.start);
                assert(fm == frames_after_map(Map::empty(), MapType::Framed, s0, a0.start, a0.end - a0.start)) by {
                    assert(a0.frames =~= Map::empty());
                }
                assert forall|j: int| 0 <= j < chunk_count(d@.len() as int) implies {
                    &&& #[trigger] fm.contains_key((st + j) as usize)
                    &&& st + j <= usize::MAX
                    &&& self.page_table@[(st + j) as usize].ppn.0 == fm[(st + j) as usize].ppn
                } by {
                    let v = (st + j) as usize;
                    assert(map_area@.start <= v < map_area@.start + chunk_count(d@.len() as int));
                }
            }
            map_area.copy_data(&self.page_table, d);
            proof {
                lemma_copy_through_own(fm, self.page_table@, st, d@, chunk_count(d@.len() as int) as nat);
                assert(map_area@.frames =~= frames_after_copy(fm, st, d@));
            }
        }
        proof {
            assert(map_area@ == pushed_view(a0, s0, match data { Some(d) => Some(d@), None => None }));
        }
        if vpn_start.0 < vpn_end.0 {
            let ghost before = self.areas();
            let replaced = area_map_insert(&mut self.areas, vpn_start.0, vpn_end.0, map_area);
            proof {
                assert(before == old(self).areas());
                assert forall|k: (usize, usize)| #[trigger] self.areas().contains_key(k) implies k.0 < k.1
                    && self.areas()[k].wf() by {
                    if k != (vpn_start.0, vpn_end.0) {
                        assert(before.contains_key(k));
                    }
                }
                if old(self).space_inv() {
                    self.lemma_push_keeps_invariant(old(self), a0, old(frames)@, match data { Some(d) => Some(d@), None => None });
                }
            }
            if let Some(old_area) = replaced {
                proof {
                    assert(before.contains_key((vpn_start.0, vpn_end.0)));
                    assert(old_area == before[(vpn_start.0, vpn_end.0)]);
                }
                old_area.release(frames);
            }
        } else {
            proof {
                assert(self.areas() == old(self).areas());
                assert forall|k: (usize, usize)| #[trigger] self.areas().contains_key(k) implies k.0 < k.1
                    && self.areas()[k].wf() by {
                    assert(old(self).areas().contains_key(k));
                }
                assert(self.pt() =~= old(self).pt());
            }
        }
    }

    /// Maps a framed area from `start_va` rounded down to `end_va` rounded up, with
    /// permission `permission`; its frames must be available and its pages free.
    pub fn insert_framed_area(&mut self, start_va: VirtAddr, end_va: VirtAddr, permission: MapPermission, frames: &mut FrameAllocator)
        requires
            old(self).wf(),
            old(frames).wf(),
            floor_spec(start_va.0 as int) <= ceil_spec(end_va.0 as int),
            unmapped_range(old(self).pt(), floor_spec(start_va.0 as int), ceil_spec(end_va.0 as int)),
            ceil_spec(end_va.0 as int) - floor_spec(start_va.0 as int) <= available(old(frames)@),
        ensures
            final(self).wf(),
            old(self).space_inv() ==> final(self).space_inv(),
            final(frames).wf(),
            final(self).root_ppn() == old(self).root_ppn(),
            ({
                let s = floor_spec(start_va.0 as int) as usize;
                let e = ceil_spec(end_va.0 as int) as usize;
                let n = e - s;
                let a = MapAreaView { start: s, end: e, frames: Map::empty(), map_type: MapType::Framed, perm: permission.bits };
                &&& final(self).pt() == pt_after_map(old(self).pt(), MapType::Framed, old(frames)@, s, n, permission.bits)
                &&& (s < e ==> {
                    &&& final(self).areas() == old(self).areas().insert((s, e), final(self).areas()[(s, e)])
                    &&& final(self).areas()[(s, e)]@ == pushed_view(a, old(frames)@, None)
                    &&& final(frames)@ == (if old(self).areas().contains_key((s, e)) {
                        deallocs(allocs(old(frames)@, n as nat), area_ppns(old(self).areas()[(s, e)]@))
                    } else {
                        allocs(old(frames)@, n as nat)
                    })
                })
                &&& (s == e ==> final(self).areas() == old(self).areas() && final(frames)@ == old(frames)@)
            }),
    {
        let area = MapArea::new(start_va, end_va, MapType::Framed, permission);
        proof {
            assert(area@.frames =~= Map::empty());
            assert(allocs(old(frames)@, 0) == old(frames)@);
        }
        self.push(area, None, frames);
    }

    /// Maps the trampoline page, read and execute, to the trampoline code at `strampoline`.
    pub(crate) fn map_trampoline(&mut self, strampoline: usize)
        requires
            strampoline % PAGE_SIZE == 0,
            !old(self).pt().contains_key(trampoline_vpn()),
        ensures
            final(self).pt() == old(self).pt().insert(trampoline_vpn(), trampoline_entry(strampoline)),
            final(self).areas() == old(self).areas(),
            final(self).root_ppn() == old(self).root_ppn(),
    {
        let va = VirtAddr::from_usize(TRAMPOLINE);
        proof {
            assert(va.0 % PAGE_SIZE == 0) by {
                if usize::MAX == 0xffff_ffff {
                    assert(TRAMPOLINE == 0xffff_f000);
                    vstd::arithmetic::div_mod::lemma_small_mod(0xffff_f000, 0x80_0000_0000);
                    assert(va.0 == 0xffff_f000);
                } else {
                    assert(usize::MAX == 0xffff_ffff_ffff_ffff);
                    assert(TRAMPOLINE == 0xffff_ffff_ffff_f000);
                    vstd::arithmetic::div_mod::lemma_fundamental_div_mod_converse(
                        0xffff_ffff_ffff_f000,
                        0x80_0000_0000,
                        0x1ff_ffff,
                        0x7f_ffff_f000,
                    );
                    assert(va.0 == 0x7f_ffff_f000);
                }
            }
        }
        let pa = PhysAddr::from_usize(strampoline);
        proof {
            vstd::arithmetic::div_mod::lemma_mod_mod(strampoline as int, PAGE_SIZE as int, 0x1_0000_0000_0000);
        }
        self.page_table.map(
            VirtPageNum::from_va(va),
            PhysPageNum::from_pa(pa),
            PTEFlags { bits: PTE_R | PTE_X },
        );
    }
}


/// The views of the kernel space's areas after the first `n` sections were
/// pushed: one identical area, with no frames, per non-empty section.
pub open spec fn kernel_area_views(l: KernelLayout, n: nat) -> Map<(usize, usize), MapAreaView>
    decreases n,
{
    if n == 0 {
        Map::empty()
    } else {
        let k = kernel_sections(l)[n - 1];
        let prev = kernel_area_views(l, (n - 1) as nat);
        if k.0.0 < k.0.1 {
            prev.insert(
                k.0,
                MapAreaView { start: k.0.0, end: k.0.1, frames: Map::empty(), map_type: MapType::Identical, perm: k.1 },
            )
        } else {
            prev
        }
    }
}

/// The views of the areas of `m`.
pub open spec fn area_views(m: Map<(usize, usize), MapArea>) -> Map<(usize, usize), MapAreaView> {
    m.map_values(|a: MapArea| a@)
}

proof fn lemma_kernel_pt_dom(l: KernelLayout, s: AllocState, n: nat)
    requires
        kernel_layout_ok(l),
        n <= 5,
    ensures
        forall|v: usize| #[trigger]
            kernel_pt(l, s, n).contains_key(v) ==> v == trampoline_vpn()
                || exists|j: int| 0 <= j < n && (#[trigger] kernel_sections(l)[j]).0.0 <= v < kernel_sections(l)[j].0.1,
    decreases n,
{
    let k = kernel_sections(l);
    if n > 0 {
        lemma_kernel_pt_dom(l, s, (n - 1) as nat);
        let prev = kernel_pt(l, s, (n - 1) as nat);
        let kk = k[n - 1];
        assert(kernel_pt(l, s, n) == pt_after_map(prev, MapType::Identical, s, kk.0.0, kk.0.1 - kk.0.0, kk.1));
        assert forall|v: usize| #[trigger] kernel_pt(l, s, n).contains_key(v) implies v == trampoline_vpn()
            || exists|j: int| 0 <= j < n && (#[trigger] k[j]).0.0 <= v < k[j].0.1 by {
            if !prev.contains_key(v) {
                assert(kk.0.0 <= v < kk.0.0 + (kk.0.1 - kk.0.0));
                assert(k[n - 1].0.0 <= v < k[n - 1].0.1);
            } else if v != trampoline_vpn() {
                let j = choose|j: int| 0 <= j < n - 1 && (#[trigger] k[j]).0.0 <= v < k[j].0.1;
                assert(0 <= j < n && k[j].0.0 <= v < k[j].0.1);
            }
        }
    } else {
        assert forall|v: usize| #[trigger] kernel_pt(l, s, n).contains_key(v) implies v == trampoline_vpn() by {
        }
    }
}

proof fn lemma_kernel_area_views_dom(l: KernelLayout, n: nat)
    requires
        kernel_layout_ok(l),
        n <= 5,
    ensures
        forall|key: (usize, usize)| #[trigger]
            kernel_area_views(l, n).contains_key(key) ==> key.0 < key.1
                && (exists|j: int| 0 <= j < n && (#[trigger] kernel_sections(l)[j]).0 == key)
                && kernel_area_views(l, n)[key].start == key.0 && kernel_area_views(l, n)[key].end == key.1
                && kernel_area_views(l, n)[key].map_type == MapType::Identical
                && kernel_area_views(l, n)[key].frames.dom().is_empty(),
    decreases n,
{
    if n > 0 {
        lemma_kernel_area_views_dom(l, (n - 1) as nat);
        let k = kernel_sections(l);
        assert(Map::<usize, FrameView>::empty().dom().is_empty());
        assert forall|key: (usize, usize)| #[trigger] kernel_area_views(l, n).contains_key(key)
            implies exists|j: int| 0 <= j < n && (#[trigger] k[j]).0 == key by {
            if key == k[n - 1].0 {
                assert(0 <= n - 1 < n && k[n - 1].0 == key);
            } else {
                assert(kernel_area_views(l, (n - 1) as nat).contains_key(key));
                let j = choose|j: int| 0 <= j < n - 1 && (#[trigger] k[j]).0 == key;
                assert(0 <= j < n && k[j].0 == key);
            }
        }
    }
}

impl MemorySet {
    /// Pushes section `i` of the kernel layout as an identical area.
    fn push_section(&mut self, l: &KernelLayout, Ghost(i): Ghost<nat>, start: usize, end: usize, perm: u8, frames: &mut FrameAllocator)
        requires
            i < 5,
            kernel_layout_ok(*l),
            section_pages(start, end) == kernel_sections(*l)[i as int].0,
            perm == kernel_sections(*l)[i as int].1,
            old(self).wf(),
            old(frames).wf(),
            old(self).pt() == kernel_pt(*l, old(frames)@, i),
            area_views(old(self).areas()) == kernel_area_views(*l, i),
            old(self).space_inv(),
        ensures
            final(self).space_inv(),
            final(self).wf(),
            final(frames).wf(),
            final(frames)@ == old(frames)@,
            final(self).root_ppn() == old(self).root_ppn(),
            final(self).pt() == kernel_pt(*l, old(frames)@, (i + 1) as nat),
            area_views(final(self).areas()) == kernel_area_views(*l, (i + 1) as nat),
    {
        let area = MapArea::new(VirtAddr::from_usize(start), VirtAddr::from_usize(end), MapType::Identical, MapPermission { bits: perm });
        let ghost k = kernel_sections(*l);
        proof {
            lemma_kernel_pt_dom(*l, frames@, i);
            lemma_kernel_area_views_dom(*l, i);
            assert(k[i as int].0.0 <= k[i as int].0.1);
            assert forall|v: usize| k[i as int].0.0 <= v < k[i as int].0.1 implies !#[trigger] self.pt().contains_key(v) by {
                assert(!(k[i as int].0.0 <= trampoline_vpn() < k[i as int].0.1));
                if self.pt().contains_key(v) {
                    let j = choose|j: int| 0 <= j < i && (#[trigger] k[j]).0.0 <= v < k[j].0.1;
                    assert(intervals_apart(k[j].0, k[i as int].0));
                }
            }
            assert(area@.frames =~= Map::empty());
        }
        let ghost before = self.areas();
        self.push(area, None, frames);
        proof {
            let key = k[i as int].0;
            assert(frames_after_map(area@.frames, MapType::Identical, old(frames)@, area@.start, area@.end - area@.start) == area@.frames);
            if key.0 < key.1 {
                assert(!before.contains_key(key)) by {
                    if before.contains_key(key) {
                        assert(kernel_area_views(*l, i).contains_key(key));
                        let j = choose|j: int| 0 <= j < i && (#[trigger] k[j]).0 == key;
                        assert(intervals_apart(k[j].0, k[i as int].0));
                    }
                }
                assert(area_views(self.areas()) =~= kernel_area_views(*l, (i + 1) as nat));
            } else {
                assert(area_views(self.areas()) =~= kernel_area_views(*l, (i + 1) as nat));
            }
        }
    }

    /// The kernel's address space: the trampoline, and the text, read-only data,
    /// data, bss and the rest of physical memory each mapped identically with its permission.
    pub fn new_kernel(layout: &KernelLayout, frames: &mut FrameAllocator) -> (r: MemorySet)
        requires
            old(frames).wf(),
            alloc_next(old(frames)@) is Some,
            kernel_layout_ok(*layout),
        ensures
            final(frames).wf(),
            final(frames)@ == alloc_step(old(frames)@),
            r.space_inv(),
            Some(r.root_ppn()) == alloc_next(old(frames)@),
            r.pt() == kernel_pt(*layout, alloc_step(old(frames)@), 5),
            area_views(r.areas()) == kernel_area_views(*layout, 5),
    {
        let mut memory_set = Self::new_bare(frames);
        memory_set.map_trampoline(layout.strampoline);
        proof {
            assert(memory_set.areas().dom().is_empty());
            assert(area_views(memory_set.areas()) =~= kernel_area_views(*layout, 0));
            assert(memory_set.pt() =~= kernel_pt(*layout, frames@, 0));
        }
        memory_set.push_section(layout, Ghost(0), layout.stext, layout.etext, MAP_R | MAP_X, frames);
        memory_set.push_section(layout, Ghost(1), layout.srodata, layout.erodata, MAP_R, frames);
        memory_set.push_section(layout, Ghost(2), layout.sdata, layout.edata, MAP_R | MAP_W, frames);
        memory_set.push_section(layout, Ghost(3), layout.sbss_with_stack, layout.ebss, MAP_R | MAP_W, frames);
        memory_set.push_section(layout, Ghost(4), layout.ekernel, MEMORY_END, MAP_R | MAP_W, frames);
        proof {
            lemma_kernel_area_views_dom(*layout, 5);
            assert forall|key: (usize, usize)| #[trigger] memory_set.areas().contains_key(key) implies
                memory_set.areas()[key]@.start == key.0 && memory_set.areas()[key]@.end == key.1 by {
                assert(area_views(memory_set.areas()).contains_key(key));
            }
        }
        memory_set
    }
}


/// The page holding the middle address of the section from `s` to `e`.
pub open spec fn mid_page(s: usize, e: usize) -> usize {
    floor_spec(((s + e) / 2) as int % va_span()) as usize
}

/// Whether the entry of page `v` in `pt` has the writable bit.
pub open spec fn pte_writable(pt: Map<usize, PageTableEntry>, v: usize) -> bool {
    pt[v].flags.bits & PTE_W == PTE_W
}

/// Whether the entry of page `v` in `pt` has the executable bit.
pub open spec fn pte_executable(pt: Map<usize, PageTableEntry>, v: usize) -> bool {
    pt[v].flags.bits & PTE_X == PTE_X
}

/// Whether the kernel space `pt` of the layout `l` protects its sections: the
/// middle page of the text and of the read-only data is not writable, and the
/// middle page of the data is not executable.
pub open spec fn remap_ok(pt: Map<usize, PageTableEntry>, l: KernelLayout) -> bool {
    &&& !pte_writable(pt, mid_page(l.stext, l.etext))
    &&& !pte_writable(pt, mid_page(l.srodata, l.erodata))
    &&& !pte_executable(pt, mid_page(l.sdata, l.edata))
}

/// Checks the protection of the kernel space `kernel_space` laid out as
/// `layout`; see `remap_ok`. The three middle pages must be mapped.
pub fn remap_test(kernel_space: &MemorySet, layout: &KernelLayout) -> (r: bool)
    requires
        layout.stext + layout.etext <= usize::MAX,
        layout.srodata + layout.erodata <= usize::MAX,
        layout.sdata + layout.edata <= usize::MAX,
        kernel_space.pt().contains_key(mid_page(layout.stext, layout.etext)),
        kernel_space.pt().contains_key(mid_page(layout.srodata, layout.erodata)),
        kernel_space.pt().contains_key(mid_page(layout.sdata, layout.edata)),
    ensures
        r == remap_ok(kernel_space.pt(), *layout),
{
    let mid_text = VirtAddr::from_usize((layout.stext + layout.etext) / 2);
    let mid_rodata = VirtAddr::from_usize((layout.srodata + layout.erodata) / 2);
    let mid_data = VirtAddr::from_usize((layout.sdata + layout.edata) / 2);
    let text = kernel_space.translate(mid_text.floor()).unwrap();
    let rodata = kernel_space.translate(mid_rodata.floor()).unwrap();
    let data = kernel_space.translate(mid_data.floor()).unwrap();
    !text.writable() && !rodata.writable() && !data.executable()
}

/// A page of section `i` of the kernel keeps, once the first `n` sections are
/// mapped, the entry that section gives it.
proof fn lemma_kernel_pt_section(l: KernelLayout, s: AllocState, n: nat, i: int, v: usize)
    requires
        kernel_layout_ok(l),
        0 <= i < n <= 5,
        kernel_sections(l)[i].0.0 <= v < kernel_sections(l)[i].0.1,
    ensures
        kernel_pt(l, s, n).contains_key(v),
        kernel_pt(l, s, n)[v] == mapped_entry(v, kernel_sections(l)[i].1),
    decreases n,
{
    let k = kernel_sections(l);
    if n > i + 1 {
        lemma_kernel_pt_section(l, s, (n - 1) as nat, i, v);
        assert(intervals_apart(k[i].0, k[n - 1].0));
        assert(!(k[n - 1].0.0 <= v < k[n - 1].0.1));
    }
}

/// The middle page of a non-empty section below the top of the 39-bit address
/// space lies within the section's pages.
proof fn lemma_mid_page_in_section(s: usize, e: usize)
    requires
        s < e < va_span(),
    ensures
        section_pages(s, e).0 <= mid_page(s, e) < section_pages(s, e).1,
{
    let m = (s + e) / 2;
    assert(s <= m < e);
    assert(s as int % va_span() == s);
    assert(e as int % va_span() == e);
    assert(m as int % va_span() == m);
    assert(floor_spec(s as int) <= floor_spec(m as int)) by (nonlinear_arith)
        requires s <= m;
    assert(floor_spec(m as int) < ceil_spec(e as int)) by (nonlinear_arith)
        requires m < e;
}

/// The kernel space protects its sections: in a space made by `new_kernel`
/// from a layout whose text, read-only data and data are not empty and lie
/// below the top of the 39-bit address space, the middle of the text and of
/// the read-only data is mapped and not writable, and the middle of the data
/// is mapped and not executable.
pub proof fn lemma_kernel_space_protected(l: KernelLayout, s: AllocState)
    requires
        kernel_layout_ok(l),
        l.stext < l.etext,
        l.srodata < l.erodata,
        l.sdata < l.edata,
        l.etext < va_span(),
        l.erodata < va_span(),
        l.edata < va_span(),
    ensures
        kernel_pt(l, s, 5).contains_key(mid_page(l.stext, l.etext)),
        kernel_pt(l, s, 5).contains_key(mid_page(l.srodata, l.erodata)),
        kernel_pt(l, s, 5).contains_key(mid_page(l.sdata, l.edata)),
        remap_ok(kernel_pt(l, s, 5), l),
{
    let k = kernel_sections(l);
    lemma_mid_page_in_section(l.stext, l.etext);
    lemma_mid_page_in_section(l.srodata, l.erodata);
    lemma_mid_page_in_section(l.sdata, l.edata);
    assert(k[0] == (section_pages(l.stext, l.etext), MAP_R | MAP_X));
    assert(k[1] == (section_pages(l.srodata, l.erodata), MAP_R));
    assert(k[2] == (section_pages(l.sdata, l.edata), MAP_R | MAP_W));
    lemma_kernel_pt_section(l, s, 5, 0, mid_page(l.stext, l.etext));
    lemma_kernel_pt_section(l, s, 5, 1, mid_page(l.srodata, l.erodata));
    lemma_kernel_pt_section(l, s, 5, 2, mid_page(l.sdata, l.edata));
    assert(((2u8 | 8u8) | 1u8) & 4u8 != 4u8 && (2u8 | 1u8) & 4u8 != 4u8 && ((2u8 | 4u8) | 1u8) & 8u8 != 8u8)
        by (bit_vector);
}

/// Each page of the kernel's sections is mapped to the physical page of the same
/// number with the section's permission: text readable and executable,
/// read-only data readable, data and bss readable and writable, and the rest of
/// physical memory, from `ekernel` to `MEMORY_END`, readable and writable, so
/// that the kernel can write every frame it hands out.
pub proof fn lemma_kernel_sections_mapped(l: KernelLayout, s: AllocState, v: usize)
    requires
        kernel_layout_ok(l),
    ensures
        floor_spec(l.stext as int % va_span()) <= v < ceil_spec(l.etext as int % va_span()) ==> kernel_pt(l, s, 5)[v]
            == (PageTableEntry { ppn: PhysPageNum(v), flags: PTEFlags { bits: PTE_R | PTE_X | PTE_V } }),
        floor_spec(l.srodata as int % va_span()) <= v < ceil_spec(l.erodata as int % va_span()) ==> kernel_pt(l, s, 5)[v]
            == (PageTableEntry { ppn: PhysPageNum(v), flags: PTEFlags { bits: PTE_R | PTE_V } }),
        floor_spec(l.sdata as int % va_span()) <= v < ceil_spec(l.edata as int % va_span()) ==> kernel_pt(l, s, 5)[v]
            == (PageTableEntry { ppn: PhysPageNum(v), flags: PTEFlags { bits: PTE_R | PTE_W | PTE_V } }),
        floor_spec(l.sbss_with_stack as int % va_span()) <= v < ceil_spec(l.ebss as int % va_span()) ==> kernel_pt(l, s, 5)[v]
            == (PageTableEntry { ppn: PhysPageNum(v), flags: PTEFlags { bits: PTE_R | PTE_W | PTE_V } }),
        floor_spec(l.ekernel as int % va_span()) <= v < ceil_spec(MEMORY_END as int % va_span()) ==> {
            &&& kernel_pt(l, s, 5).contains_key(v)
            &&& kernel_pt(l, s, 5)[v] == (PageTableEntry { ppn: PhysPageNum(v), flags: PTEFlags { bits: PTE_R | PTE_W | PTE_V } })
            &&& kernel_pt(l, s, 5)[v].flags.bits & PTE_W == PTE_W
            &&& kernel_pt(l, s, 5)[v].flags.bits & PTE_R == PTE_R
        },
{
    let k = kernel_sections(l);
    let pt = kernel_pt(l, s, 5);
    assert((2u8 | 4u8) | 1u8 == 7u8 && 7u8 & 4u8 == 4u8 && 7u8 & 2u8 == 2u8) by (bit_vector);
    assert forall|i: int| 0 <= i < 5 && (#[trigger] k[i]).0.0 <= v < k[i].0.1 implies pt[v] == mapped_entry(v, k[i].1) by {
        lemma_kernel_pt_section(l, s, 5, i, v);
    }
    if floor_spec(l.stext as int % va_span()) <= v < ceil_spec(l.etext as int % va_span()) {
        assert(k[0].0.0 <= v < k[0].0.1);
    }
    if floor_spec(l.srodata as int % va_span()) <= v < ceil_spec(l.erodata as int % va_span()) {
        assert(k[1].0.0 <= v < k[1].0.1);
    }
    if floor_spec(l.sdata as int % va_span()) <= v < ceil_spec(l.edata as int % va_span()) {
        assert(k[2].0.0 <= v < k[2].0.1);
    }
    if floor_spec(l.sbss_with_stack as int % va_span()) <= v < ceil_spec(l.ebss as int % va_span()) {
        assert(k[3].0.0 <= v < k[3].0.1);
    }
    if floor_spec(l.ekernel as int % va_span()) <= v < ceil_spec(MEMORY_END as int % va_span()) {
        assert(k[4].0.0 <= v < k[4].0.1);
        lemma_kernel_pt_section(l, s, 5, 4, v);
    }
}

impl MemorySet {
    /// Pushing an area onto free pages keeps the invariant of the space.
    proof fn lemma_push_keeps_invariant(&self, old_ms: &MemorySet, a0: MapAreaView, s0: AllocState, data: Option<Seq<u8>>)
        requires
            old_ms.space_inv(),
            self.wf(),
            a0.start < a0.end,
            push_ok(a0, old_ms.pt(), s0, match data { Some(d) => Some(d.len() as int), None => None }),
            self.pt() == pt_after_map(old_ms.pt(), a0.map_type, s0, a0.start, a0.end - a0.start, a0.perm),
            self.areas() == old_ms.areas().insert((a0.start, a0.end), self.areas()[(a0.start, a0.end)]),
            self.areas()[(a0.start, a0.end)]@ == pushed_view(a0, s0, data),
        ensures
            self.space_inv(),
    {
        let key = (a0.start, a0.end);
        let n = a0.end - a0.start;
        let pv = pushed_view(a0, s0, data);
        let newm = Map::new(
            |v: usize| a0.start <= v < a0.start + n,
            |v: usize| mapped_entry(page_ppn(a0.map_type, s0, a0.start, v), a0.perm),
        );
        assert(self.pt() == old_ms.pt().union_prefer_right(newm));
        // Old areas keep their mappings, and none of them overlaps the new interval.
        assert forall|k: (usize, usize)| #[trigger] old_ms.areas().contains_key(k) implies !overlaps(k, a0.start as int, a0.end as int) && k != key by {
            let a = old_ms.areas()[k]@;
            assert(area_mapped(a, old_ms.pt()));
            if overlaps(k, a0.start as int, a0.end as int) {
                let v: usize = if k.0 < a0.start { a0.start } else { k.0 };
                assert(page_mapped_as(a, old_ms.pt(), v));
                assert(!old_ms.pt().contains_key(v));
            }
        }
        assert forall|k: (usize, usize)| #[trigger] self.areas().contains_key(k) implies self.areas()[k]@.start == k.0 && self.areas()[k]@.end == k.1 by {
            if k != key {
                assert(old_ms.areas().contains_key(k));
            }
        }
        assert forall|k1: (usize, usize), k2: (usize, usize)|
            #![trigger self.areas().contains_key(k1), self.areas().contains_key(k2)]
            self.areas().contains_key(k1) && self.areas().contains_key(k2) && k1 != k2 implies !overlaps(k1, k2.0 as int, k2.1 as int) by {
            if k1 == key {
                assert(old_ms.areas().contains_key(k2));
                assert(!overlaps(k2, a0.start as int, a0.end as int));
            } else if k2 == key {
                assert(old_ms.areas().contains_key(k1));
                assert(!overlaps(k1, a0.start as int, a0.end as int));
            } else {
                assert(old_ms.areas().contains_key(k1));
                assert(old_ms.areas().contains_key(k2));
            }
        }
        assert forall|k: (usize, usize)| #[trigger] self.areas().contains_key(k) implies area_mapped(self.areas()[k]@, self.pt()) by {
            if k == key {
                assert forall|v: usize| pv.start <= v < pv.end implies #[trigger] page_mapped_as(pv, self.pt(), v) by {
                    assert(newm.contains_key(v));
                    assert(self.pt()[v] == newm[v]);
                    if a0.map_type == MapType::Framed {
                        let mapped = frames_after_map(a0.frames, a0.map_type, s0, a0.start, n);
                        assert(mapped.contains_key(v));
                        assert(mapped[v].ppn == nth_frame(s0, (v - a0.start) as nat));
                        assert(pv.frames.contains_key(v));
                        assert(pv.frames[v].ppn == mapped[v].ppn);
                    }
                }
                assert(area_mapped(pv, self.pt()));
                assert(self.areas()[k]@ == pv);
            } else {
                assert(old_ms.areas().contains_key(k));
                let a = self.areas()[k]@;
                assert(a == old_ms.areas()[k]@);
                assert(area_mapped(a, old_ms.pt()));
                assert(!overlaps(k, a0.start as int, a0.end as int));
                assert forall|v: usize| a.start <= v < a.end implies #[trigger] page_mapped_as(a, self.pt(), v) by {
                    assert(page_mapped_as(a, old_ms.pt(), v));
                    assert(!newm.contains_key(v));
                }
                assert(area_mapped(a, self.pt()));
            }
        }
    }
}


/// Whether `k` is, in interval order, the first interval of `m` whose area starts at page `vpn`.
pub open spec fn first_start_match(m: Map<(usize, usize), MapArea>, vpn: usize, k: (usize, usize)) -> bool {
    &&& m.contains_key(k)
    &&& m[k]@.start == vpn
    &&& forall|k2: (usize, usize)| #[trigger] m.contains_key(k2) && m[k2]@.start == vpn ==> !key_lt(k2, k)
}

/// Whether some area of `m` starts at page `vpn`.
pub open spec fn has_start_match(m: Map<(usize, usize), MapArea>, vpn: usize) -> bool {
    exists|k: (usize, usize)| #[trigger] m.contains_key(k) && m[k]@.start == vpn
}

/// The area `a` with its pages `[new_end, a.end)` unmapped.
pub open spec fn shrunk_view(a: MapAreaView, new_end: usize) -> MapAreaView {
    MapAreaView {
        end: new_end,
        frames: match a.map_type {
            MapType::Framed => a.frames.remove_keys(Set::new(|v: usize| new_end <= v < a.end)),
            MapType::Identical => a.frames,
        },
        ..a
    }
}

/// The area `a` grown up to `new_end` with the allocator at `s`.
pub open spec fn grown_view(a: MapAreaView, s: AllocState, new_end: usize) -> MapAreaView {
    MapAreaView {
        end: new_end,
        frames: frames_after_map(a.frames, a.map_type, s, a.end, mapped_count(a.map_type, s, new_end - a.end)),
        ..a
    }
}

impl MemorySet {
    /// The first interval, in interval order, whose area starts at page `vpn`.
    fn find_area_with_start(&self, vpn: usize) -> (r: Option<(usize, usize)>)
        requires
            self.wf(),
        ensures
            match r {
                Some(k) => first_start_match(self.areas(), vpn, k),
                None => !has_start_match(self.areas(), vpn),
            },
    {
        let keys = area_map_all_intervals(&self.areas);
        let mut i: usize = 0;
        while i < keys.len()
            invariant
                i <= keys@.len(),
                self.wf(),
                enumerates_all(keys@, self.areas()),
                forall|j: int| 0 <= j < i ==> self.areas()[#[trigger] keys@[j]]@.start != vpn,
            decreases keys@.len() - i,
        {
            let key = keys[i];
            proof {
                assert(keys@.contains(key));
            }
            let area = area_map_get(&self.areas, key.0, key.1).unwrap();
            if area.vpn_range().get_start().0 == vpn {
                proof {
                    assert forall|k2: (usize, usize)| #[trigger] self.areas().contains_key(k2) && self.areas()[k2]@.start == vpn implies !key_lt(k2, key) by {
                        assert(keys@.contains(k2));
                        let j = choose|j: int| 0 <= j < keys@.len() && keys@[j] == k2;
                        if j < i {
                            assert(self.areas()[keys@[j]]@.start != vpn);
                        } else if j > i {
                            assert(key_lt(keys@[i as int], keys@[j]));
                        }
                    }
                }
                return Some(key);
            }
            i = i + 1;
        }
        proof {
            assert forall|k: (usize, usize)| #[trigger] self.areas().contains_key(k) implies self.areas()[k]@.start != vpn by {
                assert(keys@.contains(k));
                let j = choose|j: int| 0 <= j < keys@.len() && keys@[j] == k;
                assert(self.areas()[keys@[j]]@.start != vpn);
            }
        }
        None
    }

    /// Unmaps and drops the first area, in interval order, that starts at page `start_vpn`, if any.
    pub fn remove_area_with_start_vpn(&mut self, start_vpn: VirtPageNum, frames: &mut FrameAllocator)
        requires
            old(self).wf(),
            old(frames).wf(),
            forall|k: (usize, usize)| #[trigger] first_start_match(old(self).areas(), start_vpn.0, k)
                ==> mapped_range(old(self).pt(), old(self).areas()[k]@.start as int, old(self).areas()[k]@.end as int),
        ensures
            final(self).wf(),
            final(frames).wf(),
            final(self).root_ppn() == old(self).root_ppn(),
            old(self).space_inv() ==> final(self).space_inv(),
            !has_start_match(old(self).areas(), start_vpn.0) ==> {
                &&& final(self).areas() == old(self).areas()
                &&& final(self).pt() == old(self).pt()
                &&& final(frames)@ == old(frames)@
            },
            forall|k: (usize, usize)| #[trigger] first_start_match(old(self).areas(), start_vpn.0, k) ==> {
                let a = old(self).areas()[k]@;
                &&& final(self).areas() == old(self).areas().remove(k)
                &&& final(self).pt() == old(self).pt().remove_keys(Set::new(|v: usize| a.start <= v < a.end))
                &&& final(frames)@ == (if a.map_type == MapType::Framed { deallocs(old(frames)@, area_ppns(a)) } else { old(frames)@ })
            },
    {
        if let Some(key) = self.find_area_with_start(start_vpn.0) {
            let ghost before = self.areas();
            proof {
                assert(before.contains_key(key));
            }
            let mut area = area_map_remove(&mut self.areas, key.0, key.1).unwrap();
            area.unmap(&mut self.page_table, frames);
            proof {
                assert forall|k: (usize, usize)| #[trigger] self.areas().contains_key(k) implies k.0 < k.1 && self.areas()[k].wf() by {
                    assert(before.contains_key(k));
                }
                assert forall|k: (usize, usize)| #[trigger] first_start_match(old(self).areas(), start_vpn.0, k) implies k == key by {
                    assert(!key_lt(k, key));
                    assert(!key_lt(key, k));
                }
                if old(self).space_inv() {
                    let a = before[key]@;
                    assert forall|k: (usize, usize)| #[trigger] self.areas().contains_key(k) implies area_mapped(self.areas()[k]@, self.pt()) by {
                        assert(before.contains_key(k));
                        assert(k != key);
                        assert(!overlaps(k, key.0 as int, key.1 as int));
                        let b = self.areas()[k]@;
                        assert(area_mapped(b, old(self).pt()));
                        lemma_remove_keeps_mapped(b, old(self).pt(), Set::new(|v: usize| a.start <= v < a.end));
                    }
                }
            }
        }
    }

    /// Shrinks the first area, in interval order, that starts at the page of
    /// `start`, so that it ends at the page above `new_end`; the area stays stored
    /// under its old interval. Returns whether such an area was found.
    pub fn shrink_to(&mut self, start: VirtAddr, new_end: VirtAddr, frames: &mut FrameAllocator) -> (r: bool)
        requires
            old(self).wf(),
            old(frames).wf(),
            forall|k: (usize, usize)| #[trigger] first_start_match(old(self).areas(), floor_spec(start.0 as int) as usize, k) ==> {
                let a = old(self).areas()[k]@;
                &&& a.start <= ceil_spec(new_end.0 as int) <= a.end
                &&& mapped_range(old(self).pt(), ceil_spec(new_end.0 as int), a.end as int)
            },
        ensures
            final(self).wf(),
            final(frames).wf(),
            final(self).root_ppn() == old(self).root_ppn(),
            r == has_start_match(old(self).areas(), floor_spec(start.0 as int) as usize),
            !r ==> {
                &&& final(self).areas() == old(self).areas()
                &&& final(self).pt() == old(self).pt()
                &&& final(frames)@ == old(frames)@
            },
            forall|k: (usize, usize)| #[trigger] first_start_match(old(self).areas(), floor_spec(start.0 as int) as usize, k) ==> {
                let a = old(self).areas()[k]@;
                let e = ceil_spec(new_end.0 as int) as usize;
                &&& final(self).areas() == old(self).areas().insert(k, final(self).areas()[k])
                &&& final(self).areas()[k]@ == shrunk_view(a, e)
                &&& final(self).pt() == old(self).pt().remove_keys(Set::new(|v: usize| e <= v < a.end))
                &&& final(frames)@ == (if a.map_type == MapType::Framed {
                    deallocs(old(frames)@, range_ppns(a.frames, e as int, (a.end - e) as nat))
                } else {
                    old(frames)@
                })
            },
    {
        let start_vpn = start.floor();
        if let Some(key) = self.find_area_with_start(start_vpn.0) {
            let ghost before = self.areas();
            proof {
                assert(before.contains_key(key));
                assert forall|k: (usize, usize)| #[trigger] first_start_match(old(self).areas(), start_vpn.0, k) implies k == key by {
                    assert(!key_lt(k, key));
                    assert(!key_lt(key, k));
                }
                assert(has_start_match(old(self).areas(), start_vpn.0));
                assert(start_vpn.0 == floor_spec(start.0 as int) as usize);
                assert(first_start_match(old(self).areas(), floor_spec(start.0 as int) as usize, key));
            }
            let mut area = area_map_remove(&mut self.areas, key.0, key.1).unwrap();
            area.shrink_to(&mut self.page_table, frames, new_end.ceil());
            let ghost a2 = area;
            let _ = area_map_insert(&mut self.areas, key.0, key.1, area);
            proof {
                assert(self.areas() =~= before.insert(key, a2));
                assert(a2@ =~= shrunk_view(before[key]@, ceil_spec(new_end.0 as int) as usize));
                assert forall|k: (usize, usize)| #[trigger] self.areas().contains_key(k) implies k.0 < k.1 && self.areas()[k].wf() by {
                    if k != key {
                        assert(before.contains_key(k));
                    }
                }
            }
            true
        } else {
            false
        }
    }

    /// Grows the first area, in interval order, that starts at the page of
    /// `start`, so that it ends at the page above `new_end`; pages that get no
    /// frame stay unmapped, and the area stays stored under its old interval.
    /// Returns whether such an area was found.
    pub fn append_to(&mut self, start: VirtAddr, new_end: VirtAddr, frames: &mut FrameAllocator) -> (r: bool)
        requires
            old(self).wf(),
            old(frames).wf(),
            forall|k: (usize, usize)| #[trigger] first_start_match(old(self).areas(), floor_spec(start.0 as int) as usize, k) ==> {
                let a = old(self).areas()[k]@;
                &&& a.end <= ceil_spec(new_end.0 as int)
                &&& unmapped_range(old(self).pt(), a.end as int, ceil_spec(new_end.0 as int))
            },
        ensures
            final(self).wf(),
            final(frames).wf(),
            final(self).root_ppn() == old(self).root_ppn(),
            r == has_start_match(old(self).areas(), floor_spec(start.0 as int) as usize),
            !r ==> {
                &&& final(self).areas() == old(self).areas()
                &&& final(self).pt() == old(self).pt()
                &&& final(frames)@ == old(frames)@
            },
            forall|k: (usize, usize)| #[trigger] first_start_match(old(self).areas(), floor_spec(start.0 as int) as usize, k) ==> {
                let a = old(self).areas()[k]@;
                let e = ceil_spec(new_end.0 as int) as usize;
                let cnt = mapped_count(a.map_type, old(frames)@, e - a.end);
                &&& final(self).areas() == old(self).areas().insert(k, final(self).areas()[k])
                &&& final(self).areas()[k]@ == grown_view(a, old(frames)@, e)
                &&& final(self).pt() == pt_after_map(old(self).pt(), a.map_type, old(frames)@, a.end, cnt, a.perm)
                &&& final(frames)@ == frames_state_after_map(a.map_type, old(frames)@, cnt)
            },
    {
        let start_vpn = start.floor();
        if let Some(key) = self.find_area_with_start(start_vpn.0) {
            let ghost before = self.areas();
            proof {
                assert(before.contains_key(key));
                assert forall|k: (usize, usize)| #[trigger] first_start_match(old(self).areas(), start_vpn.0, k) implies k == key by {
                    assert(!key_lt(k, key));
                    assert(!key_lt(key, k));
                }
                assert(has_start_match(old(self).areas(), start_vpn.0));
                assert(start_vpn.0 == floor_spec(start.0 as int) as usize);
                assert(first_start_match(old(self).areas(), floor_spec(start.0 as int) as usize, key));
            }
            let mut area = area_map_remove(&mut self.areas, key.0, key.1).unwrap();
            area.append_to(&mut self.page_table, frames, new_end.ceil());
            let ghost a2 = area;
            let _ = area_map_insert(&mut self.areas, key.0, key.1, area);
            proof {
                assert(self.areas() =~= before.insert(key, a2));
                assert(a2@ =~= grown_view(before[key]@, old(frames)@, ceil_spec(new_end.0 as int) as usize));
                assert forall|k: (usize, usize)| #[trigger] self.areas().contains_key(k) implies k.0 < k.1 && self.areas()[k].wf() by {
                    if k != key {
                        assert(before.contains_key(k));
                    }
                }
            }
            true
        } else {
            false
        }
    }
}


/// Whether some area of `m` overlaps the pages `[s, e)`.
pub open spec fn any_overlap(m: Map<(usize, usize), MapArea>, s: int, e: int) -> bool {
    exists|k: (usize, usize)| #[trigger] m.contains_key(k) && overlaps(k, s, e)
}

/// The frames of the areas stored under `q[0..i]`, area after area in page order.
pub open spec fn concat_ppns(m: Map<(usize, usize), MapArea>, q: Seq<(usize, usize)>, i: nat) -> Seq<usize>
    decreases i,
{
    if i == 0 {
        Seq::empty()
    } else {
        concat_ppns(m, q, (i - 1) as nat) + area_ppns(m[q[i - 1]]@)
    }
}

/// The intervals of `m` in increasing order.
pub open spec fn sorted_intervals(m: Map<(usize, usize), MapArea>) -> Seq<(usize, usize)> {
    choose|q: Seq<(usize, usize)>| enumerates_all(q, m)
}

/// The frames of all areas of `m`, area after area in interval order.
pub open spec fn all_area_ppns(m: Map<(usize, usize), MapArea>) -> Seq<usize> {
    concat_ppns(m, sorted_intervals(m), sorted_intervals(m).len())
}

/// Handing back the frames of `a + b` is handing back those of `a`, then those of `b`.
pub proof fn lemma_deallocs_concat(s: AllocState, a: Seq<usize>, b: Seq<usize>)
    ensures
        deallocs(s, a + b) == deallocs(deallocs(s, a), b),
    decreases b.len(),
{
    if b.len() == 0 {
        assert(a + b =~= a);
    } else {
        lemma_deallocs_concat(s, a, b.drop_last());
        assert((a + b).drop_last() =~= a + b.drop_last());
        assert((a + b).last() == b.last());
    }
}

/// Removing mappings of pages outside the area `a` keeps `a` mapped.
proof fn lemma_remove_keeps_mapped(a: MapAreaView, pt: Map<usize, PageTableEntry>, gone: Set<usize>)
    requires
        area_mapped(a, pt),
        forall|v: usize| #[trigger] gone.contains(v) ==> !(a.start <= v < a.end),
    ensures
        area_mapped(a, pt.remove_keys(gone)),
{
    assert forall|v: usize| a.start <= v < a.end implies #[trigger] page_mapped_as(a, pt.remove_keys(gone), v) by {
        assert(page_mapped_as(a, pt, v));
        assert(!gone.contains(v));
    }
}

/// Mappings added on pages that were free keep every area mapped as it was.
proof fn lemma_pt_grows_keeps_mapped(a: MapAreaView, pt: Map<usize, PageTableEntry>, pt2: Map<usize, PageTableEntry>)
    requires
        area_mapped(a, pt),
        forall|v: usize| #[trigger] pt.contains_key(v) ==> pt2.contains_key(v) && pt2[v] == pt[v],
    ensures
        area_mapped(a, pt2),
{
    assert forall|v: usize| a.start <= v < a.end implies #[trigger] page_mapped_as(a, pt2, v) by {
        assert(page_mapped_as(a, pt, v));
    }
    assert(area_mapped(a, pt2));
}

impl MemorySet {
    /// Drops every area, handing back its frames; the page table is left as it is.
    pub fn recycle_data_pages(&mut self, frames: &mut FrameAllocator)
        requires
            old(self).wf(),
            old(frames).wf(),
        ensures
            final(self).space_inv(),
            final(frames).wf(),
            final(self).areas().dom().is_empty(),
            final(self).pt() == old(self).pt(),
            final(self).root_ppn() == old(self).root_ppn(),
            final(frames)@ == deallocs(old(frames)@, all_area_ppns(old(self).areas())),
            enumerates_all(sorted_intervals(old(self).areas()), old(self).areas()),
    {
        let ghost m0 = self.areas();
        let ghost s0 = frames@;
        let keys = area_map_all_intervals(&self.areas);
        proof {
            let q = sorted_intervals(m0);
            assert(enumerates_all(q, m0));
            lemma_sorted_unique(q, keys@);
        }
        let mut i: usize = 0;
        while i < keys.len()
            invariant
                i <= keys@.len(),
                enumerates_all(keys@, m0),
                m0 == old(self).areas(),
                s0 == old(frames)@,
                forall|k: (usize, usize)| #[trigger] m0.contains_key(k) ==> k.0 < k.1 && m0[k].wf(),
                self.pt() == old(self).pt(),
                self.root_ppn() == old(self).root_ppn(),
                frames.wf(),
                self.areas() == m0.remove_keys(Set::new(|k: (usize, usize)| exists|j: int| 0 <= j < i && keys@[j] == k)),
                frames@ == deallocs(s0, concat_ppns(m0, keys@, i as nat)),
            decreases keys@.len() - i,
        {
            let key = keys[i];
            proof {
                assert(keys@.contains(key));
                assert(m0.contains_key(key));
                assert(self.areas().contains_key(key)) by {
                    if exists|j: int| 0 <= j < i && keys@[j] == key {
                        let j = choose|j: int| 0 <= j < i && keys@[j] == key;
                        assert(key_lt(keys@[j], keys@[i as int]));
                    }
                }
            }
            let area = area_map_remove(&mut self.areas, key.0, key.1).unwrap();
            proof {
                lemma_deallocs_concat(s0, concat_ppns(m0, keys@, i as nat), area_ppns(m0[key]@));
            }
            area.release(frames);
            proof {
                assert(self.areas() =~= m0.remove_keys(Set::new(|k: (usize, usize)| exists|j: int| 0 <= j < i + 1 && keys@[j] == k)));
            }
            i = i + 1;
        }
        proof {
            assert(self.areas().dom() =~= Set::empty()) by {
                assert forall|k: (usize, usize)| !self.areas().contains_key(k) by {
                    if m0.contains_key(k) {
                        assert(keys@.contains(k));
                        let j = choose|j: int| 0 <= j < keys@.len() && keys@[j] == k;
                    }
                }
            }
        }
    }

    /// Maps a framed area from the page of `start_va` up to the page above
    /// `end_va`, with `permission`, unless some area overlaps those pages or
    /// there are not enough free frames. Returns whether the area was mapped.
    pub fn map_area(&mut self, start_va: VirtAddr, end_va: VirtAddr, permission: MapPermission, frames: &mut FrameAllocator) -> (r: bool)
        requires
            old(self).wf(),
            old(frames).wf(),
            start_va.0 % PAGE_SIZE == 0,
            start_va.0 / PAGE_SIZE < ceil_spec(end_va.0 as int),
            !any_overlap(old(self).areas(), (start_va.0 / PAGE_SIZE) as int, ceil_spec(end_va.0 as int))
                ==> unmapped_range(old(self).pt(), (start_va.0 / PAGE_SIZE) as int, ceil_spec(end_va.0 as int)),
        ensures
            final(self).wf(),
            final(frames).wf(),
            final(self).root_ppn() == old(self).root_ppn(),
            old(self).space_inv() ==> final(self).space_inv(),
            ({
                let s = (start_va.0 / PAGE_SIZE) as usize;
                let e = ceil_spec(end_va.0 as int) as usize;
                let n = e - s;
                let ov = any_overlap(old(self).areas(), s as int, e as int);
                let k = mapped_count(MapType::Framed, old(frames)@, n);
                let fresh = frames_after_map(Map::empty(), MapType::Framed, old(frames)@, s, k);
                &&& r == (!ov && n <= available(old(frames)@))
                &&& ov ==> {
                    &&& final(self).areas() == old(self).areas()
                    &&& final(self).pt() == old(self).pt()
                    &&& final(frames)@ == old(frames)@
                }
                &&& !ov ==> final(self).pt() == pt_after_map(old(self).pt(), MapType::Framed, old(frames)@, s, k, permission.bits)
                &&& r ==> {
                    &&& final(self).areas() == old(self).areas().insert((s, e), final(self).areas()[(s, e)])
                    &&& final(self).areas()[(s, e)]@ == (MapAreaView { start: s, end: e, frames: fresh, map_type: MapType::Framed, perm: permission.bits })
                    &&& final(frames)@ == allocs(old(frames)@, n as nat)
                }
                &&& (!ov && !r) ==> {
                    &&& final(self).areas() == old(self).areas()
                    &&& final(frames)@ == deallocs(allocs(old(frames)@, k as nat), range_ppns(fresh, s as int, n as nat))
                }
            }),
    {
        let start_vpn = VirtPageNum::from_va(start_va);
        let end_vpn = end_va.ceil();
        let keys = area_map_intervals(&self.areas, start_vpn.0, end_vpn.0);
        if keys.len() > 0 {
            proof {
                assert(keys@.contains(keys@[0]));
            }
            false
        } else {
            proof {
                assert forall|k: (usize, usize)| #[trigger] self.areas().contains_key(k) implies !overlaps(k, start_vpn.0 as int, end_vpn.0 as int) by {
                    if overlaps(k, start_vpn.0 as int, end_vpn.0 as int) {
                        assert(keys@.contains(k));
                    }
                }
            }
            let mut map_area = MapArea::new(start_va, end_va, MapType::Framed, permission);
            let ghost a0 = map_area@;
            let ghost s0 = frames@;
            proof {
                assert(a0.frames =~= Map::empty());
            }
            match map_area.map(&mut self.page_table, frames) {
                Ok(_) => {
                    let ghost before = self.areas();
                    let _ = area_map_insert(&mut self.areas, start_vpn.0, end_vpn.0, map_area);
                    proof {
                        assert(!before.contains_key((start_vpn.0, end_vpn.0)));
                        assert forall|k: (usize, usize)| #[trigger] self.areas().contains_key(k) implies k.0 < k.1 && self.areas()[k].wf() by {
                            if k != (start_vpn.0, end_vpn.0) {
                                assert(before.contains_key(k));
                            }
                        }
                        assert(pushed_view(a0, s0, None) == map_area@);
                        if old(self).space_inv() {
                            self.lemma_push_keeps_invariant(old(self), a0, s0, None);
                        }
                    }
                    true
                },
                Err(_) => {
                    proof {
                        if old(self).space_inv() {
                            assert forall|k: (usize, usize)| #[trigger] self.areas().contains_key(k) implies area_mapped(self.areas()[k]@, self.pt()) by {
                                lemma_pt_grows_keeps_mapped(self.areas()[k]@, old(self).pt(), self.pt());
                            }
                        }
                    }
                    map_area.release(frames);
                    false
                },
            }
        }
    }
}


/// Whether the intervals of `q`, in order, join up end to start and together
/// cover the pages `[s, e)`.
pub open spec fn covers(q: Seq<(usize, usize)>, s: int, e: int) -> bool {
    &&& q.len() > 0
    &&& q[0].0 <= s
    &&& e <= q.last().1
    &&& forall|i: int| 0 < i < q.len() ==> #[trigger] q[i].0 == q[i - 1].1
}

/// The part of the area `a` before page `l`.
pub open spec fn left_view(a: MapAreaView, l: usize) -> MapAreaView {
    MapAreaView { start: a.start, end: l, frames: frames_in(a.frames, a.start as int, l as int), ..a }
}

/// The part of the area `a` from page `l` up to page `r`.
pub open spec fn mid_view(a: MapAreaView, l: usize, r: usize) -> MapAreaView {
    MapAreaView { start: l, end: r, frames: frames_in(a.frames, l as int, r as int), ..a }
}

/// The part of the area `a` from page `r` on.
pub open spec fn right_view(a: MapAreaView, r: usize) -> MapAreaView {
    MapAreaView { start: r, end: a.end, frames: frames_in(a.frames, r as int, a.end as int), ..a }
}

/// The views of a sequence of areas.
pub open spec fn views(q: Seq<MapArea>) -> Seq<MapAreaView> {
    q.map_values(|a: MapArea| a@)
}

/// The pieces to unmap when the areas `vs` (in interval order) are cut to the
/// pages `[s, e)`: for one area its middle; for more, the tail of the first,
/// the head of the last, then the areas in between.
pub open spec fn middle_pieces(vs: Seq<MapAreaView>, s: usize, e: usize) -> Seq<MapAreaView> {
    if vs.len() == 1 {
        seq![mid_view(vs[0], s, e)]
    } else {
        seq![mid_view(vs[0], s, vs[0].end), mid_view(vs.last(), vs.last().start, e)] + vs.subrange(1, vs.len() - 1)
    }
}

impl MemorySet {
    /// Whether mapping the pages `[s, e)` is safe to ask of `map_area`: some area
    /// overlaps them, so the request is refused, or none of them is mapped.
    pub fn map_target_ok(&self, s: usize, e: usize) -> (r: bool)
        requires
            s < e,
        ensures
            r == (any_overlap(self.areas(), s as int, e as int) || unmapped_range(self.pt(), s as int, e as int)),
    {
        let keys = area_map_intervals(&self.areas, s, e);
        if keys.len() > 0 {
            proof {
                assert(keys@.contains(keys@[0]));
            }
            return true;
        }
        proof {
            assert(!any_overlap(self.areas(), s as int, e as int)) by {
                if any_overlap(self.areas(), s as int, e as int) {
                    let k = choose|k: (usize, usize)| #[trigger] self.areas().contains_key(k) && overlaps(k, s as int, e as int);
                    assert(keys@.contains(k));
                }
            }
        }
        let mut v = s;
        while v < e
            invariant
                s <= v <= e,
                !any_overlap(self.areas(), s as int, e as int),
                forall|x: usize| s <= x < v ==> !#[trigger] self.pt().contains_key(x),
            decreases e - v,
        {
            if self.translate(VirtPageNum(v)).is_some() {
                return false;
            }
            v = v + 1;
        }
        true
    }

    /// Whether the intervals of `overlapped`, in order, join up end to start and
    /// together cover the pages `[start_vpn, end_vpn)`; false for no interval.
    fn continiously_contain(overlapped: &Vec<(usize, usize)>, start_vpn: usize, end_vpn: usize) -> (r: bool)
        ensures
            r == covers(overlapped@, start_vpn as int, end_vpn as int),
    {
        let n = overlapped.len();
        if n == 0 {
            false
        } else if n == 1 {
            let first = overlapped[0];
            if start_vpn < first.0 || end_vpn > first.1 {
                false
            } else {
                true
            }
        } else {
            let first = overlapped[0];
            let last = overlapped[n - 1];
            if start_vpn < first.0 || end_vpn > last.1 {
                return false;
            }
            let mut vec_end_vpn = first.1;
            let mut i: usize = 1;
            while i < n
                invariant
                    1 <= i <= n,
                    n == overlapped@.len(),
                    vec_end_vpn == overlapped@[i - 1].1,
                    forall|j: int| 0 < j < i ==> #[trigger] overlapped@[j].0 == overlapped@[j - 1].1,
                decreases n - i,
            {
                let next = overlapped[i];
                if vec_end_vpn != next.0 {
                    return false;
                }
                vec_end_vpn = next.1;
                i = i + 1;
            }
            true
        }
    }

    /// Cuts the areas `area_vec` (in interval order) to the pages `[start_vpn,
    /// end_vpn)`: returns the part before, the pieces inside (see
    /// `middle_pieces`), and the part after.
    fn split_into_three(area_vec: Vec<MapArea>, start_vpn: VirtPageNum, end_vpn: VirtPageNum) -> (r: (MapArea, Vec<MapArea>, MapArea))
        requires
            area_vec@.len() > 0,
            forall|i: int| 0 <= i < area_vec@.len() ==> (#[trigger] area_vec@[i]).wf(),
            area_vec@.len() == 1 ==> area_vec@[0]@.start <= start_vpn.0 <= end_vpn.0 <= area_vec@[0]@.end,
            area_vec@.len() >= 2 ==> area_vec@[0]@.start <= start_vpn.0 <= area_vec@[0]@.end,
            area_vec@.len() >= 2 ==> area_vec@.last()@.start <= end_vpn.0 <= area_vec@.last()@.end,
        ensures
            r.0.wf(),
            r.2.wf(),
            forall|i: int| 0 <= i < r.1@.len() ==> (#[trigger] r.1@[i]).wf(),
            r.0@ == left_view(area_vec@[0]@, start_vpn.0),
            r.2@ == right_view(area_vec@.last()@, end_vpn.0),
            views(r.1@) == middle_pieces(views(area_vec@), start_vpn.0, end_vpn.0),
    {
        let ghost v0 = views(area_vec@);
        let ghost q0 = area_vec@;
        let mut area_vec = area_vec;
        let mut mid_areas: Vec<MapArea> = Vec::new();
        if area_vec.len() == 1 {
            let range = VPNRange::new(start_vpn, end_vpn);
            let (left, mid, right) = area_vec.remove(0).split_by_range(range);
            mid_areas.push(mid);
            proof {
                assert(views(mid_areas@) =~= middle_pieces(v0, start_vpn.0, end_vpn.0));
            }
            (left, mid_areas, right)
        } else {
            let first_end = area_vec[0].vpn_range().get_end();
            let range = VPNRange::new(start_vpn, first_end);
            let (left, to_unmap, _) = area_vec.remove(0).split_by_range(range);
            mid_areas.push(to_unmap);
            let n = area_vec.len();
            let last_start = area_vec[n - 1].vpn_range().get_start();
            let range = VPNRange::new(last_start, end_vpn);
            let (_, to_unmap, right) = area_vec.pop().unwrap().split_by_range(range);
            mid_areas.push(to_unmap);
            proof {
                assert(area_vec@ =~= q0.subrange(1, q0.len() - 1));
            }
            while area_vec.len() > 0
                invariant
                    mid_areas@.len() + area_vec@.len() == q0.len(),
                    mid_areas@.len() >= 2,
                    forall|i: int| 0 <= i < mid_areas@.len() ==> (#[trigger] mid_areas@[i]).wf(),
                    area_vec@ == q0.subrange(mid_areas@.len() - 1, q0.len() - 1),
                    views(mid_areas@) == middle_pieces(v0, start_vpn.0, end_vpn.0).subrange(0, mid_areas@.len() as int),
                    q0.len() >= 2,
                    v0 == views(q0),
                    forall|i: int| 0 <= i < q0.len() ==> (#[trigger] q0[i]).wf(),
                decreases area_vec@.len(),
            {
                let a = area_vec.remove(0);
                let ghost k = mid_areas@.len() as int;
                let ghost old_mid = mid_areas@;
                proof {
                    assert(q0[k - 1] == a);
                    let mp = middle_pieces(v0, start_vpn.0, end_vpn.0);
                    assert(mp.len() == q0.len());
                    assert(mp[k] == v0[k - 1]);
                    assert(v0[k - 1] == a@);
                }
                mid_areas.push(a);
                proof {
                    assert(mid_areas@ == old_mid.push(a));
                    assert(views(mid_areas@) =~= views(old_mid).push(a@));
                }
                proof {
                    assert(area_vec@ =~= q0.subrange(mid_areas@.len() - 1, q0.len() - 1));
                    assert(views(mid_areas@) =~= middle_pieces(v0, start_vpn.0, end_vpn.0).subrange(0, mid_areas@.len() as int));
                }
            }
            proof {
                assert(views(mid_areas@) =~= middle_pieces(v0, start_vpn.0, end_vpn.0));
            }
            (left, mid_areas, right)
        }
    }
}


/// The intervals of `m` that overlap `[s, e)`, in increasing order.
pub open spec fn overlap_keys(m: Map<(usize, usize), MapArea>, s: int, e: int) -> Seq<(usize, usize)> {
    choose|q: Seq<(usize, usize)>| enumerates(q, m, s, e)
}

/// The views of the areas of `m` stored under the intervals of `q`.
pub open spec fn key_views(m: Map<(usize, usize), MapArea>, q: Seq<(usize, usize)>) -> Seq<MapAreaView> {
    q.map_values(|k: (usize, usize)| m[k]@)
}

/// The frames of the areas `vs[0..j]`, area after area in page order.
pub open spec fn pieces_ppns(vs: Seq<MapAreaView>, j: nat) -> Seq<usize>
    decreases j,
{
    if j == 0 {
        Seq::empty()
    } else {
        pieces_ppns(vs, (j - 1) as nat) + area_ppns(vs[j - 1])
    }
}

/// The views of the areas after the areas under `q` were cut to the pages `[s, e)`:
/// those areas are gone, and the part of the first before `s` and the part of
/// the last from `e` on are stored under their own intervals when not empty.
pub open spec fn views_after_unmap(m: Map<(usize, usize), MapArea>, q: Seq<(usize, usize)>, s: usize, e: usize) -> Map<(usize, usize), MapAreaView> {
    let vs = key_views(m, q);
    let a0 = vs[0];
    let al = vs.last();
    let base = area_views(m).remove_keys(q.to_set());
    let with_head = if a0.start < s { base.insert((a0.start, s), left_view(a0, s)) } else { base };
    if e < al.end { with_head.insert((e, al.end), right_view(al, e)) } else { with_head }
}

/// Whether page `v` is unmapped once the first `j` pieces of cutting the areas
/// under `q` to `[s, e)` are unmapped.
pub open spec fn removed_pages(q: Seq<(usize, usize)>, s: int, e: int, j: int, v: int) -> bool {
    if q.len() == 1 {
        j >= 1 && s <= v < e
    } else if j == 0 {
        false
    } else if j == 1 {
        s <= v < q[0].1
    } else {
        (s <= v < q[j - 2].1) || (q.last().0 <= v < e)
    }
}

/// A list of frames with none of them is handed back as nothing.
proof fn lemma_range_ppns_none(m: Map<usize, FrameView>, a: int, i: nat)
    requires
        m.dom().is_empty(),
    ensures
        range_ppns(m, a, i) == Seq::<usize>::empty(),
    decreases i,
{
    if i > 0 {
        lemma_range_ppns_none(m, a, (i - 1) as nat);
        assert(!m.contains_key((a + i - 1) as usize));
    }
}

/// Keeping only the frames of `[a, b)` leaves the frames listed for `[a, a + i)` alone.
proof fn lemma_range_ppns_restrict(m: Map<usize, FrameView>, a: int, b: int, i: nat)
    requires
        a + i <= b,
    ensures
        range_ppns(frames_in(m, a, b), a, i) == range_ppns(m, a, i),
    decreases i,
{
    if i > 0 {
        lemma_range_ppns_restrict(m, a, b, (i - 1) as nat);
        let v = a + i - 1;
        if 0 <= v <= usize::MAX {
            assert(frames_in(m, a, b).contains_key(v as usize) == m.contains_key(v as usize));
        }
    }
}

/// Pages from `v` on that lie below the end of the last interval lie in one of them.
proof fn lemma_tile(q: Seq<(usize, usize)>, v: int, i: int) -> (j: int)
    requires
        0 <= i < q.len(),
        q[i].0 <= v < q.last().1,
        forall|k: int| 0 < k < q.len() ==> #[trigger] q[k].0 == q[k - 1].1,
    ensures
        i <= j < q.len(),
        q[j].0 <= v < q[j].1,
    decreases q.len() - i,
{
    if v < q[i].1 {
        i
    } else {
        if i + 1 >= q.len() {
            assert(false);
        }
        assert(q[i + 1].0 == q[i].1);
        lemma_tile(q, v, i + 1)
    }
}

/// Whether page `v` lies in one of the intervals of `q`.
pub open spec fn in_some_interval(q: Seq<(usize, usize)>, v: int) -> bool {
    exists|i: int| 0 <= i < q.len() && (#[trigger] q[i]).0 <= v < q[i].1
}

/// Whether page `v` lies in the interval of one of the areas of `m`.
pub open spec fn in_some_area(m: Map<(usize, usize), MapArea>, v: int) -> bool {
    exists|k: (usize, usize)| #[trigger] m.contains_key(k) && k.0 <= v < k.1
}

/// Increasing, non-empty, pairwise disjoint intervals that each meet `[s, e)`
/// cover it in the sense of `covers` exactly when they leave no page of it out,
/// however many of them there are.
pub proof fn lemma_covers_iff_no_gap(q: Seq<(usize, usize)>, s: int, e: int)
    requires
        s < e,
        forall|i: int| 0 <= i < q.len() ==> (#[trigger] q[i]).0 < q[i].1 && overlaps(q[i], s, e),
        forall|i: int, j: int| 0 <= i < j < q.len() ==> (#[trigger] q[i]).1 <= (#[trigger] q[j]).0,
    ensures
        covers(q, s, e) <==> forall|v: int| s <= v < e ==> #[trigger] in_some_interval(q, v),
{
    if covers(q, s, e) {
        assert forall|v: int| s <= v < e implies #[trigger] in_some_interval(q, v) by {
            let j = lemma_tile(q, v, 0);
            assert(q[j].0 <= v < q[j].1);
        }
    }
    if forall|v: int| s <= v < e ==> #[trigger] in_some_interval(q, v) {
        assert(in_some_interval(q, s));
        assert(in_some_interval(q, e - 1));
        let n = q.len() as int;
        let j0 = choose|i: int| 0 <= i < q.len() && (#[trigger] q[i]).0 <= s < q[i].1;
        assert(q.len() > 0);
        if j0 > 0 {
            assert(q[0].1 <= q[j0].0);
        }
        assert(q[0].0 <= s);
        let j1 = choose|i: int| 0 <= i < q.len() && (#[trigger] q[i]).0 <= e - 1 < q[i].1;
        if j1 < n - 1 {
            assert(q[j1].1 <= q[n - 1].0);
        }
        assert(e <= q.last().1);
        assert forall|i: int| 0 < i < q.len() implies #[trigger] q[i].0 == q[i - 1].1 by {
            assert(q[i - 1].1 <= q[i].0);
            if q[i - 1].1 < q[i].0 {
                let g = q[i - 1].1 as int;
                assert(overlaps(q[i - 1], s, e) && overlaps(q[i], s, e));
                assert(s <= g < e);
                assert(in_some_interval(q, g));
                let j = choose|j: int| 0 <= j < q.len() && (#[trigger] q[j]).0 <= g < q[j].1;
                if j < i - 1 {
                    assert(q[j].1 <= q[i - 1].0);
                } else if j > i {
                    assert(q[i].1 <= q[j].0);
                }
            }
        }
    }
}

impl MemorySet {
    /// In a space that keeps its invariant, the intervals overlapping a query
    /// are stored, non-empty, exactly covered by their areas, and in increasing
    /// order each ends at or before the next begins.
    proof fn lemma_overlap_keys_ordered(&self, q: Seq<(usize, usize)>, s: int, e: int)
        requires
            self.space_inv(),
            enumerates(q, self.areas(), s, e),
        ensures
            forall|i: int| 0 <= i < q.len() ==> {
                &&& self.areas().contains_key(#[trigger] q[i])
                &&& self.areas()[q[i]]@.start == q[i].0
                &&& self.areas()[q[i]]@.end == q[i].1
                &&& q[i].0 < q[i].1
                &&& overlaps(q[i], s, e)
            },
            forall|i: int, j: int| 0 <= i < j < q.len() ==> (#[trigger] q[i]).1 <= (#[trigger] q[j]).0,
    {
        assert forall|i: int| 0 <= i < q.len() implies {
            &&& self.areas().contains_key(#[trigger] q[i])
            &&& self.areas()[q[i]]@.start == q[i].0
            &&& self.areas()[q[i]]@.end == q[i].1
            &&& q[i].0 < q[i].1
            &&& overlaps(q[i], s, e)
        } by {
            assert(q.contains(q[i]));
        }
        assert forall|i: int, j: int| 0 <= i < j < q.len() implies (#[trigger] q[i]).1 <= (#[trigger] q[j]).0 by {
            assert(q.contains(q[i]));
            assert(q.contains(q[j]));
            assert(key_lt(q[i], q[j]));
            assert(self.areas().contains_key(q[i]) && self.areas().contains_key(q[j]));
        }
    }

    /// Unmaps the pages from `start_va` (page aligned) up to the page above
    /// `end_va`, provided that the areas overlapping them join up and cover them
    /// entirely: those areas are cut, the pieces inside are unmapped and their
    /// frames handed back, and the parts outside are kept. Returns whether the
    /// pages were covered.
    #[verifier::spinoff_prover]
    #[verifier::rlimit(30)]
    pub fn unmap_area(&mut self, start_va: VirtAddr, end_va: VirtAddr, frames: &mut FrameAllocator) -> (r: bool)
        requires
            old(self).space_inv(),
            old(frames).wf(),
            start_va.0 % PAGE_SIZE == 0,
            start_va.0 / PAGE_SIZE < ceil_spec(end_va.0 as int),
        ensures
            final(self).space_inv(),
            final(frames).wf(),
            final(self).root_ppn() == old(self).root_ppn(),
            ({
                let s = (start_va.0 / PAGE_SIZE) as usize;
                let e = ceil_spec(end_va.0 as int) as usize;
                let q = overlap_keys(old(self).areas(), s as int, e as int);
                &&& enumerates(q, old(self).areas(), s as int, e as int)
                &&& r == covers(q, s as int, e as int)
                &&& !r ==> {
                    &&& final(self).areas() == old(self).areas()
                    &&& final(self).pt() == old(self).pt()
                    &&& final(frames)@ == old(frames)@
                }
                &&& r ==> {
                    &&& final(self).pt() == old(self).pt().remove_keys(Set::new(|v: usize| s <= v < e))
                    &&& area_views(final(self).areas()) == views_after_unmap(old(self).areas(), q, s, e)
                    &&& final(frames)@ == deallocs(old(frames)@, pieces_ppns(middle_pieces(key_views(old(self).areas(), q), s, e), q.len()))
                }
            }),
    {
        let start_vpn = VirtPageNum::from_va(start_va);
        let end_vpn = end_va.ceil();
        let s = start_vpn.0;
        let e = end_vpn.0;
        let ghost m0 = self.areas();
        let ghost pt0 = self.pt();
        let ghost s0 = frames@;
        let keys = area_map_intervals(&self.areas, s, e);
        proof {
            let q = overlap_keys(m0, s as int, e as int);
            assert(enumerates(q, m0, s as int, e as int));
            lemma_sorted_unique(q, keys@);
        }
        if !Self::continiously_contain(&keys, s, e) {
            return false;
        }
        let ghost q = keys@;
        let ghost n = q.len();
        proof {
            self.lemma_overlap_keys_ordered(q, s as int, e as int);
            assert forall|v: usize| s <= v < e implies #[trigger] pt0.contains_key(v) by {
                let j = lemma_tile(q, v as int, 0);
                let a = m0[q[j]]@;
                assert(area_mapped(a, pt0));
                assert(page_mapped_as(a, pt0, v));
            }
        }
        // Take the covering areas out of the map, in order.
        let mut items: Vec<MapArea> = Vec::new();
        let mut i: usize = 0;
        while i < keys.len()
            invariant
                i <= keys@.len(),
                q == keys@,
                n == q.len(),
                m0 == old(self).areas(),
                pt0 == old(self).pt(),
                self.pt() == pt0,
                self.root_ppn() == old(self).root_ppn(),
                sorted_keys(q),
                forall|j: int| 0 <= j < q.len() ==> m0.contains_key(#[trigger] q[j]),
                forall|k: (usize, usize)| #[trigger] m0.contains_key(k) ==> k.0 < k.1 && m0[k].wf(),
                items@.len() == i,
                forall|j: int| 0 <= j < i ==> #[trigger] items@[j] == m0[q[j]],
                self.areas() == m0.remove_keys(Set::new(|k: (usize, usize)| exists|j: int| 0 <= j < i && q[j] == k)),
            decreases keys@.len() - i,
        {
            let key = keys[i];
            proof {
                assert(self.areas().contains_key(key)) by {
                    if exists|j: int| 0 <= j < i && q[j] == key {
                        let j = choose|j: int| 0 <= j < i && q[j] == key;
                        assert(key_lt(q[j], q[i as int]));
                    }
                }
            }
            let area = area_map_remove(&mut self.areas, key.0, key.1).unwrap();
            items.push(area);
            proof {
                assert(self.areas() =~= m0.remove_keys(Set::new(|k: (usize, usize)| exists|j: int| 0 <= j < i + 1 && q[j] == k)));
            }
            i = i + 1;
        }
        let ghost vs = key_views(m0, q);
        proof {
            assert(views(items@) =~= vs);
            assert(self.areas() =~= m0.remove_keys(q.to_set())) by {
                assert forall|k: (usize, usize)| q.to_set().contains(k) <==> (exists|j: int| 0 <= j < n && q[j] == k) by {
                    if q.to_set().contains(k) {
                        assert(q.contains(k));
                    }
                }
            }
            assert forall|j: int| 0 <= j < items@.len() implies (#[trigger] items@[j]).wf() by {
                assert(m0.contains_key(q[j]));
            }
            assert(items@[0]@ == vs[0]);
            assert(items@.last()@ == vs.last());
        }
        let ghost rest = self.areas();
        let (head, mut to_unmap, tail) = Self::split_into_three(items, start_vpn, end_vpn);
        let ghost pieces = middle_pieces(vs, s, e);
        // Unmap the pieces inside, in order.
        let mut j: usize = 0;
        let count = to_unmap.len();
        proof {
            assert(vs.len() == n);
            assert(pieces.len() == n);
            assert(views(to_unmap@).len() == to_unmap@.len());
            assert forall|i: int| 0 <= i < to_unmap@.len() implies #[trigger] to_unmap@[i]@ == pieces[0 + i] by {
                assert(views(to_unmap@)[i] == to_unmap@[i]@);
            }
            assert(pt0.remove_keys(Set::new(|v: usize| removed_pages(q, s as int, e as int, 0, v as int))) =~= pt0);
        }
        while j < count
            invariant
                j <= count,
                count == n,
                q == keys@,
                n == q.len(),
                n > 0,
                vs == key_views(m0, q),
                pieces == middle_pieces(vs, s, e),
                pieces.len() == n,
                covers(q, s as int, e as int),
                s < e,
                forall|i: int| 0 <= i < q.len() ==> {
                    &&& m0.contains_key(#[trigger] q[i])
                    &&& m0[q[i]]@.start == q[i].0
                    &&& m0[q[i]]@.end == q[i].1
                    &&& q[i].0 < q[i].1
                    &&& overlaps(q[i], s as int, e as int)
                },
                forall|i: int, k: int| 0 <= i < k < q.len() ==> (#[trigger] q[i]).1 <= (#[trigger] q[k]).0,
                forall|v: usize| s <= v < e ==> #[trigger] pt0.contains_key(v),
                to_unmap@.len() == count - j,
                forall|i: int| 0 <= i < to_unmap@.len() ==> (#[trigger] to_unmap@[i]).wf(),
                forall|i: int| 0 <= i < to_unmap@.len() ==> #[trigger] to_unmap@[i]@ == pieces[j + i],
                self.areas() == rest,
                self.root_ppn() == old(self).root_ppn(),
                frames.wf(),
                self.pt() == pt0.remove_keys(Set::new(|v: usize| removed_pages(q, s as int, e as int, j as int, v as int))),
                frames@ == deallocs(s0, pieces_ppns(pieces, j as nat)),
            decreases count - j,
        {
            let mut area = to_unmap.remove(0);
            let ghost pc = pieces[j as int];
            proof {
                assert(area@ == pc);
                // The piece's pages lie inside [s, e) and are not unmapped yet.
                if n == 1 {
                    assert(pc.start == s && pc.end == e);
                } else if j == 0 {
                    assert(pc.start == s && pc.end == q[0].1);
                } else if j == 1 {
                    assert(pc.start == q.last().0 && pc.end == e);
                    assert(q[0].1 <= q[n - 1].0);
                } else {
                    assert(pc == vs[j - 1]);
                    assert(pc.start == q[j - 1].0 && pc.end == q[j - 1].1);
                    assert(q[j - 1].0 == q[j - 2].1);
                    assert(q[0].1 <= q[j - 1].0);
                    assert(q[j - 1].1 <= q[n - 1].0);
                }
                assert forall|v: usize| pc.start <= v < pc.end implies #[trigger] self.pt().contains_key(v) by {
                    assert(pt0.contains_key(v));
                    assert(!removed_pages(q, s as int, e as int, j as int, v as int));
                }
            }
            area.unmap(&mut self.page_table, frames);
            proof {
                assert(self.pt() =~= pt0.remove_keys(Set::new(|v: usize| removed_pages(q, s as int, e as int, j + 1, v as int)))) by {
                    if n >= 2 && j >= 2 {
                        assert(q[j - 1].0 == q[j - 2].1);
                    }
                }
                assert(pieces_ppns(pieces, (j + 1) as nat) == pieces_ppns(pieces, j as nat) + area_ppns(pc));
                lemma_deallocs_concat(s0, pieces_ppns(pieces, j as nat), area_ppns(pc));
                if pc.map_type == MapType::Identical {
                    lemma_range_ppns_none(pc.frames, pc.start as int, (pc.end - pc.start) as nat);
                    assert(pieces_ppns(pieces, j as nat) + area_ppns(pc) =~= pieces_ppns(pieces, j as nat));
                }
            }
            j = j + 1;
        }
        proof {
            assert(self.pt() =~= pt0.remove_keys(Set::new(|v: usize| s <= v < e))) by {
                if n >= 2 {
                    assert(q[n - 1].0 == q[n - 2].1);
                    assert(q[0].1 <= q[n - 2].1) by {
                        if n > 2 {
                            assert(q[0].1 <= q[n - 2].0);
                        }
                    }
                }
            }
        }
        self.insert_cut_parts(head, tail, Ghost(m0), Ghost(pt0), Ghost(q), s, e);
        true
    }

    /// Stores the parts left of the cut areas, when not empty.
    fn insert_cut_parts(&mut self, head: MapArea, tail: MapArea, Ghost(m0): Ghost<Map<(usize, usize), MapArea>>, Ghost(pt0): Ghost<Map<usize, PageTableEntry>>, Ghost(q): Ghost<Seq<(usize, usize)>>, s: usize, e: usize)
        requires
            s < e,
            covers(q, s as int, e as int),
            enumerates(q, m0, s as int, e as int),
            forall|k: (usize, usize)| #[trigger] m0.contains_key(k) ==> k.0 < k.1 && m0[k].wf() && m0[k]@.start == k.0 && m0[k]@.end == k.1,
            forall|k1: (usize, usize), k2: (usize, usize)|
                #![trigger m0.contains_key(k1), m0.contains_key(k2)]
                m0.contains_key(k1) && m0.contains_key(k2) && k1 != k2 ==> !overlaps(k1, k2.0 as int, k2.1 as int),
            forall|k: (usize, usize)| #[trigger] m0.contains_key(k) ==> area_mapped(m0[k]@, pt0),
            forall|i: int| 0 <= i < q.len() ==> {
                &&& m0.contains_key(#[trigger] q[i])
                &&& overlaps(q[i], s as int, e as int)
            },
            head.wf(),
            tail.wf(),
            head@ == left_view(key_views(m0, q)[0], s),
            tail@ == right_view(key_views(m0, q).last(), e),
            old(self).areas() == m0.remove_keys(q.to_set()),
            old(self).pt() == pt0.remove_keys(Set::new(|v: usize| s <= v < e)),
        ensures
            final(self).space_inv(),
            final(self).pt() == old(self).pt(),
            final(self).root_ppn() == old(self).root_ppn(),
            area_views(final(self).areas()) == views_after_unmap(m0, q, s, e),
    {
        let ghost vs = key_views(m0, q);
        let ghost a0 = vs[0];
        let ghost al = vs.last();
        let ghost k0 = q[0];
        let ghost kl = q.last();
        let ghost n = q.len();
        proof {
            assert(m0.contains_key(k0));
            assert(m0.contains_key(kl));
            assert(a0 == m0[k0]@);
            assert(al == m0[kl]@);
        }
        let ghost base = self.areas();
        let (l, r) = (head.vpn_range().get_start().0, head.vpn_range().get_end().0);
        if l != r {
            let _ = area_map_insert(&mut self.areas, l, r, head);
        }
        let ghost with_head = self.areas();
        let (l2, r2) = (tail.vpn_range().get_start().0, tail.vpn_range().get_end().0);
        if l2 != r2 {
            let _ = area_map_insert(&mut self.areas, l2, r2, tail);
        }
        proof {
            assert(area_views(self.areas()) =~= views_after_unmap(m0, q, s, e));
            // Every interval of the result is one that was kept or one of the two parts.
            assert forall|k: (usize, usize)| #[trigger] self.areas().contains_key(k) implies
                (k == (a0.start, s) && a0.start < s && self.areas()[k] == head)
                || (k == (e, al.end) && e < al.end && self.areas()[k] == tail)
                || (m0.contains_key(k) && !q.contains(k) && self.areas()[k] == m0[k]) by {
                if k == (e, al.end) && e < al.end {
                } else if k == (a0.start, s) && a0.start < s {
                } else {
                    assert(base.contains_key(k));
                }
            }
            // The kept intervals lie outside [s, e).
            assert forall|k: (usize, usize)| #[trigger] m0.contains_key(k) && !q.contains(k) implies !overlaps(k, s as int, e as int) by {
            }
            assert forall|k: (usize, usize)| #[trigger] self.areas().contains_key(k) implies k.0 < k.1 && self.areas()[k].wf()
                && self.areas()[k]@.start == k.0 && self.areas()[k]@.end == k.1 by {
                if k == (e, al.end) && e < al.end {
                } else if k == (a0.start, s) && a0.start < s {
                } else {
                    assert(m0.contains_key(k));
                }
            }
            assert forall|k1: (usize, usize), k2: (usize, usize)|
                #![trigger self.areas().contains_key(k1), self.areas().contains_key(k2)]
                self.areas().contains_key(k1) && self.areas().contains_key(k2) && k1 != k2 implies !overlaps(k1, k2.0 as int, k2.1 as int) by {
                let h = (a0.start, s);
                let t = (e, al.end);
                if m0.contains_key(k1) && !q.contains(k1) && k1 != h && k1 != t {
                    if m0.contains_key(k2) && !q.contains(k2) && k2 != h && k2 != t {
                    } else if k2 == h {
                        assert(k1 != k0);
                    } else {
                        assert(k1 != kl);
                    }
                } else if m0.contains_key(k2) && !q.contains(k2) && k2 != h && k2 != t {
                    if k1 == h {
                        assert(k2 != k0);
                    } else {
                        assert(k2 != kl);
                    }
                } else {
                }
            }
            assert forall|k: (usize, usize)| #[trigger] self.areas().contains_key(k) implies area_mapped(self.areas()[k]@, self.pt()) by {
                let gone = Set::new(|v: usize| s <= v < e);
                if k == (e, al.end) && e < al.end {
                    assert forall|v: usize| tail@.start <= v < tail@.end implies #[trigger] page_mapped_as(tail@, self.pt(), v) by {
                        assert(area_mapped(al, pt0));
                        assert(page_mapped_as(al, pt0, v));
                        assert(!gone.contains(v));
                    }
                } else if k == (a0.start, s) && a0.start < s {
                    assert forall|v: usize| head@.start <= v < head@.end implies #[trigger] page_mapped_as(head@, self.pt(), v) by {
                        assert(area_mapped(a0, pt0));
                        assert(page_mapped_as(a0, pt0, v));
                        assert(!gone.contains(v));
                    }
                } else {
                    assert(m0.contains_key(k));
                    assert(!overlaps(k, s as int, e as int));
                    lemma_remove_keeps_mapped(m0[k]@, pt0, gone);
                }
            }
        }
    }
}


/// Unmapping what `map_area` mapped undoes it: take an interval `[s, e)` that
/// no area of `m0` overlaps and whose pages `pt0` leaves free; once an area
/// over exactly `[s, e)` is stored and its pages mapped, the areas overlapping
/// `[s, e)` are that one alone, they cover it, and cutting them to `[s, e)`
/// gives back the areas and the page table from before.
pub proof fn lemma_unmap_undoes_map(
    m0: Map<(usize, usize), MapArea>,
    pt0: Map<usize, PageTableEntry>,
    a: MapArea,
    st: AllocState,
    k: int,
    perm: u8,
    s: usize,
    e: usize,
)
    requires
        s < e,
        !any_overlap(m0, s as int, e as int),
        unmapped_range(pt0, s as int, e as int),
        0 <= k <= e - s,
        a@.start == s,
        a@.end == e,
    ensures
        ({
            let m1 = m0.insert((s, e), a);
            let q = overlap_keys(m1, s as int, e as int);
            &&& q == seq![(s, e)]
            &&& covers(q, s as int, e as int)
            &&& views_after_unmap(m1, q, s, e) == area_views(m0)
            &&& pt_after_map(pt0, MapType::Framed, st, s, k, perm).remove_keys(Set::new(|v: usize| s <= v < e)) == pt0
        }),
{
    let m1 = m0.insert((s, e), a);
    let one = seq![(s, e)];
    assert(!m0.contains_key((s, e))) by {
        if m0.contains_key((s, e)) {
            assert(overlaps((s, e), s as int, e as int));
        }
    }
    assert(enumerates(one, m1, s as int, e as int)) by {
        assert forall|x: (usize, usize)| #[trigger] one.contains(x) <==> (m1.contains_key(x) && overlaps(x, s as int, e as int)) by {
            if one.contains(x) {
                let i = choose|i: int| 0 <= i < one.len() && one[i] == x;
                assert(x == (s, e));
            }
            if m1.contains_key(x) && overlaps(x, s as int, e as int) {
                if x != (s, e) {
                    assert(m0.contains_key(x));
                }
                assert(one[0] == x);
            }
        }
    }
    let q = overlap_keys(m1, s as int, e as int);
    assert(enumerates(q, m1, s as int, e as int));
    lemma_sorted_unique(q, one);
    assert(area_views(m1).remove_keys(one.to_set()) =~= area_views(m0)) by {
        assert(one.to_set() =~= set![(s, e)]);
    }
    let pt1 = pt_after_map(pt0, MapType::Framed, st, s, k, perm);
    assert(pt1.remove_keys(Set::new(|v: usize| s <= v < e)) =~= pt0);
}

/// Unmapping succeeds exactly when the range is fully covered: in a space that
/// keeps its invariant, with `q` the intervals overlapping `[s, e)` in order
/// (as `unmap_area` reports them), `unmap_area` returns true exactly when every
/// page of `[s, e)` lies in some area, however many areas that takes.
pub proof fn lemma_unmap_succeeds_iff_covered(ms: &MemorySet, q: Seq<(usize, usize)>, s: int, e: int)
    requires
        ms.space_inv(),
        s < e,
        enumerates(q, ms.areas(), s, e),
    ensures
        covers(q, s, e) <==> forall|v: int| s <= v < e ==> #[trigger] in_some_area(ms.areas(), v),
{
    ms.lemma_overlap_keys_ordered(q, s, e);
    lemma_covers_iff_no_gap(q, s, e);
    assert forall|v: int| s <= v < e implies (in_some_interval(q, v) <==> #[trigger] in_some_area(ms.areas(), v)) by {
        if in_some_interval(q, v) {
            let i = choose|i: int| 0 <= i < q.len() && (#[trigger] q[i]).0 <= v < q[i].1;
            assert(ms.areas().contains_key(q[i]));
        }
        if in_some_area(ms.areas(), v) {
            let k = choose|k: (usize, usize)| #[trigger] ms.areas().contains_key(k) && k.0 <= v < k.1;
            assert(overlaps(k, s, e));
            assert(q.contains(k));
            let i = choose|i: int| 0 <= i < q.len() && q[i] == k;
            assert(q[i].0 <= v < q[i].1);
        }
    }
    if covers(q, s, e) {
        assert forall|v: int| s <= v < e implies #[trigger] in_some_area(ms.areas(), v) by {
            assert(in_some_interval(q, v));
        }
    }
    if forall|v: int| s <= v < e ==> #[trigger] in_some_area(ms.areas(), v) {
        assert forall|v: int| s <= v < e implies #[trigger] in_some_interval(q, v) by {
            assert(in_some_area(ms.areas(), v));
        }
    }
}

/// The frames that copying the areas of `m` under `q[0..i]` takes: the pages of the framed ones.
pub open spec fn framed_pages(m: Map<(usize, usize), MapArea>, q: Seq<(usize, usize)>, i: nat) -> int
    decreases i,
{
    if i == 0 {
        0
    } else {
        let a = m[q[i - 1]]@;
        framed_pages(m, q, (i - 1) as nat) + (if a.map_type == MapType::Framed { a.end - a.start } else { 0 })
    }
}

/// Whether `b` is a copy of the area `a`: the same pages, type and permission,
/// frames for the same pages, and the same bytes in each.
pub open spec fn copied_area(a: MapAreaView, b: MapAreaView) -> bool {
    &&& b.start == a.start
    &&& b.end == a.end
    &&& b.map_type == a.map_type
    &&& b.perm == a.perm
    &&& b.frames.dom() == a.frames.dom()
    &&& forall|v: usize| #[trigger] b.frames.contains_key(v) ==> b.frames[v].data == a.frames[v].data
}

impl MapArea {
    /// Copies the bytes of each page of `other` into the frame this area holds
    /// for the same page; the frames themselves stay.
    fn copy_frames_from(&mut self, other: &MapArea)
        requires
            old(self).wf(),
            other.wf(),
            old(self)@.start == other@.start,
            old(self)@.end == other@.end,
            old(self)@.frames.dom() == other@.frames.dom(),
        ensures
            final(self).wf(),
            final(self)@.start == old(self)@.start,
            final(self)@.end == old(self)@.end,
            final(self)@.map_type == old(self)@.map_type,
            final(self)@.perm == old(self)@.perm,
            final(self)@.frames == Map::new(
                |v: usize| old(self)@.frames.contains_key(v),
                |v: usize| FrameView { ppn: old(self)@.frames[v].ppn, data: other@.frames[v].data },
            ),
    {
        let ghost f0 = self@.frames;
        let start = self.vpn_range.get_start().0;
        let end = self.vpn_range.get_end().0;
        let mut v = start;
        proof {
            other.lemma_view_wf();
        }
        while v < end
            invariant
                start <= v <= end,
                start == old(self)@.start,
                end == old(self)@.end,
                self@.start == old(self)@.start,
                self@.end == old(self)@.end,
                self@.map_type == old(self)@.map_type,
                self@.perm == old(self)@.perm,
                f0 == old(self)@.frames,
                f0.dom() == other@.frames.dom(),
                other.wf(),
                old(self).wf(),
                forall|x: usize| #[trigger] other.data_frames@.contains_key(x) ==> other@.frames[x] == other.data_frames@[x]@,
                forall|x: usize| #[trigger] other@.frames.contains_key(x) <==> other.data_frames@.contains_key(x),
                self@.frames == Map::new(
                    |x: usize| f0.contains_key(x),
                    |x: usize| if x < v { FrameView { ppn: f0[x].ppn, data: other@.frames[x].data } } else { f0[x] },
                ),
            decreases end - v,
        {
            if let Some(src) = other.data_frames.get(&v) {
                let ghost fv = self@.frames;
                proof {
                    assert(other.data_frames@.contains_key(v));
                    assert(other@.frames.contains_key(v));
                    assert(f0.contains_key(v));
                    assert(fv.contains_key(v));
                    assert(fv[v] == f0[v]);
                    assert(src@ == other@.frames[v]);
                }
                let ghost before = self.data_frames@;
                let mut dst = self.data_frames.remove(&v).unwrap();
                proof {
                    assert(before.contains_key(v));
                    assert(dst == before[v]);
                    assert(dst@ == fv[v]);
                }
                dst.copy_from(src);
                let ghost nd = dst@;
                self.data_frames.insert(v, dst);
                proof {
                    assert(nd == FrameView { ppn: f0[v].ppn, data: other@.frames[v].data });
                    assert(self@.frames =~= fv.insert(v, nd));
                    assert(self@.frames =~= Map::new(
                        |x: usize| f0.contains_key(x),
                        |x: usize| if x < v + 1 { FrameView { ppn: f0[x].ppn, data: other@.frames[x].data } } else { f0[x] },
                    ));
                }
            } else {
                proof {
                    assert(!other@.frames.contains_key(v));
                    assert(self@.frames =~= Map::new(
                        |x: usize| f0.contains_key(x),
                        |x: usize| if x < v + 1 { FrameView { ppn: f0[x].ppn, data: other@.frames[x].data } } else { f0[x] },
                    ));
                }
            }
            v = v + 1;
        }
        proof {
            assert forall|x: usize| #[trigger] f0.contains_key(x) implies x < end by {
                assert(old(self)@.frames.contains_key(x));
            }
            assert(self@.frames =~= Map::new(
                |x: usize| f0.contains_key(x),
                |x: usize| FrameView { ppn: f0[x].ppn, data: other@.frames[x].data },
            ));
        }
    }
}

impl MemorySet {
    /// The frames that `from_existed_user` takes to copy this space, its root
    /// frame included, or `None` when an area holds the trampoline's page.
    pub fn frames_to_copy(&self) -> (r: Option<u128>)
        requires
            self.space_inv(),
        ensures
            ({
                let m = self.areas();
                let q = sorted_intervals(m);
                match r {
                    Some(n) => {
                        &&& n == 1 + framed_pages(m, q, q.len())
                        &&& forall|k: (usize, usize)| #[trigger] m.contains_key(k) ==> !(k.0 <= trampoline_vpn() < k.1)
                    },
                    None => exists|k: (usize, usize)| #[trigger] m.contains_key(k) && k.0 <= trampoline_vpn() < k.1,
                }
            }),
    {
        let ghost m = self.areas();
        let keys = area_map_all_intervals(&self.areas);
        let ghost q = keys@;
        proof {
            lemma_sorted_unique(sorted_intervals(m), q);
            assert forall|t: int| 0 <= t < q.len() implies m.contains_key(#[trigger] q[t]) by {
                assert(q.contains(q[t]));
            }
        }
        let tv = VirtAddr::from_usize(TRAMPOLINE).floor().0;
        let mut total: u128 = 0;
        let mut i: usize = 0;
        while i < keys.len()
            invariant
                i <= q.len(),
                q == keys@,
                m == self.areas(),
                self.space_inv(),
                q == sorted_intervals(m),
                enumerates_all(q, m),
                tv == trampoline_vpn(),
                forall|t: int| 0 <= t < q.len() ==> m.contains_key(#[trigger] q[t]),
                total == framed_pages(m, q, i as nat),
                total <= i * 0x1_0000_0000_0000_0000,
                forall|t: int| 0 <= t < i ==> !((#[trigger] q[t]).0 <= trampoline_vpn() < q[t].1),
            decreases q.len() - i,
        {
            let key = keys[i];
            proof {
                assert(m.contains_key(q[i as int]));
                assert(m[key].wf());
            }
            if key.0 <= tv && tv < key.1 {
                return None;
            }
            let area = area_map_get(&self.areas, key.0, key.1).unwrap();
            let range = area.vpn_range();
            if area.map_type() == MapType::Framed {
                total = total + (range.get_end().0 - range.get_start().0) as u128;
            }
            i = i + 1;
        }
        proof {
            assert forall|k: (usize, usize)| #[trigger] m.contains_key(k) implies !(k.0 <= trampoline_vpn() < k.1) by {
                assert(q.contains(k));
                let t = choose|t: int| 0 <= t < q.len() && q[t] == k;
            }
        }
        Some(total + 1)
    }

    /// A new address space holding a copy of every area of `user_space`, each
    /// framed page with fresh frames holding the same bytes, and the trampoline
    /// mapped to the code at `strampoline`.
    #[verifier::spinoff_prover]
    pub fn from_existed_user(user_space: &MemorySet, strampoline: usize, frames: &mut FrameAllocator) -> (r: MemorySet)
        requires
            user_space.space_inv(),
            old(frames).wf(),
            strampoline % PAGE_SIZE == 0,
            1 + framed_pages(user_space.areas(), sorted_intervals(user_space.areas()), sorted_intervals(user_space.areas()).len()) <= available(old(frames)@),
            forall|k: (usize, usize)| #[trigger] user_space.areas().contains_key(k) ==> !(k.0 <= trampoline_vpn() < k.1),
        ensures
            final(frames).wf(),
            final(frames)@ == allocs(old(frames)@, (1 + framed_pages(user_space.areas(), sorted_intervals(user_space.areas()), sorted_intervals(user_space.areas()).len())) as nat),
            r.space_inv(),
            r.areas().dom() == user_space.areas().dom(),
            forall|k: (usize, usize)| #[trigger] r.areas().contains_key(k) ==> copied_area(user_space.areas()[k]@, r.areas()[k]@),
            enumerates_all(sorted_intervals(user_space.areas()), user_space.areas()),
            forall|k: (usize, usize), v: usize| r.areas().contains_key(k) && #[trigger] r.areas()[k]@.frames.contains_key(v)
                ==> !is_allocated(old(frames)@, r.areas()[k]@.frames[v].ppn),
            held_allocated(user_space.areas(), old(frames)@) ==> forall|k: (usize, usize), v: usize, k2: (usize, usize), v2: usize|
                #![trigger r.areas()[k]@.frames[v], user_space.areas()[k2]@.frames[v2]]
                r.areas().contains_key(k) && r.areas()[k]@.frames.contains_key(v) && user_space.areas().contains_key(k2)
                    && user_space.areas()[k2]@.frames.contains_key(v2)
                    ==> r.areas()[k]@.frames[v].ppn != user_space.areas()[k2]@.frames[v2].ppn,
            ({
                let q = sorted_intervals(user_space.areas());
                forall|j: int| 0 <= j < q.len() ==> (#[trigger] r.areas()[q[j]])@ == copy_view(
                    user_space.areas()[q[j]]@,
                    allocs(old(frames)@, (1 + framed_pages(user_space.areas(), q, j as nat)) as nat),
                )
            }),
            r.pt().contains_key(trampoline_vpn()),
            r.pt()[trampoline_vpn()] == trampoline_entry(strampoline),
    {
        let ghost m = user_space.areas();
        let ghost s0 = frames@;
        let keys = area_map_all_intervals(&user_space.areas);
        let ghost q = keys@;
        proof {
            assert forall|t: int| 0 <= t < q.len() implies m.contains_key(#[trigger] q[t]) by {
                assert(q.contains(q[t]));
            }
            lemma_framed_pages_mono(m, q, 0, q.len());
            assert(framed_pages(m, q, 0) == 0);
            assert(enumerates_all(sorted_intervals(m), m));
            lemma_sorted_unique(sorted_intervals(m), q);
            lemma_alloc_next_some(s0);
        }
        let mut memory_set = Self::new_bare(frames);
        let ghost s1 = frames@;
        memory_set.map_trampoline(strampoline);
        proof {
            lemma_sorted_unique(sorted_intervals(m), q);
            lemma_allocs_available(s0, 1);
            assert(allocs(s0, 0) == s0);
            assert(allocs(s0, 1) == s1);
            assert forall|t: int| 0 <= t < q.len() implies m.contains_key(#[trigger] q[t]) by {
                assert(q.contains(q[t]));
            }
            assert(memory_set.areas().dom() =~= Set::new(|k: (usize, usize)| exists|j: int| 0 <= j < 0 && q[j] == k));
        }
        let mut i: usize = 0;
        while i < keys.len()
            invariant
                i <= q.len(),
                q == keys@,
                m == user_space.areas(),
                enumerates_all(q, m),
                user_space.space_inv(),
                s1 == allocs(s0, 1),
                s1.current <= s1.end,
                available(s1) == available(s0) - 1,
                1 + framed_pages(m, q, q.len()) <= available(s0),
                forall|t: int| 0 <= t < q.len() ==> m.contains_key(#[trigger] q[t]),
                forall|k: (usize, usize)| #[trigger] m.contains_key(k) ==> !(k.0 <= trampoline_vpn() < k.1),
                frames.wf(),
                frames@ == allocs(s1, framed_pages(m, q, i as nat) as nat),
                memory_set.space_inv(),
                memory_set.areas().dom() == Set::new(|k: (usize, usize)| exists|j: int| 0 <= j < i && q[j] == k),
                forall|k: (usize, usize)| #[trigger] memory_set.areas().contains_key(k) ==> copied_area(m[k]@, memory_set.areas()[k]@),
                forall|j: int| 0 <= j < i ==> (#[trigger] memory_set.areas()[q[j]])@ == copy_view(
                    m[q[j]]@,
                    allocs(s1, framed_pages(m, q, j as nat) as nat),
                ),
                memory_set.pt().contains_key(trampoline_vpn()),
                memory_set.pt()[trampoline_vpn()] == trampoline_entry(strampoline),
                forall|v: usize| #[trigger] memory_set.pt().contains_key(v) ==> v == trampoline_vpn()
                    || exists|j: int| 0 <= j < i && (#[trigger] q[j]).0 <= v < q[j].1,
            decreases q.len() - i,
        {
            let key = keys[i];
            proof {
                assert(q.contains(key));
                assert(m.contains_key(key));
            }
            let area = area_map_get(&user_space.areas, key.0, key.1).unwrap();
            let new_area = MapArea::from_another(area);
            let ghost a = area@;
            let ghost st = frames@;
            proof {
                // The area's pages are free in the new space.
                assert forall|v: usize| a.start <= v < a.end implies !#[trigger] memory_set.pt().contains_key(v) by {
                    if memory_set.pt().contains_key(v) {
                        if v != trampoline_vpn() {
                            let j = choose|j: int| 0 <= j < i && (#[trigger] q[j]).0 <= v < q[j].1;
                            assert(key_lt(q[j], q[i as int]));
                            assert(q.contains(q[j]));
                            assert(m.contains_key(q[j]));
                            assert(q[j] != key);
                        }
                    }
                }
                assert(new_area@.frames.dom().is_empty());
                // Enough frames are left.
                lemma_framed_pages_mono(m, q, (i + 1) as nat, q.len());
                lemma_framed_pages_mono(m, q, i as nat, q.len());
                lemma_framed_pages_mono(m, q, 0, i as nat);
                lemma_allocs_available(s1, framed_pages(m, q, i as nat) as nat);
                assert(a == m[q[i as int]]@);
                assert(!memory_set.areas().contains_key(key)) by {
                    if memory_set.areas().contains_key(key) {
                        let j = choose|j: int| 0 <= j < i && q[j] == key;
                        assert(key_lt(q[j], q[i as int]));
                    }
                }
            }
            let ghost before = memory_set.areas();
            let ghost pt_before = memory_set.pt();
            memory_set.push(new_area, None, frames);
            proof {
                lemma_allocs_add(s1, framed_pages(m, q, i as nat) as nat, (if a.map_type == MapType::Framed { a.end - a.start } else { 0 }) as nat);
                assert(area_mapped(a, user_space.pt()));
                if a.map_type == MapType::Framed {
                    assert forall|v: usize| #[trigger] a.frames.contains_key(v) <==> (a.start <= v < a.end) by {
                        if a.start <= v < a.end {
                            assert(page_mapped_as(a, user_space.pt(), v));
                        }
                    }
                }
            }
            // Copy the bytes of each page from the user's area into the new one.
            let mut copy = area_map_remove(&mut memory_set.areas, key.0, key.1).unwrap();
            proof {
                assert(copy@.frames.dom() =~= a.frames.dom());
            }
            copy.copy_frames_from(area);
            let ghost cv = copy@;
            let _ = area_map_insert(&mut memory_set.areas, key.0, key.1, copy);
            proof {
                assert(memory_set.areas() =~= before.insert(key, memory_set.areas()[key]));
                assert(memory_set.areas()[key]@ == cv);
                assert(copied_area(a, cv)) by {
                    assert(cv.frames.dom() =~= a.frames.dom());
                }
                assert(memory_set.areas().dom() =~= Set::new(|k: (usize, usize)| exists|j: int| 0 <= j < i + 1 && q[j] == k)) by {
                    assert forall|k: (usize, usize)| memory_set.areas().contains_key(k) <==> (exists|j: int| 0 <= j < i + 1 && q[j] == k) by {
                        if k == key {
                            assert(q[i as int] == k);
                        }
                    }
                }
                // The copy keeps the space's invariant: only the bytes changed.
                assert forall|k: (usize, usize)| #[trigger] memory_set.areas().contains_key(k) implies area_mapped(memory_set.areas()[k]@, memory_set.pt()) by {
                    if k == key {
                        let pv = pushed_view(a_from_another(a), st, None);
                        assert forall|v: usize| cv.start <= v < cv.end implies #[trigger] page_mapped_as(cv, memory_set.pt(), v) by {
                            assert(page_mapped_as(pv, memory_set.pt(), v)) by {
                                assert(area_mapped(pv, memory_set.pt()));
                            }
                        }
                    } else {
                        assert(before.contains_key(k));
                    }
                }
                assert forall|v: usize| #[trigger] memory_set.pt().contains_key(v) implies v == trampoline_vpn()
                    || exists|j: int| 0 <= j < i + 1 && (#[trigger] q[j]).0 <= v < q[j].1 by {
                    if !pt_before.contains_key(v) {
                        assert(q[i as int].0 <= v < q[i as int].1);
                    } else if v != trampoline_vpn() {
                        let j = choose|j: int| 0 <= j < i && (#[trigger] q[j]).0 <= v < q[j].1;
                        assert(0 <= j < i + 1 && (#[trigger] q[j]).0 <= v < q[j].1);
                    }
                }
                assert forall|k: (usize, usize)| #[trigger] memory_set.areas().contains_key(k) implies copied_area(m[k]@, memory_set.areas()[k]@) by {
                    if k != key {
                        assert(before.contains_key(k));
                    }
                }
                assert(cv == copy_view(a, st)) by {
                    assert(cv.frames =~= copy_view(a, st).frames);
                }
                assert forall|j: int| 0 <= j < i + 1 implies (#[trigger] memory_set.areas()[q[j]])@ == copy_view(
                    m[q[j]]@,
                    allocs(s1, framed_pages(m, q, j as nat) as nat),
                ) by {
                    if j < i {
                        assert(key_lt(q[j], q[i as int]));
                        assert(memory_set.areas()[q[j]] == before[q[j]]);
                    }
                }
            }
            i = i + 1;
        }
        proof {
            assert(memory_set.areas().dom() =~= m.dom()) by {
                assert forall|k: (usize, usize)| memory_set.areas().contains_key(k) <==> m.contains_key(k) by {
                    if m.contains_key(k) {
                        assert(q.contains(k));
                        let j = choose|j: int| 0 <= j < q.len() && q[j] == k;
                        assert(exists|j: int| 0 <= j < i && q[j] == k);
                    }
                    if memory_set.areas().contains_key(k) {
                        let j = choose|j: int| 0 <= j < i && q[j] == k;
                        assert(q.contains(q[j]));
                    }
                }
            }
            lemma_allocs_add(s0, 1, framed_pages(m, q, q.len()) as nat);
            lemma_sorted_unique(sorted_intervals(m), q);
            assert forall|j: int| 0 <= j < q.len() implies (#[trigger] memory_set.areas()[q[j]])@ == copy_view(
                m[q[j]]@,
                allocs(s0, (1 + framed_pages(m, q, j as nat)) as nat),
            ) by {
                lemma_framed_pages_mono(m, q, 0, j as nat);
                lemma_allocs_add(s0, 1, framed_pages(m, q, j as nat) as nat);
            }
            lemma_copies_fresh(m, memory_set.areas(), q, s0);
        }
        memory_set
    }
}

/// Whether every frame that an area of `m` holds is handed out by the allocator at `s`.
pub open spec fn held_allocated(m: Map<(usize, usize), MapArea>, s: AllocState) -> bool {
    forall|k: (usize, usize), v: usize| m.contains_key(k) && #[trigger] m[k]@.frames.contains_key(v)
        ==> is_allocated(s, m[k]@.frames[v].ppn)
}

/// The copy of the area `a` that `from_existed_user` makes with the allocator at
/// `s`: the same pages, type and permission, and for each page a frame taken in
/// page order holding the bytes of `a`'s frame.
pub open spec fn copy_view(a: MapAreaView, s: AllocState) -> MapAreaView {
    let fresh = frames_after_map(Map::empty(), a.map_type, s, a.start, a.end - a.start);
    MapAreaView {
        frames: Map::new(|v: usize| fresh.contains_key(v), |v: usize| FrameView { ppn: fresh[v].ppn, data: a.frames[v].data }),
        ..a
    }
}

/// The copies that `from_existed_user` makes hold frames that were not handed
/// out before, so none of them is a frame that the copied space holds, when
/// that space's frames are all handed out.
proof fn lemma_copies_fresh(m: Map<(usize, usize), MapArea>, mr: Map<(usize, usize), MapArea>, q: Seq<(usize, usize)>, s0: AllocState)
    requires
        enumerates_all(q, m),
        forall|k: (usize, usize)| #[trigger] m.contains_key(k) ==> m[k].wf(),
        forall|t: int| 0 <= t < q.len() ==> m.contains_key(#[trigger] q[t]),
        mr.dom() == m.dom(),
        forall|j: int| 0 <= j < q.len() ==> (#[trigger] mr[q[j]])@ == copy_view(m[q[j]]@, allocs(s0, (1 + framed_pages(m, q, j as nat)) as nat)),
        1 + framed_pages(m, q, q.len()) <= available(s0),
        s0.current <= s0.end <= usize::MAX,
        recycled_ok(s0),
    ensures
        forall|k: (usize, usize), v: usize| mr.contains_key(k) && #[trigger] mr[k]@.frames.contains_key(v)
            ==> !is_allocated(s0, mr[k]@.frames[v].ppn),
        held_allocated(m, s0) ==> forall|k: (usize, usize), v: usize, k2: (usize, usize), v2: usize|
            #![trigger mr[k]@.frames[v], m[k2]@.frames[v2]]
            mr.contains_key(k) && mr[k]@.frames.contains_key(v) && m.contains_key(k2) && m[k2]@.frames.contains_key(v2)
                ==> mr[k]@.frames[v].ppn != m[k2]@.frames[v2].ppn,
{
    assert forall|k: (usize, usize), v: usize| mr.contains_key(k) && #[trigger] mr[k]@.frames.contains_key(v)
        implies !is_allocated(s0, mr[k]@.frames[v].ppn) by {
        assert(q.contains(k));
        let j = choose|j: int| 0 <= j < q.len() && q[j] == k;
        let a = m[k]@;
        let fp = framed_pages(m, q, j as nat);
        assert(mr[q[j]]@ == copy_view(a, allocs(s0, (1 + fp) as nat)));
        assert(a.map_type == MapType::Framed && a.start <= v < a.end);
        lemma_framed_pages_mono(m, q, 0, j as nat);
        lemma_framed_pages_mono(m, q, (j + 1) as nat, q.len());
        assert(framed_pages(m, q, (j + 1) as nat) == fp + (a.end - a.start));
        lemma_nth_frame_after(s0, (1 + fp) as nat, (v - a.start) as nat);
        lemma_nth_frame_free(s0, (1 + fp + (v - a.start)) as nat);
    }
    if held_allocated(m, s0) {
        assert forall|k: (usize, usize), v: usize, k2: (usize, usize), v2: usize|
            #![trigger mr[k]@.frames[v], m[k2]@.frames[v2]]
            mr.contains_key(k) && mr[k]@.frames.contains_key(v) && m.contains_key(k2) && m[k2]@.frames.contains_key(v2)
                implies mr[k]@.frames[v].ppn != m[k2]@.frames[v2].ppn by {
            assert(!is_allocated(s0, mr[k]@.frames[v].ppn));
            assert(is_allocated(s0, m[k2]@.frames[v2].ppn));
        }
    }
}

/// The view of an area made by `MapArea::from_another` from an area with view `a`.
pub open spec fn a_from_another(a: MapAreaView) -> MapAreaView {
    MapAreaView { frames: Map::empty(), ..a }
}

/// Copying more areas takes at least as many frames.
proof fn lemma_framed_pages_mono(m: Map<(usize, usize), MapArea>, q: Seq<(usize, usize)>, i: nat, j: nat)
    requires
        i <= j,
        forall|k: (usize, usize)| #[trigger] m.contains_key(k) ==> m[k].wf(),
        forall|t: int| 0 <= t < q.len() ==> m.contains_key(#[trigger] q[t]),
        j <= q.len(),
    ensures
        framed_pages(m, q, i) <= framed_pages(m, q, j),
    decreases j - i,
{
    if i < j {
        lemma_framed_pages_mono(m, q, i, (j - 1) as nat);
        assert(m.contains_key(q[j - 1]));
    }
}

} // verus!
