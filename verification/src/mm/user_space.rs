//! The address space of a user program, built from its ELF file: its loadable
//! segments, its stack and its trap context.
use vstd::prelude::*;
use crate::config::{PAGE_SIZE, TRAMPOLINE, TRAP_CONTEXT_BASE, USER_STACK_SIZE};
use crate::mm::address::{VirtAddr, VirtPageNum, va_span, floor_spec, ceil_spec, sign_extend_va};
use crate::mm::area_map::overlaps;
use crate::mm::page_table::PageTableEntry;
use crate::mm::elf::{SegmentPlan, ElfHeaderInfo, load_plan, elf_load_plan, elf_plan, segment_plan};
use crate::mm::frame_allocator::{FrameAllocator, AllocState, allocs, available, lemma_allocs_available, lemma_allocs_add};
use crate::mm::memory_set::{
    MemorySet, MapArea, MapAreaView, MapType, MapPermission, MAP_R, MAP_W, MAP_U, chunk_count,
    pushed_view, pt_after_map, unmapped_range, trampoline_vpn, trampoline_entry,
    lemma_alloc_next_some,
};

verus! {

/// An area that loading a program maps: the addresses it runs from and to,
/// each cut to 39 bits, its permission, and whether the bytes
/// `data_start..data_end` of the file are copied into it.
#[derive(Copy, Clone, Debug, PartialEq, Eq, Structural)]
pub struct AreaPlan {
    pub start_va: usize,
    pub end_va: usize,
    pub perm: u8,
    pub copy: bool,
    pub data_start: usize,
    pub data_end: usize,
}

impl AreaPlan {
    /// The first page of the area.
    pub open spec fn first_page(self) -> int {
        floor_spec(self.start_va as int)
    }

    /// The page after the area.
    pub open spec fn end_page(self) -> int {
        ceil_spec(self.end_va as int)
    }

    /// Whether the area covers at least one page.
    pub open spec fn nonempty(self) -> bool {
        self.first_page() < self.end_page()
    }

    /// The page interval under which the area is stored.
    pub open spec fn key(self) -> (usize, usize) {
        (self.first_page() as usize, self.end_page() as usize)
    }

    /// Whether the area covers page `v`.
    pub open spec fn holds_page(self, v: int) -> bool {
        self.first_page() <= v < self.end_page()
    }

    /// Whether this area and `other` share no page.
    pub open spec fn apart(self, other: AreaPlan) -> bool {
        self.nonempty() && other.nonempty() ==> !overlaps(self.key(), other.first_page(), other.end_page())
    }
}

/// The bottom of the user stack: one guard page above the end of the last
/// loadable segment, or above address zero when there is none.
pub open spec fn stack_bottom(segs: Seq<SegmentPlan>) -> int {
    let e = if segs.len() == 0 { 0 } else { ceil_spec(segs.last().end_va as int) };
    sign_extend_va((e * PAGE_SIZE) % (usize::MAX + 1)) + PAGE_SIZE
}

/// The top of the user stack, where the stack pointer starts.
pub open spec fn stack_top(segs: Seq<SegmentPlan>) -> int {
    stack_bottom(segs) + USER_STACK_SIZE
}

/// The area of a loadable segment, with its bytes of the file.
pub open spec fn segment_area(sp: SegmentPlan) -> AreaPlan {
    AreaPlan {
        start_va: sp.start_va,
        end_va: sp.end_va,
        perm: sp.perm,
        copy: true,
        data_start: sp.data_start,
        data_end: sp.data_end,
    }
}

/// The area from address `s` to address `e`, each cut to 39 bits, with nothing copied in.
pub open spec fn plain_area(s: int, e: int, perm: u8) -> AreaPlan {
    AreaPlan {
        start_va: (s % va_span()) as usize,
        end_va: (e % va_span()) as usize,
        perm,
        copy: false,
        data_start: 0,
        data_end: 0,
    }
}

/// The areas of a program with the loadable segments `segs`, in the order they
/// are mapped: the segments, the user stack, the empty area above the stack
/// that the heap grows into, and the trap context below the trampoline.
pub open spec fn program_areas(segs: Seq<SegmentPlan>) -> Seq<AreaPlan> {
    let t = stack_top(segs);
    segs.map_values(|sp: SegmentPlan| segment_area(sp)) + seq![
        plain_area(stack_bottom(segs), t, MAP_R | MAP_W | MAP_U),
        plain_area(t, t, MAP_R | MAP_W | MAP_U),
        plain_area(TRAP_CONTEXT_BASE as int, TRAMPOLINE as int, MAP_R | MAP_W),
    ]
}

/// The pages of the first `i` areas of `p`.
pub open spec fn plan_pages(p: Seq<AreaPlan>, i: nat) -> int
    decreases i,
{
    if i == 0 {
        0
    } else {
        plan_pages(p, (i - 1) as nat) + (p[i - 1].end_page() - p[i - 1].first_page())
    }
}

/// Whether the areas `p` can be mapped, after a root frame, with the allocator
/// at `s`: each is ordered, none holds the trampoline, no two that cover pages
/// overlap, the bytes copied into each fit its pages, and there are enough frames.
pub open spec fn areas_fit(p: Seq<AreaPlan>, s: AllocState) -> bool {
    &&& forall|i: int| 0 <= i < p.len() ==> (#[trigger] p[i]).first_page() <= p[i].end_page()
    &&& forall|i: int| 0 <= i < p.len() ==> !((#[trigger] p[i]).first_page() <= trampoline_vpn() < p[i].end_page())
    &&& forall|i: int, j: int| 0 <= i < j < p.len() ==> #[trigger] p[i].apart(p[j])
    &&& forall|i: int| 0 <= i < p.len() && (#[trigger] p[i]).copy ==> {
        &&& p[i].data_start <= p[i].data_end
        &&& chunk_count(p[i].data_end - p[i].data_start) <= p[i].end_page() - p[i].first_page()
    }
    &&& 1 + plan_pages(p, p.len()) <= available(s)
}

/// Whether the program in `data` can be loaded with the allocator at `s`: its
/// ELF file can be read, its stack fits below the top of the address space, and
/// its areas fit.
pub open spec fn loadable(data: Seq<u8>, s: AllocState) -> bool {
    match elf_load_plan(data) {
        None => false,
        Some((segs, _)) => stack_top(segs) <= usize::MAX && areas_fit(program_areas(segs), s),
    }
}

/// The area that mapping the plan `a` stores, with the allocator at `s` before,
/// and the bytes of `data` copied in when the plan says so.
pub open spec fn planned_view(data: Seq<u8>, a: AreaPlan, s: AllocState) -> MapAreaView {
    pushed_view(
        MapAreaView {
            start: a.first_page() as usize,
            end: a.end_page() as usize,
            frames: Map::empty(),
            map_type: MapType::Framed,
            perm: a.perm,
        },
        s,
        if a.copy { Some(data.subrange(a.data_start as int, a.data_end as int)) } else { None },
    )
}

/// Whether the areas `m` and the page table `pt` of a space hold the
/// trampoline and exactly the first `n` areas of `p` that cover pages, area `j`
/// as mapping it leaves it with the allocator at `s0` moved on by a root frame
/// and the pages of the areas before it.
pub open spec fn planned_space(
    m: Map<(usize, usize), MapArea>,
    pt: Map<usize, PageTableEntry>,
    data: Seq<u8>,
    p: Seq<AreaPlan>,
    n: nat,
    s0: AllocState,
    strampoline: usize,
) -> bool {
    &&& forall|k: (usize, usize)| #[trigger] m.contains_key(k) <==>
        exists|j: int| 0 <= j < n && p[j].nonempty() && #[trigger] p[j].key() == k
    &&& forall|j: int| 0 <= j < n && p[j].nonempty() ==>
        (#[trigger] m[p[j].key()])@ == planned_view(data, p[j], allocs(s0, (1 + plan_pages(p, j as nat)) as nat))
    &&& forall|v: usize| #[trigger] pt.contains_key(v) <==>
        (v == trampoline_vpn() || exists|j: int| 0 <= j < n && #[trigger] p[j].holds_page(v as int))
    &&& pt[trampoline_vpn()] == trampoline_entry(strampoline)
}

/// Before area `i` of a fitting plan is mapped, its pages are free, and its
/// interval is not stored yet when it covers pages.
proof fn lemma_planned_free(
    m: Map<(usize, usize), MapArea>,
    pt: Map<usize, PageTableEntry>,
    data: Seq<u8>,
    p: Seq<AreaPlan>,
    i: nat,
    s0: AllocState,
    strampoline: usize,
)
    requires
        i < p.len(),
        areas_fit(p, s0),
        planned_space(m, pt, data, p, i, s0, strampoline),
    ensures
        unmapped_range(pt, p[i as int].first_page(), p[i as int].end_page()),
        p[i as int].nonempty() ==> !m.contains_key(p[i as int].key()),
{
    let a = p[i as int];
    assert forall|v: usize| a.first_page() <= v < a.end_page() implies !#[trigger] pt.contains_key(v) by {
        if pt.contains_key(v) && v != trampoline_vpn() {
            let j = choose|j: int| 0 <= j < i && #[trigger] p[j].holds_page(v as int);
            assert(p[j].apart(a));
        }
    }
    if a.nonempty() && m.contains_key(a.key()) {
        let j = choose|j: int| 0 <= j < i && p[j].nonempty() && #[trigger] p[j].key() == a.key();
        assert(p[j].apart(a));
    }
}

/// Mapping area `i` of a fitting plan, as `push` does, extends the space by it.
proof fn lemma_planned_step(
    m: Map<(usize, usize), MapArea>,
    pt: Map<usize, PageTableEntry>,
    m1: Map<(usize, usize), MapArea>,
    pt1: Map<usize, PageTableEntry>,
    data: Seq<u8>,
    p: Seq<AreaPlan>,
    i: nat,
    s0: AllocState,
    strampoline: usize,
)
    requires
        i < p.len(),
        areas_fit(p, s0),
        planned_space(m, pt, data, p, i, s0, strampoline),
        pt1 == pt_after_map(pt, MapType::Framed, allocs(s0, (1 + plan_pages(p, i)) as nat), p[i as int].first_page() as usize,
            p[i as int].end_page() - p[i as int].first_page(), p[i as int].perm),
        p[i as int].nonempty() ==> {
            &&& m1 == m.insert(p[i as int].key(), m1[p[i as int].key()])
            &&& m1[p[i as int].key()]@ == planned_view(data, p[i as int], allocs(s0, (1 + plan_pages(p, i)) as nat))
        },
        !p[i as int].nonempty() ==> m1 == m,
    ensures
        planned_space(m1, pt1, data, p, (i + 1) as nat, s0, strampoline),
{
    let a = p[i as int];
    let key = a.key();
    lemma_planned_free(m, pt, data, p, i, s0, strampoline);
    assert(!(a.first_page() <= trampoline_vpn() < a.end_page()));
    assert forall|k: (usize, usize)| #[trigger] m1.contains_key(k) <==>
        exists|j: int| 0 <= j < i + 1 && p[j].nonempty() && #[trigger] p[j].key() == k by {
        if m1.contains_key(k) && !(a.nonempty() && k == key) {
            assert(m.contains_key(k));
        }
        if exists|j: int| 0 <= j < i + 1 && p[j].nonempty() && #[trigger] p[j].key() == k {
            let j = choose|j: int| 0 <= j < i + 1 && p[j].nonempty() && #[trigger] p[j].key() == k;
            if j < i {
                assert(m.contains_key(k));
            }
        }
    }
    assert forall|j: int| 0 <= j < i + 1 && p[j].nonempty() implies
        (#[trigger] m1[p[j].key()])@ == planned_view(data, p[j], allocs(s0, (1 + plan_pages(p, j as nat)) as nat)) by {
        if j < i {
            assert(m.contains_key(p[j].key()));
            assert(m[p[j].key()]@ == planned_view(data, p[j], allocs(s0, (1 + plan_pages(p, j as nat)) as nat)));
            if a.nonempty() {
                assert(p[j].key() != key) by {
                    assert(p[j].apart(a));
                }
            }
        }
    }
    assert forall|v: usize| #[trigger] pt1.contains_key(v) <==>
        (v == trampoline_vpn() || exists|j: int| 0 <= j < i + 1 && #[trigger] p[j].holds_page(v as int)) by {
        if exists|j: int| 0 <= j < i + 1 && #[trigger] p[j].holds_page(v as int) {
            let j = choose|j: int| 0 <= j < i + 1 && #[trigger] p[j].holds_page(v as int);
            if j < i {
                assert(pt.contains_key(v));
            }
        }
        if pt1.contains_key(v) && !pt.contains_key(v) {
            assert(a.holds_page(v as int));
        }
    }
}

/// Two planned areas are apart exactly when they share no page, their pages
/// taken as half-open ranges: one of them is empty, or one ends at or before
/// the page where the other starts. In particular areas on adjacent pages are
/// apart.
pub proof fn lemma_apart_half_open(x: AreaPlan, y: AreaPlan)
    ensures
        x.apart(y) <==> (!x.nonempty() || !y.nonempty() || x.end_page() <= y.first_page() || y.end_page() <= x.first_page()),
        x.apart(y) <==> forall|v: int| !(#[trigger] x.holds_page(v) && y.holds_page(v)),
{
    assert(0 <= x.first_page() <= usize::MAX && 0 <= x.end_page() <= usize::MAX);
    assert(0 <= y.first_page() <= usize::MAX && 0 <= y.end_page() <= usize::MAX);
    if !x.apart(y) {
        let v = if x.first_page() < y.first_page() { y.first_page() } else { x.first_page() };
        assert(x.holds_page(v) && y.holds_page(v));
    }
}

/// The pages before area `i` are at most those before area `j`.
proof fn lemma_plan_pages_mono(p: Seq<AreaPlan>, i: nat, j: nat)
    requires
        i <= j <= p.len(),
        forall|k: int| 0 <= k < p.len() ==> (#[trigger] p[k]).first_page() <= p[k].end_page(),
    ensures
        plan_pages(p, i) <= plan_pages(p, j),
    decreases j - i,
{
    if i < j {
        lemma_plan_pages_mono(p, i, (j - 1) as nat);
    }
}

/// The bytes of every segment planned from a file lie within the file.
proof fn lemma_elf_plan_in_file(data: Seq<u8>, h: ElfHeaderInfo, n: nat)
    requires
        elf_plan(data, h, n) is Some,
        data.len() <= usize::MAX,
    ensures
        forall|k: int| 0 <= k < elf_plan(data, h, n).unwrap().len() ==> {
            let sp = #[trigger] elf_plan(data, h, n).unwrap()[k];
            sp.data_start <= sp.data_end <= data.len()
        },
    decreases n,
{
    if n > 0 {
        lemma_elf_plan_in_file(data, h, (n - 1) as nat);
        let prev = elf_plan(data, h, (n - 1) as nat).unwrap();
        let cur = elf_plan(data, h, n).unwrap();
        let i = (n - 1) as u16;
        let ph = crate::mm::elf::elf_program_header_of(data, i).unwrap();
        if cur != prev {
            let sp = segment_plan(ph, data.len()).unwrap();
            assert(cur == prev.push(sp));
            assert forall|k: int| 0 <= k < cur.len() implies {
                let x = #[trigger] cur[k];
                x.data_start <= x.data_end <= data.len()
            } by {
                if k < prev.len() {
                    assert(cur[k] == prev[k]);
                }
            }
        }
    }
}

/// Whether `areas_fit` holds of `plans` with the allocator `frames`, computed.
fn check_areas_fit(plans: &Vec<AreaPlan>, frames: &FrameAllocator) -> (r: bool)
    requires
        frames.wf(),
    ensures
        r == areas_fit(plans@, frames@),
{
    let n = plans.len();
    let tv = VirtAddr::from_usize(TRAMPOLINE).floor().0;
    assert(tv == trampoline_vpn());
    let mut total: u128 = 0;
    let mut i: usize = 0;
    while i < n
        invariant
            n == plans@.len(),
            i <= n,
            tv == trampoline_vpn(),
            total == plan_pages(plans@, i as nat),
            total <= i * 0x1_0000_0000_0000_0000,
            forall|k: int| 0 <= k < i ==> (#[trigger] plans@[k]).first_page() <= plans@[k].end_page(),
            forall|k: int| 0 <= k < i ==> !((#[trigger] plans@[k]).first_page() <= trampoline_vpn() < plans@[k].end_page()),
            forall|k: int| 0 <= k < i && (#[trigger] plans@[k]).copy ==> {
                &&& plans@[k].data_start <= plans@[k].data_end
                &&& chunk_count(plans@[k].data_end - plans@[k].data_start) <= plans@[k].end_page() - plans@[k].first_page()
            },
        decreases n - i,
    {
        let a = plans[i];
        let s = VirtAddr(a.start_va).floor().0;
        let e = VirtAddr(a.end_va).ceil().0;
        if s > e {
            assert(!(plans@[i as int].first_page() <= plans@[i as int].end_page()));
            return false;
        }
        if s <= tv && tv < e {
            assert(plans@[i as int].first_page() <= trampoline_vpn() < plans@[i as int].end_page());
            return false;
        }
        if a.copy {
            if a.data_start > a.data_end {
                assert(plans@[i as int].copy && !(plans@[i as int].data_start <= plans@[i as int].data_end));
                return false;
            }
            let len = a.data_end - a.data_start;
            let chunks: usize = if len == 0 { 1 } else { (len - 1) / PAGE_SIZE + 1 };
            assert(chunks == chunk_count(len as int)) by {
                if len > 0 {
                    assert((len - 1) / PAGE_SIZE as int + 1 == (len + PAGE_SIZE - 1) / PAGE_SIZE as int);
                }
            }
            if chunks > e - s {
                assert(plans@[i as int].copy && !(chunk_count(plans@[i as int].data_end - plans@[i as int].data_start)
                    <= plans@[i as int].end_page() - plans@[i as int].first_page()));
                return false;
            }
        }
        total = total + (e - s) as u128;
        i = i + 1;
    }
    let mut i: usize = 0;
    while i < n
        invariant
            n == plans@.len(),
            i <= n,
            forall|a: int, b: int| 0 <= a < i && a < b < n ==> #[trigger] plans@[a].apart(plans@[b]),
            forall|k: int| 0 <= k < n ==> (#[trigger] plans@[k]).first_page() <= plans@[k].end_page(),
        decreases n - i,
    {
        let a = plans[i];
        let s1 = VirtAddr(a.start_va).floor().0;
        let e1 = VirtAddr(a.end_va).ceil().0;
        let mut j: usize = i + 1;
        while j < n
            invariant
                n == plans@.len(),
                i < n,
                i + 1 <= j <= n,
                a == plans@[i as int],
                s1 == plans@[i as int].first_page(),
                e1 == plans@[i as int].end_page(),
                forall|b: int| i < b < j ==> #[trigger] plans@[i as int].apart(plans@[b]),
            decreases n - j,
        {
            let b = plans[j];
            let s2 = VirtAddr(b.start_va).floor().0;
            let e2 = VirtAddr(b.end_va).ceil().0;
            if s1 < e1 && s2 < e2 && s1 < e2 && e1 > s2 {
                assert(!plans@[i as int].apart(plans@[j as int]));
                return false;
            }
            j = j + 1;
        }
        i = i + 1;
    }
    total + 1 <= frames.available()
}

impl MemorySet {
    /// The address space of the program in the ELF file `elf_data`: the
    /// trampoline mapped to the code at `strampoline`; each loadable segment,
    /// user accessible with the permission of its flags and its bytes of the
    /// file copied in; a user stack of `USER_STACK_SIZE` bytes one guard page
    /// above the last segment; an empty area above the stack; and the trap
    /// context below the trampoline. Returns the space, the top of the user
    /// stack and the entry point, or `None` when the file cannot be read (no
    /// ELF magic, a header or segment that cannot be parsed, bytes beyond the
    /// end of the file), the stack would pass the top of the address space, or
    /// the areas do not fit. `None` stands for each of these cases, in which a
    /// loader that assumes a well-formed file and enough memory would panic;
    /// the allocator is then left as it was.
    pub fn from_elf(elf_data: &[u8], strampoline: usize, frames: &mut FrameAllocator) -> (r: Option<(MemorySet, usize, usize)>)
        requires
            old(frames).wf(),
            strampoline % PAGE_SIZE == 0,
        ensures
            final(frames).wf(),
            match r {
                None => !loadable(elf_data@, old(frames)@) && final(frames)@ == old(frames)@,
                Some((ms, user_sp, entry)) => {
                    let (segs, e) = elf_load_plan(elf_data@).unwrap();
                    let p = program_areas(segs);
                    &&& loadable(elf_data@, old(frames)@)
                    &&& user_sp == stack_top(segs)
                    &&& entry == e as usize
                    &&& ms.space_inv()
                    &&& final(frames)@ == allocs(old(frames)@, (1 + plan_pages(p, p.len())) as nat)
                    &&& planned_space(ms.areas(), ms.pt(), elf_data@, p, p.len(), old(frames)@, strampoline)
                },
            },
    {
        let ghost s0 = frames@;
        let (segs, entry) = match load_plan(elf_data) {
            Some(x) => x,
            None => return None,
        };
        let last_end: usize = if segs.len() == 0 {
            0
        } else {
            VirtAddr(segs[segs.len() - 1].end_va).ceil().0
        };
        let max_end_va = VirtAddr::from_vpn(VirtPageNum(last_end));
        let bottom = match max_end_va.to_usize().checked_add(PAGE_SIZE) {
            Some(b) => b,
            None => return None,
        };
        let top = match bottom.checked_add(USER_STACK_SIZE) {
            Some(t) => t,
            None => return None,
        };
        proof {
            assert(bottom == stack_bottom(segs@));
        }
        let mut plans: Vec<AreaPlan> = Vec::new();
        let mut k: usize = 0;
        while k < segs.len()
            invariant
                k <= segs@.len(),
                plans@ == segs@.subrange(0, k as int).map_values(|sp: SegmentPlan| segment_area(sp)),
            decreases segs@.len() - k,
        {
            let sp = segs[k];
            plans.push(
                AreaPlan {
                    start_va: sp.start_va,
                    end_va: sp.end_va,
                    perm: sp.perm,
                    copy: true,
                    data_start: sp.data_start,
                    data_end: sp.data_end,
                },
            );
            proof {
                assert(segs@.subrange(0, k + 1).map_values(|sp: SegmentPlan| segment_area(sp)) =~= segs@.subrange(
                    0,
                    k as int,
                ).map_values(|sp: SegmentPlan| segment_area(sp)).push(segment_area(sp)));
            }
            k = k + 1;
        }
        let user = MAP_R | MAP_W | MAP_U;
        plans.push(
            AreaPlan {
                start_va: VirtAddr::from_usize(bottom).0,
                end_va: VirtAddr::from_usize(top).0,
                perm: user,
                copy: false,
                data_start: 0,
                data_end: 0,
            },
        );
        plans.push(
            AreaPlan {
                start_va: VirtAddr::from_usize(top).0,
                end_va: VirtAddr::from_usize(top).0,
                perm: user,
                copy: false,
                data_start: 0,
                data_end: 0,
            },
        );
        plans.push(
            AreaPlan {
                start_va: VirtAddr::from_usize(TRAP_CONTEXT_BASE).0,
                end_va: VirtAddr::from_usize(TRAMPOLINE).0,
                perm: MAP_R | MAP_W,
                copy: false,
                data_start: 0,
                data_end: 0,
            },
        );
        let ghost p = plans@;
        proof {
            assert(segs@.subrange(0, segs@.len() as int) =~= segs@);
            assert(p =~= program_areas(segs@));
        }
        if !check_areas_fit(&plans, frames) {
            return None;
        }
        proof {
            lemma_plan_pages_mono(p, 0, p.len());
            lemma_alloc_next_some(s0);
            let h = crate::mm::elf::elf_header_of(elf_data@).unwrap();
            assert(elf_data@.len() == elf_data.len());
            lemma_elf_plan_in_file(elf_data@, h, h.ph_count as nat);
            assert forall|j: int| 0 <= j < p.len() && (#[trigger] p[j]).copy implies p[j].data_end <= elf_data@.len() by {
                assert(j < segs@.len());
                assert(p[j] == segment_area(segs@[j]));
            }
        }
        let mut memory_set = MemorySet::new_bare(frames);
        memory_set.map_trampoline(strampoline);
        proof {
            assert(allocs(s0, 0) == s0);
            assert(allocs(s0, 1) == frames@);
            assert(planned_space(memory_set.areas(), memory_set.pt(), elf_data@, p, 0, s0, strampoline));
        }
        let mut i: usize = 0;
        while i < plans.len()
            invariant
                i <= p.len(),
                p == plans@,
                areas_fit(p, s0),
                s0.current <= s0.end,
                forall|j: int| 0 <= j < p.len() && (#[trigger] p[j]).copy ==> p[j].data_end <= elf_data@.len(),
                frames.wf(),
                frames@ == allocs(s0, (1 + plan_pages(p, i as nat)) as nat),
                memory_set.space_inv(),
                planned_space(memory_set.areas(), memory_set.pt(), elf_data@, p, i as nat, s0, strampoline),
            decreases p.len() - i,
        {
            let a = plans[i];
            let area = MapArea::new(VirtAddr(a.start_va), VirtAddr(a.end_va), MapType::Framed, MapPermission { bits: a.perm });
            let ghost m0 = memory_set.areas();
            let ghost pt0 = memory_set.pt();
            let ghost sa = frames@;
            let ghost pp = plan_pages(p, i as nat);
            proof {
                assert(p[i as int] == a);
                assert(a.first_page() <= a.end_page());
                assert(plan_pages(p, (i + 1) as nat) == pp + (a.end_page() - a.first_page()));
                lemma_plan_pages_mono(p, (i + 1) as nat, p.len());
                lemma_plan_pages_mono(p, 0, i as nat);
                assert(1 + plan_pages(p, p.len()) <= available(s0));
                lemma_allocs_available(s0, (1 + pp) as nat);
                assert(area@.frames =~= Map::empty());
                lemma_planned_free(m0, pt0, elf_data@, p, i as nat, s0, strampoline);
            }
            if a.copy {
                memory_set.push(area, Some(&elf_data[a.data_start..a.data_end]), frames);
            } else {
                memory_set.push(area, None, frames);
            }
            proof {
                let n = a.end_page() - a.first_page();
                lemma_allocs_add(s0, (1 + pp) as nat, n as nat);
                assert(allocs(sa, 0) == sa);
                lemma_planned_step(m0, pt0, memory_set.areas(), memory_set.pt(), elf_data@, p, i as nat, s0, strampoline);
            }
            i = i + 1;
        }
        Some((memory_set, top, entry as usize))
    }
}

} // verus!
