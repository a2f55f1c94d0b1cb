//! Reading the program headers of an ELF file with the `xmas_elf` crate, and
//! the plan of the segments to load from them.
use vstd::prelude::*;
use xmas_elf::ElfFile;
use xmas_elf::header::Class;
use xmas_elf::program::Type;
use crate::mm::address::{va_span, floor_spec, ceil_spec};
use crate::mm::memory_set::{MAP_R, MAP_W, MAP_X, MAP_U};

verus! {

/// What the loader reads of an ELF header.
#[derive(Copy, Clone, Debug)]
pub struct ElfHeaderInfo {
    pub magic: [u8; 4],
    pub class64: bool,
    pub ph_count: u16,
    pub ph_offset: u64,
    pub ph_entry_size: u16,
    pub entry_point: u64,
}

/// What the loader reads of a program header.
#[derive(Copy, Clone, Debug, PartialEq, Eq, Structural)]
pub struct ProgramSegment {
    /// Whether the type field holds a known segment type.
    pub type_ok: bool,
    /// Whether the segment is a loadable one.
    pub is_load: bool,
    pub virtual_addr: u64,
    pub mem_size: u64,
    pub offset: u64,
    pub file_size: u64,
    pub flags: u32,
}

/// The header that `xmas_elf` reads from `data`, if it accepts it.
pub uninterp spec fn elf_header_of(data: Seq<u8>) -> Option<ElfHeaderInfo>;

/// Program header `index` as `xmas_elf` reads it from `data`, if it gives one.
pub uninterp spec fn elf_program_header_of(data: Seq<u8>, index: u16) -> Option<ProgramSegment>;

/// The ELF magic number.
pub open spec fn elf_magic() -> Seq<u8> {
    seq![0x7fu8, 0x45u8, 0x4cu8, 0x46u8]
}

/// Whether `xmas_elf` can read a header from `data` without panicking: it
/// refuses a file shorter than the first part or without the magic number or a
/// known class, and otherwise slices the second part, of 36 bytes for 32-bit
/// and 48 bytes for 64-bit files, from byte 16.
pub open spec fn header_readable(data: Seq<u8>) -> bool {
    data.len() < 16 || data.subrange(0, 4) != elf_magic() || (data[4] != 1 && data[4] != 2)
        || (data[4] == 1 && data.len() >= 52) || (data[4] == 2 && data.len() >= 64)
}

/// Whether `xmas_elf` can read program header `index` of a file with header `h`
/// and `len` bytes without panicking: when it reads one, the entry lies within
/// the file, is large enough for a program header of the file's class, and
/// starts at a multiple of that header's alignment (8 bytes for 64-bit files,
/// 4 for 32-bit ones) from the start of the file.
pub open spec fn ph_readable(h: ElfHeaderInfo, len: nat, index: u16) -> bool {
    (index < h.ph_count && h.ph_offset > 0 && h.ph_entry_size > 0) ==> {
        &&& h.ph_offset + (index + 1) * h.ph_entry_size <= len
        &&& h.ph_entry_size >= (if h.class64 { 56int } else { 32int })
        &&& (h.ph_offset + index * h.ph_entry_size) % (if h.class64 { 8int } else { 4int }) == 0
    }
}

/// Reads the header of an ELF file: `ElfFile::new`, handed a copy of `data` that
/// starts at an address aligned to 8 bytes, as `xmas_elf` asserts for the
/// structures it reads. It refuses (`None`) a file without the magic number, so
/// a header it gives has it.
#[verifier::external_body]
fn elf_header(data: &[u8]) -> (h: Option<ElfHeaderInfo>)
    requires
        header_readable(data@),
    ensures
        h == elf_header_of(data@),
        h is Some ==> h.unwrap().magic@ == elf_magic(),
{
    let mut buf = vec![0u8; data.len() + 7];
    let off = buf.as_ptr().align_offset(8);
    buf[off..off + data.len()].copy_from_slice(data);
    let elf = ElfFile::new(&buf[off..off + data.len()]).ok()?;
    let (pt1, pt2) = (elf.header.pt1, elf.header.pt2);
    let class64 = match pt1.class() { Class::SixtyFour => true, _ => false };
    Some(ElfHeaderInfo { magic: pt1.magic, class64, ph_count: pt2.ph_count(), ph_offset: pt2.ph_offset(),
        ph_entry_size: pt2.ph_entry_size(), entry_point: pt2.entry_point() })
}

/// Reads program header `index` of an ELF file: `ElfFile::program_header`, with
/// its type, addresses, sizes and flags, handed a copy of `data` that starts at
/// an address aligned to 8 bytes. It gives a header exactly when `index` is
/// below the count and the table's offset and entry size are not zero.
#[verifier::external_body]
fn elf_program_header(data: &[u8], index: u16) -> (ph: Option<ProgramSegment>)
    requires
        header_readable(data@),
        elf_header_of(data@) is Some,
        ph_readable(elf_header_of(data@).unwrap(), data@.len(), index),
    ensures
        ph == elf_program_header_of(data@, index),
        ({
            let h = elf_header_of(data@).unwrap();
            ph is Some <==> (index < h.ph_count && h.ph_offset > 0 && h.ph_entry_size > 0)
        }),
        ph is Some && ph.unwrap().is_load ==> ph.unwrap().type_ok,
{
    let mut buf = vec![0u8; data.len() + 7];
    let off = buf.as_ptr().align_offset(8);
    buf[off..off + data.len()].copy_from_slice(data);
    let ph = ElfFile::new(&buf[off..off + data.len()]).ok()?.program_header(index).ok()?;
    let (type_ok, is_load) = match ph.get_type() { Ok(Type::Load) => (true, true), Ok(_) => (true, false), Err(_) => (false, false) };
    Some(ProgramSegment { type_ok, is_load, virtual_addr: ph.virtual_addr(), mem_size: ph.mem_size(),
        offset: ph.offset(), file_size: ph.file_size(), flags: ph.flags().0 })
}

/// A loadable segment as the loader maps it: its first and its end address,
/// each cut to 39 bits, its permission, and the bytes of the file copied into it.
#[derive(Copy, Clone, Debug, PartialEq, Eq, Structural)]
pub struct SegmentPlan {
    pub start_va: usize,
    pub end_va: usize,
    pub perm: u8,
    pub data_start: usize,
    pub data_end: usize,
}

/// The permission of a segment with ELF flags `flags` (`X` = 1, `W` = 2, `R` = 4): user accessible,
/// and readable, writable, executable as the flags say.
pub open spec fn segment_perm(flags: u32) -> u8 {
    MAP_U | (if flags & 4 == 4 { MAP_R } else { 0 }) | (if flags & 2 == 2 { MAP_W } else { 0 }) | (if flags
        & 1 == 1 { MAP_X } else { 0 })
}

/// A segment is always user accessible; it is readable exactly when its flags
/// have the read bit (4), writable exactly when they have the write bit (2),
/// executable exactly when they have the execute bit (1), and it has no other
/// permission.
pub proof fn lemma_segment_perm_follows_flags(flags: u32)
    ensures
        segment_perm(flags) & MAP_U == MAP_U,
        (segment_perm(flags) & MAP_R == MAP_R) <==> (flags & 4 != 0),
        (segment_perm(flags) & MAP_W == MAP_W) <==> (flags & 2 != 0),
        (segment_perm(flags) & MAP_X == MAP_X) <==> (flags & 1 != 0),
        segment_perm(flags) & !(MAP_R | MAP_W | MAP_X | MAP_U) == 0,
{
    let p = segment_perm(flags);
    let r: u8 = if flags & 4 == 4 { MAP_R } else { 0 };
    let w: u8 = if flags & 2 == 2 { MAP_W } else { 0 };
    let x: u8 = if flags & 1 == 1 { MAP_X } else { 0 };
    assert(p == ((MAP_U | r) | w) | x);
    assert(((MAP_R | MAP_W) | MAP_X) | MAP_U == 30u8) by (bit_vector);
    assert(flags & 4 == 4 <==> flags & 4 != 0) by (bit_vector);
    assert(flags & 2 == 2 <==> flags & 2 != 0) by (bit_vector);
    assert(flags & 1 == 1 <==> flags & 1 != 0) by (bit_vector);
    assert({
        &&& p & 16u8 == 16u8
        &&& (p & 2u8 == 2u8) <==> (r == 2u8)
        &&& (p & 4u8 == 4u8) <==> (w == 4u8)
        &&& (p & 8u8 == 8u8) <==> (x == 8u8)
        &&& p & !30u8 == 0u8
    }) by (bit_vector)
        requires
            p == ((16u8 | r) | w) | x,
            r == 2u8 || r == 0u8,
            w == 4u8 || w == 0u8,
            x == 8u8 || x == 0u8,
    ;
}

/// The plan of a loadable segment read from a file of `len` bytes, or `None`
/// when its addresses or file range overflow, its pages are out of order, or its
/// bytes lie beyond the file.
pub open spec fn segment_plan(ph: ProgramSegment, len: nat) -> Option<SegmentPlan> {
    let vend = ph.virtual_addr + ph.mem_size;
    let fend = ph.offset + ph.file_size;
    let start_va = (ph.virtual_addr as usize) as int % va_span();
    let end_va = (vend as u64 as usize) as int % va_span();
    if vend > u64::MAX || fend > u64::MAX || fend > len || floor_spec(start_va) > ceil_spec(end_va) {
        None
    } else {
        Some(SegmentPlan {
            start_va: start_va as usize,
            end_va: end_va as usize,
            perm: segment_perm(ph.flags),
            data_start: ph.offset as usize,
            data_end: fend as usize,
        })
    }
}

/// The plans of the loadable segments among the first `n` program headers of
/// `data`, whose header is `h`, or `None` when reading one of them fails or
/// its plan is `None`.
pub open spec fn elf_plan(data: Seq<u8>, h: ElfHeaderInfo, n: nat) -> Option<Seq<SegmentPlan>>
    decreases n,
{
    if n == 0 {
        Some(Seq::empty())
    } else {
        match elf_plan(data, h, (n - 1) as nat) {
            None => None,
            Some(prev) => {
                let i = (n - 1) as u16;
                if !ph_readable(h, data.len(), i) {
                    None
                } else {
                    match elf_program_header_of(data, i) {
                        None => None,
                        Some(ph) => {
                            if !ph.type_ok {
                                None
                            } else if !ph.is_load {
                                Some(prev)
                            } else {
                                match segment_plan(ph, data.len()) {
                                    None => None,
                                    Some(sp) => Some(prev.push(sp)),
                                }
                            }
                        },
                    }
                }
            },
        }
    }
}

/// The plan of an ELF file: its loadable segments and its entry point, or
/// `None` when its header or one of its program headers cannot be read.
pub open spec fn elf_load_plan(data: Seq<u8>) -> Option<(Seq<SegmentPlan>, u64)> {
    if !header_readable(data) {
        None
    } else {
        match elf_header_of(data) {
            None => None,
            Some(h) => match elf_plan(data, h, h.ph_count as nat) {
                None => None,
                Some(p) => Some((p, h.entry_point)),
            },
        }
    }
}

/// Whether `header_readable` holds of `data`, computed.
fn check_header_readable(data: &[u8]) -> (r: bool)
    ensures
        r == header_readable(data@),
{
    let len = data.len();
    if len < 16 {
        return true;
    }
    if !(data[0] == 0x7f && data[1] == 0x45 && data[2] == 0x4c && data[3] == 0x46) {
        proof {
            assert(data@.subrange(0, 4) != elf_magic()) by {
                if data@.subrange(0, 4) == elf_magic() {
                    assert(data@.subrange(0, 4)[0] == data@[0]);
                    assert(data@.subrange(0, 4)[1] == data@[1]);
                    assert(data@.subrange(0, 4)[2] == data@[2]);
                    assert(data@.subrange(0, 4)[3] == data@[3]);
                }
            }
        }
        return true;
    }
    proof {
        assert(data@.subrange(0, 4) =~= elf_magic());
    }
    let class = data[4];
    class != 1 && class != 2 || (class == 1 && len >= 52) || (class == 2 && len >= 64)
}

/// The permission of a segment with ELF flags `flags`.
fn perm_of_flags(flags: u32) -> (r: u8)
    ensures
        r == segment_perm(flags),
{
    let read = if flags & 4 == 4 { MAP_R } else { 0 };
    let write = if flags & 2 == 2 { MAP_W } else { 0 };
    let exec = if flags & 1 == 1 { MAP_X } else { 0 };
    MAP_U | read | write | exec
}

/// Once reading the first `n` program headers fails, reading more fails too.
proof fn lemma_elf_plan_none(data: Seq<u8>, h: ElfHeaderInfo, n: nat, m: nat)
    requires
        n <= m,
        elf_plan(data, h, n) is None,
    ensures
        elf_plan(data, h, m) is None,
    decreases m - n,
{
    if n < m {
        lemma_elf_plan_none(data, h, n, (m - 1) as nat);
    }
}

/// Reads the plan of the ELF file `data`: its loadable segments, in the order
/// of their program headers, and its entry point.
pub fn load_plan(data: &[u8]) -> (r: Option<(Vec<SegmentPlan>, u64)>)
    ensures
        match r {
            Some((p, entry)) => elf_load_plan(data@) == Some((p@, entry)),
            None => elf_load_plan(data@) is None,
        },
{
    if !check_header_readable(data) {
        return None;
    }
    let h = match elf_header(data) {
        Some(h) => h,
        None => return None,
    };
    let len = data.len();
    let mut plan: Vec<SegmentPlan> = Vec::new();
    let mut i: u16 = 0;
    while i < h.ph_count
        invariant
            i <= h.ph_count,
            header_readable(data@),
            elf_header_of(data@) == Some(h),
            len == data@.len(),
            elf_plan(data@, h, i as nat) == Some(plan@),
        decreases h.ph_count - i,
    {
        let readable = if i < h.ph_count && h.ph_offset > 0 && h.ph_entry_size > 0 {
            let entry = h.ph_entry_size as u64;
            let need: u64 = if h.class64 { 56 } else { 32 };
            let align: u64 = if h.class64 { 8 } else { 4 };
            match (i as u64 + 1).checked_mul(entry) {
                Some(span) => match h.ph_offset.checked_add(span) {
                    Some(end) => {
                        assert(span - entry == i * entry) by (nonlinear_arith)
                            requires
                                span == (i + 1) * entry,
                        ;
                        end <= len as u64 && entry >= need && (end - entry) % align == 0
                    },
                    None => false,
                },
                None => false,
            }
        } else {
            true
        };
        proof {
            assert(len as u64 as int == len);
        }
        if !readable {
            proof {
                lemma_elf_plan_none(data@, h, (i + 1) as nat, h.ph_count as nat);
            }
            return None;
        }
        let ph = match elf_program_header(data, i) {
            Some(ph) => ph,
            None => {
                proof {
                    lemma_elf_plan_none(data@, h, (i + 1) as nat, h.ph_count as nat);
                }
                return None;
            },
        };
        if !ph.type_ok {
            proof {
                lemma_elf_plan_none(data@, h, (i + 1) as nat, h.ph_count as nat);
            }
            return None;
        }
        if ph.is_load {
            let vend = match ph.virtual_addr.checked_add(ph.mem_size) {
                Some(v) => v,
                None => {
                    proof {
                        lemma_elf_plan_none(data@, h, (i + 1) as nat, h.ph_count as nat);
                    }
                    return None;
                },
            };
            let fend = match ph.offset.checked_add(ph.file_size) {
                Some(f) => f,
                None => {
                    proof {
                        lemma_elf_plan_none(data@, h, (i + 1) as nat, h.ph_count as nat);
                    }
                    return None;
                },
            };
            if fend > len as u64 {
                proof {
                    lemma_elf_plan_none(data@, h, (i + 1) as nat, h.ph_count as nat);
                }
                return None;
            }
            let start_va = crate::mm::address::VirtAddr::from_usize(ph.virtual_addr as usize);
            let end_va = crate::mm::address::VirtAddr::from_usize(vend as usize);
            let start = start_va.floor().0;
            let end = end_va.ceil().0;
            if start > end {
                proof {
                    lemma_elf_plan_none(data@, h, (i + 1) as nat, h.ph_count as nat);
                }
                return None;
            }
            let sp = SegmentPlan {
                start_va: start_va.0,
                end_va: end_va.0,
                perm: perm_of_flags(ph.flags),
                data_start: ph.offset as usize,
                data_end: fend as usize,
            };
            plan.push(sp);
        }
        i = i + 1;
    }
    Some((plan, h.entry_point))
}

} // verus!
