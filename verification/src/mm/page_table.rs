//! Page table entries and a page table seen as a map from virtual pages to entries.
use vstd::prelude::*;
use std::collections::BTreeMap;
use crate::mm::address::{PhysPageNum, VirtPageNum};
use crate::mm::frame_allocator::{FrameAllocator, FrameTracker, alloc_next, alloc_step};

verus! {

broadcast use vstd::std_specs::btree::group_btree_axioms;

/// Valid bit of an entry.
pub const PTE_V: u8 = 1;

/// Readable bit of an entry.
pub const PTE_R: u8 = 2;

/// Writable bit of an entry.
pub const PTE_W: u8 = 4;

/// Executable bit of an entry.
pub const PTE_X: u8 = 8;

/// User-accessible bit of an entry.
pub const PTE_U: u8 = 16;

/// The flags of a page table entry: `V R W X U G A D`, one bit each.
#[derive(Copy, Clone, Debug, PartialEq, Eq, Structural)]
pub struct PTEFlags {
    pub bits: u8,
}

impl PTEFlags {
    /// Flags from raw bits; every bit of a `u8` names a flag, so this always succeeds.
    pub fn from_bits(bits: u8) -> (r: Option<PTEFlags>)
        ensures
            r == Some(PTEFlags { bits }),
    {
        Some(PTEFlags { bits })
    }

    /// The union of two flag sets.
    pub fn union(self, other: PTEFlags) -> (r: PTEFlags)
        ensures
            r.bits == self.bits | other.bits,
    {
        PTEFlags { bits: self.bits | other.bits }
    }

    /// Whether every flag of `other` is set here.
    pub fn contains(self, other: PTEFlags) -> (r: bool)
        ensures
            r == (self.bits & other.bits == other.bits),
    {
        self.bits & other.bits == other.bits
    }
}

/// An entry of a page table: the physical page it points to and its flags.
#[derive(Copy, Clone, Debug, PartialEq, Eq, Structural)]
pub struct PageTableEntry {
    pub ppn: PhysPageNum,
    pub flags: PTEFlags,
}

impl PageTableEntry {
    /// An entry pointing to `ppn` with `flags`.
    pub fn new(ppn: PhysPageNum, flags: PTEFlags) -> (r: PageTableEntry)
        ensures
            r == (PageTableEntry { ppn, flags }),
    {
        PageTableEntry { ppn, flags }
    }

    /// The physical page the entry points to.
    pub fn ppn(&self) -> (r: PhysPageNum)
        ensures
            r == self.ppn,
    {
        self.ppn
    }

    /// The flags of the entry.
    pub fn flags(&self) -> (r: PTEFlags)
        ensures
            r == self.flags,
    {
        self.flags
    }

    /// Whether the valid bit is set.
    pub fn is_valid(&self) -> (r: bool)
        ensures
            r == (self.flags.bits & PTE_V == PTE_V),
    {
        self.flags.bits & PTE_V == PTE_V
    }

    /// Whether the readable bit is set.
    pub fn readable(&self) -> (r: bool)
        ensures
            r == (self.flags.bits & PTE_R == PTE_R),
    {
        self.flags.bits & PTE_R == PTE_R
    }

    /// Whether the writable bit is set.
    pub fn writable(&self) -> (r: bool)
        ensures
            r == (self.flags.bits & PTE_W == PTE_W),
    {
        self.flags.bits & PTE_W == PTE_W
    }

    /// Whether the executable bit is set.
    pub fn executable(&self) -> (r: bool)
        ensures
            r == (self.flags.bits & PTE_X == PTE_X),
    {
        self.flags.bits & PTE_X == PTE_X
    }
}

/// The entry that mapping a page to `ppn` with `flags` stores: the flags with `V` added.
pub open spec fn mapped_entry(ppn: usize, flags: u8) -> PageTableEntry {
    PageTableEntry { ppn: PhysPageNum(ppn), flags: PTEFlags { bits: flags | PTE_V } }
}

/// A page table: its root frame and the entry of each mapped virtual page.
pub struct PageTable {
    root: FrameTracker,
    entries: BTreeMap<usize, PageTableEntry>,
}

impl View for PageTable {
    type V = Map<usize, PageTableEntry>;

    closed spec fn view(&self) -> Map<usize, PageTableEntry> {
        self.entries@
    }
}

impl PageTable {
    /// The physical page of the root of the table.
    pub closed spec fn root_ppn(&self) -> usize {
        self.root@.ppn
    }

    /// An empty page table whose root is a newly allocated frame.
    pub fn new(frames: &mut FrameAllocator) -> (r: PageTable)
        requires
            old(frames).wf(),
            alloc_next(old(frames)@) is Some,
        ensures
            final(frames).wf(),
            final(frames)@ == alloc_step(old(frames)@),
            r@.dom().is_empty(),
            Some(r.root_ppn()) == alloc_next(old(frames)@),
    {
        let root = frames.frame_alloc().unwrap();
        let entries: BTreeMap<usize, PageTableEntry> = BTreeMap::new();
        let r = PageTable { root, entries };
        assert(r@.dom() =~= Set::empty());
        r
    }

    /// Maps `vpn` to `ppn` with `flags` and the valid bit.
    pub fn map(&mut self, vpn: VirtPageNum, ppn: PhysPageNum, flags: PTEFlags)
        requires
            !old(self)@.contains_key(vpn.0),
        ensures
            final(self)@ == old(self)@.insert(vpn.0, mapped_entry(ppn.0, flags.bits)),
            final(self).root_ppn() == old(self).root_ppn(),
    {
        let pte = PageTableEntry::new(ppn, flags.union(PTEFlags { bits: PTE_V }));
        self.entries.insert(vpn.0, pte);
    }

    /// Removes the mapping of `vpn`.
    pub fn unmap(&mut self, vpn: VirtPageNum)
        requires
            old(self)@.contains_key(vpn.0),
        ensures
            final(self)@ == old(self)@.remove(vpn.0),
            final(self).root_ppn() == old(self).root_ppn(),
    {
        self.entries.remove(&vpn.0);
    }

    /// The entry of `vpn`, if it is mapped.
    pub fn translate(&self, vpn: VirtPageNum) -> (r: Option<PageTableEntry>)
        ensures
            r == (if self@.contains_key(vpn.0) { Some(self@[vpn.0]) } else { None }),
    {
        match self.entries.get(&vpn.0) {
            Some(pte) => Some(*pte),
            None => None,
        }
    }

    /// The value of the `satp` register that selects this table: Sv39 mode (8)
    /// in the top four bits and the root page below.
    pub fn token(&self) -> (r: usize)
        ensures
            r == (0x8000_0000_0000_0000u64 | self.root_ppn() as u64) as usize,
            self.root_ppn() < 0x1000_0000_0000_0000 ==> r == (0x8000_0000_0000_0000u64 + self.root_ppn() as u64) as usize,
    {
        let root = self.root.ppn().0 as u64;
        proof {
            assert(8u64 << 60u64 == 0x8000_0000_0000_0000u64) by (bit_vector);
            if root < 0x1000_0000_0000_0000u64 {
                assert(0x8000_0000_0000_0000u64 | root == 0x8000_0000_0000_0000u64 + root) by (bit_vector)
                    requires
                        root < 0x1000_0000_0000_0000u64,
                ;
            }
        }
        ((8u64 << 60u64) | root) as usize
    }
}

} // verus!
