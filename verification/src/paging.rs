//! The 4-level page-table manager.
//!
//! Real page tables live in physical frames and reference each other by
//! physical address. Here the hierarchy is held in an arena: the top-level
//! table plus a vector of subsidiary tables, each tagged with the physical
//! frame it occupies and the level it serves (3, 2 or 1). An entry's target
//! is resolved by looking its frame up in the arena, which is exactly what
//! the hardware's walk does over physical memory. The recursive trick — the
//! top table's entry 511 pointing at the top table itself — is resolved the
//! same way: a target equal to `p4_frame` names the top table again.
//!
//! TLB maintenance is hardware work; `p4_map` reports the virtual address
//! whose mapping changed so the caller can issue the invalidation.

use vstd::prelude::*;
use crate::frame_allocator::{FrameInfo, BitMapFrameAllocator, MemoryRegion, MemoryMapEntryType};
use crate::utils::spec_ceil_div;
use crate::FRAME_SIZE;

verus! {

/// Page-table entry flag bits (bits 0 through 8, and bit 63).
pub const ENTRY_PRESENT: u64 = 0x1;
pub const ENTRY_WRITABLE: u64 = 0x2;
pub const ENTRY_USER_ACCESSIBLE: u64 = 0x4;
pub const ENTRY_WRITE_THROUGH: u64 = 0x8;
pub const ENTRY_NO_CACHE: u64 = 0x10;
pub const ENTRY_ACCESSED: u64 = 0x20;
pub const ENTRY_DIRTY: u64 = 0x40;
pub const ENTRY_HUGE_PAGE: u64 = 0x80;
pub const ENTRY_GLOBAL: u64 = 0x100;
pub const ENTRY_NO_EXECUTE: u64 = 0x8000000000000000;

/// Mask of the physical-address bits of an entry.
pub const ENTRY_ADDRESS_MASK: u64 = 0x000fffff_fffff000;

/// Largest frame number whose address fits the entry address bits.
pub const MAX_TABLE_FRAME: u64 = 0xf_ffff_ffff;

/// A set of entry flag bits.
#[derive(Copy, Clone, Debug, Eq, PartialEq, Structural)]
pub struct EntryFlags(pub u64);

impl EntryFlags {
    /// The union of two flag sets.
    pub fn union(self, other: EntryFlags) -> (r: EntryFlags)
        ensures
            r.0 == self.0 | other.0,
    {
        EntryFlags(self.0 | other.0)
    }

    /// Whether every bit of `other` is set in `self`.
    pub fn contains(self, other: EntryFlags) -> (r: bool)
        ensures
            r == ((self.0 & other.0) == other.0),
    {
        (self.0 & other.0) == other.0
    }

    /// The raw bits.
    pub fn bits(self) -> (r: u64)
        ensures
            r == self.0,
    {
        self.0
    }
}

/// How intermediate tables are reached while editing: by their physical
/// address (before the address-space switch, when low memory is identity
/// mapped) or through the recursive entry 511 (after the switch). Both
/// routes lead to the same physical table, which is what the arena stores.
#[derive(Clone, Copy, Debug, Eq, PartialEq, Structural)]
pub enum TableAccess {
    Recursive,
    Identity,
}

/// A 4 KiB virtual page, named both by its index and by its start address.
#[derive(Copy, Clone, Debug, Eq, PartialEq, Structural)]
pub struct PageInfo {
    pub number: u64,
    pub address: u64,
}

/// Whether `p4_map` accepts a page: its walk may pass through the
/// recursive slot 511 at most once. (A page whose level-4 and level-3
/// indices are both 511 would make the walk treat the top table as a
/// level-2 table and corrupt the hierarchy.)
pub open spec fn page_mappable(n: u64) -> bool {
    !(spec_p4_index(n) == 511 && spec_p3_index(n) == 511)
}

/// Page numbers of the two canonical halves of the 48-bit address space:
/// such a number is determined by its four table indices.
pub open spec fn page_canonical(n: u64) -> bool {
    n < 0x800000000 || (0xffff800000000 <= n && n < 0x10000000000000)
}

/// Two canonical page numbers with the same four indices are equal.
pub proof fn lemma_canonical_page_unique(p: u64, q: u64)
    requires
        page_canonical(p),
        page_canonical(q),
        spec_p4_index(p) == spec_p4_index(q),
        spec_p3_index(p) == spec_p3_index(q),
        spec_p2_index(p) == spec_p2_index(q),
        spec_p1_index(p) == spec_p1_index(q),
    ensures
        p == q,
{
    lemma_shift_is_div(p, 0);
    lemma_shift_is_div(p, 9);
    lemma_shift_is_div(p, 18);
    lemma_shift_is_div(p, 27);
    lemma_shift_is_div(q, 0);
    lemma_shift_is_div(q, 9);
    lemma_shift_is_div(q, 18);
    lemma_shift_is_div(q, 27);
    assert((p < 0x800000000u64 || (0xffff800000000u64 <= p && p < 0x10000000000000u64))
        && (q < 0x800000000u64 || (0xffff800000000u64 <= q && q < 0x10000000000000u64))
        && (p >> 27) & 0o777 == (q >> 27) & 0o777
        && (p >> 18) & 0o777 == (q >> 18) & 0o777
        && (p >> 9) & 0o777 == (q >> 9) & 0o777
        && (p >> 0) & 0o777 == (q >> 0) & 0o777
        ==> p == q) by (bit_vector);
}

/// A present entry is not the zero entry.
pub proof fn lemma_present_nonzero(e: u64)
    ensures
        spec_entry_present(e) ==> e != 0,
{
    assert(e & 1u64 == 1u64 ==> e != 0u64) by (bit_vector);
}

/// Index into the level-4 table: bits 39..47 of the address.
pub open spec fn spec_p4_index(number: u64) -> int {
    (number as int / 0x8000000) % 512
}

/// Index into the level-3 table: bits 30..38 of the address.
pub open spec fn spec_p3_index(number: u64) -> int {
    (number as int / 0x40000) % 512
}

/// Index into the level-2 table: bits 21..29 of the address.
pub open spec fn spec_p2_index(number: u64) -> int {
    (number as int / 0x200) % 512
}

/// Index into the level-1 table: bits 12..20 of the address.
pub open spec fn spec_p1_index(number: u64) -> int {
    number as int % 512
}

impl PageInfo {
    /// Index of this page's entry in the level-4 table.
    pub fn p4_index(&self) -> (r: usize)
        ensures
            r == spec_p4_index(self.number),
            r < 512,
    {
        proof {
            lemma_shift_is_div(self.number, 27);
            vstd::arithmetic::div_mod::lemma_mod_bound(self.number as int / 0x8000000, 512);
        }
        ((self.number >> 27) & 0o777) as usize
    }

    /// Index of this page's entry in the level-3 table.
    pub fn p3_index(&self) -> (r: usize)
        ensures
            r == spec_p3_index(self.number),
            r < 512,
    {
        proof {
            lemma_shift_is_div(self.number, 18);
            vstd::arithmetic::div_mod::lemma_mod_bound(self.number as int / 0x40000, 512);
        }
        ((self.number >> 18) & 0o777) as usize
    }

    /// Index of this page's entry in the level-2 table.
    pub fn p2_index(&self) -> (r: usize)
        ensures
            r == spec_p2_index(self.number),
            r < 512,
    {
        proof {
            lemma_shift_is_div(self.number, 9);
            vstd::arithmetic::div_mod::lemma_mod_bound(self.number as int / 0x200, 512);
        }
        ((self.number >> 9) & 0o777) as usize
    }

    /// Index of this page's entry in the level-1 table.
    pub fn p1_index(&self) -> (r: usize)
        ensures
            r == spec_p1_index(self.number),
            r < 512,
    {
        proof {
            lemma_shift_is_div(self.number, 0);
            vstd::arithmetic::div_mod::lemma_mod_bound(self.number as int, 512);
        }
        ((self.number >> 0) & 0o777) as usize
    }

    /// The page holding the given virtual address, which must lie in one of
    /// the two canonical halves of the 48-bit address space.
    pub fn from_address(virtual_address: u64) -> (r: PageInfo)
        requires
            virtual_address < 0x0000_8000_0000_0000 || virtual_address >= 0xffff_8000_0000_0000,
        ensures
            r.number == virtual_address / (FRAME_SIZE as u64),
            r.address == r.number * (FRAME_SIZE as u64),
    {
        let number = virtual_address / FRAME_SIZE;
        proof {
            vstd::arithmetic::div_mod::lemma_fundamental_div_mod(virtual_address as int, FRAME_SIZE as int);
            vstd::arithmetic::div_mod::lemma_mod_bound(virtual_address as int, FRAME_SIZE as int);
            vstd::arithmetic::div_mod::lemma_div_pos_is_pos(virtual_address as int, FRAME_SIZE as int);
            assert((number as int) * (FRAME_SIZE as int) <= virtual_address as int);
        }
        let address = number * FRAME_SIZE;
        PageInfo { number, address }
    }

    /// The page with the given index; its address is `number * FRAME_SIZE`.
    pub fn from_number(number: u64) -> (r: PageInfo)
        requires
            number * (FRAME_SIZE as u64) <= u64::MAX,
        ensures
            r.number == number,
            r.address == number * (FRAME_SIZE as u64),
    {
        PageInfo { number, address: number * FRAME_SIZE }
    }
}

/// Shifting right by `sh` is division by two to the `sh`.
proof fn lemma_shift_is_div(x: u64, sh: u64)
    requires
        sh == 0 || sh == 9 || sh == 18 || sh == 27,
    ensures
        sh == 0 ==> (x >> 0) & 0o777 == (x as int % 512),
        sh == 9 ==> (x >> 9) & 0o777 == (x as int / 0x200) % 512,
        sh == 18 ==> (x >> 18) & 0o777 == (x as int / 0x40000) % 512,
        sh == 27 ==> (x >> 27) & 0o777 == (x as int / 0x8000000) % 512,
{
    assert((x >> 0) & 0o777 == x % 512) by (bit_vector);
    assert((x >> 9) & 0o777 == (x / 0x200) % 512) by (bit_vector);
    assert((x >> 18) & 0o777 == (x / 0x40000) % 512) by (bit_vector);
    assert((x >> 27) & 0o777 == (x / 0x8000000) % 512) by (bit_vector);
}

/// One 64-bit page-table entry: address bits OR'd with flag bits; the raw
/// value zero means unused.
#[derive(Copy, Clone, Debug, Eq, PartialEq, Structural)]
pub struct Entry(pub u64);

/// Whether an entry has the present bit.
pub open spec fn spec_entry_present(e: u64) -> bool {
    e & ENTRY_PRESENT == ENTRY_PRESENT
}

/// Whether an entry has the huge-page bit.
pub open spec fn spec_entry_huge(e: u64) -> bool {
    e & ENTRY_HUGE_PAGE == ENTRY_HUGE_PAGE
}

/// The physical frame number an entry's address bits name.
pub open spec fn spec_entry_target(e: u64) -> u64 {
    (e & ENTRY_ADDRESS_MASK) >> 12
}

impl Entry {
    /// Clear the entry.
    pub fn set_unused(&mut self)
        ensures
            final(self).0 == 0,
    {
        self.0 = 0;
    }

    /// Whether the entry's raw value is zero.
    pub fn is_unused(&self) -> (r: bool)
        ensures
            r == (self.0 == 0),
    {
        self.0 == 0
    }

    /// The flag bits of the entry (address bits are not masked off by the
    /// flag constants, so `contains` checks work unchanged).
    pub fn get_flags(&self) -> (r: EntryFlags)
        ensures
            r.0 == self.0,
    {
        EntryFlags(self.0)
    }

    /// The physical address held in the entry's address bits.
    pub fn read_address(&self) -> (r: u64)
        ensures
            r == self.0 & ENTRY_ADDRESS_MASK,
    {
        self.0 & ENTRY_ADDRESS_MASK
    }

    /// Store `frame`'s address together with `flags`. The address must not
    /// collide with the flag bits.
    pub fn write(&mut self, frame: FrameInfo, flags: EntryFlags)
        requires
            frame.address & !ENTRY_ADDRESS_MASK == 0,
        ensures
            final(self).0 == frame.address | flags.0,
    {
        self.0 = frame.address | flags.bits();
    }

    /// The frame a present entry points at, or `None` when the present bit
    /// is clear.
    pub fn pointed_frame(&self) -> (r: Option<FrameInfo>)
        ensures
            match r {
                Some(f) => {
                    &&& spec_entry_present(self.0)
                    &&& f.address == self.0 & ENTRY_ADDRESS_MASK
                    &&& f.number == f.address / (FRAME_SIZE as u64)
                },
                None => !spec_entry_present(self.0),
            },
    {
        if self.get_flags().contains(EntryFlags(ENTRY_PRESENT)) {
            Some(FrameInfo::from_address(self.read_address()))
        } else {
            None
        }
    }
}

/// 512 contiguous entries: one page table, identical at all four levels.
pub struct EntryTable {
    pub entries: Vec<Entry>,
}

impl EntryTable {
    /// A table has exactly 512 entries.
    pub open spec fn wf(self) -> bool {
        self.entries@.len() == 512
    }

    /// Clear every entry.
    pub fn zero(&mut self)
        requires
            old(self).wf(),
        ensures
            final(self).wf(),
            forall|j: int| 0 <= j < 512 ==> final(self).entries@[j].0 == 0,
    {
        let mut i: usize = 0;
        while i < 512
            invariant
                i <= 512,
                self.wf(),
                forall|j: int| 0 <= j < i ==> self.entries@[j].0 == 0,
            decreases 512 - i,
        {
            self.entries[i] = Entry(0);
            i = i + 1;
        }
    }

    /// A freshly zeroed table.
    pub fn new_zeroed() -> (r: EntryTable)
        ensures
            r.wf(),
            forall|j: int| 0 <= j < 512 ==> r.entries@[j].0 == 0,
    {
        let mut entries: Vec<Entry> = Vec::new();
        while entries.len() < 512
            invariant
                entries@.len() <= 512,
                forall|j: int| 0 <= j < entries@.len() ==> entries@[j].0 == 0,
            decreases 512 - entries@.len(),
        {
            entries.push(Entry(0));
        }
        EntryTable { entries }
    }

    /// The virtual address at which the table reached through entry `index`
    /// appears under the recursive mapping, given this table's own virtual
    /// address: shift the address up one level and splice the index in.
    /// `None` when the entry is absent or a huge-page leaf.
    pub fn next_entry_address_recursive(&self, table_address: u64, index: usize) -> (r: Option<u64>)
        requires
            self.wf(),
            index < 512,
        ensures
            match r {
                Some(a) => {
                    &&& spec_entry_present(self.entries@[index as int].0)
                    &&& !spec_entry_huge(self.entries@[index as int].0)
                    &&& a == (table_address << 9) | ((index as u64) << 12)
                },
                None => !spec_entry_present(self.entries@[index as int].0)
                    || spec_entry_huge(self.entries@[index as int].0),
            },
    {
        let entry_flags = self.entries[index].get_flags();
        if entry_flags.contains(EntryFlags(ENTRY_PRESENT))
            && !entry_flags.contains(EntryFlags(ENTRY_HUGE_PAGE)) {
            Some((table_address << 9) | ((index as u64) << 12))
        } else {
            None
        }
    }
}

/// Why a mapping operation failed.
#[derive(Copy, Clone, Debug, Eq, PartialEq, Structural)]
pub enum MapError {
    /// The level-1 entry is in use and overwriting was not allowed.
    EntryOverwrite,
    /// The frame allocator ran out of frames for a new table.
    OutOfFrames,
    /// An intermediate entry cannot be descended into: it is a huge-page
    /// leaf, lacks the present bit, or names no table of the right level.
    InvalidTableEntry,
}

/// Names a table of the arena: the top-level table or a subsidiary one.
#[derive(Copy, Clone, Debug, Eq, PartialEq, Structural)]
pub enum TableRef {
    Top,
    Sub(usize),
}

/// The paging hierarchy: the top-level table in its physical frame plus
/// every subsidiary table, each tagged with its frame and the level it
/// serves. This arena stands for the physical memory the tables occupy.
pub struct PageTableSpace {
    /// Physical frame of the top-level table.
    pub p4_frame: u64,
    /// The top-level table itself.
    pub p4: EntryTable,
    /// Physical frame of each subsidiary table.
    pub frames: Vec<u64>,
    /// Level each subsidiary table serves: 3, 2 or 1.
    pub levels: Vec<u8>,
    /// The subsidiary tables, parallel to `frames` and `levels`.
    pub tables: Vec<EntryTable>,
}

impl PageTableSpace {
    /// Whether some subsidiary table occupies frame `fr`.
    pub open spec fn has_frame(self, fr: u64) -> bool {
        exists|k: int| 0 <= k < self.frames@.len() && self.frames@[k] == fr
    }

    /// The arena index of the subsidiary table in frame `fr`.
    pub open spec fn frame_index(self, fr: u64) -> int {
        choose|k: int| 0 <= k < self.frames@.len() && self.frames@[k] == fr
    }

    /// Whether frame `fr` holds a subsidiary table of level `lvl`.
    pub open spec fn sub_level_is(self, fr: u64, lvl: int) -> bool {
        exists|k: int| 0 <= k < self.frames@.len() && self.frames@[k] == fr
            && self.levels@[k] == lvl
    }

    /// Whether frame `fr` holds any table of the hierarchy.
    pub open spec fn is_table_frame(self, fr: u64) -> bool {
        fr == self.p4_frame || self.has_frame(fr)
    }

    /// The entries of the table in frame `fr` (empty if no table is there).
    pub open spec fn table_at(self, fr: u64) -> Seq<Entry> {
        if fr == self.p4_frame {
            self.p4.entries@
        } else if self.has_frame(fr) {
            self.tables@[self.frame_index(fr)].entries@
        } else {
            Seq::empty()
        }
    }

    /// Whether the table in frame `fr` may hold pointers to other tables:
    /// the top table or a table of level 3 or 2.
    pub open spec fn is_pointer_table(self, fr: u64) -> bool {
        fr == self.p4_frame || self.sub_level_is(fr, 3) || self.sub_level_is(fr, 2)
    }

    /// Whether slot `j` of the pointer table in `fr` holds a usable pointer
    /// to the table in frame `t`.
    pub open spec fn points_to(self, fr: u64, j: int, t: u64) -> bool {
        &&& self.is_pointer_table(fr)
        &&& 0 <= j < 512
        &&& spec_entry_present(self.table_at(fr)[j].0)
        &&& !spec_entry_huge(self.table_at(fr)[j].0)
        &&& spec_entry_target(self.table_at(fr)[j].0) == t
    }

    /// Well-formedness of the arena.
    ///
    /// Every table has 512 entries; table frames are distinct and their
    /// addresses fit an entry's address bits; pointer entries at each level
    /// reach a table of the next level down, the sole exception being the
    /// top table's slot 511, which may point back at the top table itself
    /// (the recursive mapping); no other entry targets the top table; and no
    /// two pointer entries target the same subsidiary table.
    pub open spec fn wf(self) -> bool {
        &&& self.p4.wf()
        &&& self.frames@.len() == self.levels@.len()
        &&& self.frames@.len() == self.tables@.len()
        &&& self.p4_frame <= MAX_TABLE_FRAME
        &&& forall|k: int| 0 <= k < self.frames@.len() ==> (#[trigger] self.tables@[k]).wf()
        &&& forall|k: int| 0 <= k < self.frames@.len() ==> 1 <= #[trigger] self.levels@[k] <= 3
        &&& forall|k: int|
            0 <= k < self.frames@.len()
                ==> #[trigger] self.frames@[k] != self.p4_frame && self.frames@[k] <= MAX_TABLE_FRAME
        &&& forall|k1: int, k2: int|
            0 <= k1 < k2 < self.frames@.len() ==> #[trigger] self.frames@[k1] != #[trigger] self.frames@[k2]
        &&& forall|j: int| 0 <= j < 511 ==> self.p4_slot_ok(j)
        &&& self.p4_recursive_slot_ok()
        &&& forall|k: int, j: int|
            0 <= k < self.frames@.len() && 2 <= self.levels@[k] <= 3 && 0 <= j < 512
                ==> self.mid_slot_ok(k, j)
        &&& forall|fa: u64, ja: int, fb: u64, jb: int, t: u64|
            #[trigger] self.points_to(fa, ja, t) && #[trigger] self.points_to(fb, jb, t)
                && t != self.p4_frame ==> fa == fb && ja == jb
    }

    /// A non-recursive slot of the top table is empty or points at a
    /// subsidiary table of level 3 or 2 (2 occurs when the slot is reached
    /// through the recursive alias, with the top table serving as level 3).
    pub open spec fn p4_slot_ok(self, j: int) -> bool {
        let e = self.p4.entries@[j].0;
        e == 0 || {
            &&& spec_entry_present(e)
            &&& !spec_entry_huge(e)
            &&& (self.sub_level_is(spec_entry_target(e), 3) || self.sub_level_is(spec_entry_target(e), 2))
        }
    }

    /// Slot 511 of the top table is empty, the recursive self-reference, or
    /// an ordinary pointer slot.
    pub open spec fn p4_recursive_slot_ok(self) -> bool {
        let e = self.p4.entries@[511].0;
        e == 0 || {
            &&& spec_entry_present(e)
            &&& !spec_entry_huge(e)
            &&& (spec_entry_target(e) == self.p4_frame
                || self.sub_level_is(spec_entry_target(e), 3)
                || self.sub_level_is(spec_entry_target(e), 2))
        }
    }

    /// A slot of a mid-level table (level 3 or 2) is empty or points at a
    /// table one level down.
    pub open spec fn mid_slot_ok(self, k: int, j: int) -> bool {
        let e = self.tables@[k].entries@[j].0;
        e == 0 || {
            &&& spec_entry_present(e)
            &&& !spec_entry_huge(e)
            &&& self.sub_level_is(spec_entry_target(e), self.levels@[k] - 1)
        }
    }

    /// Whether `h` names a table of the arena.
    pub open spec fn valid_handle(self, h: TableRef) -> bool {
        match h {
            TableRef::Top => true,
            TableRef::Sub(k) => k < self.frames@.len(),
        }
    }

    /// The physical frame of the table `h` names.
    pub open spec fn frame_of(self, h: TableRef) -> u64 {
        match h {
            TableRef::Top => self.p4_frame,
            TableRef::Sub(k) => self.frames@[k as int],
        }
    }

    /// The table frame slot `idx` of the table in `fr` leads to when the
    /// walk expects a table of level `lvl` there: the entry must be present
    /// and not huge, and its target must be the top table (the recursive
    /// alias) or a subsidiary table of exactly that level.
    pub open spec fn child_frame(self, fr: u64, idx: int, lvl: int) -> Option<u64> {
        let e = self.table_at(fr)[idx].0;
        if !spec_entry_present(e) || spec_entry_huge(e) {
            None
        } else {
            let t = spec_entry_target(e);
            if t == self.p4_frame {
                Some(t)
            } else if self.sub_level_is(t, lvl) {
                Some(t)
            } else {
                None
            }
        }
    }

    /// The raw level-1 entry the walk reaches for `page_number`, or `None`
    /// when some step of the path is missing or unusable. Kept opaque so
    /// that contracts quantifying over many walks stay cheap; proofs that
    /// follow the walk itself reveal it.
    #[verifier::opaque]
    pub open spec fn walk_entry(self, page_number: u64) -> Option<u64> {
        match self.child_frame(self.p4_frame, spec_p4_index(page_number), 3) {
            Some(f3) => match self.child_frame(f3, spec_p3_index(page_number), 2) {
                Some(f2) => match self.child_frame(f2, spec_p2_index(page_number), 1) {
                    Some(f1) => Some(self.table_at(f1)[spec_p1_index(page_number)].0),
                    None => None,
                },
                None => None,
            },
            None => None,
        }
    }

    /// The frame of the level-1 table the walk reaches for the three
    /// leading indices, when every step of the path is usable.
    pub open spec fn path_frame(self, i4: int, i3: int, i2: int) -> Option<u64> {
        match self.child_frame(self.p4_frame, i4, 3) {
            Some(f3) => match self.child_frame(f3, i3, 2) {
                Some(f2) => self.child_frame(f2, i2, 1),
                None => None,
            },
            None => None,
        }
    }

    /// The walk down the three leading indices hits a nonzero entry it
    /// cannot descend into: a huge-page leaf, an entry without the present
    /// bit, or one naming no table of the expected level.
    pub open spec fn path_blocked(self, i4: int, i3: int, i2: int) -> bool {
        ||| (self.p4.entries@[i4].0 != 0
            && self.child_frame(self.p4_frame, i4, 3) is None)
        ||| (self.child_frame(self.p4_frame, i4, 3) matches Some(f3)
            && self.table_at(f3)[i3].0 != 0 && self.child_frame(f3, i3, 2) is None)
        ||| (self.child_frame(self.p4_frame, i4, 3) matches Some(f3)
            && self.child_frame(f3, i3, 2) matches Some(f2)
            && self.table_at(f2)[i2].0 != 0 && self.child_frame(f2, i2, 1) is None)
    }

    /// Every table frame of the arena is marked allocated in `a`, and `a`
    /// cannot produce frames whose addresses overflow an entry.
    pub open spec fn frames_allocated_in(self, a: BitMapFrameAllocator) -> bool {
        &&& a.frame_allocated(self.p4_frame as int)
        &&& self.p4_frame < a.frames_amount
        &&& forall|k: int|
            0 <= k < self.frames@.len()
                ==> a.frame_allocated(#[trigger] self.frames@[k] as int)
                    && self.frames@[k] < a.frames_amount
        &&& a.frames_amount <= MAX_TABLE_FRAME + 1
    }

    /// A fresh hierarchy: the top table alone, zeroed, in frame `p4_frame`.
    pub fn new_top(p4_frame: u64) -> (r: PageTableSpace)
        requires
            p4_frame <= MAX_TABLE_FRAME,
        ensures
            r.wf(),
            r.p4_frame == p4_frame,
            r.frames@.len() == 0,
            forall|j: int| 0 <= j < 512 ==> r.p4.entries@[j].0 == 0,
    {
        let r = PageTableSpace {
            p4_frame,
            p4: EntryTable::new_zeroed(),
            frames: Vec::new(),
            levels: Vec::new(),
            tables: Vec::new(),
        };
        proof {
            lemma_zero_entry();
            assert forall|j: int| 0 <= j < 511 implies r.p4_slot_ok(j) by {}
            assert forall|fa: u64, ja: int, fb: u64, jb: int, t: u64|
                #[trigger] r.points_to(fa, ja, t) && #[trigger] r.points_to(fb, jb, t)
                    && t != r.p4_frame implies fa == fb && ja == jb by {
                assert(fa == r.p4_frame);
                assert(r.table_at(fa)[ja].0 == 0);
            }
        }
        r
    }

    /// Install the recursive self-reference: point slot 511 of the top
    /// table at the top table's own frame, present and writable.
    pub fn install_recursive_entry(&mut self)
        requires
            old(self).wf(),
            old(self).p4.entries@[511].0 == 0,
        ensures
            final(self).wf(),
            final(self).p4_frame == old(self).p4_frame,
            final(self).frames@ == old(self).frames@,
            final(self).levels@ == old(self).levels@,
            final(self).tables@ == old(self).tables@,
            final(self).p4.entries@ == old(self).p4.entries@.update(
                511,
                Entry((old(self).p4_frame << 12) | 3),
            ),
            spec_entry_target(final(self).p4.entries@[511].0) == old(self).p4_frame,
            spec_entry_present(final(self).p4.entries@[511].0),
    {
        proof {
            lemma_pointer_entry_fields(self.p4_frame, (self.p4_frame << 12) as u64);
        }
        let v: u64 = (self.p4_frame << 12) | 3;
        self.p4.entries[511] = Entry(v);
        proof {
            assert(self.p4.entries@ =~= old(self).p4.entries@.update(511, Entry(v)));
            lemma_space_shape_preserved(*old(self), *self);
        }
    }
}

impl PageTableSpace {
    /// The arena index of a subsidiary frame is unique.
    proof fn lemma_frame_index_unique(self, k: int)
        requires
            forall|k1: int, k2: int|
                0 <= k1 < k2 < self.frames@.len()
                    ==> #[trigger] self.frames@[k1] != #[trigger] self.frames@[k2],
            0 <= k < self.frames@.len(),
        ensures
            self.has_frame(self.frames@[k]),
            self.frame_index(self.frames@[k]) == k,
    {
        assert(0 <= k < self.frames@.len() && self.frames@[k] == self.frames@[k]);
        let k2 = self.frame_index(self.frames@[k]);
        if k2 != k {
            if k2 < k {
                assert(self.frames@[k2] != self.frames@[k]);
            } else {
                assert(self.frames@[k] != self.frames@[k2]);
            }
        }
    }

    /// Read one entry of the table `h` names.
    fn read_entry(&self, h: TableRef, index: usize) -> (e: Entry)
        requires
            self.wf(),
            self.valid_handle(h),
            index < 512,
        ensures
            e == self.table_at(self.frame_of(h))[index as int],
    {
        match h {
            TableRef::Top => self.p4.entries[index],
            TableRef::Sub(k) => {
                proof {
                    self.lemma_frame_index_unique(k as int);
                }
                self.tables[k].entries[index]
            },
        }
    }

    /// Overwrite one entry of the table `h` names, leaving every other
    /// entry, and all arena bookkeeping, unchanged.
    fn set_entry(&mut self, h: TableRef, index: usize, e: Entry)
        requires
            old(self).wf(),
            old(self).valid_handle(h),
            index < 512,
        ensures
            final(self).p4_frame == old(self).p4_frame,
            final(self).frames@ == old(self).frames@,
            final(self).levels@ == old(self).levels@,
            h is Top ==> final(self).p4.entries@ == old(self).p4.entries@.update(index as int, e)
                && final(self).tables@ == old(self).tables@,
            forall|k: int|
                h matches TableRef::Sub(kk) && 0 <= k < old(self).tables@.len() && k != kk
                    ==> final(self).tables@[k] == old(self).tables@[k],
            h matches TableRef::Sub(kk)
                ==> final(self).p4 == old(self).p4
                    && final(self).tables@.len() == old(self).tables@.len()
                    && final(self).tables@[kk as int].entries@
                        == old(self).tables@[kk as int].entries@.update(index as int, e),
    {
        match h {
            TableRef::Top => {
                self.p4.entries[index] = e;
                proof {
                    assert(self.p4.entries@ =~= old(self).p4.entries@.update(index as int, e));
                }
            },
            TableRef::Sub(k) => {
                self.tables[k].entries[index] = e;
                proof {
                    assert(self.tables@[k as int].entries@
                        =~= old(self).tables@[k as int].entries@.update(index as int, e));
                }
            },
        }
    }

    /// Linear search for the subsidiary table in frame `target` serving
    /// level `child_level`.
    fn find_table(&self, target: u64, child_level: u8) -> (r: Option<usize>)
        requires
            self.wf(),
        ensures
            match r {
                Some(k) => {
                    &&& k < self.frames@.len()
                    &&& self.frames@[k as int] == target
                    &&& self.levels@[k as int] == child_level
                    &&& self.sub_level_is(target, child_level as int)
                },
                None => !self.sub_level_is(target, child_level as int),
            },
    {
        let n = self.frames.len();
        let mut j: usize = 0;
        while j < n
            invariant
                j <= n,
                n == self.frames@.len(),
                self.wf(),
                forall|i: int|
                    0 <= i < j ==> !(self.frames@[i] == target && self.levels@[i] == child_level),
            decreases n - j,
        {
            if self.frames[j] == target && self.levels[j] == child_level {
                return Some(j);
            }
            j = j + 1;
        }
        proof {
            if self.sub_level_is(target, child_level as int) {
                let i = choose|i: int|
                    0 <= i < self.frames@.len() && self.frames@[i] == target
                        && self.levels@[i] == child_level as int;
                assert(false);
            }
        }
        None
    }
}

impl PageTableSpace {
    /// Allocated bits only grow from `a` to `b`.
    pub open spec fn allocator_monotone(a: BitMapFrameAllocator, b: BitMapFrameAllocator) -> bool {
        &&& BitMapFrameAllocator::same_config(a, b)
        &&& forall|g: int|
            0 <= g < 8 * b.slice@.len() && a.frame_allocated(g) ==> #[trigger] b.frame_allocated(g)
    }

    /// Descend through slot `index` of the table `h` names, creating the
    /// next-level table there first if the slot is empty.
    ///
    /// On success the returned handle names the table of level `child_level`
    /// that the slot now points at (the top table itself when the slot is
    /// the recursive self-reference). A fresh table is zeroed, placed in a
    /// frame taken from `allocator`, and recorded in the arena; an entry
    /// that is present is never rewritten. Both table-access modes reach
    /// the same physical table, which is what the arena stores.
    pub fn create_or_get_table_entry(
        &mut self,
        h: TableRef,
        index: usize,
        child_level: u8,
        current_table_access: TableAccess,
        allocator: &mut BitMapFrameAllocator,
    ) -> (r: Result<TableRef, MapError>)
        requires
            old(self).wf(),
            old(allocator).wf(),
            old(self).frames_allocated_in(*old(allocator)),
            old(self).valid_handle(h),
            index < 512,
            1 <= child_level <= 3,
            h is Top ==> (child_level == 3 || (child_level == 2 && index != 511)),
            h matches TableRef::Sub(k) ==> old(self).levels@[k as int] == child_level + 1,
        ensures
            final(self).wf(),
            final(self).p4_frame == old(self).p4_frame,
            final(allocator).wf(),
            Self::allocator_monotone(*old(allocator), *final(allocator)),
            final(self).frames_allocated_in(*final(allocator)),
            final(self).valid_handle(h),
            final(self).frame_of(h) == old(self).frame_of(h),
            forall|fr: u64| old(self).is_table_frame(fr) ==> final(self).is_table_frame(fr),
            old(self).frames@.len() <= final(self).frames@.len(),
            forall|k: int|
                0 <= k < old(self).frames@.len()
                    ==> #[trigger] final(self).frames@[k] == old(self).frames@[k]
                        && final(self).levels@[k] == old(self).levels@[k],
            final(self).frames@.len() == old(self).frames@.len()
                || (final(self).frames@.len() == old(self).frames@.len() + 1
                    && !old(self).is_table_frame(
                        final(self).frames@[old(self).frames@.len() as int])),
            forall|g: int|
                0 <= g < 8 * final(allocator).slice@.len()
                    ==> #[trigger] final(allocator).frame_allocated(g)
                        == (old(allocator).frame_allocated(g)
                            || (final(self).has_frame(g as u64)
                                && !old(self).has_frame(g as u64) && 0 <= g <= u64::MAX)),
            match r {
                Ok(c) => {
                    &&& final(self).valid_handle(c)
                    &&& final(self).child_frame(
                        old(self).frame_of(h), index as int, child_level as int)
                        == Some(final(self).frame_of(c))
                    &&& forall|fr: u64, j: int|
                        old(self).is_table_frame(fr) && 0 <= j < 512
                            && !(fr == old(self).frame_of(h) && j == index)
                            ==> final(self).table_at(fr)[j] == old(self).table_at(fr)[j]
                    &&& (old(self).table_at(old(self).frame_of(h))[index as int].0 != 0 ==> {
                        &&& *final(self) == *old(self)
                        &&& *final(allocator) == *old(allocator)
                        &&& old(self).child_frame(
                            old(self).frame_of(h), index as int, child_level as int)
                            == Some(final(self).frame_of(c))
                    })
                    &&& (old(self).table_at(old(self).frame_of(h))[index as int].0 == 0 ==> {
                        &&& !old(self).is_table_frame(final(self).frame_of(c))
                        &&& !old(allocator).frame_allocated(final(self).frame_of(c) as int)
                        &&& final(allocator).frame_allocated(final(self).frame_of(c) as int)
                        &&& forall|j2: int|
                            0 <= j2 < 512 ==> final(self).table_at(final(self).frame_of(c))[j2].0 == 0
                        &&& final(self).table_at(old(self).frame_of(h))[index as int].0
                            == ((final(self).frame_of(c) << 12) | 3)
                    })
                },
                Err(e) => {
                    &&& *final(self) == *old(self)
                    &&& (e is OutOfFrames || e is InvalidTableEntry)
                    &&& (e is OutOfFrames ==> {
                        &&& *final(allocator) == *old(allocator)
                        &&& old(self).table_at(old(self).frame_of(h))[index as int].0 == 0
                        &&& forall|g: int|
                            0 <= g < old(allocator).frames_amount
                                ==> old(allocator).frame_allocated(g)
                    })
                    &&& (e is InvalidTableEntry ==> {
                        &&& *final(allocator) == *old(allocator)
                        &&& old(self).table_at(old(self).frame_of(h))[index as int].0 != 0
                        &&& old(self).child_frame(
                            old(self).frame_of(h), index as int, child_level as int) is None
                    })
                },
            },
    {
        let ghost fr_h = self.frame_of(h);
        let e = self.read_entry(h, index);
        if e.0 == 0 {
            proof {
                lemma_zero_entry();
            }
            let fnew = match allocator.allocate_frame() {
                Some(f) => f,
                None => {
                    return Err(MapError::OutOfFrames);
                },
            };
            proof {
                // The fresh frame was free, so it is no table frame.
                assert(fnew.number != self.p4_frame);
                assert(!self.has_frame(fnew.number)) by {
                    if self.has_frame(fnew.number) {
                        let k = choose|k: int|
                            0 <= k < self.frames@.len() && self.frames@[k] == fnew.number;
                        assert(old(allocator).frame_allocated(self.frames@[k] as int));
                    }
                }
                lemma_pointer_entry_fields(fnew.number, (fnew.number << 12) as u64);
            }
            let ptr: u64 = (fnew.number << 12) | 3;
            let ghost mid = *self;
            self.set_entry(h, index, Entry(ptr));
            let ghost after_set = *self;
            self.frames.push(fnew.number);
            self.levels.push(child_level);
            self.tables.push(EntryTable::new_zeroed());
            let knew = self.frames.len() - 1;
            proof {
                lemma_create_reestablish(
                    *old(self), after_set, *self, h, index as int, child_level as int,
                    fnew.number,
                );
                crate::utils::lemma_ceil_div_bounds(allocator.frames_amount as int, 8);
                assert forall|k: int| 0 <= k < self.frames@.len()
                    implies allocator.frame_allocated(#[trigger] self.frames@[k] as int)
                        && self.frames@[k] < allocator.frames_amount by {
                    if k < old(self).frames@.len() {
                        assert(old(allocator).frame_allocated(old(self).frames@[k] as int));
                        assert(self.frames@[k] == old(self).frames@[k]);
                    } else {
                        assert(self.frames@[k] == fnew.number);
                    }
                }
            }
            Ok(TableRef::Sub(knew))
        } else {
            let flags = e.get_flags();
            if !flags.contains(EntryFlags(ENTRY_PRESENT)) || flags.contains(EntryFlags(ENTRY_HUGE_PAGE)) {
                return Err(MapError::InvalidTableEntry);
            }
            let target = e.read_address() >> 12;
            proof {
                assert(spec_entry_present(e.0) && !spec_entry_huge(e.0));
                assert(target == spec_entry_target(e.0));
            }
            if target == self.p4_frame {
                Ok(TableRef::Top)
            } else {
                match self.find_table(target, child_level) {
                    Some(k) => {
                        proof {
                            self.lemma_frame_index_unique(k as int);
                        }
                        Ok(TableRef::Sub(k))
                    },
                    None => Err(MapError::InvalidTableEntry),
                }
            }
        }
    }
}

/// After creating a table: `after_set` is `o` with slot `(h, index)` set to
/// the pointer entry for `fnew`, and `n` is `after_set` with the fresh
/// zeroed table of level `lvl` pushed in frame `fnew`. Re-establishes the
/// arena invariant and the facts `create_or_get_table_entry` promises.
proof fn lemma_create_reestablish(
    o: PageTableSpace,
    after_set: PageTableSpace,
    n: PageTableSpace,
    h: TableRef,
    index: int,
    lvl: int,
    fnew: u64,
)
    requires
        o.wf(),
        o.valid_handle(h),
        0 <= index < 512,
        1 <= lvl <= 3,
        h is Top ==> (lvl == 3 || (lvl == 2 && index != 511)),
        h matches TableRef::Sub(k) ==> o.levels@[k as int] == lvl + 1,
        o.table_at(o.frame_of(h))[index].0 == 0,
        fnew != o.p4_frame,
        !o.has_frame(fnew),
        fnew <= MAX_TABLE_FRAME,
        // the slot update
        after_set.p4_frame == o.p4_frame,
        after_set.frames@ == o.frames@,
        after_set.levels@ == o.levels@,
        h is Top ==> after_set.p4.entries@ == o.p4.entries@.update(index, Entry((fnew << 12) | 3))
            && after_set.tables@ == o.tables@,
        forall|k: int|
            h matches TableRef::Sub(kk) && 0 <= k < o.tables@.len() && k != kk
                ==> after_set.tables@[k] == o.tables@[k],
        h matches TableRef::Sub(kk)
            ==> after_set.p4 == o.p4
                && after_set.tables@.len() == o.tables@.len()
                && after_set.tables@[kk as int].entries@
                    == o.tables@[kk as int].entries@.update(index, Entry((fnew << 12) | 3)),
        // the push
        n.p4_frame == after_set.p4_frame,
        n.p4 == after_set.p4,
        n.frames@ == after_set.frames@.push(fnew),
        n.levels@ == after_set.levels@.push(lvl as u8),
        n.tables@.len() == after_set.tables@.len() + 1,
        forall|k: int| 0 <= k < after_set.tables@.len() ==> n.tables@[k] == after_set.tables@[k],
        n.tables@[n.tables@.len() - 1].wf(),
        forall|j2: int| 0 <= j2 < 512 ==> (#[trigger] n.tables@[n.tables@.len() - 1].entries@[j2]).0 == 0,
    ensures
        n.wf(),
        n.valid_handle(h),
        n.frame_of(h) == o.frame_of(h),
        forall|fr: u64| o.is_table_frame(fr) ==> n.is_table_frame(fr),
        n.has_frame(fnew),
        n.sub_level_is(fnew, lvl),
        n.frames@[n.frames@.len() - 1] == fnew,
        forall|k: int|
            0 <= k < o.frames@.len()
                ==> #[trigger] n.frames@[k] == o.frames@[k] && n.levels@[k] == o.levels@[k],
        n.child_frame(o.frame_of(h), index, lvl) == Some(fnew),
        forall|fr: u64, j: int|
            o.is_table_frame(fr) && 0 <= j < 512 && !(fr == o.frame_of(h) && j == index)
                ==> n.table_at(fr)[j] == o.table_at(fr)[j],
        forall|j2: int| 0 <= j2 < 512 ==> n.table_at(fnew)[j2].0 == 0,
        n.table_at(o.frame_of(h))[index].0 == ((fnew << 12) | 3),
        !o.is_table_frame(fnew),
{
    lemma_zero_entry();
    lemma_pointer_entry_fields(fnew, (fnew << 12) as u64);
    let fr_h = o.frame_of(h);
    let len_o = o.frames@.len() as int;
    let knew = len_o;

    // Old subsidiary frames keep their index; the fresh frame gets the
    // last one.
    assert forall|k: int| 0 <= k < len_o implies n.frames@[k] == o.frames@[k]
        && #[trigger] n.levels@[k] == o.levels@[k] by {}
    assert(n.frames@[knew] == fnew && n.levels@[knew] == lvl);
    assert forall|k1: int, k2: int| 0 <= k1 < k2 < n.frames@.len()
        implies n.frames@[k1] != n.frames@[k2] by {
        if k2 == knew {
            if n.frames@[k1] == fnew {
                assert(o.has_frame(fnew));
            }
        }
    }
    assert forall|k: int| 0 <= k < n.frames@.len()
        implies n.frames@[k] != n.p4_frame && n.frames@[k] <= MAX_TABLE_FRAME by {}

    // Index lookups agree between the spaces.
    assert forall|fr: u64| o.has_frame(fr) implies #[trigger] n.has_frame(fr)
        && n.frame_index(fr) == o.frame_index(fr) && o.frame_index(fr) < len_o by {
        let k = choose|k: int| 0 <= k < len_o && o.frames@[k] == fr;
        assert(n.frames@[k] == fr);
        o.lemma_frame_index_unique(k);
        n.lemma_frame_index_unique(k);
    }
    assert(n.has_frame(fnew)) by {
        assert(n.frames@[knew] == fnew);
    }
    assert(n.frame_index(fnew) == knew) by {
        n.lemma_frame_index_unique(knew);
    }
    assert forall|fr: u64| #[trigger] n.has_frame(fr) implies fr == fnew || o.has_frame(fr) by {
        let k = choose|k: int| 0 <= k < n.frames@.len() && n.frames@[k] == fr;
        if k < len_o {
            assert(o.frames@[k] == fr);
        }
    }
    assert forall|fr: u64, l: int| o.sub_level_is(fr, l) implies #[trigger] n.sub_level_is(fr, l) by {
        let k = choose|k: int| 0 <= k < len_o && o.frames@[k] == fr && o.levels@[k] == l;
        assert(n.frames@[k] == fr && n.levels@[k] == l);
    }
    assert forall|fr: u64, l: int| #[trigger] n.sub_level_is(fr, l) && fr != fnew
        implies o.sub_level_is(fr, l) by {
        let k = choose|k: int| 0 <= k < n.frames@.len() && n.frames@[k] == fr && n.levels@[k] == l;
        assert(k < len_o);
        assert(o.frames@[k] == fr && o.levels@[k] == l);
    }
    assert(n.sub_level_is(fnew, lvl));
    assert forall|l: int| n.sub_level_is(fnew, l) implies l == lvl by {
        let k = choose|k: int| 0 <= k < n.frames@.len() && n.frames@[k] == fnew && n.levels@[k] == l;
        if k < len_o {
            assert(o.has_frame(fnew));
        }
    }

    // Table contents: unchanged except the slot and the fresh table.
    assert forall|fr: u64| (fr == o.p4_frame || o.has_frame(fr)) && fr != fr_h
        implies #[trigger] n.table_at(fr) == o.table_at(fr) by {
        if fr != o.p4_frame {
            let k = o.frame_index(fr);
            assert(n.tables@[k] == o.tables@[k]);
        }
    }
    assert(n.table_at(fr_h) == o.table_at(fr_h).update(index, Entry((fnew << 12) | 3))) by {
        if h is Top {
        } else {
            let kk = h->Sub_0 as int;
            o.lemma_frame_index_unique(kk);
            assert(n.frame_index(fr_h) == kk);
        }
    }
    assert(n.table_at(fnew) == n.tables@[knew].entries@);

    // The invariant holds again.
    assert forall|j: int| 0 <= j < 511 implies n.p4_slot_ok(j) by {
        if fr_h == o.p4_frame && j == index {
            assert(n.table_at(o.p4_frame)[j].0 == ((fnew << 12) | 3));
            assert(n.p4.entries@[j].0 == ((fnew << 12) | 3));
        } else {
            assert(n.p4.entries@[j].0 == o.p4.entries@[j].0);
            assert(o.p4_slot_ok(j));
        }
    }
    assert(n.p4_recursive_slot_ok()) by {
        if fr_h == o.p4_frame && index == 511 {
            assert(n.p4.entries@[511].0 == ((fnew << 12) | 3));
        } else {
            assert(n.p4.entries@[511].0 == o.p4.entries@[511].0);
            assert(o.p4_recursive_slot_ok());
        }
    }
    assert forall|k: int, j: int|
        0 <= k < n.frames@.len() && 2 <= n.levels@[k] <= 3 && 0 <= j < 512
            implies n.mid_slot_ok(k, j) by {
        if k == knew {
            assert(n.tables@[k].entries@[j].0 == 0);
        } else {
            assert(o.mid_slot_ok(k, j));
            n.lemma_frame_index_unique(k);
            o.lemma_frame_index_unique(k);
            if h matches TableRef::Sub(kk) && k == kk as int && j == index {
                assert(n.tables@[k].entries@[j].0 == ((fnew << 12) | 3));
            } else {
                assert(n.tables@[k].entries@[j].0 == o.tables@[k].entries@[j].0);
            }
        }
    }
    // Injectivity: old pointers kept their targets (none of which is the
    // fresh frame), and only the updated slot targets the fresh frame.
    assert forall|fa: u64, ja: int, t: u64| #[trigger] n.points_to(fa, ja, t) && t != n.p4_frame
        implies ((fa == fr_h && ja == index && t == fnew)
            || (o.points_to(fa, ja, t) && t != fnew)) by {
        if fa == fnew {
            assert(n.table_at(fa)[ja].0 == 0);
        } else {
            assert(fa == o.p4_frame || o.has_frame(fa));
            if fa == fr_h && ja == index {
                assert(t == fnew);
            } else {
                assert(n.table_at(fa)[ja] == o.table_at(fa)[ja]);
                assert(o.is_pointer_table(fa));
                assert(o.points_to(fa, ja, t));
                if t == fnew {
                    // an old pointer entry targets a subsidiary frame
                    if fa == o.p4_frame {
                        if ja == 511 {
                            assert(o.p4_recursive_slot_ok());
                        } else {
                            assert(o.p4_slot_ok(ja));
                        }
                        assert(o.sub_level_is(fnew, 3) || o.sub_level_is(fnew, 2)
                            || t == o.p4_frame);
                        assert(o.has_frame(fnew));
                        assert(false);
                    } else {
                        let k = o.frame_index(fa);
                        assert(o.mid_slot_ok(k, ja));
                        assert(o.sub_level_is(fnew, o.levels@[k] - 1));
                        assert(o.has_frame(fnew));
                        assert(false);
                    }
                }
            }
        }
    }
    assert forall|fa: u64, ja: int, fb: u64, jb: int, t: u64|
        #[trigger] n.points_to(fa, ja, t) && #[trigger] n.points_to(fb, jb, t)
            && t != n.p4_frame implies fa == fb && ja == jb by {}

    // The new pointer resolves to the fresh table.
    assert(n.child_frame(fr_h, index, lvl) == Some(fnew)) by {
        assert(n.table_at(fr_h)[index].0 == ((fnew << 12) | 3));
    }
}

impl PageTableSpace {
    /// A handle returned for a subsidiary table serves the level the walk
    /// expected there.
    proof fn lemma_sub_handle_level(self, c: TableRef, lvl: int)
        requires
            self.wf(),
            self.valid_handle(c),
            c is Sub,
            self.sub_level_is(self.frame_of(c), lvl),
        ensures
            self.levels@[c->Sub_0 as int] == lvl,
    {
        let kk = c->Sub_0 as int;
        let k2 = choose|k2: int|
            0 <= k2 < self.frames@.len() && self.frames@[k2] == self.frames@[kk]
                && self.levels@[k2] == lvl;
        if k2 != kk {
            if k2 < kk {
                assert(self.frames@[k2] != self.frames@[kk]);
            } else {
                assert(self.frames@[kk] != self.frames@[k2]);
            }
        }
    }

    /// Map `page` to `frame` with `flags` (the present bit is always added).
    ///
    /// The walk descends from the top table, creating intermediate tables
    /// from `allocator` as needed: at most three, each taken from the
    /// allocator, written present and writable, and zeroed; entries already
    /// present are reused untouched, and the allocator's bits change by
    /// exactly the frames the arena gained. A used level-1 entry is only
    /// rewritten when `allow_overwrite` is set; the call then returns the
    /// virtual address whose translation changed, when `invalidate_addres`
    /// asks for it, so the caller can invalidate that TLB entry. On success
    /// the page's walk ends in the written entry, and the walk of every
    /// other canonical, mappable page is unchanged. The recursive slot 511
    /// may be descended once (the top table then serves as its own level-3
    /// table), but not twice.
    #[verifier::rlimit(100)]
    pub fn p4_map(
        &mut self,
        frame: FrameInfo,
        page: PageInfo,
        flags: EntryFlags,
        allow_overwrite: bool,
        invalidate_addres: bool,
        current_table_access: TableAccess,
        allocator: &mut BitMapFrameAllocator,
    ) -> (r: Result<Option<u64>, MapError>)
        requires
            old(self).wf(),
            old(allocator).wf(),
            old(self).frames_allocated_in(*old(allocator)),
            frame.address & !ENTRY_ADDRESS_MASK == 0,
            !(spec_p4_index(page.number) == 511 && spec_p3_index(page.number) == 511),
            page_canonical(page.number),
        ensures
            final(self).wf(),
            final(self).p4_frame == old(self).p4_frame,
            final(allocator).wf(),
            Self::allocator_monotone(*old(allocator), *final(allocator)),
            final(self).frames_allocated_in(*final(allocator)),
            forall|fr: u64| old(self).is_table_frame(fr) ==> final(self).is_table_frame(fr),
            final(self).frames@.len() <= old(self).frames@.len() + 3,
            forall|k: int|
                0 <= k < old(self).frames@.len()
                    ==> #[trigger] final(self).frames@[k] == old(self).frames@[k]
                        && final(self).levels@[k] == old(self).levels@[k],
            forall|g: int|
                0 <= g < 8 * final(allocator).slice@.len()
                    ==> #[trigger] final(allocator).frame_allocated(g)
                        == (old(allocator).frame_allocated(g)
                            || (final(self).has_frame(g as u64)
                                && !old(self).has_frame(g as u64) && 0 <= g <= u64::MAX)),
            (r == Err::<Option<u64>, MapError>(MapError::EntryOverwrite)) <==> (!allow_overwrite
                && (old(self).walk_entry(page.number) matches Some(e) && e != 0)),
            r == Err::<Option<u64>, MapError>(MapError::EntryOverwrite)
                ==> *final(self) == *old(self) && *final(allocator) == *old(allocator),
            r == Err::<Option<u64>, MapError>(MapError::OutOfFrames)
                ==> forall|g: int|
                    0 <= g < old(allocator).frames_amount
                        ==> final(allocator).frame_allocated(g),
            r == Err::<Option<u64>, MapError>(MapError::InvalidTableEntry)
                ==> *final(self) == *old(self) && *final(allocator) == *old(allocator)
                    && old(self).path_blocked(
                        spec_p4_index(page.number),
                        spec_p3_index(page.number),
                        spec_p2_index(page.number)),
            match r {
                Ok(inv) => {
                    &&& final(self).walk_entry(page.number)
                        == Some(frame.address | flags.0 | ENTRY_PRESENT)
                    &&& ((inv is Some) <==> (invalidate_addres
                        && (old(self).walk_entry(page.number) matches Some(e) && e != 0)))
                    &&& (inv is Some ==> inv == Some(page.address))
                    &&& ((old(self).walk_entry(page.number) matches Some(e) && e != 0)
                        ==> allow_overwrite)
                    &&& forall|q: u64|
                        page_canonical(q) && page_mappable(q) && q != page.number
                            && old(self).walk_entry(q) is Some
                            ==> #[trigger] final(self).walk_entry(q)
                                == old(self).walk_entry(q)
                },
                Err(_) => true,
            },
    {
        let ghost s0 = *self;
        let ghost a0 = *allocator;
        let ghost w0 = s0.walk_entry(page.number);
        let i4 = page.p4_index();
        let i3 = page.p3_index();
        let i2 = page.p2_index();
        let i1 = page.p1_index();

        // Level 4 -> level 3.
        let h3 = match self.create_or_get_table_entry(
            TableRef::Top, i4, 3, current_table_access, allocator) {
            Ok(h) => h,
            Err(e) => {
                proof {
                reveal(PageTableSpace::walk_entry);
                    lemma_zero_entry();
                    assert(w0 is None);
                    if e is InvalidTableEntry {
                        lemma_present_nonzero(s0.p4.entries@[i4 as int].0);
                        assert(s0.path_blocked(i4 as int, i3 as int, i2 as int));
                    }
                }
                return Err(e);
            },
        };
        let ghost s1 = *self;
        let ghost f3 = s1.frame_of(h3);
        proof {
                reveal(PageTableSpace::walk_entry);
            assert(s1.child_frame(s0.p4_frame, i4 as int, 3) == Some(f3));
            if h3 is Top {
                assert(f3 == s0.p4_frame);
                if i4 != 511 {
                    assert(s0.p4_slot_ok(i4 as int));
                    assert(s1.table_at(s0.p4_frame)[i4 as int]
                        == s0.table_at(s0.p4_frame)[i4 as int]
                        || s0.table_at(s0.p4_frame)[i4 as int].0 == 0);
                    assert(false);
                }
            } else {
                s1.lemma_sub_handle_level(h3, 3);
            }
            assert(step_rel(s0, s1, s0.p4_frame, i4 as int)) by {
                if s1 != s0 {
                    assert(s0.table_at(s0.p4_frame)[i4 as int].0 == 0);
                }
            }
        }

        // Level 3 -> level 2.
        let h2 = match self.create_or_get_table_entry(
            h3, i3, 2, current_table_access, allocator) {
            Ok(h) => h,
            Err(e) => {
                proof {
                reveal(PageTableSpace::walk_entry);
                    lemma_zero_entry();
                    if s1 != s0 {
                        // the level-3 table is fresh and zeroed
                        assert(s0.child_frame(s0.p4_frame, i4 as int, 3) is None);
                        assert(w0 is None);
                        assert(!(e is InvalidTableEntry)) by {
                            if e is InvalidTableEntry {
                                assert(s1.table_at(f3)[i3 as int].0 != 0);
                            }
                        }
                    } else {
                        assert(s0.child_frame(s0.p4_frame, i4 as int, 3) == Some(f3));
                        if s1.table_at(f3)[i3 as int].0 != 0 {
                            assert(s0.child_frame(f3, i3 as int, 2) is None);
                            assert(w0 is None);
                            if e is InvalidTableEntry {
                                lemma_present_nonzero(s0.table_at(s0.p4_frame)[i4 as int].0);
                                assert(s0.path_blocked(i4 as int, i3 as int, i2 as int));
                            }
                        } else {
                            assert(s0.child_frame(f3, i3 as int, 2) is None);
                            assert(w0 is None);
                        }
                    }
                }
                return Err(e);
            },
        };
        let ghost s2 = *self;
        let ghost f2 = s2.frame_of(h2);
        proof {
                reveal(PageTableSpace::walk_entry);
            assert(s2.child_frame(f3, i3 as int, 2) == Some(f2));
            if h2 is Top {
                assert(f2 == s1.p4_frame);
                if h3 is Top {
                    // reading slot (top, i3) with i3 != 511 cannot target the top
                    assert(s1.p4_slot_ok(i3 as int) || s1.table_at(f3)[i3 as int].0 == 0);
                    assert(false);
                } else {
                    assert(s1.mid_slot_ok(h3->Sub_0 as int, i3 as int)
                        || s1.table_at(f3)[i3 as int].0 == 0);
                    s1.lemma_frame_index_unique(h3->Sub_0 as int);
                    assert(false);
                }
            } else {
                s2.lemma_sub_handle_level(h2, 2);
            }
            assert(step_rel(s1, s2, f3, i3 as int)) by {
                if s2 != s1 {
                    assert(s1.table_at(f3)[i3 as int].0 == 0);
                }
            }
        }

        // Level 2 -> level 1.
        let h1 = match self.create_or_get_table_entry(
            h2, i2, 1, current_table_access, allocator) {
            Ok(h) => h,
            Err(e) => {
                proof {
                reveal(PageTableSpace::walk_entry);
                    lemma_zero_entry();
                    if s1 != s0 {
                        assert(s0.child_frame(s0.p4_frame, i4 as int, 3) is None);
                        assert(w0 is None);
                        assert(!(e is InvalidTableEntry)) by {
                            if e is InvalidTableEntry && s2 != s1 {
                                assert(s2.table_at(f2)[i2 as int].0 != 0);
                            }
                            if e is InvalidTableEntry && s2 == s1 {
                                assert(s1.table_at(f3)[i3 as int].0 != 0);
                            }
                        }
                    } else if s2 != s1 {
                        assert(s0.child_frame(f3, i3 as int, 2) is None);
                        assert(w0 is None);
                        assert(!(e is InvalidTableEntry)) by {
                            if e is InvalidTableEntry {
                                assert(s2.table_at(f2)[i2 as int].0 != 0);
                            }
                        }
                    } else {
                        assert(s0.child_frame(s0.p4_frame, i4 as int, 3) == Some(f3));
                        assert(s0.child_frame(f3, i3 as int, 2) == Some(f2));
                        if s2.table_at(f2)[i2 as int].0 != 0 {
                            assert(s0.child_frame(f2, i2 as int, 1) is None);
                            assert(w0 is None);
                            if e is InvalidTableEntry {
                                lemma_present_nonzero(s0.table_at(s0.p4_frame)[i4 as int].0);
                                lemma_present_nonzero(s0.table_at(f3)[i3 as int].0);
                                assert(s0.path_blocked(i4 as int, i3 as int, i2 as int));
                            }
                        } else {
                            assert(s0.child_frame(f2, i2 as int, 1) is None);
                            assert(w0 is None);
                        }
                    }
                }
                return Err(e);
            },
        };
        let ghost s3 = *self;
        let ghost f1 = s3.frame_of(h1);
        proof {
                reveal(PageTableSpace::walk_entry);
            assert(s3.child_frame(f2, i2 as int, 1) == Some(f1));
            if h1 is Top {
                assert(f1 == s2.p4_frame);
                if h2 is Sub {
                    assert(s2.mid_slot_ok(h2->Sub_0 as int, i2 as int)
                        || s2.table_at(f2)[i2 as int].0 == 0);
                    s2.lemma_frame_index_unique(h2->Sub_0 as int);
                }
                lemma_zero_entry();
                assert(false);
            } else {
                s3.lemma_sub_handle_level(h1, 1);
            }
            assert(step_rel(s2, s3, f2, i2 as int)) by {
                if s3 != s2 {
                    assert(s2.table_at(f2)[i2 as int].0 == 0);
                }
            }
            assert(s3.sub_level_is(f1, 1)) by {
                assert(s3.frames@[h1->Sub_0 as int] == f1
                    && s3.levels@[h1->Sub_0 as int] == 1);
            }
            lemma_descent_summary(
                s0, s1, s2, s3, i4 as int, i3 as int, i2 as int, f3, f2, f1);
        }

        // The level-1 entry itself: by the descent summary it is the old
        // walk's entry when the whole path pre-existed, and zero when the
        // level-1 table is fresh.
        let entry = self.read_entry(h1, i1);
        proof {
                reveal(PageTableSpace::walk_entry);
            match s0.path_frame(i4 as int, i3 as int, i2 as int) {
                Some(g) => {
                    assert(s3 == s0 && g == f1);
                    assert(w0 == Some(entry.0));
                },
                None => {
                    assert(entry.0 == 0);
                    assert(w0 is None);
                },
            }
        }
        if !entry.is_unused() {
            if !allow_overwrite {
                proof {
                reveal(PageTableSpace::walk_entry);
                    assert(s3 == s0 && w0 == Some(entry.0));
                    // Every step found its entry present, so the allocator
                    // was never asked for a frame.
                    lemma_present_nonzero(s0.table_at(s0.p4_frame)[i4 as int].0);
                    lemma_present_nonzero(s0.table_at(f3)[i3 as int].0);
                    lemma_present_nonzero(s0.table_at(f2)[i2 as int].0);
                    assert(*allocator == a0);
                }
                return Err(MapError::EntryOverwrite);
            }
        }
        let invalidated: Option<u64> = if !entry.is_unused() && invalidate_addres {
            Some(page.address)
        } else {
            None
        };
        let mut new_entry = Entry(0);
        new_entry.write(frame, flags.union(EntryFlags(ENTRY_PRESENT)));
        let ghost k1 = h1->Sub_0 as int;
        self.set_entry(h1, i1, new_entry);
        proof {
                reveal(PageTableSpace::walk_entry);
            lemma_leaf_write(s3, *self, k1, i1 as int, new_entry);
            // The tables read on the path are distinct from the leaf, since
            // each arena frame serves exactly one level.
            assert(s3.p4_frame != f1);
            assert(f3 != f1) by {
                if h3 is Sub && f3 == f1 {
                    s3.lemma_frame_index_unique(h3->Sub_0 as int);
                    s3.lemma_frame_index_unique(k1);
                }
            }
            assert(f2 != f1) by {
                if f2 == f1 {
                    s3.lemma_frame_index_unique(h2->Sub_0 as int);
                    s3.lemma_frame_index_unique(k1);
                }
            }
            // The walk in the final state reaches the new entry.
            assert(self.child_frame(self.p4_frame, i4 as int, 3) == Some(f3));
            assert(self.child_frame(f3, i3 as int, 2) == Some(f2));
            assert(self.child_frame(f2, i2 as int, 1) == Some(f1));
            assert(self.table_at(f1)[i1 as int] == new_entry);
            assert(self.walk_entry(page.number) == Some(new_entry.0));
            let fa = frame.address;
            let fl = flags.0;
            assert(fa | (fl | 1u64) == (fa | fl) | 1u64) by (bit_vector);
            // Every other canonical, mappable page's walk is untouched.
            lemma_leaf_write_preserves(
                s3, *self, page.number, i4 as int, i3 as int, i2 as int, i1 as int,
                f3, f2, f1);
            assert forall|q: u64|
                page_canonical(q) && page_mappable(q) && q != page.number
                    && s0.walk_entry(q) is Some
                implies #[trigger] self.walk_entry(q) == s0.walk_entry(q) by {
                assert(s3.walk_entry(q) == s0.walk_entry(q));
            }
            // The allocator's bits changed by exactly the frames the arena
            // gained, step by step.
            assert forall|g: int| 0 <= g < 8 * allocator.slice@.len()
                implies #[trigger] allocator.frame_allocated(g)
                    == (a0.frame_allocated(g)
                        || (self.has_frame(g as u64) && !s0.has_frame(g as u64)
                            && 0 <= g <= u64::MAX)) by {
                lemma_has_frame_monotone(s0, s1, g as u64);
                lemma_has_frame_monotone(s1, s2, g as u64);
                lemma_has_frame_monotone(s2, s3, g as u64);
            }
        }
        Ok(invalidated)
    }
}

impl BitMapFrameAllocator {
    /// Map each frame of the bitmap's own run at virtual address equal to
    /// physical address, present and writable, so the bitmap stays
    /// reachable after the address-space switch: on success the walk of
    /// every frame of the run ends in exactly that entry.
    #[verifier::rlimit(100)]
    #[verifier::loop_isolation(false)]
    pub fn identity_map(
        &mut self,
        p4_table: &mut PageTableSpace,
        invalidate_addresses: bool,
        current_table_access: TableAccess,
    ) -> (r: Result<(), MapError>)
        requires
            old(self).wf(),
            old(p4_table).wf(),
            old(p4_table).frames_allocated_in(*old(self)),
            old(self).bitmap_frame + old(self).bitmap_size_in_frames < 0x800000000,
        ensures
            final(self).wf(),
            final(p4_table).wf(),
            final(p4_table).p4_frame == old(p4_table).p4_frame,
            final(p4_table).frames_allocated_in(*final(self)),
            PageTableSpace::allocator_monotone(*old(self), *final(self)),
            forall|fr: u64|
                old(p4_table).is_table_frame(fr) ==> final(p4_table).is_table_frame(fr),
            r is Ok ==> forall|i: u64|
                old(self).bitmap_frame <= i
                    < old(self).bitmap_frame + old(self).bitmap_size_in_frames
                    ==> #[trigger] final(p4_table).walk_entry(i)
                        == Some((i << 12) | (ENTRY_PRESENT | ENTRY_WRITABLE)),
    {
        let start_frame = self.bitmap_frame;
        let end_frame = self.bitmap_frame + self.bitmap_size_in_frames;
        let flags = EntryFlags(ENTRY_PRESENT | ENTRY_WRITABLE);
        let mut i = start_frame;
        while i < end_frame
            invariant
                start_frame <= i,
                i <= end_frame || i == start_frame,
                self.wf(),
                p4_table.wf(),
                p4_table.p4_frame == old(p4_table).p4_frame,
                p4_table.frames_allocated_in(*self),
                PageTableSpace::allocator_monotone(*old(self), *self),
                forall|fr: u64|
                    old(p4_table).is_table_frame(fr) ==> p4_table.is_table_frame(fr),
                forall|q: u64|
                    start_frame <= q < i
                        ==> #[trigger] p4_table.walk_entry(q)
                            == Some((q << 12) | (ENTRY_PRESENT | ENTRY_WRITABLE)),
            decreases end_frame - i,
        {
            proof {
                lemma_low_page_mappable(i);
                lemma_frame_number_address(i);
                lemma_pointer_entry_fields(i, (i << 12) as u64);
            }
            let frame = FrameInfo::from_number(i);
            let page = PageInfo::from_number(i);
            let ghost before = *p4_table;
            match p4_table.p4_map(
                frame,
                page,
                flags,
                false,
                invalidate_addresses,
                current_table_access,
                self,
            ) {
                Ok(_) => {},
                Err(e) => {
                    return Err(e);
                },
            }
            proof {
                let fa = frame.address;
                assert(ENTRY_PRESENT == 1u64 && ENTRY_WRITABLE == 2u64);
                assert(1u64 | 2u64 == 3u64) by (bit_vector);
                assert((fa | 3u64) | 1u64 == fa | 3u64) by (bit_vector);
                assert(p4_table.walk_entry(i)
                    == Some((i << 12) | (ENTRY_PRESENT | ENTRY_WRITABLE)));
                assert forall|q: u64| start_frame <= q < i + 1 implies
                    #[trigger] p4_table.walk_entry(q)
                        == Some((q << 12) | (ENTRY_PRESENT | ENTRY_WRITABLE)) by {
                    if q < i {
                        lemma_low_page_mappable(q);
                        assert(before.walk_entry(q)
                            == Some((q << 12) | (ENTRY_PRESENT | ENTRY_WRITABLE)));
                        assert(q != i);
                        assert(p4_table.walk_entry(q) == before.walk_entry(q));
                    }
                }
            }
            i = i + 1;
        }
        Ok(())
    }
}

/// One mapping step of the kernel remap: the new page's walk ends in the
/// planned entry, and the walks already installed — the bitmap run, the
/// VGA page, the finished regions and the finished part of the current
/// region — are untouched.
#[verifier::rlimit(100)]
proof fn lemma_remap_step(
    before: PageTableSpace,
    after: PageTableSpace,
    memory_map: Vec<MemoryRegion>,
    page_number: u64,
    k: int,
    bm_lo: u64,
    bm_hi: int,
    lo: u64,
    f: u64,
    frame_offset: u64,
    fa: u64,
)
    requires
        after.walk_entry(page_number)
            == Some(fa | (ENTRY_PRESENT | ENTRY_WRITABLE)),
        forall|q: u64|
            page_canonical(q) && page_mappable(q) && q != page_number
                && before.walk_entry(q) is Some
                ==> #[trigger] after.walk_entry(q) == before.walk_entry(q),
        !(before.walk_entry(page_number) matches Some(e) && e != 0),
        fa == f * 4096,
        page_number == (f + frame_offset) as u64,
        frame_offset == 0 || frame_offset == 0xffffffff80000,
        f < 0x800000000,
        frame_offset == 0xffffffff80000 ==> f < 0x40000,
        bm_hi <= 0x800000000,
        forall|q: u64|
            bm_lo <= q < bm_hi
                ==> #[trigger] before.walk_entry(q)
                    == Some((q << 12) | (ENTRY_PRESENT | ENTRY_WRITABLE)),
        before.walk_entry(0xb8) == Some(0xb8000 | (ENTRY_PRESENT | ENTRY_WRITABLE)),
        forall|kk: int|
            0 <= kk < memory_map@.len()
                ==> (#[trigger] memory_map@[kk].end_address) <= 0x800000000000,
        forall|kk: int|
            0 <= kk < memory_map@.len() && memory_map@[kk].entry_type is Kernel
                ==> (#[trigger] memory_map@[kk].end_address) <= 0x40000000,
        0 <= k,
        forall|kk: int, ff: u64|
            0 <= kk < k && kk < memory_map@.len()
                && region_remapped((#[trigger] memory_map@[kk]).entry_type)
                && memory_map@[kk].start_address / 4096 <= ff
                && ff < spec_ceil_div(memory_map@[kk].end_address as int, 4096)
                ==> #[trigger] before.walk_entry(
                    (ff + region_page_offset(memory_map@[kk].entry_type)) as u64)
                    == Some((ff << 12) | (ENTRY_PRESENT | ENTRY_WRITABLE)),
        forall|ff: u64|
            lo <= ff < f ==> #[trigger] before.walk_entry((ff + frame_offset) as u64)
                == Some((ff << 12) | (ENTRY_PRESENT | ENTRY_WRITABLE)),
    ensures
        after.walk_entry((f + frame_offset) as u64)
            == Some((f << 12) | (ENTRY_PRESENT | ENTRY_WRITABLE)),
        forall|q: u64|
            bm_lo <= q < bm_hi
                ==> #[trigger] after.walk_entry(q)
                    == Some((q << 12) | (ENTRY_PRESENT | ENTRY_WRITABLE)),
        after.walk_entry(0xb8) == Some(0xb8000 | (ENTRY_PRESENT | ENTRY_WRITABLE)),
        forall|kk: int, ff: u64|
            0 <= kk < k && kk < memory_map@.len()
                && region_remapped((#[trigger] memory_map@[kk]).entry_type)
                && memory_map@[kk].start_address / 4096 <= ff
                && ff < spec_ceil_div(memory_map@[kk].end_address as int, 4096)
                ==> #[trigger] after.walk_entry(
                    (ff + region_page_offset(memory_map@[kk].entry_type)) as u64)
                    == Some((ff << 12) | (ENTRY_PRESENT | ENTRY_WRITABLE)),
        forall|ff: u64|
            lo <= ff < f + 1 ==> #[trigger] after.walk_entry((ff + frame_offset) as u64)
                == Some((ff << 12) | (ENTRY_PRESENT | ENTRY_WRITABLE)),
{
    assert(ENTRY_PRESENT == 1u64 && ENTRY_WRITABLE == 2u64);
    assert(1u64 | 2u64 == 3u64) by (bit_vector);
    lemma_pointer_entry_fields(f, (f << 12) as u64);
    assert(after.walk_entry((f + frame_offset) as u64)
        == Some((f << 12) | (ENTRY_PRESENT | ENTRY_WRITABLE)));
    assert forall|x: u64| ((x | 3u64) != 0) by {
        assert(forall|x: u64| (x | 3u64) != 0) by (bit_vector);
    }
    assert forall|q: u64| bm_lo <= q < bm_hi implies
        #[trigger] after.walk_entry(q)
            == Some((q << 12) | (ENTRY_PRESENT | ENTRY_WRITABLE)) by {
        lemma_low_page_mappable(q);
        if q == page_number {
            assert(before.walk_entry(page_number) matches Some(e) && e != 0);
        }
        assert(after.walk_entry(q) == before.walk_entry(q));
    }
    assert(after.walk_entry(0xb8) == Some(0xb8000 | (ENTRY_PRESENT | ENTRY_WRITABLE))) by {
        lemma_low_page_mappable(0xb8);
        if 0xb8u64 == page_number {
            assert(before.walk_entry(page_number) matches Some(e) && e != 0);
        }
        assert(after.walk_entry(0xb8) == before.walk_entry(0xb8));
    }
    assert forall|kk: int, ff: u64|
        0 <= kk < k && kk < memory_map@.len()
            && region_remapped((#[trigger] memory_map@[kk]).entry_type)
            && memory_map@[kk].start_address / 4096 <= ff
            && ff < spec_ceil_div(memory_map@[kk].end_address as int, 4096)
        implies #[trigger] after.walk_entry(
            (ff + region_page_offset(memory_map@[kk].entry_type)) as u64)
            == Some((ff << 12) | (ENTRY_PRESENT | ENTRY_WRITABLE)) by {
        let off = region_page_offset(memory_map@[kk].entry_type);
        let q = (ff + off) as u64;
        crate::utils::lemma_ceil_div_mono(
            memory_map@[kk].end_address as int, 0x800000000000, 4096);
        crate::utils::lemma_ceil_div_shift(0x800000000, 0, 4096);
        if off == 0 {
            lemma_low_page_mappable(q);
        } else {
            crate::utils::lemma_ceil_div_mono(
                memory_map@[kk].end_address as int, 0x40000000, 4096);
            crate::utils::lemma_ceil_div_shift(0x40000, 0, 4096);
            lemma_kernel_page_mappable(ff);
        }
        if q == page_number {
            assert(before.walk_entry(page_number) matches Some(e) && e != 0);
        }
        assert(after.walk_entry(q) == before.walk_entry(q));
    }
    assert forall|ff: u64| lo <= ff < f + 1 implies
        #[trigger] after.walk_entry((ff + frame_offset) as u64)
            == Some((ff << 12) | (ENTRY_PRESENT | ENTRY_WRITABLE)) by {
        if ff < f {
            let q = (ff + frame_offset) as u64;
            if frame_offset == 0 {
                lemma_low_page_mappable(q);
            } else {
                lemma_kernel_page_mappable(ff);
            }
            if q == page_number {
                assert(before.walk_entry(page_number) matches Some(e) && e != 0);
            }
            assert(after.walk_entry(q) == before.walk_entry(q));
        }
    }
}

/// Whether the kernel remap plan maps a region of this type (usable RAM
/// and bad memory stay unmapped).
pub open spec fn region_remapped(t: MemoryMapEntryType) -> bool {
    ||| t is Reserved
    ||| t is AcpiReclaimable
    ||| t is AcpiNvs
    ||| t is BootloaderReclaimable
    ||| t is Kernel
}

/// The page-number offset the remap plan uses for a region type: the
/// kernel image moves up by `KERNEL_OFFSET`, everything else stays at its
/// own address.
pub open spec fn region_page_offset(t: MemoryMapEntryType) -> u64 {
    if t is Kernel {
        0xffffffff80000
    } else {
        0
    }
}

impl PageTableSpace {
    /// Resolve one walk step at runtime: the table slot `index` of the
    /// table `h` names leads to, when the walk expects level `lvl` there.
    fn step_lookup(&self, h: TableRef, index: usize, lvl: u8) -> (r: Option<TableRef>)
        requires
            self.wf(),
            self.valid_handle(h),
            index < 512,
        ensures
            match r {
                Some(c) => self.valid_handle(c)
                    && self.child_frame(self.frame_of(h), index as int, lvl as int)
                        == Some(self.frame_of(c)),
                None => self.child_frame(self.frame_of(h), index as int, lvl as int) is None,
            },
    {
        let e = self.read_entry(h, index);
        let flags = e.get_flags();
        if !flags.contains(EntryFlags(ENTRY_PRESENT))
            || flags.contains(EntryFlags(ENTRY_HUGE_PAGE)) {
            return None;
        }
        let target = e.read_address() >> 12;
        proof {
            assert(target == spec_entry_target(e.0));
        }
        if target == self.p4_frame {
            Some(TableRef::Top)
        } else {
            match self.find_table(target, lvl) {
                Some(k) => {
                    proof {
                        self.lemma_frame_index_unique(k as int);
                    }
                    Some(TableRef::Sub(k))
                },
                None => None,
            }
        }
    }

    /// The runtime view of `walk_entry`: the raw level-1 entry the walk
    /// reaches for a page number, or `None` when the path is missing or
    /// unusable.
    pub fn walk(&self, page_number: u64) -> (r: Option<u64>)
        requires
            self.wf(),
        ensures
            r == self.walk_entry(page_number),
    {
        proof {
            reveal(PageTableSpace::walk_entry);
            lemma_shift_is_div(page_number, 27);
            lemma_shift_is_div(page_number, 18);
            lemma_shift_is_div(page_number, 9);
            lemma_shift_is_div(page_number, 0);
            vstd::arithmetic::div_mod::lemma_mod_bound(page_number as int / 0x8000000, 512);
            vstd::arithmetic::div_mod::lemma_mod_bound(page_number as int / 0x40000, 512);
            vstd::arithmetic::div_mod::lemma_mod_bound(page_number as int / 0x200, 512);
            vstd::arithmetic::div_mod::lemma_mod_bound(page_number as int, 512);
            vstd::arithmetic::div_mod::lemma_div_pos_is_pos(page_number as int, 0x8000000);
            vstd::arithmetic::div_mod::lemma_div_pos_is_pos(page_number as int, 0x40000);
            vstd::arithmetic::div_mod::lemma_div_pos_is_pos(page_number as int, 0x200);
        }
        let i4 = ((page_number >> 27) & 0o777) as usize;
        let i3 = ((page_number >> 18) & 0o777) as usize;
        let i2 = ((page_number >> 9) & 0o777) as usize;
        let i1 = ((page_number >> 0) & 0o777) as usize;
        let h3 = match self.step_lookup(TableRef::Top, i4, 3) {
            Some(c) => c,
            None => {
                return None;
            },
        };
        let h2 = match self.step_lookup(h3, i3, 2) {
            Some(c) => c,
            None => {
                return None;
            },
        };
        let h1 = match self.step_lookup(h2, i2, 1) {
            Some(c) => c,
            None => {
                return None;
            },
        };
        let entry = self.read_entry(h1, i1);
        Some(entry.0)
    }

    /// One mapping of the kernel remap plan — present and writable, no
    /// overwrite, no invalidation, identity table access — restated with
    /// just the facts the plan's proofs need.
    fn remap_map_page(
        &mut self,
        frame: FrameInfo,
        page: PageInfo,
        allocator: &mut BitMapFrameAllocator,
    ) -> (r: Result<(), MapError>)
        requires
            old(self).wf(),
            old(allocator).wf(),
            old(self).frames_allocated_in(*old(allocator)),
            frame.address & !ENTRY_ADDRESS_MASK == 0,
            !(spec_p4_index(page.number) == 511 && spec_p3_index(page.number) == 511),
            page_canonical(page.number),
        ensures
            final(self).wf(),
            final(self).p4_frame == old(self).p4_frame,
            final(allocator).wf(),
            Self::allocator_monotone(*old(allocator), *final(allocator)),
            final(self).frames_allocated_in(*final(allocator)),
            forall|fr: u64| old(self).is_table_frame(fr) ==> final(self).is_table_frame(fr),
            r is Ok ==> {
                &&& final(self).walk_entry(page.number)
                    == Some(frame.address | (ENTRY_PRESENT | ENTRY_WRITABLE))
                &&& !(old(self).walk_entry(page.number) matches Some(e) && e != 0)
                &&& forall|q: u64|
                    page_canonical(q) && page_mappable(q) && q != page.number
                        && old(self).walk_entry(q) is Some
                        ==> #[trigger] final(self).walk_entry(q)
                            == old(self).walk_entry(q)
            },
    {
        let r = self.p4_map(
            frame,
            page,
            EntryFlags(ENTRY_PRESENT | ENTRY_WRITABLE),
            false,
            false,
            TableAccess::Identity,
            allocator,
        );
        proof {
            if r is Ok {
                let fa = frame.address;
                assert(ENTRY_PRESENT == 1u64 && ENTRY_WRITABLE == 2u64);
                assert(1u64 | 2u64 == 3u64) by (bit_vector);
                assert((fa | 3u64) | 1u64 == fa | 3u64) by (bit_vector);
            }
        }
        match r {
            Ok(_) => Ok(()),
            Err(e) => Err(e),
        }
    }

    /// Install the mappings the kernel needs before the address-space
    /// switch: the frame allocator's bitmap (identity), the VGA text
    /// buffer (identity), and every non-usable memory region — reserved
    /// and ACPI ranges at their own addresses, the kernel image shifted up
    /// by `KERNEL_OFFSET`. Usable and bad memory stay unmapped by this
    /// pass. On success the walks of the bitmap run, the VGA page and
    /// every frame of every remapped region end in the planned present and
    /// writable entries.
    #[verifier::rlimit(100)]
    pub fn p4_kernel_remap(
        &mut self,
        memory_map: &Vec<MemoryRegion>,
        allocator: &mut BitMapFrameAllocator,
    ) -> (r: Result<(), MapError>)
        requires
            old(self).wf(),
            old(allocator).wf(),
            old(self).frames_allocated_in(*old(allocator)),
            old(allocator).bitmap_frame + old(allocator).bitmap_size_in_frames < 0x800000000,
            forall|k: int|
                0 <= k < memory_map@.len()
                    ==> (#[trigger] memory_map@[k].end_address) <= 0x800000000000,
            forall|k: int|
                0 <= k < memory_map@.len() && memory_map@[k].entry_type is Kernel
                    ==> (#[trigger] memory_map@[k].end_address) <= 0x40000000,
        ensures
            final(self).wf(),
            final(self).p4_frame == old(self).p4_frame,
            final(allocator).wf(),
            final(self).frames_allocated_in(*final(allocator)),
            PageTableSpace::allocator_monotone(*old(allocator), *final(allocator)),
            forall|fr: u64| old(self).is_table_frame(fr) ==> final(self).is_table_frame(fr),
            r is Ok ==> {
                &&& forall|i: u64|
                    old(allocator).bitmap_frame <= i
                        < old(allocator).bitmap_frame + old(allocator).bitmap_size_in_frames
                        ==> #[trigger] final(self).walk_entry(i)
                            == Some((i << 12) | (ENTRY_PRESENT | ENTRY_WRITABLE))
                &&& final(self).walk_entry(0xb8)
                    == Some(0xb8000 | (ENTRY_PRESENT | ENTRY_WRITABLE))
                &&& forall|k: int, f: u64|
                    0 <= k < memory_map@.len()
                        && region_remapped((#[trigger] memory_map@[k]).entry_type)
                        && memory_map@[k].start_address / 4096 <= f
                        && f < spec_ceil_div(memory_map@[k].end_address as int, 4096)
                        ==> #[trigger] final(self).walk_entry(
                            (f + region_page_offset(memory_map@[k].entry_type)) as u64)
                            == Some((f << 12) | (ENTRY_PRESENT | ENTRY_WRITABLE))
            },
    {
        let ghost bm_lo = allocator.bitmap_frame;
        let ghost bm_hi = allocator.bitmap_frame + allocator.bitmap_size_in_frames;

        // Making sure the frame allocator identity maps all of its data.
        match allocator.identity_map(self, false, TableAccess::Identity) {
            Ok(_) => {},
            Err(e) => {
                return Err(e);
            },
        }

        proof {
            assert(ENTRY_PRESENT == 1u64 && ENTRY_WRITABLE == 2u64);
            assert(1u64 | 2u64 == 3u64) by (bit_vector);
        }

        // Map the VGA framebuffer.
        proof {
            lemma_low_page_mappable(0xb8000u64 / 4096);
            assert(0xb8000u64 & !0x000fffff_fffff000u64 == 0) by (bit_vector);
        }
        let vga_frame = FrameInfo::from_address(0xb8000);
        let vga_page = PageInfo::from_address(0xb8000);
        proof {
            assert(vga_page.number == 0xb8000u64 / 4096);
        }
        let ghost before_vga = *self;
        match self.remap_map_page(vga_frame, vga_page, allocator) {
            Ok(_) => {},
            Err(e) => {
                return Err(e);
            },
        }
        proof {
            assert(self.walk_entry(0xb8) == Some(0xb8000 | (ENTRY_PRESENT | ENTRY_WRITABLE)));
            assert forall|q: u64| bm_lo <= q < bm_hi implies
                #[trigger] self.walk_entry(q)
                    == Some((q << 12) | (ENTRY_PRESENT | ENTRY_WRITABLE)) by {
                lemma_low_page_mappable(q);
                assert(((q << 12) | 3u64) != 0) by (bit_vector);
                assert(q != vga_page.number) by {
                    if q == vga_page.number {
                        assert(before_vga.walk_entry(vga_page.number) matches Some(e) && e != 0);
                    }
                }
                assert(self.walk_entry(q) == before_vga.walk_entry(q));
            }
        }

        match self.remap_regions(memory_map, allocator, Ghost(bm_lo), Ghost(bm_hi)) {
            Ok(_) => {},
            Err(e) => {
                return Err(e);
            },
        }
        Ok(())
    }

    /// Map one frame of the remap plan and carry the plan's installed
    /// walks forward.
    #[verifier::rlimit(100)]
    fn map_plan_frame(
        &mut self,
        allocator: &mut BitMapFrameAllocator,
        memory_map: &Vec<MemoryRegion>,
        f: u64,
        frame_offset: u64,
        Ghost(k): Ghost<int>,
        Ghost(bm_lo): Ghost<u64>,
        Ghost(bm_hi): Ghost<int>,
        Ghost(lo): Ghost<u64>,
    ) -> (r: Result<(), MapError>)
        requires
            old(self).wf(),
            old(allocator).wf(),
            old(self).frames_allocated_in(*old(allocator)),
            f < 0x800000000,
            frame_offset == 0 || frame_offset == 0xffffffff80000,
            frame_offset == 0xffffffff80000 ==> f < 0x40000,
            bm_hi <= 0x800000000,
            0 <= k,
            forall|kk: int|
                0 <= kk < memory_map@.len()
                    ==> (#[trigger] memory_map@[kk].end_address) <= 0x800000000000,
            forall|kk: int|
                0 <= kk < memory_map@.len() && memory_map@[kk].entry_type is Kernel
                    ==> (#[trigger] memory_map@[kk].end_address) <= 0x40000000,
            forall|q: u64|
                bm_lo <= q < bm_hi
                    ==> #[trigger] old(self).walk_entry(q)
                        == Some((q << 12) | (ENTRY_PRESENT | ENTRY_WRITABLE)),
            old(self).walk_entry(0xb8) == Some(0xb8000 | (ENTRY_PRESENT | ENTRY_WRITABLE)),
            forall|kk: int, ff: u64|
                0 <= kk < k && kk < memory_map@.len()
                    && region_remapped((#[trigger] memory_map@[kk]).entry_type)
                    && memory_map@[kk].start_address / 4096 <= ff
                    && ff < spec_ceil_div(memory_map@[kk].end_address as int, 4096)
                    ==> #[trigger] old(self).walk_entry(
                        (ff + region_page_offset(memory_map@[kk].entry_type)) as u64)
                        == Some((ff << 12) | (ENTRY_PRESENT | ENTRY_WRITABLE)),
            forall|ff: u64|
                lo <= ff < f ==> #[trigger] old(self).walk_entry((ff + frame_offset) as u64)
                    == Some((ff << 12) | (ENTRY_PRESENT | ENTRY_WRITABLE)),
        ensures
            final(self).wf(),
            final(self).p4_frame == old(self).p4_frame,
            final(allocator).wf(),
            final(self).frames_allocated_in(*final(allocator)),
            PageTableSpace::allocator_monotone(*old(allocator), *final(allocator)),
            forall|fr: u64| old(self).is_table_frame(fr) ==> final(self).is_table_frame(fr),
            r is Ok ==> {
                &&& forall|q: u64|
                    bm_lo <= q < bm_hi
                        ==> #[trigger] final(self).walk_entry(q)
                            == Some((q << 12) | (ENTRY_PRESENT | ENTRY_WRITABLE))
                &&& final(self).walk_entry(0xb8)
                    == Some(0xb8000 | (ENTRY_PRESENT | ENTRY_WRITABLE))
                &&& forall|kk: int, ff: u64|
                    0 <= kk < k && kk < memory_map@.len()
                        && region_remapped((#[trigger] memory_map@[kk]).entry_type)
                        && memory_map@[kk].start_address / 4096 <= ff
                        && ff < spec_ceil_div(memory_map@[kk].end_address as int, 4096)
                        ==> #[trigger] final(self).walk_entry(
                            (ff + region_page_offset(memory_map@[kk].entry_type)) as u64)
                            == Some((ff << 12) | (ENTRY_PRESENT | ENTRY_WRITABLE))
                &&& forall|ff: u64|
                    lo <= ff < f + 1
                        ==> #[trigger] final(self).walk_entry((ff + frame_offset) as u64)
                            == Some((ff << 12) | (ENTRY_PRESENT | ENTRY_WRITABLE))
            },
    {
        proof {
            lemma_frame_number_address(f);
            if frame_offset == 0 {
                lemma_low_page_mappable(f);
            } else {
                lemma_kernel_page_mappable(f);
            }
        }
        let frame = FrameInfo::from_number(f);
        let page = PageInfo::from_number(f + frame_offset);
        let ghost before = *self;
        match self.remap_map_page(frame, page, allocator) {
            Ok(_) => {},
            Err(e) => {
                return Err(e);
            },
        }
        proof {
            lemma_remap_step(
                before, *self, *memory_map, page.number, k,
                bm_lo, bm_hi, lo, f, frame_offset, frame.address);
        }
        Ok(())
    }

    /// The region pass of the kernel remap: map every remapped region's
    /// frames at their planned offsets, leaving the bitmap-run and VGA
    /// walks in place.
    #[verifier::rlimit(100)]
    fn remap_regions(
        &mut self,
        memory_map: &Vec<MemoryRegion>,
        allocator: &mut BitMapFrameAllocator,
        Ghost(bm_lo): Ghost<u64>,
        Ghost(bm_hi): Ghost<int>,
    ) -> (r: Result<(), MapError>)
        requires
            old(self).wf(),
            old(allocator).wf(),
            old(self).frames_allocated_in(*old(allocator)),
            bm_hi <= 0x800000000,
            forall|k: int|
                0 <= k < memory_map@.len()
                    ==> (#[trigger] memory_map@[k].end_address) <= 0x800000000000,
            forall|k: int|
                0 <= k < memory_map@.len() && memory_map@[k].entry_type is Kernel
                    ==> (#[trigger] memory_map@[k].end_address) <= 0x40000000,
            forall|q: u64|
                bm_lo <= q < bm_hi
                    ==> #[trigger] old(self).walk_entry(q)
                        == Some((q << 12) | (ENTRY_PRESENT | ENTRY_WRITABLE)),
            old(self).walk_entry(0xb8) == Some(0xb8000 | (ENTRY_PRESENT | ENTRY_WRITABLE)),
        ensures
            final(self).wf(),
            final(self).p4_frame == old(self).p4_frame,
            final(allocator).wf(),
            final(self).frames_allocated_in(*final(allocator)),
            PageTableSpace::allocator_monotone(*old(allocator), *final(allocator)),
            forall|fr: u64| old(self).is_table_frame(fr) ==> final(self).is_table_frame(fr),
            r is Ok ==> {
                &&& forall|q: u64|
                    bm_lo <= q < bm_hi
                        ==> #[trigger] final(self).walk_entry(q)
                            == Some((q << 12) | (ENTRY_PRESENT | ENTRY_WRITABLE))
                &&& final(self).walk_entry(0xb8)
                    == Some(0xb8000 | (ENTRY_PRESENT | ENTRY_WRITABLE))
                &&& forall|k: int, f: u64|
                    0 <= k < memory_map@.len()
                        && region_remapped((#[trigger] memory_map@[k]).entry_type)
                        && memory_map@[k].start_address / 4096 <= f
                        && f < spec_ceil_div(memory_map@[k].end_address as int, 4096)
                        ==> #[trigger] final(self).walk_entry(
                            (f + region_page_offset(memory_map@[k].entry_type)) as u64)
                            == Some((f << 12) | (ENTRY_PRESENT | ENTRY_WRITABLE))
            },
    {
        // Some memory areas need to be mapped, some don't.
        let n = memory_map.len();
        let mut k: usize = 0;
        while k < n
            invariant
                k <= n,
                n == memory_map@.len(),
                                bm_hi <= 0x800000000,
                forall|kk: int|
                    0 <= kk < memory_map@.len()
                        ==> (#[trigger] memory_map@[kk].end_address) <= 0x800000000000,
                forall|kk: int|
                    0 <= kk < memory_map@.len() && memory_map@[kk].entry_type is Kernel
                        ==> (#[trigger] memory_map@[kk].end_address) <= 0x40000000,
                self.wf(),
                self.p4_frame == old(self).p4_frame,
                allocator.wf(),
                self.frames_allocated_in(*allocator),
                PageTableSpace::allocator_monotone(*old(allocator), *allocator),
                forall|fr: u64| old(self).is_table_frame(fr) ==> self.is_table_frame(fr),
                forall|q: u64|
                    bm_lo <= q < bm_hi
                        ==> #[trigger] self.walk_entry(q)
                            == Some((q << 12) | (ENTRY_PRESENT | ENTRY_WRITABLE)),
                self.walk_entry(0xb8) == Some(0xb8000 | (ENTRY_PRESENT | ENTRY_WRITABLE)),
                forall|kk: int, f: u64|
                    0 <= kk < k && region_remapped((#[trigger] memory_map@[kk]).entry_type)
                        && memory_map@[kk].start_address / 4096 <= f
                        && f < spec_ceil_div(memory_map@[kk].end_address as int, 4096)
                        ==> #[trigger] self.walk_entry(
                            (f + region_page_offset(memory_map@[kk].entry_type)) as u64)
                            == Some((f << 12) | (ENTRY_PRESENT | ENTRY_WRITABLE)),
            decreases n - k,
        {
            let area = &memory_map[k];
            let do_map: bool;
            let offset: u64;
            match area.entry_type {
                MemoryMapEntryType::Usable => { do_map = false; offset = 0; },
                MemoryMapEntryType::Reserved => { do_map = true; offset = 0; },
                MemoryMapEntryType::AcpiReclaimable => { do_map = true; offset = 0; },
                MemoryMapEntryType::AcpiNvs => { do_map = true; offset = 0; },
                MemoryMapEntryType::BadMemory => { do_map = false; offset = 0; },
                MemoryMapEntryType::BootloaderReclaimable => { do_map = true; offset = 0; },
                MemoryMapEntryType::Kernel => { do_map = true; offset = crate::KERNEL_OFFSET; },
            }

            if do_map {
                let frame_start = area.start_address / FRAME_SIZE;
                let frame_end = crate::frame_allocator::ceil_div_u64(area.end_address, FRAME_SIZE);
                let frame_offset = offset / FRAME_SIZE;
                proof {
                    crate::utils::lemma_ceil_div_bounds(area.end_address as int, FRAME_SIZE as int);
                    crate::utils::lemma_mul_lt_cancel(
                        frame_end as int - 1, 0x800000000, FRAME_SIZE as int);
                    if offset != 0 {
                        crate::utils::lemma_mul_lt_cancel(
                            frame_end as int - 1, 0x40000, FRAME_SIZE as int);
                    }
                    assert(region_page_offset(area.entry_type) == frame_offset);
                }

                let mut f = frame_start;
                while f < frame_end
                    invariant
                        k < n,
                        n == memory_map@.len(),
                        bm_hi <= 0x800000000,
                        forall|kk: int|
                            0 <= kk < memory_map@.len()
                                ==> (#[trigger] memory_map@[kk].end_address) <= 0x800000000000,
                        forall|kk: int|
                            0 <= kk < memory_map@.len()
                                && memory_map@[kk].entry_type is Kernel
                                ==> (#[trigger] memory_map@[kk].end_address) <= 0x40000000,
                        frame_start <= f,
                        f <= frame_end || f == frame_start,
                        frame_end <= 0x800000000,
                        frame_start == memory_map@[k as int].start_address / 4096,
                        frame_end == spec_ceil_div(memory_map@[k as int].end_address as int, 4096),
                        region_remapped(memory_map@[k as int].entry_type),
                        offset == 0 || offset == crate::KERNEL_OFFSET,
                        offset == crate::KERNEL_OFFSET ==> frame_end <= 0x40000,
                        offset == 0 ==> frame_offset == 0,
                        offset != 0 ==> frame_offset == 0xffffffff80000,
                        frame_offset == offset / (FRAME_SIZE as u64),
                        frame_offset == region_page_offset(memory_map@[k as int].entry_type),
                        self.wf(),
                        self.p4_frame == old(self).p4_frame,
                        allocator.wf(),
                        self.frames_allocated_in(*allocator),
                        PageTableSpace::allocator_monotone(*old(allocator), *allocator),
                        forall|fr: u64|
                            old(self).is_table_frame(fr) ==> self.is_table_frame(fr),
                        forall|q: u64|
                            bm_lo <= q < bm_hi
                                ==> #[trigger] self.walk_entry(q)
                                    == Some((q << 12) | (ENTRY_PRESENT | ENTRY_WRITABLE)),
                        self.walk_entry(0xb8)
                            == Some(0xb8000 | (ENTRY_PRESENT | ENTRY_WRITABLE)),
                        forall|kk: int, ff: u64|
                            0 <= kk < k && region_remapped((#[trigger] memory_map@[kk]).entry_type)
                                && memory_map@[kk].start_address / 4096 <= ff
                                && ff < spec_ceil_div(memory_map@[kk].end_address as int, 4096)
                                ==> #[trigger] self.walk_entry(
                                    (ff + region_page_offset(memory_map@[kk].entry_type)) as u64)
                                    == Some((ff << 12) | (ENTRY_PRESENT | ENTRY_WRITABLE)),
                        forall|ff: u64|
                            frame_start <= ff < f
                                ==> #[trigger] self.walk_entry((ff + frame_offset) as u64)
                                    == Some((ff << 12) | (ENTRY_PRESENT | ENTRY_WRITABLE)),
                    decreases frame_end - f,
                {
                    match self.map_plan_frame(
                        allocator, memory_map, f, frame_offset,
                        Ghost(k as int), Ghost(bm_lo), Ghost(bm_hi),
                        Ghost(frame_start)) {
                        Ok(_) => {},
                        Err(e) => {
                            return Err(e);
                        },
                    }
                    f = f + 1;
                }
                proof {
                    assert forall|ff: u64|
                        memory_map@[k as int].start_address / 4096 <= ff
                            && ff < spec_ceil_div(memory_map@[k as int].end_address as int, 4096)
                        implies #[trigger] self.walk_entry(
                            (ff + region_page_offset(memory_map@[k as int].entry_type)) as u64)
                            == Some((ff << 12) | (ENTRY_PRESENT | ENTRY_WRITABLE)) by {
                        assert(frame_start <= ff < frame_end);
                    }
                }
            }
            k = k + 1;
        }
        Ok(())
    }
}

/// How one descent step may change the arena: either it touched nothing,
/// or it filled the empty slot `(x_fr, x_j)` with a pointer to one fresh
/// table and left every other slot alone.
pub open spec fn step_rel(o: PageTableSpace, n: PageTableSpace, x_fr: u64, x_j: int) -> bool {
    ||| n == o
    ||| {
        &&& n.p4_frame == o.p4_frame
        &&& o.frames@.len() <= n.frames@.len()
        &&& n.frames@.len() <= o.frames@.len() + 1
        &&& (forall|k: int| #![trigger n.frames@[k]] #![trigger n.levels@[k]]
            0 <= k < o.frames@.len()
                ==> n.frames@[k] == o.frames@[k] && n.levels@[k] == o.levels@[k])
        &&& (n.frames@.len() == o.frames@.len() + 1
            ==> !o.is_table_frame(n.frames@[o.frames@.len() as int]))
        &&& o.table_at(x_fr)[x_j].0 == 0
        &&& (forall|fr: u64, j: int|
            o.is_table_frame(fr) && 0 <= j < 512 && !(fr == x_fr && j == x_j)
                ==> #[trigger] n.table_at(fr)[j] == o.table_at(fr)[j])
    }
}

/// Creating one table (or touching nothing) preserves every walk step that
/// was already usable: a pointer-table slot holding a nonzero entry leads
/// to the same child before and after.
proof fn lemma_step_preserves_children(
    o: PageTableSpace,
    n: PageTableSpace,
    x_fr: u64,
    x_j: int,
)
    requires
        o.wf(),
        n.wf(),
        n.p4_frame == o.p4_frame,
        o.frames@.len() <= n.frames@.len(),
        n.frames@.len() <= o.frames@.len() + 1,
        forall|k: int| #![trigger n.frames@[k]] #![trigger n.levels@[k]]
            0 <= k < o.frames@.len()
                ==> n.frames@[k] == o.frames@[k] && n.levels@[k] == o.levels@[k],
        n.frames@.len() == o.frames@.len() + 1
            ==> !o.is_table_frame(n.frames@[o.frames@.len() as int]),
        o.table_at(x_fr)[x_j].0 == 0,
        forall|fr: u64, j: int|
            o.is_table_frame(fr) && 0 <= j < 512 && !(fr == x_fr && j == x_j)
                ==> #[trigger] n.table_at(fr)[j] == #[trigger] o.table_at(fr)[j],
    ensures
        forall|fr: u64, j: int, lvl: int|
            o.is_pointer_table(fr) && 0 <= j < 512 && o.table_at(fr)[j].0 != 0
                ==> #[trigger] n.child_frame(fr, j, lvl) == o.child_frame(fr, j, lvl),
        forall|fr: u64, lvl: int|
            o.sub_level_is(fr, lvl) ==> #[trigger] n.sub_level_is(fr, lvl),
{
    assert forall|fr: u64, lvl: int|
        o.sub_level_is(fr, lvl) implies #[trigger] n.sub_level_is(fr, lvl) by {
        let k = choose|k: int|
            0 <= k < o.frames@.len() && o.frames@[k] == fr && #[trigger] o.levels@[k] == lvl;
        assert(0 <= k < o.frames@.len() && o.frames@[k] == fr && o.levels@[k] == lvl);
        assert(k < n.frames@.len());
        assert(n.frames@[k] == fr && n.levels@[k] == lvl);
    }
    assert forall|fr: u64, j: int, lvl: int|
        o.is_pointer_table(fr) && 0 <= j < 512 && o.table_at(fr)[j].0 != 0
            implies #[trigger] n.child_frame(fr, j, lvl) == o.child_frame(fr, j, lvl) by {
        assert(o.is_table_frame(fr)) by {
            if o.sub_level_is(fr, 3) || o.sub_level_is(fr, 2) {
                assert(o.has_frame(fr));
            }
        }
        assert(n.table_at(fr)[j] == o.table_at(fr)[j]);
        let e = o.table_at(fr)[j].0;
        if spec_entry_present(e) && !spec_entry_huge(e) {
            let t = spec_entry_target(e);
            if t != o.p4_frame {
                // An old pointer entry's target is an old subsidiary
                // frame, never the freshly created one.
                if n.sub_level_is(t, lvl) && !o.sub_level_is(t, lvl) {
                    let k = choose|k: int|
                        0 <= k < n.frames@.len() && n.frames@[k] == t && n.levels@[k] == lvl;
                    assert(k == o.frames@.len());
                    assert(!o.is_table_frame(t));
                    if fr == o.p4_frame {
                        if j == 511 {
                            assert(o.p4_recursive_slot_ok());
                        } else {
                            assert(o.p4_slot_ok(j));
                        }
                        assert(o.sub_level_is(t, 3) || o.sub_level_is(t, 2));
                        assert(o.has_frame(t));
                    } else {
                        assert(o.sub_level_is(fr, 3) || o.sub_level_is(fr, 2));
                        let km = choose|km: int|
                            0 <= km < o.frames@.len() && o.frames@[km] == fr
                                && (o.levels@[km] == 3 || o.levels@[km] == 2);
                        o.lemma_frame_index_unique(km);
                        assert(o.mid_slot_ok(km, j));
                        assert(o.sub_level_is(t, o.levels@[km] - 1));
                        assert(o.has_frame(t));
                    }
                    assert(false);
                }
            }
        }
    }
}

/// One descent step keeps every already-usable walk step usable and
/// unchanged.
proof fn lemma_step_rel_children(o: PageTableSpace, n: PageTableSpace, x_fr: u64, x_j: int)
    requires
        o.wf(),
        n.wf(),
        step_rel(o, n, x_fr, x_j),
    ensures
        forall|fr: u64, j: int, lvl: int|
            o.is_pointer_table(fr) && 0 <= j < 512 && o.table_at(fr)[j].0 != 0
                ==> #[trigger] n.child_frame(fr, j, lvl) == o.child_frame(fr, j, lvl),
        forall|fr: u64, lvl: int|
            o.sub_level_is(fr, lvl) ==> #[trigger] n.sub_level_is(fr, lvl),
        forall|fr: u64| o.is_table_frame(fr) ==> #[trigger] n.is_table_frame(fr),
        forall|fr: u64, j: int|
            o.is_table_frame(fr) && 0 <= j < 512 && o.table_at(fr)[j].0 != 0
                ==> #[trigger] n.table_at(fr)[j] == o.table_at(fr)[j],
{
    if n == o {
    } else {
        lemma_step_preserves_children(o, n, x_fr, x_j);
        assert forall|fr: u64| o.is_table_frame(fr) implies #[trigger] n.is_table_frame(fr) by {
            if o.has_frame(fr) {
                let k = choose|k: int| 0 <= k < o.frames@.len() && o.frames@[k] == fr;
                assert(n.frames@[k] == fr);
            }
        }
    }
}

/// The top table's frame never appears among the subsidiary frames.
proof fn lemma_p4_not_sub(s: PageTableSpace, lvl: int)
    requires
        s.wf(),
    ensures
        !s.sub_level_is(s.p4_frame, lvl),
{
    if s.sub_level_is(s.p4_frame, lvl) {
        let k = choose|k: int|
            0 <= k < s.frames@.len() && s.frames@[k] == s.p4_frame
                && #[trigger] s.levels@[k] == lvl;
    }
}

impl PageTableSpace {
    /// A subsidiary frame serves exactly one level.
    proof fn lemma_sub_level_unique(self, fr: u64, la: int, lb: int)
        requires
            self.wf(),
            self.sub_level_is(fr, la),
            self.sub_level_is(fr, lb),
        ensures
            la == lb,
    {
        let ka = choose|k: int|
            0 <= k < self.frames@.len() && self.frames@[k] == fr && #[trigger] self.levels@[k] == la;
        let kb = choose|k: int|
            0 <= k < self.frames@.len() && self.frames@[k] == fr && #[trigger] self.levels@[k] == lb;
        if ka != kb {
            if ka < kb {
                assert(self.frames@[ka] != self.frames@[kb]);
            } else {
                assert(self.frames@[kb] != self.frames@[ka]);
            }
        }
    }

    /// The tables a usable walk of a mappable page reads, and their roles:
    /// after the top table, a level-3 table (or the top table again, via
    /// the recursive slot), then a level-2 and a level-1 subsidiary table.
    proof fn lemma_walk_roles(self, q: u64)
        requires
            self.wf(),
            page_mappable(q),
            self.walk_entry(q) is Some,
        ensures
            ({
                let g3 = self.child_frame(self.p4_frame, spec_p4_index(q), 3).unwrap();
                let g2 = self.child_frame(g3, spec_p3_index(q), 2).unwrap();
                let g1 = self.child_frame(g2, spec_p2_index(q), 1).unwrap();
                &&& self.child_frame(self.p4_frame, spec_p4_index(q), 3) is Some
                &&& self.child_frame(g3, spec_p3_index(q), 2) is Some
                &&& self.child_frame(g2, spec_p2_index(q), 1) is Some
                &&& self.walk_entry(q) == Some(self.table_at(g1)[spec_p1_index(q)].0)
                &&& (g3 == self.p4_frame ==> spec_p4_index(q) == 511)
                &&& (g3 == self.p4_frame || self.sub_level_is(g3, 3))
                &&& g2 != self.p4_frame
                &&& self.sub_level_is(g2, 2)
                &&& g1 != self.p4_frame
                &&& self.sub_level_is(g1, 1)
                &&& 0 <= spec_p4_index(q) < 512
                &&& 0 <= spec_p3_index(q) < 512
                &&& 0 <= spec_p2_index(q) < 512
                &&& 0 <= spec_p1_index(q) < 512
            }),
    {
        reveal(PageTableSpace::walk_entry);
        let p4f = self.p4_frame;
        let i4q = spec_p4_index(q);
        let i3q = spec_p3_index(q);
        let i2q = spec_p2_index(q);
        vstd::arithmetic::div_mod::lemma_mod_bound(q as int / 0x8000000, 512);
        vstd::arithmetic::div_mod::lemma_mod_bound(q as int / 0x40000, 512);
        vstd::arithmetic::div_mod::lemma_mod_bound(q as int / 0x200, 512);
        vstd::arithmetic::div_mod::lemma_mod_bound(q as int, 512);
        vstd::arithmetic::div_mod::lemma_div_pos_is_pos(q as int, 0x8000000);
        vstd::arithmetic::div_mod::lemma_div_pos_is_pos(q as int, 0x40000);
        vstd::arithmetic::div_mod::lemma_div_pos_is_pos(q as int, 0x200);
        let g3 = self.child_frame(p4f, i4q, 3).unwrap();
        let g2 = self.child_frame(g3, i3q, 2).unwrap();
        let e4 = self.table_at(p4f)[i4q].0;
        let e3 = self.table_at(g3)[i3q].0;
        let e2 = self.table_at(g2)[i2q].0;
        lemma_present_nonzero(e4);
        lemma_present_nonzero(e3);
        lemma_present_nonzero(e2);
        assert(g3 == p4f ==> i4q == 511) by {
            if g3 == p4f && i4q != 511 {
                assert(self.p4_slot_ok(i4q));
                lemma_p4_not_sub(self, 3);
                lemma_p4_not_sub(self, 2);
            }
        }
        assert(g2 != p4f && self.sub_level_is(g2, 2)) by {
            if spec_entry_target(e3) == p4f {
                if g3 == p4f {
                    if i3q != 511 {
                        assert(self.p4_slot_ok(i3q));
                        lemma_p4_not_sub(self, 3);
                        lemma_p4_not_sub(self, 2);
                    } else {
                        assert(i4q == 511 && i3q == 511);
                    }
                } else {
                    assert(self.sub_level_is(g3, 3));
                    let k3 = choose|k: int|
                        0 <= k < self.frames@.len() && self.frames@[k] == g3
                            && #[trigger] self.levels@[k] == 3;
                    self.lemma_frame_index_unique(k3);
                    assert(self.mid_slot_ok(k3, i3q));
                    assert(self.sub_level_is(spec_entry_target(e3), 2));
                    lemma_p4_not_sub(self, 2);
                }
                assert(false);
            }
        }
        assert(self.child_frame(g2, i2q, 1).unwrap() != p4f
            && self.sub_level_is(self.child_frame(g2, i2q, 1).unwrap(), 1)) by {
            if spec_entry_target(e2) == p4f {
                let k2 = choose|k: int|
                    0 <= k < self.frames@.len() && self.frames@[k] == g2
                        && #[trigger] self.levels@[k] == 2;
                self.lemma_frame_index_unique(k2);
                assert(self.mid_slot_ok(k2, i2q));
                assert(self.sub_level_is(spec_entry_target(e2), 1));
                lemma_p4_not_sub(self, 1);
                assert(false);
            }
        }
    }
}

/// Composes the three descent steps: the final state shows the whole path,
/// an old complete path means nothing was created (and the same level-1
/// table is reached), an old incomplete path means the level-1 table is
/// fresh and zeroed, and every mappable page whose walk was usable keeps
/// its walk unchanged.
#[verifier::rlimit(100)]
proof fn lemma_descent_summary(
    s0: PageTableSpace,
    s1: PageTableSpace,
    s2: PageTableSpace,
    s3: PageTableSpace,
    i4: int,
    i3: int,
    i2: int,
    f3: u64,
    f2: u64,
    f1: u64,
)
    requires
        s0.wf(),
        s1.wf(),
        s2.wf(),
        s3.wf(),
        s1.p4_frame == s0.p4_frame,
        s2.p4_frame == s0.p4_frame,
        s3.p4_frame == s0.p4_frame,
        step_rel(s0, s1, s0.p4_frame, i4),
        step_rel(s1, s2, f3, i3),
        step_rel(s2, s3, f2, i2),
        s1.child_frame(s0.p4_frame, i4, 3) == Some(f3),
        s2.child_frame(f3, i3, 2) == Some(f2),
        s3.child_frame(f2, i2, 1) == Some(f1),
        s1 != s0 ==> forall|j: int| 0 <= j < 512 ==> (#[trigger] s1.table_at(f3)[j]).0 == 0,
        s2 != s1 ==> forall|j: int| 0 <= j < 512 ==> (#[trigger] s2.table_at(f2)[j]).0 == 0,
        s3 != s2 ==> forall|j: int| 0 <= j < 512 ==> (#[trigger] s3.table_at(f1)[j]).0 == 0,
        s3.sub_level_is(f1, 1),
        f3 == s0.p4_frame ==> i4 == 511 && i3 != 511,
        0 <= i4 < 512,
        0 <= i3 < 512,
        0 <= i2 < 512,
    ensures
        s3.child_frame(s0.p4_frame, i4, 3) == Some(f3),
        s3.child_frame(f3, i3, 2) == Some(f2),
        s3.path_frame(i4, i3, i2) == Some(f1),
        match s0.path_frame(i4, i3, i2) {
            Some(g) => s3 == s0 && g == f1,
            None => forall|j: int| 0 <= j < 512 ==> (#[trigger] s3.table_at(f1)[j]).0 == 0,
        },
        forall|q: u64|
            page_mappable(q) && s0.walk_entry(q) is Some
                ==> #[trigger] s3.walk_entry(q) == s0.walk_entry(q),
{
    reveal(PageTableSpace::walk_entry);
    let p4f = s0.p4_frame;
    lemma_present_nonzero(s1.table_at(p4f)[i4].0);
    lemma_present_nonzero(s2.table_at(f3)[i3].0);
    lemma_step_rel_children(s0, s1, p4f, i4);
    lemma_step_rel_children(s1, s2, f3, i3);
    lemma_step_rel_children(s2, s3, f2, i2);

    // The earlier steps stay visible in the final state.
    assert(s2.child_frame(p4f, i4, 3) == Some(f3));
    assert(s3.child_frame(p4f, i4, 3) == Some(f3));
    assert(s2.is_pointer_table(f3)) by {
        if f3 != p4f {
            assert(s1.sub_level_is(f3, 3));
            assert(s2.sub_level_is(f3, 3));
        }
    }
    assert(s3.child_frame(f3, i3, 2) == Some(f2));

    // An old complete path means every slot was found, not created.
    match s0.path_frame(i4, i3, i2) {
        Some(g) => {
            lemma_present_nonzero(s0.table_at(p4f)[i4].0);
            assert(s1 == s0);
            lemma_present_nonzero(s0.table_at(f3)[i3].0);
            assert(s2 == s1);
            lemma_present_nonzero(s0.table_at(f2)[i2].0);
            assert(s3 == s2);
        },
        None => {
            if s3 == s2 {
                if s2 == s1 {
                    if s1 == s0 {
                        assert(s0.path_frame(i4, i3, i2) == Some(f1));
                        assert(false);
                    } else {
                        assert(s1.table_at(f3)[i3].0 == 0);
                        assert(false);
                    }
                } else {
                    assert(s2.table_at(f2)[i2].0 == 0);
                    lemma_present_nonzero(s2.table_at(f2)[i2].0);
                    assert(false);
                }
            }
        },
    }

    // Walks of mappable pages that were already usable are untouched: the
    // steps only filled empty slots of pointer tables, and such a walk
    // reads nonzero pointer entries and a level-1 leaf table only.
    assert forall|q: u64|
        page_mappable(q) && s0.walk_entry(q) is Some
            implies #[trigger] s3.walk_entry(q) == s0.walk_entry(q) by {
        s0.lemma_walk_roles(q);
        let i4q = spec_p4_index(q);
        let i3q = spec_p3_index(q);
        let i2q = spec_p2_index(q);
        let i1q = spec_p1_index(q);
        let g3 = s0.child_frame(p4f, i4q, 3).unwrap();
        let g2 = s0.child_frame(g3, i3q, 2).unwrap();
        let g1 = s0.child_frame(g2, i2q, 1).unwrap();
        lemma_present_nonzero(s0.table_at(p4f)[i4q].0);
        lemma_present_nonzero(s0.table_at(g3)[i3q].0);
        lemma_present_nonzero(s0.table_at(g2)[i2q].0);
        assert(s0.is_pointer_table(g3)) by {
            if g3 != p4f {
                assert(s0.sub_level_is(g3, 3));
            }
        }
        assert(s0.is_table_frame(g1)) by {
            assert(s0.has_frame(g1));
        }
        // step 1
        assert(s1.child_frame(p4f, i4q, 3) == Some(g3));
        assert(s1.child_frame(g3, i3q, 2) == Some(g2));
        assert(s1.child_frame(g2, i2q, 1) == Some(g1));
        assert(s1.table_at(g1)[i1q] == s0.table_at(g1)[i1q]) by {
            if s1 != s0 {
                assert(!(g1 == p4f && i1q == i4));
            }
        }
        // step 2: the filled slot sits in `f3`, which is the top table or
        // a level-3 table, never q's level-1 leaf.
        assert(g1 != f3) by {
            if f3 != p4f && g1 == f3 {
                assert(s1.sub_level_is(g1, 1));
                assert(s1.sub_level_is(f3, 3));
                s1.lemma_sub_level_unique(f3, 1, 3);
            }
        }
        assert(s1.is_pointer_table(g3)) by {
            if g3 != p4f {
                assert(s1.sub_level_is(g3, 3));
            }
        }
        assert(s1.is_pointer_table(g2)) by {
            assert(s1.sub_level_is(g2, 2));
        }
        assert(s1.is_table_frame(g1) && s1.is_table_frame(g2) && s1.is_table_frame(g3));
        assert(s2.child_frame(p4f, i4q, 3) == Some(g3));
        assert(s2.child_frame(g3, i3q, 2) == Some(g2));
        assert(s2.child_frame(g2, i2q, 1) == Some(g1));
        assert(s2.table_at(g1)[i1q] == s1.table_at(g1)[i1q]);
        // step 3: the filled slot sits in `f2`, a level-2 table.
        assert(f2 != p4f && s2.sub_level_is(f2, 2)) by {
            if spec_entry_target(s2.table_at(f3)[i3].0) == p4f {
                if f3 == p4f {
                    assert(s2.p4_slot_ok(i3));
                    lemma_p4_not_sub(s2, 3);
                    lemma_p4_not_sub(s2, 2);
                } else {
                    assert(s1.sub_level_is(f3, 3));
                    assert(s2.sub_level_is(f3, 3));
                    let k3 = choose|k: int|
                        0 <= k < s2.frames@.len() && s2.frames@[k] == f3
                            && #[trigger] s2.levels@[k] == 3;
                    s2.lemma_frame_index_unique(k3);
                    assert(s2.mid_slot_ok(k3, i3));
                    assert(s2.sub_level_is(spec_entry_target(s2.table_at(f3)[i3].0), 2));
                    lemma_p4_not_sub(s2, 2);
                }
                assert(false);
            }
        }
        assert(g1 != f2) by {
            if g1 == f2 {
                assert(s2.sub_level_is(g1, 1));
                s2.lemma_sub_level_unique(f2, 1, 2);
            }
        }
        assert(s2.is_pointer_table(g3)) by {
            if g3 != p4f {
                assert(s2.sub_level_is(g3, 3));
            }
        }
        assert(s2.is_pointer_table(g2)) by {
            assert(s2.sub_level_is(g2, 2));
        }
        assert(s2.is_table_frame(g1) && s2.is_table_frame(g2) && s2.is_table_frame(g3));
        assert(s3.child_frame(p4f, i4q, 3) == Some(g3));
        assert(s3.child_frame(g3, i3q, 2) == Some(g2));
        assert(s3.child_frame(g2, i2q, 1) == Some(g1));
        assert(s3.table_at(g1)[i1q] == s2.table_at(g1)[i1q]);
        assert(s3.walk_entry(q) == Some(s0.table_at(g1)[i1q].0));
    }
}

/// After the level-1 write for `page_number`, every other canonical,
/// mappable page's usable walk is unchanged: each table has a unique
/// parent slot, so a different page either reads a different level-1 slot
/// or differs in no index at all.
#[verifier::rlimit(100)]
proof fn lemma_leaf_write_preserves(
    s3: PageTableSpace,
    n: PageTableSpace,
    page_number: u64,
    i4: int,
    i3: int,
    i2: int,
    i1: int,
    f3: u64,
    f2: u64,
    f1: u64,
)
    requires
        s3.wf(),
        n.wf(),
        n.p4_frame == s3.p4_frame,
        s3.child_frame(s3.p4_frame, i4, 3) == Some(f3),
        s3.child_frame(f3, i3, 2) == Some(f2),
        s3.child_frame(f2, i2, 1) == Some(f1),
        s3.sub_level_is(f1, 1),
        f3 == s3.p4_frame ==> i4 == 511 && i3 != 511,
        forall|fr: u64, j: int|
            s3.is_table_frame(fr) && 0 <= j < 512 && !(fr == f1 && j == i1)
                ==> #[trigger] n.table_at(fr)[j] == s3.table_at(fr)[j],
        forall|fr: u64, j: int, lvl: int|
            fr != f1 ==> #[trigger] n.child_frame(fr, j, lvl) == s3.child_frame(fr, j, lvl),
        page_canonical(page_number),
        spec_p4_index(page_number) == i4,
        spec_p3_index(page_number) == i3,
        spec_p2_index(page_number) == i2,
        spec_p1_index(page_number) == i1,
        0 <= i3 < 512,
    ensures
        forall|q: u64|
            page_canonical(q) && page_mappable(q) && q != page_number
                && s3.walk_entry(q) is Some
                ==> #[trigger] n.walk_entry(q) == s3.walk_entry(q),
{
    reveal(PageTableSpace::walk_entry);
    let p4f = s3.p4_frame;
    assert(f2 != p4f && s3.sub_level_is(f2, 2)) by {
        lemma_present_nonzero(s3.table_at(f3)[i3].0);
        if spec_entry_target(s3.table_at(f3)[i3].0) == p4f {
            if f3 == p4f {
                assert(s3.p4_slot_ok(i3));
                lemma_p4_not_sub(s3, 3);
                lemma_p4_not_sub(s3, 2);
            } else {
                assert(s3.is_pointer_table(f3));
                let k3 = choose|k: int|
                    0 <= k < s3.frames@.len() && s3.frames@[k] == f3
                        && #[trigger] s3.levels@[k] == 3;
                s3.lemma_frame_index_unique(k3);
                assert(s3.mid_slot_ok(k3, i3));
                assert(s3.sub_level_is(spec_entry_target(s3.table_at(f3)[i3].0), 2));
                lemma_p4_not_sub(s3, 2);
            }
            assert(false);
        } else {
            if f3 != p4f {
                assert(s3.child_frame(f3, i3, 2) is Some);
            }
        }
    }
    assert(f1 != p4f);
    assert forall|q: u64|
        page_canonical(q) && page_mappable(q) && q != page_number
            && s3.walk_entry(q) is Some
            implies #[trigger] n.walk_entry(q) == s3.walk_entry(q) by {
        s3.lemma_walk_roles(q);
        let i4q = spec_p4_index(q);
        let i3q = spec_p3_index(q);
        let i2q = spec_p2_index(q);
        let i1q = spec_p1_index(q);
        let g3 = s3.child_frame(p4f, i4q, 3).unwrap();
        let g2 = s3.child_frame(g3, i3q, 2).unwrap();
        let g1 = s3.child_frame(g2, i2q, 1).unwrap();
        assert(g1 != f3) by {
            if f3 != p4f && g1 == f3 {
                assert(s3.sub_level_is(f3, 3));
                s3.lemma_sub_level_unique(g1, 1, 3);
            }
        }
        assert(g2 != f1) by {
            if g2 == f1 {
                s3.lemma_sub_level_unique(g2, 2, 1);
            }
        }
        assert(g3 != f1) by {
            if g3 != p4f && g3 == f1 {
                assert(s3.sub_level_is(g3, 3));
                s3.lemma_sub_level_unique(g3, 3, 1);
            }
        }
        if g1 == f1 && i1q == i1 {
            // Climb the two hierarchies: each table has a unique parent
            // slot, so q and the mapped page would share all four indices.
            assert(s3.points_to(g2, i2q, f1)) by {
                assert(s3.is_pointer_table(g2)) by {
                    assert(s3.sub_level_is(g2, 2));
                }
            }
            assert(s3.points_to(f2, i2, f1)) by {
                assert(s3.is_pointer_table(f2)) by {
                    assert(s3.sub_level_is(f2, 2));
                }
                lemma_present_nonzero(s3.table_at(f2)[i2].0);
            }
            assert(g2 == f2 && i2q == i2);
            assert(s3.points_to(g3, i3q, f2)) by {
                assert(s3.is_pointer_table(g3)) by {
                    if g3 != p4f {
                        assert(s3.sub_level_is(g3, 3));
                    }
                }
            }
            assert(s3.points_to(f3, i3, f2)) by {
                assert(s3.is_pointer_table(f3)) by {
                    if f3 != p4f {
                        assert(s3.child_frame(p4f, i4, 3) is Some);
                    }
                }
            }
            assert(g3 == f3 && i3q == i3);
            if f3 == p4f {
                assert(i4 == 511 && i4q == 511);
            } else {
                assert(s3.points_to(p4f, i4q, f3)) by {
                    lemma_present_nonzero(s3.table_at(p4f)[i4q].0);
                }
                assert(s3.points_to(p4f, i4, f3)) by {
                    lemma_present_nonzero(s3.table_at(p4f)[i4].0);
                }
                assert(i4q == i4);
            }
            lemma_canonical_page_unique(q, page_number);
            assert(false);
        }
        // Reassemble q's walk in the final space.
        assert(n.child_frame(p4f, i4q, 3) == Some(g3));
        assert(n.child_frame(g3, i3q, 2) == Some(g2));
        assert(n.child_frame(g2, i2q, 1) == Some(g1));
        assert(n.table_at(g1)[i1q] == s3.table_at(g1)[i1q]) by {
            assert(s3.is_table_frame(g1)) by {
                assert(s3.has_frame(g1));
            }
        }
        assert(n.walk_entry(q) == Some(s3.table_at(g1)[i1q].0));
    }
}

/// A subsidiary frame of the arena stays in the arena when the frame
/// vector only grows at the end.
proof fn lemma_has_frame_monotone(o: PageTableSpace, n: PageTableSpace, g: u64)
    requires
        o.frames@.len() <= n.frames@.len(),
        forall|k: int| #![trigger n.frames@[k]]
            0 <= k < o.frames@.len() ==> n.frames@[k] == o.frames@[k],
    ensures
        o.has_frame(g) ==> n.has_frame(g),
{
    if o.has_frame(g) {
        let k = choose|k: int| 0 <= k < o.frames@.len() && o.frames@[k] == g;
        assert(n.frames@[k] == g);
    }
}

/// Writing a level-1 entry changes exactly that slot: the arena stays
/// well-formed, every other table slot is untouched, and all structural
/// lookups are unchanged.
proof fn lemma_leaf_write(o: PageTableSpace, n: PageTableSpace, k1: int, index: int, e: Entry)
    requires
        o.wf(),
        0 <= k1 < o.frames@.len(),
        o.levels@[k1] == 1,
        0 <= index < 512,
        n.p4_frame == o.p4_frame,
        n.p4 == o.p4,
        n.frames@ == o.frames@,
        n.levels@ == o.levels@,
        n.tables@.len() == o.tables@.len(),
        forall|k: int| 0 <= k < o.tables@.len() && k != k1 ==> n.tables@[k] == o.tables@[k],
        n.tables@[k1].entries@ == o.tables@[k1].entries@.update(index, e),
    ensures
        n.wf(),
        forall|fr: u64| #[trigger] n.is_table_frame(fr) == o.is_table_frame(fr),
        forall|fr: u64, j: int|
            o.is_table_frame(fr) && 0 <= j < 512 && !(fr == o.frames@[k1] && j == index)
                ==> n.table_at(fr)[j] == o.table_at(fr)[j],
        n.table_at(o.frames@[k1])[index] == e,
        forall|fr: u64, j: int, lvl: int|
            fr != o.frames@[k1]
                ==> #[trigger] n.child_frame(fr, j, lvl) == o.child_frame(fr, j, lvl),
{
    lemma_same_subs(o, n);
    o.lemma_frame_index_unique(k1);
    let lf = o.frames@[k1];
    assert forall|fr: u64| o.has_frame(fr) implies n.frame_index(fr) == o.frame_index(fr) by {
        let k = choose|k: int| 0 <= k < o.frames@.len() && o.frames@[k] == fr;
        o.lemma_frame_index_unique(k);
        n.lemma_frame_index_unique(k);
    }
    assert(n.table_at(lf) == o.table_at(lf).update(index, e));
    assert forall|fr: u64| (fr == o.p4_frame || o.has_frame(fr)) && fr != lf
        implies #[trigger] n.table_at(fr) == o.table_at(fr) by {
        if fr != o.p4_frame {
            let k = o.frame_index(fr);
            assert(n.tables@[k] == o.tables@[k]);
        }
    }
    // The leaf table is no pointer table, so pointer slots are unchanged.
    assert(!o.sub_level_is(lf, 2) && !o.sub_level_is(lf, 3)) by {
        if o.sub_level_is(lf, 2) {
            o.lemma_sub_handle_level(TableRef::Sub(k1 as usize), 2);
        }
        if o.sub_level_is(lf, 3) {
            o.lemma_sub_handle_level(TableRef::Sub(k1 as usize), 3);
        }
    }
    assert(lf != o.p4_frame);
    assert forall|k: int, j: int|
        0 <= k < n.frames@.len() && 2 <= n.levels@[k] <= 3 && 0 <= j < 512
            implies n.mid_slot_ok(k, j) by {
        assert(o.mid_slot_ok(k, j));
        assert(k != k1);
        assert(n.tables@[k] == o.tables@[k]);
    }
    assert forall|j: int| 0 <= j < 511 implies n.p4_slot_ok(j) by {
        assert(o.p4_slot_ok(j));
    }
    assert forall|fa: u64, ja: int, t: u64| #[trigger] n.points_to(fa, ja, t)
        implies o.points_to(fa, ja, t) by {
        assert(fa != lf);
    }
    assert forall|fr: u64, j: int, lvl: int|
        fr != lf
            implies #[trigger] n.child_frame(fr, j, lvl) == o.child_frame(fr, j, lvl) by {
        if fr == o.p4_frame || o.has_frame(fr) {
            assert(n.table_at(fr)[j] == o.table_at(fr)[j]);
        } else {
            assert(n.table_at(fr) == Seq::<Entry>::empty());
            assert(o.table_at(fr) == Seq::<Entry>::empty());
        }
    }
}

/// Pages below the recursive region: a page number under `511 * 2^27` has
/// a level-4 index below 511, so its walk never enters the recursive slot.
pub proof fn lemma_low_page_mappable(n: u64)
    requires
        n < 511 * 0x8000000,
    ensures
        page_mappable(n),
        spec_p4_index(n) != 511,
{
    crate::utils::lemma_mul_le_div(511, n as int, 0x8000000);
    vstd::arithmetic::div_mod::lemma_div_pos_is_pos(n as int, 0x8000000);
    vstd::arithmetic::div_mod::lemma_small_mod((n as int / 0x8000000) as nat, 512);
}

/// Pages of the remapped kernel image: for a physical frame below 1 GiB,
/// the page at the kernel offset has level-3 index 510, so its walk passes
/// the recursive slot only once.
pub proof fn lemma_kernel_page_mappable(f: u64)
    requires
        f < 0x40000,
    ensures
        page_mappable((0xffffffff80000u64 + f) as u64),
        page_canonical((0xffffffff80000u64 + f) as u64),
        (0xffffffff80000u64 + f) * 4096 <= u64::MAX,
{
    let n = 0xffffffff80000u64 + f;
    vstd::arithmetic::div_mod::lemma_fundamental_div_mod_converse_div(
        n as int, 0x40000, 0x3fffffffe, f as int);
    assert(spec_p3_index(n as u64) == 0x3fffffffeint % 512);
}

/// The address of a frame whose number is in range has no bits outside the
/// entry address mask.
pub proof fn lemma_frame_number_address(fr: u64)
    requires
        fr <= MAX_TABLE_FRAME,
    ensures
        forall|a: u64| a == fr * 4096 ==> #[trigger] (a & !ENTRY_ADDRESS_MASK) == 0,
        fr * 4096 <= u64::MAX,
{
    vstd::arithmetic::power2::lemma2_to64();
    vstd::bits::lemma_u64_shl_is_mul(fr, 12);
    assert(fr <= 0xf_ffff_ffffu64
        ==> ((fr << 12u64) & !0x000fffff_fffff000u64) == 0u64) by (bit_vector);
}

/// The zero entry is unused: not present, not huge, target zero.
pub proof fn lemma_zero_entry()
    ensures
        !spec_entry_present(0),
        !spec_entry_huge(0),
        spec_entry_target(0) == 0,
{
    assert(0u64 & 1u64 != 1u64 && 0u64 & 0x80u64 != 0x80u64
        && ((0u64 & 0x000fffff_fffff000u64) >> 12u64) == 0u64) by (bit_vector);
}

/// Fields of a pointer entry built from an in-range frame number and the
/// present and writable bits: present, not huge, nonzero, and the target
/// frame is recovered exactly. Also relates the shifted address to the
/// arithmetic product.
proof fn lemma_pointer_entry_fields(fr: u64, a: u64)
    requires
        fr <= MAX_TABLE_FRAME,
        a == (fr << 12),
    ensures
        spec_entry_present(a | 3),
        !spec_entry_huge(a | 3),
        spec_entry_target(a | 3) == fr,
        (a | 3) != 0,
        a & !ENTRY_ADDRESS_MASK == 0,
        a == fr * 4096,
{
    vstd::arithmetic::power2::lemma2_to64();
    vstd::bits::lemma_u64_shl_is_mul(fr, 12);
    assert(fr <= 0xf_ffff_ffffu64 ==> (
        ((fr << 12u64) | 3) & 1u64 == 1u64
        && ((fr << 12u64) | 3) & 0x80u64 == 0u64
        && ((((fr << 12u64) | 3) & 0x000fffff_fffff000u64) >> 12u64) == fr
        && ((fr << 12u64) | 3) != 0u64
        && ((fr << 12u64) & !0x000fffff_fffff000u64) == 0u64)) by (bit_vector);
}

/// Two spaces with the same frames, levels and table lengths agree on all
/// structural spec functions that only read those fields.
proof fn lemma_space_shape_preserved(o: PageTableSpace, n: PageTableSpace)
    requires
        o.wf(),
        n.p4_frame == o.p4_frame,
        n.frames@ == o.frames@,
        n.levels@ == o.levels@,
        n.tables@ == o.tables@,
        n.p4.entries@.len() == 512,
        forall|j: int| 0 <= j < 511 ==> n.p4.entries@[j].0 == o.p4.entries@[j].0,
        n.p4.entries@[511].0 == 0 || {
            &&& spec_entry_present(n.p4.entries@[511].0)
            &&& !spec_entry_huge(n.p4.entries@[511].0)
            &&& spec_entry_target(n.p4.entries@[511].0) == n.p4_frame
        },
    ensures
        n.wf(),
{
    lemma_same_subs(o, n);
    lemma_same_tables(o, n);
    lemma_zero_entry();
    assert forall|j: int| 0 <= j < 511 implies n.p4_slot_ok(j) by {
        assert(o.p4_slot_ok(j));
    }
    assert forall|k: int, j: int|
        0 <= k < n.frames@.len() && 2 <= n.levels@[k] <= 3 && 0 <= j < 512
            implies n.mid_slot_ok(k, j) by {
        assert(o.mid_slot_ok(k, j));
    }
    assert forall|fa: u64, ja: int, fb: u64, jb: int, t: u64|
        #[trigger] n.points_to(fa, ja, t) && #[trigger] n.points_to(fb, jb, t)
            && t != n.p4_frame implies fa == fb && ja == jb by {
        lemma_points_to_same(o, n, fa, ja, t);
        lemma_points_to_same(o, n, fb, jb, t);
    }
}

/// Spaces with the same frames and levels agree on `sub_level_is` and
/// `has_frame`.
proof fn lemma_same_subs(o: PageTableSpace, n: PageTableSpace)
    requires
        n.p4_frame == o.p4_frame,
        n.frames@ == o.frames@,
        n.levels@ == o.levels@,
    ensures
        forall|fr: u64, lvl: int| #[trigger] n.sub_level_is(fr, lvl) == o.sub_level_is(fr, lvl),
        forall|fr: u64| #[trigger] n.has_frame(fr) == o.has_frame(fr),
{
    assert forall|fr: u64, lvl: int| #[trigger] n.sub_level_is(fr, lvl) == o.sub_level_is(fr, lvl) by {
        if o.sub_level_is(fr, lvl) {
            let k = choose|k: int| 0 <= k < o.frames@.len() && o.frames@[k] == fr && o.levels@[k] == lvl;
            assert(0 <= k < n.frames@.len() && n.frames@[k] == fr && n.levels@[k] == lvl);
        }
        if n.sub_level_is(fr, lvl) {
            let k = choose|k: int| 0 <= k < n.frames@.len() && n.frames@[k] == fr && n.levels@[k] == lvl;
            assert(0 <= k < o.frames@.len() && o.frames@[k] == fr && o.levels@[k] == lvl);
        }
    }
    assert forall|fr: u64| #[trigger] n.has_frame(fr) == o.has_frame(fr) by {
        if o.has_frame(fr) {
            let k = choose|k: int| 0 <= k < o.frames@.len() && o.frames@[k] == fr;
            assert(0 <= k < n.frames@.len() && n.frames@[k] == fr);
        }
        if n.has_frame(fr) {
            let k = choose|k: int| 0 <= k < n.frames@.len() && n.frames@[k] == fr;
            assert(0 <= k < o.frames@.len() && o.frames@[k] == fr);
        }
    }
}

/// Spaces with the same frames, levels and tables agree on `table_at` away
/// from the top table.
proof fn lemma_same_tables(o: PageTableSpace, n: PageTableSpace)
    requires
        n.p4_frame == o.p4_frame,
        n.frames@ == o.frames@,
        n.levels@ == o.levels@,
        n.tables@ == o.tables@,
        forall|k1: int, k2: int|
            0 <= k1 < k2 < o.frames@.len()
                ==> #[trigger] o.frames@[k1] != #[trigger] o.frames@[k2],
    ensures
        forall|fr: u64|
            fr != n.p4_frame ==> #[trigger] n.table_at(fr) == o.table_at(fr),
{
    lemma_same_subs(o, n);
    assert forall|fr: u64| fr != n.p4_frame implies #[trigger] n.table_at(fr) == o.table_at(fr) by {
        if o.has_frame(fr) {
            let k = choose|k: int| 0 <= k < o.frames@.len() && o.frames@[k] == fr;
            o.lemma_frame_index_unique(k);
            n.lemma_frame_index_unique(k);
        }
    }
}

/// `points_to` in the new space of a shape-preserving update that only
/// changed the top table's slot 511 implies the same fact in the old space.
proof fn lemma_points_to_same(o: PageTableSpace, n: PageTableSpace, fr: u64, j: int, t: u64)
    requires
        n.p4_frame == o.p4_frame,
        n.frames@ == o.frames@,
        n.levels@ == o.levels@,
        n.tables@ == o.tables@,
        n.p4.entries@.len() == 512,
        o.p4.entries@.len() == 512,
        forall|jj: int| 0 <= jj < 511 ==> n.p4.entries@[jj].0 == o.p4.entries@[jj].0,
        spec_entry_target(n.p4.entries@[511].0) == n.p4_frame || n.p4.entries@[511].0 == 0,
        forall|k1: int, k2: int|
            0 <= k1 < k2 < o.frames@.len()
                ==> #[trigger] o.frames@[k1] != #[trigger] o.frames@[k2],
        n.points_to(fr, j, t),
        t != n.p4_frame,
    ensures
        o.points_to(fr, j, t),
{
    lemma_same_subs(o, n);
    lemma_same_tables(o, n);
    lemma_zero_entry();
    if fr == n.p4_frame {
        assert(j != 511);
    }
}

} // verus!
