//! Typed model of 4-level page tables and the walker over them.
//!
//! A page-table entry is a 64-bit word: bits 0 to 11 hold the flags, bit
//! 63 holds no-execute, and bits 12 to 51 hold the physical frame base. A
//! table holds exactly 512 entries and is identically typed at every
//! level.
//!
//! The running hardware reaches each table through its recursive mapping
//! slot by raw address arithmetic. Here the live tables are modeled as an
//! arena owned by `ActivePageTable`: table 0 is the root, and a present
//! non-huge entry at levels 4 to 2 names the frame of another arena table.
//! The arena records which physical frame backs each table, so the walk
//! follows frames exactly as the hardware does.

use vstd::prelude::*;

verus! {

use crate::PAGE_SIZE;
use crate::addr::PhysicalAddress;
use crate::addr::PhysicalFrame;
use crate::addr::VirtualAddress;
use crate::addr::Page;
use crate::addr::canonical_address;
use crate::addr::canonical_page;

pub const PAGE_PRESENT: u64 = 1;
pub const PAGE_WRITE: u64 = 2;
pub const PAGE_USER: u64 = 4;
pub const PAGE_WRITE_THROUGH: u64 = 8;
pub const PAGE_NO_CACHE: u64 = 16;
pub const PAGE_ACCESSED: u64 = 32;
pub const PAGE_DIRTY: u64 = 64;
pub const PAGE_HUGE: u64 = 128;
pub const PAGE_GLOBAL: u64 = 256;
pub const PAGE_NXE: u64 = 0x8000_0000_0000_0000;

/// Bits 12 to 51: the physical frame base of a present entry.
pub const ENTRY_FRAME_MASK: u64 = 0x000f_ffff_ffff_f000;

/// Frames that fit the 40-bit frame field of an entry.
pub const FRAME_LIMIT: u64 = 0x100_0000_0000;

/// Entries in one page table.
pub const PAGE_TABLE_ENTRIES: usize = 512;

/// The entry maps something: its present bit is set.
pub open spec fn entry_present(e: u64) -> bool {
    e & PAGE_PRESENT != 0
}

/// The entry maps a huge page rather than pointing at a further table.
pub open spec fn entry_huge(e: u64) -> bool {
    e & PAGE_HUGE != 0
}

/// The frame index held in the entry's frame field.
pub open spec fn entry_frame(e: u64) -> u64 {
    (e & ENTRY_FRAME_MASK) / PAGE_SIZE
}

/// The word that maps `frame` with the given flag bits and the present bit.
pub open spec fn entry_encode(frame: u64, flags: u64) -> u64 {
    ((frame * PAGE_SIZE) as u64) | PAGE_PRESENT | flags
}

/// What encoding an entry guarantees: the result is present, carries
/// exactly the given frame, and is huge exactly when the flags say so.
proof fn lemma_entry_encode(frame: u64, flags: u64)
    requires
        frame < FRAME_LIMIT,
        flags & ENTRY_FRAME_MASK == 0,
    ensures
        frame * PAGE_SIZE <= u64::MAX,
        entry_encode(frame, flags) == (frame * PAGE_SIZE) as u64 | PAGE_PRESENT | flags,
        entry_present(entry_encode(frame, flags)),
        entry_huge(entry_encode(frame, flags)) == (flags & PAGE_HUGE != 0),
        entry_frame(entry_encode(frame, flags)) == frame,
        entry_encode(frame, flags) != 0,
{
    let e = ((frame * 4096) as u64) | 1u64 | flags;
    assert((frame * 4096) as u64 == frame * 4096 && e & 1u64 != 0 && e & 128u64 == flags & 128u64
        && (e & 0x000f_ffff_ffff_f000u64) / 4096u64 == frame && e != 0u64) by (bit_vector)
        requires
            e == ((frame * 4096) as u64) | 1u64 | flags,
            frame < 0x100_0000_0000u64,
            flags & 0x000f_ffff_ffff_f000u64 == 0u64,
    ;
}

/// Masking with the frame field keeps a value at most the mask, so a
/// decoded frame index always fits the frame field.
proof fn lemma_entry_frame_bound(e: u64)
    ensures
        entry_frame(e) < FRAME_LIMIT,
{
    assert((e & 0x000f_ffff_ffff_f000u64) / 4096u64 < 0x100_0000_0000u64) by (bit_vector);
}

/// One 64-bit page-table entry.
#[derive(Copy, Clone, Debug, PartialEq, Eq, Structural)]
pub struct PageTableEntry(pub u64);

impl PageTableEntry {
    /// The frame a present entry points at; an entry with the present bit
    /// clear has no valid frame.
    pub fn pointed_frame(&self) -> (r: Option<PhysicalFrame>)
        ensures
            entry_present(self.0) ==> r == Some(PhysicalFrame(entry_frame(self.0))),
            !entry_present(self.0) ==> r is None,
    {
        if self.0 & PAGE_PRESENT != 0 {
            Some(PhysicalFrame::containing_address(PhysicalAddress(self.0 & ENTRY_FRAME_MASK)))
        } else {
            None
        }
    }
}

/// One 4 KiB page of 512 entries, identically typed at every level.
pub struct PageTable {
    entries: Vec<PageTableEntry>,
}

impl View for PageTable {
    type V = Seq<u64>;

    /// The table's 512 entry words.
    closed spec fn view(&self) -> Seq<u64> {
        self.entries@.map_values(|e: PageTableEntry| e.0)
    }
}

impl PageTable {
    /// A table always holds exactly 512 entries.
    pub closed spec fn wf(self) -> bool {
        self.entries@.len() == 512
    }

    /// A fresh table with all 512 entries clear.
    pub fn new() -> (r: PageTable)
        ensures
            r.wf(),
            forall|j: int| 0 <= j < 512 ==> r@[j] == 0,
    {
        let mut entries: Vec<PageTableEntry> = Vec::new();
        let mut j: usize = 0;
        while j < PAGE_TABLE_ENTRIES
            invariant
                j <= 512,
                entries@.len() == j,
                forall|k: int| 0 <= k < j ==> entries@[k].0 == 0,
            decreases 512 - j,
        {
            entries.push(PageTableEntry(0));
            j += 1;
        }
        PageTable { entries }
    }

    /// Clears every entry.
    pub fn zero(&mut self)
        requires
            old(self).wf(),
        ensures
            final(self).wf(),
            forall|j: int| 0 <= j < 512 ==> final(self)@[j] == 0,
    {
        let mut j: usize = 0;
        while j < PAGE_TABLE_ENTRIES
            invariant
                j <= 512,
                self.entries@.len() == 512,
                forall|k: int| 0 <= k < j ==> self.entries@[k].0 == 0,
            decreases 512 - j,
        {
            self.entries[j] = PageTableEntry(0);
            j += 1;
        }
    }

    /// The entry at `index`.
    pub fn entry(&self, index: usize) -> (r: PageTableEntry)
        requires
            self.wf(),
            index < 512,
        ensures
            r.0 == self@[index as int],
    {
        self.entries[index]
    }

    /// Writes the entry at `index`.
    fn set_entry(&mut self, index: usize, value: u64)
        requires
            old(self).wf(),
            index < 512,
        ensures
            final(self).wf(),
            final(self)@ == old(self)@.update(index as int, value),
    {
        self.entries[index] = PageTableEntry(value);
        proof {
            assert(final(self)@ =~= old(self)@.update(index as int, value));
        }
    }

    /// The indices and words of the set entries of a table from `j` on, in
    /// order: what a diagnostic dump of the table shows.
    pub open spec fn nonzero_list(t: Seq<u64>, j: int) -> Seq<(usize, u64)>
        decreases 512 - j,
    {
        if j < 0 || j >= 512 {
            Seq::empty()
        } else if t[j] != 0 {
            seq![(j as usize, t[j])] + Self::nonzero_list(t, j + 1)
        } else {
            Self::nonzero_list(t, j + 1)
        }
    }

    /// The indices and words of all set entries, in order.
    pub fn nonzero_entries(&self) -> (r: Vec<(usize, u64)>)
        requires
            self.wf(),
        ensures
            r@ == Self::nonzero_list(self@, 0),
    {
        let mut r: Vec<(usize, u64)> = Vec::new();
        let mut j: usize = 0;
        while j < PAGE_TABLE_ENTRIES
            invariant
                j <= 512,
                self.wf(),
                Self::nonzero_list(self@, 0) == r@ + Self::nonzero_list(self@, j as int),
            decreases 512 - j,
        {
            let e = self.entries[j];
            if e.0 != 0 {
                let ghost before = r@;
                r.push((j, e.0));
                proof {
                    assert(Self::nonzero_list(self@, j as int) == seq![(j, e.0)]
                        + Self::nonzero_list(self@, j + 1 as int));
                    assert(r@ + Self::nonzero_list(self@, j + 1 as int) =~= Self::nonzero_list(
                        self@,
                        0,
                    ));
                }
            }
            j += 1;
        }
        proof {
            assert(Self::nonzero_list(self@, 512) =~= Seq::<(usize, u64)>::empty());
            assert(r@ + Self::nonzero_list(self@, 512) =~= r@);
        }
        r
    }

    /// The virtual address of the next-level table behind a present entry,
    /// by the recursive-mapping rule: the current table's own virtual
    /// address shifts left by nine bits and the entry's index slots in as
    /// bits 12 to 20. Meaningful only for a table that is itself reached
    /// through the recursive slot; `table_address` is that address.
    pub fn next_table_address(&self, table_address: usize, index: usize) -> (r: Option<usize>)
        requires
            self.wf(),
            index < 512,
        ensures
            entry_present(self@[index as int]) ==> r == Some(
                ((table_address << 9) | (index << 12)) as usize,
            ),
            !entry_present(self@[index as int]) ==> r is None,
    {
        let entry = self.entries[index];
        if entry.0 & PAGE_PRESENT != 0 {
            Some((table_address << 9) | (index << 12))
        } else {
            None
        }
    }
}

use crate::addr::page_p4_index;
use crate::addr::page_p3_index;
use crate::addr::page_p2_index;
use crate::addr::page_p1_index;
use crate::frames::FrameAllocator;
use crate::frames::frame_addresses;
use crate::frames::frames_addresses;
use crate::frames::free_bounded;
use crate::tracker::can_allocate;

/// Why a mapping operation could not complete. Running out of frames is a
/// resource-exhaustion condition: recoverable in principle, but treated as
/// fatal by bring-up callers, which have no fallback.
#[derive(Copy, Clone, Debug, PartialEq, Eq, Structural)]
pub enum MapError {
    OutOfFrames,
}

/// The live page-table hierarchy: an arena of tables, each backed by one
/// physical frame. Table 0 is the root (level 4). The running hardware
/// reaches these tables through the recursive mapping; the arena stands
/// for exactly that set of reachable tables.
pub struct ActivePageTable {
    tables: Vec<PageTable>,
    frames: Vec<u64>,
    levels: Ghost<Seq<int>>,
}

impl ActivePageTable {
    /// How many tables the hierarchy holds.
    pub closed spec fn num_tables(self) -> int {
        self.frames@.len() as int
    }

    /// The physical frame backing each table; index 0 is the root.
    pub closed spec fn table_frames(self) -> Seq<u64> {
        self.frames@
    }

    /// The paging level of each table: 4 at the root down to 1 at the
    /// leaves.
    pub closed spec fn level_at(self, t: int) -> int {
        self.levels@[t]
    }

    /// The entry word at index `j` of table `t`.
    pub closed spec fn entry_at(self, t: int, j: int) -> u64 {
        self.tables@[t]@[j]
    }

    /// Some arena table is backed by frame `f`.
    pub closed spec fn frame_known(self, f: u64) -> bool {
        self.frames@.contains(f)
    }

    /// The arena table backed by frame `f` (frames are distinct, so it is
    /// unique when it exists).
    pub closed spec fn table_of_frame(self, f: u64) -> int {
        choose|u: int| 0 <= u < self.frames@.len() && self.frames@[u] == f
    }

    /// A present entry that should lead to another table does: some arena
    /// table one level down is backed by the entry's frame.
    pub closed spec fn child_ok(self, t: int, e: u64) -> bool {
        exists|u: int|
            0 <= u < self.num_tables() && (#[trigger] self.frames@[u]) == entry_frame(e)
                && self.levels@[u] == self.level_at(t) - 1
    }

    /// The slot invariant: at levels 4 and 3 a present entry is never huge
    /// and points at a table one level down; at level 2 a present non-huge
    /// entry points at a table, and a present huge entry maps a 2 MiB page
    /// whose frame is 512-aligned; level 1 entries map frames freely.
    pub closed spec fn link_ok(self, t: int, j: int) -> bool {
        let e = self.entry_at(t, j);
        &&& (self.level_at(t) >= 3 && entry_present(e) ==> !entry_huge(e) && self.child_ok(t, e))
        &&& (self.level_at(t) == 2 && entry_present(e) && !entry_huge(e) ==> self.child_ok(t, e))
        &&& (self.level_at(t) == 2 && entry_present(e) && entry_huge(e) ==> entry_frame(e) as int
            % 512 == 0)
    }

    /// The slot holds a link: a present, non-huge entry of a table above
    /// the leaf level, naming the frame of the next-level table.
    pub closed spec fn is_link(self, v: int, j: int) -> bool {
        &&& 0 <= v < self.num_tables()
        &&& 0 <= j < 512
        &&& self.level_at(v) >= 2
        &&& entry_present(self.entry_at(v, j))
        &&& !entry_huge(self.entry_at(v, j))
    }

    /// The hierarchy's invariant: the arena is consistent (one frame and
    /// one level per table, all tables full-sized, backing frames distinct
    /// and within the entry frame field), the root sits at level 4, every
    /// slot satisfies `link_ok`, no two links name the same frame (so every
    /// table has one parent slot at most), and an absent slot is entirely
    /// clear — each slot is in exactly one of the three states absent
    /// (zero), table, or mapped.
    pub closed spec fn wf(self) -> bool {
        &&& self.tables@.len() == self.frames@.len()
        &&& self.levels@.len() == self.frames@.len()
        &&& self.frames@.len() >= 1
        &&& self.levels@[0] == 4
        &&& (forall|t: int| 0 <= t < self.num_tables() ==> (#[trigger] self.tables@[t]).wf())
        &&& (forall|t: int| 0 <= t < self.num_tables() ==> 1 <= #[trigger] self.levels@[t] <= 4)
        &&& (forall|t: int|
            0 <= t < self.num_tables() ==> #[trigger] self.frames@[t] < FRAME_LIMIT)
        &&& (forall|t: int, u: int|
            #![trigger self.frames@[t], self.frames@[u]]
            0 <= t < u < self.num_tables() ==> self.frames@[t] != self.frames@[u])
        &&& (forall|t: int, j: int|
            0 <= t < self.num_tables() && 0 <= j < 512 ==> #[trigger] self.link_ok(t, j))
        &&& (forall|v: int, j: int, v2: int, j2: int|
            #![trigger self.is_link(v, j), self.is_link(v2, j2)]
            self.is_link(v, j) && self.is_link(v2, j2) && entry_frame(self.entry_at(v, j))
                == entry_frame(self.entry_at(v2, j2)) ==> v == v2 && j == j2)
        &&& (forall|v: int, j: int|
            0 <= v < self.num_tables() && 0 <= j < 512 ==> entry_present(
                #[trigger] self.entry_at(v, j),
            ) || self.entry_at(v, j) == 0)
    }

    /// What the hierarchy maps the given page number to: the frame that a
    /// walk from the root reaches, through present entries, with a present
    /// huge entry at level 2 mapping a 2 MiB block of 512 frames.
    pub closed spec fn walk(self, page: u64) -> Option<u64> {
        let e4 = self.entry_at(0, page_p4_index(page));
        if !entry_present(e4) {
            None
        } else {
            let t3 = self.table_of_frame(entry_frame(e4));
            let e3 = self.entry_at(t3, page_p3_index(page));
            if !entry_present(e3) {
                None
            } else {
                let t2 = self.table_of_frame(entry_frame(e3));
                let e2 = self.entry_at(t2, page_p2_index(page));
                if !entry_present(e2) {
                    None
                } else if entry_huge(e2) {
                    Some((entry_frame(e2) + page_p1_index(page)) as u64)
                } else {
                    let t1 = self.table_of_frame(entry_frame(e2));
                    let e1 = self.entry_at(t1, page_p1_index(page));
                    if entry_present(e1) {
                        Some(entry_frame(e1))
                    } else {
                        None
                    }
                }
            }
        }
    }

    /// The word in the level-1 slot that the page's walk path reaches: the
    /// mapped leaf entry itself, frame and flag bits together. Meaningful
    /// once the path's links are present, as after a successful `map_to`.
    pub closed spec fn mapped_entry(self, page: u64) -> u64 {
        let e4 = self.entry_at(0, page_p4_index(page));
        let t3 = self.table_of_frame(entry_frame(e4));
        let e3 = self.entry_at(t3, page_p3_index(page));
        let t2 = self.table_of_frame(entry_frame(e3));
        let e2 = self.entry_at(t2, page_p2_index(page));
        let t1 = self.table_of_frame(entry_frame(e2));
        self.entry_at(t1, page_p1_index(page))
    }

    /// All three links on the page's path are already present, so mapping
    /// the page needs no fresh table.
    pub closed spec fn path_complete(self, page: u64) -> bool {
        let e4 = self.entry_at(0, page_p4_index(page));
        entry_present(e4) && {
            let t3 = self.table_of_frame(entry_frame(e4));
            let e3 = self.entry_at(t3, page_p3_index(page));
            entry_present(e3) && {
                let t2 = self.table_of_frame(entry_frame(e3));
                entry_present(self.entry_at(t2, page_p2_index(page)))
            }
        }
    }

    /// The page's path down the hierarchy is still open for mapping: every
    /// entry on it is either absent or a non-huge table link, and the final
    /// level-1 slot, if reached, is entirely clear. Mapping a page for
    /// which this does not hold is a caller error.
    pub closed spec fn can_map(self, page: u64) -> bool {
        let e4 = self.entry_at(0, page_p4_index(page));
        !entry_present(e4) || {
            let t3 = self.table_of_frame(entry_frame(e4));
            let e3 = self.entry_at(t3, page_p3_index(page));
            !entry_present(e3) || {
                let t2 = self.table_of_frame(entry_frame(e3));
                let e2 = self.entry_at(t2, page_p2_index(page));
                !entry_present(e2) || (!entry_huge(e2) && self.entry_at(
                    self.table_of_frame(entry_frame(e2)),
                    page_p1_index(page),
                ) == 0)
            }
        }
    }

    /// No byte of any frame backing an arena table is free in `free`: the
    /// tables are owned by the hierarchy, not by the tracker.
    pub open spec fn tables_not_free(self, free: Set<int>) -> bool {
        forall|t: int|
            0 <= t < self.table_frames().len() ==> free.disjoint(
                frame_addresses(#[trigger] self.table_frames()[t]),
            )
    }

    /// A fresh hierarchy over a cleared root table backed by `root_frame`:
    /// nothing is mapped and every page is open for mapping.
    pub fn new(root_frame: u64) -> (r: ActivePageTable)
        requires
            root_frame < FRAME_LIMIT,
        ensures
            r.wf(),
            r.table_frames() == seq![root_frame],
            forall|p: u64| (#[trigger] r.walk(p)) is None,
            forall|p: u64| #[trigger] r.can_map(p),
    {
        let table = PageTable::new();
        let mut tables: Vec<PageTable> = Vec::new();
        tables.push(table);
        let mut frames: Vec<u64> = Vec::new();
        frames.push(root_frame);
        let ghost root_levels: Seq<int> = seq![4int];
        let r = ActivePageTable { tables, frames, levels: Ghost(root_levels) };
        proof {
            assert(r.table_frames() =~= seq![root_frame]);
            assert(0u64 & 1u64 == 0u64) by (bit_vector);
            assert forall|t: int, j: int|
                0 <= t < r.num_tables() && 0 <= j < 512 implies #[trigger] r.link_ok(t, j) by {
                assert(r.entry_at(t, j) == 0);
            }
            assert forall|v: int, j: int| !(#[trigger] r.is_link(v, j)) by {
                if 0 <= v < r.num_tables() && 0 <= j < 512 {
                    assert(r.entry_at(v, j) == 0);
                }
            }
            assert forall|p: u64| (#[trigger] r.walk(p)) is None by {
                lemma_page_index_bounds(p);
                assert(r.entry_at(0, page_p4_index(p)) == 0);
            }
            assert forall|p: u64| #[trigger] r.can_map(p) by {
                lemma_page_index_bounds(p);
                assert(r.entry_at(0, page_p4_index(p)) == 0);
            }
        }
        r
    }

    /// The arena index of the table backed by `frame`.
    fn find_table(&self, frame: u64) -> (r: usize)
        requires
            self.wf(),
            self.frame_known(frame),
        ensures
            (r as int) < self.num_tables(),
            self.table_frames()[r as int] == frame,
            r as int == self.table_of_frame(frame),
    {
        let n = self.frames.len();
        let mut i: usize = 0;
        while i < n
            invariant
                i <= n,
                n == self.frames@.len(),
                self.wf(),
                self.frame_known(frame),
                forall|k: int| 0 <= k < i ==> self.frames@[k] != frame,
            decreases n - i,
        {
            if self.frames[i] == frame {
                proof {
                    let u = self.table_of_frame(frame);
                    assert(0 <= u < self.num_tables() && self.frames@[u] == frame) by {
                        assert(self.frames@[i as int] == frame);
                    }
                    assert(u == i as int);
                }
                return i;
            }
            i += 1;
        }
        proof {
            let u = choose|u: int| 0 <= u < self.frames@.len() && (#[trigger] self.frames@[u]) == frame;
            assert(false);
        }
        unreached()
    }

    /// The entry word at index `index` of arena table `t`.
    pub fn table_entry(&self, t: usize, index: usize) -> (r: u64)
        requires
            self.wf(),
            (t as int) < self.num_tables(),
            index < 512,
        ensures
            r == self.entry_at(t as int, index as int),
    {
        self.tables[t].entry(index).0
    }

    /// The arena table behind the entry at `(t, index)`, when that entry is
    /// a present, non-huge table link; nothing when the entry is absent or
    /// maps a huge page.
    pub fn next_table(&self, t: usize, index: usize) -> (r: Option<usize>)
        requires
            self.wf(),
            (t as int) < self.num_tables(),
            index < 512,
            self.level_at(t as int) >= 2,
        ensures
            (r is Some) <==> (entry_present(self.entry_at(t as int, index as int)) && !entry_huge(
                self.entry_at(t as int, index as int),
            )),
            (r matches Some(u) ==> {
                &&& (u as int) < self.num_tables()
                &&& self.table_frames()[u as int] == entry_frame(
                    self.entry_at(t as int, index as int),
                )
                &&& u as int == self.table_of_frame(
                    entry_frame(self.entry_at(t as int, index as int)),
                )
                &&& self.level_at(u as int) == self.level_at(t as int) - 1
            }),
    {
        let e = self.table_entry(t, index);
        if e & PAGE_PRESENT != 0 && e & PAGE_HUGE == 0 {
            proof {
                assert(self.link_ok(t as int, index as int));
                let w = choose|u: int|
                    0 <= u < self.num_tables() && (#[trigger] self.frames@[u]) == entry_frame(e)
                        && self.levels@[u] == self.level_at(t as int) - 1;
                assert(self.frame_known(entry_frame(e))) by {
                    assert(self.frames@[w] == entry_frame(e));
                }
            }
            let f = (e & ENTRY_FRAME_MASK) / PAGE_SIZE;
            let u = self.find_table(f);
            proof {
                let w = choose|u: int|
                    0 <= u < self.num_tables() && (#[trigger] self.frames@[u]) == entry_frame(e)
                        && self.levels@[u] == self.level_at(t as int) - 1;
                assert(w == u as int);
            }
            Some(u)
        } else {
            None
        }
    }

    /// The frame that the hierarchy maps `page` to, if any: the walker of
    /// the four levels, with 2 MiB huge pages resolved at level 2. An
    /// unmapped page is an expected outcome, not an error.
    pub fn translate_page(&self, page: Page) -> (r: Option<PhysicalFrame>)
        requires
            self.wf(),
        ensures
            (r is Some) == (self.walk(page.0) is Some),
            (r matches Some(f) ==> self.walk(page.0) == Some(f.0) && f.0 < FRAME_LIMIT + 512),
    {
        proof {
            lemma_page_index_bounds(page.0);
        }
        let p4_idx = page.p4_index();
        let t3 = match self.next_table(0, p4_idx) {
            Some(u) => u,
            None => {
                proof {
                    assert(self.link_ok(0, p4_idx as int));
                }
                return None;
            },
        };
        let p3_idx = page.p3_index();
        let t2 = match self.next_table(t3, p3_idx) {
            Some(u) => u,
            None => {
                proof {
                    assert(self.link_ok(t3 as int, p3_idx as int));
                }
                return None;
            },
        };
        let p2_idx = page.p2_index();
        let e2 = self.table_entry(t2, p2_idx);
        if e2 & PAGE_PRESENT == 0 {
            return None;
        }
        if e2 & PAGE_HUGE != 0 {
            // A present huge entry at level 2 maps a 2 MiB block: the
            // target is the block's 512-aligned base plus the level-1
            // index.
            let start_frame = (e2 & ENTRY_FRAME_MASK) / PAGE_SIZE;
            proof {
                assert(self.link_ok(t2 as int, p2_idx as int));
                assert(start_frame as int % 512 == 0);
                lemma_entry_frame_bound(e2);
            }
            let frame = start_frame + (page.p1_index() as u64);
            return Some(PhysicalFrame(frame));
        }
        let t1 = match self.next_table(t2, p2_idx) {
            Some(u) => u,
            None => {
                return None;
            },
        };
        let p1_idx = page.p1_index();
        let e1 = self.table_entry(t1, p1_idx);
        if e1 & PAGE_PRESENT != 0 {
            proof {
                lemma_entry_frame_bound(e1);
            }
            Some(PhysicalFrame((e1 & ENTRY_FRAME_MASK) / PAGE_SIZE))
        } else {
            None
        }
    }

    /// The physical address that the hierarchy maps `virtual_address` to,
    /// if any: the in-page offset carries over unchanged.
    pub fn translate(&self, virtual_address: VirtualAddress) -> (r: Option<PhysicalAddress>)
        requires
            self.wf(),
            canonical_address(virtual_address.0),
        ensures
            (r is Some) == (self.walk(virtual_address.0 / PAGE_SIZE) is Some),
            (r matches Some(pa) ==> self.walk(virtual_address.0 / PAGE_SIZE) matches Some(f)
                && pa.0 == f * PAGE_SIZE + virtual_address.0 % PAGE_SIZE),
    {
        let offset = virtual_address.0 % PAGE_SIZE;
        let page = Page::containing_address(virtual_address);
        match self.translate_page(page) {
            Some(frame) => Some(PhysicalAddress(frame.0 * PAGE_SIZE + offset)),
            None => None,
        }
    }

    /// Whether `page` is still open for mapping: the runtime check behind
    /// `can_map`, for callers that must treat an occupied slot as the
    /// caller error it is.
    pub fn can_map_page(&self, page: Page) -> (r: bool)
        requires
            self.wf(),
        ensures
            r == self.can_map(page.0),
    {
        proof {
            lemma_page_index_bounds(page.0);
        }
        let t3 = match self.next_table(0, page.p4_index()) {
            Some(u) => u,
            None => {
                proof {
                    assert(self.link_ok(0, page_p4_index(page.0)));
                }
                return true;
            },
        };
        let t2 = match self.next_table(t3, page.p3_index()) {
            Some(u) => u,
            None => {
                proof {
                    assert(self.link_ok(t3 as int, page_p3_index(page.0)));
                }
                return true;
            },
        };
        let p2_idx = page.p2_index();
        let e2 = self.table_entry(t2, p2_idx);
        if e2 & PAGE_PRESENT == 0 {
            return true;
        }
        if e2 & PAGE_HUGE != 0 {
            return false;
        }
        let t1 = match self.next_table(t2, p2_idx) {
            Some(u) => u,
            None => {
                proof {
                    assert(false);
                }
                return false;
            },
        };
        let e1 = self.table_entry(t1, page.p1_index());
        e1 == 0
    }

    /// Writes a level-1 slot. Level-1 entries carry no link constraint, so
    /// the hierarchy's invariant is preserved by any value that keeps the
    /// three-state slot discipline: a present entry, or a clear one.
    fn set_leaf_entry(&mut self, t: usize, index: usize, value: u64)
        requires
            old(self).wf(),
            (t as int) < old(self).num_tables(),
            index < 512,
            old(self).level_at(t as int) == 1,
            entry_present(value) || value == 0,
        ensures
            final(self).wf(),
            final(self).num_tables() == old(self).num_tables(),
            final(self).table_frames() == old(self).table_frames(),
            forall|v: int|
                0 <= v < old(self).num_tables() ==> final(self).level_at(v) == old(self).level_at(
                    v,
                ),
            final(self).entry_at(t as int, index as int) == value,
            forall|v: int, j: int|
                #![trigger final(self).entry_at(v, j)]
                0 <= v < old(self).num_tables() && 0 <= j < 512 && !(v == t as int && j
                    == index as int) ==> final(self).entry_at(v, j) == old(self).entry_at(v, j),
    {
        self.tables[t].entries[index] = PageTableEntry(value);
        proof {
            let a = *old(self);
            let b = *self;
            assert forall|v: int, j: int|
                0 <= v < b.num_tables() && 0 <= j < 512 implies #[trigger] b.link_ok(v, j) by {
                assert(a.link_ok(v, j));
                if !(v == t as int && j == index as int) {
                    assert(b.entry_at(v, j) == a.entry_at(v, j));
                    let e = b.entry_at(v, j);
                    if b.level_at(v) >= 3 && entry_present(e) {
                        let u = choose|u: int|
                            0 <= u < a.num_tables() && (#[trigger] a.frames@[u]) == entry_frame(e)
                                && a.levels@[u] == a.level_at(v) - 1;
                        assert(b.frames@[u] == entry_frame(e));
                    }
                    if b.level_at(v) == 2 && entry_present(e) && !entry_huge(e) {
                        let u = choose|u: int|
                            0 <= u < a.num_tables() && (#[trigger] a.frames@[u]) == entry_frame(e)
                                && a.levels@[u] == a.level_at(v) - 1;
                        assert(b.frames@[u] == entry_frame(e));
                    }
                }
            }
            assert forall|v: int, j: int|
                0 <= v < b.num_tables() && 0 <= j < 512 implies entry_present(
                #[trigger] b.entry_at(v, j),
            ) || b.entry_at(v, j) == 0 by {
                if !(v == t as int && j == index as int) {
                    assert(b.entry_at(v, j) == a.entry_at(v, j));
                }
            }
            // A level-1 slot is never a link, so the links of the
            // hierarchy, and their one-parent rule, are untouched.
            assert forall|v: int, j: int, v2: int, j2: int|
                #![trigger b.is_link(v, j), b.is_link(v2, j2)]
                b.is_link(v, j) && b.is_link(v2, j2) && entry_frame(b.entry_at(v, j))
                    == entry_frame(b.entry_at(v2, j2)) implies v == v2 && j == j2 by {
                if b.is_link(v, j) && b.is_link(v2, j2) {
                    assert(b.entry_at(v, j) == a.entry_at(v, j));
                    assert(b.entry_at(v2, j2) == a.entry_at(v2, j2));
                    assert(a.is_link(v, j) && a.is_link(v2, j2));
                }
            }
        }
    }

    /// The arena table behind the entry at `(t, index)`, creating it when
    /// the slot is absent: a fresh frame is requested from the allocator,
    /// installed as a present writable link, and the new table starts out
    /// clear. Fails exactly when the allocator is out of aligned free
    /// pages; the hierarchy is then unchanged. An existing huge entry in
    /// the slot cannot be decomposed into a table and is a caller error,
    /// excluded by precondition.
    pub fn next_table_create<A: FrameAllocator>(
        &mut self,
        t: usize,
        index: usize,
        allocator: &mut A,
    ) -> (r: Result<usize, MapError>)
        requires
            old(self).wf(),
            old(allocator).inv(),
            (t as int) < old(self).num_tables(),
            index < 512,
            old(self).level_at(t as int) >= 2,
            !(entry_present(old(self).entry_at(t as int, index as int)) && entry_huge(
                old(self).entry_at(t as int, index as int),
            )),
            old(self).tables_not_free(old(allocator).free_set()),
            free_bounded(old(allocator).free_set()),
        ensures
            final(allocator).inv(),
            final(allocator).free_set().subset_of(old(allocator).free_set()),
            free_bounded(final(allocator).free_set()),
            final(self).wf(),
            final(self).tables_not_free(final(allocator).free_set()),
            forall|p: u64| #[trigger] final(self).walk(p) == old(self).walk(p),
            (r matches Ok(u) ==> {
                &&& (u as int) < final(self).num_tables()
                &&& old(self).num_tables() <= final(self).num_tables()
                &&& final(self).level_at(u as int) == old(self).level_at(t as int) - 1
                &&& entry_present(final(self).entry_at(t as int, index as int))
                &&& !entry_huge(final(self).entry_at(t as int, index as int))
                &&& final(self).table_frames()[u as int] == entry_frame(
                    final(self).entry_at(t as int, index as int),
                )
                &&& u as int == final(self).table_of_frame(
                    entry_frame(final(self).entry_at(t as int, index as int)),
                )
                &&& forall|v: int|
                    0 <= v < old(self).num_tables()
                        ==> final(self).table_frames()[v] == old(self).table_frames()[v]
                        && final(self).level_at(v) == old(self).level_at(v)
                &&& forall|v: int, j: int|
                    #![trigger final(self).entry_at(v, j)]
                    0 <= v < old(self).num_tables() && 0 <= j < 512 && !(v == t as int && j
                        == index as int) ==> final(self).entry_at(v, j) == old(self).entry_at(v, j)
                &&& (entry_present(old(self).entry_at(t as int, index as int))
                    ==> final(self).entry_at(t as int, index as int)
                        == old(self).entry_at(t as int, index as int)
                    && final(self).num_tables() == old(self).num_tables()
                    && (u as int) < old(self).num_tables())
                &&& (!entry_present(old(self).entry_at(t as int, index as int)) ==> u as int
                    == old(self).num_tables() && final(self).num_tables() == old(self).num_tables()
                    + 1 && (forall|j: int|
                    0 <= j < 512 ==> final(self).entry_at(u as int, j) == 0)
                    && final(self).entry_at(t as int, index as int) == entry_encode(
                    final(self).table_frames()[u as int],
                    PAGE_WRITE,
                ) && final(allocator).free_set() == old(allocator).free_set().difference(
                    frame_addresses(final(self).table_frames()[u as int]),
                ))
            }),
            (entry_present(old(self).entry_at(t as int, index as int)) ==> r is Ok
                && final(allocator).free_set() == old(allocator).free_set()),
            (r is Err ==> *final(self) == *old(self) && final(allocator).free_set() == old(
                allocator,
            ).free_set() && !can_allocate(final(allocator).free_set(), PAGE_SIZE, PAGE_SIZE)),
    {
        let e = self.table_entry(t, index);
        if e & PAGE_PRESENT != 0 {
            // Already a table link: resolve it.
            proof {
                assert(self.link_ok(t as int, index as int));
                let w = choose|u: int|
                    0 <= u < self.num_tables() && (#[trigger] self.frames@[u]) == entry_frame(e)
                        && self.levels@[u] == self.level_at(t as int) - 1;
                assert(self.frame_known(entry_frame(e))) by {
                    assert(self.frames@[w] == entry_frame(e));
                }
            }
            let f = (e & ENTRY_FRAME_MASK) / PAGE_SIZE;
            let u = self.find_table(f);
            proof {
                let w = choose|u: int|
                    0 <= u < self.num_tables() && (#[trigger] self.frames@[u]) == entry_frame(e)
                        && self.levels@[u] == self.level_at(t as int) - 1;
                assert(w == u as int);
            }
            return Ok(u);
        }
        // Absent: back a fresh table with a newly allocated frame.
        let frame = match allocator.allocate_frame() {
            Some(frame) => frame,
            None => {
                return Err(MapError::OutOfFrames);
            },
        };
        proof {
            // The fresh frame fits the entry frame field and differs from
            // every frame already backing a table: its bytes were free,
            // and no table-backing byte is.
            assert(frame_addresses(frame.0).contains(frame.0 * PAGE_SIZE));
            assert(frame.0 < FRAME_LIMIT);
            assert forall|v: int|
                0 <= v < self.num_tables() implies self.frames@[v] != frame.0 by {
                assert(old(allocator).free_set().disjoint(
                    frame_addresses(old(self).table_frames()[v]),
                ));
                assert(old(self).table_frames()[v] == self.frames@[v]);
            }
            assert(PAGE_WRITE & ENTRY_FRAME_MASK == 0u64) by (bit_vector);
            lemma_entry_encode(frame.0, PAGE_WRITE);
        }
        let table = PageTable::new();
        let ghost fresh_view = table@;
        let value = frame.0 * PAGE_SIZE | PAGE_PRESENT | PAGE_WRITE;
        let ghost before = *self;
        self.tables[t].entries[index] = PageTableEntry(value);
        self.tables.push(table);
        self.frames.push(frame.0);
        let u = self.frames.len() - 1;
        proof {
            self.levels@ = self.levels@.push(before.level_at(t as int) - 1);
        }
        proof {
            let b = *self;
            let n0 = before.num_tables();
            assert(value == entry_encode(frame.0, PAGE_WRITE));
            assert(PAGE_WRITE & PAGE_HUGE == 0u64) by (bit_vector);
            assert(0u64 & 1u64 == 0u64) by (bit_vector);
            // The shape of the new state: the written slot, the fresh
            // clear table at the end, and everything else as before.
            assert(b.tables@[t as int]@ =~= before.tables@[t as int]@.update(
                index as int,
                value,
            ));
            assert(b.entry_at(t as int, index as int) == value);
            assert(forall|j: int| 0 <= j < 512 ==> #[trigger] b.entry_at(n0, j) == fresh_view[j]);
            assert forall|v: int, j: int|
                #![trigger b.entry_at(v, j)]
                0 <= v < n0 && 0 <= j < 512 && !(v == t as int && j == index as int)
                implies b.entry_at(v, j) == before.entry_at(v, j) by {
                if v != t as int {
                    assert(b.tables@[v] == before.tables@[v]);
                }
            }
            assert forall|v: int, j: int|
                0 <= v < b.num_tables() && 0 <= j < 512 implies #[trigger] b.link_ok(v, j) by {
                if v == n0 {
                    // The fresh table is clear.
                    assert(b.entry_at(v, j) == fresh_view[j]);
                    assert(b.entry_at(v, j) == 0);
                } else if v == t as int && j == index as int {
                    // The new link: present, writable, not huge, pointing
                    // at the fresh table one level down.
                    assert(b.frames@[n0] == frame.0);
                    assert(b.levels@[n0] == b.level_at(v) - 1);
                } else {
                    assert(before.link_ok(v, j));
                    assert(b.entry_at(v, j) == before.entry_at(v, j));
                    let ee = b.entry_at(v, j);
                    assert(b.level_at(v) == before.level_at(v));
                    if (b.level_at(v) >= 3 && entry_present(ee)) || (b.level_at(v) == 2
                        && entry_present(ee) && !entry_huge(ee)) {
                        let w = choose|w: int|
                            0 <= w < before.num_tables() && (#[trigger] before.frames@[w])
                                == entry_frame(ee) && before.levels@[w] == before.level_at(v) - 1;
                        assert(b.frames@[w] == entry_frame(ee));
                        assert(b.levels@[w] == b.level_at(v) - 1);
                    }
                }
            }
            // The new link names a frame no other link can name: old links
            // name old table frames, and the fresh table has no links.
            assert forall|v: int, j: int, v2: int, j2: int|
                #![trigger b.is_link(v, j), b.is_link(v2, j2)]
                b.is_link(v, j) && b.is_link(v2, j2) && entry_frame(b.entry_at(v, j))
                    == entry_frame(b.entry_at(v2, j2)) implies v == v2 && j == j2 by {
                if b.is_link(v, j) && b.is_link(v2, j2) && entry_frame(b.entry_at(v, j))
                    == entry_frame(b.entry_at(v2, j2)) {
                    if v == n0 {
                        assert(b.entry_at(v, j) == 0);
                    }
                    if v2 == n0 {
                        assert(b.entry_at(v2, j2) == 0);
                    }
                    if v == t as int && j == index as int {
                        if !(v2 == t as int && j2 == index as int) {
                            assert(b.entry_at(v2, j2) == before.entry_at(v2, j2));
                            assert(before.is_link(v2, j2));
                            assert(before.link_ok(v2, j2));
                            let ee = before.entry_at(v2, j2);
                            let w = choose|w: int|
                                0 <= w < before.num_tables() && (#[trigger] before.frames@[w])
                                    == entry_frame(ee) && before.levels@[w] == before.level_at(v2)
                                    - 1;
                            assert(old(allocator).free_set().disjoint(
                                frame_addresses(old(self).table_frames()[w]),
                            ));
                            assert(frame_addresses(frame.0).contains(frame.0 * PAGE_SIZE));
                            assert(entry_frame(ee) != frame.0);
                            assert(false);
                        }
                    } else if v2 == t as int && j2 == index as int {
                        assert(b.entry_at(v, j) == before.entry_at(v, j));
                        assert(before.is_link(v, j));
                        assert(before.link_ok(v, j));
                        let ee = before.entry_at(v, j);
                        let w = choose|w: int|
                            0 <= w < before.num_tables() && (#[trigger] before.frames@[w])
                                == entry_frame(ee) && before.levels@[w] == before.level_at(v) - 1;
                        assert(old(allocator).free_set().disjoint(
                            frame_addresses(old(self).table_frames()[w]),
                        ));
                        assert(frame_addresses(frame.0).contains(frame.0 * PAGE_SIZE));
                        assert(entry_frame(ee) != frame.0);
                        assert(false);
                    } else {
                        assert(b.entry_at(v, j) == before.entry_at(v, j));
                        assert(b.entry_at(v2, j2) == before.entry_at(v2, j2));
                        assert(before.is_link(v, j) && before.is_link(v2, j2));
                    }
                }
            }
            assert(b.wf());
            assert(entry_frame(value) == frame.0);
            assert(b.table_of_frame(frame.0) == n0) by {
                assert(b.frames@[n0] == frame.0);
                let c = b.table_of_frame(frame.0);
                assert(0 <= c < b.num_tables() && b.frames@[c] == frame.0);
            }
            // The walk of every page is what it was: an installed link
            // replaces an absent entry, and the table behind it is clear,
            // so any walk through it still misses.
            assert forall|p: u64| #[trigger] b.walk(p) == before.walk(p) by {
                lemma_page_index_bounds(p);
                let i4 = page_p4_index(p);
                let i3 = page_p3_index(p);
                let i2 = page_p2_index(p);
                let i1 = page_p1_index(p);
                let ti = t as int;
                let ji = index as int;
                if ti == 0 && ji == i4 {
                    assert(before.walk(p) is None);
                    assert(b.table_of_frame(entry_frame(value)) == n0);
                    assert(b.entry_at(n0, i3) == 0);
                    assert(b.walk(p) is None);
                } else {
                    assert(b.entry_at(0, i4) == before.entry_at(0, i4));
                    let e4 = before.entry_at(0, i4);
                    if entry_present(e4) {
                        assert(before.link_ok(0, i4));
                        let w3 = choose|w: int|
                            0 <= w < before.num_tables() && (#[trigger] before.frames@[w])
                                == entry_frame(e4) && before.levels@[w] == 3;
                        assert(before.table_of_frame(entry_frame(e4)) == w3) by {
                            let c = before.table_of_frame(entry_frame(e4));
                            assert(0 <= c < before.num_tables() && before.frames@[c]
                                == entry_frame(e4));
                        }
                        assert(b.table_of_frame(entry_frame(e4)) == w3) by {
                            assert(b.frames@[w3] == entry_frame(e4));
                            let c = b.table_of_frame(entry_frame(e4));
                            assert(0 <= c < b.num_tables() && b.frames@[c] == entry_frame(e4));
                        }
                        if ti == w3 && ji == i3 {
                            assert(before.walk(p) is None);
                            assert(b.entry_at(w3, i3) == value);
                            assert(b.table_of_frame(entry_frame(value)) == n0);
                            assert(b.entry_at(n0, i2) == 0);
                            assert(b.walk(p) is None);
                        } else {
                            assert(b.entry_at(w3, i3) == before.entry_at(w3, i3));
                            let e3 = before.entry_at(w3, i3);
                            if entry_present(e3) {
                                assert(before.link_ok(w3, i3));
                                let w2 = choose|w: int|
                                    0 <= w < before.num_tables() && (#[trigger] before.frames@[w])
                                        == entry_frame(e3) && before.levels@[w] == 2;
                                assert(before.table_of_frame(entry_frame(e3)) == w2) by {
                                    let c = before.table_of_frame(entry_frame(e3));
                                    assert(0 <= c < before.num_tables() && before.frames@[c]
                                        == entry_frame(e3));
                                }
                                assert(b.table_of_frame(entry_frame(e3)) == w2) by {
                                    assert(b.frames@[w2] == entry_frame(e3));
                                    let c = b.table_of_frame(entry_frame(e3));
                                    assert(0 <= c < b.num_tables() && b.frames@[c] == entry_frame(
                                        e3,
                                    ));
                                }
                                if ti == w2 && ji == i2 {
                                    assert(before.walk(p) is None);
                                    assert(b.entry_at(w2, i2) == value);
                                    assert(b.table_of_frame(entry_frame(value)) == n0);
                                    assert(b.entry_at(n0, i1) == 0);
                                    assert(b.walk(p) is None);
                                } else {
                                    assert(b.entry_at(w2, i2) == before.entry_at(w2, i2));
                                    let e2 = before.entry_at(w2, i2);
                                    if entry_present(e2) && !entry_huge(e2) {
                                        assert(before.link_ok(w2, i2));
                                        let w1 = choose|w: int|
                                            0 <= w < before.num_tables() && (
                                            #[trigger] before.frames@[w]) == entry_frame(e2)
                                                && before.levels@[w] == 1;
                                        assert(before.table_of_frame(entry_frame(e2)) == w1) by {
                                            let c = before.table_of_frame(entry_frame(e2));
                                            assert(0 <= c < before.num_tables()
                                                && before.frames@[c] == entry_frame(e2));
                                        }
                                        assert(b.table_of_frame(entry_frame(e2)) == w1) by {
                                            assert(b.frames@[w1] == entry_frame(e2));
                                            let c = b.table_of_frame(entry_frame(e2));
                                            assert(0 <= c < b.num_tables() && b.frames@[c]
                                                == entry_frame(e2));
                                        }
                                        // The written slot sits above the
                                        // leaf level, so the level-1 read
                                        // is untouched.
                                        assert(before.level_at(w1) == 1 && before.level_at(ti)
                                            >= 2);
                                        assert(b.entry_at(w1, i1) == before.entry_at(w1, i1));
                                    }
                                }
                            }
                        }
                    }
                }
            }
            assert(b.table_of_frame(entry_frame(b.entry_at(t as int, index as int))) == u as int)
                by {
                let c = b.table_of_frame(frame.0);
                assert(b.frames@[u as int] == frame.0);
                assert(0 <= c < b.num_tables() && b.frames@[c] == frame.0);
            }
            assert forall|v: int|
                0 <= v < b.table_frames().len() implies final(allocator).free_set().disjoint(
                frame_addresses(#[trigger] b.table_frames()[v]),
            ) by {
                if v < before.num_tables() {
                    assert(old(allocator).free_set().disjoint(
                        frame_addresses(before.table_frames()[v]),
                    ));
                }
            }
        }
        Ok(u)
    }

    /// Walks the page's path from the root, creating the missing tables:
    /// the allocation half of `map_to`. On success the returned arena
    /// indices are the page's level-3, level-2 and level-1 tables, all
    /// linked, with the level-1 slot for the page still clear. No walk
    /// changes, no occupied slot changes, and the free set loses exactly
    /// the bytes of the frames now backing the created tables.
    #[verifier::rlimit(100)]
    fn create_path<A: FrameAllocator>(&mut self, page: Page, allocator: &mut A) -> (r: Result<
        (usize, usize, usize),
        MapError,
    >)
        requires
            old(self).wf(),
            old(allocator).inv(),
            old(self).can_map(page.0),
            old(self).tables_not_free(old(allocator).free_set()),
            free_bounded(old(allocator).free_set()),
        ensures
            final(self).wf(),
            final(allocator).inv(),
            final(allocator).free_set().subset_of(old(allocator).free_set()),
            free_bounded(final(allocator).free_set()),
            final(self).tables_not_free(final(allocator).free_set()),
            forall|p: u64| #[trigger] final(self).walk(p) == old(self).walk(p),
            old(self).num_tables() <= final(self).num_tables(),
            forall|v: int|
                0 <= v < old(self).num_tables() ==> #[trigger] final(self).table_frames()[v] == old(
                    self,
                ).table_frames()[v],
            final(allocator).free_set() == old(allocator).free_set().difference(
                frames_addresses(final(self).table_frames().skip(old(self).num_tables())),
            ),
            forall|v: int, j: int|
                #![trigger final(self).entry_at(v, j)]
                0 <= v < old(self).num_tables() && 0 <= j < 512 && old(self).entry_at(v, j) != 0
                    ==> final(self).entry_at(v, j) == old(self).entry_at(v, j),
            (old(self).path_complete(page.0) ==> r is Ok),
            (r is Err ==> !can_allocate(final(allocator).free_set(), PAGE_SIZE, PAGE_SIZE)),
            (r matches Ok(t) ==> {
                &&& (t.0 as int) < final(self).num_tables()
                &&& (t.1 as int) < final(self).num_tables()
                &&& (t.2 as int) < final(self).num_tables()
                &&& final(self).level_at(t.0 as int) == 3
                &&& final(self).level_at(t.1 as int) == 2
                &&& final(self).level_at(t.2 as int) == 1
                &&& entry_present(final(self).entry_at(0, page_p4_index(page.0)))
                &&& !entry_huge(final(self).entry_at(0, page_p4_index(page.0)))
                &&& final(self).table_frames()[t.0 as int] == entry_frame(
                    final(self).entry_at(0, page_p4_index(page.0)),
                )
                &&& entry_present(final(self).entry_at(t.0 as int, page_p3_index(page.0)))
                &&& !entry_huge(final(self).entry_at(t.0 as int, page_p3_index(page.0)))
                &&& final(self).table_frames()[t.1 as int] == entry_frame(
                    final(self).entry_at(t.0 as int, page_p3_index(page.0)),
                )
                &&& entry_present(final(self).entry_at(t.1 as int, page_p2_index(page.0)))
                &&& !entry_huge(final(self).entry_at(t.1 as int, page_p2_index(page.0)))
                &&& final(self).table_frames()[t.2 as int] == entry_frame(
                    final(self).entry_at(t.1 as int, page_p2_index(page.0)),
                )
                &&& final(self).entry_at(t.2 as int, page_p1_index(page.0)) == 0
            }),
    {
        let ghost s0 = *self;
        proof {
            lemma_page_index_bounds(page.0);
            // At the root, a present entry is never huge.
            assert(s0.link_ok(0, page_p4_index(page.0)));
        }
        let p4_idx = page.p4_index();
        let p3_idx = page.p3_index();
        let p2_idx = page.p2_index();
        let p1_idx = page.p1_index();
        let t3 = match self.next_table_create(0, p4_idx, allocator) {
            Ok(u) => u,
            Err(err) => {
                proof {
                    // A failure here means the root slot was absent, so no
                    // complete path existed; nothing was created.
                    assert(!s0.path_complete(page.0));
                    assert(self.table_frames().skip(s0.num_tables()) =~= Seq::<u64>::empty());
                    crate::frames::lemma_frames_addresses_empty();
                    assert(old(allocator).free_set().difference(Set::<int>::empty()) =~= old(
                        allocator,
                    ).free_set());
                }
                return Err(err);
            },
        };
        let ghost s1 = *self;
        proof {
            assert(s1.link_ok(t3 as int, p3_idx as int));
            // When the root link was reused, `t3` is exactly the table the
            // old path named, and its slot for this page is untouched.
            if entry_present(s0.entry_at(0, p4_idx as int)) {
                let ef4 = entry_frame(s0.entry_at(0, p4_idx as int));
                assert(s1.entry_at(0, p4_idx as int) == s0.entry_at(0, p4_idx as int));
                assert(s0.table_frames()[t3 as int] == ef4) by {
                    assert(s1.table_frames()[t3 as int] == ef4);
                }
                assert(s0.table_of_frame(ef4) == t3 as int) by {
                    let c = s0.table_of_frame(ef4);
                    assert(0 <= c < s0.num_tables() && s0.table_frames()[c] == ef4);
                }
                assert(s0.level_at(t3 as int) == 3) by {
                    assert(s1.level_at(t3 as int) == 3);
                }
                assert(t3 as int != 0);
                assert(s1.entry_at(t3 as int, p3_idx as int) == s0.entry_at(
                    t3 as int,
                    p3_idx as int,
                ));
            }
        }
        let t2 = match self.next_table_create(t3, p3_idx, allocator) {
            Ok(u) => u,
            Err(err) => {
                proof {
                    assert(0u64 & 1u64 == 0u64) by (bit_vector);
                    // A complete path would have made this create a reuse,
                    // which cannot fail.
                    if s0.path_complete(page.0) {
                        assert(entry_present(s1.entry_at(t3 as int, p3_idx as int)));
                    }
                    // The free set lost exactly the bytes of what was
                    // created before the failure: one table, or none.
                    if entry_present(s0.entry_at(0, p4_idx as int)) {
                        assert(self.table_frames().skip(s0.num_tables()) =~= Seq::<u64>::empty());
                        crate::frames::lemma_frames_addresses_empty();
                        assert(old(allocator).free_set().difference(Set::<int>::empty()) =~= old(
                            allocator,
                        ).free_set());
                    } else {
                        let fr = s1.table_frames()[s0.num_tables()];
                        assert(self.table_frames().skip(s0.num_tables())
                            =~= Seq::<u64>::empty().push(fr));
                        crate::frames::lemma_frames_addresses_empty();
                        crate::frames::lemma_frames_addresses_push(Seq::<u64>::empty(), fr);
                        assert(frames_addresses(self.table_frames().skip(s0.num_tables()))
                            =~= frame_addresses(fr));
                    }
                    // No slot of the old tables that held anything was
                    // touched, and every old table keeps its frame.
                    assert forall|v: int, j: int|
                        #![trigger s1.entry_at(v, j)]
                        0 <= v < s0.num_tables() && 0 <= j < 512 && s0.entry_at(v, j) != 0
                        implies s1.entry_at(v, j) == s0.entry_at(v, j) by {
                        assert(entry_present(s0.entry_at(v, j)));
                    }
                    assert forall|v: int|
                        0 <= v < s0.num_tables() implies #[trigger] s1.table_frames()[v]
                        == s0.table_frames()[v] by {
                        assert(s1.level_at(v) == s0.level_at(v));
                    }
                }
                return Err(err);
            },
        };
        let ghost s2 = *self;
        proof {
            // The level-2 slot on the path is absent, or a non-huge link
            // whose level-1 slot is clear: either the path was created
            // fresh (so the new tables are clear), or the old path was
            // reused and `can_map` says so of exactly these slots.
            assert(0u64 & 1u64 == 0u64) by (bit_vector);
            let p4i = p4_idx as int;
            let p3i = p3_idx as int;
            let p2i = p2_idx as int;
            let p1i = p1_idx as int;
            let e4_0 = s0.entry_at(0, p4i);
            let e2 = s2.entry_at(t2 as int, p2i);
            if !entry_present(e4_0) {
                // Fresh level-3 table: everything below it is clear.
                assert(s1.entry_at(t3 as int, p3i) == 0);
                assert(t2 as int == s1.num_tables());
                assert(e2 == 0);
            } else {
                // The old level-4 link was reused: `t3` is the table that
                // `can_map` walked into.
                assert(s1.entry_at(0, p4i) == e4_0);
                let ef4 = entry_frame(e4_0);
                assert(s1.num_tables() == s0.num_tables());
                assert(s0.table_frames()[t3 as int] == ef4) by {
                    assert(s1.table_frames()[t3 as int] == ef4);
                }
                assert(s0.table_of_frame(ef4) == t3 as int) by {
                    let c = s0.table_of_frame(ef4);
                    assert(0 <= c < s0.num_tables() && s0.table_frames()[c] == ef4);
                }
                assert(s0.level_at(t3 as int) == 3) by {
                    assert(s1.level_at(t3 as int) == 3);
                }
                assert(t3 as int != 0);
                let e3_0 = s0.entry_at(t3 as int, p3i);
                assert(s1.entry_at(t3 as int, p3i) == e3_0);
                if !entry_present(e3_0) {
                    // Fresh level-2 table: its slots are clear.
                    assert(t2 as int == s1.num_tables());
                    assert(e2 == 0);
                } else {
                    // Both links reused: `t2` is `can_map`'s level-2 table,
                    // and `e2` is the very slot `can_map` constrains.
                    let ef3 = entry_frame(e3_0);
                    assert((t2 as int) < s1.num_tables());
                    assert(s2.table_frames()[t2 as int] == ef3);
                    assert(s0.table_frames()[t2 as int] == ef3);
                    assert(s0.table_of_frame(ef3) == t2 as int) by {
                        let c = s0.table_of_frame(ef3);
                        assert(0 <= c < s0.num_tables() && s0.table_frames()[c] == ef3);
                    }
                    assert(s0.level_at(t2 as int) == 2) by {
                        assert(s2.level_at(t2 as int) == 2);
                    }
                    assert(t2 as int != 0 && t2 as int != t3 as int);
                    assert(s1.entry_at(t2 as int, p2i) == s0.entry_at(t2 as int, p2i));
                    assert(e2 == s0.entry_at(t2 as int, p2i));
                    if entry_present(e2) {
                        assert(!entry_huge(e2));
                        let ef2 = entry_frame(e2);
                        let t1m = s0.table_of_frame(ef2);
                        assert(s0.entry_at(t1m, p1i) == 0);
                        // The level-1 table `can_map` looked at is in the
                        // arena and untouched by the two creates.
                        assert(s0.link_ok(t2 as int, p2i));
                        let w = choose|u: int|
                            0 <= u < s0.num_tables() && (#[trigger] s0.frames@[u]) == ef2
                                && s0.levels@[u] == s0.level_at(t2 as int) - 1;
                        assert(s0.table_frames()[w] == ef2);
                        assert(t1m == w);
                        assert(s0.level_at(w) == 1);
                        assert(w != 0 && w != t3 as int);
                        assert(s1.entry_at(w, p1i) == 0);
                        assert(s2.entry_at(w, p1i) == 0);
                        assert(s2.table_frames()[w] == ef2);
                        assert(s2.table_of_frame(ef2) == w) by {
                            let c = s2.table_of_frame(ef2);
                            assert(0 <= c < s2.num_tables() && s2.table_frames()[c] == ef2);
                        }
                    }
                }
            }
            assert(!(entry_present(e2) && entry_huge(e2)));
            assert(entry_present(e2) ==> !entry_huge(e2) && s2.entry_at(
                s2.table_of_frame(entry_frame(e2)),
                p1i,
            ) == 0);
        }
        let t1 = match self.next_table_create(t2, p2_idx, allocator) {
            Ok(u) => u,
            Err(err) => {
                proof {
                    assert(0u64 & 1u64 == 0u64) by (bit_vector);
                    // A complete path would have made this create a reuse,
                    // which cannot fail.
                    if s0.path_complete(page.0) {
                        assert(entry_present(s1.entry_at(t3 as int, p3_idx as int)));
                        assert(entry_present(s2.entry_at(t2 as int, p2_idx as int)));
                    }
                    // The free set lost exactly the bytes of the tables
                    // created before the failure: none, one, or two.
                    if entry_present(s0.entry_at(0, p4_idx as int)) {
                        if entry_present(s1.entry_at(t3 as int, p3_idx as int)) {
                            assert(self.table_frames().skip(s0.num_tables()) =~= Seq::<
                                u64,
                            >::empty());
                            crate::frames::lemma_frames_addresses_empty();
                            assert(old(allocator).free_set().difference(Set::<int>::empty())
                                =~= old(allocator).free_set());
                        } else {
                            let fr = s2.table_frames()[s1.num_tables()];
                            assert(self.table_frames().skip(s0.num_tables()) =~= Seq::<
                                u64,
                            >::empty().push(fr));
                            crate::frames::lemma_frames_addresses_empty();
                            crate::frames::lemma_frames_addresses_push(Seq::<u64>::empty(), fr);
                            assert(frames_addresses(self.table_frames().skip(s0.num_tables()))
                                =~= frame_addresses(fr));
                        }
                    } else {
                        // A fresh level-3 table means a fresh level-2 table
                        // below it.
                        assert(s1.entry_at(t3 as int, p3_idx as int) == 0);
                        let fr1 = s1.table_frames()[s0.num_tables()];
                        let fr2 = s2.table_frames()[s1.num_tables()];
                        assert(s2.table_frames()[s0.num_tables()] == fr1);
                        assert(self.table_frames().skip(s0.num_tables()) =~= Seq::<
                            u64,
                        >::empty().push(fr1).push(fr2));
                        crate::frames::lemma_frames_addresses_empty();
                        crate::frames::lemma_frames_addresses_push(Seq::<u64>::empty(), fr1);
                        crate::frames::lemma_frames_addresses_push(
                            Seq::<u64>::empty().push(fr1),
                            fr2,
                        );
                        assert(allocator.free_set() =~= old(allocator).free_set().difference(
                            frames_addresses(self.table_frames().skip(s0.num_tables())),
                        ));
                    }
                    // No slot of the old tables that held anything was
                    // touched, and every old table keeps its frame.
                    assert forall|v: int, j: int|
                        #![trigger s2.entry_at(v, j)]
                        0 <= v < s0.num_tables() && 0 <= j < 512 && s0.entry_at(v, j) != 0
                        implies s2.entry_at(v, j) == s0.entry_at(v, j) by {
                        assert(entry_present(s0.entry_at(v, j)));
                        assert(s1.entry_at(v, j) == s0.entry_at(v, j));
                        assert(entry_present(s1.entry_at(v, j)));
                        assert(s2.entry_at(v, j) == s1.entry_at(v, j));
                    }
                    assert forall|v: int|
                        0 <= v < s0.num_tables() implies #[trigger] s2.table_frames()[v]
                        == s0.table_frames()[v] by {
                        assert(s1.level_at(v) == s0.level_at(v));
                        assert(s2.level_at(v) == s1.level_at(v));
                    }
                }
                return Err(err);
            },
        };
        let ghost s3 = *self;
        proof {
            // The level-1 slot about to be written is clear: either the
            // level-1 table is fresh, or it is the one whose slot `can_map`
            // required clear, untouched since.
            assert(0u64 & 1u64 == 0u64) by (bit_vector);
            let p2i = p2_idx as int;
            let p1i = p1_idx as int;
            let e2 = s2.entry_at(t2 as int, p2i);
            if entry_present(e2) {
                let ef2 = entry_frame(e2);
                assert((t1 as int) < s2.num_tables());
                assert(s3.entry_at(t2 as int, p2i) == e2);
                assert(s3.table_frames()[t1 as int] == ef2);
                assert(s2.table_frames()[t1 as int] == ef2);
                assert(s2.table_of_frame(ef2) == t1 as int) by {
                    let c = s2.table_of_frame(ef2);
                    assert(0 <= c < s2.num_tables() && s2.table_frames()[c] == ef2);
                }
                assert(s2.entry_at(t1 as int, p1i) == 0);
                assert(s2.level_at(t1 as int) == 1) by {
                    assert(s3.level_at(t1 as int) == 1);
                }
                assert(t1 as int != t2 as int);
                assert(s3.entry_at(t1 as int, p1i) == 0);
            } else {
                assert(t1 as int == s2.num_tables());
                assert(s3.entry_at(t1 as int, p1i) == 0);
            }
        }
        proof {
            // Consolidation: what the three creates did, seen end to end.
            assert(s3.level_at(t3 as int) == 3 && s3.level_at(t2 as int) == 2 && s3.level_at(
                t1 as int,
            ) == 1);
            assert forall|p: u64| #[trigger] s3.walk(p) == s0.walk(p) by {
                assert(s3.walk(p) == s2.walk(p));
                assert(s2.walk(p) == s1.walk(p));
                assert(s1.walk(p) == s0.walk(p));
            }
            assert forall|v: int|
                0 <= v < s0.num_tables() implies #[trigger] s3.table_frames()[v]
                == s0.table_frames()[v] by {
                assert(s1.level_at(v) == s0.level_at(v));
                assert(s2.level_at(v) == s1.level_at(v));
                assert(s3.level_at(v) == s2.level_at(v));
            }
            // The free set lost exactly the bytes of the frames now backing
            // the created tables: none, one, two or three, depending on
            // where the existing path ended.
            assert(allocator.free_set() == old(allocator).free_set().difference(
                frames_addresses(s3.table_frames().skip(s0.num_tables())),
            )) by {
                assert(0u64 & 1u64 == 0u64) by (bit_vector);
                if entry_present(s0.entry_at(0, p4_idx as int)) {
                    if entry_present(s1.entry_at(t3 as int, p3_idx as int)) {
                        if entry_present(s2.entry_at(t2 as int, p2_idx as int)) {
                            assert(s3.table_frames().skip(s0.num_tables()) =~= Seq::<
                                u64,
                            >::empty());
                            crate::frames::lemma_frames_addresses_empty();
                            assert(old(allocator).free_set().difference(Set::<int>::empty())
                                =~= old(allocator).free_set());
                        } else {
                            let fr = s3.table_frames()[s2.num_tables()];
                            assert(s3.table_frames().skip(s0.num_tables()) =~= Seq::<
                                u64,
                            >::empty().push(fr));
                            crate::frames::lemma_frames_addresses_empty();
                            crate::frames::lemma_frames_addresses_push(Seq::<u64>::empty(), fr);
                            assert(frames_addresses(s3.table_frames().skip(s0.num_tables()))
                                =~= frame_addresses(fr));
                        }
                    } else {
                        // A fresh level-2 table means a fresh level-1 table.
                        assert(s2.entry_at(t2 as int, p2_idx as int) == 0);
                        let fr1 = s2.table_frames()[s1.num_tables()];
                        let fr2 = s3.table_frames()[s2.num_tables()];
                        assert(s3.table_frames()[s1.num_tables()] == fr1);
                        assert(s3.table_frames().skip(s0.num_tables()) =~= Seq::<
                            u64,
                        >::empty().push(fr1).push(fr2));
                        crate::frames::lemma_frames_addresses_empty();
                        crate::frames::lemma_frames_addresses_push(Seq::<u64>::empty(), fr1);
                        crate::frames::lemma_frames_addresses_push(
                            Seq::<u64>::empty().push(fr1),
                            fr2,
                        );
                        assert(allocator.free_set() =~= old(allocator).free_set().difference(
                            frames_addresses(s3.table_frames().skip(s0.num_tables())),
                        ));
                    }
                } else {
                    // The whole path below the root slot is fresh.
                    assert(s1.entry_at(t3 as int, p3_idx as int) == 0);
                    assert(s2.entry_at(t2 as int, p2_idx as int) == 0);
                    let fr1 = s1.table_frames()[s0.num_tables()];
                    let fr2 = s2.table_frames()[s1.num_tables()];
                    let fr3 = s3.table_frames()[s2.num_tables()];
                    assert(s2.table_frames()[s0.num_tables()] == fr1);
                    assert(s3.table_frames()[s0.num_tables()] == fr1);
                    assert(s3.table_frames()[s1.num_tables()] == fr2);
                    assert(s3.table_frames().skip(s0.num_tables()) =~= Seq::<
                        u64,
                    >::empty().push(fr1).push(fr2).push(fr3));
                    crate::frames::lemma_frames_addresses_empty();
                    crate::frames::lemma_frames_addresses_push(Seq::<u64>::empty(), fr1);
                    crate::frames::lemma_frames_addresses_push(Seq::<u64>::empty().push(fr1), fr2);
                    crate::frames::lemma_frames_addresses_push(
                        Seq::<u64>::empty().push(fr1).push(fr2),
                        fr3,
                    );
                    assert(allocator.free_set() =~= old(allocator).free_set().difference(
                        frames_addresses(s3.table_frames().skip(s0.num_tables())),
                    ));
                }
            }
            // No slot of the old tables that held anything was touched.
            assert forall|v: int, j: int|
                #![trigger s3.entry_at(v, j)]
                0 <= v < s0.num_tables() && 0 <= j < 512 && s0.entry_at(v, j) != 0
                implies s3.entry_at(v, j) == s0.entry_at(v, j) by {
                assert(entry_present(s0.entry_at(v, j)));
                assert(s1.entry_at(v, j) == s0.entry_at(v, j));
                assert(entry_present(s1.entry_at(v, j)));
                assert(s2.entry_at(v, j) == s1.entry_at(v, j));
                assert(entry_present(s2.entry_at(v, j)));
                assert(s3.entry_at(v, j) == s2.entry_at(v, j));
            }
            // The path facts handed to the caller, at the final state.
            assert(s3.entry_at(0, p4_idx as int) == s2.entry_at(0, p4_idx as int));
            assert(s2.entry_at(0, p4_idx as int) == s1.entry_at(0, p4_idx as int));
            assert(s2.table_frames()[t3 as int] == s1.table_frames()[t3 as int]);
            assert(s3.table_frames()[t3 as int] == s2.table_frames()[t3 as int]);
            assert(s3.entry_at(t3 as int, p3_idx as int) == s2.entry_at(t3 as int, p3_idx as int));
            assert(s3.table_frames()[t2 as int] == s2.table_frames()[t2 as int]);
        }
        Ok((t3, t2, t1))
    }


    /// Maps `page` to `frame` with the given flags (the present bit is
    /// always set), allocating intermediate tables on demand. The target
    /// level-1 slot must be entirely clear beforehand (`can_map`): mapping
    /// an already-mapped page is a caller error, and remapping is out of
    /// scope. The only failure is the allocator running out of frames for
    /// an intermediate table; tables created before that point remain, and
    /// they map nothing.
    #[verifier::rlimit(50)]
    pub fn map_to<A: FrameAllocator>(
        &mut self,
        page: Page,
        frame: PhysicalFrame,
        flags: u64,
        allocator: &mut A,
    ) -> (r: Result<(), MapError>)
        requires
            old(self).wf(),
            old(allocator).inv(),
            old(self).can_map(page.0),
            canonical_page(page.0),
            frame.0 < FRAME_LIMIT,
            flags & ENTRY_FRAME_MASK == 0,
            old(self).tables_not_free(old(allocator).free_set()),
            free_bounded(old(allocator).free_set()),
        ensures
            final(self).wf(),
            final(allocator).inv(),
            final(allocator).free_set().subset_of(old(allocator).free_set()),
            free_bounded(final(allocator).free_set()),
            final(self).tables_not_free(final(allocator).free_set()),
            (r is Ok ==> final(self).walk(page.0) == Some(frame.0)),
            (r is Ok ==> final(self).mapped_entry(page.0) == entry_encode(frame.0, flags)),
            (r is Err ==> !can_allocate(final(allocator).free_set(), PAGE_SIZE, PAGE_SIZE)),
            (old(self).path_complete(page.0) ==> r is Ok),
            forall|p: u64|
                canonical_page(p) && p != page.0 ==> #[trigger] final(self).walk(p) == old(
                    self,
                ).walk(p),
            (r is Err ==> forall|p: u64| #[trigger] final(self).walk(p) == old(self).walk(p)),
            old(self).num_tables() <= final(self).num_tables(),
            forall|v: int|
                0 <= v < old(self).num_tables() ==> #[trigger] final(self).table_frames()[v] == old(
                    self,
                ).table_frames()[v],
            final(allocator).free_set() == old(allocator).free_set().difference(
                frames_addresses(final(self).table_frames().skip(old(self).num_tables())),
            ),
            forall|v: int, j: int|
                #![trigger final(self).entry_at(v, j)]
                0 <= v < old(self).num_tables() && 0 <= j < 512 && old(self).entry_at(v, j) != 0
                    ==> final(self).entry_at(v, j) == old(self).entry_at(v, j),
    {
        let ghost s0 = *self;
        let (t3, t2, t1) = match self.create_path(page, allocator) {
            Ok(t) => t,
            Err(err) => {
                return Err(err);
            },
        };
        let ghost s3 = *self;
        proof {
            lemma_page_index_bounds(page.0);
            lemma_entry_encode(frame.0, flags);
        }
        let p1_idx = page.p1_index();
        let value = frame.0 * PAGE_SIZE | PAGE_PRESENT | flags;
        self.set_leaf_entry(t1, p1_idx, value);
        proof {
            let f = *self;
            // The leaf write lands below every link on the path, so the
            // walk of this page now reads exactly the created chain.
            assert(t1 as int != 0 && t1 as int != t3 as int && t1 as int != t2 as int) by {
                assert(s3.level_at(0) == 4 && s3.level_at(t3 as int) == 3 && s3.level_at(
                    t2 as int,
                ) == 2 && s3.level_at(t1 as int) == 1);
            }
            let p4i = page_p4_index(page.0);
            let p3i = page_p3_index(page.0);
            let p2i = page_p2_index(page.0);
            let p1i = page_p1_index(page.0);
            let e4 = f.entry_at(0, p4i);
            assert(f.entry_at(0, p4i) == s3.entry_at(0, p4i));
            assert(entry_present(e4) && !entry_huge(e4));
            assert(f.table_frames()[t3 as int] == entry_frame(e4));
            assert(f.table_of_frame(entry_frame(e4)) == t3 as int) by {
                let c = f.table_of_frame(entry_frame(e4));
                assert(0 <= c < f.num_tables() && f.table_frames()[c] == entry_frame(e4));
            }
            let e3 = f.entry_at(t3 as int, p3i);
            assert(f.entry_at(t3 as int, p3i) == s3.entry_at(t3 as int, p3i));
            assert(entry_present(e3) && !entry_huge(e3));
            assert(f.table_frames()[t2 as int] == entry_frame(e3));
            assert(f.table_of_frame(entry_frame(e3)) == t2 as int) by {
                let c = f.table_of_frame(entry_frame(e3));
                assert(0 <= c < f.num_tables() && f.table_frames()[c] == entry_frame(e3));
            }
            let e2 = f.entry_at(t2 as int, p2i);
            assert(f.entry_at(t2 as int, p2i) == s3.entry_at(t2 as int, p2i));
            assert(entry_present(e2) && !entry_huge(e2));
            assert(f.table_frames()[t1 as int] == entry_frame(e2));
            assert(f.table_of_frame(entry_frame(e2)) == t1 as int) by {
                let c = f.table_of_frame(entry_frame(e2));
                assert(0 <= c < f.num_tables() && f.table_frames()[c] == entry_frame(e2));
            }
            let e1 = f.entry_at(t1 as int, p1i);
            assert(e1 == entry_encode(frame.0, flags));
            assert(entry_present(e1) && entry_frame(e1) == frame.0);
            assert(f.walk(page.0) == Some(frame.0));
            assert(f.mapped_entry(page.0) == entry_encode(frame.0, flags));
            // The leaf write touches no backing frame, so the tables still
            // own theirs, and the accounting over the created tables holds
            // unchanged.
            assert forall|v: int|
                0 <= v < f.table_frames().len() implies final(allocator).free_set().disjoint(
                frame_addresses(#[trigger] f.table_frames()[v]),
            ) by {
                assert(f.table_frames()[v] == s3.table_frames()[v]);
                assert(final(allocator).free_set().disjoint(
                    frame_addresses(s3.table_frames()[v]),
                ));
            }
            assert(f.table_frames().skip(s0.num_tables()) == s3.table_frames().skip(
                s0.num_tables(),
            ));
            assert forall|v: int|
                0 <= v < s0.num_tables() implies #[trigger] f.table_frames()[v]
                == s0.table_frames()[v] by {
                assert(s3.table_frames()[v] == s0.table_frames()[v]);
            }
            // No occupied slot of the old tables changed: the one written
            // slot was clear.
            assert forall|v: int, j: int|
                #![trigger f.entry_at(v, j)]
                0 <= v < s0.num_tables() && 0 <= j < 512 && s0.entry_at(v, j) != 0
                implies f.entry_at(v, j) == s0.entry_at(v, j) by {
                assert(s3.entry_at(v, j) == s0.entry_at(v, j));
                if v == t1 as int && j == p1i {
                    assert(s3.entry_at(t1 as int, p1i) == 0);
                    assert(false);
                } else {
                    assert(f.entry_at(v, j) == s3.entry_at(v, j));
                }
            }
            // Every other canonical page keeps its old walk.
            lemma_leaf_write_preserves_walks(s3, f, page.0, t3 as int, t2 as int, t1 as int);
            assert forall|p: u64|
                canonical_page(p) && p != page.0 implies #[trigger] f.walk(p) == s0.walk(p) by {
                assert(f.walk(p) == s3.walk(p));
                assert(s3.walk(p) == s0.walk(p));
            }
        }
        Ok(())
    }


    /// A borrowed view of the root table.
    pub fn p4(&self) -> (r: &PageTable)
        requires
            self.wf(),
        ensures
            r.wf(),
            forall|j: int| 0 <= j < 512 ==> r@[j] == self.entry_at(0, j),
    {
        &self.tables[0]
    }
}

/// A write to one level-1 slot leaves the walk of every other canonical
/// page unchanged. The two states share frames, levels and every other
/// entry; the page's own path pins the written slot, and a table has one
/// parent link at most, so only that page's walk can read the slot.
proof fn lemma_leaf_write_preserves_walks(
    a: ActivePageTable,
    b: ActivePageTable,
    page: u64,
    t3: int,
    t2: int,
    t1: int,
)
    requires
        a.wf(),
        b.wf(),
        canonical_page(page),
        b.num_tables() == a.num_tables(),
        b.table_frames() == a.table_frames(),
        forall|v: int| 0 <= v < a.num_tables() ==> b.level_at(v) == a.level_at(v),
        forall|v: int, j: int|
            #![trigger b.entry_at(v, j)]
            0 <= v < a.num_tables() && 0 <= j < 512 && !(v == t1 && j == page_p1_index(page))
                ==> b.entry_at(v, j) == a.entry_at(v, j),
        0 <= t3 < a.num_tables(),
        0 <= t2 < a.num_tables(),
        0 <= t1 < a.num_tables(),
        a.level_at(t3) == 3,
        a.level_at(t2) == 2,
        a.level_at(t1) == 1,
        entry_present(a.entry_at(0, page_p4_index(page))),
        !entry_huge(a.entry_at(0, page_p4_index(page))),
        a.table_frames()[t3] == entry_frame(a.entry_at(0, page_p4_index(page))),
        entry_present(a.entry_at(t3, page_p3_index(page))),
        !entry_huge(a.entry_at(t3, page_p3_index(page))),
        a.table_frames()[t2] == entry_frame(a.entry_at(t3, page_p3_index(page))),
        entry_present(a.entry_at(t2, page_p2_index(page))),
        !entry_huge(a.entry_at(t2, page_p2_index(page))),
        a.table_frames()[t1] == entry_frame(a.entry_at(t2, page_p2_index(page))),
    ensures
        forall|p: u64| canonical_page(p) && p != page ==> #[trigger] b.walk(p) == a.walk(p),
{
    lemma_page_index_bounds(page);
    let j4 = page_p4_index(page);
    let j3 = page_p3_index(page);
    let j2 = page_p2_index(page);
    let j1 = page_p1_index(page);
    assert forall|p: u64| canonical_page(p) && p != page implies #[trigger] b.walk(p) == a.walk(
        p,
    ) by {
        lemma_page_index_bounds(p);
        let i4 = page_p4_index(p);
        let i3 = page_p3_index(p);
        let i2 = page_p2_index(p);
        let i1 = page_p1_index(p);
        assert(b.entry_at(0, i4) == a.entry_at(0, i4)) by {
            assert(a.level_at(0) == 4 && a.level_at(t1) == 1);
        }
        let a4 = a.entry_at(0, i4);
        if entry_present(a4) {
            assert(a.link_ok(0, i4));
            let w3 = choose|w: int|
                0 <= w < a.num_tables() && (#[trigger] a.frames@[w]) == entry_frame(a4)
                    && a.levels@[w] == 3;
            assert(a.table_of_frame(entry_frame(a4)) == w3) by {
                let c = a.table_of_frame(entry_frame(a4));
                assert(0 <= c < a.num_tables() && a.table_frames()[c] == entry_frame(a4));
            }
            assert(b.table_of_frame(entry_frame(a4)) == w3) by {
                assert(b.table_frames()[w3] == entry_frame(a4));
                let c = b.table_of_frame(entry_frame(a4));
                assert(0 <= c < b.num_tables() && b.table_frames()[c] == entry_frame(a4));
            }
            assert(b.entry_at(w3, i3) == a.entry_at(w3, i3)) by {
                assert(a.level_at(w3) == 3 && a.level_at(t1) == 1);
            }
            let a3 = a.entry_at(w3, i3);
            if entry_present(a3) {
                assert(a.link_ok(w3, i3));
                let w2 = choose|w: int|
                    0 <= w < a.num_tables() && (#[trigger] a.frames@[w]) == entry_frame(a3)
                        && a.levels@[w] == 2;
                assert(a.table_of_frame(entry_frame(a3)) == w2) by {
                    let c = a.table_of_frame(entry_frame(a3));
                    assert(0 <= c < a.num_tables() && a.table_frames()[c] == entry_frame(a3));
                }
                assert(b.table_of_frame(entry_frame(a3)) == w2) by {
                    assert(b.table_frames()[w2] == entry_frame(a3));
                    let c = b.table_of_frame(entry_frame(a3));
                    assert(0 <= c < b.num_tables() && b.table_frames()[c] == entry_frame(a3));
                }
                assert(b.entry_at(w2, i2) == a.entry_at(w2, i2)) by {
                    assert(a.level_at(w2) == 2 && a.level_at(t1) == 1);
                }
                let a2 = a.entry_at(w2, i2);
                if entry_present(a2) && !entry_huge(a2) {
                    assert(a.link_ok(w2, i2));
                    let w1 = choose|w: int|
                        0 <= w < a.num_tables() && (#[trigger] a.frames@[w]) == entry_frame(a2)
                            && a.levels@[w] == 1;
                    assert(a.table_of_frame(entry_frame(a2)) == w1) by {
                        let c = a.table_of_frame(entry_frame(a2));
                        assert(0 <= c < a.num_tables() && a.table_frames()[c] == entry_frame(a2));
                    }
                    assert(b.table_of_frame(entry_frame(a2)) == w1) by {
                        assert(b.table_frames()[w1] == entry_frame(a2));
                        let c = b.table_of_frame(entry_frame(a2));
                        assert(0 <= c < b.num_tables() && b.table_frames()[c] == entry_frame(a2));
                    }
                    if w1 == t1 && i1 == j1 {
                        // Then the two paths run through the same slots: a
                        // table has one parent link, so all four indices of
                        // `p` and `page` agree, and they are the same page.
                        assert(entry_frame(a2) == a.table_frames()[t1]);
                        assert(a.is_link(w2, i2) && a.is_link(t2, j2));
                        assert(w2 == t2 && i2 == j2);
                        assert(entry_frame(a3) == a.table_frames()[t2]);
                        assert(a.is_link(w3, i3) && a.is_link(t3, j3));
                        assert(w3 == t3 && i3 == j3);
                        assert(entry_frame(a4) == a.table_frames()[t3]);
                        assert(a.is_link(0, i4) && a.is_link(0, j4));
                        assert(i4 == j4);
                        crate::addr::lemma_canonical_page_indices(p, page);
                        assert(false);
                    } else {
                        assert(b.entry_at(w1, i1) == a.entry_at(w1, i1));
                    }
                }
            }
        }
    }
}

/// Translation round-trip: once a page is mapped to a frame (`walk(page)`
/// is `Some(frame)`, as `map_to` ensures), every address inside the page
/// translates. The address `page * PAGE_SIZE + offset` is canonical, names
/// that very page, and keeps its in-page offset, so `translate` on it
/// returns exactly `frame * PAGE_SIZE + offset`.
pub proof fn lemma_translate_round_trip(pt: ActivePageTable, page: u64, frame: u64, offset: u64)
    requires
        pt.wf(),
        canonical_page(page),
        offset < PAGE_SIZE,
        pt.walk(page) == Some(frame),
    ensures
        page * PAGE_SIZE + offset <= u64::MAX,
        canonical_address((page * PAGE_SIZE + offset) as u64),
        ((page * PAGE_SIZE + offset) as u64) / PAGE_SIZE == page,
        ((page * PAGE_SIZE + offset) as u64) % PAGE_SIZE == offset,
        pt.walk(((page * PAGE_SIZE + offset) as u64) / PAGE_SIZE) == Some(frame),
{
    crate::addr::lemma_canonical_page_addresses(page, offset);
    let va = (page * PAGE_SIZE + offset) as u64;
    assert(va as int == page * 4096 + offset);
    assert(va as int / 4096 == page && va as int % 4096 == offset) by (nonlinear_arith)
        requires
            va as int == page * 4096 + offset,
            0 <= offset < 4096,
    ;
}

/// The four nine-bit indices of any page number are in range.
proof fn lemma_page_index_bounds(page: u64)
    ensures
        0 <= page_p4_index(page) < 512,
        0 <= page_p3_index(page) < 512,
        0 <= page_p2_index(page) < 512,
        0 <= page_p1_index(page) < 512,
{
    vstd::arithmetic::div_mod::lemma_mod_bound(page as int / (512int * 512 * 512), 512);
    vstd::arithmetic::div_mod::lemma_mod_bound(page as int / (512int * 512), 512);
    vstd::arithmetic::div_mod::lemma_mod_bound(page as int / 512, 512);
    vstd::arithmetic::div_mod::lemma_mod_bound(page as int, 512);
    vstd::arithmetic::div_mod::lemma_div_pos_is_pos(page as int, 512int * 512 * 512);
    vstd::arithmetic::div_mod::lemma_div_pos_is_pos(page as int, 512int * 512);
    vstd::arithmetic::div_mod::lemma_div_pos_is_pos(page as int, 512);
}

} // verus!
