//! Ingestion of the boot-provided memory map.
//!
//! The bootloader hands the kernel an ordered sequence of memory map
//! entries. Only entries marked usable are folded into the tracker; an
//! entry of type zero is a sentinel that ends the raw variant of the map,
//! and everything after it is ignored. The first megabyte of physical
//! memory is then carved out unconditionally, because firmware and
//! bootstrap structures occupy it regardless of what the map reports.

use vstd::prelude::*;

verus! {

use vstd::set_lib::set_int_range;
use crate::tracker::Range;
use crate::tracker::RangeSet;
use crate::tracker::addresses_in;

/// One entry of the boot-provided memory map.
#[derive(Copy, Clone, Debug, PartialEq, Eq, Structural)]
pub struct MemoryMapEntry {
    pub address: u64,
    pub length: u64,
    pub entry_type: u32,
    pub extra: u32,
}

/// Type tag of a usable memory area.
pub const MEMORY_TYPE_USABLE: u32 = 1;

/// End of the unconditionally reserved low region: the first megabyte.
pub const LOW_MEMORY_END: u64 = 0x100000;

/// A usable entry contributes its addresses to free memory.
pub open spec fn entry_usable(e: MemoryMapEntry) -> bool {
    e.entry_type == MEMORY_TYPE_USABLE && e.length > 0
}

/// Whether the usable entry `e` holds the address `a`.
pub open spec fn entry_covers(e: MemoryMapEntry, a: int) -> bool {
    entry_usable(e) && e.address <= a < e.address + e.length
}

/// The addresses that the usable entries of the map hold.
pub open spec fn usable_addresses(entries: Seq<MemoryMapEntry>) -> Set<int> {
    Set::new(|a: int| exists|i: int| 0 <= i < entries.len() && #[trigger] entry_covers(entries[i], a))
}

/// How many leading entries count: all of them, or those before the first
/// sentinel entry of type zero.
pub open spec fn map_limit(entries: Seq<MemoryMapEntry>) -> int
    decreases entries.len(),
{
    if entries.len() == 0 {
        0
    } else if entries[0].entry_type == 0 {
        0
    } else {
        1 + map_limit(entries.drop_first())
    }
}

/// No usable entry may run past the end of the address space.
pub open spec fn map_in_bounds(entries: Seq<MemoryMapEntry>) -> bool {
    forall|i: int|
        0 <= i < entries.len() && entry_usable(#[trigger] entries[i]) ==> entries[i].address
            + entries[i].length - 1 <= u64::MAX
}

/// The sentinel position is the first index of type zero, or the length
/// when there is none.
proof fn lemma_map_limit(entries: Seq<MemoryMapEntry>, i: int)
    requires
        0 <= i <= entries.len(),
        forall|k: int| 0 <= k < i ==> (#[trigger] entries[k]).entry_type != 0,
        i < entries.len() ==> entries[i].entry_type == 0,
    ensures
        map_limit(entries) == i,
    decreases i,
{
    if entries.len() == 0 {
    } else if i == 0 {
    } else {
        assert(entries[0].entry_type != 0);
        let rest = entries.drop_first();
        assert(forall|k: int| 0 <= k < i - 1 ==> (#[trigger] rest[k]).entry_type != 0) by {
            assert(forall|k: int| 0 <= k < i - 1 ==> rest[k] == entries[k + 1]);
        }
        lemma_map_limit(rest, i - 1);
    }
}

/// Addresses of a pushed entry join the usable set.
proof fn lemma_usable_push(entries: Seq<MemoryMapEntry>, e: MemoryMapEntry)
    ensures
        entry_usable(e) ==> usable_addresses(entries.push(e)) == usable_addresses(entries)
            + set_int_range(e.address as int, e.address + e.length),
        !entry_usable(e) ==> usable_addresses(entries.push(e)) == usable_addresses(entries),
{
    let with = usable_addresses(entries.push(e));
    let without = usable_addresses(entries);
    assert forall|a: int| with.contains(a) implies without.contains(a) || (entry_usable(e)
        && e.address <= a < e.address + e.length) by {
        let i = choose|i: int|
            0 <= i < entries.push(e).len() && #[trigger] entry_covers(entries.push(e)[i], a);
        if i < entries.len() {
            assert(entry_covers(entries[i], a));
        }
    }
    assert forall|a: int| without.contains(a) implies with.contains(a) by {
        let i = choose|i: int| 0 <= i < entries.len() && #[trigger] entry_covers(entries[i], a);
        assert(entry_covers(entries.push(e)[i], a));
    }
    if entry_usable(e) {
        assert forall|a: int|
            e.address <= a < e.address + e.length implies with.contains(a) by {
            assert(entry_covers(entries.push(e)[entries.len() as int], a));
        }
        assert(with =~= without + set_int_range(e.address as int, e.address + e.length));
    } else {
        assert(with =~= without);
    }
}

/// Builds a tracker from the boot-provided memory map: the free set is
/// exactly what the usable entries before the sentinel (if any) hold.
pub fn from_memory_map(entries: &Vec<MemoryMapEntry>) -> (r: RangeSet)
    requires
        map_in_bounds(entries@),
    ensures
        r.wf(),
        r.free() == usable_addresses(entries@.take(map_limit(entries@))),
{
    let mut rs = RangeSet::new();
    let n = entries.len();
    let mut i: usize = 0;
    while i < n
        invariant
            i <= n,
            n == entries@.len(),
            map_in_bounds(entries@),
            rs.wf(),
            forall|k: int| 0 <= k < i ==> (#[trigger] entries@[k]).entry_type != 0,
            rs.free() == usable_addresses(entries@.take(i as int)),
        decreases n - i,
    {
        let e = entries[i];
        if e.entry_type == 0 {
            proof {
                lemma_map_limit(entries@, i as int);
            }
            return rs;
        }
        proof {
            assert(entries@.take(i + 1 as int) =~= entries@.take(i as int).push(e));
            lemma_usable_push(entries@.take(i as int), e);
        }
        if e.entry_type == MEMORY_TYPE_USABLE && e.length > 0 {
            rs.insert(Range { start: e.address, end: e.address + (e.length - 1) });
            proof {
                assert(addresses_in(e.address, (e.address + (e.length - 1)) as u64)
                    =~= set_int_range(e.address as int, e.address + e.length));
            }
        }
        i += 1;
    }
    proof {
        lemma_map_limit(entries@, n as int);
        assert(entries@.take(n as int) =~= entries@);
    }
    rs
}

/// Free physical memory at boot: what the usable map entries hold, with
/// the first megabyte unconditionally removed. No address below
/// `LOW_MEMORY_END` is ever free afterwards.
pub fn boot_physical_memory(entries: &Vec<MemoryMapEntry>) -> (r: RangeSet)
    requires
        map_in_bounds(entries@),
    ensures
        r.wf(),
        r.free() == usable_addresses(entries@.take(map_limit(entries@))).difference(
            set_int_range(0, LOW_MEMORY_END as int),
        ),
        forall|a: int| r.free().contains(a) ==> a >= LOW_MEMORY_END,
{
    let mut rs = from_memory_map(entries);
    rs.remove(Range { start: 0, end: LOW_MEMORY_END - 1 });
    proof {
        assert(addresses_in(0, (LOW_MEMORY_END - 1) as u64) =~= set_int_range(
            0,
            LOW_MEMORY_END as int,
        ));
    }
    rs
}

} // verus!
