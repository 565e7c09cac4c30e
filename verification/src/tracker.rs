//! Tracker for free physical memory.
//!
//! A `RangeSet` holds the set of byte addresses that are currently free, as
//! an ordered collection of disjoint, non-adjacent inclusive ranges.
//! Ranges that would overlap or touch are merged on insert, so the
//! representation is canonical. The mathematical model of a tracker is the
//! set of free addresses, `free()`; every operation's contract is stated
//! over that set.

use vstd::prelude::*;

verus! {

use vstd::set_lib::set_int_range;
use vstd::set_lib::lemma_int_range;
use vstd::set_lib::lemma_set_disjoint_lens;
use vstd::arithmetic::div_mod::lemma_fundamental_div_mod;
use vstd::arithmetic::div_mod::lemma_mod_bound;
use vstd::arithmetic::div_mod::lemma_mod_multiples_basic;

/// An inclusive range of byte addresses, `start <= end`.
#[derive(Copy, Clone, Debug, PartialEq, Eq, Structural)]
pub struct Range {
    pub start: u64,
    pub end: u64,
}

/// The set of addresses that an inclusive range holds.
pub open spec fn addresses_in(start: u64, end: u64) -> Set<int> {
    set_int_range(start as int, end as int + 1)
}

/// Whether the inclusive range `r` holds the address `a`.
pub open spec fn covers(r: Range, a: int) -> bool {
    r.start <= a <= r.end
}

/// The set of addresses held by any range of the sequence.
pub open spec fn seq_free(rs: Seq<Range>) -> Set<int> {
    Set::new(|a: int| exists|i: int| 0 <= i < rs.len() && #[trigger] covers(rs[i], a))
}

/// Well-formed representation: every range is non-empty, and the ranges are
/// ordered, disjoint and non-adjacent (a gap of at least one byte between
/// any two).
pub open spec fn ranges_wf(rs: Seq<Range>) -> bool {
    &&& forall|i: int| 0 <= i < rs.len() ==> (#[trigger] rs[i]).start <= rs[i].end
    &&& forall|i: int, j: int|
        #![trigger rs[i], rs[j]]
        0 <= i < j < rs.len() ==> rs[i].end + 2 <= rs[j].start
}

/// Total bytes held by the ranges of the sequence.
pub open spec fn seq_bytes(rs: Seq<Range>) -> int
    decreases rs.len(),
{
    if rs.len() == 0 {
        0
    } else {
        seq_bytes(rs.drop_last()) + (rs.last().end - rs.last().start + 1)
    }
}

/// Tracker for the free physical byte addresses.
pub struct RangeSet {
    ranges: Vec<Range>,
}

impl RangeSet {
    /// The set of byte addresses currently free: the tracker's model.
    pub closed spec fn free(self) -> Set<int> {
        seq_free(self.ranges@)
    }

    /// The tracker's internal invariant. Constructors establish it and
    /// every operation preserves it.
    pub closed spec fn wf(self) -> bool {
        ranges_wf(self.ranges@)
    }

    /// An empty tracker: no byte is free.
    pub fn new() -> (r: RangeSet)
        ensures
            r.wf(),
            r.free() == Set::<int>::empty(),
    {
        let r = RangeSet { ranges: Vec::new() };
        proof {
            assert(r.free() =~= Set::<int>::empty());
        }
        r
    }

    /// The tracker's ranges, ordered by address: the raw list behind
    /// `free()`, surfaced for diagnostics.
    pub fn ranges(&self) -> (r: &Vec<Range>)
        requires
            self.wf(),
        ensures
            ranges_wf(r@),
            seq_free(r@) == self.free(),
    {
        &self.ranges
    }
}

impl RangeSet {
    /// Adds `range` to the free set. Free ranges that overlap or touch it
    /// are merged with it into a single range, so the representation stays
    /// disjoint and non-adjacent. Addresses already free stay free:
    /// inserting the same range twice is the same as inserting it once.
    pub fn insert(&mut self, range: Range)
        requires
            old(self).wf(),
            range.start <= range.end,
        ensures
            final(self).wf(),
            final(self).free() == old(self).free() + addresses_in(range.start, range.end),
    {
        let n = self.ranges.len();
        let mut result: Vec<Range> = Vec::new();
        let mut i: usize = 0;
        // Ranges that end at least two bytes below the inserted start stay
        // as they are.
        while i < n && self.ranges[i].end < range.start && range.start - self.ranges[i].end > 1
            invariant
                i <= n,
                n == self.ranges@.len(),
                *self == *old(self),
                self.wf(),
                range.start <= range.end,
                result@ == self.ranges@.subrange(0, i as int),
                forall|k: int| 0 <= k < i ==> (#[trigger] self.ranges@[k]).end + 2 <= range.start,
            decreases n - i,
        {
            result.push(self.ranges[i]);
            proof {
                assert(result@ =~= self.ranges@.subrange(0, i + 1 as int));
            }
            i += 1;
        }
        let ghost lo = i as int;
        let mut new_start = range.start;
        let mut new_end = range.end;
        // Ranges that overlap or touch the inserted range merge into it.
        while i < n && (self.ranges[i].start <= range.end || self.ranges[i].start - range.end == 1)
            invariant
                0 <= lo <= i <= n,
                n == self.ranges@.len(),
                *self == *old(self),
                self.wf(),
                range.start <= range.end,
                result@ == self.ranges@.subrange(0, lo),
                forall|k: int| 0 <= k < lo ==> (#[trigger] self.ranges@[k]).end + 2 <= range.start,
                lo < n ==> self.ranges@[lo].end + 1 >= range.start,
                new_start <= range.start,
                new_end >= range.end,
                new_start <= new_end,
                i == lo ==> new_start == range.start && new_end == range.end,
                i > lo ==> new_start as int == if range.start <= self.ranges@[lo].start {
                    range.start as int
                } else {
                    self.ranges@[lo].start as int
                },
                i > lo ==> new_end as int == if range.end >= self.ranges@[i - 1].end {
                    range.end as int
                } else {
                    self.ranges@[i - 1].end as int
                },
                addresses_in(new_start, new_end) == addresses_in(range.start, range.end)
                    + seq_free(self.ranges@.subrange(lo, i as int)),
            decreases n - i,
        {
            let r = self.ranges[i];
            proof {
                if i > lo {
                    assert(self.ranges@[lo].end + 2 <= self.ranges@[i as int].start);
                }
                lemma_interval_merge(new_start, new_end, r.start, r.end);
                assert(self.ranges@.subrange(lo, i + 1 as int) =~= self.ranges@.subrange(
                    lo,
                    i as int,
                ).push(r));
                lemma_seq_free_push(self.ranges@.subrange(lo, i as int), r);
            }
            let ghost old_start = new_start;
            let ghost old_end = new_end;
            if r.start < new_start {
                new_start = r.start;
            }
            if r.end > new_end {
                new_end = r.end;
            }
            proof {
                assert(addresses_in(new_start, new_end) =~= addresses_in(old_start, old_end)
                    + addresses_in(r.start, r.end));
                assert(addresses_in(new_start, new_end) =~= addresses_in(range.start, range.end)
                    + seq_free(self.ranges@.subrange(lo, i + 1 as int)));
            }
            i += 1;
        }
        let ghost hi = i as int;
        let merged = Range { start: new_start, end: new_end };
        proof {
            // The kept prefix ends at least two bytes below the merged
            // range, which in turn ends at least two bytes below the first
            // kept suffix range.
            assert forall|k: int|
                0 <= k < lo implies (#[trigger] self.ranges@[k]).end + 2 <= merged.start by {
                if hi > lo {
                    assert(self.ranges@[k].end + 2 <= self.ranges@[lo].start);
                }
            }
            if hi < n {
                assert(range.end + 2 <= self.ranges@[hi].start);
                if hi > lo {
                    assert(self.ranges@[hi - 1].end + 2 <= self.ranges@[hi].start);
                }
            }
        }
        result.push(merged);
        let ghost head = self.ranges@.subrange(0, lo).push(merged);
        proof {
            assert(result@ =~= head + self.ranges@.subrange(hi, hi));
        }
        // Ranges wholly past the merged range stay as they are.
        while i < n
            invariant
                hi <= i <= n,
                0 <= lo <= hi,
                n == self.ranges@.len(),
                *self == *old(self),
                self.wf(),
                range.start <= range.end,
                head == self.ranges@.subrange(0, lo).push(merged),
                result@ == head + self.ranges@.subrange(hi, i as int),
                merged.start <= merged.end,
                forall|k: int| 0 <= k < lo ==> (#[trigger] self.ranges@[k]).end + 2 <= merged.start,
                hi < n ==> merged.end + 2 <= self.ranges@[hi].start,
                addresses_in(merged.start, merged.end) == addresses_in(range.start, range.end)
                    + seq_free(self.ranges@.subrange(lo, hi)),
            decreases n - i,
        {
            result.push(self.ranges[i]);
            proof {
                assert(result@ =~= head + self.ranges@.subrange(hi, i + 1 as int));
            }
            i += 1;
        }
        proof {
            let rs = self.ranges@;
            let prefix = rs.subrange(0, lo);
            let middle = rs.subrange(lo, hi);
            let suffix = rs.subrange(hi, n as int);
            // The new free set is the old one plus the inserted range.
            lemma_seq_free_push(prefix, merged);
            lemma_seq_free_concat(prefix.push(merged), suffix);
            lemma_seq_free_concat(prefix + middle, suffix);
            lemma_seq_free_concat(prefix, middle);
            assert(rs =~= (prefix + middle) + suffix);
            assert(seq_free(result@) =~= seq_free(rs) + addresses_in(range.start, range.end));
            // The new representation is well formed.
            assert forall|x: int|
                0 <= x < result@.len() implies (#[trigger] result@[x]).start <= result@[x].end by {
                if x < lo {
                    assert(result@[x] == rs[x]);
                } else if x > lo {
                    assert(result@[x] == rs[x - lo - 1 + hi]);
                }
            }
            assert forall|x: int, y: int|
                #![trigger result@[x], result@[y]]
                0 <= x < y < result@.len() implies result@[x].end + 2 <= result@[y].start by {
                if y < lo {
                    assert(result@[x] == rs[x] && result@[y] == rs[y]);
                } else if y == lo {
                    // x is in the kept prefix, y is the merged range.
                    assert(result@[x] == rs[x]);
                    assert(rs[x].end + 2 <= merged.start);
                } else {
                    assert(result@[y] == rs[y - lo - 1 + hi]);
                    let j = y - lo - 1 + hi;
                    if x < lo {
                        assert(result@[x] == rs[x]);
                    } else if x == lo {
                        // The merged range ends at least two bytes before
                        // any kept suffix range starts.
                        if hi < j {
                            assert(rs[hi].end + 2 <= rs[j].start);
                        }
                        assert(rs[hi].start <= rs[j].start);
                    } else {
                        assert(result@[x] == rs[x - lo - 1 + hi]);
                    }
                }
            }
        }
        self.ranges = result;
    }

    /// Subtracts `range` from the free set. A free range wholly inside
    /// `range` is dropped; one that straddles a boundary is trimmed, and one
    /// that contains `range` strictly is split in two. Addresses that were
    /// not free are unaffected.
    pub fn remove(&mut self, range: Range)
        requires
            old(self).wf(),
            range.start <= range.end,
        ensures
            final(self).wf(),
            final(self).free() == old(self).free().difference(
                addresses_in(range.start, range.end),
            ),
    {
        let n = self.ranges.len();
        let removed = Ghost(addresses_in(range.start, range.end));
        let mut result: Vec<Range> = Vec::new();
        let mut i: usize = 0;
        while i < n
            invariant
                i <= n,
                n == self.ranges@.len(),
                *self == *old(self),
                self.wf(),
                range.start <= range.end,
                removed@ == addresses_in(range.start, range.end),
                ranges_wf(result@),
                seq_free(result@) == seq_free(self.ranges@.subrange(0, i as int)).difference(
                    removed@,
                ),
                i > 0 && result@.len() > 0 ==> result@.last().end <= self.ranges@[i - 1].end,
                i == 0 ==> result@.len() == 0,
            decreases n - i,
        {
            let r = self.ranges[i];
            let ghost result_before = result@;
            let ghost pushed_start: int = result@.len() as int;
            if r.end < range.start || r.start > range.end {
                // Disjoint from the removed range: kept whole.
                result.push(r);
                proof {
                    lemma_seq_free_push(result_before, r);
                    assert(addresses_in(r.start, r.end).disjoint(removed@));
                }
            } else {
                // Overlapping: keep the parts outside the removed range.
                if r.start < range.start {
                    result.push(
                        Range { start: r.start, end: (range.start - 1) as u64 },
                    );
                }
                let ghost result_mid = result@;
                if r.end > range.end {
                    result.push(Range { start: (range.end + 1) as u64, end: r.end });
                }
                proof {
                    if r.start < range.start {
                        lemma_seq_free_push(result_before, result_mid.last());
                    }
                    if r.end > range.end {
                        lemma_seq_free_push(result_mid, result@.last());
                    }
                    assert(seq_free(result@) =~= seq_free(result_before) + addresses_in(
                        r.start,
                        r.end,
                    ).difference(removed@));
                }
            }
            proof {
                // Result stays well formed: every new piece starts at least
                // two past every earlier end.
                assert forall|k: int|
                    0 <= k < result@.len() implies (#[trigger] result@[k]).start
                    <= result@[k].end by {
                    if k < result_before.len() {
                        assert(result@[k] == result_before[k]);
                    }
                }
                assert forall|k: int, l: int|
                    #![trigger result@[k], result@[l]]
                    0 <= k < l < result@.len() implies result@[k].end + 2
                    <= result@[l].start by {
                    if l < result_before.len() {
                        assert(result@[k] == result_before[k] && result@[l] == result_before[l]);
                    } else {
                        // `result@[l]` was pushed this iteration, so it
                        // starts no earlier than the current range.
                        assert(result@[l].start >= r.start);
                        if k < result_before.len() {
                            assert(result@[k] == result_before[k]);
                            let m = result_before.len() - 1;
                            if k < m {
                                assert(result_before[k].end + 2 <= result_before[m].start);
                                assert(result_before[m].start <= result_before[m].end);
                            }
                            assert(result_before[k].end <= result_before[m].end);
                            assert(result_before[m].end <= self.ranges@[i - 1].end);
                            assert(self.ranges@[i - 1].end + 2 <= self.ranges@[i as int].start);
                        } else {
                            // Both pushed this iteration: the trimmed left
                            // part ends before `range`, the right part
                            // starts after it.
                            assert(result@[k].end <= range.start - 1);
                            assert(result@[l].start >= range.end + 1);
                        }
                    }
                }
                // The newest element still ends within the current range,
                // which ends before the next range starts.
                if result@.len() > 0 {
                    if result@.len() > result_before.len() {
                        assert(result@.last().end <= r.end);
                    } else {
                        assert(result@.last() == result_before.last());
                        assert(self.ranges@[i - 1].end + 2 <= self.ranges@[i as int].start);
                        assert(self.ranges@[i as int].start <= self.ranges@[i as int].end);
                    }
                }
                // The free-set equation advances by one range.
                assert(self.ranges@.subrange(0, i + 1 as int) =~= self.ranges@.subrange(
                    0,
                    i as int,
                ).push(r));
                lemma_seq_free_push(self.ranges@.subrange(0, i as int), r);
                assert(seq_free(result@) =~= seq_free(self.ranges@.subrange(0, i + 1 as int))
                    .difference(removed@));
            }
            i += 1;
        }
        proof {
            assert(self.ranges@.subrange(0, n as int) =~= self.ranges@);
        }
        self.ranges = result;
    }
    /// Claims `size` bytes aligned to `align` from the lowest-addressed free
    /// range with enough room. On success the returned address is the least
    /// aligned address whose whole block is free, and the block leaves the
    /// free set. Returns nothing exactly when no aligned block of that size
    /// is free (in particular when `size` or `align` is zero); the tracker
    /// is then unchanged.
    pub fn allocate(&mut self, size: u64, align: u64) -> (r: Option<u64>)
        requires
            old(self).wf(),
        ensures
            final(self).wf(),
            (r is Some) <==> can_allocate(old(self).free(), size, align),
            (r matches Some(a) ==> {
                &&& a as int % align as int == 0
                &&& a + size - 1 <= u64::MAX
                &&& block_free(old(self).free(), a as int, size)
                &&& final(self).free() == old(self).free().difference(
                    set_int_range(a as int, a + size),
                )
                &&& forall|b: int|
                    0 <= b < a && b % align as int == 0 ==> !(#[trigger] block_free(
                        old(self).free(),
                        b,
                        size,
                    ))
            }),
            r is None ==> final(self).free() == old(self).free(),
    {
        if size == 0 || align == 0 {
            return None;
        }
        let n = self.ranges.len();
        let mut i: usize = 0;
        while i < n
            invariant
                i <= n,
                n == self.ranges@.len(),
                *self == *old(self),
                self.wf(),
                size >= 1,
                align >= 1,
                forall|k: int, b: int|
                    0 <= k < i ==> !(#[trigger] fits_in_range(
                        self.ranges@[k],
                        b,
                        size,
                        align,
                    )),
            decreases n - i,
        {
            let r = self.ranges[i];
            let rem = r.start % align;
            let pad: u64 = if rem == 0 {
                0
            } else {
                align - rem
            };
            proof {
                lemma_align_up(r.start as int, align as int);
                assert(r.start + pad == align_up(r.start as int, align as int));
            }
            if pad <= r.end - r.start && size - 1 <= r.end - r.start - pad {
                let base = r.start + pad;
                let last = base + (size - 1);
                proof {
                    // The block is free: every address of it lies in this
                    // range.
                    assert forall|x: int|
                        set_int_range(base as int, base + size).contains(x) implies old(
                        self,
                    ).free().contains(x) by {
                        assert(covers(self.ranges@[i as int], x));
                    }
                    assert(block_free(old(self).free(), base as int, size));
                    // No aligned free block starts below `base`.
                    assert forall|b: int|
                        0 <= b < base && b % align as int == 0 implies !(#[trigger] block_free(
                        old(self).free(),
                        b,
                        size,
                    )) by {
                        if block_free(old(self).free(), b, size) {
                            lemma_block_in_single_range(self.ranges@, b, size);
                            let k = choose|k: int|
                                0 <= k < self.ranges@.len() && (#[trigger] self.ranges@[k]).start
                                    <= b && b + size - 1 <= self.ranges@[k].end;
                            if k < i {
                                assert(fits_in_range(self.ranges@[k], b, size, align));
                            } else if k == i {
                                // An aligned address in this range is at
                                // least the lowest aligned address in it.
                            } else {
                                assert(self.ranges@[i as int].end + 2 <= self.ranges@[k].start);
                            }
                        }
                    }
                }
                self.remove(Range { start: base, end: last });
                return Some(base);
            }
            proof {
                // No aligned block of this size fits in this range.
                assert forall|b: int|
                    !(#[trigger] fits_in_range(self.ranges@[i as int], b, size, align)) by {
                    if fits_in_range(self.ranges@[i as int], b, size, align) {
                        assert(b >= align_up(r.start as int, align as int));
                        assert(false);
                    }
                }
            }
            i += 1;
        }
        proof {
            // Nothing fits anywhere: no aligned block is wholly free.
            if can_allocate(old(self).free(), size, align) {
                let a = choose|a: int|
                    0 <= a && a % align as int == 0 && a + size - 1 <= u64::MAX
                        && #[trigger] block_free(old(self).free(), a, size);
                lemma_block_in_single_range(self.ranges@, a, size);
                let k = choose|k: int|
                    0 <= k < self.ranges@.len() && (#[trigger] self.ranges@[k]).start <= a && a
                        + size - 1 <= self.ranges@[k].end;
                assert(fits_in_range(self.ranges@[k], a, size, align));
            }
        }
        None
    }

    /// Total free bytes across all ranges, used for diagnostics. Returns
    /// nothing exactly when the total does not fit in a machine word.
    pub fn sum(&self) -> (r: Option<u64>)
        requires
            self.wf(),
        ensures
            self.free().finite(),
            (r matches Some(t) ==> t == self.free().len()),
            (r is Some) <==> self.free().len() <= u64::MAX,
    {
        proof {
            lemma_seq_free_len(self.ranges@);
        }
        let n = self.ranges.len();
        let mut total: u64 = 0;
        let mut i: usize = 0;
        while i < n
            invariant
                i <= n,
                n == self.ranges@.len(),
                self.wf(),
                total as int == seq_bytes(self.ranges@.subrange(0, i as int)),
            decreases n - i,
        {
            let r = self.ranges[i];
            let size_m1 = r.end - r.start;
            proof {
                assert(self.ranges@.subrange(0, i + 1 as int).drop_last() =~= self.ranges@.subrange(
                    0,
                    i as int,
                ));
                assert(self.ranges@.subrange(0, i + 1 as int).last() == self.ranges@[i as int]);
            }
            if total < u64::MAX - size_m1 {
                total = total + size_m1 + 1;
            } else {
                proof {
                    lemma_seq_bytes_mono(self.ranges@, i + 1);
                    lemma_seq_free_len(self.ranges@);
                }
                return None;
            }
            i += 1;
        }
        proof {
            assert(self.ranges@.subrange(0, n as int) =~= self.ranges@);
            lemma_seq_free_len(self.ranges@);
        }
        Some(total)
    }
}

/// A prefix of a well-formed sequence holds at most as many bytes as the
/// whole: every range contributes a non-negative count.
proof fn lemma_seq_bytes_mono(rs: Seq<Range>, j: int)
    requires
        ranges_wf(rs),
        0 <= j <= rs.len(),
    ensures
        seq_bytes(rs.subrange(0, j)) <= seq_bytes(rs),
    decreases rs.len() - j,
{
    if j == rs.len() {
        assert(rs.subrange(0, j) =~= rs);
    } else {
        lemma_seq_bytes_mono(rs, j + 1);
        assert(rs.subrange(0, j + 1).drop_last() =~= rs.subrange(0, j));
        assert(rs.subrange(0, j + 1).last() == rs[j]);
    }
}

/// A contiguous block of `size` bytes starting at `a` lies wholly inside
/// the free set.
pub open spec fn block_free(free: Set<int>, a: int, size: u64) -> bool {
    set_int_range(a, a + size).subset_of(free)
}

/// Some `align`-aligned block of `size` bytes lies wholly inside the free
/// set; only then can an allocation of that shape succeed.
pub open spec fn can_allocate(free: Set<int>, size: u64, align: u64) -> bool {
    size >= 1 && align >= 1 && exists|a: int|
        0 <= a && a % align as int == 0 && a + size - 1 <= u64::MAX && #[trigger] block_free(
            free,
            a,
            size,
        )
}

/// An `align`-aligned block of `size` bytes starting at `b` lies wholly
/// inside the single range `r`.
pub open spec fn fits_in_range(r: Range, b: int, size: u64, align: u64) -> bool {
    b % align as int == 0 && r.start <= b && b + size - 1 <= r.end
}

/// The lowest `align`-aligned address at or above `start`.
pub open spec fn align_up(start: int, align: int) -> int {
    if start % align == 0 {
        start
    } else {
        start + align - start % align
    }
}

/// `align_up(start, align)` is aligned, lies less than one alignment step
/// above `start`, and is the least aligned address at or above `start`.
proof fn lemma_align_up(start: int, align: int)
    requires
        align >= 1,
        start >= 0,
    ensures
        align_up(start, align) % align == 0,
        start <= align_up(start, align) < start + align,
        forall|b: int| b >= start && #[trigger] (b % align) == 0 ==> b >= align_up(start, align),
{
    lemma_fundamental_div_mod(start, align);
    lemma_mod_bound(start, align);
    let q = start / align;
    let r = start % align;
    let base = align_up(start, align);
    if r == 0 {
        assert forall|b: int| b >= start && #[trigger] (b % align) == 0 implies b >= base by {}
    } else {
        assert(base == (q + 1) * align) by (nonlinear_arith)
            requires
                start == align * q + r,
                base == start + align - r,
        ;
        lemma_mod_multiples_basic(q + 1, align);
        assert forall|b: int| b >= start && #[trigger] (b % align) == 0 implies b >= base by {
            lemma_fundamental_div_mod(b, align);
            let m = b / align;
            assert(b == align * m);
            assert(m >= q + 1) by (nonlinear_arith)
                requires
                    align >= 1,
                    align * m >= align * q + r,
                    0 < r < align,
            ;
            assert(b >= base) by (nonlinear_arith)
                requires
                    m >= q + 1,
                    b == align * m,
                    base == (q + 1) * align,
                    align >= 1,
            ;
        }
    }
}

/// A contiguous free block lies wholly inside one free range: the ranges
/// are disjoint and non-adjacent, so a block cannot straddle two of them.
proof fn lemma_block_in_single_range(rs: Seq<Range>, a: int, size: u64)
    requires
        ranges_wf(rs),
        size >= 1,
        set_int_range(a, a + size).subset_of(seq_free(rs)),
    ensures
        exists|k: int|
            0 <= k < rs.len() && (#[trigger] rs[k]).start <= a && a + size - 1 <= rs[k].end,
{
    assert(seq_free(rs).contains(a)) by {
        assert(set_int_range(a, a + size).contains(a));
    }
    let k = choose|i: int| 0 <= i < rs.len() && #[trigger] covers(rs[i], a);
    if a + size - 1 > rs[k].end {
        let boundary = rs[k].end + 1;
        assert(seq_free(rs).contains(boundary)) by {
            assert(set_int_range(a, a + size).contains(boundary));
        }
        let m = choose|i: int| 0 <= i < rs.len() && #[trigger] covers(rs[i], boundary);
        if m < k {
            assert(rs[m].end + 2 <= rs[k].start);
        } else if m > k {
            assert(rs[k].end + 2 <= rs[m].start);
        }
        assert(false);
    }
    assert(rs[k].start <= a && a + size - 1 <= rs[k].end);
}

/// Two inclusive ranges that overlap or touch cover together exactly the
/// interval from the smaller start to the larger end.
proof fn lemma_interval_merge(s1: u64, e1: u64, s2: u64, e2: u64)
    requires
        s1 <= e1,
        s2 <= e2,
        s2 <= e1 + 1,
        e2 + 1 >= s1,
    ensures
        addresses_in(
            if s2 < s1 {
                s2
            } else {
                s1
            },
            if e2 > e1 {
                e2
            } else {
                e1
            },
        ) == addresses_in(s1, e1) + addresses_in(s2, e2),
{
    let s = if s2 < s1 {
        s2
    } else {
        s1
    };
    let e = if e2 > e1 {
        e2
    } else {
        e1
    };
    assert(addresses_in(s, e) =~= addresses_in(s1, e1) + addresses_in(s2, e2));
}

/// Addresses of a pushed range join the set held by the sequence.
proof fn lemma_seq_free_push(rs: Seq<Range>, r: Range)
    ensures
        seq_free(rs.push(r)) == seq_free(rs) + addresses_in(r.start, r.end),
{
    assert forall|a: int| seq_free(rs.push(r)).contains(a) implies (seq_free(rs) + addresses_in(
        r.start,
        r.end,
    )).contains(a) by {
        let i = choose|i: int| 0 <= i < rs.push(r).len() && #[trigger] covers(rs.push(r)[i], a);
        if i < rs.len() {
            assert(covers(rs[i], a));
        }
    }
    assert forall|a: int| (seq_free(rs) + addresses_in(r.start, r.end)).contains(a) implies seq_free(
        rs.push(r),
    ).contains(a) by {
        if seq_free(rs).contains(a) {
            let i = choose|i: int| 0 <= i < rs.len() && #[trigger] covers(rs[i], a);
            assert(covers(rs.push(r)[i], a));
        } else {
            assert(covers(rs.push(r)[rs.len() as int], a));
        }
    }
    assert(seq_free(rs.push(r)) =~= seq_free(rs) + addresses_in(r.start, r.end));
}

/// The set held by a concatenation is the union of the sets held by the
/// parts.
proof fn lemma_seq_free_concat(xs: Seq<Range>, ys: Seq<Range>)
    ensures
        seq_free(xs + ys) == seq_free(xs) + seq_free(ys),
{
    assert forall|a: int| seq_free(xs + ys).contains(a) implies (seq_free(xs) + seq_free(
        ys,
    )).contains(a) by {
        let i = choose|i: int| 0 <= i < (xs + ys).len() && #[trigger] covers((xs + ys)[i], a);
        if i < xs.len() {
            assert(covers(xs[i], a));
        } else {
            assert(covers(ys[i - xs.len()], a));
        }
    }
    assert forall|a: int| (seq_free(xs) + seq_free(ys)).contains(a) implies seq_free(
        xs + ys,
    ).contains(a) by {
        if seq_free(xs).contains(a) {
            let i = choose|i: int| 0 <= i < xs.len() && #[trigger] covers(xs[i], a);
            assert(covers((xs + ys)[i], a));
        } else {
            let i = choose|i: int| 0 <= i < ys.len() && #[trigger] covers(ys[i], a);
            assert(covers((xs + ys)[i + xs.len()], a));
        }
    }
    assert(seq_free(xs + ys) =~= seq_free(xs) + seq_free(ys));
}

/// A well-formed sequence holds finitely many addresses, and exactly
/// `seq_bytes` of them: the ranges are disjoint, so their sizes add up.
proof fn lemma_seq_free_len(rs: Seq<Range>)
    requires
        ranges_wf(rs),
    ensures
        seq_free(rs).finite(),
        seq_free(rs).len() == seq_bytes(rs),
        seq_bytes(rs) >= 0,
    decreases rs.len(),
{
    if rs.len() == 0 {
        assert(seq_free(rs) =~= Set::<int>::empty());
    } else {
        let prefix = rs.drop_last();
        let last = rs.last();
        assert(ranges_wf(prefix)) by {
            assert(forall|i: int| 0 <= i < prefix.len() ==> prefix[i] == rs[i]);
        }
        lemma_seq_free_len(prefix);
        lemma_int_range(last.start as int, last.end as int + 1);
        let last_addrs = addresses_in(last.start, last.end);
        assert(seq_free(prefix).disjoint(last_addrs)) by {
            assert forall|a: int| seq_free(prefix).contains(a) implies !last_addrs.contains(a) by {
                let i = choose|i: int| 0 <= i < prefix.len() && #[trigger] covers(prefix[i], a);
                assert(rs[i] == prefix[i]);
                assert(rs[i].end + 2 <= last.start);
            }
        }
        assert(seq_free(rs) =~= seq_free(prefix) + last_addrs) by {
            assert(prefix.push(last) =~= rs);
            lemma_seq_free_push(prefix, last);
        }
        lemma_set_disjoint_lens(seq_free(prefix), last_addrs);
    }
}

/// Idempotence of insertion: the free set reached by inserting a range
/// twice (the two unions below, as `insert` ensures them) is the free set
/// reached by inserting it once. With `sum` reporting the free set's size,
/// the free-byte total is also the same.
pub proof fn lemma_insert_idempotent(
    free0: Set<int>,
    free1: Set<int>,
    free2: Set<int>,
    range: Range,
)
    requires
        range.start <= range.end,
        free1 == free0 + addresses_in(range.start, range.end),
        free2 == free1 + addresses_in(range.start, range.end),
    ensures
        free2 == free1,
{
    assert(free2 =~= free1);
}

/// Conservation under allocation: an allocation takes exactly its block's
/// bytes out of the free set, so free bytes plus bytes handed out stay
/// constant.
pub proof fn lemma_allocate_conserves(free0: Set<int>, free1: Set<int>, a: int, size: u64)
    requires
        free0.finite(),
        size >= 1,
        block_free(free0, a, size),
        free1 == free0.difference(set_int_range(a, a + size)),
    ensures
        free1.finite(),
        free1.len() + size == free0.len(),
{
    let block = set_int_range(a, a + size);
    lemma_int_range(a, a + size);
    vstd::set_lib::lemma_set_subset_finite(free0, free1);
    assert(free1.disjoint(block));
    assert(free1 + block =~= free0);
    lemma_set_disjoint_lens(free1, block);
}

/// Conservation under deallocation: inserting a block that holds no free
/// byte (one previously allocated and not yet returned) grows the free set
/// by exactly the block's size.
pub proof fn lemma_insert_conserves(free0: Set<int>, free1: Set<int>, range: Range)
    requires
        free0.finite(),
        range.start <= range.end,
        free0.disjoint(addresses_in(range.start, range.end)),
        free1 == free0 + addresses_in(range.start, range.end),
    ensures
        free1.finite(),
        free1.len() == free0.len() + (range.end - range.start + 1),
{
    lemma_int_range(range.start as int, range.end as int + 1);
    lemma_set_disjoint_lens(free0, addresses_in(range.start, range.end));
}

/// Allocating a block and inserting the same block back restores the free
/// set exactly: nothing is leaked and nothing is gained.
pub proof fn lemma_deallocate_restores(
    free0: Set<int>,
    free1: Set<int>,
    free2: Set<int>,
    a: int,
    size: u64,
)
    requires
        size >= 1,
        block_free(free0, a, size),
        free1 == free0.difference(set_int_range(a, a + size)),
        free2 == free1 + set_int_range(a, a + size),
    ensures
        free2 == free0,
{
    assert(free2 =~= free0);
}

/// One tracker transition, as the contracts of `allocate` and `insert`
/// describe them: a block of bytes leaving the free set for a caller, or a
/// held block returned whole.
pub enum TrackerStep {
    Claim { address: int, size: u64 },
    Return { address: int, size: u64 },
}

/// The free set left after a run of steps.
pub open spec fn run_free(free: Set<int>, steps: Seq<TrackerStep>) -> Set<int>
    decreases steps.len(),
{
    if steps.len() == 0 {
        free
    } else {
        match steps[0] {
            TrackerStep::Claim { address, size } => run_free(
                free.difference(set_int_range(address, address + size)),
                steps.drop_first(),
            ),
            TrackerStep::Return { address, size } => run_free(
                free + set_int_range(address, address + size),
                steps.drop_first(),
            ),
        }
    }
}

/// The held (allocated and not yet returned) set left after a run of
/// steps.
pub open spec fn run_held(held: Set<int>, steps: Seq<TrackerStep>) -> Set<int>
    decreases steps.len(),
{
    if steps.len() == 0 {
        held
    } else {
        match steps[0] {
            TrackerStep::Claim { address, size } => run_held(
                held + set_int_range(address, address + size),
                steps.drop_first(),
            ),
            TrackerStep::Return { address, size } => run_held(
                held.difference(set_int_range(address, address + size)),
                steps.drop_first(),
            ),
        }
    }
}

/// Every step of the run is sound where it happens: a claim takes a
/// non-empty block of free bytes (what `allocate` ensures of a successful
/// call), and a return gives back bytes that are actually held, so no
/// block leaks out of the run and none is invented.
pub open spec fn run_valid(free: Set<int>, held: Set<int>, steps: Seq<TrackerStep>) -> bool
    decreases steps.len(),
{
    steps.len() == 0 || {
        match steps[0] {
            TrackerStep::Claim { address, size } => size >= 1 && block_free(free, address, size)
                && run_valid(
                free.difference(set_int_range(address, address + size)),
                held + set_int_range(address, address + size),
                steps.drop_first(),
            ),
            TrackerStep::Return { address, size } => size >= 1 && set_int_range(
                address,
                address + size,
            ).subset_of(held) && run_valid(
                free + set_int_range(address, address + size),
                held.difference(set_int_range(address, address + size)),
                steps.drop_first(),
            ),
        }
    }
}

/// Conservation: over any valid run of claims and returns, the free bytes
/// and the held bytes partition one unchanging set, so the free total plus
/// the held total is constant.
pub proof fn lemma_run_conserves(free: Set<int>, held: Set<int>, steps: Seq<TrackerStep>)
    requires
        free.finite(),
        held.finite(),
        free.disjoint(held),
        run_valid(free, held, steps),
    ensures
        run_free(free, steps).finite(),
        run_held(held, steps).finite(),
        run_free(free, steps).disjoint(run_held(held, steps)),
        run_free(free, steps) + run_held(held, steps) == free + held,
        run_free(free, steps).len() + run_held(held, steps).len() == free.len() + held.len(),
    decreases steps.len(),
{
    if steps.len() == 0 {
    } else {
        let rest = steps.drop_first();
        match steps[0] {
            TrackerStep::Claim { address, size } => {
                let block = set_int_range(address, address + size);
                let free1 = free.difference(block);
                let held1 = held + block;
                lemma_int_range(address, address + size);
                vstd::set_lib::lemma_set_subset_finite(free, free1);
                vstd::set_lib::lemma_set_union_finite_iff(held, block);
                assert forall|x: int| free1.contains(x) implies !held1.contains(x) by {}
                assert(free1 + held1 =~= free + held);
                lemma_set_disjoint_lens(free, held);
                lemma_set_disjoint_lens(free1, held1);
                lemma_run_conserves(free1, held1, rest);
            },
            TrackerStep::Return { address, size } => {
                let block = set_int_range(address, address + size);
                let free1 = free + block;
                let held1 = held.difference(block);
                lemma_int_range(address, address + size);
                vstd::set_lib::lemma_set_subset_finite(held, held1);
                vstd::set_lib::lemma_set_union_finite_iff(free, block);
                assert forall|x: int| free1.contains(x) implies !held1.contains(x) by {}
                assert(free1 + held1 =~= free + held);
                lemma_set_disjoint_lens(free, held);
                lemma_set_disjoint_lens(free1, held1);
                lemma_run_conserves(free1, held1, rest);
            },
        }
    }
}

/// A block allocated from a free set that holds no address below `cut`
/// starts at or above `cut`: after the low-memory carve-out, no allocation
/// can return a reserved address.
pub proof fn lemma_allocation_above_cut(free: Set<int>, a: int, size: u64, cut: int)
    requires
        size >= 1,
        block_free(free, a, size),
        forall|x: int| free.contains(x) ==> x >= cut,
    ensures
        a >= cut,
{
    assert(set_int_range(a, a + size).contains(a));
}

} // verus!

