//! Frame-allocator capability.
//!
//! The paging layer requests and returns physical frames through this
//! narrow interface, without knowing the backing store's representation.
//! The tracker is the only implementation at present; the separation is
//! the extension point for a future allocator.

use vstd::prelude::*;

verus! {

use vstd::set_lib::set_int_range;
use crate::PAGE_SIZE;
use crate::addr::PhysicalAddress;
use crate::addr::PhysicalFrame;
use crate::tracker::RangeSet;
use crate::tracker::Range;
use crate::tracker::block_free;
use crate::tracker::can_allocate;

/// The byte addresses of one physical frame.
pub open spec fn frame_addresses(frame: u64) -> Set<int> {
    set_int_range(frame * PAGE_SIZE, frame * PAGE_SIZE + PAGE_SIZE)
}

/// The whole frame lies within the address space.
pub open spec fn frame_in_bounds(frame: u64) -> bool {
    frame * PAGE_SIZE + PAGE_SIZE - 1 <= u64::MAX
}

/// Every free address fits the architecture's 52-bit physical space, so
/// every allocated frame index fits an entry's 40-bit frame field.
pub open spec fn free_bounded(free: Set<int>) -> bool {
    forall|x: int| free.contains(x) ==> 0 <= x < 0x10_0000_0000_0000
}

/// The byte addresses of all the listed frames together.
pub open spec fn frames_addresses(frames: Seq<u64>) -> Set<int> {
    Set::new(
        |a: int|
            exists|i: int|
                0 <= i < frames.len() && #[trigger] frame_addresses(frames[i]).contains(a),
    )
}

/// No frame, no bytes.
pub proof fn lemma_frames_addresses_empty()
    ensures
        frames_addresses(Seq::<u64>::empty()) == Set::<int>::empty(),
{
    assert(frames_addresses(Seq::<u64>::empty()) =~= Set::<int>::empty());
}

/// One more frame contributes exactly its own bytes.
pub proof fn lemma_frames_addresses_push(frames: Seq<u64>, fr: u64)
    ensures
        frames_addresses(frames.push(fr)) == frames_addresses(frames) + frame_addresses(fr),
{
    assert forall|a: int| frames_addresses(frames.push(fr)).contains(a) implies (frames_addresses(
        frames,
    ) + frame_addresses(fr)).contains(a) by {
        let i = choose|i: int|
            0 <= i < frames.push(fr).len() && #[trigger] frame_addresses(
                frames.push(fr)[i],
            ).contains(a);
        if i < frames.len() {
            assert(frame_addresses(frames[i]).contains(a));
        }
    }
    assert forall|a: int| (frames_addresses(frames) + frame_addresses(fr)).contains(a)
        implies frames_addresses(frames.push(fr)).contains(a) by {
        if frames_addresses(frames).contains(a) {
            let i = choose|i: int|
                0 <= i < frames.len() && #[trigger] frame_addresses(frames[i]).contains(a);
            assert(frame_addresses(frames.push(fr)[i]).contains(a));
        } else {
            assert(frame_addresses(frames.push(fr)[frames.len() as int]).contains(a));
        }
    }
    assert(frames_addresses(frames.push(fr)) =~= frames_addresses(frames) + frame_addresses(fr));
}

impl RangeSet {
    /// Requests one page-sized, page-aligned frame from the tracker: the
    /// lowest-addressed free page, exactly what `allocate` with the page
    /// size and alignment carves out, named by its frame index. Succeeds
    /// exactly when some aligned page of free bytes exists; the tracker is
    /// otherwise unchanged.
    pub fn allocate_frame(&mut self) -> (r: Option<PhysicalFrame>)
        requires
            old(self).wf(),
        ensures
            final(self).wf(),
            (r is Some) <==> can_allocate(old(self).free(), PAGE_SIZE, PAGE_SIZE),
            (r matches Some(f) ==> {
                &&& frame_in_bounds(f.0)
                &&& frame_addresses(f.0).subset_of(old(self).free())
                &&& final(self).free() == old(self).free().difference(frame_addresses(f.0))
                &&& forall|b: int|
                    0 <= b < f.0 * PAGE_SIZE && b % PAGE_SIZE as int == 0 ==> !(
                    #[trigger] block_free(old(self).free(), b, PAGE_SIZE))
            }),
            r is None ==> final(self).free() == old(self).free(),
    {
        let address = match self.allocate(PAGE_SIZE, PAGE_SIZE) {
            Some(address) => address,
            None => {
                return None;
            },
        };
        proof {
            // The returned address is page-aligned, so it is exactly the
            // frame's base.
            vstd::arithmetic::div_mod::lemma_fundamental_div_mod(address as int, PAGE_SIZE as int);
        }
        let address = PhysicalAddress(address);
        let frame = PhysicalFrame::containing_address(address);
        proof {
            assert(frame.0 * PAGE_SIZE == address.0);
            assert(frame_addresses(frame.0) =~= set_int_range(
                address.0 as int,
                address.0 + PAGE_SIZE,
            ));
        }
        Some(frame)
    }
}

/// Capability to request and return page-sized, page-aligned units of
/// physical memory. The model of a store is the set of byte addresses it
/// still holds free.
pub trait FrameAllocator {
    /// The backing store's internal invariant.
    spec fn inv(&self) -> bool;

    /// The byte addresses the store still holds free.
    spec fn free_set(&self) -> Set<int>;

    /// Requests one page-sized, page-aligned frame. Succeeds exactly when
    /// some aligned page of free bytes exists; the frame's bytes leave the
    /// free set, so no frame is handed out twice without being returned in
    /// between.
    fn allocate_frame(&mut self) -> (r: Option<PhysicalFrame>)
        requires
            old(self).inv(),
        ensures
            final(self).inv(),
            (r is Some) <==> can_allocate(old(self).free_set(), PAGE_SIZE, PAGE_SIZE),
            (r matches Some(f) ==> {
                &&& frame_in_bounds(f.0)
                &&& frame_addresses(f.0).subset_of(old(self).free_set())
                &&& final(self).free_set() == old(self).free_set().difference(
                    frame_addresses(f.0),
                )
            }),
            r is None ==> final(self).free_set() == old(self).free_set(),
    ;

    /// Returns one frame: its exact byte range becomes free again. Fails
    /// exactly when the frame's end would overflow the address space.
    fn deallocate_frame(&mut self, frame: PhysicalFrame) -> (r: Option<()>)
        requires
            old(self).inv(),
        ensures
            final(self).inv(),
            (r is Some) <==> frame_in_bounds(frame.0),
            r is Some ==> final(self).free_set() == old(self).free_set() + frame_addresses(
                frame.0,
            ),
            r is None ==> final(self).free_set() == old(self).free_set(),
    ;
}

impl FrameAllocator for RangeSet {
    open spec fn inv(&self) -> bool {
        self.wf()
    }

    open spec fn free_set(&self) -> Set<int> {
        self.free()
    }

    fn allocate_frame(&mut self) -> (r: Option<PhysicalFrame>) {
        // The inherent method carries the tracker's full contract,
        // lowest-fit included; the capability view keeps only what every
        // backing store promises.
        RangeSet::allocate_frame(self)
    }

    fn deallocate_frame(&mut self, frame: PhysicalFrame) -> (r: Option<()>) {
        let start = match frame.0.checked_mul(PAGE_SIZE) {
            Some(start) => start,
            None => {
                return None;
            },
        };
        let end = match start.checked_add(PAGE_SIZE - 1) {
            Some(end) => end,
            None => {
                return None;
            },
        };
        self.insert(Range { start, end });
        proof {
            assert(crate::tracker::addresses_in(start, end) =~= frame_addresses(frame.0));
        }
        Some(())
    }
}

/// No two live frames coincide: a frame whose bytes are not free (one
/// handed out and not yet returned) cannot be the result of an allocation,
/// because an allocation's bytes all come from the free set.
pub proof fn lemma_live_frames_distinct(free: Set<int>, f1: u64, f2: u64)
    requires
        free.disjoint(frame_addresses(f1)),
        frame_addresses(f2).subset_of(free),
    ensures
        f1 != f2,
{
    assert(frame_addresses(f2).contains(f2 * PAGE_SIZE));
}

/// Two consecutive allocations return distinct frames: the first frame's
/// bytes leave the free set, and the second allocation draws only on what
/// is still free.
pub proof fn lemma_allocated_frames_distinct(
    free0: Set<int>,
    free1: Set<int>,
    f1: u64,
    f2: u64,
)
    requires
        frame_addresses(f1).subset_of(free0),
        free1 == free0.difference(frame_addresses(f1)),
        frame_addresses(f2).subset_of(free1),
    ensures
        f1 != f2,
{
    assert(free1.disjoint(frame_addresses(f1)));
    lemma_live_frames_distinct(free1, f1, f2);
}

} // verus!
