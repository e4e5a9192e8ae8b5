//! Medium allocations: which spans of slices are registered, and which are free to be used.

use vstd::prelude::*;

use crate::allocator::classes::{MEDIUM_REGION_SIZE, MEDIUM_REGION_SLICE_COUNT, MEDIUM_SLICE_SIZE};
use crate::allocator::domains::{lemma_changed_region, lemma_region_at, DomainState};
use crate::allocator::region::{no_allocation, MediumAllocation, PhysicalSlice, PhysicalSliceKind, Region, SpanOwner};
use crate::allocator::slices::span;

verus! {

/// Whether two runs of slices share none.
pub open spec fn runs_apart(left: int, left_count: int, right: int, right_count: int) -> bool {
    left + left_count <= right || right + right_count <= left
}

impl Region {
    /// Whether a medium allocation starts at the slice.
    pub open spec fn is_registered(&self, slice: int) -> bool {
        0 <= slice < MEDIUM_REGION_SLICE_COUNT && self.allocations@[slice].owner.heap != 0
    }

    /// The length in slices of the medium allocation that starts at the slice.
    pub open spec fn length(&self, slice: int) -> int {
        self.allocations@[slice].usable_bytes as int / (MEDIUM_SLICE_SIZE as int)
    }

    /// Whether no medium allocation shares a slice with the run.
    pub open spec fn clear_of(&self, slice: int, count: int) -> bool {
        forall|other: int| #[trigger] self.is_registered(other) ==> runs_apart(slice, count, other, self.length(other))
    }

    /// Medium allocations are in use, and no two of them share a slice.
    pub open spec fn spans_ok(&self) -> bool {
        &&& forall|slice: int| #[trigger] self.is_registered(slice) ==> self.registered_ok(slice)
        &&& forall|left: int, right: int|
            #![trigger self.is_registered(left), self.is_registered(right)]
            left < right && self.is_registered(left) && self.is_registered(right) ==> left + self.length(left) <= right
    }

    pub open spec fn registered_ok(&self, slice: int) -> bool {
        &&& 1 <= self.length(slice)
        &&& self.allocations@[slice].usable_bytes == self.length(slice) * MEDIUM_SLICE_SIZE
        &&& slice + self.length(slice) <= MEDIUM_REGION_SLICE_COUNT
        &&& span(slice, self.length(slice)).subset_of(self.in_use())
    }
}

/// Medium allocations stay as they are while their slices stay in use.
pub proof fn lemma_spans_kept(before: &Region, after: &Region)
    requires
        before.spans_ok(),
        after.allocations == before.allocations,
        forall|slice: int, other: int|
            #![trigger after.in_use().contains(slice), before.is_registered(other)]
            before.is_registered(other) && span(other, before.length(other)).contains(slice) ==> after.in_use().contains(slice),
    ensures
        after.spans_ok(),
{
    assert forall|slice: int| #[trigger] after.is_registered(slice) implies after.registered_ok(slice) by {
        assert(before.is_registered(slice));
        assert(before.registered_ok(slice));
        assert(after.length(slice) == before.length(slice));
        assert forall|at: int| span(slice, after.length(slice)).contains(at) implies after.in_use().contains(at) by {
            assert(before.is_registered(slice));
        }
    }
    assert forall|left: int, right: int|
        #![trigger after.is_registered(left), after.is_registered(right)]
        left < right && after.is_registered(left) && after.is_registered(right) implies left + after.length(left) <= right by {
        assert(before.is_registered(left) && before.is_registered(right));
    }
}

/// Taking slices out of use that no medium allocation has keeps the medium allocations.
pub proof fn lemma_spans_shrunk(before: &Region, after: &Region, slice: int, count: int)
    requires
        before.spans_ok(),
        before.clear_of(slice, count),
        after.allocations == before.allocations,
        forall|at: int|
            #![trigger after.in_use().contains(at)]
            before.in_use().contains(at) && !span(slice, count).contains(at) ==> after.in_use().contains(at),
    ensures
        after.spans_ok(),
{
    assert forall|at: int, other: int|
        #![trigger after.in_use().contains(at), before.is_registered(other)]
        before.is_registered(other) && span(other, before.length(other)).contains(at) implies after.in_use().contains(at) by {
        assert(before.registered_ok(other));
        assert(before.in_use().contains(at));
        assert(runs_apart(slice, count, other, before.length(other)));
    }
    lemma_spans_kept(before, after);
}

/// A run that is not in use, or that was kept, has no medium allocation.
pub proof fn lemma_clear(region: &Region, slice: int, count: int)
    requires
        region.spans_ok(),
        0 < count,
        forall|at: int| span(slice, count).contains(at) ==> !#[trigger] region.in_use().contains(at),
    ensures
        region.clear_of(slice, count),
{
    assert forall|other: int| #[trigger] region.is_registered(other) implies runs_apart(slice, count, other, region.length(other)) by {
        assert(region.registered_ok(other));
        let length = region.length(other);
        if !runs_apart(slice, count, other, length) {
            let shared = if slice < other {
                other
            } else {
                slice
            };
            assert(span(other, length).contains(shared));
            assert(span(slice, count).contains(shared));
            assert(region.in_use().contains(shared));
        }
    }
}

impl DomainState {
    pub open spec fn spans_ok(&self) -> bool {
        forall|index: int| 0 <= index < self.regions@.len() ==> (#[trigger] self.regions@[index]).spans_ok()
    }

    /// Whether `slices` slices from `address` on lie in one region and are in use.
    pub open spec fn used_span(&self, address: int, slices: int) -> bool {
        self.region_at(address) matches Some(index) && {
            let region = self.regions@[index];
            &&& 0 < slices
            &&& (address - region.base) % (MEDIUM_SLICE_SIZE as int) == 0
            &&& region.slice_of(address) + slices <= MEDIUM_REGION_SLICE_COUNT
            &&& span(region.slice_of(address), slices).subset_of(region.in_use())
        }
    }

    /// Whether no medium allocation lies in the span.
    pub open spec fn clear_span(&self, address: int, slices: int) -> bool {
        self.region_at(address) matches Some(index) && self.regions@[index].clear_of(
            self.regions@[index].slice_of(address),
            slices,
        )
    }

    /// The medium allocation at an address that lies in a region of the domain.
    pub open spec fn medium_at(&self, address: int) -> MediumAllocation {
        let region = self.regions@[self.region_at(address)->0];
        region.allocations@[region.slice_of(address)]
    }

    /// Whether `address` is a medium allocation of `slices` slices.
    pub open spec fn medium_live(&self, address: int, slices: int) -> bool {
        &&& self.region_at(address) is Some
        &&& ({
            let region = self.regions@[self.region_at(address)->0];
            &&& (address - region.base) % (MEDIUM_SLICE_SIZE as int) == 0
            &&& region.is_registered(region.slice_of(address))
            &&& region.length(region.slice_of(address)) == slices
        })
    }

    /// Whether the domains have the same regions, by where they start.
    pub open spec fn same_bases(&self, other: &DomainState) -> bool {
        &&& self.regions@.len() >= other.regions@.len()
        &&& forall|index: int|
            #![trigger self.regions@[index]]
            0 <= index < other.regions@.len() ==> self.regions@[index].base == other.regions@[index].base
    }
}

/// An address stays in its region while regions stay where they are.
pub proof fn lemma_same_region_at(before: &DomainState, after: &DomainState, address: int)
    requires
        before.wf(),
        after.wf(),
        after.same_bases(before),
        before.region_at(address) is Some,
    ensures
        after.region_at(address) == before.region_at(address),
{
    let index = before.region_at(address)->0;
    assert(0 <= index < before.regions@.len() && before.regions@[index].holds(address));
    assert(after.regions@[index].holds(address));
    lemma_region_at(after, address, index);
}

/// A slice of a region starts where it does.
pub proof fn lemma_slice_of(region: &Region, slice: int)
    requires
        region.wf(),
        0 <= slice < MEDIUM_REGION_SLICE_COUNT,
    ensures
        region.slice_of(region.address_of(slice)) == slice,
        region.holds(region.address_of(slice)),
        (region.address_of(slice) - region.base) % (MEDIUM_SLICE_SIZE as int) == 0,
        0 < region.address_of(slice) <= usize::MAX - MEDIUM_SLICE_SIZE,
{
    let size = MEDIUM_SLICE_SIZE as int;
    assert(region.address_of(slice) - region.base == slice * size);
    vstd::arithmetic::div_mod::lemma_div_multiples_vanish(slice, size);
    vstd::arithmetic::div_mod::lemma_mod_multiples_basic(slice, size);
    assert(slice * size == size * slice) by (nonlinear_arith);
    assert(0 <= slice * size <= (MEDIUM_REGION_SLICE_COUNT - 1) * size) by (nonlinear_arith)
        requires
            0 <= slice <= MEDIUM_REGION_SLICE_COUNT - 1,
            size == 65536,
    ;
}

impl DomainState {
    /// Registers the medium allocation that starts at `address`.
    pub fn register_medium(&mut self, address: usize, slices: usize, requested_bytes: usize, owner: SpanOwner)
        requires
            old(self).wf(),
            old(self).spans_ok(),
            old(self).used_span(address as int, slices as int),
            old(self).clear_span(address as int, slices as int),
            owner.heap != 0,
        ensures
            final(self).wf(),
            final(self).spans_ok(),
            ({
                let index = old(self).region_at(address as int)->0;
                let before = old(self).regions@[index];
                let after = final(self).regions@[index];
                let slice = before.slice_of(address as int);
                &&& 0 <= index < old(self).regions@.len()
                &&& final(self).same_but_region(old(self), index)
                &&& after.same_but_metadata(&before)
                &&& after.kept() == before.kept()
                &&& after.allocations@ == before.allocations@.update(
                    slice,
                    MediumAllocation { owner, requested_bytes, usable_bytes: (slices * MEDIUM_SLICE_SIZE) as usize },
                )
                &&& after.physical@ == before.physical@.update(
                    slice,
                    PhysicalSlice {
                        kind: PhysicalSliceKind::Medium,
                        span: slices,
                        owner: owner.heap,
                        ..before.physical@[slice]
                    },
                )
            }),
            final(self).medium_live(address as int, slices as int),
    {
        let ghost before = *self;
        let index: usize = self.find_region(address).unwrap();
        assert(self.regions@[index as int].wf());
        let slice: usize = self.regions[index].slice_index(address);
        self.regions[index].register_medium(slice, slices, requested_bytes, owner);
        proof {
            let old_region = before.regions@[index as int];
            let region = self.regions@[index as int];
            lemma_changed_region(&before, self, index as int);
            lemma_region_at(self, address as int, index as int);
            assert(old_region.spans_ok());
            assert(slices * MEDIUM_SLICE_SIZE <= MEDIUM_REGION_SIZE) by (nonlinear_arith)
                requires
                    slices <= MEDIUM_REGION_SLICE_COUNT,
                    MEDIUM_SLICE_SIZE == 65536,
                    MEDIUM_REGION_SLICE_COUNT == 16384,
                    MEDIUM_REGION_SIZE == 1073741824,
            ;
            assert(region.length(slice as int) == slices) by {
                vstd::arithmetic::div_mod::lemma_div_multiples_vanish(slices as int, MEDIUM_SLICE_SIZE as int);
                assert(slices * MEDIUM_SLICE_SIZE == MEDIUM_SLICE_SIZE * slices) by (nonlinear_arith);
            }
            lemma_registered(&old_region, &region, slice as int, slices as int);
            assert forall|at: int| 0 <= at < self.regions@.len() implies (#[trigger] self.regions@[at]).spans_ok() by {
                assert(before.regions@[at].spans_ok());
            }
        }
    }

    /// Takes the medium allocation that starts at `address` off the register.
    pub fn unregister_medium(&mut self, address: usize) -> (allocation: MediumAllocation)
        requires
            old(self).wf(),
            old(self).spans_ok(),
            old(self).region_at(address as int) is Some,
        ensures
            final(self).wf(),
            final(self).spans_ok(),
            allocation == old(self).medium_at(address as int),
            ({
                let index = old(self).region_at(address as int)->0;
                let before = old(self).regions@[index];
                let after = final(self).regions@[index];
                let slice = before.slice_of(address as int);
                &&& 0 <= index < old(self).regions@.len()
                &&& final(self).same_but_region(old(self), index)
                &&& after.same_but_metadata(&before)
                &&& after.kept() == before.kept()
                &&& after.allocations@ == before.allocations@.update(slice, no_allocation())
                &&& after.physical@ == before.physical@.update(slice, PhysicalSlice { owner: 0, ..before.physical@[slice] })
                &&& before.is_registered(slice) ==> after.clear_of(slice, before.length(slice))
                &&& forall|at: int, count: int| before.clear_of(at, count) ==> #[trigger] after.clear_of(at, count)
            }),
    {
        let ghost before = *self;
        let index: usize = self.find_region(address).unwrap();
        assert(self.regions@[index as int].wf());
        let slice: usize = self.regions[index].slice_index(address);
        let allocation = self.regions[index].unregister_medium(slice);
        proof {
            let old_region = before.regions@[index as int];
            let region = self.regions@[index as int];
            lemma_changed_region(&before, self, index as int);
            assert(old_region.spans_ok());
            lemma_unregistered(&old_region, &region, slice as int);
            assert forall|at: int| 0 <= at < self.regions@.len() implies (#[trigger] self.regions@[at]).spans_ok() by {
                assert(before.regions@[at].spans_ok());
            }
        }
        allocation
    }
}

proof fn lemma_registered(before: &Region, after: &Region, slice: int, count: int)
    requires
        before.spans_ok(),
        after.same_but_metadata(before),
        after.kept() == before.kept(),
        0 <= slice,
        1 <= count,
        slice + count <= MEDIUM_REGION_SLICE_COUNT,
        before.clear_of(slice, count),
        before.allocations@.len() == MEDIUM_REGION_SLICE_COUNT,
        span(slice, count).subset_of(before.in_use()),
        after.allocations@ == before.allocations@.update(slice, after.allocations@[slice]),
        after.length(slice) == count,
        after.allocations@[slice].usable_bytes == count * MEDIUM_SLICE_SIZE,
    ensures
        after.spans_ok(),
{
    assert(after.in_use() =~= before.in_use());
    assert forall|at: int| at != slice implies #[trigger] after.is_registered(at) == before.is_registered(at) && (before.is_registered(at)
        ==> after.length(at) == before.length(at)) by {}
    assert forall|at: int| #[trigger] after.is_registered(at) implies after.registered_ok(at) by {
        if at != slice {
            assert(before.is_registered(at));
            assert(before.registered_ok(at));
        }
    }
    assert forall|left: int, right: int|
        #![trigger after.is_registered(left), after.is_registered(right)]
        left < right && after.is_registered(left) && after.is_registered(right) implies left + after.length(left) <= right by {
        if left != slice && right != slice {
            assert(before.is_registered(left) && before.is_registered(right));
        } else if left == slice {
            assert(before.is_registered(right));
            assert(before.registered_ok(right));
            assert(runs_apart(slice, count, right, before.length(right)));
        } else {
            assert(before.is_registered(left));
            assert(before.registered_ok(left));
            assert(runs_apart(slice, count, left, before.length(left)));
        }
    }
}

proof fn lemma_unregistered(before: &Region, after: &Region, slice: int)
    requires
        before.spans_ok(),
        after.same_but_metadata(before),
        after.kept() == before.kept(),
        before.allocations@.len() == MEDIUM_REGION_SLICE_COUNT,
        0 <= slice < MEDIUM_REGION_SLICE_COUNT,
        after.allocations@ == before.allocations@.update(slice, no_allocation()),
    ensures
        after.spans_ok(),
        before.is_registered(slice) ==> after.clear_of(slice, before.length(slice)),
        forall|at: int, count: int| before.clear_of(at, count) ==> #[trigger] after.clear_of(at, count),
{
    assert(after.in_use() =~= before.in_use());
    assert forall|at: int| #[trigger] after.is_registered(at) implies before.is_registered(at) && at != slice && after.length(at)
        == before.length(at) && after.registered_ok(at) by {
        assert(before.is_registered(at));
        assert(before.registered_ok(at));
    }
    assert forall|left: int, right: int|
        #![trigger after.is_registered(left), after.is_registered(right)]
        left < right && after.is_registered(left) && after.is_registered(right) implies left + after.length(left) <= right by {
        assert(before.is_registered(left) && before.is_registered(right));
    }
    if before.is_registered(slice) {
        assert forall|other: int| #[trigger] after.is_registered(other) implies runs_apart(
            slice,
            before.length(slice),
            other,
            after.length(other),
        ) by {
            assert(before.is_registered(other));
            assert(before.is_registered(slice));
        }
    }
    assert forall|at: int, count: int| before.clear_of(at, count) implies #[trigger] after.clear_of(at, count) by {
        assert forall|other: int| #[trigger] after.is_registered(other) implies runs_apart(at, count, other, after.length(other)) by {
            assert(before.is_registered(other));
        }
    }
}

} // verus!
