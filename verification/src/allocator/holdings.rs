//! What the slices of a domain are held for: medium allocations, and everything else that is in
//! use.

use vstd::prelude::*;

use crate::allocator::classes::{
    medium_slice_count, medium_slices, MEDIUM_MAX_SLICES, MEDIUM_REGION_SIZE, MEDIUM_REGION_SLICE_COUNT,
    MEDIUM_SLICE_SIZE,
};
use crate::allocator::domains::{
    apart, first_keeping, first_open, kept_slice, kept_taken, lemma_changed_region, lemma_region_at,
    DomainState, PurgeSpan,
};
use crate::allocator::heaps::{allocated, released};
use crate::allocator::layout::Layout;
use crate::allocator::region::{lemma_kept_is_used, lemma_same_kept, valid_base, MediumAllocation, Region, SpanOwner};
use crate::allocator::slices::{next_run, span};
use crate::allocator::spans::{
    lemma_clear, lemma_same_region_at, lemma_slice_of, lemma_spans_kept, lemma_spans_shrunk, runs_apart,
};

verus! {

/// Whether two spans share no address.
pub open spec fn spans_apart(left: int, left_slices: int, right: int, right_slices: int) -> bool {
    left + left_slices * MEDIUM_SLICE_SIZE <= right || right + right_slices * MEDIUM_SLICE_SIZE <= left
}

impl DomainState {
    /// Whether the span is in use, and by no medium allocation.
    pub open spec fn idle_span(&self, address: int, slices: int) -> bool {
        self.used_span(address, slices) && self.clear_span(address, slices)
    }

    /// Every span that is in use by no medium allocation in `other`, and lies apart from the
    /// given one, is so here.
    pub open spec fn keeps_idle_but(&self, other: &DomainState, address: int, slices: int) -> bool {
        forall|a: int, s: int|
            #![trigger self.idle_span(a, s)]
            #![trigger other.idle_span(a, s)]
            other.idle_span(a, s) && spans_apart(a, s, address, slices) ==> self.idle_span(a, s)
    }

    /// Every medium allocation of `other` that lies apart from the given span is one here.
    pub open spec fn keeps_live_but(&self, other: &DomainState, address: int, slices: int) -> bool {
        forall|a: int, s: int|
            #![trigger self.medium_live(a, s)]
            #![trigger other.medium_live(a, s)]
            other.medium_live(a, s) && s > 0 && spans_apart(a, s, address, slices) ==> self.medium_live(a, s) && self.medium_at(a)
                == other.medium_at(a)
    }

    /// The span shares nothing with what is in use in `self`.
    pub open spec fn unused_span(&self, address: int, slices: int) -> bool {
        &&& forall|a: int, s: int| #[trigger] self.idle_span(a, s) ==> spans_apart(a, s, address, slices)
        &&& forall|a: int, s: int| #[trigger] self.medium_live(a, s) ==> spans_apart(a, s, address, slices)
    }
}

/// How a region changes where only `count` slices from `slice` on go out of use or become a
/// medium allocation.
pub open spec fn region_frame(before: &Region, after: &Region, slice: int, count: int) -> bool {
    &&& after.base == before.base
    &&& forall|at: int|
        #![trigger after.in_use().contains(at)]
        before.in_use().contains(at) && !(slice <= at < slice + count) ==> after.in_use().contains(at)
    &&& forall|other: int|
        #[trigger] after.is_registered(other) ==> (before.is_registered(other) && after.allocations@[other] == before.allocations@[other])
            || (other == slice && after.length(other) == count)
    &&& forall|other: int|
        #[trigger] before.is_registered(other) ==> other == slice || (after.is_registered(other) && after.allocations@[other]
            == before.allocations@[other])
}

pub open spec fn domain_frame(before: &DomainState, after: &DomainState, index: int, slice: int, count: int) -> bool {
    &&& after.same_bases(before)
    &&& forall|at: int|
        #![trigger after.regions@[at]]
        0 <= at < before.regions@.len() && at != index ==> region_frame(&before.regions@[at], &after.regions@[at], -1, 0)
    &&& 0 <= index < before.regions@.len() ==> region_frame(&before.regions@[index], &after.regions@[index], slice, count)
}

/// Spans of one region lie apart where their slices do.
pub proof fn lemma_apart_in(region: &Region, address: int, slices: int, slice: int, count: int)
    requires
        region.wf(),
        region.holds(address),
        (address - region.base) % (MEDIUM_SLICE_SIZE as int) == 0,
        0 <= slice,
    ensures
        spans_apart(address, slices, region.address_of(slice), count) <==> runs_apart(region.slice_of(address), slices, slice, count),
        address == region.address_of(region.slice_of(address)),
        0 <= region.slice_of(address) < MEDIUM_REGION_SLICE_COUNT,
{
    let size = MEDIUM_SLICE_SIZE as int;
    let at = region.slice_of(address);
    vstd::arithmetic::div_mod::lemma_fundamental_div_mod(address - region.base, size);
    assert(address == region.base + at * size) by {
        assert(size * at == at * size) by (nonlinear_arith);
    }
    vstd::arithmetic::div_mod::lemma_div_pos_is_pos(address - region.base, size);
    assert(at < MEDIUM_REGION_SLICE_COUNT) by (nonlinear_arith)
        requires
            at * size < MEDIUM_REGION_SIZE,
            size == 65536,
            MEDIUM_REGION_SIZE == 1073741824,
            MEDIUM_REGION_SLICE_COUNT == 16384,
    ;
    assert((at * size + slices * size <= slice * size) <==> at + slices <= slice) by (nonlinear_arith)
        requires
            size == 65536,
    ;
    assert((slice * size + count * size <= at * size) <==> slice + count <= at) by (nonlinear_arith)
        requires
            size == 65536,
    ;
}

/// Spans of different regions lie apart.
pub proof fn lemma_apart_regions(left: &Region, right: &Region, address: int, slices: int, slice: int, count: int)
    requires
        left.wf(),
        right.wf(),
        apart(left.base as int, right.base as int),
        left.holds(address),
        (address - left.base) % (MEDIUM_SLICE_SIZE as int) == 0,
        0 < slices,
        left.slice_of(address) + slices <= MEDIUM_REGION_SLICE_COUNT,
        0 <= slice,
        0 <= count,
        slice + count <= MEDIUM_REGION_SLICE_COUNT,
    ensures
        spans_apart(address, slices, right.address_of(slice), count),
{
    lemma_apart_in(left, address, slices, 0, 0);
    let size = MEDIUM_SLICE_SIZE as int;
    let at = left.slice_of(address);
    assert(at * size + slices * size <= MEDIUM_REGION_SIZE) by (nonlinear_arith)
        requires
            at + slices <= MEDIUM_REGION_SLICE_COUNT,
            size == 65536,
            MEDIUM_REGION_SIZE == 1073741824,
            MEDIUM_REGION_SLICE_COUNT == 16384,
    ;
    assert(0 <= slice * size && slice * size + count * size <= MEDIUM_REGION_SIZE) by (nonlinear_arith)
        requires
            0 <= slice,
            0 <= count,
            slice + count <= MEDIUM_REGION_SLICE_COUNT,
            size == 65536,
            MEDIUM_REGION_SIZE == 1073741824,
            MEDIUM_REGION_SLICE_COUNT == 16384,
    ;
    assert(0 <= at * size && 0 <= slices * size) by (nonlinear_arith)
        requires
            0 <= at,
            0 < slices,
            size == 65536,
    ;
}

/// What a change of one span leaves of the other spans. An index that no region has stands for
/// no span at all.
pub proof fn lemma_frame(before: &DomainState, after: &DomainState, index: int, slice: int, count: int)
    requires
        before.wf(),
        after.wf(),
        domain_frame(before, after, index, slice, count),
        0 <= index < before.regions@.len() ==> 0 <= slice && 0 < count && slice + count <= MEDIUM_REGION_SLICE_COUNT,
    ensures
        0 <= index < before.regions@.len() ==> after.keeps_idle_but(
            before,
            before.regions@[index].address_of(slice),
            count,
        ) && after.keeps_live_but(before, before.regions@[index].address_of(slice), count),
        !(0 <= index < before.regions@.len()) ==> (forall|a: int, s: int|
            #![trigger after.idle_span(a, s)]
            #![trigger before.idle_span(a, s)]
            before.idle_span(a, s) ==> after.idle_span(a, s)) && (forall|a: int, s: int|
            #![trigger after.medium_live(a, s)]
            #![trigger before.medium_live(a, s)]
            before.medium_live(a, s) ==> after.medium_live(a, s) && after.medium_at(a) == before.medium_at(a)),
{
    assert forall|a: int, s: int|
        #![trigger after.idle_span(a, s)]
        #![trigger before.idle_span(a, s)]
        before.idle_span(a, s) && (0 <= index < before.regions@.len() ==> spans_apart(
            a,
            s,
            before.regions@[index].address_of(slice),
            count,
        )) implies after.idle_span(a, s) by {
        let at = before.region_at(a)->0;
        assert(0 <= at < before.regions@.len() && before.regions@[at].holds(a));
        lemma_same_region_at(before, after, a);
        let left = before.regions@[at];
        let right = after.regions@[at];
        assert(left.wf() && right.wf());
        let start = left.slice_of(a);
        let (lo, n) = if at == index {
            (slice, count)
        } else {
            (-1int, 0int)
        };
        assert(region_frame(&left, &right, lo, n));
        if at == index {
            lemma_apart_in(&left, a, s, lo, n);
            assert(runs_apart(start, s, lo, n));
        }
        lemma_apart_in(&left, a, s, 0, 0);
        assert forall|x: int| span(start, s).contains(x) implies right.in_use().contains(x) by {
            assert(left.in_use().contains(x));
        }
        assert forall|other: int| #[trigger] right.is_registered(other) implies runs_apart(start, s, other, right.length(other)) by {
            if left.is_registered(other) && right.allocations@[other] == left.allocations@[other] {
                assert(runs_apart(start, s, other, left.length(other)));
            }
        }
    }
    assert forall|a: int, s: int|
        #![trigger after.medium_live(a, s)]
        #![trigger before.medium_live(a, s)]
        before.medium_live(a, s) && (0 <= index < before.regions@.len() ==> s <= 0 || spans_apart(
            a,
            s,
            before.regions@[index].address_of(slice),
            count,
        )) && s > 0 implies after.medium_live(a, s) && after.medium_at(a) == before.medium_at(a) by {
        lemma_live_kept(before, after, index, slice, count, a, s);
    }
    assert forall|a: int, s: int|
        #![trigger after.medium_live(a, s)]
        #![trigger before.medium_live(a, s)]
        before.medium_live(a, s) && s <= 0 && !(0 <= index < before.regions@.len()) implies after.medium_live(a, s) && after.medium_at(
        a,
    ) == before.medium_at(a) by {
        lemma_live_kept(before, after, index, slice, count, a, s);
    }
}

proof fn lemma_live_kept(before: &DomainState, after: &DomainState, index: int, slice: int, count: int, a: int, s: int)
    requires
        before.wf(),
        after.wf(),
        domain_frame(before, after, index, slice, count),
        0 <= index < before.regions@.len() ==> 0 <= slice && 0 < count && slice + count <= MEDIUM_REGION_SLICE_COUNT && s > 0
            && spans_apart(a, s, before.regions@[index].address_of(slice), count),
        before.medium_live(a, s),
    ensures
        after.medium_live(a, s),
        after.medium_at(a) == before.medium_at(a),
{
    let at = before.region_at(a)->0;
    assert(0 <= at < before.regions@.len() && before.regions@[at].holds(a));
    lemma_same_region_at(before, after, a);
    let left = before.regions@[at];
    let right = after.regions@[at];
    assert(left.wf() && right.wf());
    lemma_apart_in(&left, a, s, 0, 0);
    let q = left.slice_of(a);
    assert(left.is_registered(q));
    if at == index {
        lemma_apart_in(&left, a, s, slice, count);
        assert(q != slice);
        assert(region_frame(&left, &right, slice, count));
    } else {
        assert(region_frame(&left, &right, -1, 0));
    }
}

/// A run of slices that is not in use shares nothing with what is in use.
proof fn lemma_unused(domain: &DomainState, index: int, slice: int, count: int)
    requires
        domain.wf(),
        domain.spans_ok(),
        0 <= index < domain.regions@.len(),
        0 <= slice,
        0 < count,
        slice + count <= MEDIUM_REGION_SLICE_COUNT,
        forall|at: int| slice <= at < slice + count ==> !#[trigger] domain.regions@[index].in_use().contains(at),
    ensures
        domain.unused_span(domain.regions@[index].address_of(slice), count),
{
    let region = domain.regions@[index];
    assert(region.wf());
    assert forall|a: int, s: int| #[trigger] domain.idle_span(a, s) implies spans_apart(a, s, region.address_of(slice), count) by {
        let at = domain.region_at(a)->0;
        assert(0 <= at < domain.regions@.len() && domain.regions@[at].holds(a));
        let other = domain.regions@[at];
        assert(other.wf());
        lemma_apart_in(&other, a, s, slice, count);
        let start = other.slice_of(a);
        if at == index {
            if !runs_apart(start, s, slice, count) {
                let shared = if start < slice {
                    slice
                } else {
                    start
                };
                assert(span(start, s).contains(shared));
                assert(other.in_use().contains(shared));
            }
        } else {
            lemma_regions_apart(domain, at, index);
            lemma_apart_regions(&other, &region, a, s, slice, count);
        }
    }
    assert forall|a: int, s: int| #[trigger] domain.medium_live(a, s) implies spans_apart(a, s, region.address_of(slice), count) by {
        let at = domain.region_at(a)->0;
        assert(0 <= at < domain.regions@.len() && domain.regions@[at].holds(a));
        let other = domain.regions@[at];
        assert(other.wf());
        assert(other.spans_ok());
        lemma_apart_in(&other, a, s, slice, count);
        let start = other.slice_of(a);
        assert(other.is_registered(start));
        assert(other.registered_ok(start));
        if at == index {
            if !runs_apart(start, s, slice, count) {
                let shared = if start < slice {
                    slice
                } else {
                    start
                };
                assert(span(start, s).contains(shared));
                assert(other.in_use().contains(shared));
            }
        } else {
            lemma_regions_apart(domain, at, index);
            lemma_apart_regions(&other, &region, a, s, slice, count);
        }
    }
}

proof fn lemma_regions_apart(domain: &DomainState, left: int, right: int)
    requires
        domain.wf(),
        0 <= left < domain.regions@.len(),
        0 <= right < domain.regions@.len(),
        left != right,
    ensures
        apart(domain.regions@[left].base as int, domain.regions@[right].base as int),
{
    if left < right {
        assert(apart(domain.regions@[left].base as int, domain.regions@[right].base as int));
    } else {
        assert(apart(domain.regions@[right].base as int, domain.regions@[left].base as int));
    }
}

/// A span of a region is idle where its slices are in use and have no medium allocation.
proof fn lemma_idle(domain: &DomainState, index: int, slice: int, count: int)
    requires
        domain.wf(),
        0 <= index < domain.regions@.len(),
        0 <= slice,
        0 < count,
        slice + count <= MEDIUM_REGION_SLICE_COUNT,
        span(slice, count).subset_of(domain.regions@[index].in_use()),
        domain.regions@[index].clear_of(slice, count),
    ensures
        domain.idle_span(domain.regions@[index].address_of(slice), count),
        0 < domain.regions@[index].address_of(slice),
        domain.regions@[index].address_of(slice) % (MEDIUM_SLICE_SIZE as int) == 0,
        domain.regions@[index].address_of(slice) + count * MEDIUM_SLICE_SIZE <= usize::MAX,
{
    let region = domain.regions@[index];
    assert(region.wf());
    lemma_slice_of(&region, slice);
    lemma_region_at(domain, region.address_of(slice), index);
    vstd::arithmetic::div_mod::lemma_mod_multiples_vanish(slice, region.base as int, MEDIUM_SLICE_SIZE as int);
    assert(slice * MEDIUM_SLICE_SIZE == MEDIUM_SLICE_SIZE * slice) by (nonlinear_arith);
    assert(slice * MEDIUM_SLICE_SIZE + count * MEDIUM_SLICE_SIZE <= MEDIUM_REGION_SIZE) by (nonlinear_arith)
        requires
            slice + count <= MEDIUM_REGION_SLICE_COUNT,
            MEDIUM_SLICE_SIZE == 65536,
            MEDIUM_REGION_SIZE == 1073741824,
            MEDIUM_REGION_SLICE_COUNT == 16384,
    ;
}

impl DomainState {
    /// What a fresh span of `slices` slices at `address` is to what was there before.
    pub open spec fn gained(&self, before: &DomainState, address: int, slices: int) -> bool {
        &&& self.spans_ok()
        &&& self.idle_span(address, slices)
        &&& before.unused_span(address, slices)
        &&& forall|a: int, s: int|
            #![trigger self.idle_span(a, s)]
            #![trigger before.idle_span(a, s)]
            before.idle_span(a, s) ==> self.idle_span(a, s)
        &&& forall|a: int, s: int|
            #![trigger self.medium_live(a, s)]
            #![trigger before.medium_live(a, s)]
            before.medium_live(a, s) ==> self.medium_live(a, s) && self.medium_at(a) == before.medium_at(a)
        &&& 0 < address
        &&& address % (MEDIUM_SLICE_SIZE as int) == 0
        &&& address + slices * MEDIUM_SLICE_SIZE <= usize::MAX
    }

    /// Takes `count` free slices in a row.
    pub fn take_slices(&mut self, count: usize, spare: Option<usize>) -> (result: Option<(usize, bool)>)
        requires
            old(self).wf(),
            old(self).spans_ok(),
            0 < count <= MEDIUM_REGION_SLICE_COUNT,
            spare matches Some(base) ==> valid_base(base as int) && forall|index: int|
                0 <= index < old(self).regions@.len() ==> apart((#[trigger] old(self).regions@[index]).base as int, base as int),
        ensures
            final(self).wf(),
            final(self).spans_ok(),
            final(self).id == old(self).id,
            final(self).is_default == old(self).is_default,
            match result {
                Some((address, appended)) => allocated(old(self), final(self), spare, count as int, address, appended)
                    && final(self).gained(old(self), address as int, count as int),
                None => first_open(old(self).regions@, 0, count as int) is None && spare is None && final(self).regions@
                    == old(self).regions@,
            },
    {
        let ghost before = *self;
        let result = self.allocate_slices(count, spare);
        proof {
            match result {
                Some((address, appended)) => {
                    lemma_taken(&before, self, spare, count as int, address, appended);
                },
                None => {
                    assert forall|at: int| 0 <= at < self.regions@.len() implies (#[trigger] self.regions@[at]).spans_ok() by {
                        assert(before.regions@[at].spans_ok());
                    }
                },
            }
        }
        result
    }
}

proof fn lemma_taken(before: &DomainState, after: &DomainState, spare: Option<usize>, count: int, address: usize, appended: bool)
    requires
        before.wf(),
        before.spans_ok(),
        after.wf(),
        0 < count <= MEDIUM_REGION_SLICE_COUNT,
        spare matches Some(base) ==> valid_base(base as int) && forall|index: int|
            0 <= index < before.regions@.len() ==> apart((#[trigger] before.regions@[index]).base as int, base as int),
        allocated(before, after, spare, count, address, appended),
    ensures
        after.gained(before, address as int, count),
{
    if appended {
        let last = before.regions@.len() as int;
        let region = after.regions@[last];
        assert(region.wf());
        assert(region.base == address);
        assert(forall|slice: int| !#[trigger] region.is_registered(slice));
        assert(region.in_use() =~= span(0, count));
        assert(region.spans_ok());
        assert(region.clear_of(0, count));
        assert forall|at: int| 0 <= at < after.regions@.len() implies (#[trigger] after.regions@[at]).spans_ok() by {
            if at < last {
                assert(before.regions@[at].spans_ok());
            }
        }
        assert(domain_frame(before, after, -1, 0, 0));
        lemma_frame(before, after, -1, 0, 0);
        lemma_idle(after, last, 0, count);
        assert(region.address_of(0) == address);
        assert forall|a: int, s: int| #[trigger] before.idle_span(a, s) implies spans_apart(a, s, address as int, count) by {
            let at = before.region_at(a)->0;
            assert(0 <= at < before.regions@.len() && before.regions@[at].holds(a));
            assert(before.regions@[at].wf());
            assert(apart(before.regions@[at].base as int, address as int));
            lemma_apart_regions(&before.regions@[at], &region, a, s, 0, count);
        }
        assert forall|a: int, s: int| #[trigger] before.medium_live(a, s) implies spans_apart(a, s, address as int, count) by {
            let at = before.region_at(a)->0;
            assert(0 <= at < before.regions@.len() && before.regions@[at].holds(a));
            let other = before.regions@[at];
            assert(other.wf() && other.spans_ok());
            lemma_apart_in(&other, a, s, 0, 0);
            assert(other.is_registered(other.slice_of(a)));
            assert(other.registered_ok(other.slice_of(a)));
            assert(apart(other.base as int, address as int));
            lemma_apart_regions(&other, &region, a, s, 0, count);
        }
    } else {
        let index = first_open(before.regions@, 0, count)->0;
        let left = before.regions@[index];
        let right = after.regions@[index];
        let run = next_run(left.used_set(), left.next_slice as int, count)->0;
        assert(left.wf() && right.wf() && left.spans_ok());
        lemma_same_kept(&left, &right);
        assert forall|at: int| run <= at < run + count implies !#[trigger] left.in_use().contains(at) by {
            assert(!left.used_set().contains(at));
        }
        lemma_unused(before, index, run, count);
        assert forall|at: int| left.in_use().contains(at) implies #[trigger] right.in_use().contains(at) by {}
        lemma_spans_kept(&left, &right);
        assert forall|at: int| 0 <= at < after.regions@.len() implies (#[trigger] after.regions@[at]).spans_ok() by {
            assert(before.regions@[at].spans_ok());
        }
        assert(domain_frame(before, after, -1, 0, 0));
        lemma_frame(before, after, -1, 0, 0);
        assert(span(run, count).subset_of(right.in_use())) by {
            assert forall|at: int| span(run, count).contains(at) implies right.in_use().contains(at) by {
                if right.kept().contains(at) {
                    lemma_kept_is_used(&left, at);
                }
            }
        }
        lemma_clear(&left, run, count);
        assert(right.clear_of(run, count)) by {
            assert forall|other: int| #[trigger] right.is_registered(other) implies runs_apart(run, count, other, right.length(other)) by {
                assert(left.is_registered(other));
            }
        }
        lemma_idle(after, index, run, count);
    }
}

/// Registered lengths are what they are registered with.
pub proof fn lemma_live_length(domain: &DomainState, address: int, slices: int)
    requires
        domain.wf(),
        domain.spans_ok(),
        domain.medium_live(address, slices),
    ensures
        0 < slices,
        domain.used_span(address, slices),
        domain.medium_at(address).usable_bytes == slices * MEDIUM_SLICE_SIZE,
        domain.medium_at(address).owner.heap != 0,
{
    let at = domain.region_at(address)->0;
    assert(0 <= at < domain.regions@.len() && domain.regions@[at].holds(address));
    let region = domain.regions@[at];
    assert(region.spans_ok());
    assert(region.is_registered(region.slice_of(address)));
    assert(region.registered_ok(region.slice_of(address)));
}

impl DomainState {
    /// Takes a kept span that serves a layout.
    pub fn reuse_span(&mut self, layout: Layout) -> (address: Option<usize>)
        requires
            old(self).wf(),
            old(self).spans_ok(),
            medium_slices(layout) is Some,
        ensures
            final(self).wf(),
            final(self).spans_ok(),
            match address {
                Some(address) => {
                    let slices = medium_slices(layout)->0 as int;
                    let index = first_keeping(old(self).regions@, 0, slices)->0;
                    let before = old(self).regions@[index];
                    let after = final(self).regions@[index];
                    let slice = kept_slice(before, slices);
                    &&& first_keeping(old(self).regions@, 0, slices) is Some
                    &&& 0 <= index < old(self).regions@.len()
                    &&& final(self).same_but_region(old(self), index)
                    &&& after.same_but_kept(&before)
                    &&& kept_taken(&before, &after, slices)
                    &&& after.kept() == before.kept().difference(span(slice, slices))
                    &&& address == before.address_of(slice)
                    &&& final(self).gained(old(self), address as int, slices)
                },
                None => first_keeping(old(self).regions@, 0, medium_slices(layout)->0 as int) is None
                    && final(self).same_but_region(old(self), -1),
            },
    {
        let ghost before = *self;
        let slices: usize = medium_slice_count(layout).unwrap();
        let result = self.take_kept(layout);
        proof {
            match result {
                Some(address) => {
                    let count = slices as int;
                    let index = first_keeping(before.regions@, 0, count)->0;
                    let left = before.regions@[index];
                    let right = self.regions@[index];
                    let slice = kept_slice(left, count);
                    assert(left.wf() && right.wf() && left.spans_ok());
                    assert(right.used_set() == left.used_set());
                    assert forall|at: int| slice <= at < slice + count implies !#[trigger] left.in_use().contains(at) by {
                        assert(span(slice, count).contains(at));
                    }
                    lemma_unused(&before, index, slice, count);
                    assert forall|at: int| left.in_use().contains(at) implies #[trigger] right.in_use().contains(at) by {}
                    lemma_spans_kept(&left, &right);
                    assert forall|at: int| 0 <= at < self.regions@.len() implies (#[trigger] self.regions@[at]).spans_ok() by {
                        assert(before.regions@[at].spans_ok());
                    }
                    assert(domain_frame(&before, self, -1, 0, 0));
                    lemma_frame(&before, self, -1, 0, 0);
                    assert(span(slice, count).subset_of(right.in_use())) by {
                        assert forall|at: int| span(slice, count).contains(at) implies right.in_use().contains(at) by {
                            assert(left.kept().contains(at));
                            lemma_kept_is_used(&left, at);
                        }
                    }
                    lemma_clear(&left, slice, count);
                    assert(right.clear_of(slice, count)) by {
                        assert forall|other: int| #[trigger] right.is_registered(other) implies runs_apart(
                            slice,
                            count,
                            other,
                            right.length(other),
                        ) by {
                            assert(left.is_registered(other));
                        }
                    }
                    lemma_idle(self, index, slice, count);
                },
                None => {
                    assert forall|at: int| 0 <= at < self.regions@.len() implies (#[trigger] self.regions@[at]).spans_ok() by {
                        assert(before.regions@[at].spans_ok());
                    }
                },
            }
        }
        result
    }

    /// Puts an idle span into the stores of kept spans, to be reused or purged from `deadline` on.
    pub fn keep_span(&mut self, address: usize, slices: usize, deadline: u64)
        requires
            old(self).wf(),
            old(self).spans_ok(),
            old(self).idle_span(address as int, slices as int),
        ensures
            final(self).wf(),
            final(self).spans_ok(),
            final(self).keeps_idle_but(old(self), address as int, slices as int),
            final(self).keeps_live_but(old(self), address as int, slices as int),
            ({
                let index = old(self).region_at(address as int)->0;
                let before = old(self).regions@[index];
                let after = final(self).regions@[index];
                let slice = before.slice_of(address as int);
                &&& 0 <= index < old(self).regions@.len()
                &&& final(self).same_but_region(old(self), index)
                &&& after.same_but_kept(&before)
                &&& after.kept() == before.kept().union(span(slice, slices as int))
                &&& if slices <= MEDIUM_MAX_SLICES {
                    &&& after.large_free == before.large_free
                    &&& after.large_purge_after == before.large_purge_after
                    &&& after.bins@[slices - 1].free@ == before.bins@[slices - 1].free@.push(slice as usize)
                    &&& after.bins@[slices - 1].purge_after == (if before.bins@[slices - 1].purge_after == 0 {
                        deadline
                    } else {
                        before.bins@[slices - 1].purge_after
                    })
                    &&& forall|other: int|
                        #![trigger after.bins@[other]]
                        0 <= other < MEDIUM_MAX_SLICES && other != slices - 1 ==> after.bins@[other] == before.bins@[other]
                } else {
                    &&& after.bins == before.bins
                    &&& crate::allocator::slices::covered(after.large_free@) == crate::allocator::slices::covered(
                        before.large_free@,
                    ).union(span(slice, slices as int))
                    &&& after.large_purge_after == (if before.large_purge_after == 0 {
                        deadline
                    } else {
                        before.large_purge_after
                    })
                }
            }),
    {
        let ghost before = *self;
        let index: usize = self.find_region(address).unwrap();
        let ghost left = self.regions@[index as int];
        assert(left.wf() && left.spans_ok());
        let slice: usize = self.regions[index].slice_index(address);
        if slices <= MEDIUM_MAX_SLICES {
            self.regions[index].put_binned(slices - 1, slice, deadline);
        } else {
            self.regions[index].insert_large_extent(slice, slices, deadline);
        }
        proof {
            let right = self.regions@[index as int];
            lemma_changed_region(&before, self, index as int);
            assert(right.used_set() == left.used_set());
            assert forall|at: int|
                left.in_use().contains(at) && !span(slice as int, slices as int).contains(at) implies #[trigger] right.in_use().contains(
                at,
            ) by {}
            lemma_spans_shrunk(&left, &right, slice as int, slices as int);
            assert forall|at: int| 0 <= at < self.regions@.len() implies (#[trigger] self.regions@[at]).spans_ok() by {
                assert(before.regions@[at].spans_ok());
            }
            assert(region_frame(&left, &right, slice as int, slices as int));
            assert(domain_frame(&before, self, index as int, slice as int, slices as int));
            lemma_frame(&before, self, index as int, slice as int, slices as int);
            lemma_apart_in(&left, address as int, slices as int, 0, 0);
        }
    }

    /// Gives an idle span back: its slices are free, and nothing is known of them.
    pub fn give_back(&mut self, address: usize, slices: usize)
        requires
            old(self).wf(),
            old(self).spans_ok(),
            old(self).idle_span(address as int, slices as int),
        ensures
            final(self).wf(),
            final(self).spans_ok(),
            final(self).keeps_idle_but(old(self), address as int, slices as int),
            final(self).keeps_live_but(old(self), address as int, slices as int),
            released(old(self), final(self), address, slices as int),
    {
        let ghost before = *self;
        proof {
            lemma_idle_is_span(self, address as int, slices as int);
        }
        self.release_slices(address, slices);
        proof {
            let index = before.region_at(address as int)->0;
            let left = before.regions@[index];
            let right = self.regions@[index];
            let slice = left.slice_of(address as int);
            assert(left.wf() && right.wf() && left.spans_ok());
            lemma_same_kept(&left, &right);
            lemma_given_back(&before, self, address, slices);
        }
    }

    /// Frees the slices of an idle span that no memory stands behind.
    pub fn give_up(&mut self, address: usize, slices: usize)
        requires
            old(self).wf(),
            old(self).spans_ok(),
            old(self).idle_span(address as int, slices as int),
        ensures
            final(self).wf(),
            final(self).spans_ok(),
            final(self).keeps_idle_but(old(self), address as int, slices as int),
            final(self).keeps_live_but(old(self), address as int, slices as int),
            slices_freed(old(self), final(self), address, slices as int),
    {
        let ghost before = *self;
        proof {
            lemma_idle_is_span(self, address as int, slices as int);
        }
        self.unmark_slices(address, slices);
        proof {
            let index = before.region_at(address as int)->0;
            let left = before.regions@[index];
            let right = self.regions@[index];
            assert(left.wf() && right.wf() && left.spans_ok());
            lemma_same_kept(&left, &right);
            lemma_given_back(&before, self, address, slices);
        }
    }

    /// Makes an idle span a medium allocation.
    pub fn register_span(&mut self, address: usize, slices: usize, requested_bytes: usize, owner: SpanOwner)
        requires
            old(self).wf(),
            old(self).spans_ok(),
            old(self).idle_span(address as int, slices as int),
            owner.heap != 0,
        ensures
            final(self).wf(),
            final(self).spans_ok(),
            final(self).keeps_idle_but(old(self), address as int, slices as int),
            final(self).keeps_live_but(old(self), address as int, slices as int),
            final(self).medium_live(address as int, slices as int),
            final(self).medium_at(address as int) == (MediumAllocation {
                owner,
                requested_bytes,
                usable_bytes: (slices * MEDIUM_SLICE_SIZE) as usize,
            }),
            registered(old(self), final(self), address, slices, requested_bytes, owner),
    {
        let ghost before = *self;
        self.register_medium(address, slices, requested_bytes, owner);
        proof {
            let index = before.region_at(address as int)->0;
            assert(0 <= index < before.regions@.len() && before.regions@[index].holds(address as int));
            let left = before.regions@[index];
            let right = self.regions@[index];
            assert(left.wf() && right.wf() && left.spans_ok());
            let slice = left.slice_of(address as int);
            lemma_apart_in(&left, address as int, slices as int, 0, 0);
            assert(right.in_use() =~= left.in_use());
            lemma_region_at(self, address as int, index);
            assert(right.length(slice) == slices);
            assert(region_frame(&left, &right, slice, slices as int));
            assert(domain_frame(&before, self, index, slice, slices as int));
            lemma_frame(&before, self, index, slice, slices as int);
        }
    }

    /// Makes a medium allocation an idle span, and returns what was registered of it.
    pub fn unregister_span(&mut self, address: usize, slices: usize) -> (allocation: MediumAllocation)
        requires
            old(self).wf(),
            old(self).spans_ok(),
            old(self).medium_live(address as int, slices as int),
        ensures
            final(self).wf(),
            final(self).spans_ok(),
            allocation == old(self).medium_at(address as int),
            final(self).idle_span(address as int, slices as int),
            forall|a: int, s: int|
                #![trigger final(self).idle_span(a, s)]
                #![trigger old(self).idle_span(a, s)]
                old(self).idle_span(a, s) ==> final(self).idle_span(a, s) && spans_apart(a, s, address as int, slices as int),
            final(self).keeps_live_but(old(self), address as int, slices as int),
            unregistered(old(self), final(self), address),
    {
        let ghost before = *self;
        proof {
            lemma_live_length(self, address as int, slices as int);
        }
        let allocation = self.unregister_medium(address);
        proof {
            let index = before.region_at(address as int)->0;
            assert(0 <= index < before.regions@.len() && before.regions@[index].holds(address as int));
            let left = before.regions@[index];
            let right = self.regions@[index];
            assert(left.wf() && right.wf() && left.spans_ok());
            let slice = left.slice_of(address as int);
            lemma_apart_in(&left, address as int, slices as int, 0, 0);
            assert(right.in_use() =~= left.in_use());
            lemma_region_at(self, address as int, index);
            assert(region_frame(&left, &right, slice, slices as int));
            assert(domain_frame(&before, self, index, slice, slices as int));
            lemma_frame(&before, self, index, slice, slices as int);
            assert(left.is_registered(slice));
            assert(right.clear_of(slice, slices as int));
            assert(self.idle_span(address as int, slices as int));
            assert forall|a: int, s: int|
                #![trigger self.idle_span(a, s)]
                #![trigger before.idle_span(a, s)]
                before.idle_span(a, s) implies self.idle_span(a, s) && spans_apart(a, s, address as int, slices as int) by {
                lemma_idle_apart_live(&before, a, s, address as int, slices as int);
            }
        }
        allocation
    }
}

/// An idle span and a medium allocation lie apart.
pub proof fn lemma_idle_apart_live(domain: &DomainState, address: int, slices: int, live: int, live_slices: int)
    requires
        domain.wf(),
        domain.spans_ok(),
        domain.idle_span(address, slices),
        domain.medium_live(live, live_slices),
    ensures
        spans_apart(address, slices, live, live_slices),
{
    let at = domain.region_at(address)->0;
    let other = domain.region_at(live)->0;
    assert(0 <= at < domain.regions@.len() && domain.regions@[at].holds(address));
    assert(0 <= other < domain.regions@.len() && domain.regions@[other].holds(live));
    let left = domain.regions@[at];
    let right = domain.regions@[other];
    assert(left.wf() && right.wf());
    lemma_live_length(domain, live, live_slices);
    lemma_apart_in(&right, live, live_slices, 0, 0);
    let q = right.slice_of(live);
    if at == other {
        lemma_apart_in(&left, address, slices, q, live_slices);
        assert(left.is_registered(q));
        assert(runs_apart(left.slice_of(address), slices, q, left.length(q)));
    } else {
        lemma_regions_apart(domain, at, other);
        lemma_apart_regions(&left, &right, address, slices, q, live_slices);
    }
}

/// Whether the slices of a span are free again, and nothing else of the domain differs.
pub open spec fn slices_freed(before: &DomainState, after: &DomainState, address: usize, slices: int) -> bool {
    let index = before.region_at(address as int)->0;
    let left = before.regions@[index];
    let right = after.regions@[index];
    &&& 0 <= index < before.regions@.len()
    &&& after.same_but_region(before, index)
    &&& right.same_but_bitmap(&left)
    &&& right.next_slice == left.next_slice
    &&& right.used_set() == left.used_set().difference(span(left.slice_of(address as int), slices))
}

/// What registering a span leaves of its domain.
pub open spec fn registered(before: &DomainState, after: &DomainState, address: usize, slices: usize, requested_bytes: usize, owner: SpanOwner) -> bool {
    let index = before.region_at(address as int)->0;
    let left = before.regions@[index];
    let right = after.regions@[index];
    let slice = left.slice_of(address as int);
    &&& 0 <= index < before.regions@.len()
    &&& after.same_but_region(before, index)
    &&& right.same_but_metadata(&left)
    &&& right.kept() == left.kept()
    &&& right.allocations@ == left.allocations@.update(
        slice,
        MediumAllocation { owner, requested_bytes, usable_bytes: (slices * MEDIUM_SLICE_SIZE) as usize },
    )
    &&& right.physical@ == left.physical@.update(
        slice,
        crate::allocator::region::PhysicalSlice {
            kind: crate::allocator::region::PhysicalSliceKind::Medium,
            span: slices,
            owner: owner.heap,
            ..left.physical@[slice]
        },
    )
}

/// What taking a medium allocation off the register leaves of its domain.
pub open spec fn unregistered(before: &DomainState, after: &DomainState, address: usize) -> bool {
    let index = before.region_at(address as int)->0;
    let left = before.regions@[index];
    let right = after.regions@[index];
    let slice = left.slice_of(address as int);
    &&& 0 <= index < before.regions@.len()
    &&& after.same_but_region(before, index)
    &&& right.same_but_metadata(&left)
    &&& right.kept() == left.kept()
    &&& right.allocations@ == left.allocations@.update(slice, crate::allocator::region::no_allocation())
    &&& right.physical@ == left.physical@.update(
        slice,
        crate::allocator::region::PhysicalSlice { owner: 0, ..left.physical@[slice] },
    )
}

/// An idle span is one that the domain can free.
pub proof fn lemma_idle_is_span(domain: &DomainState, address: int, slices: int)
    requires
        domain.wf(),
        domain.idle_span(address, slices),
    ensures
        domain.is_span(address, slices),
{
    let index = domain.region_at(address)->0;
    assert(0 <= index < domain.regions@.len() && domain.regions@[index].holds(address));
    let region = domain.regions@[index];
    let slice = region.slice_of(address);
    assert(region.kept().disjoint(span(slice, slices))) by {
        assert forall|at: int| !(region.kept().contains(at) && span(slice, slices).contains(at)) by {
            if span(slice, slices).contains(at) {
                assert(region.in_use().contains(at));
            }
        }
    }
    assert(domain.span_in(index, address, slices));
}

/// What freeing the slices of an idle span leaves of the other spans.
proof fn lemma_given_back(before: &DomainState, after: &DomainState, address: usize, slices: usize)
    requires
        before.wf(),
        before.spans_ok(),
        after.wf(),
        before.idle_span(address as int, slices as int),
        ({
            let index = before.region_at(address as int)->0;
            let left = before.regions@[index];
            let right = after.regions@[index];
            &&& after.same_but_region(before, index)
            &&& right.base == left.base
            &&& right.allocations == left.allocations
            &&& right.kept() == left.kept()
            &&& right.used_set() == left.used_set().difference(span(left.slice_of(address as int), slices as int))
        }),
    ensures
        after.spans_ok(),
        after.keeps_idle_but(before, address as int, slices as int),
        after.keeps_live_but(before, address as int, slices as int),
{
    let index = before.region_at(address as int)->0;
    assert(0 <= index < before.regions@.len() && before.regions@[index].holds(address as int));
    let left = before.regions@[index];
    let right = after.regions@[index];
    assert(left.wf() && left.spans_ok());
    let slice = left.slice_of(address as int);
    lemma_apart_in(&left, address as int, slices as int, 0, 0);
    assert forall|at: int|
        left.in_use().contains(at) && !span(slice, slices as int).contains(at) implies #[trigger] right.in_use().contains(at) by {}
    lemma_spans_shrunk(&left, &right, slice, slices as int);
    assert forall|at: int| 0 <= at < after.regions@.len() implies (#[trigger] after.regions@[at]).spans_ok() by {
        assert(before.regions@[at].spans_ok());
    }
    assert(region_frame(&left, &right, slice, slices as int));
    assert(domain_frame(before, after, index, slice, slices as int));
    lemma_frame(before, after, index, slice, slices as int);
}

impl DomainState {
    /// Whether a span lies apart from every span of a list.
    pub open spec fn apart_from_all(address: int, slices: int, spans: Seq<PurgeSpan>) -> bool {
        forall|at: int|
            #![trigger spans[at]]
            0 <= at < spans.len() ==> spans_apart(address, slices, spans[at].address as int, spans[at].slices as int)
    }

    /// Takes every kept span that may be purged out of the stores, so that the system can take
    /// its memory back.
    pub fn collect_purge(&mut self, now: u64, force: bool) -> (spans: Vec<PurgeSpan>)
        requires
            old(self).wf(),
            old(self).spans_ok(),
        ensures
            final(self).wf(),
            final(self).spans_ok(),
            final(self).id == old(self).id,
            final(self).is_default == old(self).is_default,
            final(self).regions@.len() == old(self).regions@.len(),
            spans@ == crate::allocator::domains::due_spans(old(self).regions@, old(self).regions@.len() as int, now, force),
            forall|index: int|
                #![trigger final(self).regions@[index]]
                0 <= index < final(self).regions@.len() ==> final(self).regions@[index].without_due(
                    &old(self).regions@[index],
                    now,
                    force,
                ),
            forall|at: int|
                #![trigger spans@[at]]
                0 <= at < spans@.len() ==> final(self).is_span(spans@[at].address as int, spans@[at].slices as int)
                    && old(self).unused_span(spans@[at].address as int, spans@[at].slices as int),
            forall|a: int, s: int|
                #![trigger final(self).idle_span(a, s)]
                #![trigger old(self).idle_span(a, s)]
                old(self).idle_span(a, s) ==> final(self).idle_span(a, s),
            forall|a: int, s: int|
                #![trigger final(self).medium_live(a, s)]
                #![trigger old(self).medium_live(a, s)]
                old(self).medium_live(a, s) ==> final(self).medium_live(a, s) && final(self).medium_at(a) == old(
                    self,
                ).medium_at(a),
    {
        let ghost before = *self;
        let spans = self.purge_medium(now, force);
        proof {
            assert forall|at: int| 0 <= at < self.regions@.len() implies (#[trigger] self.regions@[at]).spans_ok() && region_frame(
                &before.regions@[at],
                &self.regions@[at],
                -1,
                0,
            ) by {
                let left = before.regions@[at];
                let right = self.regions@[at];
                assert(left.spans_ok() && left.wf());
                assert(right.used_set() == left.used_set());
                assert forall|x: int| left.in_use().contains(x) implies #[trigger] right.in_use().contains(x) by {}
                lemma_spans_kept(&left, &right);
            }
            assert(domain_frame(&before, self, -1, 0, 0));
            lemma_frame(&before, self, -1, 0, 0);
            assert forall|at: int| #![trigger spans@[at]] 0 <= at < spans@.len() implies before.unused_span(
                spans@[at].address as int,
                spans@[at].slices as int,
            ) by {
                lemma_due_span(&before, now, force, before.regions@.len() as int, at);
            }
        }
        spans
    }

    /// Frees the slices of the purged spans whose memory the system took back.
    pub fn settle_purge(&mut self, spans: &Vec<PurgeSpan>, decommitted: &Vec<bool>)
        requires
            old(self).wf(),
            old(self).spans_ok(),
            spans@.len() == decommitted@.len(),
            forall|at: int|
                #![trigger spans@[at]]
                0 <= at < spans@.len() ==> old(self).is_span(spans@[at].address as int, spans@[at].slices as int),
            forall|a: int, s: int|
                #[trigger] old(self).medium_live(a, s) ==> DomainState::apart_from_all(a, s, spans@),
        ensures
            final(self).wf(),
            final(self).spans_ok(),
            final(self).id == old(self).id,
            final(self).is_default == old(self).is_default,
            final(self).regions@.len() == old(self).regions@.len(),
            forall|index: int|
                #![trigger final(self).regions@[index]]
                0 <= index < final(self).regions@.len() ==> {
                    &&& final(self).regions@[index].same_but_bitmap(&old(self).regions@[index])
                    &&& final(self).regions@[index].next_slice == old(self).regions@[index].next_slice
                    &&& final(self).regions@[index].used_set() == old(self).regions@[index].used_set().difference(
                        old(self).given_back(index, spans@, decommitted@, spans@.len() as int),
                    )
                },
            forall|a: int, s: int|
                #![trigger final(self).idle_span(a, s)]
                #![trigger old(self).idle_span(a, s)]
                old(self).idle_span(a, s) && DomainState::apart_from_all(a, s, spans@) ==> final(self).idle_span(a, s),
            forall|a: int, s: int|
                #![trigger final(self).medium_live(a, s)]
                #![trigger old(self).medium_live(a, s)]
                old(self).medium_live(a, s) ==> final(self).medium_live(a, s) && final(self).medium_at(a) == old(
                    self,
                ).medium_at(a),
    {
        let ghost before = *self;
        self.finish_purge(spans, decommitted);
        proof {
            lemma_settled(&before, self, spans@, decommitted@);
        }
    }
}

/// A span that is purged shares nothing with what is in use.
proof fn lemma_due_span(domain: &DomainState, now: u64, force: bool, count: int, position: int)
    requires
        domain.wf(),
        domain.spans_ok(),
        0 <= count <= domain.regions@.len(),
        0 <= position < crate::allocator::domains::due_spans(domain.regions@, count, now, force).len(),
    ensures
        ({
            let spans = crate::allocator::domains::due_spans(domain.regions@, count, now, force);
            domain.unused_span(spans[position].address as int, spans[position].slices as int)
        }),
    decreases count,
{
    let earlier = crate::allocator::domains::due_spans(domain.regions@, count - 1, now, force);
    if position < earlier.len() {
        lemma_due_span(domain, now, force, count - 1, position);
    } else {
        let region = domain.regions@[count - 1];
        assert(region.wf());
        let due = region.due(now, force);
        let at = position - earlier.len();
        crate::allocator::region::lemma_due_is_kept(&region, now, force, at);
        let extent = due[at];
        assert forall|slice: int| extent.slice <= slice < extent.slice + extent.count implies !#[trigger] region.in_use().contains(
            slice,
        ) by {
            assert(extent.slices().contains(slice));
        }
        lemma_unused(domain, count - 1, extent.slice as int, extent.count as int);
        lemma_slice_of(&region, extent.slice as int);
    }
}

proof fn lemma_settled(before: &DomainState, after: &DomainState, spans: Seq<PurgeSpan>, decommitted: Seq<bool>)
    requires
        before.wf(),
        before.spans_ok(),
        after.wf(),
        spans.len() == decommitted.len(),
        after.regions@.len() == before.regions@.len(),
        forall|at: int|
            #![trigger spans[at]]
            0 <= at < spans.len() ==> before.is_span(spans[at].address as int, spans[at].slices as int),
        forall|a: int, s: int| #[trigger] before.medium_live(a, s) ==> DomainState::apart_from_all(a, s, spans),
        forall|index: int|
            #![trigger after.regions@[index]]
            0 <= index < after.regions@.len() ==> {
                &&& after.regions@[index].same_but_bitmap(&before.regions@[index])
                &&& after.regions@[index].used_set() == before.regions@[index].used_set().difference(
                    before.given_back(index, spans, decommitted, spans.len() as int),
                )
            },
    ensures
        after.spans_ok(),
        forall|a: int, s: int|
            #![trigger after.idle_span(a, s)]
            #![trigger before.idle_span(a, s)]
            before.idle_span(a, s) && DomainState::apart_from_all(a, s, spans) ==> after.idle_span(a, s),
        forall|a: int, s: int|
            #![trigger after.medium_live(a, s)]
            #![trigger before.medium_live(a, s)]
            before.medium_live(a, s) ==> after.medium_live(a, s) && after.medium_at(a) == before.medium_at(a),
{
    assert forall|index: int, start: int, count: int, x: int|
        #![trigger after.regions@[index].in_use().contains(x), before.regions@[index].address_of(start), span(start, count)]
        0 <= index < before.regions@.len() && 0 <= start && start + count <= MEDIUM_REGION_SLICE_COUNT && span(start, count).contains(x)
            && before.regions@[index].in_use().contains(x) && DomainState::apart_from_all(
            before.regions@[index].address_of(start),
            count,
            spans,
        ) implies after.regions@[index].in_use().contains(x) by {
        let left = before.regions@[index];
        let right = after.regions@[index];
        assert(left.wf() && right.wf());
        lemma_same_kept(&left, &right);
        if before.given_back(index, spans, decommitted, spans.len() as int).contains(x) {
            let at = choose|at: int|
                0 <= at < spans.len() && #[trigger] decommitted[at] && left.holds(spans[at].address as int) && span(
                    left.slice_of(spans[at].address as int),
                    spans[at].slices as int,
                ).contains(x);
            let address = spans[at].address as int;
            assert(before.is_span(address, spans[at].slices as int));
            let other = choose|other: int| #[trigger] before.span_in(other, address, spans[at].slices as int);
            if other != index {
                lemma_regions_apart(before, other, index);
            }
            lemma_apart_in(&left, address, spans[at].slices as int, start, count);
            assert(spans_apart(left.address_of(start), count, address, spans[at].slices as int));
        }
    }
    assert forall|index: int| 0 <= index < after.regions@.len() implies (#[trigger] after.regions@[index]).spans_ok() by {
        let left = before.regions@[index];
        let right = after.regions@[index];
        assert(left.wf() && left.spans_ok());
        assert forall|slice: int, other: int|
            #![trigger right.in_use().contains(slice), left.is_registered(other)]
            left.is_registered(other) && span(other, left.length(other)).contains(slice) implies right.in_use().contains(slice) by {
            assert(left.registered_ok(other));
            lemma_slice_of(&left, other);
            lemma_region_at(before, left.address_of(other), index);
            assert(before.medium_live(left.address_of(other), left.length(other)));
            assert(DomainState::apart_from_all(left.address_of(other), left.length(other), spans));
            assert(after.regions@[index].in_use().contains(slice));
        }
        lemma_spans_kept(&left, &right);
    }
    assert forall|a: int, s: int|
        #![trigger after.idle_span(a, s)]
        #![trigger before.idle_span(a, s)]
        before.idle_span(a, s) && DomainState::apart_from_all(a, s, spans) implies after.idle_span(a, s) by {
        let index = before.region_at(a)->0;
        assert(0 <= index < before.regions@.len() && before.regions@[index].holds(a));
        lemma_same_region_at(before, after, a);
        let left = before.regions@[index];
        let right = after.regions@[index];
        assert(left.wf() && right.wf());
        lemma_apart_in(&left, a, s, 0, 0);
        let start = left.slice_of(a);
        assert forall|x: int| span(start, s).contains(x) implies right.in_use().contains(x) by {
            assert(left.in_use().contains(x));
            assert(left.address_of(start) == a);
            assert(after.regions@[index].in_use().contains(x));
        }
        assert forall|other: int| #[trigger] right.is_registered(other) implies runs_apart(start, s, other, right.length(other)) by {
            assert(left.is_registered(other));
        }
    }
    assert forall|a: int, s: int|
        #![trigger after.medium_live(a, s)]
        #![trigger before.medium_live(a, s)]
        before.medium_live(a, s) implies after.medium_live(a, s) && after.medium_at(a) == before.medium_at(a) by {
        let index = before.region_at(a)->0;
        assert(0 <= index < before.regions@.len() && before.regions@[index].holds(a));
        lemma_same_region_at(before, after, a);
        assert(after.regions@[index].same_but_bitmap(&before.regions@[index]));
        let left = before.regions@[index];
        assert(left.is_registered(left.slice_of(a)));
        assert(after.regions@[index].is_registered(left.slice_of(a)));
    }
}

impl DomainState {
    /// Every span is held as in `other`.
    pub open spec fn keeps_spans(&self, other: &DomainState) -> bool {
        &&& forall|a: int, s: int|
            #![trigger self.idle_span(a, s)]
            #![trigger other.idle_span(a, s)]
            other.idle_span(a, s) ==> self.idle_span(a, s)
        &&& forall|a: int, s: int|
            #![trigger self.medium_live(a, s)]
            #![trigger other.medium_live(a, s)]
            other.medium_live(a, s) ==> self.medium_live(a, s) && self.medium_at(a) == other.medium_at(a)
    }
}

/// A change of what is known of a region's slices changes nothing of what they are held for.
pub proof fn lemma_metadata_frame(before: &DomainState, after: &DomainState, index: int)
    requires
        before.wf(),
        before.spans_ok(),
        after.wf(),
        0 <= index < before.regions@.len(),
        after.same_but_region(before, index),
        after.regions@[index].same_but_metadata(&before.regions@[index]),
        after.regions@[index].allocations == before.regions@[index].allocations,
        after.regions@[index].kept() == before.regions@[index].kept(),
    ensures
        after.spans_ok(),
        after.keeps_spans(before),
{
    let left = before.regions@[index];
    let right = after.regions@[index];
    assert(left.spans_ok());
    assert(right.in_use() =~= left.in_use());
    lemma_spans_kept(&left, &right);
    assert forall|at: int| 0 <= at < after.regions@.len() implies (#[trigger] after.regions@[at]).spans_ok() by {
        assert(before.regions@[at].spans_ok());
    }
    assert(domain_frame(before, after, -1, 0, 0));
    lemma_frame(before, after, -1, 0, 0);
}

} // verus!
