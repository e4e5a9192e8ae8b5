//! Domains: each a list of regions that its heaps take their slices from.

use vstd::prelude::*;

use crate::allocator::classes::{
    medium_bin, medium_class, medium_slice_count, medium_slices, MEDIUM_MAX_SLICES, MEDIUM_REGION_SIZE,
    MEDIUM_REGION_SLICE_COUNT, MEDIUM_SLICE_SIZE,
};
use crate::allocator::layout::Layout;
use crate::allocator::region::{empty_slice, no_allocation, valid_base, Region};
use crate::allocator::slices::{
    first_extent, first_run, lemma_first_run, next_run, run_is_free, span, without_front, Extent,
};

verus! {

pub struct DomainState {
    pub id: usize,
    pub is_default: bool,
    /// The regions, oldest first.
    pub regions: Vec<Region>,
}

/// Whether two regions that start at these addresses share no address.
pub open spec fn apart(left: int, right: int) -> bool {
    left + MEDIUM_REGION_SIZE <= right || right + MEDIUM_REGION_SIZE <= left
}

/// The first region from `start` on that has `count` free slices in a row.
pub open spec fn first_open(regions: Seq<Region>, start: int, count: int) -> Option<int>
    decreases regions.len() - start,
{
    if start < 0 || start >= regions.len() {
        None
    } else if next_run(regions[start].used_set(), regions[start].next_slice as int, count) is Some {
        Some(start)
    } else {
        first_open(regions, start + 1, count)
    }
}

/// Whether a region keeps a span of `slices` slices for reuse.
pub open spec fn keeps_span(region: Region, slices: int) -> bool {
    if slices <= MEDIUM_MAX_SLICES {
        region.bins@[slices - 1].free@.len() > 0
    } else {
        first_extent(region.large_free@, 0, slices) is Some
    }
}

/// The first region from `start` on that keeps a span of `slices` slices.
pub open spec fn first_keeping(regions: Seq<Region>, start: int, slices: int) -> Option<int>
    decreases regions.len() - start,
{
    if start < 0 || start >= regions.len() {
        None
    } else if keeps_span(regions[start], slices) {
        Some(start)
    } else {
        first_keeping(regions, start + 1, slices)
    }
}

/// The first slice of the span of `slices` slices that a region keeps and hands out next.
pub open spec fn kept_slice(region: Region, slices: int) -> int {
    if slices <= MEDIUM_MAX_SLICES {
        region.bins@[slices - 1].free@.last() as int
    } else {
        region.large_free@[first_extent(region.large_free@, 0, slices)->0].slice as int
    }
}

/// Whether the region no longer keeps the span that it kept for so many slices: the newest of the
/// bin, or the front of the first extent that has them. What has no span left waits for no purge,
/// and whatever else the region keeps stays.
pub open spec fn kept_taken(before: &Region, after: &Region, slices: int) -> bool {
    if slices <= MEDIUM_MAX_SLICES {
        let left = before.bins@[slices - 1];
        let right = after.bins@[slices - 1];
        &&& right.free@ == left.free@.drop_last()
        &&& right.purge_after == if left.free@.len() == 1 {
            0
        } else {
            left.purge_after
        }
        &&& after.bins@.len() == before.bins@.len()
        &&& forall|class: int|
            #![trigger after.bins@[class]]
            0 <= class < before.bins@.len() && class != slices - 1 ==> after.bins@[class] == before.bins@[class]
        &&& after.large_free == before.large_free
        &&& after.large_purge_after == before.large_purge_after
    } else {
        &&& after.large_free@ == without_front(before.large_free@, first_extent(before.large_free@, 0, slices)->0, slices)
        &&& after.large_purge_after == if after.large_free@.len() == 0 {
            0
        } else {
            before.large_purge_after
        }
        &&& after.bins == before.bins
    }
}

impl DomainState {
    pub open spec fn wf(&self) -> bool {
        &&& forall|index: int| 0 <= index < self.regions@.len() ==> (#[trigger] self.regions@[index]).wf()
            && self.regions@[index].domain == self.id
        &&& forall|left: int, right: int|
            #![trigger self.regions@[left], self.regions@[right]]
            0 <= left < right < self.regions@.len() ==> apart(
                self.regions@[left].base as int,
                self.regions@[right].base as int,
            )
    }

    /// The region that holds an address.
    pub open spec fn region_at(&self, address: int) -> Option<int> {
        if exists|index: int| 0 <= index < self.regions@.len() && (#[trigger] self.regions@[index]).holds(address) {
            Some(choose|index: int| 0 <= index < self.regions@.len() && (#[trigger] self.regions@[index]).holds(address))
        } else {
            None
        }
    }

    /// Every region but the one at `index` is as in `other`.
    pub open spec fn same_but_region(&self, other: &DomainState, index: int) -> bool {
        &&& self.id == other.id
        &&& self.is_default == other.is_default
        &&& self.regions@.len() == other.regions@.len()
        &&& forall|at: int|
            #![trigger self.regions@[at]]
            0 <= at < self.regions@.len() && at != index ==> self.regions@[at] == other.regions@[at]
    }
}

pub proof fn lemma_region_at(domain: &DomainState, address: int, index: int)
    requires
        domain.wf(),
        0 <= index < domain.regions@.len(),
        domain.regions@[index].holds(address),
    ensures
        domain.region_at(address) == Some(index),
{
    let chosen = choose|at: int| 0 <= at < domain.regions@.len() && (#[trigger] domain.regions@[at]).holds(address);
    assert(0 <= chosen < domain.regions@.len() && domain.regions@[chosen].holds(address));
    if chosen < index {
        assert(apart(domain.regions@[chosen].base as int, domain.regions@[index].base as int));
    } else if index < chosen {
        assert(apart(domain.regions@[index].base as int, domain.regions@[chosen].base as int));
    }
}

impl DomainState {
    pub fn new(id: usize) -> (domain: DomainState)
        ensures
            domain.wf(),
            domain.id == id,
            !domain.is_default,
            domain.regions@.len() == 0,
    {
        DomainState { id, is_default: false, regions: Vec::new() }
    }

    pub fn find_region(&self, address: usize) -> (region: Option<usize>)
        requires
            self.wf(),
        ensures
            region is Some <==> self.region_at(address as int) is Some,
            region matches Some(index) ==> self.region_at(address as int) == Some(index as int) && index
                < self.regions@.len() && self.regions@[index as int].holds(address as int),
    {
        let mut index: usize = 0;
        while index < self.regions.len()
            invariant
                self.wf(),
                index <= self.regions@.len(),
                forall|at: int| 0 <= at < index ==> !(#[trigger] self.regions@[at]).holds(address as int),
            decreases self.regions@.len() - index,
        {
            let base: usize = self.regions[index].base;
            assert(self.regions@[index as int].wf());
            if address >= base && address < base + MEDIUM_REGION_SIZE {
                proof {
                    lemma_region_at(self, address as int, index as int);
                }
                return Some(index);
            }
            index = index + 1;
        }
        None
    }

    /// Marks `count` slices in a row as used, in the first region that has them, or in the
    /// region that stands by at `spare` where none has. Returns their address, and whether the
    /// region that stood by was appended.
    pub fn allocate_slices(&mut self, count: usize, spare: Option<usize>) -> (result: Option<(usize, bool)>)
        requires
            old(self).wf(),
            0 < count,
            spare matches Some(base) ==> valid_base(base as int) && forall|index: int|
                0 <= index < old(self).regions@.len() ==> apart((#[trigger] old(self).regions@[index]).base as int, base as int),
        ensures
            final(self).wf(),
            final(self).id == old(self).id,
            final(self).is_default == old(self).is_default,
            count > MEDIUM_REGION_SLICE_COUNT ==> result is None,
            match result {
                Some((address, false)) => {
                    let index = first_open(old(self).regions@, 0, count as int)->0;
                    let before = old(self).regions@[index];
                    let run = next_run(before.used_set(), before.next_slice as int, count as int)->0;
                    &&& first_open(old(self).regions@, 0, count as int) is Some
                    &&& 0 <= index < old(self).regions@.len()
                    &&& final(self).same_but_region(old(self), index)
                    &&& final(self).regions@[index].same_but_bitmap(&before)
                    &&& final(self).regions@[index].used_set() == before.used_set().union(span(run, count as int))
                    &&& final(self).regions@[index].next_slice as int == (run + count) % (MEDIUM_REGION_SLICE_COUNT as int)
                    &&& run_is_free(before.used_set(), run, count as int)
                    &&& 0 <= run
                    &&& run + count <= MEDIUM_REGION_SLICE_COUNT
                    &&& address == before.address_of(run)
                },
                Some((address, true)) => {
                    let region = final(self).regions@.last();
                    &&& first_open(old(self).regions@, 0, count as int) is None
                    &&& spare == Some(address)
                    &&& final(self).regions@.len() == old(self).regions@.len() + 1
                    &&& forall|at: int|
                        #![trigger final(self).regions@[at]]
                        0 <= at < old(self).regions@.len() ==> final(self).regions@[at] == old(self).regions@[at]
                    &&& region.base == address
                    &&& region.used_set() == span(0, count as int)
                    &&& region.next_slice as int == count as int % (MEDIUM_REGION_SLICE_COUNT as int)
                    &&& region.kept() == Set::<int>::empty()
                    &&& forall|slice: int|
                        0 <= slice < MEDIUM_REGION_SLICE_COUNT ==> #[trigger] region.allocations@[slice] == no_allocation()
                    &&& forall|slice: int|
                        0 <= slice < MEDIUM_REGION_SLICE_COUNT ==> #[trigger] region.physical@[slice] == empty_slice()
                },
                None => {
                    &&& count > MEDIUM_REGION_SLICE_COUNT || first_open(old(self).regions@, 0, count as int) is None && spare is None
                    &&& final(self).regions@ == old(self).regions@
                },
            },
    {
        if count > MEDIUM_REGION_SLICE_COUNT {
            return None;
        }
        let ghost before = *self;
        let mut index: usize = 0;
        while index < self.regions.len()
            invariant
                self.wf(),
                0 < count <= MEDIUM_REGION_SLICE_COUNT,
                before == *old(self),
                self.id == before.id,
                self.is_default == before.is_default,
                self.regions@ == before.regions@,
                index <= self.regions@.len(),
                first_open(before.regions@, 0, count as int) == first_open(before.regions@, index as int, count as int),
            decreases self.regions@.len() - index,
        {
            let ghost region = self.regions@[index as int];
            assert(region.wf());
            let found = self.regions[index].allocate(count);
            match found {
                Some(slice) => {
                    assert(first_open(before.regions@, index as int, count as int) == Some(index as int));
                    proof {
                        assert forall|at: int| 0 <= at < self.regions@.len() implies (#[trigger] self.regions@[at]).wf()
                            && self.regions@[at].domain == self.id by {
                            assert(before.regions@[at].wf());
                        }
                        assert forall|left: int, right: int|
                            #![trigger self.regions@[left], self.regions@[right]]
                            0 <= left < right < self.regions@.len() implies apart(
                            self.regions@[left].base as int,
                            self.regions@[right].base as int,
                        ) by {
                            assert(apart(before.regions@[left].base as int, before.regions@[right].base as int));
                        }
                    }
                    assert(slice * MEDIUM_SLICE_SIZE <= MEDIUM_REGION_SIZE) by (nonlinear_arith)
                        requires
                            slice <= MEDIUM_REGION_SLICE_COUNT,
                            MEDIUM_SLICE_SIZE == 65536,
                            MEDIUM_REGION_SIZE == 1073741824,
                            MEDIUM_REGION_SLICE_COUNT == 16384,
                    ;
                    assert(self.regions@[index as int].shape());
                    return Some((self.regions[index].base + slice * MEDIUM_SLICE_SIZE, false));
                },
                None => {
                    assert(self.regions@[index as int] == region) by {
                        assert(self.regions@[index as int].same_but_bitmap(&region));
                    }
                    assert(self.regions@ =~= before.regions@);
                },
            }
            index = index + 1;
        }
        match spare {
            None => None,
            Some(base) => {
                let mut region = Region::new(base, self.id);
                let ghost fresh = region;
                let slice = region.allocate(count);
                proof {
                    let empty = Set::<int>::empty();
                    lemma_first_run(empty, 0, MEDIUM_REGION_SLICE_COUNT as int, count as int);
                    assert(run_is_free(empty, 0, count as int));
                    assert(first_run(empty, 0, MEDIUM_REGION_SLICE_COUNT as int, count as int) == Some(0int));
                    assert(slice == Some(0usize));
                    assert(region.used_set() =~= span(0, count as int));
                    crate::allocator::region::lemma_same_kept(&fresh, &region);
                    lemma_nothing_kept(&fresh);
                }
                self.regions.push(region);
                proof {
                    assert forall|left: int, right: int|
                        #![trigger self.regions@[left], self.regions@[right]]
                        0 <= left < right < self.regions@.len() implies apart(
                        self.regions@[left].base as int,
                        self.regions@[right].base as int,
                    ) by {
                        if right < before.regions@.len() {
                            assert(apart(before.regions@[left].base as int, before.regions@[right].base as int));
                        } else {
                            assert(apart(before.regions@[left].base as int, base as int));
                        }
                    }
                }
                Some((base, true))
            },
        }
    }

    /// Takes a kept span that serves a layout, from the first region that keeps one.
    pub fn take_kept(&mut self, layout: Layout) -> (address: Option<usize>)
        requires
            old(self).wf(),
            medium_slices(layout) is Some,
        ensures
            final(self).wf(),
            match address {
                Some(address) => {
                    let slices = medium_slices(layout)->0 as int;
                    let index = first_keeping(old(self).regions@, 0, slices)->0;
                    let before = old(self).regions@[index];
                    let after = final(self).regions@[index];
                    let slice = kept_slice(before, slices);
                    &&& first_keeping(old(self).regions@, 0, slices) is Some
                    &&& 0 <= index < old(self).regions@.len()
                    &&& final(self).same_but_region(old(self), index)
                    &&& after.same_but_kept(&before)
                    &&& kept_taken(&before, &after, slices)
                    &&& after.kept() == before.kept().difference(span(slice, slices))
                    &&& span(slice, slices).subset_of(before.kept())
                    &&& 0 <= slice
                    &&& slice + slices <= MEDIUM_REGION_SLICE_COUNT
                    &&& address == before.address_of(slice)
                },
                None => first_keeping(old(self).regions@, 0, medium_slices(layout)->0 as int) is None
                    && final(self).same_but_region(old(self), -1),
            },
    {
        let ghost before = *self;
        let slices: usize = medium_slice_count(layout).unwrap();
        let class = medium_class(layout);
        let mut index: usize = 0;
        while index < self.regions.len()
            invariant
                self.wf(),
                before.wf(),
                before == *old(self),
                medium_slices(layout) == Some(slices),
                class == medium_bin(layout),
                0 < slices <= MEDIUM_REGION_SLICE_COUNT,
                index <= self.regions@.len(),
                self.same_but_region(&before, -1),
                first_keeping(before.regions@, 0, slices as int) == first_keeping(before.regions@, index as int, slices as int),
            decreases self.regions@.len() - index,
        {
            let ghost region = self.regions@[index as int];
            assert(region.wf());
            assert(region == before.regions@[index as int]);
            let taken = match class {
                Some(class_index) => self.regions[index].take_binned(class_index),
                None => self.regions[index].take_large_extent(slices),
            };
            proof {
                assert(self.regions@[index as int].wf());
                assert forall|at: int| 0 <= at < self.regions@.len() implies (#[trigger] self.regions@[at]).wf()
                    && self.regions@[at].domain == self.id by {
                    assert(before.regions@[at].domain == before.id);
                    if at != index {
                        assert(self.regions@[at] == before.regions@[at]);
                    }
                }
                assert forall|left: int, right: int|
                    #![trigger self.regions@[left], self.regions@[right]]
                    0 <= left < right < self.regions@.len() implies apart(
                    self.regions@[left].base as int,
                    self.regions@[right].base as int,
                ) by {
                    assert(apart(before.regions@[left].base as int, before.regions@[right].base as int));
                }
            }
            match taken {
                Some(slice) => {
                    assert(first_keeping(before.regions@, index as int, slices as int) == Some(index as int));
                    return Some(self.regions[index].base + slice * MEDIUM_SLICE_SIZE);
                },
                None => {
                    assert(!keeps_span(region, slices as int));
                    assert(self.regions@ =~= before.regions@);
                },
            }
            index = index + 1;
        }
        None
    }
}

/// A new region keeps nothing for reuse.
pub proof fn lemma_nothing_kept(region: &Region)
    requires
        region.large_free@.len() == 0,
        forall|class: int| #![trigger region.bins@[class]] 0 <= class < region.bins@.len() ==> region.bins@[class].free@.len() == 0,
    ensures
        region.kept() == Set::<int>::empty(),
{
    assert(region.kept() =~= Set::<int>::empty());
}


/// A kept span whose memory is given back to the operating system.
#[derive(Clone, Copy, Debug, PartialEq, Eq, Structural)]
pub struct PurgeSpan {
    pub address: usize,
    pub slices: usize,
}

/// The spans of a region's due extents.
pub open spec fn purge_spans(region: Region, extents: Seq<Extent>) -> Seq<PurgeSpan> {
    Seq::new(
        extents.len(),
        |index: int|
            PurgeSpan {
                address: region.address_of(extents[index].slice as int) as usize,
                slices: extents[index].count,
            },
    )
}

/// The spans that a purge of the first `count` regions gives back.
pub open spec fn due_spans(regions: Seq<Region>, count: int, now: u64, force: bool) -> Seq<PurgeSpan>
    decreases count,
{
    if count <= 0 {
        Seq::empty()
    } else {
        due_spans(regions, count - 1, now, force) + purge_spans(
            regions[count - 1],
            regions[count - 1].due(now, force),
        )
    }
}

impl DomainState {
    /// Whether `slices` slices from `address` on lie in one region and are kept by no store.
    pub open spec fn is_span(&self, address: int, slices: int) -> bool {
        exists|index: int| #[trigger] self.span_in(index, address, slices)
    }

    pub open spec fn span_in(&self, index: int, address: int, slices: int) -> bool {
        &&& 0 <= index < self.regions@.len()
        &&& self.regions@[index].holds(address)
        &&& 0 < slices
        &&& (address - self.regions@[index].base) % (MEDIUM_SLICE_SIZE as int) == 0
        &&& self.regions@[index].slice_of(address) + slices <= MEDIUM_REGION_SLICE_COUNT
        &&& self.regions@[index].kept().disjoint(span(self.regions@[index].slice_of(address), slices))
    }

    /// The slices of the region at `index` that are given back: those of the spans that lie in
    /// it and were decommitted.
    pub open spec fn given_back(&self, index: int, spans: Seq<PurgeSpan>, decommitted: Seq<bool>, count: int) -> Set<int> {
        Set::new(
            |slice: int|
                exists|at: int|
                    0 <= at < count && #[trigger] decommitted[at] && self.regions@[index].holds(spans[at].address as int)
                        && span(self.regions@[index].slice_of(spans[at].address as int), spans[at].slices as int).contains(
                        slice,
                    ),
        )
    }

    /// Takes every span that may be purged at `now` out of the stores of kept spans.
    pub fn purge_medium(&mut self, now: u64, force: bool) -> (spans: Vec<PurgeSpan>)
        requires
            old(self).wf(),
        ensures
            final(self).wf(),
            final(self).id == old(self).id,
            final(self).is_default == old(self).is_default,
            final(self).regions@.len() == old(self).regions@.len(),
            spans@ == due_spans(old(self).regions@, old(self).regions@.len() as int, now, force),
            forall|index: int|
                #![trigger final(self).regions@[index]]
                0 <= index < final(self).regions@.len() ==> final(self).regions@[index].without_due(
                    &old(self).regions@[index],
                    now,
                    force,
                ),
            forall|at: int|
                #![trigger spans@[at]]
                0 <= at < spans@.len() ==> final(self).is_span(spans@[at].address as int, spans@[at].slices as int),
    {
        let ghost before = *self;
        let mut spans: Vec<PurgeSpan> = Vec::new();
        let mut index: usize = 0;
        while index < self.regions.len()
            invariant
                self.wf(),
                before.wf(),
                before == *old(self),
                self.id == before.id,
                self.is_default == before.is_default,
                self.regions@.len() == before.regions@.len(),
                index <= self.regions@.len(),
                spans@ == due_spans(before.regions@, index as int, now, force),
                forall|at: int|
                    #![trigger self.regions@[at]]
                    0 <= at < self.regions@.len() ==> if at < index {
                        self.regions@[at].without_due(&before.regions@[at], now, force)
                    } else {
                        self.regions@[at] == before.regions@[at]
                    },
                forall|at: int|
                    #![trigger spans@[at]]
                    0 <= at < spans@.len() ==> self.is_span(spans@[at].address as int, spans@[at].slices as int),
            decreases self.regions@.len() - index,
        {
            let ghost earlier = *self;
            let ghost listed = spans@;
            let ghost region = before.regions@[index as int];
            assert(region.wf() && self.regions@[index as int] == region);
            let extents: Vec<Extent> = self.regions[index].collect_due(now, force);
            let base: usize = self.regions[index].base;
            let ghost collected = *self;
            proof {
                assert forall|at: int| 0 <= at < self.regions@.len() implies (#[trigger] self.regions@[at]).wf()
                    && self.regions@[at].domain == self.id by {
                    assert(earlier.regions@[at].wf() && earlier.regions@[at].domain == earlier.id);
                }
                assert forall|left: int, right: int|
                    #![trigger self.regions@[left], self.regions@[right]]
                    0 <= left < right < self.regions@.len() implies apart(
                    self.regions@[left].base as int,
                    self.regions@[right].base as int,
                ) by {
                    assert(apart(earlier.regions@[left].base as int, earlier.regions@[right].base as int));
                }
                assert forall|at: int| #![trigger listed[at]] 0 <= at < listed.len() implies self.is_span(
                    listed[at].address as int,
                    listed[at].slices as int,
                ) by {
                    let (address, slices) = (listed[at].address as int, listed[at].slices as int);
                    assert(earlier.is_span(address, slices));
                    let r = choose|r: int| #[trigger] earlier.span_in(r, address, slices);
                    assert(self.regions@[r].kept().subset_of(earlier.regions@[r].kept()));
                    assert(self.span_in(r, address, slices));
                }
            }
            let mut position: usize = 0;
            while position < extents.len()
                invariant
                    *self == collected,
                    self.wf(),
                    index < self.regions@.len(),
                    base == self.regions@[index as int].base,
                    position <= extents@.len(),
                    self.regions@[index as int].base == region.base,
                    spans@ == listed + purge_spans(region, extents@).subrange(0, position as int),
                    forall|at: int|
                        #![trigger extents@[at]]
                        0 <= at < extents@.len() ==> extents@[at].count > 0 && extents@[at].end() <= MEDIUM_REGION_SLICE_COUNT
                            && extents@[at].slices().disjoint(self.regions@[index as int].kept()),
                    forall|at: int|
                        #![trigger spans@[at]]
                        0 <= at < spans@.len() ==> self.is_span(spans@[at].address as int, spans@[at].slices as int),
                decreases extents@.len() - position,
            {
                let extent: Extent = extents[position];
                let ghost gathered = spans@;
                assert(self.regions@[index as int].wf());
                assert(extents@[position as int].end() <= MEDIUM_REGION_SLICE_COUNT);
                let purged = PurgeSpan { address: base + extent.slice * MEDIUM_SLICE_SIZE, slices: extent.count };
                spans.push(purged);
                proof {
                    let all = purge_spans(region, extents@);
                    assert(all.subrange(0, position + 1) =~= all.subrange(0, position as int).push(purged));
                    assert(spans@ =~= listed + all.subrange(0, position + 1));
                    let current = self.regions@[index as int];
                    assert(current.slice_of(purged.address as int) == extent.slice);
                    assert(extent.slices() =~= span(extent.slice as int, extent.count as int));
                    assert(self.span_in(index as int, purged.address as int, purged.slices as int));
                    assert forall|at: int| #![trigger spans@[at]] 0 <= at < spans@.len() implies self.is_span(
                        spans@[at].address as int,
                        spans@[at].slices as int,
                    ) by {
                        if at < gathered.len() {
                            assert(spans@[at] == gathered[at]);
                        } else {
                            assert(spans@[at] == purged);
                        }
                    }
                }
                position = position + 1;
            }
            proof {
                let all = purge_spans(region, extents@);
                assert(all.subrange(0, extents@.len() as int) =~= all);
            }
            index = index + 1;
        }
        spans
    }

    /// Marks slices as free again: those of a purged span, or of one that was not committed.
    pub fn unmark_slices(&mut self, address: usize, slices: usize)
        requires
            old(self).wf(),
            old(self).is_span(address as int, slices as int),
        ensures
            final(self).wf(),
            ({
                let index = old(self).region_at(address as int)->0;
                let before = old(self).regions@[index];
                let after = final(self).regions@[index];
                &&& old(self).region_at(address as int) is Some
                &&& 0 <= index < old(self).regions@.len()
                &&& final(self).same_but_region(old(self), index)
                &&& after.same_but_bitmap(&before)
                &&& after.next_slice == before.next_slice
                &&& after.used_set() == before.used_set().difference(
                    span(before.slice_of(address as int), slices as int),
                )
            }),
    {
        let ghost before = *self;
        proof {
            let at = choose|at: int| #[trigger] self.span_in(at, address as int, slices as int);
            lemma_region_at(self, address as int, at);
        }
        let index: usize = self.find_region(address).unwrap();
        let slice: usize = self.regions[index].slice_index(address);
        self.regions[index].unmark(slice, slices);
        proof {
            lemma_changed_region(&before, self, index as int);
        }
    }

    /// Forgets what slices were used for and marks them as free.
    pub fn release_slices(&mut self, address: usize, slices: usize)
        requires
            old(self).wf(),
            old(self).is_span(address as int, slices as int),
        ensures
            final(self).wf(),
            ({
                let index = old(self).region_at(address as int)->0;
                let before = old(self).regions@[index];
                let after = final(self).regions@[index];
                let slice = before.slice_of(address as int);
                &&& old(self).region_at(address as int) is Some
                &&& 0 <= index < old(self).regions@.len()
                &&& final(self).same_but_region(old(self), index)
                &&& after.base == before.base
                &&& after.next_slice == before.next_slice
                &&& after.large_free == before.large_free
                &&& after.large_purge_after == before.large_purge_after
                &&& after.allocations == before.allocations
                &&& after.bins == before.bins
                &&& after.used_set() == before.used_set().difference(span(slice, slices as int))
                &&& forall|at: int|
                    0 <= at < MEDIUM_REGION_SLICE_COUNT ==> #[trigger] after.physical@[at] == (if slice <= at < slice + slices {
                        crate::allocator::region::empty_slice()
                    } else {
                        before.physical@[at]
                    })
            }),
    {
        let ghost before = *self;
        proof {
            let at = choose|at: int| #[trigger] self.span_in(at, address as int, slices as int);
            lemma_region_at(self, address as int, at);
        }
        let index: usize = self.find_region(address).unwrap();
        let slice: usize = self.regions[index].slice_index(address);
        self.regions[index].release(slice, slices);
        proof {
            lemma_changed_region(&before, self, index as int);
        }
    }

    /// Marks the slices of the purged spans that were decommitted as free. The others stay
    /// reserved.
    pub fn finish_purge(&mut self, spans: &Vec<PurgeSpan>, decommitted: &Vec<bool>)
        requires
            old(self).wf(),
            spans@.len() == decommitted@.len(),
            forall|at: int|
                #![trigger spans@[at]]
                0 <= at < spans@.len() ==> old(self).is_span(spans@[at].address as int, spans@[at].slices as int),
        ensures
            final(self).wf(),
            final(self).id == old(self).id,
            final(self).is_default == old(self).is_default,
            final(self).regions@.len() == old(self).regions@.len(),
            forall|index: int|
                #![trigger final(self).regions@[index]]
                0 <= index < final(self).regions@.len() ==> {
                    &&& final(self).regions@[index].same_but_bitmap(&old(self).regions@[index])
                    &&& final(self).regions@[index].next_slice == old(self).regions@[index].next_slice
                    &&& final(self).regions@[index].used_set() == old(self).regions@[index].used_set().difference(
                        old(self).given_back(index, spans@, decommitted@, spans@.len() as int),
                    )
                },
    {
        let ghost before = *self;
        let mut position: usize = 0;
        proof {
            assert forall|index: int| 0 <= index < self.regions@.len() implies (#[trigger] self.regions@[index]).used_set()
                =~= before.regions@[index].used_set().difference(before.given_back(index, spans@, decommitted@, 0)) by {}
        }
        while position < spans.len()
            invariant
                self.wf(),
                before.wf(),
                before == *old(self),
                spans@.len() == decommitted@.len(),
                position <= spans@.len(),
                self.id == before.id,
                self.is_default == before.is_default,
                self.regions@.len() == before.regions@.len(),
                forall|at: int|
                    #![trigger spans@[at]]
                    0 <= at < spans@.len() ==> before.is_span(spans@[at].address as int, spans@[at].slices as int),
                forall|index: int|
                    #![trigger self.regions@[index]]
                    0 <= index < self.regions@.len() ==> {
                        &&& self.regions@[index].same_but_bitmap(&before.regions@[index])
                        &&& self.regions@[index].next_slice == before.regions@[index].next_slice
                        &&& self.regions@[index].used_set() == before.regions@[index].used_set().difference(
                            before.given_back(index, spans@, decommitted@, position as int),
                        )
                    },
            decreases spans@.len() - position,
        {
            let purged: PurgeSpan = spans[position];
            let ghost current = *self;
            let ghost address = purged.address as int;
            let ghost slices = purged.slices as int;
            proof {
                assert(before.is_span(spans@[position as int].address as int, spans@[position as int].slices as int));
                let r = choose|r: int| #[trigger] before.span_in(r, address, slices);
                crate::allocator::region::lemma_same_kept(&before.regions@[r], &self.regions@[r]);
                assert(self.span_in(r, address, slices));
                lemma_region_at(&before, address, r);
                lemma_region_at(self, address, r);
            }
            if decommitted[position] {
                self.unmark_slices(purged.address, purged.slices);
            }
            proof {
                let holder = before.region_at(address)->0;
                assert forall|index: int|
                    #![trigger self.regions@[index]]
                    0 <= index < self.regions@.len() implies {
                    &&& self.regions@[index].same_but_bitmap(&before.regions@[index])
                    &&& self.regions@[index].next_slice == before.regions@[index].next_slice
                    &&& self.regions@[index].used_set() == before.regions@[index].used_set().difference(
                        before.given_back(index, spans@, decommitted@, position + 1),
                    )
                } by {
                    let earlier = before.given_back(index, spans@, decommitted@, position as int);
                    let later = before.given_back(index, spans@, decommitted@, position + 1);
                    assert(current.regions@[index].same_but_bitmap(&before.regions@[index]));
                    let region = before.regions@[index];
                    let own = if decommitted@[position as int] && index == holder {
                        span(region.slice_of(address), slices)
                    } else {
                        Set::empty()
                    };
                    assert forall|slice: int| #[trigger] later.contains(slice) == (earlier.contains(slice) || own.contains(slice)) by {
                        if later.contains(slice) {
                            let at = choose|at: int|
                                0 <= at < position + 1 && #[trigger] decommitted@[at] && region.holds(spans@[at].address as int)
                                    && span(region.slice_of(spans@[at].address as int), spans@[at].slices as int).contains(
                                    slice,
                                );
                            if at == position {
                                lemma_region_at(&before, address, index);
                            } else {
                                assert(earlier.contains(slice));
                            }
                        }
                        if own.contains(slice) {
                            assert(decommitted@[position as int]);
                            assert(region.holds(spans@[position as int].address as int));
                        }
                        if earlier.contains(slice) {
                            let at = choose|at: int|
                                0 <= at < position && #[trigger] decommitted@[at] && region.holds(spans@[at].address as int)
                                    && span(region.slice_of(spans@[at].address as int), spans@[at].slices as int).contains(
                                    slice,
                                );
                            assert(decommitted@[at]);
                        }
                    }
                    assert(region.used_set().difference(later) =~= region.used_set().difference(earlier).difference(own));
                    assert(self.regions@[index].used_set() =~= current.regions@[index].used_set().difference(own));
                }
            }
            position = position + 1;
        }
    }
}

/// A domain stays well formed when one of its regions changes and stays in place.
pub proof fn lemma_changed_region(before: &DomainState, after: &DomainState, index: int)
    requires
        before.wf(),
        after.same_but_region(before, index),
        0 <= index < before.regions@.len(),
        after.regions@[index].wf(),
        after.regions@[index].base == before.regions@[index].base,
        after.regions@[index].domain == before.regions@[index].domain,
    ensures
        after.wf(),
{
    assert forall|at: int| 0 <= at < after.regions@.len() implies (#[trigger] after.regions@[at]).wf() && after.regions@[at].domain
        == after.id by {
        assert(before.regions@[at].wf() && before.regions@[at].domain == before.id);
    }
    assert forall|left: int, right: int|
        #![trigger after.regions@[left], after.regions@[right]]
        0 <= left < right < after.regions@.len() implies apart(
        after.regions@[left].base as int,
        after.regions@[right].base as int,
    ) by {
        assert(apart(before.regions@[left].base as int, before.regions@[right].base as int));
    }
}

} // verus!
