//! A reusable heap, and how it gets its slabs.

use vstd::prelude::*;

use crate::allocator::classes::{
    LOCAL_MEDIUM_CLASSES, MEDIUM_REGION_SIZE, MEDIUM_REGION_SLICE_COUNT, MEDIUM_SLICE_SIZE,
};
use crate::allocator::domains::{apart, first_open, DomainState};
use crate::allocator::region::{empty_slice, no_allocation, valid_base};
use crate::allocator::slab::SLAB_SIZE;
use crate::allocator::slices::{next_run, span};
use crate::allocator::small::{small, SmallState};
use crate::hints::general;

verus! {

/// Address space that a heap cuts slabs from.
#[derive(Clone, Copy, Debug, PartialEq, Eq, Structural)]
pub struct Segment {
    pub base: usize,
    /// The number of slices, or 0 for a slab that was mapped on its own.
    pub slices: usize,
    pub committed_bytes: usize,
}

/// How far a heap's retirement has come.
#[derive(Clone, Copy, Debug, PartialEq, Eq, Structural)]
pub struct RetirementState {
    pub retiring: bool,
    pub retirement_ready: bool,
    /// What still holds the retired heap's storage.
    pub retired_releases: usize,
    /// Medium and direct allocations that the heap owns.
    pub external_allocations: usize,
}

pub open spec fn not_retiring() -> RetirementState {
    RetirementState { retiring: false, retirement_ready: false, retired_releases: 0, external_allocations: 0 }
}

pub struct HeapState {
    pub address: usize,
    pub small: SmallState,
    /// The next slab of the segment that the heap cuts its slabs from, and where it ends.
    pub locality_next: usize,
    pub locality_end: usize,
    /// One span of each power of two of slices, or 0.
    pub medium_cache: Vec<usize>,
    pub locality_segment_slices: usize,
    pub medium_cache_max_bytes: usize,
    pub domain: usize,
    /// The segments, oldest first.
    pub segments: Vec<Segment>,
    /// The segment that the heap cuts its slabs from, or 0.
    pub locality_segment: usize,
    pub track_aggregates: bool,
    pub retirable: bool,
    pub retirement: RetirementState,
}

/// A slab's address space, and the segment that it starts, where it starts one.
#[derive(Clone, Copy, Debug, PartialEq, Eq, Structural)]
pub struct SlabAllocation {
    pub address: usize,
    pub segment: Option<Segment>,
}

/// What the system must do before a heap can use its next slab.
#[derive(Clone, Copy, Debug, PartialEq, Eq, Structural)]
pub enum SlabRequest {
    /// Commit the slab, where the segment's commit left it out.
    CommitSlab { slab: usize },
    /// Commit at least the first slab of a segment.
    CommitSegment { base: usize, slices: usize },
    /// Map a slab.
    MapSlab,
}

impl HeapState {
    /// The invariant: the fields are in their bounds, and slabs are cut from a segment of the heap.
    pub open spec fn wf(&self) -> bool {
        &&& self.shape()
        &&& self.locality_next < self.locality_end ==> holds_segment(self.segments@, self.locality_segment)
    }

    pub open spec fn shape(&self) -> bool {
        &&& self.address != 0
        &&& self.medium_cache@.len() == LOCAL_MEDIUM_CLASSES
        &&& 1 <= self.locality_segment_slices <= MEDIUM_REGION_SLICE_COUNT
        &&& self.locality_next <= self.locality_end
        &&& self.locality_next as int % (SLAB_SIZE as int) == 0
        &&& self.locality_end as int % (SLAB_SIZE as int) == 0
        &&& self.locality_next < self.locality_end ==> 0 < self.locality_next
    }

    /// A heap that holds nothing.
    pub open spec fn is_new(&self, address: usize, options: general::Options, domain: usize, retirable: bool) -> bool {
        &&& self.address == address
        &&& self.small.inbox@.len() == 0
        &&& forall|context: bool, class: int|
            #![trigger self.small.lists(context).hot[class]]
            0 <= class < crate::tunables::MAX_SIZE_CLASSES ==> self.small.lists(context).hot[class]
                == crate::allocator::small::empty_hot()
        &&& forall|context: bool, class: int|
            #![trigger self.small.lists(context).partial[class]]
            0 <= class < crate::tunables::MAX_SIZE_CLASSES ==> self.small.lists(context).partial[class].len() == 0
        &&& self.locality_next == 0
        &&& self.locality_end == 0
        &&& forall|slot: int| 0 <= slot < LOCAL_MEDIUM_CLASSES ==> #[trigger] self.medium_cache@[slot] == 0
        &&& self.locality_segment_slices == options.locality_segment_bytes / MEDIUM_SLICE_SIZE
        &&& self.medium_cache_max_bytes == options.medium_cache_max_bytes
        &&& self.domain == domain
        &&& self.segments@.len() == 0
        &&& self.locality_segment == 0
        &&& !self.track_aggregates
        &&& self.retirable == retirable
        &&& self.retirement == not_retiring()
    }

    /// Everything but what slabs are cut from is as in `other`.
    pub open spec fn same_but_locality(&self, other: &HeapState) -> bool {
        &&& self.address == other.address
        &&& self.small == other.small
        &&& self.medium_cache == other.medium_cache
        &&& self.locality_segment_slices == other.locality_segment_slices
        &&& self.medium_cache_max_bytes == other.medium_cache_max_bytes
        &&& self.domain == other.domain
        &&& self.retirable == other.retirable
        &&& self.retirement == other.retirement
    }
}

/// Whether the request is the one that a heap makes for its next slab: the rest of its segment, else
/// a new segment of the domain, else one slice of it, else a mapping. Only the slices that it asks for
/// are taken.
pub open spec fn slab_sought(
    heap: &HeapState,
    before: &DomainState,
    after: &DomainState,
    spare: Option<usize>,
    request: SlabRequest,
    appended: bool,
) -> bool {
    let wanted = heap.locality_segment_slices;
    match request {
        SlabRequest::CommitSlab { slab } => {
            &&& heap.locality_next < heap.locality_end
            &&& slab == heap.locality_next
            &&& !appended
            &&& after.regions@ == before.regions@
        },
        SlabRequest::CommitSegment { base, slices } => {
            &&& heap.locality_next >= heap.locality_end
            &&& slices == (if first_open(before.regions@, 0, wanted as int) is Some || spare is Some {
                wanted
            } else {
                1
            })
            &&& allocated(before, after, spare, slices as int, base, appended)
        },
        SlabRequest::MapSlab => {
            &&& heap.locality_next >= heap.locality_end
            &&& first_open(before.regions@, 0, wanted as int) is None
            &&& first_open(before.regions@, 0, 1) is None
            &&& spare is None
            &&& !appended
            &&& after.regions@ == before.regions@
        },
    }
}

/// Whether a segment starts at `base`.
pub open spec fn holds_segment(segments: Seq<Segment>, base: usize) -> bool {
    exists|index: int| 0 <= index < segments.len() && (#[trigger] segments[index]).base == base
}

/// The segments after the bytes of the one at `base` grew.
pub open spec fn grown(segments: Seq<Segment>, base: usize, bytes: int) -> Seq<Segment> {
    Seq::new(
        segments.len(),
        |index: int|
            if index == segment_at(segments, base) {
                Segment { committed_bytes: (segments[index].committed_bytes + bytes) as usize, ..segments[index] }
            } else {
                segments[index]
            },
    )
}

/// The newest segment that starts at `base`, or -1.
pub open spec fn segment_at(segments: Seq<Segment>, base: usize) -> int
    decreases segments.len(),
{
    if segments.len() == 0 {
        -1
    } else if segments.last().base == base {
        segments.len() - 1
    } else {
        segment_at(segments.drop_last(), base)
    }
}

proof fn lemma_segment_at(segments: Seq<Segment>, base: usize, from: int)
    requires
        0 <= from <= segments.len(),
        forall|index: int| from <= index < segments.len() ==> (#[trigger] segments[index]).base != base,
    ensures
        segment_at(segments, base) == segment_at(segments.take(from), base),
    decreases segments.len(),
{
    if from < segments.len() {
        let rest = segments.drop_last();
        assert(segments.last() == segments[segments.len() - 1]);
        lemma_segment_at(rest, base, from);
        assert(rest.take(from) =~= segments.take(from));
    } else {
        assert(segments.take(from) =~= segments);
    }
}

proof fn lemma_segment_found(segments: Seq<Segment>, base: usize)
    ensures
        -1 <= segment_at(segments, base) < segments.len(),
        segment_at(segments, base) >= 0 ==> segments[segment_at(segments, base)].base == base,
        segment_at(segments, base) == -1 ==> forall|index: int| 0 <= index < segments.len() ==> (#[trigger] segments[index]).base != base,
    decreases segments.len(),
{
    if segments.len() > 0 {
        let rest = segments.drop_last();
        lemma_segment_found(rest, base);
        if segments.last().base != base {
            let found = segment_at(rest, base);
            if found >= 0 {
                assert(rest[found] == segments[found]);
            } else {
                assert forall|index: int| 0 <= index < segments.len() implies (#[trigger] segments[index]).base != base by {
                    if index < rest.len() {
                        assert(rest[index].base != base);
                    }
                }
            }
        }
    }
}

/// Two different multiples are at least one step apart.
pub proof fn lemma_next_multiple(left: int, right: int, step: int)
    requires
        left < right,
        step > 0,
        left % step == 0,
        right % step == 0,
    ensures
        left + step <= right,
        (left + step) % step == 0,
{
    vstd::arithmetic::div_mod::lemma_fundamental_div_mod(left, step);
    vstd::arithmetic::div_mod::lemma_fundamental_div_mod(right, step);
    let low = left / step;
    let high = right / step;
    assert(low < high) by (nonlinear_arith)
        requires
            step * low < step * high,
            step > 0,
    ;
    assert(step * low + step <= step * high) by (nonlinear_arith)
        requires
            low + 1 <= high,
            step > 0,
    ;
    vstd::arithmetic::div_mod::lemma_mod_add_multiples_vanish(left, step);
}

impl HeapState {
    pub fn new(address: usize, options: general::Options, domain: usize, retirable: bool) -> (heap: HeapState)
        requires
            address != 0,
            MEDIUM_SLICE_SIZE <= options.locality_segment_bytes <= MEDIUM_REGION_SIZE,
        ensures
            heap.wf(),
            heap.is_new(address, options, domain, retirable),
            heap.small.classes@.hot.len() == crate::tunables::MAX_SIZE_CLASSES,
            heap.small.classes@.partial.len() == crate::tunables::MAX_SIZE_CLASSES,
            heap.small.context_classes@.hot.len() == crate::tunables::MAX_SIZE_CLASSES,
            heap.small.context_classes@.partial.len() == crate::tunables::MAX_SIZE_CLASSES,
    {
        let mut medium_cache: Vec<usize> = Vec::new();
        while medium_cache.len() < LOCAL_MEDIUM_CLASSES
            invariant
                medium_cache@.len() <= LOCAL_MEDIUM_CLASSES,
                forall|slot: int| 0 <= slot < medium_cache@.len() ==> medium_cache@[slot] == 0,
            decreases LOCAL_MEDIUM_CLASSES - medium_cache@.len(),
        {
            medium_cache.push(0);
        }
        HeapState {
            address,
            small: SmallState::new(),
            locality_next: 0,
            locality_end: 0,
            medium_cache,
            locality_segment_slices: options.locality_segment_bytes / MEDIUM_SLICE_SIZE,
            medium_cache_max_bytes: options.medium_cache_max_bytes,
            domain,
            segments: Vec::new(),
            locality_segment: 0,
            track_aggregates: false,
            retirable,
            retirement: RetirementState {
                retiring: false,
                retirement_ready: false,
                retired_releases: 0,
                external_allocations: 0,
            },
        }
    }

    /// The options that the heap was made with.
    pub fn options(&self) -> (options: general::Options)
        requires
            self.wf(),
        ensures
            options.locality_segment_bytes == self.locality_segment_slices * MEDIUM_SLICE_SIZE,
            options.medium_cache_max_bytes == self.medium_cache_max_bytes,
    {
        assert(self.locality_segment_slices * MEDIUM_SLICE_SIZE <= MEDIUM_REGION_SIZE) by (nonlinear_arith)
            requires
                self.locality_segment_slices <= MEDIUM_REGION_SLICE_COUNT,
                MEDIUM_SLICE_SIZE == 65536,
                MEDIUM_REGION_SLICE_COUNT == 16384,
                MEDIUM_REGION_SIZE == 1073741824,
        ;
        general::Options::from_values(self.locality_segment_slices * MEDIUM_SLICE_SIZE, self.medium_cache_max_bytes)
    }

    /// Finds address space for a slab: the rest of the heap's segment, else a new segment of the
    /// domain, else one slice of it, else none. Returns what the system must do with it, and
    /// whether the region that stood by was appended.
    pub fn begin_slab(&mut self, domain: &mut DomainState, spare: Option<usize>, track_aggregates: bool) -> (request: (
        SlabRequest,
        bool,
    ))
        requires
            old(self).wf(),
            old(domain).wf(),
            old(domain).spans_ok(),
            spare matches Some(base) ==> valid_base(base as int) && forall|index: int|
                0 <= index < old(domain).regions@.len() ==> apart(
                    (#[trigger] old(domain).regions@[index]).base as int,
                    base as int,
                ),
        ensures
            final(self).wf(),
            final(domain).wf(),
            final(domain).spans_ok(),
            final(domain).id == old(domain).id,
            final(domain).is_default == old(domain).is_default,
            final(self).same_but_locality(old(self)),
            final(self).track_aggregates == track_aggregates,
            final(self).locality_next == old(self).locality_next,
            final(self).locality_end == old(self).locality_end,
            final(self).segments == old(self).segments,
            final(self).locality_segment == old(self).locality_segment,
            slab_sought(old(self), old(domain), final(domain), spare, request.0, request.1),
            request.0 matches SlabRequest::CommitSegment { base, slices } ==> final(domain).gained(
                old(domain),
                base as int,
                slices as int,
            ),
    {
        let ghost before = *domain;
        self.track_aggregates = track_aggregates;
        if self.locality_next < self.locality_end {
            return (SlabRequest::CommitSlab { slab: self.locality_next }, false);
        }
        let wanted: usize = self.locality_segment_slices;
        let first = domain.take_slices(wanted, spare);
        match first {
            Some((base, appended)) => (SlabRequest::CommitSegment { base, slices: wanted }, appended),
            None => {
                let ghost middle = *domain;
                let second = domain.take_slices(1, None);
                proof {
                    lemma_same_regions(&before, &middle);
                }
                match second {
                    Some((base, appended)) => (SlabRequest::CommitSegment { base, slices: 1 }, appended),
                    None => (SlabRequest::MapSlab, false),
                }
            },
        }
    }

    /// Takes the system's answer: the bytes that were committed, or the address that was mapped.
    pub fn finish_slab(&mut self, domain: &mut DomainState, request: SlabRequest, reply: Option<usize>) -> (allocation: Option<
        SlabAllocation,
    >)
        requires
            old(self).wf(),
            old(domain).wf(),
            old(domain).spans_ok(),
            match request {
                SlabRequest::CommitSlab { slab } => {
                    &&& slab == old(self).locality_next
                    &&& old(self).locality_next < old(self).locality_end
                    &&& reply matches Some(bytes) ==> old(self).segments@[segment_at(
                        old(self).segments@,
                        old(self).locality_segment,
                    )].committed_bytes + bytes <= usize::MAX
                },
                SlabRequest::CommitSegment { base, slices } => {
                    &&& old(domain).idle_span(base as int, slices as int)
                    &&& 0 < base
                    &&& base as int % (SLAB_SIZE as int) == 0
                    &&& 1 <= slices <= MEDIUM_REGION_SLICE_COUNT
                    &&& base + slices * MEDIUM_SLICE_SIZE <= usize::MAX
                },
                SlabRequest::MapSlab => true,
            },
        ensures
            final(domain).wf(),
            final(domain).spans_ok(),
            final(domain).id == old(domain).id,
            final(domain).is_default == old(domain).is_default,
            final(self).same_but_locality(old(self)),
            final(self).track_aggregates == old(self).track_aggregates,
            match (request, reply) {
                (SlabRequest::CommitSlab { slab }, Some(bytes)) => {
                    &&& final(self).wf()
                    &&& allocation == Some(SlabAllocation { address: slab, segment: None })
                    &&& final(self).locality_next == old(self).locality_next + SLAB_SIZE
                    &&& final(self).locality_end == old(self).locality_end
                    &&& final(self).locality_segment == old(self).locality_segment
                    &&& final(self).segments@ == grown(old(self).segments@, old(self).locality_segment, bytes as int)
                    &&& final(domain).regions@ == old(domain).regions@
                },
                (SlabRequest::CommitSegment { base, slices }, Some(bytes)) => {
                    &&& final(self).shape()
                    &&& allocation == Some(
                        SlabAllocation { address: base, segment: Some(Segment { base, slices, committed_bytes: bytes }) },
                    )
                    &&& final(self).locality_next == base + SLAB_SIZE
                    &&& final(self).locality_end == base + slices * MEDIUM_SLICE_SIZE
                    &&& final(self).locality_segment == old(self).locality_segment
                    &&& final(self).segments == old(self).segments
                    &&& final(domain).regions@ == old(domain).regions@
                },
                (SlabRequest::MapSlab, Some(address)) => {
                    &&& *final(self) == *old(self)
                    &&& allocation == Some(
                        SlabAllocation {
                            address,
                            segment: Some(Segment { base: address, slices: 0, committed_bytes: SLAB_SIZE }),
                        },
                    )
                    &&& final(domain).regions@ == old(domain).regions@
                },
                (SlabRequest::CommitSegment { base, slices }, None) => {
                    &&& *final(self) == *old(self)
                    &&& allocation is None
                    &&& released(old(domain), final(domain), base, slices as int)
                    &&& final(domain).keeps_idle_but(old(domain), base as int, slices as int)
                    &&& final(domain).keeps_live_but(old(domain), base as int, slices as int)
                },
                (_, None) => {
                    &&& *final(self) == *old(self)
                    &&& allocation is None
                    &&& final(domain).regions@ == old(domain).regions@
                },
            },
    {
        match request {
            SlabRequest::CommitSlab { slab } => match reply {
                None => None,
                Some(bytes) => {
                    self.advance_slab(bytes);
                    Some(SlabAllocation { address: slab, segment: None })
                },
            },
            SlabRequest::CommitSegment { base, slices } => match reply {
                None => {
                    domain.give_back(base, slices);
                    None
                },
                Some(bytes) => {
                    assert(slices * MEDIUM_SLICE_SIZE >= MEDIUM_SLICE_SIZE) by (nonlinear_arith)
                        requires
                            slices >= 1,
                    ;
                    assert((base + SLAB_SIZE) % (SLAB_SIZE as int) == 0 && (base + slices * MEDIUM_SLICE_SIZE) % (SLAB_SIZE as int) == 0)
                        by (nonlinear_arith)
                        requires
                            base as int % (SLAB_SIZE as int) == 0,
                            SLAB_SIZE == 32768,
                            MEDIUM_SLICE_SIZE == 65536,
                    ;
                    self.locality_next = base + SLAB_SIZE;
                    self.locality_end = base + slices * MEDIUM_SLICE_SIZE;
                    Some(SlabAllocation { address: base, segment: Some(Segment { base, slices, committed_bytes: bytes }) })
                },
            },
            SlabRequest::MapSlab => match reply {
                None => None,
                Some(address) => Some(
                    SlabAllocation {
                        address,
                        segment: Some(Segment { base: address, slices: 0, committed_bytes: SLAB_SIZE }),
                    },
                ),
            },
        }
    }

    /// Counts bytes committed to the segment that slabs are cut from, and goes on to its next slab.
    fn advance_slab(&mut self, bytes: usize)
        requires
            old(self).wf(),
            old(self).locality_next < old(self).locality_end,
            old(self).segments@[segment_at(old(self).segments@, old(self).locality_segment)].committed_bytes + bytes
                <= usize::MAX,
        ensures
            final(self).wf(),
            final(self).same_but_locality(old(self)),
            final(self).track_aggregates == old(self).track_aggregates,
            final(self).locality_next == old(self).locality_next + SLAB_SIZE,
            final(self).locality_end == old(self).locality_end,
            final(self).locality_segment == old(self).locality_segment,
            final(self).segments@ == grown(old(self).segments@, old(self).locality_segment, bytes as int),
    {
        if bytes != 0 {
            self.grow_segment(bytes);
        } else {
            assert(grown(self.segments@, self.locality_segment, 0) =~= self.segments@);
        }
        let ghost middle = *self;
        proof {
            lemma_next_multiple(self.locality_next as int, self.locality_end as int, SLAB_SIZE as int);
            assert(holds_segment(middle.segments@, middle.locality_segment));
        }
        self.locality_next = self.locality_next + SLAB_SIZE;
    }

    /// Counts bytes committed to the segment that slabs are cut from.
    fn grow_segment(&mut self, bytes: usize)
        requires
            old(self).wf(),
            old(self).locality_next < old(self).locality_end,
            old(self).segments@[segment_at(old(self).segments@, old(self).locality_segment)].committed_bytes + bytes
                <= usize::MAX,
        ensures
            final(self).same_but_locality(old(self)),
            final(self).track_aggregates == old(self).track_aggregates,
            final(self).locality_next == old(self).locality_next,
            final(self).locality_end == old(self).locality_end,
            final(self).locality_segment == old(self).locality_segment,
            final(self).segments@ == grown(old(self).segments@, old(self).locality_segment, bytes as int),
            holds_segment(final(self).segments@, final(self).locality_segment),
    {
        let ghost before = self.segments@;
        let base: usize = self.locality_segment;
        proof {
            lemma_segment_found(before, base);
            let at = choose|index: int| 0 <= index < before.len() && (#[trigger] before[index]).base == base;
            assert(before[at].base == base);
        }
        let mut index: usize = self.segments.len();
        while index > 0
            invariant
                index <= before.len(),
                before == self.segments@,
                base == self.locality_segment,
                *self == *old(self),
                segment_at(before, base) >= 0,
                before[segment_at(before, base)].committed_bytes + bytes <= usize::MAX,
                forall|at: int| index <= at < before.len() ==> (#[trigger] before[at]).base != base,
                0 <= segment_at(before, base) < before.len(),
                before[segment_at(before, base)].base == base,
            decreases index,
        {
            index = index - 1;
            let mut segment = self.segments[index];
            if segment.base == base {
                proof {
                    lemma_segment_at(before, base, index + 1);
                    assert(before.take(index + 1).last() == before[index as int]);
                }
                segment.committed_bytes = segment.committed_bytes + bytes;
                self.segments[index] = segment;
                proof {
                    assert(self.segments@ =~= grown(before, base, bytes as int));
                    assert(self.segments@[index as int].base == base);
                }
                return ;
            }
        }
        proof {
            assert(false);
        }
    }
}

/// What the spans of a domain are depends on its regions alone.
pub proof fn lemma_same_regions(left: &DomainState, right: &DomainState)
    requires
        left.regions@ == right.regions@,
    ensures
        forall|a: int, s: int| #[trigger] left.idle_span(a, s) == right.idle_span(a, s),
        forall|a: int, s: int| #[trigger] right.idle_span(a, s) == left.idle_span(a, s),
        forall|a: int, s: int| #[trigger] left.medium_live(a, s) == right.medium_live(a, s),
        forall|a: int, s: int| #[trigger] right.medium_live(a, s) == left.medium_live(a, s),
        forall|a: int| #[trigger] left.medium_at(a) == right.medium_at(a),
        forall|a: int| #[trigger] left.region_at(a) == right.region_at(a),
        left.spans_ok() == right.spans_ok(),
{
    assert forall|a: int| #[trigger] left.region_at(a) == right.region_at(a) by {}
}

/// What taking `slices` slices of a domain leaves, where they start at `base`.
pub open spec fn allocated(before: &DomainState, after: &DomainState, spare: Option<usize>, slices: int, base: usize, appended: bool) -> bool {
    if appended {
        let region = after.regions@.last();
        &&& first_open(before.regions@, 0, slices) is None
        &&& spare == Some(base)
        &&& after.regions@.len() == before.regions@.len() + 1
        &&& forall|at: int|
            #![trigger after.regions@[at]]
            0 <= at < before.regions@.len() ==> after.regions@[at] == before.regions@[at]
        &&& region.base == base
        &&& region.used_set() == span(0, slices)
        &&& region.next_slice as int == slices % (MEDIUM_REGION_SLICE_COUNT as int)
        &&& region.kept() == Set::<int>::empty()
        &&& forall|slice: int|
            0 <= slice < MEDIUM_REGION_SLICE_COUNT ==> #[trigger] region.allocations@[slice] == no_allocation()
        &&& forall|slice: int|
            0 <= slice < MEDIUM_REGION_SLICE_COUNT ==> #[trigger] region.physical@[slice] == empty_slice()
    } else {
        let index = first_open(before.regions@, 0, slices)->0;
        let region = before.regions@[index];
        let run = next_run(region.used_set(), region.next_slice as int, slices)->0;
        &&& first_open(before.regions@, 0, slices) is Some
        &&& 0 <= index < before.regions@.len()
        &&& after.same_but_region(before, index)
        &&& after.regions@[index].same_but_bitmap(&region)
        &&& after.regions@[index].used_set() == region.used_set().union(span(run, slices))
        &&& after.regions@[index].next_slice as int == (run + slices) % (MEDIUM_REGION_SLICE_COUNT as int)
        &&& crate::allocator::slices::run_is_free(region.used_set(), run, slices)
        &&& 0 <= run
        &&& run + slices <= MEDIUM_REGION_SLICE_COUNT
        &&& base == region.address_of(run)
    }
}

/// What giving a span back to its domain leaves.
pub open spec fn released(before: &DomainState, after: &DomainState, base: usize, slices: int) -> bool {
    let index = before.region_at(base as int)->0;
    let region = before.regions@[index];
    let slice = region.slice_of(base as int);
    &&& before.region_at(base as int) is Some
    &&& 0 <= index < before.regions@.len()
    &&& after.same_but_region(before, index)
    &&& after.regions@[index].base == region.base
    &&& after.regions@[index].next_slice == region.next_slice
    &&& after.regions@[index].large_free == region.large_free
    &&& after.regions@[index].large_purge_after == region.large_purge_after
    &&& after.regions@[index].allocations == region.allocations
    &&& after.regions@[index].bins == region.bins
    &&& after.regions@[index].used_set() == region.used_set().difference(span(slice, slices))
    &&& forall|at: int|
        0 <= at < MEDIUM_REGION_SLICE_COUNT ==> #[trigger] after.regions@[index].physical@[at] == (if slice <= at < slice + slices {
            empty_slice()
        } else {
            region.physical@[at]
        })
}

} // verus!
