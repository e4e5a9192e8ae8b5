//! A region: 1 GiB of address space cut into 64 KiB slices, with what is known of each slice.

use vstd::prelude::*;

use crate::allocator::classes::{
    MEDIUM_MAX_SLICES, MEDIUM_REGION_BITMAP_WORDS, MEDIUM_REGION_SIZE, MEDIUM_REGION_SLICE_COUNT,
    MEDIUM_SLICE_SIZE,
};
use crate::allocator::slab::SLAB_SIZE;
use crate::allocator::slices::{
    covered, find_free_slices, first_extent, insert_extent, joined, mark_slices, next_run, run_is_free, span,
    take_extent, without_front, Extent,
};
use crate::bits::{bits_of, lemma_bit_zero};

verus! {

/// What a slice is used for.
#[derive(Clone, Copy, Debug, PartialEq, Eq, Structural)]
pub enum PhysicalSliceKind {
    Unknown,
    Small,
    Medium,
    MediumContinuation,
    Bump,
}

/// What one half of a slice holds, where it holds a slab.
#[derive(Clone, Copy, Debug, PartialEq, Eq, Structural)]
pub struct PhysicalSegment {
    pub class_index: Option<usize>,
    pub context: bool,
    pub usable_blocks: usize,
    pub live_blocks: usize,
    pub utilization_tracked: bool,
}

#[derive(Clone, Copy, Debug, PartialEq, Eq, Structural)]
pub struct PhysicalSlice {
    pub kind: PhysicalSliceKind,
    pub span: usize,
    pub owner: usize,
    /// The bump heap that the slice is a chunk of, or 0.
    pub bump_state: usize,
    pub first: PhysicalSegment,
    pub second: PhysicalSegment,
}

/// The heap that owns a medium span or a direct mapping.
#[derive(Clone, Copy, Debug, PartialEq, Eq, Structural)]
pub struct SpanOwner {
    /// The heap, or 0.
    pub heap: usize,
    /// Whether the heap's retirement waits for the allocation.
    pub retirable: bool,
}

/// The medium allocation that starts at a slice.
#[derive(Clone, Copy, Debug, PartialEq, Eq, Structural)]
pub struct MediumAllocation {
    pub owner: SpanOwner,
    pub requested_bytes: usize,
    pub usable_bytes: usize,
}

/// Spans of one length that are kept for reuse, by their first slice, newest last.
pub struct MediumBin {
    pub free: Vec<usize>,
    /// When the bin's spans may be purged, or 0.
    pub purge_after: u64,
}

pub open spec fn empty_segment() -> PhysicalSegment {
    PhysicalSegment {
        class_index: None,
        context: false,
        usable_blocks: 0,
        live_blocks: 0,
        utilization_tracked: false,
    }
}

pub open spec fn empty_slice() -> PhysicalSlice {
    PhysicalSlice {
        kind: PhysicalSliceKind::Unknown,
        span: 0,
        owner: 0,
        bump_state: 0,
        first: empty_segment(),
        second: empty_segment(),
    }
}

pub open spec fn no_owner() -> SpanOwner {
    SpanOwner { heap: 0, retirable: false }
}

pub open spec fn no_allocation() -> MediumAllocation {
    MediumAllocation { owner: no_owner(), requested_bytes: 0, usable_bytes: 0 }
}

impl PhysicalSegment {
    pub fn new() -> (segment: PhysicalSegment)
        ensures
            segment == empty_segment(),
    {
        PhysicalSegment {
            class_index: None,
            context: false,
            usable_blocks: 0,
            live_blocks: 0,
            utilization_tracked: false,
        }
    }
}

impl PhysicalSlice {
    pub fn new() -> (slice: PhysicalSlice)
        ensures
            slice == empty_slice(),
    {
        PhysicalSlice {
            kind: PhysicalSliceKind::Unknown,
            span: 0,
            owner: 0,
            bump_state: 0,
            first: PhysicalSegment::new(),
            second: PhysicalSegment::new(),
        }
    }
}

impl MediumAllocation {
    pub fn new() -> (allocation: MediumAllocation)
        ensures
            allocation == no_allocation(),
    {
        MediumAllocation {
            owner: SpanOwner { heap: 0, retirable: false },
            requested_bytes: 0,
            usable_bytes: 0,
        }
    }
}

impl MediumBin {
    pub fn new() -> (bin: MediumBin)
        ensures
            bin.free@.len() == 0,
            bin.purge_after == 0,
    {
        MediumBin { free: Vec::new(), purge_after: 0 }
    }
}

pub struct Region {
    pub base: usize,
    pub domain: usize,
    /// Where the next search for free slices starts.
    pub next_slice: usize,
    pub used: Vec<u64>,
    pub large_free: Vec<Extent>,
    pub large_purge_after: u64,
    pub physical: Vec<PhysicalSlice>,
    pub allocations: Vec<MediumAllocation>,
    pub bins: Vec<MediumBin>,
}

/// Whether a region may start at `base`.
pub open spec fn valid_base(base: int) -> bool {
    0 < base && base % (MEDIUM_SLICE_SIZE as int) == 0 && base + MEDIUM_REGION_SIZE <= usize::MAX
}

impl Region {
    pub open spec fn used_set(&self) -> Set<int> {
        bits_of(self.used@)
    }

    /// The slices of the span at `position` of bin `class`.
    pub open spec fn binned_span(&self, class: int, position: int) -> Set<int> {
        span(self.bins@[class].free@[position] as int, class + 1)
    }

    pub open spec fn is_binned(&self, class: int, position: int) -> bool {
        0 <= class < self.bins@.len() && 0 <= position < self.bins@[class].free@.len()
    }

    /// The slices that no allocation holds though they are marked as used.
    pub open spec fn kept(&self) -> Set<int> {
        Set::new(
            |slice: int|
                covered(self.large_free@).contains(slice) || exists|class: int, position: int|
                    self.is_binned(class, position) && #[trigger] self.binned_span(class, position).contains(slice),
        )
    }

    /// The slices that allocations hold.
    pub open spec fn in_use(&self) -> Set<int> {
        self.used_set().difference(self.kept())
    }

    pub open spec fn shape(&self) -> bool {
        &&& valid_base(self.base as int)
        &&& self.next_slice < MEDIUM_REGION_SLICE_COUNT
        &&& self.used@.len() == MEDIUM_REGION_BITMAP_WORDS
        &&& self.physical@.len() == MEDIUM_REGION_SLICE_COUNT
        &&& self.allocations@.len() == MEDIUM_REGION_SLICE_COUNT
        &&& self.bins@.len() == MEDIUM_MAX_SLICES
        &&& joined(self.large_free@)
    }

    /// The spans that are kept for reuse are marked as used, and no two of them share a slice.
    pub open spec fn wf(&self) -> bool {
        &&& self.shape()
        &&& covered(self.large_free@).subset_of(self.used_set())
        &&& forall|class: int, position: int|
            #![trigger self.binned_span(class, position)]
            #![trigger self.is_binned(class, position)]
            self.is_binned(class, position) ==> {
                &&& self.bins@[class].free@[position] + class + 1 <= MEDIUM_REGION_SLICE_COUNT
                &&& self.binned_span(class, position).subset_of(self.used_set())
                &&& self.binned_span(class, position).disjoint(covered(self.large_free@))
            }
        &&& forall|class: int, position: int, other_class: int, other: int|
            #![trigger self.binned_span(class, position), self.binned_span(other_class, other)]
            self.is_binned(class, position) && self.is_binned(other_class, other) && (class != other_class || position
                != other) ==> self.binned_span(class, position).disjoint(self.binned_span(other_class, other))
    }

    pub open spec fn address_of(&self, slice: int) -> int {
        self.base + slice * MEDIUM_SLICE_SIZE
    }

    pub open spec fn holds(&self, address: int) -> bool {
        self.base <= address < self.base + MEDIUM_REGION_SIZE
    }

    pub open spec fn slice_of(&self, address: int) -> int {
        (address - self.base) / (MEDIUM_SLICE_SIZE as int)
    }

    /// Everything but the bitmap and the search position is as in `other`.
    pub open spec fn same_but_bitmap(&self, other: &Region) -> bool {
        &&& self.base == other.base
        &&& self.domain == other.domain
        &&& self.large_free == other.large_free
        &&& self.large_purge_after == other.large_purge_after
        &&& self.physical == other.physical
        &&& self.allocations == other.allocations
        &&& self.bins == other.bins
    }

    /// Everything but the stores of kept spans is as in `other`.
    pub open spec fn same_but_kept(&self, other: &Region) -> bool {
        &&& self.base == other.base
        &&& self.domain == other.domain
        &&& self.next_slice == other.next_slice
        &&& self.used == other.used
        &&& self.physical == other.physical
        &&& self.allocations == other.allocations
    }

    /// Everything but the slices' metadata is as in `other`.
    pub open spec fn same_but_metadata(&self, other: &Region) -> bool {
        &&& self.base == other.base
        &&& self.domain == other.domain
        &&& self.next_slice == other.next_slice
        &&& self.used == other.used
        &&& self.large_free == other.large_free
        &&& self.large_purge_after == other.large_purge_after
        &&& self.bins == other.bins
    }
}

/// What is kept depends on the bins and the extents alone.
pub proof fn lemma_same_kept(left: &Region, right: &Region)
    requires
        left.bins == right.bins,
        left.large_free == right.large_free,
    ensures
        left.kept() =~= right.kept(),
{
    assert forall|slice: int| left.kept().contains(slice) == right.kept().contains(slice) by {
        if left.kept().contains(slice) && !covered(left.large_free@).contains(slice) {
            let (class, position) = choose|class: int, position: int|
                left.is_binned(class, position) && #[trigger] left.binned_span(class, position).contains(slice);
            assert(right.is_binned(class, position) && right.binned_span(class, position).contains(slice));
        }
        if right.kept().contains(slice) && !covered(right.large_free@).contains(slice) {
            let (class, position) = choose|class: int, position: int|
                right.is_binned(class, position) && #[trigger] right.binned_span(class, position).contains(slice);
            assert(left.is_binned(class, position) && left.binned_span(class, position).contains(slice));
        }
    }
}

/// A region whose kept spans stay marked keeps its invariant when other slices are marked.
proof fn lemma_remark(before: &Region, after: &Region)
    requires
        before.wf(),
        after.shape(),
        after.bins == before.bins,
        after.large_free == before.large_free,
        forall|slice: int|
            #![trigger after.used_set().contains(slice)]
            before.kept().contains(slice) ==> after.used_set().contains(slice),
    ensures
        after.wf(),
{
    assert forall|class: int, position: int|
        #![trigger after.binned_span(class, position)]
        #![trigger after.is_binned(class, position)]
        after.is_binned(class, position) implies {
        &&& after.bins@[class].free@[position] + class + 1 <= MEDIUM_REGION_SLICE_COUNT
        &&& after.binned_span(class, position).subset_of(after.used_set())
        &&& after.binned_span(class, position).disjoint(covered(after.large_free@))
    } by {
        assert(before.is_binned(class, position));
        assert(after.binned_span(class, position) == before.binned_span(class, position));
        assert forall|slice: int| after.binned_span(class, position).contains(slice) implies after.used_set().contains(
            slice,
        ) by {
            assert(before.binned_span(class, position).contains(slice));
            assert(before.kept().contains(slice));
        }
    }
    assert forall|slice: int| #[trigger] covered(after.large_free@).contains(slice) implies after.used_set().contains(slice) by {
        assert(before.kept().contains(slice));
    }
    assert(covered(after.large_free@).subset_of(after.used_set()));
    assert forall|class: int, position: int, other_class: int, other: int|
        #![trigger after.binned_span(class, position), after.binned_span(other_class, other)]
        after.is_binned(class, position) && after.is_binned(other_class, other) && (class != other_class || position
            != other) implies after.binned_span(class, position).disjoint(after.binned_span(other_class, other)) by {
        assert(before.is_binned(class, position) && before.is_binned(other_class, other));
        assert(before.binned_span(class, position).disjoint(before.binned_span(other_class, other)));
        assert(after.binned_span(class, position) == before.binned_span(class, position));
        assert(after.binned_span(other_class, other) == before.binned_span(other_class, other));
    }
}

impl Region {
    /// A region of which nothing is used.
    pub fn new(base: usize, domain: usize) -> (region: Region)
        requires
            valid_base(base as int),
        ensures
            region.wf(),
            region.base == base,
            region.domain == domain,
            region.next_slice == 0,
            region.used_set() == Set::<int>::empty(),
            region.large_free@.len() == 0,
            region.large_purge_after == 0,
            forall|slice: int| 0 <= slice < MEDIUM_REGION_SLICE_COUNT ==> #[trigger] region.physical@[slice] == empty_slice(),
            forall|slice: int|
                0 <= slice < MEDIUM_REGION_SLICE_COUNT ==> #[trigger] region.allocations@[slice] == no_allocation(),
            forall|class: int|
                #![trigger region.bins@[class]]
                0 <= class < MEDIUM_MAX_SLICES ==> region.bins@[class].free@.len() == 0 && region.bins@[class].purge_after == 0,
    {
        let mut used: Vec<u64> = Vec::new();
        while used.len() < MEDIUM_REGION_BITMAP_WORDS
            invariant
                used@.len() <= MEDIUM_REGION_BITMAP_WORDS,
                forall|index: int| 0 <= index < used@.len() ==> used@[index] == 0,
            decreases MEDIUM_REGION_BITMAP_WORDS - used@.len(),
        {
            used.push(0);
        }
        let mut physical: Vec<PhysicalSlice> = Vec::with_capacity(MEDIUM_REGION_SLICE_COUNT);
        let mut allocations: Vec<MediumAllocation> = Vec::with_capacity(MEDIUM_REGION_SLICE_COUNT);
        while physical.len() < MEDIUM_REGION_SLICE_COUNT
            invariant
                physical@.len() <= MEDIUM_REGION_SLICE_COUNT,
                allocations@.len() == physical@.len(),
                forall|slice: int| 0 <= slice < physical@.len() ==> #[trigger] physical@[slice] == empty_slice(),
                forall|slice: int| 0 <= slice < physical@.len() ==> #[trigger] allocations@[slice] == no_allocation(),
            decreases MEDIUM_REGION_SLICE_COUNT - physical@.len(),
        {
            physical.push(PhysicalSlice::new());
            allocations.push(MediumAllocation::new());
        }
        let mut bins: Vec<MediumBin> = Vec::with_capacity(MEDIUM_MAX_SLICES);
        while bins.len() < MEDIUM_MAX_SLICES
            invariant
                bins@.len() <= MEDIUM_MAX_SLICES,
                forall|class: int|
                    #![trigger bins@[class]]
                    0 <= class < bins@.len() ==> bins@[class].free@.len() == 0 && bins@[class].purge_after == 0,
            decreases MEDIUM_MAX_SLICES - bins@.len(),
        {
            bins.push(MediumBin::new());
        }
        let region = Region {
            base,
            domain,
            next_slice: 0,
            used,
            large_free: Vec::new(),
            large_purge_after: 0,
            physical,
            allocations,
            bins,
        };
        proof {
            assert forall|index: int| !bits_of(used@).contains(index) by {
                lemma_bit_zero(index % 64);
            }
            assert(region.used_set() =~= Set::<int>::empty());
            assert(covered(region.large_free@) =~= Set::<int>::empty());
        }
        region
    }

    /// Marks the next run of `count` free slices as used, and returns its first slice.
    pub fn allocate(&mut self, count: usize) -> (slice: Option<usize>)
        requires
            old(self).wf(),
        ensures
            final(self).wf(),
            final(self).same_but_bitmap(old(self)),
            match slice {
                Some(slice) => {
                    &&& next_run(old(self).used_set(), old(self).next_slice as int, count as int) == Some(slice as int)
                    &&& slice + count <= MEDIUM_REGION_SLICE_COUNT
                    &&& run_is_free(old(self).used_set(), slice as int, count as int)
                    &&& final(self).used_set() == old(self).used_set().union(span(slice as int, count as int))
                    &&& final(self).next_slice as int == (slice + count) % (MEDIUM_REGION_SLICE_COUNT as int)
                },
                None => {
                    &&& next_run(old(self).used_set(), old(self).next_slice as int, count as int) is None
                    &&& final(self).used == old(self).used
                    &&& final(self).next_slice == old(self).next_slice
                },
            },
    {
        let ghost before = *self;
        match find_free_slices(&self.used, self.next_slice, count) {
            Some(slice) => {
                mark_slices(&mut self.used, slice, count, true);
                self.next_slice = (slice + count) % MEDIUM_REGION_SLICE_COUNT;
                proof {
                    lemma_same_kept(&before, self);
                    assert forall|kept: int| #![trigger self.used_set().contains(kept)] before.kept().contains(kept) implies self.used_set().contains(
                        kept,
                    ) by {
                        lemma_kept_is_used(&before, kept);
                    }
                    lemma_remark(&before, self);
                }
                Some(slice)
            },
            None => None,
        }
    }

    /// Forgets what `count` slices were used for and marks them as free.
    pub fn release(&mut self, slice_index: usize, count: usize)
        requires
            old(self).wf(),
            slice_index + count <= MEDIUM_REGION_SLICE_COUNT,
            old(self).kept().disjoint(span(slice_index as int, count as int)),
        ensures
            final(self).wf(),
            final(self).base == old(self).base,
            final(self).domain == old(self).domain,
            final(self).next_slice == old(self).next_slice,
            final(self).large_free == old(self).large_free,
            final(self).large_purge_after == old(self).large_purge_after,
            final(self).allocations == old(self).allocations,
            final(self).bins == old(self).bins,
            final(self).used_set() == old(self).used_set().difference(span(slice_index as int, count as int)),
            forall|slice: int|
                0 <= slice < MEDIUM_REGION_SLICE_COUNT ==> #[trigger] final(self).physical@[slice] == (if slice_index
                    <= slice < slice_index + count {
                    empty_slice()
                } else {
                    old(self).physical@[slice]
                }),
    {
        let ghost before = *self;
        let mut index: usize = 0;
        while index < count
            invariant
                index <= count,
                slice_index + count <= MEDIUM_REGION_SLICE_COUNT,
                self.same_but_metadata(&before),
                self.allocations == before.allocations,
                self.physical@.len() == MEDIUM_REGION_SLICE_COUNT,
                before.physical@.len() == MEDIUM_REGION_SLICE_COUNT,
                forall|slice: int|
                    0 <= slice < MEDIUM_REGION_SLICE_COUNT ==> #[trigger] self.physical@[slice] == (if slice_index <= slice
                        < slice_index + index {
                        empty_slice()
                    } else {
                        before.physical@[slice]
                    }),
            decreases count - index,
        {
            self.physical[slice_index + index] = PhysicalSlice::new();
            index = index + 1;
        }
        mark_slices(&mut self.used, slice_index, count, false);
        proof {
            assert forall|kept: int| #![trigger self.used_set().contains(kept)] before.kept().contains(kept) implies self.used_set().contains(
                kept,
            ) by {
                lemma_kept_is_used(&before, kept);
            }
            lemma_remark(&before, self);
        }
    }

    /// Marks slices as free whose span could not be committed.
    pub fn unmark(&mut self, slice_index: usize, count: usize)
        requires
            old(self).wf(),
            slice_index + count <= MEDIUM_REGION_SLICE_COUNT,
            old(self).kept().disjoint(span(slice_index as int, count as int)),
        ensures
            final(self).wf(),
            final(self).same_but_bitmap(old(self)),
            final(self).next_slice == old(self).next_slice,
            final(self).used_set() == old(self).used_set().difference(span(slice_index as int, count as int)),
    {
        let ghost before = *self;
        mark_slices(&mut self.used, slice_index, count, false);
        proof {
            assert forall|kept: int| #![trigger self.used_set().contains(kept)] before.kept().contains(kept) implies self.used_set().contains(
                kept,
            ) by {
                lemma_kept_is_used(&before, kept);
            }
            lemma_remark(&before, self);
        }
    }
}

pub proof fn lemma_kept_is_used(region: &Region, slice: int)
    requires
        region.wf(),
        region.kept().contains(slice),
    ensures
        region.used_set().contains(slice),
        0 <= slice < MEDIUM_REGION_SLICE_COUNT,
{
    if !covered(region.large_free@).contains(slice) {
        let (class, position) = choose|class: int, position: int|
            region.is_binned(class, position) && #[trigger] region.binned_span(class, position).contains(slice);
        assert(region.binned_span(class, position).subset_of(region.used_set()));
    } else {
        let at = choose|at: int|
            0 <= at < region.large_free@.len() && (#[trigger] region.large_free@[at]).slices().contains(slice);
        assert(region.large_free@[at].end() <= MEDIUM_REGION_SLICE_COUNT);
    }
}


/// Whether the spans of a bin may be purged at `now`.
pub open spec fn bin_due(bin: MediumBin, now: u64, force: bool) -> bool {
    bin.free@.len() > 0 && (force || (bin.purge_after != 0 && bin.purge_after <= now))
}

/// The spans of a bin, newest first.
pub open spec fn bin_spans(free: Seq<usize>, count: int) -> Seq<Extent> {
    Seq::new(
        free.len(),
        |index: int| Extent { slice: free[free.len() - 1 - index], count: count as usize },
    )
}

/// The spans of the first `classes` bins that may be purged.
pub open spec fn bins_due(bins: Seq<MediumBin>, classes: int, now: u64, force: bool) -> Seq<Extent>
    decreases classes,
{
    if classes <= 0 {
        Seq::empty()
    } else {
        bins_due(bins, classes - 1, now, force) + (if bin_due(bins[classes - 1], now, force) {
            bin_spans(bins[classes - 1].free@, classes)
        } else {
            Seq::empty()
        })
    }
}

impl Region {
    pub open spec fn large_due(&self, now: u64, force: bool) -> bool {
        self.large_free@.len() > 0 && (force || (self.large_purge_after != 0 && self.large_purge_after <= now))
    }

    /// The spans that a purge at `now` takes out of the stores of kept spans.
    pub open spec fn due(&self, now: u64, force: bool) -> Seq<Extent> {
        bins_due(self.bins@, MEDIUM_MAX_SLICES as int, now, force) + (if self.large_due(now, force) {
            self.large_free@
        } else {
            Seq::empty()
        })
    }
}

proof fn lemma_bins_due_kept(region: &Region, classes: int, now: u64, force: bool, position: int)
    requires
        region.wf(),
        0 <= classes <= MEDIUM_MAX_SLICES,
        0 <= position < bins_due(region.bins@, classes, now, force).len(),
    ensures
        ({
            let extent = bins_due(region.bins@, classes, now, force)[position];
            &&& extent.count > 0
            &&& extent.end() <= MEDIUM_REGION_SLICE_COUNT
            &&& extent.slices().subset_of(region.kept())
        }),
    decreases classes,
{
    let earlier = bins_due(region.bins@, classes - 1, now, force);
    if position < earlier.len() {
        lemma_bins_due_kept(region, classes - 1, now, force, position);
    } else {
        let class = classes - 1;
        let free = region.bins@[class].free@;
        let at = free.len() - 1 - (position - earlier.len());
        assert(region.is_binned(class, at));
        let extent = bins_due(region.bins@, classes, now, force)[position];
        assert(extent.slices() =~= region.binned_span(class, at));
        assert forall|slice: int| extent.slices().contains(slice) implies region.kept().contains(slice) by {
            assert(region.is_binned(class, at) && region.binned_span(class, at).contains(slice));
        }
    }
}

/// A span that a purge takes was kept.
pub proof fn lemma_due_is_kept(region: &Region, now: u64, force: bool, position: int)
    requires
        region.wf(),
        0 <= position < region.due(now, force).len(),
    ensures
        ({
            let extent = region.due(now, force)[position];
            &&& extent.count > 0
            &&& extent.end() <= MEDIUM_REGION_SLICE_COUNT
            &&& extent.slices().subset_of(region.kept())
        }),
{
    let binned = bins_due(region.bins@, MEDIUM_MAX_SLICES as int, now, force);
    if position < binned.len() {
        lemma_bins_due_kept(region, MEDIUM_MAX_SLICES as int, now, force, position);
    } else {
        let at = position - binned.len();
        let extent = region.large_free@[at];
        assert(region.due(now, force)[position] == extent);
        assert forall|slice: int| extent.slices().contains(slice) implies covered(region.large_free@).contains(slice) by {
            assert(region.large_free@[at].slices().contains(slice));
        }
    }
}

/// Taking the newest span off a bin takes its slices, and no others, out of what is kept.
proof fn lemma_unbinned(before: &Region, after: &Region, class: int)
    requires
        before.wf(),
        after.shape(),
        after.used == before.used,
        after.large_free == before.large_free,
        0 <= class < MEDIUM_MAX_SLICES,
        before.bins@[class].free@.len() > 0,
        after.bins@.len() == before.bins@.len(),
        after.bins@[class].free@ == before.bins@[class].free@.drop_last(),
        forall|other: int|
            #![trigger after.bins@[other]]
            0 <= other < MEDIUM_MAX_SLICES && other != class ==> after.bins@[other] == before.bins@[other],
    ensures
        after.wf(),
        after.kept() =~= before.kept().difference(span(before.bins@[class].free@.last() as int, class + 1)),
        span(before.bins@[class].free@.last() as int, class + 1).subset_of(before.kept()),
        before.bins@[class].free@.last() + class + 1 <= MEDIUM_REGION_SLICE_COUNT,
{
    let last = before.bins@[class].free@.len() - 1;
    let taken = before.binned_span(class, last);
    assert(before.is_binned(class, last));
    assert(taken =~= span(before.bins@[class].free@.last() as int, class + 1));
    assert forall|c: int, p: int| #[trigger] after.is_binned(c, p) implies before.is_binned(c, p) && after.binned_span(c, p)
        == before.binned_span(c, p) && !(c == class && p == last) by {
        if c != class {
            assert(after.bins@[c] == before.bins@[c]);
        }
    }
    assert forall|c: int, p: int| #[trigger] before.is_binned(c, p) && !(c == class && p == last) implies after.is_binned(
        c,
        p,
    ) by {
        if c != class {
            assert(after.bins@[c] == before.bins@[c]);
        }
    }
    assert forall|slice: int| #[trigger] after.kept().contains(slice) == before.kept().difference(taken).contains(slice) by {
        if after.kept().contains(slice) {
            if covered(after.large_free@).contains(slice) {
                assert(before.binned_span(class, last).disjoint(covered(before.large_free@)));
            } else {
                let (c, p) = choose|c: int, p: int|
                    after.is_binned(c, p) && #[trigger] after.binned_span(c, p).contains(slice);
                assert(before.is_binned(c, p));
                assert(before.binned_span(c, p).contains(slice));
                assert(before.binned_span(c, p).disjoint(before.binned_span(class, last)));
            }
        }
        if before.kept().contains(slice) && !taken.contains(slice) && !covered(before.large_free@).contains(slice) {
            let (c, p) = choose|c: int, p: int|
                before.is_binned(c, p) && #[trigger] before.binned_span(c, p).contains(slice);
            assert(after.is_binned(c, p));
            assert(after.binned_span(c, p).contains(slice));
        }
    }
    assert forall|slice: int| taken.contains(slice) implies before.kept().contains(slice) by {
        assert(before.is_binned(class, last) && before.binned_span(class, last).contains(slice));
    }
    assert forall|c: int, p: int, oc: int, o: int|
        #![trigger after.binned_span(c, p), after.binned_span(oc, o)]
        after.is_binned(c, p) && after.is_binned(oc, o) && (c != oc || p != o) implies after.binned_span(c, p).disjoint(
        after.binned_span(oc, o),
    ) by {
        assert(before.is_binned(c, p) && before.is_binned(oc, o));
        assert(before.binned_span(c, p).disjoint(before.binned_span(oc, o)));
    }
    assert forall|c: int, p: int|
        #![trigger after.binned_span(c, p)]
        #![trigger after.is_binned(c, p)]
        after.is_binned(c, p) implies {
        &&& after.bins@[c].free@[p] + c + 1 <= MEDIUM_REGION_SLICE_COUNT
        &&& after.binned_span(c, p).subset_of(after.used_set())
        &&& after.binned_span(c, p).disjoint(covered(after.large_free@))
    } by {
        assert(before.is_binned(c, p));
        assert(before.binned_span(c, p).subset_of(before.used_set()));
        if c != class {
            assert(after.bins@[c] == before.bins@[c]);
        }
    }
}

/// Adding a span to a bin adds its slices, and no others, to what is kept.
proof fn lemma_binned(before: &Region, after: &Region, class: int, slice: usize)
    requires
        before.wf(),
        after.shape(),
        after.used == before.used,
        after.large_free == before.large_free,
        0 <= class < MEDIUM_MAX_SLICES,
        slice + class + 1 <= MEDIUM_REGION_SLICE_COUNT,
        span(slice as int, class + 1).subset_of(before.used_set()),
        span(slice as int, class + 1).disjoint(before.kept()),
        after.bins@.len() == before.bins@.len(),
        after.bins@[class].free@ == before.bins@[class].free@.push(slice),
        forall|other: int|
            #![trigger after.bins@[other]]
            0 <= other < MEDIUM_MAX_SLICES && other != class ==> after.bins@[other] == before.bins@[other],
    ensures
        after.wf(),
        after.kept() =~= before.kept().union(span(slice as int, class + 1)),
{
    let last = before.bins@[class].free@.len() as int;
    let added = span(slice as int, class + 1);
    assert(after.is_binned(class, last));
    assert(after.binned_span(class, last) =~= added);
    assert forall|c: int, p: int| #[trigger] before.is_binned(c, p) implies after.is_binned(c, p) && after.binned_span(c, p)
        == before.binned_span(c, p) && !(c == class && p == last) by {
        if c != class {
            assert(after.bins@[c] == before.bins@[c]);
        }
    }
    assert forall|c: int, p: int| #[trigger] after.is_binned(c, p) && !(c == class && p == last) implies before.is_binned(
        c,
        p,
    ) by {
        if c != class {
            assert(after.bins@[c] == before.bins@[c]);
        }
    }
    assert forall|s: int| #[trigger] after.kept().contains(s) == before.kept().union(added).contains(s) by {
        if after.kept().contains(s) && !covered(after.large_free@).contains(s) {
            let (c, p) = choose|c: int, p: int| after.is_binned(c, p) && #[trigger] after.binned_span(c, p).contains(s);
            if !(c == class && p == last) {
                assert(before.is_binned(c, p));
                assert(before.binned_span(c, p).contains(s));
            }
        }
        if before.kept().contains(s) && !covered(before.large_free@).contains(s) {
            let (c, p) = choose|c: int, p: int| before.is_binned(c, p) && #[trigger] before.binned_span(c, p).contains(s);
            assert(after.is_binned(c, p));
            assert(after.binned_span(c, p).contains(s));
        }
        if added.contains(s) {
            assert(after.is_binned(class, last) && after.binned_span(class, last).contains(s));
        }
    }
    assert forall|c: int, p: int|
        #![trigger after.binned_span(c, p)]
        #![trigger after.is_binned(c, p)]
        after.is_binned(c, p) implies {
        &&& after.bins@[c].free@[p] + c + 1 <= MEDIUM_REGION_SLICE_COUNT
        &&& after.binned_span(c, p).subset_of(after.used_set())
        &&& after.binned_span(c, p).disjoint(covered(after.large_free@))
    } by {
        if c == class && p == last {
            assert forall|s: int| covered(before.large_free@).contains(s) implies before.kept().contains(s) by {}
        } else {
            assert(before.is_binned(c, p));
            assert(before.binned_span(c, p).subset_of(before.used_set()));
            if c != class {
                assert(after.bins@[c] == before.bins@[c]);
            }
        }
    }
    assert forall|c: int, p: int, oc: int, o: int|
        #![trigger after.binned_span(c, p), after.binned_span(oc, o)]
        after.is_binned(c, p) && after.is_binned(oc, o) && (c != oc || p != o) implies after.binned_span(c, p).disjoint(
        after.binned_span(oc, o),
    ) by {
        if !(c == class && p == last) {
            assert(before.is_binned(c, p));
            assert(before.binned_span(c, p) == after.binned_span(c, p));
            assert forall|s: int| before.binned_span(c, p).contains(s) implies before.kept().contains(s) by {}
        }
        if !(oc == class && o == last) {
            assert(before.is_binned(oc, o));
            assert(before.binned_span(oc, o) == after.binned_span(oc, o));
            assert forall|s: int| before.binned_span(oc, o).contains(s) implies before.kept().contains(s) by {}
        }
        if !(c == class && p == last) && !(oc == class && o == last) {
            assert(before.binned_span(c, p).disjoint(before.binned_span(oc, o)));
        }
    }
}

/// A change of the extents that keeps clear of the bins.
proof fn lemma_reextended(before: &Region, after: &Region)
    requires
        before.wf(),
        after.shape(),
        after.used == before.used,
        after.bins == before.bins,
        covered(after.large_free@).subset_of(after.used_set()),
        forall|slice: int|
            #[trigger] covered(after.large_free@).contains(slice) ==> covered(before.large_free@).contains(slice)
                || !before.kept().contains(slice),
    ensures
        after.wf(),
        forall|slice: int|
            #[trigger] after.kept().contains(slice) == (covered(after.large_free@).contains(slice) || (before.kept().contains(
                slice,
            ) && !covered(before.large_free@).contains(slice))),
{
    assert forall|c: int, p: int| #[trigger] after.is_binned(c, p) == before.is_binned(c, p) by {}
    assert forall|c: int, p: int| #[trigger] after.binned_span(c, p) == before.binned_span(c, p) by {}
    assert forall|c: int, p: int|
        #![trigger after.binned_span(c, p)]
        #![trigger after.is_binned(c, p)]
        after.is_binned(c, p) implies {
        &&& after.bins@[c].free@[p] + c + 1 <= MEDIUM_REGION_SLICE_COUNT
        &&& after.binned_span(c, p).subset_of(after.used_set())
        &&& after.binned_span(c, p).disjoint(covered(after.large_free@))
    } by {
        assert(before.is_binned(c, p));
        assert(before.binned_span(c, p).disjoint(covered(before.large_free@)));
        assert forall|s: int| before.binned_span(c, p).contains(s) implies before.kept().contains(s) by {}
    }
    assert forall|c: int, p: int, oc: int, o: int|
        #![trigger after.binned_span(c, p), after.binned_span(oc, o)]
        after.is_binned(c, p) && after.is_binned(oc, o) && (c != oc || p != o) implies after.binned_span(c, p).disjoint(
        after.binned_span(oc, o),
    ) by {
        assert(before.binned_span(c, p).disjoint(before.binned_span(oc, o)));
    }
    assert forall|slice: int|
        #[trigger] after.kept().contains(slice) == (covered(after.large_free@).contains(slice) || (before.kept().contains(
            slice,
        ) && !covered(before.large_free@).contains(slice))) by {
        if after.kept().contains(slice) && !covered(after.large_free@).contains(slice) {
            let (c, p) = choose|c: int, p: int| after.is_binned(c, p) && #[trigger] after.binned_span(c, p).contains(slice);
            assert(before.is_binned(c, p) && before.binned_span(c, p).contains(slice));
            assert(before.binned_span(c, p).disjoint(covered(before.large_free@)));
        }
        if before.kept().contains(slice) && !covered(before.large_free@).contains(slice) {
            let (c, p) = choose|c: int, p: int| before.is_binned(c, p) && #[trigger] before.binned_span(c, p).contains(slice);
            assert(after.is_binned(c, p) && after.binned_span(c, p).contains(slice));
        }
    }
}

impl Region {
    /// Takes the newest span of a bin.
    pub fn take_binned(&mut self, class: usize) -> (slice: Option<usize>)
        requires
            old(self).wf(),
            class < MEDIUM_MAX_SLICES,
        ensures
            final(self).wf(),
            final(self).same_but_kept(old(self)),
            final(self).large_free == old(self).large_free,
            final(self).large_purge_after == old(self).large_purge_after,
            final(self).bins@.len() == old(self).bins@.len(),
            forall|other: int|
                #![trigger final(self).bins@[other]]
                0 <= other < MEDIUM_MAX_SLICES && other != class ==> final(self).bins@[other] == old(self).bins@[other],
            match slice {
                Some(slice) => {
                    &&& old(self).bins@[class as int].free@.len() > 0
                    &&& slice == old(self).bins@[class as int].free@.last()
                    &&& final(self).bins@[class as int].free@ == old(self).bins@[class as int].free@.drop_last()
                    &&& final(self).bins@[class as int].purge_after == (if old(self).bins@[class as int].free@.len() == 1 {
                        0
                    } else {
                        old(self).bins@[class as int].purge_after
                    })
                    &&& final(self).kept() == old(self).kept().difference(span(slice as int, class + 1))
                    &&& span(slice as int, class + 1).subset_of(old(self).kept())
                    &&& slice + class + 1 <= MEDIUM_REGION_SLICE_COUNT
                },
                None => old(self).bins@[class as int].free@.len() == 0 && *final(self) == *old(self),
            },
    {
        let ghost before = *self;
        if self.bins[class].free.len() == 0 {
            return None;
        }
        let slice: usize = self.bins[class].free.pop().unwrap();
        if self.bins[class].free.len() == 0 {
            self.bins[class].purge_after = 0;
        }
        proof {
            assert(before.bins@[class as int].free@.subrange(0, before.bins@[class as int].free@.len() - 1)
                =~= before.bins@[class as int].free@.drop_last());
            lemma_unbinned(&before, self, class as int);
        }
        Some(slice)
    }

    /// Keeps a span in its bin; a bin that was not waiting waits until `deadline`.
    pub fn put_binned(&mut self, class: usize, slice: usize, deadline: u64)
        requires
            old(self).wf(),
            class < MEDIUM_MAX_SLICES,
            slice + class + 1 <= MEDIUM_REGION_SLICE_COUNT,
            span(slice as int, class + 1).subset_of(old(self).in_use()),
        ensures
            final(self).wf(),
            final(self).same_but_kept(old(self)),
            final(self).large_free == old(self).large_free,
            final(self).large_purge_after == old(self).large_purge_after,
            final(self).bins@.len() == old(self).bins@.len(),
            forall|other: int|
                #![trigger final(self).bins@[other]]
                0 <= other < MEDIUM_MAX_SLICES && other != class ==> final(self).bins@[other] == old(self).bins@[other],
            final(self).bins@[class as int].free@ == old(self).bins@[class as int].free@.push(slice),
            final(self).bins@[class as int].purge_after == (if old(self).bins@[class as int].purge_after == 0 {
                deadline
            } else {
                old(self).bins@[class as int].purge_after
            }),
            final(self).kept() == old(self).kept().union(span(slice as int, class + 1)),
    {
        let ghost before = *self;
        self.bins[class].free.push(slice);
        if self.bins[class].purge_after == 0 {
            self.bins[class].purge_after = deadline;
        }
        proof {
            assert forall|s: int| span(slice as int, class + 1).contains(s) implies before.used_set().contains(s)
                && !before.kept().contains(s) by {
                assert(before.in_use().contains(s));
            }
            lemma_binned(&before, self, class as int, slice);
        }
    }

    /// Takes `count` slices off the first extent that has them.
    pub fn take_large_extent(&mut self, count: usize) -> (slice: Option<usize>)
        requires
            old(self).wf(),
            count > 0,
        ensures
            final(self).wf(),
            final(self).same_but_kept(old(self)),
            final(self).bins == old(self).bins,
            match slice {
                Some(slice) => {
                    &&& first_extent(old(self).large_free@, 0, count as int) is Some
                    &&& slice == old(self).large_free@[first_extent(old(self).large_free@, 0, count as int)->0].slice
                    &&& final(self).large_free@ == without_front(
                        old(self).large_free@,
                        first_extent(old(self).large_free@, 0, count as int)->0,
                        count as int,
                    )
                    &&& final(self).large_purge_after == (if final(self).large_free@.len() == 0 {
                        0
                    } else {
                        old(self).large_purge_after
                    })
                    &&& final(self).kept() == old(self).kept().difference(span(slice as int, count as int))
                    &&& span(slice as int, count as int).subset_of(old(self).kept())
                    &&& slice + count <= MEDIUM_REGION_SLICE_COUNT
                },
                None => first_extent(old(self).large_free@, 0, count as int) is None && *final(self) == *old(self),
            },
    {
        let ghost before = *self;
        let taken = take_extent(&mut self.large_free, count);
        match taken {
            Some(slice) => {
                if self.large_free.len() == 0 {
                    self.large_purge_after = 0;
                }
                proof {
                    assert(covered(before.large_free@).subset_of(before.used_set()));
                    lemma_reextended(&before, self);
                    assert forall|s: int| span(slice as int, count as int).contains(s) implies before.kept().contains(s) by {
                        assert(covered(before.large_free@).contains(s));
                    }
                    assert(self.kept() =~= before.kept().difference(span(slice as int, count as int)));
                }
                Some(slice)
            },
            None => None,
        }
    }

    /// Keeps a span among the extents; extents that were not waiting wait until `deadline`.
    pub fn insert_large_extent(&mut self, slice: usize, count: usize, deadline: u64)
        requires
            old(self).wf(),
            count > 0,
            slice + count <= MEDIUM_REGION_SLICE_COUNT,
            span(slice as int, count as int).subset_of(old(self).in_use()),
        ensures
            final(self).wf(),
            final(self).same_but_kept(old(self)),
            final(self).bins == old(self).bins,
            covered(final(self).large_free@) == covered(old(self).large_free@).union(span(slice as int, count as int)),
            final(self).large_purge_after == (if old(self).large_purge_after == 0 {
                deadline
            } else {
                old(self).large_purge_after
            }),
            final(self).kept() == old(self).kept().union(span(slice as int, count as int)),
    {
        let ghost before = *self;
        proof {
            assert forall|s: int| #[trigger] span(slice as int, count as int).contains(s) implies before.used_set().contains(s)
                && !before.kept().contains(s) by {
                assert(before.in_use().contains(s));
            }
            assert forall|s: int| covered(before.large_free@).contains(s) implies before.kept().contains(s) by {}
        }
        insert_extent(&mut self.large_free, slice, count);
        if self.large_purge_after == 0 {
            self.large_purge_after = deadline;
        }
        proof {
            lemma_reextended(&before, self);
            assert(self.kept() =~= before.kept().union(span(slice as int, count as int)));
        }
    }

    /// Whether the stores keep what those of `before` keep that may not be purged at `now`, and the
    /// rest of the region is as it was.
    pub open spec fn without_due(&self, before: &Region, now: u64, force: bool) -> bool {
        &&& self.same_but_kept(before)
        &&& forall|class: int|
            #![trigger self.bins@[class]]
            0 <= class < MEDIUM_MAX_SLICES ==> if bin_due(before.bins@[class], now, force) {
                self.bins@[class].free@.len() == 0 && self.bins@[class].purge_after == 0
            } else {
                self.bins@[class] == before.bins@[class]
            }
        &&& if before.large_due(now, force) {
            self.large_free@.len() == 0 && self.large_purge_after == 0
        } else {
            self.large_free == before.large_free && self.large_purge_after == before.large_purge_after
        }
        &&& self.kept().subset_of(before.kept())
    }

    /// Takes every span that may be purged at `now` out of the stores of kept spans. The spans
    /// stay marked as used until they are released.
    pub fn collect_due(&mut self, now: u64, force: bool) -> (spans: Vec<Extent>)
        requires
            old(self).wf(),
        ensures
            final(self).wf(),
            final(self).without_due(old(self), now, force),
            spans@ == old(self).due(now, force),
            forall|index: int|
                #![trigger spans@[index]]
                0 <= index < spans@.len() ==> spans@[index].count > 0 && spans@[index].end() <= MEDIUM_REGION_SLICE_COUNT
                    && spans@[index].slices().disjoint(final(self).kept()) && spans@[index].slices().subset_of(
                    old(self).kept(),
                ),
    {
        let ghost before = *self;
        let mut spans: Vec<Extent> = Vec::new();
        let mut class: usize = 0;
        while class < MEDIUM_MAX_SLICES
            invariant
                class <= MEDIUM_MAX_SLICES,
                self.wf(),
                self.same_but_kept(&before),
                self.large_free == before.large_free,
                self.large_purge_after == before.large_purge_after,
                spans@ == bins_due(before.bins@, class as int, now, force),
                before.bins@.len() == MEDIUM_MAX_SLICES,
                forall|other: int|
                    #![trigger self.bins@[other]]
                    0 <= other < MEDIUM_MAX_SLICES ==> if other < class && bin_due(before.bins@[other], now, force) {
                        self.bins@[other].free@.len() == 0 && self.bins@[other].purge_after == 0
                    } else {
                        self.bins@[other] == before.bins@[other]
                    },
                forall|index: int|
                    #![trigger spans@[index]]
                    0 <= index < spans@.len() ==> spans@[index].count > 0 && spans@[index].end()
                        <= MEDIUM_REGION_SLICE_COUNT && spans@[index].slices().disjoint(self.kept())
                        && spans@[index].slices().subset_of(before.kept()),
                self.kept().subset_of(before.kept()),
            decreases MEDIUM_MAX_SLICES - class,
        {
            let ghost listed = spans@;
            let ghost bin = self.bins@[class as int];
            let deadline: u64 = self.bins[class].purge_after;
            if self.bins[class].free.len() > 0 && (force || (deadline != 0 && deadline <= now)) {
                let ghost free = bin.free@;
                while self.bins[class].free.len() > 0
                    invariant
                        class < MEDIUM_MAX_SLICES,
                        self.wf(),
                        self.same_but_kept(&before),
                        self.large_free == before.large_free,
                        self.large_purge_after == before.large_purge_after,
                        free == before.bins@[class as int].free@,
                        free.len() > 0,
                        self.bins@[class as int].free@.len() <= free.len(),
                        self.bins@[class as int].free@ == free.subrange(0, self.bins@[class as int].free@.len() as int),
                        self.bins@[class as int].free@.len() == 0 ==> self.bins@[class as int].purge_after == 0,
                        spans@ == listed + bin_spans(free, class + 1).subrange(
                            0,
                            free.len() - self.bins@[class as int].free@.len(),
                        ),
                        forall|other: int|
                            #![trigger self.bins@[other]]
                            0 <= other < MEDIUM_MAX_SLICES && other != class ==> if other < class && bin_due(
                                before.bins@[other],
                                now,
                                force,
                            ) {
                                self.bins@[other].free@.len() == 0 && self.bins@[other].purge_after == 0
                            } else {
                                self.bins@[other] == before.bins@[other]
                            },
                        forall|index: int|
                            #![trigger spans@[index]]
                            0 <= index < spans@.len() ==> spans@[index].count > 0 && spans@[index].end()
                                <= MEDIUM_REGION_SLICE_COUNT && spans@[index].slices().disjoint(self.kept())
                                && spans@[index].slices().subset_of(before.kept()),
                        self.kept().subset_of(before.kept()),
                    decreases self.bins@[class as int].free@.len(),
                {
                    let ghost current = *self;
                    let ghost collected = spans@;
                    let left: usize = self.bins[class].free.len();
                    let slice: usize = self.take_binned(class).unwrap();
                    let extent = Extent { slice, count: class + 1 };
                    spans.push(extent);
                    proof {
                        let position = free.len() - left;
                        let all = bin_spans(free, class + 1);
                        assert(current.bins@[class as int].free@.drop_last() =~= free.subrange(0, left - 1));
                        assert(all.subrange(0, position + 1) =~= all.subrange(0, position).push(extent));
                        assert(spans@ =~= listed + all.subrange(0, position + 1));
                        assert forall|index: int|
                            #![trigger spans@[index]]
                            0 <= index < spans@.len() implies spans@[index].count > 0 && spans@[index].end()
                            <= MEDIUM_REGION_SLICE_COUNT && spans@[index].slices().disjoint(self.kept())
                            && spans@[index].slices().subset_of(before.kept()) by {
                            if index < collected.len() {
                                assert(spans@[index] == collected[index]);
                            } else {
                                assert(spans@[index] == extent);
                            }
                        }
                    }
                }
                proof {
                    let all = bin_spans(free, class + 1);
                    assert(all.subrange(0, free.len() as int) =~= all);
                }
            } else {
                assert(spans@ =~= listed + Seq::<Extent>::empty());
            }
            class = class + 1;
        }
        if self.large_free.len() > 0 && (force || (self.large_purge_after != 0 && self.large_purge_after <= now)) {
            let ghost listed = spans@;
            let ghost current = *self;
            let mut extents: Vec<Extent> = Vec::new();
            std::mem::swap(&mut extents, &mut self.large_free);
            self.large_purge_after = 0;
            proof {
                assert(covered(self.large_free@) =~= Set::<int>::empty());
                lemma_reextended(&current, self);
                assert forall|index: int|
                    #![trigger extents@[index]]
                    0 <= index < extents@.len() implies extents@[index].count > 0 && extents@[index].end()
                    <= MEDIUM_REGION_SLICE_COUNT && extents@[index].slices().disjoint(self.kept())
                    && extents@[index].slices().subset_of(before.kept()) by {
                    assert forall|s: int| extents@[index].slices().contains(s) implies covered(before.large_free@).contains(
                        s,
                    ) by {
                        assert(before.large_free@[index].slices().contains(s));
                    }
                    assert forall|s: int| covered(before.large_free@).contains(s) implies before.kept().contains(s) by {}
                }
            }
            spans.append(&mut extents);
        } else {
            assert(spans@ =~= spans@ + Seq::<Extent>::empty());
        }
        spans
    }
}


impl PhysicalSlice {
    /// The slice's half at `index`.
    pub open spec fn segment(self, index: int) -> PhysicalSegment {
        if index == 0 {
            self.first
        } else {
            self.second
        }
    }

    pub open spec fn with_segment(self, index: int, segment: PhysicalSegment) -> PhysicalSlice {
        if index == 0 {
            PhysicalSlice { first: segment, ..self }
        } else {
            PhysicalSlice { second: segment, ..self }
        }
    }
}

/// A region's metadata decides neither its bitmap nor its kept spans.
proof fn lemma_metadata(before: &Region, after: &Region)
    requires
        before.wf(),
        after.same_but_metadata(before),
        after.physical@.len() == MEDIUM_REGION_SLICE_COUNT,
        after.allocations@.len() == MEDIUM_REGION_SLICE_COUNT,
    ensures
        after.wf(),
        after.kept() == before.kept(),
{
    lemma_same_kept(before, after);
    assert forall|kept: int| #![trigger after.used_set().contains(kept)] before.kept().contains(kept) implies after.used_set().contains(
        kept,
    ) by {
        lemma_kept_is_used(before, kept);
    }
    lemma_remark(before, after);
}

impl Region {
    /// Records the medium allocation that starts at a slice.
    pub fn register_medium(&mut self, slice: usize, slice_count: usize, requested_bytes: usize, owner: SpanOwner)
        requires
            old(self).wf(),
            slice < MEDIUM_REGION_SLICE_COUNT,
            slice_count <= MEDIUM_REGION_SLICE_COUNT,
        ensures
            final(self).wf(),
            final(self).same_but_metadata(old(self)),
            final(self).kept() == old(self).kept(),
            final(self).allocations@ == old(self).allocations@.update(
                slice as int,
                MediumAllocation {
                    owner,
                    requested_bytes,
                    usable_bytes: (slice_count * MEDIUM_SLICE_SIZE) as usize,
                },
            ),
            final(self).physical@ == old(self).physical@.update(
                slice as int,
                PhysicalSlice {
                    kind: PhysicalSliceKind::Medium,
                    span: slice_count,
                    owner: owner.heap,
                    ..old(self).physical@[slice as int]
                },
            ),
    {
        let ghost before = *self;
        assert(slice_count * MEDIUM_SLICE_SIZE <= 0x4000_0000) by (nonlinear_arith)
            requires
                slice_count <= 16384,
                MEDIUM_SLICE_SIZE == 65536,
        ;
        self.allocations[slice] = MediumAllocation {
            owner,
            requested_bytes,
            usable_bytes: slice_count * MEDIUM_SLICE_SIZE,
        };
        let mut physical: PhysicalSlice = self.physical[slice];
        physical.kind = PhysicalSliceKind::Medium;
        physical.span = slice_count;
        physical.owner = owner.heap;
        self.physical[slice] = physical;
        proof {
            lemma_metadata(&before, self);
        }
    }

    /// Forgets the medium allocation that starts at a slice, and returns it.
    pub fn unregister_medium(&mut self, slice: usize) -> (allocation: MediumAllocation)
        requires
            old(self).wf(),
            slice < MEDIUM_REGION_SLICE_COUNT,
        ensures
            final(self).wf(),
            final(self).same_but_metadata(old(self)),
            final(self).kept() == old(self).kept(),
            allocation == old(self).allocations@[slice as int],
            final(self).allocations@ == old(self).allocations@.update(slice as int, no_allocation()),
            final(self).physical@ == old(self).physical@.update(
                slice as int,
                PhysicalSlice { owner: 0, ..old(self).physical@[slice as int] },
            ),
    {
        let ghost before = *self;
        let allocation: MediumAllocation = self.allocations[slice];
        self.allocations[slice] = MediumAllocation::new();
        let mut physical: PhysicalSlice = self.physical[slice];
        physical.owner = 0;
        self.physical[slice] = physical;
        proof {
            lemma_metadata(&before, self);
        }
        allocation
    }

    /// Records that one half of a slice is a slab.
    pub fn record_small_segment(
        &mut self,
        slice: usize,
        segment_index: usize,
        class_index: usize,
        context: bool,
        owner: usize,
        usable_blocks: usize,
        utilization_tracked: bool,
    )
        requires
            old(self).wf(),
            slice < MEDIUM_REGION_SLICE_COUNT,
            segment_index < 2,
        ensures
            final(self).wf(),
            final(self).same_but_metadata(old(self)),
            final(self).allocations == old(self).allocations,
            final(self).kept() == old(self).kept(),
            final(self).physical@ == old(self).physical@.update(
                slice as int,
                (PhysicalSlice { kind: PhysicalSliceKind::Small, span: 0, owner, ..old(self).physical@[slice as int] }).with_segment(
                    segment_index as int,
                    PhysicalSegment {
                        class_index: Some(class_index),
                        context,
                        usable_blocks,
                        utilization_tracked,
                        live_blocks: old(self).physical@[slice as int].segment(segment_index as int).live_blocks,
                    },
                ),
            ),
    {
        let ghost before = *self;
        let mut physical: PhysicalSlice = self.physical[slice];
        physical.kind = PhysicalSliceKind::Small;
        physical.span = 0;
        physical.owner = owner;
        let live_blocks: usize = if segment_index == 0 {
            physical.first.live_blocks
        } else {
            physical.second.live_blocks
        };
        let segment = PhysicalSegment {
            class_index: Some(class_index),
            context,
            usable_blocks,
            live_blocks,
            utilization_tracked,
        };
        if segment_index == 0 {
            physical.first = segment;
        } else {
            physical.second = segment;
        }
        self.physical[slice] = physical;
        proof {
            lemma_metadata(&before, self);
        }
    }

    /// Counts a block of one half of a slice in or out; the counter wraps as it does in memory.
    pub fn update_live_blocks(&mut self, slice: usize, segment_index: usize, allocate: bool)
        requires
            old(self).wf(),
            slice < MEDIUM_REGION_SLICE_COUNT,
            segment_index < 2,
        ensures
            final(self).wf(),
            final(self).same_but_metadata(old(self)),
            final(self).allocations == old(self).allocations,
            final(self).kept() == old(self).kept(),
            ({
                let segment = old(self).physical@[slice as int].segment(segment_index as int);
                final(self).physical@ == old(self).physical@.update(
                    slice as int,
                    old(self).physical@[slice as int].with_segment(
                        segment_index as int,
                        PhysicalSegment {
                            live_blocks: if allocate {
                                segment.live_blocks.wrapping_add(1)
                            } else {
                                segment.live_blocks.wrapping_sub(1)
                            },
                            ..segment
                        },
                    ),
                )
            }),
    {
        let ghost before = *self;
        let mut physical: PhysicalSlice = self.physical[slice];
        let live_blocks: usize = if segment_index == 0 {
            physical.first.live_blocks
        } else {
            physical.second.live_blocks
        };
        let updated: usize = if allocate {
            live_blocks.wrapping_add(1)
        } else {
            live_blocks.wrapping_sub(1)
        };
        if segment_index == 0 {
            physical.first.live_blocks = updated;
        } else {
            physical.second.live_blocks = updated;
        }
        self.physical[slice] = physical;
        proof {
            lemma_metadata(&before, self);
        }
    }

    /// Records that a slice is a chunk of a bump heap.
    pub fn register_bump_chunk(&mut self, slice: usize, state: usize)
        requires
            old(self).wf(),
            slice < MEDIUM_REGION_SLICE_COUNT,
        ensures
            final(self).wf(),
            final(self).same_but_metadata(old(self)),
            final(self).allocations == old(self).allocations,
            final(self).kept() == old(self).kept(),
            final(self).physical@ == old(self).physical@.update(
                slice as int,
                PhysicalSlice {
                    kind: PhysicalSliceKind::Bump,
                    span: 1,
                    owner: state,
                    bump_state: state,
                    ..old(self).physical@[slice as int]
                },
            ),
    {
        let ghost before = *self;
        let mut physical: PhysicalSlice = self.physical[slice];
        physical.kind = PhysicalSliceKind::Bump;
        physical.span = 1;
        physical.owner = state;
        physical.bump_state = state;
        self.physical[slice] = physical;
        proof {
            lemma_metadata(&before, self);
        }
    }

    /// The bump heap that the slice is a chunk of.
    pub open spec fn bump_at(&self, slice: int) -> Option<usize> {
        if self.physical@[slice].kind == PhysicalSliceKind::Bump && self.physical@[slice].bump_state != 0 {
            Some(self.physical@[slice].bump_state)
        } else {
            None
        }
    }

    pub fn bump_state_in_region(&self, address: usize) -> (state: Option<usize>)
        requires
            self.wf(),
            self.holds(address as int),
        ensures
            state == self.bump_at(self.slice_of(address as int)),
    {
        let slice: usize = self.slice_index(address);
        let physical: PhysicalSlice = self.physical[slice];
        match physical.kind {
            PhysicalSliceKind::Bump => if physical.bump_state != 0 {
                Some(physical.bump_state)
            } else {
                None
            },
            _ => None,
        }
    }

    /// The slice that an address of the region lies in.
    pub fn slice_index(&self, address: usize) -> (slice: usize)
        requires
            self.wf(),
            self.holds(address as int),
        ensures
            slice == self.slice_of(address as int),
            slice < MEDIUM_REGION_SLICE_COUNT,
    {
        (address - self.base) / MEDIUM_SLICE_SIZE
    }

    /// The half of its slice that an address of the region lies in.
    pub fn segment_index(&self, address: usize) -> (segment: usize)
        requires
            self.wf(),
            self.holds(address as int),
        ensures
            segment as int == (address - self.base) % (MEDIUM_SLICE_SIZE as int) / (SLAB_SIZE as int),
            segment < 2,
    {
        (address - self.base) % MEDIUM_SLICE_SIZE / SLAB_SIZE
    }
}

} // verus!
