//! What the choices of the allocator come to: which block serves a layout, what it is counted as, and
//! when memory goes back.

use vstd::prelude::*;
use vstd::arithmetic::power2::pow2;

use crate::allocator::accounting::{came_in, freed_class, with_freed, with_served};
use crate::allocator::allocation::{AllocStep, ServedKind};
use crate::allocator::classes::{cache_slot, lemma_cache_slot, lemma_class_from, medium_slices, small_class};
use crate::allocator::deallocation::FreeStep;
use crate::allocator::direct::{direct_address, mapping_bytes, record_at, record_class, ExtraHeader};
use crate::allocator::domains::{due_spans, first_keeping, first_open, keeps_span, purge_spans, PurgeSpan};
use crate::allocator::heaps::HeapState;
use crate::allocator::layout::{aligned, lemma_aligned, Layout};
use crate::allocator::logging::logged_owner;
use crate::allocator::region::{bins_due, MediumBin, PhysicalSliceKind, Region};
use crate::allocator::remote::RemoteUsage;
use crate::allocator::retire::{kept_spans, KeptSpan};
use crate::allocator::slab::SlabModel;
use crate::allocator::slices::{first_extent, lemma_first_run, next_run, run_is_free, Extent};
use crate::allocator::small::most_free;
use crate::allocator::snapshots::{region_shown, slices_shown};
use crate::allocator::threads::{route, Route, ThreadState};
use crate::telemetry::aggregates::CountsModel;
use crate::telemetry::events::HeapKind;
use crate::telemetry::laws::law_sizes_have_one_bucket;
use crate::tunables::{fits, valid_sizes};

verus! {

/// Whether blocks of a class have the bytes of a layout, and lie where it asks for.
pub open spec fn class_holds(sizes: Seq<usize>, class: int, layout: Layout) -> bool {
    &&& 0 <= class < sizes.len()
    &&& 1 <= sizes[class] && layout.size <= sizes[class] && layout.align <= sizes[class]
    &&& layout.align > 16 ==> sizes[class] as int % layout.align as int == 0
}

/// A block of a slab is of the smallest class that holds its layout. There is none for an alignment of
/// more than a page, nor where no class holds the layout.
pub proof fn law_small_blocks_are_of_the_smallest_class(sizes: Seq<usize>, layout: Layout)
    requires
        valid_sizes(sizes),
        layout.wf(),
    ensures
        match small_class(sizes, layout) {
            Some(class) => {
                &&& layout.align <= 4096
                &&& class_holds(sizes, class as int, layout)
                &&& forall|other: int| #[trigger] class_holds(sizes, other, layout) ==> class <= other && sizes[class as int] <= sizes[other]
            },
            None => layout.align > 4096 || forall|other: int| !#[trigger] class_holds(sizes, other, layout),
        },
        layout.align <= 16 && layout.size <= 16384 ==> small_class(sizes, layout) is Some,
        layout.size > 16384 ==> small_class(sizes, layout) is None,
{
    let required = if layout.spec_bytes() < layout.align {
        layout.align as int
    } else {
        layout.spec_bytes()
    };
    let alignment = if layout.align <= 16 {
        1
    } else {
        layout.align as int
    };
    lemma_class_from(sizes, 0, required, alignment);
    let last = sizes.len() - 1;
    assert forall|other: int| 0 <= other < sizes.len() implies sizes[other] <= 16384 by {
        if other < last {
            assert(sizes[other] < sizes[last]);
        }
    }
    assert forall|other: int| #[trigger] class_holds(sizes, other, layout) <==> fits(sizes, other, required, alignment) by {
        if 0 <= other < sizes.len() {
            assert(sizes[other] != 0 && sizes[other] % 16 == 0);
        }
    }
    if layout.align <= 16 && layout.size <= 16384 {
        assert(class_holds(sizes, last, layout));
    }
    if let Some(class) = small_class(sizes, layout) {
        assert(class_holds(sizes, class as int, layout));
        assert forall|other: int| #[trigger] class_holds(sizes, other, layout) implies class <= other && sizes[class as int]
            <= sizes[other] by {
            assert(fits(sizes, other, required, alignment));
            if class < other {
                assert(sizes[class as int] < sizes[other]);
            }
        }
    }
}

/// Whether blocks of a class have room for a layout behind the offset of its bytes, and for a record behind
/// them.
pub open spec fn class_holds_record(sizes: Seq<usize>, class: int, layout: Layout) -> bool {
    &&& 0 <= class < sizes.len()
    &&& (if layout.size == 0 {
        1
    } else {
        layout.size as int
    }) + (if layout.align < 16 {
        16
    } else {
        layout.align as int
    }) + 96 <= sizes[class]
    &&& sizes[class] as int % layout.align as int == 0
}

/// A block with a record is of the smallest class that holds both.
pub proof fn law_recorded_blocks_are_of_the_smallest_class(sizes: Seq<usize>, layout: Layout)
    requires
        valid_sizes(sizes),
        layout.wf(),
    ensures
        match record_class(sizes, layout) {
            Some(class) => {
                &&& layout.align <= 4096
                &&& class_holds_record(sizes, class as int, layout)
                &&& forall|other: int| #[trigger] class_holds_record(sizes, other, layout) ==> class <= other
            },
            None => layout.align > 4096 || forall|other: int| !#[trigger] class_holds_record(sizes, other, layout),
        },
{
    let required = layout.spec_bytes() + (if layout.align < 16 {
        16
    } else {
        layout.align as int
    }) + 96;
    lemma_class_from(sizes, 0, required, layout.align as int);
    assert forall|other: int| #[trigger] class_holds_record(sizes, other, layout) <==> fits(sizes, other, required, layout.align as int) by {}
    if let Some(class) = record_class(sizes, layout) {
        assert(fits(sizes, class as int, required, layout.align as int));
        assert(class_holds_record(sizes, class as int, layout));
    }
}

/// A medium block takes as many slices as its bytes begin, and no more. There is none for an alignment
/// of more than a slice, nor for more bytes than a region has.
pub proof fn law_medium_blocks_take_no_slice_too_many(layout: Layout)
    ensures
        match medium_slices(layout) {
            Some(slices) => {
                &&& layout.align <= 65536
                &&& 1 <= slices <= 16384
                &&& layout.size <= slices * 65536
                &&& slices > 1 ==> (slices - 1) * 65536 < layout.size
            },
            None => layout.align > 65536 || layout.size > 1073741824,
        },
{
}

/// A block that is not recorded is of a slab where a class holds it, a span of slices where it is larger
/// and a region holds it, and else has a mapping of its own. A recorded block that no class holds has a
/// mapping of its own.
pub proof fn law_blocks_come_from_the_smallest_store(sizes: Seq<usize>, layout: Layout)
    requires
        valid_sizes(sizes),
        layout.wf(),
    ensures
        layout.size <= 16384 && layout.align <= 16 ==> route(sizes, layout, false) is Small,
        16384 < layout.size <= 1073741824 && layout.align <= 65536 ==> route(sizes, layout, false) == Route::Medium,
        layout.size > 1073741824 || layout.align > 65536 ==> route(sizes, layout, false) == Route::Direct,
        route(sizes, layout, false) matches Route::Small { class } ==> class_holds(sizes, class as int, layout),
        route(sizes, layout, true) matches Route::Small { class } ==> class_holds_record(sizes, class as int, layout),
        !(route(sizes, layout, true) is Medium),
        layout.size > 16384 || layout.align > 4096 ==> route(sizes, layout, true) == Route::Direct,
{
    law_small_blocks_are_of_the_smallest_class(sizes, layout);
    law_recorded_blocks_are_of_the_smallest_class(sizes, layout);
    law_medium_blocks_take_no_slice_too_many(layout);
    if let Some(class) = record_class(sizes, layout) {
        let last = sizes.len() - 1;
        if class < last {
            assert(sizes[class as int] < sizes[last]);
        }
    }
}

/// Wherever its mapping starts, a block in a mapping of its own lies at a multiple of its alignment, behind
/// its record, and within the mapping with all its bytes. It is given up only at the end of the address space.
pub proof fn law_mappings_hold_their_block(layout: Layout, class_size: Option<usize>, mapping: int)
    requires
        layout.wf(),
        layout.align > 0,
        0 < mapping,
    ensures
        match direct_address(layout, class_size, mapping) {
            Some(user) => {
                &&& user % layout.align as int == 0
                &&& mapping + 96 + 16 <= user
                &&& user + layout.size <= mapping + mapping_bytes(layout, class_size)
                &&& user < mapping + mapping_bytes(layout, class_size)
            },
            None => mapping + mapping_bytes(layout, class_size) > usize::MAX,
        },
        class_size is None ==> mapping_bytes(layout, class_size) == layout.spec_bytes() + layout.align - 1 + 96 + 16,
        class_size is Some ==> mapping_bytes(layout, class_size) == layout.spec_bytes() + 2 * layout.align - 1 + 96 + 16,
{
    let align = layout.align as int;
    let first = mapping + 96 + 16;
    lemma_aligned(first, align);
    let user = aligned(first, align);
    assert((user + align) % align == 0) by {
        vstd::arithmetic::div_mod::lemma_mod_add_multiples_vanish(user, align);
        assert(user + align == align + user);
    }
}

/// A heap keeps a span exactly where it has a slot for as many slices, and spans of so many bytes are to be
/// kept.
pub proof fn law_spans_are_kept_up_to_the_limit(heap: HeapState, slices: int)
    ensures
        match heap.cache_slot(slices) {
            Some(slot) => slot < 8 && slices == pow2(slot as nat) && slices * 65536 <= heap.medium_cache_max_bytes,
            None => slices * 65536 > heap.medium_cache_max_bytes || forall|slot: usize| slot < 8 ==> slices != #[trigger] pow2(slot as nat),
        },
{
    if exists|slot: usize| slot < 8 && slices == #[trigger] pow2(slot as nat) {
        let slot = choose|slot: usize| slot < 8 && slices == #[trigger] pow2(slot as nat);
        lemma_cache_slot(slices, slot);
        assert(cache_slot(slices) == Some(slot));
    }
}

/// What a heap keeps is listed once for each of its slots that holds a span, with the slices of the slot.
pub proof fn law_kept_spans_are_those_of_the_slots(cache: Seq<usize>, count: int)
    requires
        0 <= count <= cache.len(),
    ensures
        forall|slot: int|
            #![trigger cache[slot]]
            0 <= slot < count && cache[slot] != 0 ==> kept_spans(cache, count).contains(
                KeptSpan { address: cache[slot], slices: pow2(slot as nat) as usize },
            ),
        forall|at: int|
            #![trigger kept_spans(cache, count)[at]]
            0 <= at < kept_spans(cache, count).len() ==> kept_spans(cache, count)[at].address != 0 && exists|slot: int|
                0 <= slot < count && #[trigger] cache[slot] == kept_spans(cache, count)[at].address && kept_spans(cache, count)[at].slices
                    == pow2(slot as nat) as usize,
        kept_spans(cache, count).len() <= count,
    decreases count,
{
    if count > 0 {
        law_kept_spans_are_those_of_the_slots(cache, count - 1);
        let earlier = kept_spans(cache, count - 1);
        let all = kept_spans(cache, count);
        assert forall|slot: int|
            #![trigger cache[slot]]
            0 <= slot < count && cache[slot] != 0 implies all.contains(KeptSpan { address: cache[slot], slices: pow2(slot as nat) as usize }) by {
            let span = KeptSpan { address: cache[slot], slices: pow2(slot as nat) as usize };
            if slot < count - 1 {
                assert(earlier.contains(span));
                let at = choose|at: int| 0 <= at < earlier.len() && earlier[at] == span;
                assert(all[at] == span);
            } else {
                assert(all[all.len() - 1] == span);
            }
        }
        assert forall|at: int|
            #![trigger all[at]]
            0 <= at < all.len() implies all[at].address != 0 && exists|slot: int|
            0 <= slot < count && #[trigger] cache[slot] == all[at].address && all[at].slices == pow2(slot as nat) as usize by {
            if at < earlier.len() {
                assert(all[at] == earlier[at]);
            } else {
                assert(cache[count - 1] == all[at].address);
            }
        }
    }
}

/// Whether an extent is a span of a bin that is to be purged: it has the bin's length, and the bin's time
/// has come, or the purge does not wait for it.
pub open spec fn overdue_in(bins: Seq<MediumBin>, class: int, extent: Extent, now: u64, force: bool) -> bool {
    &&& extent.count == class + 1
    &&& bins[class].free@.contains(extent.slice)
    &&& force || 0 < bins[class].purge_after <= now
}

/// A purge takes every span of the bins whose time has come, and no other.
pub proof fn law_purges_take_what_is_overdue(bins: Seq<MediumBin>, classes: int, now: u64, force: bool, extent: Extent)
    requires
        0 <= classes <= bins.len(),
        classes <= usize::MAX,
    ensures
        bins_due(bins, classes, now, force).contains(extent) <==> exists|class: int|
            0 <= class < classes && #[trigger] overdue_in(bins, class, extent, now, force),
    decreases classes,
{
    let all = bins_due(bins, classes, now, force);
    if classes > 0 {
        law_purges_take_what_is_overdue(bins, classes - 1, now, force, extent);
        let earlier = bins_due(bins, classes - 1, now, force);
        let free = bins[classes - 1].free@;
        if all.contains(extent) {
            let at = choose|at: int| 0 <= at < all.len() && all[at] == extent;
            if at < earlier.len() {
                assert(earlier[at] == extent);
                assert(earlier.contains(extent));
            } else {
                assert(free[free.len() - 1 - (at - earlier.len())] == extent.slice);
                assert(overdue_in(bins, classes - 1, extent, now, force));
            }
        }
        if exists|class: int| 0 <= class < classes && #[trigger] overdue_in(bins, class, extent, now, force) {
            let class = choose|class: int| 0 <= class < classes && #[trigger] overdue_in(bins, class, extent, now, force);
            if class < classes - 1 {
                assert(earlier.contains(extent));
                let at = choose|at: int| 0 <= at < earlier.len() && earlier[at] == extent;
                assert(all[at] == extent);
            } else {
                let place = choose|place: int| 0 <= place < free.len() && free[place] == extent.slice;
                assert(free[place] == extent.slice);
                let at = earlier.len() + (free.len() - 1 - place);
                assert(all[at].slice == extent.slice);
                assert(all[at] == extent);
            }
        }
    }
}

/// A purge of a region takes the overdue spans of its bins, and its longer spans where their time has come.
pub proof fn law_purged_regions_lose_what_is_overdue(region: Region, now: u64, force: bool, extent: Extent)
    requires
        region.bins@.len() == 512,
    ensures
        region.due(now, force).contains(extent) <==> {
            ||| exists|class: int| 0 <= class < 512 && #[trigger] overdue_in(region.bins@, class, extent, now, force)
            ||| region.large_free@.contains(extent) && (force || 0 < region.large_purge_after <= now)
        },
{
    law_purges_take_what_is_overdue(region.bins@, 512, now, force, extent);
    let short = bins_due(region.bins@, 512, now, force);
    let all = region.due(now, force);
    if all.contains(extent) {
        let at = choose|at: int| 0 <= at < all.len() && all[at] == extent;
        if at < short.len() {
            assert(short[at] == extent);
            assert(short.contains(extent));
        } else {
            assert(region.large_free@[at - short.len()] == extent);
            assert(region.large_free@.contains(extent));
        }
    }
    if short.contains(extent) {
        let at = choose|at: int| 0 <= at < short.len() && short[at] == extent;
        assert(all[at] == extent);
    }
    if region.large_free@.contains(extent) && (force || 0 < region.large_purge_after <= now) {
        let at = choose|at: int| 0 <= at < region.large_free@.len() && region.large_free@[at] == extent;
        assert(all[short.len() + at] == extent);
    }
}

/// The class that a block was served from, where it is one of a slab.
pub open spec fn served_class(kind: ServedKind) -> Option<usize> {
    match kind {
        ServedKind::Small { class } => Some(class),
        ServedKind::Recorded { class } => Some(class),
        _ => None,
    }
}

/// A block counts once, with the bytes that were asked for. One of a slab counts for its class too, and for
/// no other.
pub proof fn law_served_blocks_count_for_their_class(counts: CountsModel, sizes: Seq<usize>, layout: Layout, kind: ServedKind, other: int)
    requires
        counts.shape(),
        sizes.len() <= 48,
        0 <= other < 48,
        served_class(kind) matches Some(class) ==> class < sizes.len(),
    ensures
        ({
            let now = with_served(counts, sizes, layout, kind);
            &&& now.allocations == counts.allocations.wrapping_add(1)
            &&& now.allocated_bytes == counts.allocated_bytes.wrapping_add(layout.size)
            &&& now.deallocations == counts.deallocations
            &&& now.deallocated_bytes == counts.deallocated_bytes
            &&& if served_class(kind) is Some && served_class(kind)->0 == other {
                &&& now.class_allocations[other] == counts.class_allocations[other].wrapping_add(1)
                &&& now.class_allocated_bytes[other] == counts.class_allocated_bytes[other].wrapping_add(layout.size)
                &&& now.class_block_bytes[other] == sizes[other]
            } else {
                &&& now.class_allocations[other] == counts.class_allocations[other]
                &&& now.class_allocated_bytes[other] == counts.class_allocated_bytes[other]
                &&& now.class_block_bytes[other] == counts.class_block_bytes[other]
            }
            &&& now.class_deallocations == counts.class_deallocations
            &&& now.class_deallocated_bytes == counts.class_deallocated_bytes
        }),
{
}

/// A block that is freed is counted under the class of its slab or of its record, and under no other.
pub proof fn law_freed_blocks_count_for_their_class(counts: CountsModel, layout: Layout, step: FreeStep, other: int)
    requires
        counts.shape(),
        0 <= other < 48,
        freed_class(step) matches Some(class) ==> class < 48,
    ensures
        step matches FreeStep::Small { class, to } ==> freed_class(step) == Some(class),
        step matches FreeStep::Recorded { extra, to } ==> freed_class(step) == extra.class_index,
        !(step is Small) && !(step is Recorded) ==> freed_class(step) is None,
        ({
            let now = with_freed(counts, layout, step);
            &&& now.deallocations == counts.deallocations.wrapping_add(1)
            &&& now.deallocated_bytes == counts.deallocated_bytes.wrapping_add(layout.size)
            &&& now.allocations == counts.allocations
            &&& now.allocated_bytes == counts.allocated_bytes
            &&& if freed_class(step) is Some && freed_class(step)->0 == other {
                &&& now.class_deallocations[other] == counts.class_deallocations[other].wrapping_add(1)
                &&& now.class_deallocated_bytes[other] == counts.class_deallocated_bytes[other].wrapping_add(layout.size)
            } else {
                &&& now.class_deallocations[other] == counts.class_deallocations[other]
                &&& now.class_deallocated_bytes[other] == counts.class_deallocated_bytes[other]
            }
            &&& now.class_allocations == counts.class_allocations
            &&& now.class_allocated_bytes == counts.class_allocated_bytes
        }),
{
}

/// Serving a block and freeing it leaves as many blocks live of each size as there were.
pub proof fn law_freeing_takes_a_block_off_the_live_ones(counts: CountsModel, sizes: Seq<usize>, layout: Layout, kind: ServedKind, step: FreeStep)
    requires
        counts.shape(),
    ensures
        with_freed(with_served(counts, sizes, layout, kind), layout, step).size_live == counts.size_live,
{
    law_sizes_have_one_bucket(layout.size as int, 0);
    let now = with_freed(with_served(counts, sizes, layout, kind), layout, step);
    assert(now.size_live =~= counts.size_live);
}

/// The memory of a span is that of its slices, that of a slice one slice, that of a slab half a slice, and that
/// of a mapping all of it. No other step brings in memory, but for what was committed to slabs.
pub proof fn law_memory_that_comes_in_is_counted(step: AllocStep, layout: Layout, committed: usize)
    ensures
        step matches AllocStep::Span { heap, address } ==> (came_in(step, layout, committed) matches Some(bytes) ==> bytes % 65536 == 0
            && bytes - 65536 < layout.spec_bytes() <= bytes),
        step is Slice ==> came_in(step, layout, committed) == Some(65536int),
        step matches AllocStep::Mapping { plan, recorded, owner } ==> came_in(step, layout, committed) == Some(plan.mapping_size as int),
        step is Refill && committed != 0 ==> (came_in(step, layout, committed) == Some(committed as int) || came_in(
            step,
            layout,
            committed,
        ) == Some(32768int)),
        !(step is Refill) && !(step is Slice) && !(step is Span) && !(step is Mapping) ==> came_in(step, layout, committed) is None,
{
}

/// A thread heap counts a block of its slabs with what was asked for and with what the block holds, until it
/// is freed.
pub proof fn law_thread_heaps_count_blocks_until_freed(usage: RemoteUsage, requested_bytes: usize, usable_bytes: usize)
    ensures
        usage.with_allocation(requested_bytes, usable_bytes).without_allocation(requested_bytes, usable_bytes) == usage,
        usage.live_allocations < usize::MAX ==> usage.with_allocation(requested_bytes, usable_bytes).live_allocations
            == usage.live_allocations + 1,
        usage.requested_bytes + requested_bytes <= usize::MAX ==> usage.with_allocation(requested_bytes, usable_bytes).requested_bytes
            == usage.requested_bytes + requested_bytes,
        usage.usable_bytes + usable_bytes <= usize::MAX ==> usage.with_allocation(requested_bytes, usable_bytes).usable_bytes
            == usage.usable_bytes + usable_bytes,
        usage.with_allocation(requested_bytes, usable_bytes).reserved_bytes == usage.reserved_bytes,
        usage.with_allocation(requested_bytes, usable_bytes).committed_bytes == usage.committed_bytes,
        usage.with_slice().live_allocations == usage.live_allocations,
        usage.reserved_bytes + 65536 <= usize::MAX ==> usage.with_slice().reserved_bytes == usage.reserved_bytes + 65536,
        usage.committed_bytes + 65536 <= usize::MAX ==> usage.with_slice().committed_bytes == usage.committed_bytes + 65536,
        usage.slab_count + 2 <= usize::MAX ==> usage.with_slice().slab_count == usage.slab_count + 2,
        usage.slice_count < usize::MAX ==> usage.with_slice().slice_count == usage.slice_count + 1,
{
}

/// Whether so many slices from one on are in the region and free.
pub open spec fn free_from(used: Set<int>, slice: int, count: int) -> bool {
    &&& 0 <= slice && slice + count <= 16384
    &&& forall|other: int| slice <= other < slice + count ==> !#[trigger] used.contains(other)
}

/// Slices are taken where the first free ones in a row are behind those that were taken last, and where there are
/// none, where the first ones of the region are. There are none only where the region has none.
pub proof fn law_the_next_free_slices_are_taken(used: Set<int>, start: int, count: int)
    requires
        0 <= start,
        0 < count,
    ensures
        match next_run(used, start, count) {
            Some(run) => {
                &&& free_from(used, run, count)
                &&& start <= run ==> forall|other: int| start <= other < run ==> !#[trigger] free_from(used, other, count)
                &&& run < start ==> forall|other: int| #[trigger] free_from(used, other, count) ==> run <= other < start
            },
            None => forall|other: int| !#[trigger] free_from(used, other, count),
        },
{
    lemma_first_run(used, start, 16384, count);
    lemma_first_run(used, 0, 16384, count);
    assert forall|other: int| #[trigger] free_from(used, other, count) implies run_is_free(used, other, count) by {}
}

/// The first region that has so many free slices in a row gives them.
pub proof fn law_the_first_open_region_gives_slices(regions: Seq<Region>, start: int, count: int)
    requires
        0 <= start,
        0 < count,
        forall|at: int| 0 <= at < regions.len() ==> (#[trigger] regions[at]).wf(),
    ensures
        match first_open(regions, start, count) {
            Some(region) => {
                &&& start <= region < regions.len()
                &&& exists|slice: int| #[trigger] free_from(regions[region].used_set(), slice, count)
                &&& forall|earlier: int, slice: int|
                    start <= earlier < region ==> !#[trigger] free_from(regions[earlier].used_set(), slice, count)
            },
            None => forall|region: int, slice: int|
                start <= region < regions.len() ==> !#[trigger] free_from(regions[region].used_set(), slice, count),
        },
    decreases regions.len() - start,
{
    if start < regions.len() {
        assert(regions[start].wf());
        let used = regions[start].used_set();
        law_the_next_free_slices_are_taken(used, regions[start].next_slice as int, count);
        match next_run(used, regions[start].next_slice as int, count) {
            Some(run) => {
                assert(free_from(regions[start].used_set(), run, count));
            },
            None => {
                law_the_first_open_region_gives_slices(regions, start + 1, count);
            },
        }
    }
}

/// Of the longer spans that are kept, the first that is long enough is taken.
pub proof fn law_the_first_long_enough_span_is_taken(extents: Seq<Extent>, start: int, count: int)
    requires
        0 <= start,
    ensures
        match first_extent(extents, start, count) {
            Some(index) => {
                &&& start <= index < extents.len()
                &&& count <= extents[index].count
                &&& forall|earlier: int| start <= earlier < index ==> (#[trigger] extents[earlier]).count < count
            },
            None => forall|index: int| start <= index < extents.len() ==> (#[trigger] extents[index]).count < count,
        },
    decreases extents.len() - start,
{
    if start < extents.len() && extents[start].count < count {
        law_the_first_long_enough_span_is_taken(extents, start + 1, count);
    }
}

/// Whether a region keeps a span for so many slices: one of just as many, or for more than 512 one that has
/// them.
pub open spec fn keeps_for(region: Region, slices: int) -> bool {
    if slices <= 512 {
        region.bins@[slices - 1].free@.len() > 0
    } else {
        exists|index: int| 0 <= index < region.large_free@.len() && slices <= (#[trigger] region.large_free@[index]).count
    }
}

/// The first region that keeps a span for so many slices gives it.
pub proof fn law_the_first_keeping_region_gives_its_span(regions: Seq<Region>, start: int, slices: int)
    requires
        0 <= start,
        0 < slices,
    ensures
        match first_keeping(regions, start, slices) {
            Some(region) => {
                &&& start <= region < regions.len()
                &&& keeps_for(regions[region], slices)
                &&& forall|earlier: int| start <= earlier < region ==> !keeps_for(#[trigger] regions[earlier], slices)
            },
            None => forall|region: int| start <= region < regions.len() ==> !keeps_for(#[trigger] regions[region], slices),
        },
    decreases regions.len() - start,
{
    if start < regions.len() {
        law_the_first_long_enough_span_is_taken(regions[start].large_free@, 0, slices);
        assert(keeps_for(regions[start], slices) <==> keeps_span(regions[start], slices)) by {
            if slices > 512 {
                if let Some(index) = first_extent(regions[start].large_free@, 0, slices) {
                    assert(slices <= regions[start].large_free@[index].count);
                }
            }
        }
        if !keeps_span(regions[start], slices) {
            law_the_first_keeping_region_gives_its_span(regions, start + 1, slices);
        }
    }
}

/// Of the slabs at the head of a partial list, the one with the most free blocks is used next, and of several such
/// the one nearest to the head.
pub proof fn law_the_emptiest_slab_is_used_next(partial: Seq<usize>, slabs: Map<usize, SlabModel>, scanned: int)
    requires
        0 < partial.len(),
        0 < scanned <= partial.len(),
    ensures
        ({
            let last = partial.len() - 1;
            &&& most_free(partial, slabs, scanned) matches Some(best)
            &&& 0 <= best < scanned
            &&& forall|other: int|
                #![trigger partial[last - other]]
                0 <= other < scanned ==> slabs[partial[last - other]].free().len() <= slabs[partial[last - best]].free().len()
            &&& forall|other: int|
                #![trigger partial[last - other]]
                0 <= other < best ==> slabs[partial[last - other]].free().len() < slabs[partial[last - best]].free().len()
        }),
    decreases scanned,
{
    if scanned > 1 {
        law_the_emptiest_slab_is_used_next(partial, slabs, scanned - 1);
    } else {
        assert(most_free(partial, slabs, 0) is None);
    }
    let last = partial.len() - 1;
    let now = partial[last - (scanned - 1)];
    assert(now == partial[partial.len() - scanned]);
    assert forall|other: int|
        #![trigger partial[last - other]]
        0 <= other < scanned implies slabs[partial[last - other]].free().len() <= slabs[partial[last
        - most_free(partial, slabs, scanned)->0]].free().len() by {
        if other == scanned - 1 {
            assert(partial[last - other] == now);
        }
    }
}

/// Whether the span of a purge is one of a region that is to be purged.
pub open spec fn overdue_span(region: Region, span: PurgeSpan, now: u64, force: bool) -> bool {
    exists|extent: Extent|
        #[trigger] region.due(now, force).contains(extent) && span.slices == extent.count && span.address == (region.base + extent.slice
            * 65536) as usize
}

/// A purge gives back every overdue span of its regions, and no other.
pub proof fn law_purges_give_back_overdue_spans(regions: Seq<Region>, count: int, now: u64, force: bool, span: PurgeSpan)
    requires
        0 <= count <= regions.len(),
    ensures
        due_spans(regions, count, now, force).contains(span) <==> exists|at: int|
            0 <= at < count && overdue_span(#[trigger] regions[at], span, now, force),
    decreases count,
{
    let all = due_spans(regions, count, now, force);
    if count > 0 {
        law_purges_give_back_overdue_spans(regions, count - 1, now, force, span);
        let earlier = due_spans(regions, count - 1, now, force);
        let region = regions[count - 1];
        let due = region.due(now, force);
        let own = purge_spans(region, due);
        if all.contains(span) {
            let at = choose|at: int| 0 <= at < all.len() && all[at] == span;
            if at < earlier.len() {
                assert(earlier[at] == span);
                assert(earlier.contains(span));
            } else {
                let place = at - earlier.len();
                assert(own[place] == span);
                assert(due.contains(due[place]));
                assert(overdue_span(regions[count - 1], span, now, force));
            }
        }
        if exists|at: int| 0 <= at < count && overdue_span(#[trigger] regions[at], span, now, force) {
            let at = choose|at: int| 0 <= at < count && overdue_span(#[trigger] regions[at], span, now, force);
            if at < count - 1 {
                assert(overdue_span(regions[at], span, now, force));
                assert(earlier.contains(span));
                let place = choose|place: int| 0 <= place < earlier.len() && earlier[place] == span;
                assert(all[place] == span);
            } else {
                let extent = choose|extent: Extent|
                    #[trigger] region.due(now, force).contains(extent) && span.slices == extent.count && span.address == (region.base
                        + extent.slice * 65536) as usize;
                let place = choose|place: int| 0 <= place < due.len() && due[place] == extent;
                assert(own[place] == span);
                assert(all[earlier.len() + place] == span);
            }
        }
    }
}

/// The record of a block is the newest one of its address.
pub proof fn law_the_newest_record_counts(extras: Seq<ExtraHeader>, address: usize)
    ensures
        ({
            let place = record_at(extras, address);
            &&& -1 <= place < extras.len()
            &&& place >= 0 ==> extras[place].address == address
            &&& forall|later: int| place < later < extras.len() ==> (#[trigger] extras[later]).address != address
        }),
    decreases extras.len(),
{
    if extras.len() > 0 && extras.last().address != address {
        let rest = extras.drop_last();
        law_the_newest_record_counts(rest, address);
        assert forall|later: int| record_at(extras, address) < later < extras.len() implies (#[trigger] extras[later]).address != address by {
            if later < rest.len() {
                assert(rest[later] == extras[later]);
            }
        }
    }
}

/// A region is shown with each of its slices that is in use, once and in their order, and with no other: with what
/// is known of the slice, and for the first slice of a medium block with the block's bytes.
pub proof fn law_regions_show_their_used_slices(region: Region, count: int)
    requires
        0 <= count <= 16384,
    ensures
        ({
            let shown = slices_shown(&region, count);
            &&& forall|slice: int|
                #![trigger region.used_set().contains(slice)]
                0 <= slice < count && region.used_set().contains(slice) ==> exists|at: int|
                    0 <= at < shown.len() && (#[trigger] shown[at]).slice_index == slice
            &&& forall|at: int|
                #![trigger shown[at]]
                0 <= at < shown.len() ==> {
                    let slice = shown[at].slice_index as int;
                    let known = region.physical@[slice];
                    &&& slice < count && region.used_set().contains(slice)
                    &&& shown[at].kind == known.kind && shown[at].owner == known.owner && shown[at].span_slices == known.span
                    &&& known.kind == PhysicalSliceKind::Medium ==> shown[at].requested_bytes == region.allocations@[slice].requested_bytes
                        && shown[at].usable_bytes == region.allocations@[slice].usable_bytes
                    &&& known.kind != PhysicalSliceKind::Medium ==> shown[at].requested_bytes == 0 && shown[at].usable_bytes == 0
                }
            &&& forall|left: int, right: int|
                #![trigger shown[left], shown[right]]
                0 <= left < right < shown.len() ==> shown[left].slice_index < shown[right].slice_index
            &&& shown.len() <= count
        }),
    decreases count,
{
    if count > 0 {
        law_regions_show_their_used_slices(region, count - 1);
        let earlier = slices_shown(&region, count - 1);
        let shown = slices_shown(&region, count);
        assert forall|slice: int|
            #![trigger region.used_set().contains(slice)]
            0 <= slice < count && region.used_set().contains(slice) implies exists|at: int|
            0 <= at < shown.len() && (#[trigger] shown[at]).slice_index == slice by {
            if slice < count - 1 {
                let at = choose|at: int| 0 <= at < earlier.len() && (#[trigger] earlier[at]).slice_index == slice;
                assert(shown[at] == earlier[at]);
            } else {
                assert(shown[shown.len() - 1].slice_index == slice);
            }
        }
        if region.used_set().contains(count - 1) {
            assert forall|at: int| 0 <= at < earlier.len() implies #[trigger] shown[at] == earlier[at] by {}
        }
    }
}

/// A region is shown with its address, a gibibyte of slices of 64 KiB, and as many of them used and free as there
/// are.
pub proof fn law_regions_show_all_their_slices(region: Region, domain_id: usize, region_index: usize)
    ensures
        ({
            let shown = region_shown(&region, domain_id, region_index);
            &&& shown.domain_id == domain_id && shown.region_index == region_index
            &&& shown.base_address == region.base
            &&& shown.reserved_bytes == 1073741824
            &&& shown.slice_bytes == 65536
            &&& shown.used_slices == shown.slices.len()
            &&& shown.used_slices + shown.free_slices == 16384
            &&& shown.used_bitmap == region.used@
        }),
{
    law_regions_show_their_used_slices(region, 16384);
}

/// The heap that a log names for a block is the thread's bump heap for a block of that, the thread heap for a
/// recorded block where the thread has one, and else the thread's heap. A thread that ends names none.
pub proof fn law_logs_name_the_heap_of_the_block(thread: ThreadState, kind: ServedKind)
    ensures
        thread.tearing_down <==> logged_owner(thread, kind) is None,
        logged_owner(thread, kind) matches Some(owner) ==> {
            &&& owner.1 == HeapKind::Bump <==> kind is Bump
            &&& owner.1 == HeapKind::Thread ==> kind is Recorded && owner.0 != 0 && owner.0 == thread.spec_current_remote()
            &&& owner.1 == HeapKind::Bump ==> owner.0 == thread.active_bump
            &&& owner.1 == HeapKind::General ==> owner.0 == thread.spec_current_heap()
            &&& kind is Recorded && thread.spec_current_remote() != 0 ==> owner.1 == HeapKind::Thread
        },
{
}

/// A segment of slices is given back slice by slice: each piece is a slice, and has the two slabs, or as many as
/// were cut of it.
pub proof fn law_segments_are_given_back_by_slices(heap: HeapState, index: int, at: int)
    requires
        0 <= index < heap.segments@.len(),
        0 <= at < heap.segment_pieces(index).len(),
        heap.segments@[index].base + heap.segments@[index].slices * 65536 <= usize::MAX,
    ensures
        ({
            let segment = heap.segments@[index];
            let piece = heap.segment_pieces(index)[at];
            if segment.slices == 0 {
                &&& piece.base == segment.base && piece.slabs == 1 && piece.committed_bytes == 32768
                &&& piece.direct_mapping
                &&& heap.segment_pieces(index).len() == 1
            } else {
                &&& heap.segment_pieces(index).len() == segment.slices
                &&& piece.base == segment.base + at * 65536
                &&& !piece.direct_mapping
                &&& piece.slabs <= 2
                &&& 2 * at + 2 <= heap.used_slabs(index) ==> piece.slabs == 2
                &&& 2 * at + 1 == heap.used_slabs(index) ==> piece.slabs == 1
                &&& heap.used_slabs(index) <= 2 * at ==> piece.slabs == 0
                &&& (2 * at + 2) * 32768 <= segment.committed_bytes ==> piece.committed_bytes == 65536
                &&& segment.committed_bytes < (2 * at + 1) * 32768 ==> piece.committed_bytes == 0
            }
        }),
{
    let segment = heap.segments@[index];
    if segment.slices > 0 {
        assert(segment.base + at * 65536 <= usize::MAX);
    }
}

} // verus!
