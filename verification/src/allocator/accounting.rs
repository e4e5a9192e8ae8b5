//! What the process-wide counters learn of the blocks and the memory that the allocator deals in.

use vstd::prelude::*;

use crate::allocator::allocation::{AllocStep, ServedKind};
use crate::allocator::classes::{medium_slice_count, medium_slices, MEDIUM_SLICE_SIZE};
use crate::allocator::deallocation::{FreeStep, FreedTo};
use crate::allocator::heaps::SlabRequest;
use crate::allocator::layout::Layout;
use crate::allocator::slab::SLAB_SIZE;
use crate::allocator::space::Space;
use crate::telemetry::aggregates::{Aggregates, CountsModel, ThreadTelemetry, Totals};
use crate::tunables::MAX_SIZE_CLASSES;

verus! {

/// The counts once a block was served.
pub open spec fn with_served(counts: CountsModel, sizes: Seq<usize>, layout: Layout, kind: ServedKind) -> CountsModel {
    match kind {
        ServedKind::Small { class } => counts.with_small_allocation(class as int, sizes[class as int], layout.size),
        ServedKind::Recorded { class } => counts.with_small_allocation(class as int, sizes[class as int], layout.size),
        _ => counts.with_allocation(layout.size),
    }
}

/// The size class that a freed block is counted under.
pub open spec fn freed_class(step: FreeStep) -> Option<usize> {
    match step {
        FreeStep::Small { class, to } => Some(class),
        FreeStep::Recorded { extra, to } => extra.class_index,
        _ => None,
    }
}

/// The counts once a block was freed.
pub open spec fn with_freed(counts: CountsModel, layout: Layout, step: FreeStep) -> CountsModel {
    match freed_class(step) {
        Some(class) => counts.with_small_deallocation(class as int, layout.size),
        None => counts.with_deallocation(layout.size),
    }
}

/// Counts a block that was served.
pub fn count_served(
    aggregates: &mut Aggregates,
    thread: &ThreadTelemetry,
    shard: usize,
    sizes: &Vec<usize>,
    layout: Layout,
    kind: ServedKind,
)
    requires
        old(aggregates).wf(),
        shard < old(aggregates).shards@.len(),
        old(aggregates).totals.live_bytes + layout.size <= usize::MAX,
        sizes@.len() <= MAX_SIZE_CLASSES,
        kind matches ServedKind::Small { class } ==> class < sizes@.len(),
        kind matches ServedKind::Recorded { class } ==> class < sizes@.len(),
    ensures
        final(aggregates).wf(),
        thread.suppression_depth != 0 ==> *final(aggregates) == *old(aggregates),
        thread.suppression_depth == 0 ==> {
            &&& final(aggregates).changes_shard(old(aggregates), shard as int)
            &&& final(aggregates).shards@[shard as int].counts@ == with_served(
                old(aggregates).shards@[shard as int].counts@,
                sizes@,
                layout,
                kind,
            )
            &&& final(aggregates).totals == old(aggregates).totals.with_live(layout.size)
        },
{
    match kind {
        ServedKind::Small { class } => aggregates.record_small_allocation(thread, shard, class, sizes[class], layout.size),
        ServedKind::Recorded { class } => aggregates.record_small_allocation(thread, shard, class, sizes[class], layout.size),
        _ => aggregates.record_allocation(thread, shard, layout.size),
    }
}

/// Counts a block that was freed.
pub fn count_freed(aggregates: &mut Aggregates, thread: &ThreadTelemetry, shard: usize, layout: Layout, step: &FreeStep)
    requires
        old(aggregates).wf(),
        shard < old(aggregates).shards@.len(),
        freed_class(*step) matches Some(class) ==> class < MAX_SIZE_CLASSES,
    ensures
        final(aggregates).wf(),
        thread.suppression_depth != 0 ==> *final(aggregates) == *old(aggregates),
        thread.suppression_depth == 0 ==> {
            &&& final(aggregates).changes_shard(old(aggregates), shard as int)
            &&& final(aggregates).shards@[shard as int].counts@ == with_freed(
                old(aggregates).shards@[shard as int].counts@,
                layout,
                *step,
            )
            &&& final(aggregates).totals == old(aggregates).totals.without_live(layout.size)
        },
{
    let class: Option<usize> = match step {
        FreeStep::Small { class, to } => Some(*class),
        FreeStep::Recorded { extra, to } => extra.class_index,
        _ => None,
    };
    match class {
        Some(class) => aggregates.record_small_deallocation(thread, shard, class, layout.size),
        None => aggregates.record_deallocation_stats(thread, shard, layout.size),
    }
}

/// Where a small block went that was freed.
pub open spec fn returned_to(step: FreeStep) -> Option<FreedTo> {
    match step {
        FreeStep::Small { class, to } => Some(to),
        FreeStep::Recorded { extra, to } => Some(to),
        _ => None,
    }
}

/// Counts a block that was freed for another thread's heap: it is on its way there, unless the heap
/// is retired.
pub fn count_returned(totals: &mut Totals, thread: &ThreadTelemetry, space: &Space, step: &FreeStep)
    requires
        returned_to(*step) matches Some(FreedTo::Queued { heap }) ==> heap < space.heaps@.len(),
    ensures
        *final(totals) == (match returned_to(*step) {
            Some(FreedTo::Queued { heap }) => if !space.heaps@[heap as int].retirement.retiring {
                old(totals).pushed()
            } else if old(totals).available && thread.suppression_depth == 0 {
                Totals { remote_frees: old(totals).remote_frees.wrapping_add(1), ..*old(totals) }
            } else {
                *old(totals)
            },
            _ => *old(totals),
        }),
{
    let to: Option<FreedTo> = match step {
        FreeStep::Small { class, to } => Some(*to),
        FreeStep::Recorded { extra, to } => Some(*to),
        _ => None,
    };
    if let Some(FreedTo::Queued { heap }) = to {
        if space.heaps[heap].retirement.retiring {
            totals.record_remote_retired_free(thread.suppressed());
        } else {
            totals.begin_remote_free();
            totals.finish_remote_free();
        }
    }
}

/// How much memory came into use with the system's reply to a step, where that is counted as one
/// mapping.
pub open spec fn came_in(step: AllocStep, layout: Layout, committed: usize) -> Option<int> {
    match step {
        AllocStep::Refill { heap, request, class, recorded } => match request {
            SlabRequest::CommitSlab { slab } => if committed == 0 {
                None
            } else {
                Some(committed as int)
            },
            SlabRequest::CommitSegment { base, slices } => Some(committed as int),
            SlabRequest::MapSlab => Some(SLAB_SIZE as int),
        },
        AllocStep::Slice { heap, remote, slice, class, recorded } => Some(MEDIUM_SLICE_SIZE as int),
        AllocStep::Span { heap, address } => match medium_slices(layout) {
            Some(slices) => Some(slices * MEDIUM_SLICE_SIZE),
            None => None,
        },
        AllocStep::Mapping { plan, recorded, owner } => Some(plan.mapping_size as int),
        _ => None,
    }
}

/// Counts the memory that the system gave for a step. How much of a slab or a segment it committed is
/// passed in.
pub fn count_mapping(totals: &mut Totals, step: &AllocStep, layout: Layout, committed: usize)
    requires
        layout.wf(),
    ensures
        *final(totals) == (match came_in(*step, layout, committed) {
            Some(bytes) => old(totals).mapped(bytes as usize),
            None => *old(totals),
        }),
{
    let bytes: Option<usize> = match step {
        AllocStep::Refill { heap, request, class, recorded } => match request {
            SlabRequest::CommitSlab { slab } => if committed == 0 {
                None
            } else {
                Some(committed)
            },
            SlabRequest::CommitSegment { base, slices } => Some(committed),
            SlabRequest::MapSlab => Some(SLAB_SIZE),
        },
        AllocStep::Slice { heap, remote, slice, class, recorded } => Some(MEDIUM_SLICE_SIZE),
        AllocStep::Span { heap, address } => match medium_slice_count(layout) {
            Some(slices) => Some(slices * MEDIUM_SLICE_SIZE),
            None => None,
        },
        AllocStep::Mapping { plan, recorded, owner } => Some(plan.mapping_size),
        _ => None,
    };
    if let Some(bytes) = bytes {
        totals.record_mapping(bytes);
    }
}

} // verus!
