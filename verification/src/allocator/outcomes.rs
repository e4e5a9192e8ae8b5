//! What an allocation leaves of the heaps, the thread heaps and the domains.

use vstd::prelude::*;

use crate::allocator::allocation::{small_start, AllocOptions, AllocStep, ServedKind};
use crate::allocator::bumps::chunk_recorded;
use crate::allocator::classes::medium_slices;
use crate::allocator::direct::{DirectPlan, ExtraHeader};
use crate::allocator::directs::same_but_direct;
use crate::allocator::domains::{due_spans, PurgeSpan};
use crate::allocator::heaps::{HeapState, SlabRequest};
use crate::allocator::holdings::{registered, slices_freed};
use crate::allocator::layout::Layout;
use crate::allocator::mediums::span_drawn;
use crate::allocator::refills::{other_domains_stay, refill_sought};
use crate::allocator::serving::{listed_drawn, other_heaps_stay, searched, small_counted};
use crate::allocator::space::{Holding, Space, User};
use crate::allocator::thread_heaps::{slice_drawn, span_returned};
use crate::allocator::threads::ThreadState;

verus! {

/// Whether the domains, the spans that are held and the mappings are as they were.
pub open spec fn arena_stays(before: Space, after: Space) -> bool {
    &&& after.domains == before.domains
    &&& after.holdings@ == before.holdings@
    &&& after.mapped == before.mapped
}

/// Whether the slabs, the heaps and the thread heaps are as they were.
pub open spec fn lists_stay(before: Space, after: Space) -> bool {
    &&& after.heaps@ == before.heaps@
    &&& after.slabs == before.slabs
    &&& after.remotes@ == before.remotes@
}

/// Whether nothing but bump heaps and records differs.
pub open spec fn all_stays(before: Space, after: Space) -> bool {
    &&& lists_stay(before, after)
    &&& after.holdings@ == before.holdings@
    &&& after.mapped == before.mapped
    &&& after.domains@.len() == before.domains@.len()
    &&& forall|at: int| 0 <= at < before.domains@.len() ==> (#[trigger] after.domains@[at]).regions@ == before.domains@[at].regions@
}

/// Whether the small block was taken from the heap's lists, or from those of the thread heap of that
/// name where that is not 0, and counted, and nothing else differs.
pub open spec fn small_drawn(
    before: Space,
    after: Space,
    heap: int,
    remote: usize,
    context: bool,
    class: int,
    requested_bytes: int,
    block: int,
) -> bool {
    &&& arena_stays(before, after)
    &&& if remote == 0 {
        &&& other_heaps_stay(before, after, heap)
        &&& after.heaps@[heap] == (HeapState { small: after.heaps@[heap].small, ..before.heaps@[heap] })
        &&& small_counted(before, after, heap, searched(before, heap, context, class), class, requested_bytes, block)
    } else {
        &&& after.heaps@ == before.heaps@
        &&& after.slabs == before.slabs
        &&& forall|at: int|
            #[trigger] before.is_remote(at, remote) ==> listed_drawn(before, after, at, context, class, requested_bytes, block)
    }
}

/// Whether the heap's lists were searched in vain, and memory for a slab is asked for.
pub open spec fn refill_begun(
    before: Space,
    after: Space,
    heap: int,
    context: bool,
    class: int,
    track_aggregates: bool,
    spare: Option<usize>,
    request: SlabRequest,
    appended: bool,
) -> bool {
    &&& after.view_of(heap) == searched(before, heap, context, class)
    &&& after.heaps@[heap] == (HeapState { small: after.heaps@[heap].small, track_aggregates, ..before.heaps@[heap] })
    &&& other_heaps_stay(before, after, heap)
    &&& after.remotes@ == before.remotes@
    &&& after.mapped == before.mapped
    &&& refill_sought(before, after, heap, spare, request, appended)
}

/// Whether nothing but what the heap and its domain have of spans differs.
pub open spec fn spans_only(before: Space, after: Space, heap: int) -> bool {
    &&& other_heaps_stay(before, after, heap)
    &&& after.heaps@[heap].same_but_cache(&before.heaps@[heap])
    &&& after.slabs == before.slabs
    &&& after.remotes@ == before.remotes@
    &&& after.mapped == before.mapped
    &&& after.domains@.len() == before.domains@.len()
    &&& other_domains_stay(before, after, heap)
}

/// Whether the spans are those whose time has come, and the domain of the heap keeps them no longer.
pub open spec fn purge_begun(before: Space, after: Space, heap: int, now: u64, track_aggregates: bool, spans: Seq<PurgeSpan>) -> bool {
    let regions = before.domains@[before.heaps@[heap].domain - 1].regions@;
    let left = after.domains@[before.heaps@[heap].domain - 1].regions@;
    &&& spans_only(before, after, heap)
    &&& after.heaps@[heap].medium_cache@ == before.heaps@[heap].medium_cache@
    &&& after.heaps@[heap].retirement == before.heaps@[heap].retirement
    &&& after.heaps@[heap].track_aggregates == track_aggregates
    &&& after.holdings@ == before.holdings@
    &&& spans == due_spans(regions, regions.len() as int, now, false)
    &&& left.len() == regions.len()
    &&& forall|index: int|
        #![trigger left[index]]
        0 <= index < left.len() ==> left[index].without_due(&regions[index], now, false)
}

/// What the step leaves where a heap serves, or a thread heap of that name where it is not 0.
pub open spec fn heap_left(
    before: Space,
    after: Space,
    heap: int,
    remote: usize,
    layout: Layout,
    options: AllocOptions,
    spare: Option<usize>,
    step: AllocStep,
    appended: bool,
) -> bool {
    match step {
        AllocStep::Served { address, kind } => match kind {
            ServedKind::Small { class } => small_drawn(
                before,
                after,
                heap,
                remote,
                false,
                class as int,
                layout.size as int,
                small_start(layout, address, kind),
            ),
            ServedKind::Recorded { class } => small_drawn(
                before,
                after,
                heap,
                remote,
                true,
                class as int,
                layout.size as int,
                small_start(layout, address, kind),
            ),
            ServedKind::Medium => {
                &&& spans_only(before, after, heap)
                &&& span_drawn(before, after, heap, layout, address)
                &&& after.heaps@[heap].track_aggregates == options.track_aggregates
            },
            _ => true,
        },
        AllocStep::Refill { heap: named, request, class, recorded } => refill_begun(
            before,
            after,
            heap,
            recorded,
            class as int,
            options.track_aggregates,
            spare,
            request,
            appended,
        ),
        AllocStep::Slice { heap: named, remote: at, slice, class, recorded } => {
            &&& lists_stay(before, after)
            &&& after.mapped == before.mapped
            &&& slice_drawn(before, after, before.remotes@[at as int].domain, spare, Some((slice, appended)))
        },
        AllocStep::Purge { heap: named, spans } => purge_begun(before, after, heap, options.now, options.track_aggregates, spans@),
        AllocStep::Mapping { plan, recorded, owner } => all_stays(before, after),
        AllocStep::Failed => all_stays(before, after),
        _ => true,
    }
}

/// What the step leaves where a bump heap serves or needs a chunk, or the thread needs a heap first.
pub open spec fn bump_left(before: Space, after: Space, spare: Option<usize>, step: AllocStep, appended: bool) -> bool {
    match step {
        AllocStep::Served { address, kind } => kind is Bump ==> all_stays(before, after),
        AllocStep::Chunk { bump, chunk, logged } => {
            &&& lists_stay(before, after)
            &&& after.mapped == before.mapped
            &&& slice_drawn(
                before,
                after,
                before.bumps@[bump as int].domain,
                spare,
                match chunk {
                    Some(chunk) => Some((chunk, appended)),
                    None => None,
                },
            )
        },
        AllocStep::MapHeap => all_stays(before, after),
        _ => true,
    }
}

/// What an allocation of the thread leaves.
#[verifier::opaque]
pub open spec fn left_by(
    before: Space,
    after: Space,
    thread: ThreadState,
    layout: Layout,
    options: AllocOptions,
    spare: Option<usize>,
    step: AllocStep,
    appended: bool,
) -> bool {
    &&& bump_left(before, after, spare, step, appended)
    &&& forall|heap: int|
        #[trigger] before.is_heap(heap, thread.spec_current_heap()) && thread.spec_current_heap() != 0 ==> heap_left(
            before,
            after,
            heap,
            thread.spec_current_remote(),
            layout,
            options,
            spare,
            step,
            appended,
        )
}

/// Whether the slice that a bump heap was to have as a chunk is free again, where there was one, and
/// nothing else differs.
pub open spec fn chunk_returned(before: Space, after: Space, domain: usize, chunk: Option<usize>) -> bool {
    match chunk {
        Some(chunk) => span_returned(before, after, domain, chunk, 1),
        None => after == before,
    }
}

/// Whether the slice is a chunk of the bump heap, and nothing else of the heaps and the domains differs.
pub open spec fn chunk_joined(before: Space, after: Space, bump: int, chunk: usize) -> bool {
    let own = before.bumps@[bump];
    &&& lists_stay(before, after)
    &&& after.mapped == before.mapped
    &&& after.domains@.len() == before.domains@.len()
    &&& forall|other: int|
        #![trigger after.domains@[other]]
        0 <= other < before.domains@.len() && other != own.domain - 1 ==> after.domains@[other] == before.domains@[other]
    &&& chunk_recorded(&before.domains@[own.domain - 1], &after.domains@[own.domain - 1], chunk, own.address)
    &&& after.holdings@ == before.holdings@.insert(chunk, Holding { user: User::Chunk { bump: own.address }, ..before.holdings@[chunk] })
}

/// Whether the span that was taken is a medium block of the heap, where it was committed, and else
/// its slices are free again. Nothing else differs.
pub open spec fn span_finished(before: Space, after: Space, heap: int, layout: Layout, address: usize, committed: bool) -> bool {
    let own = before.heaps@[heap];
    let left = before.domains@[own.domain - 1];
    let right = after.domains@[own.domain - 1];
    let slices = medium_slices(layout)->0;
    &&& spans_only(before, after, heap)
    &&& after.heaps@[heap].medium_cache@ == own.medium_cache@
    &&& after.heaps@[heap].track_aggregates == own.track_aggregates
    &&& after.holdings@ == before.holdings@.remove(address)
    &&& if committed {
        registered(&left, &right, address, slices, layout.size, own.span_owner())
    } else {
        &&& after.heaps@ == before.heaps@
        &&& slices_freed(&left, &right, address, slices as int)
    }
}

/// Whether the mapping is noted, with its block on record under the heap that owns it, which its
/// retirement is to wait for. Nothing else differs.
pub open spec fn mapping_joined(
    before: Space,
    after: Space,
    layout: Layout,
    plan: DirectPlan,
    owner: Option<usize>,
    mapping: usize,
    address: usize,
) -> bool {
    &&& same_but_direct(before, after, owner)
    &&& owner matches Some(heap) ==> after.heaps@[heap as int].retirement == before.heaps@[heap as int].retained()
    &&& after.mapped@ == before.mapped@.insert(mapping, plan.mapping_size as int)
    &&& after.records.extras@ == before.records.extras@.push(
        ExtraHeader {
            address,
            mapping_address: mapping,
            mapping_size: plan.mapping_size,
            tracking: crate::telemetry::events::not_logged(),
            class_index: None,
            owner: before.owner_of_direct(owner),
            requested_bytes: layout.size,
            usable_bytes: layout.spec_bytes() as usize,
        },
    )
}

/// What is left of the one heap that a thread has is left of each that has its name.
pub proof fn lemma_left_by_heap(
    before: Space,
    after: Space,
    thread: ThreadState,
    heap: int,
    layout: Layout,
    options: AllocOptions,
    spare: Option<usize>,
    step: AllocStep,
    appended: bool,
)
    requires
        before.inv(),
        before.is_heap(heap, thread.spec_current_heap()),
        heap_left(before, after, heap, thread.spec_current_remote(), layout, options, spare, step, appended),
        bump_left(before, after, spare, step, appended),
    ensures
        left_by(before, after, thread, layout, options, spare, step, appended),
{
    reveal(left_by);
    assert forall|other: int| #[trigger] before.is_heap(other, thread.spec_current_heap()) implies other == heap by {
        if other < heap {
            assert(before.heaps@[other].address != before.heaps@[heap].address);
        } else if heap < other {
            assert(before.heaps@[heap].address != before.heaps@[other].address);
        }
    }
}

/// What a bump heap does leaves the other heaps as they are.
pub proof fn lemma_left_by_bump(
    before: Space,
    after: Space,
    thread: ThreadState,
    layout: Layout,
    options: AllocOptions,
    spare: Option<usize>,
    step: AllocStep,
    appended: bool,
)
    requires
        match step {
            AllocStep::Served { address, kind } => kind is Bump,
            AllocStep::Chunk { bump, chunk, logged } => true,
            AllocStep::MapHeap => true,
            _ => false,
        },
        bump_left(before, after, spare, step, appended),
    ensures
        left_by(before, after, thread, layout, options, spare, step, appended),
{
    reveal(left_by);
}

/// What an allocation leaves is the same where nothing but bump heaps changed before.
#[verifier::spinoff_prover]
pub proof fn lemma_left_by_then(
    before: Space,
    middle: Space,
    after: Space,
    thread: ThreadState,
    layout: Layout,
    options: AllocOptions,
    spare: Option<usize>,
    step: AllocStep,
    appended: bool,
)
    requires
        middle.tuning == before.tuning,
        middle.heaps == before.heaps,
        middle.slabs == before.slabs,
        middle.remotes == before.remotes,
        middle.domains == before.domains,
        middle.holdings@ == before.holdings@,
        middle.mapped == before.mapped,
        before.inv(),
        step matches AllocStep::Chunk { bump, chunk, logged } ==> middle.bumps@[bump as int].domain == before.bumps@[bump as int].domain,
        left_by(middle, after, thread, layout, options, spare, step, appended),
    ensures
        left_by(before, after, thread, layout, options, spare, step, appended),
{
    reveal(left_by);
    assert forall|heap: int| #[trigger] before.is_heap(heap, thread.spec_current_heap()) && thread.spec_current_heap() != 0 implies heap_left(
        before,
        after,
        heap,
        thread.spec_current_remote(),
        layout,
        options,
        spare,
        step,
        appended,
    ) by {
        assert(middle.is_heap(heap, thread.spec_current_heap()));
        assert forall|at: int, name: usize| middle.is_remote(at, name) == #[trigger] before.is_remote(at, name) by {}
    }
}

} // verus!
