//! Allocation, from a layout to a block in use.
//!
//! What the system has to do in between (map, commit, decommit) is asked for in a step, and its
//! answer goes on with the function that the step names.

use vstd::prelude::*;
use vstd::arithmetic::power2::{lemma_pow2_strictly_increases, pow2};

use crate::allocator::arenas::{bases_kept, fresh_mapping, fresh_region, same_regions};
use crate::allocator::bump::{
    fits_empty, lemma_fits_fresh, tracked_alignment, BumpState, Placement, BUMP_CHUNK_SIZE,
    SEGMENT_REFERENCE_CREDITS, TRACKING_HEADER_SIZE,
};
use crate::allocator::bumps::same_but_bump;
use crate::allocator::classes::{
    default_class, law_small_blocks_hold_their_layout, lemma_multiple, medium_slice_count, medium_slices,
    segment_of, small_class, user_offset, MAX_MEDIUM_ALIGNMENT, MEDIUM_SLICE_SIZE,
};
use crate::allocator::contexts::lemma_unrecorded;
use crate::allocator::deallocation::has_header;
use crate::allocator::direct::{context_class, mapping_bytes, mistaken_size, plan_direct, record_class, DirectPlan};
use crate::allocator::domains::{apart, DomainState, PurgeSpan};
use crate::allocator::heaps::SlabRequest;
use crate::allocator::layout::Layout;
use crate::allocator::lives::{
    bumps_less, lemma_bump_joins, lemma_medium_joins, lemma_only_now, lemma_only_then, lemma_record_joins,
    lemma_still, mediums_less, smalls_less, uses_only,
};
use crate::allocator::medium::{continued, MediumStep};
use crate::allocator::mediums::{
    arena_only, lemma_same_span, mediums_kept, purge_pending, span_at_hand, span_pending, stores_kept,
};
use crate::allocator::outcomes::{
    all_stays, bump_left, chunk_joined, chunk_returned, heap_left, left_by, lemma_left_by_bump,
    lemma_left_by_heap, lemma_left_by_then, lists_stay, mapping_joined, span_finished,
};
use crate::allocator::refills::{lemma_held_bounds, refill_dropped, refill_pending, refill_reply};
use crate::allocator::serving::{
    lemma_spans_only, lemma_spans_still, names_kept, refill_done, shared_block, slice_done, small_of, step_kept,
    taken,
};
use crate::allocator::small::wrapped;
use crate::allocator::space::{stretches_apart, Space};
use crate::allocator::thread_heaps::{slice_pending, span_returned};
use crate::allocator::threads::{route, Route, ThreadState};
use crate::allocator::uses::{
    bumps_kept, law_blocks_in_use_lie_apart, lemma_in_slab, lemma_whole_goes_on, smalls_kept, uses_kept, Block,
};
use crate::hints::bump::BUMP_SEGMENT_SIZE;

verus! {

/// What kind of block a layout was served with.
#[derive(Clone, Copy, Debug, PartialEq, Eq, Structural)]
pub enum ServedKind {
    Small { class: usize },
    /// A small block with a record.
    Recorded { class: usize },
    Medium,
    /// A mapping of its own, and how long that is.
    Direct { mapping_size: usize },
    Bump,
}

/// Where an allocation stands.
pub enum AllocStep {
    /// The system has no more memory.
    Failed,
    Served { address: usize, kind: ServedKind },
    /// The thread needs its default heap: go on with `allocate_with_heap` once it has one.
    MapHeap,
    /// A slab is to be mapped or committed: go on with `allocate_refilled`.
    Refill { heap: usize, request: SlabRequest, class: usize, recorded: bool },
    /// A slice is to be committed for a thread heap: go on with `allocate_sliced`.
    Slice { heap: usize, remote: usize, slice: usize, class: usize, recorded: bool },
    /// Spans are to be decommitted: go on with `allocate_purged`.
    Purge { heap: usize, spans: Vec<PurgeSpan> },
    /// A span is to be committed: go on with `allocate_spanned`.
    Span { heap: usize, address: usize },
    /// A chunk is to be committed for a bump heap, where there is one: go on with `allocate_chunked`.
    Chunk { bump: usize, chunk: Option<usize>, logged: bool },
    /// Memory is to be mapped: go on with `allocate_mapped`.
    Mapping { plan: DirectPlan, recorded: bool, owner: Option<usize> },
}

/// How an allocation is made.
#[derive(Clone, Copy, Debug, PartialEq, Eq, Structural)]
pub struct AllocOptions {
    /// Whether bump heaps keep headers for an event log.
    pub track_callers: bool,
    pub track_aggregates: bool,
    /// Whether an event log wants to know of the block.
    pub logged: bool,
    /// The time in milliseconds.
    pub now: u64,
}

/// Whether the address is that of a block which was not in use and is now, which holds the layout
/// and is aligned as it asks.
pub open spec fn served(before: Space, after: Space, layout: Layout, address: usize, kind: ServedKind) -> bool {
    &&& address != 0
    &&& address as int % (layout.align as int) == 0
    &&& exists|block: Block| #[trigger] serves(before, after, layout, address, kind, block)
}

/// Whether the block serves the layout at the address.
pub open spec fn serves(before: Space, after: Space, layout: Layout, address: usize, kind: ServedKind, block: Block) -> bool {
    &&& taken(before, after, block)
    &&& after.start_of(block) <= address
    &&& address + layout.spec_bytes() <= after.start_of(block) + after.length_of(block)
    &&& match kind {
        ServedKind::Small { class } => block == (Block::Small {
            block: address,
            context: false,
            class: class as int,
            requested_bytes: layout.size as int,
        }) && small_class(after.sizes(), layout) == Some(class),
        ServedKind::Recorded { class } => {
            &&& block is Small
            &&& after.uses_recorded(block->Small_block, address, class as int, layout.size as int)
            &&& address == block->Small_block + user_offset(layout.align as int)
            &&& record_class(after.sizes(), layout) == Some(class)
        },
        ServedKind::Medium => {
            &&& block matches Block::Medium { place, address: start, slices } && start == address && slices >= 0 && medium_slices(
                layout,
            ) == Some(slices as usize)
            &&& small_class(after.sizes(), layout) is None
        },
        ServedKind::Direct { mapping_size } => block matches Block::Direct { address: user, mapping, bytes } && user == address && bytes
            == mapping_size,
        ServedKind::Bump => block matches Block::Bump { bump, address: start, bytes } && start == address && bytes
            == layout.spec_bytes(),
    }
}

/// The class of the layout's block.
pub open spec fn wanted_class(sizes: Seq<usize>, layout: Layout, recorded: bool) -> Option<usize> {
    if recorded {
        record_class(sizes, layout)
    } else {
        small_class(sizes, layout)
    }
}

/// Whether the bump heap serves such blocks.
pub open spec fn bump_serves(bump: BumpState, layout: Layout, logged: bool) -> bool {
    if logged {
        bump.serves_logged(layout)
    } else {
        bump.serves(layout)
    }
}

/// The bytes that a bump heap leaves in front of a block.
pub open spec fn header_bytes(logged: bool) -> int {
    if logged {
        TRACKING_HEADER_SIZE as int
    } else {
        0
    }
}

/// The alignment that a bump heap gives a block.
pub open spec fn placed_alignment(layout: Layout, logged: bool) -> int {
    if logged {
        tracked_alignment(layout)
    } else {
        layout.align as int
    }
}

/// Whether the one bump heap is the other once a block was placed, or could not be.
#[verifier::opaque]
pub open spec fn bump_placed(own: BumpState, now: BumpState, layout: Layout, logged: bool, placement: Placement) -> bool {
    &&& own.placing(&now, placement, header_bytes(logged), placed_alignment(layout, logged), layout.spec_bytes(), layout.size)
    &&& now.headers@ == match placement {
        Placement::Served { address } if logged => own.headers@.push(own.next_header(layout, address)),
        _ => own.headers@,
    }
}

/// Whether a bump heap counts one block more, or what it counted.
pub open spec fn bump_counted(own: BumpState, now: BumpState, layout: Layout, placed: bool) -> bool {
    &&& now.address == own.address
    &&& if placed {
        &&& now.allocation_count == own.allocation_count.wrapping_add(1)
        &&& now.used_bytes == own.used_bytes.wrapping_add(layout.spec_bytes() as usize)
        &&& now.live_requested_bytes == own.live_requested_bytes.wrapping_add(layout.size)
    } else {
        &&& now.allocation_count == own.allocation_count
        &&& now.used_bytes == own.used_bytes
        &&& now.live_requested_bytes == own.live_requested_bytes
        &&& now.live == own.live
        &&& now.headers@ == own.headers@
    }
}

/// Whether the thread's active bump heap counts what was served from it, and every other bump heap
/// is as it was.
#[verifier::opaque]
pub open spec fn bumps_counted(before: Space, after: Space, active: usize, layout: Layout, placed: bool) -> bool {
    &&& after.bumps@.len() == before.bumps@.len()
    &&& forall|bump: int|
        #![trigger after.bumps@[bump]]
        0 <= bump < before.bumps@.len() ==> if active != 0 && before.bumps@[bump].address == active {
            bump_counted(before.bumps@[bump], after.bumps@[bump], layout, placed)
        } else {
            after.bumps@[bump] == before.bumps@[bump]
        }
}

/// Whether the step is a block of a bump heap.
pub open spec fn by_bump(step: AllocStep) -> bool {
    step matches AllocStep::Served { address, kind } && kind is Bump
}

/// Where no bump heap changes, each counts what it counted.
proof fn lemma_counted_same(before: Space, after: Space, active: usize, layout: Layout)
    requires
        after.bumps == before.bumps,
    ensures
        bumps_counted(before, after, active, layout, false),
{
    reveal(bumps_counted);
}

/// What is counted after nothing more was is counted.
proof fn lemma_counted_then(before: Space, middle: Space, after: Space, active: usize, layout: Layout, placed: bool)
    requires
        bumps_counted(before, middle, active, layout, false),
        bumps_counted(middle, after, active, layout, placed),
    ensures
        bumps_counted(before, after, active, layout, placed),
{
    reveal(bumps_counted);
    assert forall|bump: int|
        #![trigger after.bumps@[bump]]
        0 <= bump < before.bumps@.len() implies if active != 0 && before.bumps@[bump].address == active {
        bump_counted(before.bumps@[bump], after.bumps@[bump], layout, placed)
    } else {
        after.bumps@[bump] == before.bumps@[bump]
    } by {
        assert(middle.bumps@[bump].address == before.bumps@[bump].address);
    }
}

/// One bump heap counts, and the others are as they were.
proof fn lemma_counted_one(before: Space, after: Space, bump: int, layout: Layout, placed: bool)
    requires
        before.inv(),
        0 <= bump < before.bumps@.len(),
        same_but_bump(before, after, bump),
        bump_counted(before.bumps@[bump], after.bumps@[bump], layout, placed),
    ensures
        bumps_counted(before, after, before.bumps@[bump].address, layout, placed),
{
    reveal(bumps_counted);
    let active = before.bumps@[bump].address;
    assert forall|other: int|
        #![trigger after.bumps@[other]]
        0 <= other < before.bumps@.len() implies if active != 0 && before.bumps@[other].address == active {
        bump_counted(before.bumps@[other], after.bumps@[other], layout, placed)
    } else {
        after.bumps@[other] == before.bumps@[other]
    } by {
        if before.bumps@[other].address == active {
            lemma_one_bump(before, other, bump);
        }
    }
}

/// What placing a block counts.
proof fn lemma_placing_counts(own: BumpState, now: BumpState, layout: Layout, logged: bool, placement: Placement)
    requires
        bump_placed(own, now, layout, logged, placement),
        own.address != 0,
    ensures
        bump_counted(own, now, layout, placement is Served),
{
    reveal(bump_placed);
}

/// Whether the bump heap can place such a block, or refuse it.
pub open spec fn bump_ready(space: Space, bump: int, layout: Layout, logged: bool) -> bool {
    let own = space.bumps@[bump];
    &&& 0 <= bump < space.bumps@.len()
    &&& own.wf()
    &&& !own.spent(header_bytes(logged), placed_alignment(layout, logged), layout.spec_bytes())
}

/// Whether the plan is that of a mapping for the layout.
pub open spec fn plan_ok(sizes: Seq<usize>, layout: Layout, recorded: bool, plan: DirectPlan) -> bool {
    &&& plan.class_size == mistaken_size(sizes, layout, recorded)
    &&& plan.mapping_size == mapping_bytes(layout, plan.class_size)
}

/// Whether the allocation can go on from the step.
pub open spec fn pending_ok(space: Space, layout: Layout, step: AllocStep) -> bool {
    match step {
        AllocStep::Refill { heap, request, class, recorded } => {
            &&& heap < space.heaps@.len()
            &&& wanted_class(space.sizes(), layout, recorded) == Some(class)
            &&& refill_pending(space, heap as int, request)
        },
        AllocStep::Slice { heap, remote, slice, class, recorded } => {
            &&& heap < space.heaps@.len()
            &&& remote < space.remotes@.len()
            &&& wanted_class(space.sizes(), layout, recorded) == Some(class)
            &&& slice_pending(space, space.remotes@[remote as int].domain, slice)
        },
        AllocStep::Purge { heap, spans } => {
            &&& heap < space.heaps@.len()
            &&& medium_slices(layout) is Some
            &&& small_class(space.sizes(), layout) is None
            &&& purge_pending(space, heap as int, spans@)
        },
        AllocStep::Span { heap, address } => {
            &&& heap < space.heaps@.len()
            &&& medium_slices(layout) is Some
            &&& small_class(space.sizes(), layout) is None
            &&& span_pending(space, heap as int, address, medium_slices(layout)->0 as int)
        },
        AllocStep::Chunk { bump, chunk, logged } => {
            &&& bump < space.bumps@.len()
            &&& space.bumps@[bump as int].wf()
            &&& space.bumps@[bump as int].credits == 0
            &&& !space.bumps@[bump as int].has_next()
            &&& bump_serves(space.bumps@[bump as int], layout, logged)
            &&& chunk matches Some(chunk) ==> slice_pending(space, space.bumps@[bump as int].domain, chunk)
        },
        AllocStep::Mapping { plan, recorded, owner } => {
            &&& plan_ok(space.sizes(), layout, recorded, plan)
            &&& owner matches Some(heap) ==> heap < space.heaps@.len()
        },
        _ => true,
    }
}

/// Whether the step keeps what is there, and serves the layout or can go on.
pub open spec fn step_ok(before: Space, after: Space, layout: Layout, step: AllocStep) -> bool {
    &&& step_kept(before, after)
    &&& step matches AllocStep::Served { address, kind } ==> served(before, after, layout, address, kind)
    &&& !(step is Served) ==> uses_only(before, after, None)
    &&& pending_ok(after, layout, step)
}

/// Whether the step is on the way that the route says.
pub open spec fn on_route(way: Route, recorded: bool, step: AllocStep) -> bool {
    match way {
        Route::Small { class } => match step {
            AllocStep::Served { address, kind } => kind == if recorded {
                ServedKind::Recorded { class }
            } else {
                ServedKind::Small { class }
            },
            AllocStep::Refill { heap, request, class: c, recorded: r } => c == class && r == recorded,
            AllocStep::Slice { heap, remote, slice, class: c, recorded: r } => c == class && r == recorded,
            AllocStep::Failed => recorded,
            AllocStep::Mapping { plan, recorded: r, owner } => !recorded && !r,
            _ => false,
        },
        Route::Medium => (step matches AllocStep::Served { address, kind } && kind is Medium) || step is Purge,
        Route::Direct => step matches AllocStep::Mapping { plan, recorded: r, owner } && r == recorded,
    }
}

/// Where the small block starts that a layout was served with, at that address.
pub open spec fn small_start(layout: Layout, address: usize, kind: ServedKind) -> int {
    if kind is Recorded {
        address - user_offset(layout.align as int)
    } else {
        address as int
    }
}

/// Whether the thread heap of that name lists the block.
pub open spec fn lists(space: Space, remote: usize, block: int) -> bool {
    exists|at: int| #[trigger] space.is_remote(at, remote) && space.listed_by(at, block as usize)
}

/// Whether it is that heap that serves, or goes on to. A small block comes from a slab of the heap or
/// a shared one that its lists name, and from the lists of the thread heap `remote` where that is
/// not 0. A span is one of the heap's domain and, as a mapping does, names the heap, whose retirement
/// is to wait for it.
pub open spec fn by_heap(before: Space, after: Space, heap: int, remote: usize, layout: Layout, step: AllocStep) -> bool {
    let own = after.heaps@[heap];
    match step {
        AllocStep::Served { address, kind } => match kind {
            ServedKind::Medium => {
                let domain = after.domains@[own.domain - 1];
                &&& domain.medium_live(address as int, medium_slices(layout)->0 as int)
                &&& domain.medium_at(address as int).owner == own.span_owner()
                &&& after.heaps@[heap].retirement == before.heaps@[heap].retained()
            },
            ServedKind::Direct { mapping_size } => {
                &&& after.record_of(address).owner == own.span_owner()
                &&& after.heaps@[heap].retirement == before.heaps@[heap].retained()
            },
            ServedKind::Bump => true,
            _ => {
                let block = small_start(layout, address, kind);
                if remote == 0 {
                    small_of(after, heap, block)
                } else {
                    shared_block(after, block) && lists(before, remote, block)
                }
            },
        },
        AllocStep::Refill { heap: named, request, class, recorded } => named == heap && remote == 0,
        AllocStep::Slice { heap: named, remote: at, slice, class, recorded } => named == heap && after.remotes@[at as int].address
            == remote,
        AllocStep::Purge { heap: named, spans } => named == heap,
        AllocStep::Span { heap: named, address } => named == heap,
        AllocStep::Mapping { plan, recorded, owner } => owner == Some(heap as usize),
        _ => true,
    }
}

/// How many blocks of a heap come back from other threads while it looks for one of the class.
pub open spec fn came_back(space: Space, heap: int, context: bool, class: int) -> int {
    wrapped(
        space.view_of(heap).pop(
            context,
            class,
            space.tuning.batch_limit as int,
            space.tuning.partial_slab_scan_limit as int,
        ).2,
    )
}

/// How many blocks came back from other threads on the way to the step: those of the heap, where
/// that was asked for a small block and not a thread heap.
pub open spec fn drains(before: Space, heap: int, remote: usize, step: AllocStep) -> int {
    match step {
        AllocStep::Served { address, kind } => match kind {
            ServedKind::Small { class } => if remote == 0 {
                came_back(before, heap, false, class as int)
            } else {
                0
            },
            ServedKind::Recorded { class } => if remote == 0 {
                came_back(before, heap, true, class as int)
            } else {
                0
            },
            _ => 0,
        },
        AllocStep::Refill { heap: named, request, class, recorded } => came_back(before, heap, recorded, class as int),
        _ => 0,
    }
}

/// Whether the block is the one that the heap has at hand for the class, or 0 where it has none: the
/// one that its lists give next, or where a thread heap serves, the last that this lists.
pub open spec fn at_hand(space: Space, heap: int, remote: usize, context: bool, class: int, block: int) -> bool {
    if remote == 0 {
        block == space.view_of(heap).pop(
            context,
            class,
            space.tuning.batch_limit as int,
            space.tuning.partial_slab_scan_limit as int,
        ).0
    } else {
        forall|at: int|
            #[trigger] space.is_remote(at, remote) ==> {
                let list = space.remotes@[at].list(context, class);
                if list.len() == 0 {
                    block == 0
                } else {
                    block == list.last()
                }
            }
    }
}

/// Whether the block that is served, where it is a small one or a span, is the one at hand, and more
/// memory is asked for only where there is none.
pub open spec fn picked(before: Space, heap: int, remote: usize, layout: Layout, step: AllocStep) -> bool {
    match step {
        AllocStep::Served { address, kind } => match kind {
            ServedKind::Small { class } => at_hand(before, heap, remote, false, class as int, small_start(layout, address, kind)),
            ServedKind::Recorded { class } => at_hand(before, heap, remote, true, class as int, small_start(layout, address, kind)),
            ServedKind::Medium => address == span_at_hand(before, heap, medium_slices(layout)->0 as int),
            _ => true,
        },
        AllocStep::Purge { heap: named, spans } => span_at_hand(before, heap, medium_slices(layout)->0 as int) == 0,
        AllocStep::Refill { heap: named, request, class, recorded } => at_hand(before, heap, remote, recorded, class as int, 0),
        AllocStep::Slice { heap: named, remote: at, slice, class, recorded } => at_hand(
            before,
            heap,
            remote,
            recorded,
            class as int,
            0,
        ),
        _ => true,
    }
}

/// Whether it is the thread's heap that serves, or goes on to, and so many blocks came back to it.
#[verifier::opaque]
pub open spec fn by_thread(before: Space, after: Space, thread: ThreadState, layout: Layout, step: AllocStep, drained: u64) -> bool {
    &&& thread.spec_current_heap() == 0 ==> drained == 0
    &&& forall|heap: int|
        #[trigger] before.is_heap(heap, thread.spec_current_heap()) && thread.spec_current_heap() != 0 ==> by_heap(
            before,
            after,
            heap,
            thread.spec_current_remote(),
            layout,
            step,
        ) && picked(before, heap, thread.spec_current_remote(), layout, step) && drained == drains(
            before,
            heap,
            thread.spec_current_remote(),
            step,
        )
}

/// A step after a step.
proof fn lemma_then(before: Space, middle: Space, after: Space, layout: Layout, step: AllocStep)
    requires
        step_kept(before, middle),
        uses_only(before, middle, None),
        step_ok(middle, after, layout, step),
    ensures
        step_ok(before, after, layout, step),
{
    assert(uses_kept(before, after));
    if let AllocStep::Served { address, kind } = step {
        let block = choose|block: Block| #[trigger] serves(middle, after, layout, address, kind, block);
        lemma_only_then(before, middle, after, Some(block));
        assert(serves(before, after, layout, address, kind, block));
    } else {
        lemma_only_then(before, middle, after, None);
    }
}

/// Whether the pairs are what each step of one allocation found and left. Between two steps
/// nothing but a heap of the thread may come into being.
pub open spec fn steps_of(spaces: Seq<(Space, Space)>, steps: Seq<AllocStep>, layout: Layout) -> bool {
    &&& steps.len() > 0
    &&& spaces.len() == steps.len()
    &&& forall|at: int|
        #![trigger steps[at]]
        0 <= at < steps.len() ==> step_ok(spaces[at].0, spaces[at].1, layout, steps[at])
    &&& forall|at: int|
        #![trigger spaces[at]]
        0 <= at < steps.len() - 1 ==> !(steps[at] is Served) && step_kept(spaces[at].1, spaces[at + 1].0) && uses_only(
            spaces[at].1,
            spaces[at + 1].0,
            None,
        )
}

/// Over all the steps of one allocation, the block that is served is aligned, lies apart from every
/// block that was in use when the allocation began, and those stay in use. Where none is served,
/// what was in use is in use, and nothing else.
pub proof fn law_an_allocation_serves_one_block_apart(
    spaces: Seq<(Space, Space)>,
    steps: Seq<AllocStep>,
    layout: Layout,
    other: Block,
)
    requires
        steps_of(spaces, steps, layout),
    ensures
        step_ok(spaces.first().0, spaces.last().1, layout, steps.last()),
        match steps.last() {
            AllocStep::Served { address, kind } => {
                &&& address != 0
                &&& address as int % (layout.align as int) == 0
                &&& spaces.first().0.uses(other) ==> spaces.last().1.uses(other) && stretches_apart(
                    address as int,
                    layout.spec_bytes(),
                    spaces.last().1.start_of(other),
                    spaces.last().1.length_of(other),
                )
            },
            _ => spaces.last().1.uses(other) <==> spaces.first().0.uses(other),
        },
    decreases steps.len(),
{
    let first = spaces.first().0;
    let last = spaces.last().1;
    assert(steps.first() == steps[0]);
    assert(step_ok(spaces[0].0, spaces[0].1, layout, steps[0]));
    if steps.len() > 1 {
        let later = spaces.drop_first();
        let rest = steps.drop_first();
        assert(steps_of(later, rest, layout)) by {
            assert forall|at: int|
                #![trigger rest[at]]
                0 <= at < rest.len() implies step_ok(later[at].0, later[at].1, layout, rest[at]) by {
                assert(rest[at] == steps[at + 1]);
            }
            assert forall|at: int|
                #![trigger later[at]]
                0 <= at < rest.len() - 1 implies !(rest[at] is Served) && step_kept(later[at].1, later[at + 1].0) && uses_only(
                later[at].1,
                later[at + 1].0,
                None,
            ) by {
                assert(later[at] == spaces[at + 1]);
            }
        }
        law_an_allocation_serves_one_block_apart(later, rest, layout, other);
        let begun = spaces[0].1;
        let next = spaces[1].0;
        assert(!(steps[0] is Served) && step_kept(begun, next) && uses_only(begun, next, None)) by {
            assert(spaces[0].1 == begun);
        }
        lemma_only_then(first, begun, next, None);
        assert(step_kept(first, next));
        assert(later.first().0 == next && later.last().1 == last && rest.last() == steps.last());
        lemma_then(first, next, last, layout, steps.last());
    }
    assert(step_ok(first, last, layout, steps.last()));
    if let AllocStep::Served { address, kind } = steps.last() {
        if first.uses(other) {
            let block = choose|block: Block| #[trigger] serves(first, last, layout, address, kind, block);
            assert(last.uses(other));
            law_blocks_in_use_lie_apart(last, block, other);
        }
    } else {
        reveal(uses_only);
    }
}

/// A step with which nothing comes into use, after one with which a block did.
proof fn lemma_then_only(before: Space, middle: Space, after: Space, own: Block)
    requires
        uses_only(before, middle, Some(own)),
        uses_only(middle, after, None),
    ensures
        uses_only(before, after, Some(own)),
{
    reveal(uses_only);
}

/// A small block serves its layout.
proof fn lemma_small_serves(before: Space, after: Space, layout: Layout, class: usize, block: usize)
    requires
        step_kept(before, after),
        layout.wf(),
        small_class(after.sizes(), layout) == Some(class),
        block != 0,
        taken(
            before,
            after,
            Block::Small { block, context: false, class: class as int, requested_bytes: layout.size as int },
        ),
    ensures
        served(before, after, layout, block, ServedKind::Small { class }),
{
    let own = Block::Small { block, context: false, class: class as int, requested_bytes: layout.size as int };
    let slab = segment_of(block as int) as usize;
    lemma_in_slab(after, block, false, class as int, layout.size as int);
    crate::allocator::blocks::lemma_at_address(&after.slabs, slab);
    let model = after.slabs@[slab];
    let size = model.block_size;
    let index = model.index_of(block as int);
    assert(block - model.address == index * size) by (nonlinear_arith)
        requires
            index == (block - model.address) / size,
            (block - model.address) % size == 0,
            size > 0,
    ;
    law_small_blocks_hold_their_layout(after.sizes(), layout, slab as int, index);
    assert(serves(before, after, layout, block, ServedKind::Small { class }, own));
}

/// What holds of a class that was found for a layout.
proof fn lemma_wanted(sizes: Seq<usize>, layout: Layout, recorded: bool, class: usize)
    requires
        crate::tunables::valid_sizes(sizes),
        layout.wf(),
        wanted_class(sizes, layout, recorded) == Some(class),
    ensures
        class < sizes.len(),
        layout.size <= sizes[class as int],
{
    if recorded {
        crate::allocator::direct::law_recorded_blocks_hold_their_layout(sizes, layout, 0, 0);
    } else {
        law_small_blocks_hold_their_layout(sizes, layout, 0, 0);
    }
}

/// The work on one heap's spans keeps the blocks in use.
proof fn lemma_arena_kept(before: Space, after: Space, heap: int)
    requires
        before.whole(),
        after.inv(),
        0 <= heap < before.heaps@.len(),
        arena_only(before, after, heap),
        mediums_kept(before.domains@, after.domains@),
    ensures
        step_kept(before, after),
{
    assert(smalls_kept(before, after));
    assert(bumps_kept(before.bumps@, after.bumps@));
    lemma_whole_goes_on(before, after);
}

/// Nothing comes into use with the work on one heap's spans where no span does.
proof fn lemma_arena_still(before: Space, after: Space, heap: int)
    requires
        before.inv(),
        after.inv(),
        0 <= heap < before.heaps@.len(),
        arena_only(before, after, heap),
        mediums_less(before.domains@, after.domains@),
    ensures
        uses_only(before, after, None),
{
    assert(smalls_less(before, after));
    assert(bumps_less(before.bumps@, after.bumps@));
    lemma_still(before, after);
}

/// Nothing comes into use with the work on one bump heap where no block of it does.
proof fn lemma_bump_still(before: Space, after: Space, bump: int)
    requires
        before.inv(),
        after.inv(),
        0 <= bump < before.bumps@.len(),
        same_but_bump(before, after, bump),
        mediums_less(before.domains@, after.domains@),
        before.bumps@[bump].wf(),
        after.bumps@[bump].live@ == before.bumps@[bump].live@,
    ensures
        uses_only(before, after, None),
{
    assert(smalls_less(before, after));
    assert(bumps_less(before.bumps@, after.bumps@)) by {
        assert forall|at: int|
            #![trigger after.bumps@[at]]
            0 <= at < after.bumps@.len() && after.bumps@[at].wf() implies at < before.bumps@.len() && before.bumps@[at].wf()
            && after.bumps@[at].live@ == before.bumps@[at].live@ by {
            if at != bump {
                assert(after.bumps@[at] == before.bumps@[at]);
            }
        }
    }
    lemma_still(before, after);
}

/// The work on one bump heap that lets go of nothing keeps the blocks in use.
proof fn lemma_bump_kept(before: Space, after: Space, bump: int)
    requires
        before.whole(),
        after.inv(),
        0 <= bump < before.bumps@.len(),
        same_but_bump(before, after, bump),
        mediums_kept(before.domains@, after.domains@),
        after.bumps@[bump].wf(),
        forall|address: int|
            #[trigger] before.bumps@[bump].live@.dom().contains(address) ==> after.bumps@[bump].live@.dom().contains(address)
                && after.bumps@[bump].live@[address] == before.bumps@[bump].live@[address],
    ensures
        step_kept(before, after),
{
    assert(smalls_kept(before, after));
    assert(bumps_kept(before.bumps@, after.bumps@)) by {
        assert forall|at: int, address: int|
            #![trigger before.bumps@[at].live@.dom().contains(address)]
            0 <= at < before.bumps@.len() && before.bumps@[at].wf() && before.bumps@[at].live@.dom().contains(address) implies {
            &&& after.bumps@[at].wf()
            &&& after.bumps@[at].live@.dom().contains(address)
            &&& after.bumps@[at].live@[address] == before.bumps@[at].live@[address]
        } by {
            if at != bump {
                assert(after.bumps@[at] == before.bumps@[at]);
            }
        }
    }
    lemma_whole_goes_on(before, after);
}

/// A span starts at a multiple of every alignment that spans serve.
proof fn lemma_span_aligned(domain: DomainState, address: int, slices: int, layout: Layout)
    requires
        domain.wf(),
        domain.medium_live(address, slices),
        layout.wf(),
        layout.align <= MAX_MEDIUM_ALIGNMENT,
    ensures
        address % (layout.align as int) == 0,
        address > 0,
{
    let index = domain.region_at(address)->0;
    let region = domain.regions@[index];
    assert(0 <= index < domain.regions@.len() && region.holds(address));
    assert(address % 65536 == 0) by (nonlinear_arith)
        requires
            (address - region.base) % 65536 == 0,
            region.base as int % 65536 == 0,
    ;
    let align = layout.align as int;
    let exponent = choose|exponent: nat| align == #[trigger] pow2(exponent);
    vstd::arithmetic::power2::lemma2_to64();
    if exponent > 16 {
        lemma_pow2_strictly_increases(16, exponent);
    }
    let rest = (16 - exponent) as nat;
    vstd::arithmetic::power2::lemma_pow2_adds(exponent, rest);
    lemma_multiple(address, 65536, align, pow2(rest) as int);
}

/// A span that was served is a block that was not in use.
proof fn lemma_medium_serves(before: Space, after: Space, layout: Layout, heap: int, address: usize)
    requires
        before.whole(),
        step_kept(before, after),
        layout.wf(),
        0 <= heap < before.heaps@.len(),
        medium_slices(layout) is Some,
        small_class(before.sizes(), layout) is None,
        1 <= medium_slices(layout)->0,
        layout.spec_bytes() <= medium_slices(layout)->0 * MEDIUM_SLICE_SIZE,
        after.heaps@[heap].domain == before.heaps@[heap].domain,
        arena_only(before, after, heap),
        crate::allocator::medium::served(
            &before.domains@[before.heaps@[heap].domain - 1],
            &after.domains@[before.heaps@[heap].domain - 1],
            &before.heaps@[heap],
            &after.heaps@[heap],
            layout,
            address,
        ),
    ensures
        served(before, after, layout, address, ServedKind::Medium),
{
    let slices = medium_slices(layout)->0 as int;
    let place = before.heaps@[heap].domain - 1;
    assert(before.heap_ok(heap));
    let own = Block::Medium { place, address, slices };
    assert(after.uses(own));
    lemma_medium_joins(before, after, place, address, slices);
    assert(!before.uses(own)) by {
        if before.domains@[place].medium_live(address as int, slices) {
            assert(crate::allocator::holdings::spans_apart(address as int, slices, address as int, slices));
            assert(slices * MEDIUM_SLICE_SIZE > 0) by (nonlinear_arith)
                requires
                    slices >= 1,
                    MEDIUM_SLICE_SIZE == 65536,
            ;
        }
    }
    assert(after.domains@[place].wf());
    lemma_span_aligned(after.domains@[place], address as int, slices, layout);
    assert(serves(before, after, layout, address, ServedKind::Medium, own));
}

/// A block that a bump heap placed is one that was not in use.
proof fn lemma_bump_serves(before: Space, after: Space, layout: Layout, bump: int, address: usize)
    requires
        before.whole(),
        step_kept(before, after),
        0 <= bump < before.bumps@.len(),
        same_but_bump(before, after, bump),
        after.domains == before.domains,
        before.bumps@[bump].wf(),
        after.bumps@[bump].wf(),
        after.bumps@[bump].live@ == before.bumps@[bump].live@.insert(address as int, layout.spec_bytes()),
        !before.bumps@[bump].live@.dom().contains(address as int),
        address as int % (layout.align as int) == 0,
    ensures
        served(before, after, layout, address, ServedKind::Bump),
{
    let own = Block::Bump { bump, address: address as int, bytes: layout.spec_bytes() };
    assert(after.uses(own) && !before.uses(own));
    lemma_bump_joins(before, after, bump, address as int, layout.spec_bytes());
    crate::allocator::uses::lemma_in_chunk(after, bump, address as int, layout.spec_bytes());
    lemma_held_bounds(after, crate::allocator::bump::chunk_base(address as int) as usize);
    assert(serves(before, after, layout, address, ServedKind::Bump, own));
}

/// What is aligned for a header is aligned for its block.
proof fn lemma_coarser(address: int, layout: Layout)
    requires
        layout.wf(),
        address % tracked_alignment(layout) == 0,
    ensures
        address % (layout.align as int) == 0,
{
    let align = layout.align as int;
    if align < 8 {
        let exponent = choose|exponent: nat| align == #[trigger] pow2(exponent);
        vstd::arithmetic::power2::lemma2_to64();
        if exponent > 3 {
            lemma_pow2_strictly_increases(3, exponent);
        }
        let rest = (3 - exponent) as nat;
        vstd::arithmetic::power2::lemma_pow2_adds(exponent, rest);
        lemma_multiple(address, 8, align, pow2(rest) as int);
    }
}

/// Whether the bump heap at a place served a block, with a header for an event log or without, or
/// asks for another chunk.
pub open spec fn bumped(own: BumpState, after: Space, bump: int, layout: Layout, logged: bool, step: AllocStep) -> bool {
    ||| step matches AllocStep::Served { address, kind } && kind is Bump && after.uses(
        Block::Bump { bump, address: address as int, bytes: layout.spec_bytes() },
    ) && has_header(after, bump, address) == logged && bump_placed(
        own,
        after.bumps@[bump],
        layout,
        logged,
        Placement::Served { address },
    )
    ||| step matches AllocStep::Chunk { bump: b, chunk, logged: l } && b == bump && l == logged && bump_placed(
        own,
        after.bumps@[bump],
        layout,
        logged,
        Placement::NeedChunk,
    )
}

/// Whether a bump heap serves a layout, and then whether with a header for an event log.
pub open spec fn bump_way(own: BumpState, layout: Layout, options: AllocOptions) -> Option<bool> {
    if options.track_callers && bump_serves(own, layout, true) {
        Some(true)
    } else if !options.logged && bump_serves(own, layout, false) {
        Some(false)
    } else {
        None
    }
}

/// Whether a step goes the way of the thread's active bump heap, or where that does not serve the
/// layout, of its other heap.
pub open spec fn way_taken(before: Space, after: Space, thread: ThreadState, layout: Layout, options: AllocOptions, step: AllocStep) -> bool {
    forall|bump: int|
        #[trigger] before.is_bump(bump, thread.active_bump) && thread.active_bump != 0 ==> match bump_way(
            before.bumps@[bump],
            layout,
            options,
        ) {
            Some(logged) => before.bumps@[bump].roomy() && (logged || thread.spec_current_heap() != 0) ==> bumped(
                before.bumps@[bump],
                after,
                bump,
                layout,
                logged,
                step,
            ),
            None => thread.spec_current_heap() != 0 ==> on_route(
                route(before.sizes(), layout, options.logged),
                options.logged,
                step,
            ),
        }
}

/// What a bump heap made of a layout.
pub enum BumpTry {
    Served { address: usize },
    Refused,
    /// Another chunk is needed, and this slice was taken for it, where there was one.
    NeedChunk { chunk: Option<usize> },
}

/// Whether the bump heap's attempt keeps what is there, and serves the layout or can go on.
pub open spec fn try_ok(before: Space, after: Space, layout: Layout, bump: int, logged: bool, outcome: BumpTry) -> bool {
    &&& step_kept(before, after)
    &&& after.bumps@.len() == before.bumps@.len()
    &&& bumps_counted(before, after, before.bumps@[bump].address, layout, outcome is Served)
    &&& bump_serves(before.bumps@[bump], layout, logged) ==> bump_placed(
        before.bumps@[bump],
        after.bumps@[bump],
        layout,
        logged,
        match outcome {
            BumpTry::Served { address } => Placement::Served { address },
            BumpTry::Refused => Placement::Overflow,
            BumpTry::NeedChunk { chunk } => Placement::NeedChunk,
        },
    )
    &&& after.heaps == before.heaps
    &&& after.slabs == before.slabs
    &&& after.remotes == before.remotes
    &&& after.mapped == before.mapped
    &&& after.bumps@[bump].wf()
    &&& !bump_serves(before.bumps@[bump], layout, logged) ==> outcome is Refused && after.bumps@ == before.bumps@
    &&& !(outcome is Served) ==> uses_only(before, after, None)
    &&& match outcome {
        BumpTry::Served { address } => {
            &&& served(before, after, layout, address, ServedKind::Bump)
            &&& bumped(before.bumps@[bump], after, bump, layout, logged, AllocStep::Served { address, kind: ServedKind::Bump })
        },
        BumpTry::Refused => {
            let own = before.bumps@[bump];
            let now = after.bumps@[bump];
            &&& after.domains == before.domains
            &&& bump_serves(own, layout, logged) ==> own.cursor + BUMP_CHUNK_SIZE > usize::MAX || (own.has_next() && own.next_start()
                + BUMP_CHUNK_SIZE > usize::MAX)
            &&& now.credits == SEGMENT_REFERENCE_CREDITS || (now.credits == own.credits && now.cursor == own.cursor && now.end
                == own.end)
            &&& now.live == own.live
            &&& now.chunks == own.chunks
        },
        BumpTry::NeedChunk { chunk } => {
            &&& pending_ok(after, layout, AllocStep::Chunk { bump: bump as usize, chunk, logged })
            &&& bumped(before.bumps@[bump], after, bump, layout, logged, AllocStep::Chunk { bump: bump as usize, chunk, logged })
            &&& after.bumps@[bump].chunks == before.bumps@[bump].chunks
        },
    }
}

/// A block that a bump heap just placed has a header where one was asked for.
proof fn lemma_header(before: Space, after: Space, layout: Layout, bump: int, logged: bool, address: usize)
    requires
        0 <= bump < before.bumps@.len(),
        0 <= bump < after.bumps@.len(),
        before.bumps@[bump].wf(),
        after.bumps@[bump].wf(),
        after.bumps@[bump].live@ == before.bumps@[bump].live@.insert(address as int, layout.spec_bytes()),
        !before.bumps@[bump].live@.dom().contains(address as int),
        bump_placed(before.bumps@[bump], after.bumps@[bump], layout, logged, Placement::Served { address }),
    ensures
        bumped(before.bumps@[bump], after, bump, layout, logged, AllocStep::Served { address, kind: ServedKind::Bump }),
{
    let headers = after.bumps@[bump].headers@;
    reveal(bump_placed);
    assert(after.uses(Block::Bump { bump, address: address as int, bytes: layout.spec_bytes() }));
    if logged {
        assert(headers[headers.len() - 1].address == address);
        assert(has_header(after, bump, address));
    } else {
        assert forall|at: int| 0 <= at < headers.len() implies (#[trigger] headers[at]).address != address by {
            assert(before.bumps@[bump].live@.dom().contains(before.bumps@[bump].headers@[at].address as int));
        }
        assert(!has_header(after, bump, address));
    }
}

impl Space {
    /// Lets a bump heap place a block, with a header for its record where `logged`.
    fn try_bump(&mut self, bump: usize, layout: Layout, logged: bool, spare: Option<usize>) -> (outcome: (BumpTry, bool))
        requires
            old(self).whole(),
            layout.wf(),
            bump_ready(*old(self), bump as int, layout, logged),
            spare matches Some(base) ==> fresh_region(old(self).domains@, old(self).mapped@, base),
        ensures
            try_ok(*old(self), *final(self), layout, bump as int, logged, outcome.0),
            outcome.1 ==> spare is Some,
            outcome.0 matches BumpTry::NeedChunk { chunk } ==> (chunk is None ==> spare is None),
            match outcome.0 {
                BumpTry::Served { address } => all_stays(*old(self), *final(self)),
                BumpTry::Refused => final(self).holdings@ == old(self).holdings@,
                BumpTry::NeedChunk { chunk } => bump_left(
                    *old(self),
                    *final(self),
                    spare,
                    AllocStep::Chunk { bump, chunk, logged },
                    outcome.1,
                ),
            },
    {
        let ghost before = *self;
        let placement: Option<Placement> = if logged {
            self.place_bump_logged(bump, layout)
        } else {
            self.place_bump(bump, layout)
        };
        let ghost middle = *self;
        proof {
            assert(mediums_kept(before.domains@, middle.domains@));
            let own = before.bumps@[bump as int];
            let now = middle.bumps@[bump as int];
            if placement is None {
                assert(middle.bumps@ =~= before.bumps@);
            } else if !(placement is Some && placement->0 is Served) {
                assert(now.live == own.live && now.chunks == own.chunks);
            }
            lemma_bump_kept(before, middle, bump as int);
            assert(mediums_less(before.domains@, middle.domains@));
            if !(placement is Some && placement->0 is Served) {
                lemma_bump_still(before, middle, bump as int);
            }
            if let Some(placement) = placement {
                assert(bump_placed(own, now, layout, logged, placement)) by {
                    reveal(bump_placed);
                }
                lemma_placing_counts(own, now, layout, logged, placement);
            }
            lemma_counted_one(before, middle, bump as int, layout, placement is Some && placement->0 is Served);
        }
        match placement {
            None => {
                proof {
                    assert(middle.bumps@ =~= before.bumps@);
                }
                (BumpTry::Refused, false)
            },
            Some(Placement::Overflow) => (BumpTry::Refused, false),
            Some(Placement::Served { address }) => {
                proof {
                    if logged {
                        lemma_coarser(address as int, layout);
                    }
                    lemma_bump_serves(before, middle, layout, bump as int, address);
                    lemma_header(before, middle, layout, bump as int, logged, address);
                }
                (BumpTry::Served { address }, false)
            },
            Some(Placement::NeedChunk) => {
                let domain: usize = self.bumps[bump].domain;
                let taken: Option<(usize, bool)> = self.take_slice(domain, spare);
                proof {
                    lemma_spans_only(middle, *self);
                    lemma_spans_still(middle, *self);
                    lemma_only_then(before, middle, *self, None);
                    lemma_counted_same(middle, *self, before.bumps@[bump as int].address, layout);
                    lemma_counted_then(before, middle, *self, before.bumps@[bump as int].address, layout, false);
                    assert(uses_kept(before, *self));
                }
                match taken {
                    None => (BumpTry::NeedChunk { chunk: None }, false),
                    Some((chunk, appended)) => (BumpTry::NeedChunk { chunk: Some(chunk) }, appended),
                }
            },
        }
    }
}

/// A block with a record serves its layout.
proof fn lemma_recorded_serves(before: Space, middle: Space, after: Space, layout: Layout, class: usize, block: usize, address: usize)
    requires
        step_kept(before, middle),
        step_kept(middle, after),
        uses_only(middle, after, None),
        layout.wf(),
        record_class(after.sizes(), layout) == Some(class),
        taken(
            before,
            middle,
            Block::Small { block, context: true, class: class as int, requested_bytes: layout.size as int },
        ),
        after.uses_recorded(block, address, class as int, layout.size as int),
        address == block + user_offset(layout.align as int),
        address as int % (layout.align as int) == 0,
        address + layout.spec_bytes() <= block + after.sizes()[class as int],
        block > 0,
    ensures
        served(before, after, layout, address, ServedKind::Recorded { class }),
        step_kept(before, after),
{
    let own = Block::Small { block, context: true, class: class as int, requested_bytes: layout.size as int };
    assert(after.uses(own));
    lemma_then_only(before, middle, after, own);
    assert(serves(before, after, layout, address, ServedKind::Recorded { class }, own));
}

/// The name of the thread heap at that place, or 0.
spec fn named(space: Space, remote: Option<usize>) -> usize {
    match remote {
        Some(at) => space.remotes@[at as int].address,
        None => 0,
    }
}

/// What the thread's heap does, is done for the thread.
proof fn lemma_by_thread(
    before: Space,
    after: Space,
    thread: ThreadState,
    heap: int,
    remote: Option<usize>,
    layout: Layout,
    step: AllocStep,
    drained: u64,
)
    requires
        before.inv(),
        thread.spec_current_heap() != 0,
        drained == drains(before, heap, named(before, remote), step),
        picked(before, heap, named(before, remote), layout, step),
        before.is_heap(heap, thread.spec_current_heap()),
        named(before, remote) == thread.spec_current_remote(),
        by_heap(before, after, heap, named(before, remote), layout, step),
    ensures
        by_thread(before, after, thread, layout, step, drained),
{
    reveal(by_thread);
    assert forall|other: int| #[trigger] before.is_heap(other, thread.spec_current_heap()) implies other == heap by {
        if other < heap {
            assert(before.heaps@[other].address != before.heaps@[heap].address);
        } else if heap < other {
            assert(before.heaps@[heap].address != before.heaps@[other].address);
        }
    }
}

/// What a bump heap does is no other heap's work.
proof fn lemma_no_heap(before: Space, after: Space, thread: ThreadState, layout: Layout, step: AllocStep)
    requires
        match step {
            AllocStep::Served { address, kind } => kind is Bump,
            AllocStep::Chunk { bump, chunk, logged } => true,
            AllocStep::MapHeap => true,
            AllocStep::Failed => true,
            _ => false,
        },
    ensures
        by_thread(before, after, thread, layout, step, 0),
{
    reveal(by_thread);
}

/// The heaps that serve are the same where nothing but bump heaps and spans changed before.
proof fn lemma_by_thread_then(
    before: Space,
    middle: Space,
    after: Space,
    thread: ThreadState,
    layout: Layout,
    step: AllocStep,
    drained: u64,
)
    requires
        middle.tuning == before.tuning,
        middle.heaps == before.heaps,
        middle.slabs == before.slabs,
        middle.remotes == before.remotes,
        before.inv(),
        stores_kept(before.domains@, middle.domains@),
        by_thread(middle, after, thread, layout, step, drained),
    ensures
        by_thread(before, after, thread, layout, step, drained),
{
    reveal(by_thread);
    assert forall|heap: int| #[trigger] before.is_heap(heap, thread.spec_current_heap()) && thread.spec_current_heap() != 0 implies by_heap(
        before,
        after,
        heap,
        thread.spec_current_remote(),
        layout,
        step,
    ) && picked(before, heap, thread.spec_current_remote(), layout, step) && drained == drains(
        before,
        heap,
        thread.spec_current_remote(),
        step,
    ) by {
        assert(middle.is_heap(heap, thread.spec_current_heap()));
        assert forall|at: int, name: usize| middle.is_remote(at, name) == #[trigger] before.is_remote(at, name) by {}
        lemma_same_span(before, middle, heap, medium_slices(layout)->0 as int);
        assert forall|name: usize, block: int| lists(middle, name, block) implies #[trigger] lists(before, name, block) by {
            let at = choose|at: int| #[trigger] middle.is_remote(at, name) && middle.listed_by(at, block as usize);
            assert(before.is_remote(at, name) && before.listed_by(at, block as usize));
        }
    }
}

impl Space {
    /// Plans a mapping for the layout.
    fn start_direct(&self, layout: Layout, recorded: bool, owner: Option<usize>) -> (step: AllocStep)
        requires
            self.whole(),
            layout.wf(),
            owner matches Some(heap) ==> heap < self.heaps@.len(),
        ensures
            step_ok(*self, *self, layout, step),
            step matches AllocStep::Mapping { plan, recorded: r, owner: o } && r == recorded && o == owner,
    {
        let plan: DirectPlan = plan_direct(&self.tuning, layout, recorded);
        proof {
            lemma_only_now(*self);
        }
        AllocStep::Mapping { plan, recorded, owner }
    }

    /// Goes on with the mapping that was asked for, or 0.
    pub fn allocate_mapped(&mut self, layout: Layout, plan: DirectPlan, recorded: bool, owner: Option<usize>, mapping: usize) -> (step:
        AllocStep)
        requires
            old(self).whole(),
            layout.wf(),
            pending_ok(*old(self), layout, AllocStep::Mapping { plan, recorded, owner }),
            mapping != 0 ==> fresh_mapping(old(self).domains@, old(self).mapped@, mapping, plan.mapping_size as int),
        ensures
            final(self).bumps == old(self).bumps,
            step_ok(*old(self), *final(self), layout, step),
            if mapping == 0 {
                step is Failed && *final(self) == *old(self)
            } else {
                step matches AllocStep::Served { address, kind } && kind == (ServedKind::Direct { mapping_size: plan.mapping_size })
                    && crate::allocator::direct::direct_address(layout, plan.class_size, mapping as int) == Some(address as int)
                    && (owner is None ==> final(self).record_of(address).owner.heap == 0) && mapping_joined(
                    *old(self),
                    *final(self),
                    layout,
                    plan,
                    owner,
                    mapping,
                    address,
                )
            },
            owner matches Some(heap) ==> by_heap(*old(self), *final(self), heap as int, 0, layout, step),
    {
        let ghost before = *self;
        if mapping == 0 {
            proof {
                lemma_only_now(before);
            }
            return AllocStep::Failed;
        }
        proof {
            lemma_mistaken(before.sizes(), layout, recorded);
        }
        let address: usize = self.map_direct(plan, layout, mapping, owner);
        proof {
            let own = Block::Direct { address, mapping, bytes: plan.mapping_size as int };
            lemma_record_joins(before, *self, owner, self.records.extras@.last());
            assert(serves(before, *self, layout, address, ServedKind::Direct { mapping_size: plan.mapping_size }, own));
        }
        AllocStep::Served { address, kind: ServedKind::Direct { mapping_size: plan.mapping_size } }
    }

    /// Serves the layout with a small block that was just put to use.
    fn settle_small(&mut self, layout: Layout, class: usize, recorded: bool, block: usize, Ghost(before): Ghost<Space>) -> (step: AllocStep)
        requires
            before.whole(),
            step_kept(before, *old(self)),
            old(self).records == before.records,
            layout.wf(),
            block != 0,
            wanted_class(old(self).sizes(), layout, recorded) == Some(class),
            taken(
                before,
                *old(self),
                Block::Small { block, context: recorded, class: class as int, requested_bytes: layout.size as int },
            ),
        ensures
            step_ok(before, *final(self), layout, step),
            on_route(Route::Small { class }, recorded, step),
            step matches AllocStep::Served { address, kind } && small_start(layout, address, kind) == block && (kind is Small || kind is Recorded),
            final(self).mapped == old(self).mapped,
            final(self).domains == old(self).domains,
            final(self).slabs == old(self).slabs,
            final(self).heaps@ == old(self).heaps@,
            final(self).remotes == old(self).remotes,
            final(self).holdings == old(self).holdings,
            final(self).bumps == old(self).bumps,
    {
        let ghost middle = *self;
        if recorded {
            proof {
                lemma_unrecorded(before, middle, block, class as int, layout.size as int);
            }
            let address: usize = self.record_context(block, class, layout);
            proof {
                lemma_record_joins(middle, *self, None, self.records.extras@.last());
                lemma_recorded_serves(before, middle, *self, layout, class, block, address);
            }
            AllocStep::Served { address, kind: ServedKind::Recorded { class } }
        } else {
            proof {
                lemma_small_serves(before, middle, layout, class, block);
            }
            AllocStep::Served { address: block, kind: ServedKind::Small { class } }
        }
    }

    /// Serves the layout with a small block of the heap, or of another thread's heap.
    #[verifier::spinoff_prover]
    #[verifier::rlimit(60)]
    fn start_small(
        &mut self,
        heap: usize,
        remote: Option<usize>,
        layout: Layout,
        class: usize,
        recorded: bool,
        options: AllocOptions,
        spare: Option<usize>,
    ) -> (outcome: (AllocStep, bool, u64))
        requires
            old(self).whole(),
            layout.wf(),
            heap < old(self).heaps@.len(),
            remote matches Some(remote) ==> remote < old(self).remotes@.len(),
            wanted_class(old(self).sizes(), layout, recorded) == Some(class),
            spare matches Some(base) ==> fresh_region(old(self).domains@, old(self).mapped@, base),
        ensures
            final(self).bumps == old(self).bumps,
            step_ok(*old(self), *final(self), layout, outcome.0),
            on_route(Route::Small { class }, recorded, outcome.0),
            by_heap(*old(self), *final(self), heap as int, named(*old(self), remote), layout, outcome.0),
            outcome.1 ==> spare is Some,
            outcome.2 == drains(*old(self), heap as int, named(*old(self), remote), outcome.0),
            picked(*old(self), heap as int, named(*old(self), remote), layout, outcome.0),
            heap_left(
                *old(self),
                *final(self),
                heap as int,
                named(*old(self), remote),
                layout,
                options,
                spare,
                outcome.0,
                outcome.1,
            ),
            spare is Some ==> !(outcome.0 is Failed) && !(outcome.0 is Mapping),
    {
        let ghost before = *self;
        proof {
            lemma_wanted(before.sizes(), layout, recorded, class);
        }
        match remote {
            None => {
                let popped: (usize, u64) = self.take_small(heap, recorded, class, layout.size);
                if popped.0 != 0 {
                    let step: AllocStep = self.settle_small(layout, class, recorded, popped.0, Ghost(before));
                    return (step, false, popped.1);
                }
                let ghost middle = *self;
                let request: (SlabRequest, bool) = self.begin_refill(heap, spare, options.track_aggregates);
                let step: AllocStep = AllocStep::Refill { heap, request: request.0, class, recorded };
                proof {
                    assert(smalls_kept(middle, *self));
                    assert(bumps_kept(middle.bumps@, self.bumps@));
                    lemma_whole_goes_on(middle, *self);
                    assert(smalls_less(middle, *self));
                    assert(bumps_less(middle.bumps@, self.bumps@));
                    lemma_still(middle, *self);
                    lemma_then(before, middle, *self, layout, step);
                }
                (step, request.1, popped.1)
            },
            Some(remote) => {
                proof {
                    let name = before.remotes@[remote as int].address;
                    assert(before.remotes@[remote as int].inv(before.slabs@, before.sizes()));
                    assert forall|at: int| #[trigger] before.is_remote(at, name) implies at == remote by {
                        if at < remote {
                            assert(before.remotes@[at].address != before.remotes@[remote as int].address);
                        } else if remote < at {
                            assert(before.remotes@[remote as int].address != before.remotes@[at].address);
                        }
                    }
                }
                let block: usize = self.take_thread_small(remote, recorded, class, layout.size);
                if block != 0 {
                    let step: AllocStep = self.settle_small(layout, class, recorded, block, Ghost(before));
                    proof {
                        assert(before.is_remote(remote as int, before.remotes@[remote as int].address));
                        assert(lists(before, before.remotes@[remote as int].address, block as int));
                    }
                    return (step, false, 0);
                }
                let ghost middle = *self;
                let domain: usize = self.remotes[remote].domain;
                let taken: Option<(usize, bool)> = self.take_slice(domain, spare);
                proof {
                    lemma_spans_only(middle, *self);
                    lemma_spans_still(middle, *self);
                }
                match taken {
                    None => {
                        if recorded {
                            proof {
                                lemma_then(before, middle, *self, layout, AllocStep::Failed);
                            }
                            (AllocStep::Failed, false, 0)
                        } else {
                            let step: AllocStep = self.start_direct(layout, false, Some(heap));
                            proof {
                                lemma_then(middle, *self, *self, layout, step);
                                lemma_then(before, middle, *self, layout, step);
                            }
                            (step, false, 0)
                        }
                    },
                    Some((slice, appended)) => {
                        let step: AllocStep = AllocStep::Slice { heap, remote, slice, class, recorded };
                        proof {
                            lemma_then(before, middle, *self, layout, step);
                        }
                        (step, appended, 0)
                    },
                }
            },
        }
    }

    /// Goes on with the system's answer to what a heap needed for a slab.
    pub fn allocate_refilled(
        &mut self,
        layout: Layout,
        heap: usize,
        request: SlabRequest,
        class: usize,
        recorded: bool,
        reply: Option<usize>,
        options: AllocOptions,
    ) -> (step: AllocStep)
        requires
            old(self).whole(),
            layout.wf(),
            pending_ok(*old(self), layout, AllocStep::Refill { heap, request, class, recorded }),
            refill_reply(*old(self), request, reply),
        ensures
            final(self).bumps == old(self).bumps,
            step_ok(*old(self), *final(self), layout, step),
            on_route(Route::Small { class }, recorded, step),
            by_heap(*old(self), *final(self), heap as int, 0, layout, step),
            step is Served <==> reply is Some,
            step is Failed <==> reply is None && recorded,
            match step {
                AllocStep::Served { address, kind } => refill_done(
                    *old(self),
                    *final(self),
                    heap as int,
                    request,
                    reply->0,
                    recorded,
                    class,
                    layout.size as int,
                    small_start(layout, address, kind),
                    options.track_aggregates,
                ),
                _ => {
                    &&& lists_stay(*old(self), *final(self))
                    &&& final(self).mapped == old(self).mapped
                    &&& final(self).records == old(self).records
                    &&& refill_dropped(*old(self), *final(self), heap as int, request)
                },
            },
    {
        let ghost before = *self;
        proof {
            lemma_wanted(before.sizes(), layout, recorded, class);
        }
        let block: usize = self.finish_small(heap, request, reply, recorded, class, layout.size, options.track_aggregates);
        if block != 0 {
            return self.settle_small(layout, class, recorded, block, Ghost(before));
        }
        if recorded {
            return AllocStep::Failed;
        }
        let step: AllocStep = self.start_direct(layout, false, Some(heap));
        proof {
            lemma_then(before, *self, *self, layout, step);
        }
        step
    }

    /// Goes on once the slice for a thread heap is committed, or could not be.
    pub fn allocate_sliced(
        &mut self,
        layout: Layout,
        heap: usize,
        remote: usize,
        slice: usize,
        class: usize,
        recorded: bool,
        committed: bool,
        options: AllocOptions,
    ) -> (step: AllocStep)
        requires
            old(self).whole(),
            layout.wf(),
            pending_ok(*old(self), layout, AllocStep::Slice { heap, remote, slice, class, recorded }),
        ensures
            final(self).bumps == old(self).bumps,
            step_ok(*old(self), *final(self), layout, step),
            on_route(Route::Small { class }, recorded, step),
            step is Served <==> committed,
            step is Failed <==> !committed && recorded,
            match step {
                AllocStep::Served { address, kind } => {
                    &&& shared_block(*final(self), small_start(layout, address, kind))
                    &&& final(self).heaps@ == old(self).heaps@
                    &&& final(self).mapped == old(self).mapped
                    &&& slice_done(
                        *old(self),
                        *final(self),
                        remote as int,
                        slice,
                        recorded,
                        class,
                        layout.size as int,
                        small_start(layout, address, kind),
                        options.track_aggregates,
                    )
                },
                _ => {
                    &&& by_heap(*old(self), *final(self), heap as int, 0, layout, step)
                    &&& span_returned(*old(self), *final(self), old(self).remotes@[remote as int].domain, slice, 1)
                },
            },
    {
        let ghost before = *self;
        proof {
            lemma_wanted(before.sizes(), layout, recorded, class);
        }
        let block: usize = self.finish_thread_small(
            remote,
            slice,
            committed,
            recorded,
            class,
            layout.size,
            options.track_aggregates,
        );
        if block != 0 {
            return self.settle_small(layout, class, recorded, block, Ghost(before));
        }
        if recorded {
            return AllocStep::Failed;
        }
        let step: AllocStep = self.start_direct(layout, false, Some(heap));
        proof {
            lemma_then(before, *self, *self, layout, step);
        }
        step
    }

    /// Serves the layout with a span of the heap.
    fn start_medium(&mut self, heap: usize, layout: Layout, options: AllocOptions) -> (step: AllocStep)
        requires
            old(self).whole(),
            layout.wf(),
            heap < old(self).heaps@.len(),
            medium_slices(layout) is Some,
            small_class(old(self).sizes(), layout) is None,
        ensures
            final(self).bumps == old(self).bumps,
            step_ok(*old(self), *final(self), layout, step),
            on_route(Route::Medium, false, step),
            forall|remote: usize| #[trigger] by_heap(*old(self), *final(self), heap as int, remote, layout, step),
            forall|remote: usize| #[trigger] picked(*old(self), heap as int, remote, layout, step),
            forall|remote: usize, spare: Option<usize>|
                #[trigger] heap_left(*old(self), *final(self), heap as int, remote, layout, options, spare, step, false),
    {
        let ghost before = *self;
        let slices: Option<usize> = medium_slice_count(layout);
        let outcome: MediumStep = self.begin_medium(heap, layout, options.now, options.track_aggregates);
        proof {
            lemma_arena_kept(before, *self, heap as int);
            if !(outcome is Served) {
                lemma_arena_still(before, *self, heap as int);
            }
        }
        match outcome {
            MediumStep::Served { address } => {
                proof {
                    lemma_medium_serves(before, *self, layout, heap as int, address);
                }
                AllocStep::Served { address, kind: ServedKind::Medium }
            },
            MediumStep::Purge { spans } => AllocStep::Purge { heap, spans },
            MediumStep::Unfit => AllocStep::Failed,
        }
    }

    /// Goes on once the spans that a heap let go of are decommitted, as far as they could be.
    pub fn allocate_purged(
        &mut self,
        layout: Layout,
        heap: usize,
        spans: &Vec<PurgeSpan>,
        decommitted: &Vec<bool>,
        spare: Option<usize>,
    ) -> (outcome: (AllocStep, bool))
        requires
            old(self).whole(),
            layout.wf(),
            heap < old(self).heaps@.len(),
            medium_slices(layout) is Some,
            small_class(old(self).sizes(), layout) is None,
            purge_pending(*old(self), heap as int, spans@),
            spans@.len() == decommitted@.len(),
            spare matches Some(base) ==> fresh_region(old(self).domains@, old(self).mapped@, base),
        ensures
            final(self).bumps == old(self).bumps,
            step_ok(*old(self), *final(self), layout, outcome.0),
            outcome.0 is Span || (outcome.0 matches AllocStep::Mapping { plan, recorded, owner } && !recorded),
            arena_only(*old(self), *final(self), heap as int),
            final(self).heaps == old(self).heaps,
            continued(
                &old(self).domains@[old(self).heaps@[heap as int].domain - 1],
                &final(self).domains@[old(self).heaps@[heap as int].domain - 1],
                spans@,
                decommitted@,
                spare,
                medium_slices(layout)->0 as int,
                match outcome.0 {
                    AllocStep::Span { heap: named, address } => Some((address, outcome.1)),
                    _ => None,
                },
            ),
            by_heap(*old(self), *final(self), heap as int, 0, layout, outcome.0),
            spare is Some ==> outcome.0 is Span,
            outcome.1 ==> spare is Some,
    {
        let ghost before = *self;
        let slices: Option<usize> = medium_slice_count(layout);
        let taken: Option<(usize, bool)> = self.continue_medium(heap, layout, spans, decommitted, spare);
        proof {
            lemma_arena_kept(before, *self, heap as int);
            lemma_arena_still(before, *self, heap as int);
        }
        match taken {
            Some((address, appended)) => (AllocStep::Span { heap, address }, appended),
            None => {
                let step: AllocStep = self.start_direct(layout, false, Some(heap));
                proof {
                    lemma_then(before, *self, *self, layout, step);
                }
                (step, false)
            },
        }
    }

    /// Goes on once the span is committed, or could not be.
    pub fn allocate_spanned(&mut self, layout: Layout, heap: usize, address: usize, committed: bool) -> (step: AllocStep)
        requires
            old(self).whole(),
            layout.wf(),
            pending_ok(*old(self), layout, AllocStep::Span { heap, address }),
        ensures
            final(self).bumps == old(self).bumps,
            step_ok(*old(self), *final(self), layout, step),
            if committed {
                step == (AllocStep::Served { address, kind: ServedKind::Medium })
            } else {
                step matches AllocStep::Mapping { plan, recorded, owner } && !recorded
            },
            span_finished(*old(self), *final(self), heap as int, layout, address, committed),
            by_heap(*old(self), *final(self), heap as int, 0, layout, step),
    {
        let ghost before = *self;
        let slices: Option<usize> = medium_slice_count(layout);
        let allocation: usize = self.finish_medium(heap, layout, address, committed);
        proof {
            lemma_arena_kept(before, *self, heap as int);
            if !committed {
                lemma_arena_still(before, *self, heap as int);
            }
        }
        if committed {
            proof {
                lemma_medium_serves(before, *self, layout, heap as int, address);
            }
            AllocStep::Served { address: allocation, kind: ServedKind::Medium }
        } else {
            let step: AllocStep = self.start_direct(layout, false, Some(heap));
            proof {
                lemma_then(before, *self, *self, layout, step);
            }
            step
        }
    }

    /// Serves the layout where no bump heap does.
    #[verifier::spinoff_prover]
    #[verifier::rlimit(60)]
    fn start_plain(
        &mut self,
        heap: usize,
        remote: Option<usize>,
        layout: Layout,
        recorded: bool,
        options: AllocOptions,
        spare: Option<usize>,
    ) -> (outcome: (AllocStep, bool, u64))
        requires
            old(self).whole(),
            layout.wf(),
            heap < old(self).heaps@.len(),
            remote matches Some(remote) ==> remote < old(self).remotes@.len(),
            spare matches Some(base) ==> fresh_region(old(self).domains@, old(self).mapped@, base),
        ensures
            final(self).bumps == old(self).bumps,
            step_ok(*old(self), *final(self), layout, outcome.0),
            on_route(route(old(self).sizes(), layout, recorded), recorded, outcome.0),
            by_heap(*old(self), *final(self), heap as int, named(*old(self), remote), layout, outcome.0),
            outcome.1 ==> spare is Some,
            outcome.2 == drains(*old(self), heap as int, named(*old(self), remote), outcome.0),
            picked(*old(self), heap as int, named(*old(self), remote), layout, outcome.0),
            heap_left(
                *old(self),
                *final(self),
                heap as int,
                named(*old(self), remote),
                layout,
                options,
                spare,
                outcome.0,
                outcome.1,
            ),
            bump_left(*old(self), *final(self), spare, outcome.0, outcome.1),
    {
        if recorded {
            match context_class(&self.tuning, layout) {
                Some(class) => self.start_small(heap, remote, layout, class, true, options, spare),
                None => (self.start_direct(layout, true, Some(heap)), false, 0),
            }
        } else {
            match default_class(&self.tuning, layout) {
                Some(class) => self.start_small(heap, remote, layout, class, false, options, spare),
                None => match medium_slice_count(layout) {
                    Some(slices) => (self.start_medium(heap, layout, options), false, 0),
                    None => (self.start_direct(layout, false, Some(heap)), false, 0),
                },
            }
        }
    }
}

/// Whether the thread's active bump heap can place such a block, or refuse it.
pub open spec fn active_ready(space: Space, thread: ThreadState, layout: Layout, logged: bool) -> bool {
    forall|bump: int|
        #[trigger] space.is_bump(bump, thread.active_bump) && thread.active_bump != 0 ==> bump_ready(space, bump, layout, logged)
}

/// Whether the thread's active bump heap can place such a block without a header, or refuse it, where
/// it may be asked to.
pub open spec fn plain_ready(space: Space, thread: ThreadState, layout: Layout, options: AllocOptions) -> bool {
    options.logged || forall|bump: int|
        #[trigger] space.is_bump(bump, thread.active_bump) && thread.active_bump != 0 ==> (options.track_callers && bump_serves(
            space.bumps@[bump],
            layout,
            true,
        ) && space.bumps@[bump].roomy()) || bump_ready(space, bump, layout, false)
}

impl Space {
    /// Serves the layout once the thread has a heap: with a record where an event log wants to know
    /// of the block, else with the active bump heap, else as the layout's size says.
    #[verifier::spinoff_prover]
    #[verifier::rlimit(60)]
    pub fn allocate_with_heap(&mut self, thread: &ThreadState, layout: Layout, options: AllocOptions, spare: Option<usize>) -> (outcome:
        (AllocStep, bool, u64))
        requires
            old(self).whole(),
            layout.wf(),
            thread.known(*old(self)),
            !options.logged ==> active_ready(*old(self), *thread, layout, false),
            spare matches Some(base) ==> fresh_region(old(self).domains@, old(self).mapped@, base),
        ensures
            bumps_counted(*old(self), *final(self), thread.active_bump, layout, by_bump(outcome.0)),
            step_ok(*old(self), *final(self), layout, outcome.0),
            by_thread(*old(self), *final(self), *thread, layout, outcome.0, outcome.2),
            left_by(*old(self), *final(self), *thread, layout, options, spare, outcome.0, outcome.1),
            outcome.0 is MapHeap <==> thread.spec_current_heap() == 0,
            thread.spec_current_heap() != 0 && (options.logged || thread.active_bump == 0) ==> on_route(
                route(old(self).sizes(), layout, options.logged),
                options.logged,
                outcome.0,
            ),
            way_taken(*old(self), *final(self), *thread, layout, AllocOptions { track_callers: false, ..options }, outcome.0),
            outcome.0 matches AllocStep::Chunk { bump, chunk, logged } ==> !logged && old(self).is_bump(bump as int, thread.active_bump),
            outcome.1 ==> spare is Some,
    {
        let ghost before = *self;
        let current: usize = thread.current_heap();
        let heap: usize = if current == 0 {
            proof {
                lemma_only_now(before);
                lemma_no_heap(before, before, *thread, layout, AllocStep::MapHeap);
                lemma_left_by_bump(before, before, *thread, layout, options, spare, AllocStep::MapHeap, false);
                lemma_counted_same(before, before, thread.active_bump, layout);
            }
            return (AllocStep::MapHeap, false, 0);
        } else {
            match self.find_heap(current) {
                Some(heap) => heap,
                None => {
                    proof {
                        lemma_only_now(before);
                        lemma_no_heap(before, before, *thread, layout, AllocStep::MapHeap);
                lemma_left_by_bump(before, before, *thread, layout, options, spare, AllocStep::MapHeap, false);
                        lemma_counted_same(before, before, thread.active_bump, layout);
                    }
                    return (AllocStep::MapHeap, false, 0);
                },
            }
        };
        let named: usize = thread.current_remote();
        let remote: Option<usize> = if named == 0 {
            None
        } else {
            self.find_remote(named)
        };
        if options.logged {
            let outcome: (AllocStep, bool, u64) = self.start_plain(heap, remote, layout, true, options, spare);
            proof {
                lemma_by_thread(before, *self, *thread, heap as int, remote, layout, outcome.0, outcome.2);
                lemma_left_by_heap(before, *self, *thread, heap as int, layout, options, spare, outcome.0, outcome.1);
                lemma_counted_same(before, *self, thread.active_bump, layout);
            }
            return outcome;
        }
        if thread.active_bump != 0 {
            let found: Option<usize> = self.find_bump(thread.active_bump);
            if let Some(bump) = found {
                proof {
                    lemma_only_bump(before, bump as int);
                }
                let attempt: (BumpTry, bool) = self.try_bump(bump, layout, false, spare);
                match attempt.0 {
                    BumpTry::Served { address } => {
                        let step: AllocStep = AllocStep::Served { address, kind: ServedKind::Bump };
                        proof {
                            lemma_no_heap(before, *self, *thread, layout, step);
                            lemma_left_by_bump(before, *self, *thread, layout, options, spare, step, attempt.1);
                        }
                        return (step, attempt.1, 0);
                    },
                    BumpTry::NeedChunk { chunk } => {
                        let step: AllocStep = AllocStep::Chunk { bump, chunk, logged: false };
                        proof {
                            lemma_no_heap(before, *self, *thread, layout, step);
                            lemma_left_by_bump(before, *self, *thread, layout, options, spare, step, attempt.1);
                        }
                        return (step, attempt.1, 0);
                    },
                    BumpTry::Refused => {},
                }
                let ghost middle = *self;
                let outcome: (AllocStep, bool, u64) = self.start_plain(heap, remote, layout, false, options, spare);
                proof {
                    lemma_then(before, middle, *self, layout, outcome.0);
                    lemma_by_thread(middle, *self, *thread, heap as int, remote, layout, outcome.0, outcome.2);
                    lemma_left_by_heap(middle, *self, *thread, heap as int, layout, options, spare, outcome.0, outcome.1);
                    lemma_counted_same(middle, *self, thread.active_bump, layout);
                    lemma_counted_then(before, middle, *self, thread.active_bump, layout, false);
                    lemma_by_thread_then(before, middle, *self, *thread, layout, outcome.0, outcome.2);
                    lemma_left_by_then(before, middle, *self, *thread, layout, options, spare, outcome.0, outcome.1);
                }
                return outcome;
            }
        }
        let outcome: (AllocStep, bool, u64) = self.start_plain(heap, remote, layout, false, options, spare);
        proof {
            lemma_by_thread(before, *self, *thread, heap as int, remote, layout, outcome.0, outcome.2);
            lemma_left_by_heap(before, *self, *thread, heap as int, layout, options, spare, outcome.0, outcome.1);
            lemma_counted_same(before, *self, thread.active_bump, layout);
        }
        outcome
    }

    /// Serves the layout for a thread: a thread that is about to end gets a mapping, one with an
    /// active bump heap is served by that first. Also says whether the spare region was used, and how
    /// many blocks came back from other threads on the way.
    #[verifier::spinoff_prover]
    #[verifier::rlimit(60)]
    pub fn allocate(&mut self, thread: &ThreadState, layout: Layout, options: AllocOptions, spare: Option<usize>) -> (outcome: (
        AllocStep,
        bool,
        u64,
    ))
        requires
            old(self).whole(),
            layout.wf(),
            thread.known(*old(self)),
            !thread.tearing_down ==> plain_ready(*old(self), *thread, layout, options) && (options.track_callers ==> active_ready(
                *old(self),
                *thread,
                layout,
                true,
            )),
            spare matches Some(base) ==> fresh_region(old(self).domains@, old(self).mapped@, base),
        ensures
            step_ok(*old(self), *final(self), layout, outcome.0),
            thread.tearing_down ==> (outcome.0 matches AllocStep::Mapping { plan, recorded, owner } && !recorded && owner is None)
                && outcome.2 == 0 && *final(self) == *old(self),
            !thread.tearing_down ==> by_thread(*old(self), *final(self), *thread, layout, outcome.0, outcome.2),
            !thread.tearing_down ==> left_by(*old(self), *final(self), *thread, layout, options, spare, outcome.0, outcome.1),
            outcome.0 is MapHeap ==> !thread.tearing_down && thread.spec_current_heap() == 0,
            !thread.tearing_down && thread.active_bump == 0 && thread.spec_current_heap() == 0 ==> outcome.0 is MapHeap,
            !thread.tearing_down && thread.active_bump == 0 && thread.spec_current_heap() != 0 ==> on_route(
                route(old(self).sizes(), layout, options.logged),
                options.logged,
                outcome.0,
            ),
            !thread.tearing_down ==> way_taken(*old(self), *final(self), *thread, layout, options, outcome.0),
            bumps_counted(*old(self), *final(self), thread.active_bump, layout, by_bump(outcome.0)),
            outcome.0 matches AllocStep::Chunk { bump, chunk, logged } ==> old(self).is_bump(bump as int, thread.active_bump),
            outcome.1 ==> spare is Some,
    {
        let ghost before = *self;
        if thread.tearing_down {
            proof {
                lemma_counted_same(before, before, thread.active_bump, layout);
            }
            return (self.start_direct(layout, false, None), false, 0);
        }
        if options.track_callers && thread.active_bump != 0 {
            let found: Option<usize> = self.find_bump(thread.active_bump);
            if let Some(bump) = found {
                proof {
                    lemma_only_bump(before, bump as int);
                }
                let attempt: (BumpTry, bool) = self.try_bump(bump, layout, true, spare);
                match attempt.0 {
                    BumpTry::Served { address } => {
                        let step: AllocStep = AllocStep::Served { address, kind: ServedKind::Bump };
                        proof {
                            lemma_no_heap(before, *self, *thread, layout, step);
                            lemma_left_by_bump(before, *self, *thread, layout, options, spare, step, attempt.1);
                        }
                        return (step, attempt.1, 0);
                    },
                    BumpTry::NeedChunk { chunk } => {
                        let step: AllocStep = AllocStep::Chunk { bump, chunk, logged: true };
                        proof {
                            lemma_no_heap(before, *self, *thread, layout, step);
                            lemma_left_by_bump(before, *self, *thread, layout, options, spare, step, attempt.1);
                        }
                        return (step, attempt.1, 0);
                    },
                    BumpTry::Refused => {},
                }
                let ghost middle = *self;
                proof {
                    lemma_known_kept(before, middle, *thread);
                    if !options.logged {
                        assert(active_ready(middle, *thread, layout, false)) by {
                            assert forall|at: int|
                                #[trigger] middle.is_bump(at, thread.active_bump) && thread.active_bump != 0 implies bump_ready(
                                middle,
                                at,
                                layout,
                                false,
                            ) by {
                                assert(middle.bumps@[at].address == before.bumps@[at].address);
                                assert(before.is_bump(at, thread.active_bump));
                                lemma_one_bump(before, at, bump as int);
                                assert(bump_ready(before, at, layout, false));
                            }
                        }
                    }
                }
                let outcome: (AllocStep, bool, u64) = self.allocate_with_heap(thread, layout, options, spare);
                proof {
                    lemma_then(before, middle, *self, layout, outcome.0);
                    lemma_by_thread_then(before, middle, *self, *thread, layout, outcome.0, outcome.2);
                    lemma_counted_then(before, middle, *self, thread.active_bump, layout, by_bump(outcome.0));
                    if let AllocStep::Chunk { bump: b, chunk, logged } = outcome.0 {
                        assert(middle.is_bump(b as int, thread.active_bump));
                        assert(middle.bumps@[b as int].address == before.bumps@[b as int].address);
                    }
                    lemma_left_by_then(before, middle, *self, *thread, layout, options, spare, outcome.0, outcome.1);
                    if !bump_serves(before.bumps@[bump as int], layout, true) {
                        assert(middle.is_bump(bump as int, thread.active_bump));
                    }
                }
                return outcome;
            }
        }
        proof {
            if !options.logged {
                assert forall|at: int| #[trigger] before.is_bump(at, thread.active_bump) && thread.active_bump != 0 implies bump_ready(
                    before,
                    at,
                    layout,
                    false,
                ) by {}
            }
        }
        self.allocate_with_heap(thread, layout, options, spare)
    }

    /// Puts the committed chunk into the bump heap and tries the layout again. A block that no empty
    /// segment holds needs one more chunk.
    #[verifier::spinoff_prover]
    #[verifier::rlimit(80)]
    fn allocate_supplied(&mut self, layout: Layout, bump: usize, chunk: usize, logged: bool, spare: Option<usize>) -> (outcome: (
        AllocStep,
        bool,
    ))
        requires
            old(self).whole(),
            layout.wf(),
            pending_ok(*old(self), layout, AllocStep::Chunk { bump, chunk: Some(chunk), logged }),
            bump_ready(*old(self), bump as int, layout, logged),
            spare matches Some(base) ==> fresh_region(old(self).domains@, old(self).mapped@, base),
        ensures
            step_ok(*old(self), *final(self), layout, outcome.0),
            outcome.0 is Served <==> fits_empty(
                header_bytes(logged),
                placed_alignment(layout, logged),
                layout.spec_bytes(),
            ),
            match outcome.0 {
                AllocStep::Served { address, kind } => kind is Bump,
                AllocStep::Chunk { bump: again, chunk: next, logged: header } => again == bump && header == logged,
                _ => false,
            },
            exists|supplied: BumpState|
                #[trigger] supplied.supplied(&old(self).bumps@[bump as int], chunk) && bumped(
                    supplied,
                    *final(self),
                    bump as int,
                    layout,
                    logged,
                    outcome.0,
                ),
            bumps_counted(
                *old(self),
                *final(self),
                old(self).bumps@[bump as int].address,
                layout,
                by_bump(outcome.0),
            ),
            exists|middle: Space|
                #[trigger] chunk_joined(*old(self), middle, bump as int, chunk) && bump_left(
                    middle,
                    *final(self),
                    spare,
                    outcome.0,
                    outcome.1,
                ),
            outcome.1 ==> spare is Some,
    {
        let ghost before = *self;
        self.supply_bump_chunk(bump, chunk);
        let ghost middle = *self;
        proof {
            lemma_bump_kept(before, middle, bump as int);
            lemma_bump_still(before, middle, bump as int);
            lemma_supplied(before, middle, bump as int, chunk, layout, logged);
            if let Some(base) = spare {
                lemma_spare_kept(before, middle, base);
            }
        }
        let attempt: (BumpTry, bool) = self.try_bump(bump, layout, logged, spare);
        let step: AllocStep = match attempt.0 {
            BumpTry::Served { address } => AllocStep::Served { address, kind: ServedKind::Bump },
            BumpTry::NeedChunk { chunk } => AllocStep::Chunk { bump, chunk, logged },
            BumpTry::Refused => {
                proof {
                    reveal(bump_placed);
                    assert(false);
                }
                return (AllocStep::Failed, false);
            },
        };
        proof {
            let own = before.bumps@[bump as int];
            let supplied = middle.bumps@[bump as int];
            assert(supplied.supplied(&own, chunk));
            assert(step is Served <==> fits_empty(
                header_bytes(logged),
                placed_alignment(layout, logged),
                layout.spec_bytes(),
            )) by {
                reveal(bump_placed);
            }
            assert(chunk_joined(before, middle, bump as int, chunk));
            lemma_counted_one(before, middle, bump as int, layout, false);
            lemma_counted_then(before, middle, *self, own.address, layout, by_bump(step));
            lemma_then(before, middle, *self, layout, step);
        }
        (step, attempt.1)
    }

    /// Goes on once a bump heap's chunk is committed, or could not be.
    #[verifier::spinoff_prover]
    #[verifier::rlimit(60)]
    pub fn allocate_chunked(
        &mut self,
        thread: &ThreadState,
        layout: Layout,
        bump: usize,
        chunk: Option<usize>,
        logged: bool,
        committed: bool,
        options: AllocOptions,
        spare: Option<usize>,
    ) -> (outcome: (AllocStep, bool, u64))
        requires
            old(self).whole(),
            layout.wf(),
            thread.known(*old(self)),
            pending_ok(*old(self), layout, AllocStep::Chunk { bump, chunk, logged }),
            bump_ready(*old(self), bump as int, layout, logged),
            logged && !options.logged && !committed ==> active_ready(*old(self), *thread, layout, false),
            committed ==> chunk is Some,
            spare matches Some(base) ==> fresh_region(old(self).domains@, old(self).mapped@, base),
        ensures
            step_ok(*old(self), *final(self), layout, outcome.0),
            committed ==> (outcome.0 is Served <==> fits_empty(
                header_bytes(logged),
                placed_alignment(layout, logged),
                layout.spec_bytes(),
            )),
            committed ==> exists|supplied: BumpState|
                #[trigger] supplied.supplied(&old(self).bumps@[bump as int], chunk->0) && bumped(
                    supplied,
                    *final(self),
                    bump as int,
                    layout,
                    logged,
                    outcome.0,
                ),
            bumps_counted(
                *old(self),
                *final(self),
                if committed {
                    old(self).bumps@[bump as int].address
                } else {
                    thread.active_bump
                },
                layout,
                by_bump(outcome.0),
            ),
            !committed && logged ==> way_taken(
                *old(self),
                *final(self),
                *thread,
                layout,
                AllocOptions { track_callers: false, ..options },
                outcome.0,
            ),
            !committed && !logged && thread.spec_current_heap() != 0 ==> on_route(
                route(old(self).sizes(), layout, false),
                false,
                outcome.0,
            ),
            by_thread(*old(self), *final(self), *thread, layout, outcome.0, outcome.2),
            committed ==> exists|middle: Space|
                #[trigger] chunk_joined(*old(self), middle, bump as int, chunk->0) && bump_left(
                    middle,
                    *final(self),
                    spare,
                    outcome.0,
                    outcome.1,
                ),
            !committed ==> exists|middle: Space|
                #[trigger] chunk_returned(*old(self), middle, old(self).bumps@[bump as int].domain, chunk) && left_by(
                    middle,
                    *final(self),
                    *thread,
                    layout,
                    options,
                    spare,
                    outcome.0,
                    outcome.1,
                ),
            outcome.0 is MapHeap ==> thread.spec_current_heap() == 0,
            outcome.1 ==> spare is Some,
    {
        let ghost before = *self;
        match chunk {
            Some(chunk) => {
                if committed {
                    let attempt: (AllocStep, bool) = self.allocate_supplied(layout, bump, chunk, logged, spare);
                    proof {
                        lemma_no_heap(before, *self, *thread, layout, attempt.0);
                    }
                    return (attempt.0, attempt.1, 0);
                }
                let domain: usize = self.bumps[bump].domain;
                self.give_slice_back(domain, chunk);
                proof {
                    lemma_spans_only(before, *self);
                    lemma_spans_still(before, *self);
                }
            },
            None => {
                proof {
                    lemma_only_now(before);
                }
            },
        }
        let ghost middle = *self;
        proof {
            assert(chunk_returned(before, middle, before.bumps@[bump as int].domain, chunk));
            assert(step_kept(before, middle));
            lemma_known_kept(before, middle, *thread);
            if logged && !options.logged {
                assert(active_ready(middle, *thread, layout, false)) by {
                    assert forall|at: int| #[trigger] middle.is_bump(at, thread.active_bump) && thread.active_bump != 0 implies bump_ready(
                        middle,
                        at,
                        layout,
                        false,
                    ) by {
                        assert(before.is_bump(at, thread.active_bump));
                        assert(bump_ready(before, at, layout, false));
                    }
                }
            }
            if let Some(base) = spare {
                // A slice that goes back changes no region.
                lemma_spare_kept(before, middle, base);
            }
        }
        let outcome: (AllocStep, bool, u64) = if logged {
            self.allocate_with_heap(thread, layout, options, spare)
        } else {
            self.allocate_unbumped(thread, layout, options, spare)
        };
        proof {
            lemma_then(before, middle, *self, layout, outcome.0);
            lemma_by_thread_then(before, middle, *self, *thread, layout, outcome.0, outcome.2);
            lemma_counted_same(before, middle, thread.active_bump, layout);
            if !logged {
                lemma_counted_same(middle, *self, thread.active_bump, layout);
            }
            lemma_counted_then(before, middle, *self, thread.active_bump, layout, by_bump(outcome.0));
            if logged {
                assert forall|at: int| #[trigger] before.is_bump(at, thread.active_bump) implies middle.is_bump(at, thread.active_bump) by {}
            }
        }
        outcome
    }

    /// Serves the layout as its size says.
    fn allocate_unbumped(&mut self, thread: &ThreadState, layout: Layout, options: AllocOptions, spare: Option<usize>) -> (outcome: (
        AllocStep,
        bool,
        u64,
    ))
        requires
            old(self).whole(),
            layout.wf(),
            thread.known(*old(self)),
            spare matches Some(base) ==> fresh_region(old(self).domains@, old(self).mapped@, base),
        ensures
            final(self).bumps == old(self).bumps,
            step_ok(*old(self), *final(self), layout, outcome.0),
            by_thread(*old(self), *final(self), *thread, layout, outcome.0, outcome.2),
            left_by(*old(self), *final(self), *thread, layout, options, spare, outcome.0, outcome.1),
            outcome.0 is MapHeap <==> thread.spec_current_heap() == 0,
            thread.spec_current_heap() != 0 ==> on_route(route(old(self).sizes(), layout, false), false, outcome.0),
            outcome.1 ==> spare is Some,
    {
        let ghost before = *self;
        let current: usize = thread.current_heap();
        if current == 0 {
            proof {
                lemma_only_now(before);
                lemma_no_heap(before, before, *thread, layout, AllocStep::MapHeap);
                lemma_left_by_bump(before, before, *thread, layout, options, spare, AllocStep::MapHeap, false);
                lemma_counted_same(before, before, thread.active_bump, layout);
            }
            return (AllocStep::MapHeap, false, 0);
        }
        let found: Option<usize> = self.find_heap(current);
        let named: usize = thread.current_remote();
        let remote: Option<usize> = if named == 0 {
            None
        } else {
            self.find_remote(named)
        };
        match found {
            Some(heap) => {
                let outcome: (AllocStep, bool, u64) = self.start_plain(heap, remote, layout, false, options, spare);
                proof {
                    lemma_by_thread(before, *self, *thread, heap as int, remote, layout, outcome.0, outcome.2);
                    lemma_left_by_heap(before, *self, *thread, heap as int, layout, options, spare, outcome.0, outcome.1);
                }
                outcome
            },
            None => {
                proof {
                    lemma_only_now(before);
                lemma_no_heap(before, before, *thread, layout, AllocStep::MapHeap);
                lemma_left_by_bump(before, before, *thread, layout, options, spare, AllocStep::MapHeap, false);
                }
                (AllocStep::MapHeap, false, 0)
            },
        }
    }
}

/// What was fresh stays so where no domain gets a region.
proof fn lemma_spare_kept(before: Space, after: Space, base: usize)
    requires
        fresh_region(before.domains@, before.mapped@, base),
        bases_kept(before.domains@, after.domains@),
        after.mapped == before.mapped,
    ensures
        fresh_region(after.domains@, after.mapped@, base),
{
    assert forall|at: int, index: int|
        #![trigger after.domains@[at].regions@[index]]
        0 <= at < after.domains@.len() && 0 <= index < after.domains@[at].regions@.len() implies apart(
        after.domains@[at].regions@[index].base as int,
        base as int,
    ) by {
        assert(same_regions(before.domains@[at], after.domains@[at]));
        assert(before.domains@[at].regions@[index].base == after.domains@[at].regions@[index].base);
    }
}

/// A block that the bump heap serves finds its place in a chunk that was just supplied.
proof fn lemma_supplied(before: Space, after: Space, bump: int, chunk: usize, layout: Layout, logged: bool)
    requires
        before.whole(),
        after.inv(),
        layout.wf(),
        bump_ready(before, bump, layout, logged),
        bump_serves(before.bumps@[bump], layout, logged),
        slice_pending(before, before.bumps@[bump].domain, chunk),
        0 <= bump < after.bumps@.len(),
        after.bumps@[bump].wf(),
        after.bumps@[bump].supplied(&before.bumps@[bump], chunk),
    ensures
        ({
            let now = after.bumps@[bump];
            let header = header_bytes(logged);
            let alignment = placed_alignment(layout, logged);
            &&& !now.spent(header, alignment, layout.spec_bytes())
            &&& bump_serves(now, layout, logged)
            &&& now.cursor + header + alignment - 1 <= usize::MAX
            &&& fits_empty(header, alignment, layout.spec_bytes()) ==> BumpState::target(now.cursor as int, header, alignment)
                + layout.spec_bytes() <= now.end
        }),
{
    lemma_held_bounds(before, chunk);
    let header = header_bytes(logged);
    let alignment = placed_alignment(layout, logged);
    vstd::arithmetic::power2::lemma2_to64();
    assert(crate::allocator::layout::is_power_of_two(alignment)) by {
        if logged && layout.align < 8 {
            assert(alignment == pow2(3));
        }
    }
    assert(chunk as int % (BUMP_SEGMENT_SIZE as int) == 0) by (nonlinear_arith)
        requires
            chunk as int % 65536 == 0,
            BUMP_SEGMENT_SIZE == 32768,
    ;
    if fits_empty(header, alignment, layout.spec_bytes()) {
        lemma_fits_fresh(chunk as int, header, alignment, layout.spec_bytes());
    }
}

/// No other bump heap has the name of this one.
proof fn lemma_only_bump(space: Space, bump: int)
    requires
        space.inv(),
        0 <= bump < space.bumps@.len(),
    ensures
        forall|other: int| #[trigger] space.is_bump(other, space.bumps@[bump].address) ==> other == bump,
{
    assert forall|other: int| #[trigger] space.is_bump(other, space.bumps@[bump].address) implies other == bump by {
        lemma_one_bump(space, other, bump);
    }
}

/// A name is one bump heap's.
proof fn lemma_one_bump(space: Space, left: int, right: int)
    requires
        space.inv(),
        0 <= left < space.bumps@.len(),
        0 <= right < space.bumps@.len(),
        space.bumps@[left].address == space.bumps@[right].address,
    ensures
        left == right,
{
    if left < right {
        assert(space.bumps@[left].address != space.bumps@[right].address);
    } else if right < left {
        assert(space.bumps@[right].address != space.bumps@[left].address);
    }
}

/// What a thread knows, it knows after a step too.
pub proof fn lemma_known_kept(before: Space, after: Space, thread: ThreadState)
    requires
        thread.known(before),
        names_kept(before, after),
    ensures
        thread.known(after),
{
    if thread.default_heap != 0 {
        let at = choose|at: int| #[trigger] before.is_heap(at, thread.default_heap);
        assert(after.heaps@[at].address == before.heaps@[at].address);
        assert(after.is_heap(at, thread.default_heap));
    }
    if thread.active_heap != 0 {
        let at = choose|at: int| #[trigger] before.is_heap(at, thread.active_heap);
        assert(after.heaps@[at].address == before.heaps@[at].address);
        assert(after.is_heap(at, thread.active_heap));
    }
    if thread.remote_heap != 0 {
        let at = choose|at: int| #[trigger] before.is_remote(at, thread.remote_heap);
        assert(after.remotes@[at].address == before.remotes@[at].address);
        assert(after.is_remote(at, thread.remote_heap));
    }
    if thread.active_remote != 0 {
        let at = choose|at: int| #[trigger] before.is_remote(at, thread.active_remote);
        assert(after.remotes@[at].address == before.remotes@[at].address);
        assert(after.is_remote(at, thread.active_remote));
    }
    if thread.active_bump != 0 {
        let at = choose|at: int| #[trigger] before.is_bump(at, thread.active_bump);
        assert(after.bumps@[at].address == before.bumps@[at].address);
        assert(after.is_bump(at, thread.active_bump));
    }
    assert forall|index: int| 0 <= index < thread.bump_pool@.len() implies after.has_bump(#[trigger] thread.bump_pool@[index]) by {
        assert(before.has_bump(thread.bump_pool@[index]));
        let at = choose|at: int| #[trigger] before.is_bump(at, thread.bump_pool@[index]);
        assert(after.bumps@[at].address == before.bumps@[at].address);
        assert(after.is_bump(at, thread.bump_pool@[index]));
    }
}

/// The size of the blocks that a mapping could be mistaken for is that of a class.
proof fn lemma_mistaken(sizes: Seq<usize>, layout: Layout, recorded: bool)
    requires
        crate::tunables::valid_sizes(sizes),
        layout.wf(),
    ensures
        mistaken_size(sizes, layout, recorded) matches Some(size) ==> size > 0,
{
    if small_class(sizes, layout) is Some {
        law_small_blocks_hold_their_layout(sizes, layout, 0, 0);
    }
}

} // verus!
