//! Where bump heaps start that are made anew or out of a pool, the domains that they keep to, and
//! what is shown of them.

use vstd::prelude::*;

use crate::allocator::allocation::{bump_placed, header_bytes, placed_alignment};
use crate::allocator::bump::{
    kept_chunks, lemma_fits_fresh, BumpState, Placement, BUMP_CHUNK_SIZE, BUMP_HEADER_SIZE, BUMP_ROOT_SIZE,
};
use crate::allocator::layout::{aligned, is_power_of_two, Layout};
use crate::allocator::rallocator::{
    bump_begun, bump_released, domain_of, hint_to, law_hints_name_their_heap,
    law_released_bump_heaps_are_used_again, options_ok, same_process, target_of, waits, CreateStep, DestroyStep,
    HeapTarget, Rallocator,
};
use crate::allocator::space::bump_ok;
use crate::allocator::threads::ThreadState;
use crate::hints::HintState;
use crate::hints::backend::{ClaimPolicy, RawHint};
use crate::hints::bump::{self, BUMP_SEGMENT_SIZE};
use crate::hints::heap::{Access, CreationPolicy, Info, Kind, Options};
use crate::hints::scopes::{history, law_heaps_are_active_within_their_scopes, open_scopes, within, ScopeEvent};

verus! {

/// Whether the heap stands at the start of its first chunk.
pub open spec fn starts(state: BumpState) -> bool {
    &&& state.current == 0
    &&& state.cursor == state.chunks@[0] + BUMP_ROOT_SIZE
    &&& state.end == state.chunks@[0] + BUMP_SEGMENT_SIZE
}

/// A heap that is made anew starts in its chunk.
proof fn lemma_new_starts(state: BumpState, chunk: usize, options: bump::Options, domain: usize, fallback_heap: usize)
    requires
        state.new_in(chunk, options, domain, fallback_heap),
    ensures
        starts(state),
        state.chunks@[0] == chunk,
{
}

/// A heap that is used again starts in the first chunk that it had.
proof fn lemma_renewed_starts(before: BumpState, state: BumpState, options: bump::Options)
    requires
        before.pooled(),
        options.valid(),
        state.renewed(&before, options),
    ensures
        starts(state),
        state.chunks@[0] == before.chunks@[0],
{
    let target = before.renewal_target(options);
    assert(target >= 1);
    assert(kept_chunks(before.chunks@, target)[0] == before.chunks@[0]);
}

/// The first block of a heap lies in the first chunk.
proof fn lemma_first_block(state: BumpState, after: BumpState, layout: Layout, logged: bool, address: usize)
    requires
        layout.wf(),
        starts(state),
        state.chunks@.len() > 0,
        state.chunks@[0] as int % (BUMP_CHUNK_SIZE as int) == 0,
        bump_placed(state, after, layout, logged, Placement::Served { address }),
    ensures
        state.chunks@[0] <= address < state.chunks@[0] + BUMP_CHUNK_SIZE,
{
    reveal(bump_placed);
    let chunk = state.chunks@[0] as int;
    let header = header_bytes(logged);
    let alignment = placed_alignment(layout, logged);
    let bytes = layout.spec_bytes();
    assert(is_power_of_two(alignment)) by {
        vstd::arithmetic::power2::lemma2_to64();
        assert(vstd::arithmetic::power2::pow2(3) == 8);
    }
    assert(alignment > 0) by {
        let exponent = choose|exponent: nat| alignment == #[trigger] vstd::arithmetic::power2::pow2(exponent);
        vstd::arithmetic::power2::lemma_pow2_pos(exponent);
    }
    let from = state.cursor + header;
    let spread = BUMP_HEADER_SIZE + header;
    assert(aligned(from, alignment) >= from && aligned(spread, alignment) >= alignment) by (nonlinear_arith)
        requires
            alignment > 0,
            spread > 0,
            aligned(from, alignment) == (from + alignment - 1) / alignment * alignment,
            aligned(spread, alignment) == (spread + alignment - 1) / alignment * alignment,
    ;
    assert(chunk == 65536 * (chunk / 65536));
    assert((chunk + BUMP_SEGMENT_SIZE) % (BUMP_SEGMENT_SIZE as int) == 0);
    lemma_fits_fresh(chunk + BUMP_SEGMENT_SIZE, header, alignment, bytes);
}

/// A bump heap that is made anew is none that waits in a pool: it leaves the pools as they are, and
/// its first block lies elsewhere than the first block of any heap that waits.
pub proof fn law_fresh_bump_heaps_start_elsewhere(
    before: Rallocator,
    thread: ThreadState,
    after: Rallocator,
    thread_after: ThreadState,
    options: bump::Options,
    domain: usize,
    spare: Option<usize>,
    outcome: (CreateStep, bool),
    fresh: BumpState,
    fallback_heap: usize,
    fresh_after: BumpState,
    layout: Layout,
    logged: bool,
    address: usize,
    waiting: int,
    reused: BumpState,
    reused_options: bump::Options,
    reused_fallback: usize,
    reused_after: BumpState,
    reused_layout: Layout,
    reused_logged: bool,
    reused_address: usize,
)
    requires
        before.wf(),
        after.wf(),
        bump_begun(before, thread, after, thread_after, options, CreationPolicy::Fresh, domain, spare, outcome),
        outcome.0 is Chunk,
        fresh.new_in(outcome.0->Chunk_chunk, options, domain, fallback_heap),
        layout.wf(),
        bump_placed(fresh, fresh_after, layout, logged, Placement::Served { address }),
        0 <= waiting < before.space.bumps@.len(),
        before.space.bumps@[waiting].pooled(),
        reused_options.valid(),
        reused.renewed(&(BumpState { fallback_heap: reused_fallback, ..before.space.bumps@[waiting] }), reused_options),
        reused_layout.wf(),
        bump_placed(reused, reused_after, reused_layout, reused_logged, Placement::Served { address: reused_address }),
    ensures
        after.bump_pool@ == before.bump_pool@,
        thread_after.bump_pool@ == thread.bump_pool@,
        address != reused_address,
{
    let chunk = outcome.0->Chunk_chunk;
    let own = before.space.bumps@[waiting];
    let ready = BumpState { fallback_heap: reused_fallback, ..own };
    assert(bump_ok(own) && before.space.chunks_held(waiting));
    let root = own.chunks@[0];
    assert(before.space.holdings@.dom().contains(root));
    assert(chunk != root);
    lemma_new_starts(fresh, chunk, options, domain, fallback_heap);
    lemma_renewed_starts(ready, reused, reused_options);
    assert(chunk as int % (BUMP_CHUNK_SIZE as int) == 0) by {
        assert(after.space.holdings@.dom().contains(chunk));
        assert(crate::allocator::space::held_ok(after.space.domains@, chunk, after.space.holdings@[chunk]));
        crate::allocator::refills::lemma_held_bounds(after.space, chunk);
    }
    lemma_first_block(fresh, fresh_after, layout, logged, address);
    lemma_first_block(reused, reused_after, reused_layout, reused_logged, reused_address);
    let left = chunk as int;
    let right = root as int;
    assert(left == 65536 * (left / 65536) && right == 65536 * (right / 65536));
    assert(left + 65536 <= right || right + 65536 <= left);
}

/// A bump heap whose last handle goes while no block of it is in use, and that is then made again out
/// of the pools of its domain where no other heap waits, serves its first block at the address at
/// which it served its first block before.
pub proof fn law_reused_bump_heaps_start_where_they_did(
    first: BumpState,
    first_after: BumpState,
    address: usize,
    before: Rallocator,
    thread: ThreadState,
    released: Rallocator,
    thread_then: ThreadState,
    at: int,
    step: DestroyStep,
    after: Rallocator,
    thread_after: ThreadState,
    options: bump::Options,
    spare: Option<usize>,
    outcome: (CreateStep, bool),
    fallback_heap: usize,
    again: BumpState,
    again_after: BumpState,
    layout: Layout,
    logged: bool,
    placement: Placement,
)
    requires
        bump_ok(first),
        starts(first),
        first.chunks_ok(),
        bump_placed(first, first_after, layout, logged, Placement::Served { address }),
        before.wf(),
        released.wf(),
        0 <= at < before.space.bumps@.len(),
        before.space.bumps@[at].wf(),
        before.space.bumps@[at].address == first.address,
        !before.space.bumps@[at].handle_released,
        bump_released(before, thread, released, thread_then, at, step),
        step is Pooled,
        !waits(before.space, thread.bump_pool@, before.space.bumps@[at].domain),
        !waits(before.space, before.bump_pool@, before.space.bumps@[at].domain),
        options.valid(),
        bump_begun(
            released,
            thread_then,
            after,
            thread_after,
            options,
            CreationPolicy::ThreadPool,
            before.space.bumps@[at].domain,
            spare,
            outcome,
        ),
        again.renewed(&(BumpState { fallback_heap, ..after.space.bumps@[at] }), options),
        bump_placed(again, again_after, layout, logged, placement),
    ensures
        outcome.0 == (CreateStep::Pooled { options, bump: at as usize }),
        again.address == first.address,
        placement == (Placement::Served { address }),
{
    law_released_bump_heaps_are_used_again(
        before,
        thread,
        released,
        thread_then,
        at,
        step,
        after,
        thread_after,
        options,
        CreationPolicy::ThreadPool,
        before.space.bumps@[at].domain,
        spare,
        outcome,
    );
    let own = after.space.bumps@[at];
    assert(after.space == released.space);
    assert(bump_ok(own));
    lemma_renewed_starts(BumpState { fallback_heap, ..own }, again, options);
    assert(again.chunks@[0] == first.chunks@[0]);
    reveal(bump_placed);
}

/// A bump heap belongs to the domain that it was asked for in, whether it is made anew or out of a
/// pool, and so is it shown.
pub proof fn law_bump_heaps_keep_to_their_domain(
    before: Rallocator,
    thread: ThreadState,
    after: Rallocator,
    thread_after: ThreadState,
    options: Options,
    bump_options: bump::Options,
    spare: Option<usize>,
    outcome: (CreateStep, bool),
    fallback_heap: usize,
    then: Rallocator,
    made: int,
    user: ThreadState,
    claimed_active: bool,
    info: Info,
)
    requires
        options_ok(before, options),
        options.kind == Kind::Bump(bump_options),
        bump_begun(
            before,
            thread,
            after,
            thread_after,
            bump_options,
            options.creation_policy,
            domain_of(before, options),
            spare,
            outcome,
        ),
        then.wf(),
        same_process(before, then),
        0 <= made < then.space.bumps@.len(),
        match outcome.0 {
            CreateStep::Pooled { options: o, bump } => then.space.bumps@[made].renewed(
                &(BumpState { fallback_heap, ..after.space.bumps@[bump as int] }),
                bump_options,
            ),
            CreateStep::Chunk { options: o, domain, chunk } => then.space.bumps@[made].new_in(chunk, bump_options, domain, fallback_heap),
            _ => false,
        },
        then.shows(user, hint_to(HeapTarget::Bump { bump: then.space.bumps@[made].address }), claimed_active, info),
    ensures
        then.space.bumps@[made].domain == domain_of(before, options),
        info.domain == before.domain_handle(domain_of(before, options)),
        options.domain matches Some(domain) ==> info.domain == domain,
{
    let own = then.space.bumps@[made];
    assert(bump_ok(own));
    assert(then.space.is_bump(made, own.address));
    law_hints_name_their_heap(HeapTarget::Bump { bump: own.address });
}

/// What is shown of a heap that one thread at a time may use says that the heap is active exactly where
/// a scope of the calling thread that asks for it is open.
pub proof fn law_heaps_are_shown_active_within_their_scopes(
    states: Seq<HintState>,
    events: Seq<ScopeEvent>,
    count: int,
    identity: usize,
    rallocator: Rallocator,
    thread: ThreadState,
    hint: RawHint,
    info: Info,
)
    requires
        history(states, events),
        0 <= count <= events.len(),
        states[count].controls.has(identity),
        states[count].controls.of(identity).claim_policy == ClaimPolicy::Exclusive,
        states[count].controls.of(identity).hint == hint,
        rallocator.hint_known(hint),
        target_of(hint) is Some && !(target_of(hint)->0 is Thread),
        rallocator.shows(thread, hint, states[count].access_of(identity) == Access::Granted(true), info),
    ensures
        info.active <==> within(open_scopes(states, events, count), identity),
{
    law_heaps_are_active_within_their_scopes(states, events, count, identity);
    match target_of(hint)->0 {
        HeapTarget::General { heap } => {
            let at = choose|at: int| #[trigger] rallocator.space.is_heap(at, heap);
            assert(rallocator.space.is_heap(at, heap));
        },
        HeapTarget::Bump { bump } => {
            let at = choose|at: int| #[trigger] rallocator.space.is_bump(at, bump);
            assert(rallocator.space.is_bump(at, bump));
        },
        HeapTarget::Thread { remote } => {},
    }
}

} // verus!
