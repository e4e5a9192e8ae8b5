//! The scopes of a thread over time, and what they claim.

use vstd::prelude::*;

use crate::hints::{ContextSnapshot, Hint, HintState};
use crate::hints::backend::ClaimPolicy;
use crate::hints::heap::Access;

verus! {

/// What happens to a thread's hints.
pub ghost enum ScopeEvent {
    /// The thread enters a scope.
    Enter { hint: Hint, backend_context: usize },
    /// The thread leaves the scope that it entered last.
    Leave,
    /// Heaps are made, claimed or given up without this thread's scopes.
    Elsewhere,
}

/// A scope that a thread has entered and not left.
pub ghost struct OpenScope {
    pub hint: Hint,
    pub snapshot: ContextSnapshot,
}

/// The scopes that are open after the first `count` events, outermost first. `states` holds what
/// each event found, and what the last one left.
pub open spec fn open_scopes(states: Seq<HintState>, events: Seq<ScopeEvent>, count: int) -> Seq<OpenScope>
    decreases count,
{
    if count <= 0 {
        Seq::empty()
    } else {
        let earlier = open_scopes(states, events, count - 1);
        let state = states[count - 1];
        match events[count - 1] {
            ScopeEvent::Enter { hint, backend_context } => earlier.push(
                OpenScope {
                    hint,
                    snapshot: ContextSnapshot { previous: state.context.active, claimed: state.must_claim(hint) },
                },
            ),
            ScopeEvent::Leave => earlier.drop_last(),
            ScopeEvent::Elsewhere => earlier,
        }
    }
}

/// Whether the event leads from one state to the other, where the scopes are open.
pub open spec fn happened(before: HintState, after: HintState, event: ScopeEvent, scopes: Seq<OpenScope>) -> bool {
    &&& before.wf()
    &&& after.wf()
    &&& forall|identity: usize|
        #[trigger] before.controls.has(identity) ==> after.controls.has(identity) && after.controls.of(identity).claim_policy
            == before.controls.of(identity).claim_policy
    &&& match event {
        ScopeEvent::Enter { hint, backend_context } => {
            &&& before.can_enter(hint)
            &&& after.context@ == before.entered(hint, backend_context)
            &&& after.controls.controls@ == before.entered_controls(hint)
        },
        ScopeEvent::Leave => {
            &&& scopes.len() > 0
            &&& after.context@ == before.context@.left(scopes.last().snapshot)
            &&& after.controls.controls@ == before.left_controls(scopes.last().hint, scopes.last().snapshot)
        },
        ScopeEvent::Elsewhere => after.context@ == before.context@,
    }
}

/// Whether the states are what the events of one thread lead through, from one without scopes on.
pub open spec fn history(states: Seq<HintState>, events: Seq<ScopeEvent>) -> bool {
    &&& states.len() == events.len() + 1
    &&& states[0].wf()
    &&& states[0].context.claimed@.len() == 0
    &&& forall|at: int|
        #![trigger events[at]]
        0 <= at < events.len() ==> happened(states[at], states[at + 1], events[at], open_scopes(states, events, at))
}

/// Whether one of the open scopes asks for the heap.
pub open spec fn within(scopes: Seq<OpenScope>, identity: usize) -> bool {
    exists|at: int| 0 <= at < scopes.len() && (#[trigger] scopes[at]).hint.heap == Some(identity)
}

/// The heaps that the scopes have claimed, outermost first.
spec fn claims_of(scopes: Seq<OpenScope>) -> Seq<usize>
    decreases scopes.len(),
{
    if scopes.len() == 0 {
        Seq::empty()
    } else if scopes.last().snapshot.claimed {
        claims_of(scopes.drop_last()).push(scopes.last().hint.heap->0)
    } else {
        claims_of(scopes.drop_last())
    }
}

/// Whether the scope has claimed the heap.
spec fn claims(scope: OpenScope, identity: usize) -> bool {
    scope.snapshot.claimed && scope.hint.heap == Some(identity)
}

/// Whether every open scope of a heap that can be claimed has claimed it, or one around it has.
spec fn claimed_inside(scopes: Seq<OpenScope>, state: HintState) -> bool {
    forall|at: int|
        #![trigger scopes[at]]
        0 <= at < scopes.len() ==> {
            let scope = scopes[at];
            &&& scope.snapshot.claimed ==> scope.hint.heap is Some
            &&& scope.hint.heap matches Some(identity) ==> state.controls.has(identity) && (state.controls.of(identity).claim_policy
                == ClaimPolicy::Exclusive ==> claims_of(scopes.take(at + 1)).contains(identity))
        }
}

/// A claim of some of the scopes is one of a scope among them, and the other way round.
proof fn lemma_claims(scopes: Seq<OpenScope>, identity: usize)
    requires
        forall|at: int|
            #![trigger scopes[at]]
            0 <= at < scopes.len() && scopes[at].snapshot.claimed ==> scopes[at].hint.heap is Some,
    ensures
        claims_of(scopes).contains(identity) <==> exists|at: int| 0 <= at < scopes.len() && claims(#[trigger] scopes[at], identity),
    decreases scopes.len(),
{
    if scopes.len() > 0 {
        let outer = scopes.drop_last();
        let last = scopes.len() - 1;
        lemma_claims(outer, identity);
        let before = claims_of(outer);
        let now = claims_of(scopes);
        assert(scopes[last] == scopes.last());
        if before.contains(identity) {
            let at = choose|at: int| 0 <= at < outer.len() && claims(#[trigger] outer[at], identity);
            assert(claims(scopes[at], identity));
            let place = choose|place: int| 0 <= place < before.len() && before[place] == identity;
            assert(now[place] == identity);
        }
        if claims(scopes[last], identity) {
            assert(now[now.len() - 1] == identity);
        }
        if now.contains(identity) && !before.contains(identity) {
            let place = choose|place: int| 0 <= place < now.len() && now[place] == identity;
            if place < before.len() {
                assert(before[place] == identity);
            }
            assert(claims(scopes[last], identity));
        }
        if exists|at: int| 0 <= at < scopes.len() && claims(#[trigger] scopes[at], identity) {
            let at = choose|at: int| 0 <= at < scopes.len() && claims(#[trigger] scopes[at], identity);
            if at < last {
                assert(claims(outer[at], identity));
            }
        }
    }
}

/// What the open scopes have claimed is what the thread holds the claims of.
proof fn lemma_claims_held(states: Seq<HintState>, events: Seq<ScopeEvent>, count: int)
    requires
        history(states, events),
        0 <= count <= events.len(),
    ensures
        states[count].context.claimed@ == claims_of(open_scopes(states, events, count)),
        claimed_inside(open_scopes(states, events, count), states[count]),
        states[count].wf(),
    decreases count,
{
    if count > 0 {
        let at = count - 1;
        lemma_claims_held(states, events, at);
        let before = states[at];
        let after = states[count];
        let outer = open_scopes(states, events, at);
        let scopes = open_scopes(states, events, count);
        assert(happened(before, after, events[at], outer));
        match events[at] {
            ScopeEvent::Enter { hint, backend_context } => {
                assert(scopes.drop_last() =~= outer);
                assert(after.context@.claimed == claims_of(scopes));
                assert forall|place: int|
                    #![trigger scopes[place]]
                    0 <= place < scopes.len() implies ({
                    let scope = scopes[place];
                    &&& scope.snapshot.claimed ==> scope.hint.heap is Some
                    &&& scope.hint.heap matches Some(identity) ==> after.controls.has(identity) && (after.controls.of(
                        identity,
                    ).claim_policy == ClaimPolicy::Exclusive ==> claims_of(scopes.take(place + 1)).contains(identity))
                }) by {
                    if place < outer.len() {
                        assert(scopes[place] == outer[place]);
                        assert(scopes.take(place + 1) =~= outer.take(place + 1));
                    } else {
                        assert(scopes.take(place + 1) =~= scopes);
                        if let Some(identity) = hint.heap {
                            assert(before.controls.has(identity));
                            if before.must_claim(hint) {
                                let claimed = claims_of(scopes);
                                assert(claimed[claimed.len() - 1] == identity);
                            }
                        }
                    }
                }
            },
            ScopeEvent::Leave => {
                assert(outer[outer.len() - 1] == outer.last());
                assert(after.context@.claimed =~= claims_of(scopes));
                assert forall|place: int|
                    #![trigger scopes[place]]
                    0 <= place < scopes.len() implies ({
                    let scope = scopes[place];
                    &&& scope.snapshot.claimed ==> scope.hint.heap is Some
                    &&& scope.hint.heap matches Some(identity) ==> after.controls.has(identity) && (after.controls.of(
                        identity,
                    ).claim_policy == ClaimPolicy::Exclusive ==> claims_of(scopes.take(place + 1)).contains(identity))
                }) by {
                    assert(scopes[place] == outer[place]);
                    assert(scopes.take(place + 1) =~= outer.take(place + 1));
                }
            },
            ScopeEvent::Elsewhere => {
                assert(after.context@.claimed == before.context@.claimed);
            },
        }
    }
}

/// At any time, a heap that one thread at a time may use is active on a thread exactly where a scope
/// of the thread that asks for it is open, also where a scope inside that one asks for another heap.
/// An inspection tells so: before the scope, after it, and on a thread without such a scope, the
/// heap is not active.
pub proof fn law_heaps_are_active_within_their_scopes(
    states: Seq<HintState>,
    events: Seq<ScopeEvent>,
    count: int,
    identity: usize,
)
    requires
        history(states, events),
        0 <= count <= events.len(),
        states[count].controls.has(identity),
        states[count].controls.of(identity).claim_policy == ClaimPolicy::Exclusive,
    ensures
        states[count].context.claimed@.contains(identity) <==> within(open_scopes(states, events, count), identity),
        states[count].access_of(identity) == Access::Granted(true) <==> within(open_scopes(states, events, count), identity),
{
    let scopes = open_scopes(states, events, count);
    lemma_claims_held(states, events, count);
    lemma_claims(scopes, identity);
    if within(scopes, identity) {
        let at = choose|at: int| 0 <= at < scopes.len() && (#[trigger] scopes[at]).hint.heap == Some(identity);
        let inner = scopes.take(at + 1);
        assert forall|place: int|
            #![trigger inner[place]]
            0 <= place < inner.len() && inner[place].snapshot.claimed implies inner[place].hint.heap is Some by {
            assert(inner[place] == scopes[place]);
        }
        lemma_claims(inner, identity);
        let place = choose|place: int| 0 <= place < inner.len() && claims(#[trigger] inner[place], identity);
        assert(claims(scopes[place], identity));
    }
}

} // verus!
