//! Hints: which heap a thread's allocations should come from.

pub mod backend;
pub mod bump;
pub mod domain;
pub mod general;
pub mod heap;
pub mod scopes;

use vstd::prelude::*;

use crate::hints::backend::{global_hint, Backend, ClaimPolicy, RawHint};
use crate::hints::heap::{access, Access, Controls, Heap, HeapControl};

verus! {

pub const MAX_CLAIMED_HEAPS: usize = 16;

/// Why an operation on a hint or a heap failed.
#[derive(Clone, Copy, Debug, PartialEq, Eq, Structural)]
pub enum Error {
    UsageUnavailable,
}

impl Error {
    pub fn message(&self) -> (message: &'static str)
        ensures
            message@ == "thread-heap usage must be queried from its owner thread"@,
    {
        match self {
            Error::UsageUnavailable => "thread-heap usage must be queried from its owner thread",
        }
    }
}

/// The heap that a scope asks for, or the process-wide target.
#[derive(Clone, Copy, Debug, PartialEq, Eq, Structural)]
pub struct Hint {
    pub heap: Option<usize>,
}

pub open spec fn no_hint() -> Hint {
    Hint { heap: None }
}

impl Hint {
    pub fn new() -> (hint: Hint)
        ensures
            hint == no_hint(),
    {
        Hint { heap: None }
    }

    pub fn global() -> (hint: Hint)
        ensures
            hint == no_hint(),
    {
        Hint::new()
    }

    /// The hint holds the heap: it counts as a handle. Where the hint held another heap, that handle is
    /// dropped. Also gives the target that the allocator must destroy, where it was the last.
    pub fn with_heap(self, heap: &Heap, controls: &mut Controls) -> (outcome: (Hint, Option<RawHint>))
        requires
            self.held(old(controls)),
            old(controls).has(heap.identity),
            old(controls).wf(),
            0 < old(controls).of(heap.identity).handles < usize::MAX,
        ensures
            outcome.0 == (Hint { heap: Some(heap.identity) }),
            outcome.0.held(final(controls)),
            final(controls).wf(),
            ({
                let shared = Controls::handled(old(controls).controls@, heap.identity, 1);
                match self.heap {
                    None => outcome.1 is None && final(controls).controls@ == shared,
                    Some(replaced) => {
                        &&& final(controls).controls@ == Controls::handled(shared, replaced, -1)
                        &&& outcome.1 == (if shared[replaced - 1].handles == 1 {
                            Some(shared[replaced - 1].hint)
                        } else {
                            None::<RawHint>
                        })
                    },
                }
            }),
    {
        controls.share(heap.identity);
        let destroyed: Option<RawHint> = match self.heap {
            None => None,
            Some(replaced) => controls.unshare(replaced),
        };
        (Hint { heap: Some(heap.identity) }, destroyed)
    }

    /// The hint that holds the heap.
    pub fn from_heap(heap: &Heap, controls: &mut Controls) -> (hint: Hint)
        requires
            old(controls).has(heap.identity),
            old(controls).wf(),
            0 < old(controls).of(heap.identity).handles < usize::MAX,
        ensures
            hint == (Hint { heap: Some(heap.identity) }),
            hint.held(final(controls)),
            final(controls).wf(),
            final(controls).controls@ == Controls::handled(old(controls).controls@, heap.identity, 1),
    {
        Hint::new().with_heap(heap, controls).0
    }

    /// Whether the heap that the hint holds is there.
    pub open spec fn held(self, controls: &Controls) -> bool {
        self.heap matches Some(identity) ==> controls.has(identity) && controls.of(identity).handles > 0
    }

    pub open spec fn known(self, controls: &Controls) -> bool {
        self.heap matches Some(identity) ==> controls.has(identity)
    }

    pub open spec fn target(self, controls: &Controls) -> RawHint {
        match self.heap {
            Some(identity) => controls.of(identity).hint,
            None => global_hint(),
        }
    }

    pub fn raw_hint(&self, controls: &Controls) -> (hint: RawHint)
        requires
            self.known(controls),
        ensures
            hint == self.target(controls),
    {
        match self.heap {
            Some(identity) => controls.controls[identity - 1].hint,
            None => RawHint::global(),
        }
    }
}

impl Default for Hint {
    fn default() -> (hint: Hint)
        ensures
            hint == no_hint(),
    {
        Hint::new()
    }
}

/// What a thread knows of its hints.
pub struct ThreadContext {
    /// The target of the innermost scope.
    pub active: RawHint,
    /// The allocator that the thread's scopes are told to, once there was a scope with a heap.
    pub backend: Option<Backend>,
    pub backend_context: usize,
    /// The target that the allocator was told last, where it was told one.
    pub activated: Option<RawHint>,
    /// The heaps that the thread's scopes claimed, outermost first.
    pub claimed: Vec<usize>,
}

#[verifier::ext_equal]
pub struct ContextModel {
    pub active: RawHint,
    pub backend: Option<Backend>,
    pub backend_context: usize,
    pub activated: Option<RawHint>,
    pub claimed: Seq<usize>,
}

impl View for ThreadContext {
    type V = ContextModel;

    open spec fn view(&self) -> ContextModel {
        ContextModel {
            active: self.active,
            backend: self.backend,
            backend_context: self.backend_context,
            activated: self.activated,
            claimed: self.claimed@,
        }
    }
}

/// What leaving a scope needs to know of entering it.
#[derive(Clone, Copy, Debug, PartialEq, Eq, Structural)]
pub struct ContextSnapshot {
    pub previous: RawHint,
    pub claimed: bool,
}

/// The heaps of the process and one thread's hints.
pub struct HintState {
    pub controls: Controls,
    pub context: ThreadContext,
}

impl HintState {
    /// Whether entering the scope takes the heap's claim.
    pub open spec fn must_claim(&self, hint: Hint) -> bool {
        hint.heap matches Some(identity) && self.controls.of(identity).claim_policy == ClaimPolicy::Exclusive
            && !self.context.claimed@.contains(identity)
    }

    /// Whether the scope can be entered: its heap is known, and free to be claimed where it must
    /// be.
    pub open spec fn can_enter(&self, hint: Hint) -> bool {
        &&& hint.known(&self.controls)
        &&& self.must_claim(hint) ==> self.context.claimed@.len() < MAX_CLAIMED_HEAPS && !self.controls.of(hint.heap->0).active
    }

    /// How the heap is inspected from the thread.
    pub open spec fn access_of(&self, identity: usize) -> Access {
        access(self.controls.of(identity), self.context.claimed@.contains(identity))
    }

    pub open spec fn wf(&self) -> bool {
        &&& self.controls.wf()
        &&& forall|position: int|
            0 <= position < self.context.claimed@.len() ==> self.controls.has(#[trigger] self.context.claimed@[position])
                && self.controls.of(self.context.claimed@[position]).active
        &&& forall|left: int, right: int|
            #![trigger self.context.claimed@[left], self.context.claimed@[right]]
            0 <= left < right < self.context.claimed@.len() ==> self.context.claimed@[left] != self.context.claimed@[right]
    }

    /// The thread's hints within the scope.
    pub open spec fn entered(&self, hint: Hint, backend_context: usize) -> ContextModel {
        let backend = if hint.heap is Some && self.context.backend is None {
            Some(self.controls.of(hint.heap->0).backend)
        } else {
            self.context.backend
        };
        ContextModel {
            active: hint.target(&self.controls),
            backend,
            backend_context: if hint.heap is Some && self.context.backend is None {
                backend_context
            } else {
                self.context.backend_context
            },
            activated: if backend is Some {
                Some(hint.target(&self.controls))
            } else {
                self.context.activated
            },
            claimed: if self.must_claim(hint) {
                self.context.claimed@.push(hint.heap->0)
            } else {
                self.context.claimed@
            },
        }
    }

    /// The heaps' claims within the scope.
    pub open spec fn entered_controls(&self, hint: Hint) -> Seq<HeapControl> {
        if self.must_claim(hint) {
            let index = hint.heap->0 - 1;
            self.controls.controls@.update(index, HeapControl { active: true, ..self.controls.controls@[index] })
        } else {
            self.controls.controls@
        }
    }
}

impl ThreadContext {
    pub fn new() -> (context: ThreadContext)
        ensures
            context.active == global_hint(),
            context.backend is None,
            context.backend_context == 0,
            context.activated is None,
            context.claimed@.len() == 0,
    {
        ThreadContext {
            active: RawHint::global(),
            backend: None,
            backend_context: 0,
            activated: None,
            claimed: Vec::new(),
        }
    }

    pub fn is_claimed(&self, identity: usize) -> (claimed: bool)
        ensures
            claimed == self.claimed@.contains(identity),
    {
        let mut position: usize = 0;
        while position < self.claimed.len()
            invariant
                position <= self.claimed@.len(),
                forall|at: int| 0 <= at < position ==> self.claimed@[at] != identity,
            decreases self.claimed@.len() - position,
        {
            if self.claimed[position] == identity {
                assert(self.claimed@[position as int] == identity);
                return true;
            }
            position = position + 1;
        }
        false
    }
}

impl HintState {
    pub fn new() -> (state: HintState)
        ensures
            state.wf(),
            state.controls.controls@.len() == 0,
            state.context.active == global_hint(),
            state.context.backend is None,
            state.context.claimed@.len() == 0,
    {
        HintState { controls: Controls::new(), context: ThreadContext::new() }
    }

    /// Whether the scope can be entered.
    pub fn accepts(&self, hint: Hint) -> (accepted: bool)
        ensures
            accepted == self.can_enter(hint),
    {
        match hint.heap {
            None => true,
            Some(identity) => {
                if identity == 0 || identity > self.controls.controls.len() {
                    return false;
                }
                let control = self.controls.controls[identity - 1];
                match control.claim_policy {
                    ClaimPolicy::Shared => true,
                    ClaimPolicy::Exclusive => self.context.is_claimed(identity) || (self.context.claimed.len()
                        < MAX_CLAIMED_HEAPS && !control.active),
                }
            },
        }
    }

    /// Enters a scope. `backend_context` is the thread's context in the allocator, which counts
    /// where the thread has none yet.
    pub fn enter(&mut self, hint: Hint, backend_context: usize) -> (snapshot: ContextSnapshot)
        requires
            old(self).wf(),
            old(self).can_enter(hint),
            backend_context != 0,
        ensures
            final(self).wf(),
            snapshot == (ContextSnapshot { previous: old(self).context.active, claimed: old(self).must_claim(hint) }),
            final(self).context@ == old(self).entered(hint, backend_context),
            final(self).controls.controls@ == old(self).entered_controls(hint),
    {
        let ghost before = *self;
        let target = hint.raw_hint(&self.controls);
        let mut claimed: bool = false;
        if let Some(identity) = hint.heap {
            let control = self.controls.controls[identity - 1];
            let exclusive: bool = match control.claim_policy {
                ClaimPolicy::Shared => false,
                ClaimPolicy::Exclusive => true,
            };
            if exclusive && !self.context.is_claimed(identity) {
                claimed = self.controls.claim(identity);
            }
            if self.context.backend.is_none() {
                self.context.backend = Some(control.backend);
                self.context.backend_context = backend_context;
            }
        }
        assert(claimed == before.must_claim(hint));
        let previous = self.context.active;
        if self.context.backend.is_some() {
            self.context.activated = Some(target);
        }
        self.context.active = target;
        if claimed {
            self.context.claimed.push(hint.heap.unwrap());
        }
        proof {
            assert(self.context@ =~= before.entered(hint, backend_context));
            assert forall|position: int| 0 <= position < self.context.claimed@.len() implies self.controls.has(
                #[trigger] self.context.claimed@[position],
            ) && self.controls.of(self.context.claimed@[position]).active by {
                if position < before.context.claimed@.len() {
                    assert(before.controls.has(before.context.claimed@[position]));
                }
            }
            assert forall|left: int, right: int|
                #![trigger self.context.claimed@[left], self.context.claimed@[right]]
                0 <= left < right < self.context.claimed@.len() implies self.context.claimed@[left] != self.context.claimed@[right] by {
                if right < before.context.claimed@.len() {
                    assert(before.context.claimed@[left] != before.context.claimed@[right]);
                } else {
                    assert(before.context.claimed@.contains(before.context.claimed@[left]));
                }
            }
        }
        ContextSnapshot { previous, claimed }
    }

    /// Leaves the scope that was entered last.
    pub fn restore(&mut self, hint: Hint, snapshot: ContextSnapshot)
        requires
            old(self).wf(),
            snapshot.claimed ==> hint.heap is Some && old(self).context.claimed@.len() > 0
                && old(self).context.claimed@.last() == hint.heap->0,
        ensures
            final(self).wf(),
            final(self).context@ == old(self).context@.left(snapshot),
            final(self).controls.controls@ == old(self).left_controls(hint, snapshot),
    {
        let ghost before = *self;
        if self.context.backend.is_some() {
            self.context.activated = Some(snapshot.previous);
        }
        self.context.active = snapshot.previous;
        if snapshot.claimed {
            let ghost claims = self.context.claimed@;
            let _last = self.context.claimed.pop();
            assert(self.context.claimed@ =~= claims.drop_last());
            assert(self.controls.has(claims[claims.len() - 1]));
            let _was_active: bool = self.controls.release(hint.heap.unwrap());
        }
        proof {
            assert(self.context@ =~= before.context@.left(snapshot));
            assert forall|position: int| 0 <= position < self.context.claimed@.len() implies self.controls.has(
                #[trigger] self.context.claimed@[position],
            ) && self.controls.of(self.context.claimed@[position]).active by {
                assert(before.controls.has(before.context.claimed@[position]));
                if snapshot.claimed {
                    assert(before.context.claimed@[position] != before.context.claimed@[before.context.claimed@.len() - 1]);
                }
            }
            assert forall|left: int, right: int|
                #![trigger self.context.claimed@[left], self.context.claimed@[right]]
                0 <= left < right < self.context.claimed@.len() implies self.context.claimed@[left] != self.context.claimed@[right] by {
                assert(before.context.claimed@[left] != before.context.claimed@[right]);
            }
        }
    }

    pub open spec fn left_controls(&self, hint: Hint, snapshot: ContextSnapshot) -> Seq<HeapControl> {
        if snapshot.claimed {
            let index = hint.heap->0 - 1;
            self.controls.controls@.update(index, HeapControl { active: false, ..self.controls.controls@[index] })
        } else {
            self.controls.controls@
        }
    }
}

impl ContextModel {
    /// The thread's hints once the scope is left.
    pub open spec fn left(self, snapshot: ContextSnapshot) -> ContextModel {
        ContextModel {
            active: snapshot.previous,
            activated: if self.backend is Some {
                Some(snapshot.previous)
            } else {
                self.activated
            },
            claimed: if snapshot.claimed {
                self.claimed.drop_last()
            } else {
                self.claimed
            },
            ..self
        }
    }
}

/// Runs `operation` within a scope, and leaves the scope after it. The operation gets the state
/// within the scope, and must leave the scopes that it enters.
pub fn with_hint<R, F: FnOnce(HintState) -> (HintState, R)>(
    state: HintState,
    hint: Hint,
    backend_context: usize,
    operation: F,
) -> (result: (HintState, R))
    requires
        state.wf(),
        state.can_enter(hint),
        backend_context != 0,
        forall|inner: HintState|
            inner.wf() && inner.context@ == state.entered(hint, backend_context) && inner.controls.controls@
                == state.entered_controls(hint) ==> #[trigger] operation.requires((inner,)),
        forall|inner: HintState, outcome: (HintState, R)|
            #[trigger] operation.ensures((inner,), outcome) ==> outcome.0.wf() && outcome.0.context.claimed@
                == inner.context.claimed@,
    ensures
        result.0.wf(),
        result.0.context.active == state.context.active,
        result.0.context.claimed@ == state.context.claimed@,
        exists|inner: HintState, outcome: (HintState, R)|
            #[trigger] operation.ensures((inner,), outcome) && inner.context@ == state.entered(hint, backend_context)
                && inner.controls.controls@ == state.entered_controls(hint) && result.1 == outcome.1 && result.0.context@
                == outcome.0.context@.left(
                ContextSnapshot { previous: state.context.active, claimed: state.must_claim(hint) },
            ) && result.0.controls.controls@ == outcome.0.left_controls(
                hint,
                ContextSnapshot { previous: state.context.active, claimed: state.must_claim(hint) },
            ),
{
    let mut entered = state;
    let ghost start = entered;
    let snapshot = entered.enter(hint, backend_context);
    let ghost inner = entered;
    let (after, value) = operation(entered);
    let mut after = after;
    let ghost outcome = (after, value);
    assert(operation.ensures((inner,), outcome));
    proof {
        if snapshot.claimed {
            assert(inner.context@.claimed == start.context.claimed@.push(hint.heap->0));
            assert(inner.context.claimed@.last() == hint.heap->0);
            assert(inner.context.claimed@.drop_last() =~= start.context.claimed@);
        }
    }
    after.restore(hint, snapshot);
    assert(after.context@.claimed == start.context@.claimed);
    (after, value)
}

/// Within a scope its heap is claimed, where it can be, and stays so within the scopes in it. A shared
/// heap never is.
pub proof fn law_a_scope_claims_its_heap(state: HintState, hint: Hint, backend_context: usize, identity: usize, inner: Hint)
    requires
        state.wf(),
        state.can_enter(hint),
        hint.heap == Some(identity),
    ensures
        ({
            let inside = state.entered_controls(hint)[identity - 1];
            let claims = state.entered(hint, backend_context).claimed;
            if state.controls.of(identity).claim_policy == ClaimPolicy::Exclusive {
                inside.active && claims.contains(identity)
            } else {
                !inside.active
            }
        }),
        forall|within: HintState|
            within.controls.controls@ == state.entered_controls(hint) && #[trigger] within.can_enter(inner) && state.controls.of(
                identity,
            ).claim_policy == ClaimPolicy::Exclusive ==> within.entered_controls(inner)[identity - 1].active,
{
    if state.must_claim(hint) {
        let claims = state.entered(hint, backend_context).claimed;
        assert(claims[claims.len() - 1] == identity);
    } else if state.controls.of(identity).claim_policy == ClaimPolicy::Exclusive {
        let position = choose|position: int|
            0 <= position < state.context.claimed@.len() && state.context.claimed@[position] == identity;
        assert(state.controls.of(state.context.claimed@[position]).active);
    }
}

/// Entering a scope and leaving it changes nothing but what the thread has learned of the
/// allocator, and what the allocator was told last.
pub proof fn law_leaving_undoes_entering(state: HintState, hint: Hint, backend_context: usize)
    requires
        state.wf(),
        state.can_enter(hint),
    ensures
        ({
            let snapshot = ContextSnapshot { previous: state.context.active, claimed: state.must_claim(hint) };
            let inside = state.entered(hint, backend_context);
            let outside = inside.left(snapshot);
            &&& outside.active == state.context.active
            &&& outside.claimed == state.context.claimed@
            &&& state.context.backend is Some ==> outside.backend == state.context.backend && outside.backend_context
                == state.context.backend_context && outside.activated == Some(state.context.active)
            &&& hint.heap is None ==> outside.backend == state.context.backend
        }),
        ({
            let snapshot = ContextSnapshot { previous: state.context.active, claimed: state.must_claim(hint) };
            let inside = state.entered_controls(hint);
            let outside = if snapshot.claimed {
                inside.update(hint.heap->0 - 1, HeapControl { active: false, ..inside[hint.heap->0 - 1] })
            } else {
                inside
            };
            outside == state.controls.controls@
        }),
{
    let snapshot = ContextSnapshot { previous: state.context.active, claimed: state.must_claim(hint) };
    let inside = state.entered(hint, backend_context);
    if snapshot.claimed {
        assert(inside.claimed.drop_last() =~= state.context.claimed@);
        let index = hint.heap->0 - 1;
        let claimed = state.entered_controls(hint);
        assert(claimed.update(index, HeapControl { active: false, ..claimed[index] }) =~= state.controls.controls@);
    }
}

/// Within a scope, allocations go to the heap of its hint, or where it has none to where they go without one. The
/// allocator that the thread's first heap is of stays the one that is told.
pub proof fn law_scopes_lead_to_their_heap(state: HintState, hint: Hint, backend_context: usize)
    requires
        hint.known(&state.controls),
    ensures
        ({
            let inside = state.entered(hint, backend_context);
            &&& hint.heap matches Some(identity) ==> inside.active == state.controls.controls@[identity - 1].hint
            &&& hint.heap is None ==> inside.active == global_hint()
            &&& state.context.backend is Some ==> inside.backend == state.context.backend && inside.backend_context
                == state.context.backend_context
            &&& state.context.backend is None && hint.heap is Some ==> inside.backend == Some(
                state.controls.controls@[hint.heap->0 - 1].backend,
            ) && inside.backend_context == backend_context
            &&& state.context.backend is None && hint.heap is None ==> inside.backend is None && inside.activated
                == state.context.activated
            &&& inside.backend is Some ==> inside.activated == Some(inside.active)
        }),
{
}

/// A scope is refused only for the claim of its heap: where the heap may not be shared, is not the thread's
/// already, and is active elsewhere or one claim too many for the thread.
pub proof fn law_scopes_are_refused_only_for_claims(state: HintState, hint: Hint, identity: usize)
    requires
        hint.heap == Some(identity),
        state.controls.has(identity),
    ensures
        !state.can_enter(hint) <==> {
            let control = state.controls.controls@[identity - 1];
            &&& control.claim_policy == ClaimPolicy::Exclusive
            &&& !state.context.claimed@.contains(identity)
            &&& control.active || state.context.claimed@.len() >= MAX_CLAIMED_HEAPS
        },
{
}

} // verus!
