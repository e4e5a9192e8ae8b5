use rallocator::hints::backend::{Backend, ClaimPolicy, RawDomain, RawHeap, RawHint, Registry};
use rallocator::hints::domain::Domain;
use rallocator::hints::heap::{thread_heap, Controls, CreationError, Heap, Info, InfoKind, Usage, UsageKind};
use rallocator::hints::{bump, general, with_hint, Error, Hint, HintState};

const BACKEND: Backend = Backend { identity: 1 };
const TARGET: usize = 8;

fn registered() -> Registry {
    let mut registry = Registry::new();
    registry.register(BACKEND);
    registry
}

fn heap(registry: &mut Registry, controls: &mut Controls, kind: usize, claim_policy: ClaimPolicy) -> Heap {
    Heap::from_raw(registry, controls, RawHint::new(TARGET, kind), BACKEND, claim_policy)
}

fn no_usage() -> Usage {
    let none = general::AllocationUsage::default();
    Usage::new(0, 0, 0, 0, 0, UsageKind::General(general::Usage::new(none, none, none, 0, 0, 0)))
}

#[test]
fn backend_factory_creates_common_heaps() {
    let registry = registered();
    let mut controls = Controls::new();
    let raw = RawHeap::new(RawHint::new(TARGET, 3), ClaimPolicy::Exclusive);
    let heap = Heap::bump(&registry, &mut controls, bump::Options::new(), |_| Ok(raw));
    let fallible_heap = Heap::try_bump(&registry, &mut controls, bump::Options::new(), |_| Ok(raw)).unwrap();
    assert_ne!(heap.identity(), 0);
    assert_ne!(fallible_heap.identity(), 0);
    let domain = Domain::from_raw(RawDomain::new(TARGET), BACKEND);
    let info = Info::new(false, domain, InfoKind::General(general::Info::new(general::Options::new(), false)));
    assert!(matches!(info.kind(), InfoKind::General(_)));
    assert!(Heap::usage(Some(no_usage())).unwrap().is_empty());
    assert_eq!(Heap::usage(None), Err(Error::UsageUnavailable));
}

#[test]
fn backend_factory_creates_thread_heaps() {
    let registry = registered();
    let mut controls = Controls::new();
    let raw = RawHeap::new(RawHint::new(TARGET, 4), ClaimPolicy::Shared);
    let heap = thread_heap(&registry, &mut controls, || Some(raw)).unwrap();
    assert_eq!(controls.controls[heap.identity() - 1].hint.kind(), 4);
    assert!(!heap.is_claimed(&controls));
    assert!(thread_heap(&Registry::new(), &mut controls, || Some(raw)).is_none());
    assert!(thread_heap(&registry, &mut controls, || None).is_none());
}

#[test]
fn backend_factory_creates_common_domains() {
    let registry = registered();
    let first = Domain::new(&registry, || Some(RawDomain::new(16)));
    let second = Domain::try_new(&registry, || Some(RawDomain::new(17))).unwrap();
    let default = Domain::standard(&registry, RawDomain::new(1));

    assert_ne!(first, second);
    assert_ne!(first, default);
    assert_eq!(default, Domain::standard(&registry, RawDomain::new(1)));
    assert!(Domain::try_new(&Registry::new(), || Some(RawDomain::new(16))).is_none());
    assert!(Domain::try_new(&registry, || None).is_none());
}

#[test]
fn a_registry_rejects_a_different_provider() {
    let registry = registered();
    assert!(registry.accepts(BACKEND));
    assert!(!registry.accepts(Backend::new(2)));
}

#[test]
fn nested_scopes_restore_targets_and_reuse_claims() {
    let mut registry = registered();
    let mut state = HintState::new();
    let heap = heap(&mut registry, &mut state.controls, 1, ClaimPolicy::Exclusive);
    assert!(!heap.is_claimed(&state.controls));
    let hint = Hint::new().with_heap(&heap, &mut state.controls).0;
    let (state, ()) = with_hint(state, hint, 1, |state| {
        assert_eq!(state.context.active.kind(), 1);
        assert_eq!(state.context.activated, Some(RawHint::new(TARGET, 1)));
        assert!(heap.is_claimed(&state.controls));
        let (state, ()) = with_hint(state, hint, 1, |state| {
            assert_eq!(state.context.active.kind(), 1);
            (state, ())
        });
        assert_eq!(state.context.active.kind(), 1);
        assert!(heap.is_claimed(&state.controls));
        (state, ())
    });
    assert_eq!(state.context.active.kind(), 0);
    assert_eq!(state.context.activated, Some(RawHint::global()));
    assert!(!heap.is_claimed(&state.controls));
}

#[test]
fn leaving_a_scope_undoes_entering_it() {
    let mut registry = registered();
    let mut state = HintState::new();
    let heap = heap(&mut registry, &mut state.controls, 2, ClaimPolicy::Exclusive);
    let hint = Hint::new().with_heap(&heap, &mut state.controls).0;
    let snapshot = state.enter(hint, 1);
    assert!(snapshot.claimed);
    assert_eq!(state.context.claimed, vec![heap.identity()]);
    state.restore(hint, snapshot);
    assert_eq!(state.context.active, RawHint::global());
    assert_eq!(state.context.claimed.len(), 0);
    assert!(!heap.is_claimed(&state.controls));
}

#[test]
fn the_last_handle_destroys_the_heap() {
    let mut registry = registered();
    let mut controls = Controls::new();
    let heap = heap(&mut registry, &mut controls, 2, ClaimPolicy::Shared);
    let hint = Hint::new().with_heap(&heap, &mut controls).0;
    assert_eq!(hint.heap, Some(heap.identity()));
    assert_eq!(controls.unshare(heap.identity()), None);
    assert_eq!(controls.unshare(heap.identity()), Some(RawHint::new(TARGET, 2)));
}

#[test]
fn errors_say_what_went_wrong() {
    assert_eq!(CreationError::BackendUnavailable.message(), "no allocation heap backend is installed");
    assert_eq!(CreationError::CreationFailed.message(), "the allocation backend could not create the heap");
    assert_eq!(Error::UsageUnavailable.message(), "thread-heap usage must be queried from its owner thread");
}

#[test]
fn options_hold_what_they_are_given() {
    let options = bump::Options::new();
    assert_eq!(options.max_allocation_bytes(), 32 * 1024);
    assert_eq!(options.max_alignment(), 4 * 1024);
    assert_eq!(options.retained_chunks(), 4);
    assert_eq!(options.max_retained_chunks(), 16);
    assert_eq!(options.with_max_alignment(64).max_alignment(), 64);
    assert_eq!(options.with_retained_chunks(2).retained_chunks(), 2);
    let general = general::Options::new();
    assert_eq!(general.locality_segment_bytes(), 4 * 1024 * 1024);
    assert_eq!(general.medium_cache_max_bytes(), 8 * 1024 * 1024);
    assert_eq!(general.with_medium_cache_max_bytes(0).medium_cache_max_bytes(), 0);
}

#[test]
fn a_hint_drops_the_heap_that_it_held() {
    let mut registry = registered();
    let mut controls = Controls::new();
    let first = Heap::from_raw(&mut registry, &mut controls, RawHint::new(TARGET, 1), BACKEND, ClaimPolicy::Exclusive);
    let second = Heap::from_raw(&mut registry, &mut controls, RawHint::new(TARGET + 8, 1), BACKEND, ClaimPolicy::Exclusive);
    let hint = Hint::from_heap(&first, &mut controls);
    assert_eq!(hint.heap, Some(first.identity()));
    assert_eq!(controls.controls[first.identity() - 1].handles, 2);
    let (hint, destroyed) = hint.with_heap(&first, &mut controls);
    assert_eq!(destroyed, None);
    assert_eq!(controls.controls[first.identity() - 1].handles, 2);
    assert_eq!(controls.unshare(first.identity()), None);
    let (hint, destroyed) = hint.with_heap(&second, &mut controls);
    assert_eq!(hint.heap, Some(second.identity()));
    assert_eq!(destroyed, Some(RawHint::new(TARGET, 1)));
    assert_eq!(controls.controls[first.identity() - 1].handles, 0);
    assert_eq!(controls.controls[second.identity() - 1].handles, 2);
}

#[test]
fn shared_heaps_are_never_claimed() {
    let mut registry = registered();
    let mut state = HintState::new();
    let heap = heap(&mut registry, &mut state.controls, 4, ClaimPolicy::Shared);
    let hint = Hint::from_heap(&heap, &mut state.controls);
    let (state, ()) = with_hint(state, hint, 1, |state| {
        assert!(!heap.is_claimed(&state.controls));
        assert!(state.accepts(hint));
        (state, ())
    });
    assert_eq!(state.context.claimed.len(), 0);
}

#[test]
fn amounts_add_up_in_any_order() {
    let amounts = [(1, 8, 16), (3, 100, 128), (2, 0, 32)];
    let mut forward = general::AllocationUsage::default();
    let mut backward = general::AllocationUsage::default();
    for (live, requested, usable) in amounts {
        forward.add(live, requested, usable);
    }
    for (live, requested, usable) in amounts.into_iter().rev() {
        backward.add(live, requested, usable);
    }
    assert_eq!(forward, backward);
    assert_eq!(forward.live_allocations(), 6);
    assert_eq!(forward.requested_bytes(), 108);
    assert_eq!(forward.usable_bytes(), 176);
}
