//! Heaps as the callers of an allocator hold them: options, information, ownership and claims.

use vstd::prelude::*;

use crate::hints::{bump, general, Error, ThreadContext};
use crate::hints::backend::{Backend, ClaimPolicy, RawHeap, RawHint, Registry};
use crate::hints::domain::Domain;

verus! {

/// How a heap allocates.
#[derive(Clone, Copy, Debug, PartialEq, Eq, Structural)]
pub enum Kind {
    General(general::Options),
    Bump(bump::Options),
}

/// Where a heap's backing state comes from.
#[derive(Clone, Copy, Debug, PartialEq, Eq, Structural)]
pub enum CreationPolicy {
    Fresh,
    /// Empty backing state of the thread's or the process's pool is reused.
    ThreadPool,
}

#[derive(Clone, Copy, Debug, PartialEq, Eq, Structural)]
pub struct Options {
    pub kind: Kind,
    pub domain: Option<Domain>,
    pub creation_policy: CreationPolicy,
}

pub open spec fn options_of(kind: Kind) -> Options {
    Options { kind, domain: None, creation_policy: CreationPolicy::Fresh }
}

impl Options {
    pub fn new(kind: Kind) -> (options: Options)
        ensures
            options == options_of(kind),
    {
        Options { kind, domain: None, creation_policy: CreationPolicy::Fresh }
    }

    pub fn general(options: general::Options) -> (created: Options)
        ensures
            created == options_of(Kind::General(options)),
    {
        Options::new(Kind::General(options))
    }

    pub fn bump(options: bump::Options) -> (created: Options)
        ensures
            created == options_of(Kind::Bump(options)),
    {
        Options::new(Kind::Bump(options))
    }

    pub fn kind(self) -> (kind: Kind)
        ensures
            kind == self.kind,
    {
        self.kind
    }

    pub fn with_domain(self, domain: Domain) -> (options: Options)
        ensures
            options == (Options { domain: Some(domain), ..self }),
    {
        Options { domain: Some(domain), ..self }
    }

    pub fn with_thread_pool(self) -> (options: Options)
        ensures
            options == (Options { creation_policy: CreationPolicy::ThreadPool, ..self }),
    {
        Options { creation_policy: CreationPolicy::ThreadPool, ..self }
    }

    pub fn domain(self) -> (domain: Option<Domain>)
        ensures
            domain == self.domain,
    {
        self.domain
    }

    pub fn creation_policy(self) -> (policy: CreationPolicy)
        ensures
            policy == self.creation_policy,
    {
        self.creation_policy
    }
}

impl Default for Options {
    fn default() -> (options: Options)
        ensures
            options == options_of(Kind::General(general::standard_options())),
    {
        Options::general(general::Options::new())
    }
}

/// What is known of a heap without looking into it.
#[derive(Clone, Copy, Debug, PartialEq, Eq, Structural)]
pub struct Info {
    pub active: bool,
    pub domain: Domain,
    pub kind: InfoKind,
}

#[derive(Clone, Copy, Debug, PartialEq, Eq, Structural)]
#[non_exhaustive]
pub enum InfoKind {
    General(general::Info),
    Bump(bump::Info),
}

impl Info {
    pub fn is_active(&self) -> (active: bool)
        ensures
            active == self.active,
    {
        self.active
    }

    pub fn kind(&self) -> (kind: &InfoKind)
        ensures
            *kind == self.kind,
    {
        &self.kind
    }

    pub fn domain(&self) -> (domain: Domain)
        ensures
            domain == self.domain,
    {
        self.domain
    }

    pub fn new(active: bool, domain: Domain, kind: InfoKind) -> (info: Info)
        ensures
            info == (Info { active, domain, kind }),
    {
        Info { active, domain, kind }
    }
}

/// What a heap holds at one moment.
#[derive(Clone, Copy, Debug, PartialEq, Eq, Structural)]
pub struct Usage {
    pub live_allocations: usize,
    pub live_requested_bytes: usize,
    pub live_usable_bytes: usize,
    pub reserved_bytes: usize,
    pub committed_bytes: usize,
    pub kind: UsageKind,
}

#[derive(Clone, Copy, Debug, PartialEq, Eq, Structural)]
#[non_exhaustive]
pub enum UsageKind {
    General(general::Usage),
    Bump(bump::Usage),
}

impl Usage {
    pub fn kind(&self) -> (kind: &UsageKind)
        ensures
            *kind == self.kind,
    {
        &self.kind
    }

    pub fn general(&self) -> (usage: Option<&general::Usage>)
        ensures
            match self.kind {
                UsageKind::General(general) => usage == Some(&general),
                UsageKind::Bump(_) => usage is None,
            },
    {
        match &self.kind {
            UsageKind::General(usage) => Some(usage),
            UsageKind::Bump(_) => None,
        }
    }

    pub fn bump(&self) -> (usage: Option<&bump::Usage>)
        ensures
            match self.kind {
                UsageKind::General(_) => usage is None,
                UsageKind::Bump(bump) => usage == Some(&bump),
            },
    {
        match &self.kind {
            UsageKind::General(_) => None,
            UsageKind::Bump(usage) => Some(usage),
        }
    }

    pub fn is_empty(&self) -> (empty: bool)
        ensures
            empty == (self.live_allocations == 0),
    {
        self.live_allocations == 0
    }

    pub fn live_allocations(&self) -> (count: usize)
        ensures
            count == self.live_allocations,
    {
        self.live_allocations
    }

    pub fn live_requested_bytes(&self) -> (bytes: usize)
        ensures
            bytes == self.live_requested_bytes,
    {
        self.live_requested_bytes
    }

    pub fn live_usable_bytes(&self) -> (bytes: usize)
        ensures
            bytes == self.live_usable_bytes,
    {
        self.live_usable_bytes
    }

    pub fn reserved_bytes(&self) -> (bytes: usize)
        ensures
            bytes == self.reserved_bytes,
    {
        self.reserved_bytes
    }

    pub fn committed_bytes(&self) -> (bytes: usize)
        ensures
            bytes == self.committed_bytes,
    {
        self.committed_bytes
    }

    pub fn new(
        live_allocations: usize,
        live_requested_bytes: usize,
        live_usable_bytes: usize,
        reserved_bytes: usize,
        committed_bytes: usize,
        kind: UsageKind,
    ) -> (usage: Usage)
        ensures
            usage == (Usage {
                live_allocations,
                live_requested_bytes,
                live_usable_bytes,
                reserved_bytes,
                committed_bytes,
                kind,
            }),
    {
        Usage { live_allocations, live_requested_bytes, live_usable_bytes, reserved_bytes, committed_bytes, kind }
    }
}

/// Why a heap was not made.
#[derive(Clone, Copy, Debug, PartialEq, Eq, Structural)]
#[non_exhaustive]
pub enum CreationError {
    BackendUnavailable,
    CreationFailed,
}

impl CreationError {
    pub fn message(&self) -> (message: &'static str)
        ensures
            match *self {
                CreationError::BackendUnavailable => message@ == "no allocation heap backend is installed"@,
                CreationError::CreationFailed => message@ == "the allocation backend could not create the heap"@,
            },
    {
        match self {
            CreationError::BackendUnavailable => "no allocation heap backend is installed",
            CreationError::CreationFailed => "the allocation backend could not create the heap",
        }
    }
}

/// What the handles of one heap share.
#[derive(Clone, Copy, Debug, PartialEq, Eq, Structural)]
pub struct HeapControl {
    /// Whether a scope or an inspection holds the heap's claim.
    pub active: bool,
    pub claim_policy: ClaimPolicy,
    pub hint: RawHint,
    pub backend: Backend,
    /// The number of handles.
    pub handles: usize,
}

/// The heaps of the process. A heap's identity is its position, counted from 1.
pub struct Controls {
    pub controls: Vec<HeapControl>,
}

/// A handle of a heap.
#[derive(Debug)]
pub struct Heap {
    pub identity: usize,
}

impl Controls {
    pub open spec fn has(&self, identity: usize) -> bool {
        0 < identity <= self.controls@.len()
    }

    pub open spec fn of(&self, identity: usize) -> HeapControl {
        self.controls@[identity - 1]
    }

    /// Whether every heap has a target of its own kind, and no heap that is shared is claimed.
    pub open spec fn wf(&self) -> bool {
        forall|index: int|
            0 <= index < self.controls@.len() ==> (#[trigger] self.controls@[index]).hint.target != 0 && (
            self.controls@[index].claim_policy == ClaimPolicy::Shared ==> !self.controls@[index].active)
    }

    /// Only the heap `identity` differs from `other`, and is `control`.
    pub open spec fn with(&self, other: &Controls, identity: usize, control: HeapControl) -> bool {
        self.controls@ == other.controls@.update(identity - 1, control)
    }

    pub fn new() -> (controls: Controls)
        ensures
            controls.controls@.len() == 0,
            controls.wf(),
    {
        Controls { controls: Vec::new() }
    }

    pub fn add(&mut self, raw: RawHeap, backend: Backend) -> (heap: Heap)
        requires
            raw.hint.target != 0,
            old(self).wf(),
        ensures
            final(self).wf(),
            final(self).controls@ == old(self).controls@.push(
                HeapControl { active: false, claim_policy: raw.claim_policy, hint: raw.hint, backend, handles: 1 },
            ),
            heap.identity == final(self).controls@.len(),
            final(self).has(heap.identity),
    {
        self.controls.push(
            HeapControl { active: false, claim_policy: raw.claim_policy, hint: raw.hint, backend, handles: 1 },
        );
        Heap { identity: self.controls.len() }
    }

    /// Claims a heap. Returns false where something else holds the claim.
    pub fn claim(&mut self, identity: usize) -> (claimed: bool)
        requires
            old(self).has(identity),
            old(self).wf(),
            old(self).of(identity).claim_policy == ClaimPolicy::Exclusive,
        ensures
            final(self).wf(),
            claimed == !old(self).of(identity).active,
            final(self).with(old(self), identity, HeapControl { active: true, ..old(self).of(identity) }),
    {
        let index: usize = identity - 1;
        if self.controls[index].active {
            assert(self.controls@ =~= self.controls@.update(
                index as int,
                HeapControl { active: true, ..self.controls@[index as int] },
            ));
            return false;
        }
        let mut control = self.controls[index];
        control.active = true;
        self.controls[index] = control;
        true
    }

    /// Gives a claim back. Returns whether there was one.
    pub fn release(&mut self, identity: usize) -> (was_active: bool)
        requires
            old(self).has(identity),
            old(self).wf(),
        ensures
            final(self).wf(),
            was_active == old(self).of(identity).active,
            final(self).with(old(self), identity, HeapControl { active: false, ..old(self).of(identity) }),
    {
        let index: usize = identity - 1;
        let mut control = self.controls[index];
        let was_active: bool = control.active;
        control.active = false;
        self.controls[index] = control;
        was_active
    }

    /// The heaps where one of them has so many handles more.
    pub open spec fn handled(controls: Seq<HeapControl>, identity: usize, more: int) -> Seq<HeapControl> {
        let own = controls[identity - 1];
        controls.update(identity - 1, HeapControl { handles: (own.handles + more) as usize, ..own })
    }

    /// Makes another handle of a heap.
    pub fn share(&mut self, identity: usize)
        requires
            old(self).has(identity),
            old(self).wf(),
            0 < old(self).of(identity).handles < usize::MAX,
        ensures
            final(self).wf(),
            final(self).controls@ == Controls::handled(old(self).controls@, identity, 1),
    {
        let index: usize = identity - 1;
        let mut control = self.controls[index];
        control.handles = control.handles + 1;
        self.controls[index] = control;
    }

    /// Drops a handle. Returns the target that the allocator must destroy, with the last one.
    pub fn unshare(&mut self, identity: usize) -> (destroyed: Option<RawHint>)
        requires
            old(self).has(identity),
            old(self).wf(),
            old(self).of(identity).handles > 0,
        ensures
            final(self).wf(),
            destroyed == (if old(self).of(identity).handles == 1 {
                Some(old(self).of(identity).hint)
            } else {
                None::<RawHint>
            }),
            final(self).controls@ == Controls::handled(old(self).controls@, identity, -1),
    {
        let index: usize = identity - 1;
        let mut control = self.controls[index];
        control.handles = control.handles - 1;
        self.controls[index] = control;
        if control.handles == 0 {
            Some(control.hint)
        } else {
            None
        }
    }
}

/// What an inspection of a heap must do first.
#[derive(Clone, Copy, Debug, PartialEq, Eq, Structural)]
pub enum Access {
    /// Nothing, and nothing after it. Whether the heap is active on this thread.
    Granted(bool),
    /// The claim was taken, and must be given back.
    Claimed,
    /// Something else holds the claim: try again.
    Busy,
}

/// How a heap is inspected: as it is where it is active on the thread or may be shared, and otherwise
/// with its claim, unless something else holds that.
pub open spec fn access(control: HeapControl, active_here: bool) -> Access {
    if active_here || control.claim_policy == ClaimPolicy::Shared {
        Access::Granted(active_here)
    } else if control.active {
        Access::Busy
    } else {
        Access::Claimed
    }
}

impl Heap {
    /// The heap for what the allocator answered to the standard options.
    pub fn new<F: FnOnce(Options) -> Result<RawHeap, CreationError>>(registry: &Registry, controls: &mut Controls, create: F) -> (heap: Heap)
        requires
            registry.backend is Some,
            old(controls).wf(),
            create.requires((options_of(Kind::General(general::standard_options())),)),
            forall|raw: Result<RawHeap, CreationError>|
                #[trigger] create.ensures((options_of(Kind::General(general::standard_options())),), raw) ==> raw is Ok
                    && raw->Ok_0.hint.target != 0,
        ensures
            final(controls).wf(),
            heap.identity == final(controls).controls@.len(),
            final(controls).controls@.len() == old(controls).controls@.len() + 1,
            final(controls).controls@.drop_last() == old(controls).controls@,
            create.ensures(
                (options_of(Kind::General(general::standard_options())),),
                Ok(
                    RawHeap {
                        hint: final(controls).controls@.last().hint,
                        claim_policy: final(controls).controls@.last().claim_policy,
                    },
                ),
            ),
            Some(final(controls).controls@.last().backend) == registry.backend,
            !final(controls).controls@.last().active,
            final(controls).controls@.last().handles == 1,
    {
        Heap::with_options(registry, controls, Options::general(general::Options::new()), create)
    }

    pub fn try_new<F: FnOnce(Options) -> Result<RawHeap, CreationError>>(registry: &Registry, controls: &mut Controls, create: F) -> (heap: Result<
        Heap,
        CreationError,
    >)
        requires
            old(controls).wf(),
            create.requires((options_of(Kind::General(general::standard_options())),)),
            forall|raw: Result<RawHeap, CreationError>|
                #[trigger] create.ensures((options_of(Kind::General(general::standard_options())),), raw) ==> (raw matches Ok(raw)
                    ==> raw.hint.target != 0),
        ensures
            final(controls).wf(),
            registry.backend is None ==> heap == Err::<Heap, CreationError>(CreationError::BackendUnavailable) && final(controls).controls@ == old(controls).controls@,
            registry.backend matches Some(backend) ==> exists|raw: Result<RawHeap, CreationError>|
                #[trigger] create.ensures((options_of(Kind::General(general::standard_options())),), raw) && made(
                    raw,
                    backend,
                    old(controls).controls@,
                    final(controls).controls@,
                    heap,
                ),
    {
        Heap::try_with_options(registry, controls, Options::general(general::Options::new()), create)
    }

    pub fn bump<F: FnOnce(Options) -> Result<RawHeap, CreationError>>(
        registry: &Registry,
        controls: &mut Controls,
        options: bump::Options,
        create: F,
    ) -> (heap: Heap)
        requires
            registry.backend is Some,
            old(controls).wf(),
            create.requires((options_of(Kind::Bump(options)),)),
            forall|raw: Result<RawHeap, CreationError>|
                #[trigger] create.ensures((options_of(Kind::Bump(options)),), raw) ==> raw is Ok && raw->Ok_0.hint.target != 0,
        ensures
            final(controls).wf(),
            heap.identity == final(controls).controls@.len(),
            final(controls).controls@.len() == old(controls).controls@.len() + 1,
            final(controls).controls@.drop_last() == old(controls).controls@,
            create.ensures(
                (options_of(Kind::Bump(options)),),
                Ok(
                    RawHeap {
                        hint: final(controls).controls@.last().hint,
                        claim_policy: final(controls).controls@.last().claim_policy,
                    },
                ),
            ),
            Some(final(controls).controls@.last().backend) == registry.backend,
            !final(controls).controls@.last().active,
            final(controls).controls@.last().handles == 1,
    {
        Heap::with_options(registry, controls, Options::bump(options), create)
    }

    pub fn try_bump<F: FnOnce(Options) -> Result<RawHeap, CreationError>>(
        registry: &Registry,
        controls: &mut Controls,
        options: bump::Options,
        create: F,
    ) -> (heap: Result<Heap, CreationError>)
        requires
            old(controls).wf(),
            create.requires((options_of(Kind::Bump(options)),)),
            forall|raw: Result<RawHeap, CreationError>|
                #[trigger] create.ensures((options_of(Kind::Bump(options)),), raw) ==> (raw matches Ok(raw) ==> raw.hint.target
                    != 0),
        ensures
            final(controls).wf(),
            registry.backend is None ==> heap == Err::<Heap, CreationError>(CreationError::BackendUnavailable) && final(controls).controls@ == old(controls).controls@,
            registry.backend matches Some(backend) ==> exists|raw: Result<RawHeap, CreationError>|
                #[trigger] create.ensures((options_of(Kind::Bump(options)),), raw) && made(
                    raw,
                    backend,
                    old(controls).controls@,
                    final(controls).controls@,
                    heap,
                ),
    {
        Heap::try_with_options(registry, controls, Options::bump(options), create)
    }

    /// The heap that the allocator was asked for. There must be an allocator, and it must have
    /// made one.
    pub fn with_options<F: FnOnce(Options) -> Result<RawHeap, CreationError>>(
        registry: &Registry,
        controls: &mut Controls,
        options: Options,
        create: F,
    ) -> (heap: Heap)
        requires
            registry.backend is Some,
            old(controls).wf(),
            create.requires((options,)),
            forall|raw: Result<RawHeap, CreationError>|
                #[trigger] create.ensures((options,), raw) ==> raw is Ok && raw->Ok_0.hint.target != 0,
        ensures
            final(controls).wf(),
            heap.identity == final(controls).controls@.len(),
            final(controls).controls@.len() == old(controls).controls@.len() + 1,
            final(controls).controls@.drop_last() == old(controls).controls@,
            create.ensures(
                (options,),
                Ok(
                    RawHeap {
                        hint: final(controls).controls@.last().hint,
                        claim_policy: final(controls).controls@.last().claim_policy,
                    },
                ),
            ),
            Some(final(controls).controls@.last().backend) == registry.backend,
            !final(controls).controls@.last().active,
            final(controls).controls@.last().handles == 1,
    {
        let backend = registry.backend.unwrap();
        let raw = create(options);
        assert(create.ensures((options,), raw));
        let ghost before = controls.controls@;
        match raw {
            Ok(raw) => {
                let heap = controls.add(raw, backend);
                assert(controls.controls@.drop_last() =~= before);
                assert(raw == (RawHeap {
                    hint: controls.controls@.last().hint,
                    claim_policy: controls.controls@.last().claim_policy,
                }));
                heap
            },
            Err(_) => Heap { identity: 0 },
        }
    }

    /// The heap that the allocator was asked for, where there is an allocator and it made one.
    pub fn try_with_options<F: FnOnce(Options) -> Result<RawHeap, CreationError>>(
        registry: &Registry,
        controls: &mut Controls,
        options: Options,
        create: F,
    ) -> (heap: Result<Heap, CreationError>)
        requires
            old(controls).wf(),
            create.requires((options,)),
            forall|raw: Result<RawHeap, CreationError>|
                #[trigger] create.ensures((options,), raw) ==> (raw matches Ok(raw) ==> raw.hint.target != 0),
        ensures
            final(controls).wf(),
            registry.backend is None ==> heap == Err::<Heap, CreationError>(CreationError::BackendUnavailable) && final(controls).controls@ == old(controls).controls@,
            registry.backend matches Some(backend) ==> exists|raw: Result<RawHeap, CreationError>|
                #[trigger] create.ensures((options,), raw) && made(
                    raw,
                    backend,
                    old(controls).controls@,
                    final(controls).controls@,
                    heap,
                ),
    {
        match registry.backend {
            None => Err(CreationError::BackendUnavailable),
            Some(backend) => {
                let raw = create(options);
                assert(create.ensures((options,), raw));
                Heap::created(controls, raw, backend)
            },
        }
    }

    /// The heap for what an allocator answered.
    pub fn created(controls: &mut Controls, raw: Result<RawHeap, CreationError>, backend: Backend) -> (heap: Result<Heap, CreationError>)
        requires
            old(controls).wf(),
            raw matches Ok(raw) ==> raw.hint.target != 0,
        ensures
            final(controls).wf(),
            made(raw, backend, old(controls).controls@, final(controls).controls@, heap),
    {
        match raw {
            Ok(raw) => Ok(controls.add(raw, backend)),
            Err(error) => Err(error),
        }
    }

    /// A bump heap, with backing state of the thread's pool where there is some.
    pub fn from_thread_pool<F: FnOnce(Options) -> Result<RawHeap, CreationError>>(
        registry: &Registry,
        controls: &mut Controls,
        options: bump::Options,
        create: F,
    ) -> (heap: Heap)
        requires
            registry.backend is Some,
            old(controls).wf(),
            create.requires((pooled(options, None),)),
            forall|raw: Result<RawHeap, CreationError>|
                #[trigger] create.ensures((pooled(options, None),), raw) ==> raw is Ok && raw->Ok_0.hint.target != 0,
        ensures
            final(controls).wf(),
            heap.identity == final(controls).controls@.len(),
            final(controls).controls@.len() == old(controls).controls@.len() + 1,
            final(controls).controls@.drop_last() == old(controls).controls@,
            create.ensures(
                (pooled(options, None),),
                Ok(
                    RawHeap {
                        hint: final(controls).controls@.last().hint,
                        claim_policy: final(controls).controls@.last().claim_policy,
                    },
                ),
            ),
            Some(final(controls).controls@.last().backend) == registry.backend,
            !final(controls).controls@.last().active,
            final(controls).controls@.last().handles == 1,
    {
        Heap::with_options(registry, controls, Options::bump(options).with_thread_pool(), create)
    }

    /// A bump heap of a domain, with backing state of the thread's pool where there is some.
    pub fn from_thread_pool_in<F: FnOnce(Options) -> Result<RawHeap, CreationError>>(
        registry: &Registry,
        controls: &mut Controls,
        domain: Domain,
        options: bump::Options,
        create: F,
    ) -> (heap: Heap)
        requires
            registry.backend is Some,
            old(controls).wf(),
            create.requires((pooled(options, Some(domain)),)),
            forall|raw: Result<RawHeap, CreationError>|
                #[trigger] create.ensures((pooled(options, Some(domain)),), raw) ==> raw is Ok && raw->Ok_0.hint.target != 0,
        ensures
            final(controls).wf(),
            heap.identity == final(controls).controls@.len(),
            final(controls).controls@.len() == old(controls).controls@.len() + 1,
            final(controls).controls@.drop_last() == old(controls).controls@,
            create.ensures(
                (pooled(options, Some(domain)),),
                Ok(
                    RawHeap {
                        hint: final(controls).controls@.last().hint,
                        claim_policy: final(controls).controls@.last().claim_policy,
                    },
                ),
            ),
            Some(final(controls).controls@.last().backend) == registry.backend,
            !final(controls).controls@.last().active,
            final(controls).controls@.last().handles == 1,
    {
        Heap::with_options(registry, controls, Options::bump(options).with_domain(domain).with_thread_pool(), create)
    }

    /// A handle of a target that the allocator made by itself.
    pub fn from_raw(registry: &mut Registry, controls: &mut Controls, hint: RawHint, backend: Backend, claim_policy: ClaimPolicy) -> (heap: Heap)
        requires
            old(registry).admits(backend),
            hint.target != 0,
            old(controls).wf(),
        ensures
            final(registry).backend == Some(backend),
            final(controls).wf(),
            made(
                Ok(RawHeap { hint, claim_policy }),
                backend,
                old(controls).controls@,
                final(controls).controls@,
                Ok(heap),
            ),
    {
        registry.register(backend);
        controls.add(RawHeap { hint, claim_policy }, backend)
    }

    pub fn identity(&self) -> (identity: usize)
        ensures
            identity == self.identity,
    {
        self.identity
    }

    pub fn is_claimed(&self, controls: &Controls) -> (claimed: bool)
        requires
            controls.has(self.identity),
        ensures
            claimed == controls.of(self.identity).active,
    {
        controls.controls[self.identity - 1].active
    }

    /// Starts an inspection. A heap that is active on this thread, or that may be shared, is
    /// inspected as it is; another one is claimed first.
    pub fn begin_access(&self, controls: &mut Controls, context: &ThreadContext) -> (granted: Access)
        requires
            old(controls).has(self.identity),
            old(controls).wf(),
        ensures
            final(controls).wf(),
            granted == access(old(controls).of(self.identity), context.claimed@.contains(self.identity)),
            if granted == Access::Claimed {
                final(controls).with(
                    old(controls),
                    self.identity,
                    HeapControl { active: true, ..old(controls).of(self.identity) },
                )
            } else {
                final(controls).controls@ == old(controls).controls@
            },
    {
        let active_here: bool = context.is_claimed(self.identity);
        let policy = controls.controls[self.identity - 1].claim_policy;
        let shared: bool = match policy {
            ClaimPolicy::Shared => true,
            ClaimPolicy::Exclusive => false,
        };
        if active_here || shared {
            return Access::Granted(active_here);
        }
        let ghost before = controls.controls@;
        if controls.claim(self.identity) {
            Access::Claimed
        } else {
            assert(controls.controls@ =~= before);
            Access::Busy
        }
    }

    /// Ends an inspection.
    pub fn end_access(&self, controls: &mut Controls, access: Access)
        requires
            old(controls).has(self.identity),
            old(controls).wf(),
        ensures
            final(controls).wf(),
            if access == Access::Claimed {
                final(controls).with(
                    old(controls),
                    self.identity,
                    HeapControl { active: false, ..old(controls).of(self.identity) },
                )
            } else {
                final(controls).controls@ == old(controls).controls@
            },
    {
        match access {
            Access::Claimed => {
                let _was_active: bool = controls.release(self.identity);
            },
            Access::Granted(_) => {},
            Access::Busy => {},
        }
    }

    /// The usage that an allocator reported, or why it reported none.
    pub fn usage(reported: Option<Usage>) -> (usage: Result<Usage, Error>)
        ensures
            match reported {
                Some(reported) => usage == Ok::<Usage, Error>(reported),
                None => usage == Err::<Usage, Error>(Error::UsageUnavailable),
            },
    {
        match reported {
            Some(usage) => Ok(usage),
            None => Err(Error::UsageUnavailable),
        }
    }
}

/// What asking for a heap leaves: a control for it where the allocator made one.
pub open spec fn made(
    raw: Result<RawHeap, CreationError>,
    backend: Backend,
    before: Seq<HeapControl>,
    after: Seq<HeapControl>,
    heap: Result<Heap, CreationError>,
) -> bool {
    match raw {
        Ok(raw) => {
            &&& heap is Ok
            &&& heap->Ok_0.identity == before.len() + 1
            &&& after == before.push(
                HeapControl { active: false, claim_policy: raw.claim_policy, hint: raw.hint, backend, handles: 1 },
            )
        },
        Err(error) => heap == Err::<Heap, CreationError>(error) && after == before,
    }
}

/// The options of a bump heap with pooled backing state.
pub open spec fn pooled(options: bump::Options, domain: Option<Domain>) -> Options {
    Options { kind: Kind::Bump(options), domain, creation_policy: CreationPolicy::ThreadPool }
}

/// A handle through which other threads allocate for the current one.
pub fn thread_heap<F: FnOnce() -> Option<RawHeap>>(registry: &Registry, controls: &mut Controls, create: F) -> (heap: Option<Heap>)
    requires
        old(controls).wf(),
        create.requires(()),
        forall|raw: Option<RawHeap>| #[trigger] create.ensures((), raw) ==> (raw matches Some(raw) ==> raw.hint.target != 0),
    ensures
        final(controls).wf(),
        registry.backend is None ==> heap is None && final(controls).controls@ == old(controls).controls@,
        registry.backend matches Some(backend) ==> exists|raw: Option<RawHeap>| #[trigger] create.ensures((), raw) && match raw {
            Some(raw) => heap is Some && made(
                Ok(raw),
                backend,
                old(controls).controls@,
                final(controls).controls@,
                Ok(heap->0),
            ),
            None => heap is None && final(controls).controls@ == old(controls).controls@,
        },
{
    match registry.backend {
        None => None,
        Some(backend) => {
            let raw = create();
            assert(create.ensures((), raw));
            match raw {
                Some(raw) => Some(controls.add(raw, backend)),
                None => None,
            }
        },
    }
}

/// The heaps once handles of one of them were made and dropped, in that order: made where `changes` has
/// `true`.
pub open spec fn handles_changed(controls: Seq<HeapControl>, identity: usize, changes: Seq<bool>) -> Seq<HeapControl>
    decreases changes.len(),
{
    if changes.len() == 0 {
        controls
    } else {
        Controls::handled(
            handles_changed(controls, identity, changes.drop_last()),
            identity,
            if changes.last() {
                1
            } else {
                -1
            },
        )
    }
}

/// Whether there is a handle left for each of the changes to start from.
pub open spec fn handles_suffice(controls: Seq<HeapControl>, identity: usize, changes: Seq<bool>) -> bool
    decreases changes.len(),
{
    changes.len() == 0 || (handles_suffice(controls, identity, changes.drop_last()) && 0 < handles_changed(
        controls,
        identity,
        changes.drop_last(),
    )[identity - 1].handles < usize::MAX)
}

/// How often one of the changes was the end of the last handle.
pub open spec fn destructions(controls: Seq<HeapControl>, identity: usize, changes: Seq<bool>) -> int
    decreases changes.len(),
{
    if changes.len() == 0 {
        0
    } else {
        let before = handles_changed(controls, identity, changes.drop_last());
        destructions(controls, identity, changes.drop_last()) + (if !changes.last() && before[identity - 1].handles == 1 {
            1int
        } else {
            0
        })
    }
}

/// However its handles are made and dropped, a heap is destroyed once, and just when none is left.
pub proof fn law_a_heap_is_destroyed_once(controls: Seq<HeapControl>, identity: usize, changes: Seq<bool>)
    requires
        0 < identity <= controls.len(),
        controls[identity - 1].handles > 0,
        handles_suffice(controls, identity, changes),
    ensures
        destructions(controls, identity, changes) == (if handles_changed(controls, identity, changes)[identity - 1].handles == 0 {
            1int
        } else {
            0
        }),
        handles_changed(controls, identity, changes).len() == controls.len(),
        handles_changed(controls, identity, changes)[identity - 1].hint == controls[identity - 1].hint,
    decreases changes.len(),
{
    if changes.len() > 0 {
        law_a_heap_is_destroyed_once(controls, identity, changes.drop_last());
    }
}

/// A heap that is active on the thread, or that may be shared, is inspected as it is. One that is active on
/// no thread is claimed for it, and one that another thread has claimed is waited for.
pub proof fn law_inspections_do_not_disturb_other_threads(control: HeapControl, active_here: bool)
    ensures
        active_here ==> access(control, active_here) == Access::Granted(true),
        !active_here && control.claim_policy == ClaimPolicy::Shared ==> access(control, active_here) == Access::Granted(false),
        !active_here && control.claim_policy == ClaimPolicy::Exclusive ==> if control.active {
            access(control, active_here) == Access::Busy
        } else {
            access(control, active_here) == Access::Claimed
        },
{
}

} // verus!
