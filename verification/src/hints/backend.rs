//! The allocator that serves hints, and the targets that it names.

use vstd::prelude::*;

verus! {

/// The allocator's target of a hint scope. Address 0 stands for the process-wide target.
#[derive(Clone, Copy, Debug, PartialEq, Eq, Structural)]
pub struct RawHint {
    pub target: usize,
    pub kind: usize,
}

pub open spec fn global_hint() -> RawHint {
    RawHint { target: 0, kind: 0 }
}

impl RawHint {
    pub fn global() -> (hint: RawHint)
        ensures
            hint == global_hint(),
    {
        RawHint { target: 0, kind: 0 }
    }

    pub fn new(target: usize, kind: usize) -> (hint: RawHint)
        ensures
            hint.target == target,
            hint.kind == kind,
    {
        RawHint { target, kind }
    }

    pub fn target(self) -> (target: usize)
        ensures
            target == self.target,
    {
        self.target
    }

    pub fn kind(self) -> (kind: usize)
        ensures
            kind == self.kind,
    {
        self.kind
    }

    pub fn is_global(self) -> (global: bool)
        ensures
            global == (self.target == 0),
    {
        self.target == 0
    }
}

#[derive(Clone, Copy, Debug, PartialEq, Eq, Structural)]
pub struct RawDomain {
    pub target: usize,
}

impl RawDomain {
    pub fn new(target: usize) -> (domain: RawDomain)
        ensures
            domain.target == target,
    {
        RawDomain { target }
    }

    pub fn target(self) -> (target: usize)
        ensures
            target == self.target,
    {
        self.target
    }
}

/// How many scopes may use a heap at a time.
#[derive(Clone, Copy, Debug, PartialEq, Eq, Structural)]
pub enum ClaimPolicy {
    Shared,
    /// One thread, or one outermost scope.
    Exclusive,
}

#[derive(Clone, Copy, Debug, PartialEq, Eq, Structural)]
pub struct RawHeap {
    pub hint: RawHint,
    pub claim_policy: ClaimPolicy,
}

impl RawHeap {
    pub fn new(hint: RawHint, claim_policy: ClaimPolicy) -> (heap: RawHeap)
        ensures
            heap.hint == hint,
            heap.claim_policy == claim_policy,
    {
        RawHeap { hint, claim_policy }
    }
}

/// An allocator, by an identity that no other allocator has.
#[derive(Clone, Copy, Debug, PartialEq, Eq, Structural)]
pub struct Backend {
    pub identity: usize,
}

impl Backend {
    pub fn new(identity: usize) -> (backend: Backend)
        ensures
            backend.identity == identity,
    {
        Backend { identity }
    }
}

/// The process's allocator, once one is known.
#[derive(Clone, Copy, Debug, PartialEq, Eq, Structural)]
pub struct Registry {
    pub backend: Option<Backend>,
}

impl Registry {
    /// Whether `backend` can be the process's allocator.
    pub open spec fn admits(&self, backend: Backend) -> bool {
        self.backend is None || self.backend == Some(backend)
    }

    pub fn new() -> (registry: Registry)
        ensures
            registry.backend is None,
    {
        Registry { backend: None }
    }

    pub fn accepts(&self, backend: Backend) -> (accepted: bool)
        ensures
            accepted == self.admits(backend),
    {
        match self.backend {
            None => true,
            Some(current) => current.identity == backend.identity,
        }
    }

    /// Makes `backend` the process's allocator, which it stays.
    pub fn register(&mut self, backend: Backend)
        requires
            old(self).admits(backend),
        ensures
            final(self).backend == Some(backend),
    {
        self.backend = Some(backend);
    }

    pub fn installed(&self) -> (backend: Option<Backend>)
        ensures
            backend == self.backend,
    {
        self.backend
    }
}

} // verus!
