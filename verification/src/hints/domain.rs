//! Domains as the callers of an allocator hold them.

use vstd::prelude::*;

use crate::hints::backend::{Backend, RawDomain, Registry};

verus! {

/// A domain of the process's allocator, which lives as long as the process.
#[derive(Clone, Copy, Debug, PartialEq, Eq, Structural)]
pub struct Domain {
    pub target: RawDomain,
    pub backend: Backend,
}

impl Domain {
    /// The domain that the allocator was asked for. There must be an allocator, and it must
    /// have made one.
    pub fn new<F: FnOnce() -> Option<RawDomain>>(registry: &Registry, create_domain: F) -> (domain: Domain)
        requires
            registry.backend is Some,
            create_domain.requires(()),
            forall|raw: Option<RawDomain>| #[trigger] create_domain.ensures((), raw) ==> raw is Some && raw->0.target != 0,
        ensures
            create_domain.ensures((), Some(domain.target)),
            domain.target.target != 0,
            Some(domain.backend) == registry.backend,
    {
        let raw = create_domain();
        assert(create_domain.ensures((), raw));
        Domain { target: raw.unwrap(), backend: registry.backend.unwrap() }
    }

    /// The domain that the allocator was asked for, where there is an allocator and it made one.
    pub fn try_new<F: FnOnce() -> Option<RawDomain>>(registry: &Registry, create_domain: F) -> (domain: Option<Domain>)
        requires
            create_domain.requires(()),
        ensures
            registry.backend is None ==> domain is None,
            registry.backend matches Some(backend) ==> exists|raw: Option<RawDomain>|
                #![trigger create_domain.ensures((), raw)]
                create_domain.ensures((), raw) && domain == (match raw {
                    Some(raw) => if raw.target == 0 {
                        None
                    } else {
                        Some(Domain { target: raw, backend })
                    },
                    None => None::<Domain>,
                }),
    {
        match registry.backend {
            None => None,
            Some(backend) => {
                let raw = create_domain();
                assert(create_domain.ensures((), raw));
                Domain::created(raw, backend)
            },
        }
    }

    /// The domain for what an allocator answered.
    pub fn created(raw: Option<RawDomain>, backend: Backend) -> (domain: Option<Domain>)
        ensures
            domain == (match raw {
                Some(raw) => if raw.target == 0 {
                    None
                } else {
                    Some(Domain { target: raw, backend })
                },
                None => None::<Domain>,
            }),
    {
        match raw {
            Some(raw) => if raw.target == 0 {
                None
            } else {
                Some(Domain { target: raw, backend })
            },
            None => None,
        }
    }

    pub fn from_raw(raw: RawDomain, backend: Backend) -> (domain: Domain)
        requires
            raw.target != 0,
        ensures
            domain == (Domain { target: raw, backend }),
    {
        Domain { target: raw, backend }
    }

    /// The allocator's domain. The allocator must be the one that the domain belongs to.
    pub fn raw_for(self, backend: Backend) -> (raw: RawDomain)
        requires
            self.backend == backend,
        ensures
            raw == self.target,
    {
        self.target
    }

    /// The allocator's default domain.
    pub fn standard(registry: &Registry, default_domain: RawDomain) -> (domain: Domain)
        requires
            registry.backend is Some,
            default_domain.target != 0,
        ensures
            domain.target == default_domain,
            Some(domain.backend) == registry.backend,
    {
        Domain { target: default_domain, backend: registry.backend.unwrap() }
    }
}

} // verus!
