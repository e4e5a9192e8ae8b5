//! The allocator of a process: its space, the heaps that hints name, and the pools of bump heaps.

use vstd::prelude::*;

use crate::allocator::arenas::fresh_region;
use crate::allocator::births::{goes_on, lists_nothing};
use crate::allocator::bump::{
    dropped_chunks, finished, kept_chunks, BumpRelease, BumpState, BumpUsage, BUMP_CHUNK_SIZE,
};
use crate::allocator::bumps::{chunk_recorded, lemma_bump_step, let_go, same_but_bump, trimmed_of};
use crate::allocator::classes::{MEDIUM_REGION_SIZE, MEDIUM_SLICE_SIZE};
use crate::allocator::lives::{lemma_only_now, uses_only};
use crate::allocator::mediums::mediums_kept;
use crate::allocator::remote::{no_remote_usage, RemoteHeap};
use crate::allocator::serving::{lemma_spans_only, lemma_spans_still, names_kept, step_kept};
use crate::allocator::slab::SlabModel;
use crate::allocator::space::{bump_ok, is_domain, lemma_one_heap, Holding, Space, User};
use crate::allocator::thread_heaps::{chunks_pending, slice_pending, slice_taken, span_returned};
use crate::allocator::threads::{ThreadState, THREAD_BUMP_POOL};
use crate::allocator::usage::{checked_heap_usage, general_heap_usage, heap_sums, heap_usage};
use crate::allocator::uses::{bumps_kept, lemma_whole_goes_on, smalls_kept, uses_kept, Block};
use crate::hints::{bump, general, Error};
use crate::hints::backend::{Backend, ClaimPolicy, RawDomain, RawHeap, RawHint};
use crate::hints::domain::Domain;
use crate::hints::heap::{CreationError, CreationPolicy, Info, InfoKind, Kind, Options, Usage, UsageKind};
use crate::tunables::Tuning;

verus! {

pub const TARGET_GENERAL: usize = 1;
pub const TARGET_BUMP: usize = 2;
pub const TARGET_THREAD: usize = 3;

/// The heap that a hint names.
#[derive(Clone, Copy, Debug, PartialEq, Eq, Structural)]
pub enum HeapTarget {
    General { heap: usize },
    Bump { bump: usize },
    Thread { remote: usize },
}

/// Whether the hint is one of this allocator's.
pub open spec fn valid_hint(hint: RawHint) -> bool {
    if hint.target == 0 {
        hint.kind == 0
    } else {
        hint.kind == TARGET_GENERAL || hint.kind == TARGET_BUMP || hint.kind == TARGET_THREAD
    }
}

/// The heap that the hint names.
pub open spec fn target_of(hint: RawHint) -> Option<HeapTarget> {
    if hint.kind == TARGET_GENERAL {
        Some(HeapTarget::General { heap: hint.target })
    } else if hint.kind == TARGET_BUMP {
        Some(HeapTarget::Bump { bump: hint.target })
    } else if hint.kind == TARGET_THREAD {
        Some(HeapTarget::Thread { remote: hint.target })
    } else {
        None
    }
}

pub open spec fn hint_to(target: HeapTarget) -> RawHint {
    match target {
        HeapTarget::General { heap } => RawHint { target: heap, kind: TARGET_GENERAL },
        HeapTarget::Bump { bump } => RawHint { target: bump, kind: TARGET_BUMP },
        HeapTarget::Thread { remote } => RawHint { target: remote, kind: TARGET_THREAD },
    }
}

pub fn target_from_hint(hint: RawHint) -> (target: Option<HeapTarget>)
    requires
        valid_hint(hint),
    ensures
        target == target_of(hint),
{
    if hint.kind == TARGET_GENERAL {
        Some(HeapTarget::General { heap: hint.target })
    } else if hint.kind == TARGET_BUMP {
        Some(HeapTarget::Bump { bump: hint.target })
    } else if hint.kind == TARGET_THREAD {
        Some(HeapTarget::Thread { remote: hint.target })
    } else {
        None
    }
}

pub fn raw_hint(target: HeapTarget) -> (hint: RawHint)
    ensures
        hint == hint_to(target),
{
    match target {
        HeapTarget::General { heap } => RawHint::new(heap, TARGET_GENERAL),
        HeapTarget::Bump { bump } => RawHint::new(bump, TARGET_BUMP),
        HeapTarget::Thread { remote } => RawHint::new(remote, TARGET_THREAD),
    }
}

/// A hint names the heap that it was made for.
pub proof fn law_hints_name_their_heap(target: HeapTarget)
    requires
        match target {
            HeapTarget::General { heap } => heap != 0,
            HeapTarget::Bump { bump } => bump != 0,
            HeapTarget::Thread { remote } => remote != 0,
        },
    ensures
        valid_hint(hint_to(target)),
        target_of(hint_to(target)) == Some(target),
{
}

/// The work on a bump heap that holds no blocks keeps the blocks in use.
pub proof fn lemma_empty_bump_kept(before: Space, after: Space, bump: int)
    requires
        before.whole(),
        after.inv(),
        0 <= bump < before.bumps@.len(),
        same_but_bump(before, after, bump),
        after.domains == before.domains,
        after.bumps@[bump].wf() && after.bumps@[bump].live == before.bumps@[bump].live || forall|address: int|
            !#[trigger] before.bumps@[bump].live@.dom().contains(address),
    ensures
        step_kept(before, after),
{
    assert(smalls_kept(before, after));
    assert(mediums_kept(before.domains@, after.domains@));
    assert(bumps_kept(before.bumps@, after.bumps@)) by {
        assert forall|at: int, address: int|
            #![trigger before.bumps@[at].live@.dom().contains(address)]
            0 <= at < before.bumps@.len() && before.bumps@[at].wf() && before.bumps@[at].live@.dom().contains(address) implies {
            &&& after.bumps@[at].wf()
            &&& after.bumps@[at].live@.dom().contains(address)
            &&& after.bumps@[at].live@[address] == before.bumps@[at].live@[address]
        } by {
            if at != bump {
                assert(after.bumps@[at] == before.bumps@[at]);
            }
        }
    }
    lemma_whole_goes_on(before, after);
}

impl Space {
    /// Takes the heap away that serves what a pooled bump heap does not. Gives its name, or 0.
    pub fn take_bump_fallback(&mut self, bump: usize) -> (heap: usize)
        requires
            old(self).whole(),
            bump < old(self).bumps@.len(),
            old(self).bumps@[bump as int].pooled(),
        ensures
            step_kept(*old(self), *final(self)),
            heap == old(self).bumps@[bump as int].fallback_heap,
            final(self).bumps@ == old(self).bumps@.update(
                bump as int,
                BumpState { fallback_heap: 0, ..old(self).bumps@[bump as int] },
            ),
            *final(self) == (Space { bumps: final(self).bumps, ..*old(self) }),
    {
        let ghost before = *self;
        assert(bump_ok(self.bumps@[bump as int]));
        let heap: usize = self.bumps[bump].take_fallback_heap();
        proof {
            assert(let_go(before.holdings@, Seq::empty()) =~= before.holdings@);
            lemma_bump_step(before, *self, bump as int, Seq::empty());
            lemma_empty_bump_kept(before, *self, bump as int);
        }
        heap
    }

    /// Gives a pooled bump heap a heap that serves what it does not, where it has none.
    pub fn ensure_bump_fallback(&mut self, bump: usize, reply: usize) -> (present: bool)
        requires
            old(self).whole(),
            bump < old(self).bumps@.len(),
            old(self).bumps@[bump as int].pooled(),
        ensures
            step_kept(*old(self), *final(self)),
            present == (old(self).bumps@[bump as int].fallback_heap != 0 || reply != 0),
            final(self).bumps@ == old(self).bumps@.update(
                bump as int,
                BumpState {
                    fallback_heap: (if old(self).bumps@[bump as int].fallback_heap != 0 {
                        old(self).bumps@[bump as int].fallback_heap
                    } else {
                        reply
                    }),
                    ..old(self).bumps@[bump as int]
                },
            ),
            *final(self) == (Space { bumps: final(self).bumps, ..*old(self) }),
    {
        let ghost before = *self;
        assert(bump_ok(self.bumps@[bump as int]));
        let present: bool = self.bumps[bump].ensure_fallback_heap(reply);
        proof {
            assert(let_go(before.holdings@, Seq::empty()) =~= before.holdings@);
            lemma_bump_step(before, *self, bump as int, Seq::empty());
            lemma_empty_bump_kept(before, *self, bump as int);
        }
        present
    }

    /// Readies a pooled bump heap for its next use. Gives the chunks that it let go of.
    pub fn renew_bump(&mut self, bump: usize, options: bump::Options) -> (trimmed: Vec<usize>)
        requires
            old(self).whole(),
            bump < old(self).bumps@.len(),
            old(self).bumps@[bump as int].pooled(),
            old(self).bumps@[bump as int].fallback_heap != 0,
            options.valid(),
        ensures
            step_kept(*old(self), *final(self)),
            same_but_bump(*old(self), *final(self), bump as int),
            final(self).holdings@ == let_go(old(self).holdings@, trimmed@),
            final(self).domains == old(self).domains,
            final(self).bumps@[bump as int].wf(),
            final(self).bumps@[bump as int].renewed(&old(self).bumps@[bump as int], options),
            trimmed@ == old(self).bumps@[bump as int].renewal_drops(options),
            chunks_pending(*final(self), old(self).bumps@[bump as int].domain, trimmed@),
    {
        let ghost before = *self;
        let trimmed: Vec<usize> = self.reset_bump(bump, options);
        proof {
            lemma_empty_bump_kept(before, *self, bump as int);
        }
        trimmed
    }

    /// Lets go of the handle of a bump heap.
    pub fn drop_bump_handle(&mut self, bump: usize) -> (release: BumpRelease)
        requires
            old(self).whole(),
            bump < old(self).bumps@.len(),
            old(self).bumps@[bump as int].wf(),
            !old(self).bumps@[bump as int].handle_released,
        ensures
            step_kept(*old(self), *final(self)),
            same_but_bump(*old(self), *final(self), bump as int),
            final(self).holdings@ == let_go(old(self).holdings@, trimmed_of(release)),
            final(self).bumps@[bump as int].handle_released,
            release is InUse <==> old(self).bumps@[bump as int].live@.dom().len() != 0,
            final(self).domains == old(self).domains,
            final(self).bumps@[bump as int].let_go_of(&old(self).bumps@[bump as int], release),
            release is Finished ==> final(self).bumps@[bump as int].pooled(),
            chunks_pending(*final(self), old(self).bumps@[bump as int].domain, trimmed_of(release)),
    {
        let ghost before = *self;
        let release: BumpRelease = self.release_bump_handle(bump);
        proof {
            let live = before.bumps@[bump as int].live@;
            if release is Finished {
                assert forall|address: int| !#[trigger] live.dom().contains(address) by {
                    assert(live.dom() =~= Set::empty());
                }
            }
            lemma_empty_bump_kept(before, *self, bump as int);
        }
        release
    }

    /// Gives a chunk back that a bump heap let go of, once its memory is decommitted. One that could
    /// not be decommitted stays taken.
    pub fn settle_chunk(&mut self, domain: usize, chunk: usize, decommitted: bool)
        requires
            old(self).whole(),
            slice_pending(*old(self), domain, chunk),
        ensures
            step_kept(*old(self), *final(self)),
            uses_only(*old(self), *final(self), None),
            if decommitted {
                span_returned(*old(self), *final(self), domain, chunk, 1)
            } else {
                *final(self) == *old(self)
            },
    {
        let ghost before = *self;
        if decommitted {
            self.give_slice_back(domain, chunk);
            proof {
                lemma_spans_only(before, *self);
                lemma_spans_still(before, *self);
            }
        } else {
            proof {
                lemma_only_now(before);
            }
        }
    }
}

/// The allocator of a process.
pub struct Rallocator {
    pub space: Space,
    pub default_domain: usize,
    /// The bump heaps that wait for a thread to use them, newest last.
    pub bump_pool: Vec<usize>,
    pub backend: Backend,
}

impl Rallocator {
    /// Whether everything is in order.
    pub open spec fn wf(&self) -> bool {
        &&& self.space.whole()
        &&& is_domain(self.space.domains@, self.default_domain)
    }

    /// The allocator of a process that has allocated nothing, with its default domain.
    pub fn new(tuning: Tuning, backend: Backend) -> (rallocator: Rallocator)
        requires
            tuning.wf(),
        ensures
            rallocator.wf(),
            rallocator.space.tuning == tuning,
            rallocator.default_domain == 1,
            rallocator.space.domains@.len() == 1,
            rallocator.space.domains@[0].is_default,
            rallocator.space.domains@[0].id == 1,
            rallocator.space.domains@[0].regions@.len() == 0,
            rallocator.space.heaps@.len() == 0,
            rallocator.space.remotes@.len() == 0,
            rallocator.space.bumps@.len() == 0,
            rallocator.space.records.extras@.len() == 0,
            rallocator.space.slabs@ == Map::<usize, SlabModel>::empty(),
            rallocator.space.holdings@ == Map::<usize, Holding>::empty(),
            rallocator.space.mapped@ == Map::<usize, int>::empty(),
            forall|block: Block| !#[trigger] rallocator.space.uses(block),
            rallocator.bump_pool@.len() == 0,
            rallocator.backend == backend,
    {
        let mut space: Space = Space::new(tuning);
        let ghost empty = space;
        let default_domain: usize = space.add_domain(true);
        proof {
            assert forall|block: Block| !#[trigger] space.uses(block) by {
                assert(!empty.uses(block));
            }
        }
        Rallocator { space, default_domain, bump_pool: Vec::new(), backend }
    }

    /// Makes a domain.
    pub fn create_domain(&mut self) -> (domain: RawDomain)
        requires
            old(self).wf(),
            old(self).space.domains@.len() < usize::MAX,
        ensures
            final(self).wf(),
            domain.target == old(self).space.domains@.len() + 1,
            final(self).space.domains@.len() == domain.target,
            !final(self).space.domains@[domain.target - 1].is_default,
            final(self).space.domains@[domain.target - 1].id == domain.target,
            final(self).space.domains@[domain.target - 1].regions@.len() == 0,
            final(self).space == (Space { domains: final(self).space.domains, ..old(self).space }),
            final(self).backend == old(self).backend,
            goes_on(old(self).space.domains@, final(self).space.domains@),
            uses_kept(old(self).space, final(self).space),
            final(self).default_domain == old(self).default_domain,
            final(self).bump_pool == old(self).bump_pool,
    {
        let id: usize = self.space.add_domain(false);
        RawDomain::new(id)
    }

    /// The domain that threads allocate from where they name none.
    pub fn default_domain(&self) -> (domain: RawDomain)
        ensures
            domain.target == self.default_domain,
    {
        RawDomain::new(self.default_domain)
    }
}

impl ThreadState {
    /// Makes a hint's heap the one that serves the thread.
    pub fn set_active_hint(&mut self, space: &Space, hint: RawHint)
        requires
            valid_hint(hint),
        ensures
            match target_of(hint) {
                Some(HeapTarget::General { heap }) => final(self).serves_with(old(self), heap, 0, 0),
                Some(HeapTarget::Bump { bump }) => forall|at: int|
                    #[trigger] space.is_bump(at, bump) && (forall|other: int| #[trigger] space.is_bump(other, bump) ==> other == at)
                        ==> final(self).serves_with(old(self), space.bumps@[at].fallback_heap, bump, 0),
                Some(HeapTarget::Thread { remote }) => final(self).serves_with(old(self), 0, 0, remote),
                None => final(self).serves_with(old(self), 0, 0, 0),
            },
    {
        self.active_heap = 0;
        self.active_bump = 0;
        self.active_remote = 0;
        match target_from_hint(hint) {
            Some(HeapTarget::General { heap }) => {
                self.active_heap = heap;
            },
            Some(HeapTarget::Bump { bump }) => {
                match space.find_bump(bump) {
                    Some(at) => {
                        self.active_heap = space.bumps[at].fallback_heap;
                    },
                    None => {},
                }
                self.active_bump = bump;
            },
            Some(HeapTarget::Thread { remote }) => {
                self.active_remote = remote;
            },
            None => {},
        }
    }

    /// Whether nothing but the heaps that serve the thread may differ, and those are these.
    pub open spec fn serves_with(&self, other: &ThreadState, heap: usize, bump: usize, remote: usize) -> bool {
        &&& self.active_heap == heap
        &&& self.active_bump == bump
        &&& self.active_remote == remote
        &&& self.tearing_down == other.tearing_down
        &&& self.token == other.token
        &&& self.default_heap == other.default_heap
        &&& self.remote_heap == other.remote_heap
        &&& self.bump_pool == other.bump_pool
    }
}

/// A bump heap that nothing refers to waits for its next use.
proof fn lemma_idle_bump(bump: BumpState)
    requires
        bump_ok(bump),
        bump.references == 0,
    ensures
        bump.pooled(),
{
    if bump.wf() {
        assert(bump.live@.dom().len() == 0);
        assert(bump.live@.dom() =~= Set::empty());
        assert(bump.live@ =~= Map::<int, int>::empty());
        if bump.headers@.len() > 0 {
            assert(bump.live@.dom().contains(bump.headers@[0].address as int));
        }
    }
}

/// Whether the bump heap of that name waits for its next use in the domain.
pub open spec fn idle_in_domain(space: Space, bump: usize, domain: usize) -> bool {
    exists|at: int| #[trigger] space.is_bump(at, bump) && space.bumps@[at].domain == domain && space.bumps@[at].references == 0
}

/// Whether one of the named bump heaps waits for its next use in the domain.
pub open spec fn waits(space: Space, pool: Seq<usize>, domain: usize) -> bool {
    exists|index: int| 0 <= index < pool.len() && idle_in_domain(space, #[trigger] pool[index], domain)
}

/// Whether the pool names the bump heap there, and none that waits in the domain before it.
pub open spec fn first_idle(space: Space, pool: Seq<usize>, domain: usize, index: int, bump: int) -> bool {
    &&& 0 <= index < pool.len()
    &&& pool[index] == space.bumps@[bump].address
    &&& forall|earlier: int| 0 <= earlier < index ==> !idle_in_domain(space, #[trigger] pool[earlier], domain)
}

/// Whether the pool names the bump heap there, and none that waits in the domain after it.
pub open spec fn last_idle(space: Space, pool: Seq<usize>, domain: usize, index: int, bump: int) -> bool {
    &&& 0 <= index < pool.len()
    &&& pool[index] == space.bumps@[bump].address
    &&& forall|later: int| index < later < pool.len() ==> !idle_in_domain(space, #[trigger] pool[later], domain)
}

/// Whether a bump heap that waits in the domain was taken out of the pools: the first of the thread's,
/// whose place the last takes, or where none of those waits there, the last of the process's.
pub open spec fn unpooled(
    space: Space,
    own: Seq<usize>,
    common: Seq<usize>,
    own_after: Seq<usize>,
    common_after: Seq<usize>,
    domain: usize,
    bump: int,
) -> bool {
    &&& 0 <= bump < space.bumps@.len()
    &&& space.bumps@[bump].pooled()
    &&& space.bumps@[bump].domain == domain
    &&& if waits(space, own, domain) {
        &&& common_after == common
        &&& exists|index: int|
            #[trigger] first_idle(space, own, domain, index, bump) && own_after == own.update(index, own.last()).drop_last()
    } else {
        &&& own_after == own
        &&& exists|index: int| #[trigger] last_idle(space, common, domain, index, bump) && common_after == common.remove(index)
    }
}

/// Whether a bump heap was put into the thread's pool, or into the process's where that is full.
pub open spec fn repooled(own: Seq<usize>, common: Seq<usize>, own_after: Seq<usize>, common_after: Seq<usize>, name: usize) -> bool {
    if own.len() < THREAD_BUMP_POOL {
        own_after == own.push(name) && common_after == common
    } else {
        own_after == own && common_after == common.push(name)
    }
}

/// How far a heap that is being made has come.
pub enum CreateStep {
    Failed,
    /// The storage of a general-purpose heap is to be mapped: go on with `finish_general`.
    General { options: general::Options, domain: usize },
    /// A chunk is to be committed: go on with `finish_chunk`.
    Chunk { options: bump::Options, domain: usize, chunk: usize },
    /// The storage of the heap that serves what the bump heap in the chunk does not is to be mapped:
    /// go on with `finish_bump`.
    Fallback { options: bump::Options, domain: usize, chunk: usize },
    /// The storage of the heap that serves what a pooled bump heap does not is to be mapped, where
    /// it has none: go on with `finish_pooled`.
    Pooled { options: bump::Options, bump: usize },
    /// A chunk is to be decommitted, which ends in failure: go on with `settle_chunk`.
    Release { domain: usize, chunk: usize },
    /// The heap is there. The chunks are to be decommitted: go on with `settle_chunk` for each.
    Created { heap: RawHeap, domain: usize, trimmed: Vec<usize> },
}

/// Whether the making of a heap can go on from the step.
pub open spec fn create_ok(rallocator: Rallocator, step: CreateStep) -> bool {
    let space = rallocator.space;
    match step {
        CreateStep::Failed => true,
        CreateStep::General { options, domain } => is_domain(space.domains@, domain) && MEDIUM_SLICE_SIZE
            <= options.locality_segment_bytes <= MEDIUM_REGION_SIZE,
        CreateStep::Chunk { options, domain, chunk } => options.valid() && slice_pending(space, domain, chunk),
        CreateStep::Fallback { options, domain, chunk } => options.valid() && slice_pending(space, domain, chunk),
        CreateStep::Pooled { options, bump } => options.valid() && bump < space.bumps@.len() && space.bumps@[bump as int].references
            == 0,
        CreateStep::Release { domain, chunk } => slice_pending(space, domain, chunk),
        CreateStep::Created { heap, domain, trimmed } => {
            &&& heap.claim_policy == ClaimPolicy::Exclusive
            &&& valid_hint(heap.hint)
            &&& match target_of(heap.hint) {
                Some(HeapTarget::General { heap }) => space.has_heap(heap),
                Some(HeapTarget::Bump { bump }) => exists|at: int|
                    #[trigger] space.is_bump(at, bump) && space.bumps@[at].wf() && space.bumps@[at].fallback_heap != 0,
                _ => false,
            }
        },
    }
}

/// The domain that the options name.
pub open spec fn domain_of(rallocator: Rallocator, options: Options) -> usize {
    match options.domain {
        Some(domain) => domain.target.target,
        None => rallocator.default_domain,
    }
}

/// Whether nothing but the space and the pools may differ.
pub open spec fn same_process(before: Rallocator, after: Rallocator) -> bool {
    &&& after.default_domain == before.default_domain
    &&& after.backend == before.backend
}

impl Space {
    /// The place of the bump heap where it waits for its next use in the domain.
    pub fn find_idle(&self, bump: usize, domain: usize) -> (found: Option<usize>)
        requires
            self.whole(),
        ensures
            found is Some <==> idle_in_domain(*self, bump, domain),
            found matches Some(at) ==> self.is_bump(at as int, bump) && self.bumps@[at as int].domain == domain
                && self.bumps@[at as int].pooled(),
    {
        match self.find_bump(bump) {
            None => None,
            Some(at) => {
                proof {
                    assert(bump_ok(self.bumps@[at as int]));
                    if self.bumps@[at as int].references == 0 {
                        lemma_idle_bump(self.bumps@[at as int]);
                    }
                    lemma_one_bump_name(*self, at as int, bump);
                }
                if self.bumps[at].domain == domain && self.bumps[at].references == 0 {
                    Some(at)
                } else {
                    None
                }
            },
        }
    }
}

/// Takes the last of the named bump heaps that wait for their next use in the domain.
pub fn take_matching_state(space: &Space, pool: &mut Vec<usize>, domain: usize) -> (found: Option<usize>)
    requires
        space.whole(),
    ensures
        found is Some <==> waits(*space, old(pool)@, domain),
        match found {
            None => *final(pool) == *old(pool),
            Some(at) => {
                &&& at < space.bumps@.len()
                &&& space.bumps@[at as int].pooled()
                &&& space.bumps@[at as int].domain == domain
                &&& exists|index: int|
                    #[trigger] last_idle(*space, old(pool)@, domain, index, at as int) && final(pool)@ == old(pool)@.remove(index)
            },
        },
{
    let mut left: usize = pool.len();
    while left > 0
        invariant
            space.whole(),
            *pool == *old(pool),
            left <= pool@.len(),
            forall|later: int| left <= later < pool@.len() ==> !idle_in_domain(*space, #[trigger] pool@[later], domain),
        decreases left,
    {
        left = left - 1;
        let found: Option<usize> = space.find_idle(pool[left], domain);
        if let Some(at) = found {
            let removed: usize = pool.remove(left);
            proof {
                assert(old(pool)@[left as int] == space.bumps@[at as int].address);
                assert(last_idle(*space, old(pool)@, domain, left as int, at as int));
            }
            return Some(at);
        }
    }
    None
}

impl Rallocator {
    /// Takes a bump heap that waits for its next use in the domain: the oldest of the thread's own,
    /// whose place the newest takes, or else the newest of the process's.
    pub fn take_pooled_bump(&mut self, thread: &mut ThreadState, domain: usize) -> (found: Option<usize>)
        requires
            old(self).wf(),
        ensures
            final(self).wf(),
            final(self).space == old(self).space,
            same_process(*old(self), *final(self)),
            final(thread).serves_as(old(thread)),
            found is Some <==> waits(old(self).space, old(thread).bump_pool@, domain) || waits(
                old(self).space,
                old(self).bump_pool@,
                domain,
            ),
            match found {
                None => *final(thread) == *old(thread) && *final(self) == *old(self),
                Some(at) => unpooled(
                    old(self).space,
                    old(thread).bump_pool@,
                    old(self).bump_pool@,
                    final(thread).bump_pool@,
                    final(self).bump_pool@,
                    domain,
                    at as int,
                ),
            },
    {
        let mut index: usize = 0;
        while index < thread.bump_pool.len()
            invariant
                self.wf(),
                *self == *old(self),
                *thread == *old(thread),
                index <= thread.bump_pool@.len(),
                forall|earlier: int|
                    0 <= earlier < index ==> !idle_in_domain(self.space, #[trigger] thread.bump_pool@[earlier], domain),
            decreases thread.bump_pool@.len() - index,
        {
            let found: Option<usize> = self.space.find_idle(thread.bump_pool[index], domain);
            if let Some(at) = found {
                let removed: usize = thread.bump_pool.swap_remove(index);
                assert(old(thread).bump_pool@[index as int] == self.space.bumps@[at as int].address);
                assert(first_idle(self.space, old(thread).bump_pool@, domain, index as int, at as int));
                return Some(at);
            }
            index = index + 1;
        }
        take_matching_state(&self.space, &mut self.bump_pool, domain)
    }

    /// Puts a bump heap that nothing refers to into the thread's pool, or into the process's where
    /// that is full. Gives the heap that served what it does not, which is to be retired, or 0.
    pub fn return_pooled_bump(&mut self, thread: &mut ThreadState, bump: usize) -> (retired: usize)
        requires
            old(self).wf(),
            bump < old(self).space.bumps@.len(),
            old(self).space.bumps@[bump as int].pooled(),
        ensures
            final(self).wf(),
            step_kept(old(self).space, final(self).space),
            same_process(*old(self), *final(self)),
            final(thread).serves_as(old(thread)),
            retired == old(self).space.bumps@[bump as int].fallback_heap,
            final(self).space.bumps@ == old(self).space.bumps@.update(
                bump as int,
                BumpState { fallback_heap: 0, ..old(self).space.bumps@[bump as int] },
            ),
            final(self).space == (Space { bumps: final(self).space.bumps, ..old(self).space }),
            repooled(
                old(thread).bump_pool@,
                old(self).bump_pool@,
                final(thread).bump_pool@,
                final(self).bump_pool@,
                old(self).space.bumps@[bump as int].address,
            ),
    {
        let retired: usize = self.space.take_bump_fallback(bump);
        let name: usize = self.space.bumps[bump].address;
        if thread.bump_pool.len() < THREAD_BUMP_POOL {
            thread.bump_pool.push(name);
        } else {
            self.bump_pool.push(name);
        }
        retired
    }

    /// Gives the thread its default heap in the storage, where it has none. Fails where it has none
    /// and there is no storage.
    pub fn ensure_default_heap(&mut self, thread: &mut ThreadState, storage: usize) -> (present: bool)
        requires
            old(self).wf(),
            old(thread).known(old(self).space),
            storage != 0 ==> !old(self).space.has_heap(storage),
        ensures
            final(self).wf(),
            final(thread).known(final(self).space),
            same_process(*old(self), *final(self)),
            final(self).bump_pool == old(self).bump_pool,
            step_kept(old(self).space, final(self).space),
            uses_only(old(self).space, final(self).space, None),
            present == (old(thread).default_heap != 0 || storage != 0),
            if old(thread).default_heap != 0 || storage == 0 {
                *final(self) == *old(self) && *final(thread) == *old(thread)
            } else {
                let heap = old(self).space.heaps@.len() as int;
                &&& *final(thread) == (ThreadState { default_heap: storage, ..*old(thread) })
                &&& final(self).space == (Space { heaps: final(self).space.heaps, ..old(self).space })
                &&& goes_on(old(self).space.heaps@, final(self).space.heaps@)
                &&& final(self).space.heaps@.len() == heap + 1
                &&& final(self).space.heaps@[heap].is_new(storage, general::standard_options(), old(self).default_domain, true)
            },
    {
        proof {
            lemma_only_now(self.space);
        }
        if thread.default_heap != 0 {
            return true;
        }
        if storage == 0 {
            return false;
        }
        let ghost before = *self;
        let ghost state = *thread;
        let heap: usize = self.space.add_heap(storage, general::Options::new(), self.default_domain, true);
        thread.default_heap = storage;
        proof {
            assert(names_kept(before.space, self.space));
            crate::allocator::allocation::lemma_known_kept(before.space, self.space, state);
            assert(self.space.is_heap(heap as int, storage));
            assert(uses_only(before.space, self.space, None)) by {
                reveal(uses_only);
                assert forall|block: Block| #[trigger] self.space.uses(block) implies before.space.uses(block) by {
                    if let Block::Small { block: start, context, class, requested_bytes } = block {
                        let padding = self.space.sizes()[class] - requested_bytes;
                        let at = choose|at: int| #[trigger] self.space.is_entry(at, start, padding);
                        assert(before.space.is_entry(at, start, padding));
                    }
                }
            }
        }
        true
    }

    /// The heap through which other threads allocate for the thread, made in the storage where there
    /// is none yet. Fails where there is none and no storage.
    pub fn thread_heap_state(&mut self, thread: &mut ThreadState, storage: usize) -> (remote: Option<usize>)
        requires
            old(self).wf(),
            old(thread).known(old(self).space),
            old(thread).default_heap != 0,
            storage != 0 ==> !old(self).space.has_remote(storage),
        ensures
            final(self).wf(),
            final(thread).known(final(self).space),
            same_process(*old(self), *final(self)),
            final(self).bump_pool == old(self).bump_pool,
            uses_kept(old(self).space, final(self).space),
            remote == (if final(thread).remote_heap != 0 {
                Some(final(thread).remote_heap)
            } else {
                None
            }),
            thread_heap_made(*old(self), *old(thread), *final(self), *final(thread), storage),
    {
        if thread.remote_heap != 0 {
            return Some(thread.remote_heap);
        }
        if storage == 0 {
            return None;
        }
        let ghost before = *self;
        let ghost state = *thread;
        let heap: usize = self.space.find_heap(thread.default_heap).unwrap();
        proof {
            assert(before.space.heap_ok(heap as int));
            lemma_one_heap(before.space, heap as int, thread.default_heap);
            lemma_options_fit(before.space.heaps@[heap as int]);
        }
        let options: general::Options = general::Options::from_values(
            self.space.heaps[heap].locality_segment_slices * MEDIUM_SLICE_SIZE,
            self.space.heaps[heap].medium_cache_max_bytes,
        );
        let domain: usize = self.space.heaps[heap].domain;
        let remote: usize = self.space.add_remote(storage, thread.token, thread.default_heap, domain, options);
        thread.remote_heap = storage;
        proof {
            assert(names_kept(before.space, self.space));
            crate::allocator::allocation::lemma_known_kept(before.space, self.space, state);
            assert(self.space.is_remote(remote as int, storage));
        }
        Some(storage)
    }
}

/// Whether the thread has the thread heap that it had, or else one in the storage, where that is not
/// 0: a new one in the domain of its default heap and with its options. Nothing else differs.
pub open spec fn thread_heap_made(before: Rallocator, thread: ThreadState, after: Rallocator, thread_after: ThreadState, storage: usize) -> bool {
    if thread.remote_heap != 0 || storage == 0 {
        after == before && thread_after == thread
    } else {
        let at = before.space.remotes@.len() as int;
        let made = after.space.remotes@[at];
        &&& thread_after == (ThreadState { remote_heap: storage, ..thread })
        &&& after.space == (Space { remotes: after.space.remotes, ..before.space })
        &&& goes_on(before.space.remotes@, after.space.remotes@)
        &&& after.space.remotes@.len() == at + 1
        &&& made.address == storage
        &&& made.owner_token == thread.token
        &&& made.owner_heap == thread.default_heap
        &&& made.usage == no_remote_usage()
        &&& lists_nothing(after.space, at)
        &&& forall|heap: int|
            #[trigger] before.space.is_heap(heap, thread.default_heap) ==> made.domain == before.space.heaps@[heap].domain && made.options
                == general_options(before.space.heaps@[heap])
    }
}

/// The options that a heap was made with.
pub open spec fn general_options(heap: crate::allocator::heaps::HeapState) -> general::Options {
    general::Options {
        locality_segment_bytes: (heap.locality_segment_slices * MEDIUM_SLICE_SIZE) as usize,
        medium_cache_max_bytes: heap.medium_cache_max_bytes,
    }
}

proof fn lemma_options_fit(heap: crate::allocator::heaps::HeapState)
    requires
        heap.wf(),
    ensures
        heap.locality_segment_slices * MEDIUM_SLICE_SIZE <= usize::MAX,
{
    let slices = heap.locality_segment_slices;
    assert(slices * MEDIUM_SLICE_SIZE <= 1073741824) by (nonlinear_arith)
        requires
            slices <= 16384,
            MEDIUM_SLICE_SIZE == 65536,
    ;
}

impl ThreadState {
    /// Whether nothing but the thread's pool may differ.
    pub open spec fn serves_as(&self, other: &ThreadState) -> bool {
        &&& self.active_heap == other.active_heap
        &&& self.active_bump == other.active_bump
        &&& self.active_remote == other.active_remote
        &&& self.tearing_down == other.tearing_down
        &&& self.token == other.token
        &&& self.default_heap == other.default_heap
        &&& self.remote_heap == other.remote_heap
    }
}

/// Whether the options can make a heap. A domain that they name is one of this allocator.
pub open spec fn options_ok(rallocator: Rallocator, options: Options) -> bool {
    &&& options.domain matches Some(domain) ==> domain.backend == rallocator.backend
    &&& is_domain(rallocator.space.domains@, domain_of(rallocator, options))
    &&& match options.kind {
        Kind::General(general) => MEDIUM_SLICE_SIZE <= general.locality_segment_bytes <= MEDIUM_REGION_SIZE,
        Kind::Bump(bump) => bump.valid(),
    }
}

/// Whether a bump heap is begun: with one that waits in the domain, where that is asked for and there
/// is one, and otherwise with a slice of the domain, which leaves the pools alone.
pub open spec fn bump_begun(
    before: Rallocator,
    thread: ThreadState,
    after: Rallocator,
    thread_after: ThreadState,
    options: bump::Options,
    policy: CreationPolicy,
    domain: usize,
    spare: Option<usize>,
    outcome: (CreateStep, bool),
) -> bool {
    if policy == CreationPolicy::ThreadPool && (waits(before.space, thread.bump_pool@, domain) || waits(
        before.space,
        before.bump_pool@,
        domain,
    )) {
        &&& outcome.0 matches CreateStep::Pooled { options: o, bump } && o == options && unpooled(
            before.space,
            thread.bump_pool@,
            before.bump_pool@,
            thread_after.bump_pool@,
            after.bump_pool@,
            domain,
            bump as int,
        )
        &&& !outcome.1
        &&& after.space == before.space
    } else {
        &&& after.bump_pool == before.bump_pool
        &&& thread_after == thread
        &&& match outcome.0 {
            CreateStep::Chunk { options: o, domain: d, chunk } => o == options && d == domain && slice_taken(
                before.space,
                after.space,
                domain,
                spare,
                Some((chunk, outcome.1)),
            ),
            CreateStep::Failed => !outcome.1 && slice_taken(before.space, after.space, domain, spare, None),
            _ => false,
        }
    }
}

impl Rallocator {
    /// Checks whether the options can make a heap.
    pub fn accepts(&self, options: Options) -> (accepted: bool)
        ensures
            accepted == options_ok(*self, options),
    {
        let domain: usize = match options.domain {
            Some(domain) => {
                if domain.backend != self.backend {
                    return false;
                }
                domain.target.target
            },
            None => self.default_domain,
        };
        if domain == 0 || domain > self.space.domains.len() {
            return false;
        }
        match options.kind {
            Kind::General(general) => MEDIUM_SLICE_SIZE <= general.locality_segment_bytes && general.locality_segment_bytes
                <= MEDIUM_REGION_SIZE,
            Kind::Bump(bump) => bump.is_valid(),
        }
    }

    /// Begins to make a heap. A general-purpose heap is always a fresh one. A bump heap is one that
    /// waits for its next use, where that is asked for and there is one.
    pub fn create_heap(&mut self, thread: &mut ThreadState, options: Options, spare: Option<usize>) -> (outcome: (CreateStep, bool))
        requires
            old(self).wf(),
            options_ok(*old(self), options),
            spare matches Some(base) ==> fresh_region(old(self).space.domains@, old(self).space.mapped@, base),
        ensures
            final(self).wf(),
            same_process(*old(self), *final(self)),
            step_kept(old(self).space, final(self).space),
            final(thread).serves_as(old(thread)),
            create_ok(*final(self), outcome.0),
            outcome.1 ==> spare is Some,
            match options.kind {
                Kind::General(general) => {
                    &&& outcome.0 == (if options.creation_policy == CreationPolicy::Fresh {
                        CreateStep::General { options: general, domain: domain_of(*old(self), options) }
                    } else {
                        CreateStep::Failed
                    })
                    &&& *final(self) == *old(self)
                    &&& *final(thread) == *old(thread)
                },
                Kind::Bump(bump) => bump_begun(
                    *old(self),
                    *old(thread),
                    *final(self),
                    *final(thread),
                    bump,
                    options.creation_policy,
                    domain_of(*old(self), options),
                    spare,
                    outcome,
                ),
            },
    {
        let ghost before = *self;
        let domain: usize = match options.domain {
            Some(domain) => domain.target.target,
            None => self.default_domain,
        };
        match options.kind {
            Kind::General(general) => {
                if matches!(options.creation_policy, CreationPolicy::Fresh) {
                    (CreateStep::General { options: general, domain }, false)
                } else {
                    (CreateStep::Failed, false)
                }
            },
            Kind::Bump(bump) => {
                if matches!(options.creation_policy, CreationPolicy::ThreadPool) {
                    let pooled: Option<usize> = self.take_pooled_bump(thread, domain);
                    if let Some(at) = pooled {
                        return (CreateStep::Pooled { options: bump, bump: at }, false);
                    }
                }
                let ghost middle = *self;
                let taken: Option<(usize, bool)> = self.space.take_slice(domain, spare);
                proof {
                    lemma_spans_only(middle.space, self.space);
                }
                match taken {
                    None => (CreateStep::Failed, false),
                    Some((chunk, appended)) => (CreateStep::Chunk { options: bump, domain, chunk }, appended),
                }
            },
        }
    }

    /// Makes a general-purpose heap in the storage that was mapped for it, or fails where there is none.
    pub fn finish_general(&mut self, options: general::Options, domain: usize, storage: usize) -> (created: Result<RawHeap, CreationError>)
        requires
            old(self).wf(),
            create_ok(*old(self), CreateStep::General { options, domain }),
            storage != 0 ==> !old(self).space.has_heap(storage),
        ensures
            final(self).wf(),
            same_process(*old(self), *final(self)),
            final(self).bump_pool == old(self).bump_pool,
            uses_kept(old(self).space, final(self).space),
            match created {
                Err(error) => storage == 0 && error == CreationError::CreationFailed && *final(self) == *old(self),
                Ok(raw) => {
                    let heap = old(self).space.heaps@.len() as int;
                    &&& storage != 0
                    &&& raw == (RawHeap {
                        hint: hint_to(HeapTarget::General { heap: storage }),
                        claim_policy: ClaimPolicy::Exclusive,
                    })
                    &&& final(self).space == (Space { heaps: final(self).space.heaps, ..old(self).space })
                    &&& goes_on(old(self).space.heaps@, final(self).space.heaps@)
                    &&& final(self).space.heaps@.len() == heap + 1
                    &&& final(self).space.heaps@[heap].is_new(storage, options, domain, true)
                },
            },
    {
        if storage == 0 {
            return Err(CreationError::CreationFailed);
        }
        let heap: usize = self.space.add_heap(storage, options, domain, true);
        Ok(RawHeap::new(raw_hint(HeapTarget::General { heap: storage }), ClaimPolicy::Exclusive))
    }

    /// Goes on with a bump heap once its chunk is committed. Gives the chunk back where it could not be.
    pub fn finish_chunk(&mut self, options: bump::Options, domain: usize, chunk: usize, committed: bool) -> (step: CreateStep)
        requires
            old(self).wf(),
            create_ok(*old(self), CreateStep::Chunk { options, domain, chunk }),
        ensures
            final(self).wf(),
            same_process(*old(self), *final(self)),
            step_kept(old(self).space, final(self).space),
            create_ok(*final(self), step),
            if committed {
                step == (CreateStep::Fallback { options, domain, chunk }) && *final(self) == *old(self)
            } else {
                step == CreateStep::Failed && final(self).bump_pool == old(self).bump_pool && span_returned(
                    old(self).space,
                    final(self).space,
                    domain,
                    chunk,
                    1,
                )
            },
    {
        if committed {
            return CreateStep::Fallback { options, domain, chunk };
        }
        self.space.settle_chunk(domain, chunk, true);
        CreateStep::Failed
    }

    /// Makes a bump heap in its chunk, with a heap in the storage that serves what it does not. The
    /// chunk goes back where there is no storage.
    pub fn finish_bump(&mut self, options: bump::Options, domain: usize, chunk: usize, storage: usize) -> (step: CreateStep)
        requires
            old(self).wf(),
            create_ok(*old(self), CreateStep::Fallback { options, domain, chunk }),
            storage != 0 ==> !old(self).space.has_heap(storage),
        ensures
            final(self).wf(),
            same_process(*old(self), *final(self)),
            uses_kept(old(self).space, final(self).space),
            create_ok(*final(self), step),
            if storage == 0 {
                step == (CreateStep::Release { domain, chunk }) && *final(self) == *old(self)
            } else {
                let bump = old(self).space.bumps@.len() as int;
                let heap = old(self).space.heaps@.len() as int;
                &&& step matches CreateStep::Created { heap: raw, domain: d, trimmed } && raw.hint == hint_to(
                    HeapTarget::Bump { bump: final(self).space.bumps@[bump].address },
                ) && d == domain && trimmed@.len() == 0
                &&& final(self).bump_pool == old(self).bump_pool
                &&& goes_on(old(self).space.bumps@, final(self).space.bumps@)
                &&& final(self).space.bumps@.len() == bump + 1
                &&& final(self).space.bumps@[bump].new_in(chunk, options, domain, storage)
                &&& goes_on(old(self).space.heaps@, final(self).space.heaps@)
                &&& final(self).space.heaps@.len() == heap + 1
                &&& final(self).space.heaps@[heap].is_new(storage, general::standard_options(), domain, true)
                &&& final(self).space == (Space {
                    heaps: final(self).space.heaps,
                    bumps: final(self).space.bumps,
                    domains: final(self).space.domains,
                    holdings: final(self).space.holdings,
                    ..old(self).space
                })
                &&& final(self).space.domains@.len() == old(self).space.domains@.len()
                &&& forall|other: int|
                    #![trigger final(self).space.domains@[other]]
                    0 <= other < old(self).space.domains@.len() && other != domain - 1 ==> final(self).space.domains@[other]
                        == old(self).space.domains@[other]
                &&& chunk_recorded(
                    &old(self).space.domains@[domain - 1],
                    &final(self).space.domains@[domain - 1],
                    chunk,
                    final(self).space.bumps@[bump].address,
                )
                &&& final(self).space.holdings@ == old(self).space.holdings@.insert(
                    chunk,
                    Holding { domain, slices: 1, user: User::Chunk { bump: final(self).space.bumps@[bump].address } },
                )
            },
    {
        if storage == 0 {
            return CreateStep::Release { domain, chunk };
        }
        proof {
            assert(crate::allocator::space::held_ok(
                self.space.domains@,
                chunk,
                self.space.holdings@[chunk],
            ));
        }
        let heap: usize = self.space.add_heap(storage, general::Options::new(), domain, true);
        let bump: usize = self.space.add_bump(options, domain, chunk, storage);
        let ghost made = *self;
        let trimmed: Vec<usize> = self.space.renew_bump(bump, options);
        proof {
            let own = made.space.bumps@[bump as int];
            let target = own.renewal_target(options);
            assert(target == options.retained_chunks && target >= 1);
            assert(dropped_chunks(own.chunks@, target).len() == 0);
            assert(kept_chunks(own.chunks@, target) =~= seq![chunk]);
            assert(self.space.holdings@ =~= made.space.holdings@);
            assert(self.space.is_bump(bump as int, self.space.bumps@[bump as int].address));
        }
        let name: usize = self.space.bumps[bump].address;
        CreateStep::Created {
            heap: RawHeap::new(raw_hint(HeapTarget::Bump { bump: name }), ClaimPolicy::Exclusive),
            domain,
            trimmed,
        }
    }

    /// Readies a bump heap that waited for its next use, with a heap in the storage that serves what it
    /// does not, where it has none. It goes back to a pool where it has none and there is no storage.
    pub fn finish_pooled(&mut self, thread: &mut ThreadState, options: bump::Options, bump: usize, storage: usize) -> (step: CreateStep)
        requires
            old(self).wf(),
            create_ok(*old(self), CreateStep::Pooled { options, bump }),
            storage != 0 ==> !old(self).space.has_heap(storage),
        ensures
            final(self).wf(),
            same_process(*old(self), *final(self)),
            uses_kept(old(self).space, final(self).space),
            final(thread).serves_as(old(thread)),
            create_ok(*final(self), step),
            ({
                let own = old(self).space.bumps@[bump as int];
                if own.fallback_heap == 0 && storage == 0 {
                    &&& step == CreateStep::Failed
                    &&& final(self).space.bumps@ == old(self).space.bumps@
                    &&& final(self).space == (Space { bumps: final(self).space.bumps, ..old(self).space })
                    &&& repooled(
                        old(thread).bump_pool@,
                        old(self).bump_pool@,
                        final(thread).bump_pool@,
                        final(self).bump_pool@,
                        own.address,
                    )
                } else {
                    let ready = BumpState {
                        fallback_heap: if own.fallback_heap != 0 {
                            own.fallback_heap
                        } else {
                            storage
                        },
                        ..own
                    };
                    &&& step matches CreateStep::Created { heap: raw, domain, trimmed } && raw.hint == hint_to(
                        HeapTarget::Bump { bump: own.address },
                    ) && domain == own.domain && trimmed@ == own.renewal_drops(options) && chunks_pending(
                        final(self).space,
                        own.domain,
                        trimmed@,
                    )
                    &&& final(self).space.bumps@[bump as int].renewed(&ready, options)
                    &&& final(self).space.bumps@.len() == old(self).space.bumps@.len()
                    &&& forall|other: int|
                        #![trigger final(self).space.bumps@[other]]
                        0 <= other < old(self).space.bumps@.len() && other != bump ==> final(self).space.bumps@[other]
                            == old(self).space.bumps@[other]
                    &&& if own.fallback_heap != 0 {
                        final(self).space.heaps == old(self).space.heaps
                    } else {
                        let heap = old(self).space.heaps@.len() as int;
                        &&& goes_on(old(self).space.heaps@, final(self).space.heaps@)
                        &&& final(self).space.heaps@.len() == heap + 1
                        &&& final(self).space.heaps@[heap].is_new(storage, general::standard_options(), own.domain, true)
                    }
                    &&& *final(thread) == *old(thread)
                    &&& final(self).bump_pool == old(self).bump_pool
                    &&& final(self).space.holdings@ == let_go(old(self).space.holdings@, own.renewal_drops(options))
                    &&& final(self).space == (Space {
                        heaps: final(self).space.heaps,
                        bumps: final(self).space.bumps,
                        holdings: final(self).space.holdings,
                        ..old(self).space
                    })
                }
            }),
    {
        let ghost before = *self;
        proof {
            assert(bump_ok(self.space.bumps@[bump as int]));
            lemma_idle_bump(self.space.bumps@[bump as int]);
        }
        let domain: usize = self.space.bumps[bump].domain;
        let missing: bool = self.space.bumps[bump].fallback_heap == 0;
        if missing && storage == 0 {
            let retired: usize = self.return_pooled_bump(thread, bump);
            return CreateStep::Failed;
        }
        if missing {
            let heap: usize = self.space.add_heap(storage, general::Options::new(), domain, true);
        }
        let present: bool = self.space.ensure_bump_fallback(bump, storage);
        let trimmed: Vec<usize> = self.space.renew_bump(bump, options);
        let name: usize = self.space.bumps[bump].address;
        proof {
            assert(self.space.is_bump(bump as int, name));
        }
        CreateStep::Created {
            heap: RawHeap::new(raw_hint(HeapTarget::Bump { bump: name }), ClaimPolicy::Exclusive),
            domain,
            trimmed,
        }
    }

    /// Names the heap through which other threads allocate for the thread.
    pub fn create_thread_heap(&mut self, thread: &mut ThreadState, storage: usize) -> (heap: Option<RawHeap>)
        requires
            old(self).wf(),
            old(thread).known(old(self).space),
            old(thread).default_heap != 0,
            storage != 0 ==> !old(self).space.has_remote(storage),
        ensures
            final(self).wf(),
            final(thread).known(final(self).space),
            uses_kept(old(self).space, final(self).space),
            heap == (if final(thread).remote_heap != 0 {
                Some(
                    RawHeap {
                        hint: hint_to(HeapTarget::Thread { remote: final(thread).remote_heap }),
                        claim_policy: ClaimPolicy::Shared,
                    },
                )
            } else {
                None
            }),
            same_process(*old(self), *final(self)),
            final(self).bump_pool == old(self).bump_pool,
            thread_heap_made(*old(self), *old(thread), *final(self), *final(thread), storage),
    {
        match self.thread_heap_state(thread, storage) {
            None => None,
            Some(remote) => Some(RawHeap::new(raw_hint(HeapTarget::Thread { remote }), ClaimPolicy::Shared)),
        }
    }

    /// Whether that is known of the heap that the hint names. A thread heap is active where it is the one
    /// that the thread allocates in.
    pub open spec fn shows(&self, thread: ThreadState, hint: RawHint, claimed_active: bool, info: Info) -> bool {
        match target_of(hint) {
            Some(HeapTarget::General { heap }) => forall|at: int|
                #[trigger] self.space.is_heap(at, heap) ==> info == (Info {
                    active: claimed_active,
                    domain: self.domain_handle(self.space.heaps@[at].domain),
                    kind: InfoKind::General(
                        general::Info { options: general_options(self.space.heaps@[at]), thread_target: false },
                    ),
                }),
            Some(HeapTarget::Bump { bump }) => forall|at: int|
                #[trigger] self.space.is_bump(at, bump) ==> info == (Info {
                    active: claimed_active,
                    domain: self.domain_handle(self.space.bumps@[at].domain),
                    kind: InfoKind::Bump(bump::Info { options: self.space.bumps@[at].options }),
                }),
            Some(HeapTarget::Thread { remote }) => forall|at: int|
                #[trigger] self.space.is_remote(at, remote) ==> info == (Info {
                    active: thread.active_remote == remote,
                    domain: self.domain_handle(self.space.remotes@[at].domain),
                    kind: InfoKind::General(
                        general::Info { options: self.space.remotes@[at].options, thread_target: true },
                    ),
                }),
            None => true,
        }
    }

    /// What is known of the heap that a hint names without looking into it.
    pub fn heap_info(&self, thread: &ThreadState, hint: RawHint, claimed_active: bool) -> (info: Info)
        requires
            self.wf(),
            self.hint_known(hint),
        ensures
            self.shows(*thread, hint, claimed_active, info),
    {
        match target_from_hint(hint) {
            Some(HeapTarget::General { heap }) => {
                let at: usize = self.space.find_heap(heap).unwrap();
                proof {
                    lemma_one_heap(self.space, at as int, heap);
                    assert(self.space.heap_ok(at as int));
                    lemma_options_fit(self.space.heaps@[at as int]);
                }
                let options: general::Options = general::Options::from_values(
                    self.space.heaps[at].locality_segment_slices * MEDIUM_SLICE_SIZE,
                    self.space.heaps[at].medium_cache_max_bytes,
                );
                let domain: Domain = self.handle_of(self.space.heaps[at].domain);
                Info::new(claimed_active, domain, InfoKind::General(general::Info { options, thread_target: false }))
            },
            Some(HeapTarget::Bump { bump }) => {
                let at: usize = self.space.find_bump(bump).unwrap();
                proof {
                    lemma_one_bump_name(self.space, at as int, bump);
                    assert(bump_ok(self.space.bumps@[at as int]));
                }
                let domain: Domain = self.handle_of(self.space.bumps[at].domain);
                Info::new(claimed_active, domain, InfoKind::Bump(bump::Info { options: self.space.bumps[at].options }))
            },
            Some(HeapTarget::Thread { remote }) => {
                let at: usize = self.space.find_remote(remote).unwrap();
                proof {
                    lemma_one_remote(self.space, at as int, remote);
                    assert(self.space.remotes@[at as int].inv(self.space.slabs@, self.space.sizes()));
                }
                let domain: Domain = self.handle_of(self.space.remotes[at].domain);
                Info::new(
                    thread.active_remote == remote,
                    domain,
                    InfoKind::General(general::Info { options: self.space.remotes[at].options, thread_target: true }),
                )
            },
            None => {
                let domain: Domain = self.handle_of(self.default_domain);
                Info::new(claimed_active, domain, InfoKind::General(general::Info { options: general::Options::new(), thread_target: false }))
            },
        }
    }

    /// Whether the hint names a heap of the space.
    pub open spec fn hint_known(&self, hint: RawHint) -> bool {
        &&& valid_hint(hint)
        &&& match target_of(hint) {
            Some(HeapTarget::General { heap }) => self.space.has_heap(heap),
            Some(HeapTarget::Bump { bump }) => self.space.has_bump(bump),
            Some(HeapTarget::Thread { remote }) => self.space.has_remote(remote),
            None => false,
        }
    }

    pub open spec fn domain_handle(&self, domain: usize) -> Domain {
        Domain { target: RawDomain { target: domain }, backend: self.backend }
    }

    fn handle_of(&self, domain: usize) -> (handle: Domain)
        requires
            domain != 0,
        ensures
            handle == self.domain_handle(domain),
    {
        Domain::from_raw(RawDomain::new(domain), self.backend)
    }
}

/// A name is one bump heap's.
proof fn lemma_one_bump_name(space: Space, bump: int, address: usize)
    requires
        space.inv(),
        space.is_bump(bump, address),
    ensures
        forall|other: int| #[trigger] space.is_bump(other, address) ==> other == bump,
{
    assert forall|other: int| #[trigger] space.is_bump(other, address) implies other == bump by {
        if other < bump {
            assert(space.bumps@[other].address != space.bumps@[bump].address);
        } else if bump < other {
            assert(space.bumps@[bump].address != space.bumps@[other].address);
        }
    }
}

/// A name is one thread heap's.
proof fn lemma_one_remote(space: Space, remote: int, address: usize)
    requires
        space.inv(),
        space.is_remote(remote, address),
    ensures
        forall|other: int| #[trigger] space.is_remote(other, address) ==> other == remote,
{
    assert forall|other: int| #[trigger] space.is_remote(other, address) implies other == remote by {
        if other < remote {
            assert(space.remotes@[other].address != space.remotes@[remote].address);
        } else if remote < other {
            assert(space.remotes@[remote].address != space.remotes@[other].address);
        }
    }
}

/// What is left to do once a heap's handle is gone.
pub enum DestroyStep {
    /// The general-purpose heap is to be retired.
    Retire { heap: usize },
    /// Blocks of the bump heap are still in use.
    InUse,
    /// The bump heap waits in a pool. The chunks are to be decommitted: go on with `settle_chunk` for
    /// each. The heap that served what it does not is to be retired, where it is not 0.
    Pooled { bump: usize, trimmed: Vec<usize>, retired: usize },
    /// A thread heap goes with its thread.
    Kept,
}

/// Whether the handle of a bump heap is gone: the heap waits for its blocks, or where none is in use,
/// in a pool for its next use, without the chunks that it does not keep.
pub open spec fn bump_released(
    before: Rallocator,
    thread: ThreadState,
    after: Rallocator,
    thread_after: ThreadState,
    at: int,
    step: DestroyStep,
) -> bool {
    let own = before.space.bumps@[at];
    &&& after.space.bumps@.len() == before.space.bumps@.len()
    &&& forall|other: int|
        #![trigger after.space.bumps@[other]]
        0 <= other < before.space.bumps@.len() && other != at ==> after.space.bumps@[other] == before.space.bumps@[other]
    &&& after.space.domains == before.space.domains
    &&& after.space.heaps == before.space.heaps
    &&& after.space.remotes == before.space.remotes
    &&& after.space.slabs == before.space.slabs
    &&& after.space.records == before.space.records
    &&& after.space.mapped == before.space.mapped
    &&& if own.live@.dom().len() != 0 {
        &&& step is InUse
        &&& after.space.bumps@[at].let_go_of(&own, BumpRelease::InUse)
        &&& after.space.holdings@ == before.space.holdings@
        &&& after.bump_pool == before.bump_pool
        &&& thread_after == thread
    } else {
        &&& step matches DestroyStep::Pooled { bump, trimmed, retired } && bump == at && retired == own.fallback_heap && finished(
            &own,
            &(BumpState { fallback_heap: own.fallback_heap, ..after.space.bumps@[at] }),
            BumpRelease::Finished { trimmed },
        ) && chunks_pending(after.space, own.domain, trimmed@) && after.space.holdings@ == let_go(before.space.holdings@, trimmed@)
        &&& after.space.bumps@[at].pooled()
        &&& after.space.bumps@[at].handle_released
        &&& after.space.bumps@[at].fallback_heap == 0
        &&& repooled(thread.bump_pool@, before.bump_pool@, thread_after.bump_pool@, after.bump_pool@, own.address)
    }
}

/// A bump heap whose last reference goes waits for its next use. The next bump heap that is made out
/// of the pools in its domain is one that waited there, and this one where no other did. One that is
/// made in another domain is not this one, and a fresh one leaves the pools as they are.
pub proof fn law_released_bump_heaps_are_used_again(
    before: Rallocator,
    thread: ThreadState,
    released: Rallocator,
    thread_then: ThreadState,
    at: int,
    step: DestroyStep,
    after: Rallocator,
    thread_after: ThreadState,
    options: bump::Options,
    policy: CreationPolicy,
    domain: usize,
    spare: Option<usize>,
    outcome: (CreateStep, bool),
)
    requires
        before.wf(),
        released.wf(),
        0 <= at < before.space.bumps@.len(),
        before.space.bumps@[at].wf(),
        !before.space.bumps@[at].handle_released,
        bump_released(before, thread, released, thread_then, at, step),
        step is Pooled,
        bump_begun(released, thread_then, after, thread_after, options, policy, domain, spare, outcome),
    ensures
        policy == CreationPolicy::ThreadPool && domain == before.space.bumps@[at].domain ==> outcome.0 is Pooled,
        policy == CreationPolicy::ThreadPool && domain == before.space.bumps@[at].domain && !waits(
            before.space,
            thread.bump_pool@,
            domain,
        ) && !waits(before.space, before.bump_pool@, domain) ==> outcome.0 == (CreateStep::Pooled { options, bump: at as usize }),
        domain != before.space.bumps@[at].domain ==> outcome.0 != (CreateStep::Pooled { options, bump: at as usize }),
        policy == CreationPolicy::Fresh ==> !(outcome.0 is Pooled) && after.bump_pool == released.bump_pool && thread_after == thread_then,
{
    let own = before.space.bumps@[at];
    let name = own.address;
    let mine = thread_then.bump_pool@;
    let common = released.bump_pool@;
    let space = released.space;
    assert(space.is_bump(at, name));
    assert(idle_in_domain(space, name, own.domain));
    if domain == own.domain {
        if thread.bump_pool@.len() < THREAD_BUMP_POOL {
            assert(mine[mine.len() - 1] == name);
            assert(waits(space, mine, domain));
        } else {
            assert(common[common.len() - 1] == name);
            assert(waits(space, common, domain));
        }
        if policy == CreationPolicy::ThreadPool && !waits(before.space, thread.bump_pool@, domain) && !waits(
            before.space,
            before.bump_pool@,
            domain,
        ) {
            lemma_only_waiting(before.space, space, thread.bump_pool@, at, domain);
            lemma_only_waiting(before.space, space, before.bump_pool@, at, domain);
            let bump = outcome.0->Pooled_bump as int;
            assert(space.is_bump(bump, space.bumps@[bump].address));
            assert(idle_in_domain(space, space.bumps@[bump].address, domain));
            assert(space.bumps@[bump].address == name) by {
                if waits(space, mine, domain) {
                    let index = choose|index: int| #[trigger] first_idle(space, mine, domain, index, bump);
                    assert(mine[index] == space.bumps@[bump].address);
                    if index < thread.bump_pool@.len() {
                        assert(thread.bump_pool@[index] == mine[index]);
                    }
                } else {
                    let index = choose|index: int| #[trigger] last_idle(space, common, domain, index, bump);
                    assert(common[index] == space.bumps@[bump].address);
                    if index < before.bump_pool@.len() {
                        assert(before.bump_pool@[index] == common[index]);
                    }
                }
            }
            lemma_one_bump_name(space, at, name);
        }
    }
}

/// Where no named bump heap waited in the domain, none but the one that was just released does.
proof fn lemma_only_waiting(before: Space, after: Space, pool: Seq<usize>, at: int, domain: usize)
    requires
        0 <= at < before.bumps@.len(),
        after.bumps@.len() == before.bumps@.len(),
        forall|other: int|
            #![trigger after.bumps@[other]]
            0 <= other < before.bumps@.len() && other != at ==> after.bumps@[other] == before.bumps@[other],
        after.bumps@[at].address == before.bumps@[at].address,
        !waits(before, pool, domain),
    ensures
        forall|index: int|
            0 <= index < pool.len() && idle_in_domain(after, #[trigger] pool[index], domain) ==> pool[index] == before.bumps@[at].address,
{
    assert forall|index: int| 0 <= index < pool.len() && idle_in_domain(after, #[trigger] pool[index], domain) implies pool[index]
        == before.bumps@[at].address by {
        let bump = choose|bump: int|
            #[trigger] after.is_bump(bump, pool[index]) && after.bumps@[bump].domain == domain && after.bumps@[bump].references == 0;
        if bump != at {
            assert(before.is_bump(bump, pool[index]));
            assert(idle_in_domain(before, pool[index], domain));
        }
    }
}

impl Rallocator {
    /// Whether what the heap holds can be counted.
    pub open spec fn countable(&self, heap: int, remote: Option<crate::allocator::remote::RemoteUsage>) -> bool {
        let own = self.space.heaps@[heap];
        heap_sums(
            &own,
            &self.space.slabs,
            self.space.sizes(),
            &self.space.domains@[own.domain - 1],
            self.space.records.extras@,
            remote,
        ).within()
    }

    /// What the heap reports of what it holds.
    pub open spec fn reported(&self, heap: int, remote: Option<crate::allocator::remote::RemoteUsage>) -> Usage {
        let own = self.space.heaps@[heap];
        heap_usage(
            &own,
            &self.space.slabs,
            self.space.sizes(),
            &self.space.domains@[own.domain - 1],
            self.space.records.extras@,
            remote,
        )
    }

    /// Whether what the heap that a hint names holds can be reported: the sums fit into machine words,
    /// and a bump heap has its handle.
    pub open spec fn reportable(&self, hint: RawHint) -> bool {
        match target_of(hint) {
            Some(HeapTarget::General { heap }) => forall|at: int| #[trigger] self.space.is_heap(at, heap) ==> self.countable(at, None),
            Some(HeapTarget::Bump { bump }) => forall|at: int|
                #[trigger] self.space.is_bump(at, bump) ==> self.space.bumps@[at].wf() && !self.space.bumps@[at].handle_released,
            Some(HeapTarget::Thread { remote }) => forall|at: int, heap: int|
                #![trigger self.space.is_remote(at, remote), self.space.is_heap(heap, self.space.remotes@[at].owner_heap)]
                self.space.is_remote(at, remote) && self.space.is_heap(heap, self.space.remotes@[at].owner_heap)
                    ==> self.countable(heap, Some(self.space.remotes@[at].usage)),
            None => false,
        }
    }

    /// Checks whether what the heap that a hint names holds can be reported.
    pub fn can_report(&self, hint: RawHint) -> (reports: bool)
        requires
            self.wf(),
            self.hint_known(hint),
        ensures
            reports == self.reportable(hint),
    {
        match target_from_hint(hint) {
            Some(HeapTarget::General { heap }) => {
                let at: usize = self.space.find_heap(heap).unwrap();
                proof {
                    lemma_one_heap(self.space, at as int, heap);
                }
                self.checked_count(at, None).is_some()
            },
            Some(HeapTarget::Bump { bump }) => {
                let at: usize = self.space.find_bump(bump).unwrap();
                proof {
                    lemma_one_bump_name(self.space, at as int, bump);
                    assert(bump_ok(self.space.bumps@[at as int]));
                }
                !self.space.bumps[at].handle_released && self.space.bumps[at].references != 0
            },
            Some(HeapTarget::Thread { remote }) => {
                let at: usize = self.space.find_remote(remote).unwrap();
                proof {
                    lemma_one_remote(self.space, at as int, remote);
                }
                match self.space.find_heap(self.space.remotes[at].owner_heap) {
                    None => true,
                    Some(heap) => {
                        proof {
                            lemma_one_heap(self.space, heap as int, self.space.remotes@[at as int].owner_heap);
                        }
                        self.checked_count(heap, Some(self.space.remotes[at].usage)).is_some()
                    },
                }
            },
            None => false,
        }
    }

    fn checked_count(&self, heap: usize, remote: Option<crate::allocator::remote::RemoteUsage>) -> (usage: Option<Usage>)
        requires
            self.wf(),
            heap < self.space.heaps@.len(),
        ensures
            usage == if self.countable(heap as int, remote) {
                Some(self.reported(heap as int, remote))
            } else {
                None
            },
    {
        proof {
            assert(self.space.heap_ok(heap as int));
            assert(self.space.segments_held(heap as int));
            assert(self.space.domains@[self.space.heaps@[heap as int].domain - 1].wf());
        }
        let place: usize = self.space.heaps[heap].domain - 1;
        checked_heap_usage(
            &self.space.heaps[heap],
            &self.space.slabs,
            &self.space.tuning,
            &self.space.domains[place],
            &self.space.records,
            remote,
        )
    }

    /// What the heap that a hint names holds. A thread heap tells its owner alone, and only while that
    /// has its default heap.
    pub fn heap_usage(&self, thread: &ThreadState, hint: RawHint) -> (usage: Result<Usage, Error>)
        requires
            self.wf(),
            self.hint_known(hint),
            self.reportable(hint),
        ensures
            match target_of(hint) {
                Some(HeapTarget::General { heap }) => forall|at: int|
                    #[trigger] self.space.is_heap(at, heap) ==> usage == Ok::<Usage, Error>(self.reported(at, None)),
                Some(HeapTarget::Bump { bump }) => forall|at: int|
                    #[trigger] self.space.is_bump(at, bump) ==> {
                        let own = self.space.bumps@[at];
                        let reserved = (own.chunks@.len() * BUMP_CHUNK_SIZE) as usize;
                        usage == Ok::<Usage, Error>(
                            Usage {
                                live_allocations: own.live@.dom().len() as usize,
                                live_requested_bytes: own.live_requested_bytes,
                                live_usable_bytes: own.live_requested_bytes,
                                reserved_bytes: reserved,
                                committed_bytes: reserved,
                                kind: UsageKind::Bump(
                                    bump::Usage {
                                        cursor_used_bytes: own.used_bytes,
                                        allocation_count: own.allocation_count,
                                        chunk_count: own.chunks@.len() as usize,
                                    },
                                ),
                            },
                        )
                    },
                Some(HeapTarget::Thread { remote }) => forall|at: int|
                    #[trigger] self.space.is_remote(at, remote) ==> {
                        let own = self.space.remotes@[at];
                        if own.owner_token != thread.token || !self.space.has_heap(own.owner_heap) {
                            usage == Err::<Usage, Error>(Error::UsageUnavailable)
                        } else {
                            exists|heap: int|
                                #[trigger] self.space.is_heap(heap, own.owner_heap) && usage == Ok::<Usage, Error>(
                                    self.reported(heap, Some(own.usage)),
                                )
                        }
                    },
                None => true,
            },
    {
        match target_from_hint(hint) {
            Some(HeapTarget::General { heap }) => {
                let at: usize = self.space.find_heap(heap).unwrap();
                proof {
                    lemma_one_heap(self.space, at as int, heap);
                }
                Ok(self.count_heap(at, None))
            },
            Some(HeapTarget::Bump { bump }) => {
                let at: usize = self.space.find_bump(bump).unwrap();
                proof {
                    lemma_one_bump_name(self.space, at as int, bump);
                }
                let own: BumpUsage = self.space.bumps[at].usage();
                Ok(
                    Usage::new(
                        own.live_allocations,
                        own.live_requested_bytes,
                        own.live_requested_bytes,
                        own.committed_bytes,
                        own.committed_bytes,
                        UsageKind::Bump(
                            bump::Usage {
                                cursor_used_bytes: own.used_bytes,
                                allocation_count: own.allocation_count,
                                chunk_count: own.chunk_count,
                            },
                        ),
                    ),
                )
            },
            Some(HeapTarget::Thread { remote }) => {
                let at: usize = self.space.find_remote(remote).unwrap();
                proof {
                    lemma_one_remote(self.space, at as int, remote);
                }
                if self.space.remotes[at].owner_token != thread.token {
                    return Err(Error::UsageUnavailable);
                }
                match self.space.find_heap(self.space.remotes[at].owner_heap) {
                    None => Err(Error::UsageUnavailable),
                    Some(heap) => Ok(self.count_heap(heap, Some(self.space.remotes[at].usage))),
                }
            },
            None => Err(Error::UsageUnavailable),
        }
    }

    fn count_heap(&self, heap: usize, remote: Option<crate::allocator::remote::RemoteUsage>) -> (usage: Usage)
        requires
            self.wf(),
            heap < self.space.heaps@.len(),
            self.countable(heap as int, remote),
        ensures
            usage == self.reported(heap as int, remote),
    {
        proof {
            assert(self.space.heap_ok(heap as int));
            assert(self.space.segments_held(heap as int));
            assert(self.space.domains@[self.space.heaps@[heap as int].domain - 1].wf());
        }
        let place: usize = self.space.heaps[heap].domain - 1;
        general_heap_usage(
            &self.space.heaps[heap],
            &self.space.slabs,
            &self.space.tuning,
            &self.space.domains[place],
            &self.space.records,
            remote,
        )
    }

    /// Lets go of the heap that a hint names.
    pub fn destroy_hint(&mut self, thread: &mut ThreadState, hint: RawHint) -> (step: DestroyStep)
        requires
            old(self).wf(),
            old(self).hint_known(hint),
            target_of(hint) matches Some(HeapTarget::Bump { bump }) ==> forall|at: int|
                #[trigger] old(self).space.is_bump(at, bump) ==> old(self).space.bumps@[at].wf()
                    && !old(self).space.bumps@[at].handle_released,
        ensures
            final(self).wf(),
            same_process(*old(self), *final(self)),
            step_kept(old(self).space, final(self).space),
            final(thread).serves_as(old(thread)),
            match target_of(hint) {
                Some(HeapTarget::General { heap }) => step == (DestroyStep::Retire { heap }) && *final(self) == *old(self)
                    && *final(thread) == *old(thread),
                Some(HeapTarget::Bump { bump }) => forall|at: int|
                    #[trigger] old(self).space.is_bump(at, bump) ==> bump_released(
                        *old(self),
                        *old(thread),
                        *final(self),
                        *final(thread),
                        at,
                        step,
                    ),
                Some(HeapTarget::Thread { remote }) => step == DestroyStep::Kept && *final(self) == *old(self) && *final(thread)
                    == *old(thread),
                None => true,
            },
    {
        match target_from_hint(hint) {
            Some(HeapTarget::General { heap }) => DestroyStep::Retire { heap },
            Some(HeapTarget::Bump { bump }) => {
                let at: usize = self.space.find_bump(bump).unwrap();
                proof {
                    lemma_one_bump_name(self.space, at as int, bump);
                }
                let ghost before = *self;
                let release: BumpRelease = self.space.drop_bump_handle(at);
                let ghost middle = *self;
                match release {
                    BumpRelease::InUse => {
                        proof {
                            assert(let_go(before.space.holdings@, Seq::empty()) =~= before.space.holdings@);
                            assert(bump_released(before, *old(thread), *self, *thread, at as int, DestroyStep::InUse));
                        }
                        DestroyStep::InUse
                    },
                    BumpRelease::Finished { trimmed } => {
                        let retired: usize = self.return_pooled_bump(thread, at);
                        proof {
                            assert(uses_kept(before.space, self.space));
                            assert(middle.space.bumps@[at as int] == (BumpState {
                                fallback_heap: before.space.bumps@[at as int].fallback_heap,
                                ..self.space.bumps@[at as int]
                            }));
                        }
                        DestroyStep::Pooled { bump: at, trimmed, retired }
                    },
                }
            },
            Some(HeapTarget::Thread { remote }) => DestroyStep::Kept,
            None => DestroyStep::Kept,
        }
    }

    /// Ends a thread: its pooled bump heaps go to the process's pool, newest first, and its thread heap
    /// is told that the thread is gone. Gives the default heap, which is to be retired, or 0.
    pub fn cleanup(&mut self, thread: &mut ThreadState) -> (retired: usize)
        requires
            old(self).wf(),
            old(thread).known(old(self).space),
        ensures
            final(self).wf(),
            same_process(*old(self), *final(self)),
            step_kept(old(self).space, final(self).space),
            final(self).bump_pool@ == old(self).bump_pool@ + old(thread).bump_pool@.reverse(),
            final(thread).bump_pool@.len() == 0,
            *final(thread) == (ThreadState {
                tearing_down: true,
                default_heap: 0,
                bump_pool: final(thread).bump_pool,
                ..*old(thread)
            }),
            retired == old(thread).default_heap,
            if old(thread).remote_heap == 0 {
                final(self).space == old(self).space
            } else {
                &&& final(self).space == (Space { remotes: final(self).space.remotes, ..old(self).space })
                &&& forall|at: int|
                    #[trigger] old(self).space.is_remote(at, old(thread).remote_heap) ==> final(self).space.remotes@
                        == old(self).space.remotes@.update(
                        at,
                        RemoteHeap { owner_token: 0, owner_heap: 0, ..old(self).space.remotes@[at] },
                    )
            },
    {
        thread.tearing_down = true;
        let ghost pool = thread.bump_pool@;
        let ghost kept = self.bump_pool@;
        let ghost before = *self;
        while thread.bump_pool.len() > 0
            invariant
                thread.bump_pool@.len() <= pool.len(),
                thread.bump_pool@ == pool.take(thread.bump_pool@.len() as int),
                self.bump_pool@ == kept + pool.skip(thread.bump_pool@.len() as int).reverse(),
                self.space == before.space,
                self.default_domain == before.default_domain,
                self.backend == before.backend,
                *thread == (ThreadState { tearing_down: true, bump_pool: thread.bump_pool, ..*old(thread) }),
            decreases thread.bump_pool@.len(),
        {
            let ghost count = thread.bump_pool@.len() as int;
            let bump: usize = thread.bump_pool.pop().unwrap();
            self.bump_pool.push(bump);
            proof {
                assert(thread.bump_pool@ =~= pool.take(count - 1));
                assert(pool.skip(count - 1).reverse() =~= pool.skip(count).reverse().push(bump));
                assert(self.bump_pool@ =~= kept + pool.skip(count - 1).reverse());
            }
        }
        proof {
            assert(pool.skip(0) =~= pool);
        }
        if thread.remote_heap != 0 {
            let at: usize = self.space.find_remote(thread.remote_heap).unwrap();
            self.space.end_thread_heap(at);
            proof {
                lemma_one_remote(before.space, at as int, thread.remote_heap);
            }
        }
        let retired: usize = thread.default_heap;
        thread.default_heap = 0;
        retired
    }
}

impl Space {
    /// Tells a thread heap that its thread is gone.
    pub fn end_thread_heap(&mut self, remote: usize)
        requires
            old(self).whole(),
            remote < old(self).remotes@.len(),
        ensures
            step_kept(*old(self), *final(self)),
            *final(self) == (Space { remotes: final(self).remotes, ..*old(self) }),
            final(self).remotes@ == old(self).remotes@.update(
                remote as int,
                RemoteHeap { owner_token: 0, owner_heap: 0, ..old(self).remotes@[remote as int] },
            ),
    {
        let ghost before = *self;
        self.remotes[remote].owner_token = 0;
        self.remotes[remote].owner_heap = 0;
        proof {
            crate::allocator::space::lemma_remote_usage(before, *self, remote as int);
            assert(smalls_kept(before, *self));
            assert(mediums_kept(before.domains@, self.domains@));
            assert(bumps_kept(before.bumps@, self.bumps@));
            lemma_whole_goes_on(before, *self);
        }
    }
}

} // verus!
