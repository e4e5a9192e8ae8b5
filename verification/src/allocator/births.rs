//! How a space comes to be, and how domains and heaps join it.

use vstd::prelude::*;

use crate::allocator::arenas::{domain_step, lemma_domain_step, lemma_spans_held, same_regions};
use crate::allocator::bump::{BumpState, CreatedBump, BUMP_STATE_OFFSET};
use crate::allocator::bumps::{chunk_recorded, lemma_retagged};
use crate::allocator::classes::{segment_of, MEDIUM_REGION_SIZE, MEDIUM_SLICE_SIZE};
use crate::allocator::direct::Records;
use crate::allocator::domains::{apart, DomainState};
use crate::allocator::heaps::HeapState;
use crate::allocator::mediums::mediums_kept;
use crate::allocator::references::lemma_refs_go_on;
use crate::allocator::refills::{lemma_held_bounds, lemma_placed_kept, users_kept};
use crate::allocator::remote::{no_remote_usage, RemoteHeap};
use crate::allocator::segments::lemma_segments_go_on;
use crate::allocator::small::SmallHeap;
use crate::allocator::space::{
    bump_ok, cache_held, classed, domains_ok, held_ok, holdings_ok, is_domain, locality_held, mapped_ok,
    slab_placed, stretches_apart, Holding, Space, User,
};
use crate::allocator::table::SlabTable;
use crate::allocator::thread_heaps::slice_pending;
use crate::allocator::uses::{lemma_records_go_on, lemma_small_kept, uses_kept, Block};
use crate::hints::{bump, general};
use crate::tunables::Tuning;

verus! {

/// Whether the sequence goes on as it was, perhaps with something more.
pub open spec fn goes_on<T>(before: Seq<T>, after: Seq<T>) -> bool {
    &&& before.len() <= after.len()
    &&& forall|at: int| 0 <= at < before.len() ==> #[trigger] after[at] == before[at]
}

/// Whether the heap keeps and lists nothing.
pub open spec fn keeps_nothing(space: Space, heap: int) -> bool {
    forall|block: usize| !#[trigger] space.cached_by(heap, block)
}

/// Whether the thread heap lists nothing.
pub open spec fn lists_nothing(space: Space, remote: int) -> bool {
    forall|block: usize| !#[trigger] space.listed_by(remote, block)
}

/// What joins a space with nothing of its own leaves the rest in order.
#[verifier::rlimit(40)]
#[verifier::spinoff_prover]
pub proof fn lemma_joined(before: Space, after: Space)
    requires
        before.inv(),
        after.tuning == before.tuning,
        after.slabs == before.slabs,
        after.out == before.out,
        after.mapped == before.mapped,
        goes_on(before.heaps@, after.heaps@),
        goes_on(before.remotes@, after.remotes@),
        before.domains@.len() <= after.domains@.len(),
        domains_ok(after.domains@),
        mapped_ok(after.domains@, after.mapped@),
        holdings_ok(after.domains@, after.holdings@),
        users_kept(before.holdings@, after.holdings@, 0, 0),
        after.bumps_ok(),
        forall|heap: int|
            before.heaps@.len() <= heap < after.heaps@.len() ==> #[trigger] after.heap_ok(heap) && keeps_nothing(after, heap),
        forall|left: int, right: int|
            #![trigger after.heaps@[left], after.heaps@[right]]
            0 <= left < right < after.heaps@.len() && right >= before.heaps@.len() ==> after.heaps@[left].address
                != after.heaps@[right].address,
        forall|remote: int|
            before.remotes@.len() <= remote < after.remotes@.len() ==> (#[trigger] after.remotes@[remote]).inv(
                after.slabs@,
                after.sizes(),
            ) && is_domain(after.domains@, after.remotes@[remote].domain) && lists_nothing(after, remote),
        forall|left: int, right: int|
            #![trigger after.remotes@[left], after.remotes@[right]]
            0 <= left < right < after.remotes@.len() && right >= before.remotes@.len() ==> after.remotes@[left].address
                != after.remotes@[right].address,
    ensures
        after.inv(),
        forall|block: usize| #[trigger] after.loose(block) == before.loose(block),
{
    let sizes = before.sizes();
    assert forall|at: int, block: usize| 0 <= at < after.heaps@.len() implies #[trigger] after.cached_by(at, block) == (at
        < before.heaps@.len() && before.cached_by(at, block)) by {
        if at < before.heaps@.len() {
            assert(after.heaps@[at] == before.heaps@[at]);
            assert(after.view_of(at) == before.view_of(at));
        } else {
            assert(after.heap_ok(at));
        }
    }
    assert forall|at: int, block: usize| 0 <= at < after.remotes@.len() implies #[trigger] after.listed_by(at, block) == (at
        < before.remotes@.len() && before.listed_by(at, block)) by {
        assert(after.remotes@[at].inv(after.slabs@, sizes) || at < before.remotes@.len());
        if at < before.remotes@.len() {
            assert(after.remotes@[at] == before.remotes@[at]);
        }
    }
    assert forall|at: int| 0 <= at < after.heaps@.len() implies #[trigger] after.heap_ok(at) by {
        if at < before.heaps@.len() {
            assert(before.heap_ok(at));
            assert(after.heaps@[at] == before.heaps@[at]);
            assert(after.view_of(at) == before.view_of(at));
            crate::allocator::refills::lemma_cache_kept(after.heaps@[at], before.holdings@, after.holdings@, 0, 0);
            if after.heaps@[at].locality_next < after.heaps@[at].locality_end {
                assert(before.holdings@.dom().contains(after.heaps@[at].locality_segment));
            }
        }
    }
    assert(after.heaps_ok()) by {
        assert forall|left: int, right: int|
            #![trigger after.heaps@[left], after.heaps@[right]]
            0 <= left < right < after.heaps@.len() implies after.heaps@[left].address != after.heaps@[right].address by {
            if right < before.heaps@.len() {
                assert(before.heaps@[left].address != before.heaps@[right].address);
            }
        }
    }
    assert(after.remotes_ok()) by {
        assert forall|remote: int| 0 <= remote < after.remotes@.len() implies (#[trigger] after.remotes@[remote]).inv(after.slabs@, sizes)
            && is_domain(after.domains@, after.remotes@[remote].domain) by {
            if remote < before.remotes@.len() {
                assert(before.remotes@[remote].inv(before.slabs@, sizes));
            }
        }
        assert forall|left: int, right: int|
            #![trigger after.remotes@[left], after.remotes@[right]]
            0 <= left < right < after.remotes@.len() implies after.remotes@[left].address != after.remotes@[right].address by {
            if right < before.remotes@.len() {
                assert(before.remotes@[left].address != before.remotes@[right].address);
            }
        }
    }
    assert forall|slab: usize| #[trigger] after.slabs@.dom().contains(slab) implies classed(after.slabs@[slab], sizes)
        && after.slabs@[slab].address == slab && slab_placed(after.holdings@, after.mapped@, slab) by {
        assert(before.slabs@.dom().contains(slab));
        lemma_placed_kept(before, after, 0, 0, slab);
    }
    assert(after.lists_shared()) by {
        assert forall|remote: int, block: usize| 0 <= remote < after.remotes@.len() && #[trigger] after.listed_by(remote, block) implies {
            let slab = segment_of(block as int) as usize;
            after.slabs@.dom().contains(slab) && after.slabs@[slab].shared
        } by {
            assert(before.listed_by(remote, block));
        }
    }
    assert forall|block: usize| #[trigger] after.loose(block) == before.loose(block) by {
        if before.loose(block) {
            assert forall|at: int| 0 <= at < after.heaps@.len() implies !#[trigger] after.cached_by(at, block) by {
                if at < before.heaps@.len() {
                    assert(!before.cached_by(at, block));
                }
            }
            assert forall|at: int| 0 <= at < after.remotes@.len() implies !#[trigger] after.listed_by(at, block) by {
                if at < before.remotes@.len() {
                    assert(!before.listed_by(at, block));
                }
            }
        }
        if after.loose(block) {
            assert forall|at: int| 0 <= at < before.heaps@.len() implies !#[trigger] before.cached_by(at, block) by {
                assert(!after.cached_by(at, block));
            }
            assert forall|at: int| 0 <= at < before.remotes@.len() implies !#[trigger] before.listed_by(at, block) by {
                assert(!after.listed_by(at, block));
            }
        }
    }
    assert forall|slab: usize| #[trigger] after.slabs@.dom().contains(slab) implies after.entries_ok(slab) by {
        assert(before.entries_ok(slab));
        assert forall|at: int| 0 <= at < after.out@[slab].len() implies #[trigger] after.entry_ok(slab, at) by {
            assert(before.entry_ok(slab, at));
        }
    }
    assert forall|slab: usize| #[trigger] after.slabs@.dom().contains(slab) implies after.slab_owned(slab) by {
        assert(before.slab_owned(slab));
        let owner = before.slabs@[slab].owner;
        if before.slabs@[slab].shared {
            let at = choose|at: int| #[trigger] before.is_remote(at, owner);
            assert(after.remotes@[at] == before.remotes@[at]);
            assert(after.is_remote(at, owner));
        } else {
            let at = choose|at: int| #[trigger] before.is_heap(at, owner);
            assert(after.heaps@[at] == before.heaps@[at]);
            assert(after.is_heap(at, owner));
        }
    }
    assert(after.waiting_apart()) by {
        assert forall|left: int, right: int, block: usize|
            #![trigger after.cached_by(left, block), after.cached_by(right, block)]
            0 <= left < after.heaps@.len() && 0 <= right < after.heaps@.len() && left != right implies !(after.cached_by(left, block)
            && after.cached_by(right, block)) by {
            if left < before.heaps@.len() && right < before.heaps@.len() {
                assert(!(before.cached_by(left, block) && before.cached_by(right, block)));
            }
        }
        assert forall|heap: int, other: int, block: usize|
            #![trigger after.cached_by(heap, block), after.listed_by(other, block)]
            0 <= heap < after.heaps@.len() && 0 <= other < after.remotes@.len() implies !(after.cached_by(heap, block)
            && after.listed_by(other, block)) by {
            if heap < before.heaps@.len() && other < before.remotes@.len() {
                assert(!(before.cached_by(heap, block) && before.listed_by(other, block)));
            }
        }
        assert forall|left: int, right: int, block: usize|
            #![trigger after.listed_by(left, block), after.listed_by(right, block)]
            0 <= left < after.remotes@.len() && 0 <= right < after.remotes@.len() && left != right implies !(after.listed_by(left, block)
            && after.listed_by(right, block)) by {
            if left < before.remotes@.len() && right < before.remotes@.len() {
                assert(!(before.listed_by(left, block) && before.listed_by(right, block)));
            }
        }
    }
}

/// The bump heaps stay in order where the domains and the held spans go on.
proof fn lemma_bumps_go_on(before: Space, after: Space)
    requires
        before.inv(),
        after.bumps == before.bumps,
        before.domains@.len() <= after.domains@.len(),
        after.holdings == before.holdings,
    ensures
        after.bumps_ok(),
{
    assert forall|bump: int| 0 <= bump < after.bumps@.len() implies bump_ok(#[trigger] after.bumps@[bump]) && after.chunks_held(bump)
        && is_domain(after.domains@, after.bumps@[bump].domain) by {
        assert(bump_ok(before.bumps@[bump]) && before.chunks_held(bump));
        assert forall|at: int| 0 <= at < after.bumps@[bump].chunks@.len() implies {
            let chunk = #[trigger] after.bumps@[bump].chunks@[at];
            &&& after.holdings@.dom().contains(chunk)
            &&& after.holdings@[chunk].slices == 1
            &&& after.holdings@[chunk].user == (User::Chunk { bump: after.bumps@[bump].address })
        } by {
            assert(before.holdings@.dom().contains(before.bumps@[bump].chunks@[at]));
        }
    }
}

/// The blocks in use stay so where slabs, blocks in use, mappings and records are as they were, and
/// domains and bump heaps go on.
proof fn lemma_joined_uses(before: Space, after: Space)
    requires
        after.tuning == before.tuning,
        after.slabs == before.slabs,
        after.out == before.out,
        after.records == before.records,
        after.mapped == before.mapped,
        mediums_kept(before.domains@, after.domains@),
        before.domains@.len() <= after.domains@.len(),
        goes_on(before.bumps@, after.bumps@),
    ensures
        uses_kept(before, after),
{
    assert forall|block: Block| #[trigger] before.uses(block) implies after.uses(block) by {
        match block {
            Block::Small { block, context, class, requested_bytes } => {
                lemma_small_kept(before, after, block, context, class, requested_bytes);
            },
            Block::Medium { place, address, slices } => {
                assert(before.domains@[place].medium_live(address as int, slices));
            },
            Block::Bump { bump, address, bytes } => {
                assert(after.bumps@[bump] == before.bumps@[bump]);
            },
            Block::Direct { .. } => {},
        }
    }
}

/// A new heap is in order and keeps nothing.
proof fn lemma_new_heap(space: Space, heap: int, address: usize, options: general::Options, domain: usize, retirable: bool)
    requires
        0 <= heap < space.heaps@.len(),
        space.tuning.wf(),
        space.slabs.wf(),
        is_domain(space.domains@, domain),
        space.heaps@[heap].wf(),
        space.heaps@[heap].is_new(address, options, domain, retirable),
        space.heaps@[heap].small.classes@.hot.len() == crate::tunables::MAX_SIZE_CLASSES,
        space.heaps@[heap].small.classes@.partial.len() == crate::tunables::MAX_SIZE_CLASSES,
        space.heaps@[heap].small.context_classes@.hot.len() == crate::tunables::MAX_SIZE_CLASSES,
        space.heaps@[heap].small.context_classes@.partial.len() == crate::tunables::MAX_SIZE_CLASSES,
    ensures
        space.heap_ok(heap),
        keeps_nothing(space, heap),
        forall|slab: usize| !#[trigger] space.heap_refers(heap, slab),
{
    let sizes = space.sizes();
    let view = space.view_of(heap);
    let own = space.heaps@[heap];
    assert forall|slab: usize| #[trigger] view.slabs.dom().contains(slab) implies view.slabs[slab].well_formed() by {
        crate::allocator::blocks::lemma_at_address(&space.slabs, slab);
    }
    assert forall|context: bool, class: int| 0 <= class < sizes.len() implies view.hot(context, class)
        == crate::allocator::small::empty_hot() && #[trigger] view.hot_ok(sizes, context, class) by {
        assert(own.small.lists(context).hot[class] == crate::allocator::small::empty_hot());
    }
    assert forall|context: bool, class: int| 0 <= class < sizes.len() implies #[trigger] view.partial_ok(sizes, context, class) by {
        assert(own.small.lists(context).partial[class].len() == 0);
    }
    assert(view.inv(sizes));
    assert forall|block: usize| !#[trigger] space.cached_by(heap, block) by {
        if space.cached_by(heap, block) {
            let (x, c) = choose|x: bool, c: int| 0 <= c < sizes.len() && #[trigger] view.cached(x, c, block);
            assert(view.hot_ok(sizes, x, c));
        }
    }
    assert forall|slab: usize| !#[trigger] space.heap_refers(heap, slab) by {
        let bare = SmallHeap {
            classes: own.small.classes@,
            context: own.small.context_classes@,
            inbox: own.small.inbox@,
            slabs: Map::empty(),
        };
        if bare.refers(sizes.len() as int, slab) {
            let (x, c) = choose|x: bool, c: int| 0 <= c < sizes.len() && #[trigger] bare.names(x, c, slab);
            assert(own.small.lists(x).hot[c] == crate::allocator::small::empty_hot());
            assert(own.small.lists(x).partial[c].len() == 0);
        }
    }
    assert(cache_held(own, space.holdings@));
    assert(locality_held(own, space.holdings@, space.slabs@));
}

impl Space {
    /// The space of a process that has allocated nothing.
    pub fn new(tuning: Tuning) -> (space: Space)
        requires
            tuning.wf(),
        ensures
            space.whole(),
            space.tuning == tuning,
            space.domains@.len() == 0,
            space.heaps@.len() == 0,
            space.remotes@.len() == 0,
            space.bumps@.len() == 0,
            space.records.extras@.len() == 0,
            space.slabs@ == Map::<usize, crate::allocator::slab::SlabModel>::empty(),
            space.holdings@ == Map::<usize, Holding>::empty(),
            space.mapped@ == Map::<usize, int>::empty(),
            forall|block: Block| !#[trigger] space.uses(block),
    {
        let space = Space {
            tuning,
            domains: Vec::new(),
            slabs: SlabTable::new(),
            heaps: Vec::new(),
            remotes: Vec::new(),
            bumps: Vec::new(),
            records: Records::new(),
            holdings: Ghost(Map::empty()),
            out: Ghost(Map::empty()),
            mapped: Ghost(Map::empty()),
        };
        proof {
            assert(space.out@.dom() =~= space.slabs@.dom());
            assert forall|block: Block| !#[trigger] space.uses(block) by {
                match block {
                    Block::Direct { address, mapping, bytes } => {
                        crate::allocator::direct::lemma_record_at(space.records.extras@, address);
                    },
                    _ => {},
                }
            }
        }
        space
    }

    /// Adds a domain. Gives its number.
    pub fn add_domain(&mut self, is_default: bool) -> (id: usize)
        requires
            old(self).whole(),
            old(self).domains@.len() < usize::MAX,
        ensures
            final(self).whole(),
            id == old(self).domains@.len() + 1,
            final(self).domains@.len() == id,
            goes_on(old(self).domains@, final(self).domains@),
            final(self).domains@[id - 1].id == id,
            final(self).domains@[id - 1].is_default == is_default,
            final(self).domains@[id - 1].regions@.len() == 0,
            *final(self) == (Space { domains: final(self).domains, ..*old(self) }),
            uses_kept(*old(self), *final(self)),
    {
        let ghost before = *self;
        let id: usize = self.domains.len() + 1;
        let mut domain: DomainState = DomainState::new(id);
        domain.is_default = is_default;
        self.domains.push(domain);
        proof {
            let now = self.domains@;
            assert forall|at: int| 0 <= at < now.len() implies (#[trigger] now[at]).wf() && now[at].spans_ok() && now[at].id == at + 1 by {
                if at < before.domains@.len() {
                    assert(before.domains@[at].wf());
                } else {
                    assert(now[at].regions@.len() == 0);
                }
            }
            assert forall|left: int, right: int, i: int, j: int|
                #![trigger now[left].regions@[i], now[right].regions@[j]]
                0 <= left < right < now.len() && 0 <= i < now[left].regions@.len() && 0 <= j < now[right].regions@.len() implies apart(
                now[left].regions@[i].base as int,
                now[right].regions@[j].base as int,
            ) by {
                assert(now[left] == before.domains@[left] && now[right] == before.domains@[right]);
                assert(apart(before.domains@[left].regions@[i].base as int, before.domains@[right].regions@[j].base as int));
            }
            assert(mapped_ok(now, self.mapped@)) by {
                assert forall|address: usize, at: int, index: int|
                    #![trigger self.mapped@.dom().contains(address), now[at].regions@[index]]
                    self.mapped@.dom().contains(address) && 0 <= at < now.len() && 0 <= index < now[at].regions@.len() implies stretches_apart(
                    address as int,
                    self.mapped@[address],
                    now[at].regions@[index].base as int,
                    MEDIUM_REGION_SIZE as int,
                ) by {
                    assert(now[at] == before.domains@[at]);
                    assert(before.domains@[at].regions@[index].base == now[at].regions@[index].base);
                }
            }
            assert(holdings_ok(now, self.holdings@)) by {
                assert forall|address: usize| #[trigger] self.holdings@.dom().contains(address) implies held_ok(
                    now,
                    address,
                    self.holdings@[address],
                ) by {
                    assert(held_ok(before.domains@, address, before.holdings@[address]));
                    let place = self.holdings@[address].domain - 1;
                    assert(now[place] == before.domains@[place]);
                }
            }
            lemma_bumps_go_on(before, *self);
            lemma_joined(before, *self);
            assert(mediums_kept(before.domains@, now)) by {
                assert forall|at: int, a: int, s: int|
                    #![trigger now[at].medium_live(a, s)]
                    #![trigger before.domains@[at].medium_live(a, s)]
                    0 <= at < before.domains@.len() && before.domains@[at].medium_live(a, s) implies now[at].medium_live(a, s)
                    && now[at].medium_at(a) == before.domains@[at].medium_at(a) by {
                    assert(now[at] == before.domains@[at]);
                }
            }
            lemma_joined_uses(before, *self);
            lemma_records_go_on(before, *self);
            lemma_segments_go_on(before, *self);
            lemma_refs_go_on(before, *self, -1, 0);
        }
        id
    }

    /// Adds a heap. Gives its place.
    pub fn add_heap(&mut self, address: usize, options: general::Options, domain: usize, retirable: bool) -> (heap: usize)
        requires
            old(self).whole(),
            address != 0,
            MEDIUM_SLICE_SIZE <= options.locality_segment_bytes <= MEDIUM_REGION_SIZE,
            is_domain(old(self).domains@, domain),
            forall|at: int| !#[trigger] old(self).is_heap(at, address),
        ensures
            final(self).whole(),
            heap == old(self).heaps@.len(),
            final(self).heaps@.len() == heap + 1,
            goes_on(old(self).heaps@, final(self).heaps@),
            final(self).heaps@[heap as int].is_new(address, options, domain, retirable),
            *final(self) == (Space { heaps: final(self).heaps, ..*old(self) }),
            uses_kept(*old(self), *final(self)),
    {
        let ghost before = *self;
        let heap: usize = self.heaps.len();
        self.heaps.push(HeapState::new(address, options, domain, retirable));
        proof {
            lemma_new_heap(*self, heap as int, address, options, domain, retirable);
            assert forall|left: int, right: int|
                #![trigger self.heaps@[left], self.heaps@[right]]
                0 <= left < right < self.heaps@.len() && right >= before.heaps@.len() implies self.heaps@[left].address
                != self.heaps@[right].address by {
                assert(!before.is_heap(left, address));
            }
            lemma_bumps_go_on(before, *self);
            lemma_joined(before, *self);
            lemma_joined_uses(before, *self);
            lemma_records_go_on(before, *self);
            lemma_segments_go_on(before, *self);
            lemma_refs_go_on(before, *self, -1, 0);
        }
        heap
    }

    /// Adds a thread heap. Gives its place.
    pub fn add_remote(
        &mut self,
        address: usize,
        owner_token: usize,
        owner_heap: usize,
        domain: usize,
        options: general::Options,
    ) -> (remote: usize)
        requires
            old(self).whole(),
            address != 0,
            is_domain(old(self).domains@, domain),
            forall|at: int| !#[trigger] old(self).is_remote(at, address),
        ensures
            final(self).whole(),
            remote == old(self).remotes@.len(),
            final(self).remotes@.len() == remote + 1,
            goes_on(old(self).remotes@, final(self).remotes@),
            final(self).remotes@[remote as int].address == address,
            final(self).remotes@[remote as int].owner_token == owner_token,
            final(self).remotes@[remote as int].owner_heap == owner_heap,
            final(self).remotes@[remote as int].domain == domain,
            final(self).remotes@[remote as int].options == options,
            final(self).remotes@[remote as int].usage == no_remote_usage(),
            lists_nothing(*final(self), remote as int),
            *final(self) == (Space { remotes: final(self).remotes, ..*old(self) }),
            uses_kept(*old(self), *final(self)),
    {
        let ghost before = *self;
        let remote: usize = self.remotes.len();
        self.remotes.push(RemoteHeap::new(address, owner_token, owner_heap, domain, options));
        proof {
            let own = self.remotes@[remote as int];
            assert(own.inv(self.slabs@, self.sizes())) by {
                assert forall|context: bool, class: int, position: int|
                    #![trigger own.list(context, class)[position]]
                    0 <= class < self.sizes().len() && 0 <= position < own.list(context, class).len() implies false by {
                    assert(own.list(context, class).len() == 0);
                }
            }
            assert forall|block: usize| !#[trigger] self.listed_by(remote as int, block) by {
                if self.listed_by(remote as int, block) {
                    let (context, class) = choose|context: bool, class: int|
                        0 <= class < self.sizes().len() && #[trigger] own.list(context, class).contains(block);
                    assert(own.list(context, class).len() == 0);
                }
            }
            assert forall|left: int, right: int|
                #![trigger self.remotes@[left], self.remotes@[right]]
                0 <= left < right < self.remotes@.len() && right >= before.remotes@.len() implies self.remotes@[left].address
                != self.remotes@[right].address by {
                assert(!before.is_remote(left, address));
            }
            lemma_bumps_go_on(before, *self);
            lemma_joined(before, *self);
            lemma_joined_uses(before, *self);
            lemma_records_go_on(before, *self);
            lemma_segments_go_on(before, *self);
            lemma_refs_go_on(before, *self, -1, 0);
        }
        remote
    }

    /// Adds a bump heap that lives in a slice that was taken for it and committed. Gives its place.
    pub fn add_bump(&mut self, options: bump::Options, domain: usize, chunk: usize, fallback_heap: usize) -> (bump: usize)
        requires
            old(self).whole(),
            options.valid(),
            fallback_heap != 0,
            slice_pending(*old(self), domain, chunk),
        ensures
            final(self).whole(),
            bump == old(self).bumps@.len(),
            final(self).bumps@.len() == bump + 1,
            goes_on(old(self).bumps@, final(self).bumps@),
            ({
                let state = final(self).bumps@[bump as int];
                &&& state.pooled()
                &&& state.address == chunk + BUMP_STATE_OFFSET
                &&& state.chunks@ == seq![chunk]
                &&& state.retention_target == options.retained_chunks
                &&& state.options == options
                &&& state.domain == domain
                &&& state.fallback_heap == fallback_heap
            }),
            final(self).holdings@ == old(self).holdings@.insert(
                chunk,
                Holding { domain, slices: 1, user: User::Chunk { bump: (chunk + BUMP_STATE_OFFSET) as usize } },
            ),
            final(self).domains@.len() == old(self).domains@.len(),
            forall|other: int|
                #![trigger final(self).domains@[other]]
                0 <= other < old(self).domains@.len() && other != domain - 1 ==> final(self).domains@[other] == old(self).domains@[other],
            chunk_recorded(
                &old(self).domains@[domain - 1],
                &final(self).domains@[domain - 1],
                chunk,
                (chunk + BUMP_STATE_OFFSET) as usize,
            ),
            *final(self) == (Space {
                bumps: final(self).bumps,
                domains: final(self).domains,
                holdings: final(self).holdings,
                ..*old(self)
            }),
            mediums_kept(old(self).domains@, final(self).domains@),
            uses_kept(*old(self), *final(self)),
    {
        let ghost before = *self;
        let bump: usize = self.bumps.len();
        proof {
            lemma_held_bounds(before, chunk);
            assert(held_ok(before.domains@, chunk, before.holdings@[chunk]));
            assert(before.domains@[domain - 1].wf());
        }
        let state: usize = chunk + BUMP_STATE_OFFSET;
        match BumpState::create(options, domain, chunk, fallback_heap) {
            CreatedBump::Created { state } => {
                self.bumps.push(state);
            },
            _ => {},
        }
        let place: usize = domain - 1;
        self.domains[place].register_bump_chunk(chunk, state);
        proof {
            let holding = Holding { domain, slices: 1, user: User::Chunk { bump: state } };
            assert(same_regions(before.domains@[place as int], self.domains@[place as int]));
            assert(domain_step(before.domains@, self.domains@, place as int, before.mapped@, None));
            lemma_domain_step(before.domains@, self.domains@, place as int, before.mapped@, None);
            lemma_spans_held(before.domains@, self.domains@, place as int, before.holdings@);
            self.holdings@ = before.holdings@.insert(chunk, holding);
            lemma_retagged(self.domains@, before.holdings@, chunk, holding);
            assert(self.bumps_ok()) by {
                assert forall|at: int| 0 <= at < self.bumps@.len() implies bump_ok(#[trigger] self.bumps@[at]) && self.chunks_held(at)
                    && is_domain(self.domains@, self.bumps@[at].domain) by {
                    if at < bump {
                        assert(bump_ok(before.bumps@[at]) && before.chunks_held(at));
                        assert forall|index: int| 0 <= index < self.bumps@[at].chunks@.len() implies {
                            let held = #[trigger] self.bumps@[at].chunks@[index];
                            &&& self.holdings@.dom().contains(held)
                            &&& self.holdings@[held].slices == 1
                            &&& self.holdings@[held].user == (User::Chunk { bump: self.bumps@[at].address })
                        } by {
                            let held = before.bumps@[at].chunks@[index];
                            assert(before.holdings@[held].user is Chunk);
                            assert(held != chunk);
                        }
                    }
                }
                assert forall|left: int, right: int|
                    #![trigger self.bumps@[left], self.bumps@[right]]
                    0 <= left < right < self.bumps@.len() implies self.bumps@[left].address != self.bumps@[right].address by {
                    if right < bump {
                        assert(before.bumps@[left].address != before.bumps@[right].address);
                    } else {
                        assert(bump_ok(before.bumps@[left]) && before.chunks_held(left));
                        assert(before.holdings@[before.bumps@[left].chunks@[0]].user is Chunk);
                    }
                }
            }
            lemma_joined(before, *self);
            assert(mediums_kept(before.domains@, self.domains@));
            lemma_joined_uses(before, *self);
            lemma_records_go_on(before, *self);
            lemma_segments_go_on(before, *self);
            lemma_refs_go_on(before, *self, -1, 0);
        }
        bump
    }
}

} // verus!
