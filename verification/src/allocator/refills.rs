//! New slabs for the heaps of a space.

use vstd::prelude::*;

use crate::allocator::arenas::{
    domain_step, fresh_mapping, fresh_region, lemma_domain_step, lemma_gained_apart, lemma_held,
    lemma_spans_held, lemma_unheld, same_regions,
};
use crate::allocator::blocks::{idle_in, lemma_at_address, lemma_marked};
use crate::allocator::classes::{segment_of, MEDIUM_REGION_SIZE, MEDIUM_REGION_SLICE_COUNT, MEDIUM_SLICE_SIZE};
use crate::allocator::heaps::{released, segment_at, slab_sought, HeapState, Segment, SlabAllocation, SlabRequest};
use crate::allocator::holdings::spans_apart;
use crate::allocator::lives::{lemma_allocated_lives, lemma_mediums_less, lemma_same_allocations, mediums_less};
use crate::allocator::mediums::mediums_kept;
use crate::allocator::refill::{initialize_slab, lemma_first_block_idle, refilled, small_recorded};
use crate::allocator::remote::idle_at;
use crate::allocator::slab::{block_count, first_block, new_slab, total_padding, RemoteFree, SlabModel, SLAB_SIZE};
use crate::allocator::small::{marker_of, small};
use crate::allocator::space::{
    bump_ok, cache_held, classed, cuts_slabs, domains_ok, held_ok, holdings_ok, is_domain, locality_held,
    mapped_ok, slab_in, slab_placed, stretches_apart, Holding, Space, User,
};

verus! {

/// Whether everyone who held a span holds it still, but for spans that were only just taken, what
/// the one heap keeps for medium blocks, and the one bump heap's chunks.
pub open spec fn users_kept(before: Map<usize, Holding>, after: Map<usize, Holding>, heap: usize, bump: usize) -> bool {
    forall|address: usize|
        #[trigger] before.dom().contains(address) && !passing(before[address].user, heap, bump) ==> after.dom().contains(address)
            && after[address] == before[address]
}

/// Whether the span was only just taken, is kept by the one heap for medium blocks, or is a chunk
/// of the one bump heap.
pub open spec fn passing(user: User, own_heap: usize, own_bump: usize) -> bool {
    match user {
        User::Pending => true,
        User::Cache { heap, slot } => heap == own_heap,
        User::Chunk { bump } => bump == own_bump,
        _ => false,
    }
}

/// Whether every mapping is there still.
pub open spec fn mappings_kept(before: Map<usize, int>, after: Map<usize, int>) -> bool {
    forall|address: usize|
        #[trigger] before.dom().contains(address) ==> after.dom().contains(address) && after[address] == before[address]
}

/// Whether the thread heaps, the bump heaps and the records are as they were, and every heap but one.
pub open spec fn same_but_heap(before: Space, after: Space, heap: int) -> bool {
    &&& after.tuning == before.tuning
    &&& after.remotes == before.remotes
    &&& after.bumps == before.bumps
    &&& after.records == before.records
    &&& after.heaps@.len() == before.heaps@.len()
    &&& forall|other: int|
        #![trigger after.heaps@[other]]
        0 <= other < before.heaps@.len() && other != heap ==> after.heaps@[other] == before.heaps@[other]
    &&& after.heaps@[heap].address == before.heaps@[heap].address
    &&& after.heaps@[heap].domain == before.heaps@[heap].domain
    &&& after.domains@.len() == before.domains@.len()
}

pub proof fn lemma_placed_kept(before: Space, after: Space, own: usize, bump: usize, slab: usize)
    requires
        users_kept(before.holdings@, after.holdings@, own, bump),
        before.mapped@.dom().contains(slab) ==> after.mapped@.dom().contains(slab) && after.mapped@[slab] == before.mapped@[slab],
        slab_placed(before.holdings@, before.mapped@, slab),
    ensures
        slab_placed(after.holdings@, after.mapped@, slab),
{
    if exists|base: usize| #[trigger] slab_in(before.holdings@, base, slab) {
        let base = choose|base: usize| #[trigger] slab_in(before.holdings@, base, slab);
        assert(before.holdings@.dom().contains(base));
        assert(slab_in(after.holdings@, base, slab));
    } else {
        assert(before.mapped@.dom().contains(slab));
    }
}

pub proof fn lemma_chunks_kept(before: Space, after: Space, own: usize)
    requires
        before.bumps_ok(),
        after.bumps == before.bumps,
        after.domains@.len() == before.domains@.len(),
        users_kept(before.holdings@, after.holdings@, own, 0),
    ensures
        after.bumps_ok(),
{
    assert forall|bump: int| 0 <= bump < after.bumps@.len() implies bump_ok(#[trigger] after.bumps@[bump]) && after.chunks_held(bump)
        && is_domain(after.domains@, after.bumps@[bump].domain) by {
        assert(bump_ok(before.bumps@[bump]));
        assert(before.chunks_held(bump));
        assert forall|at: int| 0 <= at < after.bumps@[bump].chunks@.len() implies {
            let chunk = #[trigger] after.bumps@[bump].chunks@[at];
            &&& after.holdings@.dom().contains(chunk)
            &&& after.holdings@[chunk].slices == 1
            &&& after.holdings@[chunk].user == (User::Chunk { bump: after.bumps@[bump].address })
        } by {
            let chunk = before.bumps@[bump].chunks@[at];
            assert(before.holdings@.dom().contains(chunk));
        }
    }
}

pub proof fn lemma_cache_kept(heap: HeapState, before: Map<usize, Holding>, after: Map<usize, Holding>, own: usize, bump: usize)
    requires
        heap.address != own,
        cache_held(heap, before),
        users_kept(before, after, own, bump),
    ensures
        cache_held(heap, after),
{
    assert forall|slot: int|
        #![trigger heap.medium_cache@[slot]]
        0 <= slot < crate::allocator::classes::LOCAL_MEDIUM_CLASSES && heap.medium_cache@[slot] != 0 implies {
        let address = heap.medium_cache@[slot];
        &&& after.dom().contains(address)
        &&& after[address] == before[address]
    } by {
        assert(before.dom().contains(heap.medium_cache@[slot]));
    }
}

/// A step that leaves every slab and every small block alone keeps everything in order, where the
/// domains, the held spans and what lies in them are.
pub proof fn lemma_held_step(before: Space, after: Space, heap: int)
    requires
        before.inv(),
        0 <= heap < before.heaps@.len(),
        same_but_heap(before, after, heap),
        after.heaps@[heap].small == before.heaps@[heap].small,
        after.heaps@[heap].wf(),
        after.slabs == before.slabs,
        after.out == before.out,
        domains_ok(after.domains@),
        mapped_ok(after.domains@, after.mapped@),
        holdings_ok(after.domains@, after.holdings@),
        forall|at: int|
            #![trigger after.heaps@[at]]
            0 <= at < after.heaps@.len() ==> cache_held(after.heaps@[at], after.holdings@) && locality_held(
                after.heaps@[at],
                after.holdings@,
                after.slabs@,
            ),
        forall|slab: usize| #[trigger] after.slabs@.dom().contains(slab) ==> slab_placed(after.holdings@, after.mapped@, slab),
        after.bumps_ok(),
    ensures
        after.inv(),
        forall|block: usize| #[trigger] after.loose(block) == before.loose(block),
        forall|block: usize| #[trigger] after.in_use(block) == before.in_use(block),
{
    let sizes = before.sizes();
    assert forall|at: int| 0 <= at < after.heaps@.len() implies #[trigger] after.view_of(at) == before.view_of(at) by {}
    assert forall|at: int, block: usize| 0 <= at < after.heaps@.len() implies #[trigger] after.cached_by(at, block) == before.cached_by(
        at,
        block,
    ) by {
        assert(after.view_of(at) == before.view_of(at));
    }
    assert forall|at: int, block: usize| #[trigger] after.listed_by(at, block) == before.listed_by(at, block) by {}
    assert forall|at: int| 0 <= at < after.heaps@.len() implies #[trigger] after.heap_ok(at) by {
        assert(before.heap_ok(at));
        assert(after.view_of(at) == before.view_of(at));
        assert(cache_held(after.heaps@[at], after.holdings@));
    }
    assert forall|slab: usize| #[trigger] after.slabs@.dom().contains(slab) implies classed(after.slabs@[slab], sizes)
        && after.slabs@[slab].address == slab && slab_placed(after.holdings@, after.mapped@, slab) by {
        assert(before.slabs@.dom().contains(slab));
    }
    assert(after.lists_shared()) by {
        assert forall|remote: int, block: usize| 0 <= remote < after.remotes@.len() && #[trigger] after.listed_by(remote, block) implies {
            let slab = segment_of(block as int) as usize;
            after.slabs@.dom().contains(slab) && after.slabs@[slab].shared
        } by {
            assert(before.listed_by(remote, block));
        }
    }
    assert forall|block: usize| #[trigger] after.loose(block) == before.loose(block) by {
        if before.loose(block) {
            assert forall|at: int| 0 <= at < after.heaps@.len() implies !#[trigger] after.cached_by(at, block) by {
                assert(!before.cached_by(at, block));
            }
            assert forall|at: int| 0 <= at < after.remotes@.len() implies !#[trigger] after.listed_by(at, block) by {
                assert(!before.listed_by(at, block));
            }
        }
        if after.loose(block) {
            assert forall|at: int| 0 <= at < before.heaps@.len() implies !#[trigger] before.cached_by(at, block) by {
                assert(!after.cached_by(at, block));
            }
            assert forall|at: int| 0 <= at < before.remotes@.len() implies !#[trigger] before.listed_by(at, block) by {
                assert(!after.listed_by(at, block));
            }
        }
    }
    assert forall|slab: usize| #[trigger] after.slabs@.dom().contains(slab) implies after.entries_ok(slab) by {
        assert(before.entries_ok(slab));
        assert forall|at: int| 0 <= at < after.out@[slab].len() implies #[trigger] after.entry_ok(slab, at) by {
            assert(before.entry_ok(slab, at));
        }
    }
    assert forall|slab: usize| #[trigger] after.slabs@.dom().contains(slab) implies after.slab_owned(slab) by {
        assert(before.slab_owned(slab));
        let owner = before.slabs@[slab].owner;
        if before.slabs@[slab].shared {
            let at = choose|at: int| #[trigger] before.is_remote(at, owner);
            assert(after.is_remote(at, owner));
        } else {
            let at = choose|at: int| #[trigger] before.is_heap(at, owner);
            assert(after.is_heap(at, owner));
        }
    }
    assert forall|remote: int| 0 <= remote < after.remotes@.len() implies (#[trigger] after.remotes@[remote]).inv(after.slabs@, sizes)
        && is_domain(after.domains@, after.remotes@[remote].domain) by {
        assert(before.remotes@[remote].inv(before.slabs@, sizes));
    }
}

/// A step that leaves every slab and every small block alone keeps everything in order, where the
/// domains, the held spans and the one heap are.
pub proof fn lemma_arena_step(before: Space, after: Space, heap: int)
    requires
        before.inv(),
        0 <= heap < before.heaps@.len(),
        same_but_heap(before, after, heap),
        after.heaps@[heap].small == before.heaps@[heap].small,
        after.heaps@[heap].wf(),
        after.slabs == before.slabs,
        after.out == before.out,
        mappings_kept(before.mapped@, after.mapped@),
        domains_ok(after.domains@),
        mapped_ok(after.domains@, after.mapped@),
        holdings_ok(after.domains@, after.holdings@),
        users_kept(before.holdings@, after.holdings@, before.heaps@[heap].address, 0),
        cache_held(after.heaps@[heap], after.holdings@),
        locality_held(after.heaps@[heap], after.holdings@, after.slabs@),
    ensures
        after.inv(),
        forall|block: usize| #[trigger] after.loose(block) == before.loose(block),
        forall|block: usize| #[trigger] after.in_use(block) == before.in_use(block),
{
    let own = before.heaps@[heap].address;
    assert forall|at: int|
        #![trigger after.heaps@[at]]
        0 <= at < after.heaps@.len() implies cache_held(after.heaps@[at], after.holdings@) && locality_held(
        after.heaps@[at],
        after.holdings@,
        after.slabs@,
    ) by {
        assert(before.heap_ok(at));
        if at != heap {
            lemma_cache_kept(after.heaps@[at], before.holdings@, after.holdings@, own, 0);
            if after.heaps@[at].locality_next < after.heaps@[at].locality_end {
                assert(before.holdings@.dom().contains(after.heaps@[at].locality_segment));
            }
        }
    }
    assert forall|slab: usize| #[trigger] after.slabs@.dom().contains(slab) implies slab_placed(after.holdings@, after.mapped@, slab) by {
        assert(before.slabs@.dom().contains(slab));
        lemma_placed_kept(before, after, own, 0, slab);
    }
    lemma_chunks_kept(before, after, own);
    lemma_held_step(before, after, heap);
}

/// A step of the domains and of the held spans alone keeps everything in order. The chunks of one
/// bump heap may come and go with it.
pub proof fn lemma_span_step(before: Space, after: Space, bump: usize)
    requires
        before.inv(),
        after.tuning == before.tuning,
        after.remotes == before.remotes,
        if bump == 0 {
            after.bumps == before.bumps
        } else {
            after.bumps_ok()
        },
        after.heaps == before.heaps,
        after.slabs == before.slabs,
        after.out == before.out,
        after.domains@.len() == before.domains@.len(),
        forall|slab: usize|
            #[trigger] before.mapped@.dom().contains(slab) && before.slabs@.dom().contains(slab) ==> after.mapped@.dom().contains(slab)
                && after.mapped@[slab] == before.mapped@[slab],
        domains_ok(after.domains@),
        mapped_ok(after.domains@, after.mapped@),
        holdings_ok(after.domains@, after.holdings@),
        users_kept(before.holdings@, after.holdings@, 0, bump),
    ensures
        after.inv(),
        forall|block: usize| #[trigger] after.loose(block) == before.loose(block),
        forall|block: usize| #[trigger] after.in_use(block) == before.in_use(block),
{
    let sizes = before.sizes();
    let own: usize = 0;
    assert forall|at: int, block: usize| #[trigger] after.cached_by(at, block) == before.cached_by(at, block) by {
        assert(after.view_of(at) == before.view_of(at));
    }
    assert forall|at: int, block: usize| #[trigger] after.listed_by(at, block) == before.listed_by(at, block) by {}
    assert forall|at: int| 0 <= at < after.heaps@.len() implies #[trigger] after.heap_ok(at) by {
        assert(before.heap_ok(at));
        assert(after.view_of(at) == before.view_of(at));
        lemma_cache_kept(after.heaps@[at], before.holdings@, after.holdings@, 0, bump);
        if after.heaps@[at].locality_next < after.heaps@[at].locality_end {
            assert(before.holdings@.dom().contains(after.heaps@[at].locality_segment));
        }
    }
    assert forall|slab: usize| #[trigger] after.slabs@.dom().contains(slab) implies classed(after.slabs@[slab], sizes)
        && after.slabs@[slab].address == slab && slab_placed(after.holdings@, after.mapped@, slab) by {
        assert(before.slabs@.dom().contains(slab));
        lemma_placed_kept(before, after, own, bump, slab);
    }
    if bump == 0 {
        assert(forall|at: int| 0 <= at < before.bumps@.len() ==> (#[trigger] before.bumps@[at]).address != 0);
        lemma_chunks_kept(before, after, own);
    }
    assert(after.lists_shared()) by {
        assert forall|remote: int, block: usize| 0 <= remote < after.remotes@.len() && #[trigger] after.listed_by(remote, block) implies {
            let slab = segment_of(block as int) as usize;
            after.slabs@.dom().contains(slab) && after.slabs@[slab].shared
        } by {
            assert(before.listed_by(remote, block));
        }
    }
    assert forall|block: usize| #[trigger] after.loose(block) == before.loose(block) by {
        if before.loose(block) {
            assert forall|at: int| 0 <= at < after.heaps@.len() implies !#[trigger] after.cached_by(at, block) by {
                assert(!before.cached_by(at, block));
            }
            assert forall|at: int| 0 <= at < after.remotes@.len() implies !#[trigger] after.listed_by(at, block) by {
                assert(!before.listed_by(at, block));
            }
        }
        if after.loose(block) {
            assert forall|at: int| 0 <= at < before.heaps@.len() implies !#[trigger] before.cached_by(at, block) by {
                assert(!after.cached_by(at, block));
            }
            assert forall|at: int| 0 <= at < before.remotes@.len() implies !#[trigger] before.listed_by(at, block) by {
                assert(!after.listed_by(at, block));
            }
        }
    }
    assert forall|slab: usize| #[trigger] after.slabs@.dom().contains(slab) implies after.entries_ok(slab) by {
        assert(before.entries_ok(slab));
        assert forall|at: int| 0 <= at < after.out@[slab].len() implies #[trigger] after.entry_ok(slab, at) by {
            assert(before.entry_ok(slab, at));
        }
    }
    assert forall|slab: usize| #[trigger] after.slabs@.dom().contains(slab) implies after.slab_owned(slab) by {
        assert(before.slab_owned(slab));
        let owner = before.slabs@[slab].owner;
        if before.slabs@[slab].shared {
            let at = choose|at: int| #[trigger] before.is_remote(at, owner);
            assert(after.is_remote(at, owner));
        } else {
            let at = choose|at: int| #[trigger] before.is_heap(at, owner);
            assert(after.is_heap(at, owner));
        }
    }
    assert forall|remote: int| 0 <= remote < after.remotes@.len() implies (#[trigger] after.remotes@[remote]).inv(after.slabs@, sizes)
        && is_domain(after.domains@, after.remotes@[remote].domain) by {
        assert(before.remotes@[remote].inv(before.slabs@, sizes));
    }
    assert(after.waiting_apart()) by {
        assert forall|left: int, right: int, block: usize|
            #![trigger after.cached_by(left, block), after.cached_by(right, block)]
            0 <= left < after.heaps@.len() && 0 <= right < after.heaps@.len() && left != right implies !(after.cached_by(left, block)
            && after.cached_by(right, block)) by {
            assert(before.cached_by(left, block) == after.cached_by(left, block));
            assert(before.cached_by(right, block) == after.cached_by(right, block));
        }
        assert forall|heap: int, other: int, block: usize|
            #![trigger after.cached_by(heap, block), after.listed_by(other, block)]
            0 <= heap < after.heaps@.len() && 0 <= other < after.remotes@.len() implies !(after.cached_by(heap, block)
            && after.listed_by(other, block)) by {
            assert(before.cached_by(heap, block) == after.cached_by(heap, block));
            assert(before.listed_by(other, block) == after.listed_by(other, block));
        }
        assert forall|left: int, right: int, block: usize|
            #![trigger after.listed_by(left, block), after.listed_by(right, block)]
            0 <= left < after.remotes@.len() && 0 <= right < after.remotes@.len() && left != right implies !(after.listed_by(left, block)
            && after.listed_by(right, block)) by {
            assert(before.listed_by(left, block) == after.listed_by(left, block));
            assert(before.listed_by(right, block) == after.listed_by(right, block));
        }
    }
}

/// A new slab of a heap keeps everything in order, and its blocks that are handed out wait nowhere.
pub proof fn lemma_new_slab(before: Space, after: Space, heap: int, slab: usize, model: SlabModel)
    requires
        before.inv(),
        0 <= heap < before.heaps@.len(),
        same_but_heap(before, after, heap),
        after.heaps@[heap].wf(),
        !before.slabs@.dom().contains(slab),
        after.slabs.wf(),
        after.slabs@ == before.slabs@.insert(slab, model),
        classed(model, before.sizes()),
        model.well_formed(),
        model.address == slab,
        !model.shared,
        model.owner == before.heaps@[heap].address,
        model.remote.len() == 0,
        model.padding == 0,
        after.view_of(heap).inv(before.sizes()),
        forall|x: bool, c: int, block: usize|
            0 <= c < before.sizes().len() ==> #[trigger] after.view_of(heap).cached(x, c, block) == before.view_of(heap).cached(x, c, block),
        after.out@ == before.out@.insert(slab, Seq::<RemoteFree>::empty()),
        mappings_kept(before.mapped@, after.mapped@),
        domains_ok(after.domains@),
        mapped_ok(after.domains@, after.mapped@),
        holdings_ok(after.domains@, after.holdings@),
        users_kept(before.holdings@, after.holdings@, 0, 0),
        cache_held(after.heaps@[heap], after.holdings@),
        slab_placed(after.holdings@, after.mapped@, slab),
        forall|at: int|
            #![trigger after.heaps@[at]]
            0 <= at < after.heaps@.len() ==> locality_held(after.heaps@[at], after.holdings@, after.slabs@),
    ensures
        after.inv(),
        forall|block: usize| #[trigger] before.loose(block) ==> after.loose(block),
        forall|block: usize|
            segment_of(block as int) == slab && idle_in(model, block as int) ==> #[trigger] after.loose(block) && !after.in_use(block),
{
    let sizes = before.sizes();
    let own: usize = 0;
    assert forall|at: int, block: usize| 0 <= at < after.heaps@.len() implies #[trigger] after.cached_by(at, block) == before.cached_by(
        at,
        block,
    ) by {
        let left = before.view_of(at);
        let right = after.view_of(at);
        if before.cached_by(at, block) {
            let (x, c) = choose|x: bool, c: int| 0 <= c < sizes.len() && #[trigger] left.cached(x, c, block);
            assert(right.cached(x, c, block));
        }
        if after.cached_by(at, block) {
            let (x, c) = choose|x: bool, c: int| 0 <= c < sizes.len() && #[trigger] right.cached(x, c, block);
            assert(left.cached(x, c, block));
        }
    }
    assert forall|at: int, block: usize| #[trigger] after.listed_by(at, block) == before.listed_by(at, block) by {}
    assert forall|at: int| 0 <= at < after.heaps@.len() implies #[trigger] after.heap_ok(at) by {
        assert(before.heap_ok(at));
        if at != heap {
            crate::allocator::refill::lemma_slab_added(before.view_of(at), sizes, slab, model);
            assert(after.view_of(at) == before.view_of(at).with_slab(slab, model));
            lemma_cache_kept(after.heaps@[at], before.holdings@, after.holdings@, own, 0);
        }
        assert(locality_held(after.heaps@[at], after.holdings@, after.slabs@));
    }
    assert forall|other: usize| #[trigger] after.slabs@.dom().contains(other) implies classed(after.slabs@[other], sizes)
        && after.slabs@[other].address == other && slab_placed(after.holdings@, after.mapped@, other) by {
        if other != slab {
            assert(before.slabs@.dom().contains(other));
            lemma_placed_kept(before, after, own, 0, other);
        }
    }
    lemma_chunks_kept(before, after, own);
    assert forall|remote: int| 0 <= remote < after.remotes@.len() implies (#[trigger] after.remotes@[remote]).inv(after.slabs@, sizes)
        && is_domain(after.domains@, after.remotes@[remote].domain) by {
        let own = before.remotes@[remote];
        assert(own.inv(before.slabs@, sizes));
        assert forall|x: bool, c: int, block: usize|
            0 <= c < sizes.len() && own.list(x, c).contains(block) && idle_at(before.slabs@, sizes, x, c, block) implies #[trigger] idle_at(
            after.slabs@,
            sizes,
            x,
            c,
            block,
        ) by {
            assert(segment_of(block as int) as usize != slab);
        }
        crate::allocator::remote::lemma_remote_kept(&own, sizes, before.slabs@, after.slabs@);
    }
    assert forall|block: usize| #[trigger] before.loose(block) implies after.loose(block) by {
        assert(segment_of(block as int) as usize != slab);
        assert forall|at: int| 0 <= at < after.heaps@.len() implies !#[trigger] after.cached_by(at, block) by {
            assert(!before.cached_by(at, block));
        }
        assert forall|at: int| 0 <= at < after.remotes@.len() implies !#[trigger] after.listed_by(at, block) by {
            assert(!before.listed_by(at, block));
        }
    }
    assert(after.lists_shared()) by {
        assert forall|remote: int, block: usize| 0 <= remote < after.remotes@.len() && #[trigger] after.listed_by(remote, block) implies {
            let own_slab = segment_of(block as int) as usize;
            after.slabs@.dom().contains(own_slab) && after.slabs@[own_slab].shared
        } by {
            assert(before.listed_by(remote, block));
        }
    }
    assert(after.out@.dom() =~= after.slabs@.dom());
    assert forall|other: usize| #[trigger] after.slabs@.dom().contains(other) implies after.entries_ok(other) by {
        if other != slab {
            assert(before.slabs@.dom().contains(other));
            assert(before.entries_ok(other));
            assert forall|at: int| 0 <= at < after.out@[other].len() implies #[trigger] after.entry_ok(other, at) by {
                assert(before.entry_ok(other, at));
            }
        } else {
            assert(total_padding(model.remote) == 0);
            assert(total_padding(after.out@[slab]) == 0);
        }
    }
    assert forall|other: usize| #[trigger] after.slabs@.dom().contains(other) implies after.slab_owned(other) by {
        if other != slab {
            assert(before.slabs@.dom().contains(other));
            assert(before.slab_owned(other));
            let owner = before.slabs@[other].owner;
            if before.slabs@[other].shared {
                let at = choose|at: int| #[trigger] before.is_remote(at, owner);
                assert(after.is_remote(at, owner));
            } else {
                let at = choose|at: int| #[trigger] before.is_heap(at, owner);
                assert(after.is_heap(at, owner));
            }
        } else {
            assert(after.is_heap(heap, model.owner));
        }
    }
    assert forall|block: usize| segment_of(block as int) == slab && idle_in(model, block as int) implies #[trigger] after.loose(block)
        && !after.in_use(block) by {
        assert forall|at: int| 0 <= at < after.heaps@.len() implies !#[trigger] after.cached_by(at, block) by {
            if before.cached_by(at, block) {
                let (x, c) = choose|x: bool, c: int| 0 <= c < sizes.len() && #[trigger] before.view_of(at).cached(x, c, block);
                assert(before.heap_ok(at));
                assert(before.view_of(at).hot_ok(sizes, x, c));
                assert(before.view_of(at).idle_block(sizes, x, c, block));
                assert(false);
            }
        }
        assert forall|at: int| 0 <= at < after.remotes@.len() implies !#[trigger] after.listed_by(at, block) by {
            if before.listed_by(at, block) {
                let own = before.remotes@[at];
                let (x, c) = choose|x: bool, c: int| 0 <= c < sizes.len() && #[trigger] own.list(x, c).contains(block);
                let position = choose|position: int| 0 <= position < own.list(x, c).len() && own.list(x, c)[position] == block;
                assert(own.inv(before.slabs@, sizes));
                assert(idle_at(before.slabs@, sizes, x, c, own.list(x, c)[position]));
                assert(false);
            }
        }
    }
}

/// Whether the request is one that the heap is in the middle of.
pub open spec fn refill_pending(space: Space, heap: int, request: SlabRequest) -> bool {
    match request {
        SlabRequest::CommitSlab { slab } => {
            &&& slab == space.heaps@[heap].locality_next
            &&& space.heaps@[heap].locality_next < space.heaps@[heap].locality_end
        },
        SlabRequest::CommitSegment { base, slices } => {
            &&& space.heaps@[heap].locality_next >= space.heaps@[heap].locality_end
            &&& space.holdings@.dom().contains(base)
            &&& space.holdings@[base] == (Holding {
                domain: space.heaps@[heap].domain,
                slices: slices as int,
                user: User::Pending,
            })
        },
        SlabRequest::MapSlab => space.heaps@[heap].locality_next >= space.heaps@[heap].locality_end,
    }
}

/// Whether the answer is one that the system can give to the request: bytes within what was to be
/// committed, or a mapping that meets nothing.
pub open spec fn refill_reply(space: Space, request: SlabRequest, reply: Option<usize>) -> bool {
    match (request, reply) {
        (_, None) => true,
        (SlabRequest::CommitSlab { slab }, Some(bytes)) => bytes <= SLAB_SIZE,
        (SlabRequest::CommitSegment { base, slices }, Some(bytes)) => bytes <= slices * MEDIUM_SLICE_SIZE,
        (SlabRequest::MapSlab, Some(address)) => address as int % (SLAB_SIZE as int) == 0 && fresh_mapping(
            space.domains@,
            space.mapped@,
            address,
            SLAB_SIZE as int,
        ),
    }
}

/// A held span lies in a region, so far from the end of the address space.
pub proof fn lemma_held_bounds(space: Space, address: usize)
    requires
        domains_ok(space.domains@),
        holdings_ok(space.domains@, space.holdings@),
        space.holdings@.dom().contains(address),
    ensures
        0 < address,
        address as int % (MEDIUM_SLICE_SIZE as int) == 0,
        1 <= space.holdings@[address].slices <= MEDIUM_REGION_SLICE_COUNT,
        address + space.holdings@[address].slices * MEDIUM_SLICE_SIZE <= usize::MAX,
        exists|at: int, index: int|
            0 <= at < space.domains@.len() && 0 <= index < space.domains@[at].regions@.len() && (
            #[trigger] space.domains@[at].regions@[index]).base <= address && address + space.holdings@[address].slices
                * MEDIUM_SLICE_SIZE <= space.domains@[at].regions@[index].base + MEDIUM_REGION_SIZE,
{
    let holding = space.holdings@[address];
    let at = holding.domain - 1;
    assert(held_ok(space.domains@, address, holding));
    let domain = space.domains@[at];
    assert(domain.wf());
    let index = domain.region_at(address as int)->0;
    let region = domain.regions@[index];
    assert(region.holds(address as int) && 0 <= index < domain.regions@.len());
    assert(region.wf());
    let slice = region.slice_of(address as int);
    assert(0 <= slice && address == region.base + slice * MEDIUM_SLICE_SIZE) by (nonlinear_arith)
        requires
            region.base <= address,
            (address - region.base) % (MEDIUM_SLICE_SIZE as int) == 0,
            slice == (address - region.base) / (MEDIUM_SLICE_SIZE as int),
            MEDIUM_SLICE_SIZE == 65536,
    ;
    assert((slice + holding.slices) * MEDIUM_SLICE_SIZE <= MEDIUM_REGION_SIZE) by (nonlinear_arith)
        requires
            slice + holding.slices <= MEDIUM_REGION_SLICE_COUNT,
            MEDIUM_REGION_SLICE_COUNT == 16384,
            MEDIUM_SLICE_SIZE == 65536,
            MEDIUM_REGION_SIZE == 1073741824,
    ;
    assert(slice * MEDIUM_SLICE_SIZE + holding.slices * MEDIUM_SLICE_SIZE == (slice + holding.slices) * MEDIUM_SLICE_SIZE) by (nonlinear_arith);
    assert(address as int % (MEDIUM_SLICE_SIZE as int) == 0) by (nonlinear_arith)
        requires
            region.base as int % (MEDIUM_SLICE_SIZE as int) == 0,
            (address - region.base) % (MEDIUM_SLICE_SIZE as int) == 0,
            MEDIUM_SLICE_SIZE == 65536,
    ;
    assert(space.domains@[at].regions@[index].base <= address);
}

/// Every slab lies apart from a span that is held for something else.
pub proof fn lemma_slab_apart(space: Space, slab: usize, address: usize)
    requires
        domains_ok(space.domains@),
        holdings_ok(space.domains@, space.holdings@),
        mapped_ok(space.domains@, space.mapped@),
        slab_placed(space.holdings@, space.mapped@, slab),
        space.holdings@.dom().contains(address),
        !cuts_slabs(space.holdings@[address].user),
    ensures
        stretches_apart(slab as int, SLAB_SIZE as int, address as int, space.holdings@[address].slices * MEDIUM_SLICE_SIZE),
{
    if exists|base: usize| #[trigger] slab_in(space.holdings@, base, slab) {
        let base = choose|base: usize| #[trigger] slab_in(space.holdings@, base, slab);
        assert(spans_apart(base as int, space.holdings@[base].slices, address as int, space.holdings@[address].slices));
    } else {
        lemma_held_bounds(space, address);
        let (at, index) = choose|at: int, index: int|
            0 <= at < space.domains@.len() && 0 <= index < space.domains@[at].regions@.len() && (
            #[trigger] space.domains@[at].regions@[index]).base <= address && address + space.holdings@[address].slices
                * MEDIUM_SLICE_SIZE <= space.domains@[at].regions@[index].base + MEDIUM_REGION_SIZE;
        assert(space.mapped@.dom().contains(slab));
        assert(stretches_apart(slab as int, space.mapped@[slab], space.domains@[at].regions@[index].base as int, MEDIUM_REGION_SIZE as int));
    }
}

/// Whether nothing differs of the domains but in the one that the heap belongs to.
pub open spec fn other_domains_stay(before: Space, after: Space, heap: int) -> bool {
    forall|other: int|
        #![trigger after.domains@[other]]
        0 <= other < before.domains@.len() && other != before.heaps@[heap].domain - 1 ==> after.domains@[other] == before.domains@[other]
}

/// Whether the request is the one that the heap makes for its next slab, and the slices that it asks
/// for, and no others, are taken of the heap's domain.
pub open spec fn refill_sought(before: Space, after: Space, heap: int, spare: Option<usize>, request: SlabRequest, appended: bool) -> bool {
    let own = before.heaps@[heap];
    &&& slab_sought(&own, &before.domains@[own.domain - 1], &after.domains@[own.domain - 1], spare, request, appended)
    &&& other_domains_stay(before, after, heap)
    &&& after.holdings@ == (match request {
        SlabRequest::CommitSegment { base, slices } => before.holdings@.insert(
            base,
            Holding { domain: own.domain, slices: slices as int, user: User::Pending },
        ),
        _ => before.holdings@,
    })
}

/// Whether the slices that a refill had taken are free again, where it had taken any, and nothing else
/// of the domains differs.
pub open spec fn refill_dropped(before: Space, after: Space, heap: int, request: SlabRequest) -> bool {
    let place = before.heaps@[heap].domain - 1;
    &&& other_domains_stay(before, after, heap)
    &&& match request {
        SlabRequest::CommitSegment { base, slices } => {
            &&& released(&before.domains@[place], &after.domains@[place], base, slices as int)
            &&& after.holdings@ == before.holdings@.remove(base)
        },
        _ => {
            &&& after.domains@[place].regions@ == before.domains@[place].regions@
            &&& after.holdings@ == before.holdings@
        },
    }
}

impl Space {
    /// Starts on a new slab for a heap: the next one of its segment, the first one of a new
    /// segment, or one in a mapping of its own. Also says whether the spare region was used.
    pub fn begin_refill(&mut self, heap: usize, spare: Option<usize>, track_aggregates: bool) -> (request: (SlabRequest, bool))
        requires
            old(self).inv(),
            heap < old(self).heaps@.len(),
            spare matches Some(base) ==> fresh_region(old(self).domains@, old(self).mapped@, base),
        ensures
            final(self).inv(),
            same_but_heap(*old(self), *final(self), heap as int),
            refill_pending(*final(self), heap as int, request.0),
            final(self).slabs == old(self).slabs,
            final(self).out == old(self).out,
            final(self).mapped == old(self).mapped,
            final(self).heaps@[heap as int] == (HeapState { track_aggregates, ..old(self).heaps@[heap as int] }),
            users_kept(old(self).holdings@, final(self).holdings@, 0, 0),
            mediums_kept(old(self).domains@, final(self).domains@),
            mediums_less(old(self).domains@, final(self).domains@),
            forall|block: usize| #[trigger] final(self).loose(block) == old(self).loose(block),
            refill_sought(*old(self), *final(self), heap as int, spare, request.0, request.1),
            request.0 is MapSlab ==> spare is None,
            request.1 ==> spare is Some,
    {
        let ghost before = *self;
        assert(self.heap_ok(heap as int));
        let place: usize = self.heaps[heap].domain - 1;
        proof {
            let domain = before.domains@[place as int];
            assert(domain.wf());
            if let Some(base) = spare {
                assert forall|index: int| 0 <= index < domain.regions@.len() implies crate::allocator::domains::apart(
                    (#[trigger] domain.regions@[index]).base as int,
                    base as int,
                ) by {
                    assert(crate::allocator::domains::apart(before.domains@[place as int].regions@[index].base as int, base as int));
                }
            }
        }
        let request: (SlabRequest, bool) = self.heaps[heap].begin_slab(&mut self.domains[place], spare, track_aggregates);
        proof {
            let left = before.domains@[place as int];
            let right = self.domains@[place as int];
            assert(self.heaps@[heap as int].small == before.heaps@[heap as int].small);
            match request.0 {
                SlabRequest::CommitSegment { base, slices } => {
                    let holding = Holding { domain: before.heaps@[heap as int].domain, slices: slices as int, user: User::Pending };
                    let grown: Option<usize> = if request.1 {
                        Some(base)
                    } else {
                        None
                    };
                    assert(domain_step(before.domains@, self.domains@, place as int, before.mapped@, grown));
                    lemma_domain_step(before.domains@, self.domains@, place as int, before.mapped@, grown);
                    lemma_gained_apart(before.domains@, self.domains@, place as int, before.holdings@, base, slices as int);
                    lemma_held(self.domains@, before.holdings@, base, holding);
                    self.holdings@ = before.holdings@.insert(base, holding);
                    lemma_allocated_lives(&left, &right, spare, slices as int, base, request.1);
                },
                _ => {
                    lemma_same_allocations(&left, &right);
                    assert(domain_step(before.domains@, self.domains@, place as int, before.mapped@, None));
                    lemma_domain_step(before.domains@, self.domains@, place as int, before.mapped@, None);
                    crate::allocator::heaps::lemma_same_regions(&left, &right);
                    lemma_spans_held(before.domains@, self.domains@, place as int, before.holdings@);
                },
            }
            assert(cache_held(self.heaps@[heap as int], self.holdings@)) by {
                lemma_cache_kept(before.heaps@[heap as int], before.holdings@, self.holdings@, 0, 0);
            }
            assert(locality_held(self.heaps@[heap as int], self.holdings@, self.slabs@));
            lemma_arena_step(before, *self, heap as int);
            lemma_mediums_less(before.domains@, self.domains@, place as int);
        }
        request
    }
}

/// A slab inside a heap's own span lies in no other heap's locality range.
proof fn lemma_localities_apart(space: Space, heap: int, other: int, base: usize, slab: usize)
    requires
        space.heaps_ok(),
        holdings_ok(space.domains@, space.holdings@),
        0 <= heap < space.heaps@.len(),
        0 <= other < space.heaps@.len(),
        heap != other,
        space.holdings@.dom().contains(base),
        space.holdings@[base].user != (User::Segment { heap: space.heaps@[other].address }),
        base <= slab,
        slab + SLAB_SIZE <= base + space.holdings@[base].slices * MEDIUM_SLICE_SIZE,
    ensures
        !(space.heaps@[other].locality_next <= slab < space.heaps@[other].locality_end),
{
    assert(space.heap_ok(other));
    let own = space.heaps@[other];
    if own.locality_next <= slab < own.locality_end {
        let segment = own.locality_segment;
        assert(space.holdings@.dom().contains(segment));
        assert(segment != base);
        assert(spans_apart(segment as int, space.holdings@[segment].slices, base as int, space.holdings@[base].slices));
    }
}

impl Space {
    /// Finishes a new slab for a heap with the system's answer: puts the slab to use and takes its
    /// first block, or gives back what was taken. Gives 0 where the system refused.
    #[verifier::rlimit(80)]
    #[verifier::spinoff_prover]
    pub fn finish_refill(
        &mut self,
        heap: usize,
        request: SlabRequest,
        reply: Option<usize>,
        context: bool,
        class: usize,
        track_aggregates: bool,
    ) -> (block: usize)
        requires
            old(self).inv(),
            heap < old(self).heaps@.len(),
            class < old(self).sizes().len(),
            refill_pending(*old(self), heap as int, request),
            refill_reply(*old(self), request, reply),
        ensures
            final(self).inv(),
            same_but_heap(*old(self), *final(self), heap as int),
            forall|other: usize| #[trigger] old(self).loose(other) ==> final(self).loose(other),
            users_kept(old(self).holdings@, final(self).holdings@, 0, 0),
            mediums_kept(old(self).domains@, final(self).domains@),
            mediums_less(old(self).domains@, final(self).domains@),
            block == 0 <==> reply is None,
            match reply {
                None => {
                    &&& final(self).slabs == old(self).slabs
                    &&& final(self).out == old(self).out
                    &&& final(self).mapped == old(self).mapped
                    &&& final(self).heaps@ == old(self).heaps@
                    &&& refill_dropped(*old(self), *final(self), heap as int, request)
                },
                Some(answer) => {
                    let slab = match request {
                        SlabRequest::CommitSlab { slab } => slab,
                        SlabRequest::CommitSegment { base, slices } => base,
                        SlabRequest::MapSlab => answer,
                    };
                    &&& !old(self).slabs@.dom().contains(slab)
                    &&& final(self).slabs@.dom().contains(slab)
                    &&& final(self).slabs@.remove(slab) == old(self).slabs@
                    &&& locality_moved(old(self).heaps@[heap as int], final(self).heaps@[heap as int], request, answer)
                    &&& final(self).view_of(heap as int) == refilled(
                        old(self).view_of(heap as int),
                        old(self).sizes(),
                        context,
                        class as int,
                        slab,
                        old(self).heaps@[heap as int].address,
                    )
                    &&& arena_moved(*old(self), *final(self), heap as int, request, slab)
                    &&& other_domains_stay(*old(self), *final(self), heap as int)
                    &&& small_recorded(
                        &old(self).domains@[old(self).heaps@[heap as int].domain - 1],
                        &final(self).domains@[old(self).heaps@[heap as int].domain - 1],
                        slab,
                        class,
                        context,
                        old(self).heaps@[heap as int].address,
                        block_count(old(self).sizes()[class as int] as int) - first_block(old(self).sizes()[class as int] as int),
                        track_aggregates,
                    )
                    &&& block == slab + first_block(old(self).sizes()[class as int] as int) * old(self).sizes()[class as int]
                    &&& final(self).out@ == old(self).out@.insert(slab, Seq::<RemoteFree>::empty())
                    &&& final(self).loose(block)
                    &&& !final(self).in_use(block)
                    &&& idle_at(final(self).slabs@, final(self).sizes(), context, class as int, block)
                },
            },
    {
        let ghost before = *self;
        let ghost sizes = self.sizes();
        assert(self.heap_ok(heap as int));
        let place: usize = self.heaps[heap].domain - 1;
        let ghost at = heap as int;
        let ghost address = self.heaps@[at].address;
        proof {
            assert(before.domains@[place as int].wf());
            match request {
                SlabRequest::CommitSlab { slab } => {
                    lemma_held_bounds(before, before.heaps@[at].locality_segment);
                    let base = before.heaps@[at].locality_segment;
                    let slices = before.holdings@[base].slices;
                    assert(slices * MEDIUM_SLICE_SIZE <= MEDIUM_REGION_SIZE) by (nonlinear_arith)
                        requires
                            slices <= MEDIUM_REGION_SLICE_COUNT,
                            MEDIUM_REGION_SLICE_COUNT == 16384,
                            MEDIUM_SLICE_SIZE == 65536,
                            MEDIUM_REGION_SIZE == 1073741824,
                    ;
                },
                SlabRequest::CommitSegment { base, slices } => {
                    lemma_held_bounds(before, base);
                    assert(held_ok(before.domains@, base, before.holdings@[base]));
                    assert(base as int % (SLAB_SIZE as int) == 0) by (nonlinear_arith)
                        requires
                            base as int % (MEDIUM_SLICE_SIZE as int) == 0,
                            MEDIUM_SLICE_SIZE == 65536,
                            SLAB_SIZE == 32768,
                    ;
                },
                SlabRequest::MapSlab => {},
            }
        }
        let allocation: Option<SlabAllocation> = self.heaps[heap].finish_slab(&mut self.domains[place], request, reply);
        let ghost middle = *self;
        match allocation {
            None => {
                proof {
                    match request {
                        SlabRequest::CommitSegment { base, slices } => {
                            self.holdings@ = before.holdings@.remove(base);
                            assert(same_regions(before.domains@[place as int], self.domains@[place as int]));
                            lemma_unheld(before.domains@, self.domains@, place as int, before.holdings@, base);
                        },
                        _ => {
                            crate::allocator::heaps::lemma_same_regions(&before.domains@[place as int], &self.domains@[place as int]);
                            lemma_spans_held(before.domains@, self.domains@, place as int, before.holdings@);
                        },
                    }
                    assert(domain_step(before.domains@, self.domains@, place as int, before.mapped@, None));
                    lemma_domain_step(before.domains@, self.domains@, place as int, before.mapped@, None);
                    assert(users_kept(before.holdings@, self.holdings@, 0, 0));
                    lemma_cache_kept(self.heaps@[at], before.holdings@, self.holdings@, 0, 0);
                    assert(locality_held(self.heaps@[at], self.holdings@, self.slabs@));
                    assert(self.heaps@ =~= before.heaps@);
                    lemma_arena_step(before, *self, at);
                    lemma_same_allocations(&before.domains@[place as int], &self.domains@[place as int]);
                    lemma_mediums_less(before.domains@, self.domains@, place as int);
                }
                0
            },
            Some(allocation) => {
                let ghost slab = allocation.address;
                proof {
                    lemma_slab_fresh(before, at, request, reply, slab);
                    assert(small(&self.heaps@[at].small, &self.slabs) == before.view_of(at));
                }
                let block: usize = initialize_slab(
                    &mut self.heaps[heap],
                    &mut self.slabs,
                    &mut self.domains[place],
                    &self.tuning,
                    allocation,
                    context,
                    class,
                    track_aggregates,
                );
                proof {
                    let size = sizes[class as int] as int;
                    let model = new_slab(
                        slab as int,
                        marker_of(context, class as int) as u64,
                        address,
                        size,
                        first_block(size) + 1,
                        false,
                    );
                    self.out@ = before.out@.insert(slab, Seq::<RemoteFree>::empty());
                    match request {
                        SlabRequest::CommitSegment { base, slices } => {
                            self.holdings@ = before.holdings@.insert(
                                base,
                                Holding { user: User::Segment { heap: address }, ..before.holdings@[base] },
                            );
                        },
                        SlabRequest::MapSlab => {
                            self.mapped@ = before.mapped@.insert(slab, SLAB_SIZE as int);
                        },
                        _ => {},
                    }
                    lemma_first_block_idle(slab as int, model.marker, address, size);
                    assert(self.slabs@ == before.slabs@.insert(slab, model)) by {
                        assert(self.view_of(at).slabs == refilled(before.view_of(at), sizes, context, class as int, slab, address).slabs);
                    }
                    crate::allocator::heaps::lemma_same_regions(&before.domains@[place as int], &middle.domains@[place as int]);
                    assert(same_regions(before.domains@[place as int], self.domains@[place as int]));
                    lemma_refill_placed(before, *self, at, place as int, request, reply->0, slab, model);
                    lemma_marked(context, class as int, model.marker);
                    lemma_new_slab(before, *self, at, slab, model);
                    assert(block == model.block_at(first_block(size)));
                    lemma_same_allocations(&before.domains@[place as int], &self.domains@[place as int]);
                    lemma_mediums_less(before.domains@, self.domains@, place as int);
                }
                block
            },
        }
    }
}

/// The slab that a refill is about to use is none of those that are there.
proof fn lemma_slab_fresh(before: Space, heap: int, request: SlabRequest, reply: Option<usize>, slab: usize)
    requires
        before.inv(),
        0 <= heap < before.heaps@.len(),
        refill_pending(before, heap, request),
        refill_reply(before, request, reply),
        match request {
            SlabRequest::CommitSlab { slab: next } => slab == next,
            SlabRequest::CommitSegment { base, slices } => slab == base,
            SlabRequest::MapSlab => reply == Some(slab),
        },
    ensures
        !before.slabs@.dom().contains(slab),
        0 < slab,
        slab as int % (SLAB_SIZE as int) == 0,
        slab + SLAB_SIZE <= usize::MAX,
{
    assert(before.heap_ok(heap));
    match request {
        SlabRequest::CommitSlab { slab: next } => {
            crate::allocator::heaps::lemma_next_multiple(
                before.heaps@[heap].locality_next as int,
                before.heaps@[heap].locality_end as int,
                SLAB_SIZE as int,
            );
        },
        SlabRequest::CommitSegment { base, slices } => {
            lemma_held_bounds(before, base);
            assert(slices * MEDIUM_SLICE_SIZE >= MEDIUM_SLICE_SIZE) by (nonlinear_arith)
                requires
                    slices >= 1,
            ;
            assert(base as int % (SLAB_SIZE as int) == 0) by (nonlinear_arith)
                requires
                    base as int % (MEDIUM_SLICE_SIZE as int) == 0,
                    MEDIUM_SLICE_SIZE == 65536,
                    SLAB_SIZE == 32768,
            ;
            if before.slabs@.dom().contains(slab) {
                lemma_slab_apart(before, slab, base);
            }
        },
        SlabRequest::MapSlab => {
            if before.slabs@.dom().contains(slab) {
                assert(slab_placed(before.holdings@, before.mapped@, slab));
                if before.mapped@.dom().contains(slab) {
                    assert(stretches_apart(slab as int, SLAB_SIZE as int, slab as int, before.mapped@[slab]));
                    assert(before.mapped@[slab] > 0);
                } else {
                    let base = choose|base: usize| #[trigger] slab_in(before.holdings@, base, slab);
                    lemma_held_bounds(before, base);
                    let (at, index) = choose|at: int, index: int|
                        0 <= at < before.domains@.len() && 0 <= index < before.domains@[at].regions@.len() && (
                        #[trigger] before.domains@[at].regions@[index]).base <= base && base + before.holdings@[base].slices
                            * MEDIUM_SLICE_SIZE <= before.domains@[at].regions@[index].base + MEDIUM_REGION_SIZE;
                    assert(stretches_apart(
                        slab as int,
                        SLAB_SIZE as int,
                        before.domains@[at].regions@[index].base as int,
                        MEDIUM_REGION_SIZE as int,
                    ));
                }
            }
        },
    }
}

/// Which segment is found under an address depends on the segments' addresses alone.
proof fn lemma_segment_at_bases(left: Seq<Segment>, right: Seq<Segment>, base: usize)
    requires
        left.len() == right.len(),
        forall|at: int| #![trigger left[at]] 0 <= at < left.len() ==> left[at].base == right[at].base,
    ensures
        segment_at(left, base) == segment_at(right, base),
        -1 <= segment_at(left, base) < left.len(),
    decreases left.len(),
{
    if left.len() > 0 {
        assert(left.last().base == right.last().base) by {
            assert(left[left.len() - 1].base == right[left.len() - 1].base);
        }
        assert forall|at: int| #![trigger left.drop_last()[at]] 0 <= at < left.drop_last().len() implies left.drop_last()[at].base
            == right.drop_last()[at].base by {
            assert(left[at].base == right[at].base);
        }
        lemma_segment_at_bases(left.drop_last(), right.drop_last(), base);
    }
}

/// Whether the heap's segments and locality range are what the finished request makes of them.
pub open spec fn locality_moved(before: HeapState, after: HeapState, request: SlabRequest, answer: usize) -> bool {
    match request {
        SlabRequest::CommitSlab { slab } => {
            &&& after.locality_next == before.locality_next + SLAB_SIZE
            &&& after.locality_end == before.locality_end
            &&& after.locality_segment == before.locality_segment
            &&& after.segments@ == crate::allocator::heaps::grown(before.segments@, before.locality_segment, answer as int)
        },
        SlabRequest::CommitSegment { base, slices } => {
            &&& after.locality_next == base + SLAB_SIZE
            &&& after.locality_end == base + slices * MEDIUM_SLICE_SIZE
            &&& after.locality_segment == base
            &&& after.segments@ == before.segments@.push(Segment { base, slices, committed_bytes: answer })
        },
        SlabRequest::MapSlab => {
            &&& after.locality_next == before.locality_next
            &&& after.locality_end == before.locality_end
            &&& after.locality_segment == before.locality_segment
            &&& after.segments@ == before.segments@.push(Segment { base: answer, slices: 0, committed_bytes: SLAB_SIZE })
        },
    }
}

/// Whether the held spans and the mappings are what the finished request makes of them.
pub open spec fn arena_moved(before: Space, after: Space, heap: int, request: SlabRequest, slab: usize) -> bool {
    match request {
        SlabRequest::CommitSlab { slab: next } => after.holdings@ == before.holdings@ && after.mapped@ == before.mapped@ && slab == next,
        SlabRequest::CommitSegment { base, slices } => {
            &&& slab == base
            &&& after.mapped@ == before.mapped@
            &&& after.holdings@ == before.holdings@.insert(
                base,
                Holding {
                    domain: before.heaps@[heap].domain,
                    slices: slices as int,
                    user: User::Segment { heap: before.heaps@[heap].address },
                },
            )
        },
        SlabRequest::MapSlab => after.holdings@ == before.holdings@ && after.mapped@ == before.mapped@.insert(slab, SLAB_SIZE as int),
    }
}

/// The new slab lies where slabs may, and the domains, the held spans and the locality ranges are
/// in order around it.
proof fn lemma_refill_placed(
    before: Space,
    after: Space,
    heap: int,
    place: int,
    request: SlabRequest,
    answer: usize,
    slab: usize,
    model: SlabModel,
)
    requires
        before.inv(),
        0 <= heap < before.heaps@.len(),
        place == before.heaps@[heap].domain - 1,
        refill_pending(before, heap, request),
        refill_reply(before, request, Some(answer)),
        request is MapSlab ==> slab == answer,
        same_but_heap(before, after, heap),
        after.heaps@[heap].medium_cache == before.heaps@[heap].medium_cache,
        after.slabs@ == before.slabs@.insert(slab, model),
        domain_step(before.domains@, after.domains@, place, before.mapped@, None),
        forall|a: int, s: int|
            #![trigger after.domains@[place].idle_span(a, s)]
            before.domains@[place].idle_span(a, s) ==> after.domains@[place].idle_span(a, s),
        locality_moved(before.heaps@[heap], after.heaps@[heap], request, answer),
        arena_moved(before, after, heap, request, slab),
    ensures
        domains_ok(after.domains@),
        mapped_ok(after.domains@, after.mapped@),
        holdings_ok(after.domains@, after.holdings@),
        users_kept(before.holdings@, after.holdings@, 0, 0),
        mappings_kept(before.mapped@, after.mapped@),
        cache_held(after.heaps@[heap], after.holdings@),
        slab_placed(after.holdings@, after.mapped@, slab),
        forall|at: int|
            #![trigger after.heaps@[at]]
            0 <= at < after.heaps@.len() ==> locality_held(after.heaps@[at], after.holdings@, after.slabs@),
{
    assert(before.heap_ok(heap));
    lemma_domain_step(before.domains@, after.domains@, place, before.mapped@, None);
    lemma_spans_held(before.domains@, after.domains@, place, before.holdings@);
    match request {
        SlabRequest::CommitSlab { slab: next } => {
            let base = before.heaps@[heap].locality_segment;
            crate::allocator::heaps::lemma_next_multiple(
                before.heaps@[heap].locality_next as int,
                before.heaps@[heap].locality_end as int,
                SLAB_SIZE as int,
            );
            assert(slab_in(after.holdings@, base, slab));
        },
        SlabRequest::CommitSegment { base, slices } => {
            let holding = Holding { user: User::Segment { heap: before.heaps@[heap].address }, ..before.holdings@[base] };
            assert(after.holdings@.dom() =~= before.holdings@.dom());
            assert forall|other: usize| #[trigger] after.holdings@.dom().contains(other) implies held_ok(
                after.domains@,
                other,
                after.holdings@[other],
            ) by {
                assert(held_ok(after.domains@, other, before.holdings@[other]));
            }
            assert forall|left: usize, right: usize|
                #![trigger after.holdings@.dom().contains(left), after.holdings@.dom().contains(right)]
                after.holdings@.dom().contains(left) && after.holdings@.dom().contains(right) && left != right implies spans_apart(
                left as int,
                after.holdings@[left].slices,
                right as int,
                after.holdings@[right].slices,
            ) by {
                assert(before.holdings@.dom().contains(left) && before.holdings@.dom().contains(right));
            }
            lemma_held_bounds(before, base);
            assert(slices * MEDIUM_SLICE_SIZE >= SLAB_SIZE) by (nonlinear_arith)
                requires
                    slices >= 1,
                    MEDIUM_SLICE_SIZE == 65536,
                    SLAB_SIZE == 32768,
            ;
            assert(slab_in(after.holdings@, base, slab));
        },
        SlabRequest::MapSlab => {
            assert(mapped_ok(after.domains@, after.mapped@)) by {
                assert forall|address: usize, at: int, index: int|
                    #![trigger after.mapped@.dom().contains(address), after.domains@[at].regions@[index]]
                    after.mapped@.dom().contains(address) && 0 <= at < after.domains@.len() && 0 <= index
                        < after.domains@[at].regions@.len() implies stretches_apart(
                    address as int,
                    after.mapped@[address],
                    after.domains@[at].regions@[index].base as int,
                    MEDIUM_REGION_SIZE as int,
                ) by {
                    assert(after.domains@[at].regions@[index].base == before.domains@[at].regions@[index].base);
                    if address != slab {
                        assert(before.mapped@.dom().contains(address));
                    }
                }
            }
            assert(!before.mapped@.dom().contains(slab)) by {
                if before.mapped@.dom().contains(slab) {
                    assert(stretches_apart(slab as int, SLAB_SIZE as int, slab as int, before.mapped@[slab]));
                    assert(before.mapped@[slab] > 0);
                }
            }
        },
    }
    lemma_cache_kept(before.heaps@[heap], before.holdings@, after.holdings@, 0, 0);
    assert(cache_held(after.heaps@[heap], after.holdings@));
    assert forall|at: int|
        #![trigger after.heaps@[at]]
        0 <= at < after.heaps@.len() implies locality_held(after.heaps@[at], after.holdings@, after.slabs@) by {
        if at == heap {
            lemma_own_locality(before, after, heap, request, answer, slab, model);
        } else {
            lemma_other_locality(before, after, heap, at, request, answer, slab, model);
        }
    }
}

proof fn lemma_own_locality(before: Space, after: Space, heap: int, request: SlabRequest, answer: usize, slab: usize, model: SlabModel)
    requires
        before.inv(),
        0 <= heap < before.heaps@.len(),
        refill_pending(before, heap, request),
        refill_reply(before, request, Some(answer)),
        after.heaps@[heap].address == before.heaps@[heap].address,
        after.slabs@ == before.slabs@.insert(slab, model),
        locality_moved(before.heaps@[heap], after.heaps@[heap], request, answer),
        arena_moved(before, after, heap, request, slab),
    ensures
        locality_held(after.heaps@[heap], after.holdings@, after.slabs@),
{
    assert(before.heap_ok(heap));
    let own = after.heaps@[heap];
    match request {
        SlabRequest::CommitSlab { slab: next } => {
            let base = own.locality_segment;
            let segments = before.heaps@[heap].segments@;
            lemma_segment_at_bases(segments, own.segments@, base);
            lemma_held_bounds(before, base);
            let slices = before.holdings@[base].slices;
            assert(slices * MEDIUM_SLICE_SIZE <= MEDIUM_REGION_SIZE) by (nonlinear_arith)
                requires
                    slices <= MEDIUM_REGION_SLICE_COUNT,
                    MEDIUM_REGION_SLICE_COUNT == 16384,
                    MEDIUM_SLICE_SIZE == 65536,
                    MEDIUM_REGION_SIZE == 1073741824,
            ;
            assert(crate::allocator::heaps::holds_segment(segments, base));
            let found = choose|index: int| 0 <= index < segments.len() && (#[trigger] segments[index]).base == base;
            lemma_segment_present(segments, base, found);
            let place = segment_at(segments, base);
            assert(own.segments@[place].committed_bytes == (segments[place].committed_bytes + answer) as usize);
            assert(segments[place].committed_bytes + answer <= usize::MAX);
        },
        SlabRequest::CommitSegment { base, slices } => {
            assert(own.segments@.last().base == base);
            assert(segment_at(own.segments@, base) == own.segments@.len() - 1);
            assert forall|other: usize| own.locality_next <= other < own.locality_end implies !#[trigger] after.slabs@.dom().contains(other) by {
                if before.slabs@.dom().contains(other) {
                    lemma_slab_apart(before, other, base);
                    crate::allocator::blocks::lemma_at_address(&before.slabs, other);
                }
            }
        },
        SlabRequest::MapSlab => {},
    }
}

proof fn lemma_segment_present(segments: Seq<Segment>, base: usize, at: int)
    requires
        0 <= at < segments.len(),
        segments[at].base == base,
    ensures
        0 <= segment_at(segments, base) < segments.len(),
        segments[segment_at(segments, base)].base == base,
    decreases segments.len(),
{
    if segments.last().base != base {
        assert(segments.drop_last()[at].base == base);
        lemma_segment_present(segments.drop_last(), base, at);
    }
}

proof fn lemma_other_locality(
    before: Space,
    after: Space,
    heap: int,
    other: int,
    request: SlabRequest,
    answer: usize,
    slab: usize,
    model: SlabModel,
)
    requires
        before.inv(),
        0 <= heap < before.heaps@.len(),
        0 <= other < before.heaps@.len(),
        heap != other,
        refill_pending(before, heap, request),
        refill_reply(before, request, Some(answer)),
        request is MapSlab ==> slab == answer,
        after.heaps@[other] == before.heaps@[other],
        after.slabs@ == before.slabs@.insert(slab, model),
        arena_moved(before, after, heap, request, slab),
        users_kept(before.holdings@, after.holdings@, 0, 0),
    ensures
        locality_held(after.heaps@[other], after.holdings@, after.slabs@),
{
    assert(before.heap_ok(heap));
    assert(before.heap_ok(other));
    assert(before.heaps@[heap].address != before.heaps@[other].address);
    let own = before.heaps@[other];
    if own.locality_next < own.locality_end {
        let segment = own.locality_segment;
        assert(before.holdings@.dom().contains(segment));
        match request {
            SlabRequest::CommitSlab { slab: next } => {
                crate::allocator::heaps::lemma_next_multiple(
                    before.heaps@[heap].locality_next as int,
                    before.heaps@[heap].locality_end as int,
                    SLAB_SIZE as int,
                );
                lemma_localities_apart(before, heap, other, before.heaps@[heap].locality_segment, slab);
            },
            SlabRequest::CommitSegment { base, slices } => {
                lemma_held_bounds(before, base);
                assert(slices * MEDIUM_SLICE_SIZE >= SLAB_SIZE) by (nonlinear_arith)
                    requires
                        slices >= 1,
                        MEDIUM_SLICE_SIZE == 65536,
                        SLAB_SIZE == 32768,
                ;
                lemma_localities_apart(before, heap, other, base, slab);
            },
            SlabRequest::MapSlab => {
                lemma_held_bounds(before, segment);
                let (at, index) = choose|at: int, index: int|
                    0 <= at < before.domains@.len() && 0 <= index < before.domains@[at].regions@.len() && (
                    #[trigger] before.domains@[at].regions@[index]).base <= segment && segment + before.holdings@[segment].slices
                        * MEDIUM_SLICE_SIZE <= before.domains@[at].regions@[index].base + MEDIUM_REGION_SIZE;
                assert(stretches_apart(
                    slab as int,
                    SLAB_SIZE as int,
                    before.domains@[at].regions@[index].base as int,
                    MEDIUM_REGION_SIZE as int,
                ));
            },
        }
    }
}

} // verus!
