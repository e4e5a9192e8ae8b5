//! Deallocation: which kind of block an address is, and what becomes of it.

use vstd::prelude::*;

use crate::allocator::allocation::{lemma_known_kept, served, serves, ServedKind};
use crate::allocator::blocks::lemma_marked;
use crate::allocator::bump::{chunk_base, freed, header_of, BumpRelease};
use crate::allocator::bumps::trimmed_of;
use crate::allocator::classes::{
    allocation_segment, context_user_offset, default_class, is_context_marker, lemma_class_from,
    medium_slice_count, medium_slices, segment_of, slab_class_from_marker, small_class, user_offset,
    MEDIUM_REGION_SIZE, MEDIUM_REGION_SLICE_COUNT, MEDIUM_SLICE_SIZE,
};
use crate::allocator::direct::{lemma_record_at, record_at, record_class, ExtraHeader};
use crate::allocator::directs::{lemma_direct_step, lemma_direct_uses, same_but_direct};
use crate::allocator::domains::lemma_region_at;
use crate::allocator::heaps::{HeapState, RetirementState};
use crate::allocator::layout::Layout;
use crate::allocator::lives::{
    lemma_bump_goes, lemma_only_then, lemma_record_goes, lemma_small_goes, lemma_still, smalls_less, uses_only,
};
use crate::allocator::mediums::{lemma_one_domain, medium_used, mediums_kept, span_freed};
use crate::allocator::references::{
    lemma_push_names, lemma_queue_names, lemma_refs_go_on, lemma_refs_of_heap, refs_kept,
};
use crate::allocator::refills::{lemma_held_bounds, lemma_slab_apart};
use crate::allocator::region::SpanOwner;
use crate::allocator::releases::{went, without_entry};
use crate::allocator::segments::{lemma_segments_go_on, localities_kept, segments_stay};
use crate::allocator::serving::{names_kept, step_kept};
use crate::allocator::space::{
    lemma_one_heap, lemma_remote_usage, same_but_remote_usage, slab_in, slab_placed, stretches_apart, Space,
    User,
};
use crate::allocator::thread_heaps::chunks_pending;
use crate::allocator::threads::ThreadState;
use crate::allocator::uses::{
    direct_ok, is_direct, law_blocks_in_use_lie_apart, lemma_in_chunk, lemma_in_region, lemma_in_slab,
    lemma_records_go_on, uses_kept, Block,
};
use crate::telemetry::events::TrackingAllocation;

verus! {

/// What kind of block an address is.
#[derive(Clone, Copy, Debug, PartialEq, Eq, Structural)]
pub enum FreeRoute {
    Bump { bump: usize },
    Small { class: usize },
    /// A small block with a record.
    Recorded,
    Medium,
    /// A mapping of its own.
    Direct,
}

/// Whether the block is no longer in use, and what else was in use still is, and nothing more.
pub open spec fn only_freed(before: Space, after: Space, block: Block) -> bool {
    &&& after.whole()
    &&& after.tuning == before.tuning
    &&& names_kept(before, after)
    &&& !after.uses(block)
    &&& forall|other: Block| #[trigger] before.uses(other) && other != block ==> after.uses(other)
    &&& uses_only(before, after, None)
}

/// An address in a block of a slab lies in no bump heap's chunk, and in that slab.
proof fn lemma_slab_route(space: Space, block: usize, context: bool, class: int, requested_bytes: int, address: usize)
    requires
        space.inv(),
        space.used_as(block, context, class, requested_bytes),
        block <= address < block + space.sizes()[class],
    ensures
        segment_of(address as int) == segment_of(block as int),
        forall|bump: int| !#[trigger] space.chunk_of(bump, address as int),
        ({
            let slab = segment_of(block as int) as usize;
            &&& space.slabs@.dom().contains(slab)
            &&& space.slabs@[slab].marker == crate::allocator::small::marker_of(context, class)
        }),
{
    let slab = segment_of(block as int) as usize;
    lemma_in_slab(space, block, context, class, requested_bytes);
    assert(segment_of(address as int) == slab) by (nonlinear_arith)
        requires
            slab as int % 32768 == 0,
            slab <= address < slab + 32768,
            segment_of(address as int) == address - address as int % 32768,
    ;
    assert forall|bump: int| !#[trigger] space.chunk_of(bump, address as int) by {
        if space.chunk_of(bump, address as int) {
            let chunk = chunk_base(address as int) as usize;
            let own = space.bumps@[bump];
            let at = choose|at: int| 0 <= at < own.chunks@.len() && own.chunks@[at] == chunk;
            assert(space.chunks_held(bump));
            assert(space.holdings@.dom().contains(own.chunks@[at]));
            lemma_slab_apart(space, slab, chunk);
            assert(chunk <= address < chunk + 65536) by (nonlinear_arith)
                requires
                    chunk == address - address as int % 65536,
            ;
        }
    }
}

/// An address in a bump heap's chunk lies in a region, and the chunk is that heap's alone.
proof fn lemma_bump_route(space: Space, bump: int, address: int, bytes: int)
    requires
        space.inv(),
        space.uses(Block::Bump { bump, address, bytes }),
    ensures
        0 < address <= usize::MAX,
        forall|other: int| #[trigger] space.chunk_of(other, address) ==> other == bump,
        space.chunk_of(bump, address),
        exists|place: int| 0 <= place < space.domains@.len() && (#[trigger] space.domains@[place]).region_at(address) is Some,
{
    lemma_in_chunk(space, bump, address, bytes);
    let chunk = chunk_base(address) as usize;
    lemma_held_bounds(space, chunk);
    let own = space.bumps@[bump];
    assert(own.reached(address, bytes));
    let index = choose|index: int| #[trigger] own.reached_in(index, address, bytes);
    assert(own.chunks@[index] == chunk);
    assert forall|other: int| #[trigger] space.chunk_of(other, address) implies other == bump by {
        let theirs = space.bumps@[other];
        let at = choose|at: int| 0 <= at < theirs.chunks@.len() && theirs.chunks@[at] == chunk;
        assert(space.chunks_held(other));
        assert(space.holdings@[theirs.chunks@[at]].user == (User::Chunk { bump: theirs.address }));
        if other < bump {
            assert(space.bumps@[other].address != space.bumps@[bump].address);
        } else if bump < other {
            assert(space.bumps@[bump].address != space.bumps@[other].address);
        }
    }
    let (at, place) = choose|at: int, place: int|
        0 <= at < space.domains@.len() && 0 <= place < space.domains@[at].regions@.len() && (
        #[trigger] space.domains@[at].regions@[place]).base <= chunk && chunk + space.holdings@[chunk].slices * MEDIUM_SLICE_SIZE
            <= space.domains@[at].regions@[place].base + MEDIUM_REGION_SIZE;
    assert(space.domains@[at].wf());
    lemma_region_at(&space.domains@[at], address, place);
}

/// An address in a mapping of its own lies in no region, and so in no chunk, and in no slab.
proof fn lemma_direct_route(space: Space, address: usize, mapping: usize, bytes: int)
    requires
        space.whole(),
        space.uses(Block::Direct { address, mapping, bytes }),
    ensures
        forall|place: int| 0 <= place < space.domains@.len() ==> (#[trigger] space.domains@[place]).region_at(address as int) is None,
        forall|bump: int| !#[trigger] space.chunk_of(bump, address as int),
        !space.slabs@.dom().contains(segment_of(address as int) as usize),
{
    let extras = space.records.extras@;
    lemma_record_at(extras, address);
    let extra = space.record_of(address);
    assert(direct_ok(extra, space.mapped@, space.slabs@));
    assert forall|place: int| 0 <= place < space.domains@.len() implies (#[trigger] space.domains@[place]).region_at(address as int) is None by {
        let domain = space.domains@[place];
        if domain.region_at(address as int) is Some {
            let index = domain.region_at(address as int)->0;
            assert(0 <= index < domain.regions@.len() && domain.regions@[index].holds(address as int));
            assert(stretches_apart(
                mapping as int,
                space.mapped@[mapping],
                space.domains@[place].regions@[index].base as int,
                MEDIUM_REGION_SIZE as int,
            ));
        }
    }
    assert forall|bump: int| !#[trigger] space.chunk_of(bump, address as int) by {
        if space.chunk_of(bump, address as int) {
            let chunk = chunk_base(address as int) as usize;
            let own = space.bumps@[bump];
            let at = choose|at: int| 0 <= at < own.chunks@.len() && own.chunks@[at] == chunk;
            assert(space.chunks_held(bump));
            assert(space.holdings@.dom().contains(own.chunks@[at]));
            lemma_held_bounds(space, chunk);
            assert(chunk <= address < chunk + 65536) by (nonlinear_arith)
                requires
                    chunk == address - address as int % 65536,
            ;
            let (place, index) = choose|place: int, index: int|
                0 <= place < space.domains@.len() && 0 <= index < space.domains@[place].regions@.len() && (
                #[trigger] space.domains@[place].regions@[index]).base <= chunk && chunk + space.holdings@[chunk].slices
                    * MEDIUM_SLICE_SIZE <= space.domains@[place].regions@[index].base + MEDIUM_REGION_SIZE;
            assert(space.domains@[place].wf());
            lemma_region_at(&space.domains@[place], address as int, index);
        }
    }
    let slab = segment_of(address as int) as usize;
    if space.slabs@.dom().contains(slab) {
        assert(slab_placed(space.holdings@, space.mapped@, slab));
        assert(slab <= address < slab + 32768) by (nonlinear_arith)
            requires
                slab == address - address as int % 32768,
        ;
        if exists|base: usize| #[trigger] slab_in(space.holdings@, base, slab) {
            let base = choose|base: usize| #[trigger] slab_in(space.holdings@, base, slab);
            lemma_held_bounds(space, base);
            let (place, index) = choose|place: int, index: int|
                0 <= place < space.domains@.len() && 0 <= index < space.domains@[place].regions@.len() && (
                #[trigger] space.domains@[place].regions@[index]).base <= base && base + space.holdings@[base].slices
                    * MEDIUM_SLICE_SIZE <= space.domains@[place].regions@[index].base + MEDIUM_REGION_SIZE;
            assert(space.domains@[place].wf());
            lemma_region_at(&space.domains@[place], address as int, index);
        } else {
            assert(space.mapped@.dom().contains(slab) && slab != mapping);
            assert(stretches_apart(slab as int, space.mapped@[slab], mapping as int, space.mapped@[mapping]));
        }
    }
}

/// A span lies in a region, and in no bump heap's chunk.
proof fn lemma_medium_route(space: Space, place: int, address: usize, slices: int)
    requires
        space.inv(),
        medium_used(space, place, address, slices),
    ensures
        space.domains@[place].region_at(address as int) is Some,
        forall|bump: int| !#[trigger] space.chunk_of(bump, address as int),
{
    lemma_in_region(space, place, address, slices);
    assert forall|bump: int| !#[trigger] space.chunk_of(bump, address as int) by {
        if space.chunk_of(bump, address as int) {
            let chunk = chunk_base(address as int) as usize;
            let own = space.bumps@[bump];
            let at = choose|at: int| 0 <= at < own.chunks@.len() && own.chunks@[at] == chunk;
            assert(space.chunks_held(bump));
            assert(space.holdings@.dom().contains(own.chunks@[at]));
            crate::allocator::mediums::lemma_held_apart_live(space, chunk, place, address as int, slices);
            assert(chunk <= address < chunk + 65536) by (nonlinear_arith)
                requires
                    chunk == address - address as int % 65536,
            ;
            assert(slices * MEDIUM_SLICE_SIZE >= MEDIUM_SLICE_SIZE) by (nonlinear_arith)
                requires
                    slices >= 1,
            ;
        }
    }
}

/// A layout whose block has a record would have had one without.
proof fn lemma_recorded_is_small(sizes: Seq<usize>, layout: Layout)
    requires
        crate::tunables::valid_sizes(sizes),
        layout.wf(),
        record_class(sizes, layout) is Some,
    ensures
        small_class(sizes, layout) is Some,
{
    let align = layout.align as int;
    let class = record_class(sizes, layout)->0;
    crate::allocator::direct::law_recorded_blocks_hold_their_layout(sizes, layout, 0, 0);
    lemma_class_from(
        sizes,
        0,
        crate::allocator::classes::larger(layout.size as int, 1) + user_offset(align) + crate::allocator::classes::EXTRA_SIZE,
        align,
    );
    let required = crate::allocator::classes::larger(layout.spec_bytes(), align);
    let step = if layout.align <= 16 {
        1
    } else {
        align
    };
    lemma_class_from(sizes, 0, required, step);
    assert(crate::tunables::fits(sizes, class as int, required, step));
}

impl Space {
    /// Finds out what kind of block an address is, from where it lies.
    fn find_route(&self, address: usize, layout: Layout) -> (route: FreeRoute)
        requires
            self.whole(),
            layout.wf(),
        ensures
            forall|class: int, requested_bytes: int|
                #[trigger] self.used_as(address, false, class, requested_bytes) && small_class(self.sizes(), layout) is Some ==> route
                    == (FreeRoute::Small { class: class as usize }),
            forall|block: usize, class: int, requested_bytes: int|
                #[trigger] self.uses_recorded(block, address, class, requested_bytes) && record_class(self.sizes(), layout) is Some
                    ==> route == FreeRoute::Recorded,
            forall|place: int, slices: int|
                #[trigger] medium_used(*self, place, address, slices) && small_class(self.sizes(), layout) is None ==> route
                    == FreeRoute::Medium,
            forall|mapping: usize, bytes: int|
                #[trigger] self.uses(Block::Direct { address, mapping, bytes }) ==> route == FreeRoute::Direct,
            forall|bump: int, bytes: int|
                #[trigger] self.uses(Block::Bump { bump, address: address as int, bytes }) ==> (route matches FreeRoute::Bump {
                    bump: found,
                } && found == bump),
    {
        proof {
            self.lemma_routes(address, layout);
        }
        let class: Option<usize> = default_class(&self.tuning, layout);
        let place: Option<usize> = self.find_place(address);
        let bump: Option<usize> = self.find_bump_of(address);
        if class.is_none() {
            if place.is_none() {
                return FreeRoute::Direct;
            }
            return match bump {
                Some(bump) => FreeRoute::Bump { bump },
                None => FreeRoute::Medium,
            };
        }
        if let Some(bump) = bump {
            return FreeRoute::Bump { bump };
        }
        let segment: usize = allocation_segment(address);
        let mut with_record: bool = false;
        if self.slabs.position(segment).is_some() {
            let marker: u64 = self.slabs.marker_of(segment);
            if let Some(class) = slab_class_from_marker(&self.tuning, marker) {
                return FreeRoute::Small { class };
            }
            with_record = is_context_marker(&self.tuning, marker);
        }
        if !with_record && place.is_some() && medium_slice_count(layout).is_some() {
            return FreeRoute::Medium;
        }
        match self.records.find(address) {
            None => FreeRoute::Direct,
            Some(at) => match self.records.extras[at].class_index {
                None => FreeRoute::Direct,
                Some(class) => FreeRoute::Recorded,
            },
        }
    }

    /// What each kind of block tells of where its address lies.
    proof fn lemma_routes(&self, address: usize, layout: Layout)
        requires
            self.whole(),
            layout.wf(),
        ensures
            forall|class: int, requested_bytes: int|
                #[trigger] self.used_as(address, false, class, requested_bytes) ==> {
                    let slab = segment_of(address as int) as usize;
                    &&& forall|bump: int| !#[trigger] self.chunk_of(bump, address as int)
                    &&& 0 <= class < self.sizes().len()
                    &&& self.slabs@.dom().contains(slab)
                    &&& self.slabs@[slab].marker == crate::allocator::small::marker_of(false, class)
                },
            forall|block: usize, class: int, requested_bytes: int|
                #[trigger] self.uses_recorded(block, address, class, requested_bytes) ==> {
                    let slab = segment_of(address as int) as usize;
                    &&& forall|bump: int| !#[trigger] self.chunk_of(bump, address as int)
                    &&& 0 <= class < self.sizes().len()
                    &&& self.slabs@.dom().contains(slab)
                    &&& self.slabs@[slab].marker == crate::allocator::small::marker_of(true, class)
                },
            record_class(self.sizes(), layout) is Some ==> small_class(self.sizes(), layout) is Some,
            forall|place: int, slices: int|
                #[trigger] medium_used(*self, place, address, slices) ==> self.domains@[place].region_at(address as int) is Some && (
                forall|bump: int| !#[trigger] self.chunk_of(bump, address as int)),
            forall|mapping: usize, bytes: int|
                #[trigger] self.uses(Block::Direct { address, mapping, bytes }) ==> {
                    &&& forall|place: int|
                        0 <= place < self.domains@.len() ==> (#[trigger] self.domains@[place]).region_at(address as int) is None
                    &&& forall|bump: int| !#[trigger] self.chunk_of(bump, address as int)
                    &&& !self.slabs@.dom().contains(segment_of(address as int) as usize)
                },
            forall|bump: int, bytes: int|
                #[trigger] self.uses(Block::Bump { bump, address: address as int, bytes }) ==> {
                    &&& forall|other: int| #[trigger] self.chunk_of(other, address as int) ==> other == bump
                    &&& self.chunk_of(bump, address as int)
                    &&& exists|place: int|
                        0 <= place < self.domains@.len() && (#[trigger] self.domains@[place]).region_at(address as int) is Some
                },
            self.sizes().len() <= crate::tunables::MAX_SIZE_CLASSES,
    {
        assert forall|class: int, requested_bytes: int| #[trigger] self.used_as(address, false, class, requested_bytes) implies {
            let slab = segment_of(address as int) as usize;
            &&& forall|bump: int| !#[trigger] self.chunk_of(bump, address as int)
            &&& 0 <= class < self.sizes().len()
            &&& self.slabs@.dom().contains(slab)
            &&& self.slabs@[slab].marker == crate::allocator::small::marker_of(false, class)
        } by {
            lemma_in_slab(*self, address, false, class, requested_bytes);
            lemma_slab_route(*self, address, false, class, requested_bytes, address);
        }
        assert forall|block: usize, class: int, requested_bytes: int|
            #[trigger] self.uses_recorded(block, address, class, requested_bytes) implies {
            let slab = segment_of(address as int) as usize;
            &&& forall|bump: int| !#[trigger] self.chunk_of(bump, address as int)
            &&& 0 <= class < self.sizes().len()
            &&& self.slabs@.dom().contains(slab)
            &&& self.slabs@[slab].marker == crate::allocator::small::marker_of(true, class)
        } by {
            lemma_slab_route(*self, block, true, class, requested_bytes, address);
        }
        if record_class(self.sizes(), layout) is Some {
            lemma_recorded_is_small(self.sizes(), layout);
        }
        assert forall|place: int, slices: int| #[trigger] medium_used(*self, place, address, slices) implies self.domains@[place].region_at(
            address as int,
        ) is Some && (forall|bump: int| !#[trigger] self.chunk_of(bump, address as int)) by {
            lemma_medium_route(*self, place, address, slices);
        }
        assert forall|mapping: usize, bytes: int| #[trigger] self.uses(Block::Direct { address, mapping, bytes }) implies {
            &&& forall|place: int| 0 <= place < self.domains@.len() ==> (#[trigger] self.domains@[place]).region_at(address as int) is None
            &&& forall|bump: int| !#[trigger] self.chunk_of(bump, address as int)
            &&& !self.slabs@.dom().contains(segment_of(address as int) as usize)
        } by {
            lemma_direct_route(*self, address, mapping, bytes);
        }
        assert forall|bump: int, bytes: int| #[trigger] self.uses(Block::Bump { bump, address: address as int, bytes }) implies {
            &&& forall|other: int| #[trigger] self.chunk_of(other, address as int) ==> other == bump
            &&& self.chunk_of(bump, address as int)
            &&& exists|place: int| 0 <= place < self.domains@.len() && (#[trigger] self.domains@[place]).region_at(address as int) is Some
        } by {
            lemma_bump_route(*self, bump, address as int, bytes);
        }
    }
}

/// A small block that went is in use no more, and the others still are.
proof fn lemma_small_freed(before: Space, after: Space, block: usize, context: bool, class: int, requested_bytes: int)
    requires
        before.whole(),
        after.inv(),
        before.used_as(block, context, class, requested_bytes),
        context ==> before.unrecorded(block, class),
        after.tuning == before.tuning,
        after.domains == before.domains,
        after.bumps == before.bumps,
        after.records == before.records,
        after.mapped == before.mapped,
        names_kept(before, after),
        localities_kept(before.heaps@, after.heaps@),
        segments_stay(before.holdings@, after.holdings@),
        after.refs_owned(),
        went(before, after, block, before.sizes()[class] - requested_bytes),
    ensures
        only_freed(before, after, Block::Small { block, context, class, requested_bytes }),
{
    lemma_segments_go_on(before, after);
    lemma_small_goes(before, after, block, before.sizes()[class] - requested_bytes);
    let own = Block::Small { block, context, class, requested_bytes };
    let slab = segment_of(block as int) as usize;
    let padding = before.sizes()[class] - requested_bytes;
    let gone = choose|at: int|
        #[trigger] before.is_entry(at, block, padding) && after.out@ == without_entry(before.out@, slab, at);
    assert(before.entries_ok(slab));
    assert(!after.uses(own)) by {
        if after.uses(own) {
            let at = choose|at: int| #[trigger] after.is_entry(at, block, padding);
            let old_at = if at < gone {
                at
            } else {
                at + 1
            };
            assert(before.out@[slab][old_at].block == before.out@[slab][gone].block);
        }
    }
    assert forall|other: Block| #[trigger] before.uses(other) && other != own implies after.uses(other) by {
        match other {
            Block::Small { block: b, context: x, class: c, requested_bytes: r } => {
                let theirs = segment_of(b as int) as usize;
                let at = choose|at: int| #[trigger] before.is_entry(at, b, before.sizes()[c] - r);
                if theirs == slab {
                    if at == gone {
                        lemma_marked(x, c, before.slabs@[slab].marker);
                        lemma_marked(context, class, before.slabs@[slab].marker);
                        assert(other == own);
                    }
                    let new_at = if at < gone {
                        at
                    } else {
                        at - 1
                    };
                    assert(after.is_entry(new_at, b, after.sizes()[c] - r));
                    assert(after.entries_ok(theirs));
                    assert(after.entry_ok(theirs, new_at));
                } else {
                    assert(after.is_entry(at, b, after.sizes()[c] - r));
                    assert(after.entries_ok(theirs));
                    assert(after.entry_ok(theirs, at));
                }
                assert(before.slabs@.dom().contains(theirs));
            },
            _ => {},
        }
    }
    let extras = before.records.extras@;
    assert forall|at: int| 0 <= at < extras.len() && !is_direct(#[trigger] extras[at]) implies exists|held: usize, requested: int|
        #[trigger] after.holds_record(at, held, requested) by {
        let (held, requested) = choose|held: usize, requested: int| #[trigger] before.holds_record(at, held, requested);
        let theirs = Block::Small { block: held, context: true, class: extras[at].class_index->0 as int, requested_bytes: requested };
        assert(before.uses(theirs));
        assert(theirs != own);
        assert(after.uses(theirs));
        assert(after.holds_record(at, held, requested));
    }
    assert forall|at: int| 0 <= at < extras.len() && is_direct(#[trigger] extras[at]) implies direct_ok(
        extras[at],
        after.mapped@,
        after.slabs@,
    ) by {
        assert(direct_ok(extras[at], before.mapped@, before.slabs@));
    }
}

/// Where a freed small block goes.
#[derive(Clone, Copy, Debug, PartialEq, Eq, Structural)]
pub enum FreedTo {
    /// The thread's own heap.
    Own { heap: usize },
    /// The list of the thread heap that it came from.
    Listed { remote: usize },
    /// The inbox of the heap that it came from.
    Queued { heap: usize },
}

impl Space {
    /// Whether the block's slab is one of the thread's own.
    pub open spec fn owner_local(&self, current: usize, token: usize, slab: usize) -> bool {
        let model = self.slabs@[slab];
        if model.shared {
            exists|remote: int| #[trigger] self.is_remote(remote, model.owner) && self.remotes@[remote].owner_token == token
        } else {
            current != 0 && model.owner == current
        }
    }
}

/// Whether nothing but the small blocks of a heap differs, apart from the thread heaps and the records.
pub open spec fn heap_small_only(before: Space, after: Space, heap: int) -> bool {
    &&& after.domains == before.domains
    &&& after.bumps == before.bumps
    &&& after.holdings == before.holdings
    &&& after.mapped == before.mapped
    &&& after.heaps@.len() == before.heaps@.len()
    &&& forall|other: int|
        #![trigger after.heaps@[other]]
        0 <= other < before.heaps@.len() && other != heap ==> after.heaps@[other] == before.heaps@[other]
    &&& 0 <= heap < before.heaps@.len() ==> after.heaps@[heap] == (HeapState { small: after.heaps@[heap].small, ..before.heaps@[heap] })
}

/// Whether a thread heap counts one allocation less, and no other thread heap differs. Its lists may.
pub open spec fn remote_counted(before: Space, after: Space, remote: int, requested_bytes: int, usable_bytes: usize) -> bool {
    &&& after.remotes@.len() == before.remotes@.len()
    &&& forall|other: int|
        #![trigger after.remotes@[other]]
        0 <= other < before.remotes@.len() && other != remote ==> after.remotes@[other] == before.remotes@[other]
    &&& after.remotes@[remote].usage == before.remotes@[remote].usage.without_allocation(requested_bytes as usize, usable_bytes)
}

/// Whether the block went where it belongs: to the thread's own heap where its slab is one of the
/// thread's, to the list of the thread heap that it came from, or to the inbox of its heap.
pub open spec fn given_to(
    before: Space,
    after: Space,
    current: usize,
    token: usize,
    block: usize,
    context: bool,
    class: int,
    requested_bytes: int,
    to: FreedTo,
) -> bool {
    let slab = segment_of(block as int) as usize;
    let model = before.slabs@[slab];
    let usable = before.sizes()[class];
    match to {
        FreedTo::Own { heap } => {
            &&& before.owner_local(current, token, slab)
            &&& before.is_heap(heap as int, current)
            &&& heap_small_only(before, after, heap as int)
            &&& after.view_of(heap as int) == before.view_of(heap as int).push(context, class, block, usable - requested_bytes)
            &&& if model.shared {
                forall|remote: int|
                    #[trigger] before.is_remote(remote, model.owner) ==> remote_counted(before, after, remote, requested_bytes, usable)
                        && after.remotes@[remote].same_but_list(&before.remotes@[remote], true, -1)
            } else {
                after.remotes == before.remotes
            }
        },
        FreedTo::Listed { remote } => {
            &&& !before.owner_local(current, token, slab)
            &&& model.shared
            &&& before.is_remote(remote as int, model.owner)
            &&& heap_small_only(before, after, -1)
            &&& after.slabs@ == before.slabs@
            &&& remote_counted(before, after, remote as int, requested_bytes, usable)
            &&& after.remotes@[remote as int].same_but_list(&before.remotes@[remote as int], context, class)
            &&& after.remotes@[remote as int].list(context, class) == before.remotes@[remote as int].list(context, class).push(
                block,
            )
        },
        FreedTo::Queued { heap } => {
            &&& !before.owner_local(current, token, slab)
            &&& !model.shared
            &&& before.is_heap(heap as int, model.owner)
            &&& heap_small_only(before, after, heap as int)
            &&& after.view_of(heap as int) == before.view_of(heap as int).push_remote(block, (usable - requested_bytes) as usize)
            &&& after.remotes == before.remotes
        },
    }
}

impl Space {
    /// Gives a small block back: to the thread's own heap where the slab is the thread's, to the list
    /// of the thread heap that it came from where it came from one, and else to the inbox of its heap.
    pub fn free_small(&mut self, current: usize, token: usize, context: bool, class: usize, block: usize, requested_bytes: usize) -> (to: FreedTo)
        requires
            old(self).whole(),
            current != 0 ==> old(self).has_heap(current),
            old(self).used_as(block, context, class as int, requested_bytes as int),
            context ==> old(self).unrecorded(block, class as int),
            old(self).owner_local(current, token, segment_of(block as int) as usize) ==> current != 0,
        ensures
            only_freed(
                *old(self),
                *final(self),
                Block::Small { block, context, class: class as int, requested_bytes: requested_bytes as int },
            ),
            final(self).mapped == old(self).mapped,
            final(self).records == old(self).records,
            given_to(*old(self), *final(self), current, token, block, context, class as int, requested_bytes as int, to),
    {
        let ghost before = *self;
        let slab: usize = allocation_segment(block);
        let own = Ghost(Block::Small { block, context, class: class as int, requested_bytes: requested_bytes as int });
        let shared: bool = self.slabs.is_shared(slab);
        let owner: usize = self.slabs.owner_of(slab);
        proof {
            assert(before.slab_owned(slab));
        }
        if shared {
            let found: Option<usize> = self.find_remote(owner);
            let remote: usize = found.unwrap();
            let usable_bytes: usize = self.tuning.sizes[class];
            self.remotes[remote].record_free(requested_bytes, usable_bytes);
            let ghost counted = *self;
            let local: bool = self.remotes[remote].owner_token == token;
            proof {
                lemma_remote_usage(before, counted, remote as int);
                lemma_counted(before, counted, remote as int);
                assert(before.uses(own@));
                assert(counted.uses(own@));
                if context {
                    assert(counted.unrecorded(block, class as int));
                }
                assert forall|at: int| #[trigger] before.is_remote(at, owner) implies at == remote by {
                    if at < remote {
                        assert(before.remotes@[at].address != before.remotes@[remote as int].address);
                    } else if remote < at {
                        assert(before.remotes@[remote as int].address != before.remotes@[at].address);
                    }
                }
                assert(before.is_remote(remote as int, owner));
                assert(before.owner_local(current, token, slab) <==> local);
                if local {
                    let at = choose|at: int| #[trigger] before.is_heap(at, current);
                    assert(counted.is_heap(at, current));
                }
            }
            if local {
                let heap: usize = self.find_heap(current).unwrap();
                self.push_small(heap, context, class, block, requested_bytes);
                proof {
                    lemma_pushed_refs(counted, *self, heap as int, context, class as int, block, requested_bytes as int);
                    lemma_small_freed(counted, *self, block, context, class as int, requested_bytes as int);
                    lemma_freed_after(before, counted, *self, own@);
                }
                return FreedTo::Own { heap };
            }
            self.list_small(remote, context, class, block, requested_bytes);
            proof {
                lemma_refs_go_on(counted, *self, -1, 0);
                lemma_small_freed(counted, *self, block, context, class as int, requested_bytes as int);
                lemma_freed_after(before, counted, *self, own@);
            }
            return FreedTo::Listed { remote };
        }
        let heap: usize = self.find_heap(owner).unwrap();
        if current != 0 && owner == current {
            self.push_small(heap, context, class, block, requested_bytes);
            proof {
                lemma_pushed_refs(before, *self, heap as int, context, class as int, block, requested_bytes as int);
                lemma_small_freed(before, *self, block, context, class as int, requested_bytes as int);
            }
            return FreedTo::Own { heap };
        }
        self.queue_small(heap, context, class, block, requested_bytes);
        proof {
            let padding = (before.sizes()[class as int] - requested_bytes) as usize;
            lemma_queue_names(before.view_of(heap as int), before.sizes().len() as int, block, padding);
            lemma_refs_of_heap(before, *self, heap as int, slab);
            lemma_refs_go_on(before, *self, heap as int, slab);
            lemma_small_freed(before, *self, block, context, class as int, requested_bytes as int);
        }
        FreedTo::Queued { heap }
    }
}

/// A block that a heap caches is of a slab of its own, or of a thread heap.
proof fn lemma_pushed_refs(before: Space, after: Space, heap: int, context: bool, class: int, block: usize, requested_bytes: int)
    requires
        before.whole(),
        0 <= heap < before.heaps@.len(),
        before.used_as(block, context, class, requested_bytes),
        crate::allocator::space::same_but_small(before, after, heap),
        crate::allocator::frames::alike(before.slabs@, after.slabs@),
        after.view_of(heap) == before.view_of(heap).push(context, class, block, before.sizes()[class] - requested_bytes),
        ({
            let model = before.slabs@[segment_of(block as int) as usize];
            model.shared || model.owner == before.heaps@[heap].address
        }),
    ensures
        after.refs_owned(),
{
    let slab = segment_of(block as int) as usize;
    assert(before.heap_ok(heap));
    lemma_push_names(before.view_of(heap), before.sizes(), context, class, block, before.sizes()[class] - requested_bytes);
    lemma_refs_of_heap(before, after, heap, slab);
    lemma_refs_go_on(before, after, heap, slab);
}

/// The counts of a thread heap are of no matter to the blocks in use.
proof fn lemma_counted(before: Space, after: Space, remote: int)
    requires
        before.whole(),
        after.inv(),
        same_but_remote_usage(before, after, remote),
        after.out == before.out,
        0 <= remote < before.remotes@.len(),
    ensures
        step_kept(before, after),
        uses_only(before, after, None),
{
    assert(smalls_less(before, after));
    lemma_still(before, after);
    assert(crate::allocator::uses::smalls_kept(before, after));
    assert(mediums_kept(before.domains@, after.domains@));
    assert(crate::allocator::uses::bumps_kept(before.bumps@, after.bumps@));
    crate::allocator::uses::lemma_whole_goes_on(before, after);
}

/// A block that is freed after a step that keeps the blocks in use.
proof fn lemma_freed_after(before: Space, middle: Space, after: Space, block: Block)
    requires
        step_kept(before, middle),
        uses_only(before, middle, None),
        only_freed(middle, after, block),
    ensures
        only_freed(before, after, block),
{
    lemma_only_then(before, middle, after, None);
    assert forall|other: Block| #[trigger] before.uses(other) && other != block implies after.uses(other) by {
        assert(middle.uses(other));
    }
}

/// Whether the address is that of a block in use of the kind, which was asked for with the layout.
pub open spec fn holds(space: Space, layout: Layout, address: usize, kind: ServedKind, block: Block) -> bool {
    &&& space.uses(block)
    &&& match kind {
        ServedKind::Small { class } => {
            &&& block == (Block::Small { block: address, context: false, class: class as int, requested_bytes: layout.size as int })
            &&& small_class(space.sizes(), layout) is Some
        },
        ServedKind::Recorded { class } => {
            &&& block matches Block::Small { block: start, context, class: c, requested_bytes } && context && c == class
                && requested_bytes == layout.size && address == start + user_offset(layout.align as int)
            &&& space.uses_recorded(block->Small_block, address, class as int, layout.size as int)
            &&& record_class(space.sizes(), layout) is Some
        },
        ServedKind::Medium => {
            &&& block matches Block::Medium { place, address: start, slices } && start == address && slices >= 0 && medium_slices(
                layout,
            ) == Some(slices as usize)
            &&& small_class(space.sizes(), layout) is None
        },
        ServedKind::Direct { mapping_size } => block matches Block::Direct { address: user, mapping, bytes } && user == address,
        ServedKind::Bump => block matches Block::Bump { bump, address: start, bytes } && start == address && bytes
            == layout.spec_bytes(),
    }
}

/// What an allocation served can be given back with the layout that it was asked for with, by any
/// thread that has a heap, whether the block has a header or not.
pub proof fn law_what_was_served_can_be_freed(
    before: Space,
    after: Space,
    layout: Layout,
    address: usize,
    kind: ServedKind,
    thread: ThreadState,
)
    requires
        served(before, after, layout, address, kind),
        thread.spec_current_heap() != 0,
    ensures
        exists|block: Block| #[trigger] holds(after, layout, address, kind, block),
        after.freeable(thread, address, layout),
{
    let block = choose|block: Block| #[trigger] serves(before, after, layout, address, kind, block);
    assert(after.uses(block));
    if kind is Recorded {
        let class = kind->Recorded_class as int;
        let start = block->Small_block;
        let own = Block::Small { block: start, context: true, class, requested_bytes: layout.size as int };
        assert(after.uses(own));
        assert(holds(after, layout, address, kind, own));
    } else {
        assert(holds(after, layout, address, kind, block));
    }
}

/// Giving a block back undoes its allocation: what is in use is then what was in use before.
pub proof fn law_freeing_undoes_serving(
    before: Space,
    middle: Space,
    after: Space,
    layout: Layout,
    address: usize,
    kind: ServedKind,
)
    requires
        step_kept(before, middle),
        served(before, middle, layout, address, kind),
        forall|other: ServedKind, block: Block|
            #[trigger] holds(middle, layout, address, other, block) ==> only_freed(middle, after, block),
    ensures
        forall|block: Block| #[trigger] after.uses(block) <==> before.uses(block),
{
    reveal(uses_only);
    let own = choose|block: Block| #[trigger] serves(before, middle, layout, address, kind, block);
    assert(holds(middle, layout, address, kind, own));
    assert forall|block: Block| #[trigger] after.uses(block) <==> before.uses(block) by {
        if before.uses(block) {
            assert(middle.uses(block) && block != own);
        }
        if after.uses(block) {
            assert(middle.uses(block) && block != own);
        }
    }
}

/// Whether the bump heap keeps a header for the block.
pub open spec fn has_header(space: Space, bump: int, address: usize) -> bool {
    exists|at: int|
        0 <= at < space.bumps@[bump].headers@.len() && (#[trigger] space.bumps@[bump].headers@[at]).address == address
}

/// What is left to do for a block that was given back.
pub enum FreeStep {
    Small { class: usize, to: FreedTo },
    /// The record tells what an event log knows of the block.
    Recorded { extra: ExtraHeader, to: FreedTo },
    /// The heap, where there is one, went with its last block: its storage is to be unmapped.
    Medium { gone: Option<usize> },
    /// The mapping of the record is to be unmapped, and the heap's storage as above.
    Direct { extra: ExtraHeader, gone: Option<usize> },
    /// The header, where there is one, tells what an event log knows of the block. Where the heap is
    /// finished it goes to a pool.
    Bump { bump: usize, header: Option<(TrackingAllocation, bool)>, release: BumpRelease },
}

/// Whether a block outside the slabs is counted off the heap that it was made for, where that may
/// retire. The heap is gone where its retirement was waiting for this block alone.
pub open spec fn counted_off(before: Space, after: Space, owner: SpanOwner, gone: Option<usize>) -> bool {
    &&& gone matches Some(heap) ==> owner.retirable && heap == owner.heap
    &&& owner.retirable ==> forall|heap: int|
        #[trigger] before.is_heap(heap, owner.heap) ==> {
            let waiting = before.heaps@[heap].retirement;
            let ended = waiting.external_allocations == 1 && waiting.retiring && waiting.retirement_ready;
            &&& gone is Some <==> ended && waiting.retired_releases == 1
            &&& after.heaps@[heap].retirement == (RetirementState {
                external_allocations: waiting.external_allocations.wrapping_sub(1),
                retired_releases: if ended {
                    waiting.retired_releases.wrapping_sub(1)
                } else {
                    waiting.retired_releases
                },
                ..waiting
            })
        }
}

/// Whether a span went back: into what the thread's heap keeps, where it was made for that, or into
/// what the domain keeps, until the deadline.
pub open spec fn span_given_back(
    before: Space,
    after: Space,
    current: usize,
    place: int,
    address: usize,
    slices: usize,
    deadline: u64,
) -> bool {
    &&& current == 0 ==> span_freed(before, after, None, place, address, slices, deadline)
    &&& forall|heap: int|
        #[trigger] before.is_heap(heap, current) && current != 0 ==> span_freed(
            before,
            after,
            Some(heap as usize),
            place,
            address,
            slices,
            deadline,
        )
}

/// A span that went back stays so once a block is counted off a heap.
proof fn lemma_given_back_then(
    before: Space,
    middle: Space,
    after: Space,
    current: usize,
    place: int,
    address: usize,
    slices: usize,
    deadline: u64,
)
    requires
        span_given_back(before, middle, current, place, address, slices, deadline),
        after.domains == middle.domains,
        forall|heap: int|
            0 <= heap < before.heaps@.len() ==> (#[trigger] after.heaps@[heap]).medium_cache == middle.heaps@[heap].medium_cache,
    ensures
        span_given_back(before, after, current, place, address, slices, deadline),
{
    assert forall|heap: int| #[trigger] before.is_heap(heap, current) && current != 0 implies span_freed(
        before,
        after,
        Some(heap as usize),
        place,
        address,
        slices,
        deadline,
    ) by {
        assert(span_freed(before, middle, Some(heap as usize), place, address, slices, deadline));
        assert(after.heaps@[heap].medium_cache == middle.heaps@[heap].medium_cache);
    }
}

impl Space {
    /// Counts a block outside the slabs off its heap. Gives the heap where that was waiting for it alone.
    pub fn release_external(&mut self, owner: SpanOwner) -> (gone: Option<usize>)
        requires
            old(self).whole(),
        ensures
            step_kept(*old(self), *final(self)),
            uses_kept(*final(self), *old(self)),
            final(self).records == old(self).records,
            final(self).mapped == old(self).mapped,
            counted_off(*old(self), *final(self), owner, gone),
            final(self).domains == old(self).domains,
            final(self).slabs == old(self).slabs,
            final(self).remotes == old(self).remotes,
            final(self).bumps == old(self).bumps,
            forall|at: int|
                0 <= at < old(self).heaps@.len() ==> (#[trigger] final(self).heaps@[at]).medium_cache == old(self).heaps@[at].medium_cache,
            !owner.retirable ==> *final(self) == *old(self),
            owner.retirable ==> forall|heap: int|
                #[trigger] old(self).is_heap(heap, owner.heap) ==> same_but_direct(*old(self), *final(self), Some(heap as usize)),
    {
        let ghost before = *self;
        if !owner.retirable {
            return None;
        }
        match self.find_heap(owner.heap) {
            None => None,
            Some(heap) => {
                let gone: bool = self.heaps[heap].retirement.release_external_allocation();
                proof {
                    assert(same_but_direct(before, *self, Some(heap)));
                    lemma_direct_step(before, *self, Some(heap));
                    lemma_segments_go_on(before, *self);
                    lemma_refs_go_on(before, *self, -1, 0);
                    assert forall|block: Block| #[trigger] before.uses(block) == self.uses(block) by {
                        if !(block is Direct) {
                            lemma_direct_uses(before, *self, Some(heap), block);
                        }
                    }
                    lemma_records_go_on(before, *self);
                    assert forall|at: int| #[trigger] before.is_heap(at, owner.heap) implies at == heap by {
                        if at < heap {
                            assert(before.heaps@[at].address != before.heaps@[heap as int].address);
                        } else if heap < at {
                            assert(before.heaps@[heap as int].address != before.heaps@[at].address);
                        }
                    }
                }
                if gone {
                    Some(owner.heap)
                } else {
                    None
                }
            },
        }
    }

    /// Gives a span back, to the thread's heap or to its domain.
    fn free_span(&mut self, current: usize, address: usize, slices: usize, deadline: u64, Ghost(place): Ghost<int>) -> (owner: SpanOwner)
        requires
            old(self).whole(),
            current != 0 ==> old(self).has_heap(current),
            slices <= MEDIUM_REGION_SLICE_COUNT,
            medium_used(*old(self), place, address, slices as int),
        ensures
            only_freed(*old(self), *final(self), Block::Medium { place, address, slices: slices as int }),
            owner == old(self).domains@[place].medium_at(address as int).owner,
            retirements_kept(*old(self), *final(self)),
            span_given_back(*old(self), *final(self), current, place, address, slices, deadline),
    {
        let ghost before = *self;
        let heap: Option<usize> = if current == 0 {
            None
        } else {
            self.find_heap(current)
        };
        let owner: SpanOwner = self.free_medium(heap, address, slices, deadline);
        proof {
            let own = Block::Medium { place, address, slices: slices as int };
            assert(!self.uses(own));
            assert(smalls_less(before, *self));
            lemma_still(before, *self);
            let found = choose|at: int|
                #[trigger] medium_used(before, at, address, slices as int) && owner == before.domains@[at].medium_at(
                    address as int,
                ).owner;
            lemma_one_domain(before.domains@, found, place, address as int);
            assert forall|other: Block| #[trigger] before.uses(other) && other != own implies self.uses(other) by {
                match other {
                    Block::Small { block, context, class, requested_bytes } => {
                        crate::allocator::uses::lemma_small_kept(before, *self, block, context, class, requested_bytes);
                    },
                    Block::Medium { place: p, address: a, slices: s } => {
                        assert(before.domains@[p].medium_live(a as int, s));
                        if a == address {
                            lemma_one_domain(before.domains@, p, place, address as int);
                        }
                    },
                    _ => {},
                }
            }
            lemma_records_but(before, *self, own);
            assert forall|at: int| #[trigger] before.is_heap(at, current) && current != 0 implies heap == Some(at as usize) by {
                lemma_one_heap(before, at, current);
            }
        }
        owner
    }

    /// Gives a block back to its bump heap, which tells by its headers whether the block has one.
    fn free_bumped(&mut self, bump: usize, address: usize, layout: Layout, reclaim_tail: bool) -> (released: (
        Option<(TrackingAllocation, bool)>,
        BumpRelease,
    ))
        requires
            old(self).whole(),
            layout.wf(),
            old(self).uses(Block::Bump { bump: bump as int, address: address as int, bytes: layout.spec_bytes() }),
        ensures
            only_freed(
                *old(self),
                *final(self),
                Block::Bump { bump: bump as int, address: address as int, bytes: layout.spec_bytes() },
            ),
            released.0 is Some <==> has_header(*old(self), bump as int, address),
            bump_freed(*old(self), *final(self), bump as int, address, layout, reclaim_tail, released.0, released.1),
            final(self).heaps == old(self).heaps,
            final(self).slabs == old(self).slabs,
            final(self).remotes == old(self).remotes,
            final(self).mapped == old(self).mapped,
            forall|other: int|
                #![trigger final(self).bumps@[other]]
                0 <= other < old(self).bumps@.len() && other != bump ==> final(self).bumps@[other] == old(self).bumps@[other],
            released.1 is Finished ==> final(self).bumps@[bump as int].pooled(),
            released.1 is InUse ==> final(self).bumps@[bump as int].wf(),
            chunks_pending(*final(self), old(self).bumps@[bump as int].domain, trimmed_of(released.1)),
    {
        let ghost before = *self;
        let released: (Option<(TrackingAllocation, bool)>, BumpRelease) = if self.bumps[bump].keeps_header(address) {
            let outcome: (TrackingAllocation, bool, BumpRelease) = self.free_bump_logged(bump, address, layout, reclaim_tail);
            (Some((outcome.0, outcome.1)), outcome.2)
        } else {
            let release: BumpRelease = self.free_bump(bump, address, layout, reclaim_tail);
            (None, release)
        };
        proof {
            let own = Block::Bump { bump: bump as int, address: address as int, bytes: layout.spec_bytes() };
            lemma_bump_goes(before, *self, bump as int, address as int);
            assert forall|other: Block| #[trigger] before.uses(other) && other != own implies self.uses(other) by {
                match other {
                    Block::Small { block, context, class, requested_bytes } => {
                        crate::allocator::uses::lemma_small_kept(before, *self, block, context, class, requested_bytes);
                    },
                    Block::Bump { bump: b, address: a, bytes } => {
                        if b == bump {
                            assert(self.bumps@[b].live@.dom().contains(a));
                        } else {
                            assert(self.bumps@[b] == before.bumps@[b]);
                        }
                    },
                    _ => {},
                }
            }
            lemma_records_but(before, *self, own);
        }
        released
    }
}

/// Whether no heap's retirement comes any further.
pub open spec fn retirements_kept(before: Space, after: Space) -> bool {
    forall|at: int|
        0 <= at < before.heaps@.len() ==> (#[trigger] after.heaps@[at]).retirement == before.heaps@[at].retirement
}

/// What is counted off after a step with which no heap's retirement comes any further.
proof fn lemma_counted_after(before: Space, middle: Space, after: Space, owner: SpanOwner, gone: Option<usize>)
    requires
        names_kept(before, middle),
        retirements_kept(before, middle),
        counted_off(middle, after, owner, gone),
    ensures
        counted_off(before, after, owner, gone),
{
    assert forall|heap: int| #[trigger] before.is_heap(heap, owner.heap) implies middle.is_heap(heap, owner.heap)
        && middle.heaps@[heap].retirement == before.heaps@[heap].retirement by {
        assert(middle.heaps@[heap].address == before.heaps@[heap].address);
    }
}

/// The records stay in order where no small block goes.
proof fn lemma_records_but(before: Space, after: Space, block: Block)
    requires
        before.whole(),
        after.inv(),
        after.tuning == before.tuning,
        after.records == before.records,
        after.mapped == before.mapped,
        after.slabs == before.slabs,
        localities_kept(before.heaps@, after.heaps@),
        refs_kept(before, after, -1, 0),
        segments_stay(before.holdings@, after.holdings@),
        names_kept(before, after),
        !(block is Small),
        forall|other: Block| #[trigger] before.uses(other) && other != block ==> after.uses(other),
    ensures
        after.whole(),
{
    lemma_segments_go_on(before, after);
    lemma_refs_go_on(before, after, -1, 0);
    let extras = before.records.extras@;
    assert forall|at: int| 0 <= at < extras.len() && !is_direct(#[trigger] extras[at]) implies exists|held: usize, requested: int|
        #[trigger] after.holds_record(at, held, requested) by {
        let (held, requested) = choose|held: usize, requested: int| #[trigger] before.holds_record(at, held, requested);
        let theirs = Block::Small { block: held, context: true, class: extras[at].class_index->0 as int, requested_bytes: requested };
        assert(before.uses(theirs));
        assert(after.uses(theirs));
        assert(after.holds_record(at, held, requested));
    }
}

/// A block that an address is held by contains it.
proof fn lemma_holds_address(space: Space, layout: Layout, address: usize, kind: ServedKind, block: Block)
    requires
        space.whole(),
        layout.wf(),
        holds(space, layout, address, kind, block),
    ensures
        space.start_of(block) <= address < space.start_of(block) + space.length_of(block),
{
    match block {
        Block::Small { block: start, context, class, requested_bytes } => {
            lemma_in_slab(space, start, context, class, requested_bytes);
        },
        Block::Medium { place, address: start, slices } => {
            lemma_in_region(space, place, start, slices);
            assert(slices * MEDIUM_SLICE_SIZE > 0) by (nonlinear_arith)
                requires
                    slices >= 1,
                    MEDIUM_SLICE_SIZE == 65536,
            ;
        },
        Block::Bump { bump, address: start, bytes } => {
            lemma_in_chunk(space, bump, start, bytes);
        },
        Block::Direct { address: user, mapping, bytes } => {
            lemma_record_at(space.records.extras@, user);
            assert(direct_ok(space.record_of(user), space.mapped@, space.slabs@));
        },
    }
}

/// An address is held by one block.
pub proof fn lemma_one_holder(space: Space, layout: Layout, address: usize, left: ServedKind, a: Block, right: ServedKind, b: Block)
    requires
        space.whole(),
        layout.wf(),
        holds(space, layout, address, left, a),
        holds(space, layout, address, right, b),
    ensures
        a == b,
{
    lemma_holds_address(space, layout, address, left, a);
    lemma_holds_address(space, layout, address, right, b);
    if a != b {
        law_blocks_in_use_lie_apart(space, a, b);
    }
}

/// Whether the bump heap took the block back, and the header that it may have had is the one given.
pub open spec fn bump_freed(
    before: Space,
    after: Space,
    bump: int,
    address: usize,
    layout: Layout,
    reclaim_tail: bool,
    header: Option<(TrackingAllocation, bool)>,
    release: BumpRelease,
) -> bool {
    let own = before.bumps@[bump];
    let now = after.bumps@[bump];
    match header {
        None => {
            &&& freed(&own, &now, release, address as int, layout.spec_bytes(), layout.size, address, reclaim_tail)
            &&& now.headers == own.headers
        },
        Some((allocation, late)) => {
            let at = header_of(own.headers@, address);
            let known = own.headers@[at];
            &&& allocation == known.allocation
            &&& late == own.handle_released
            &&& freed(
                &own,
                &now,
                release,
                address as int,
                layout.spec_bytes(),
                layout.size,
                known.previous_cursor,
                reclaim_tail,
            )
            &&& now.headers@ == own.headers@.remove(at)
        },
    }
}

/// Whether the step is what is left to do for the block that the thread gave back at the address.
pub open spec fn freed_as(
    before: Space,
    after: Space,
    thread: ThreadState,
    layout: Layout,
    address: usize,
    deadline: u64,
    block: Block,
    step: FreeStep,
) -> bool {
    match block {
        Block::Small { block: start, context, class, requested_bytes } => match step {
            FreeStep::Small { class: c, to } => !context && c == class && given_to(
                before,
                after,
                thread.spec_current_heap(),
                thread.token,
                start,
                context,
                class,
                requested_bytes,
                to,
            ),
            FreeStep::Recorded { extra, to } => context && extra == before.record_of(address) && given_to(
                before,
                after,
                thread.spec_current_heap(),
                thread.token,
                start,
                context,
                class,
                requested_bytes,
                to,
            ),
            _ => false,
        },
        Block::Medium { place, address: start, slices } => step matches FreeStep::Medium { gone } && counted_off(
            before,
            after,
            before.domains@[place].medium_at(address as int).owner,
            gone,
        ) && span_given_back(before, after, thread.spec_current_heap(), place, address, slices as usize, deadline),
        Block::Direct { address: user, mapping, bytes } => step matches FreeStep::Direct { extra, gone } && extra
            == before.record_of(address) && after.mapped@ == before.mapped@.remove(extra.mapping_address) && counted_off(
            before,
            after,
            extra.owner,
            gone,
        ) && after.domains == before.domains && after.slabs == before.slabs && after.remotes == before.remotes && after.bumps
            == before.bumps,
        Block::Bump { bump, address: start, bytes } => step matches FreeStep::Bump { bump: b, header, release } && b == bump
            && bump_freed(
            before,
            after,
            bump,
            address,
            layout,
            thread.active_bump == before.bumps@[bump].address,
            header,
            release,
        ) && after.heaps == before.heaps && after.slabs == before.slabs && after.remotes == before.remotes && after.mapped
            == before.mapped && (forall|other: int|
            #![trigger after.bumps@[other]]
            0 <= other < before.bumps@.len() && other != bump ==> after.bumps@[other] == before.bumps@[other]),
    }
}

/// Whether the route is that of such a block.
pub open spec fn routed(kind: ServedKind, block: Block, route: FreeRoute) -> bool {
    match kind {
        ServedKind::Small { class } => route == (FreeRoute::Small { class }),
        ServedKind::Recorded { class } => route == FreeRoute::Recorded,
        ServedKind::Medium => route == FreeRoute::Medium,
        ServedKind::Direct { mapping_size } => route == FreeRoute::Direct,
        ServedKind::Bump => block is Bump && (route matches FreeRoute::Bump { bump } && bump == block->bump),
    }
}

impl Space {
    /// Finds out what kind of block an address is.
    pub fn route_free(&self, address: usize, layout: Layout) -> (route: FreeRoute)
        requires
            self.whole(),
            layout.wf(),
        ensures
            forall|kind: ServedKind, block: Block|
                #[trigger] holds(*self, layout, address, kind, block) ==> routed(kind, block, route),
    {
        let route: FreeRoute = self.find_route(address, layout);
        proof {
            assert forall|kind: ServedKind, block: Block| #[trigger] holds(*self, layout, address, kind, block) implies routed(
                kind,
                block,
                route,
            ) by {
                match block {
                    Block::Small { block: start, context, class, requested_bytes } => {
                        assert(self.used_as(start, context, class, requested_bytes));
                        if context {
                            assert(self.uses_recorded(start, address, class, requested_bytes));
                        }
                    },
                    Block::Medium { place, address: start, slices } => {
                        assert(medium_used(*self, place, address, slices));
                    },
                    Block::Bump { bump, address: start, bytes } => {
                        assert(self.uses(Block::Bump { bump, address: address as int, bytes }));
                    },
                    Block::Direct { address: user, mapping, bytes } => {
                        assert(self.uses(Block::Direct { address, mapping, bytes }));
                    },
                }
            }
        }
        route
    }

    /// Gives a small block with a record back.
    fn free_recorded(&mut self, thread: &ThreadState, address: usize, layout: Layout, Ghost(block): Ghost<Block>) -> (step: FreeStep)
        requires
            old(self).whole(),
            layout.wf(),
            thread.known(*old(self)),
            exists|class: usize| #[trigger] holds(*old(self), layout, address, ServedKind::Recorded { class }, block),
            thread.spec_current_heap() != 0 || !old(self).owner_local(0, thread.token, segment_of(address as int) as usize),
        ensures
            only_freed(*old(self), *final(self), block),
            forall|deadline: u64| #[trigger] freed_as(*old(self), *final(self), *thread, layout, address, deadline, block, step),
            step is Recorded,
    {
        let ghost before = *self;
        let ghost held_class = choose|class: usize| #[trigger] holds(before, layout, address, ServedKind::Recorded { class }, block);
        let current: usize = thread.current_heap();
        let start: usize = address - context_user_offset(layout.align);
        let at: usize = self.records.find(address).unwrap();
        let class: usize = self.records.extras[at].class_index.unwrap();
        let extra: ExtraHeader = self.forget_context(start, address, class, layout.size);
        let ghost middle = *self;
        proof {
            lemma_forgotten(before, middle, start, address, class as int, layout.size as int);
            lemma_record_at(before.records.extras@, address);
            lemma_record_goes(before, middle, record_at(before.records.extras@, address));
            lemma_slab_route(before, start, true, class as int, layout.size as int, address);
            lemma_known_kept(before, middle, *thread);
        }
        let to: FreedTo = self.free_small(current, thread.token, true, class, start, layout.size);
        proof {
            lemma_freed_after(before, middle, *self, block);
        }
        FreeStep::Recorded { extra, to }
    }

    /// Gives a span back, and counts it off its heap.
    fn free_medium_block(&mut self, current: usize, address: usize, layout: Layout, deadline: u64, Ghost(block): Ghost<Block>) -> (step:
        FreeStep)
        requires
            old(self).whole(),
            current != 0 ==> old(self).has_heap(current),
            holds(*old(self), layout, address, ServedKind::Medium, block),
        ensures
            only_freed(*old(self), *final(self), block),
            step matches FreeStep::Medium { gone } && counted_off(
                *old(self),
                *final(self),
                old(self).domains@[block->Medium_place].medium_at(address as int).owner,
                gone,
            ),
            span_given_back(
                *old(self),
                *final(self),
                current,
                block->Medium_place,
                address,
                block->Medium_slices as usize,
                deadline,
            ),
    {
        let ghost before = *self;
        let slices: usize = medium_slice_count(layout).unwrap();
        let owner: SpanOwner = self.free_span(current, address, slices, deadline, Ghost(block->Medium_place));
        let ghost middle = *self;
        let gone: Option<usize> = self.release_external(owner);
        proof {
            lemma_counted_after(before, middle, *self, owner, gone);
            lemma_freed_before(before, middle, *self, block);
            lemma_given_back_then(before, middle, *self, current, block->Medium_place, address, slices, deadline);
        }
        FreeStep::Medium { gone }
    }

    /// Forgets a block in a mapping of its own, and counts it off its heap.
    fn free_direct_block(&mut self, address: usize, Ghost(block): Ghost<Block>) -> (step: FreeStep)
        requires
            old(self).whole(),
            old(self).uses(block),
            block matches Block::Direct { address: user, .. } && user == address,
        ensures
            only_freed(*old(self), *final(self), block),
            step matches FreeStep::Direct { extra, gone } && extra == old(self).record_of(address) && final(self).mapped@
                == old(self).mapped@.remove(extra.mapping_address) && counted_off(*old(self), *final(self), extra.owner, gone),
            final(self).domains == old(self).domains,
            final(self).slabs == old(self).slabs,
            final(self).remotes == old(self).remotes,
            final(self).bumps == old(self).bumps,
    {
        let ghost before = *self;
        proof {
            if let Block::Direct { address: user, mapping, bytes } = block {
                assert(before.uses(Block::Direct { address, mapping, bytes }));
            }
        }
        let extra: ExtraHeader = self.unmap_direct(address);
        let ghost middle = *self;
        proof {
            lemma_record_gone(before, middle, address, block);
        }
        let gone: Option<usize> = self.release_external(extra.owner);
        proof {
            lemma_counted_after(before, middle, *self, extra.owner, gone);
            lemma_freed_before(before, middle, *self, block);
        }
        FreeStep::Direct { extra, gone }
    }

    /// Whether the block at the address can be given back: it is in use, was asked for with the
    /// layout, and the thread has a heap where the block comes back to one of its heaps.
    pub open spec fn freeable(&self, thread: ThreadState, address: usize, layout: Layout) -> bool {
        &&& exists|kind: ServedKind, block: Block| #[trigger] holds(*self, layout, address, kind, block)
        &&& thread.spec_current_heap() != 0 || !self.slabs@.dom().contains(segment_of(address as int) as usize) || !self.owner_local(
            0,
            thread.token,
            segment_of(address as int) as usize,
        )
    }

    /// Whether the block at the address comes back to a heap of the thread, which has none.
    pub fn needs_heap(&self, thread: &ThreadState, address: usize) -> (needed: bool)
        requires
            self.whole(),
        ensures
            needed == !(thread.spec_current_heap() != 0 || !self.slabs@.dom().contains(segment_of(address as int) as usize)
                || !self.owner_local(0, thread.token, segment_of(address as int) as usize)),
    {
        if thread.current_heap() != 0 {
            return false;
        }
        let slab: usize = allocation_segment(address);
        if self.slabs.position(slab).is_none() || !self.slabs.is_shared(slab) {
            return false;
        }
        let owner: usize = self.slabs.owner_of(slab);
        proof {
            assert(self.slab_owned(slab));
        }
        match self.find_remote(owner) {
            None => false,
            Some(remote) => {
                proof {
                    assert forall|at: int| #[trigger] self.is_remote(at, owner) implies at == remote by {
                        if at < remote {
                            assert(self.remotes@[at].address != self.remotes@[remote as int].address);
                        } else if remote < at {
                            assert(self.remotes@[remote as int].address != self.remotes@[at].address);
                        }
                    }
                    assert(self.is_remote(remote as int, owner));
                }
                self.remotes[remote].owner_token == thread.token
            },
        }
    }

    /// Gives the block at the address back. The memory of a span that comes back may go at the
    /// deadline, in milliseconds.
    #[verifier::spinoff_prover]
    #[verifier::rlimit(60)]
    pub fn deallocate(&mut self, thread: &ThreadState, address: usize, layout: Layout, deadline: u64) -> (step: FreeStep)
        requires
            old(self).whole(),
            layout.wf(),
            thread.known(*old(self)),
            old(self).freeable(*thread, address, layout),
        ensures
            forall|kind: ServedKind, block: Block|
                #[trigger] holds(*old(self), layout, address, kind, block) ==> only_freed(*old(self), *final(self), block)
                    && freed_as(*old(self), *final(self), *thread, layout, address, deadline, block, step),
            step matches FreeStep::Bump { bump, header, release } ==> {
                &&& bump < final(self).bumps@.len()
                &&& header is Some <==> has_header(*old(self), bump as int, address)
                &&& release is Finished ==> final(self).bumps@[bump as int].pooled()
                &&& release is InUse ==> final(self).bumps@[bump as int].wf()
                &&& chunks_pending(*final(self), old(self).bumps@[bump as int].domain, trimmed_of(release))
            },
    {
        let ghost before = *self;
        let ghost (kind, block) = choose|kind: ServedKind, block: Block| #[trigger] holds(before, layout, address, kind, block);
        proof {
            assert forall|other: ServedKind, theirs: Block| #[trigger] holds(before, layout, address, other, theirs) implies theirs
                == block by {
                lemma_one_holder(before, layout, address, kind, block, other, theirs);
            }
        }
        let current: usize = thread.current_heap();
        let route: FreeRoute = self.route_free(address, layout);
        proof {
            assert(routed(kind, block, route));
            if let Block::Small { block: start, context, class, requested_bytes } = block {
                lemma_holds_address(before, layout, address, kind, block);
                lemma_slab_route(before, start, context, class, requested_bytes, address);
            }
            if let Block::Bump { bump, address: start, bytes } = block {
                assert(before.uses(Block::Bump { bump, address: address as int, bytes: layout.spec_bytes() }));
            }
        }
        match route {
            FreeRoute::Bump { bump } => {
                let reclaim_tail: bool = thread.active_bump == self.bumps[bump].address;
                let released: (Option<(TrackingAllocation, bool)>, BumpRelease) = self.free_bumped(
                    bump,
                    address,
                    layout,
                    reclaim_tail,
                );
                FreeStep::Bump { bump, header: released.0, release: released.1 }
            },
            FreeRoute::Small { class } => {
                proof {
                    lemma_in_slab(before, address, false, class as int, layout.size as int);
                }
                let to: FreedTo = self.free_small(current, thread.token, false, class, address, layout.size);
                FreeStep::Small { class, to }
            },
            FreeRoute::Recorded => self.free_recorded(thread, address, layout, Ghost(block)),
            FreeRoute::Medium => self.free_medium_block(current, address, layout, deadline, Ghost(block)),
            FreeRoute::Direct => self.free_direct_block(address, Ghost(block)),
        }
    }
}

/// A block whose record went holds none.
proof fn lemma_forgotten(before: Space, after: Space, block: usize, address: usize, class: int, requested_bytes: int)
    requires
        before.whole(),
        before.uses_recorded(block, address, class, requested_bytes),
        after.records.extras@ == before.records.extras@.remove(record_at(before.records.extras@, address)),
        after.tuning == before.tuning,
    ensures
        after.unrecorded(block, class),
{
    let extras = before.records.extras@;
    let gone = record_at(extras, address);
    lemma_record_at(extras, address);
    let own = Block::Small { block, context: true, class, requested_bytes };
    assert forall|at: int| 0 <= at < after.records.extras@.len() implies !(block <= (#[trigger] after.records.extras@[at]).address < block
        + after.sizes()[class]) by {
        let old_at = if at < gone {
            at
        } else {
            at + 1
        };
        assert(after.records.extras@[at] == extras[old_at]);
        let (held, requested) = choose|held: usize, requested: int| #[trigger] before.holds_record(gone, held, requested);
        let holder = Block::Small { block: held, context: true, class, requested_bytes: requested };
        assert(before.uses(own) && before.uses(holder));
        if own != holder {
            law_blocks_in_use_lie_apart(before, own, holder);
        }
    }
}

/// A block in mapping of its own that went is in use no more.
proof fn lemma_record_gone(before: Space, after: Space, address: usize, block: Block)
    requires
        before.whole(),
        after.whole(),
        block matches Block::Direct { address: user, .. } && user == address,
        before.uses(block),
        after.tuning == before.tuning,
        same_but_direct(before, after, None),
        after.records.extras@ == before.records.extras@.remove(record_at(before.records.extras@, address)),
        forall|other: Block|
            #[trigger] before.uses(other) && other != (Block::Direct {
                address,
                mapping: before.record_of(address).mapping_address,
                bytes: before.record_of(address).mapping_size as int,
            }) ==> after.uses(other),
    ensures
        only_freed(before, after, block),
{
    let extras = before.records.extras@;
    let gone = record_at(extras, address);
    let now = after.records.extras@;
    lemma_record_at(extras, address);
    lemma_record_at(now, address);
    lemma_record_goes(before, after, gone);
    assert(record_at(now, address) < 0) by {
        let at = record_at(now, address);
        if at >= 0 {
            let old_at = if at < gone {
                at
            } else {
                at + 1
            };
            assert(now[at] == extras[old_at]);
            if old_at < gone {
                assert(extras[old_at].address != extras[gone].address);
            } else {
                assert(extras[gone].address != extras[old_at].address);
            }
        }
    }
}

/// A block that is freed before a step that keeps the blocks in use, and does not use it again.
proof fn lemma_freed_before(before: Space, middle: Space, after: Space, block: Block)
    requires
        only_freed(before, middle, block),
        step_kept(middle, after),
        uses_kept(after, middle),
    ensures
        only_freed(before, after, block),
{
    assert(uses_only(middle, after, None)) by {
        reveal(uses_only);
    }
    lemma_only_then(before, middle, after, None);
    assert forall|other: Block| #[trigger] before.uses(other) && other != block implies after.uses(other) by {
        assert(middle.uses(other));
    }
}

} // verus!
