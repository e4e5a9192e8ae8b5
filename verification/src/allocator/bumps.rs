//! The bump heaps of a space.

use vstd::prelude::*;

use crate::allocator::arenas::{bases_kept, domain_step, lemma_domain_step, lemma_spans_held, same_regions};
use crate::allocator::bump::{
    chunk_base, dropped_chunks, finished, freed, header_of, kept_chunks, tracked_alignment, BumpRelease,
    BumpState, Placement, BUMP_CHUNK_SIZE, TRACKING_HEADER_SIZE,
};
use crate::allocator::domains::{lemma_changed_region, DomainState};
use crate::allocator::holdings::{lemma_metadata_frame, spans_apart};
use crate::allocator::layout::Layout;
use crate::allocator::lives::{lemma_mediums_less, lemma_same_allocations, mediums_less};
use crate::allocator::mediums::mediums_kept;
use crate::allocator::outcomes::chunk_joined;
use crate::allocator::refills::{lemma_held_bounds, lemma_span_step, users_kept};
use crate::allocator::region::{PhysicalSlice, PhysicalSliceKind};
use crate::allocator::segments::segments_stay;
use crate::allocator::space::{bump_ok, held_ok, holdings_ok, is_domain, Holding, Space, User};
use crate::allocator::thread_heaps::{chunks_pending, slice_pending};
use crate::hints::bump::Options;
use crate::telemetry::events::TrackingAllocation;

verus! {

/// Whether the slice at the address is recorded as a chunk of the bump heap.
pub open spec fn chunk_recorded(before: &DomainState, after: &DomainState, address: usize, state: usize) -> bool {
    match before.region_at(address as int) {
        None => after.regions@ == before.regions@,
        Some(index) => {
            let region = before.regions@[index];
            let slice = region.slice_of(address as int);
            &&& after.same_but_region(before, index)
            &&& after.regions@[index].same_but_metadata(&region)
            &&& after.regions@[index].allocations == region.allocations
            &&& after.regions@[index].physical@ == region.physical@.update(
                slice,
                PhysicalSlice {
                    kind: PhysicalSliceKind::Bump,
                    span: 1,
                    owner: state,
                    bump_state: state,
                    ..region.physical@[slice]
                },
            )
        },
    }
}

impl DomainState {
    /// Records that a slice is a chunk of a bump heap.
    pub fn register_bump_chunk(&mut self, address: usize, state: usize)
        requires
            old(self).wf(),
            old(self).spans_ok(),
        ensures
            final(self).wf(),
            final(self).spans_ok(),
            final(self).id == old(self).id,
            final(self).is_default == old(self).is_default,
            final(self).keeps_spans(old(self)),
            final(self).same_bases(old(self)),
            final(self).regions@.len() == old(self).regions@.len(),
            chunk_recorded(old(self), final(self), address, state),
    {
        let ghost before = *self;
        match self.find_region(address) {
            None => {},
            Some(index) => {
                assert(self.regions@[index as int].wf());
                let slice: usize = self.regions[index].slice_index(address);
                self.regions[index].register_bump_chunk(slice, state);
                proof {
                    lemma_changed_region(&before, self, index as int);
                    lemma_metadata_frame(&before, self, index as int);
                }
            },
        }
    }
}

/// Whether nothing but one bump heap may differ.
pub open spec fn same_but_bump(before: Space, after: Space, bump: int) -> bool {
    &&& after.tuning == before.tuning
    &&& after.slabs == before.slabs
    &&& after.heaps == before.heaps
    &&& after.remotes == before.remotes
    &&& after.records == before.records
    &&& after.mapped == before.mapped
    &&& after.out == before.out
    &&& after.domains@.len() == before.domains@.len()
    &&& after.bumps@.len() == before.bumps@.len()
    &&& segments_stay(before.holdings@, after.holdings@)
    &&& forall|other: int|
        #![trigger after.bumps@[other]]
        0 <= other < before.bumps@.len() && other != bump ==> after.bumps@[other] == before.bumps@[other]
    &&& after.bumps@[bump].address == before.bumps@[bump].address
    &&& after.bumps@[bump].domain == before.bumps@[bump].domain
}

/// The spans that are held once the bump heap has let go of the chunks.
pub open spec fn let_go(holdings: Map<usize, Holding>, chunks: Seq<usize>) -> Map<usize, Holding> {
    Map::new(
        |address: usize| holdings.dom().contains(address),
        |address: usize|
            if chunks.contains(address) {
                Holding { user: User::Pending, ..holdings[address] }
            } else {
                holdings[address]
            },
    )
}

/// The chunks that a bump heap let go of are to be given back.
pub proof fn lemma_chunks_pending(before: Space, after: Space, bump: int, dropped: Seq<usize>)
    requires
        before.inv(),
        0 <= bump < before.bumps@.len(),
        after.holdings@ == let_go(before.holdings@, dropped),
        forall|at: int| 0 <= at < dropped.len() ==> before.bumps@[bump].chunks@.contains(#[trigger] dropped[at]),
    ensures
        chunks_pending(after, before.bumps@[bump].domain, dropped),
{
    assert(before.chunks_held(bump));
    assert forall|at: int| 0 <= at < dropped.len() implies slice_pending(after, before.bumps@[bump].domain, #[trigger] dropped[at]) by {
        let chunks = before.bumps@[bump].chunks@;
        let place = choose|place: int| 0 <= place < chunks.len() && chunks[place] == dropped[at];
        assert(before.holdings@.dom().contains(before.bumps@[bump].chunks@[place]));
        assert(dropped.contains(dropped[at]));
    }
}

/// The work on one bump heap keeps everything else in order. It lets go of chunks at most.
pub proof fn lemma_bump_step(before: Space, after: Space, bump: int, dropped: Seq<usize>)
    requires
        before.inv(),
        0 <= bump < before.bumps@.len(),
        same_but_bump(before, after, bump),
        after.domains == before.domains,
        bump_ok(after.bumps@[bump]),
        forall|at: int|
            0 <= at < after.bumps@[bump].chunks@.len() ==> before.bumps@[bump].chunks@.contains(
                #[trigger] after.bumps@[bump].chunks@[at],
            ) && !dropped.contains(after.bumps@[bump].chunks@[at]),
        forall|at: int| 0 <= at < dropped.len() ==> before.bumps@[bump].chunks@.contains(#[trigger] dropped[at]),
        after.holdings@ == let_go(before.holdings@, dropped),
    ensures
        after.inv(),
        forall|block: usize| #[trigger] after.loose(block) == before.loose(block),
{
    let own = before.bumps@[bump];
    assert(bump_ok(own) && before.chunks_held(bump));
    let address = own.address;
    assert forall|at: int| 0 <= at < dropped.len() implies before.holdings@.dom().contains(#[trigger] dropped[at])
        && before.holdings@[dropped[at]].user == (User::Chunk { bump: address }) by {
        let place = choose|place: int| 0 <= place < own.chunks@.len() && own.chunks@[place] == dropped[at];
        assert(before.bumps@[bump].chunks@[place] == dropped[at]);
    }
    assert forall|chunk: usize| dropped.contains(chunk) implies before.holdings@.dom().contains(chunk)
        && #[trigger] before.holdings@[chunk].user == (User::Chunk { bump: address }) by {
        let at = choose|at: int| 0 <= at < dropped.len() && dropped[at] == chunk;
        assert(before.holdings@.dom().contains(dropped[at]));
    }
    assert(after.holdings@.dom() =~= before.holdings@.dom());
    assert(holdings_ok(after.domains@, after.holdings@)) by {
        assert forall|held: usize| #[trigger] after.holdings@.dom().contains(held) implies held_ok(
            after.domains@,
            held,
            after.holdings@[held],
        ) by {
            assert(held_ok(before.domains@, held, before.holdings@[held]));
        }
        assert forall|left: usize, right: usize|
            #![trigger after.holdings@.dom().contains(left), after.holdings@.dom().contains(right)]
            after.holdings@.dom().contains(left) && after.holdings@.dom().contains(right) && left != right implies spans_apart(
            left as int,
            after.holdings@[left].slices,
            right as int,
            after.holdings@[right].slices,
        ) by {
            assert(before.holdings@.dom().contains(left) && before.holdings@.dom().contains(right));
        }
    }
    assert(users_kept(before.holdings@, after.holdings@, 0, address)) by {
        assert forall|held: usize|
            #[trigger] before.holdings@.dom().contains(held) && !crate::allocator::refills::passing(
                before.holdings@[held].user,
                0,
                address,
            ) implies after.holdings@.dom().contains(held) && after.holdings@[held] == before.holdings@[held] by {
            if dropped.contains(held) {
                assert(before.holdings@[held].user == (User::Chunk { bump: address }));
            }
        }
    }
    assert forall|other: int| 0 <= other < after.bumps@.len() implies bump_ok(#[trigger] after.bumps@[other]) && after.chunks_held(other)
        && is_domain(after.domains@, after.bumps@[other].domain) by {
        assert(bump_ok(before.bumps@[other]) && before.chunks_held(other));
        assert forall|at: int| 0 <= at < after.bumps@[other].chunks@.len() implies {
            let chunk = #[trigger] after.bumps@[other].chunks@[at];
            &&& after.holdings@.dom().contains(chunk)
            &&& after.holdings@[chunk].slices == 1
            &&& after.holdings@[chunk].user == (User::Chunk { bump: after.bumps@[other].address })
        } by {
            let chunk = after.bumps@[other].chunks@[at];
            if other == bump {
                let place = choose|place: int| 0 <= place < own.chunks@.len() && own.chunks@[place] == chunk;
                assert(before.bumps@[bump].chunks@[place] == chunk);
            } else {
                assert(before.bumps@[other].chunks@[at] == chunk);
                if dropped.contains(chunk) {
                    assert(before.holdings@[chunk].user == (User::Chunk { bump: address }));
                    if other < bump {
                        assert(before.bumps@[other].address != before.bumps@[bump].address);
                    } else {
                        assert(before.bumps@[bump].address != before.bumps@[other].address);
                    }
                }
            }
        }
    }
    assert(after.bumps_ok());
    assert(address != 0);
    lemma_span_step(before, after, address);
}

/// Nothing is let go of where there is nothing to let go of.
proof fn lemma_let_go_nothing(holdings: Map<usize, Holding>)
    ensures
        let_go(holdings, Seq::empty()) == holdings,
{
    assert(let_go(holdings, Seq::empty()) =~= holdings);
}

impl Space {
    /// Whether the address is a bump heap's.
    pub open spec fn is_bump(&self, bump: int, address: usize) -> bool {
        0 <= bump < self.bumps@.len() && self.bumps@[bump].address == address
    }

    /// Whether the address lies in a chunk of the bump heap.
    pub open spec fn chunk_of(&self, bump: int, address: int) -> bool {
        0 <= bump < self.bumps@.len() && self.bumps@[bump].chunks@.contains(chunk_base(address) as usize)
    }

    /// Finds a bump heap by its address.
    pub fn find_bump(&self, address: usize) -> (found: Option<usize>)
        ensures
            match found {
                Some(at) => self.is_bump(at as int, address),
                None => forall|at: int| !#[trigger] self.is_bump(at, address),
            },
    {
        let mut at: usize = 0;
        while at < self.bumps.len()
            invariant
                at <= self.bumps@.len(),
                forall|before: int| 0 <= before < at ==> !#[trigger] self.is_bump(before, address),
            decreases self.bumps@.len() - at,
        {
            if self.bumps[at].address == address {
                return Some(at);
            }
            at = at + 1;
        }
        None
    }

    /// Finds the bump heap that an address lies in a chunk of.
    pub fn find_bump_of(&self, address: usize) -> (found: Option<usize>)
        ensures
            match found {
                Some(at) => self.chunk_of(at as int, address as int),
                None => forall|at: int| !#[trigger] self.chunk_of(at, address as int),
            },
    {
        proof {
            vstd::arithmetic::div_mod::lemma_mod_decreases(address as nat, BUMP_CHUNK_SIZE as nat);
        }
        let base: usize = address - address % BUMP_CHUNK_SIZE;
        let mut at: usize = 0;
        while at < self.bumps.len()
            invariant
                at <= self.bumps@.len(),
                base == chunk_base(address as int),
                forall|before: int| 0 <= before < at ==> !#[trigger] self.chunk_of(before, address as int),
            decreases self.bumps@.len() - at,
        {
            let mut place: usize = 0;
            while place < self.bumps[at].chunks.len()
                invariant
                    at < self.bumps@.len(),
                    place <= self.bumps@[at as int].chunks@.len(),
                    base == chunk_base(address as int),
                    forall|before: int| 0 <= before < place ==> self.bumps@[at as int].chunks@[before] != base,
                decreases self.bumps@[at as int].chunks@.len() - place,
            {
                if self.bumps[at].chunks[place] == base {
                    assert(self.bumps@[at as int].chunks@[place as int] == base);
                    return Some(at);
                }
                place = place + 1;
            }
            at = at + 1;
        }
        None
    }

    /// Places a block in a bump heap, where it serves such blocks.
    pub fn place_bump(&mut self, bump: usize, layout: Layout) -> (placement: Option<Placement>)
        requires
            old(self).inv(),
            bump < old(self).bumps@.len(),
            old(self).bumps@[bump as int].wf(),
            layout.wf(),
            !old(self).bumps@[bump as int].spent(0, layout.align as int, layout.spec_bytes()),
        ensures
            final(self).bumps@[bump as int].headers == old(self).bumps@[bump as int].headers,
            final(self).inv(),
            same_but_bump(*old(self), *final(self), bump as int),
            final(self).domains == old(self).domains,
            final(self).holdings@ == old(self).holdings@,
            forall|block: usize| #[trigger] final(self).loose(block) == old(self).loose(block),
            final(self).bumps@[bump as int].wf(),
            placement is Some <==> old(self).bumps@[bump as int].serves(layout),
            placement is None ==> final(self).bumps@[bump as int] == old(self).bumps@[bump as int],
            placement matches Some(placement) ==> old(self).bumps@[bump as int].placing(
                &final(self).bumps@[bump as int],
                placement,
                0,
                layout.align as int,
                layout.spec_bytes(),
                layout.size,
            ),
            placement matches Some(Placement::Served { address }) ==> final(self).bumps@[bump as int].live@
                == old(self).bumps@[bump as int].live@.insert(address as int, layout.spec_bytes()) && !old(
                self,
            ).bumps@[bump as int].live@.dom().contains(address as int) && address as int % (layout.align as int) == 0,
    {
        let ghost before = *self;
        let placement: Option<Placement> = self.bumps[bump].allocate(layout);
        proof {
            let own = before.bumps@[bump as int];
            let after = self.bumps@[bump as int];
            assert(after.chunks == own.chunks && after.address == own.address && after.domain == own.domain) by {
                if let Some(outcome) = placement {
                    lemma_placing_keeps(own, after, outcome, 0, layout.align as int, layout.spec_bytes(), layout.size);
                }
            }
            lemma_let_go_nothing(before.holdings@);
            lemma_bump_step(before, *self, bump as int, Seq::empty());
        }
        placement
    }

    /// Places a block with a header for its record in a bump heap, where it serves such blocks.
    pub fn place_bump_logged(&mut self, bump: usize, layout: Layout) -> (placement: Option<Placement>)
        requires
            old(self).inv(),
            bump < old(self).bumps@.len(),
            old(self).bumps@[bump as int].wf(),
            layout.wf(),
            !old(self).bumps@[bump as int].spent(TRACKING_HEADER_SIZE as int, tracked_alignment(layout), layout.spec_bytes()),
        ensures
            final(self).inv(),
            same_but_bump(*old(self), *final(self), bump as int),
            final(self).domains == old(self).domains,
            final(self).holdings@ == old(self).holdings@,
            forall|block: usize| #[trigger] final(self).loose(block) == old(self).loose(block),
            final(self).bumps@[bump as int].wf(),
            placement is Some <==> old(self).bumps@[bump as int].serves_logged(layout),
            placement is None ==> final(self).bumps@[bump as int] == old(self).bumps@[bump as int],
            placement matches Some(placement) ==> old(self).bumps@[bump as int].placing(
                &final(self).bumps@[bump as int],
                placement,
                TRACKING_HEADER_SIZE as int,
                tracked_alignment(layout),
                layout.spec_bytes(),
                layout.size,
            ),
            match placement {
                Some(Placement::Served { address }) => {
                    &&& final(self).bumps@[bump as int].live@ == old(self).bumps@[bump as int].live@.insert(
                        address as int,
                        layout.spec_bytes(),
                    )
                    &&& !old(self).bumps@[bump as int].live@.dom().contains(address as int)
                    &&& address as int % tracked_alignment(layout) == 0
                    &&& final(self).bumps@[bump as int].headers@ == old(self).bumps@[bump as int].headers@.push(
                        old(self).bumps@[bump as int].next_header(layout, address),
                    )
                },
                _ => final(self).bumps@[bump as int].headers == old(self).bumps@[bump as int].headers,
            },
    {
        let ghost before = *self;
        let placement: Option<Placement> = self.bumps[bump].allocate_tracked(layout);
        proof {
            let own = before.bumps@[bump as int];
            let after = self.bumps@[bump as int];
            assert(after.chunks == own.chunks && after.address == own.address && after.domain == own.domain) by {
                if let Some(outcome) = placement {
                    lemma_placing_keeps(
                        own,
                        after,
                        outcome,
                        TRACKING_HEADER_SIZE as int,
                        tracked_alignment(layout),
                        layout.spec_bytes(),
                        layout.size,
                    );
                }
            }
            lemma_let_go_nothing(before.holdings@);
            lemma_bump_step(before, *self, bump as int, Seq::empty());
        }
        placement
    }

    /// Gives a bump heap a chunk that was taken for it and committed.
    pub fn supply_bump_chunk(&mut self, bump: usize, chunk: usize)
        requires
            old(self).inv(),
            bump < old(self).bumps@.len(),
            old(self).bumps@[bump as int].wf(),
            old(self).bumps@[bump as int].credits == 0,
            !old(self).bumps@[bump as int].has_next(),
            slice_pending(*old(self), old(self).bumps@[bump as int].domain, chunk),
        ensures
            final(self).inv(),
            same_but_bump(*old(self), *final(self), bump as int),
            forall|block: usize| #[trigger] final(self).loose(block) == old(self).loose(block),
            mediums_kept(old(self).domains@, final(self).domains@),
            mediums_less(old(self).domains@, final(self).domains@),
            final(self).bumps@[bump as int].wf(),
            final(self).bumps@[bump as int].same_owner(&old(self).bumps@[bump as int]),
            final(self).bumps@[bump as int].supplied(&old(self).bumps@[bump as int], chunk),
            chunk_joined(*old(self), *final(self), bump as int, chunk),
            bases_kept(old(self).domains@, final(self).domains@),
    {
        let ghost before = *self;
        let ghost own = before.bumps@[bump as int];
        assert(bump_ok(own) && before.chunks_held(bump as int));
        let place: usize = self.bumps[bump].domain - 1;
        proof {
            lemma_held_bounds(before, chunk);
            assert(before.domains@[place as int].wf());
            assert forall|index: int| 0 <= index < own.chunks@.len() implies #[trigger] own.chunks@[index] != chunk by {
                assert(before.holdings@[before.bumps@[bump as int].chunks@[index]].user is Chunk);
            }
        }
        let state: usize = self.bumps[bump].address;
        self.bumps[bump].supply_chunk(chunk);
        self.domains[place].register_bump_chunk(chunk, state);
        proof {
            let holding = Holding { user: User::Chunk { bump: state }, ..before.holdings@[chunk] };
            let left = before.domains@[place as int];
            let right = self.domains@[place as int];
            assert(same_regions(left, right));
            assert(domain_step(before.domains@, self.domains@, place as int, before.mapped@, None));
            lemma_domain_step(before.domains@, self.domains@, place as int, before.mapped@, None);
            lemma_spans_held(before.domains@, self.domains@, place as int, before.holdings@);
            self.holdings@ = before.holdings@.insert(chunk, holding);
            lemma_retagged(self.domains@, before.holdings@, chunk, holding);
            lemma_chunk_added(before, *self, bump as int, chunk);
            lemma_span_step(before, *self, state);
            lemma_same_allocations(&left, &right);
            lemma_mediums_less(before.domains@, self.domains@, place as int);
        }
    }

    /// Takes a block back into its bump heap. Where that was the last thing that used the heap, the
    /// heap goes to a pool and lets go of chunks that it does not need.
    pub fn free_bump(&mut self, bump: usize, address: usize, layout: Layout, reclaim_tail: bool) -> (release: BumpRelease)
        requires
            old(self).inv(),
            bump < old(self).bumps@.len(),
            old(self).bumps@[bump as int].wf(),
            layout.wf(),
            old(self).bumps@[bump as int].live@.dom().contains(address as int),
            old(self).bumps@[bump as int].live@[address as int] == layout.spec_bytes(),
            forall|at: int|
                0 <= at < old(self).bumps@[bump as int].headers@.len() ==> (#[trigger] old(self).bumps@[bump as int].headers@[at]).address
                    != address,
        ensures
            final(self).inv(),
            same_but_bump(*old(self), *final(self), bump as int),
            final(self).domains == old(self).domains,
            final(self).holdings@ == let_go(old(self).holdings@, trimmed_of(release)),
            forall|block: usize| #[trigger] final(self).loose(block) == old(self).loose(block),
            freed(
                &old(self).bumps@[bump as int],
                &final(self).bumps@[bump as int],
                release,
                address as int,
                layout.spec_bytes(),
                layout.size,
                address,
                reclaim_tail,
            ),
            final(self).bumps@[bump as int].headers == old(self).bumps@[bump as int].headers,
            release is InUse ==> final(self).bumps@[bump as int].wf(),
            release is Finished ==> final(self).bumps@[bump as int].pooled(),
            chunks_pending(*final(self), old(self).bumps@[bump as int].domain, trimmed_of(release)),
    {
        let ghost before = *self;
        let release: BumpRelease = self.bumps[bump].deallocate(address, layout, reclaim_tail);
        proof {
            let own = before.bumps@[bump as int];
            let after = self.bumps@[bump as int];
            self.holdings@ = let_go(before.holdings@, trimmed_of(release));
            lemma_freed_chunks(own, after, release, address as int, layout.spec_bytes(), layout.size, address, reclaim_tail);
            lemma_bump_step(before, *self, bump as int, trimmed_of(release));
            lemma_chunks_pending(before, *self, bump as int, trimmed_of(release));
        }
        release
    }

    /// Takes a block with a record back into its bump heap. Also gives the record, and whether the
    /// heap's handle is gone.
    pub fn free_bump_logged(&mut self, bump: usize, address: usize, layout: Layout, reclaim_tail: bool) -> (released: (
        TrackingAllocation,
        bool,
        BumpRelease,
    ))
        requires
            old(self).inv(),
            bump < old(self).bumps@.len(),
            old(self).bumps@[bump as int].wf(),
            layout.wf(),
            old(self).bumps@[bump as int].live@.dom().contains(address as int),
            old(self).bumps@[bump as int].live@[address as int] == layout.spec_bytes(),
            exists|at: int|
                0 <= at < old(self).bumps@[bump as int].headers@.len() && (#[trigger] old(self).bumps@[bump as int].headers@[at]).address
                    == address,
        ensures
            final(self).inv(),
            same_but_bump(*old(self), *final(self), bump as int),
            final(self).domains == old(self).domains,
            final(self).holdings@ == let_go(old(self).holdings@, trimmed_of(released.2)),
            forall|block: usize| #[trigger] final(self).loose(block) == old(self).loose(block),
            ({
                let own = old(self).bumps@[bump as int];
                let at = header_of(own.headers@, address);
                let header = own.headers@[at];
                &&& released.0 == header.allocation
                &&& released.1 == own.handle_released
                &&& freed(
                    &own,
                    &final(self).bumps@[bump as int],
                    released.2,
                    address as int,
                    layout.spec_bytes(),
                    layout.size,
                    header.previous_cursor,
                    reclaim_tail,
                )
                &&& final(self).bumps@[bump as int].headers@ == own.headers@.remove(at)
            }),
            released.2 is InUse ==> final(self).bumps@[bump as int].wf(),
            released.2 is Finished ==> final(self).bumps@[bump as int].pooled(),
            chunks_pending(*final(self), old(self).bumps@[bump as int].domain, trimmed_of(released.2)),
    {
        let ghost before = *self;
        let released: (TrackingAllocation, bool, BumpRelease) = self.bumps[bump].deallocate_tracked(address, layout, reclaim_tail);
        proof {
            let own = before.bumps@[bump as int];
            let after = self.bumps@[bump as int];
            let header = own.headers@[header_of(own.headers@, address)];
            self.holdings@ = let_go(before.holdings@, trimmed_of(released.2));
            lemma_freed_chunks(
                own,
                after,
                released.2,
                address as int,
                layout.spec_bytes(),
                layout.size,
                header.previous_cursor,
                reclaim_tail,
            );
            lemma_bump_step(before, *self, bump as int, trimmed_of(released.2));
            lemma_chunks_pending(before, *self, bump as int, trimmed_of(released.2));
        }
        released
    }

    /// Lets go of the handle of a bump heap.
    pub fn release_bump_handle(&mut self, bump: usize) -> (release: BumpRelease)
        requires
            old(self).inv(),
            bump < old(self).bumps@.len(),
            old(self).bumps@[bump as int].wf(),
            !old(self).bumps@[bump as int].handle_released,
        ensures
            final(self).inv(),
            same_but_bump(*old(self), *final(self), bump as int),
            final(self).domains == old(self).domains,
            final(self).holdings@ == let_go(old(self).holdings@, trimmed_of(release)),
            forall|block: usize| #[trigger] final(self).loose(block) == old(self).loose(block),
            final(self).bumps@[bump as int].let_go_of(&old(self).bumps@[bump as int], release),
            chunks_pending(*final(self), old(self).bumps@[bump as int].domain, trimmed_of(release)),
    {
        let ghost before = *self;
        let release: BumpRelease = self.bumps[bump].release_handle();
        proof {
            let own = before.bumps@[bump as int];
            let after = self.bumps@[bump as int];
            self.holdings@ = let_go(before.holdings@, trimmed_of(release));
            if release is Finished {
                lemma_trimmed(own, after, release);
            }
            lemma_bump_step(before, *self, bump as int, trimmed_of(release));
            lemma_chunks_pending(before, *self, bump as int, trimmed_of(release));
        }
        release
    }

    /// Readies a pooled bump heap for its next use. Gives the chunks that it let go of.
    pub fn reset_bump(&mut self, bump: usize, options: Options) -> (trimmed: Vec<usize>)
        requires
            old(self).inv(),
            bump < old(self).bumps@.len(),
            old(self).bumps@[bump as int].pooled(),
            old(self).bumps@[bump as int].fallback_heap != 0,
            options.valid(),
        ensures
            final(self).inv(),
            same_but_bump(*old(self), *final(self), bump as int),
            final(self).domains == old(self).domains,
            final(self).holdings@ == let_go(old(self).holdings@, trimmed@),
            forall|block: usize| #[trigger] final(self).loose(block) == old(self).loose(block),
            final(self).bumps@[bump as int].wf(),
            final(self).bumps@[bump as int].renewed(&old(self).bumps@[bump as int], options),
            trimmed@ == old(self).bumps@[bump as int].renewal_drops(options),
            chunks_pending(*final(self), old(self).bumps@[bump as int].domain, trimmed@),
    {
        let ghost before = *self;
        let trimmed: Vec<usize> = self.bumps[bump].reset_state(options);
        proof {
            let own = before.bumps@[bump as int];
            let after = self.bumps@[bump as int];
            let target = crate::allocator::bump::clamped(
                own.retention_target as int,
                options.retained_chunks as int,
                options.max_retained_chunks as int,
            );
            self.holdings@ = let_go(before.holdings@, trimmed@);
            lemma_kept_and_dropped(own.chunks@, target);
            lemma_bump_step(before, *self, bump as int, trimmed@);
            lemma_chunks_pending(before, *self, bump as int, trimmed@);
        }
        trimmed
    }
}

/// The chunks that a release lets go of.
pub open spec fn trimmed_of(release: BumpRelease) -> Seq<usize> {
    match release {
        BumpRelease::InUse => Seq::empty(),
        BumpRelease::Finished { trimmed } => trimmed@,
    }
}

/// Chunks that stay are none of those that go, and both were there.
proof fn lemma_kept_and_dropped(chunks: Seq<usize>, count: int)
    requires
        count >= 0,
        forall|left: int, right: int|
            #![trigger chunks[left], chunks[right]]
            0 <= left < right < chunks.len() ==> chunks[left] != chunks[right],
    ensures
        forall|at: int|
            0 <= at < kept_chunks(chunks, count).len() ==> chunks.contains(#[trigger] kept_chunks(chunks, count)[at]) && !dropped_chunks(
                chunks,
                count,
            ).contains(kept_chunks(chunks, count)[at]),
        forall|at: int| 0 <= at < dropped_chunks(chunks, count).len() ==> chunks.contains(#[trigger] dropped_chunks(chunks, count)[at]),
{
    let kept = kept_chunks(chunks, count);
    let dropped = dropped_chunks(chunks, count);
    assert forall|at: int| 0 <= at < kept.len() implies chunks.contains(#[trigger] kept[at]) && !dropped.contains(kept[at]) by {
        assert(chunks[at] == kept[at]);
        if dropped.contains(kept[at]) {
            let place = choose|place: int| 0 <= place < dropped.len() && dropped[place] == kept[at];
            assert(chunks[place + count] == dropped[place]);
            assert(chunks[at] != chunks[place + count]);
        }
    }
    assert forall|at: int| 0 <= at < dropped.len() implies chunks.contains(#[trigger] dropped[at]) by {
        assert(chunks[at + count] == dropped[at]);
    }
}

proof fn lemma_trimmed(before: BumpState, after: BumpState, release: BumpRelease)
    requires
        before.wf(),
        finished(&before, &after, release),
        after.retention_target >= 1,
    ensures
        forall|at: int|
            0 <= at < after.chunks@.len() ==> before.chunks@.contains(#[trigger] after.chunks@[at]) && !trimmed_of(release).contains(
                after.chunks@[at],
            ),
        forall|at: int| 0 <= at < trimmed_of(release).len() ==> before.chunks@.contains(#[trigger] trimmed_of(release)[at]),
        after.address == before.address,
        after.domain == before.domain,
{
    lemma_kept_and_dropped(before.chunks@, after.retention_target as int);
}

proof fn lemma_freed_chunks(
    before: BumpState,
    after: BumpState,
    release: BumpRelease,
    address: int,
    bytes: int,
    requested_bytes: usize,
    rewind_to: usize,
    reclaim_tail: bool,
)
    requires
        before.wf(),
        freed(&before, &after, release, address, bytes, requested_bytes, rewind_to, reclaim_tail),
        release is Finished ==> after.pooled(),
    ensures
        forall|at: int|
            0 <= at < after.chunks@.len() ==> before.chunks@.contains(#[trigger] after.chunks@[at]) && !trimmed_of(release).contains(
                after.chunks@[at],
            ),
        forall|at: int| 0 <= at < trimmed_of(release).len() ==> before.chunks@.contains(#[trigger] trimmed_of(release)[at]),
        after.address == before.address,
        after.domain == before.domain,
{
    if release is Finished {
        lemma_trimmed(before, after, release);
    } else {
        assert(after.chunks == before.chunks);
    }
}

/// Placing a block leaves the bump heap's chunks and owner alone.
proof fn lemma_placing_keeps(
    before: BumpState,
    after: BumpState,
    placement: Placement,
    header: int,
    alignment: int,
    bytes: int,
    requested_bytes: usize,
)
    requires
        before.placing(&after, placement, header, alignment, bytes, requested_bytes),
    ensures
        after.chunks == before.chunks,
        after.address == before.address,
        after.domain == before.domain,
{
}

/// A held span changes hands: what is held stays in order.
pub proof fn lemma_retagged(domains: Seq<DomainState>, holdings: Map<usize, Holding>, address: usize, holding: Holding)
    requires
        holdings_ok(domains, holdings),
        holdings.dom().contains(address),
        holding.domain == holdings[address].domain,
        holding.slices == holdings[address].slices,
    ensures
        holdings_ok(domains, holdings.insert(address, holding)),
{
    let now = holdings.insert(address, holding);
    assert(now.dom() =~= holdings.dom());
    assert forall|other: usize| #[trigger] now.dom().contains(other) implies held_ok(domains, other, now[other]) by {
        assert(held_ok(domains, other, holdings[other]));
    }
    assert forall|left: usize, right: usize|
        #![trigger now.dom().contains(left), now.dom().contains(right)]
        now.dom().contains(left) && now.dom().contains(right) && left != right implies spans_apart(
        left as int,
        now[left].slices,
        right as int,
        now[right].slices,
    ) by {
        assert(holdings.dom().contains(left) && holdings.dom().contains(right));
    }
}

proof fn lemma_chunk_added(before: Space, after: Space, bump: int, chunk: usize)
    requires
        before.inv(),
        0 <= bump < before.bumps@.len(),
        same_but_bump(before, after, bump),
        bump_ok(after.bumps@[bump]),
        after.bumps@[bump].chunks@ == before.bumps@[bump].chunks@.push(chunk),
        slice_pending(before, before.bumps@[bump].domain, chunk),
        after.holdings@ == before.holdings@.insert(
            chunk,
            Holding { user: User::Chunk { bump: before.bumps@[bump].address }, ..before.holdings@[chunk] },
        ),
    ensures
        after.bumps_ok(),
        users_kept(before.holdings@, after.holdings@, 0, before.bumps@[bump].address),
{
    assert forall|other: int| 0 <= other < after.bumps@.len() implies bump_ok(#[trigger] after.bumps@[other]) && after.chunks_held(other)
        && is_domain(after.domains@, after.bumps@[other].domain) by {
        assert(bump_ok(before.bumps@[other]) && before.chunks_held(other));
        assert forall|at: int| 0 <= at < after.bumps@[other].chunks@.len() implies {
            let held = #[trigger] after.bumps@[other].chunks@[at];
            &&& after.holdings@.dom().contains(held)
            &&& after.holdings@[held].slices == 1
            &&& after.holdings@[held].user == (User::Chunk { bump: after.bumps@[other].address })
        } by {
            if other != bump || at < before.bumps@[bump].chunks@.len() {
                let held = before.bumps@[other].chunks@[at];
                assert(before.holdings@[held].user is Chunk);
                assert(held != chunk);
            }
        }
    }
}

} // verus!
