//! What threads hand out of other threads' heaps.

use vstd::prelude::*;

use crate::allocator::arenas::{
    domain_step, fresh_region, lemma_domain_step, lemma_gained_apart, lemma_held, lemma_spans_held,
    lemma_unheld, same_regions,
};
use crate::allocator::blocks::{lemma_at_address, lemma_marked};
use crate::allocator::classes::{allocation_segment, segment_of, MEDIUM_SLICE_SIZE};
use crate::allocator::domains::first_open;
use crate::allocator::heaps::{allocated, released};
use crate::allocator::lives::{lemma_allocated_lives, lemma_mediums_less, lemma_same_allocations, mediums_less};
use crate::allocator::mediums::{mediums_kept, stores_kept};
use crate::allocator::refills::{lemma_cache_kept, lemma_chunks_kept, lemma_placed_kept, lemma_span_step, users_kept};
use crate::allocator::releases::{went, without_entry};
use crate::allocator::remote::{
    blocks_of, halves_recorded, idle_at, pop_remote_block, push_remote_available, refill_remote, remote_slab,
};
use crate::allocator::segments::segments_stay;
use crate::allocator::serve::lemma_idle_segment;
use crate::allocator::slab::{block_count, first_block, RemoteFree, SLAB_SIZE};
use crate::allocator::space::{
    bump_ok, classed, held_ok, holdings_ok, is_domain, slab_in, slab_placed, Holding, Space, User,
};

verus! {

/// Whether nothing but one thread heap may differ.
pub open spec fn same_but_remote(before: Space, after: Space, remote: int) -> bool {
    &&& after.tuning == before.tuning
    &&& after.domains == before.domains
    &&& after.slabs == before.slabs
    &&& after.heaps == before.heaps
    &&& after.bumps == before.bumps
    &&& after.records == before.records
    &&& after.holdings == before.holdings
    &&& after.mapped == before.mapped
    &&& after.remotes@.len() == before.remotes@.len()
    &&& forall|other: int|
        #![trigger after.remotes@[other]]
        0 <= other < before.remotes@.len() && other != remote ==> after.remotes@[other] == before.remotes@[other]
    &&& after.remotes@[remote].address == before.remotes@[remote].address
    &&& after.remotes@[remote].domain == before.remotes@[remote].domain
}

/// A change to what one thread heap lists keeps everything else in order. Nothing but `added`,
/// where that is a block, is listed that was not.
pub proof fn lemma_remote_step(before: Space, after: Space, remote: int, added: usize)
    requires
        before.inv(),
        0 <= remote < before.remotes@.len(),
        same_but_remote(before, after, remote),
        after.remotes@[remote].inv(before.slabs@, before.sizes()),
        forall|block: usize|
            #[trigger] after.listed_by(remote, block) ==> before.listed_by(remote, block) || (added != 0 && block == added),
        added != 0 ==> before.loose(added) && before.slabs@[segment_of(added as int) as usize].shared,
    ensures
        after.heaps_ok(),
        after.remotes_ok(),
        after.waiting_apart(),
        after.bumps_ok(),
        after.owners_ok(),
        after.lists_shared(),
        forall|block: usize| (added == 0 || block != added) && #[trigger] before.loose(block) ==> after.loose(block),
        forall|heap: int, block: usize| #[trigger] after.cached_by(heap, block) == before.cached_by(heap, block),
{
    let sizes = before.sizes();
    assert forall|heap: int, block: usize| #[trigger] after.cached_by(heap, block) == before.cached_by(heap, block) by {
        assert(after.view_of(heap) == before.view_of(heap));
    }
    assert forall|heap: int| 0 <= heap < after.heaps@.len() implies #[trigger] after.heap_ok(heap) by {
        assert(before.heap_ok(heap));
        assert(after.view_of(heap) == before.view_of(heap));
    }
    assert forall|other: int| 0 <= other < after.remotes@.len() implies (#[trigger] after.remotes@[other]).inv(after.slabs@, sizes)
        && is_domain(after.domains@, after.remotes@[other].domain) by {
        assert(before.remotes@[other].inv(before.slabs@, sizes));
    }
    assert forall|other: int, block: usize| 0 <= other < after.remotes@.len() && #[trigger] after.listed_by(other, block) implies before.listed_by(
        other,
        block,
    ) || (other == remote && added != 0 && block == added) by {}
    assert(after.waiting_apart()) by {
        assert forall|left: int, right: int, block: usize|
            #![trigger after.cached_by(left, block), after.cached_by(right, block)]
            0 <= left < after.heaps@.len() && 0 <= right < after.heaps@.len() && left != right implies !(after.cached_by(left, block)
            && after.cached_by(right, block)) by {
            assert(before.cached_by(left, block) == after.cached_by(left, block));
            assert(before.cached_by(right, block) == after.cached_by(right, block));
        }
        assert forall|heap: int, other: int, block: usize|
            #![trigger after.cached_by(heap, block), after.listed_by(other, block)]
            0 <= heap < after.heaps@.len() && 0 <= other < after.remotes@.len() implies !(after.cached_by(heap, block)
            && after.listed_by(other, block)) by {
            if after.cached_by(heap, block) && after.listed_by(other, block) {
                assert(before.cached_by(heap, block));
                if !before.listed_by(other, block) {
                    assert(before.loose(added));
                }
            }
        }
        assert forall|left: int, right: int, block: usize|
            #![trigger after.listed_by(left, block), after.listed_by(right, block)]
            0 <= left < after.remotes@.len() && 0 <= right < after.remotes@.len() && left != right implies !(after.listed_by(left, block)
            && after.listed_by(right, block)) by {
            if after.listed_by(left, block) && after.listed_by(right, block) {
                if added != 0 {
                    assert(before.loose(added));
                }
                if !before.listed_by(left, block) {
                    assert(before.listed_by(right, block));
                } else if !before.listed_by(right, block) {
                    assert(before.listed_by(left, block));
                } else {
                    assert(before.listed_by(left, block) && before.listed_by(right, block));
                }
            }
        }
    }
    assert forall|block: usize| (added == 0 || block != added) && #[trigger] before.loose(block) implies after.loose(block) by {
        assert forall|heap: int| 0 <= heap < after.heaps@.len() implies !#[trigger] after.cached_by(heap, block) by {
            assert(!before.cached_by(heap, block));
        }
        assert forall|other: int| 0 <= other < after.remotes@.len() implies !#[trigger] after.listed_by(other, block) by {
            assert(!before.listed_by(other, block));
        }
    }
    assert forall|bump: int| 0 <= bump < after.bumps@.len() implies after.chunks_held(bump) by {
        assert(bump_ok(before.bumps@[bump]));
        assert(before.chunks_held(bump));
    }
    assert forall|slab: usize| #[trigger] after.slabs@.dom().contains(slab) implies after.slab_owned(slab) by {
        assert(before.slab_owned(slab));
        let owner = before.slabs@[slab].owner;
        if before.slabs@[slab].shared {
            let at = choose|at: int| #[trigger] before.is_remote(at, owner);
            assert(after.is_remote(at, owner));
        } else {
            let at = choose|at: int| #[trigger] before.is_heap(at, owner);
            assert(after.is_heap(at, owner));
        }
    }
    assert forall|other: int, block: usize| 0 <= other < after.remotes@.len() && #[trigger] after.listed_by(other, block) implies {
        let slab = segment_of(block as int) as usize;
        after.slabs@.dom().contains(slab) && after.slabs@[slab].shared
    } by {
        if before.listed_by(other, block) {
        } else {
            assert(before.loose(added));
        }
    }
}

/// A block that a thread heap lists is in the list of its slab's class and in no other.
proof fn lemma_listed_class(space: Space, remote: int, x: bool, c: int, context: bool, class: int, block: usize)
    requires
        space.inv(),
        0 <= remote < space.remotes@.len(),
        0 <= c < space.sizes().len(),
        0 <= class < space.sizes().len(),
        space.remotes@[remote].list(x, c).contains(block),
        idle_at(space.slabs@, space.sizes(), context, class, block),
    ensures
        x == context,
        c == class,
{
    let own = space.remotes@[remote];
    let sizes = space.sizes();
    let position = choose|position: int| 0 <= position < own.list(x, c).len() && own.list(x, c)[position] == block;
    assert(own.inv(space.slabs@, sizes));
    assert(idle_at(space.slabs@, sizes, x, c, own.list(x, c)[position]));
    let marker = space.slabs@[segment_of(block as int) as usize].marker;
    lemma_marked(x, c, marker);
    lemma_marked(context, class, marker);
}

impl Space {
    /// Takes a block of a class out of what a thread heap lists, and counts it as in use. Gives 0
    /// where nothing is listed.
    pub fn take_listed(&mut self, remote: usize, context: bool, class: usize, requested_bytes: usize) -> (block: usize)
        requires
            old(self).inv(),
            remote < old(self).remotes@.len(),
            class < old(self).sizes().len(),
            requested_bytes <= old(self).sizes()[class as int],
        ensures
            final(self).inv(),
            same_but_remote(*old(self), *final(self), remote as int),
            final(self).remotes@[remote as int].same_but_list(&old(self).remotes@[remote as int], context, class as int),
            ({
                let list = old(self).remotes@[remote as int].list(context, class as int);
                if list.len() == 0 {
                    &&& block == 0
                    &&& final(self).remotes@ == old(self).remotes@
                    &&& final(self).out == old(self).out
                } else {
                    let slab = segment_of(block as int) as usize;
                    &&& block == list.last()
                    &&& block != 0
                    &&& !old(self).in_use(block)
                    &&& final(self).in_use(block)
                    &&& final(self).remotes@[remote as int].list(context, class as int) == list.drop_last()
                    &&& final(self).remotes@[remote as int].usage == old(self).remotes@[remote as int].usage.with_allocation(
                        requested_bytes,
                        old(self).sizes()[class as int],
                    )
                    &&& final(self).out@ == old(self).out@.insert(
                        slab,
                        old(self).out@[slab].push(
                            RemoteFree { block, padding: (old(self).sizes()[class as int] - requested_bytes) as usize },
                        ),
                    )
                    &&& idle_at(final(self).slabs@, final(self).sizes(), context, class as int, block)
                }
            }),
    {
        let ghost before = *self;
        let ghost sizes = self.sizes();
        let ghost at = remote as int;
        let ghost list = before.remotes@[at].list(context, class as int);
        assert(before.remotes@[at].inv(before.slabs@, sizes));
        let block: usize = pop_remote_block(
            &mut self.remotes[remote],
            &self.tuning,
            context,
            class,
            requested_bytes,
            &self.slabs,
        );
        proof {
            let left = before.remotes@[at];
            let right = self.remotes@[at];
            if block != 0 {
                let slab = segment_of(block as int) as usize;
                let entry = RemoteFree { block, padding: (sizes[class as int] - requested_bytes) as usize };
                self.out@ = before.out@.insert(slab, before.out@[slab].push(entry));
            }
            assert forall|other: usize| #[trigger] self.listed_by(at, other) implies before.listed_by(at, other) by {
                let (x, c) = choose|x: bool, c: int| 0 <= c < sizes.len() && #[trigger] right.list(x, c).contains(other);
                if x == context && c == class {
                    let position = choose|position: int| 0 <= position < right.list(x, c).len() && right.list(x, c)[position] == other;
                    assert(left.list(x, c)[position] == other);
                }
                assert(left.list(x, c).contains(other));
            }
            lemma_remote_step(before, *self, at, 0);
            if block == 0 {
                assert forall|slab: usize| #[trigger] self.slabs@.dom().contains(slab) implies self.entries_ok(slab) by {
                    assert(before.entries_ok(slab));
                    assert forall|place: int| 0 <= place < self.out@[slab].len() implies #[trigger] self.entry_ok(slab, place) by {
                        assert(before.entry_ok(slab, place));
                    }
                }
            } else {
                let slab = segment_of(block as int) as usize;
                let entry = RemoteFree { block, padding: (sizes[class as int] - requested_bytes) as usize };
                assert(list[list.len() - 1] == block);
                assert(list.contains(block));
                assert(before.listed_by(at, block));
                assert(idle_at(before.slabs@, sizes, context, class as int, list[list.len() - 1]));
                assert(!before.in_use(block)) by {
                    if before.in_use(block) {
                        let place = choose|place: int| 0 <= place < before.out@[slab].len() && (#[trigger] before.out@[slab][place]).block == block;
                        assert(before.entries_ok(slab));
                        assert(before.entry_ok(slab, place));
                        assert(before.loose(block));
                    }
                }
                assert(self.loose(block)) by {
                    assert forall|heap: int| 0 <= heap < self.heaps@.len() implies !#[trigger] self.cached_by(heap, block) by {
                        assert(!before.cached_by(heap, block));
                    }
                    assert forall|other: int| 0 <= other < self.remotes@.len() implies !#[trigger] self.listed_by(other, block) by {
                        if self.listed_by(other, block) {
                            if other == at {
                                let (x, c) = choose|x: bool, c: int| 0 <= c < sizes.len() && #[trigger] right.list(x, c).contains(block);
                                assert(left.list(x, c).contains(block)) by {
                                    if x == context && c == class {
                                        assert(left.list(x, c)[left.list(x, c).len() - 1] == block);
                                    }
                                }
                                lemma_listed_class(before, at, x, c, context, class as int, block);
                                let position = choose|position: int|
                                    0 <= position < right.list(x, c).len() && right.list(x, c)[position] == block;
                                assert(list[position] == list[list.len() - 1]);
                            } else {
                                assert(before.listed_by(other, block));
                            }
                        }
                    }
                }
                assert(self.out@.dom() =~= before.out@.dom());
                assert(before.entries_ok(slab));
                assert forall|other: usize| #[trigger] self.slabs@.dom().contains(other) implies self.entries_ok(other) by {
                    assert(before.entries_ok(other));
                    let entries = before.out@[other];
                    assert forall|place: int| 0 <= place < self.out@[other].len() implies #[trigger] self.entry_ok(other, place) by {
                        if place < entries.len() {
                            assert(before.entry_ok(other, place));
                            assert(self.out@[other][place] == entries[place]);
                        }
                    }
                    if other == slab {
                        assert forall|l: int, r: int|
                            #![trigger self.out@[slab][l], self.out@[slab][r]]
                            0 <= l < r < self.out@[slab].len() implies self.out@[slab][l].block != self.out@[slab][r].block by {
                            assert(entries[l] == self.out@[slab][l]);
                            if r < entries.len() {
                                assert(entries[r] == self.out@[slab][r]);
                            }
                        }
                    }
                }
                assert(self.out@[slab][before.out@[slab].len() as int] == entry);
            }
        }
        block
    }

    /// Gives a block in use back to the list of the thread heap that its slab belongs to.
    pub fn list_small(&mut self, remote: usize, context: bool, class: usize, block: usize, requested_bytes: usize)
        requires
            old(self).inv(),
            remote < old(self).remotes@.len(),
            old(self).used_as(block, context, class as int, requested_bytes as int),
            old(self).slabs@[segment_of(block as int) as usize].shared,
        ensures
            final(self).inv(),
            same_but_remote(*old(self), *final(self), remote as int),
            final(self).remotes@[remote as int].usage == old(self).remotes@[remote as int].usage,
            final(self).remotes@[remote as int].same_but_list(&old(self).remotes@[remote as int], context, class as int),
            final(self).remotes@[remote as int].list(context, class as int) == old(self).remotes@[remote as int].list(
                context,
                class as int,
            ).push(block),
            went(*old(self), *final(self), block, old(self).sizes()[class as int] - requested_bytes),
            !final(self).in_use(block),
            forall|other: usize| other != block ==> #[trigger] final(self).in_use(other) == old(self).in_use(other),
    {
        let ghost before = *self;
        let ghost sizes = self.sizes();
        let ghost at = remote as int;
        let slab: usize = allocation_segment(block);
        let ghost padding = sizes[class as int] - requested_bytes;
        let ghost entry = choose|place: int| #[trigger] before.is_entry(place, block, padding);
        proof {
            assert(before.is_entry(entry, block, padding));
            assert(before.entries_ok(slab));
            assert(before.entry_ok(slab, entry));
            assert(before.loose(block));
            assert(!before.listed_by(at, block));
            assert(before.remotes@[at].inv(before.slabs@, sizes));
            lemma_at_address(&before.slabs, slab);
            lemma_idle_segment(before.slabs@[slab], block as int);
            assert(!before.remotes@[at].list(context, class as int).contains(block));
        }
        push_remote_available(&mut self.remotes[remote], &self.tuning, context, class, block, &self.slabs);
        proof {
            let left = before.remotes@[at];
            let right = self.remotes@[at];
            self.out@ = without_entry(before.out@, slab, entry);
            assert forall|other: usize| #[trigger] self.listed_by(at, other) implies before.listed_by(at, other) || (block != 0 && other
                == block) by {
                let (x, c) = choose|x: bool, c: int| 0 <= c < sizes.len() && #[trigger] right.list(x, c).contains(other);
                if other != block {
                    if x == context && c == class {
                        let position = choose|position: int| 0 <= position < right.list(x, c).len() && right.list(x, c)[position] == other;
                        assert(left.list(x, c)[position] == other);
                    }
                    assert(left.list(x, c).contains(other));
                }
            }
            lemma_remote_step(before, *self, at, block);
            assert forall|other: usize, place: int|
                #![trigger self.slabs@[other].remote[place]]
                before.slabs@.dom().contains(other) && 0 <= place < self.slabs@[other].remote.len() implies self.slabs@[other].remote[place].padding
                <= before.slabs@[other].block_size by {
                assert(before.entries_ok(other));
                assert(before.slabs@[other].remote[place].padding <= before.slabs@[other].block_size);
            }
            crate::allocator::releases::lemma_entry_removed(before, *self, slab, entry);
        }
    }
}

/// Whether the slice was taken from the domain and its memory is not committed yet.
pub open spec fn slice_pending(space: Space, domain: usize, slice: usize) -> bool {
    &&& space.holdings@.dom().contains(slice)
    &&& space.holdings@[slice] == (Holding { domain, slices: 1, user: User::Pending })
}

/// Whether each of the chunks is held for nothing any more, and is to be given back.
pub open spec fn chunks_pending(space: Space, domain: usize, chunks: Seq<usize>) -> bool {
    forall|at: int| 0 <= at < chunks.len() ==> slice_pending(space, domain, #[trigger] chunks[at])
}

/// Whether nothing but the domains and the held spans may differ.
pub open spec fn same_but_spans(before: Space, after: Space) -> bool {
    &&& after.tuning == before.tuning
    &&& after.slabs == before.slabs
    &&& after.heaps == before.heaps
    &&& after.remotes == before.remotes
    &&& after.bumps == before.bumps
    &&& after.records == before.records
    &&& after.mapped == before.mapped
    &&& after.out == before.out
    &&& after.domains@.len() == before.domains@.len()
    &&& segments_stay(before.holdings@, after.holdings@)
}

/// Whether the slices of a span of a domain are free again, and nothing else of the domains differs.
pub open spec fn span_returned(before: Space, after: Space, domain: usize, address: usize, slices: int) -> bool {
    &&& same_but_spans(before, after)
    &&& after.holdings@ == before.holdings@.remove(address)
    &&& released(&before.domains@[domain - 1], &after.domains@[domain - 1], address, slices)
    &&& forall|other: int|
        #![trigger after.domains@[other]]
        0 <= other < before.domains@.len() && other != domain - 1 ==> after.domains@[other] == before.domains@[other]
}

/// Whether a slice belongs to a thread heap, with a slab of the class in each half, and nothing else of
/// the domains differs.
pub open spec fn slice_cut(before: Space, after: Space, remote: int, slice: usize, context: bool, class: usize, track_aggregates: bool) -> bool {
    let own = before.remotes@[remote];
    let size = before.sizes()[class as int] as int;
    &&& after.domains@.len() == before.domains@.len()
    &&& forall|other: int|
        #![trigger after.domains@[other]]
        0 <= other < before.domains@.len() && other != own.domain - 1 ==> after.domains@[other] == before.domains@[other]
    &&& halves_recorded(
        &before.domains@[own.domain - 1],
        &after.domains@[own.domain - 1],
        slice,
        class,
        context,
        own.address,
        block_count(size) - first_block(size),
        track_aggregates,
    )
    &&& after.holdings@ == before.holdings@.insert(
        slice,
        Holding { user: User::Slice { remote: own.address }, ..before.holdings@[slice] },
    )
}

/// Whether one slice of a domain that was free is taken, or none was and no spare region stood by.
pub open spec fn slice_taken(before: Space, after: Space, domain: usize, spare: Option<usize>, taken: Option<(usize, bool)>) -> bool {
    &&& same_but_spans(before, after)
    &&& slice_drawn(before, after, domain, spare, taken)
}

/// Whether nothing of the domains differs but for the slice that is taken of the one.
pub open spec fn slice_drawn(before: Space, after: Space, domain: usize, spare: Option<usize>, taken: Option<(usize, bool)>) -> bool {
    let left = before.domains@[domain - 1];
    let right = after.domains@[domain - 1];
    &&& after.domains@.len() == before.domains@.len()
    &&& forall|other: int|
        #![trigger after.domains@[other]]
        0 <= other < before.domains@.len() && other != domain - 1 ==> after.domains@[other] == before.domains@[other]
    &&& match taken {
        Some((slice, appended)) => {
            &&& allocated(&left, &right, spare, 1, slice, appended)
            &&& !before.holdings@.dom().contains(slice)
            &&& after.holdings@ == before.holdings@.insert(slice, Holding { domain, slices: 1, user: User::Pending })
        },
        None => {
            &&& first_open(left.regions@, 0, 1) is None
            &&& spare is None
            &&& right.regions@ == left.regions@
            &&& after.holdings@ == before.holdings@
        },
    }
}

impl Space {
    /// Takes one slice of a domain, where one is free or a spare region is at hand. Also says
    /// whether the spare region was used.
    pub fn take_slice(&mut self, domain: usize, spare: Option<usize>) -> (taken: Option<(usize, bool)>)
        requires
            old(self).inv(),
            is_domain(old(self).domains@, domain),
            spare matches Some(base) ==> fresh_region(old(self).domains@, old(self).mapped@, base),
        ensures
            final(self).inv(),
            same_but_spans(*old(self), *final(self)),
            forall|block: usize| #[trigger] final(self).loose(block) == old(self).loose(block),
            mediums_kept(old(self).domains@, final(self).domains@),
            mediums_less(old(self).domains@, final(self).domains@),
            slice_taken(*old(self), *final(self), domain, spare, taken),
            taken matches Some((slice, appended)) ==> (appended ==> spare is Some) && slice_pending(*final(self), domain, slice),
    {
        let ghost before = *self;
        let place: usize = domain - 1;
        proof {
            let own = before.domains@[place as int];
            assert(own.wf());
            if let Some(base) = spare {
                assert forall|index: int| 0 <= index < own.regions@.len() implies crate::allocator::domains::apart(
                    (#[trigger] own.regions@[index]).base as int,
                    base as int,
                ) by {
                    assert(crate::allocator::domains::apart(before.domains@[place as int].regions@[index].base as int, base as int));
                }
            }
        }
        let taken: Option<(usize, bool)> = self.domains[place].take_slices(1, spare);
        proof {
            let left = before.domains@[place as int];
            let right = self.domains@[place as int];
            match taken {
                Some((slice, appended)) => {
                    let holding = Holding { domain, slices: 1, user: User::Pending };
                    let grown: Option<usize> = if appended {
                        Some(slice)
                    } else {
                        None
                    };
                    assert(domain_step(before.domains@, self.domains@, place as int, before.mapped@, grown));
                    lemma_domain_step(before.domains@, self.domains@, place as int, before.mapped@, grown);
                    lemma_gained_apart(before.domains@, self.domains@, place as int, before.holdings@, slice, 1);
                    lemma_held(self.domains@, before.holdings@, slice, holding);
                    self.holdings@ = before.holdings@.insert(slice, holding);
                    lemma_allocated_lives(&left, &right, spare, 1, slice, appended);
                },
                None => {
                    lemma_same_allocations(&left, &right);
                    assert(domain_step(before.domains@, self.domains@, place as int, before.mapped@, None));
                    lemma_domain_step(before.domains@, self.domains@, place as int, before.mapped@, None);
                    crate::allocator::heaps::lemma_same_regions(&left, &right);
                    lemma_spans_held(before.domains@, self.domains@, place as int, before.holdings@);
                },
            }
            lemma_span_step(before, *self, 0);
            lemma_mediums_less(before.domains@, self.domains@, place as int);
        }
        taken
    }

    /// Gives a slice back that was taken and could not be committed.
    pub fn give_slice_back(&mut self, domain: usize, slice: usize)
        requires
            old(self).inv(),
            slice_pending(*old(self), domain, slice),
        ensures
            final(self).inv(),
            same_but_spans(*old(self), *final(self)),
            forall|block: usize| #[trigger] final(self).loose(block) == old(self).loose(block),
            mediums_kept(old(self).domains@, final(self).domains@),
            mediums_less(old(self).domains@, final(self).domains@),
            span_returned(*old(self), *final(self), domain, slice, 1),
            crate::allocator::arenas::bases_kept(old(self).domains@, final(self).domains@),
            stores_kept(old(self).domains@, final(self).domains@),
    {
        let ghost before = *self;
        let place: usize = domain - 1;
        proof {
            assert(held_ok(before.domains@, slice, before.holdings@[slice]));
            assert(before.domains@[place as int].wf());
        }
        self.domains[place].give_back(slice, 1);
        proof {
            let left = before.domains@[place as int];
            let right = self.domains@[place as int];
            assert(same_regions(left, right));
            assert(domain_step(before.domains@, self.domains@, place as int, before.mapped@, None));
            lemma_domain_step(before.domains@, self.domains@, place as int, before.mapped@, None);
            self.holdings@ = before.holdings@.remove(slice);
            lemma_unheld(before.domains@, self.domains@, place as int, before.holdings@, slice);
            lemma_span_step(before, *self, 0);
            lemma_same_allocations(&left, &right);
            lemma_mediums_less(before.domains@, self.domains@, place as int);
            assert forall|index: int, a: int, s: int|
                #![trigger self.domains@[index].medium_live(a, s)]
                #![trigger before.domains@[index].medium_live(a, s)]
                0 <= index < before.domains@.len() && before.domains@[index].medium_live(a, s) implies self.domains@[index].medium_live(a, s)
                && self.domains@[index].medium_at(a) == before.domains@[index].medium_at(a) by {
                if index == place {
                    crate::allocator::holdings::lemma_live_length(&left, a, s);
                    crate::allocator::holdings::lemma_idle_apart_live(&left, slice as int, 1, a, s);
                }
            }
        }
    }

    /// Cuts a slice that was taken into two slabs of a thread heap, and lists their blocks.
    #[verifier::rlimit(60)]
    #[verifier::spinoff_prover]
    pub fn refill_thread_heap(&mut self, remote: usize, slice: usize, context: bool, class: usize, track_aggregates: bool)
        requires
            old(self).inv(),
            remote < old(self).remotes@.len(),
            class < old(self).sizes().len(),
            slice_pending(*old(self), old(self).remotes@[remote as int].domain, slice),
        ensures
            final(self).inv(),
            final(self).tuning == old(self).tuning,
            final(self).heaps == old(self).heaps,
            final(self).bumps == old(self).bumps,
            final(self).records == old(self).records,
            final(self).mapped == old(self).mapped,
            final(self).remotes@.len() == old(self).remotes@.len(),
            forall|other: int|
                #![trigger final(self).remotes@[other]]
                0 <= other < old(self).remotes@.len() && other != remote ==> final(self).remotes@[other] == old(self).remotes@[other],
            final(self).remotes@[remote as int].same_but_list(&old(self).remotes@[remote as int], context, class as int),
            final(self).remotes@[remote as int].usage == old(self).remotes@[remote as int].usage.with_slice(),
            slice_cut(*old(self), *final(self), remote as int, slice, context, class, track_aggregates),
            segments_stay(old(self).holdings@, final(self).holdings@),
            final(self).remotes@[remote as int].list(context, class as int) == old(self).remotes@[remote as int].list(
                context,
                class as int,
            ) + blocks_of(slice as int, old(self).sizes()[class as int] as int) + blocks_of(
                slice + SLAB_SIZE,
                old(self).sizes()[class as int] as int,
            ),
            final(self).remotes@[remote as int].list(context, class as int).len() > 0,
            mediums_kept(old(self).domains@, final(self).domains@),
            mediums_less(old(self).domains@, final(self).domains@),
            final(self).domains@.len() == old(self).domains@.len(),
            ({
                let owner = old(self).remotes@[remote as int];
                let size = old(self).sizes()[class as int] as int;
                let second = (slice + SLAB_SIZE) as usize;
                &&& !old(self).slabs@.dom().contains(slice)
                &&& !old(self).slabs@.dom().contains(second)
                &&& final(self).slabs@ == old(self).slabs@.insert(slice, remote_slab(&owner, slice, context, class as int, size)).insert(
                    second,
                    remote_slab(&owner, second, context, class as int, size),
                )
                &&& final(self).out@ == old(self).out@.insert(slice, Seq::<RemoteFree>::empty()).insert(
                    second,
                    Seq::<RemoteFree>::empty(),
                )
            }),
            forall|block: usize| #[trigger] old(self).in_use(block) ==> final(self).in_use(block),
    {
        let ghost before = *self;
        let ghost sizes = self.sizes();
        let ghost at = remote as int;
        assert(before.remotes@[at].inv(before.slabs@, sizes));
        let place: usize = self.remotes[remote].domain - 1;
        let ghost second = (slice + SLAB_SIZE) as usize;
        proof {
            crate::allocator::refills::lemma_held_bounds(before, slice);
            assert(before.domains@[place as int].wf());
            if before.slabs@.dom().contains(slice) {
                crate::allocator::refills::lemma_slab_apart(before, slice, slice);
            }
            if before.slabs@.dom().contains(second) {
                crate::allocator::refills::lemma_slab_apart(before, second, slice);
            }
        }
        refill_remote(
            &mut self.remotes[remote],
            &mut self.slabs,
            &mut self.domains[place],
            &self.tuning,
            slice,
            context,
            class,
            track_aggregates,
        );
        proof {
            let owner = before.remotes@[at].address;
            self.holdings@ = before.holdings@.insert(
                slice,
                Holding { user: User::Slice { remote: owner }, ..before.holdings@[slice] },
            );
            self.out@ = before.out@.insert(slice, Seq::<RemoteFree>::empty()).insert(second, Seq::<RemoteFree>::empty());
            assert(same_regions(before.domains@[place as int], self.domains@[place as int]));
            lemma_thread_slabs(before, *self, at, place as int, slice, second, context, class as int);
            lemma_mediums_less(before.domains@, self.domains@, place as int);
        }
    }
}

/// The blocks of a fresh slab of a thread heap lie in that slab and are handed out.
proof fn lemma_fresh_blocks(address: usize, marker: u64, owner: usize, size: int, block: usize)
    requires
        crate::allocator::slab::valid_block_size(size),
        0 < address,
        address as int % (SLAB_SIZE as int) == 0,
        address + SLAB_SIZE <= usize::MAX,
        blocks_of(address as int, size).contains(block),
    ensures
        segment_of(block as int) == address,
{
    let position = choose|position: int| 0 <= position < blocks_of(address as int, size).len() && blocks_of(address as int, size)[position]
        == block;
    let index = first_block(size) + position;
    crate::allocator::slab::lemma_blocks(size);
    crate::allocator::remote::lemma_published(address as int, marker, owner, size, index);
    assert(block == (address + index * size) as usize);
}

/// Two new slabs of a thread heap keep everything in order.
#[verifier::rlimit(60)]
#[verifier::spinoff_prover]
proof fn lemma_thread_slabs(
    before: Space,
    after: Space,
    remote: int,
    place: int,
    slice: usize,
    second: usize,
    context: bool,
    class: int,
)
    requires
        before.inv(),
        0 <= remote < before.remotes@.len(),
        0 <= class < before.sizes().len(),
        place == before.remotes@[remote].domain - 1,
        slice_pending(before, before.remotes@[remote].domain, slice),
        second == slice + SLAB_SIZE,
        !before.slabs@.dom().contains(slice),
        !before.slabs@.dom().contains(second),
        after.tuning == before.tuning,
        after.heaps == before.heaps,
        after.bumps == before.bumps,
        after.records == before.records,
        after.mapped == before.mapped,
        after.slabs.wf(),
        after.slabs@ == before.slabs@.insert(
            slice,
            remote_slab(&before.remotes@[remote], slice, context, class, before.sizes()[class] as int),
        ).insert(second, remote_slab(&before.remotes@[remote], second, context, class, before.sizes()[class] as int)),
        after.remotes@.len() == before.remotes@.len(),
        forall|other: int|
            #![trigger after.remotes@[other]]
            0 <= other < before.remotes@.len() && other != remote ==> after.remotes@[other] == before.remotes@[other],
        after.remotes@[remote].inv(after.slabs@, before.sizes()),
        after.remotes@[remote].same_but_list(&before.remotes@[remote], context, class),
        after.remotes@[remote].list(context, class) == before.remotes@[remote].list(context, class) + blocks_of(
            slice as int,
            before.sizes()[class] as int,
        ) + blocks_of(slice + SLAB_SIZE, before.sizes()[class] as int),
        after.domains@.len() == before.domains@.len(),
        forall|other: int|
            #![trigger after.domains@[other]]
            0 <= other < before.domains@.len() && other != place ==> after.domains@[other] == before.domains@[other],
        after.domains@[place].wf(),
        after.domains@[place].spans_ok(),
        after.domains@[place].keeps_spans(&before.domains@[place]),
        same_regions(before.domains@[place], after.domains@[place]),
        after.holdings@ == before.holdings@.insert(
            slice,
            Holding { user: User::Slice { remote: before.remotes@[remote].address }, ..before.holdings@[slice] },
        ),
        after.out@ == before.out@.insert(slice, Seq::<RemoteFree>::empty()).insert(second, Seq::<RemoteFree>::empty()),
    ensures
        after.inv(),
        forall|block: usize| #[trigger] before.in_use(block) ==> after.in_use(block),
{
    let sizes = before.sizes();
    let size = sizes[class] as int;
    let owner = before.remotes@[remote].address;
    let first_model = remote_slab(&before.remotes@[remote], slice, context, class, size);
    let second_model = remote_slab(&before.remotes@[remote], second, context, class, size);
    crate::allocator::refills::lemma_held_bounds(before, slice);
    assert(slice as int % (SLAB_SIZE as int) == 0 && second as int % (SLAB_SIZE as int) == 0) by (nonlinear_arith)
        requires
            slice as int % (MEDIUM_SLICE_SIZE as int) == 0,
            second == slice + SLAB_SIZE,
            MEDIUM_SLICE_SIZE == 65536,
            SLAB_SIZE == 32768,
    ;
    // The domains and the held spans.
    assert(domain_step(before.domains@, after.domains@, place, before.mapped@, None));
    lemma_domain_step(before.domains@, after.domains@, place, before.mapped@, None);
    lemma_spans_held(before.domains@, after.domains@, place, before.holdings@);
    assert(after.holdings@.dom() =~= before.holdings@.dom());
    assert forall|other: usize| #[trigger] after.holdings@.dom().contains(other) implies held_ok(after.domains@, other, after.holdings@[other]) by {
        assert(held_ok(after.domains@, other, before.holdings@[other]));
    }
    assert(holdings_ok(after.domains@, after.holdings@)) by {
        assert forall|left: usize, right: usize|
            #![trigger after.holdings@.dom().contains(left), after.holdings@.dom().contains(right)]
            after.holdings@.dom().contains(left) && after.holdings@.dom().contains(right) && left != right implies crate::allocator::holdings::spans_apart(
            left as int,
            after.holdings@[left].slices,
            right as int,
            after.holdings@[right].slices,
        ) by {
            assert(before.holdings@.dom().contains(left) && before.holdings@.dom().contains(right));
        }
    }
    assert(users_kept(before.holdings@, after.holdings@, 0, 0));
    // The slabs.
    lemma_marked(context, class, first_model.marker);
    assert(slab_in(after.holdings@, slice, slice));
    assert(slab_in(after.holdings@, slice, second));
    assert forall|slab: usize| #[trigger] after.slabs@.dom().contains(slab) implies classed(after.slabs@[slab], sizes)
        && after.slabs@[slab].address == slab && slab_placed(after.holdings@, after.mapped@, slab) by {
        if slab != slice && slab != second {
            assert(before.slabs@.dom().contains(slab));
            lemma_placed_kept(before, after, 0, 0, slab);
        }
    }
    assert(first_model.well_formed() && second_model.well_formed()) by {
        lemma_at_address(&after.slabs, slice);
        lemma_at_address(&after.slabs, second);
    }
    // What is cached and what is listed.
    let listing = before.remotes@[remote];
    let longer = after.remotes@[remote];
    assert forall|heap: int, block: usize| #[trigger] after.cached_by(heap, block) == before.cached_by(heap, block) by {
        let left = before.view_of(heap);
        let right = after.view_of(heap);
        if before.cached_by(heap, block) {
            let (x, c) = choose|x: bool, c: int| 0 <= c < sizes.len() && #[trigger] left.cached(x, c, block);
            assert(right.cached(x, c, block));
        }
        if after.cached_by(heap, block) {
            let (x, c) = choose|x: bool, c: int| 0 <= c < sizes.len() && #[trigger] right.cached(x, c, block);
            assert(left.cached(x, c, block));
        }
    }
    assert forall|other: int, block: usize| 0 <= other < after.remotes@.len() && other != remote implies #[trigger] after.listed_by(other, block)
        == before.listed_by(other, block) by {}
    assert forall|block: usize| #[trigger] after.listed_by(remote, block) implies before.listed_by(remote, block) || segment_of(
        block as int,
    ) == slice || segment_of(block as int) == second by {
        let (x, c) = choose|x: bool, c: int| 0 <= c < sizes.len() && #[trigger] longer.list(x, c).contains(block);
        if x == context && c == class {
            let own = listing.list(context, class);
            let one = blocks_of(slice as int, size);
            let two = blocks_of(slice + SLAB_SIZE, size);
            let position = choose|position: int| 0 <= position < longer.list(x, c).len() && longer.list(x, c)[position] == block;
            if position < own.len() {
                assert(own[position] == block);
                assert(listing.list(x, c).contains(block));
            } else if position < own.len() + one.len() {
                assert(one[position - own.len()] == block);
                assert(one.contains(block));
                lemma_fresh_blocks(slice, first_model.marker, owner, size, block);
            } else {
                assert(two[position - own.len() - one.len()] == block);
                assert(two.contains(block));
                lemma_fresh_blocks(second, first_model.marker, owner, size, block);
            }
        } else {
            assert(listing.list(x, c).contains(block));
        }
    }
    assert forall|block: usize, heap: int| 0 <= heap < before.heaps@.len() && #[trigger] before.cached_by(heap, block) implies before.slabs@.dom().contains(
        segment_of(block as int) as usize,
    ) by {
        let (x, c) = choose|x: bool, c: int| 0 <= c < sizes.len() && #[trigger] before.view_of(heap).cached(x, c, block);
        assert(before.heap_ok(heap));
        assert(before.view_of(heap).hot_ok(sizes, x, c));
        assert(before.view_of(heap).idle_block(sizes, x, c, block));
    }
    assert forall|heap: int| 0 <= heap < after.heaps@.len() implies #[trigger] after.heap_ok(heap) by {
        assert(before.heap_ok(heap));
        let middle = before.view_of(heap).with_slab(slice, first_model);
        crate::allocator::refill::lemma_slab_added(before.view_of(heap), sizes, slice, first_model);
        crate::allocator::refill::lemma_slab_added(middle, sizes, second, second_model);
        assert(after.view_of(heap) == middle.with_slab(second, second_model));
        lemma_cache_kept(after.heaps@[heap], before.holdings@, after.holdings@, 0, 0);
        let own = after.heaps@[heap];
        if own.locality_next < own.locality_end {
            let base = own.locality_segment;
            assert(before.holdings@.dom().contains(base));
            assert(base != slice);
            assert(crate::allocator::holdings::spans_apart(base as int, before.holdings@[base].slices, slice as int, 1));
        }
    }
    lemma_chunks_kept(before, after, 0);
    assert forall|other: int| 0 <= other < after.remotes@.len() implies (#[trigger] after.remotes@[other]).inv(after.slabs@, sizes)
        && is_domain(after.domains@, after.remotes@[other].domain) by {
        if other != remote {
            let own = before.remotes@[other];
            assert(own.inv(before.slabs@, sizes));
            assert forall|x: bool, c: int, block: usize|
                0 <= c < sizes.len() && own.list(x, c).contains(block) && idle_at(before.slabs@, sizes, x, c, block) implies #[trigger] idle_at(
                after.slabs@,
                sizes,
                x,
                c,
                block,
            ) by {}
            crate::allocator::remote::lemma_remote_kept(&own, sizes, before.slabs@, after.slabs@);
        }
    }
    assert forall|other: int, block: usize| 0 <= other < before.remotes@.len() && #[trigger] before.listed_by(other, block) implies before.slabs@.dom().contains(
        segment_of(block as int) as usize,
    ) && before.slabs@[segment_of(block as int) as usize].shared by {}
    assert(after.waiting_apart()) by {
        assert forall|left: int, right: int, block: usize|
            #![trigger after.cached_by(left, block), after.cached_by(right, block)]
            0 <= left < after.heaps@.len() && 0 <= right < after.heaps@.len() && left != right implies !(after.cached_by(left, block)
            && after.cached_by(right, block)) by {
            assert(before.cached_by(left, block) == after.cached_by(left, block));
            assert(before.cached_by(right, block) == after.cached_by(right, block));
        }
        assert forall|heap: int, other: int, block: usize|
            #![trigger after.cached_by(heap, block), after.listed_by(other, block)]
            0 <= heap < after.heaps@.len() && 0 <= other < after.remotes@.len() implies !(after.cached_by(heap, block)
            && after.listed_by(other, block)) by {
            if after.cached_by(heap, block) && after.listed_by(other, block) {
                assert(before.cached_by(heap, block));
                assert(before.listed_by(other, block));
            }
        }
        assert forall|left: int, right: int, block: usize|
            #![trigger after.listed_by(left, block), after.listed_by(right, block)]
            0 <= left < after.remotes@.len() && 0 <= right < after.remotes@.len() && left != right implies !(after.listed_by(left, block)
            && after.listed_by(right, block)) by {
            if after.listed_by(left, block) && after.listed_by(right, block) {
                assert(before.listed_by(left, block) || left == remote);
                assert(before.listed_by(right, block) || right == remote);
                assert(before.listed_by(left, block) && before.listed_by(right, block));
            }
        }
    }
    assert forall|other: int, block: usize| 0 <= other < after.remotes@.len() && #[trigger] after.listed_by(other, block) implies {
        let slab = segment_of(block as int) as usize;
        after.slabs@.dom().contains(slab) && after.slabs@[slab].shared
    } by {
        if before.listed_by(other, block) {
        }
    }
    // What is in use.
    assert forall|block: usize| #[trigger] before.loose(block) implies after.loose(block) by {
        assert forall|heap: int| 0 <= heap < after.heaps@.len() implies !#[trigger] after.cached_by(heap, block) by {
            assert(!before.cached_by(heap, block));
        }
        assert forall|other: int| 0 <= other < after.remotes@.len() implies !#[trigger] after.listed_by(other, block) by {
            assert(!before.listed_by(other, block));
        }
    }
    assert(after.out@.dom() =~= after.slabs@.dom());
    assert forall|slab: usize| #[trigger] after.slabs@.dom().contains(slab) implies after.entries_ok(slab) by {
        if slab != slice && slab != second {
            assert(before.slabs@.dom().contains(slab));
            assert(before.entries_ok(slab));
            assert forall|at: int| 0 <= at < after.out@[slab].len() implies #[trigger] after.entry_ok(slab, at) by {
                assert(before.entry_ok(slab, at));
            }
        }
    }
    assert forall|slab: usize| #[trigger] after.slabs@.dom().contains(slab) implies after.slab_owned(slab) by {
        if slab != slice && slab != second {
            assert(before.slabs@.dom().contains(slab));
            assert(before.slab_owned(slab));
            let own = before.slabs@[slab].owner;
            if before.slabs@[slab].shared {
                let at = choose|at: int| #[trigger] before.is_remote(at, own);
                assert(after.remotes@[at].address == before.remotes@[at].address);
                assert(after.is_remote(at, own));
            } else {
                let at = choose|at: int| #[trigger] before.is_heap(at, own);
                assert(after.is_heap(at, own));
            }
            assert(after.slabs@[slab] == before.slabs@[slab]);
        } else {
            assert(after.slabs@[slab].shared && after.slabs@[slab].owner == owner);
            assert(after.remotes@[remote].address == owner);
            assert(after.is_remote(remote, owner));
        }
    }
    assert forall|block: usize| #[trigger] before.in_use(block) implies after.in_use(block) by {
        let slab = segment_of(block as int) as usize;
        assert(before.slabs@.dom().contains(slab));
        let at = choose|at: int| 0 <= at < before.out@[slab].len() && (#[trigger] before.out@[slab][at]).block == block;
        assert(after.out@[slab][at].block == block);
    }
}

} // verus!
