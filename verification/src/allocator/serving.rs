//! Blocks of every kind, from the request to the block in use.

use vstd::prelude::*;

use crate::allocator::classes::{segment_of, MEDIUM_SLICE_SIZE};
use crate::allocator::deallocation::heap_small_only;
use crate::allocator::frames::{alike_slab, steady};
use crate::allocator::heaps::SlabRequest;
use crate::allocator::lives::{
    bumps_less, lemma_only_then, lemma_small_joins, lemma_still, mediums_less, smalls_less, uses_only,
};
use crate::allocator::mediums::mediums_kept;
use crate::allocator::references::{
    lemma_pop_names, lemma_refers_view, lemma_refill_names, lemma_refs_go_on, lemma_refs_of_heap, refs_kept,
};
use crate::allocator::refill::{refilled, small_recorded};
use crate::allocator::refills::{
    arena_moved, locality_moved, other_domains_stay, refill_dropped, refill_pending, refill_reply,
};
use crate::allocator::remote::{blocks_of, idle_at, remote_slab};
use crate::allocator::segments::lemma_segments_moved;
use crate::allocator::slab::{block_count, first_block, RemoteFree, SlabModel, SLAB_SIZE};
use crate::allocator::small::SmallHeap;
use crate::allocator::space::{same_but_small, Holding, Space, User};
use crate::allocator::thread_heaps::{slice_cut, slice_pending, span_returned};
use crate::allocator::uses::{
    bumps_kept, lemma_directs_go_on, lemma_held_is_unmapped, lemma_records_go_on, lemma_uses_go_on,
    lemma_whole_goes_on, smalls_kept, uses_kept, Block,
};

verus! {

/// Whether every heap stays where it is, under its name and in its domain.
pub open spec fn names_kept(before: Space, after: Space) -> bool {
    &&& before.domains@.len() <= after.domains@.len()
    &&& before.heaps@.len() <= after.heaps@.len()
    &&& before.remotes@.len() <= after.remotes@.len()
    &&& before.bumps@.len() <= after.bumps@.len()
    &&& forall|at: int|
        0 <= at < before.heaps@.len() ==> (#[trigger] after.heaps@[at]).address == before.heaps@[at].address && after.heaps@[at].domain
            == before.heaps@[at].domain
    &&& forall|at: int|
        0 <= at < before.remotes@.len() ==> (#[trigger] after.remotes@[at]).address == before.remotes@[at].address
            && after.remotes@[at].domain == before.remotes@[at].domain
    &&& forall|at: int|
        0 <= at < before.bumps@.len() ==> (#[trigger] after.bumps@[at]).address == before.bumps@[at].address && after.bumps@[at].domain
            == before.bumps@[at].domain
}

/// Whether a step keeps everything in order, every heap and every block in use.
pub open spec fn step_kept(before: Space, after: Space) -> bool {
    &&& after.whole()
    &&& after.tuning == before.tuning
    &&& names_kept(before, after)
    &&& uses_kept(before, after)
}

/// The small blocks of a heap once one of the class was looked for among them.
pub open spec fn searched(space: Space, heap: int, context: bool, class: int) -> SmallHeap {
    space.view_of(heap).pop(context, class, space.tuning.batch_limit as int, space.tuning.partial_slab_scan_limit as int).1
}

/// Whether a thread heap counts one allocation more, and no other thread heap differs. Its lists may.
pub open spec fn remote_gains(before: Space, after: Space, remote: int, requested_bytes: int, usable_bytes: usize) -> bool {
    &&& after.remotes@.len() == before.remotes@.len()
    &&& forall|other: int|
        #![trigger after.remotes@[other]]
        0 <= other < before.remotes@.len() && other != remote ==> after.remotes@[other] == before.remotes@[other]
    &&& after.remotes@[remote].usage == before.remotes@[remote].usage.with_allocation(requested_bytes as usize, usable_bytes)
}

/// Whether the heap's small blocks are `left` after the block was taken from them, and the block is
/// counted: its padding at its slab, or the block at the thread heap that a shared slab belongs to.
pub open spec fn small_counted(
    before: Space,
    after: Space,
    heap: int,
    left: SmallHeap,
    class: int,
    requested_bytes: int,
    block: int,
) -> bool {
    let slab = segment_of(block) as usize;
    let model = left.slabs[slab];
    let usable = before.sizes()[class];
    if model.shared {
        &&& after.view_of(heap) == left
        &&& forall|remote: int|
            #[trigger] before.is_remote(remote, model.owner) ==> remote_gains(before, after, remote, requested_bytes, usable)
                && after.remotes@[remote].same_but_list(&before.remotes@[remote], true, -1)
    } else {
        &&& after.view_of(heap) == left.with_slab(slab, SlabModel { padding: model.padding + (usable - requested_bytes), ..model })
        &&& after.remotes == before.remotes
    }
}

/// Whether the block is the last that the thread heap listed for the class, no longer listed and
/// counted, and no other thread heap differs.
pub open spec fn listed_drawn(before: Space, after: Space, remote: int, context: bool, class: int, requested_bytes: int, block: int) -> bool {
    let list = before.remotes@[remote].list(context, class);
    &&& list.len() > 0
    &&& block == list.last()
    &&& remote_gains(before, after, remote, requested_bytes, before.sizes()[class])
    &&& after.remotes@[remote].same_but_list(&before.remotes@[remote], context, class)
    &&& after.remotes@[remote].list(context, class) == list.drop_last()
}

/// Whether the heap's new slab is in place, its first block taken and counted, and nothing else of the
/// heaps, the thread heaps and the domains differs.
pub open spec fn refill_done(
    before: Space,
    after: Space,
    heap: int,
    request: SlabRequest,
    answer: usize,
    context: bool,
    class: usize,
    requested_bytes: int,
    block: int,
    track_aggregates: bool,
) -> bool {
    let own = before.heaps@[heap];
    let size = before.sizes()[class as int] as int;
    let slab = match request {
        SlabRequest::CommitSlab { slab } => slab,
        SlabRequest::CommitSegment { base, slices } => base,
        SlabRequest::MapSlab => answer,
    };
    &&& block == slab + first_block(size) * size
    &&& small_counted(
        before,
        after,
        heap,
        refilled(before.view_of(heap), before.sizes(), context, class as int, slab, own.address),
        class as int,
        requested_bytes,
        block,
    )
    &&& locality_moved(own, after.heaps@[heap], request, answer)
    &&& arena_moved(before, after, heap, request, slab)
    &&& other_domains_stay(before, after, heap)
    &&& small_recorded(
        &before.domains@[own.domain - 1],
        &after.domains@[own.domain - 1],
        slab,
        class,
        context,
        own.address,
        block_count(size) - first_block(size),
        track_aggregates,
    )
    &&& other_heaps_stay(before, after, heap)
}

/// Whether no heap but the one differs.
pub open spec fn other_heaps_stay(before: Space, after: Space, heap: int) -> bool {
    &&& after.heaps@.len() == before.heaps@.len()
    &&& forall|other: int|
        #![trigger after.heaps@[other]]
        0 <= other < before.heaps@.len() && other != heap ==> after.heaps@[other] == before.heaps@[other]
}

/// Whether the slice is cut into slabs of the thread heap, their blocks listed and the last of them
/// taken and counted.
pub open spec fn slice_done(
    before: Space,
    after: Space,
    remote: int,
    slice: usize,
    context: bool,
    class: usize,
    requested_bytes: int,
    block: int,
    track_aggregates: bool,
) -> bool {
    let own = before.remotes@[remote];
    let size = before.sizes()[class as int] as int;
    let list = own.list(context, class as int) + blocks_of(slice as int, size) + blocks_of(slice + SLAB_SIZE, size);
    &&& slice_cut(before, after, remote, slice, context, class, track_aggregates)
    &&& after.slabs@ == before.slabs@.insert(slice, remote_slab(&own, slice, context, class as int, size)).insert(
        (slice + SLAB_SIZE) as usize,
        remote_slab(&own, (slice + SLAB_SIZE) as usize, context, class as int, size),
    )
    &&& block == list.last()
    &&& after.remotes@.len() == before.remotes@.len()
    &&& forall|other: int|
        #![trigger after.remotes@[other]]
        0 <= other < before.remotes@.len() && other != remote ==> after.remotes@[other] == before.remotes@[other]
    &&& after.remotes@[remote].same_but_list(&own, context, class as int)
    &&& after.remotes@[remote].list(context, class as int) == list.drop_last()
    &&& after.remotes@[remote].usage == own.usage.with_slice().with_allocation(requested_bytes as usize, before.sizes()[class as int])
}

/// Whether the block was not in use and is now, and no other came into use.
pub open spec fn taken(before: Space, after: Space, block: Block) -> bool {
    &&& after.uses(block)
    &&& !before.uses(block)
    &&& uses_only(before, after, Some(block))
}

/// Whether the block lies in a slab of the heap, or in one that the threads share.
pub open spec fn small_of(space: Space, heap: int, block: int) -> bool {
    let slab = segment_of(block) as usize;
    &&& space.slabs@.dom().contains(slab)
    &&& space.slabs@[slab].shared || space.slabs@[slab].owner == space.heaps@[heap].address
}

/// Whether the block lies in a slab that the threads share.
pub open spec fn shared_block(space: Space, block: int) -> bool {
    let slab = segment_of(block) as usize;
    space.slabs@.dom().contains(slab) && space.slabs@[slab].shared
}

/// The first block of a new slab lies in it.
proof fn lemma_first_in_slab(before: Space, after: Space, heap: int, request: SlabRequest, answer: usize, class: int, block: usize)
    requires
        before.inv(),
        after.inv(),
        0 <= class < before.sizes().len(),
        ({
            let slab = match request {
                SlabRequest::CommitSlab { slab } => slab,
                SlabRequest::CommitSegment { base, slices } => base,
                SlabRequest::MapSlab => answer,
            };
            &&& after.slabs@.dom().contains(slab)
            &&& block == slab + first_block(before.sizes()[class] as int) * before.sizes()[class]
        }),
    ensures
        segment_of(block as int) == (match request {
            SlabRequest::CommitSlab { slab } => slab,
            SlabRequest::CommitSegment { base, slices } => base,
            SlabRequest::MapSlab => answer,
        }),
{
    let slab = match request {
        SlabRequest::CommitSlab { slab } => slab,
        SlabRequest::CommitSegment { base, slices } => base,
        SlabRequest::MapSlab => answer,
    };
    let size = before.sizes()[class] as int;
    crate::allocator::blocks::lemma_at_address(&after.slabs, slab);
    crate::allocator::slab::lemma_blocks(size);
    let first = first_block(size);
    assert(0 <= first * size && first * size + size <= SLAB_SIZE) by (nonlinear_arith)
        requires
            0 <= first,
            first + 1 <= SLAB_SIZE as int / size,
            size > 0,
    ;
    let whole = SLAB_SIZE as int;
    vstd::arithmetic::div_mod::lemma_fundamental_div_mod(slab as int, whole);
    vstd::arithmetic::div_mod::lemma_fundamental_div_mod_converse(block as int, whole, slab as int / whole, block - slab);
}

/// A block that joins the blocks in use of its slab is in use.
proof fn lemma_joins(before: Space, after: Space, block: usize, context: bool, class: int, requested_bytes: int)
    requires
        before.inv(),
        after.inv(),
        after.tuning == before.tuning,
        0 <= class < before.sizes().len(),
        requested_bytes <= before.sizes()[class],
        !before.in_use(block),
        idle_at(before.slabs@, before.sizes(), context, class, block),
        ({
            let slab = segment_of(block as int) as usize;
            &&& after.slabs@.dom().contains(slab)
            &&& alike_slab(before.slabs@[slab], after.slabs@[slab])
            &&& after.out@.dom().contains(slab)
            &&& after.out@[slab] == before.out@[slab].push(
                RemoteFree { block, padding: (before.sizes()[class] - requested_bytes) as usize },
            )
        }),
        0 <= requested_bytes,
    ensures
        after.used_as(block, context, class, requested_bytes),
        !before.used_as(block, context, class, requested_bytes),
{
    let slab = segment_of(block as int) as usize;
    let at = before.out@[slab].len() as int;
    assert(after.is_entry(at, block, after.sizes()[class] - requested_bytes));
    assert(after.entries_ok(slab));
    assert(after.entry_ok(slab, at));
    if before.used_as(block, context, class, requested_bytes) {
        let old_at = choose|at: int| #[trigger] before.is_entry(at, block, before.sizes()[class] - requested_bytes);
        assert(before.out@[slab][old_at].block == block);
        assert(before.in_use(block));
    }
}

/// Taking a block out of a heap's lists keeps the blocks in use.
proof fn lemma_pop_kept(before: Space, after: Space, heap: int, context: bool, class: int)
    requires
        before.whole(),
        after.inv(),
        0 <= heap < before.heaps@.len(),
        0 <= class < before.sizes().len(),
        same_but_small(before, after, heap),
        after.out == before.out,
        steady(before.slabs@, after.slabs@),
        after.view_of(heap) == before.view_of(heap).pop(
            context,
            class,
            before.tuning.batch_limit as int,
            before.tuning.partial_slab_scan_limit as int,
        ).1,
    ensures
        step_kept(before, after),
        uses_only(before, after, None),
{
    assert(smalls_kept(before, after));
    assert(mediums_kept(before.domains@, after.domains@));
    assert(smalls_less(before, after));
    lemma_still(before, after);
    assert(before.heap_ok(heap));
    lemma_pop_names(
        before.view_of(heap),
        before.sizes(),
        context,
        class,
        before.tuning.batch_limit as int,
        before.tuning.partial_slab_scan_limit as int,
    );
    lemma_refs_of_heap(before, after, heap, 0);
    assert(refs_kept(before, after, -1, 0));
    lemma_whole_goes_on(before, after);
}

impl Space {
    /// Takes a small block of a heap and puts it to use. Gives 0 where the heap has none at hand, and
    /// how many blocks came back from other threads on the way.
    #[verifier::spinoff_prover]
    #[verifier::rlimit(60)]
    pub fn take_small(&mut self, heap: usize, context: bool, class: usize, requested_bytes: usize) -> (popped: (usize, u64))
        requires
            old(self).whole(),
            heap < old(self).heaps@.len(),
            class < old(self).sizes().len(),
            requested_bytes <= old(self).sizes()[class as int],
        ensures
            step_kept(*old(self), *final(self)),
            final(self).records == old(self).records,
            final(self).remotes@.len() == old(self).remotes@.len(),
            ({
                let (block, after, drained) = old(self).view_of(heap as int).pop(
                    context,
                    class as int,
                    old(self).tuning.batch_limit as int,
                    old(self).tuning.partial_slab_scan_limit as int,
                );
                popped.0 == block && popped.1 == crate::allocator::small::wrapped(drained)
            }),
            heap_small_only(*old(self), *final(self), heap as int),
            if popped.0 == 0 {
                &&& final(self).view_of(heap as int) == searched(*old(self), heap as int, context, class as int)
                &&& final(self).remotes == old(self).remotes
            } else {
                small_counted(
                    *old(self),
                    *final(self),
                    heap as int,
                    searched(*old(self), heap as int, context, class as int),
                    class as int,
                    requested_bytes as int,
                    popped.0 as int,
                )
            },
            popped.0 == 0 ==> uses_only(*old(self), *final(self), None),
            popped.0 != 0 ==> small_of(*final(self), heap as int, popped.0 as int),
            popped.0 != 0 ==> taken(
                *old(self),
                *final(self),
                Block::Small { block: popped.0, context, class: class as int, requested_bytes: requested_bytes as int },
            ),
    {
        let ghost before = *self;
        let popped: (usize, u64) = self.pop_small(heap, context, class);
        let ghost middle = *self;
        proof {
            lemma_pop_kept(before, middle, heap as int, context, class as int);
        }
        if popped.0 != 0 {
            self.record_small_allocation(heap, context, class, popped.0, requested_bytes);
            proof {
                let slab = segment_of(popped.0 as int) as usize;
                assert(middle.slabs@.dom().contains(slab));
                assert(before.slabs@.dom().contains(slab));
                crate::allocator::blocks::lemma_at_address(&before.slabs, slab);
                assert(before.heap_ok(heap as int));
                lemma_pop_names(
                    before.view_of(heap as int),
                    before.sizes(),
                    context,
                    class as int,
                    before.tuning.batch_limit as int,
                    before.tuning.partial_slab_scan_limit as int,
                );
                lemma_refers_view(&before.heaps@[heap as int].small, &before.slabs, before.sizes().len() as int, slab);
                assert(before.heap_refers(heap as int, slab));
                assert(self.slabs@.dom() =~= middle.slabs@.dom());
                assert forall|other: usize| #[trigger] middle.slabs@.dom().contains(other) implies {
                    &&& self.slabs@.dom().contains(other)
                    &&& alike_slab(middle.slabs@[other], self.slabs@[other])
                    &&& self.out@[other] == middle.out@[other] || self.out@[other] == middle.out@[other].push(self.out@[other].last())
                } by {}
                assert(smalls_kept(middle, *self));
                assert(mediums_kept(middle.domains@, self.domains@));
                assert(self.records == middle.records && self.mapped == middle.mapped && self.bumps == middle.bumps);
                lemma_whole_goes_on(middle, *self);
                lemma_joins(middle, *self, popped.0, context, class as int, requested_bytes as int);
                lemma_small_joins(middle, *self, popped.0, context, class as int, requested_bytes as int);
                assert(uses_kept(before, *self));
                let taken_block = Block::Small {
                    block: popped.0,
                    context,
                    class: class as int,
                    requested_bytes: requested_bytes as int,
                };
                lemma_only_then(before, middle, *self, Some(taken_block));
                assert(!before.uses(taken_block)) by {
                    if before.uses(taken_block) {
                        assert(middle.uses(taken_block));
                    }
                }
            }
        }
        popped
    }

    /// Finishes a new slab of a heap and puts its first block to use. Gives 0 where the system refused.
    #[verifier::spinoff_prover]
    #[verifier::rlimit(60)]
    pub fn finish_small(
        &mut self,
        heap: usize,
        request: SlabRequest,
        reply: Option<usize>,
        context: bool,
        class: usize,
        requested_bytes: usize,
        track_aggregates: bool,
    ) -> (block: usize)
        requires
            old(self).whole(),
            heap < old(self).heaps@.len(),
            class < old(self).sizes().len(),
            requested_bytes <= old(self).sizes()[class as int],
            refill_pending(*old(self), heap as int, request),
            refill_reply(*old(self), request, reply),
        ensures
            step_kept(*old(self), *final(self)),
            final(self).records == old(self).records,
            final(self).heaps@.len() == old(self).heaps@.len(),
            final(self).remotes@.len() == old(self).remotes@.len(),
            final(self).bumps == old(self).bumps,
            final(self).domains@.len() == old(self).domains@.len(),
            block == 0 <==> reply is None,
            match reply {
                None => {
                    &&& final(self).heaps@ == old(self).heaps@
                    &&& final(self).remotes == old(self).remotes
                    &&& final(self).slabs == old(self).slabs
                    &&& final(self).mapped == old(self).mapped
                    &&& refill_dropped(*old(self), *final(self), heap as int, request)
                },
                Some(answer) => refill_done(
                    *old(self),
                    *final(self),
                    heap as int,
                    request,
                    answer,
                    context,
                    class,
                    requested_bytes as int,
                    block as int,
                    track_aggregates,
                ),
            },
            block == 0 ==> uses_only(*old(self), *final(self), None),
            block != 0 ==> small_of(*final(self), heap as int, block as int),
            block != 0 ==> taken(
                *old(self),
                *final(self),
                Block::Small { block, context, class: class as int, requested_bytes: requested_bytes as int },
            ),
    {
        let ghost before = *self;
        let block: usize = self.finish_refill(heap, request, reply, context, class, track_aggregates);
        let ghost middle = *self;
        proof {
            lemma_refill_kept(before, middle, heap as int, request, reply, context, class as int);
        }
        if block != 0 {
            self.record_small_allocation(heap, context, class, block, requested_bytes);
            proof {
                let slab = segment_of(block as int) as usize;
                assert(middle.slabs@.dom().contains(slab));
                lemma_first_in_slab(before, middle, heap as int, request, reply->0, class as int, block);
                assert(middle.view_of(heap as int).slabs[slab].owner == before.heaps@[heap as int].address);
                assert(self.slabs@.dom() =~= middle.slabs@.dom());
                assert(smalls_kept(middle, *self));
                assert(mediums_kept(middle.domains@, self.domains@));
                lemma_whole_goes_on(middle, *self);
                lemma_joins(middle, *self, block, context, class as int, requested_bytes as int);
                lemma_small_joins(middle, *self, block, context, class as int, requested_bytes as int);
                let taken_block = Block::Small { block, context, class: class as int, requested_bytes: requested_bytes as int };
                lemma_only_then(before, middle, *self, Some(taken_block));
                assert(!before.uses(taken_block)) by {
                    if before.uses(taken_block) {
                        assert(middle.uses(taken_block));
                    }
                }
            }
        }
        block
    }

    /// Takes a block that a thread heap lists and puts it to use. Gives 0 where it lists none.
    pub fn take_thread_small(&mut self, remote: usize, context: bool, class: usize, requested_bytes: usize) -> (block: usize)
        requires
            old(self).whole(),
            remote < old(self).remotes@.len(),
            class < old(self).sizes().len(),
            requested_bytes <= old(self).sizes()[class as int],
        ensures
            step_kept(*old(self), *final(self)),
            crate::allocator::thread_heaps::same_but_remote(*old(self), *final(self), remote as int),
            block != 0 <==> old(self).remotes@[remote as int].list(context, class as int).len() > 0,
            block != 0 ==> block == old(self).remotes@[remote as int].list(context, class as int).last(),
            block == 0 ==> final(self).out == old(self).out && final(self).remotes@ == old(self).remotes@,
            block != 0 ==> listed_drawn(
                *old(self),
                *final(self),
                remote as int,
                context,
                class as int,
                requested_bytes as int,
                block as int,
            ),
            block == 0 ==> uses_only(*old(self), *final(self), None),
            block != 0 ==> shared_block(*final(self), block as int) && old(self).listed_by(remote as int, block),
            block != 0 ==> taken(
                *old(self),
                *final(self),
                Block::Small { block, context, class: class as int, requested_bytes: requested_bytes as int },
            ),
    {
        let ghost before = *self;
        let block: usize = self.take_listed(remote, context, class, requested_bytes);
        proof {
            assert(mediums_kept(before.domains@, self.domains@));
            if block != 0 {
                let slab = segment_of(block as int) as usize;
                assert(before.slabs@.dom().contains(slab));
                let list = before.remotes@[remote as int].list(context, class as int);
                assert(list[list.len() - 1] == block);
                assert(list.contains(block));
                assert(before.listed_by(remote as int, block));
            }
            assert(smalls_kept(before, *self));
            lemma_whole_goes_on(before, *self);
            if block != 0 {
                lemma_joins(before, *self, block, context, class as int, requested_bytes as int);
                lemma_small_joins(before, *self, block, context, class as int, requested_bytes as int);
            } else {
                lemma_still(before, *self);
            }
        }
        block
    }

    /// Fills a thread heap's list from a slice that was taken for it and committed, and puts the
    /// last block of the list to use. Gives the slice back, and 0, where it was not committed.
    pub fn finish_thread_small(
        &mut self,
        remote: usize,
        slice: usize,
        committed: bool,
        context: bool,
        class: usize,
        requested_bytes: usize,
        track_aggregates: bool,
    ) -> (block: usize)
        requires
            old(self).whole(),
            remote < old(self).remotes@.len(),
            class < old(self).sizes().len(),
            requested_bytes <= old(self).sizes()[class as int],
            slice_pending(*old(self), old(self).remotes@[remote as int].domain, slice),
        ensures
            step_kept(*old(self), *final(self)),
            final(self).records == old(self).records,
            final(self).heaps == old(self).heaps,
            final(self).bumps == old(self).bumps,
            final(self).mapped == old(self).mapped,
            final(self).remotes@.len() == old(self).remotes@.len(),
            final(self).domains@.len() == old(self).domains@.len(),
            block != 0 <==> committed,
            if committed {
                slice_done(
                    *old(self),
                    *final(self),
                    remote as int,
                    slice,
                    context,
                    class,
                    requested_bytes as int,
                    block as int,
                    track_aggregates,
                )
            } else {
                span_returned(*old(self), *final(self), old(self).remotes@[remote as int].domain, slice, 1)
            },
            block == 0 ==> uses_only(*old(self), *final(self), None),
            block != 0 ==> shared_block(*final(self), block as int),
            block != 0 ==> taken(
                *old(self),
                *final(self),
                Block::Small { block, context, class: class as int, requested_bytes: requested_bytes as int },
            ),
    {
        let ghost before = *self;
        let domain: usize = self.remotes[remote].domain;
        if !committed {
            self.give_slice_back(domain, slice);
            proof {
                lemma_spans_only(before, *self);
                lemma_spans_still(before, *self);
            }
            return 0;
        }
        self.refill_thread_heap(remote, slice, context, class, track_aggregates);
        let ghost middle = *self;
        proof {
            let second = (slice + SLAB_SIZE) as usize;
            crate::allocator::refills::lemma_held_bounds(before, slice);
            lemma_held_is_unmapped(before, slice, slice);
            lemma_held_is_unmapped(before, slice, second);
            assert(smalls_kept(before, middle));
            lemma_whole_goes_on(before, middle);
            assert(smalls_less(before, middle));
            lemma_still(before, middle);
        }
        let block: usize = self.take_thread_small(remote, context, class, requested_bytes);
        proof {
            let taken_block = Block::Small { block, context, class: class as int, requested_bytes: requested_bytes as int };
            lemma_only_then(before, middle, *self, Some(taken_block));
            assert(!before.uses(taken_block)) by {
                if before.uses(taken_block) {
                    assert(middle.uses(taken_block));
                }
            }
        }
        block
    }
}

/// What changes nothing but the spans keeps the blocks in use.
pub proof fn lemma_spans_only(before: Space, after: Space)
    requires
        before.whole(),
        after.inv(),
        crate::allocator::thread_heaps::same_but_spans(before, after),
        mediums_kept(before.domains@, after.domains@),
    ensures
        step_kept(before, after),
{
    assert(smalls_kept(before, after));
    assert(bumps_kept(before.bumps@, after.bumps@));
    lemma_whole_goes_on(before, after);
}

/// Nothing comes into use where nothing but the spans changes.
pub proof fn lemma_spans_still(before: Space, after: Space)
    requires
        before.inv(),
        after.inv(),
        crate::allocator::thread_heaps::same_but_spans(before, after),
        mediums_less(before.domains@, after.domains@),
    ensures
        uses_only(before, after, None),
{
    assert(smalls_less(before, after));
    assert(bumps_less(before.bumps@, after.bumps@));
    lemma_still(before, after);
}

/// A finished slab keeps the blocks in use.
proof fn lemma_refill_kept(
    before: Space,
    after: Space,
    heap: int,
    request: SlabRequest,
    reply: Option<usize>,
    context: bool,
    class: int,
)
    requires
        before.whole(),
        after.inv(),
        0 <= heap < before.heaps@.len(),
        0 <= class < before.sizes().len(),
        refill_pending(before, heap, request),
        refill_reply(before, request, reply),
        after.tuning == before.tuning,
        after.records == before.records,
        after.bumps == before.bumps,
        crate::allocator::refills::same_but_heap(before, after, heap),
        crate::allocator::segments::segments_stay(before.holdings@, after.holdings@),
        mediums_kept(before.domains@, after.domains@),
        mediums_less(before.domains@, after.domains@),
        match reply {
            None => after.slabs == before.slabs && after.out == before.out && after.mapped == before.mapped && after.heaps@ == before.heaps@,
            Some(answer) => {
                let slab = match request {
                    SlabRequest::CommitSlab { slab } => slab,
                    SlabRequest::CommitSegment { base, slices } => base,
                    SlabRequest::MapSlab => answer,
                };
                &&& !before.slabs@.dom().contains(slab)
                &&& after.slabs@.remove(slab) == before.slabs@
                &&& after.slabs@.dom().contains(slab)
                &&& locality_moved(before.heaps@[heap], after.heaps@[heap], request, answer)
                &&& after.view_of(heap) == refilled(
                    before.view_of(heap),
                    before.sizes(),
                    context,
                    class,
                    slab,
                    before.heaps@[heap].address,
                )
                &&& after.mapped@ == (if request is MapSlab {
                    before.mapped@.insert(slab, SLAB_SIZE as int)
                } else {
                    before.mapped@
                })
                &&& after.out@ == before.out@.insert(slab, Seq::<RemoteFree>::empty())
                &&& request matches SlabRequest::CommitSegment { base, slices } ==> after.holdings@.dom().contains(base)
                    && after.holdings@[base] == (Holding {
                    domain: before.heaps@[heap].domain,
                    slices: slices as int,
                    user: User::Segment { heap: before.heaps@[heap].address },
                })
            },
        },
    ensures
        step_kept(before, after),
        uses_only(before, after, None),
{
    assert(bumps_kept(before.bumps@, after.bumps@));
    if let Some(answer) = reply {
        let slab = match request {
            SlabRequest::CommitSlab { slab } => slab,
            SlabRequest::CommitSegment { base, slices } => base,
            SlabRequest::MapSlab => answer,
        };
        match request {
            SlabRequest::CommitSlab { slab: next } => {
                assert(before.heap_ok(heap));
                lemma_held_is_unmapped(before, before.heaps@[heap].locality_segment, next);
            },
            SlabRequest::CommitSegment { base, slices } => {
                crate::allocator::refills::lemma_held_bounds(before, base);
                assert(slices * MEDIUM_SLICE_SIZE >= MEDIUM_SLICE_SIZE) by (nonlinear_arith)
                    requires
                        slices >= 1,
                ;
                lemma_held_is_unmapped(before, base, base);
            },
            SlabRequest::MapSlab => {
                crate::allocator::directs::lemma_mapping_joins(before, answer, SLAB_SIZE as int);
            },
        }
        assert forall|other: usize| #[trigger] before.slabs@.dom().contains(other) implies after.slabs@.dom().contains(other)
            && after.slabs@[other] == before.slabs@[other] by {
            assert(after.slabs@.remove(slab).dom().contains(other));
            assert(after.slabs@.remove(slab)[other] == before.slabs@[other]);
        }
        assert forall|other: usize| #[trigger] after.slabs@.dom().contains(other) && !before.slabs@.dom().contains(other) implies !before.mapped@.dom().contains(
            other,
        ) by {
            if other != slab {
                assert(after.slabs@.remove(slab).dom().contains(other));
            }
        }
    }
    assert(smalls_kept(before, after));
    assert(smalls_less(before, after)) by {
        assert forall|other: usize| #[trigger] after.slabs@.dom().contains(other) implies after.out@[other].len() == 0 || (
        before.slabs@.dom().contains(other) && alike_slab(before.slabs@[other], after.slabs@[other]) && after.out@[other]
            == before.out@[other]) by {
            if let Some(answer) = reply {
                let slab = match request {
                    SlabRequest::CommitSlab { slab } => slab,
                    SlabRequest::CommitSegment { base, slices } => base,
                    SlabRequest::MapSlab => answer,
                };
                if other != slab {
                    assert(after.slabs@.remove(slab).dom().contains(other));
                }
            }
        }
    }
    lemma_still(before, after);
    match reply {
        None => {
            lemma_whole_goes_on(before, after);
        },
        Some(answer) => {
            let slab = match request {
                SlabRequest::CommitSlab { slab } => slab,
                SlabRequest::CommitSegment { base, slices } => base,
                SlabRequest::MapSlab => answer,
            };
            lemma_uses_go_on(before, after);
            lemma_directs_go_on(before, after);
            lemma_records_go_on(before, after);
            assert(before.heap_ok(heap));
            assert(after.view_of(heap).slabs[slab].owner == before.heaps@[heap].address && !after.view_of(heap).slabs[slab].shared);
            lemma_segments_moved(before, after, heap, request, answer, slab);
            lemma_refill_names(before.view_of(heap), before.sizes(), context, class, slab, before.heaps@[heap].address);
            lemma_refs_of_heap(before, after, heap, slab);
            assert(after.view_of(heap).slabs[slab].owner == before.heaps@[heap].address);
            lemma_refs_go_on(before, after, heap, slab);
        },
    }
}

} // verus!
