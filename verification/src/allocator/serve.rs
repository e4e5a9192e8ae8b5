//! Handing out blocks.

use vstd::prelude::*;

use crate::allocator::blocks::{idle_in, law_served_block_was_not_in_use, pop_block};
use crate::allocator::classes::{allocation_segment, segment_of};
use crate::allocator::frames::{
    alike, lemma_handed_out_count, lemma_pop_caches, lemma_pop_steady, lemma_total_bound, net_padding, steady,
};
use crate::allocator::remote::idle_at;
use crate::allocator::slab::{lemma_blocks, total_padding, RemoteFree, SlabModel, SLAB_SIZE};
use crate::allocator::small::wrapped;
use crate::allocator::space::{
    leaves_alone, lemma_remote_usage, lemma_small_step, same_but_remote_usage, same_but_small, Space,
};
use crate::allocator::table::{lemma_changed_slab, SlabTable};

verus! {

impl SlabTable {
    /// Adds to the padding of a slab.
    fn add_padding(&mut self, address: usize, padding: usize)
        requires
            old(self).wf(),
            old(self)@.dom().contains(address),
            old(self)@[address].padding + padding <= usize::MAX,
        ensures
            final(self).wf(),
            final(self)@ == old(self)@.insert(
                address,
                (SlabModel { padding: old(self)@[address].padding + padding, ..old(self)@[address] }),
            ),
    {
        let ghost before = *self;
        if let Some(index) = self.position(address) {
            self.slabs[index].padding_bytes = self.slabs[index].padding_bytes + padding;
            proof {
                let model = before.slabs@[index as int]@;
                let after = self.slabs@[index as int]@;
                assert(after == SlabModel { padding: model.padding + padding, ..model });
                assert(after.free() =~= model.free());
                assert(after.well_formed()) by {
                    assert forall|position: int| 0 <= position < after.remote.len() implies after.handed_out(
                        (#[trigger] after.remote[position]).block as int,
                    ) by {
                        assert(model.handed_out(model.remote[position].block as int));
                    }
                }
                assert(self.slabs@[index as int].wf());
                lemma_changed_slab(&before, self, index as int);
            }
        }
    }

    /// Whether the slab belongs to a thread heap.
    pub fn is_shared(&self, address: usize) -> (shared: bool)
        requires
            self.wf(),
            self@.dom().contains(address),
        ensures
            shared == self@[address].shared,
    {
        match self.position(address) {
            Some(index) => self.slabs[index].shared,
            None => false,
        }
    }

    /// The address of the heap that the slab belongs to.
    pub fn owner_of(&self, address: usize) -> (owner: usize)
        requires
            self.wf(),
            self@.dom().contains(address),
        ensures
            owner == self@[address].owner,
    {
        match self.position(address) {
            Some(index) => self.slabs[index].owner,
            None => 0,
        }
    }
}

/// The blocks in use stay so where the slabs are steady and no block in use is touched.
pub proof fn lemma_out_steady(before: Space, after: Space)
    requires
        before.inv(),
        after.out == before.out,
        steady(before.slabs@, after.slabs@),
        forall|block: usize| #[trigger] before.loose(block) ==> after.loose(block),
    ensures
        after.out_ok(),
{
    assert forall|slab: usize| #[trigger] after.slabs@.dom().contains(slab) implies after.entries_ok(slab) by {
        assert(before.slabs@.dom().contains(slab));
        assert(before.entries_ok(slab));
        assert forall|at: int| 0 <= at < after.out@[slab].len() implies #[trigger] after.entry_ok(slab, at) by {
            assert(before.entry_ok(slab, at));
        }
        if after.slabs@[slab].remote.len() > 0 {
            assert forall|at: int| 0 <= at < after.slabs@[slab].remote.len() implies (#[trigger] after.slabs@[slab].remote[at]).padding
                <= after.slabs@[slab].block_size by {
                assert(before.slabs@[slab].remote[at].padding <= before.slabs@[slab].block_size);
            }
        }
    }
}

/// A block that one slab holds idle lies in no other slab.
pub proof fn lemma_idle_segment(slab: SlabModel, block: int)
    requires
        slab.well_formed(),
        idle_in(slab, block),
    ensures
        segment_of(block) == slab.address,
        0 < block <= usize::MAX,
{
    assert(slab.address % (SLAB_SIZE as int) == 0);
    assert(segment_of(block) == slab.address) by (nonlinear_arith)
        requires
            slab.address % (SLAB_SIZE as int) == 0,
            slab.address <= block < slab.address + SLAB_SIZE,
            segment_of(block) == block - block % (SLAB_SIZE as int),
            SLAB_SIZE == 32768,
    ;
}

impl Space {
    /// Takes a block of a class out of what the heap has: its cache, its active slab, a partial
    /// slab. Gives 0 where it has none, and beside that how many remote frees were drained.
    pub fn pop_small(&mut self, heap: usize, context: bool, class: usize) -> (popped: (usize, u64))
        requires
            old(self).inv(),
            heap < old(self).heaps@.len(),
            class < old(self).sizes().len(),
        ensures
            final(self).inv(),
            same_but_small(*old(self), *final(self), heap as int),
            final(self).out == old(self).out,
            ({
                let (block, after, drained) = old(self).view_of(heap as int).pop(
                    context,
                    class as int,
                    old(self).tuning.batch_limit as int,
                    old(self).tuning.partial_slab_scan_limit as int,
                );
                &&& popped.0 == block
                &&& final(self).view_of(heap as int) == after
                &&& popped.1 == wrapped(drained)
            }),
            popped.0 != 0 ==> final(self).loose(popped.0) && !final(self).in_use(popped.0) && idle_at(
                final(self).slabs@,
                final(self).sizes(),
                context,
                class as int,
                popped.0,
            ),
            steady(old(self).slabs@, final(self).slabs@),
    {
        let ghost before = *self;
        let ghost sizes = self.sizes();
        let ghost batch_limit = self.tuning.batch_limit as int;
        let ghost scan_limit = self.tuning.partial_slab_scan_limit as int;
        assert(self.heap_ok(heap as int));
        let popped: (usize, u64) = pop_block(&mut self.heaps[heap].small, &mut self.slabs, &self.tuning, context, class);
        proof {
            let view = before.view_of(heap as int);
            let after = self.view_of(heap as int);
            law_served_block_was_not_in_use(view, sizes, context, class as int, batch_limit, scan_limit);
            lemma_pop_steady(view, sizes, context, class as int, batch_limit, scan_limit);
            lemma_pop_caches(view, sizes, context, class as int, batch_limit, scan_limit);
            assert(same_but_small(before, *self, heap as int));
            assert(leaves_alone(before, *self, heap as int, 0)) by {
                assert forall|x: bool, c: int, block: usize|
                    0 <= c < sizes.len() && #[trigger] after.cached(x, c, block) implies view.cached(x, c, block) || block == 0 by {
                    assert(view.pop(context, class as int, batch_limit, scan_limit).1.cached(x, c, block));
                }
            }
            lemma_small_step(before, *self, heap as int, 0);
            assert forall|block: usize| #[trigger] before.loose(block) implies self.loose(block) by {
                if block == 0 {
                    assert(before.slabs@[segment_of(0) as usize].well_formed()) by {
                        crate::allocator::blocks::lemma_at_address(&before.slabs, segment_of(0) as usize);
                    }
                    lemma_idle_segment(before.slabs@[segment_of(0) as usize], 0);
                }
            }
            lemma_out_steady(before, *self);
            if popped.0 != 0 {
                let block = popped.0;
                assert(after.live(sizes, context, class as int, block));
                assert(!view.live(sizes, context, class as int, block));
                lemma_served_is_loose(before, *self, heap as int, context, class as int, block);
            }
        }
        popped
    }
}

/// The entries of a slab never take more padding than the slab is large.
pub proof fn lemma_padding_bound(space: Space, slab: usize)
    requires
        space.inv(),
        space.slabs@.dom().contains(slab),
        !space.slabs@[slab].shared,
    ensures
        0 <= total_padding(space.slabs@[slab].remote),
        space.slabs@[slab].padding <= 2 * SLAB_SIZE,
        space.slabs@[slab].block_size <= SLAB_SIZE,
{
    let model = space.slabs@[slab];
    let entries = space.out@[slab];
    crate::allocator::blocks::lemma_at_address(&space.slabs, slab);
    assert(space.entries_ok(slab));
    lemma_blocks(model.block_size);
    assert forall|at: int| 0 <= at < entries.len() implies model.handed_out((#[trigger] entries[at]).block as int)
        && entries[at].padding <= model.block_size by {
        assert(space.entry_ok(slab, at));
    }
    lemma_handed_out_count(model, entries);
    lemma_handed_out_count(model, model.remote);
    lemma_total_bound(entries, model.block_size);
    lemma_total_bound(model.remote, model.block_size);
    assert(entries.len() * model.block_size <= SLAB_SIZE) by (nonlinear_arith)
        requires
            entries.len() <= model.count(),
            model.count() * model.block_size <= SLAB_SIZE,
            model.block_size > 0,
    ;
    assert(model.remote.len() * model.block_size <= SLAB_SIZE) by (nonlinear_arith)
        requires
            model.remote.len() <= model.count(),
            model.count() * model.block_size <= SLAB_SIZE,
            model.block_size > 0,
    ;
}

/// The entries of a slab stay in order with one more block in use.
proof fn lemma_entry_added(before: Space, after: Space, slab: usize, entry: RemoteFree)
    requires
        before.inv(),
        before.slabs@.dom().contains(slab),
        segment_of(entry.block as int) == slab,
        before.loose(entry.block),
        !before.in_use(entry.block),
        entry.padding <= before.slabs@[slab].block_size,
        after.out@ == before.out@.insert(slab, before.out@[slab].push(entry)),
        alike(before.slabs@, after.slabs@),
        forall|other: usize| before.slabs@.dom().contains(other) ==> (#[trigger] after.slabs@[other]).remote == before.slabs@[other].remote,
        forall|other: usize|
            before.slabs@.dom().contains(other) && other != slab ==> net_padding(#[trigger] after.slabs@[other]) == net_padding(
                before.slabs@[other],
            ),
        !before.slabs@[slab].shared ==> net_padding(after.slabs@[slab]) == net_padding(before.slabs@[slab]) + entry.padding,
        forall|block: usize| #[trigger] before.loose(block) ==> after.loose(block),
    ensures
        after.out_ok(),
        after.in_use(entry.block),
{
    assert(after.out@.dom() =~= before.out@.dom());
    assert forall|other: usize| #[trigger] after.slabs@.dom().contains(other) implies after.entries_ok(other) by {
        assert(before.slabs@.dom().contains(other));
        assert(before.entries_ok(other));
        assert(after.slabs@[other].remote == before.slabs@[other].remote);
        if other == slab {
            let entries = before.out@[slab];
            let more = entries.push(entry);
            assert(more.drop_last() =~= entries);
            assert forall|at: int| 0 <= at < more.len() implies #[trigger] after.entry_ok(slab, at) by {
                if at < entries.len() {
                    assert(before.entry_ok(slab, at));
                    assert(after.out@[slab][at] == entries[at]);
                }
            }
            assert forall|left: int, right: int|
                #![trigger after.out@[slab][left], after.out@[slab][right]]
                0 <= left < right < after.out@[slab].len() implies after.out@[slab][left].block != after.out@[slab][right].block by {
                assert(entries[left] == after.out@[slab][left]);
                if right < entries.len() {
                    assert(entries[right] == after.out@[slab][right]);
                }
            }
        } else {
            assert forall|at: int| 0 <= at < after.out@[other].len() implies #[trigger] after.entry_ok(other, at) by {
                assert(before.entry_ok(other, at));
            }
        }
    }
    assert(after.out@[slab][before.out@[slab].len() as int] == entry);
}

impl Space {
    /// Finds a thread heap by its address.
    pub fn find_remote(&self, address: usize) -> (found: Option<usize>)
        ensures
            match found {
                Some(at) => self.is_remote(at as int, address),
                None => forall|at: int| !#[trigger] self.is_remote(at, address),
            },
    {
        let mut at: usize = 0;
        while at < self.remotes.len()
            invariant
                at <= self.remotes@.len(),
                forall|before: int| 0 <= before < at ==> !#[trigger] self.is_remote(before, address),
            decreases self.remotes@.len() - at,
        {
            if self.remotes[at].address == address {
                return Some(at);
            }
            at = at + 1;
        }
        None
    }

    /// Finds a heap by its address.
    pub fn find_heap(&self, address: usize) -> (found: Option<usize>)
        ensures
            match found {
                Some(at) => self.is_heap(at as int, address),
                None => forall|at: int| !#[trigger] self.is_heap(at, address),
            },
    {
        let mut at: usize = 0;
        while at < self.heaps.len()
            invariant
                at <= self.heaps@.len(),
                forall|before: int| 0 <= before < at ==> !#[trigger] self.is_heap(before, address),
            decreases self.heaps@.len() - at,
        {
            if self.heaps[at].address == address {
                return Some(at);
            }
            at = at + 1;
        }
        None
    }

    /// Counts a block as in use. Its padding goes to its slab, or, where that belongs to a thread
    /// heap, to that heap's usage.
    pub fn record_small_allocation(&mut self, heap: usize, context: bool, class: usize, block: usize, requested_bytes: usize)
        requires
            old(self).inv(),
            heap < old(self).heaps@.len(),
            class < old(self).sizes().len(),
            requested_bytes <= old(self).sizes()[class as int],
            old(self).loose(block),
            !old(self).in_use(block),
            idle_at(old(self).slabs@, old(self).sizes(), context, class as int, block),
        ensures
            final(self).inv(),
            final(self).in_use(block),
            ({
                let slab = segment_of(block as int) as usize;
                let padding = (old(self).sizes()[class as int] - requested_bytes) as usize;
                &&& final(self).out@ == old(self).out@.insert(slab, old(self).out@[slab].push(RemoteFree { block, padding }))
                &&& if old(self).slabs@[slab].shared {
                    exists|remote: int|
                        #![trigger final(self).remotes@[remote]]
                        old(self).is_remote(remote, old(self).slabs@[slab].owner) && same_but_remote_usage(
                            *old(self),
                            *final(self),
                            remote,
                        ) && final(self).remotes@[remote].usage == old(self).remotes@[remote].usage.with_allocation(
                            requested_bytes,
                            old(self).sizes()[class as int],
                        ) && final(self).remotes@[remote].same_but_list(&old(self).remotes@[remote], true, -1)
                } else {
                    &&& same_but_small(*old(self), *final(self), heap as int)
                    &&& final(self).heaps == old(self).heaps
                    &&& final(self).slabs@ == old(self).slabs@.insert(
                        slab,
                        (SlabModel { padding: old(self).slabs@[slab].padding + padding, ..old(self).slabs@[slab] }),
                    )
                }
            }),
    {
        let ghost before = *self;
        let ghost sizes = self.sizes();
        let slab: usize = allocation_segment(block);
        let usable_bytes: usize = self.tuning.sizes[class];
        let padding: usize = usable_bytes - requested_bytes;
        let ghost entry = RemoteFree { block, padding };
        if self.slabs.is_shared(slab) {
            let owner: usize = self.slabs.owner_of(slab);
            assert(self.slab_owned(slab));
            if let Some(remote) = self.find_remote(owner) {
                self.remotes[remote].record_allocation(requested_bytes, usable_bytes);
                proof {
                    let middle = *self;
                    assert(same_but_remote_usage(before, middle, remote as int));
                    lemma_remote_usage(before, middle, remote as int);
                    self.out@ = before.out@.insert(slab, before.out@[slab].push(entry));
                    assert(same_but_remote_usage(before, *self, remote as int));
                    lemma_remote_usage(before, *self, remote as int);
                    lemma_entry_added(before, *self, slab, entry);
                    assert(self.remotes@[remote as int].usage == before.remotes@[remote as int].usage.with_allocation(
                        requested_bytes,
                        usable_bytes,
                    ));
                }
            }
        } else {
            proof {
                lemma_padding_bound(before, slab);
            }
            self.slabs.add_padding(slab, padding);
            proof {
                self.out@ = before.out@.insert(slab, before.out@[slab].push(entry));
                let model = before.slabs@[slab];
                let padded = SlabModel { padding: model.padding + padding, ..model };
                assert(before.heap_ok(heap as int));
                assert(self.slabs@.dom() =~= before.slabs@.dom());
                assert(crate::allocator::small::keeps_idle(model, padded)) by {
                    crate::allocator::blocks::lemma_at_address(&self.slabs, slab);
                }
                crate::allocator::small::lemma_inv_slab(before.view_of(heap as int), sizes, slab, padded);
                assert(self.view_of(heap as int) == before.view_of(heap as int).with_slab(slab, padded));
                assert(leaves_alone(before, *self, heap as int, 0)) by {
                    let left = before.view_of(heap as int);
                    let right = self.view_of(heap as int);
                    assert forall|x: bool, c: int, b: usize|
                        0 <= c < sizes.len() && b != 0 && left.live(sizes, x, c, b) implies #[trigger] right.live(sizes, x, c, b) by {
                        assert(left.idle_block(sizes, x, c, b));
                        assert(right.cached(x, c, b) == left.cached(x, c, b));
                        assert(right.slab_of_class(sizes, x, c, segment_of(b as int) as usize));
                    }
                    assert forall|x: bool, c: int, b: usize|
                        0 <= c < sizes.len() && #[trigger] right.cached(x, c, b) implies left.cached(x, c, b) || b == 0 by {}
                }
                lemma_small_step(before, *self, heap as int, 0);
                assert forall|b: usize| #[trigger] before.loose(b) implies self.loose(b) by {
                    crate::allocator::blocks::lemma_at_address(&before.slabs, segment_of(b as int) as usize);
                    lemma_idle_segment(before.slabs@[segment_of(b as int) as usize], b as int);
                }
                lemma_entry_added(before, *self, slab, entry);
            }
        }
    }
}

/// What a heap hands out waits nowhere else and is not in use.
proof fn lemma_served_is_loose(before: Space, after: Space, heap: int, context: bool, class: int, block: usize)
    requires
        before.inv(),
        0 <= heap < before.heaps@.len(),
        0 <= class < before.sizes().len(),
        same_but_small(before, after, heap),
        after.out == before.out,
        alike(before.slabs@, after.slabs@),
        after.slabs.wf(),
        after.view_of(heap).live(before.sizes(), context, class, block),
        !before.view_of(heap).live(before.sizes(), context, class, block),
        after.view_of(heap).inv(before.sizes()),
        forall|other: int, b: usize|
            0 <= other < before.heaps@.len() && other != heap ==> #[trigger] after.cached_by(other, b) == before.cached_by(other, b),
        forall|remote: int, b: usize|
            0 <= remote < before.remotes@.len() ==> #[trigger] after.listed_by(remote, b) == before.listed_by(remote, b),
    ensures
        after.loose(block),
        !after.in_use(block),
{
    let sizes = before.sizes();
    let slab = segment_of(block as int) as usize;
    let view = before.view_of(heap);
    assert(before.slabs@.dom().contains(slab));
    assert(after.slabs@[slab].marker == before.slabs@[slab].marker);
    crate::allocator::blocks::lemma_marked(context, class, before.slabs@[slab].marker);
    crate::allocator::blocks::lemma_at_address(&before.slabs, slab);
    assert(view.slab_of_class(sizes, context, class, slab));
    if idle_in(before.slabs@[slab], block as int) && !before.cached_by(heap, block) {
        assert(view.idle_block(sizes, context, class, block));
        assert(!view.cached(context, class, block));
        assert(false);
    }
    assert forall|other: int| 0 <= other < after.heaps@.len() implies !#[trigger] after.cached_by(other, block) by {
        if after.cached_by(other, block) {
            let (x, c) = choose|x: bool, c: int| 0 <= c < sizes.len() && #[trigger] after.view_of(other).cached(x, c, block);
            if other == heap {
                assert(after.view_of(heap).hot_ok(sizes, x, c));
                assert(after.view_of(heap).idle_block(sizes, x, c, block));
                crate::allocator::blocks::lemma_marked(x, c, after.slabs@[slab].marker);
                assert(x == context && c == class);
                assert(false);
            } else {
                assert(before.cached_by(other, block));
                let (x2, c2) = choose|x2: bool, c2: int| 0 <= c2 < sizes.len() && #[trigger] before.view_of(other).cached(x2, c2, block);
                assert(before.heap_ok(other));
                assert(before.view_of(other).hot_ok(sizes, x2, c2));
                assert(before.view_of(other).idle_block(sizes, x2, c2, block));
                assert(!before.cached_by(heap, block));
                assert(false);
            }
        }
    }
    assert forall|remote: int| 0 <= remote < after.remotes@.len() implies !#[trigger] after.listed_by(remote, block) by {
        if after.listed_by(remote, block) {
            assert(before.listed_by(remote, block));
            let own = before.remotes@[remote];
            let (x, c) = choose|x: bool, c: int| 0 <= c < sizes.len() && #[trigger] own.list(x, c).contains(block);
            let position = choose|position: int| 0 <= position < own.list(x, c).len() && own.list(x, c)[position] == block;
            assert(own.inv(before.slabs@, sizes));
            assert(idle_at(before.slabs@, sizes, x, c, own.list(x, c)[position]));
            assert(!before.cached_by(heap, block));
            assert(false);
        }
    }
    if after.in_use(block) {
        let at = choose|at: int| 0 <= at < after.out@[slab].len() && (#[trigger] after.out@[slab][at]).block == block;
        assert(before.entries_ok(slab));
        assert(before.entry_ok(slab, at));
        assert(before.loose(block));
        assert(!before.cached_by(heap, block));
        assert(false);
    }
}

} // verus!
