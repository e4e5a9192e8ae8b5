//! Taking blocks back.

use vstd::prelude::*;

use crate::allocator::blocks::{lemma_at_address, push_block, push_remote_block};
use crate::allocator::classes::{allocation_segment, segment_of};
use crate::allocator::frames::{alike, lemma_total_remove, net_padding};
use crate::allocator::remote::idle_at;
use crate::allocator::serve::lemma_idle_segment;
use crate::allocator::slab::{lemma_total_padding, total_padding, RemoteFree};
use crate::allocator::small::SmallHeap;
use crate::allocator::space::{leaves_alone, lemma_small_step, same_but_small, Space};

verus! {

impl Space {
    /// Whether the entry at that place of a slab's entries is the block, as it was asked for.
    pub open spec fn is_entry(&self, at: int, block: usize, padding: int) -> bool {
        let slab = segment_of(block as int) as usize;
        &&& self.out@.dom().contains(slab)
        &&& 0 <= at < self.out@[slab].len()
        &&& self.out@[slab][at].block == block
        &&& self.out@[slab][at].padding == padding
    }

    /// Whether the block is in use and was asked for with so many bytes, from a slab of the class.
    pub open spec fn used_as(&self, block: usize, context: bool, class: int, requested_bytes: int) -> bool {
        &&& 0 <= class < self.sizes().len()
        &&& idle_at(self.slabs@, self.sizes(), context, class, block)
        &&& requested_bytes <= self.sizes()[class]
        &&& exists|at: int| #[trigger] self.is_entry(at, block, self.sizes()[class] - requested_bytes)
    }
}

/// Whether the block, and it alone, went from the blocks in use. The slabs are those that were there.
pub open spec fn went(before: Space, after: Space, block: usize, padding: int) -> bool {
    &&& alike(before.slabs@, after.slabs@)
    &&& exists|at: int|
        #[trigger] before.is_entry(at, block, padding) && after.out@ == without_entry(
            before.out@,
            segment_of(block as int) as usize,
            at,
        )
}

/// The blocks in use without the one at that place.
pub open spec fn without_entry(out: Map<usize, Seq<RemoteFree>>, slab: usize, at: int) -> Map<usize, Seq<RemoteFree>> {
    out.insert(slab, out[slab].remove(at))
}

/// What a slab has in use covers each of its entries.
pub proof fn lemma_entry_covered(space: Space, slab: usize, at: int)
    requires
        space.inv(),
        space.slabs@.dom().contains(slab),
        0 <= at < space.out@[slab].len(),
        !space.slabs@[slab].shared,
    ensures
        total_padding(space.slabs@[slab].remote) + space.out@[slab][at].padding <= space.slabs@[slab].padding,
{
    assert(space.entries_ok(slab));
    lemma_total_remove(space.out@[slab], at);
    lemma_total_padding(space.out@[slab].remove(at));
}

/// The blocks in use stay in order with one of them gone.
pub proof fn lemma_entry_removed(before: Space, after: Space, slab: usize, at: int)
    requires
        before.inv(),
        before.slabs@.dom().contains(slab),
        0 <= at < before.out@[slab].len(),
        after.out@ == without_entry(before.out@, slab, at),
        alike(before.slabs@, after.slabs@),
        forall|other: usize|
            before.slabs@.dom().contains(other) && other != slab && !before.slabs@[other].shared ==> net_padding(
                #[trigger] after.slabs@[other],
            ) == net_padding(before.slabs@[other]),
        !before.slabs@[slab].shared ==> net_padding(after.slabs@[slab]) == net_padding(before.slabs@[slab])
            - before.out@[slab][at].padding,
        forall|other: usize, place: int|
            #![trigger after.slabs@[other].remote[place]]
            before.slabs@.dom().contains(other) && 0 <= place < after.slabs@[other].remote.len() ==> after.slabs@[other].remote[place].padding
                <= before.slabs@[other].block_size,
        forall|block: usize| block != before.out@[slab][at].block && #[trigger] before.loose(block) ==> after.loose(block),
    ensures
        after.out_ok(),
        !after.in_use(before.out@[slab][at].block),
        forall|block: usize| block != before.out@[slab][at].block ==> #[trigger] after.in_use(block) == before.in_use(block),
{
    let gone = before.out@[slab][at].block;
    let entries = before.out@[slab];
    let fewer = entries.remove(at);
    assert(before.entries_ok(slab));
    assert(before.entry_ok(slab, at));
    assert(segment_of(gone as int) == slab);
    assert(after.out@.dom() =~= before.out@.dom());
    lemma_total_remove(entries, at);
    assert forall|place: int| 0 <= place < fewer.len() implies (#[trigger] fewer[place]).block != gone && fewer[place] == entries[if place < at {
        place
    } else {
        place + 1
    }] by {
        let source = if place < at {
            place
        } else {
            place + 1
        };
        assert(fewer[place] == entries[source]);
        if source < at {
            assert(entries[source].block != entries[at].block);
        } else {
            assert(entries[at].block != entries[source].block);
        }
    }
    assert forall|other: usize| #[trigger] after.slabs@.dom().contains(other) implies after.entries_ok(other) by {
        assert(before.slabs@.dom().contains(other));
        assert(before.entries_ok(other));
        if other == slab {
            assert forall|place: int| 0 <= place < after.out@[slab].len() implies #[trigger] after.entry_ok(slab, place) by {
                let source = if place < at {
                    place
                } else {
                    place + 1
                };
                assert(fewer[place] == entries[source]);
                assert(before.entry_ok(slab, source));
            }
            assert forall|left: int, right: int|
                #![trigger after.out@[slab][left], after.out@[slab][right]]
                0 <= left < right < after.out@[slab].len() implies after.out@[slab][left].block != after.out@[slab][right].block by {
                let first = if left < at {
                    left
                } else {
                    left + 1
                };
                let second = if right < at {
                    right
                } else {
                    right + 1
                };
                assert(fewer[left] == entries[first] && fewer[right] == entries[second]);
                assert(entries[first].block != entries[second].block);
            }
        } else {
            assert forall|place: int| 0 <= place < after.out@[other].len() implies #[trigger] after.entry_ok(other, place) by {
                assert(before.entry_ok(other, place));
                assert(before.out@[other][place].block != gone) by {
                    assert(segment_of(before.out@[other][place].block as int) == other);
                }
            }
        }
        assert forall|place: int| 0 <= place < after.slabs@[other].remote.len() implies (#[trigger] after.slabs@[other].remote[place]).padding
            <= after.slabs@[other].block_size by {}
    }
    if after.in_use(gone) {
        let place = choose|place: int| 0 <= place < after.out@[slab].len() && (#[trigger] after.out@[slab][place]).block == gone;
        assert(fewer[place].block != gone);
    }
    assert forall|block: usize| block != gone implies #[trigger] after.in_use(block) == before.in_use(block) by {
        let own = segment_of(block as int) as usize;
        if own == slab {
            if before.in_use(block) {
                let source = choose|place: int| 0 <= place < entries.len() && (#[trigger] entries[place]).block == block;
                let place = if source < at {
                    source
                } else {
                    source - 1
                };
                assert(source != at);
                assert(fewer[place] == entries[source]);
                assert(after.out@[slab][place].block == block);
            }
            if after.in_use(block) {
                let place = choose|place: int| 0 <= place < fewer.len() && (#[trigger] fewer[place]).block == block;
                let source = if place < at {
                    place
                } else {
                    place + 1
                };
                assert(entries[source].block == block);
            }
        }
    }
}

/// What giving a block back to a heap leaves of the slabs.
proof fn lemma_push_slabs(heap: SmallHeap, sizes: Seq<usize>, context: bool, class: int, block: usize, padding: int)
    requires
        heap.inv(sizes),
        0 <= class < sizes.len(),
        heap.slabs.dom().contains(segment_of(block as int) as usize),
    ensures
        ({
            let after = heap.push(context, class, block, padding).slabs;
            let slab = segment_of(block as int) as usize;
            &&& alike(heap.slabs, after)
            &&& forall|other: usize|
                heap.slabs.dom().contains(other) && other != slab ==> net_padding(#[trigger] after[other]) == net_padding(heap.slabs[other])
            &&& forall|other: usize| heap.slabs.dom().contains(other) ==> (#[trigger] after[other]).remote == heap.slabs[other].remote
            &&& !heap.slabs[slab].shared ==> net_padding(after[slab]) == net_padding(heap.slabs[slab]) - padding
        }),
{
    let after = heap.push(context, class, block, padding).slabs;
    let second = heap.hot(context, class).cached_second;
    assert(heap.hot_ok(sizes, context, class));
    if second != 0 {
        assert(heap.idle_block(sizes, context, class, second));
        assert(heap.slabs.dom().contains(segment_of(second as int) as usize));
    }
    assert(after.dom() =~= heap.slabs.dom());
}

impl Space {
    /// Gives a block in use back to a heap's cache. What the cache had longest goes back to its
    /// slab.
    pub fn push_small(&mut self, heap: usize, context: bool, class: usize, block: usize, requested_bytes: usize)
        requires
            old(self).inv(),
            heap < old(self).heaps@.len(),
            old(self).used_as(block, context, class as int, requested_bytes as int),
        ensures
            final(self).inv(),
            same_but_small(*old(self), *final(self), heap as int),
            final(self).view_of(heap as int) == old(self).view_of(heap as int).push(
                context,
                class as int,
                block,
                old(self).sizes()[class as int] - requested_bytes,
            ),
            went(*old(self), *final(self), block, old(self).sizes()[class as int] - requested_bytes),
            !final(self).in_use(block),
            forall|other: usize| other != block ==> #[trigger] final(self).in_use(other) == old(self).in_use(other),
            forall|other: usize| other != block && #[trigger] old(self).loose(other) ==> final(self).loose(other),
    {
        let ghost before = *self;
        let ghost sizes = self.sizes();
        let slab: usize = allocation_segment(block);
        let padding: usize = self.tuning.sizes[class] - requested_bytes;
        let ghost entry = choose|at: int| #[trigger] before.is_entry(at, block, padding as int);
        proof {
            assert(before.heap_ok(heap as int));
            assert(before.is_entry(entry, block, padding as int));
            assert(before.entries_ok(slab));
            assert(before.entry_ok(slab, entry));
            assert(before.loose(block));
            assert(!before.cached_by(heap as int, block));
            assert(!before.view_of(heap as int).cached(context, class as int, block));
            if !before.slabs@[slab].shared {
                lemma_entry_covered(before, slab, entry);
            }
        }
        push_block(&mut self.heaps[heap].small, &mut self.slabs, &self.tuning, context, class, block, padding);
        proof {
            let view = before.view_of(heap as int);
            let after = self.view_of(heap as int);
            self.out@ = without_entry(before.out@, slab, entry);
            lemma_push_slabs(view, sizes, context, class as int, block, padding as int);
            lemma_at_address(&before.slabs, slab);
            lemma_idle_segment(before.slabs@[slab], block as int);
            assert(leaves_alone(before, *self, heap as int, block)) by {
                assert forall|x: bool, c: int, other: usize|
                    0 <= c < sizes.len() && #[trigger] after.cached(x, c, other) implies view.cached(x, c, other) || other == block by {}
            }
            lemma_small_step(before, *self, heap as int, block);
            lemma_entry_removed(before, *self, slab, entry);
        }
    }

    /// Leaves a block in use for the heap that its slab belongs to, which drains it later.
    pub fn queue_small(&mut self, heap: usize, context: bool, class: usize, block: usize, requested_bytes: usize)
        requires
            old(self).inv(),
            heap < old(self).heaps@.len(),
            old(self).used_as(block, context, class as int, requested_bytes as int),
            !old(self).slabs@[segment_of(block as int) as usize].shared,
        ensures
            final(self).inv(),
            same_but_small(*old(self), *final(self), heap as int),
            final(self).view_of(heap as int) == old(self).view_of(heap as int).push_remote(
                block,
                (old(self).sizes()[class as int] - requested_bytes) as usize,
            ),
            went(*old(self), *final(self), block, old(self).sizes()[class as int] - requested_bytes),
            !final(self).in_use(block),
            forall|other: usize| other != block ==> #[trigger] final(self).in_use(other) == old(self).in_use(other),
            forall|other: usize| other != block && #[trigger] old(self).loose(other) ==> final(self).loose(other),
    {
        let ghost before = *self;
        let ghost sizes = self.sizes();
        let slab: usize = allocation_segment(block);
        let padding: usize = self.tuning.sizes[class] - requested_bytes;
        let ghost entry = choose|at: int| #[trigger] before.is_entry(at, block, padding as int);
        proof {
            assert(before.heap_ok(heap as int));
            assert(before.is_entry(entry, block, padding as int));
            assert(before.entries_ok(slab));
            assert(before.entry_ok(slab, entry));
            assert(before.loose(block));
            assert(!before.cached_by(heap as int, block));
            assert(!before.view_of(heap as int).cached(context, class as int, block));
            lemma_entry_covered(before, slab, entry);
        }
        push_remote_block(&mut self.heaps[heap].small, &mut self.slabs, &self.tuning, context, class, block, padding);
        proof {
            let view = before.view_of(heap as int);
            let after = self.view_of(heap as int);
            let model = before.slabs@[slab];
            let queued = self.slabs@[slab];
            self.out@ = without_entry(before.out@, slab, entry);
            lemma_at_address(&before.slabs, slab);
            lemma_idle_segment(model, block as int);
            assert(self.slabs@ == before.slabs@.insert(slab, queued));
            assert(queued.remote == model.remote.push(RemoteFree { block, padding }));
            assert(queued.remote.drop_last() =~= model.remote);
            assert(self.slabs@.dom() =~= before.slabs@.dom());
            assert(alike(before.slabs@, self.slabs@));
            assert(leaves_alone(before, *self, heap as int, block)) by {
                assert forall|x: bool, c: int, other: usize|
                    0 <= c < sizes.len() && #[trigger] after.cached(x, c, other) implies view.cached(x, c, other) || other == block by {}
            }
            lemma_small_step(before, *self, heap as int, block);
            assert forall|other: usize, place: int|
                #![trigger self.slabs@[other].remote[place]]
                before.slabs@.dom().contains(other) && 0 <= place < self.slabs@[other].remote.len() implies self.slabs@[other].remote[place].padding
                <= before.slabs@[other].block_size by {
                assert(before.entries_ok(other));
                if place < before.slabs@[other].remote.len() {
                    assert(before.slabs@[other].remote[place].padding <= before.slabs@[other].block_size);
                    assert(self.slabs@[other].remote[place] == before.slabs@[other].remote[place]);
                }
            }
            lemma_entry_removed(before, *self, slab, entry);
        }
    }
}

} // verus!
