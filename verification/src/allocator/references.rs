//! Which slabs a heap's lists name.

use vstd::prelude::*;

use crate::allocator::blocks::{
    lemma_after_active, lemma_after_select, lemma_drain_inbox, lemma_drain_slab, lemma_most_free,
    lemma_take_idle, lemma_without_active,
};
use crate::allocator::classes::segment_of;
use crate::allocator::refill::refilled;
use crate::allocator::segments::classes_kept;
use crate::allocator::slab::SLAB_SIZE;
use crate::allocator::small::{marked_class, marks_context, most_free, small, SmallHeap, SmallState};
use crate::allocator::space::Space;
use crate::allocator::table::SlabTable;
use crate::tunables::valid_sizes;

verus! {

impl SmallHeap {
    /// Whether the lists of the class name the slab, or a block of it.
    pub open spec fn names(self, context: bool, class: int, slab: usize) -> bool {
        let hot = self.hot(context, class);
        ||| hot.active == slab
        ||| self.partial(context, class).contains(slab)
        ||| hot.cached_first != 0 && segment_of(hot.cached_first as int) == slab
        ||| hot.cached_second != 0 && segment_of(hot.cached_second as int) == slab
    }

    /// Whether the heap names the slab, or a block of it.
    pub open spec fn refers(self, classes: int, slab: usize) -> bool {
        slab != 0 && (self.inbox.contains(slab) || exists|context: bool, class: int|
            0 <= class < classes && #[trigger] self.names(context, class, slab))
    }
}

/// Whether the heap names nothing more.
pub open spec fn refers_less(before: SmallHeap, after: SmallHeap, classes: int) -> bool {
    forall|slab: usize| #[trigger] after.refers(classes, slab) ==> before.refers(classes, slab)
}

/// Whether the heap names nothing more but the one slab.
pub open spec fn refers_but(before: SmallHeap, after: SmallHeap, classes: int, own: usize) -> bool {
    forall|slab: usize| #[trigger] after.refers(classes, slab) && slab != own ==> before.refers(classes, slab)
}

/// The lists of one class change, and name nothing but what the heap named, or the one slab.
proof fn lemma_one_class(before: SmallHeap, after: SmallHeap, classes: int, context: bool, class: int, own: usize)
    requires
        0 <= class < classes,
        forall|slab: usize| after.inbox.contains(slab) ==> before.inbox.contains(slab),
        forall|x: bool, c: int|
            0 <= c < classes && (x != context || c != class) ==> #[trigger] after.hot(x, c) == before.hot(x, c),
        forall|x: bool, c: int|
            0 <= c < classes && (x != context || c != class) ==> #[trigger] after.partial(x, c) == before.partial(x, c),
        forall|slab: usize|
            slab != 0 && slab != own && #[trigger] after.names(context, class, slab) ==> before.refers(classes, slab),
    ensures
        refers_but(before, after, classes, own),
{
    assert forall|slab: usize| #[trigger] after.refers(classes, slab) && slab != own implies before.refers(classes, slab) by {
        if !after.inbox.contains(slab) {
            let (x, c) = choose|x: bool, c: int| 0 <= c < classes && #[trigger] after.names(x, c, slab);
            if x != context || c != class {
                assert(after.hot(x, c) == before.hot(x, c));
                assert(after.partial(x, c) == before.partial(x, c));
                assert(before.names(x, c, slab));
            }
        }
    }
}

proof fn lemma_same_lists(before: SmallHeap, after: SmallHeap, classes: int)
    requires
        after.classes == before.classes,
        after.context == before.context,
        forall|slab: usize| after.inbox.contains(slab) ==> before.inbox.contains(slab),
    ensures
        refers_less(before, after, classes),
{
    assert forall|slab: usize| #[trigger] after.refers(classes, slab) implies before.refers(classes, slab) by {
        if !after.inbox.contains(slab) {
            let (x, c) = choose|x: bool, c: int| 0 <= c < classes && #[trigger] after.names(x, c, slab);
            assert(before.names(x, c, slab));
        }
    }
}

proof fn lemma_less_then(first: SmallHeap, second: SmallHeap, third: SmallHeap, classes: int)
    requires
        refers_less(first, second, classes),
        refers_less(second, third, classes),
    ensures
        refers_less(first, third, classes),
{
}

/// Draining a slab names that slab at most.
proof fn lemma_drain_names(heap: SmallHeap, sizes: Seq<usize>, address: usize)
    requires
        heap.inv(sizes),
        valid_sizes(sizes),
        heap.slab_of_some_class(sizes, address),
    ensures
        refers_but(heap, heap.drain_slab(address), sizes.len() as int, address),
{
    lemma_drain_slab(heap, sizes, address);
    let after = heap.drain_slab(address);
    let slab = heap.slabs[address];
    let context = marks_context(slab.marker);
    let class = marked_class(slab.marker);
    let partial = heap.partial(context, class);
    if after.classes == heap.classes && after.context == heap.context {
        lemma_same_lists(heap, after, sizes.len() as int);
    } else {
        assert(after.partial(context, class) == partial.push(address));
        assert forall|other: usize| other != 0 && other != address && #[trigger] after.names(context, class, other) implies heap.refers(
            sizes.len() as int,
            other,
        ) by {
            if after.partial(context, class).contains(other) {
                let at = choose|at: int| 0 <= at < partial.push(address).len() && partial.push(address)[at] == other;
                assert(partial[at] == other);
            }
            assert(heap.names(context, class, other));
        }
        lemma_one_class(heap, after, sizes.len() as int, context, class, address);
    }
}

/// Draining slabs names those slabs at most.
proof fn lemma_drains_name(heap: SmallHeap, sizes: Seq<usize>, list: Seq<usize>)
    requires
        heap.inv(sizes),
        valid_sizes(sizes),
        forall|position: int| 0 <= position < list.len() ==> heap.slab_of_some_class(sizes, #[trigger] list[position]),
    ensures
        forall|slab: usize|
            #[trigger] heap.drain_list(list).refers(sizes.len() as int, slab) ==> heap.refers(sizes.len() as int, slab) || list.contains(
                slab,
            ),
    decreases list.len(),
{
    if list.len() > 0 {
        let address = list.last();
        let rest = list.drop_last();
        let next = heap.drain_slab(address);
        assert(heap.slab_of_some_class(sizes, list[list.len() - 1]));
        lemma_drain_slab(heap, sizes, address);
        lemma_drain_names(heap, sizes, address);
        assert forall|position: int| 0 <= position < rest.len() implies next.slab_of_some_class(sizes, #[trigger] rest[position]) by {
            assert(heap.slab_of_some_class(sizes, list[position]));
        }
        lemma_drains_name(next, sizes, rest);
        assert(heap.drain_list(list) == next.drain_list(rest));
        assert forall|slab: usize| #[trigger] heap.drain_list(list).refers(sizes.len() as int, slab) implies heap.refers(
            sizes.len() as int,
            slab,
        ) || list.contains(slab) by {
            assert(next.drain_list(rest).refers(sizes.len() as int, slab));
            if rest.contains(slab) {
                let at = choose|at: int| 0 <= at < rest.len() && rest[at] == slab;
                assert(list[at] == slab);
            } else if slab == address {
                assert(list[list.len() - 1] == slab);
            }
        }
    }
}

/// The block that the active slab hands out lies in that slab.
proof fn lemma_active_segment(heap: SmallHeap, sizes: Seq<usize>, context: bool, class: int)
    requires
        heap.inv(sizes),
        valid_sizes(sizes),
        0 <= class < sizes.len(),
        heap.active_block(context, class) != 0,
    ensures
        heap.hot(context, class).active != 0,
        segment_of(heap.active_block(context, class)) == heap.hot(context, class).active,
{
    let active = heap.hot(context, class).active;
    let slab = heap.slabs[active];
    let block = heap.active_block(context, class);
    assert(heap.hot_ok(sizes, context, class));
    assert(heap.slab_of_class(sizes, context, class, active));
    lemma_take_idle(slab, 1);
    assert(slab.address < block < slab.address + SLAB_SIZE);
    let size = SLAB_SIZE as int;
    vstd::arithmetic::div_mod::lemma_fundamental_div_mod(slab.address, size);
    vstd::arithmetic::div_mod::lemma_fundamental_div_mod_converse(block, size, slab.address / size, block - slab.address);
}

/// Taking a block names nothing more, and the block lies in a slab that was named.
pub proof fn lemma_pop_names(heap: SmallHeap, sizes: Seq<usize>, context: bool, class: int, batch_limit: int, scan_limit: int)
    requires
        heap.inv(sizes),
        valid_sizes(sizes),
        0 <= class < sizes.len(),
    ensures
        refers_less(heap, heap.pop(context, class, batch_limit, scan_limit).1, sizes.len() as int),
        ({
            let slab = segment_of(heap.pop(context, class, batch_limit, scan_limit).0) as usize;
            heap.pop(context, class, batch_limit, scan_limit).0 != 0 && slab != 0 ==> heap.refers(sizes.len() as int, slab)
        }),
{
    let n = sizes.len() as int;
    let after = heap.pop(context, class, batch_limit, scan_limit).1;
    let hot = heap.hot(context, class);
    if hot.cached_first != 0 {
        assert(heap.names(context, class, segment_of(hot.cached_first as int) as usize));
        assert forall|slab: usize| slab != 0 && slab != 0 && #[trigger] after.names(context, class, slab) implies heap.refers(n, slab) by {
            assert(heap.names(context, class, slab));
        }
        lemma_one_class(heap, after, n, context, class, 0);
    } else if heap.active_block(context, class) != 0 {
        lemma_same_lists(heap, after, n);
        lemma_active_segment(heap, sizes, context, class);
        assert(heap.names(context, class, hot.active));
    } else {
        let taken = heap.after_active(context, class, batch_limit);
        lemma_after_active(heap, sizes, context, class, batch_limit);
        lemma_same_lists(heap, taken, n);
        let emptied = taken.without_active(context, class);
        lemma_without_active(taken, sizes, context, class);
        assert forall|slab: usize| slab != 0 && slab != 0 && #[trigger] emptied.names(context, class, slab) implies taken.refers(n, slab) by {
            assert(taken.names(context, class, slab));
        }
        lemma_one_class(taken, emptied, n, context, class, 0);
        lemma_less_then(heap, taken, emptied, n);
        let searched = emptied.before_select(context, class, scan_limit);
        assert(refers_less(emptied, searched, n)) by {
            if !emptied.can_select(context, class, scan_limit) {
                let unlisted = SmallHeap { inbox: Seq::empty(), ..emptied };
                lemma_same_lists(emptied, unlisted, n);
                assert(unlisted.inv(sizes)) by {
                    assert forall|x: bool, c: int| 0 <= c < sizes.len() implies #[trigger] unlisted.hot_ok(sizes, x, c) by {
                        assert(emptied.hot_ok(sizes, x, c));
                    }
                    assert forall|x: bool, c: int| 0 <= c < sizes.len() implies #[trigger] unlisted.partial_ok(sizes, x, c) by {
                        assert(emptied.partial_ok(sizes, x, c));
                    }
                }
                assert forall|position: int| 0 <= position < emptied.inbox.len() implies unlisted.slab_of_some_class(
                    sizes,
                    #[trigger] emptied.inbox[position],
                ) by {
                    assert(emptied.slab_of_some_class(sizes, emptied.inbox[position]));
                    let (x, c) = choose|x: bool, c: int|
                        0 <= c < sizes.len() && #[trigger] emptied.slab_of_class(sizes, x, c, emptied.inbox[position]);
                    assert(unlisted.slab_of_class(sizes, x, c, emptied.inbox[position]));
                }
                lemma_drains_name(unlisted, sizes, emptied.inbox);
            }
        }
        lemma_less_then(heap, emptied, searched, n);
        let selected = searched.after_select(context, class, scan_limit);
        assert(refers_less(searched, selected, n)) by {
            let partial = searched.partial(context, class);
            if let Some(best) = most_free(partial, searched.slabs, scan_limit) {
                assert(searched.shape()) by {
                    if !emptied.can_select(context, class, scan_limit) {
                        lemma_drain_inbox(emptied, sizes);
                    }
                }
                lemma_most_free(partial, searched.slabs, scan_limit);
                let position = partial.len() - 1 - best;
                assert forall|slab: usize| slab != 0 && slab != 0 && #[trigger] selected.names(context, class, slab) implies searched.refers(
                    n,
                    slab,
                ) by {
                    if partial.remove(position).contains(slab) {
                        let at = choose|at: int| 0 <= at < partial.remove(position).len() && partial.remove(position)[at] == slab;
                        let old_at = if at < position {
                            at
                        } else {
                            at + 1
                        };
                        assert(partial[old_at] == slab);
                    }
                    assert(searched.names(context, class, slab));
                }
                lemma_one_class(searched, selected, n, context, class, 0);
            }
        }
        lemma_less_then(heap, searched, selected, n);
        lemma_same_lists(selected, after, n);
        lemma_less_then(heap, selected, after, n);
        if selected.active_block(context, class) != 0 {
            lemma_drain_inbox(emptied, sizes);
            lemma_after_select(searched, sizes, context, class, scan_limit);
            lemma_active_segment(selected, sizes, context, class);
            assert(selected.names(context, class, selected.hot(context, class).active));
            assert(selected.refers(n, selected.hot(context, class).active));
        }
    }
}

/// Caching a block names its slab at most.
pub proof fn lemma_push_names(heap: SmallHeap, sizes: Seq<usize>, context: bool, class: int, block: usize, padding: int)
    requires
        heap.shape(),
        valid_sizes(sizes),
        0 <= class < sizes.len(),
    ensures
        refers_but(heap, heap.push(context, class, block, padding), sizes.len() as int, segment_of(block as int) as usize),
{
    let n = sizes.len() as int;
    let after = heap.push(context, class, block, padding);
    let hot = heap.hot(context, class);
    let partial = heap.partial(context, class);
    let own = segment_of(block as int) as usize;
    assert(segment_of(block as int) >= 0) by (nonlinear_arith)
        requires
            segment_of(block as int) == block - block as int % 32768,
    ;
    assert forall|slab: usize| slab != 0 && slab != own && #[trigger] after.names(context, class, slab) implies heap.refers(n, slab) by {
        if after.partial(context, class).contains(slab) && !partial.contains(slab) {
            let gone = segment_of(hot.cached_second as int) as usize;
            let at = choose|at: int| 0 <= at < partial.push(gone).len() && partial.push(gone)[at] == slab;
            if at < partial.len() {
                assert(partial[at] == slab);
            }
            assert(segment_of(hot.cached_second as int) >= 0) by (nonlinear_arith)
                requires
                    segment_of(hot.cached_second as int) == hot.cached_second - hot.cached_second as int % 32768,
            ;
        }
        assert(heap.names(context, class, slab));
    }
    lemma_one_class(heap, after, n, context, class, own);
}

/// Queueing a block names its slab at most.
pub proof fn lemma_queue_names(heap: SmallHeap, classes: int, block: usize, padding: usize)
    ensures
        refers_but(heap, heap.push_remote(block, padding), classes, segment_of(block as int) as usize),
{
    let after = heap.push_remote(block, padding);
    let own = segment_of(block as int) as usize;
    assert forall|slab: usize| #[trigger] after.refers(classes, slab) && slab != own implies heap.refers(classes, slab) by {
        if after.inbox.contains(slab) {
            let at = choose|at: int| 0 <= at < after.inbox.len() && after.inbox[at] == slab;
            assert(heap.inbox[at] == slab);
        } else {
            let (x, c) = choose|x: bool, c: int| 0 <= c < classes && #[trigger] after.names(x, c, slab);
            assert(heap.names(x, c, slab));
        }
    }
}

/// A new slab is named, and nothing else.
pub proof fn lemma_refill_names(heap: SmallHeap, sizes: Seq<usize>, context: bool, class: int, address: usize, owner: usize)
    requires
        heap.shape(),
        valid_sizes(sizes),
        0 <= class < sizes.len(),
    ensures
        refers_but(heap, refilled(heap, sizes, context, class, address, owner), sizes.len() as int, address),
{
    let after = refilled(heap, sizes, context, class, address, owner);
    assert forall|slab: usize| slab != 0 && slab != address && #[trigger] after.names(context, class, slab) implies heap.refers(
        sizes.len() as int,
        slab,
    ) by {
        assert(heap.names(context, class, slab));
    }
    lemma_one_class(heap, after, sizes.len() as int, context, class, address);
}

/// Whether the heap's lists name the slab, or a block of it.
pub open spec fn small_refers(state: &SmallState, classes: int, slab: usize) -> bool {
    (SmallHeap { classes: state.classes@, context: state.context_classes@, inbox: state.inbox@, slabs: Map::empty() }).refers(
        classes,
        slab,
    )
}

/// What a heap's lists name does not hang on the slabs.
pub proof fn lemma_refers_view(state: &SmallState, slabs: &SlabTable, classes: int, slab: usize)
    ensures
        small(state, slabs).refers(classes, slab) == small_refers(state, classes, slab),
{
    let bare = SmallHeap { classes: state.classes@, context: state.context_classes@, inbox: state.inbox@, slabs: Map::empty() };
    let view = small(state, slabs);
    if bare.refers(classes, slab) && !bare.inbox.contains(slab) {
        let (x, c) = choose|x: bool, c: int| 0 <= c < classes && #[trigger] bare.names(x, c, slab);
        assert(view.names(x, c, slab));
    }
    if view.refers(classes, slab) && !view.inbox.contains(slab) {
        let (x, c) = choose|x: bool, c: int| 0 <= c < classes && #[trigger] view.names(x, c, slab);
        assert(bare.names(x, c, slab));
    }
}

impl Space {
    /// Whether the heap names the slab, or a block of it.
    pub open spec fn heap_refers(&self, heap: int, slab: usize) -> bool {
        small_refers(&self.heaps@[heap].small, self.sizes().len() as int, slab)
    }

    /// Whether no heap names a slab that is another heap's.
    pub open spec fn refs_owned(&self) -> bool {
        forall|heap: int, slab: usize|
            0 <= heap < self.heaps@.len() && #[trigger] self.heap_refers(heap, slab) ==> {
                &&& self.slabs@.dom().contains(slab)
                &&& self.slabs@[slab].shared || self.slabs@[slab].owner == self.heaps@[heap].address
            }
    }
}

/// Whether no heap names anything more, but for the one slab that the one heap may.
pub open spec fn refs_kept(before: Space, after: Space, own: int, slab: usize) -> bool {
    forall|heap: int, other: usize|
        0 <= heap < after.heaps@.len() && #[trigger] after.heap_refers(heap, other) ==> (heap < before.heaps@.len() && before.heap_refers(
            heap,
            other,
        )) || (heap == own && other == slab)
}

/// No heap names another heap's slab where none names anything more but a slab of its own.
pub proof fn lemma_refs_go_on(before: Space, after: Space, own: int, slab: usize)
    requires
        before.refs_owned(),
        after.sizes() == before.sizes(),
        classes_kept(before.slabs@, after.slabs@),
        refs_kept(before, after, own, slab),
        before.heaps@.len() <= after.heaps@.len(),
        forall|at: int| 0 <= at < before.heaps@.len() ==> (#[trigger] after.heaps@[at]).address == before.heaps@[at].address,
        0 <= own < after.heaps@.len() ==> after.slabs@.dom().contains(slab) && (after.slabs@[slab].shared || after.slabs@[slab].owner
            == after.heaps@[own].address),
    ensures
        after.refs_owned(),
{
    assert forall|heap: int, other: usize| 0 <= heap < after.heaps@.len() && #[trigger] after.heap_refers(heap, other) implies {
        &&& after.slabs@.dom().contains(other)
        &&& after.slabs@[other].shared || after.slabs@[other].owner == after.heaps@[heap].address
    } by {
        if heap < before.heaps@.len() && before.heap_refers(heap, other) {
            assert(before.slabs@.dom().contains(other));
            assert(after.heaps@[heap].address == before.heaps@[heap].address);
        }
    }
}

/// The heap's work names nothing more but the slab.
pub proof fn lemma_refs_of_heap(before: Space, after: Space, heap: int, slab: usize)
    requires
        0 <= heap < before.heaps@.len(),
        after.sizes() == before.sizes(),
        after.heaps@.len() == before.heaps@.len(),
        forall|other: int|
            #![trigger after.heaps@[other]]
            0 <= other < before.heaps@.len() && other != heap ==> after.heaps@[other].small == before.heaps@[other].small,
        refers_but(before.view_of(heap), after.view_of(heap), before.sizes().len() as int, slab),
    ensures
        refs_kept(before, after, heap, slab),
{
    assert forall|at: int, other: usize| 0 <= at < after.heaps@.len() && #[trigger] after.heap_refers(at, other) implies (at
        < before.heaps@.len() && before.heap_refers(at, other)) || (at == heap && other == slab) by {
        if at == heap {
            lemma_refers_view(&after.heaps@[heap].small, &after.slabs, after.sizes().len() as int, other);
            lemma_refers_view(&before.heaps@[heap].small, &before.slabs, before.sizes().len() as int, other);
        } else {
            assert(after.heaps@[at].small == before.heaps@[at].small);
        }
    }
}

} // verus!
