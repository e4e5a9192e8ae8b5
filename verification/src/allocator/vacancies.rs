//! Slabs that no block of is in use, on their way out of the table.

use vstd::prelude::*;

use crate::allocator::blocks::{idle_in, lemma_at_address};
use crate::allocator::classes::{allocation_segment, segment_of};
use crate::allocator::frames::steady;
use crate::allocator::mediums::mediums_kept;
use crate::allocator::references::{lemma_refers_view, lemma_refs_of_heap, refers_less, refs_kept};
use crate::allocator::remote::{idle_at, lemma_remote_kept};
use crate::allocator::serve::{lemma_idle_segment, lemma_out_steady};
use crate::allocator::serving::step_kept;
use crate::allocator::slab::{lemma_blocks, lemma_index_of, SlabModel, SLAB_SIZE};
use crate::allocator::small::{marked_class, marks_context, small, ClassHot, ClassSet, SmallHeap, SmallState};
use crate::allocator::space::{
    bump_ok, classed, is_domain, leaves_alone, lemma_small_step, locality_held, same_but_small, slab_placed,
    Space,
};
use crate::allocator::usage::{lemma_live_count, live_blocks, slab_sums};
use crate::allocator::uses::{lemma_whole_goes_on, smalls_kept};
use crate::tunables::{valid_sizes, MAX_SIZE_CLASSES};

verus! {

/// The block, or 0 where it lies in the slab.
pub open spec fn outside(block: usize, slab: usize) -> usize {
    if block != 0 && segment_of(block as int) == slab {
        0
    } else {
        block
    }
}

impl ClassHot {
    /// The blocks and the slab, but for what is of the one slab.
    pub open spec fn without(self, slab: usize) -> ClassHot {
        let first = outside(self.cached_first, slab);
        let second = outside(self.cached_second, slab);
        ClassHot {
            cached_first: if first == 0 {
                second
            } else {
                first
            },
            cached_second: if first == 0 {
                0
            } else {
                second
            },
            active: if self.active == slab {
                0
            } else {
                self.active
            },
        }
    }

    fn forget(self, slab: usize) -> (hot: ClassHot)
        ensures
            hot == self.without(slab),
    {
        let first: usize = if self.cached_first != 0 && allocation_segment(self.cached_first) == slab {
            0
        } else {
            self.cached_first
        };
        let second: usize = if self.cached_second != 0 && allocation_segment(self.cached_second) == slab {
            0
        } else {
            self.cached_second
        };
        let active: usize = if self.active == slab {
            0
        } else {
            self.active
        };
        if first == 0 {
            ClassHot { cached_first: second, cached_second: 0, active }
        } else {
            ClassHot { cached_first: first, cached_second: second, active }
        }
    }
}

/// The list without the slab, in its order.
pub open spec fn omitted(list: Seq<usize>, slab: usize) -> Seq<usize>
    decreases list.len(),
{
    if list.len() == 0 {
        list
    } else {
        let rest = omitted(list.drop_last(), slab);
        if list.last() == slab {
            rest
        } else {
            rest.push(list.last())
        }
    }
}

/// Whether the one list is the other without the slab.
pub open spec fn left_out(before: Seq<usize>, after: Seq<usize>, slab: usize) -> bool {
    &&& after == omitted(before, slab)
    &&& forall|other: usize| #[trigger] after.contains(other) <==> before.contains(other) && other != slab
}

/// The list without the slab.
fn leave_out(list: &Vec<usize>, slab: usize) -> (rest: Vec<usize>)
    ensures
        left_out(list@, rest@, slab),
{
    let mut rest: Vec<usize> = Vec::new();
    let mut at: usize = 0;
    assert(list@.take(0) =~= rest@);
    while at < list.len()
        invariant
            at <= list@.len(),
            left_out(list@.take(at as int), rest@, slab),
        decreases list@.len() - at,
    {
        let ghost before = rest@;
        let ghost seen = list@.take(at as int);
        let item: usize = list[at];
        if item != slab {
            rest.push(item);
        }
        proof {
            let now = list@.take(at + 1);
            assert(now =~= seen.push(item));
            assert(now.drop_last() =~= seen);
            assert(rest@ =~= omitted(now, slab));
            assert forall|other: usize| #[trigger] rest@.contains(other) <==> now.contains(other) && other != slab by {
                if seen.contains(other) {
                    let i = choose|i: int| 0 <= i < seen.len() && seen[i] == other;
                    assert(now[i] == other);
                    if other != slab {
                        assert(before.contains(other));
                        let j = choose|j: int| 0 <= j < before.len() && before[j] == other;
                        assert(rest@[j] == other);
                    }
                }
                if now.contains(other) && !seen.contains(other) {
                    let i = choose|i: int| 0 <= i < now.len() && now[i] == other;
                    if i < seen.len() {
                        assert(seen[i] == other);
                    }
                    if other != slab {
                        assert(rest@[before.len() as int] == other);
                    }
                }
                if rest@.contains(other) {
                    let j = choose|j: int| 0 <= j < rest@.len() && rest@[j] == other;
                    if j < before.len() {
                        assert(before[j] == other);
                        assert(before.contains(other));
                    } else {
                        assert(now[seen.len() as int] == other);
                    }
                }
            }
        }
        at = at + 1;
    }
    assert(list@.take(at as int) =~= list@);
    rest
}

impl ClassSet {
    /// Takes a slab out of the lists.
    fn forget(&mut self, slab: usize)
        requires
            old(self)@.hot.len() == MAX_SIZE_CLASSES,
            old(self)@.partial.len() == MAX_SIZE_CLASSES,
        ensures
            final(self)@.hot.len() == MAX_SIZE_CLASSES,
            final(self)@.partial.len() == MAX_SIZE_CLASSES,
            forall|class: int| 0 <= class < MAX_SIZE_CLASSES ==> #[trigger] final(self)@.hot[class] == old(self)@.hot[class].without(slab),
            forall|class: int|
                0 <= class < MAX_SIZE_CLASSES ==> left_out(old(self)@.partial[class], #[trigger] final(self)@.partial[class], slab),
    {
        let ghost before = *self;
        let mut class: usize = 0;
        while class < MAX_SIZE_CLASSES
            invariant
                class <= MAX_SIZE_CLASSES,
                before@.hot.len() == MAX_SIZE_CLASSES,
                before@.partial.len() == MAX_SIZE_CLASSES,
                self.hot@.len() == MAX_SIZE_CLASSES,
                self.partial@.len() == MAX_SIZE_CLASSES,
                forall|at: int|
                    0 <= at < MAX_SIZE_CLASSES ==> #[trigger] self.hot@[at] == if at < class {
                        before.hot@[at].without(slab)
                    } else {
                        before.hot@[at]
                    },
                forall|at: int| 0 <= at < class ==> left_out(before.partial@[at]@, (#[trigger] self.partial@[at])@, slab),
                forall|at: int| class <= at < MAX_SIZE_CLASSES ==> #[trigger] self.partial@[at] == before.partial@[at],
            decreases MAX_SIZE_CLASSES - class,
        {
            let hot: ClassHot = self.hot[class].forget(slab);
            self.hot[class] = hot;
            let partial: Vec<usize> = leave_out(&self.partial[class], slab);
            self.partial[class] = partial;
            class = class + 1;
        }
        proof {
            assert forall|at: int| 0 <= at < MAX_SIZE_CLASSES implies left_out(before@.partial[at], #[trigger] self@.partial[at], slab) by {
                assert(left_out(before.partial@[at]@, self.partial@[at]@, slab));
            }
        }
    }
}

/// Whether the one heap is the other without the slab in its lists.
pub open spec fn forgets(before: SmallHeap, after: SmallHeap, slab: usize) -> bool {
    &&& after.slabs == before.slabs
    &&& after.shape()
    &&& left_out(before.inbox, after.inbox, slab)
    &&& forall|context: bool, class: int|
        0 <= class < MAX_SIZE_CLASSES ==> #[trigger] after.hot(context, class) == before.hot(context, class).without(slab)
    &&& forall|context: bool, class: int|
        0 <= class < MAX_SIZE_CLASSES ==> left_out(before.partial(context, class), #[trigger] after.partial(context, class), slab)
}

/// What of the list is among the slabs, in its order.
pub open spec fn kept_in(list: Seq<usize>, slabs: Set<usize>) -> Seq<usize>
    decreases list.len(),
{
    if list.len() == 0 {
        list
    } else {
        let rest = kept_in(list.drop_last(), slabs);
        if slabs.contains(list.last()) {
            rest.push(list.last())
        } else {
            rest
        }
    }
}

/// The block, or 0 where it lies in none of the slabs.
pub open spec fn inside(block: usize, slabs: Set<usize>) -> usize {
    if block != 0 && !slabs.contains(segment_of(block as int) as usize) {
        0
    } else {
        block
    }
}

impl ClassHot {
    /// The blocks and the slab, as far as they are of the slabs.
    pub open spec fn kept_in(self, slabs: Set<usize>) -> ClassHot {
        let first = inside(self.cached_first, slabs);
        let second = inside(self.cached_second, slabs);
        ClassHot {
            cached_first: if first == 0 {
                second
            } else {
                first
            },
            cached_second: if first == 0 {
                0
            } else {
                second
            },
            active: if slabs.contains(self.active) {
                self.active
            } else {
                0
            },
        }
    }
}

/// Whether the lists of the one heap are those of the other, as far as they name the slabs.
pub open spec fn lists_kept(before: SmallHeap, after: SmallHeap, slabs: Set<usize>, classes: int) -> bool {
    &&& after.inbox == kept_in(before.inbox, slabs)
    &&& forall|context: bool, class: int|
        0 <= class < classes ==> #[trigger] after.hot(context, class) == before.hot(context, class).kept_in(slabs)
    &&& forall|context: bool, class: int|
        0 <= class < classes ==> #[trigger] after.partial(context, class) == kept_in(before.partial(context, class), slabs)
}

/// Whether everything in the list is among the slabs.
spec fn all_in(list: Seq<usize>, slabs: Set<usize>) -> bool {
    forall|at: int| 0 <= at < list.len() ==> slabs.contains(#[trigger] list[at])
}

/// Whether the lists name nothing but the slabs and blocks of them.
pub closed spec fn names_in(heap: SmallHeap, slabs: Set<usize>, classes: int) -> bool {
    &&& all_in(heap.inbox, slabs)
    &&& forall|context: bool, class: int|
        0 <= class < classes ==> {
            let hot = #[trigger] heap.hot(context, class);
            &&& hot.active == 0 || slabs.contains(hot.active)
            &&& hot.cached_first == 0 || slabs.contains(segment_of(hot.cached_first as int) as usize)
            &&& hot.cached_second == 0 || slabs.contains(segment_of(hot.cached_second as int) as usize)
            &&& hot.cached_first == 0 ==> hot.cached_second == 0
        }
    &&& forall|context: bool, class: int| 0 <= class < classes ==> all_in(#[trigger] heap.partial(context, class), slabs)
}

proof fn lemma_kept_omitted(list: Seq<usize>, slabs: Set<usize>, slab: usize)
    requires
        all_in(list, slabs),
    ensures
        kept_in(list, slabs.remove(slab)) == omitted(list, slab),
        all_in(omitted(list, slab), slabs.remove(slab)),
    decreases list.len(),
{
    if list.len() > 0 {
        assert forall|at: int| 0 <= at < list.drop_last().len() implies slabs.contains(#[trigger] list.drop_last()[at]) by {
            assert(list.drop_last()[at] == list[at]);
        }
        lemma_kept_omitted(list.drop_last(), slabs, slab);
        assert(slabs.contains(list[list.len() - 1]));
    }
}

proof fn lemma_kept_twice(list: Seq<usize>, outer: Set<usize>, inner: Set<usize>)
    requires
        inner.subset_of(outer),
    ensures
        kept_in(kept_in(list, outer), inner) == kept_in(list, inner),
    decreases list.len(),
{
    if list.len() > 0 {
        lemma_kept_twice(list.drop_last(), outer, inner);
        if outer.contains(list.last()) {
            let rest = kept_in(list.drop_last(), outer);
            assert(rest.push(list.last()).drop_last() =~= rest);
        }
    }
}

proof fn lemma_kept_all(list: Seq<usize>, slabs: Set<usize>)
    requires
        all_in(list, slabs),
    ensures
        kept_in(list, slabs) == list,
    decreases list.len(),
{
    if list.len() > 0 {
        assert forall|at: int| 0 <= at < list.drop_last().len() implies slabs.contains(#[trigger] list.drop_last()[at]) by {
            assert(list.drop_last()[at] == list[at]);
        }
        lemma_kept_all(list.drop_last(), slabs);
        assert(slabs.contains(list[list.len() - 1]));
        assert(list.drop_last().push(list.last()) =~= list);
    }
}

/// A heap in order names nothing but its slabs, all of which its lists keep.
pub proof fn lemma_names_slabs(heap: SmallHeap, sizes: Seq<usize>)
    requires
        heap.inv(sizes),
    ensures
        names_in(heap, heap.slabs.dom(), sizes.len() as int),
        lists_kept(heap, heap, heap.slabs.dom(), sizes.len() as int),
{
    let slabs = heap.slabs.dom();
    let classes = sizes.len() as int;
    assert(all_in(heap.inbox, slabs));
    lemma_kept_all(heap.inbox, slabs);
    assert forall|context: bool, class: int| 0 <= class < classes implies {
        let hot = #[trigger] heap.hot(context, class);
        &&& hot.active == 0 || slabs.contains(hot.active)
        &&& hot.cached_first == 0 || slabs.contains(segment_of(hot.cached_first as int) as usize)
        &&& hot.cached_second == 0 || slabs.contains(segment_of(hot.cached_second as int) as usize)
        &&& hot.cached_first == 0 ==> hot.cached_second == 0
    } by {
        assert(heap.hot_ok(sizes, context, class));
    }
    assert forall|context: bool, class: int| 0 <= class < classes implies all_in(#[trigger] heap.partial(context, class), slabs)
        && kept_in(heap.partial(context, class), slabs) == heap.partial(context, class) by {
        assert(heap.partial_ok(sizes, context, class));
        assert(all_in(heap.partial(context, class), slabs));
        lemma_kept_all(heap.partial(context, class), slabs);
    }
}

/// What forgets one of the slabs keeps the others.
pub proof fn lemma_forgets_keeps(before: SmallHeap, after: SmallHeap, slabs: Set<usize>, classes: int, slab: usize)
    requires
        names_in(before, slabs, classes),
        forgets(before, after, slab),
        classes <= MAX_SIZE_CLASSES,
    ensures
        names_in(after, slabs.remove(slab), classes),
        lists_kept(before, after, slabs.remove(slab), classes),
{
    lemma_kept_omitted(before.inbox, slabs, slab);
    assert forall|context: bool, class: int| 0 <= class < classes implies #[trigger] after.hot(context, class) == before.hot(context, class).kept_in(
        slabs.remove(slab),
    ) by {
        assert(after.hot(context, class) == before.hot(context, class).without(slab));
    }
    assert forall|context: bool, class: int| 0 <= class < classes implies #[trigger] after.partial(context, class) == kept_in(
        before.partial(context, class),
        slabs.remove(slab),
    ) && all_in(after.partial(context, class), slabs.remove(slab)) by {
        assert(left_out(before.partial(context, class), after.partial(context, class), slab));
        lemma_kept_omitted(before.partial(context, class), slabs, slab);
    }
}

/// What keeps fewer of the slabs that were kept keeps them of all.
pub proof fn lemma_lists_kept_on(before: SmallHeap, middle: SmallHeap, after: SmallHeap, outer: Set<usize>, inner: Set<usize>, classes: int)
    requires
        lists_kept(before, middle, outer, classes),
        lists_kept(middle, after, inner, classes),
        inner.subset_of(outer),
    ensures
        lists_kept(before, after, inner, classes),
{
    lemma_kept_twice(before.inbox, outer, inner);
    assert forall|context: bool, class: int| 0 <= class < classes implies #[trigger] after.hot(context, class) == before.hot(context, class).kept_in(
        inner,
    ) by {
        assert(middle.hot(context, class) == before.hot(context, class).kept_in(outer));
    }
    assert forall|context: bool, class: int| 0 <= class < classes implies #[trigger] after.partial(context, class) == kept_in(
        before.partial(context, class),
        inner,
    ) by {
        assert(middle.partial(context, class) == kept_in(before.partial(context, class), outer));
        lemma_kept_twice(before.partial(context, class), outer, inner);
    }
}

impl SmallState {
    /// Takes a slab out of every list.
    fn forget(&mut self, slab: usize, Ghost(slabs): Ghost<crate::allocator::table::SlabTable>)
        requires
            small(old(self), &slabs).shape(),
        ensures
            forgets(small(old(self), &slabs), small(final(self), &slabs), slab),
    {
        let ghost before = small(self, &slabs);
        self.classes.forget(slab);
        self.context_classes.forget(slab);
        let inbox: Vec<usize> = leave_out(&self.inbox, slab);
        self.inbox = inbox;
        proof {
            let after = small(self, &slabs);
            assert forall|context: bool, class: int| 0 <= class < MAX_SIZE_CLASSES implies #[trigger] after.hot(context, class) == before.hot(
                context,
                class,
            ).without(slab) by {}
            assert forall|context: bool, class: int| 0 <= class < MAX_SIZE_CLASSES implies left_out(
                before.partial(context, class),
                #[trigger] after.partial(context, class),
                slab,
            ) by {}
        }
    }
}

/// What is left of the lists is in order, and nothing of the slab.
proof fn lemma_forgets(before: SmallHeap, after: SmallHeap, sizes: Seq<usize>, slab: usize)
    requires
        before.inv(sizes),
        valid_sizes(sizes),
        forgets(before, after, slab),
    ensures
        after.inv(sizes),
        !after.refers(sizes.len() as int, slab),
        refers_less(before, after, sizes.len() as int),
        forall|x: bool, c: int, block: usize| 0 <= c < sizes.len() && #[trigger] after.cached(x, c, block) ==> before.cached(x, c, block),
{
    let n = sizes.len() as int;
    assert forall|x: bool, c: int| 0 <= c < n implies #[trigger] after.hot_ok(sizes, x, c) by {
        assert(before.hot_ok(sizes, x, c));
        assert(after.hot(x, c) == before.hot(x, c).without(slab));
        let hot = before.hot(x, c);
        assert(hot.active != 0 ==> after.slab_of_class(sizes, x, c, hot.active));
        assert(hot.cached_first != 0 ==> after.idle_block(sizes, x, c, hot.cached_first));
        assert(hot.cached_second != 0 ==> after.idle_block(sizes, x, c, hot.cached_second));
    }
    assert forall|x: bool, c: int| 0 <= c < n implies #[trigger] after.partial_ok(sizes, x, c) by {
        assert(before.partial_ok(sizes, x, c));
        let left = before.partial(x, c);
        let right = after.partial(x, c);
        assert forall|at: int| 0 <= at < right.len() implies after.slab_of_class(sizes, x, c, #[trigger] right[at]) by {
            assert(right.contains(right[at]));
            let i = choose|i: int| 0 <= i < left.len() && left[i] == right[at];
            assert(before.slab_of_class(sizes, x, c, left[i]));
        }
    }
    assert forall|at: int| 0 <= at < after.inbox.len() implies after.slab_of_some_class(sizes, #[trigger] after.inbox[at]) by {
        assert(after.inbox.contains(after.inbox[at]));
        let i = choose|i: int| 0 <= i < before.inbox.len() && before.inbox[i] == after.inbox[at];
        assert(before.slab_of_some_class(sizes, before.inbox[i]));
        let (x, c) = choose|x: bool, c: int| 0 <= c < n && #[trigger] before.slab_of_class(sizes, x, c, before.inbox[i]);
        assert(after.slab_of_class(sizes, x, c, before.inbox[i]));
    }
    assert forall|other: usize| #[trigger] after.refers(n, other) implies before.refers(n, other) && other != slab by {
        if after.inbox.contains(other) {
            assert(before.inbox.contains(other));
        } else {
            let (x, c) = choose|x: bool, c: int| 0 <= c < n && #[trigger] after.names(x, c, other);
            assert(after.hot(x, c) == before.hot(x, c).without(slab));
            if after.partial(x, c).contains(other) {
                assert(before.partial(x, c).contains(other));
            }
            assert(before.names(x, c, other));
        }
    }
    assert forall|x: bool, c: int, block: usize| 0 <= c < n && #[trigger] after.cached(x, c, block) implies before.cached(x, c, block) by {
        assert(after.hot(x, c) == before.hot(x, c).without(slab));
    }
}

impl Space {
    /// Takes a slab out of a heap's lists.
    pub fn forget_slab(&mut self, heap: usize, slab: usize)
        requires
            old(self).whole(),
            heap < old(self).heaps@.len(),
        ensures
            step_kept(*old(self), *final(self)),
            same_but_small(*old(self), *final(self), heap as int),
            final(self).slabs == old(self).slabs,
            final(self).out == old(self).out,
            forgets(old(self).view_of(heap as int), final(self).view_of(heap as int), slab),
            !final(self).heap_refers(heap as int, slab),
            forall|other: usize| #[trigger] final(self).heap_refers(heap as int, other) ==> old(self).heap_refers(heap as int, other),
            forall|other: usize|
                other != slab && old(self).slabs@.dom().contains(other) ==> (#[trigger] slab_sums(
                    final(self).view_of(heap as int),
                    old(self).sizes(),
                    other,
                )).live == slab_sums(old(self).view_of(heap as int), old(self).sizes(), other).live,
    {
        let ghost before = *self;
        let ghost sizes = self.sizes();
        assert(self.heap_ok(heap as int));
        let ghost table = self.slabs;
        self.heaps[heap].small.forget(slab, Ghost(table));
        proof {
            let left = before.view_of(heap as int);
            let right = self.view_of(heap as int);
            lemma_forgets(left, right, sizes, slab);
            assert(same_but_small(before, *self, heap as int));
            assert(leaves_alone(before, *self, heap as int, 0)) by {
                assert forall|x: bool, c: int, block: usize|
                    0 <= c < sizes.len() && block != 0 && left.live(sizes, x, c, block) implies #[trigger] right.live(sizes, x, c, block) by {
                    assert(right.idle_block(sizes, x, c, block));
                    if right.cached(x, c, block) {
                        assert(left.cached(x, c, block));
                    }
                }
            }
            lemma_small_step(before, *self, heap as int, 0);
            assert forall|block: usize| #[trigger] before.loose(block) implies self.loose(block) by {
                if block == 0 {
                    lemma_at_address(&before.slabs, segment_of(0) as usize);
                    lemma_idle_segment(before.slabs@[segment_of(0) as usize], 0);
                }
            }
            assert(steady(before.slabs@, self.slabs@));
            lemma_out_steady(before, *self);
            assert(smalls_kept(before, *self));
            assert(mediums_kept(before.domains@, self.domains@));
            lemma_refs_of_heap(before, *self, heap as int, 0);
            assert(refs_kept(before, *self, -1, 0));
            lemma_whole_goes_on(before, *self);
            assert forall|other: usize| #[trigger] self.heap_refers(heap as int, other) implies before.heap_refers(heap as int, other) && other
                != slab by {
                lemma_refers_view(&self.heaps@[heap as int].small, &self.slabs, sizes.len() as int, other);
                lemma_refers_view(&before.heaps@[heap as int].small, &before.slabs, sizes.len() as int, other);
                assert(right.refers(sizes.len() as int, other));
            }
            assert forall|other: usize| other != slab && before.slabs@.dom().contains(other) implies (#[trigger] slab_sums(
                right,
                sizes,
                other,
            )).live == slab_sums(left, sizes, other).live by {
                assert(classed(before.slabs@[other], sizes));
                assert(before.slabs@[other].address == other);
                lemma_at_address(&before.slabs, other);
                lemma_live_elsewhere(left, right, sizes, slab, other);
            }
        }
    }
}

/// A block of a slab lies in it.
pub proof fn lemma_block_in_slab(model: SlabModel, slab: usize, index: int)
    requires
        model.well_formed(),
        model.address == slab,
        slab as int % (SLAB_SIZE as int) == 0,
        model.first() <= index < model.count(),
    ensures
        segment_of(model.block_at(index)) == slab,
        0 < model.block_at(index) <= usize::MAX,
{
    let size = model.block_size;
    let block = model.block_at(index);
    let count = model.count();
    lemma_blocks(size);
    assert(0 < index * size && index * size + size <= SLAB_SIZE) by (nonlinear_arith)
        requires
            1 <= index,
            index + 1 <= count,
            count * size <= SLAB_SIZE,
            size > 0,
    ;
    let whole = SLAB_SIZE as int;
    vstd::arithmetic::div_mod::lemma_fundamental_div_mod(slab as int, whole);
    vstd::arithmetic::div_mod::lemma_fundamental_div_mod_converse(block, whole, slab as int / whole, index * size);
}

/// What a heap forgets of one slab changes no other slab's count.
proof fn lemma_live_elsewhere(before: SmallHeap, after: SmallHeap, sizes: Seq<usize>, slab: usize, other: usize)
    requires
        before.inv(sizes),
        valid_sizes(sizes),
        forgets(before, after, slab),
        other != slab,
        before.slabs.dom().contains(other),
        before.slabs[other].address == other,
        other as int % (SLAB_SIZE as int) == 0,
        classed(before.slabs[other], sizes),
    ensures
        slab_sums(after, sizes, other).live == slab_sums(before, sizes, other).live,
{
    let model = before.slabs[other];
    let x = marks_context(model.marker);
    let c = marked_class(model.marker);
    let left = live_blocks(before, sizes, x, c, other);
    let right = live_blocks(after, sizes, x, c, other);
    lemma_blocks(model.block_size);
    assert forall|index: int| #[trigger] left.contains(index) == right.contains(index) by {
        if model.first() <= index < model.count() {
            lemma_block_in_slab(model, other, index);
            assert(after.hot(x, c) == before.hot(x, c).without(slab));
            assert(before.hot_ok(sizes, x, c));
        }
    }
    assert(left =~= right);
}

/// Whether nothing but the slab differs, which left the table.
pub open spec fn same_but_slab(before: Space, after: Space, slab: usize) -> bool {
    &&& after.tuning == before.tuning
    &&& after.domains == before.domains
    &&& after.heaps == before.heaps
    &&& after.remotes == before.remotes
    &&& after.bumps == before.bumps
    &&& after.records == before.records
    &&& after.holdings == before.holdings
    &&& after.mapped == before.mapped
    &&& after.slabs.wf()
    &&& after.slabs@ == before.slabs@.remove(slab)
    &&& after.out@ == before.out@.remove(slab)
}

/// The lists of a heap that name nothing of the slab stay in order without it.
proof fn lemma_unnamed(before: SmallHeap, after: SmallHeap, sizes: Seq<usize>, slab: usize)
    requires
        before.inv(sizes),
        valid_sizes(sizes),
        !before.refers(sizes.len() as int, slab),
        slab != 0,
        after == (SmallHeap { slabs: before.slabs.remove(slab), ..before }),
    ensures
        after.inv(sizes),
{
    let n = sizes.len() as int;
    assert forall|x: bool, c: int| 0 <= c < n implies #[trigger] after.hot_ok(sizes, x, c) by {
        assert(before.hot_ok(sizes, x, c));
        assert(!before.names(x, c, slab));
        let hot = before.hot(x, c);
        assert(after.hot(x, c) == hot);
        assert(hot.active != 0 ==> before.slab_of_class(sizes, x, c, hot.active) && hot.active != slab);
        assert(hot.cached_first != 0 ==> before.idle_block(sizes, x, c, hot.cached_first));
        assert(hot.cached_second != 0 ==> before.idle_block(sizes, x, c, hot.cached_second));
        assert(hot.cached_first != 0 ==> after.idle_block(sizes, x, c, hot.cached_first));
        assert(hot.cached_second != 0 ==> after.idle_block(sizes, x, c, hot.cached_second));
    }
    assert forall|x: bool, c: int| 0 <= c < n implies #[trigger] after.partial_ok(sizes, x, c) by {
        assert(before.partial_ok(sizes, x, c));
        assert(!before.names(x, c, slab));
        let partial = before.partial(x, c);
        assert forall|at: int| 0 <= at < partial.len() implies after.slab_of_class(sizes, x, c, #[trigger] partial[at]) by {
            assert(before.slab_of_class(sizes, x, c, partial[at]));
            assert(partial.contains(partial[at]));
        }
    }
    assert forall|at: int| 0 <= at < after.inbox.len() implies after.slab_of_some_class(sizes, #[trigger] after.inbox[at]) by {
        let address = before.inbox[at];
        assert(before.slab_of_some_class(sizes, address));
        assert(before.inbox.contains(address));
        let (x, c) = choose|x: bool, c: int| 0 <= c < n && #[trigger] before.slab_of_class(sizes, x, c, address);
        assert(after.slab_of_class(sizes, x, c, address));
    }
}

/// A slab that no heap names and no block of is in use leaves everything else in order.
#[verifier::spinoff_prover]
#[verifier::rlimit(40)]
pub proof fn lemma_slab_gone(before: Space, after: Space, slab: usize)
    requires
        before.inv(),
        before.slabs@.dom().contains(slab),
        !before.slabs@[slab].shared,
        before.out@[slab].len() == 0,
        forall|heap: int| 0 <= heap < before.heaps@.len() ==> !#[trigger] before.heap_refers(heap, slab),
        same_but_slab(before, after, slab),
    ensures
        after.inv(),
{
    let sizes = before.sizes();
    lemma_at_address(&before.slabs, slab);
    assert forall|at: int, block: usize| #[trigger] after.cached_by(at, block) == before.cached_by(at, block) by {
        let left = before.view_of(at);
        let right = after.view_of(at);
        if before.cached_by(at, block) {
            let (x, c) = choose|x: bool, c: int| 0 <= c < sizes.len() && #[trigger] left.cached(x, c, block);
            assert(right.cached(x, c, block));
        }
        if after.cached_by(at, block) {
            let (x, c) = choose|x: bool, c: int| 0 <= c < sizes.len() && #[trigger] right.cached(x, c, block);
            assert(left.cached(x, c, block));
        }
    }
    assert forall|at: int, block: usize| #[trigger] after.listed_by(at, block) == before.listed_by(at, block) by {}
    assert forall|at: int| 0 <= at < after.heaps@.len() implies #[trigger] after.heap_ok(at) by {
        assert(before.heap_ok(at));
        assert(!before.heap_refers(at, slab));
        lemma_refers_view(&before.heaps@[at].small, &before.slabs, sizes.len() as int, slab);
        lemma_unnamed(before.view_of(at), after.view_of(at), sizes, slab);
        assert(locality_held(after.heaps@[at], after.holdings@, after.slabs@));
    }
    assert forall|other: usize| #[trigger] after.slabs@.dom().contains(other) implies classed(after.slabs@[other], sizes)
        && after.slabs@[other].address == other && slab_placed(after.holdings@, after.mapped@, other) by {
        assert(before.slabs@.dom().contains(other));
    }
    assert forall|remote: int| 0 <= remote < after.remotes@.len() implies (#[trigger] after.remotes@[remote]).inv(after.slabs@, sizes)
        && is_domain(after.domains@, after.remotes@[remote].domain) by {
        let own = before.remotes@[remote];
        assert(own.inv(before.slabs@, sizes));
        assert forall|x: bool, c: int, block: usize|
            0 <= c < sizes.len() && own.list(x, c).contains(block) && idle_at(before.slabs@, sizes, x, c, block) implies #[trigger] idle_at(
            after.slabs@,
            sizes,
            x,
            c,
            block,
        ) by {
            assert(before.listed_by(remote, block));
        }
        lemma_remote_kept(&own, sizes, before.slabs@, after.slabs@);
    }
    assert forall|block: usize| segment_of(block as int) != slab && #[trigger] before.loose(block) implies after.loose(block) by {
        assert forall|at: int| 0 <= at < after.heaps@.len() implies !#[trigger] after.cached_by(at, block) by {
            assert(!before.cached_by(at, block));
        }
        assert forall|at: int| 0 <= at < after.remotes@.len() implies !#[trigger] after.listed_by(at, block) by {
            assert(!before.listed_by(at, block));
        }
    }
    assert(after.lists_shared()) by {
        assert forall|remote: int, block: usize| 0 <= remote < after.remotes@.len() && #[trigger] after.listed_by(remote, block) implies {
            let own_slab = segment_of(block as int) as usize;
            after.slabs@.dom().contains(own_slab) && after.slabs@[own_slab].shared
        } by {
            assert(before.listed_by(remote, block));
        }
    }
    assert(after.out@.dom() =~= after.slabs@.dom());
    assert forall|other: usize| #[trigger] after.slabs@.dom().contains(other) implies after.entries_ok(other) by {
        assert(before.slabs@.dom().contains(other));
        assert(before.entries_ok(other));
        assert forall|at: int| 0 <= at < after.out@[other].len() implies #[trigger] after.entry_ok(other, at) by {
            assert(before.entry_ok(other, at));
        }
    }
    assert forall|other: usize| #[trigger] after.slabs@.dom().contains(other) implies after.slab_owned(other) by {
        assert(before.slabs@.dom().contains(other));
        assert(before.slab_owned(other));
        let owner = before.slabs@[other].owner;
        if before.slabs@[other].shared {
            let at = choose|at: int| #[trigger] before.is_remote(at, owner);
            assert(after.is_remote(at, owner));
        } else {
            let at = choose|at: int| #[trigger] before.is_heap(at, owner);
            assert(after.is_heap(at, owner));
        }
    }
    assert(after.waiting_apart()) by {
        assert forall|left: int, right: int, block: usize|
            #![trigger after.cached_by(left, block), after.cached_by(right, block)]
            0 <= left < after.heaps@.len() && 0 <= right < after.heaps@.len() && left != right implies !(after.cached_by(left, block)
            && after.cached_by(right, block)) by {
            assert(before.cached_by(left, block) == after.cached_by(left, block));
            assert(before.cached_by(right, block) == after.cached_by(right, block));
        }
        assert forall|heap: int, other: int, block: usize|
            #![trigger after.cached_by(heap, block), after.listed_by(other, block)]
            0 <= heap < after.heaps@.len() && 0 <= other < after.remotes@.len() implies !(after.cached_by(heap, block)
            && after.listed_by(other, block)) by {
            assert(before.cached_by(heap, block) == after.cached_by(heap, block));
            assert(before.listed_by(other, block) == after.listed_by(other, block));
        }
        assert forall|left: int, right: int, block: usize|
            #![trigger after.listed_by(left, block), after.listed_by(right, block)]
            0 <= left < after.remotes@.len() && 0 <= right < after.remotes@.len() && left != right implies !(after.listed_by(left, block)
            && after.listed_by(right, block)) by {
            assert(before.listed_by(left, block) == after.listed_by(left, block));
            assert(before.listed_by(right, block) == after.listed_by(right, block));
        }
    }
    assert(after.bumps_ok()) by {
        assert forall|bump: int| 0 <= bump < after.bumps@.len() implies bump_ok(#[trigger] after.bumps@[bump]) && after.chunks_held(bump)
            && is_domain(after.domains@, after.bumps@[bump].domain) by {
            assert(bump_ok(before.bumps@[bump]));
            assert(before.chunks_held(bump));
        }
    }
}

/// A slab of the heap that counts no block as in use has none in use.
pub proof fn lemma_vacant(space: Space, heap: int, slab: usize)
    requires
        space.inv(),
        0 <= heap < space.heaps@.len(),
        space.slabs@.dom().contains(slab),
        slab_sums(space.view_of(heap), space.sizes(), slab).live == 0,
    ensures
        space.out@[slab].len() == 0,
{
    let sizes = space.sizes();
    let view = space.view_of(heap);
    let model = space.slabs@[slab];
    let x = marks_context(model.marker);
    let c = marked_class(model.marker);
    assert(classed(model, sizes));
    assert(space.heap_ok(heap));
    assert(view.slab_of_class(sizes, x, c, slab));
    lemma_live_count(view, sizes, x, c, slab);
    let live = live_blocks(view, sizes, x, c, slab);
    if space.out@[slab].len() > 0 {
        let block = space.out@[slab][0].block;
        assert(space.entries_ok(slab));
        assert(space.entry_ok(slab, 0));
        assert(space.loose(block));
        assert(idle_in(model, block as int));
        assert(!space.cached_by(heap, block));
        assert(!view.cached(x, c, block));
        assert(view.idle_block(sizes, x, c, block));
        let index = model.index_of(block as int);
        lemma_index_of(model, block as int);
        assert(live.contains(index));
        assert(live.len() == 0);
        assert(live =~= Set::empty());
    }
}

} // verus!
