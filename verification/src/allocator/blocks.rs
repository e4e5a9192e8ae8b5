//! Handing out and taking back the blocks of a heap's size classes.

use vstd::prelude::*;

use crate::allocator::classes::{allocation_segment, segment_of};
use crate::allocator::slab::{
    divides_by, lemma_block_at, lemma_blocks, lemma_distinct_indices, lemma_drained, lemma_index_of,
    lemma_next_block, lemma_recycling, lemma_take_removes, lemma_total_padding, total_padding, RemoteFree,
    SlabModel, CONTEXT_SLAB_MARKER, SLAB_MARKER, SLAB_SIZE,
};
use crate::allocator::small::{
    keeps_idle, lemma_drain_keeps_idle, lemma_inv_hot, lemma_inv_partial, lemma_inv_slab, lemma_take_after,
    marked_class, marker_of, marks_context, most_free, small, take_after, take_index, wrapped, wrapping_sum,
    ClassHot, SmallHeap, SmallState,
};
use crate::allocator::table::{lemma_changed_slab, SlabTable};
use crate::tunables::{valid_sizes, Tuning, MAX_SIZE_CLASSES};

verus! {

/// A slab whose marker names a class is a slab of that class and of no other.
pub proof fn lemma_marked(context: bool, class: int, marker: u64)
    requires
        0 <= class < MAX_SIZE_CLASSES,
        marker == marker_of(context, class),
    ensures
        marks_context(marker) == context,
        marked_class(marker) == class,
{
}

pub proof fn lemma_after_active(heap: SmallHeap, sizes: Seq<usize>, context: bool, class: int, batch_limit: int)
    requires
        heap.inv(sizes),
        valid_sizes(sizes),
        0 <= class < sizes.len(),
    ensures
        heap.after_active(context, class, batch_limit).inv(sizes),
        heap.after_active(context, class, batch_limit).lists(true) == heap.lists(true),
        heap.after_active(context, class, batch_limit).lists(false) == heap.lists(false),
{
    let active = heap.hot(context, class).active;
    assert(heap.hot_ok(sizes, context, class));
    if active != 0 {
        lemma_take_after(heap.slabs[active], batch_limit);
        lemma_inv_slab(heap, sizes, active, take_after(heap.slabs[active], batch_limit));
    }
}

pub proof fn lemma_without_active(heap: SmallHeap, sizes: Seq<usize>, context: bool, class: int)
    requires
        heap.inv(sizes),
        valid_sizes(sizes),
        0 <= class < sizes.len(),
    ensures
        heap.without_active(context, class).inv(sizes),
{
    assert(heap.hot_ok(sizes, context, class));
    lemma_inv_hot(heap, sizes, context, class, ClassHot { active: 0, ..heap.hot(context, class) });
}

pub proof fn lemma_most_free(partial: Seq<usize>, slabs: Map<usize, SlabModel>, scanned: int)
    ensures
        most_free(partial, slabs, scanned) is Some <==> scanned > 0 && partial.len() > 0,
        most_free(partial, slabs, scanned) matches Some(best) ==> 0 <= best < partial.len() && best < scanned,
    decreases scanned,
{
    if scanned <= 0 || partial.len() == 0 {
    } else if scanned > partial.len() {
        lemma_most_free(partial, slabs, partial.len() as int);
    } else {
        lemma_most_free(partial, slabs, scanned - 1);
    }
}

pub proof fn lemma_after_select(heap: SmallHeap, sizes: Seq<usize>, context: bool, class: int, scan_limit: int)
    requires
        heap.inv(sizes),
        valid_sizes(sizes),
        0 <= class < sizes.len(),
    ensures
        heap.after_select(context, class, scan_limit).inv(sizes),
{
    let partial = heap.partial(context, class);
    lemma_most_free(partial, heap.slabs, scan_limit);
    assert(heap.hot_ok(sizes, context, class));
    assert(heap.partial_ok(sizes, context, class));
    match most_free(partial, heap.slabs, scan_limit) {
        None => {},
        Some(best) => {
            let position = partial.len() - 1 - best;
            let rest = partial.remove(position);
            assert forall|at: int| 0 <= at < rest.len() implies heap.slab_of_class(sizes, context, class, #[trigger] rest[at]) by {
                if at < position {
                    assert(rest[at] == partial[at]);
                } else {
                    assert(rest[at] == partial[at + 1]);
                }
            }
            assert(heap.slab_of_class(sizes, context, class, partial[position]));
            lemma_inv_partial(heap, sizes, context, class, rest);
            let shorter = heap.with_partial(context, class, rest);
            let hot = ClassHot { active: partial[position], ..heap.hot(context, class) };
            assert(shorter.hot(context, class) == heap.hot(context, class));
            assert(shorter.hot_ok(sizes, context, class));
            assert(shorter.slab_of_class(sizes, context, class, partial[position]));
            lemma_inv_hot(shorter, sizes, context, class, hot);
        },
    }
}

pub proof fn lemma_drain_slab(heap: SmallHeap, sizes: Seq<usize>, address: usize)
    requires
        heap.inv(sizes),
        valid_sizes(sizes),
        heap.slab_of_some_class(sizes, address),
    ensures
        heap.drain_slab(address).inv(sizes),
        heap.drain_slab(address).inbox == heap.inbox,
        heap.drain_slab(address).slabs == heap.slabs.insert(
            address,
            (SlabModel { queued: false, ..heap.slabs[address].drained() }),
        ),
        0 <= marked_class(heap.slabs[address].marker) < sizes.len(),
        heap.slab_of_class(
            sizes,
            marks_context(heap.slabs[address].marker),
            marked_class(heap.slabs[address].marker),
            address,
        ),
        forall|other: usize|
            heap.slab_of_some_class(sizes, other) ==> #[trigger] heap.drain_slab(address).slab_of_some_class(sizes, other),
{
    let (context, class) = choose|context: bool, class: int|
        0 <= class < sizes.len() && #[trigger] heap.slab_of_class(sizes, context, class, address);
    let slab = heap.slabs[address];
    lemma_marked(context, class, slab.marker);
    let drained = SlabModel { queued: false, ..slab.drained() };
    lemma_drain_keeps_idle(slab);
    assert(drained.free() =~= slab.drained().free());
    assert forall|block: int|
        #![trigger drained.handed_out(block)]
        slab.handed_out(block) && !slab.in_remote_list(block) implies drained.handed_out(block) && !drained.in_remote_list(
        block,
    ) by {
        assert(slab.drained().handed_out(block));
    }
    assert(drained.well_formed()) by {
        lemma_drained(slab);
        assert(slab.drained().well_formed());
    }
    lemma_inv_slab(heap, sizes, address, drained);
    let after = heap.with_slab(address, drained);
    let partial = heap.partial(context, class);
    assert(after.partial_ok(sizes, context, class));
    assert(after.partial(context, class) == partial);
    assert(after.slab_of_class(sizes, context, class, address));
    let longer = partial.push(address);
    assert forall|at: int| 0 <= at < longer.len() implies after.slab_of_class(sizes, context, class, #[trigger] longer[at]) by {
        if at < partial.len() {
            assert(after.slab_of_class(sizes, context, class, partial[at]));
        }
    }
    lemma_inv_partial(after, sizes, context, class, longer);
    let result = heap.drain_slab(address);
    assert forall|other: usize| heap.slab_of_some_class(sizes, other) implies #[trigger] result.slab_of_some_class(
        sizes,
        other,
    ) by {
        let (x, c) = choose|x: bool, c: int| 0 <= c < sizes.len() && #[trigger] heap.slab_of_class(sizes, x, c, other);
        assert(result.slab_of_class(sizes, x, c, other));
    }
}

/// What the blocks of the classes are for: whether a block is handed out and neither freed nor
/// kept for reuse.
impl SmallHeap {
    pub open spec fn cached(self, context: bool, class: int, block: usize) -> bool {
        let hot = self.hot(context, class);
        block != 0 && (hot.cached_first == block || hot.cached_second == block)
    }

    pub open spec fn live(self, sizes: Seq<usize>, context: bool, class: int, block: usize) -> bool {
        self.idle_block(sizes, context, class, block) && !self.cached(context, class, block)
    }
}

/// Takes a block from the class's active slab. Returns the block, or 0, and the number of blocks
/// that came in from the slab's remote list.
pub fn take_active(state: &SmallState, slabs: &mut SlabTable, tuning: &Tuning, context: bool, class: usize) -> (taken: (usize, u64))
    requires
        tuning.wf(),
        class < tuning.sizes@.len(),
        old(slabs).wf(),
        small(state, old(slabs)).inv(tuning.sizes@),
    ensures
        final(slabs).wf(),
        small(state, final(slabs)).inv(tuning.sizes@),
        small(state, final(slabs)) == small(state, old(slabs)).after_active(context, class as int, tuning.batch_limit as int),
        taken.0 == small(state, old(slabs)).active_block(context, class as int),
        taken.1 == wrapped(small(state, old(slabs)).active_drains(context, class as int)),
{
    let ghost before = small(state, slabs);
    proof {
        lemma_after_active(before, tuning.sizes@, context, class as int, tuning.batch_limit as int);
        assert(before.hot_ok(tuning.sizes@, context, class as int));
    }
    let active: usize = state.hot(context, class).active;
    if active == 0 {
        return (0, 0);
    }
    assert(before.slab_of_class(tuning.sizes@, context, class as int, active));
    assert(tuning.sizes@[class as int] == before.slabs[active].block_size);
    let taken = slabs.take_from(active, tuning.batch_limit, tuning.shifts[class], tuning.reciprocals[class]);
    assert(small(state, slabs) =~= before.after_active(context, class as int, tuning.batch_limit as int));
    taken
}

impl SlabTable {
    /// The number of blocks that a slab can hand out without its remote list.
    pub fn free_count(&self, address: usize) -> (count: usize)
        requires
            self.wf(),
            self@.dom().contains(address),
        ensures
            count == self@[address].free().len(),
    {
        let index: usize = self.position(address).unwrap();
        assert(self.slabs@[index as int].wf());
        self.slabs[index].free_count
    }
}

/// Makes the partial slab with the most free blocks, among the first that the scan limit admits,
/// the active one. Returns whether there was one.
pub fn take_most_free_slab(state: &mut SmallState, slabs: &SlabTable, tuning: &Tuning, context: bool, class: usize) -> (found: bool)
    requires
        tuning.wf(),
        class < tuning.sizes@.len(),
        slabs.wf(),
        small(old(state), slabs).inv(tuning.sizes@),
    ensures
        small(final(state), slabs).inv(tuning.sizes@),
        small(final(state), slabs) == small(old(state), slabs).after_select(
            context,
            class as int,
            tuning.partial_slab_scan_limit as int,
        ),
        found == small(old(state), slabs).can_select(context, class as int, tuning.partial_slab_scan_limit as int),
{
    let ghost before = small(state, slabs);
    let ghost partial = before.partial(context, class as int);
    let ghost limit = tuning.partial_slab_scan_limit as int;
    proof {
        lemma_after_select(before, tuning.sizes@, context, class as int, limit);
        lemma_most_free(partial, slabs@, limit);
        assert(before.partial_ok(tuning.sizes@, context, class as int));
        assert(state.lists(context).partial[class as int] == partial);
    }
    let length: usize = state.partial_len(context, class);
    if length == 0 {
        return false;
    }
    let bound: usize = if length < tuning.partial_slab_scan_limit {
        length
    } else {
        tuning.partial_slab_scan_limit
    };
    let mut best: usize = 0;
    let head: usize = state.partial_at(context, class, length - 1);
    assert(before.slab_of_class(tuning.sizes@, context, class as int, partial[length - 1]));
    let mut best_free: usize = slabs.free_count(head);
    let mut scanned: usize = 1;
    proof {
        lemma_most_free(partial, slabs@, 0);
        lemma_most_free(partial, slabs@, 1);
    }
    while scanned < bound
        invariant
            1 <= scanned <= bound <= length,
            length == partial.len(),
            best < scanned,
            slabs.wf(),
            class < tuning.sizes@.len(),
            tuning.wf(),
            before == small(state, slabs),
            before.inv(tuning.sizes@),
            partial == before.partial(context, class as int),
            most_free(partial, slabs@, scanned as int) == Some(best as int),
            best_free == slabs@[partial[length - 1 - best]].free().len(),
        decreases bound - scanned,
    {
        assert(before.partial_ok(tuning.sizes@, context, class as int));
        assert(state.lists(context).partial[class as int] == partial);
        let current: usize = state.partial_at(context, class, length - 1 - scanned);
        assert(before.slab_of_class(tuning.sizes@, context, class as int, partial[length - 1 - scanned]));
        let free: usize = slabs.free_count(current);
        if free > best_free {
            best = scanned;
            best_free = free;
        }
        scanned = scanned + 1;
    }
    assert(most_free(partial, slabs@, limit) == Some(best as int));
    assert(state.lists(context).partial[class as int] == partial);
    let chosen: usize = state.remove_partial(context, class, length - 1 - best);
    let ghost shorter = small(state, slabs);
    let mut hot = state.hot(context, class);
    hot.active = chosen;
    state.set_hot(context, class, hot);
    assert(small(state, slabs) == shorter.with_hot(context, class as int, hot));
    true
}

impl SlabTable {
    /// Takes the remote list of a slab in, and takes the slab off the inbox.
    fn drain_queued(&mut self, address: usize, tuning: &Tuning, class: usize) -> (drained: (u64, bool, bool))
        requires
            tuning.wf(),
            class < tuning.sizes@.len(),
            old(self).wf(),
            old(self)@.dom().contains(address),
            old(self)@[address].block_size == tuning.sizes@[class as int],
        ensures
            final(self).wf(),
            final(self)@ == old(self)@.insert(address, (SlabModel { queued: false, ..old(self)@[address].drained() })),
            drained.0 == wrapped(old(self)@[address].remote.len() as int),
            drained.1 == (old(self)@[address].free().len() == 0),
            drained.2 == (final(self)@[address].free().len() == 0),
    {
        let ghost before = *self;
        let index: usize = self.position(address).unwrap();
        assert(self.slabs@[index as int].wf());
        let was_full: bool = self.slabs[index].free_count == 0;
        assert(tuning.sizes@[class as int] == self.slabs@[index as int].block_size);
        let count: usize = self.slabs[index].drain_remote(tuning.shifts[class], tuning.reciprocals[class]);
        let ghost middle = *self;
        self.slabs[index].remote_queued = false;
        let is_full: bool = self.slabs[index].free_count == 0;
        proof {
            let slab = before.slabs@[index as int]@;
            let model = SlabModel { queued: false, ..slab.drained() };
            let changed = self.slabs@[index as int];
            assert(changed@ =~= model);
            assert(changed@.free() =~= slab.drained().free());
            assert(middle.slabs@[index as int].wf());
            assert(model.well_formed()) by {
                assert(slab.drained().well_formed());
            }
            assert(changed.wf());
            lemma_changed_slab(&before, self, index as int);
        }
        (count as u64, was_full, is_full)
    }

    pub fn marker_of(&self, address: usize) -> (marker: u64)
        requires
            self.wf(),
            self@.dom().contains(address),
        ensures
            marker == self@[address].marker,
    {
        let index: usize = self.position(address).unwrap();
        self.slabs[index].marker
    }
}

proof fn lemma_inbox_emptied(heap: SmallHeap, sizes: Seq<usize>)
    requires
        heap.inv(sizes),
    ensures
        (SmallHeap { inbox: Seq::empty(), ..heap }).inv(sizes),
        forall|address: usize|
            heap.slab_of_some_class(sizes, address) ==> #[trigger] (SmallHeap { inbox: Seq::empty(), ..heap }).slab_of_some_class(
                sizes,
                address,
            ),
{
    let emptied = SmallHeap { inbox: Seq::empty(), ..heap };
    assert forall|context: bool, class: int, address: usize|
        #[trigger] heap.slab_of_class(sizes, context, class, address) implies emptied.slab_of_class(sizes, context, class, address) by {}
    assert forall|context: bool, class: int| 0 <= class < sizes.len() implies #[trigger] emptied.hot_ok(sizes, context, class) by {
        assert(heap.hot_ok(sizes, context, class));
        assert(emptied.hot(context, class) == heap.hot(context, class));
    }
    assert forall|context: bool, class: int| 0 <= class < sizes.len() implies #[trigger] emptied.partial_ok(sizes, context, class) by {
        assert(heap.partial_ok(sizes, context, class));
        assert(emptied.partial(context, class) == heap.partial(context, class));
    }
    assert forall|address: usize| heap.slab_of_some_class(sizes, address) implies #[trigger] emptied.slab_of_some_class(
        sizes,
        address,
    ) by {
        let (x, c) = choose|x: bool, c: int| 0 <= c < sizes.len() && #[trigger] heap.slab_of_class(sizes, x, c, address);
        assert(emptied.slab_of_class(sizes, x, c, address));
    }
}

pub proof fn lemma_drain_list(heap: SmallHeap, sizes: Seq<usize>, list: Seq<usize>)
    requires
        heap.inv(sizes),
        valid_sizes(sizes),
        forall|position: int| 0 <= position < list.len() ==> heap.slab_of_some_class(sizes, #[trigger] list[position]),
    ensures
        heap.drain_list(list).inv(sizes),
    decreases list.len(),
{
    if list.len() > 0 {
        lemma_drain_slab(heap, sizes, list.last());
        let rest = list.drop_last();
        let next = heap.drain_slab(list.last());
        assert forall|position: int| 0 <= position < rest.len() implies next.slab_of_some_class(sizes, #[trigger] rest[position]) by {
            assert(heap.slab_of_some_class(sizes, list[position]));
        }
        lemma_drain_list(next, sizes, rest);
    }
}

pub proof fn lemma_drain_inbox(heap: SmallHeap, sizes: Seq<usize>)
    requires
        heap.inv(sizes),
        valid_sizes(sizes),
    ensures
        heap.drain_inbox().inv(sizes),
{
    lemma_inbox_emptied(heap, sizes);
    let emptied = SmallHeap { inbox: Seq::empty(), ..heap };
    assert forall|position: int| 0 <= position < heap.inbox.len() implies emptied.slab_of_some_class(
        sizes,
        #[trigger] heap.inbox[position],
    ) by {
        assert(heap.slab_of_some_class(sizes, heap.inbox[position]));
    }
    lemma_drain_list(emptied, sizes, heap.inbox);
}

/// Takes in the blocks that other threads freed. Returns how many there were.
pub fn drain_remote_inbox(state: &mut SmallState, slabs: &mut SlabTable, tuning: &Tuning) -> (drained: u64)
    requires
        tuning.wf(),
        old(slabs).wf(),
        small(old(state), old(slabs)).inv(tuning.sizes@),
    ensures
        final(slabs).wf(),
        small(final(state), final(slabs)).inv(tuning.sizes@),
        small(final(state), final(slabs)) == small(old(state), old(slabs)).drain_inbox(),
        drained == wrapped(small(old(state), old(slabs)).inbox_drains()),
{
    let ghost before = small(state, slabs);
    let ghost sizes = tuning.sizes@;
    proof {
        lemma_inbox_emptied(before, sizes);
        lemma_drain_inbox(before, sizes);
    }
    let mut list: Vec<usize> = Vec::new();
    std::mem::swap(&mut list, &mut state.inbox);
    let ghost start = small(state, slabs);
    assert(start =~= (SmallHeap { inbox: Seq::empty(), ..before }));
    assert forall|position: int| 0 <= position < list@.len() implies start.slab_of_some_class(sizes, #[trigger] list@[position]) by {
        assert(before.slab_of_some_class(sizes, before.inbox[position]));
    }
    let mut drained: u64 = 0;
    let ghost mut done: int = 0;
    while list.len() > 0
        invariant
            tuning.wf(),
            sizes == tuning.sizes@,
            slabs.wf(),
            small(state, slabs).inv(sizes),
            forall|position: int|
                0 <= position < list@.len() ==> small(state, slabs).slab_of_some_class(sizes, #[trigger] list@[position]),
            small(state, slabs).drain_list(list@) == before.drain_inbox(),
            drained == wrapped(done),
            done + small(state, slabs).list_drains(list@) == before.inbox_drains(),
        decreases list@.len(),
    {
        let ghost current = small(state, slabs);
        let ghost whole = list@;
        let address: usize = list.pop().unwrap();
        assert(whole.last() == address);
        assert(list@ =~= whole.drop_last());
        proof {
            assert(current.slab_of_some_class(sizes, whole[whole.len() - 1]));
            lemma_drain_slab(current, sizes, address);
        }
        let marker: u64 = slabs.marker_of(address);
        let context: bool = marker >= CONTEXT_SLAB_MARKER;
        let class: usize = if context {
            (marker - CONTEXT_SLAB_MARKER) as usize
        } else {
            (marker - SLAB_MARKER) as usize
        };
        assert(class == marked_class(marker));
        let (count, was_full, is_full) = slabs.drain_queued(address, tuning, class);
        let ghost next = small(state, slabs);
        let active: usize = state.hot(context, class).active;
        if was_full && !is_full && active != address {
            state.push_partial(context, class, address);
        }
        proof {
            assert(small(state, slabs) =~= current.drain_slab(address));
            assert forall|position: int| 0 <= position < list@.len() implies small(state, slabs).slab_of_some_class(
                sizes,
                #[trigger] list@[position],
            ) by {
                assert(current.slab_of_some_class(sizes, whole[position]));
            }
        }
        let ghost more = current.slabs[address].remote.len() as int;
        drained = wrapping_sum(drained, count);
        proof {
            assert(drained == wrapped(done + more));
            done = done + more;
        }
    }
    drained
}

/// Serves a block of the class without a new slab. Returns the block, or 0, and the number of
/// blocks that came in from remote lists.
pub fn pop_block(state: &mut SmallState, slabs: &mut SlabTable, tuning: &Tuning, context: bool, class: usize) -> (popped: (usize, u64))
    requires
        tuning.wf(),
        class < tuning.sizes@.len(),
        old(slabs).wf(),
        small(old(state), old(slabs)).inv(tuning.sizes@),
    ensures
        final(slabs).wf(),
        small(final(state), final(slabs)).inv(tuning.sizes@),
        ({
            let (block, after, drained) = small(old(state), old(slabs)).pop(
                context,
                class as int,
                tuning.batch_limit as int,
                tuning.partial_slab_scan_limit as int,
            );
            &&& popped.0 == block
            &&& small(final(state), final(slabs)) == after
            &&& popped.1 == wrapped(drained)
        }),
{
    let ghost before = small(state, slabs);
    let ghost sizes = tuning.sizes@;
    let ghost limit = tuning.batch_limit as int;
    let mut hot = state.hot(context, class);
    assert(before.hot_ok(sizes, context, class as int));
    let first: usize = hot.cached_first;
    if first != 0 {
        hot.cached_first = hot.cached_second;
        hot.cached_second = 0;
        state.set_hot(context, class, hot);
        proof {
            lemma_inv_hot(before, sizes, context, class as int, hot);
            assert(small(state, slabs) == before.with_hot(context, class as int, hot));
        }
        return (first, 0);
    }
    let (block, first_drain) = take_active(state, slabs, tuning, context, class);
    if block != 0 {
        return (block, first_drain);
    }
    let ghost tried = small(state, slabs);
    assert(tried == before.after_active(context, class as int, limit));
    assert(state.lists(context).hot[class as int] == tried.hot(context, class as int));
    hot.active = 0;
    state.set_hot(context, class, hot);
    let ghost emptied = small(state, slabs);
    proof {
        lemma_after_active(before, sizes, context, class as int, limit);
        assert(tried.hot(context, class as int) == before.hot(context, class as int));
        lemma_without_active(tried, sizes, context, class as int);
        assert(emptied == tried.without_active(context, class as int));
    }
    let mut drained: u64 = first_drain;
    let found: bool = take_most_free_slab(state, slabs, tuning, context, class);
    if !found {
        assert(small(state, slabs) == emptied);
        let count: u64 = drain_remote_inbox(state, slabs, tuning);
        drained = wrapping_sum(drained, count);
        assert(drained == wrapped(before.active_drains(context, class as int) + emptied.inbox_drains()));
        let _found: bool = take_most_free_slab(state, slabs, tuning, context, class);
    } else {
        assert(drained == wrapped(before.active_drains(context, class as int) + 0));
    }
    let ghost selected = small(state, slabs);
    let ghost searched = emptied.before_select(context, class as int, tuning.partial_slab_scan_limit as int);
    assert(selected == searched.after_select(context, class as int, tuning.partial_slab_scan_limit as int));
    let ghost so_far = before.active_drains(context, class as int) + (if emptied.can_select(
        context,
        class as int,
        tuning.partial_slab_scan_limit as int,
    ) {
        0
    } else {
        emptied.inbox_drains()
    });
    assert(drained == wrapped(so_far));
    let (block, last_drain) = take_active(state, slabs, tuning, context, class);
    let total: u64 = wrapping_sum(drained, last_drain);
    assert(total == wrapped(so_far + selected.active_drains(context, class as int)));
    (block, total)
}

impl SmallHeap {
    /// The heap after `block`, of a slab's blocks in use, is counted with `padding` fewer bytes
    /// that were never requested. Slabs of thread heaps keep no such count.
    pub open spec fn less_padding(self, block: usize, padding: int) -> SmallHeap {
        let address = segment_of(block as int) as usize;
        let slab = self.slabs[address];
        if slab.shared {
            self
        } else {
            self.with_slab(address, SlabModel { padding: slab.padding - padding, ..slab })
        }
    }

    /// The heap after `block` went back into its slab's bitmap. A slab that had no free block
    /// joins its class's partial list, unless it is active.
    pub open spec fn recycled(self, context: bool, class: int, block: usize) -> SmallHeap {
        let address = segment_of(block as int) as usize;
        let slab = self.slabs[address];
        let after = self.with_slab(address, slab.recycling(block as int));
        if slab.free().len() == 0 && self.hot(context, class).active != address {
            after.with_partial(context, class, self.partial(context, class).push(address))
        } else {
            after
        }
    }

    /// The heap after its own thread freed `block`: the block is cached, and the block that the
    /// cache has no room for goes back to its slab.
    pub open spec fn push(self, context: bool, class: int, block: usize, padding: int) -> SmallHeap {
        let hot = self.hot(context, class);
        let cached = self.less_padding(block, padding).with_hot(
            context,
            class,
            ClassHot { cached_first: block, cached_second: hot.cached_first, active: hot.active },
        );
        if hot.cached_second == 0 {
            cached
        } else {
            cached.recycled(context, class, hot.cached_second)
        }
    }

    /// The heap after another thread freed `block`: it waits in its slab's remote list, and the
    /// slab in the inbox.
    pub open spec fn push_remote(self, block: usize, padding: usize) -> SmallHeap {
        let address = segment_of(block as int) as usize;
        let slab = self.slabs[address];
        let after = self.with_slab(
            address,
            SlabModel { remote: slab.remote.push(RemoteFree { block, padding }), queued: true, ..slab },
        );
        if slab.queued {
            after
        } else {
            SmallHeap { inbox: self.inbox.push(address), ..after }
        }
    }
}

/// Counting fewer padding bytes keeps the invariant.
pub proof fn lemma_less_padding(heap: SmallHeap, sizes: Seq<usize>, block: usize, padding: int)
    requires
        heap.inv(sizes),
        heap.slabs.dom().contains(segment_of(block as int) as usize),
        heap.slabs[segment_of(block as int) as usize].shared || total_padding(
            heap.slabs[segment_of(block as int) as usize].remote,
        ) + padding <= heap.slabs[segment_of(block as int) as usize].padding,
    ensures
        heap.less_padding(block, padding).inv(sizes),
        heap.less_padding(block, padding).classes == heap.classes,
        heap.less_padding(block, padding).context == heap.context,
        forall|context: bool, class: int, other: usize|
            #[trigger] heap.less_padding(block, padding).idle_block(sizes, context, class, other) == heap.idle_block(
                sizes,
                context,
                class,
                other,
            ),
{
    let address = segment_of(block as int) as usize;
    let slab = heap.slabs[address];
    if !slab.shared {
        let after = SlabModel { padding: slab.padding - padding, ..slab };
        assert(slab.well_formed());
        assert(after.free() =~= slab.free());
        assert(after.well_formed()) by {
            assert forall|position: int| 0 <= position < after.remote.len() implies after.handed_out(
                (#[trigger] after.remote[position]).block as int,
            ) by {
                assert(slab.handed_out(slab.remote[position].block as int));
            }
        }
        assert(keeps_idle(slab, after)) by {
            assert forall|b: int| slab.handed_out(b) == #[trigger] after.handed_out(b) by {}
            assert forall|b: int| slab.in_remote_list(b) == #[trigger] after.in_remote_list(b) by {}
        }
        lemma_inv_slab(heap, sizes, address, after);
        let changed = heap.less_padding(block, padding);
        assert forall|context: bool, class: int, other: usize|
            #[trigger] changed.idle_block(sizes, context, class, other) == heap.idle_block(sizes, context, class, other) by {
            let at = segment_of(other as int) as usize;
            assert(changed.slab_of_class(sizes, context, class, at) == heap.slab_of_class(sizes, context, class, at));
            if at == address {
                assert(slab.handed_out(other as int) == after.handed_out(other as int));
                assert(slab.in_remote_list(other as int) == after.in_remote_list(other as int));
            }
        }
    }
}

/// Whether a slab's block is handed out and not on its way back.
pub open spec fn idle_in(slab: SlabModel, block: int) -> bool {
    slab.handed_out(block) && !slab.in_remote_list(block)
}

pub proof fn lemma_recycle_idle(slab: SlabModel, block: int)
    requires
        slab.well_formed(),
        idle_in(slab, block),
    ensures
        forall|other: int| #[trigger] idle_in(slab.recycling(block), other) <==> idle_in(slab, other) && other != block,
{
    lemma_recycling(slab, block);
    let after = slab.recycling(block);
    assert forall|other: int| #[trigger] idle_in(after, other) <==> idle_in(slab, other) && other != block by {
        assert(after.index_of(other) == slab.index_of(other));
        assert(after.in_remote_list(other) == slab.in_remote_list(other));
        if slab.handed_out(other) && other != block {
            lemma_distinct_indices(slab, block, other);
        }
    }
}

/// Recycling one idle block leaves every other idle block idle.
pub proof fn lemma_recycled_inv(heap: SmallHeap, sizes: Seq<usize>, context: bool, class: int, block: usize)
    requires
        heap.inv(sizes),
        valid_sizes(sizes),
        0 <= class < sizes.len(),
        heap.live(sizes, context, class, block),
    ensures
        heap.recycled(context, class, block).inv(sizes),
        heap.recycled(context, class, block).lists(context).hot == heap.lists(context).hot,
        heap.recycled(context, class, block).lists(!context).hot == heap.lists(!context).hot,
        forall|x: bool, c: int, other: usize|
            0 <= c < sizes.len() ==> (#[trigger] heap.recycled(context, class, block).live(sizes, x, c, other) <==> heap.live(
                sizes,
                x,
                c,
                other,
            ) && !(x == context && c == class && other == block)),
{
    let address = segment_of(block as int) as usize;
    let slab = heap.slabs[address];
    let after = slab.recycling(block as int);
    lemma_recycling(slab, block as int);
    lemma_recycle_idle(slab, block as int);
    let changed = heap.with_slab(address, after);
    assert forall|x: bool, c: int, a: usize| #[trigger] changed.slab_of_class(sizes, x, c, a) == heap.slab_of_class(sizes, x, c, a) by {}
    assert forall|x: bool, c: int, other: usize| 0 <= c < sizes.len() implies (#[trigger] changed.idle_block(sizes, x, c, other) <==> heap.idle_block(
        sizes,
        x,
        c,
        other,
    ) && !(x == context && c == class && other == block)) by {
        let at = segment_of(other as int) as usize;
        assert(changed.slab_of_class(sizes, x, c, at) == heap.slab_of_class(sizes, x, c, at));
        if at == address {
            assert(idle_in(after, other as int) <==> idle_in(slab, other as int) && other != block);
            if heap.slab_of_class(sizes, x, c, at) {
                lemma_marked(context, class, slab.marker);
                lemma_marked(x, c, slab.marker);
            }
        }
    }
    assert(changed.inv(sizes)) by {
        assert forall|x: bool, c: int| 0 <= c < sizes.len() implies #[trigger] changed.hot_ok(sizes, x, c) by {
            assert(heap.hot_ok(sizes, x, c));
            assert(changed.hot(x, c) == heap.hot(x, c));
        }
        assert forall|x: bool, c: int| 0 <= c < sizes.len() implies #[trigger] changed.partial_ok(sizes, x, c) by {
            assert(heap.partial_ok(sizes, x, c));
            assert(changed.partial(x, c) == heap.partial(x, c));
        }
        assert forall|position: int| 0 <= position < changed.inbox.len() implies changed.slab_of_some_class(
            sizes,
            #[trigger] changed.inbox[position],
        ) by {
            assert(heap.slab_of_some_class(sizes, heap.inbox[position]));
            let (x, c) = choose|x: bool, c: int|
                0 <= c < sizes.len() && #[trigger] heap.slab_of_class(sizes, x, c, heap.inbox[position]);
            assert(changed.slab_of_class(sizes, x, c, changed.inbox[position]));
        }
    }
    let partial = heap.partial(context, class);
    let longer = partial.push(address);
    assert(changed.partial_ok(sizes, context, class));
    assert forall|at: int| 0 <= at < longer.len() implies changed.slab_of_class(sizes, context, class, #[trigger] longer[at]) by {
        if at < partial.len() {
            assert(changed.slab_of_class(sizes, context, class, partial[at]));
        }
    }
    lemma_inv_partial(changed, sizes, context, class, longer);
    let result = heap.recycled(context, class, block);
    assert forall|x: bool, c: int, other: usize| 0 <= c < sizes.len() implies (#[trigger] result.live(sizes, x, c, other) <==> heap.live(
        sizes,
        x,
        c,
        other,
    ) && !(x == context && c == class && other == block)) by {
        assert(result.idle_block(sizes, x, c, other) == changed.idle_block(sizes, x, c, other)) by {
            assert(result.slabs == changed.slabs);
        }
        assert(result.hot(x, c) == heap.hot(x, c));
    }
}

impl SlabTable {
    fn subtract_padding(&mut self, address: usize, padding: usize)
        requires
            old(self).wf(),
            old(self)@.dom().contains(address),
            old(self)@[address].shared || total_padding(old(self)@[address].remote) + padding <= old(self)@[address].padding,
        ensures
            final(self).wf(),
            final(self)@ == (if old(self)@[address].shared {
                old(self)@
            } else {
                old(self)@.insert(
                    address,
                    (SlabModel { padding: old(self)@[address].padding - padding, ..old(self)@[address] }),
                )
            }),
    {
        let ghost before = *self;
        let index: usize = self.position(address).unwrap();
        assert(self.slabs@[index as int].wf());
        if self.slabs[index].shared {
            return ;
        }
        proof {
            lemma_total_padding(before.slabs@[index as int].remote_free@);
        }
        self.slabs[index].padding_bytes = self.slabs[index].padding_bytes - padding;
        proof {
            let slab = before.slabs@[index as int]@;
            let changed = self.slabs@[index as int];
            assert(changed@ =~= (SlabModel { padding: slab.padding - padding, ..slab }));
            assert(changed@.free() =~= slab.free());
            assert forall|position: int| 0 <= position < changed@.remote.len() implies changed@.handed_out(
                (#[trigger] changed@.remote[position]).block as int,
            ) by {
                assert(slab.handed_out(slab.remote[position].block as int));
            }
            assert(changed.wf());
            lemma_changed_slab(&before, self, index as int);
        }
    }

    fn recycle_at(&mut self, address: usize, block: usize, shift: u8, reciprocal: u64) -> (was_full: bool)
        requires
            old(self).wf(),
            old(self)@.dom().contains(address),
            idle_in(old(self)@[address], block as int),
            divides_by(shift, reciprocal, old(self)@[address].block_size),
        ensures
            final(self).wf(),
            final(self)@ == old(self)@.insert(address, old(self)@[address].recycling(block as int)),
            was_full == (old(self)@[address].free().len() == 0),
    {
        let ghost before = *self;
        let index: usize = self.position(address).unwrap();
        assert(self.slabs@[index as int].wf());
        let was_full: bool = self.slabs[index].free_count == 0;
        self.slabs[index].recycle(block, shift, reciprocal);
        proof {
            assert(self.slabs@[index as int]@.address == before.slabs@[index as int]@.address);
            lemma_changed_slab(&before, self, index as int);
        }
        was_full
    }

    fn push_remote_at(&mut self, address: usize, block: usize, padding: usize) -> (was_queued: bool)
        requires
            old(self).wf(),
            old(self)@.dom().contains(address),
            idle_in(old(self)@[address], block as int),
            total_padding(old(self)@[address].remote) + padding <= old(self)@[address].padding,
        ensures
            final(self).wf(),
            final(self)@ == old(self)@.insert(
                address,
                (SlabModel {
                    remote: old(self)@[address].remote.push(RemoteFree { block, padding }),
                    queued: true,
                    ..old(self)@[address]
                }),
            ),
            was_queued == old(self)@[address].queued,
    {
        let ghost before = *self;
        let index: usize = self.position(address).unwrap();
        assert(self.slabs@[index as int].wf());
        let was_queued: bool = self.slabs[index].remote_queued;
        self.slabs[index].push_remote(block, padding);
        let ghost middle = self.slabs@[index as int];
        self.slabs[index].remote_queued = true;
        proof {
            let changed = self.slabs@[index as int];
            assert(changed@ =~= (SlabModel { queued: true, ..middle@ }));
            assert(changed@.free() =~= middle@.free());
            assert forall|position: int| 0 <= position < changed@.remote.len() implies changed@.handed_out(
                (#[trigger] changed@.remote[position]).block as int,
            ) by {
                assert(middle@.handed_out(middle@.remote[position].block as int));
            }
            assert(changed.wf());
            assert(middle@.address == before.slabs@[index as int]@.address);
            lemma_changed_slab(&before, self, index as int);
        }
        was_queued
    }
}

/// Takes back a block that the heap's own thread freed.
pub fn push_block(
    state: &mut SmallState,
    slabs: &mut SlabTable,
    tuning: &Tuning,
    context: bool,
    class: usize,
    block: usize,
    padding: usize,
)
    requires
        tuning.wf(),
        class < tuning.sizes@.len(),
        old(slabs).wf(),
        small(old(state), old(slabs)).inv(tuning.sizes@),
        small(old(state), old(slabs)).live(tuning.sizes@, context, class as int, block),
        old(slabs)@[segment_of(block as int) as usize].shared || total_padding(
            old(slabs)@[segment_of(block as int) as usize].remote,
        ) + padding <= old(slabs)@[segment_of(block as int) as usize].padding,
    ensures
        final(slabs).wf(),
        small(final(state), final(slabs)).inv(tuning.sizes@),
        small(final(state), final(slabs)) == small(old(state), old(slabs)).push(context, class as int, block, padding as int),
        forall|x: bool, c: int, other: usize|
            0 <= c < tuning.sizes@.len() ==> (#[trigger] small(final(state), final(slabs)).live(tuning.sizes@, x, c, other) <==> small(
                old(state),
                old(slabs),
            ).live(tuning.sizes@, x, c, other) && !(x == context && c == class && other == block)),
{
    let ghost before = small(state, slabs);
    let ghost sizes = tuning.sizes@;
    let address: usize = allocation_segment(block);
    slabs.subtract_padding(address, padding);
    let ghost lighter = small(state, slabs);
    proof {
        lemma_less_padding(before, sizes, block, padding as int);
        assert(lighter =~= before.less_padding(block, padding as int));
        assert(before.slabs[address].well_formed());
        assert(block != 0);
    }
    let hot = state.hot(context, class);
    let displaced: usize = hot.cached_second;
    let shifted = ClassHot { cached_first: block, cached_second: hot.cached_first, active: hot.active };
    state.set_hot(context, class, shifted);
    let ghost cached = small(state, slabs);
    proof {
        assert(lighter.hot_ok(sizes, context, class as int));
        assert(lighter.idle_block(sizes, context, class as int, block));
        assert(lighter.hot_fits(sizes, context, class as int, shifted));
        lemma_inv_hot(lighter, sizes, context, class as int, shifted);
        assert(cached == lighter.with_hot(context, class as int, shifted));
        assert forall|x: bool, c: int, other: usize| 0 <= c < sizes.len() implies (#[trigger] cached.live(sizes, x, c, other) <==> (
        before.live(sizes, x, c, other) && !(x == context && c == class && other == block)) || (x == context && c == class && other
            == displaced && displaced != 0)) by {
            assert(cached.idle_block(sizes, x, c, other) == lighter.idle_block(sizes, x, c, other)) by {
                assert(cached.slabs == lighter.slabs);
            }
            if x == context && c == class {
                assert(cached.hot(x, c) == shifted);
                assert(before.hot_ok(sizes, x, c));
            } else {
                assert(cached.hot(x, c) == before.hot(x, c));
            }
        }
    }
    if displaced == 0 {
        return ;
    }
    let home: usize = allocation_segment(displaced);
    proof {
        assert(cached.live(sizes, context, class as int, displaced));
        assert(cached.slab_of_class(sizes, context, class as int, home));
        lemma_recycled_inv(cached, sizes, context, class as int, displaced);
        assert(tuning.sizes@[class as int] == cached.slabs[home].block_size);
    }
    let was_full: bool = slabs.recycle_at(home, displaced, tuning.shifts[class], tuning.reciprocals[class]);
    if was_full && hot.active != home {
        state.push_partial(context, class, home);
    }
    assert(small(state, slabs) =~= cached.recycled(context, class as int, displaced));
    proof {
        let after = small(state, slabs);
        assert forall|x: bool, c: int, other: usize| 0 <= c < sizes.len() implies (#[trigger] after.live(sizes, x, c, other) <==> before.live(
            sizes,
            x,
            c,
            other,
        ) && !(x == context && c == class && other == block)) by {
            assert(after.live(sizes, x, c, other) <==> cached.live(sizes, x, c, other) && !(x == context && c == class && other
                == displaced));
            if x == context && c == class && other == displaced {
                assert(before.cached(x, c, displaced));
            }
        }
    }
}

/// Takes back a block that another thread freed: it waits until the heap's thread looks.
pub fn push_remote_block(state: &mut SmallState, slabs: &mut SlabTable, tuning: &Tuning, context: bool, class: usize, block: usize, padding: usize)
    requires
        tuning.wf(),
        class < tuning.sizes@.len(),
        old(slabs).wf(),
        small(old(state), old(slabs)).inv(tuning.sizes@),
        small(old(state), old(slabs)).live(tuning.sizes@, context, class as int, block),
        total_padding(old(slabs)@[segment_of(block as int) as usize].remote) + padding <= old(
            slabs,
        )@[segment_of(block as int) as usize].padding,
    ensures
        final(slabs).wf(),
        small(final(state), final(slabs)).inv(tuning.sizes@),
        small(final(state), final(slabs)) == small(old(state), old(slabs)).push_remote(block, padding),
        forall|x: bool, c: int, other: usize|
            0 <= c < tuning.sizes@.len() ==> (#[trigger] small(final(state), final(slabs)).live(tuning.sizes@, x, c, other) <==> small(
                old(state),
                old(slabs),
            ).live(tuning.sizes@, x, c, other) && !(x == context && c == class && other == block)),
{
    let ghost before = small(state, slabs);
    let ghost sizes = tuning.sizes@;
    let address: usize = allocation_segment(block);
    let ghost slab = before.slabs[address];
    assert(idle_in(slab, block as int));
    let was_queued: bool = slabs.push_remote_at(address, block, padding);
    let ghost waiting = small(state, slabs);
    let ghost after = slabs@[address];
    proof {
        assert(waiting =~= before.with_slab(address, after));
        assert(after.well_formed()) by {
            lemma_at_address(slabs, address);
        }
        assert forall|other: int| #[trigger] idle_in(after, other) <==> idle_in(slab, other) && other != block by {
            assert(after.index_of(other) == slab.index_of(other));
            let list = slab.remote.push(RemoteFree { block, padding });
            assert(list[slab.remote.len() as int].block == block);
            if slab.in_remote_list(other) {
                let at = choose|at: int| 0 <= at < slab.remote.len() && (#[trigger] slab.remote[at]).block == other;
                assert(after.remote[at].block == other);
            }
            if after.in_remote_list(other) {
                let at = choose|at: int| 0 <= at < after.remote.len() && (#[trigger] after.remote[at]).block == other;
                if at < slab.remote.len() {
                    assert(slab.remote[at].block == other);
                }
            }
            if other == block {
                assert(after.remote[slab.remote.len() as int].block == other);
            }
        }
        lemma_waiting(before, waiting, sizes, context, class as int, address, block);
    }
    if !was_queued {
        state.inbox.push(address);
        proof {
            let queued = small(state, slabs);
            assert(queued =~= (SmallHeap { inbox: before.inbox.push(address), ..waiting }));
            lemma_inbox_pushed(waiting, queued, sizes, context, class as int, address);
            assert forall|x: bool, c: int, other: usize| 0 <= c < sizes.len() implies (#[trigger] queued.live(sizes, x, c, other)
                <==> before.live(sizes, x, c, other) && !(x == context && c == class && other == block)) by {
                assert(queued.live(sizes, x, c, other) == waiting.live(sizes, x, c, other)) by {
                    assert(queued.hot(x, c) == waiting.hot(x, c));
                }
            }
        }
    }
    assert(small(state, slabs) =~= before.push_remote(block, padding));
}

/// Each slab of a table of well formed slabs has a well formed model.
pub proof fn lemma_at_address(table: &SlabTable, address: usize)
    requires
        table.wf(),
        table@.dom().contains(address),
    ensures
        table@[address].well_formed(),
        table@[address].address == address,
        table@[address].free().finite(),
{
    let index = table.at(address);
    assert(table.is_at(index, address));
    assert(table.slabs@[index].wf());
}

/// A change of one slab that ends the idleness of one block keeps the invariant, where that
/// block is not cached.
proof fn lemma_waiting(before: SmallHeap, waiting: SmallHeap, sizes: Seq<usize>, context: bool, class: int, address: usize, block: usize)
    requires
        before.inv(sizes),
        valid_sizes(sizes),
        0 <= class < sizes.len(),
        before.live(sizes, context, class, block),
        address == segment_of(block as int),
        before.slabs.dom().contains(address),
        waiting == before.with_slab(address, waiting.slabs[address]),
        waiting.slabs[address].well_formed(),
        waiting.slabs[address].address == before.slabs[address].address,
        waiting.slabs[address].block_size == before.slabs[address].block_size,
        waiting.slabs[address].marker == before.slabs[address].marker,
        forall|other: int|
            #[trigger] idle_in(waiting.slabs[address], other) <==> idle_in(before.slabs[address], other) && other != block,
    ensures
        waiting.inv(sizes),
        forall|x: bool, c: int, other: usize|
            0 <= c < sizes.len() ==> (#[trigger] waiting.live(sizes, x, c, other) <==> before.live(sizes, x, c, other) && !(x
                == context && c == class && other == block)),
{
    let slab = before.slabs[address];
    let after = waiting.slabs[address];
    assert forall|x: bool, c: int, a: usize| #[trigger] waiting.slab_of_class(sizes, x, c, a) == before.slab_of_class(sizes, x, c, a) by {}
    assert forall|x: bool, c: int, other: usize| 0 <= c < sizes.len() implies (#[trigger] waiting.idle_block(sizes, x, c, other) <==> before.idle_block(
        sizes,
        x,
        c,
        other,
    ) && !(x == context && c == class && other == block)) by {
        let at = segment_of(other as int) as usize;
        assert(waiting.slab_of_class(sizes, x, c, at) == before.slab_of_class(sizes, x, c, at));
        if at == address {
            assert(idle_in(after, other as int) <==> idle_in(slab, other as int) && other != block);
            if before.slab_of_class(sizes, x, c, at) {
                lemma_marked(context, class, slab.marker);
                lemma_marked(x, c, slab.marker);
            }
        }
    }
    assert forall|x: bool, c: int| 0 <= c < sizes.len() implies #[trigger] waiting.hot_ok(sizes, x, c) by {
        assert(before.hot_ok(sizes, x, c));
        assert(waiting.hot(x, c) == before.hot(x, c));
    }
    assert forall|x: bool, c: int| 0 <= c < sizes.len() implies #[trigger] waiting.partial_ok(sizes, x, c) by {
        assert(before.partial_ok(sizes, x, c));
        assert(waiting.partial(x, c) == before.partial(x, c));
    }
    assert forall|position: int| 0 <= position < waiting.inbox.len() implies waiting.slab_of_some_class(
        sizes,
        #[trigger] waiting.inbox[position],
    ) by {
        assert(before.slab_of_some_class(sizes, before.inbox[position]));
        let (x, c) = choose|x: bool, c: int|
            0 <= c < sizes.len() && #[trigger] before.slab_of_class(sizes, x, c, before.inbox[position]);
        assert(waiting.slab_of_class(sizes, x, c, waiting.inbox[position]));
    }
    assert forall|x: bool, c: int, other: usize| 0 <= c < sizes.len() implies (#[trigger] waiting.live(sizes, x, c, other) <==> before.live(
        sizes,
        x,
        c,
        other,
    ) && !(x == context && c == class && other == block)) by {
        assert(waiting.hot(x, c) == before.hot(x, c));
    }
}

proof fn lemma_inbox_pushed(heap: SmallHeap, queued: SmallHeap, sizes: Seq<usize>, context: bool, class: int, address: usize)
    requires
        heap.inv(sizes),
        0 <= class < sizes.len(),
        heap.slab_of_class(sizes, context, class, address),
        queued == (SmallHeap { inbox: heap.inbox.push(address), ..heap }),
    ensures
        queued.inv(sizes),
        forall|x: bool, c: int, other: usize|
            #[trigger] queued.idle_block(sizes, x, c, other) == heap.idle_block(sizes, x, c, other),
{
    assert forall|x: bool, c: int, a: usize| #[trigger] queued.slab_of_class(sizes, x, c, a) == heap.slab_of_class(sizes, x, c, a) by {}
    assert forall|x: bool, c: int| 0 <= c < sizes.len() implies #[trigger] queued.hot_ok(sizes, x, c) by {
        assert(heap.hot_ok(sizes, x, c));
        assert(queued.hot(x, c) == heap.hot(x, c));
    }
    assert forall|x: bool, c: int| 0 <= c < sizes.len() implies #[trigger] queued.partial_ok(sizes, x, c) by {
        assert(heap.partial_ok(sizes, x, c));
        assert(queued.partial(x, c) == heap.partial(x, c));
    }
    assert forall|position: int| 0 <= position < queued.inbox.len() implies queued.slab_of_some_class(
        sizes,
        #[trigger] queued.inbox[position],
    ) by {
        if position < heap.inbox.len() {
            assert(heap.slab_of_some_class(sizes, heap.inbox[position]));
            let (x, c) = choose|x: bool, c: int|
                0 <= c < sizes.len() && #[trigger] heap.slab_of_class(sizes, x, c, heap.inbox[position]);
            assert(queued.slab_of_class(sizes, x, c, queued.inbox[position]));
        } else {
            assert(queued.slab_of_class(sizes, context, class, address));
        }
    }
}

/// Taking a block from a slab makes that block, and no other, idle.
pub proof fn lemma_take_idle(slab: SlabModel, batch_limit: int)
    requires
        slab.well_formed(),
    ensures
        take_index(slab) matches Some(index) ==> {
            let block = slab.block_at(index);
            &&& slab.address < block < slab.address + SLAB_SIZE
            &&& !idle_in(slab, block)
            &&& forall|other: int| #[trigger] idle_in(take_after(slab, batch_limit), other) <==> idle_in(slab, other) || other == block
        },
        take_index(slab) is None ==> forall|other: int|
            #[trigger] idle_in(take_after(slab, batch_limit), other) <==> idle_in(slab, other),
{
    let source = if slab.next_block() is Some {
        slab
    } else {
        slab.drained()
    };
    if slab.next_block() is None {
        lemma_drain_idle(slab);
        lemma_drained(slab);
    }
    assert(source.well_formed());
    let after = take_after(slab, batch_limit);
    assert(after == source.after_take(batch_limit));
    lemma_next_block(source);
    match source.next_block() {
        None => {
            assert(after == source);
        },
        Some(index) => {
            lemma_take_removes(source, batch_limit);
            lemma_blocks(source.block_size);
            lemma_block_at(source, index);
            let block = source.block_at(index);
            let size = source.block_size;
            assert(1 <= source.first() <= index < source.count());
            assert(size <= index * size <= (source.count() - 1) * size) by (nonlinear_arith)
                requires
                    1 <= index <= source.count() - 1,
                    size >= 16,
            ;
            assert((source.count() - 1) * size < SLAB_SIZE) by {
                vstd::arithmetic::div_mod::lemma_fundamental_div_mod(SLAB_SIZE as int, size);
                assert((source.count() - 1) * size == size * source.count() - size) by (nonlinear_arith);
            }
            assert(source.free().contains(index));
            assert(!source.handed_out(block));
            assert(after.free() =~= source.free().remove(index));
            assert forall|other: int| #[trigger] idle_in(after, other) <==> idle_in(source, other) || other == block by {
                assert(after.index_of(other) == source.index_of(other));
                assert(after.in_remote_list(other) == source.in_remote_list(other)) by {
                    assert(after.remote == source.remote);
                }
                if source.handed_out(other) {
                    assert(!source.free().contains(source.index_of(other)));
                    assert(!after.free().contains(after.index_of(other)));
                }
                if after.handed_out(other) && !source.handed_out(other) {
                    assert(!after.free().contains(after.index_of(other)));
                    lemma_index_of(source, other);
                    assert(source.index_of(other) == index);
                    assert(other == block);
                }
                if other == block {
                    assert(after.index_of(block) == index);
                    assert(!after.free().contains(index));
                    assert(after.handed_out(block));
                    if source.in_remote_list(block) {
                        let at = choose|at: int| 0 <= at < source.remote.len() && (#[trigger] source.remote[at]).block == block;
                        assert(source.handed_out(source.remote[at].block as int));
                    }
                }
            }
            assert(slab.block_at(index) == block);
            assert(idle_in(source, block) <==> idle_in(slab, block));
            assert forall|other: int| #[trigger] idle_in(after, other) <==> idle_in(slab, other) || other == block by {
                assert(idle_in(source, other) <==> idle_in(slab, other));
            }
        },
    }
}

/// Taking the remote list in leaves the idle blocks as they are.
pub proof fn lemma_drain_idle(slab: SlabModel)
    requires
        slab.well_formed(),
    ensures
        forall|other: int| #[trigger] idle_in(slab.drained(), other) <==> idle_in(slab, other),
{
    let after = slab.drained();
    lemma_drain_keeps_idle(slab);
    assert forall|other: int| #[trigger] idle_in(after, other) <==> idle_in(slab, other) by {
        assert(after.index_of(other) == slab.index_of(other));
        if idle_in(slab, other) {
            assert(after.handed_out(other));
        }
        if after.handed_out(other) {
            assert(slab.handed_out(other));
            if slab.in_remote_list(other) {
                let at = choose|at: int| 0 <= at < slab.remote.len() && (#[trigger] slab.remote[at]).block == other;
                assert(slab.remote_blocks().contains(slab.index_of(other)));
            }
        }
    }
}

/// The same blocks are live in two heaps that differ in slabs whose idle blocks are the same,
/// and in lists that no cached block is in.
proof fn lemma_same_live(heap: SmallHeap, changed: SmallHeap, sizes: Seq<usize>)
    requires
        heap.slabs.dom() == changed.slabs.dom(),
        forall|address: usize|
            #![trigger changed.slabs[address]]
            heap.slabs.dom().contains(address) ==> changed.slabs[address].address == heap.slabs[address].address
                && changed.slabs[address].block_size == heap.slabs[address].block_size && changed.slabs[address].marker
                == heap.slabs[address].marker,
        forall|address: usize, block: int|
            heap.slabs.dom().contains(address) ==> (#[trigger] idle_in(changed.slabs[address], block) <==> idle_in(
                heap.slabs[address],
                block,
            )),
        forall|context: bool, class: int|
            0 <= class < sizes.len() ==> (#[trigger] changed.hot(context, class)).cached_first == heap.hot(context, class).cached_first
                && changed.hot(context, class).cached_second == heap.hot(context, class).cached_second,
    ensures
        forall|x: bool, c: int, other: usize|
            0 <= c < sizes.len() ==> (#[trigger] changed.live(sizes, x, c, other) <==> heap.live(sizes, x, c, other)),
{
    assert forall|x: bool, c: int, other: usize| 0 <= c < sizes.len() implies (#[trigger] changed.live(sizes, x, c, other) <==> heap.live(
        sizes,
        x,
        c,
        other,
    )) by {
        let at = segment_of(other as int) as usize;
        assert(changed.hot(x, c).cached_first == heap.hot(x, c).cached_first);
        assert(changed.slab_of_class(sizes, x, c, at) == heap.slab_of_class(sizes, x, c, at)) by {
            if heap.slabs.dom().contains(at) {
                assert(changed.slabs[at].address == heap.slabs[at].address);
            }
        }
        if heap.slabs.dom().contains(at) {
            assert(idle_in(changed.slabs[at], other as int) <==> idle_in(heap.slabs[at], other as int));
        }
    }
}

proof fn lemma_drain_slab_live(heap: SmallHeap, sizes: Seq<usize>, address: usize)
    requires
        heap.inv(sizes),
        valid_sizes(sizes),
        heap.slab_of_some_class(sizes, address),
    ensures
        forall|x: bool, c: int, other: usize|
            0 <= c < sizes.len() ==> (#[trigger] heap.drain_slab(address).live(sizes, x, c, other) <==> heap.live(sizes, x, c, other)),
{
    lemma_drain_slab(heap, sizes, address);
    let slab = heap.slabs[address];
    let drained = SlabModel { queued: false, ..slab.drained() };
    lemma_drain_idle(slab);
    assert forall|block: int| #[trigger] idle_in(drained, block) <==> idle_in(slab, block) by {
        assert(idle_in(slab.drained(), block) <==> idle_in(slab, block));
        assert(drained.in_remote_list(block) == slab.drained().in_remote_list(block));
    }
    let changed = heap.drain_slab(address);
    assert(changed.slabs.dom() =~= heap.slabs.dom());
    assert forall|context: bool, class: int| 0 <= class < sizes.len() implies #[trigger] changed.hot(context, class) == heap.hot(
        context,
        class,
    ) by {}
    lemma_same_live(heap, changed, sizes);
}

proof fn lemma_drain_list_live(heap: SmallHeap, sizes: Seq<usize>, list: Seq<usize>)
    requires
        heap.inv(sizes),
        valid_sizes(sizes),
        forall|position: int| 0 <= position < list.len() ==> heap.slab_of_some_class(sizes, #[trigger] list[position]),
    ensures
        forall|x: bool, c: int, other: usize|
            0 <= c < sizes.len() ==> (#[trigger] heap.drain_list(list).live(sizes, x, c, other) <==> heap.live(sizes, x, c, other)),
    decreases list.len(),
{
    if list.len() > 0 {
        lemma_drain_slab(heap, sizes, list.last());
        lemma_drain_slab_live(heap, sizes, list.last());
        let rest = list.drop_last();
        let next = heap.drain_slab(list.last());
        assert forall|position: int| 0 <= position < rest.len() implies next.slab_of_some_class(sizes, #[trigger] rest[position]) by {
            assert(heap.slab_of_some_class(sizes, list[position]));
        }
        lemma_drain_list_live(next, sizes, rest);
        assert(heap.drain_list(list) == next.drain_list(rest));
        assert forall|x: bool, c: int, other: usize| 0 <= c < sizes.len() implies (#[trigger] heap.drain_list(list).live(
            sizes,
            x,
            c,
            other,
        ) <==> heap.live(sizes, x, c, other)) by {
            assert(next.live(sizes, x, c, other) <==> heap.live(sizes, x, c, other));
        }
    }
}

/// Taking in what other threads freed changes nothing of what is in use.
pub proof fn law_draining_keeps_blocks_in_use(heap: SmallHeap, sizes: Seq<usize>)
    requires
        heap.inv(sizes),
        valid_sizes(sizes),
    ensures
        forall|x: bool, c: int, other: usize|
            0 <= c < sizes.len() ==> (#[trigger] heap.drain_inbox().live(sizes, x, c, other) <==> heap.live(sizes, x, c, other)),
{
    lemma_inbox_emptied(heap, sizes);
    let emptied = SmallHeap { inbox: Seq::empty(), ..heap };
    assert forall|position: int| 0 <= position < heap.inbox.len() implies emptied.slab_of_some_class(
        sizes,
        #[trigger] heap.inbox[position],
    ) by {
        assert(heap.slab_of_some_class(sizes, heap.inbox[position]));
    }
    lemma_drain_list_live(emptied, sizes, heap.inbox);
    assert forall|context: bool, class: int| 0 <= class < sizes.len() implies #[trigger] emptied.hot(context, class) == heap.hot(
        context,
        class,
    ) by {}
    lemma_same_live(heap, emptied, sizes);
    assert forall|x: bool, c: int, other: usize| 0 <= c < sizes.len() implies (#[trigger] heap.drain_inbox().live(sizes, x, c, other)
        <==> heap.live(sizes, x, c, other)) by {
        assert(emptied.live(sizes, x, c, other) <==> heap.live(sizes, x, c, other));
    }
}

/// Asking the active slab makes the block that it hands out, and no other, live.
proof fn lemma_active_live(heap: SmallHeap, sizes: Seq<usize>, context: bool, class: int, batch_limit: int)
    requires
        heap.inv(sizes),
        valid_sizes(sizes),
        0 <= class < sizes.len(),
    ensures
        ({
            let block = heap.active_block(context, class);
            let after = heap.after_active(context, class, batch_limit);
            &&& 0 <= block <= usize::MAX
            &&& block != 0 ==> !heap.live(sizes, context, class, block as usize)
            &&& forall|x: bool, c: int, other: usize|
                0 <= c < sizes.len() ==> (#[trigger] after.live(sizes, x, c, other) <==> heap.live(sizes, x, c, other) || (block
                    != 0 && x == context && c == class && other == block))
        }),
{
    let active = heap.hot(context, class).active;
    let after = heap.after_active(context, class, batch_limit);
    assert(heap.hot_ok(sizes, context, class));
    if active != 0 {
        let slab = heap.slabs[active];
        let taken = take_after(slab, batch_limit);
        assert(heap.slab_of_class(sizes, context, class, active));
        lemma_take_idle(slab, batch_limit);
        lemma_take_after(slab, batch_limit);
        let block = heap.active_block(context, class);
        assert forall|x: bool, c: int, other: usize| 0 <= c < sizes.len() implies (#[trigger] after.live(sizes, x, c, other) <==> heap.live(
            sizes,
            x,
            c,
            other,
        ) || (block != 0 && x == context && c == class && other == block)) by {
            let at = segment_of(other as int) as usize;
            assert(after.hot(x, c) == heap.hot(x, c));
            assert(heap.hot_ok(sizes, x, c));
            assert(after.slab_of_class(sizes, x, c, at) == heap.slab_of_class(sizes, x, c, at));
            if block != 0 {
                assert(slab.address < block < slab.address + SLAB_SIZE);
                assert(segment_of(block) == slab.address) by {
                    let size = SLAB_SIZE as int;
                    vstd::arithmetic::div_mod::lemma_fundamental_div_mod(slab.address, size);
                    vstd::arithmetic::div_mod::lemma_fundamental_div_mod_converse(
                        block,
                        size,
                        slab.address / size,
                        block - slab.address,
                    );
                }
                if heap.cached(context, class, block as usize) {
                    assert(heap.idle_block(sizes, context, class, block as usize));
                }
            }
            if at == active {
                assert(idle_in(taken, other as int) <==> idle_in(slab, other as int) || (block != 0 && other == block));
                if heap.slab_of_class(sizes, x, c, at) {
                    lemma_marked(context, class, slab.marker);
                    lemma_marked(x, c, slab.marker);
                }
            }
        }
        if block != 0 {
            assert(after.live(sizes, context, class, block as usize));
            assert(!idle_in(slab, block));
        }
    }
}

/// A block that is served was not in use before. Afterwards it is, and everything else is in
/// use exactly where it was before.
pub proof fn law_served_block_was_not_in_use(
    heap: SmallHeap,
    sizes: Seq<usize>,
    context: bool,
    class: int,
    batch_limit: int,
    scan_limit: int,
)
    requires
        heap.inv(sizes),
        valid_sizes(sizes),
        0 <= class < sizes.len(),
    ensures
        ({
            let (block, after, drained) = heap.pop(context, class, batch_limit, scan_limit);
            &&& 0 <= block <= usize::MAX
            &&& block != 0 ==> !heap.live(sizes, context, class, block as usize)
            &&& forall|x: bool, c: int, other: usize|
                0 <= c < sizes.len() ==> (#[trigger] after.live(sizes, x, c, other) <==> heap.live(sizes, x, c, other) || (block
                    != 0 && x == context && c == class && other == block))
        }),
{
    let (block, after, drained) = heap.pop(context, class, batch_limit, scan_limit);
    let hot = heap.hot(context, class);
    assert(heap.hot_ok(sizes, context, class));
    lemma_active_live(heap, sizes, context, class, batch_limit);
    if hot.cached_first != 0 {
        assert forall|x: bool, c: int, other: usize| 0 <= c < sizes.len() implies (#[trigger] after.live(sizes, x, c, other) <==> heap.live(
            sizes,
            x,
            c,
            other,
        ) || (block != 0 && x == context && c == class && other == block)) by {
            assert(after.idle_block(sizes, x, c, other) == heap.idle_block(sizes, x, c, other)) by {
                assert(after.slabs == heap.slabs);
            }
            if x == context && c == class {
                assert(after.hot(x, c).cached_first == hot.cached_second);
            } else {
                assert(after.hot(x, c) == heap.hot(x, c));
            }
        }
    } else if heap.active_block(context, class) != 0 {
    } else {
        let tried = heap.after_active(context, class, batch_limit);
        lemma_after_active(heap, sizes, context, class, batch_limit);
        let emptied = tried.without_active(context, class);
        lemma_without_active(tried, sizes, context, class);
        assert forall|x: bool, c: int| 0 <= c < sizes.len() implies (#[trigger] emptied.hot(x, c)).cached_first == tried.hot(
            x,
            c,
        ).cached_first && emptied.hot(x, c).cached_second == tried.hot(x, c).cached_second by {}
        lemma_same_live(tried, emptied, sizes);
        let searched = emptied.before_select(context, class, scan_limit);
        lemma_drain_inbox(emptied, sizes);
        law_draining_keeps_blocks_in_use(emptied, sizes);
        let selected = searched.after_select(context, class, scan_limit);
        lemma_after_select(searched, sizes, context, class, scan_limit);
        assert forall|x: bool, c: int| 0 <= c < sizes.len() implies (#[trigger] selected.hot(x, c)).cached_first == searched.hot(
            x,
            c,
        ).cached_first && selected.hot(x, c).cached_second == searched.hot(x, c).cached_second by {}
        lemma_same_live(searched, selected, sizes);
        lemma_active_live(selected, sizes, context, class, batch_limit);
        assert forall|x: bool, c: int, other: usize| 0 <= c < sizes.len() implies (selected.live(sizes, x, c, other) <==> #[trigger] heap.live(
            sizes,
            x,
            c,
            other,
        )) by {
            assert(selected.live(sizes, x, c, other) <==> searched.live(sizes, x, c, other));
            assert(searched.live(sizes, x, c, other) <==> emptied.live(sizes, x, c, other));
            assert(emptied.live(sizes, x, c, other) <==> tried.live(sizes, x, c, other));
            assert(tried.live(sizes, x, c, other) <==> heap.live(sizes, x, c, other));
        }
        if block != 0 {
            assert(!heap.live(sizes, context, class, block as usize));
        }
    }
}

} // verus!
