//! What the work on one heap leaves as it was for the others.

use vstd::prelude::*;

use crate::allocator::blocks::{
    lemma_after_active, lemma_after_select, lemma_drain_inbox, lemma_drain_slab, lemma_without_active,
};
use crate::allocator::slab::{lemma_blocks, lemma_distinct_indices, total_padding, RemoteFree, SlabModel};
use crate::allocator::small::{take_after, SmallHeap};
use crate::tunables::valid_sizes;

verus! {

/// The padding of the blocks in use, without those that wait to be drained.
pub open spec fn net_padding(slab: SlabModel) -> int {
    slab.padding - total_padding(slab.remote)
}

/// Whether the slab is the same one.
pub open spec fn alike_slab(before: SlabModel, after: SlabModel) -> bool {
    &&& after.address == before.address
    &&& after.block_size == before.block_size
    &&& after.marker == before.marker
    &&& after.owner == before.owner
    &&& after.shared == before.shared
}

/// Whether the slabs are the same ones.
pub open spec fn alike(before: Map<usize, SlabModel>, after: Map<usize, SlabModel>) -> bool {
    &&& after.dom() == before.dom()
    &&& forall|address: usize| #[trigger] before.dom().contains(address) ==> alike_slab(before[address], after[address])
}

/// Whether the slab is the same one, with the same padding in use.
pub open spec fn steady_slab(before: SlabModel, after: SlabModel) -> bool {
    &&& alike_slab(before, after)
    &&& net_padding(after) == net_padding(before)
    &&& after.remote == before.remote || after.remote.len() == 0
}

/// Whether the slabs are the same ones, with the same padding in use.
pub open spec fn steady(before: Map<usize, SlabModel>, after: Map<usize, SlabModel>) -> bool {
    &&& after.dom() == before.dom()
    &&& forall|address: usize| #[trigger] before.dom().contains(address) ==> steady_slab(before[address], after[address])
}

pub proof fn lemma_steady_trans(first: Map<usize, SlabModel>, second: Map<usize, SlabModel>, third: Map<usize, SlabModel>)
    requires
        steady(first, second),
        steady(second, third),
    ensures
        steady(first, third),
{
    assert forall|address: usize| #[trigger] first.dom().contains(address) implies steady_slab(first[address], third[address]) by {
        assert(second.dom().contains(address));
    }
}

pub proof fn lemma_steady_insert(slabs: Map<usize, SlabModel>, address: usize, after: SlabModel)
    requires
        slabs.dom().contains(address),
        steady_slab(slabs[address], after),
    ensures
        steady(slabs, slabs.insert(address, after)),
{
    assert(slabs.insert(address, after).dom() =~= slabs.dom());
}

pub proof fn lemma_take_steady(slab: SlabModel, batch_limit: int)
    ensures
        steady_slab(slab, take_after(slab, batch_limit)),
        steady_slab(slab, slab.drained()),
        steady_slab(slab, (SlabModel { queued: false, ..slab.drained() })),
{
    assert(total_padding(Seq::<RemoteFree>::empty()) == 0);
}

proof fn lemma_drain_slab_steady(heap: SmallHeap, address: usize)
    requires
        heap.slabs.dom().contains(address),
    ensures
        steady(heap.slabs, heap.drain_slab(address).slabs),
{
    lemma_take_steady(heap.slabs[address], 0);
    lemma_steady_insert(heap.slabs, address, SlabModel { queued: false, ..heap.slabs[address].drained() });
    assert(heap.drain_slab(address).slabs == heap.slabs.insert(address, (SlabModel { queued: false, ..heap.slabs[address].drained() })));
}

proof fn lemma_drain_list_steady(heap: SmallHeap, sizes: Seq<usize>, list: Seq<usize>)
    requires
        heap.inv(sizes),
        valid_sizes(sizes),
        forall|position: int| 0 <= position < list.len() ==> heap.slab_of_some_class(sizes, #[trigger] list[position]),
    ensures
        steady(heap.slabs, heap.drain_list(list).slabs),
    decreases list.len(),
{
    if list.len() > 0 {
        let address = list.last();
        assert(heap.slab_of_some_class(sizes, list[list.len() - 1]));
        lemma_drain_slab(heap, sizes, address);
        lemma_drain_slab_steady(heap, address);
        assert forall|position: int| 0 <= position < list.drop_last().len() implies heap.drain_slab(address).slab_of_some_class(
            sizes,
            #[trigger] list.drop_last()[position],
        ) by {
            assert(heap.slab_of_some_class(sizes, list[position]));
        }
        lemma_drain_list_steady(heap.drain_slab(address), sizes, list.drop_last());
        lemma_steady_trans(heap.slabs, heap.drain_slab(address).slabs, heap.drain_list(list).slabs);
    }
}

proof fn lemma_drain_inbox_steady(heap: SmallHeap, sizes: Seq<usize>)
    requires
        heap.inv(sizes),
        valid_sizes(sizes),
    ensures
        steady(heap.slabs, heap.drain_inbox().slabs),
{
    let emptied = SmallHeap { inbox: Seq::empty(), ..heap };
    assert forall|context: bool, class: int| 0 <= class < sizes.len() implies #[trigger] emptied.hot_ok(sizes, context, class) by {
        assert(heap.hot_ok(sizes, context, class));
    }
    assert forall|context: bool, class: int| 0 <= class < sizes.len() implies #[trigger] emptied.partial_ok(sizes, context, class) by {
        assert(heap.partial_ok(sizes, context, class));
        let partial = heap.partial(context, class);
        assert forall|position: int| 0 <= position < partial.len() implies emptied.slab_of_class(
            sizes,
            context,
            class,
            #[trigger] partial[position],
        ) by {
            assert(heap.slab_of_class(sizes, context, class, partial[position]));
        }
    }
    assert(emptied.inv(sizes));
    assert forall|position: int| 0 <= position < heap.inbox.len() implies emptied.slab_of_some_class(sizes, #[trigger] heap.inbox[position]) by {
        assert(heap.slab_of_some_class(sizes, heap.inbox[position]));
        let (context, class) = choose|context: bool, class: int|
            0 <= class < sizes.len() && #[trigger] heap.slab_of_class(sizes, context, class, heap.inbox[position]);
        assert(emptied.slab_of_class(sizes, context, class, heap.inbox[position]));
    }
    lemma_drain_list_steady(emptied, sizes, heap.inbox);
}

proof fn lemma_active_steady(heap: SmallHeap, sizes: Seq<usize>, context: bool, class: int, batch_limit: int)
    requires
        heap.inv(sizes),
        0 <= class < sizes.len(),
    ensures
        steady(heap.slabs, heap.after_active(context, class, batch_limit).slabs),
{
    let active = heap.hot(context, class).active;
    assert(heap.hot_ok(sizes, context, class));
    if active != 0 {
        lemma_take_steady(heap.slabs[active], batch_limit);
        lemma_steady_insert(heap.slabs, active, take_after(heap.slabs[active], batch_limit));
    }
}

/// Handing out a block leaves every slab the one it was, with the same padding in use.
pub proof fn lemma_pop_steady(heap: SmallHeap, sizes: Seq<usize>, context: bool, class: int, batch_limit: int, scan_limit: int)
    requires
        heap.inv(sizes),
        valid_sizes(sizes),
        0 <= class < sizes.len(),
    ensures
        steady(heap.slabs, heap.pop(context, class, batch_limit, scan_limit).1.slabs),
{
    if heap.hot(context, class).cached_first != 0 {
    } else {
        lemma_active_steady(heap, sizes, context, class, batch_limit);
        if heap.active_block(context, class) == 0 {
            lemma_after_active(heap, sizes, context, class, batch_limit);
            let worked = heap.after_active(context, class, batch_limit);
            lemma_without_active(worked, sizes, context, class);
            let emptied = worked.without_active(context, class);
            if !emptied.can_select(context, class, scan_limit) {
                lemma_drain_inbox(emptied, sizes);
                lemma_drain_inbox_steady(emptied, sizes);
                lemma_steady_trans(heap.slabs, emptied.slabs, emptied.drain_inbox().slabs);
            }
            let searched = emptied.before_select(context, class, scan_limit);
            assert(searched.inv(sizes));
            assert(steady(heap.slabs, searched.slabs));
            lemma_after_select(searched, sizes, context, class, scan_limit);
            let selected = searched.after_select(context, class, scan_limit);
            assert(selected.slabs == searched.slabs);
            lemma_active_steady(selected, sizes, context, class, batch_limit);
            lemma_steady_trans(heap.slabs, selected.slabs, selected.after_active(context, class, batch_limit).slabs);
        }
    }
}

/// Whether the heap's caches hold the block, in whatever class.
pub open spec fn caches(heap: SmallHeap, classes: int, block: usize) -> bool {
    exists|context: bool, class: int| 0 <= class < classes && #[trigger] heap.cached(context, class, block)
}

proof fn lemma_drain_list_caches(heap: SmallHeap, list: Seq<usize>)
    ensures
        heap.drain_list(list).lists(true).hot == heap.lists(true).hot,
        heap.drain_list(list).lists(false).hot == heap.lists(false).hot,
    decreases list.len(),
{
    if list.len() > 0 {
        lemma_drain_list_caches(heap.drain_slab(list.last()), list.drop_last());
    }
}

/// Handing out a block puts nothing into the caches; what it takes from them is that block.
pub proof fn lemma_pop_caches(heap: SmallHeap, sizes: Seq<usize>, context: bool, class: int, batch_limit: int, scan_limit: int)
    requires
        heap.inv(sizes),
        valid_sizes(sizes),
        0 <= class < sizes.len(),
    ensures
        forall|x: bool, c: int, block: usize|
            0 <= c < sizes.len() && #[trigger] heap.pop(context, class, batch_limit, scan_limit).1.cached(x, c, block) ==> heap.cached(
                x,
                c,
                block,
            ),
{
    let after = heap.pop(context, class, batch_limit, scan_limit).1;
    if heap.hot(context, class).cached_first != 0 {
    } else if heap.active_block(context, class) != 0 {
        assert(after.lists(true) == heap.lists(true));
        assert(after.lists(false) == heap.lists(false));
    } else {
        let worked = heap.after_active(context, class, batch_limit);
        let emptied = worked.without_active(context, class);
        lemma_drain_list_caches(SmallHeap { inbox: Seq::empty(), ..emptied }, emptied.inbox);
        let searched = emptied.before_select(context, class, scan_limit);
        assert(searched.lists(true).hot == emptied.lists(true).hot);
        assert(searched.lists(false).hot == emptied.lists(false).hot);
        let selected = searched.after_select(context, class, scan_limit);
        assert(after.lists(true) == selected.lists(true));
        assert(after.lists(false) == selected.lists(false));
    }
}

/// Blocks that are handed out and differ are no more than the slab has.
pub proof fn lemma_handed_out_count(slab: SlabModel, entries: Seq<RemoteFree>)
    requires
        slab.well_formed(),
        forall|at: int| 0 <= at < entries.len() ==> slab.handed_out((#[trigger] entries[at]).block as int),
        forall|left: int, right: int|
            #![trigger entries[left], entries[right]]
            0 <= left < right < entries.len() ==> entries[left].block != entries[right].block,
    ensures
        entries.len() <= slab.count(),
{
    let indices = Seq::new(entries.len(), |at: int| slab.index_of(entries[at].block as int));
    lemma_blocks(slab.block_size);
    assert(indices.no_duplicates()) by {
        assert forall|left: int, right: int| 0 <= left < right < indices.len() implies indices[left] != indices[right] by {
            assert(slab.handed_out(entries[left].block as int));
            assert(slab.handed_out(entries[right].block as int));
            lemma_distinct_indices(slab, entries[left].block as int, entries[right].block as int);
        }
    }
    indices.unique_seq_to_set();
    let range = vstd::set_lib::set_int_range(0, slab.count());
    vstd::set_lib::lemma_int_range(0, slab.count());
    assert(indices.to_set().subset_of(range)) by {
        assert forall|index: int| indices.to_set().contains(index) implies range.contains(index) by {
            let at = choose|at: int| 0 <= at < indices.len() && indices[at] == index;
            assert(slab.handed_out(entries[at].block as int));
        }
    }
    vstd::set_lib::lemma_len_subset(indices.to_set(), range);
}

/// The padding of entries is bounded by their number.
pub proof fn lemma_total_bound(entries: Seq<RemoteFree>, size: int)
    requires
        forall|at: int| 0 <= at < entries.len() ==> (#[trigger] entries[at]).padding <= size,
    ensures
        0 <= total_padding(entries) <= entries.len() * size,
    decreases entries.len(),
{
    if entries.len() > 0 {
        assert forall|at: int| 0 <= at < entries.drop_last().len() implies (#[trigger] entries.drop_last()[at]).padding <= size by {
            assert(entries[at].padding <= size);
        }
        lemma_total_bound(entries.drop_last(), size);
        assert(entries[entries.len() - 1].padding <= size);
        assert((entries.len() - 1) * size + size == entries.len() * size) by (nonlinear_arith);
    } else {
        assert(entries.len() * size == 0) by (nonlinear_arith)
            requires
                entries.len() == 0,
        ;
    }
}

/// Taking an entry out takes its padding out of the total.
pub proof fn lemma_total_remove(entries: Seq<RemoteFree>, at: int)
    requires
        0 <= at < entries.len(),
    ensures
        total_padding(entries.remove(at)) == total_padding(entries) - entries[at].padding,
    decreases entries.len(),
{
    if at == entries.len() - 1 {
        assert(entries.remove(at) =~= entries.drop_last());
    } else {
        lemma_total_remove(entries.drop_last(), at);
        assert(entries.remove(at).drop_last() =~= entries.drop_last().remove(at));
        assert(entries.remove(at).last() == entries.last());
    }
}

/// The total of two lists together.
pub proof fn lemma_total_add(left: Seq<RemoteFree>, right: Seq<RemoteFree>)
    ensures
        total_padding(left + right) == total_padding(left) + total_padding(right),
    decreases right.len(),
{
    if right.len() == 0 {
        assert(left + right =~= left);
    } else {
        assert((left + right).drop_last() =~= left + right.drop_last());
        lemma_total_add(left, right.drop_last());
    }
}

} // verus!
