//! What a heap holds, counted over its slabs, its spans and its mappings.

use vstd::prelude::*;

use crate::allocator::blocks::lemma_marked;
use crate::allocator::classes::{segment_of, LOCAL_MEDIUM_CLASSES, MEDIUM_REGION_SLICE_COUNT, MEDIUM_SLICE_SIZE};
use crate::allocator::direct::{ExtraHeader, Records};
use crate::allocator::domains::DomainState;
use crate::allocator::heaps::{HeapState, Segment};
use crate::allocator::region::{MediumAllocation, Region};
use crate::allocator::remote::RemoteUsage;
use crate::allocator::slab::{
    lemma_block_at, lemma_blocks, lemma_free_finite, lemma_index_of, total_padding, SlabModel,
    CONTEXT_SLAB_MARKER, SLAB_MARKER, SLAB_SIZE,
};
use crate::allocator::small::{marked_class, marks_context, small, SmallHeap, SmallState};
use crate::allocator::table::SlabTable;
use crate::hints::general;
use crate::hints::heap::{Usage, UsageKind};
use crate::tunables::{valid_sizes, Tuning};

verus! {

/// Counts of blocks, bytes, slabs and slices.
pub struct Sums {
    pub live: int,
    pub requested: int,
    pub usable: int,
    pub reserved: int,
    pub committed: int,
    pub slabs: int,
    pub slices: int,
}

pub open spec fn nothing() -> Sums {
    Sums { live: 0, requested: 0, usable: 0, reserved: 0, committed: 0, slabs: 0, slices: 0 }
}

impl Sums {
    pub open spec fn plus(self, other: Sums) -> Sums {
        Sums {
            live: self.live + other.live,
            requested: self.requested + other.requested,
            usable: self.usable + other.usable,
            reserved: self.reserved + other.reserved,
            committed: self.committed + other.committed,
            slabs: self.slabs + other.slabs,
            slices: self.slices + other.slices,
        }
    }

    pub open spec fn below(self, other: Sums) -> bool {
        &&& self.live <= other.live
        &&& self.requested <= other.requested
        &&& self.usable <= other.usable
        &&& self.reserved <= other.reserved
        &&& self.committed <= other.committed
        &&& self.slabs <= other.slabs
        &&& self.slices <= other.slices
    }

    /// Whether every count fits into a machine word.
    pub open spec fn within(self) -> bool {
        self.live <= usize::MAX && self.requested <= usize::MAX && self.usable <= usize::MAX && self.reserved <= usize::MAX
            && self.committed <= usize::MAX && self.slabs <= usize::MAX && self.slices <= usize::MAX
    }
}

pub open spec fn total(items: Seq<Sums>) -> Sums
    decreases items.len(),
{
    if items.len() == 0 {
        nothing()
    } else {
        total(items.drop_last()).plus(items.last())
    }
}

pub open spec fn counts(items: Seq<Sums>) -> bool {
    forall|index: int| 0 <= index < items.len() ==> nothing().below(#[trigger] items[index])
}

/// Counting a part gives no more than counting all.
pub proof fn lemma_total(items: Seq<Sums>, count: int)
    requires
        counts(items),
        0 <= count <= items.len(),
    ensures
        nothing().below(total(items.take(count))),
        total(items.take(count)).below(total(items)),
        nothing().below(total(items)),
        count < items.len() ==> total(items.take(count + 1)) == total(items.take(count)).plus(items[count]) && total(
            items.take(count + 1),
        ).below(total(items)),
    decreases items.len(),
{
    if items.len() > 0 {
        let rest = items.drop_last();
        assert(counts(rest)) by {
            assert forall|index: int| 0 <= index < rest.len() implies nothing().below(#[trigger] rest[index]) by {
                assert(rest[index] == items[index]);
            }
        }
        assert(nothing().below(items[items.len() - 1]));
        if count < items.len() {
            lemma_total(rest, count);
            assert(rest.take(count) =~= items.take(count));
            assert(items.take(count + 1).drop_last() =~= items.take(count));
            assert(items.take(count + 1).last() == items[count]);
            if count + 1 < items.len() {
                assert(rest.take(count + 1) =~= items.take(count + 1));
                assert(rest[count] == items[count]);
            } else {
                assert(items.take(count + 1) =~= items);
            }
        } else {
            lemma_total(rest, rest.len() as int);
            assert(rest.take(rest.len() as int) =~= rest);
            assert(items.take(count) =~= items);
        }
    } else {
        assert(items.take(count) =~= items);
    }
}

#[derive(Clone, Copy, Debug, PartialEq, Eq, Structural)]
pub struct Tally {
    pub live: usize,
    pub requested: usize,
    pub usable: usize,
    pub reserved: usize,
    pub committed: usize,
    pub slabs: usize,
    pub slices: usize,
}

impl View for Tally {
    type V = Sums;

    open spec fn view(&self) -> Sums {
        Sums {
            live: self.live as int,
            requested: self.requested as int,
            usable: self.usable as int,
            reserved: self.reserved as int,
            committed: self.committed as int,
            slabs: self.slabs as int,
            slices: self.slices as int,
        }
    }
}

impl Tally {
    pub fn new() -> (tally: Tally)
        ensures
            tally@ == nothing(),
    {
        Tally { live: 0, requested: 0, usable: 0, reserved: 0, committed: 0, slabs: 0, slices: 0 }
    }

    /// Adds the counts, where every sum fits into a machine word.
    pub fn include_counts(&mut self, other: Tally) -> (fits: bool)
        ensures
            fits == old(self)@.plus(other@).within(),
            final(self)@ == if fits {
                old(self)@.plus(other@)
            } else {
                old(self)@
            },
    {
        if other.live > usize::MAX - self.live || other.requested > usize::MAX - self.requested || other.usable > usize::MAX
            - self.usable || other.reserved > usize::MAX - self.reserved || other.committed > usize::MAX - self.committed
            || other.slabs > usize::MAX - self.slabs || other.slices > usize::MAX - self.slices {
            return false;
        }
        self.live = self.live + other.live;
        self.requested = self.requested + other.requested;
        self.usable = self.usable + other.usable;
        self.reserved = self.reserved + other.reserved;
        self.committed = self.committed + other.committed;
        self.slabs = self.slabs + other.slabs;
        self.slices = self.slices + other.slices;
        true
    }
}

/// Whether the sums were counted, which they are where they fit into machine words.
pub open spec fn counted(tally: Option<Tally>, sums: Sums) -> bool {
    &&& tally is Some <==> sums.within()
    &&& tally matches Some(tally) ==> tally@ == sums
}

/// The blocks of a slab that are in use, by their place in the slab.
pub open spec fn live_blocks(heap: SmallHeap, sizes: Seq<usize>, context: bool, class: int, address: usize) -> Set<int> {
    let slab = heap.slabs[address];
    Set::new(
        |index: int|
            slab.first() <= index < slab.count() && heap.live(sizes, context, class, slab.block_at(index) as usize),
    )
}

pub open spec fn cached_count(heap: SmallHeap, context: bool, class: int, address: usize) -> int {
    let hot = heap.hot(context, class);
    (if hot.cached_first != 0 && segment_of(hot.cached_first as int) == address {
        1int
    } else {
        0
    }) + (if hot.cached_second != 0 && segment_of(hot.cached_second as int) == address {
        1int
    } else {
        0
    })
}

/// The places of the first blocks of the remote list.
spec fn remote_prefix(slab: SlabModel, count: int) -> Set<int> {
    Set::new(
        |index: int|
            exists|position: int| 0 <= position < count && index == slab.index_of((#[trigger] slab.remote[position]).block as int),
    )
}

proof fn lemma_remote_prefix(slab: SlabModel, count: int)
    requires
        slab.well_formed(),
        0 <= count <= slab.remote.len(),
    ensures
        remote_prefix(slab, count).finite(),
        remote_prefix(slab, count).len() == count,
    decreases count,
{
    if count == 0 {
        assert(remote_prefix(slab, 0) =~= Set::empty());
    } else {
        lemma_remote_prefix(slab, count - 1);
        let last = slab.index_of(slab.remote[count - 1].block as int);
        let rest = remote_prefix(slab, count - 1);
        if rest.contains(last) {
            let position = choose|position: int|
                0 <= position < count - 1 && last == slab.index_of((#[trigger] slab.remote[position]).block as int);
            assert(slab.handed_out(slab.remote[position].block as int));
            assert(slab.handed_out(slab.remote[count - 1].block as int));
            crate::allocator::slab::lemma_distinct_indices(
                slab,
                slab.remote[position].block as int,
                slab.remote[count - 1].block as int,
            );
        }
        assert forall|index: int| remote_prefix(slab, count).contains(index) <==> #[trigger] rest.insert(last).contains(index) by {
            if index == last {
                assert(slab.remote[count - 1].block == slab.remote[count - 1].block);
            }
        }
        assert(remote_prefix(slab, count) =~= rest.insert(last));
    }
}

proof fn lemma_disjoint_len(left: Set<int>, right: Set<int>)
    requires
        left.finite(),
        right.finite(),
        forall|index: int| !(#[trigger] left.contains(index) && right.contains(index)),
    ensures
        left.union(right).finite(),
        left.union(right).len() == left.len() + right.len(),
{
    assert(left.disjoint(right));
    vstd::set_lib::lemma_set_disjoint_lens(left, right);
}

/// The blocks of a slab are free, on their way back, kept for reuse, or in use.
pub proof fn lemma_live_count(heap: SmallHeap, sizes: Seq<usize>, context: bool, class: int, address: usize)
    requires
        heap.inv(sizes),
        valid_sizes(sizes),
        0 <= class < sizes.len(),
        heap.slab_of_class(sizes, context, class, address),
    ensures
        ({
            let slab = heap.slabs[address];
            &&& live_blocks(heap, sizes, context, class, address).finite()
            &&& live_blocks(heap, sizes, context, class, address).len() + slab.free().len() + slab.remote.len() + cached_count(
                heap,
                context,
                class,
                address,
            ) == slab.count() - slab.first()
        }),
{
    let slab = heap.slabs[address];
    let size = slab.block_size;
    assert(slab.well_formed());
    lemma_blocks(size);
    lemma_free_finite(slab);
    lemma_remote_prefix(slab, slab.remote.len() as int);
    assert(heap.hot_ok(sizes, context, class));
    let hot = heap.hot(context, class);
    let range = vstd::set_lib::set_int_range(slab.first(), slab.count());
    vstd::set_lib::lemma_int_range(slab.first(), slab.count());
    let free = slab.free();
    let remote = remote_prefix(slab, slab.remote.len() as int);
    let live = live_blocks(heap, sizes, context, class, address);
    let first_here = hot.cached_first != 0 && segment_of(hot.cached_first as int) == address;
    let second_here = hot.cached_second != 0 && segment_of(hot.cached_second as int) == address;
    let first_at = slab.index_of(hot.cached_first as int);
    let second_at = slab.index_of(hot.cached_second as int);
    let none = Set::<int>::empty();
    let first_set = if first_here {
        none.insert(first_at)
    } else {
        none
    };
    let cached = if second_here {
        first_set.insert(second_at)
    } else {
        first_set
    };
    if first_here {
        assert(heap.idle_block(sizes, context, class, hot.cached_first));
        lemma_index_of(slab, hot.cached_first as int);
    }
    if second_here {
        assert(heap.idle_block(sizes, context, class, hot.cached_second));
        lemma_index_of(slab, hot.cached_second as int);
    }
    if first_here && second_here {
        assert(first_at != second_at);
    }
    assert(cached.len() == cached_count(heap, context, class, address));
    assert(live.subset_of(range));
    vstd::set_lib::lemma_set_subset_finite(range, live);
    assert forall|index: int| slab.first() <= index < slab.count() implies segment_of(#[trigger] slab.block_at(index)) == address
        && slab.address <= slab.block_at(index) < slab.address + SLAB_SIZE by {
        lemma_place(slab, index);
    }
    assert forall|index: int| #[trigger] remote.contains(index) implies slab.first() <= index < slab.fresh && !free.contains(index)
        && slab.in_remote_list(slab.block_at(index)) by {
        let position = choose|position: int|
            0 <= position < slab.remote.len() && index == slab.index_of((#[trigger] slab.remote[position]).block as int);
        assert(slab.handed_out(slab.remote[position].block as int));
        lemma_index_of(slab, slab.remote[position].block as int);
        assert(slab.remote[position].block == slab.block_at(index));
    }
    assert forall|index: int| slab.first() <= index < slab.count() && slab.in_remote_list(#[trigger] slab.block_at(index)) implies remote.contains(
        index,
    ) by {
        let position = choose|position: int|
            0 <= position < slab.remote.len() && (#[trigger] slab.remote[position]).block == slab.block_at(index);
        lemma_block_at(slab, index);
        assert(index == slab.index_of(slab.remote[position].block as int));
    }
    assert forall|index: int| #[trigger] live.contains(index) implies !free.contains(index) && !remote.contains(index)
        && !cached.contains(index) by {
        lemma_block_at(slab, index);
        assert(segment_of(slab.block_at(index)) == address);
        assert(heap.live(sizes, context, class, slab.block_at(index) as usize));
        assert(slab.handed_out(slab.block_at(index)));
    }
    assert forall|index: int| #[trigger] cached.contains(index) implies !free.contains(index) && !remote.contains(index) && slab.first()
        <= index < slab.fresh by {
        let block = if first_here && index == first_at {
            hot.cached_first
        } else {
            hot.cached_second
        };
        assert(heap.idle_block(sizes, context, class, block));
        lemma_index_of(slab, block as int);
    }
    let a = free.union(remote);
    lemma_disjoint_len(free, remote);
    assert forall|index: int| !(#[trigger] a.contains(index) && cached.contains(index)) by {
        if cached.contains(index) && a.contains(index) {
            assert(free.contains(index) || remote.contains(index));
        }
    }
    lemma_disjoint_len(a, cached);
    let b = a.union(cached);
    assert forall|index: int| !(#[trigger] b.contains(index) && live.contains(index)) by {
        if live.contains(index) && b.contains(index) {
            assert(a.contains(index) || cached.contains(index));
            assert(free.contains(index) || remote.contains(index) || cached.contains(index));
        }
    }
    lemma_disjoint_len(b, live);
    assert forall|index: int| #[trigger] range.contains(index) implies b.union(live).contains(index) by {
        lemma_block_at(slab, index);
        let block = slab.block_at(index);
        assert(segment_of(block) == address);
        if !free.contains(index) && !remote.contains(index) && !cached.contains(index) {
            assert(slab.handed_out(block));
            assert(!slab.in_remote_list(block));
            assert(heap.idle_block(sizes, context, class, block as usize));
            if heap.cached(context, class, block as usize) {
                assert(first_here && first_at == index || second_here && second_at == index);
            }
            assert(live.contains(index));
        }
    }
    assert forall|index: int| #[trigger] b.union(live).contains(index) implies range.contains(index) by {
        if free.contains(index) {
        } else if remote.contains(index) {
        } else if cached.contains(index) {
        } else {
            assert(live.contains(index));
        }
    }
    assert(b.union(live) =~= range);
}

/// A block lies in its slab.
proof fn lemma_place(slab: SlabModel, index: int)
    requires
        slab.well_formed(),
        slab.first() <= index < slab.count(),
    ensures
        segment_of(slab.block_at(index)) == slab.address,
        slab.address <= slab.block_at(index) < slab.address + SLAB_SIZE,
{
    let size = slab.block_size;
    lemma_blocks(size);
    let block = slab.block_at(index);
    vstd::arithmetic::div_mod::lemma_fundamental_div_mod(SLAB_SIZE as int, size);
    let count = slab.count();
    assert(size * count <= SLAB_SIZE);
    assert(0 <= index * size && index * size + size <= size * count) by (nonlinear_arith)
        requires
            0 <= index <= count - 1,
            size >= 16,
    ;
    vstd::arithmetic::div_mod::lemma_fundamental_div_mod(slab.address, SLAB_SIZE as int);
    vstd::arithmetic::div_mod::lemma_fundamental_div_mod_converse(
        block,
        SLAB_SIZE as int,
        slab.address / (SLAB_SIZE as int),
        block - slab.address,
    );
}

/// What the blocks of a slab that are in use take.
pub open spec fn slab_sums(heap: SmallHeap, sizes: Seq<usize>, address: usize) -> Sums {
    let slab = heap.slabs[address];
    let live = live_blocks(heap, sizes, marks_context(slab.marker), marked_class(slab.marker), address).len() as int;
    let usable = live * slab.block_size;
    let padding = slab.padding - total_padding(slab.remote);
    Sums {
        live,
        requested: if usable > padding {
            usable - padding
        } else {
            0
        },
        usable,
        ..nothing()
    }
}

/// The padding of the blocks of a remote list.
fn list_padding(slabs: &SlabTable, index: usize) -> (padding: usize)
    requires
        slabs.wf(),
        index < slabs.slabs@.len(),
    ensures
        padding == total_padding(slabs.slabs@[index as int]@.remote),
{
    let slab = &slabs.slabs[index];
    assert(slabs.slabs@[index as int].wf());
    let ghost remote = slab@.remote;
    let mut padding: usize = 0;
    let mut position: usize = 0;
    assert(remote.take(0) =~= Seq::empty());
    while position < slab.remote_free.len()
        invariant
            remote == slab.remote_free@,
            position <= remote.len(),
            padding == total_padding(remote.take(position as int)),
            total_padding(remote) <= slab.padding_bytes,
        decreases remote.len() - position,
    {
        proof {
            assert(remote.take(position + 1).drop_last() =~= remote.take(position as int));
            assert(remote.take(position + 1).last() == remote[position as int]);
            lemma_padding_prefix(remote, position + 1);
        }
        padding = padding + slab.remote_free[position].padding;
        position = position + 1;
    }
    assert(remote.take(position as int) =~= remote);
    padding
}

proof fn lemma_padding_prefix(remote: Seq<crate::allocator::slab::RemoteFree>, count: int)
    requires
        0 <= count <= remote.len(),
    ensures
        0 <= total_padding(remote.take(count)) <= total_padding(remote),
    decreases remote.len(),
{
    if count < remote.len() {
        lemma_padding_prefix(remote.drop_last(), count);
        assert(remote.drop_last().take(count) =~= remote.take(count));
    } else {
        assert(remote.take(count) =~= remote);
        crate::allocator::slab::lemma_total_padding(remote);
    }
}

/// Counts the blocks of a slab that are in use.
#[verifier::spinoff_prover]
#[verifier::rlimit(40)]
pub fn slab_tally(state: &SmallState, slabs: &SlabTable, tuning: &Tuning, address: usize) -> (tally: Tally)
    requires
        tuning.wf(),
        slabs.wf(),
        small(state, slabs).inv(tuning.sizes@),
        small(state, slabs).slab_of_some_class(tuning.sizes@, address),
    ensures
        tally@ == slab_sums(small(state, slabs), tuning.sizes@, address),
        nothing().below(tally@),
{
    let ghost heap = small(state, slabs);
    let ghost sizes = tuning.sizes@;
    let index: usize = slabs.position(address).unwrap();
    let marker: u64 = slabs.slabs[index].marker;
    proof {
        let (x, c) = choose|x: bool, c: int| 0 <= c < sizes.len() && #[trigger] heap.slab_of_class(sizes, x, c, address);
        lemma_marked(x, c, marker);
        assert(slabs.slabs@[index as int].wf());
        lemma_live_count(heap, sizes, x, c, address);
        assert(heap.hot_ok(sizes, x, c));
    }
    let context: bool = marker >= CONTEXT_SLAB_MARKER;
    let class: usize = if context {
        (marker - CONTEXT_SLAB_MARKER) as usize
    } else {
        (marker - SLAB_MARKER) as usize
    };
    let hot = state.hot(context, class);
    let mut cached: usize = 0;
    if hot.cached_first != 0 && hot.cached_first - hot.cached_first % SLAB_SIZE == address {
        cached = cached + 1;
    }
    if hot.cached_second != 0 && hot.cached_second - hot.cached_second % SLAB_SIZE == address {
        cached = cached + 1;
    }
    let remote_padding: usize = list_padding(slabs, index);
    let slab = &slabs.slabs[index];
    let ghost model = slab@;
    assert(heap.slabs[address] == model);
    let live: usize = slab.usable_blocks - slab.free_count - cached - slab.remote_free.len();
    proof {
        let size = model.block_size;
        lemma_blocks(size);
        vstd::arithmetic::div_mod::lemma_fundamental_div_mod(SLAB_SIZE as int, size);
        assert(0 <= live * size <= SLAB_SIZE) by (nonlinear_arith)
            requires
                0 <= live <= model.count(),
                size >= 16,
                size * model.count() <= SLAB_SIZE,
        ;
    }
    let usable: usize = live * slab.block_size;
    let padding: usize = slab.padding_bytes - remote_padding;
    Tally {
        live,
        requested: usable.saturating_sub(padding),
        usable,
        reserved: 0,
        committed: 0,
        slabs: 0,
        slices: 0,
    }
}

impl HeapState {
    /// How many slabs of a segment have been cut.
    pub open spec fn used_slabs(&self, index: int) -> int {
        let segment = self.segments@[index];
        if segment.slices == 0 {
            1
        } else if segment.base == self.locality_segment {
            (self.locality_next - segment.base) / (SLAB_SIZE as int)
        } else {
            segment.slices * 2
        }
    }

    /// Whether the slabs of the heap's segments are there.
    pub open spec fn segments_ok(&self, slabs: &SlabTable, sizes: Seq<usize>) -> bool {
        &&& forall|index: int|
            0 <= index < self.segments@.len() ==> {
                let segment = #[trigger] self.segments@[index];
                &&& segment.slices <= MEDIUM_REGION_SLICE_COUNT
                &&& segment.slices != 0 && segment.base == self.locality_segment ==> segment.base <= self.locality_next
                &&& segment.base + segment.slices * MEDIUM_SLICE_SIZE <= usize::MAX
                &&& segment.base + self.used_slabs(index) * SLAB_SIZE <= usize::MAX
                &&& self.used_slabs(index) <= segment.slices * 2 || segment.slices == 0
            }
        &&& forall|index: int, at: int|
            #![trigger self.slab_base(index, at)]
            0 <= index < self.segments@.len() && 0 <= at < self.used_slabs(index) ==> small(&self.small, slabs).slab_of_some_class(
                sizes,
                self.slab_base(index, at),
            )
    }

    pub open spec fn slab_base(&self, index: int, at: int) -> usize {
        (self.segments@[index].base + at * SLAB_SIZE) as usize
    }

    pub open spec fn slab_items(&self, heap: SmallHeap, sizes: Seq<usize>, index: int) -> Seq<Sums> {
        Seq::new(self.used_slabs(index) as nat, |at: int| slab_sums(heap, sizes, self.slab_base(index, at)))
    }

    /// What a segment takes, and its blocks that are in use.
    pub open spec fn segment_sums(&self, heap: SmallHeap, sizes: Seq<usize>, index: int) -> Sums {
        let segment = self.segments@[index];
        total(self.slab_items(heap, sizes, index)).plus(
            Sums {
                reserved: if segment.slices == 0 {
                    SLAB_SIZE as int
                } else {
                    segment.slices * MEDIUM_SLICE_SIZE
                },
                committed: segment.committed_bytes as int,
                slabs: self.used_slabs(index),
                slices: segment.slices as int,
                ..nothing()
            },
        )
    }

    pub open spec fn segment_items(&self, heap: SmallHeap, sizes: Seq<usize>) -> Seq<Sums> {
        Seq::new(self.segments@.len(), |index: int| self.segment_sums(heap, sizes, index))
    }

    /// The spans that the heap keeps, as bytes.
    pub open spec fn cache_items(&self) -> Seq<Sums> {
        Seq::new(
            LOCAL_MEDIUM_CLASSES as nat,
            |slot: int|
                if self.medium_cache@[slot] == 0 {
                    nothing()
                } else {
                    Sums {
                        reserved: vstd::arithmetic::power2::pow2(slot as nat) * MEDIUM_SLICE_SIZE,
                        committed: vstd::arithmetic::power2::pow2(slot as nat) * MEDIUM_SLICE_SIZE,
                        ..nothing()
                    }
                },
        )
    }

    pub open spec fn cache_sums(&self) -> Sums {
        total(self.cache_items())
    }
}

proof fn lemma_slab_items(heap: &HeapState, slabs: &SlabTable, sizes: Seq<usize>, index: int)
    requires
        slabs.wf(),
        small(&heap.small, slabs).inv(sizes),
        heap.segments_ok(slabs, sizes),
        0 <= index < heap.segments@.len(),
    ensures
        counts(heap.slab_items(small(&heap.small, slabs), sizes, index)),
        0 <= heap.used_slabs(index),
        nothing().below(heap.segment_sums(small(&heap.small, slabs), sizes, index)),
{
    let model = small(&heap.small, slabs);
    let items = heap.slab_items(model, sizes, index);
    assert(heap.segments@[index].slices <= MEDIUM_REGION_SLICE_COUNT);
    assert forall|at: int| 0 <= at < items.len() implies nothing().below(#[trigger] items[at]) by {
        let address = heap.slab_base(index, at);
        assert(model.slab_of_some_class(sizes, address));
        assert(model.slabs[address].well_formed());
        let sums = slab_sums(model, sizes, address);
        assert(sums.usable >= 0) by (nonlinear_arith)
            requires
                sums.usable == sums.live * model.slabs[address].block_size,
                sums.live >= 0,
                model.slabs[address].block_size >= 16,
        ;
    }
    lemma_total(items, items.len() as int);
}

/// Counts a segment and its blocks that are in use.
fn segment_tally(heap: &HeapState, slabs: &SlabTable, tuning: &Tuning, index: usize) -> (tally: Option<Tally>)
    requires
        tuning.wf(),
        slabs.wf(),
        small(&heap.small, slabs).inv(tuning.sizes@),
        heap.segments_ok(slabs, tuning.sizes@),
        index < heap.segments@.len(),
    ensures
        counted(tally, heap.segment_sums(small(&heap.small, slabs), tuning.sizes@, index as int)),
{
    let ghost model = small(&heap.small, slabs);
    let ghost sizes = tuning.sizes@;
    let ghost items = heap.slab_items(model, sizes, index as int);
    let segment: Segment = heap.segments[index];
    proof {
        lemma_slab_items(heap, slabs, sizes, index as int);
        assert(segment.slices * MEDIUM_SLICE_SIZE <= 1073741824) by (nonlinear_arith)
            requires
                segment.slices <= 16384,
                MEDIUM_SLICE_SIZE == 65536,
        ;
    }
    let used: usize = if segment.slices == 0 {
        1
    } else if segment.base == heap.locality_segment {
        (heap.locality_next - segment.base) / SLAB_SIZE
    } else {
        segment.slices * 2
    };
    let mut tally = Tally {
        live: 0,
        requested: 0,
        usable: 0,
        reserved: if segment.slices == 0 {
            SLAB_SIZE
        } else {
            segment.slices * MEDIUM_SLICE_SIZE
        },
        committed: segment.committed_bytes,
        slabs: used,
        slices: segment.slices,
    };
    let ghost head = tally@;
    let mut at: usize = 0;
    let mut address: usize = segment.base;
    proof {
        assert(items.take(0) =~= Seq::empty());
    }
    while at < used
        invariant
            tuning.wf(),
            slabs.wf(),
            model == small(&heap.small, slabs),
            sizes == tuning.sizes@,
            model.inv(sizes),
            heap.segments_ok(slabs, sizes),
            index < heap.segments@.len(),
            segment == heap.segments@[index as int],
            items == heap.slab_items(model, sizes, index as int),
            counts(items),
            used == heap.used_slabs(index as int),
            at <= used,
            address == segment.base + at * SLAB_SIZE,
            segment.base + used * SLAB_SIZE <= usize::MAX,
            head.within(),
            total(items).plus(head) == heap.segment_sums(model, sizes, index as int),
            tally@ == total(items.take(at as int)).plus(head),
        decreases used - at,
    {
        proof {
            assert(heap.slab_base(index as int, at as int) == address);
            lemma_total(items, at as int);
            assert(items[at as int] == slab_sums(model, sizes, address));
            assert(at * SLAB_SIZE + SLAB_SIZE <= used * SLAB_SIZE && (at + 1) * SLAB_SIZE == at * SLAB_SIZE + SLAB_SIZE)
                by (nonlinear_arith)
                requires
                    at + 1 <= used,
            ;
        }
        let slab = slab_tally(&heap.small, slabs, tuning, address);
        if !tally.include_counts(slab) {
            return None;
        }
        at = at + 1;
        address = address + SLAB_SIZE;
    }
    proof {
        assert(items.take(at as int) =~= items);
    }
    Some(tally)
}

/// Counts the heap's segments and the blocks in them that are in use.
fn segments_tally(heap: &HeapState, slabs: &SlabTable, tuning: &Tuning) -> (tally: Option<Tally>)
    requires
        tuning.wf(),
        slabs.wf(),
        small(&heap.small, slabs).inv(tuning.sizes@),
        heap.segments_ok(slabs, tuning.sizes@),
    ensures
        counted(tally, total(heap.segment_items(small(&heap.small, slabs), tuning.sizes@))),
{
    let ghost model = small(&heap.small, slabs);
    let ghost sizes = tuning.sizes@;
    let ghost items = heap.segment_items(model, sizes);
    proof {
        assert forall|index: int| 0 <= index < items.len() implies nothing().below(#[trigger] items[index]) by {
            lemma_slab_items(heap, slabs, sizes, index);
        }
        assert(items.take(0) =~= Seq::empty());
    }
    let mut tally = Tally::new();
    let mut index: usize = 0;
    while index < heap.segments.len()
        invariant
            tuning.wf(),
            slabs.wf(),
            model == small(&heap.small, slabs),
            sizes == tuning.sizes@,
            model.inv(sizes),
            heap.segments_ok(slabs, sizes),
            items == heap.segment_items(model, sizes),
            counts(items),
            index <= heap.segments@.len(),
            tally@ == total(items.take(index as int)),
        decreases heap.segments@.len() - index,
    {
        proof {
            lemma_total(items, index as int);
            assert(items[index as int] == heap.segment_sums(model, sizes, index as int));
        }
        let segment = match segment_tally(heap, slabs, tuning, index) {
            None => {
                return None;
            },
            Some(segment) => segment,
        };
        if !tally.include_counts(segment) {
            return None;
        }
        index = index + 1;
    }
    proof {
        assert(items.take(index as int) =~= items);
    }
    Some(tally)
}

/// What a medium allocation that the heap owns takes.
pub open spec fn slice_sums(region: Region, heap: usize, slice: int) -> Sums {
    let allocation = region.allocations@[slice];
    if allocation.owner.heap == heap {
        Sums {
            live: 1,
            requested: allocation.requested_bytes as int,
            usable: allocation.usable_bytes as int,
            reserved: allocation.usable_bytes as int,
            committed: allocation.usable_bytes as int,
            ..nothing()
        }
    } else {
        nothing()
    }
}

pub open spec fn slice_items(region: Region, heap: usize) -> Seq<Sums> {
    Seq::new(MEDIUM_REGION_SLICE_COUNT as nat, |slice: int| slice_sums(region, heap, slice))
}

pub open spec fn region_items(regions: Seq<Region>, heap: usize) -> Seq<Sums> {
    Seq::new(regions.len(), |index: int| total(slice_items(regions[index], heap)))
}

/// What the medium allocations that a heap owns take.
pub open spec fn medium_sums(regions: Seq<Region>, heap: usize) -> Sums {
    total(region_items(regions, heap))
}

/// What a mapping that the heap owns takes.
pub open spec fn direct_item(extra: ExtraHeader, heap: usize) -> Sums {
    if extra.class_index is None && extra.owner.heap == heap {
        Sums {
            live: 1,
            requested: extra.requested_bytes as int,
            usable: extra.usable_bytes as int,
            reserved: extra.mapping_size as int,
            committed: extra.mapping_size as int,
            ..nothing()
        }
    } else {
        nothing()
    }
}

pub open spec fn direct_items(extras: Seq<ExtraHeader>, heap: usize) -> Seq<Sums> {
    Seq::new(extras.len(), |index: int| direct_item(extras[index], heap))
}

/// What the blocks that the heap has mappings of their own for take.
pub open spec fn direct_sums(extras: Seq<ExtraHeader>, heap: usize) -> Sums {
    total(direct_items(extras, heap))
}

/// What a thread heap counts for its owner.
pub open spec fn remote_sums(remote: Option<RemoteUsage>) -> Sums {
    match remote {
        None => nothing(),
        Some(usage) => Sums {
            live: usage.live_allocations as int,
            requested: usage.requested_bytes as int,
            usable: usage.usable_bytes as int,
            reserved: usage.reserved_bytes as int,
            committed: usage.committed_bytes as int,
            slabs: usage.slab_count as int,
            slices: usage.slice_count as int,
        },
    }
}

fn region_tally(region: &Region, heap: usize) -> (tally: Option<Tally>)
    requires
        region.wf(),
    ensures
        counted(tally, total(slice_items(*region, heap))),
{
    let ghost items = slice_items(*region, heap);
    let mut tally = Tally::new();
    let mut slice: usize = 0;
    proof {
        assert(items.take(0) =~= Seq::empty());
        assert(counts(items));
    }
    while slice < MEDIUM_REGION_SLICE_COUNT
        invariant
            region.wf(),
            items == slice_items(*region, heap),
            counts(items),
            slice <= MEDIUM_REGION_SLICE_COUNT,
            tally@ == total(items.take(slice as int)),
        decreases MEDIUM_REGION_SLICE_COUNT - slice,
    {
        proof {
            lemma_total(items, slice as int);
            assert(items[slice as int] == slice_sums(*region, heap, slice as int));
        }
        let allocation = region.allocations[slice];
        if allocation.owner.heap == heap {
            let own = Tally {
                live: 1,
                requested: allocation.requested_bytes,
                usable: allocation.usable_bytes,
                reserved: allocation.usable_bytes,
                committed: allocation.usable_bytes,
                slabs: 0,
                slices: 0,
            };
            if !tally.include_counts(own) {
                return None;
            }
        }
        slice = slice + 1;
    }
    proof {
        assert(items.take(slice as int) =~= items);
    }
    Some(tally)
}

proof fn lemma_region_items(regions: Seq<Region>, heap: usize)
    ensures
        counts(region_items(regions, heap)),
{
    let items = region_items(regions, heap);
    assert forall|index: int| 0 <= index < items.len() implies nothing().below(#[trigger] items[index]) by {
        let slices = slice_items(regions[index], heap);
        assert(counts(slices));
        lemma_total(slices, 0);
    }
}

fn medium_tally(domain: &DomainState, heap: usize) -> (tally: Option<Tally>)
    requires
        domain.wf(),
    ensures
        counted(tally, medium_sums(domain.regions@, heap)),
{
    let ghost items = region_items(domain.regions@, heap);
    let mut tally = Tally::new();
    let mut index: usize = 0;
    proof {
        lemma_region_items(domain.regions@, heap);
        assert(items.take(0) =~= Seq::empty());
    }
    while index < domain.regions.len()
        invariant
            domain.wf(),
            items == region_items(domain.regions@, heap),
            counts(items),
            index <= domain.regions@.len(),
            tally@ == total(items.take(index as int)),
        decreases domain.regions@.len() - index,
    {
        proof {
            lemma_total(items, index as int);
            assert(items[index as int] == total(slice_items(domain.regions@[index as int], heap)));
            assert(domain.regions@[index as int].wf());
        }
        let region = match region_tally(&domain.regions[index], heap) {
            None => {
                return None;
            },
            Some(region) => region,
        };
        if !tally.include_counts(region) {
            return None;
        }
        index = index + 1;
    }
    proof {
        assert(items.take(index as int) =~= items);
    }
    Some(tally)
}

fn direct_tally(records: &Records, heap: usize) -> (tally: Option<Tally>)
    ensures
        counted(tally, direct_sums(records.extras@, heap)),
{
    let ghost items = direct_items(records.extras@, heap);
    let mut tally = Tally::new();
    let mut index: usize = 0;
    proof {
        assert(counts(items));
        assert(items.take(0) =~= Seq::empty());
    }
    while index < records.extras.len()
        invariant
            items == direct_items(records.extras@, heap),
            counts(items),
            index <= records.extras@.len(),
            tally@ == total(items.take(index as int)),
        decreases records.extras@.len() - index,
    {
        proof {
            lemma_total(items, index as int);
            assert(items[index as int] == direct_item(records.extras@[index as int], heap));
        }
        let extra = records.extras[index];
        if extra.class_index.is_none() && extra.owner.heap == heap {
            let own = Tally {
                live: 1,
                requested: extra.requested_bytes,
                usable: extra.usable_bytes,
                reserved: extra.mapping_size,
                committed: extra.mapping_size,
                slabs: 0,
                slices: 0,
            };
            if !tally.include_counts(own) {
                return None;
            }
        }
        index = index + 1;
    }
    proof {
        assert(items.take(index as int) =~= items);
    }
    Some(tally)
}

fn cache_tally(heap: &HeapState) -> (tally: Option<Tally>)
    requires
        heap.wf(),
    ensures
        counted(tally, heap.cache_sums()),
{
    let ghost items = heap.cache_items();
    let mut tally = Tally::new();
    let mut slot: usize = 0;
    let mut bytes: usize = MEDIUM_SLICE_SIZE;
    proof {
        assert forall|index: int| 0 <= index < items.len() implies nothing().below(#[trigger] items[index]) by {
            vstd::arithmetic::power2::lemma_pow2_pos(index as nat);
            assert(vstd::arithmetic::power2::pow2(index as nat) * MEDIUM_SLICE_SIZE >= 0) by (nonlinear_arith)
                requires
                    vstd::arithmetic::power2::pow2(index as nat) > 0,
            ;
        }
        assert(items.take(0) =~= Seq::empty());
        vstd::arithmetic::power2::lemma2_to64();
    }
    while slot < LOCAL_MEDIUM_CLASSES
        invariant
            heap.wf(),
            items == heap.cache_items(),
            counts(items),
            slot <= LOCAL_MEDIUM_CLASSES,
            bytes == vstd::arithmetic::power2::pow2(slot as nat) * MEDIUM_SLICE_SIZE,
            tally@ == total(items.take(slot as int)),
        decreases LOCAL_MEDIUM_CLASSES - slot,
    {
        proof {
            lemma_total(items, slot as int);
            vstd::arithmetic::power2::lemma_pow2_unfold((slot + 1) as nat);
            vstd::arithmetic::power2::lemma2_to64();
            if slot < 7 {
                vstd::arithmetic::power2::lemma_pow2_strictly_increases(slot as nat, 7);
            }
            let power = vstd::arithmetic::power2::pow2(slot as nat) as int;
            assert(power * MEDIUM_SLICE_SIZE <= 128 * 65536 && 2 * power * MEDIUM_SLICE_SIZE == 2 * (power * MEDIUM_SLICE_SIZE))
                by (nonlinear_arith)
                requires
                    power <= 128,
                    MEDIUM_SLICE_SIZE == 65536,
            ;
        }
        if heap.medium_cache[slot] != 0 {
            let own = Tally { live: 0, requested: 0, usable: 0, reserved: bytes, committed: bytes, slabs: 0, slices: 0 };
            if !tally.include_counts(own) {
                return None;
            }
        }
        slot = slot + 1;
        bytes = bytes * 2;
    }
    proof {
        assert(items.take(slot as int) =~= items);
    }
    Some(tally)
}

/// Everything that a heap holds.
pub open spec fn heap_sums(
    heap: &HeapState,
    slabs: &SlabTable,
    sizes: Seq<usize>,
    domain: &DomainState,
    extras: Seq<ExtraHeader>,
    remote: Option<RemoteUsage>,
) -> Sums {
    total(heap.segment_items(small(&heap.small, slabs), sizes)).plus(remote_sums(remote)).plus(heap.cache_sums()).plus(
        medium_sums(domain.regions@, heap.address),
    ).plus(direct_sums(extras, heap.address))
}

/// What a heap reports of what it holds.
pub open spec fn heap_usage(
    heap: &HeapState,
    slabs: &SlabTable,
    sizes: Seq<usize>,
    domain: &DomainState,
    extras: Seq<ExtraHeader>,
    remote: Option<RemoteUsage>,
) -> Usage {
    let all = heap_sums(heap, slabs, sizes, domain, extras, remote);
    let small = total(heap.segment_items(small(&heap.small, slabs), sizes)).plus(remote_sums(remote));
    let medium = medium_sums(domain.regions@, heap.address);
    let direct = direct_sums(extras, heap.address);
    Usage {
        live_allocations: all.live as usize,
        live_requested_bytes: all.requested as usize,
        live_usable_bytes: all.usable as usize,
        reserved_bytes: all.reserved as usize,
        committed_bytes: all.committed as usize,
        kind: UsageKind::General(
            general::Usage {
                small: allocation_usage(small),
                medium: allocation_usage(medium),
                direct: allocation_usage(direct),
                cached_medium_bytes: heap.cache_sums().reserved as usize,
                slab_count: small.slabs as usize,
                slice_count: small.slices as usize,
            },
        ),
    }
}

pub open spec fn allocation_usage(sums: Sums) -> general::AllocationUsage {
    general::AllocationUsage {
        live_allocations: sums.live as usize,
        requested_bytes: sums.requested as usize,
        usable_bytes: sums.usable as usize,
    }
}

/// Counts everything that a heap holds: its slabs, its kept spans, its medium and direct
/// allocations, and what the thread heap that goes with it counts.
pub fn general_heap_usage(
    heap: &HeapState,
    slabs: &SlabTable,
    tuning: &Tuning,
    domain: &DomainState,
    records: &Records,
    remote: Option<RemoteUsage>,
) -> (usage: Usage)
    requires
        tuning.wf(),
        heap.wf(),
        slabs.wf(),
        domain.wf(),
        small(&heap.small, slabs).inv(tuning.sizes@),
        heap.segments_ok(slabs, tuning.sizes@),
        heap_sums(heap, slabs, tuning.sizes@, domain, records.extras@, remote).within(),
    ensures
        usage == heap_usage(heap, slabs, tuning.sizes@, domain, records.extras@, remote),
{
    checked_heap_usage(heap, slabs, tuning, domain, records, remote).unwrap()
}

/// Counts everything that a heap holds, where every sum fits into a machine word.
pub fn checked_heap_usage(
    heap: &HeapState,
    slabs: &SlabTable,
    tuning: &Tuning,
    domain: &DomainState,
    records: &Records,
    remote: Option<RemoteUsage>,
) -> (usage: Option<Usage>)
    requires
        tuning.wf(),
        heap.wf(),
        slabs.wf(),
        domain.wf(),
        small(&heap.small, slabs).inv(tuning.sizes@),
        heap.segments_ok(slabs, tuning.sizes@),
    ensures
        usage == if heap_sums(heap, slabs, tuning.sizes@, domain, records.extras@, remote).within() {
            Some(heap_usage(heap, slabs, tuning.sizes@, domain, records.extras@, remote))
        } else {
            None
        },
{
    let ghost sizes = tuning.sizes@;
    let ghost segments = heap.segment_items(small(&heap.small, slabs), sizes);
    proof {
        assert forall|index: int| 0 <= index < segments.len() implies nothing().below(#[trigger] segments[index]) by {
            lemma_slab_items(heap, slabs, sizes, index);
        }
        lemma_total(segments, 0);
        lemma_region_items(domain.regions@, heap.address);
        lemma_total(region_items(domain.regions@, heap.address), 0);
        assert(counts(direct_items(records.extras@, heap.address)));
        lemma_total(direct_items(records.extras@, heap.address), 0);
        let items = heap.cache_items();
        assert forall|index: int| 0 <= index < items.len() implies nothing().below(#[trigger] items[index]) by {
            assert(vstd::arithmetic::power2::pow2(index as nat) * MEDIUM_SLICE_SIZE >= 0) by (nonlinear_arith)
                requires
                    vstd::arithmetic::power2::pow2(index as nat) >= 0,
            ;
        }
        lemma_total(items, 0);
    }
    let mut small_side = segments_tally(heap, slabs, tuning)?;
    if let Some(usage) = remote {
        let own = Tally {
            live: usage.live_allocations,
            requested: usage.requested_bytes,
            usable: usage.usable_bytes,
            reserved: usage.reserved_bytes,
            committed: usage.committed_bytes,
            slabs: usage.slab_count,
            slices: usage.slice_count,
        };
        if !small_side.include_counts(own) {
            return None;
        }
    }
    let cached = cache_tally(heap)?;
    let medium = medium_tally(domain, heap.address)?;
    let direct = direct_tally(records, heap.address)?;
    let mut all = small_side;
    if !all.include_counts(cached) || !all.include_counts(medium) || !all.include_counts(direct) {
        return None;
    }
    let usage = Usage {
        live_allocations: all.live,
        live_requested_bytes: all.requested,
        live_usable_bytes: all.usable,
        reserved_bytes: all.reserved,
        committed_bytes: all.committed,
        kind: UsageKind::General(
            general::Usage::new(
                general::AllocationUsage {
                    live_allocations: small_side.live,
                    requested_bytes: small_side.requested,
                    usable_bytes: small_side.usable,
                },
                general::AllocationUsage {
                    live_allocations: medium.live,
                    requested_bytes: medium.requested,
                    usable_bytes: medium.usable,
                },
                general::AllocationUsage {
                    live_allocations: direct.live,
                    requested_bytes: direct.requested,
                    usable_bytes: direct.usable,
                },
                cached.reserved,
                small_side.slabs,
                small_side.slices,
            ),
        ),
    };
    Some(usage)
}

/// Replacing one item changes a total by the difference.
proof fn lemma_total_update(items: Seq<Sums>, at: int, item: Sums)
    requires
        0 <= at < items.len(),
    ensures
        total(items.update(at, item)).plus(items[at]) == total(items).plus(item),
    decreases items.len(),
{
    let updated = items.update(at, item);
    if at == items.len() - 1 {
        assert(updated.drop_last() =~= items.drop_last());
    } else {
        assert(updated.drop_last() =~= items.drop_last().update(at, item));
        assert(updated.last() == items.last());
        lemma_total_update(items.drop_last(), at, item);
    }
}

/// Whether no item asks for more than it can use.
pub open spec fn all_hold(items: Seq<Sums>) -> bool {
    forall|at: int| 0 <= at < items.len() ==> (#[trigger] items[at]).requested <= items[at].usable
}

proof fn lemma_total_holds(items: Seq<Sums>)
    requires
        all_hold(items),
    ensures
        total(items).requested <= total(items).usable,
    decreases items.len(),
{
    if items.len() > 0 {
        let rest = items.drop_last();
        assert forall|at: int| 0 <= at < rest.len() implies (#[trigger] rest[at]).requested <= rest[at].usable by {
            assert(rest[at] == items[at]);
        }
        lemma_total_holds(rest);
        assert(items[items.len() - 1] == items.last());
    }
}

/// Whether the blocks of medium size and in mappings of their own have the bytes that they were asked
/// for, and so do those that a thread heap counts.
pub open spec fn blocks_hold(domain: &DomainState, extras: Seq<ExtraHeader>, remote: Option<RemoteUsage>) -> bool {
    &&& forall|index: int, slice: int|
        #![trigger domain.regions@[index].allocations@[slice]]
        0 <= index < domain.regions@.len() && 0 <= slice < MEDIUM_REGION_SLICE_COUNT
            ==> domain.regions@[index].allocations@[slice].requested_bytes <= domain.regions@[index].allocations@[slice].usable_bytes
    &&& forall|at: int| 0 <= at < extras.len() ==> (#[trigger] extras[at]).requested_bytes <= extras[at].usable_bytes
    &&& remote matches Some(usage) ==> usage.requested_bytes <= usage.usable_bytes
}

proof fn lemma_usage_holds(
    heap: &HeapState,
    slabs: &SlabTable,
    sizes: Seq<usize>,
    domain: &DomainState,
    extras: Seq<ExtraHeader>,
    remote: Option<RemoteUsage>,
)
    requires
        slabs.wf(),
        small(&heap.small, slabs).inv(sizes),
        heap.segments_ok(slabs, sizes),
        blocks_hold(domain, extras, remote),
    ensures
        heap_sums(heap, slabs, sizes, domain, extras, remote).requested <= heap_sums(heap, slabs, sizes, domain, extras, remote).usable,
{
    let model = small(&heap.small, slabs);
    let segments = heap.segment_items(model, sizes);
    assert forall|index: int| 0 <= index < segments.len() implies (#[trigger] segments[index]).requested <= segments[index].usable by {
        let items = heap.slab_items(model, sizes, index);
        lemma_slab_items(heap, slabs, sizes, index);
        assert forall|at: int| 0 <= at < items.len() implies (#[trigger] items[at]).requested <= items[at].usable by {
            let address = heap.slab_base(index, at);
            assert(model.slab_of_some_class(sizes, address));
            law_slabs_count_whole_blocks(model, sizes, address);
        }
        lemma_total_holds(items);
    }
    lemma_total_holds(segments);
    let regions = region_items(domain.regions@, heap.address);
    assert forall|index: int| 0 <= index < regions.len() implies (#[trigger] regions[index]).requested <= regions[index].usable by {
        let items = slice_items(domain.regions@[index], heap.address);
        assert forall|slice: int| 0 <= slice < items.len() implies (#[trigger] items[slice]).requested <= items[slice].usable by {
            assert(domain.regions@[index].allocations@[slice].requested_bytes
                <= domain.regions@[index].allocations@[slice].usable_bytes);
        }
        lemma_total_holds(items);
    }
    lemma_total_holds(regions);
    let direct = direct_items(extras, heap.address);
    assert forall|at: int| 0 <= at < direct.len() implies (#[trigger] direct[at]).requested <= direct[at].usable by {
        assert(extras[at].requested_bytes <= extras[at].usable_bytes);
    }
    lemma_total_holds(direct);
    let cached = heap.cache_items();
    assert forall|slot: int| 0 <= slot < cached.len() implies (#[trigger] cached[slot]).requested <= cached[slot].usable by {}
    lemma_total_holds(cached);
    lemma_only_bytes(cached);
}

/// Items that hold no blocks hold none together.
proof fn lemma_only_bytes(items: Seq<Sums>)
    requires
        forall|at: int|
            #![trigger items[at]]
            0 <= at < items.len() ==> items[at].live == 0 && items[at].requested == 0 && items[at].usable == 0 && items[at].slabs == 0
                && items[at].slices == 0 && items[at].committed == items[at].reserved,
    ensures
        total(items).live == 0,
        total(items).requested == 0,
        total(items).usable == 0,
        total(items).slabs == 0,
        total(items).slices == 0,
        total(items).committed == total(items).reserved,
    decreases items.len(),
{
    if items.len() > 0 {
        let rest = items.drop_last();
        assert forall|at: int|
            #![trigger rest[at]]
            0 <= at < rest.len() implies rest[at].live == 0 && rest[at].requested == 0 && rest[at].usable == 0 && rest[at].slabs == 0
            && rest[at].slices == 0 && rest[at].committed == rest[at].reserved by {
            assert(rest[at] == items[at]);
        }
        lemma_only_bytes(rest);
        assert(items[items.len() - 1] == items.last());
    }
}

/// Items that hold blocks and no memory of their own hold none together.
proof fn lemma_only_blocks(items: Seq<Sums>)
    requires
        forall|at: int|
            #![trigger items[at]]
            0 <= at < items.len() ==> items[at].reserved == 0 && items[at].committed == 0 && items[at].slabs == 0 && items[at].slices == 0,
    ensures
        total(items).reserved == 0,
        total(items).committed == 0,
        total(items).slabs == 0,
        total(items).slices == 0,
    decreases items.len(),
{
    if items.len() > 0 {
        let rest = items.drop_last();
        assert forall|at: int|
            #![trigger rest[at]]
            0 <= at < rest.len() implies rest[at].reserved == 0 && rest[at].committed == 0 && rest[at].slabs == 0 && rest[at].slices
            == 0 by {
            assert(rest[at] == items[at]);
        }
        lemma_only_blocks(rest);
        assert(items[items.len() - 1] == items.last());
    }
}

/// Items whose memory is what their blocks can use, all of it committed.
proof fn lemma_whole_memory(items: Seq<Sums>)
    requires
        forall|at: int|
            #![trigger items[at]]
            0 <= at < items.len() ==> items[at].reserved == items[at].usable && items[at].committed == items[at].usable && items[at].slabs
                == 0 && items[at].slices == 0,
    ensures
        total(items).reserved == total(items).usable,
        total(items).committed == total(items).usable,
        total(items).slabs == 0,
        total(items).slices == 0,
    decreases items.len(),
{
    if items.len() > 0 {
        let rest = items.drop_last();
        assert forall|at: int|
            #![trigger rest[at]]
            0 <= at < rest.len() implies rest[at].reserved == rest[at].usable && rest[at].committed == rest[at].usable && rest[at].slabs
            == 0 && rest[at].slices == 0 by {
            assert(rest[at] == items[at]);
        }
        lemma_whole_memory(rest);
        assert(items[items.len() - 1] == items.last());
    }
}

/// Whether the usage adds up: what is live, asked for and usable is what is so in small, medium and
/// direct blocks together.
pub open spec fn adds_up(usage: Usage) -> bool {
    &&& usage.kind matches UsageKind::General(parts)
    &&& usage.live_allocations == parts.small.live_allocations + parts.medium.live_allocations + parts.direct.live_allocations
    &&& usage.live_requested_bytes == parts.small.requested_bytes + parts.medium.requested_bytes + parts.direct.requested_bytes
    &&& usage.live_usable_bytes == parts.small.usable_bytes + parts.medium.usable_bytes + parts.direct.usable_bytes
}

/// What a heap reports adds up over its kinds of blocks. What it reserves is what its segments, its
/// thread heap and its direct mappings do, the spans that it keeps and its medium blocks, and so is what
/// it has committed. What is usable is never below what was asked for, where no block is smaller than
/// was asked for.
pub proof fn law_usage_adds_up(
    heap: &HeapState,
    slabs: &SlabTable,
    sizes: Seq<usize>,
    domain: &DomainState,
    extras: Seq<ExtraHeader>,
    remote: Option<RemoteUsage>,
)
    requires
        heap.wf(),
        slabs.wf(),
        small(&heap.small, slabs).inv(sizes),
        heap.segments_ok(slabs, sizes),
        heap_sums(heap, slabs, sizes, domain, extras, remote).within(),
    ensures
        ({
            let usage = heap_usage(heap, slabs, sizes, domain, extras, remote);
            let parts = usage.kind->General_0;
            let segments = total(heap.segment_items(small(&heap.small, slabs), sizes));
            let direct = direct_sums(extras, heap.address);
            &&& adds_up(usage)
            &&& blocks_hold(domain, extras, remote) ==> usage.live_requested_bytes <= usage.live_usable_bytes
            &&& parts.small.live_allocations == segments.live + (match remote {
                Some(own) => own.live_allocations as int,
                None => 0,
            })
            &&& parts.small.requested_bytes == segments.requested + (match remote {
                Some(own) => own.requested_bytes as int,
                None => 0,
            })
            &&& parts.small.usable_bytes == segments.usable + (match remote {
                Some(own) => own.usable_bytes as int,
                None => 0,
            })
            &&& parts.slab_count == segments.slabs + (match remote {
                Some(own) => own.slab_count as int,
                None => 0,
            })
            &&& parts.slice_count == segments.slices + (match remote {
                Some(own) => own.slice_count as int,
                None => 0,
            })
            &&& usage.reserved_bytes == segments.reserved + parts.cached_medium_bytes + parts.medium.usable_bytes + direct.reserved + (
            match remote {
                Some(own) => own.reserved_bytes as int,
                None => 0,
            })
            &&& usage.committed_bytes == segments.committed + parts.cached_medium_bytes + parts.medium.usable_bytes + direct.committed + (
            match remote {
                Some(own) => own.committed_bytes as int,
                None => 0,
            })
            &&& parts.medium.live_allocations == medium_sums(domain.regions@, heap.address).live
            &&& parts.medium.requested_bytes == medium_sums(domain.regions@, heap.address).requested
            &&& parts.direct.live_allocations == direct.live
            &&& parts.direct.requested_bytes == direct.requested
            &&& parts.direct.usable_bytes == direct.usable
        }),
{
    let model = small(&heap.small, slabs);
    let segments = heap.segment_items(model, sizes);
    assert forall|index: int| 0 <= index < segments.len() implies nothing().below(#[trigger] segments[index]) by {
        lemma_slab_items(heap, slabs, sizes, index);
    }
    lemma_total(segments, 0);
    lemma_region_items(domain.regions@, heap.address);
    let regions = region_items(domain.regions@, heap.address);
    lemma_total(regions, 0);
    let direct = direct_items(extras, heap.address);
    assert(counts(direct));
    lemma_total(direct, 0);
    let cached = heap.cache_items();
    assert forall|index: int| 0 <= index < cached.len() implies nothing().below(#[trigger] cached[index]) by {
        assert(vstd::arithmetic::power2::pow2(index as nat) * MEDIUM_SLICE_SIZE >= 0) by (nonlinear_arith)
            requires
                vstd::arithmetic::power2::pow2(index as nat) >= 0,
        ;
    }
    lemma_total(cached, 0);
    lemma_only_bytes(cached);
    assert forall|index: int|
        #![trigger regions[index]]
        0 <= index < regions.len() implies regions[index].reserved == regions[index].usable && regions[index].committed
        == regions[index].usable && regions[index].slabs == 0 && regions[index].slices == 0 by {
        lemma_whole_memory(slice_items(domain.regions@[index], heap.address));
    }
    lemma_whole_memory(regions);
    assert forall|at: int| #![trigger direct[at]] 0 <= at < direct.len() implies direct[at].slabs == 0 && direct[at].slices == 0 by {}
    lemma_no_slabs(direct);
    if blocks_hold(domain, extras, remote) {
        lemma_usage_holds(heap, slabs, sizes, domain, extras, remote);
    }
}

proof fn lemma_no_slabs(items: Seq<Sums>)
    requires
        forall|at: int| #![trigger items[at]] 0 <= at < items.len() ==> items[at].slabs == 0 && items[at].slices == 0,
    ensures
        total(items).slabs == 0,
        total(items).slices == 0,
    decreases items.len(),
{
    if items.len() > 0 {
        let rest = items.drop_last();
        assert forall|at: int| #![trigger rest[at]] 0 <= at < rest.len() implies rest[at].slabs == 0 && rest[at].slices == 0 by {
            assert(rest[at] == items[at]);
        }
        lemma_no_slabs(rest);
        assert(items[items.len() - 1] == items.last());
    }
}

/// Every block of a slab that is in use counts the size of its class as usable, and no more than that
/// as asked for: what was asked for is that without the padding of the blocks.
pub proof fn law_slabs_count_whole_blocks(heap: SmallHeap, sizes: Seq<usize>, address: usize)
    requires
        heap.inv(sizes),
        heap.slab_of_some_class(sizes, address),
    ensures
        ({
            let slab = heap.slabs[address];
            let sums = slab_sums(heap, sizes, address);
            let padding = slab.padding - total_padding(slab.remote);
            &&& sums.live == live_blocks(heap, sizes, marks_context(slab.marker), marked_class(slab.marker), address).len()
            &&& sums.usable == sums.live * slab.block_size
            &&& padding >= 0 ==> sums.requested <= sums.usable
            &&& 0 <= padding <= sums.usable ==> sums.requested + padding == sums.usable
            &&& sums.requested <= sums.usable
        }),
{
    let slab = heap.slabs[address];
    let (x, c) = choose|x: bool, c: int| 0 <= c < sizes.len() && #[trigger] heap.slab_of_class(sizes, x, c, address);
    assert(slab.well_formed());
    let sums = slab_sums(heap, sizes, address);
    assert(sums.usable >= 0) by (nonlinear_arith)
        requires
            sums.usable == sums.live * slab.block_size,
            sums.live >= 0,
            slab.block_size >= 16,
    ;
}

/// A segment counts the blocks of its slabs, and reserves its slices, or one slab where it has none.
pub proof fn law_segments_count_their_memory(heap: &HeapState, model: SmallHeap, sizes: Seq<usize>, index: int)
    requires
        0 <= index < heap.segments@.len(),
    ensures
        ({
            let segment = heap.segments@[index];
            let sums = heap.segment_sums(model, sizes, index);
            let blocks = total(heap.slab_items(model, sizes, index));
            &&& sums.live == blocks.live && sums.requested == blocks.requested && sums.usable == blocks.usable
            &&& segment.slices > 0 ==> sums.reserved == segment.slices * 65536
            &&& segment.slices == 0 ==> sums.reserved == 32768
            &&& sums.committed == segment.committed_bytes
            &&& sums.slices == segment.slices
        }),
{
    lemma_only_blocks(heap.slab_items(model, sizes, index));
}

/// A medium block that a heap gets counts as one block more of it, with the bytes that were asked for and
/// those of its slices, and as none of any other heap.
pub proof fn law_medium_blocks_count_what_they_take(
    before: Seq<Region>,
    after: Seq<Region>,
    index: int,
    slice: int,
    allocation: MediumAllocation,
    heap: usize,
)
    requires
        0 <= index < before.len(),
        after.len() == before.len(),
        forall|other: int|
            #![trigger after[other]]
            0 <= other < before.len() && other != index ==> after[other].allocations@ == before[other].allocations@,
        0 <= slice < MEDIUM_REGION_SLICE_COUNT,
        before[index].allocations@.len() == MEDIUM_REGION_SLICE_COUNT,
        before[index].allocations@[slice].owner.heap != heap,
        after[index].allocations@ == before[index].allocations@.update(slice, allocation),
    ensures
        ({
            let left = medium_sums(before, heap);
            let right = medium_sums(after, heap);
            if allocation.owner.heap == heap {
                &&& right.live == left.live + 1
                &&& right.requested == left.requested + allocation.requested_bytes
                &&& right.usable == left.usable + allocation.usable_bytes
                &&& right.reserved == left.reserved + allocation.usable_bytes
                &&& right.committed == left.committed + allocation.usable_bytes
            } else {
                right == left
            }
        }),
{
    let old_items = slice_items(before[index], heap);
    let new_items = slice_items(after[index], heap);
    let own = slice_sums(after[index], heap, slice);
    assert(new_items =~= old_items.update(slice, own));
    lemma_total_update(old_items, slice, own);
    assert(old_items[slice] == nothing());
    let left = region_items(before, heap);
    let right = region_items(after, heap);
    assert forall|other: int| 0 <= other < before.len() && other != index implies #[trigger] right[other] == left[other] by {
        assert(after[other].allocations@ == before[other].allocations@);
        assert(slice_items(after[other], heap) =~= slice_items(before[other], heap));
    }
    assert(right =~= left.update(index, right[index]));
    lemma_total_update(left, index, right[index]);
}

/// A block in a mapping of its own counts as one block more of its heap, with the bytes that were asked
/// for, those that can be used, and the mapping as reserved and committed. A record of a block of a slab
/// counts for nothing here.
pub proof fn law_direct_blocks_count_what_they_take(extras: Seq<ExtraHeader>, extra: ExtraHeader, heap: usize)
    ensures
        ({
            let left = direct_sums(extras, heap);
            let right = direct_sums(extras.push(extra), heap);
            if extra.class_index is None && extra.owner.heap == heap {
                &&& right.live == left.live + 1
                &&& right.requested == left.requested + extra.requested_bytes
                &&& right.usable == left.usable + extra.usable_bytes
                &&& right.reserved == left.reserved + extra.mapping_size
                &&& right.committed == left.committed + extra.mapping_size
            } else {
                right == left
            }
        }),
{
    let items = direct_items(extras.push(extra), heap);
    assert(items.drop_last() =~= direct_items(extras, heap));
    assert(items.last() == direct_item(extra, heap));
}

/// A span that a heap keeps counts as reserved and committed with its slices, and as no block.
pub proof fn law_kept_spans_count_as_memory(before: &HeapState, after: &HeapState, slot: int, address: usize)
    requires
        0 <= slot < LOCAL_MEDIUM_CLASSES,
        before.medium_cache@.len() == LOCAL_MEDIUM_CLASSES,
        before.medium_cache@[slot] == 0,
        address != 0,
        after.medium_cache@ == before.medium_cache@.update(slot, address),
    ensures
        after.cache_sums().reserved == before.cache_sums().reserved + vstd::arithmetic::power2::pow2(slot as nat) * 65536,
        after.cache_sums().committed == before.cache_sums().committed + vstd::arithmetic::power2::pow2(slot as nat) * 65536,
        after.cache_sums().live == before.cache_sums().live,
        after.cache_sums().requested == before.cache_sums().requested,
        after.cache_sums().usable == before.cache_sums().usable,
{
    let left = before.cache_items();
    let right = after.cache_items();
    assert(right =~= left.update(slot, right[slot]));
    lemma_total_update(left, slot, right[slot]);
}

} // verus!
