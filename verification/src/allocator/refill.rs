//! New slabs for a heap's size classes.

use vstd::prelude::*;

use crate::allocator::blocks::{idle_in, lemma_marked};
use crate::allocator::classes::{segment_of, MEDIUM_SLICE_SIZE};
use crate::allocator::domains::{lemma_changed_region, DomainState};
use crate::allocator::heaps::{holds_segment, HeapState, SlabAllocation};
use crate::allocator::holdings::lemma_metadata_frame;
use crate::allocator::region::{PhysicalSegment, PhysicalSlice, PhysicalSliceKind};
use crate::allocator::slab::{
    block_count, first_block, lemma_block_at, lemma_blocks, lemma_index_of, new_slab, slab_block_layout,
    valid_block_size, Slab, SlabModel, CONTEXT_SLAB_MARKER, SLAB_MARKER, SLAB_SIZE,
};
use crate::allocator::small::{lemma_inv_hot, marker_of, small, ClassHot, SmallHeap};
use crate::allocator::table::SlabTable;
use crate::tunables::{valid_sizes, Tuning};

verus! {

/// What recording that a slab lies at `address` leaves of a domain.
pub open spec fn small_recorded(
    before: &DomainState,
    after: &DomainState,
    address: usize,
    class: usize,
    context: bool,
    owner: usize,
    usable_blocks: int,
    utilization_tracked: bool,
) -> bool {
    match before.region_at(address as int) {
        None => after.regions@ == before.regions@,
        Some(index) => {
            let region = before.regions@[index];
            let slice = region.slice_of(address as int);
            let half = (address - region.base) % (MEDIUM_SLICE_SIZE as int) / (SLAB_SIZE as int);
            &&& after.same_but_region(before, index)
            &&& after.regions@[index].same_but_metadata(&region)
            &&& after.regions@[index].allocations == region.allocations
            &&& after.regions@[index].kept() == region.kept()
            &&& after.regions@[index].physical@ == region.physical@.update(
                slice,
                (PhysicalSlice { kind: PhysicalSliceKind::Small, span: 0, owner, ..region.physical@[slice] }).with_segment(
                    half,
                    PhysicalSegment {
                        class_index: Some(class),
                        context,
                        usable_blocks: usable_blocks as usize,
                        utilization_tracked,
                        live_blocks: region.physical@[slice].segment(half).live_blocks,
                    },
                ),
            )
        },
    }
}

impl DomainState {
    /// Records that a slab lies at `address`, where that lies in one of the domain's regions.
    pub fn record_small_segment(
        &mut self,
        address: usize,
        class: usize,
        context: bool,
        owner: usize,
        usable_blocks: usize,
        utilization_tracked: bool,
    )
        requires
            old(self).wf(),
        ensures
            final(self).wf(),
            final(self).id == old(self).id,
            final(self).is_default == old(self).is_default,
            old(self).spans_ok() ==> final(self).spans_ok() && final(self).keeps_spans(old(self)),
            small_recorded(old(self), final(self), address, class, context, owner, usable_blocks as int, utilization_tracked),
    {
        let ghost before = *self;
        match self.find_region(address) {
            None => {},
            Some(index) => {
                assert(self.regions@[index as int].wf());
                let slice: usize = self.regions[index].slice_index(address);
                let half: usize = self.regions[index].segment_index(address);
                self.regions[index].record_small_segment(slice, half, class, context, owner, usable_blocks, utilization_tracked);
                proof {
                    lemma_changed_region(&before, self, index as int);
                    if before.spans_ok() {
                        lemma_metadata_frame(&before, self, index as int);
                    }
                }
            },
        }
    }
}

/// A slab that has just handed out its first block has that block, and no other, idle.
pub proof fn lemma_first_block_idle(address: int, marker: u64, owner: usize, size: int)
    requires
        valid_block_size(size),
        0 < address,
        address % (SLAB_SIZE as int) == 0,
        address + SLAB_SIZE <= usize::MAX,
    ensures
        ({
            let slab = new_slab(address, marker, owner, size, first_block(size) + 1, false);
            &&& slab.well_formed()
            &&& address < slab.block_at(first_block(size)) < address + SLAB_SIZE
            &&& segment_of(slab.block_at(first_block(size))) == address
            &&& forall|block: int| #[trigger] idle_in(slab, block) <==> block == slab.block_at(first_block(size))
        }),
{
    let slab = new_slab(address, marker, owner, size, first_block(size) + 1, false);
    lemma_blocks(size);
    let first = first_block(size);
    let block = slab.block_at(first);
    lemma_block_at(slab, first);
    assert(size <= first * size <= (slab.count() - 1) * size) by (nonlinear_arith)
        requires
            1 <= first <= slab.count() - 1,
            size >= 16,
    ;
    assert((slab.count() - 1) * size < SLAB_SIZE) by {
        vstd::arithmetic::div_mod::lemma_fundamental_div_mod(SLAB_SIZE as int, size);
        assert((slab.count() - 1) * size == size * slab.count() - size) by (nonlinear_arith);
    }
    vstd::arithmetic::div_mod::lemma_fundamental_div_mod(address, SLAB_SIZE as int);
    vstd::arithmetic::div_mod::lemma_fundamental_div_mod_converse(
        block,
        SLAB_SIZE as int,
        address / (SLAB_SIZE as int),
        block - address,
    );
    assert forall|other: int| #[trigger] idle_in(slab, other) <==> other == block by {
        if slab.handed_out(other) {
            lemma_index_of(slab, other);
            assert(slab.index_of(other) == first);
        }
    }
}

/// Adding a slab to the process changes nothing of what is in use elsewhere.
pub proof fn lemma_slab_added(heap: SmallHeap, sizes: Seq<usize>, address: usize, slab: SlabModel)
    requires
        heap.inv(sizes),
        valid_sizes(sizes),
        !heap.slabs.dom().contains(address),
        slab.well_formed(),
        slab.address == address,
    ensures
        heap.with_slab(address, slab).inv(sizes),
        forall|x: bool, c: int, other: usize|
            0 <= c < sizes.len() && segment_of(other as int) != address ==> (#[trigger] heap.with_slab(address, slab).live(
                sizes,
                x,
                c,
                other,
            ) <==> heap.live(sizes, x, c, other)),
        forall|x: bool, c: int, other: usize|
            0 <= c < sizes.len() && segment_of(other as int) == address ==> !#[trigger] heap.live(sizes, x, c, other),
        forall|x: bool, c: int, other: usize|
            0 <= c < sizes.len() && segment_of(other as int) == address ==> (#[trigger] heap.with_slab(address, slab).live(
                sizes,
                x,
                c,
                other,
            ) <==> slab.block_size == sizes[c] && slab.marker == marker_of(x, c) && idle_in(slab, other as int)),
{
    let after = heap.with_slab(address, slab);
    assert forall|x: bool, c: int, a: usize| a != address implies #[trigger] after.slab_of_class(sizes, x, c, a)
        == heap.slab_of_class(sizes, x, c, a) by {}
    assert forall|x: bool, c: int, other: usize| segment_of(other as int) != address implies #[trigger] after.idle_block(
        sizes,
        x,
        c,
        other,
    ) == heap.idle_block(sizes, x, c, other) by {
        let at = segment_of(other as int) as usize;
        assert(0 <= segment_of(other as int) <= other) by {
            vstd::arithmetic::div_mod::lemma_mod_bound(other as int, SLAB_SIZE as int);
            vstd::arithmetic::div_mod::lemma_mod_decreases(other as nat, SLAB_SIZE as nat);
        }
        assert(after.slab_of_class(sizes, x, c, at) == heap.slab_of_class(sizes, x, c, at));
    }
    assert forall|x: bool, c: int| 0 <= c < sizes.len() implies #[trigger] after.hot_ok(sizes, x, c) by {
        assert(heap.hot_ok(sizes, x, c));
        let hot = heap.hot(x, c);
        assert(after.hot(x, c) == hot);
        if hot.cached_first != 0 {
            assert(heap.idle_block(sizes, x, c, hot.cached_first));
        }
        if hot.cached_second != 0 {
            assert(heap.idle_block(sizes, x, c, hot.cached_second));
        }
    }
    assert forall|x: bool, c: int| 0 <= c < sizes.len() implies #[trigger] after.partial_ok(sizes, x, c) by {
        assert(heap.partial_ok(sizes, x, c));
        assert(after.partial(x, c) == heap.partial(x, c));
    }
    assert forall|position: int| 0 <= position < after.inbox.len() implies after.slab_of_some_class(
        sizes,
        #[trigger] after.inbox[position],
    ) by {
        assert(heap.slab_of_some_class(sizes, heap.inbox[position]));
        let (x, c) = choose|x: bool, c: int|
            0 <= c < sizes.len() && #[trigger] heap.slab_of_class(sizes, x, c, heap.inbox[position]);
        assert(after.slab_of_class(sizes, x, c, after.inbox[position]));
    }
    assert forall|x: bool, c: int, other: usize| 0 <= c < sizes.len() && segment_of(other as int) != address implies (#[trigger] after.live(
        sizes,
        x,
        c,
        other,
    ) <==> heap.live(sizes, x, c, other)) by {
        assert(after.hot(x, c) == heap.hot(x, c));
        assert(after.idle_block(sizes, x, c, other) == heap.idle_block(sizes, x, c, other));
    }
    assert forall|x: bool, c: int, other: usize| 0 <= c < sizes.len() && segment_of(other as int) == address implies !#[trigger] heap.live(
        sizes,
        x,
        c,
        other,
    ) by {
        assert(!heap.slab_of_class(sizes, x, c, address));
    }
    assert forall|x: bool, c: int, other: usize| 0 <= c < sizes.len() && segment_of(other as int) == address implies (#[trigger] after.live(
        sizes,
        x,
        c,
        other,
    ) <==> slab.block_size == sizes[c] && slab.marker == marker_of(x, c) && idle_in(slab, other as int)) by {
        assert(heap.hot_ok(sizes, x, c));
        assert(after.hot(x, c) == heap.hot(x, c));
        assert(!heap.slab_of_class(sizes, x, c, address));
        assert(after.slab_of_class(sizes, x, c, address) == (slab.block_size == sizes[c] && slab.marker == marker_of(x, c)));
    }
}

/// The heap after a new slab of the class became active.
pub open spec fn refilled(heap: SmallHeap, sizes: Seq<usize>, context: bool, class: int, address: usize, owner: usize) -> SmallHeap {
    heap.with_slab(
        address,
        new_slab(
            address as int,
            marker_of(context, class) as u64,
            owner,
            sizes[class] as int,
            first_block(sizes[class] as int) + 1,
            false,
        ),
    ).with_hot(context, class, ClassHot { active: address, ..heap.hot(context, class) })
}

/// A new slab's first block was not in use. Afterwards it is, and everything else is in use
/// exactly where it was before.
pub proof fn law_refill_serves_an_unused_block(
    heap: SmallHeap,
    sizes: Seq<usize>,
    context: bool,
    class: int,
    address: usize,
    owner: usize,
)
    requires
        heap.inv(sizes),
        valid_sizes(sizes),
        0 <= class < sizes.len(),
        valid_block_size(sizes[class] as int),
        !heap.slabs.dom().contains(address),
        0 < address,
        address as int % (SLAB_SIZE as int) == 0,
        address + SLAB_SIZE <= usize::MAX,
    ensures
        ({
            let after = refilled(heap, sizes, context, class, address, owner);
            let block = address + first_block(sizes[class] as int) * sizes[class];
            &&& after.inv(sizes)
            &&& address < block < address + SLAB_SIZE
            &&& !heap.live(sizes, context, class, block as usize)
            &&& forall|x: bool, c: int, other: usize|
                0 <= c < sizes.len() ==> (#[trigger] after.live(sizes, x, c, other) <==> heap.live(sizes, x, c, other) || (x
                    == context && c == class && other == block))
        }),
{
    let size = sizes[class] as int;
    let marker = marker_of(context, class) as u64;
    let slab = new_slab(address as int, marker, owner, size, first_block(size) + 1, false);
    lemma_first_block_idle(address as int, marker, owner, size);
    lemma_slab_added(heap, sizes, address, slab);
    let added = heap.with_slab(address, slab);
    let hot = ClassHot { active: address, ..heap.hot(context, class) };
    assert(added.hot_ok(sizes, context, class));
    assert(added.hot(context, class) == heap.hot(context, class));
    assert(added.slab_of_class(sizes, context, class, address));
    lemma_inv_hot(added, sizes, context, class, hot);
    let after = refilled(heap, sizes, context, class, address, owner);
    let block = slab.block_at(first_block(size));
    assert forall|x: bool, c: int, other: usize| 0 <= c < sizes.len() implies (#[trigger] after.live(sizes, x, c, other) <==> heap.live(
        sizes,
        x,
        c,
        other,
    ) || (x == context && c == class && other == block)) by {
        assert(after.idle_block(sizes, x, c, other) == added.idle_block(sizes, x, c, other)) by {
            assert(after.slabs == added.slabs);
        }
        assert(after.hot(x, c).cached_first == heap.hot(x, c).cached_first);
        assert(after.hot(x, c).cached_second == heap.hot(x, c).cached_second);
        assert(added.hot(x, c) == heap.hot(x, c));
        assert(after.live(sizes, x, c, other) == added.live(sizes, x, c, other));
        if segment_of(other as int) == address {
            assert(!heap.live(sizes, x, c, other));
            assert(added.live(sizes, x, c, other) <==> slab.block_size == sizes[c] && slab.marker == marker_of(x, c) && idle_in(
                slab,
                other as int,
            ));
            if idle_in(slab, other as int) && slab.marker == marker_of(x, c) {
                lemma_marked(context, class, marker);
                lemma_marked(x, c, marker);
            }
        } else {
            assert(added.live(sizes, x, c, other) <==> heap.live(sizes, x, c, other));
        }
    }
    assert(!heap.live(sizes, context, class, block as usize));
}

/// Turns address space into an active slab of a class, and serves its first block.
pub fn initialize_slab(
    heap: &mut HeapState,
    slabs: &mut SlabTable,
    domain: &mut DomainState,
    tuning: &Tuning,
    allocation: SlabAllocation,
    context: bool,
    class: usize,
    track_aggregates: bool,
) -> (block: usize)
    requires
        tuning.wf(),
        class < tuning.sizes@.len(),
        old(heap).shape(),
        old(slabs).wf(),
        old(domain).wf(),
        small(&old(heap).small, old(slabs)).inv(tuning.sizes@),
        !old(slabs)@.dom().contains(allocation.address),
        0 < allocation.address,
        allocation.address as int % (SLAB_SIZE as int) == 0,
        allocation.address + SLAB_SIZE <= usize::MAX,
        allocation.segment matches Some(segment) ==> segment.base == allocation.address,
        allocation.segment is None || allocation.segment->0.slices == 0 ==> old(heap).wf(),
    ensures
        final(heap).wf(),
        final(slabs).wf(),
        final(domain).wf(),
        final(domain).id == old(domain).id,
        final(domain).is_default == old(domain).is_default,
        old(domain).spans_ok() ==> final(domain).spans_ok() && final(domain).keeps_spans(old(domain)),
        small(&final(heap).small, final(slabs)).inv(tuning.sizes@),
        small(&final(heap).small, final(slabs)) == refilled(
            small(&old(heap).small, old(slabs)),
            tuning.sizes@,
            context,
            class as int,
            allocation.address,
            old(heap).address,
        ),
        block == allocation.address + first_block(tuning.sizes@[class as int] as int) * tuning.sizes@[class as int],
        block != 0,
        small_recorded(
            old(domain),
            final(domain),
            allocation.address,
            class,
            context,
            old(heap).address,
            block_count(tuning.sizes@[class as int] as int) - first_block(tuning.sizes@[class as int] as int),
            track_aggregates,
        ),
        final(heap).segments@ == (match allocation.segment {
            Some(segment) => old(heap).segments@.push(segment),
            None => old(heap).segments@,
        }),
        final(heap).locality_segment == (match allocation.segment {
            Some(segment) => if segment.slices != 0 {
                segment.base
            } else {
                old(heap).locality_segment
            },
            None => old(heap).locality_segment,
        }),
        final(heap).locality_next == old(heap).locality_next,
        final(heap).locality_end == old(heap).locality_end,
        final(heap).address == old(heap).address,
        final(heap).medium_cache == old(heap).medium_cache,
        final(heap).locality_segment_slices == old(heap).locality_segment_slices,
        final(heap).medium_cache_max_bytes == old(heap).medium_cache_max_bytes,
        final(heap).domain == old(heap).domain,
        final(heap).track_aggregates == old(heap).track_aggregates,
        final(heap).retirable == old(heap).retirable,
        final(heap).retirement == old(heap).retirement,
{
    let ghost before = small(&heap.small, slabs);
    let ghost sizes = tuning.sizes@;
    let ghost segments = heap.segments@;
    let address: usize = allocation.address;
    let size: usize = tuning.sizes[class];
    proof {
        assert(sizes[class as int] == size);
        assert(valid_block_size(size as int));
        law_refill_serves_an_unused_block(before, sizes, context, class as int, address, heap.address);
        lemma_blocks(size as int);
    }
    let (first, count) = slab_block_layout(size);
    assert(first * size < SLAB_SIZE) by {
        assert(address + first_block(size as int) * size < address + SLAB_SIZE);
    }
    let marker: u64 = if context {
        CONTEXT_SLAB_MARKER + class as u64
    } else {
        SLAB_MARKER + class as u64
    };
    let slab = Slab::new(address, marker, heap.address, size);
    slabs.push(slab);
    domain.record_small_segment(address, class, context, heap.address, count - first, track_aggregates);
    if let Some(segment) = allocation.segment {
        heap.segments.push(segment);
        if segment.slices != 0 {
            heap.locality_segment = segment.base;
        }
        proof {
            let last = segments.len() as int;
            assert(heap.segments@[last].base == segment.base);
            if segment.slices == 0 && heap.locality_next < heap.locality_end {
                let at = choose|index: int|
                    0 <= index < segments.len() && (#[trigger] segments[index]).base == heap.locality_segment;
                assert(heap.segments@[at].base == heap.locality_segment);
            }
        }
    }
    let mut hot = heap.small.hot(context, class);
    hot.active = address;
    heap.small.set_hot(context, class, hot);
    proof {
        assert(small(&heap.small, slabs) =~= refilled(before, sizes, context, class as int, address, heap.address));
        if heap.locality_next < heap.locality_end {
            assert(holds_segment(heap.segments@, heap.locality_segment));
        }
    }
    address + first * size
}

} // verus!
