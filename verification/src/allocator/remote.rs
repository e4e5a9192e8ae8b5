//! Thread heaps: heaps that other threads allocate from on behalf of the thread that owns them.

use vstd::prelude::*;

use crate::allocator::blocks::{idle_in, lemma_at_address};
use crate::allocator::classes::{segment_of, MEDIUM_SLICE_SIZE};
use crate::allocator::domains::DomainState;
use crate::allocator::refill::small_recorded;
use crate::allocator::slab::{
    block_count, first_block, lemma_block_at, lemma_blocks, new_slab, slab_block_layout, valid_block_size, Slab,
    SlabModel, CONTEXT_SLAB_MARKER, SLAB_MARKER, SLAB_SIZE,
};
use crate::allocator::small::marker_of;
use crate::allocator::table::SlabTable;
use crate::hints::general;
use crate::tunables::{Tuning, MAX_SIZE_CLASSES};

verus! {

/// What a thread heap counts. The counters wrap around.
#[derive(Clone, Copy, Debug, PartialEq, Eq, Structural)]
pub struct RemoteUsage {
    pub live_allocations: usize,
    pub requested_bytes: usize,
    pub usable_bytes: usize,
    pub reserved_bytes: usize,
    pub committed_bytes: usize,
    pub slab_count: usize,
    pub slice_count: usize,
}

pub open spec fn no_remote_usage() -> RemoteUsage {
    RemoteUsage {
        live_allocations: 0,
        requested_bytes: 0,
        usable_bytes: 0,
        reserved_bytes: 0,
        committed_bytes: 0,
        slab_count: 0,
        slice_count: 0,
    }
}

impl RemoteUsage {
    pub open spec fn with_allocation(self, requested_bytes: usize, usable_bytes: usize) -> RemoteUsage {
        RemoteUsage {
            live_allocations: self.live_allocations.wrapping_add(1),
            requested_bytes: self.requested_bytes.wrapping_add(requested_bytes),
            usable_bytes: self.usable_bytes.wrapping_add(usable_bytes),
            ..self
        }
    }

    pub open spec fn without_allocation(self, requested_bytes: usize, usable_bytes: usize) -> RemoteUsage {
        RemoteUsage {
            live_allocations: self.live_allocations.wrapping_sub(1),
            requested_bytes: self.requested_bytes.wrapping_sub(requested_bytes),
            usable_bytes: self.usable_bytes.wrapping_sub(usable_bytes),
            ..self
        }
    }

    pub open spec fn with_slice(self) -> RemoteUsage {
        RemoteUsage {
            reserved_bytes: self.reserved_bytes.wrapping_add(MEDIUM_SLICE_SIZE),
            committed_bytes: self.committed_bytes.wrapping_add(MEDIUM_SLICE_SIZE),
            slab_count: self.slab_count.wrapping_add(2),
            slice_count: self.slice_count.wrapping_add(1),
            ..self
        }
    }
}

pub struct RemoteHeap {
    pub address: usize,
    /// The thread that owns the heap, or 0 once that has ended.
    pub owner_token: usize,
    /// The owner's default heap, or 0.
    pub owner_heap: usize,
    pub domain: usize,
    pub options: general::Options,
    pub usage: RemoteUsage,
    /// The blocks that can be handed out, by class, newest last.
    pub classes: Vec<Vec<usize>>,
    pub context_classes: Vec<Vec<usize>>,
}

/// Whether `block` is a block of the class that is neither free nor waiting to be.
pub open spec fn idle_at(slabs: Map<usize, SlabModel>, sizes: Seq<usize>, context: bool, class: int, block: usize) -> bool {
    let address = segment_of(block as int) as usize;
    &&& slabs.dom().contains(address)
    &&& slabs[address].address == address
    &&& slabs[address].block_size == sizes[class]
    &&& slabs[address].marker == marker_of(context, class)
    &&& idle_in(slabs[address], block as int)
}

/// The blocks that a slab of a thread heap is cut into.
pub open spec fn blocks_of(address: int, size: int) -> Seq<usize> {
    Seq::new(
        (block_count(size) - first_block(size)) as nat,
        |index: int| (address + (first_block(size) + index) * size) as usize,
    )
}

impl RemoteHeap {
    pub open spec fn lists(&self, context: bool) -> Seq<Vec<usize>> {
        if context {
            self.context_classes@
        } else {
            self.classes@
        }
    }

    pub open spec fn list(&self, context: bool, class: int) -> Seq<usize> {
        self.lists(context)[class]@
    }

    pub open spec fn shape(&self) -> bool {
        self.address != 0 && self.classes@.len() == MAX_SIZE_CLASSES && self.context_classes@.len() == MAX_SIZE_CLASSES
    }

    pub open spec fn lists_block(&self, sizes: Seq<usize>, block: usize) -> bool {
        exists|context: bool, class: int|
            0 <= class < sizes.len() && #[trigger] self.list(context, class).contains(block)
    }

    /// The listed blocks are blocks of their class that nothing else holds, listed once.
    pub open spec fn inv(&self, slabs: Map<usize, SlabModel>, sizes: Seq<usize>) -> bool {
        &&& self.shape()
        &&& forall|context: bool, class: int, position: int|
            #![trigger self.list(context, class)[position]]
            0 <= class < sizes.len() && 0 <= position < self.list(context, class).len() ==> idle_at(
                slabs,
                sizes,
                context,
                class,
                self.list(context, class)[position],
            )
        &&& forall|context: bool, class: int, left: int, right: int|
            #![trigger self.list(context, class)[left], self.list(context, class)[right]]
            0 <= class < sizes.len() && 0 <= left < right < self.list(context, class).len() ==> self.list(context, class)[left]
                != self.list(context, class)[right]
    }

    /// Everything but one class's list and the counters is as in `other`.
    pub open spec fn same_but_list(&self, other: &RemoteHeap, context: bool, class: int) -> bool {
        &&& self.address == other.address
        &&& self.owner_token == other.owner_token
        &&& self.owner_heap == other.owner_heap
        &&& self.domain == other.domain
        &&& self.options == other.options
        &&& self.classes@.len() == other.classes@.len()
        &&& self.context_classes@.len() == other.context_classes@.len()
        &&& forall|x: bool, c: int|
            #![trigger self.list(x, c)]
            0 <= c < MAX_SIZE_CLASSES && !(x == context && c == class) ==> self.list(x, c) == other.list(x, c)
    }

    pub fn new(address: usize, owner_token: usize, owner_heap: usize, domain: usize, options: general::Options) -> (remote: RemoteHeap)
        requires
            address != 0,
        ensures
            remote.shape(),
            remote.address == address,
            remote.owner_token == owner_token,
            remote.owner_heap == owner_heap,
            remote.domain == domain,
            remote.options == options,
            remote.usage == no_remote_usage(),
            forall|context: bool, class: int|
                #![trigger remote.list(context, class)]
                0 <= class < MAX_SIZE_CLASSES ==> remote.list(context, class).len() == 0,
    {
        let mut classes: Vec<Vec<usize>> = Vec::new();
        let mut context_classes: Vec<Vec<usize>> = Vec::new();
        while classes.len() < MAX_SIZE_CLASSES
            invariant
                classes@.len() <= MAX_SIZE_CLASSES,
                context_classes@.len() == classes@.len(),
                forall|class: int| 0 <= class < classes@.len() ==> (#[trigger] classes@[class])@.len() == 0,
                forall|class: int| 0 <= class < classes@.len() ==> (#[trigger] context_classes@[class])@.len() == 0,
            decreases MAX_SIZE_CLASSES - classes@.len(),
        {
            classes.push(Vec::new());
            context_classes.push(Vec::new());
        }
        RemoteHeap {
            address,
            owner_token,
            owner_heap,
            domain,
            options,
            usage: RemoteUsage {
                live_allocations: 0,
                requested_bytes: 0,
                usable_bytes: 0,
                reserved_bytes: 0,
                committed_bytes: 0,
                slab_count: 0,
                slice_count: 0,
            },
            classes,
            context_classes,
        }
    }

    fn push_listed(&mut self, context: bool, class: usize, block: usize)
        requires
            old(self).shape(),
            class < MAX_SIZE_CLASSES,
        ensures
            final(self).shape(),
            final(self).usage == old(self).usage,
            final(self).same_but_list(old(self), context, class as int),
            final(self).list(context, class as int) == old(self).list(context, class as int).push(block),
    {
        if context {
            self.context_classes[class].push(block);
        } else {
            self.classes[class].push(block);
        }
    }

    fn pop_listed(&mut self, context: bool, class: usize) -> (block: Option<usize>)
        requires
            old(self).shape(),
            class < MAX_SIZE_CLASSES,
        ensures
            final(self).shape(),
            final(self).usage == old(self).usage,
            final(self).same_but_list(old(self), context, class as int),
            match block {
                Some(block) => old(self).list(context, class as int).len() > 0 && block == old(self).list(
                    context,
                    class as int,
                ).last() && final(self).list(context, class as int) == old(self).list(context, class as int).drop_last(),
                None => old(self).list(context, class as int).len() == 0 && *final(self) == *old(self),
            },
    {
        let ghost before = self.list(context, class as int);
        let empty: bool = if context {
            self.context_classes[class].len() == 0
        } else {
            self.classes[class].len() == 0
        };
        if empty {
            return None;
        }
        let block = if context {
            self.context_classes[class].pop()
        } else {
            self.classes[class].pop()
        };
        proof {
            assert(self.list(context, class as int) =~= before.drop_last());
        }
        block
    }
}

/// Lists stay what they are while their blocks stay idle.
pub proof fn lemma_remote_kept(remote: &RemoteHeap, sizes: Seq<usize>, before: Map<usize, SlabModel>, after: Map<usize, SlabModel>)
    requires
        remote.inv(before, sizes),
        forall|context: bool, class: int, block: usize|
            0 <= class < sizes.len() && remote.list(context, class).contains(block) && idle_at(before, sizes, context, class, block)
                ==> #[trigger] idle_at(after, sizes, context, class, block),
    ensures
        remote.inv(after, sizes),
{
    assert forall|context: bool, class: int, position: int|
        #![trigger remote.list(context, class)[position]]
        0 <= class < sizes.len() && 0 <= position < remote.list(context, class).len() implies idle_at(
        after,
        sizes,
        context,
        class,
        remote.list(context, class)[position],
    ) by {
        let block = remote.list(context, class)[position];
        assert(remote.list(context, class).contains(block));
        assert(idle_at(before, sizes, context, class, block));
    }
}

/// What holds of the lists depends on the lists alone.
pub proof fn lemma_same_lists(before: &RemoteHeap, after: &RemoteHeap, slabs: Map<usize, SlabModel>, sizes: Seq<usize>)
    requires
        after.address == before.address,
        after.classes == before.classes,
        after.context_classes == before.context_classes,
    ensures
        before.inv(slabs, sizes) ==> after.inv(slabs, sizes),
        forall|x: bool, c: int| #[trigger] after.list(x, c) == before.list(x, c),
{
    assert forall|x: bool, c: int| #[trigger] after.list(x, c) == before.list(x, c) by {}
    if before.inv(slabs, sizes) {
        assert forall|x: bool, c: int, position: int|
            #![trigger after.list(x, c)[position]]
            0 <= c < sizes.len() && 0 <= position < after.list(x, c).len() implies idle_at(
            slabs,
            sizes,
            x,
            c,
            after.list(x, c)[position],
        ) by {
            assert(idle_at(slabs, sizes, x, c, before.list(x, c)[position]));
        }
        assert forall|x: bool, c: int, left: int, right: int|
            #![trigger after.list(x, c)[left], after.list(x, c)[right]]
            0 <= c < sizes.len() && 0 <= left < right < after.list(x, c).len() implies after.list(x, c)[left] != after.list(
            x,
            c,
        )[right] by {
            assert(before.list(x, c)[left] != before.list(x, c)[right]);
        }
    }
}

/// Takes a listed block, and counts it. Returns 0 where the class has none.
pub fn pop_remote_block(
    remote: &mut RemoteHeap,
    tuning: &Tuning,
    context: bool,
    class: usize,
    requested_bytes: usize,
    slabs: &SlabTable,
) -> (block: usize)
    requires
        tuning.wf(),
        class < tuning.sizes@.len(),
        old(remote).inv(slabs@, tuning.sizes@),
        slabs.wf(),
    ensures
        final(remote).inv(slabs@, tuning.sizes@),
        final(remote).same_but_list(old(remote), context, class as int),
        if old(remote).list(context, class as int).len() == 0 {
            &&& block == 0
            &&& *final(remote) == *old(remote)
        } else {
            &&& block == old(remote).list(context, class as int).last()
            &&& block != 0
            &&& final(remote).list(context, class as int) == old(remote).list(context, class as int).drop_last()
            &&& final(remote).usage == old(remote).usage.with_allocation(requested_bytes, tuning.sizes@[class as int])
        },
{
    let ghost before = *remote;
    let ghost sizes = tuning.sizes@;
    assert(sizes.len() <= MAX_SIZE_CLASSES);
    let popped = remote.pop_listed(context, class);
    proof {
        lemma_shorter_list(&before, remote, slabs@, sizes, context, class as int);
    }
    let ghost shorter = *remote;
    match popped {
        None => 0,
        Some(block) => {
            let size: usize = tuning.sizes[class];
            proof {
                let last = before.list(context, class as int).len() - 1;
                assert(idle_at(slabs@, sizes, context, class as int, before.list(context, class as int)[last]));
                lemma_at_address(slabs, segment_of(block as int) as usize);
            }
            remote.usage.live_allocations = remote.usage.live_allocations.wrapping_add(1);
            remote.usage.requested_bytes = remote.usage.requested_bytes.wrapping_add(requested_bytes);
            remote.usage.usable_bytes = remote.usage.usable_bytes.wrapping_add(size);
            proof {
                lemma_same_lists(&shorter, remote, slabs@, sizes);
            }
            block
        },
    }
}

proof fn lemma_shorter_list(before: &RemoteHeap, after: &RemoteHeap, slabs: Map<usize, SlabModel>, sizes: Seq<usize>, context: bool, class: int)
    requires
        before.inv(slabs, sizes),
        sizes.len() <= MAX_SIZE_CLASSES,
        0 <= class < sizes.len(),
        after.shape(),
        after.same_but_list(before, context, class),
        after.list(context, class) == before.list(context, class) || (before.list(context, class).len() > 0 && after.list(
            context,
            class,
        ) == before.list(context, class).drop_last()),
    ensures
        after.inv(slabs, sizes),
{
    assert forall|x: bool, c: int, position: int|
        #![trigger after.list(x, c)[position]]
        0 <= c < sizes.len() && 0 <= position < after.list(x, c).len() implies idle_at(
        slabs,
        sizes,
        x,
        c,
        after.list(x, c)[position],
    ) by {
        assert(after.list(x, c)[position] == before.list(x, c)[position]);
    }
    assert forall|x: bool, c: int, left: int, right: int|
        #![trigger after.list(x, c)[left], after.list(x, c)[right]]
        0 <= c < sizes.len() && 0 <= left < right < after.list(x, c).len() implies after.list(x, c)[left] != after.list(
        x,
        c,
    )[right] by {
        assert(after.list(x, c)[left] == before.list(x, c)[left]);
        assert(after.list(x, c)[right] == before.list(x, c)[right]);
    }
}

/// Lists a block that another thread than the owner freed.
pub fn push_remote_available(
    remote: &mut RemoteHeap,
    tuning: &Tuning,
    context: bool,
    class: usize,
    block: usize,
    slabs: &SlabTable,
)
    requires
        tuning.wf(),
        class < tuning.sizes@.len(),
        old(remote).inv(slabs@, tuning.sizes@),
        idle_at(slabs@, tuning.sizes@, context, class as int, block),
        !old(remote).list(context, class as int).contains(block),
    ensures
        final(remote).inv(slabs@, tuning.sizes@),
        final(remote).usage == old(remote).usage,
        final(remote).same_but_list(old(remote), context, class as int),
        final(remote).list(context, class as int) == old(remote).list(context, class as int).push(block),
{
    let ghost before = *remote;
    let ghost sizes = tuning.sizes@;
    assert(sizes.len() <= MAX_SIZE_CLASSES);
    remote.push_listed(context, class, block);
    proof {
        lemma_longer_list(&before, remote, slabs@, sizes, context, class as int, block);
    }
}

proof fn lemma_longer_list(
    before: &RemoteHeap,
    after: &RemoteHeap,
    slabs: Map<usize, SlabModel>,
    sizes: Seq<usize>,
    context: bool,
    class: int,
    block: usize,
)
    requires
        before.inv(slabs, sizes),
        sizes.len() <= MAX_SIZE_CLASSES,
        0 <= class < sizes.len(),
        after.shape(),
        after.same_but_list(before, context, class),
        after.list(context, class) == before.list(context, class).push(block),
        idle_at(slabs, sizes, context, class, block),
        !before.list(context, class).contains(block),
    ensures
        after.inv(slabs, sizes),
{
    assert forall|x: bool, c: int, position: int|
        #![trigger after.list(x, c)[position]]
        0 <= c < sizes.len() && 0 <= position < after.list(x, c).len() implies idle_at(
        slabs,
        sizes,
        x,
        c,
        after.list(x, c)[position],
    ) by {
        if position < before.list(x, c).len() {
            assert(after.list(x, c)[position] == before.list(x, c)[position]);
        }
    }
    assert forall|x: bool, c: int, left: int, right: int|
        #![trigger after.list(x, c)[left], after.list(x, c)[right]]
        0 <= c < sizes.len() && 0 <= left < right < after.list(x, c).len() implies after.list(x, c)[left] != after.list(
        x,
        c,
    )[right] by {
        assert(after.list(x, c)[left] == before.list(x, c)[left]);
        if right < before.list(x, c).len() {
            assert(after.list(x, c)[right] == before.list(x, c)[right]);
        } else {
            assert(before.list(x, c).contains(before.list(x, c)[left]));
        }
    }
}

/// A slab whose blocks are all published has each of them idle.
pub proof fn lemma_published(address: int, marker: u64, owner: usize, size: int, index: int)
    requires
        valid_block_size(size),
        0 < address,
        address % (SLAB_SIZE as int) == 0,
        address + SLAB_SIZE <= usize::MAX,
        first_block(size) <= index < block_count(size),
    ensures
        ({
            let slab = new_slab(address, marker, owner, size, block_count(size), true);
            let block = slab.block_at(index);
            &&& address < block < address + SLAB_SIZE
            &&& segment_of(block) == address
            &&& idle_in(slab, block)
            &&& block == address + index * size
        }),
{
    let slab = new_slab(address, marker, owner, size, block_count(size), true);
    lemma_blocks(size);
    lemma_block_at(slab, index);
    let block = slab.block_at(index);
    assert(size <= index * size <= (slab.count() - 1) * size) by (nonlinear_arith)
        requires
            1 <= index <= slab.count() - 1,
            size >= 16,
    ;
    assert((slab.count() - 1) * size < SLAB_SIZE) by {
        vstd::arithmetic::div_mod::lemma_fundamental_div_mod(SLAB_SIZE as int, size);
        assert((slab.count() - 1) * size == size * slab.count() - size) by (nonlinear_arith);
    }
    vstd::arithmetic::div_mod::lemma_fundamental_div_mod(address, SLAB_SIZE as int);
    vstd::arithmetic::div_mod::lemma_fundamental_div_mod_converse(
        block,
        SLAB_SIZE as int,
        address / (SLAB_SIZE as int),
        block - address,
    );
}

/// Turns half a slice into a slab of a thread heap, and lists its blocks.
pub fn initialize_remote_slab(
    remote: &mut RemoteHeap,
    slabs: &mut SlabTable,
    domain: &mut DomainState,
    tuning: &Tuning,
    address: usize,
    context: bool,
    class: usize,
    track_aggregates: bool,
)
    requires
        tuning.wf(),
        class < tuning.sizes@.len(),
        old(slabs).wf(),
        old(domain).wf(),
        old(remote).inv(old(slabs)@, tuning.sizes@),
        !old(slabs)@.dom().contains(address),
        0 < address,
        address as int % (SLAB_SIZE as int) == 0,
        address + SLAB_SIZE <= usize::MAX,
    ensures
        final(slabs).wf(),
        final(domain).wf(),
        final(domain).id == old(domain).id,
        final(domain).is_default == old(domain).is_default,
        old(domain).spans_ok() ==> final(domain).spans_ok() && final(domain).keeps_spans(old(domain)),
        final(slabs)@ == old(slabs)@.insert(
            address,
            new_slab(
                address as int,
                marker_of(context, class as int) as u64,
                old(remote).address,
                tuning.sizes@[class as int] as int,
                block_count(tuning.sizes@[class as int] as int),
                true,
            ),
        ),
        final(remote).inv(final(slabs)@, tuning.sizes@),
        final(remote).usage == old(remote).usage,
        final(remote).same_but_list(old(remote), context, class as int),
        final(remote).list(context, class as int) == old(remote).list(context, class as int) + blocks_of(
            address as int,
            tuning.sizes@[class as int] as int,
        ),
        small_recorded(
            old(domain),
            final(domain),
            address,
            class,
            context,
            old(remote).address,
            block_count(tuning.sizes@[class as int] as int) - first_block(tuning.sizes@[class as int] as int),
            track_aggregates,
        ),
{
    let ghost before = *remote;
    let ghost table = slabs@;
    let ghost sizes = tuning.sizes@;
    let size: usize = tuning.sizes[class];
    assert(sizes[class as int] == size);
    assert(sizes.len() <= MAX_SIZE_CLASSES);
    let (first, count) = slab_block_layout(size);
    let marker: u64 = if context {
        CONTEXT_SLAB_MARKER + class as u64
    } else {
        SLAB_MARKER + class as u64
    };
    let slab = Slab::new_remote(address, marker, remote.address, size);
    slabs.push(slab);
    domain.record_small_segment(address, class, context, remote.address, count - first, track_aggregates);
    proof {
        assert forall|x: bool, c: int, block: usize|
            0 <= c < sizes.len() && before.list(x, c).contains(block) && idle_at(table, sizes, x, c, block) implies #[trigger] idle_at(
            slabs@,
            sizes,
            x,
            c,
            block,
        ) by {}
        lemma_remote_kept(remote, sizes, table, slabs@);
    }
    let ghost listed = blocks_of(address as int, size as int);
    let mut index: usize = first;
    while index < count
        invariant
            tuning.wf(),
            sizes == tuning.sizes@,
            class < sizes.len() <= MAX_SIZE_CLASSES,
            sizes[class as int] == size,
            valid_block_size(size as int),
            1 <= first <= index <= count <= 2048,
            first == first_block(size as int),
            count == block_count(size as int),
            0 < address,
            address as int % (SLAB_SIZE as int) == 0,
            address + SLAB_SIZE <= usize::MAX,
            listed == blocks_of(address as int, size as int),
            !table.dom().contains(address),
            before.inv(table, sizes),
            slabs@ == table.insert(
                address,
                new_slab(address as int, marker, before.address, size as int, block_count(size as int), true),
            ),
            marker == marker_of(context, class as int),
            remote.inv(slabs@, sizes),
            remote.usage == before.usage,
            remote.same_but_list(&before, context, class as int),
            remote.list(context, class as int) == before.list(context, class as int) + listed.take(index - first),
        decreases count - index,
    {
        proof {
            lemma_published(address as int, marker, before.address, size as int, index as int);
        }
        let block: usize = address + index * size;
        let ghost current = *remote;
        proof {
            assert(listed[index - first] == block);
            assert(idle_at(slabs@, sizes, context, class as int, block));
            if remote.list(context, class as int).contains(block) {
                let at = choose|at: int|
                    0 <= at < remote.list(context, class as int).len() && remote.list(context, class as int)[at] == block;
                let start = before.list(context, class as int).len() as int;
                if at < start {
                    assert(before.list(context, class as int)[at] == block);
                    assert(idle_at(table, sizes, context, class as int, before.list(context, class as int)[at]));
                } else {
                    let other = at - start;
                    assert(listed.take(index - first)[other] == listed[other]);
                    lemma_published(address as int, marker, before.address, size as int, first + other);
                    assert((first + other) * size == index * size);
                    assert(first + other == index) by (nonlinear_arith)
                        requires
                            (first + other) * size == index * size,
                            size >= 16,
                    ;
                }
            }
        }
        remote.push_listed(context, class, block);
        proof {
            lemma_longer_list(&current, remote, slabs@, sizes, context, class as int, block);
            assert(listed.take(index + 1 - first) =~= listed.take(index - first).push(block));
            assert(remote.list(context, class as int) =~= before.list(context, class as int) + listed.take(index + 1 - first));
        }
        index = index + 1;
    }
    proof {
        assert(listed.take(count - first) =~= listed);
    }
}

/// Fills a class of a thread heap with the blocks of a committed slice.
pub fn refill_remote(
    remote: &mut RemoteHeap,
    slabs: &mut SlabTable,
    domain: &mut DomainState,
    tuning: &Tuning,
    slice: usize,
    context: bool,
    class: usize,
    track_aggregates: bool,
)
    requires
        tuning.wf(),
        class < tuning.sizes@.len(),
        old(slabs).wf(),
        old(domain).wf(),
        old(domain).spans_ok(),
        old(remote).inv(old(slabs)@, tuning.sizes@),
        !old(slabs)@.dom().contains(slice),
        !old(slabs)@.dom().contains((slice + SLAB_SIZE) as usize),
        0 < slice,
        slice as int % (MEDIUM_SLICE_SIZE as int) == 0,
        slice + MEDIUM_SLICE_SIZE <= usize::MAX,
    ensures
        final(slabs).wf(),
        final(domain).wf(),
        final(domain).spans_ok(),
        final(domain).keeps_spans(old(domain)),
        final(domain).no_more_live(old(domain)),
        final(domain).id == old(domain).id,
        final(domain).same_bases(old(domain)),
        final(domain).regions@.len() == old(domain).regions@.len(),
        final(slabs)@ == old(slabs)@.insert(
            slice,
            remote_slab(old(remote), slice, context, class as int, tuning.sizes@[class as int] as int),
        ).insert(
            (slice + SLAB_SIZE) as usize,
            remote_slab(
                old(remote),
                (slice + SLAB_SIZE) as usize,
                context,
                class as int,
                tuning.sizes@[class as int] as int,
            ),
        ),
        final(remote).inv(final(slabs)@, tuning.sizes@),
        final(remote).usage == old(remote).usage.with_slice(),
        final(remote).same_but_list(old(remote), context, class as int),
        final(remote).list(context, class as int) == old(remote).list(context, class as int) + blocks_of(
            slice as int,
            tuning.sizes@[class as int] as int,
        ) + blocks_of(slice + SLAB_SIZE, tuning.sizes@[class as int] as int),
        blocks_of(slice + SLAB_SIZE, tuning.sizes@[class as int] as int).len() > 0,
        halves_recorded(
            old(domain),
            final(domain),
            slice,
            class,
            context,
            old(remote).address,
            block_count(tuning.sizes@[class as int] as int) - first_block(tuning.sizes@[class as int] as int),
            track_aggregates,
        ),
{
    let ghost start = *domain;
    let ghost before = *remote;
    let ghost sizes = tuning.sizes@;
    proof {
        assert(valid_block_size(sizes[class as int] as int));
        lemma_blocks(sizes[class as int] as int);
        crate::allocator::classes::lemma_multiple(slice as int, MEDIUM_SLICE_SIZE as int, SLAB_SIZE as int, 2);
        vstd::arithmetic::div_mod::lemma_mod_add_multiples_vanish(slice as int, SLAB_SIZE as int);
    }
    remote.usage.reserved_bytes = remote.usage.reserved_bytes.wrapping_add(MEDIUM_SLICE_SIZE);
    remote.usage.committed_bytes = remote.usage.committed_bytes.wrapping_add(MEDIUM_SLICE_SIZE);
    remote.usage.slab_count = remote.usage.slab_count.wrapping_add(2);
    remote.usage.slice_count = remote.usage.slice_count.wrapping_add(1);
    let ghost counted = *remote;
    proof {
        lemma_same_lists(&before, &counted, slabs@, sizes);
    }
    initialize_remote_slab(remote, slabs, domain, tuning, slice, context, class, track_aggregates);
    let ghost middle = *remote;
    let ghost halfway = *domain;
    initialize_remote_slab(remote, slabs, domain, tuning, slice + SLAB_SIZE, context, class, track_aggregates);
    proof {
        crate::allocator::lives::lemma_same_allocations(&start, &halfway);
        crate::allocator::lives::lemma_same_allocations(&halfway, domain);
        assert forall|x: bool, c: int|
            #![trigger remote.list(x, c)]
            0 <= c < MAX_SIZE_CLASSES && !(x == context && c == class) implies remote.list(x, c) == before.list(x, c) by {
            assert(middle.list(x, c) == counted.list(x, c));
        }
        assert forall|a: int, s: int|
            #![trigger domain.idle_span(a, s)]
            #![trigger start.idle_span(a, s)]
            start.idle_span(a, s) implies domain.idle_span(a, s) by {
            assert(halfway.idle_span(a, s));
        }
        assert forall|a: int, s: int|
            #![trigger domain.medium_live(a, s)]
            #![trigger start.medium_live(a, s)]
            start.medium_live(a, s) implies domain.medium_live(a, s) && domain.medium_at(a) == start.medium_at(a) by {
            assert(halfway.medium_live(a, s));
        }
    }
}

/// What recording that a slab lies in each half of a slice leaves of a domain.
pub open spec fn halves_recorded(
    before: &DomainState,
    after: &DomainState,
    slice: usize,
    class: usize,
    context: bool,
    owner: usize,
    usable_blocks: int,
    utilization_tracked: bool,
) -> bool {
    exists|middle: DomainState|
        #[trigger] small_recorded(before, &middle, slice, class, context, owner, usable_blocks, utilization_tracked) && small_recorded(
            &middle,
            after,
            (slice + SLAB_SIZE) as usize,
            class,
            context,
            owner,
            usable_blocks,
            utilization_tracked,
        )
}

/// A new slab of a thread heap.
pub open spec fn remote_slab(remote: &RemoteHeap, address: usize, context: bool, class: int, size: int) -> SlabModel {
    new_slab(address as int, marker_of(context, class) as u64, remote.address, size, block_count(size), true)
}

impl RemoteHeap {
    /// Counts an allocation that the owner made of a slab of the thread heap.
    pub fn record_allocation(&mut self, requested_bytes: usize, usable_bytes: usize)
        ensures
            final(self).usage == old(self).usage.with_allocation(requested_bytes, usable_bytes),
            final(self).same_but_list(old(self), true, -1),
            final(self).classes == old(self).classes,
            final(self).context_classes == old(self).context_classes,
    {
        self.usage.live_allocations = self.usage.live_allocations.wrapping_add(1);
        self.usage.requested_bytes = self.usage.requested_bytes.wrapping_add(requested_bytes);
        self.usage.usable_bytes = self.usage.usable_bytes.wrapping_add(usable_bytes);
    }

    /// Counts a block of the thread heap that was freed.
    pub fn record_free(&mut self, requested_bytes: usize, usable_bytes: usize)
        ensures
            final(self).usage == old(self).usage.without_allocation(requested_bytes, usable_bytes),
            final(self).same_but_list(old(self), true, -1),
            final(self).classes == old(self).classes,
            final(self).context_classes == old(self).context_classes,
    {
        self.usage.live_allocations = self.usage.live_allocations.wrapping_sub(1);
        self.usage.requested_bytes = self.usage.requested_bytes.wrapping_sub(requested_bytes);
        self.usage.usable_bytes = self.usage.usable_bytes.wrapping_sub(usable_bytes);
    }
}

} // verus!
