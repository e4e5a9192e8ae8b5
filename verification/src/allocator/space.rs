//! The memory of the process: the domains, the heaps that cut blocks from them, and who holds what.

use vstd::prelude::*;
use vstd::arithmetic::power2::pow2;

use crate::allocator::blocks::idle_in;
use crate::allocator::bump::{BumpState, BUMP_STATE_OFFSET};
use crate::allocator::classes::{segment_of, LOCAL_MEDIUM_CLASSES, MEDIUM_REGION_SIZE, MEDIUM_SLICE_SIZE};
use crate::allocator::direct::Records;
use crate::allocator::domains::{apart, DomainState};
use crate::allocator::frames::{alike, caches, net_padding};
use crate::allocator::heaps::{segment_at, HeapState};
use crate::allocator::holdings::spans_apart;
use crate::allocator::remote::{idle_at, RemoteHeap};
use crate::allocator::slab::{total_padding, RemoteFree, SlabModel, SLAB_SIZE};
use crate::allocator::small::{marked_class, marker_of, marks_context, small, SmallHeap};
use crate::allocator::table::SlabTable;
use crate::tunables::Tuning;

verus! {

/// Who holds a span of slices.
pub ghost enum User {
    /// A heap cuts slabs from it.
    Segment { heap: usize },
    /// A heap keeps it for the next medium block of that many slices.
    Cache { heap: usize, slot: int },
    /// A thread heap's slabs lie in it.
    Slice { remote: usize },
    /// A bump heap's chunk.
    Chunk { bump: usize },
    /// It was taken a moment ago, and its memory is not committed yet.
    Pending,
}

/// A span of slices that is taken and is no medium block.
pub ghost struct Holding {
    pub domain: usize,
    pub slices: int,
    pub user: User,
}

/// The memory of the process.
pub struct Space {
    pub tuning: Tuning,
    /// The domains, each at the place before its number.
    pub domains: Vec<DomainState>,
    pub slabs: SlabTable,
    pub heaps: Vec<HeapState>,
    pub remotes: Vec<RemoteHeap>,
    pub bumps: Vec<BumpState>,
    pub records: Records,
    /// The spans that are held, by their address.
    pub holdings: Ghost<Map<usize, Holding>>,
    /// The blocks in use of each slab, with their padding.
    pub out: Ghost<Map<usize, Seq<RemoteFree>>>,
    /// The mappings outside the regions, with their length.
    pub mapped: Ghost<Map<usize, int>>,
}

/// Whether the domain's number is that of a domain.
pub open spec fn is_domain(domains: Seq<DomainState>, id: usize) -> bool {
    1 <= id <= domains.len()
}

/// Whether every domain is in order and no two regions meet.
pub open spec fn domains_ok(domains: Seq<DomainState>) -> bool {
    &&& forall|at: int|
        0 <= at < domains.len() ==> (#[trigger] domains[at]).wf() && domains[at].spans_ok() && domains[at].id == at + 1
    &&& forall|left: int, right: int, i: int, j: int|
        #![trigger domains[left].regions@[i], domains[right].regions@[j]]
        0 <= left < right < domains.len() && 0 <= i < domains[left].regions@.len() && 0 <= j < domains[right].regions@.len()
            ==> apart(domains[left].regions@[i].base as int, domains[right].regions@[j].base as int)
}

/// Whether the span is one of its domain's, and no medium block.
pub open spec fn held_ok(domains: Seq<DomainState>, address: usize, holding: Holding) -> bool {
    &&& is_domain(domains, holding.domain)
    &&& 0 < holding.slices
    &&& domains[holding.domain - 1].idle_span(address as int, holding.slices)
}

/// Whether the held spans are in order and apart.
pub open spec fn holdings_ok(domains: Seq<DomainState>, holdings: Map<usize, Holding>) -> bool {
    &&& forall|address: usize| #[trigger] holdings.dom().contains(address) ==> held_ok(domains, address, holdings[address])
    &&& forall|left: usize, right: usize|
        #![trigger holdings.dom().contains(left), holdings.dom().contains(right)]
        holdings.dom().contains(left) && holdings.dom().contains(right) && left != right ==> spans_apart(
            left as int,
            holdings[left].slices,
            right as int,
            holdings[right].slices,
        )
}

/// Whether the slab is of one of the classes.
pub open spec fn classed(slab: SlabModel, sizes: Seq<usize>) -> bool {
    let class = marked_class(slab.marker);
    &&& 0 <= class < sizes.len()
    &&& slab.block_size == sizes[class]
    &&& slab.marker == marker_of(marks_context(slab.marker), class)
}

/// Whether a heap cuts slabs from the span.
pub open spec fn cuts_slabs(user: User) -> bool {
    user is Segment || user is Slice
}

/// Whether the slab lies in a span that slabs are cut from.
pub open spec fn slab_in(holdings: Map<usize, Holding>, base: usize, slab: usize) -> bool {
    &&& holdings.dom().contains(base)
    &&& cuts_slabs(holdings[base].user)
    &&& base <= slab
    &&& slab + SLAB_SIZE <= base + holdings[base].slices * MEDIUM_SLICE_SIZE
}

/// Whether the slab lies in a span that slabs are cut from, or in a mapping of its own.
pub open spec fn slab_placed(holdings: Map<usize, Holding>, mapped: Map<usize, int>, slab: usize) -> bool {
    (exists|base: usize| #[trigger] slab_in(holdings, base, slab)) || (mapped.dom().contains(slab) && mapped[slab] == SLAB_SIZE)
}

/// Whether every slab is of a class and lies where slabs may.
pub open spec fn slabs_ok(
    slabs: Map<usize, SlabModel>,
    sizes: Seq<usize>,
    holdings: Map<usize, Holding>,
    mapped: Map<usize, int>,
) -> bool {
    forall|slab: usize| #[trigger] slabs.dom().contains(slab) ==> classed(slabs[slab], sizes) && slabs[slab].address == slab
        && slab_placed(holdings, mapped, slab)
}

/// Whether two stretches of memory do not meet.
pub open spec fn stretches_apart(left: int, left_bytes: int, right: int, right_bytes: int) -> bool {
    left + left_bytes <= right || right + right_bytes <= left
}

/// Whether the mappings meet neither each other nor a region.
pub open spec fn mapped_ok(domains: Seq<DomainState>, mapped: Map<usize, int>) -> bool {
    &&& forall|address: usize| #[trigger] mapped.dom().contains(address) ==> mapped[address] > 0
    &&& forall|address: usize, at: int, index: int|
        #![trigger mapped.dom().contains(address), domains[at].regions@[index]]
        mapped.dom().contains(address) && 0 <= at < domains.len() && 0 <= index < domains[at].regions@.len() ==> stretches_apart(
            address as int,
            mapped[address],
            domains[at].regions@[index].base as int,
            MEDIUM_REGION_SIZE as int,
        )
    &&& forall|left: usize, right: usize|
        #![trigger mapped.dom().contains(left), mapped.dom().contains(right)]
        mapped.dom().contains(left) && mapped.dom().contains(right) && left != right ==> stretches_apart(
            left as int,
            mapped[left],
            right as int,
            mapped[right],
        )
}

/// Whether the medium spans that the heap keeps are held for it.
pub open spec fn cache_held(heap: HeapState, holdings: Map<usize, Holding>) -> bool {
    forall|slot: int|
        #![trigger heap.medium_cache@[slot]]
        0 <= slot < LOCAL_MEDIUM_CLASSES && heap.medium_cache@[slot] != 0 ==> {
            let address = heap.medium_cache@[slot];
            &&& holdings.dom().contains(address)
            &&& holdings[address] == (Holding {
                domain: heap.domain,
                slices: pow2(slot as nat) as int,
                user: User::Cache { heap: heap.address, slot },
            })
        }
}

/// Whether what the heap cuts its next slabs from is held for it, and no slab lies there yet.
pub open spec fn locality_held(heap: HeapState, holdings: Map<usize, Holding>, slabs: Map<usize, SlabModel>) -> bool {
    heap.locality_next < heap.locality_end ==> {
        let base = heap.locality_segment;
        &&& holdings.dom().contains(base)
        &&& holdings[base].user == (User::Segment { heap: heap.address })
        &&& base < heap.locality_next
        &&& heap.locality_end == base + holdings[base].slices * MEDIUM_SLICE_SIZE
        &&& heap.segments@[segment_at(heap.segments@, base)].committed_bytes <= holdings[base].slices * MEDIUM_SLICE_SIZE + (
        heap.locality_next - base)
        &&& forall|slab: usize|
            heap.locality_next <= slab < heap.locality_end ==> !#[trigger] slabs.dom().contains(slab)
    }
}

/// Whether the bump heap is in use and in order, or waits in a pool. Its state lies in its first chunk.
pub open spec fn bump_ok(bump: BumpState) -> bool {
    &&& bump.wf() || bump.pooled()
    &&& bump.address == bump.chunks@[0] + BUMP_STATE_OFFSET
}

impl Space {
    pub open spec fn sizes(&self) -> Seq<usize> {
        self.tuning.sizes@
    }

    /// The small blocks as one heap sees them.
    pub open spec fn view_of(&self, heap: int) -> SmallHeap {
        small(&self.heaps@[heap].small, &self.slabs)
    }

    /// Whether one heap is in order.
    pub open spec fn heap_ok(&self, heap: int) -> bool {
        &&& self.heaps@[heap].wf()
        &&& is_domain(self.domains@, self.heaps@[heap].domain)
        &&& self.view_of(heap).inv(self.sizes())
        &&& cache_held(self.heaps@[heap], self.holdings@)
        &&& locality_held(self.heaps@[heap], self.holdings@, self.slabs@)
    }

    /// Whether every heap is in order, under an address of its own.
    pub open spec fn heaps_ok(&self) -> bool {
        &&& forall|heap: int| 0 <= heap < self.heaps@.len() ==> #[trigger] self.heap_ok(heap)
        &&& forall|left: int, right: int|
            #![trigger self.heaps@[left], self.heaps@[right]]
            0 <= left < right < self.heaps@.len() ==> self.heaps@[left].address != self.heaps@[right].address
    }

    /// Whether every thread heap is in order, under an address of its own.
    pub open spec fn remotes_ok(&self) -> bool {
        &&& forall|remote: int|
            0 <= remote < self.remotes@.len() ==> (#[trigger] self.remotes@[remote]).inv(self.slabs@, self.sizes())
                && is_domain(self.domains@, self.remotes@[remote].domain)
        &&& forall|left: int, right: int|
            #![trigger self.remotes@[left], self.remotes@[right]]
            0 <= left < right < self.remotes@.len() ==> self.remotes@[left].address != self.remotes@[right].address
    }

    /// Whether a heap's caches hold the block.
    pub open spec fn cached_by(&self, heap: int, block: usize) -> bool {
        caches(self.view_of(heap), self.sizes().len() as int, block)
    }

    /// Whether a thread heap's lists hold the block.
    pub open spec fn listed_by(&self, remote: int, block: usize) -> bool {
        self.remotes@[remote].lists_block(self.sizes(), block)
    }

    /// Whether no block waits in two places.
    pub open spec fn waiting_apart(&self) -> bool {
        &&& forall|left: int, right: int, block: usize|
            #![trigger self.cached_by(left, block), self.cached_by(right, block)]
            0 <= left < self.heaps@.len() && 0 <= right < self.heaps@.len() && left != right ==> !(self.cached_by(left, block)
                && self.cached_by(right, block))
        &&& forall|heap: int, remote: int, block: usize|
            #![trigger self.cached_by(heap, block), self.listed_by(remote, block)]
            0 <= heap < self.heaps@.len() && 0 <= remote < self.remotes@.len() ==> !(self.cached_by(heap, block) && self.listed_by(
                remote,
                block,
            ))
        &&& forall|left: int, right: int, block: usize|
            #![trigger self.listed_by(left, block), self.listed_by(right, block)]
            0 <= left < self.remotes@.len() && 0 <= right < self.remotes@.len() && left != right ==> !(self.listed_by(left, block)
                && self.listed_by(right, block))
    }

    /// Whether the block is out of every slab's, cache's and list's reach.
    pub open spec fn loose(&self, block: usize) -> bool {
        let slab = segment_of(block as int) as usize;
        &&& self.slabs@.dom().contains(slab)
        &&& idle_in(self.slabs@[slab], block as int)
        &&& forall|heap: int| 0 <= heap < self.heaps@.len() ==> !#[trigger] self.cached_by(heap, block)
        &&& forall|remote: int| 0 <= remote < self.remotes@.len() ==> !#[trigger] self.listed_by(remote, block)
    }

    /// Whether the block is in use.
    pub open spec fn in_use(&self, block: usize) -> bool {
        let slab = segment_of(block as int) as usize;
        self.out@.dom().contains(slab) && exists|at: int|
            0 <= at < self.out@[slab].len() && (#[trigger] self.out@[slab][at]).block == block
    }

    /// Whether the entry at that place is a block of the slab that is in use.
    pub open spec fn entry_ok(&self, slab: usize, at: int) -> bool {
        let entry = self.out@[slab][at];
        &&& segment_of(entry.block as int) == slab
        &&& self.loose(entry.block)
        &&& entry.padding <= self.slabs@[slab].block_size
    }

    /// Whether the entries of one slab are its blocks in use, and their padding is the slab's.
    pub open spec fn entries_ok(&self, slab: usize) -> bool {
        &&& forall|at: int| 0 <= at < self.out@[slab].len() ==> #[trigger] self.entry_ok(slab, at)
        &&& forall|left: int, right: int|
            #![trigger self.out@[slab][left], self.out@[slab][right]]
            0 <= left < right < self.out@[slab].len() ==> self.out@[slab][left].block != self.out@[slab][right].block
        &&& !self.slabs@[slab].shared ==> net_padding(self.slabs@[slab]) == total_padding(self.out@[slab])
        &&& forall|at: int|
            0 <= at < self.slabs@[slab].remote.len() ==> (#[trigger] self.slabs@[slab].remote[at]).padding
                <= self.slabs@[slab].block_size
    }

    /// Whether the blocks in use are those that were handed out.
    pub open spec fn out_ok(&self) -> bool {
        &&& self.out@.dom() == self.slabs@.dom()
        &&& forall|slab: usize| #[trigger] self.slabs@.dom().contains(slab) ==> self.entries_ok(slab)
    }

    /// Whether the bump heap's chunks are held for it.
    pub open spec fn chunks_held(&self, bump: int) -> bool {
        forall|at: int|
            0 <= at < self.bumps@[bump].chunks@.len() ==> {
                let chunk = #[trigger] self.bumps@[bump].chunks@[at];
                &&& self.holdings@.dom().contains(chunk)
                &&& self.holdings@[chunk] == (Holding {
                    domain: self.bumps@[bump].domain,
                    slices: 1,
                    user: User::Chunk { bump: self.bumps@[bump].address },
                })
            }
    }

    /// Whether every bump heap is in order, under an address of its own.
    pub open spec fn bumps_ok(&self) -> bool {
        &&& forall|bump: int|
            0 <= bump < self.bumps@.len() ==> bump_ok(#[trigger] self.bumps@[bump]) && self.chunks_held(bump) && is_domain(
                self.domains@,
                self.bumps@[bump].domain,
            )
        &&& forall|left: int, right: int|
            #![trigger self.bumps@[left], self.bumps@[right]]
            0 <= left < right < self.bumps@.len() ==> self.bumps@[left].address != self.bumps@[right].address
    }

    /// Whether the address is a heap's.
    pub open spec fn is_heap(&self, heap: int, address: usize) -> bool {
        0 <= heap < self.heaps@.len() && self.heaps@[heap].address == address
    }

    /// Whether the address is a thread heap's.
    pub open spec fn is_remote(&self, remote: int, address: usize) -> bool {
        0 <= remote < self.remotes@.len() && self.remotes@[remote].address == address
    }

    /// Whether the slab belongs to a thread heap, where it is shared, and to a heap otherwise.
    pub open spec fn slab_owned(&self, slab: usize) -> bool {
        if self.slabs@[slab].shared {
            exists|remote: int| #[trigger] self.is_remote(remote, self.slabs@[slab].owner)
        } else {
            exists|heap: int| #[trigger] self.is_heap(heap, self.slabs@[slab].owner)
        }
    }

    /// Whether every slab has its owner.
    pub open spec fn owners_ok(&self) -> bool {
        forall|slab: usize| #[trigger] self.slabs@.dom().contains(slab) ==> self.slab_owned(slab)
    }

    /// Whether what a thread heap lists lies in slabs of thread heaps.
    pub open spec fn lists_shared(&self) -> bool {
        forall|remote: int, block: usize|
            0 <= remote < self.remotes@.len() && #[trigger] self.listed_by(remote, block) ==> {
                let slab = segment_of(block as int) as usize;
                self.slabs@.dom().contains(slab) && self.slabs@[slab].shared
            }
    }

    /// Whether everything is in order.
    pub open spec fn inv(&self) -> bool {
        &&& self.tuning.wf()
        &&& domains_ok(self.domains@)
        &&& self.slabs.wf()
        &&& holdings_ok(self.domains@, self.holdings@)
        &&& mapped_ok(self.domains@, self.mapped@)
        &&& slabs_ok(self.slabs@, self.sizes(), self.holdings@, self.mapped@)
        &&& self.heaps_ok()
        &&& self.remotes_ok()
        &&& self.waiting_apart()
        &&& self.out_ok()
        &&& self.bumps_ok()
        &&& self.owners_ok()
        &&& self.lists_shared()
    }
}

/// A name is one heap's.
pub proof fn lemma_one_heap(space: Space, heap: int, address: usize)
    requires
        space.inv(),
        space.is_heap(heap, address),
    ensures
        forall|other: int| #[trigger] space.is_heap(other, address) ==> other == heap,
{
    assert forall|other: int| #[trigger] space.is_heap(other, address) implies other == heap by {
        if other < heap {
            assert(space.heaps@[other].address != space.heaps@[heap].address);
        } else if heap < other {
            assert(space.heaps@[heap].address != space.heaps@[other].address);
        }
    }
}

/// Whether nothing but the heap's small blocks and the slabs may differ.
pub open spec fn same_but_small(before: Space, after: Space, heap: int) -> bool {
    &&& after.tuning == before.tuning
    &&& after.domains == before.domains
    &&& after.remotes == before.remotes
    &&& after.bumps == before.bumps
    &&& after.records == before.records
    &&& after.holdings == before.holdings
    &&& after.mapped == before.mapped
    &&& after.heaps@.len() == before.heaps@.len()
    &&& forall|other: int|
        #![trigger after.heaps@[other]]
        0 <= other < before.heaps@.len() && other != heap ==> after.heaps@[other] == before.heaps@[other]
    &&& after.heaps@[heap] == (HeapState { small: after.heaps@[heap].small, ..before.heaps@[heap] })
}

/// Whether the work on a heap's small blocks leaves alone what others have of the slabs. Nothing
/// but `gone`, where that is a block, goes into the heap's caches.
pub open spec fn leaves_alone(before: Space, after: Space, heap: int, gone: usize) -> bool {
    &&& alike(before.slabs@, after.slabs@)
    &&& forall|x: bool, c: int, block: usize|
        0 <= c < before.sizes().len() && block != gone && before.view_of(heap).live(before.sizes(), x, c, block)
            ==> #[trigger] after.view_of(heap).live(before.sizes(), x, c, block)
    &&& forall|x: bool, c: int, block: usize|
        0 <= c < before.sizes().len() && #[trigger] after.view_of(heap).cached(x, c, block) ==> before.view_of(heap).cached(x, c, block)
            || block == gone
}

proof fn lemma_idle_left(before: Space, after: Space, heap: int, gone: usize, block: usize)
    requires
        before.inv(),
        0 <= heap < before.heaps@.len(),
        after.tuning == before.tuning,
        leaves_alone(before, after, heap, gone),
        block != gone,
        before.slabs@.dom().contains(segment_of(block as int) as usize),
        idle_in(before.slabs@[segment_of(block as int) as usize], block as int),
        !before.cached_by(heap, block),
    ensures
        idle_in(after.slabs@[segment_of(block as int) as usize], block as int),
{
    let slab = segment_of(block as int) as usize;
    let model = before.slabs@[slab];
    let x = marks_context(model.marker);
    let c = marked_class(model.marker);
    assert(classed(model, before.sizes()));
    assert(before.view_of(heap).slab_of_class(before.sizes(), x, c, slab));
    assert(before.view_of(heap).idle_block(before.sizes(), x, c, block));
    assert(!before.view_of(heap).cached(x, c, block));
    assert(before.view_of(heap).live(before.sizes(), x, c, block));
    assert(after.view_of(heap).live(before.sizes(), x, c, block));
}

proof fn lemma_other_heap(before: Space, after: Space, heap: int, gone: usize, other: int)
    requires
        before.inv(),
        0 <= heap < before.heaps@.len(),
        0 <= other < before.heaps@.len(),
        other != heap,
        same_but_small(before, after, heap),
        leaves_alone(before, after, heap, gone),
        after.view_of(heap).inv(before.sizes()),
        gone != 0 ==> before.loose(gone),
    ensures
        after.heap_ok(other),
        forall|block: usize| #[trigger] after.cached_by(other, block) == before.cached_by(other, block),
{
    let sizes = before.sizes();
    let left = before.view_of(other);
    let right = after.view_of(other);
    assert(before.heap_ok(other));
    assert(right.classes == left.classes && right.context == left.context && right.inbox == left.inbox);
    assert forall|x: bool, c: int, slab: usize| #[trigger] left.slab_of_class(sizes, x, c, slab) implies right.slab_of_class(
        sizes,
        x,
        c,
        slab,
    ) by {
        assert(before.slabs@.dom().contains(slab));
    }
    assert forall|x: bool, c: int, block: usize| #[trigger] right.cached(x, c, block) == left.cached(x, c, block) by {}
    assert forall|block: usize| #[trigger] after.cached_by(other, block) == before.cached_by(other, block) by {
        if before.cached_by(other, block) {
            let (x, c) = choose|x: bool, c: int| 0 <= c < sizes.len() && #[trigger] left.cached(x, c, block);
            assert(right.cached(x, c, block));
        }
        if after.cached_by(other, block) {
            let (x, c) = choose|x: bool, c: int| 0 <= c < sizes.len() && #[trigger] right.cached(x, c, block);
            assert(left.cached(x, c, block));
        }
    }
    assert forall|x: bool, c: int, block: usize|
        0 <= c < sizes.len() && left.cached(x, c, block) && #[trigger] left.idle_block(sizes, x, c, block) implies right.idle_block(
        sizes,
        x,
        c,
        block,
    ) by {
        assert(before.cached_by(other, block));
        assert(!before.cached_by(heap, block));
        if gone != 0 && block == gone {
            assert(before.loose(gone));
            assert(false);
        }
        lemma_idle_left(before, after, heap, gone, block);
        assert(left.slab_of_class(sizes, x, c, segment_of(block as int) as usize));
    }
    assert forall|x: bool, c: int| 0 <= c < sizes.len() implies #[trigger] right.hot_ok(sizes, x, c) by {
        assert(left.hot_ok(sizes, x, c));
        let hot = left.hot(x, c);
        assert(right.hot(x, c) == hot);
        if hot.cached_first != 0 {
            assert(left.cached(x, c, hot.cached_first));
            assert(left.idle_block(sizes, x, c, hot.cached_first));
        }
        if hot.cached_second != 0 {
            assert(left.cached(x, c, hot.cached_second));
            assert(left.idle_block(sizes, x, c, hot.cached_second));
        }
        if hot.active != 0 {
            assert(left.slab_of_class(sizes, x, c, hot.active));
        }
    }
    assert forall|x: bool, c: int| 0 <= c < sizes.len() implies #[trigger] right.partial_ok(sizes, x, c) by {
        assert(left.partial_ok(sizes, x, c));
        let partial = left.partial(x, c);
        assert(right.partial(x, c) == partial);
        assert forall|position: int| 0 <= position < partial.len() implies right.slab_of_class(sizes, x, c, #[trigger] partial[position]) by {
            assert(left.slab_of_class(sizes, x, c, partial[position]));
        }
    }
    assert forall|position: int| 0 <= position < right.inbox.len() implies right.slab_of_some_class(
        sizes,
        #[trigger] right.inbox[position],
    ) by {
        let address = left.inbox[position];
        assert(left.slab_of_some_class(sizes, address));
        let (x, c) = choose|x: bool, c: int| 0 <= c < sizes.len() && #[trigger] left.slab_of_class(sizes, x, c, address);
        assert(right.slab_of_class(sizes, x, c, address));
    }
    assert(right.slabs == after.view_of(heap).slabs);
    assert forall|address: usize| #[trigger] right.slabs.dom().contains(address) implies right.slabs[address].well_formed() by {
        assert(after.view_of(heap).slabs.dom().contains(address));
    }
    assert(right.inbox_ok(sizes));
    assert(right.inv(sizes));
    assert(locality_held(after.heaps@[other], after.holdings@, after.slabs@));
}

/// The work on one heap's small blocks keeps everything else in order.
pub proof fn lemma_small_step(before: Space, after: Space, heap: int, gone: usize)
    requires
        before.inv(),
        0 <= heap < before.heaps@.len(),
        same_but_small(before, after, heap),
        leaves_alone(before, after, heap, gone),
        after.slabs.wf(),
        after.view_of(heap).inv(before.sizes()),
        gone != 0 ==> before.loose(gone),
    ensures
        after.heaps_ok(),
        after.remotes_ok(),
        after.waiting_apart(),
        slabs_ok(after.slabs@, after.sizes(), after.holdings@, after.mapped@),
        after.bumps_ok(),
        after.owners_ok(),
        after.lists_shared(),
        forall|block: usize| block != gone && #[trigger] before.loose(block) ==> after.loose(block),
        forall|block: usize| #[trigger] after.cached_by(heap, block) ==> before.cached_by(heap, block) || block == gone,
        forall|other: int, block: usize|
            0 <= other < before.heaps@.len() && other != heap ==> #[trigger] after.cached_by(other, block) == before.cached_by(other, block),
        forall|remote: int, block: usize|
            0 <= remote < before.remotes@.len() ==> #[trigger] after.listed_by(remote, block) == before.listed_by(remote, block),
{
    let sizes = before.sizes();
    assert forall|other: int| 0 <= other < after.heaps@.len() implies #[trigger] after.heap_ok(other) by {
        assert(before.heap_ok(other));
        if other != heap {
            lemma_other_heap(before, after, heap, gone, other);
        } else {
            assert(after.heaps@[heap].address == before.heaps@[heap].address);
            assert(locality_held(after.heaps@[heap], after.holdings@, after.slabs@));
            assert(cache_held(after.heaps@[heap], after.holdings@));
        }
    }
    assert forall|other: int, block: usize|
        0 <= other < before.heaps@.len() && other != heap implies #[trigger] after.cached_by(other, block) == before.cached_by(
        other,
        block,
    ) by {
        lemma_other_heap(before, after, heap, gone, other);
    }
    assert forall|block: usize| #[trigger] after.cached_by(heap, block) implies before.cached_by(heap, block) || block == gone by {
        let (x, c) = choose|x: bool, c: int| 0 <= c < sizes.len() && #[trigger] after.view_of(heap).cached(x, c, block);
        if block != gone {
            assert(before.view_of(heap).cached(x, c, block));
        }
    }
    assert forall|remote: int| 0 <= remote < after.remotes@.len() implies (#[trigger] after.remotes@[remote]).inv(after.slabs@, sizes) by {
        let own = before.remotes@[remote];
        assert(own.inv(before.slabs@, sizes));
        assert forall|x: bool, c: int, block: usize|
            0 <= c < sizes.len() && own.list(x, c).contains(block) && idle_at(before.slabs@, sizes, x, c, block) implies #[trigger] idle_at(
            after.slabs@,
            sizes,
            x,
            c,
            block,
        ) by {
            assert(before.listed_by(remote, block));
            assert(!before.cached_by(heap, block));
            if gone != 0 && block == gone {
                assert(before.loose(gone));
                assert(false);
            }
            if block == gone {
                assert(idle_in(before.slabs@[segment_of(block as int) as usize], block as int));
                assert(before.slabs@[segment_of(block as int) as usize].well_formed());
                assert(false);
            }
            lemma_idle_left(before, after, heap, gone, block);
            assert(before.slabs@.dom().contains(segment_of(block as int) as usize));
        }
        crate::allocator::remote::lemma_remote_kept(&own, sizes, before.slabs@, after.slabs@);
    }
    assert forall|remote: int, block: usize| 0 <= remote < after.remotes@.len() && #[trigger] after.listed_by(remote, block) implies {
        let slab = segment_of(block as int) as usize;
        after.slabs@.dom().contains(slab) && after.slabs@[slab].shared
    } by {
        assert(before.listed_by(remote, block));
        assert(before.slabs@.dom().contains(segment_of(block as int) as usize));
    }
    assert(slabs_ok(after.slabs@, after.sizes(), after.holdings@, after.mapped@)) by {
        assert forall|slab: usize| #[trigger] after.slabs@.dom().contains(slab) implies classed(after.slabs@[slab], sizes)
            && after.slabs@[slab].address == slab && slab_placed(after.holdings@, after.mapped@, slab) by {
            assert(before.slabs@.dom().contains(slab));
        }
    }
    assert forall|slab: usize| #[trigger] after.slabs@.dom().contains(slab) implies after.slab_owned(slab) by {
        assert(before.slabs@.dom().contains(slab));
        assert(before.slab_owned(slab));
        let owner = before.slabs@[slab].owner;
        if before.slabs@[slab].shared {
            let remote = choose|remote: int| #[trigger] before.is_remote(remote, owner);
            assert(after.is_remote(remote, owner));
        } else {
            let at = choose|at: int| #[trigger] before.is_heap(at, owner);
            assert(after.is_heap(at, owner));
        }
    }
    assert forall|bump: int| 0 <= bump < after.bumps@.len() implies after.chunks_held(bump) by {
        assert(bump_ok(before.bumps@[bump]));
        assert(before.chunks_held(bump));
    }
    assert forall|block: usize| block != gone && #[trigger] before.loose(block) implies after.loose(block) by {
        assert(!before.cached_by(heap, block));
        lemma_idle_left(before, after, heap, gone, block);
        assert forall|other: int| 0 <= other < after.heaps@.len() implies !#[trigger] after.cached_by(other, block) by {
            assert(!before.cached_by(other, block));
        }
        assert forall|remote: int| 0 <= remote < after.remotes@.len() implies !#[trigger] after.listed_by(remote, block) by {
            assert(!before.listed_by(remote, block));
        }
    }
    assert(after.waiting_apart()) by {
        assert forall|left: int, right: int, block: usize|
            #![trigger after.cached_by(left, block), after.cached_by(right, block)]
            0 <= left < after.heaps@.len() && 0 <= right < after.heaps@.len() && left != right implies !(after.cached_by(left, block)
            && after.cached_by(right, block)) by {
            if after.cached_by(left, block) && after.cached_by(right, block) {
                lemma_cached_is_block(after, left, block);
                assert(before.cached_by(left, block) || (left == heap && block == gone));
                assert(before.cached_by(right, block) || (right == heap && block == gone));
                if gone != 0 {
                    assert(before.loose(gone));
                }
            }
        }
        assert forall|other: int, remote: int, block: usize|
            #![trigger after.cached_by(other, block), after.listed_by(remote, block)]
            0 <= other < after.heaps@.len() && 0 <= remote < after.remotes@.len() implies !(after.cached_by(other, block)
            && after.listed_by(remote, block)) by {
            if after.cached_by(other, block) && after.listed_by(remote, block) {
                lemma_cached_is_block(after, other, block);
                assert(before.listed_by(remote, block));
                assert(before.cached_by(other, block) || (other == heap && block == gone));
                if gone != 0 {
                    assert(before.loose(gone));
                }
            }
        }
        assert forall|left: int, right: int, block: usize|
            #![trigger after.listed_by(left, block), after.listed_by(right, block)]
            0 <= left < after.remotes@.len() && 0 <= right < after.remotes@.len() && left != right implies !(after.listed_by(left, block)
            && after.listed_by(right, block)) by {
            if after.listed_by(left, block) && after.listed_by(right, block) {
                assert(before.listed_by(left, block) && before.listed_by(right, block));
            }
        }
    }
}

/// Whether nothing but one thread heap may differ, and that not in what it lists.
pub open spec fn same_but_remote_usage(before: Space, after: Space, remote: int) -> bool {
    &&& after.tuning == before.tuning
    &&& after.domains == before.domains
    &&& after.slabs == before.slabs
    &&& after.heaps == before.heaps
    &&& after.bumps == before.bumps
    &&& after.records == before.records
    &&& after.holdings == before.holdings
    &&& after.mapped == before.mapped
    &&& after.remotes@.len() == before.remotes@.len()
    &&& forall|other: int|
        #![trigger after.remotes@[other]]
        0 <= other < before.remotes@.len() && other != remote ==> after.remotes@[other] == before.remotes@[other]
    &&& after.remotes@[remote].address == before.remotes@[remote].address
    &&& after.remotes@[remote].domain == before.remotes@[remote].domain
    &&& after.remotes@[remote].classes == before.remotes@[remote].classes
    &&& after.remotes@[remote].context_classes == before.remotes@[remote].context_classes
}

/// A change to a thread heap that leaves its lists as they are keeps everything in order.
pub proof fn lemma_remote_usage(before: Space, after: Space, remote: int)
    requires
        before.inv(),
        0 <= remote < before.remotes@.len(),
        same_but_remote_usage(before, after, remote),
    ensures
        after.out == before.out ==> after.inv(),
        after.heaps_ok(),
        after.remotes_ok(),
        after.waiting_apart(),
        after.bumps_ok(),
        after.owners_ok(),
        after.lists_shared(),
        forall|block: usize| #[trigger] before.loose(block) == after.loose(block),
        forall|heap: int, block: usize| #[trigger] after.cached_by(heap, block) == before.cached_by(heap, block),
        forall|other: int, block: usize|
            0 <= other < before.remotes@.len() ==> #[trigger] after.listed_by(other, block) == before.listed_by(other, block),
{
    let sizes = before.sizes();
    assert forall|heap: int, block: usize| #[trigger] after.cached_by(heap, block) == before.cached_by(heap, block) by {
        assert(after.view_of(heap) == before.view_of(heap));
    }
    assert forall|other: int, block: usize| 0 <= other < before.remotes@.len() implies #[trigger] after.listed_by(other, block)
        == before.listed_by(other, block) by {
        let left = before.remotes@[other];
        let right = after.remotes@[other];
        assert forall|x: bool, c: int| #[trigger] right.list(x, c) == left.list(x, c) by {}
        if before.listed_by(other, block) {
            let (x, c) = choose|x: bool, c: int| 0 <= c < sizes.len() && #[trigger] left.list(x, c).contains(block);
            assert(right.list(x, c).contains(block));
        }
        if after.listed_by(other, block) {
            let (x, c) = choose|x: bool, c: int| 0 <= c < sizes.len() && #[trigger] right.list(x, c).contains(block);
            assert(left.list(x, c).contains(block));
        }
    }
    assert forall|heap: int| 0 <= heap < after.heaps@.len() implies #[trigger] after.heap_ok(heap) by {
        assert(before.heap_ok(heap));
        assert(after.view_of(heap) == before.view_of(heap));
    }
    assert forall|other: int| 0 <= other < after.remotes@.len() implies (#[trigger] after.remotes@[other]).inv(after.slabs@, sizes) by {
        assert(before.remotes@[other].inv(before.slabs@, sizes));
        crate::allocator::remote::lemma_same_lists(&before.remotes@[other], &after.remotes@[other], before.slabs@, sizes);
    }
    assert forall|block: usize| #[trigger] before.loose(block) == after.loose(block) by {
        if before.loose(block) {
            assert forall|heap: int| 0 <= heap < after.heaps@.len() implies !#[trigger] after.cached_by(heap, block) by {
                assert(!before.cached_by(heap, block));
            }
            assert forall|other: int| 0 <= other < after.remotes@.len() implies !#[trigger] after.listed_by(other, block) by {
                assert(!before.listed_by(other, block));
            }
        }
        if after.loose(block) {
            assert forall|heap: int| 0 <= heap < before.heaps@.len() implies !#[trigger] before.cached_by(heap, block) by {
                assert(!after.cached_by(heap, block));
            }
            assert forall|other: int| 0 <= other < before.remotes@.len() implies !#[trigger] before.listed_by(other, block) by {
                assert(!after.listed_by(other, block));
            }
        }
    }
    assert forall|bump: int| 0 <= bump < after.bumps@.len() implies after.chunks_held(bump) by {
        assert(bump_ok(before.bumps@[bump]));
        assert(before.chunks_held(bump));
    }
    assert forall|slab: usize| #[trigger] after.slabs@.dom().contains(slab) implies after.slab_owned(slab) by {
        assert(before.slab_owned(slab));
        let owner = before.slabs@[slab].owner;
        if before.slabs@[slab].shared {
            let at = choose|at: int| #[trigger] before.is_remote(at, owner);
            assert(after.is_remote(at, owner));
        } else {
            let at = choose|at: int| #[trigger] before.is_heap(at, owner);
            assert(after.is_heap(at, owner));
        }
    }
    if after.out == before.out {
        assert forall|slab: usize| #[trigger] after.slabs@.dom().contains(slab) implies after.entries_ok(slab) by {
            assert(before.entries_ok(slab));
            assert forall|at: int| 0 <= at < after.out@[slab].len() implies #[trigger] after.entry_ok(slab, at) by {
                assert(before.entry_ok(slab, at));
            }
        }
    }
}

proof fn lemma_cached_is_block(space: Space, heap: int, block: usize)
    requires
        space.cached_by(heap, block),
    ensures
        block != 0,
{
    let (x, c) = choose|x: bool, c: int| 0 <= c < space.sizes().len() && #[trigger] space.view_of(heap).cached(x, c, block);
}

} // verus!
