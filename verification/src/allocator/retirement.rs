//! Heaps that are let go of: their memory goes back slice by slice, as soon as no block of a slice is in
//! use any more.

use vstd::prelude::*;

use crate::allocator::blocks::lemma_at_address;
use crate::allocator::classes::{segment_of, MEDIUM_REGION_SIZE, MEDIUM_REGION_SLICE_COUNT, MEDIUM_SLICE_SIZE};
use crate::allocator::domains::{lemma_region_at, DomainState};
use crate::allocator::heaps::{holds_segment, segment_at, HeapState, Segment};
use crate::allocator::holdings::spans_apart;
use crate::allocator::lives::{bumps_less, lemma_only_now, lemma_still, mediums_less, smalls_less, uses_only};
use crate::allocator::mediums::mediums_kept;
use crate::allocator::pieces::{
    lemma_cut_committed, lemma_cut_pieces, lemma_heap_pieces_apart, lemma_none_released, lemma_released_on,
    pieces_apart, pieces_released, release_of,
};
use crate::allocator::references::lemma_refers_view;
use crate::allocator::refills::{lemma_held_bounds, lemma_held_step, same_but_heap};
use crate::allocator::retire::{piece_live, piece_ok, prepare_retired_slice, prepared, Piece, Prepared, StorageRelease};
use crate::allocator::segments::lemma_some_class;
use crate::allocator::serving::step_kept;
use crate::allocator::slab::{lemma_blocks, SLAB_SIZE};
use crate::allocator::small::{marked_class, marks_context, small, SmallHeap};
use crate::allocator::space::{
    bump_ok, cache_held, held_ok, holdings_ok, is_domain, locality_held, slab_in, slab_placed, Holding, Space,
    User,
};
use crate::allocator::thread_heaps::slice_pending;
use crate::allocator::usage::{live_blocks, slab_sums};
use crate::allocator::uses::{
    bumps_kept, direct_ok, directs_ok, is_direct, lemma_directs_go_on, lemma_records_go_on, lemma_uses_go_on,
    smalls_kept, uses_kept, Block,
};
use crate::allocator::vacancies::{
    lemma_block_in_slab, lemma_forgets_keeps, lemma_lists_kept_on, lemma_names_slabs, lemma_slab_gone,
    lemma_vacant, lists_kept,
};

verus! {

/// Where the segment of that base stands, where no other has that base.
proof fn lemma_segment_is(segments: Seq<Segment>, base: usize, index: int)
    requires
        0 <= index < segments.len(),
        segments[index].base == base,
        forall|other: int| 0 <= other < segments.len() && (#[trigger] segments[other]).base == base ==> other == index,
    ensures
        segment_at(segments, base) == index,
    decreases segments.len(),
{
    if index < segments.len() - 1 {
        assert(segments[segments.len() - 1].base != base);
        let rest = segments.drop_last();
        assert forall|other: int| 0 <= other < rest.len() && (#[trigger] rest[other]).base == base implies other == index by {
            assert(segments[other].base == base);
        }
        lemma_segment_is(rest, base, index);
    }
}

/// A span that is held and no medium block is one in two parts, too.
proof fn lemma_idle_parts(domain: DomainState, base: int, slices: int)
    requires
        domain.wf(),
        domain.idle_span(base, slices),
        slices >= 2,
    ensures
        domain.idle_span(base, slices - 1),
        domain.idle_span(base + (slices - 1) * MEDIUM_SLICE_SIZE, 1),
{
    let index = domain.region_at(base)->0;
    let region = domain.regions@[index];
    let slice = region.slice_of(base);
    let last = base + (slices - 1) * MEDIUM_SLICE_SIZE;
    assert(region.wf());
    assert(region.holds(base) && 0 <= index < domain.regions@.len());
    assert(0 <= slice && base == region.base + slice * MEDIUM_SLICE_SIZE) by (nonlinear_arith)
        requires
            region.base <= base,
            (base - region.base) % (MEDIUM_SLICE_SIZE as int) == 0,
            slice == (base - region.base) / (MEDIUM_SLICE_SIZE as int),
            MEDIUM_SLICE_SIZE == 65536,
    ;
    assert(last - region.base == (slice + slices - 1) * MEDIUM_SLICE_SIZE && last < region.base + MEDIUM_REGION_SIZE) by (nonlinear_arith)
        requires
            base == region.base + slice * MEDIUM_SLICE_SIZE,
            last == base + (slices - 1) * MEDIUM_SLICE_SIZE,
            slice + slices <= MEDIUM_REGION_SLICE_COUNT,
            MEDIUM_SLICE_SIZE == 65536,
            MEDIUM_REGION_SLICE_COUNT == 16384,
            MEDIUM_REGION_SIZE == 1073741824,
    ;
    assert((last - region.base) % (MEDIUM_SLICE_SIZE as int) == 0 && (last - region.base) / (MEDIUM_SLICE_SIZE as int) == slice + slices - 1)
        by (nonlinear_arith)
        requires
            last - region.base == (slice + slices - 1) * MEDIUM_SLICE_SIZE,
            MEDIUM_SLICE_SIZE == 65536,
    ;
    assert(last >= base) by (nonlinear_arith)
        requires
            last == base + (slices - 1) * MEDIUM_SLICE_SIZE,
            slices >= 2,
            MEDIUM_SLICE_SIZE == 65536,
    ;
    assert(region.holds(last));
    lemma_region_at(&domain, last, index);
    assert(region.slice_of(last) == slice + slices - 1);
    assert(region.clear_of(slice, slices));
}

/// The last slice of the heap's segment.
pub open spec fn last_slice(own: HeapState, index: int) -> int {
    own.segments@[index].base + (own.segments@[index].slices - 1) * MEDIUM_SLICE_SIZE
}

/// Whether a slab was cut from the last slice of the heap's segment.
pub open spec fn last_used(own: HeapState, index: int) -> bool {
    own.segments@[index].base != own.locality_segment || own.locality_next > last_slice(own, index)
}

/// The bytes, or the limit where they are more.
pub open spec fn within(bytes: int, limit: int) -> int {
    if bytes < limit {
        bytes
    } else {
        limit
    }
}

/// Whether the one differs from the other in that the last slice of a segment was cut off: as a
/// segment of its own where a slab lies in it.
pub open spec fn cut_off(before: HeapState, after: HeapState, index: int) -> bool {
    let last = last_slice(before, index);
    let own = before.segments@[index];
    let local = own.base == before.locality_segment;
    &&& after.same_but_locality(&before)
    &&& after.track_aggregates == before.track_aggregates
    &&& after.locality_next == before.locality_next
    &&& after.locality_end == (if local && !last_used(before, index) {
        last as usize
    } else {
        before.locality_end
    })
    &&& after.locality_segment == (if local && last_used(before, index) {
        last as usize
    } else if !local && before.locality_segment == last {
        0
    } else {
        before.locality_segment
    })
    &&& after.segments@.len() == before.segments@.len() + (if last_used(before, index) {
        1int
    } else {
        0
    })
    &&& forall|at: int|
        0 <= at < before.segments@.len() && at != index ==> (#[trigger] after.segments@[at]) == before.segments@[at]
    &&& after.segments@[index].base == own.base
    &&& after.segments@[index].slices == own.slices - 1
    &&& after.segments@[index].committed_bytes == within(own.committed_bytes as int, (own.slices - 1) * MEDIUM_SLICE_SIZE)
    &&& last_used(before, index) ==> {
        let cut = after.segments@[before.segments@.len() as int];
        cut.base == last && cut.slices == 1 && cut.committed_bytes == within(
            own.committed_bytes - after.segments@[index].committed_bytes,
            MEDIUM_SLICE_SIZE as int,
        )
    }
}

/// What is given back of a segment whose last slice no slab lies in.
pub open spec fn unused_slice(own: HeapState, index: int) -> StorageRelease {
    release_of(own.segment_pieces(index)[own.segments@[index].slices - 1], own.track_aggregates)
}

/// Whether every span is held as it was, but for the segments.
pub open spec fn others_held(before: Map<usize, Holding>, after: Map<usize, Holding>) -> bool {
    forall|address: usize|
        #[trigger] before.dom().contains(address) && !(before[address].user is Segment) ==> after.dom().contains(address)
            && after[address] == before[address]
}

/// The held spans, with the last slice of the segment apart.
pub open spec fn split(holdings: Map<usize, Holding>, base: usize, last: usize, used: bool) -> Map<usize, Holding> {
    let whole = holdings[base];
    holdings.insert(base, Holding { slices: whole.slices - 1, ..whole }).insert(
        last,
        Holding {
            slices: 1,
            user: if used {
                whole.user
            } else {
                User::Pending
            },
            ..whole
        },
    )
}

/// The held spans stay in order where one is held in two parts.
proof fn lemma_split(space: Space, base: usize, last: usize, used: bool)
    requires
        space.inv(),
        space.holdings@.dom().contains(base),
        space.holdings@[base].slices >= 2,
        last == base + (space.holdings@[base].slices - 1) * MEDIUM_SLICE_SIZE,
    ensures
        holdings_ok(space.domains@, split(space.holdings@, base, last, used)),
        !space.holdings@.dom().contains(last),
        base < last,
        last as int % (MEDIUM_SLICE_SIZE as int) == 0,
        last + MEDIUM_SLICE_SIZE <= usize::MAX,
{
    let holdings = space.holdings@;
    let whole = holdings[base];
    let n = whole.slices;
    lemma_held_bounds(space, base);
    assert(held_ok(space.domains@, base, whole));
    lemma_idle_parts(space.domains@[whole.domain - 1], base as int, n);
    assert(n * MEDIUM_SLICE_SIZE == (n - 1) * MEDIUM_SLICE_SIZE + MEDIUM_SLICE_SIZE && (n - 1) * MEDIUM_SLICE_SIZE > 0) by (nonlinear_arith)
        requires
            n >= 2,
            MEDIUM_SLICE_SIZE == 65536,
    ;
    assert(last as int % (MEDIUM_SLICE_SIZE as int) == 0) by (nonlinear_arith)
        requires
            last == base + (n - 1) * MEDIUM_SLICE_SIZE,
            base as int % (MEDIUM_SLICE_SIZE as int) == 0,
            MEDIUM_SLICE_SIZE == 65536,
    ;
    if holdings.dom().contains(last) {
        assert(spans_apart(base as int, n, last as int, holdings[last].slices));
        lemma_held_bounds(space, last);
        assert(holdings[last].slices * MEDIUM_SLICE_SIZE > 0) by (nonlinear_arith)
            requires
                holdings[last].slices >= 1,
                MEDIUM_SLICE_SIZE == 65536,
        ;
        assert(false);
    }
    let parts = split(holdings, base, last, used);
    assert forall|address: usize| #[trigger] parts.dom().contains(address) implies held_ok(space.domains@, address, parts[address]) by {
        if address != base && address != last {
            assert(holdings.dom().contains(address));
        }
    }
    assert forall|left: usize, right: usize|
        #![trigger parts.dom().contains(left), parts.dom().contains(right)]
        parts.dom().contains(left) && parts.dom().contains(right) && left != right implies spans_apart(
        left as int,
        parts[left].slices,
        right as int,
        parts[right].slices,
    ) by {
        let l = if left == last {
            base
        } else {
            left
        };
        let r = if right == last {
            base
        } else {
            right
        };
        assert(holdings.dom().contains(l) && holdings.dom().contains(r));
        if l != r {
            assert(spans_apart(l as int, holdings[l].slices, r as int, holdings[r].slices));
        }
    }
}

/// A slab lies on one side of the border between two slices.
proof fn lemma_one_side(slab: int, last: int)
    requires
        slab % (SLAB_SIZE as int) == 0,
        last % (MEDIUM_SLICE_SIZE as int) == 0,
    ensures
        slab + SLAB_SIZE <= last || last <= slab,
{
    assert(slab + SLAB_SIZE <= last || last <= slab) by (nonlinear_arith)
        requires
            slab % 32768 == 0,
            last % 65536 == 0,
            SLAB_SIZE == 32768,
    ;
}

/// Cutting off a slice keeps everything in order.
#[verifier::spinoff_prover]
#[verifier::rlimit(60)]
proof fn lemma_cut_inv(before: Space, after: Space, heap: int, index: int, last: usize)
    requires
        before.whole(),
        0 <= heap < before.heaps@.len(),
        0 <= index < before.heaps@[heap].segments@.len(),
        before.heaps@[heap].segments@[index].slices >= 2,
        last == last_slice(before.heaps@[heap], index),
        same_but_heap(before, after, heap),
        after.domains == before.domains,
        after.slabs == before.slabs,
        after.out == before.out,
        after.mapped == before.mapped,
        cut_off(before.heaps@[heap], after.heaps@[heap], index),
        after.holdings@ == split(
            before.holdings@,
            before.heaps@[heap].segments@[index].base,
            last,
            last_used(before.heaps@[heap], index),
        ),
    ensures
        after.inv(),
{
    let left = before.heaps@[heap];
    let right = after.heaps@[heap];
    let base = left.segments@[index].base;
    let used = last_used(left, index);
    let sizes = before.sizes();
    assert(before.segments_held(heap));
    assert(before.segment_held(heap, index));
    assert(before.heap_ok(heap));
    lemma_split(before, base, last, used);
    let n = left.segments@[index].slices as int;
    assert(n * MEDIUM_SLICE_SIZE == (n - 1) * MEDIUM_SLICE_SIZE + MEDIUM_SLICE_SIZE) by (nonlinear_arith);
    let parts = after.holdings@;
    assert forall|address: usize| #[trigger] before.holdings@.dom().contains(address) && address != base implies parts.dom().contains(
        address,
    ) && parts[address] == before.holdings@[address] by {}
    assert forall|slab: usize| #[trigger] after.slabs@.dom().contains(slab) implies slab_placed(parts, after.mapped@, slab) by {
        assert(before.slabs@.dom().contains(slab));
        assert(slab_placed(before.holdings@, before.mapped@, slab));
        lemma_at_address(&before.slabs, slab);
        if exists|b: usize| #[trigger] slab_in(before.holdings@, b, slab) {
            let b = choose|b: usize| #[trigger] slab_in(before.holdings@, b, slab);
            if b == base {
                lemma_one_side(slab as int, last as int);
                if slab >= last {
                    assert(used);
                    assert(slab_in(parts, last, slab));
                } else {
                    assert(slab_in(parts, base, slab));
                }
            } else {
                assert(slab_in(parts, b, slab));
            }
        }
    }
    assert(after.bumps_ok()) by {
        assert forall|bump: int| 0 <= bump < after.bumps@.len() implies bump_ok(#[trigger] after.bumps@[bump]) && after.chunks_held(bump)
            && is_domain(after.domains@, after.bumps@[bump].domain) by {
            assert(bump_ok(before.bumps@[bump]));
            assert(before.chunks_held(bump));
            assert forall|at: int| 0 <= at < after.bumps@[bump].chunks@.len() implies {
                let chunk = #[trigger] after.bumps@[bump].chunks@[at];
                &&& parts.dom().contains(chunk)
                &&& parts[chunk].slices == 1
                &&& parts[chunk].user == (User::Chunk { bump: after.bumps@[bump].address })
            } by {
                let chunk = before.bumps@[bump].chunks@[at];
                assert(before.holdings@.dom().contains(chunk));
            }
        }
    }
    assert forall|at: int|
        #![trigger after.heaps@[at]]
        0 <= at < after.heaps@.len() implies cache_held(after.heaps@[at], parts) && locality_held(after.heaps@[at], parts, after.slabs@) by {
        assert(before.heap_ok(at));
        let own = before.heaps@[at];
        assert(cache_held(after.heaps@[at], parts)) by {
            assert(after.heaps@[at].medium_cache@ == own.medium_cache@);
            assert forall|slot: int|
                #![trigger own.medium_cache@[slot]]
                0 <= slot < crate::allocator::classes::LOCAL_MEDIUM_CLASSES && own.medium_cache@[slot] != 0 implies parts.dom().contains(
                own.medium_cache@[slot],
            ) && parts[own.medium_cache@[slot]] == before.holdings@[own.medium_cache@[slot]] by {
                assert(before.holdings@.dom().contains(own.medium_cache@[slot]));
            }
        }
        if at != heap {
            if own.locality_next < own.locality_end {
                assert(before.holdings@.dom().contains(own.locality_segment));
                assert(own.address != left.address) by {
                    if at < heap {
                        assert(before.heaps@[at].address != before.heaps@[heap].address);
                    } else {
                        assert(before.heaps@[heap].address != before.heaps@[at].address);
                    }
                }
            }
        } else {
            lemma_cut_locality(before, after, heap, index, last);
        }
    }
    assert(right.wf()) by {
        if right.locality_next < right.locality_end {
            lemma_cut_locality(before, after, heap, index, last);
        }
    }
    lemma_held_step(before, after, heap);
}

/// What the heap cuts its next slabs from is held for it.
proof fn lemma_cut_locality(before: Space, after: Space, heap: int, index: int, last: usize)
    requires
        before.whole(),
        0 <= heap < before.heaps@.len(),
        0 <= index < before.heaps@[heap].segments@.len(),
        before.heaps@[heap].segments@[index].slices >= 2,
        last == last_slice(before.heaps@[heap], index),
        after.slabs == before.slabs,
        cut_off(before.heaps@[heap], after.heaps@[heap], index),
        after.holdings@ == split(
            before.holdings@,
            before.heaps@[heap].segments@[index].base,
            last,
            last_used(before.heaps@[heap], index),
        ),
    ensures
        locality_held(after.heaps@[heap], after.holdings@, after.slabs@),
        after.heaps@[heap].wf(),
{
    let left = before.heaps@[heap];
    let right = after.heaps@[heap];
    let base = left.segments@[index].base;
    let used = last_used(left, index);
    let parts = after.holdings@;
    assert(before.segments_held(heap));
    assert(before.segment_held(heap, index));
    assert(before.heap_ok(heap));
    lemma_split(before, base, last, used);
    let n = left.segments@[index].slices as int;
    assert(n * MEDIUM_SLICE_SIZE == (n - 1) * MEDIUM_SLICE_SIZE + MEDIUM_SLICE_SIZE) by (nonlinear_arith);
    assert(last as int % (SLAB_SIZE as int) == 0) by (nonlinear_arith)
        requires
            last as int % (MEDIUM_SLICE_SIZE as int) == 0,
            MEDIUM_SLICE_SIZE == 65536,
            SLAB_SIZE == 32768,
    ;
    let local = base == left.locality_segment;
    if right.locality_next < right.locality_end {
        if local && used {
            let at = left.segments@.len() as int;
            assert(right.segments@[at].base == last);
            assert forall|other: int| 0 <= other < right.segments@.len() && (#[trigger] right.segments@[other]).base == last implies other == at by {
                if other < at {
                    assert(before.segment_held(heap, other));
                    lemma_base_apart(before, heap, index, other, last);
                }
            }
            lemma_segment_is(right.segments@, last, at);
        } else if local {
            assert forall|other: int| 0 <= other < right.segments@.len() && (#[trigger] right.segments@[other]).base == base implies other == index by {
                assert(left.segments@[other].base == right.segments@[other].base);
                if other < index {
                    assert(left.segments@[other].base != left.segments@[index].base);
                } else if index < other {
                    assert(left.segments@[index].base != left.segments@[other].base);
                }
            }
            lemma_segment_is(right.segments@, base, index);
        } else {
            let local = left.locality_segment;
            assert(before.holdings@.dom().contains(local));
            assert(local != last);
            let at = choose|at: int| 0 <= at < left.segments@.len() && (#[trigger] left.segments@[at]).base == local;
            assert(holds_segment(left.segments@, local));
            assert(at != index);
            assert forall|other: int| 0 <= other < left.segments@.len() && (#[trigger] left.segments@[other]).base == local implies other == at by {
                if other < at {
                    assert(left.segments@[other].base != left.segments@[at].base);
                } else if at < other {
                    assert(left.segments@[at].base != left.segments@[other].base);
                }
            }
            lemma_segment_is(left.segments@, local, at);
            assert(right.segments@[at] == left.segments@[at]);
            assert forall|other: int| 0 <= other < right.segments@.len() && (#[trigger] right.segments@[other]).base == local implies other == at by {
                if other < left.segments@.len() {
                    assert(left.segments@[other].base == right.segments@[other].base);
                }
            }
            lemma_segment_is(right.segments@, local, at);
        }
    }
}

/// The last slice of a segment is no other segment's base.
proof fn lemma_base_apart(space: Space, heap: int, index: int, other: int, last: usize)
    requires
        space.whole(),
        0 <= heap < space.heaps@.len(),
        0 <= index < space.heaps@[heap].segments@.len(),
        0 <= other < space.heaps@[heap].segments@.len(),
        space.heaps@[heap].segments@[index].slices >= 2,
        last == last_slice(space.heaps@[heap], index),
    ensures
        space.heaps@[heap].segments@[other].base != last,
{
    let own = space.heaps@[heap];
    assert(space.segments_held(heap));
    assert(space.segment_held(heap, index));
    assert(space.segment_held(heap, other));
    lemma_split(space, own.segments@[index].base, last, true);
    let n = own.segments@[index].slices as int;
    assert(n * MEDIUM_SLICE_SIZE == (n - 1) * MEDIUM_SLICE_SIZE + MEDIUM_SLICE_SIZE) by (nonlinear_arith);
    if own.segments@[other].base == last && own.segments@[other].slices == 0 {
        crate::allocator::uses::lemma_held_is_unmapped(space, own.segments@[index].base, last);
    }
}

/// Cutting off a slice keeps the segments in order.
#[verifier::spinoff_prover]
#[verifier::rlimit(60)]
proof fn lemma_cut_segments(before: Space, after: Space, heap: int, index: int, last: usize)
    requires
        before.whole(),
        after.inv(),
        0 <= heap < before.heaps@.len(),
        0 <= index < before.heaps@[heap].segments@.len(),
        before.heaps@[heap].segments@[index].slices >= 2,
        last == last_slice(before.heaps@[heap], index),
        same_but_heap(before, after, heap),
        after.slabs == before.slabs,
        after.mapped == before.mapped,
        cut_off(before.heaps@[heap], after.heaps@[heap], index),
        after.holdings@ == split(
            before.holdings@,
            before.heaps@[heap].segments@[index].base,
            last,
            last_used(before.heaps@[heap], index),
        ),
    ensures
        after.segments_whole(),
{
    let left = before.heaps@[heap];
    let right = after.heaps@[heap];
    let base = left.segments@[index].base;
    let used = last_used(left, index);
    let count = left.segments@.len() as int;
    let sizes = before.sizes();
    let n = left.segments@[index].slices as int;
    assert(before.segments_held(heap));
    assert(before.segment_held(heap, index));
    assert(before.heap_ok(heap));
    lemma_split(before, base, last, used);
    assert(n * MEDIUM_SLICE_SIZE == (n - 1) * MEDIUM_SLICE_SIZE + MEDIUM_SLICE_SIZE && (n - 1) * MEDIUM_SLICE_SIZE == (2 * (n - 1))
        * SLAB_SIZE) by (nonlinear_arith)
        requires
            MEDIUM_SLICE_SIZE == 65536,
            SLAB_SIZE == 32768,
    ;
    // Each slab that a segment counts now, one counted before.
    assert forall|at: int, slot: int| 0 <= at < right.segments@.len() && 0 <= slot < right.used_slabs(at) implies exists|
        old_at: int,
        old_slot: int,
    |
        0 <= old_at < count && 0 <= old_slot < left.used_slabs(old_at) && #[trigger] left.slab_base(old_at, old_slot)
            == #[trigger] right.slab_base(at, slot) by {
        if at != index && at < count {
            lemma_cut_beside(before, right, heap, index, at, last);
            assert(left.slab_base(at, slot) == right.slab_base(at, slot));
        } else if at == index {
            lemma_cut_used(left, right, index, last);
            assert(left.slab_base(index, slot) == right.slab_base(index, slot));
        } else {
            lemma_cut_used(left, right, index, last);
            assert(left.slab_base(index, 2 * (n - 1) + slot) == right.slab_base(at, slot)) by (nonlinear_arith)
                requires
                    left.slab_base(index, 2 * (n - 1) + slot) == (base + (2 * (n - 1) + slot) * SLAB_SIZE) as usize,
                    right.slab_base(at, slot) == (last + slot * SLAB_SIZE) as usize,
                    last == base + (n - 1) * MEDIUM_SLICE_SIZE,
                    MEDIUM_SLICE_SIZE == 65536,
                    SLAB_SIZE == 32768,
            ;
        }
    }
    assert forall|at: int| 0 <= at < right.segments@.len() implies #[trigger] after.segment_held(heap, at) by {
        lemma_cut_used(left, right, index, last);
        if at < count {
            assert(before.segment_held(heap, at));
            if at != index {
                lemma_cut_beside(before, right, heap, index, at, last);
            }
            assert(before.segment_placed(heap, at));
        }
        assert(after.segment_placed(heap, at));
        assert forall|slot: int| 0 <= slot < right.used_slabs(at) implies after.slabs@[#[trigger] right.slab_base(at, slot)].owner
            == right.address && !after.slabs@[right.slab_base(at, slot)].shared by {
            let (old_at, old_slot) = choose|old_at: int, old_slot: int|
                0 <= old_at < count && 0 <= old_slot < left.used_slabs(old_at) && #[trigger] left.slab_base(old_at, old_slot)
                    == right.slab_base(at, slot);
            assert(before.segment_held(heap, old_at));
            assert(before.segment_owned(heap, old_at));
        }
    }
    assert(right.segments_ok(&after.slabs, sizes)) by {
        assert forall|at: int| 0 <= at < right.segments@.len() implies {
            let segment = #[trigger] right.segments@[at];
            &&& segment.slices <= MEDIUM_REGION_SLICE_COUNT
            &&& segment.slices != 0 && segment.base == right.locality_segment ==> segment.base <= right.locality_next
            &&& segment.base + segment.slices * MEDIUM_SLICE_SIZE <= usize::MAX
            &&& segment.base + right.used_slabs(at) * SLAB_SIZE <= usize::MAX
            &&& right.used_slabs(at) <= segment.slices * 2 || segment.slices == 0
        } by {
            lemma_cut_used(left, right, index, last);
            if at < count && at != index {
                lemma_cut_beside(before, right, heap, index, at, last);
            } else {
                let u = right.used_slabs(at);
                assert(u * SLAB_SIZE <= right.segments@[at].slices * MEDIUM_SLICE_SIZE) by (nonlinear_arith)
                    requires
                        u <= right.segments@[at].slices * 2,
                        MEDIUM_SLICE_SIZE == 65536,
                        SLAB_SIZE == 32768,
                ;
            }
        }
        assert forall|at: int, slot: int|
            #![trigger right.slab_base(at, slot)]
            0 <= at < right.segments@.len() && 0 <= slot < right.used_slabs(at) implies small(&right.small, &after.slabs).slab_of_some_class(
            sizes,
            right.slab_base(at, slot),
        ) by {
            let (old_at, old_slot) = choose|old_at: int, old_slot: int|
                0 <= old_at < count && 0 <= old_slot < left.used_slabs(old_at) && #[trigger] left.slab_base(old_at, old_slot)
                    == right.slab_base(at, slot);
            assert(small(&left.small, &before.slabs).slab_of_some_class(sizes, left.slab_base(old_at, old_slot)));
        }
    }
    assert forall|other: int| 0 <= other < after.heaps@.len() implies #[trigger] after.segments_held(other) by {
        if other == heap {
            assert forall|l: int, r: int|
                #![trigger right.segments@[l], right.segments@[r]]
                0 <= l < r < right.segments@.len() implies right.segments@[l].base != right.segments@[r].base by {
                assert(right.segments@[l].base == left.segments@[l].base);
                if r < count {
                    assert(right.segments@[r].base == left.segments@[r].base);
                    assert(left.segments@[l].base != left.segments@[r].base);
                } else {
                    lemma_base_apart(before, heap, index, l, last);
                }
            }
        } else {
            lemma_cut_other(before, after, heap, index, last, other);
        }
    }
}

/// The heap's other segments stay as they are.
pub proof fn lemma_cut_beside(before: Space, right: HeapState, heap: int, index: int, at: int, last: usize)
    requires
        before.whole(),
        0 <= heap < before.heaps@.len(),
        0 <= index < before.heaps@[heap].segments@.len(),
        0 <= at < before.heaps@[heap].segments@.len(),
        at != index,
        before.heaps@[heap].segments@[index].slices >= 2,
        last == last_slice(before.heaps@[heap], index),
        cut_off(before.heaps@[heap], right, index),
    ensures
        right.segments@[at] == before.heaps@[heap].segments@[at],
        right.used_slabs(at) == before.heaps@[heap].used_slabs(at),
        right.segments@[at].base != last,
        right.segments@[at].base != before.heaps@[heap].segments@[index].base,
        right.segments@[at].slices != 0 ==> right.segments@[at].base != 0,
{
    let left = before.heaps@[heap];
    assert(before.segments_held(heap));
    assert(before.segment_held(heap, at));
    assert(before.segment_placed(heap, at));
    lemma_base_apart(before, heap, index, at, last);
    if at < index {
        assert(left.segments@[at].base != left.segments@[index].base);
    } else {
        assert(left.segments@[index].base != left.segments@[at].base);
    }
    if left.segments@[at].slices != 0 {
        lemma_held_bounds(before, left.segments@[at].base);
    }
}

/// The segments of another heap stay as they are.
proof fn lemma_cut_other(before: Space, after: Space, heap: int, index: int, last: usize, other: int)
    requires
        before.whole(),
        0 <= heap < before.heaps@.len(),
        0 <= other < before.heaps@.len(),
        other != heap,
        0 <= index < before.heaps@[heap].segments@.len(),
        before.heaps@[heap].segments@[index].slices >= 2,
        last == last_slice(before.heaps@[heap], index),
        same_but_heap(before, after, heap),
        after.slabs == before.slabs,
        after.mapped == before.mapped,
        after.holdings@ == split(
            before.holdings@,
            before.heaps@[heap].segments@[index].base,
            last,
            last_used(before.heaps@[heap], index),
        ),
    ensures
        after.segments_held(other),
{
    let own = before.heaps@[other];
    let base = before.heaps@[heap].segments@[index].base;
    assert(before.segments_held(heap));
    assert(before.segment_held(heap, index));
    assert(before.segments_held(other));
    lemma_split(before, base, last, last_used(before.heaps@[heap], index));
    assert(own.address != before.heaps@[heap].address) by {
        if other < heap {
            assert(before.heaps@[other].address != before.heaps@[heap].address);
        } else {
            assert(before.heaps@[heap].address != before.heaps@[other].address);
        }
    }
    assert forall|at: int| 0 <= at < own.segments@.len() implies #[trigger] after.segment_held(other, at) by {
        assert(before.segment_held(other, at));
        assert(before.segment_placed(other, at));
        assert(before.segment_owned(other, at));
        assert(after.segment_owned(other, at));
    }
}

/// How many slabs the two parts of a segment count.
pub proof fn lemma_cut_used(left: HeapState, right: HeapState, index: int, last: usize)
    requires
        left.wf(),
        0 <= index < left.segments@.len(),
        left.segments@[index].slices >= 2,
        last == last_slice(left, index),
        cut_off(left, right, index),
        left.segments@[index].base > 0,
        left.segments@[index].base as int % (MEDIUM_SLICE_SIZE as int) == 0,
        left.used_slabs(index) >= 1,
        left.segments@[index].base == left.locality_segment ==> left.locality_end == last + MEDIUM_SLICE_SIZE,
    ensures
        ({
            let n = left.segments@[index].slices as int;
            let old_used = left.used_slabs(index);
            let new_used = right.used_slabs(index);
            &&& 1 <= new_used <= 2 * (n - 1)
            &&& new_used <= old_used
            &&& last_used(left, index) ==> {
                let tail = right.used_slabs(left.segments@.len() as int);
                1 <= tail <= 2 && 2 * (n - 1) + tail == old_used
            }
            &&& !last_used(left, index) ==> new_used == old_used
        }),
{
    let base = left.segments@[index].base;
    let n = left.segments@[index].slices as int;
    assert(last == base + (n - 1) * MEDIUM_SLICE_SIZE);
    if base == left.locality_segment {
        let next = left.locality_next;
        assert(left.used_slabs(index) == (next - base) / (SLAB_SIZE as int));
        if last_used(left, index) {
            assert((next - base) / (SLAB_SIZE as int) == 2 * (n - 1) + (next - last) / (SLAB_SIZE as int) && 1 <= (next - last) / (
            SLAB_SIZE as int) <= 2) by (nonlinear_arith)
                requires
                    last == base + (n - 1) * MEDIUM_SLICE_SIZE,
                    last < next <= last + MEDIUM_SLICE_SIZE,
                    next as int % (SLAB_SIZE as int) == 0,
                    base as int % (MEDIUM_SLICE_SIZE as int) == 0,
                    MEDIUM_SLICE_SIZE == 65536,
                    SLAB_SIZE == 32768,
            ;
            assert(base != last) by (nonlinear_arith)
                requires
                    last == base + (n - 1) * MEDIUM_SLICE_SIZE,
                    n >= 2,
                    MEDIUM_SLICE_SIZE == 65536,
            ;
        } else {
            assert((next - base) / (SLAB_SIZE as int) <= 2 * (n - 1)) by (nonlinear_arith)
                requires
                    next <= base + (n - 1) * MEDIUM_SLICE_SIZE,
                    MEDIUM_SLICE_SIZE == 65536,
                    SLAB_SIZE == 32768,
            ;
        }
    }
}

/// Cutting off a slice keeps the blocks in use.
proof fn lemma_cut(before: Space, after: Space, heap: int, index: int, last: usize)
    requires
        before.whole(),
        0 <= heap < before.heaps@.len(),
        0 <= index < before.heaps@[heap].segments@.len(),
        before.heaps@[heap].segments@[index].slices >= 2,
        last == last_slice(before.heaps@[heap], index),
        same_but_heap(before, after, heap),
        after.domains == before.domains,
        after.slabs == before.slabs,
        after.out == before.out,
        after.mapped == before.mapped,
        cut_off(before.heaps@[heap], after.heaps@[heap], index),
        after.holdings@ == split(
            before.holdings@,
            before.heaps@[heap].segments@[index].base,
            last,
            last_used(before.heaps@[heap], index),
        ),
    ensures
        step_kept(before, after),
{
    lemma_cut_inv(before, after, heap, index, last);
    lemma_cut_segments(before, after, heap, index, last);
    assert(smalls_kept(before, after));
    assert(mediums_kept(before.domains@, after.domains@));
    assert(bumps_kept(before.bumps@, after.bumps@));
    lemma_uses_go_on(before, after);
    lemma_directs_go_on(before, after);
    lemma_records_go_on(before, after);
    assert(after.refs_owned()) by {
        assert forall|at: int, slab: usize| 0 <= at < after.heaps@.len() && #[trigger] after.heap_refers(at, slab) implies {
            &&& after.slabs@.dom().contains(slab)
            &&& after.slabs@[slab].shared || after.slabs@[slab].owner == after.heaps@[at].address
        } by {
            assert(after.heaps@[at].small == before.heaps@[at].small);
            assert(before.heap_refers(at, slab));
        }
    }
}

/// Whether nothing but a heap's segments and the held spans may differ.
pub open spec fn same_but_segments(before: Space, after: Space, heap: int) -> bool {
    &&& same_but_heap(before, after, heap)
    &&& after.heaps@[heap].same_but_locality(&before.heaps@[heap])
    &&& after.domains == before.domains
    &&& after.slabs == before.slabs
    &&& after.out == before.out
    &&& after.mapped == before.mapped
}

impl Space {
    /// Cuts the last slice off a heap's segment. Gives it where no slab lies in it: it is to be given back.
    fn cut_last_slice(&mut self, heap: usize, index: usize) -> (unused: Option<StorageRelease>)
        requires
            old(self).whole(),
            heap < old(self).heaps@.len(),
            index < old(self).heaps@[heap as int].segments@.len(),
            old(self).heaps@[heap as int].segments@[index as int].slices >= 2,
        ensures
            step_kept(*old(self), *final(self)),
            same_but_segments(*old(self), *final(self), heap as int),
            cut_off(old(self).heaps@[heap as int], final(self).heaps@[heap as int], index as int),
            unused is None <==> last_used(old(self).heaps@[heap as int], index as int),
            unused matches Some(release) ==> release == unused_slice(old(self).heaps@[heap as int], index as int) && slice_pending(
                *final(self),
                old(self).heaps@[heap as int].domain,
                release.address,
            ),
            !old(self).holdings@.dom().contains(last_slice(old(self).heaps@[heap as int], index as int) as usize),
            final(self).holdings@ == split(
                old(self).holdings@,
                old(self).heaps@[heap as int].segments@[index as int].base,
                last_slice(old(self).heaps@[heap as int], index as int) as usize,
                last_used(old(self).heaps@[heap as int], index as int),
            ),
    {
        let ghost before = *self;
        let ghost left = self.heaps@[heap as int];
        let segment: Segment = self.heaps[heap].segments[index];
        proof {
            assert(before.segments_held(heap as int));
            assert(before.segment_held(heap as int, index as int));
            assert(before.heap_ok(heap as int));
            lemma_held_bounds(before, segment.base);
            lemma_split(before, segment.base, last_slice(left, index as int) as usize, true);
            assert((segment.slices - 1) * MEDIUM_SLICE_SIZE <= segment.slices * MEDIUM_SLICE_SIZE && 0 <= (segment.slices - 1)
                * MEDIUM_SLICE_SIZE) by (nonlinear_arith)
                requires
                    segment.slices >= 2,
                    MEDIUM_SLICE_SIZE == 65536,
            ;
        }
        let rest: usize = (segment.slices - 1) * MEDIUM_SLICE_SIZE;
        let last: usize = segment.base + rest;
        let kept: usize = if segment.committed_bytes < rest {
            segment.committed_bytes
        } else {
            rest
        };
        let tail: usize = if segment.committed_bytes - kept < MEDIUM_SLICE_SIZE {
            segment.committed_bytes - kept
        } else {
            MEDIUM_SLICE_SIZE
        };
        let local: bool = segment.base == self.heaps[heap].locality_segment;
        let used: bool = !local || self.heaps[heap].locality_next > last;
        self.heaps[heap].segments[index] = Segment { base: segment.base, slices: segment.slices - 1, committed_bytes: kept };
        if used {
            self.heaps[heap].segments.push(Segment { base: last, slices: 1, committed_bytes: tail });
        }
        if local && used {
            self.heaps[heap].locality_segment = last;
        } else if local {
            self.heaps[heap].locality_end = last;
        } else if self.heaps[heap].locality_segment == last {
            self.heaps[heap].locality_segment = 0;
        }
        proof {
            self.holdings@ = split(before.holdings@, segment.base, last, used);
            lemma_cut(before, *self, heap as int, index as int, last);
            lemma_cut_committed(segment.committed_bytes as int, rest as int, segment.slices as int);
        }
        if used {
            None
        } else {
            Some(
                StorageRelease {
                    address: last,
                    direct_mapping: false,
                    committed_bytes: tail / SLAB_SIZE * SLAB_SIZE,
                    release_bytes: MEDIUM_SLICE_SIZE,
                    track_aggregates: self.heaps[heap].track_aggregates,
                },
            )
        }
    }

    /// Cuts a heap's segments into single slices. Gives those that no slab lies in: they are to be given
    /// back.
    pub fn split_segments(&mut self, heap: usize) -> (unused: Vec<StorageRelease>)
        requires
            old(self).whole(),
            heap < old(self).heaps@.len(),
        ensures
            step_kept(*old(self), *final(self)),
            same_but_segments(*old(self), *final(self), heap as int),
            forall|at: int|
                0 <= at < final(self).heaps@[heap as int].segments@.len() ==> (#[trigger] final(self).heaps@[heap as int].segments@[at]).slices
                    <= 1,
            pieces_released(old(self).heaps@[heap as int], final(self).heaps@[heap as int], unused@),
            forall|piece: Piece|
                #[trigger] old(self).heaps@[heap as int].has_piece(piece) ==> (final(self).heaps@[heap as int].has_piece(piece)
                    <==> piece.slabs > 0),
            others_held(old(self).holdings@, final(self).holdings@),
            forall|at: int|
                0 <= at < unused@.len() ==> (#[trigger] unused@[at]).direct_mapping == false && slice_pending(
                    *final(self),
                    old(self).heaps@[heap as int].domain,
                    unused@[at].address,
                ),
    {
        let ghost before = *self;
        proof {
            lemma_heap_pieces_apart(before, heap as int);
            lemma_none_released(before.heaps@[heap as int], before.heaps@[heap as int]);
        }
        let mut unused: Vec<StorageRelease> = Vec::new();
        let count: usize = self.heaps[heap].segments.len();
        let mut index: usize = 0;
        while index < count
            invariant
                step_kept(before, *self),
                same_but_segments(before, *self, heap as int),
                heap < self.heaps@.len(),
                heap < before.heaps@.len(),
                index <= count,
                count <= self.heaps@[heap as int].segments@.len(),
                forall|at: int|
                    0 <= at < self.heaps@[heap as int].segments@.len() && (at < index || at >= count) ==> (
                    #[trigger] self.heaps@[heap as int].segments@[at]).slices <= 1,
                pieces_apart(before.heaps@[heap as int]),
                pieces_released(before.heaps@[heap as int], self.heaps@[heap as int], unused@),
                forall|piece: Piece|
                    #[trigger] before.heaps@[heap as int].has_piece(piece) && !self.heaps@[heap as int].has_piece(piece) ==> piece.slabs == 0,
                others_held(before.holdings@, self.holdings@),
                forall|at: int|
                    0 <= at < unused@.len() ==> (#[trigger] unused@[at]).direct_mapping == false && slice_pending(
                        *self,
                        before.heaps@[heap as int].domain,
                        unused@[at].address,
                    ),
            decreases count - index,
        {
            while self.heaps[heap].segments[index].slices > 1
                invariant
                    step_kept(before, *self),
                    same_but_segments(before, *self, heap as int),
                    heap < self.heaps@.len(),
                    heap < before.heaps@.len(),
                    index < count,
                    count <= self.heaps@[heap as int].segments@.len(),
                    forall|at: int|
                        0 <= at < self.heaps@[heap as int].segments@.len() && (at < index || at >= count) ==> (
                        #[trigger] self.heaps@[heap as int].segments@[at]).slices <= 1,
                    pieces_apart(before.heaps@[heap as int]),
                    pieces_released(before.heaps@[heap as int], self.heaps@[heap as int], unused@),
                    forall|piece: Piece|
                        #[trigger] before.heaps@[heap as int].has_piece(piece) && !self.heaps@[heap as int].has_piece(piece) ==> piece.slabs == 0,
                    others_held(before.holdings@, self.holdings@),
                    forall|at: int|
                        0 <= at < unused@.len() ==> (#[trigger] unused@[at]).direct_mapping == false && slice_pending(
                            *self,
                            before.heaps@[heap as int].domain,
                            unused@[at].address,
                        ),
                decreases self.heaps@[heap as int].segments@[index as int].slices,
            {
                let ghost middle = *self;
                let ghost sofar = unused@;
                let cut: Option<StorageRelease> = self.cut_last_slice(heap, index);
                proof {
                    let own = middle.heaps@[heap as int];
                    let last = last_slice(own, index as int) as usize;
                    assert(middle.segments_held(heap as int));
                    assert(middle.segment_held(heap as int, index as int));
                    assert(middle.segment_placed(heap as int, index as int));
                    lemma_held_bounds(middle, own.segments@[index as int].base);
                    let n = own.segments@[index as int].slices as int;
                    assert(0 <= (n - 1) * MEDIUM_SLICE_SIZE <= n * MEDIUM_SLICE_SIZE) by (nonlinear_arith)
                        requires
                            n >= 2,
                            MEDIUM_SLICE_SIZE == 65536,
                    ;
                    lemma_cut_pieces(middle, self.heaps@[heap as int], heap as int, index as int, last);
                    lemma_released_on(
                        before.heaps@[heap as int],
                        own,
                        self.heaps@[heap as int],
                        sofar,
                        if last_used(own, index as int) {
                            Seq::empty()
                        } else {
                            seq![unused_slice(own, index as int)]
                        },
                    );
                    assert forall|at: int| 0 <= at < unused@.len() implies (#[trigger] unused@[at]).direct_mapping == false && slice_pending(
                        *self,
                        before.heaps@[heap as int].domain,
                        unused@[at].address,
                    ) by {
                        assert(slice_pending(middle, before.heaps@[heap as int].domain, unused@[at].address));
                        assert(middle.holdings@.dom().contains(unused@[at].address));
                    }
                }
                if let Some(release) = cut {
                    unused.push(release);
                    assert(unused@ =~= sofar + seq![release]);
                } else {
                    assert(unused@ =~= sofar + Seq::empty());
                }
            }
            index = index + 1;
        }
        proof {
            let own = self.heaps@[heap as int];
            assert forall|piece: Piece| #[trigger] own.has_piece(piece) implies piece.slabs > 0 by {
                let (at, slice) = choose|at: int, slice: int| #[trigger] own.piece_at(at, slice, piece);
                assert(own.segments@[at].slices <= 1);
                lemma_piece(*self, heap as int, at);
                assert(slice == 0);
            }
        }
        unused
    }
}

/// The piece that a segment of at most one slice is.
pub open spec fn piece_of(own: HeapState, index: int) -> Piece {
    own.segment_pieces(index)[0]
}

/// Whether a segment of at most one slice is no more, and with it its slabs.
pub open spec fn let_go_of(before: Space, after: Space, heap: int, index: int) -> bool {
    let left = before.heaps@[heap];
    let right = after.heaps@[heap];
    let segment = left.segments@[index];
    let local = segment.slices != 0 && segment.base == left.locality_segment;
    &&& same_but_heap(before, after, heap)
    &&& after.domains == before.domains
    &&& after.slabs.wf()
    &&& after.slabs@ == without_piece(before.slabs@, piece_of(left, index))
    &&& after.out@ == without_piece(before.out@, piece_of(left, index))
    &&& right.same_but_locality(&left)
    &&& right.segments@ == left.segments@.remove(index)
    &&& if local {
        right.locality_next == 0 && right.locality_end == 0 && right.locality_segment == 0
    } else {
        right.locality_next == left.locality_next && right.locality_end == left.locality_end && right.locality_segment
            == left.locality_segment
    }
    &&& if segment.slices == 0 {
        after.mapped@ == before.mapped@.remove(segment.base) && after.holdings == before.holdings
    } else {
        after.mapped == before.mapped && after.holdings@ == before.holdings@.insert(
            segment.base,
            Holding { user: User::Pending, ..before.holdings@[segment.base] },
        )
    }
}

/// What a map keeps once the slabs of the piece are gone.
pub open spec fn without_piece<V>(slabs: Map<usize, V>, piece: Piece) -> Map<usize, V> {
    if piece.slabs > 1 {
        slabs.remove(piece.base).remove((piece.base + SLAB_SIZE) as usize)
    } else {
        slabs.remove(piece.base)
    }
}

/// Where the segments stand once one is gone.
spec fn from_index(at: int, index: int) -> int {
    if at < index {
        at
    } else {
        at + 1
    }
}

/// What is known of a segment of at most one slice and its slabs.
pub proof fn lemma_piece(space: Space, heap: int, index: int)
    requires
        space.whole(),
        0 <= heap < space.heaps@.len(),
        0 <= index < space.heaps@[heap].segments@.len(),
        space.heaps@[heap].segments@[index].slices <= 1,
    ensures
        ({
            let own = space.heaps@[heap];
            let segment = own.segments@[index];
            let piece = piece_of(own, index);
            let second = (segment.base + SLAB_SIZE) as usize;
            &&& piece.base == segment.base
            &&& piece.slabs == own.used_slabs(index)
            &&& 1 <= piece.slabs <= 2
            &&& segment.base > 0
            &&& segment.base + SLAB_SIZE <= usize::MAX
            &&& segment.slices == 0 ==> piece.slabs == 1
            &&& space.slabs@.dom().contains(segment.base)
            &&& !space.slabs@[segment.base].shared
            &&& space.slabs@[segment.base].owner == own.address
            &&& piece.slabs > 1 ==> {
                &&& space.slabs@.dom().contains(second)
                &&& !space.slabs@[second].shared
                &&& space.slabs@[second].owner == own.address
            }
            &&& piece.slabs == 1 && segment.slices == 1 ==> !space.slabs@.dom().contains(second)
            &&& piece_ok(space.view_of(heap), space.sizes(), piece)
        }),
{
    let own = space.heaps@[heap];
    let segment = own.segments@[index];
    let piece = piece_of(own, index);
    let second = (segment.base + SLAB_SIZE) as usize;
    assert(space.segments_held(heap));
    assert(space.segment_held(heap, index));
    assert(space.segment_placed(heap, index));
    assert(space.segment_owned(heap, index));
    assert(space.heap_ok(heap));
    let used = own.used_slabs(index);
    assert(own.slab_base(index, 0) == segment.base) by {
        assert(0 * SLAB_SIZE == 0);
    }
    assert(space.view_of(heap).slab_of_some_class(space.sizes(), own.slab_base(index, 0)));
    lemma_at_address(&space.slabs, segment.base);
    if segment.slices == 1 {
        lemma_held_bounds(space, segment.base);
        assert(1 <= used <= 2);
        assert(0 * MEDIUM_SLICE_SIZE == 0);
        if used == 2 {
            assert(own.slab_base(index, 1) == second) by {
                assert(1 * SLAB_SIZE == SLAB_SIZE);
            }
            assert(space.view_of(heap).slab_of_some_class(space.sizes(), own.slab_base(index, 1)));
        } else {
            assert(segment.base == own.locality_segment);
            assert(own.locality_next == second) by (nonlinear_arith)
                requires
                    (own.locality_next - segment.base) / 32768 == 1,
                    own.locality_next as int % 32768 == 0,
                    segment.base as int % 65536 == 0,
                    second == segment.base + 32768,
            ;
            assert(own.locality_end == segment.base + MEDIUM_SLICE_SIZE);
        }
    }
}

/// No heap names a slab that is another's own.
proof fn lemma_foreign(space: Space, heap: int, slab: usize, other: int)
    requires
        space.whole(),
        0 <= heap < space.heaps@.len(),
        0 <= other < space.heaps@.len(),
        other != heap,
        space.slabs@.dom().contains(slab),
        !space.slabs@[slab].shared,
        space.slabs@[slab].owner == space.heaps@[heap].address,
    ensures
        !space.heap_refers(other, slab),
{
    if space.heap_refers(other, slab) {
        if other < heap {
            assert(space.heaps@[other].address != space.heaps@[heap].address);
        } else {
            assert(space.heaps@[heap].address != space.heaps@[other].address);
        }
    }
}

/// The slabs of another segment are none of the piece's.
proof fn lemma_pieces_apart(space: Space, heap: int, index: int, other: int, at: int, slot: int)
    requires
        space.whole(),
        0 <= heap < space.heaps@.len(),
        0 <= index < space.heaps@[heap].segments@.len(),
        space.heaps@[heap].segments@[index].slices <= 1,
        0 <= other < space.heaps@.len(),
        0 <= at < space.heaps@[other].segments@.len(),
        0 <= slot < space.heaps@[other].used_slabs(at),
        other != heap || at != index,
    ensures
        ({
            let slab = space.heaps@[other].slab_base(at, slot);
            let piece = piece_of(space.heaps@[heap], index);
            space.slabs@.dom().contains(slab) && slab != piece.base && (piece.slabs > 1 ==> slab != piece.base + SLAB_SIZE)
        }),
{
    let own = space.heaps@[heap];
    let their = space.heaps@[other];
    let slab = their.slab_base(at, slot);
    let piece = piece_of(own, index);
    lemma_piece(space, heap, index);
    assert(space.segments_held(other));
    assert(space.segment_held(other, at));
    assert(space.segment_owned(other, at));
    assert(space.segment_placed(other, at));
    assert(space.segments_held(heap));
    assert(space.segment_held(heap, index));
    assert(space.segment_placed(heap, index));
    assert(space.view_of(other).slab_of_some_class(space.sizes(), slab));
    if other != heap {
        assert(space.slabs@[slab].owner == their.address);
        if other < heap {
            assert(space.heaps@[other].address != space.heaps@[heap].address);
        } else {
            assert(space.heaps@[heap].address != space.heaps@[other].address);
        }
    } else {
        if at < index {
            assert(own.segments@[at].base != own.segments@[index].base);
        } else {
            assert(own.segments@[index].base != own.segments@[at].base);
        }
        let segment = own.segments@[at];
        assert(slab == segment.base + slot * SLAB_SIZE) by {
            assert(0 <= slot * SLAB_SIZE <= own.used_slabs(at) * SLAB_SIZE) by (nonlinear_arith)
                requires
                    0 <= slot < own.used_slabs(at),
                    SLAB_SIZE == 32768,
            ;
        }
        if segment.slices == 0 {
            assert(slot == 0);
            assert(0 * SLAB_SIZE == 0);
            if own.segments@[index].slices != 0 {
                if slab == piece.base || slab == piece.base + SLAB_SIZE {
                    crate::allocator::uses::lemma_held_is_unmapped(space, piece.base, slab);
                }
            }
        } else {
            assert(slot * SLAB_SIZE + SLAB_SIZE <= segment.slices * MEDIUM_SLICE_SIZE) by (nonlinear_arith)
                requires
                    0 <= slot < own.used_slabs(at) <= segment.slices * 2,
                    SLAB_SIZE == 32768,
                    MEDIUM_SLICE_SIZE == 65536,
            ;
            if own.segments@[index].slices != 0 {
                assert(spans_apart(segment.base as int, segment.slices as int, piece.base as int, 1));
            } else if slab == piece.base {
                crate::allocator::uses::lemma_held_is_unmapped(space, segment.base, slab);
            }
        }
    }
}

/// What is left is in order once a segment is gone.
#[verifier::spinoff_prover]
#[verifier::rlimit(60)]
proof fn lemma_gone_inv(before: Space, middle: Space, after: Space, heap: int, index: int)
    requires
        before.whole(),
        middle.inv(),
        0 <= heap < before.heaps@.len(),
        0 <= index < before.heaps@[heap].segments@.len(),
        before.heaps@[heap].segments@[index].slices <= 1,
        let_go_of(before, after, heap, index),
        middle.tuning == before.tuning,
        middle.domains == before.domains,
        middle.heaps == before.heaps,
        middle.remotes == before.remotes,
        middle.bumps == before.bumps,
        middle.records == before.records,
        middle.holdings == before.holdings,
        middle.mapped == before.mapped,
        middle.slabs == after.slabs,
        middle.out == after.out,
    ensures
        after.inv(),
{
    let left = before.heaps@[heap];
    let right = after.heaps@[heap];
    let segment = left.segments@[index];
    let base = segment.base;
    let piece = piece_of(left, index);
    lemma_piece(before, heap, index);
    assert(before.segments_held(heap));
    assert(before.segment_held(heap, index));
    assert(before.segment_placed(heap, index));
    assert(before.heap_ok(heap));
    if segment.slices != 0 {
        lemma_held_bounds(before, base);
    }
    assert forall|address: usize| #[trigger] before.holdings@.dom().contains(address) && !(segment.slices != 0 && address == base) implies after.holdings@.dom().contains(
        address,
    ) && after.holdings@[address] == before.holdings@[address] by {}
    assert(holdings_ok(after.domains@, after.holdings@)) by {
        assert forall|address: usize| #[trigger] after.holdings@.dom().contains(address) implies held_ok(
            after.domains@,
            address,
            after.holdings@[address],
        ) by {
            assert(before.holdings@.dom().contains(address));
        }
        assert forall|l: usize, r: usize|
            #![trigger after.holdings@.dom().contains(l), after.holdings@.dom().contains(r)]
            after.holdings@.dom().contains(l) && after.holdings@.dom().contains(r) && l != r implies spans_apart(
            l as int,
            after.holdings@[l].slices,
            r as int,
            after.holdings@[r].slices,
        ) by {
            assert(before.holdings@.dom().contains(l) && before.holdings@.dom().contains(r));
        }
    }
    assert forall|slab: usize| #[trigger] after.slabs@.dom().contains(slab) implies slab_placed(after.holdings@, after.mapped@, slab) by {
        assert(before.slabs@.dom().contains(slab));
        assert(slab_placed(before.holdings@, before.mapped@, slab));
        lemma_at_address(&before.slabs, slab);
        if exists|b: usize| #[trigger] slab_in(before.holdings@, b, slab) {
            let b = choose|b: usize| #[trigger] slab_in(before.holdings@, b, slab);
            assert(before.holdings@.dom().contains(b));
            if segment.slices != 0 && b == base {
                assert(slab == base || slab == base + SLAB_SIZE) by (nonlinear_arith)
                    requires
                        base <= slab,
                        slab + SLAB_SIZE <= base + 1 * MEDIUM_SLICE_SIZE,
                        slab as int % 32768 == 0,
                        base as int % 65536 == 0,
                        SLAB_SIZE == 32768,
                        MEDIUM_SLICE_SIZE == 65536,
                ;
                assert(false);
            }
            assert(slab_in(after.holdings@, b, slab));
        }
    }
    assert(after.bumps_ok()) by {
        assert forall|bump: int| 0 <= bump < after.bumps@.len() implies bump_ok(#[trigger] after.bumps@[bump]) && after.chunks_held(bump)
            && is_domain(after.domains@, after.bumps@[bump].domain) by {
            assert(bump_ok(before.bumps@[bump]));
            assert(before.chunks_held(bump));
            assert forall|at: int| 0 <= at < after.bumps@[bump].chunks@.len() implies {
                let chunk = #[trigger] after.bumps@[bump].chunks@[at];
                &&& after.holdings@.dom().contains(chunk)
                &&& after.holdings@[chunk].slices == 1
                &&& after.holdings@[chunk].user == (User::Chunk { bump: after.bumps@[bump].address })
            } by {
                let chunk = before.bumps@[bump].chunks@[at];
                assert(before.holdings@.dom().contains(chunk));
            }
        }
    }
    assert(right.wf() && locality_held(right, after.holdings@, after.slabs@)) by {
        if right.locality_next < right.locality_end {
            let local = left.locality_segment;
            assert(before.holdings@.dom().contains(local));
            assert(holds_segment(left.segments@, local));
            let at = choose|at: int| 0 <= at < left.segments@.len() && (#[trigger] left.segments@[at]).base == local;
            assert(at != index) by {
                if at == index {
                    assert(segment.slices == 0);
                    crate::allocator::uses::lemma_held_is_unmapped(before, base, base);
                }
            }
            assert forall|other: int| 0 <= other < left.segments@.len() && (#[trigger] left.segments@[other]).base == local implies other == at by {
                if other < at {
                    assert(left.segments@[other].base != left.segments@[at].base);
                } else if at < other {
                    assert(left.segments@[at].base != left.segments@[other].base);
                }
            }
            lemma_segment_is(left.segments@, local, at);
            let now = if at < index {
                at
            } else {
                at - 1
            };
            assert(right.segments@[now] == left.segments@[at]);
            assert forall|other: int| 0 <= other < right.segments@.len() && (#[trigger] right.segments@[other]).base == local implies other == now by {
                assert(right.segments@[other] == left.segments@[from_index(other, index)]);
            }
            lemma_segment_is(right.segments@, local, now);
        }
    }
    assert forall|at: int|
        #![trigger after.heaps@[at]]
        0 <= at < after.heaps@.len() implies cache_held(after.heaps@[at], after.holdings@) && locality_held(
        after.heaps@[at],
        after.holdings@,
        after.slabs@,
    ) by {
        assert(before.heap_ok(at));
        let own = before.heaps@[at];
        assert(cache_held(after.heaps@[at], after.holdings@)) by {
            assert(after.heaps@[at].medium_cache@ == own.medium_cache@);
            assert forall|slot: int|
                #![trigger own.medium_cache@[slot]]
                0 <= slot < crate::allocator::classes::LOCAL_MEDIUM_CLASSES && own.medium_cache@[slot] != 0 implies after.holdings@.dom().contains(
                own.medium_cache@[slot],
            ) && after.holdings@[own.medium_cache@[slot]] == before.holdings@[own.medium_cache@[slot]] by {
                assert(before.holdings@.dom().contains(own.medium_cache@[slot]));
            }
        }
        if at != heap && own.locality_next < own.locality_end {
            assert(before.holdings@.dom().contains(own.locality_segment));
            assert(own.address != left.address) by {
                if at < heap {
                    assert(before.heaps@[at].address != before.heaps@[heap].address);
                } else {
                    assert(before.heaps@[heap].address != before.heaps@[at].address);
                }
            }
        }
    }
    lemma_held_step(middle, after, heap);
}

/// What is left of the segments is in order once one is gone.
#[verifier::spinoff_prover]
#[verifier::rlimit(60)]
proof fn lemma_gone_segments(before: Space, after: Space, heap: int, index: int)
    requires
        before.whole(),
        after.inv(),
        0 <= heap < before.heaps@.len(),
        0 <= index < before.heaps@[heap].segments@.len(),
        before.heaps@[heap].segments@[index].slices <= 1,
        let_go_of(before, after, heap, index),
    ensures
        after.segments_whole(),
{
    let sizes = before.sizes();
    let base = before.heaps@[heap].segments@[index].base;
    lemma_piece(before, heap, index);
    assert(before.segments_held(heap));
    assert(before.segment_held(heap, index));
    assert(before.segment_placed(heap, index));
    assert forall|other: int| 0 <= other < after.heaps@.len() implies #[trigger] after.segments_held(other) by {
        let left = before.heaps@[other];
        let right = after.heaps@[other];
        assert(before.segments_held(other));
        assert forall|at: int| 0 <= at < right.segments@.len() implies {
            let from = if other == heap {
                from_index(at, index)
            } else {
                at
            };
            &&& #[trigger] right.segments@[at] == left.segments@[from]
            &&& right.used_slabs(at) == left.used_slabs(from)
            &&& after.segment_held(other, at)
        } by {
            let from = if other == heap {
                from_index(at, index)
            } else {
                at
            };
            assert(right.segments@[at] == left.segments@[from]);
            assert(before.segment_held(other, from));
            assert(before.segment_placed(other, from));
            assert(before.segment_owned(other, from));
            if left.segments@[from].slices != 0 {
                lemma_held_bounds(before, left.segments@[from].base);
            }
            if other == heap {
                if from < index {
                    assert(left.segments@[from].base != left.segments@[index].base);
                } else {
                    assert(left.segments@[index].base != left.segments@[from].base);
                }
            }
            assert(left.slab_base(from, 0) == left.segments@[from].base) by {
                assert(0 * SLAB_SIZE == 0);
            }
            lemma_pieces_apart(before, heap, index, other, from, 0);
            assert(after.segment_placed(other, at)) by {
                if left.segments@[from].slices != 0 && other != heap {
                    if other < heap {
                        assert(before.heaps@[other].address != before.heaps@[heap].address);
                    } else {
                        assert(before.heaps@[heap].address != before.heaps@[other].address);
                    }
                }
            }
            assert forall|slot: int| 0 <= slot < right.used_slabs(at) implies after.slabs@[#[trigger] right.slab_base(at, slot)].owner
                == right.address && !after.slabs@[right.slab_base(at, slot)].shared by {
                lemma_pieces_apart(before, heap, index, other, from, slot);
                assert(right.slab_base(at, slot) == left.slab_base(from, slot));
            }
        }
        assert(right.segments_ok(&after.slabs, sizes)) by {
            assert forall|at: int, slot: int|
                #![trigger right.slab_base(at, slot)]
                0 <= at < right.segments@.len() && 0 <= slot < right.used_slabs(at) implies small(&right.small, &after.slabs).slab_of_some_class(
                sizes,
                right.slab_base(at, slot),
            ) by {
                let from = if other == heap {
                    from_index(at, index)
                } else {
                    at
                };
                assert(right.segments@[at] == left.segments@[from]);
                lemma_pieces_apart(before, heap, index, other, from, slot);
                let slab = left.slab_base(from, slot);
                assert(right.slab_base(at, slot) == slab);
                assert(after.slabs@.dom().contains(slab));
                lemma_some_class(after, other, slab);
            }
            assert forall|at: int| 0 <= at < right.segments@.len() implies {
                let segment = #[trigger] right.segments@[at];
                &&& segment.slices <= MEDIUM_REGION_SLICE_COUNT
                &&& segment.slices != 0 && segment.base == right.locality_segment ==> segment.base <= right.locality_next
                &&& segment.base + segment.slices * MEDIUM_SLICE_SIZE <= usize::MAX
                &&& segment.base + right.used_slabs(at) * SLAB_SIZE <= usize::MAX
                &&& right.used_slabs(at) <= segment.slices * 2 || segment.slices == 0
            } by {
                let from = if other == heap {
                    from_index(at, index)
                } else {
                    at
                };
                assert(right.segments@[at] == left.segments@[from]);
                assert(before.segment_held(other, from));
                assert(before.segment_placed(other, from));
                if left.segments@[from].slices != 0 {
                    lemma_held_bounds(before, left.segments@[from].base);
                }
            }
        }
        assert forall|l: int, r: int|
            #![trigger right.segments@[l], right.segments@[r]]
            0 <= l < r < right.segments@.len() implies right.segments@[l].base != right.segments@[r].base by {
            if other == heap {
                assert(right.segments@[l] == left.segments@[from_index(l, index)]);
                assert(right.segments@[r] == left.segments@[from_index(r, index)]);
                assert(left.segments@[from_index(l, index)].base != left.segments@[from_index(r, index)].base);
            }
        }
    }
}

/// The blocks in use stay so once a segment is gone that has none.
proof fn lemma_gone(before: Space, after: Space, heap: int, index: int)
    requires
        before.whole(),
        after.inv(),
        0 <= heap < before.heaps@.len(),
        0 <= index < before.heaps@[heap].segments@.len(),
        before.heaps@[heap].segments@[index].slices <= 1,
        let_go_of(before, after, heap, index),
        before.out@[before.heaps@[heap].segments@[index].base].len() == 0,
        piece_of(before.heaps@[heap], index).slabs > 1 ==> before.out@[(before.heaps@[heap].segments@[index].base + SLAB_SIZE) as usize].len()
            == 0,
    ensures
        step_kept(before, after),
{
    let piece = piece_of(before.heaps@[heap], index);
    lemma_piece(before, heap, index);
    lemma_gone_segments(before, after, heap, index);
    assert(uses_kept(before, after)) by {
        assert forall|block: Block| #[trigger] before.uses(block) implies after.uses(block) by {
            match block {
                Block::Small { block, context, class, requested_bytes } => {
                    let slab = segment_of(block as int) as usize;
                    let at = choose|at: int| #[trigger] before.is_entry(at, block, before.sizes()[class] - requested_bytes);
                    assert(before.out@[slab].len() > 0);
                    assert(slab != piece.base && (piece.slabs > 1 ==> slab != piece.base + SLAB_SIZE));
                    assert(after.is_entry(at, block, after.sizes()[class] - requested_bytes));
                },
                _ => {},
            }
        }
    }
    assert(directs_ok(after.records.extras@, after.mapped@, after.slabs@)) by {
        let extras = before.records.extras@;
        assert forall|at: int| 0 <= at < extras.len() && is_direct(#[trigger] extras[at]) implies direct_ok(
            extras[at],
            after.mapped@,
            after.slabs@,
        ) by {
            assert(direct_ok(extras[at], before.mapped@, before.slabs@));
        }
    }
    lemma_records_go_on(before, after);
    assert(after.refs_owned()) by {
        assert forall|at: int, slab: usize| 0 <= at < after.heaps@.len() && #[trigger] after.heap_refers(at, slab) implies {
            &&& after.slabs@.dom().contains(slab)
            &&& after.slabs@[slab].shared || after.slabs@[slab].owner == after.heaps@[at].address
        } by {
            assert(after.heaps@[at].small == before.heaps@[at].small);
            assert(before.heap_refers(at, slab));
            assert(after.heap_ok(at));
            lemma_named_is_there(after, at, slab);
        }
    }
}

/// What a heap's lists name is in the table.
proof fn lemma_named_is_there(space: Space, heap: int, slab: usize)
    requires
        space.inv(),
        0 <= heap < space.heaps@.len(),
        space.heap_refers(heap, slab),
    ensures
        space.slabs@.dom().contains(slab),
{
    let view = space.view_of(heap);
    let sizes = space.sizes();
    let n = sizes.len() as int;
    assert(space.heap_ok(heap));
    lemma_refers_view(&space.heaps@[heap].small, &space.slabs, n, slab);
    if view.inbox.contains(slab) {
        let at = choose|at: int| 0 <= at < view.inbox.len() && view.inbox[at] == slab;
        assert(view.slab_of_some_class(sizes, view.inbox[at]));
    } else {
        let (x, c) = choose|x: bool, c: int| 0 <= c < n && #[trigger] view.names(x, c, slab);
        assert(view.hot_ok(sizes, x, c));
        assert(view.partial_ok(sizes, x, c));
        let hot = view.hot(x, c);
        if view.partial(x, c).contains(slab) {
            let at = choose|at: int| 0 <= at < view.partial(x, c).len() && view.partial(x, c)[at] == slab;
            assert(view.slab_of_class(sizes, x, c, view.partial(x, c)[at]));
        } else if hot.active == slab {
            assert(view.slab_of_class(sizes, x, c, slab));
        } else if hot.cached_first != 0 && segment_of(hot.cached_first as int) == slab {
            assert(view.idle_block(sizes, x, c, hot.cached_first));
        } else {
            assert(view.idle_block(sizes, x, c, hot.cached_second));
        }
    }
}

/// Whether a segment of at most one slice went, and nothing else but what the heap's lists name of it.
pub open spec fn vacated(before: Space, after: Space, heap: int, index: int) -> bool {
    let left = before.heaps@[heap];
    let segment = left.segments@[index];
    &&& same_but_heap(before, after, heap)
    &&& after.domains == before.domains
    &&& after.slabs@ == without_piece(before.slabs@, piece_of(left, index))
    &&& forall|slab: usize| #[trigger] after.slabs@.dom().contains(slab) ==> after.out@[slab] == before.out@[slab]
    &&& lists_kept(before.view_of(heap), after.view_of(heap), after.slabs@.dom(), before.sizes().len() as int)
    &&& after.heaps@[heap].segments@ == left.segments@.remove(index)
    &&& forall|at: int|
        0 <= at < left.segments@.len() && at != index ==> after.heaps@[heap].used_slabs(
            if at < index {
                at
            } else {
                at - 1
            },
        ) == #[trigger] left.used_slabs(at)
    &&& after.heaps@[heap].medium_cache == left.medium_cache
    &&& after.heaps@[heap].retirement == left.retirement
    &&& after.heaps@[heap].track_aggregates == left.track_aggregates
    &&& forall|slab: usize|
        #[trigger] after.slabs@.dom().contains(slab) ==> slab_sums(after.view_of(heap), after.sizes(), slab).live == slab_sums(
            before.view_of(heap),
            before.sizes(),
            slab,
        ).live
    &&& if segment.slices == 0 {
        after.mapped@ == before.mapped@.remove(segment.base) && after.holdings == before.holdings
    } else {
        after.mapped == before.mapped && after.holdings@ == before.holdings@.insert(
            segment.base,
            Holding { domain: left.domain, slices: 1, user: User::Pending },
        )
    }
}

/// No block comes into use where a segment goes.
proof fn lemma_vacated_still(before: Space, after: Space, heap: int, index: int)
    requires
        before.inv(),
        after.inv(),
        vacated(before, after, heap, index),
    ensures
        uses_only(before, after, None),
{
    assert(smalls_less(before, after));
    assert(mediums_less(before.domains@, after.domains@));
    assert(bumps_less(before.bumps@, after.bumps@));
    lemma_still(before, after);
}

impl Space {
    /// Lets go of a heap's segment of at most one slice where no block of it is in use. Its memory is to
    /// be given back: a slice with `settle_chunk`, once it is decommitted.
    #[verifier::spinoff_prover]
    #[verifier::rlimit(80)]
    pub fn release_segment(&mut self, heap: usize, index: usize) -> (release: Option<StorageRelease>)
        requires
            old(self).whole(),
            heap < old(self).heaps@.len(),
            index < old(self).heaps@[heap as int].segments@.len(),
            old(self).heaps@[heap as int].segments@[index as int].slices <= 1,
        ensures
            step_kept(*old(self), *final(self)),
            uses_only(*old(self), *final(self), None),
            ({
                let own = old(self).heaps@[heap as int];
                match prepared(
                    old(self).view_of(heap as int),
                    old(self).sizes(),
                    piece_of(own, index as int),
                    own.address,
                    own.track_aggregates,
                ) {
                    Prepared::Released { release: expected } => release == Some(expected) && vacated(
                        *old(self),
                        *final(self),
                        heap as int,
                        index as int,
                    ),
                    Prepared::Retained { slice } => release is None && *final(self) == *old(self),
                }
            }),
    {
        let ghost before = *self;
        let ghost own = self.heaps@[heap as int];
        let segment: Segment = self.heaps[heap].segments[index];
        proof {
            lemma_piece(before, heap as int, index as int);
            assert(before.segments_held(heap as int));
            assert(before.segment_held(heap as int, index as int));
            assert(before.segment_placed(heap as int, index as int));
            assert(before.heap_ok(heap as int));
        }
        let local: bool = segment.slices != 0 && segment.base == self.heaps[heap].locality_segment;
        let slabs: usize = if segment.slices == 0 {
            1
        } else if local {
            (self.heaps[heap].locality_next - segment.base) / SLAB_SIZE
        } else {
            2
        };
        let whole: usize = segment.committed_bytes / SLAB_SIZE;
        let committed_bytes: usize = if segment.slices == 0 {
            SLAB_SIZE
        } else if whole > 2 {
            2 * SLAB_SIZE
        } else {
            whole * SLAB_SIZE
        };
        let piece: Piece = Piece { base: segment.base, slabs, committed_bytes, direct_mapping: segment.slices == 0 };
        assert(piece == piece_of(own, index as int)) by {
            assert(0 * MEDIUM_SLICE_SIZE == 0);
        }
        let (outcome, drained) = prepare_retired_slice(
            &self.heaps[heap].small,
            &self.slabs,
            &self.tuning,
            piece,
            self.heaps[heap].address,
            self.heaps[heap].track_aggregates,
        );
        let release: StorageRelease = match outcome {
            Prepared::Retained { slice } => {
                proof {
                    lemma_only_now(before);
                }
                return None;
            },
            Prepared::Released { release } => release,
        };
        let second: usize = segment.base + SLAB_SIZE;
        proof {
            lemma_vacant_piece(before, heap as int, piece);
        }
        self.forget_slab(heap, segment.base);
        let ghost first = *self;
        if slabs > 1 {
            self.forget_slab(heap, second);
        }
        let ghost unnamed = *self;
        proof {
            let all = before.slabs@.dom();
            let classes = before.sizes().len() as int;
            lemma_names_slabs(before.view_of(heap as int), before.sizes());
            lemma_forgets_keeps(before.view_of(heap as int), first.view_of(heap as int), all, classes, segment.base);
            if slabs > 1 {
                let rest = all.remove(segment.base);
                lemma_forgets_keeps(first.view_of(heap as int), unnamed.view_of(heap as int), rest, classes, second);
                lemma_lists_kept_on(
                    before.view_of(heap as int),
                    first.view_of(heap as int),
                    unnamed.view_of(heap as int),
                    rest,
                    rest.remove(second),
                    classes,
                );
            }
            assert(unnamed.heaps@[heap as int].segments == own.segments);
            lemma_piece(unnamed, heap as int, index as int);
            assert(piece_of(unnamed.heaps@[heap as int], index as int) == piece);
            assert forall|at: int| 0 <= at < unnamed.heaps@.len() implies !#[trigger] unnamed.heap_refers(at, segment.base) && (slabs > 1
                ==> !unnamed.heap_refers(at, second)) by {
                if at != heap {
                    lemma_foreign(unnamed, heap as int, segment.base, at);
                    if slabs > 1 {
                        lemma_foreign(unnamed, heap as int, second, at);
                    }
                }
            }
        }
        self.slabs.remove(segment.base);
        proof {
            self.out@ = self.out@.remove(segment.base);
            lemma_slab_gone(unnamed, *self, segment.base);
        }
        let ghost one_less = *self;
        if slabs > 1 {
            self.slabs.remove(second);
            proof {
                self.out@ = self.out@.remove(second);
                assert forall|at: int| 0 <= at < one_less.heaps@.len() implies !#[trigger] one_less.heap_refers(at, second) by {
                    assert(!unnamed.heap_refers(at, segment.base));
                }
                lemma_slab_gone(one_less, *self, second);
            }
        }
        let ghost middle = *self;
        self.heaps[heap].segments.remove(index);
        if local {
            self.heaps[heap].locality_next = 0;
            self.heaps[heap].locality_end = 0;
            self.heaps[heap].locality_segment = 0;
        }
        proof {
            if segment.slices == 0 {
                self.mapped@ = self.mapped@.remove(segment.base);
            } else {
                self.holdings@ = self.holdings@.insert(
                    segment.base,
                    Holding { user: User::Pending, ..self.holdings@[segment.base] },
                );
            }
            assert(let_go_of(unnamed, *self, heap as int, index as int));
            lemma_gone_inv(unnamed, middle, *self, heap as int, index as int);
            lemma_gone(unnamed, *self, heap as int, index as int);
            assert forall|at: int| 0 <= at < own.segments@.len() && at != index implies self.heaps@[heap as int].used_slabs(
                if at < index {
                    at
                } else {
                    at - 1
                },
            ) == #[trigger] own.used_slabs(at) by {
                assert(before.segment_held(heap as int, at));
                assert(before.segment_placed(heap as int, at));
                if own.segments@[at].slices != 0 {
                    lemma_held_bounds(before, own.segments@[at].base);
                }
                if at < index {
                    assert(own.segments@[at].base != own.segments@[index as int].base);
                } else {
                    assert(own.segments@[index as int].base != own.segments@[at].base);
                }
            }
            assert forall|slab: usize| #[trigger] self.slabs@.dom().contains(slab) implies slab_sums(
                self.view_of(heap as int),
                self.sizes(),
                slab,
            ).live == slab_sums(before.view_of(heap as int), before.sizes(), slab).live by {
                lemma_same_live(unnamed.view_of(heap as int), self.view_of(heap as int), self.sizes(), slab);
            }
            assert(self.slabs@.dom() =~= if slabs > 1 {
                before.slabs@.dom().remove(segment.base).remove(second)
            } else {
                before.slabs@.dom().remove(segment.base)
            });
            assert(lists_kept(
                before.view_of(heap as int),
                self.view_of(heap as int),
                self.slabs@.dom(),
                before.sizes().len() as int,
            )) by {
                let left = unnamed.view_of(heap as int);
                let right = self.view_of(heap as int);
                assert forall|context: bool, class: int| #[trigger] right.hot(context, class) == left.hot(context, class) by {}
                assert forall|context: bool, class: int| #[trigger] right.partial(context, class) == left.partial(context, class) by {}
            }
            lemma_vacated_still(before, *self, heap as int, index as int);
        }
        Some(release)
    }
}

/// Where the piece counts no block as in use, its slabs have none.
proof fn lemma_vacant_piece(space: Space, heap: int, piece: Piece)
    requires
        space.inv(),
        0 <= heap < space.heaps@.len(),
        1 <= piece.slabs <= 2,
        space.slabs@.dom().contains(piece.base),
        piece.slabs > 1 ==> space.slabs@.dom().contains((piece.base + SLAB_SIZE) as usize),
        piece_live(space.view_of(heap), space.sizes(), piece) == 0,
    ensures
        space.out@[piece.base].len() == 0,
        piece.slabs > 1 ==> space.out@[(piece.base + SLAB_SIZE) as usize].len() == 0,
{
    let view = space.view_of(heap);
    let sizes = space.sizes();
    assert(slab_sums(view, sizes, piece.base).live >= 0);
    lemma_vacant(space, heap, piece.base);
    if piece.slabs > 1 {
        lemma_vacant(space, heap, (piece.base + SLAB_SIZE) as usize);
    }
}

/// A slab's count hangs on nothing but the slab and the lists.
proof fn lemma_same_live(before: SmallHeap, after: SmallHeap, sizes: Seq<usize>, slab: usize)
    requires
        after.classes == before.classes,
        after.context == before.context,
        before.slabs.dom().contains(slab),
        after.slabs.dom().contains(slab),
        after.slabs[slab] == before.slabs[slab],
        before.slabs[slab].address == slab,
        slab as int % (SLAB_SIZE as int) == 0,
        before.slabs[slab].well_formed(),
    ensures
        slab_sums(after, sizes, slab).live == slab_sums(before, sizes, slab).live,
{
    let model = before.slabs[slab];
    let x = marks_context(model.marker);
    let c = marked_class(model.marker);
    let left = live_blocks(before, sizes, x, c, slab);
    let right = live_blocks(after, sizes, x, c, slab);
    lemma_blocks(model.block_size);
    assert forall|index: int| #[trigger] left.contains(index) == right.contains(index) by {
        if model.first() <= index < model.count() {
            lemma_block_in_slab(model, slab, index);
        }
    }
    assert(left =~= right);
}

} // verus!
