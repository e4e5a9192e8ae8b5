//! The segments of the heaps of a space, and the slabs that were cut from them.

use vstd::prelude::*;

use crate::allocator::classes::{MEDIUM_REGION_SLICE_COUNT, MEDIUM_SLICE_SIZE};
use crate::allocator::frames::alike_slab;
use crate::allocator::heaps::{HeapState, Segment, SlabRequest};
use crate::allocator::refills::{lemma_held_bounds, locality_moved, refill_pending, refill_reply, same_but_heap};
use crate::allocator::slab::{SlabModel, SLAB_SIZE};
use crate::allocator::small::{marked_class, marks_context, small};
use crate::allocator::space::{classed, Holding, Space, User};

verus! {

/// Whether the heap's segments are the same, and the one that slabs are cut from stands where it stood.
pub open spec fn locality_kept(before: HeapState, after: HeapState) -> bool {
    &&& after.segments@ == before.segments@
    &&& after.locality_segment == before.locality_segment
    &&& after.locality_next == before.locality_next
    &&& after.locality_end == before.locality_end
}

/// Whether the heaps' segments are as they were, and heaps that joined have none.
pub open spec fn localities_kept(before: Seq<HeapState>, after: Seq<HeapState>) -> bool {
    &&& before.len() <= after.len()
    &&& forall|heap: int|
        0 <= heap < after.len() ==> if heap < before.len() {
            locality_kept(before[heap], #[trigger] after[heap])
        } else {
            after[heap].segments@.len() == 0
        }
}

/// Whether every slab stays a slab of its class.
pub open spec fn classes_kept(before: Map<usize, SlabModel>, after: Map<usize, SlabModel>) -> bool {
    forall|slab: usize|
        #[trigger] before.dom().contains(slab) ==> after.dom().contains(slab) && alike_slab(before[slab], after[slab])
}

/// Whether every segment's span is held as it was.
pub open spec fn segments_stay(before: Map<usize, Holding>, after: Map<usize, Holding>) -> bool {
    forall|base: usize|
        #[trigger] before.dom().contains(base) && before[base].user is Segment ==> after.dom().contains(base) && after[base]
            == before[base]
}

/// Whether every segment's span is held still, every slab's mapping is there, and the heaps keep
/// their names and domains.
pub open spec fn grounds_kept(before: Space, after: Space) -> bool {
    &&& segments_stay(before.holdings@, after.holdings@)
    &&& forall|slab: usize|
        #[trigger] before.mapped@.dom().contains(slab) && before.slabs@.dom().contains(slab) ==> after.mapped@.dom().contains(slab)
            && after.mapped@[slab] == before.mapped@[slab]
    &&& forall|heap: int|
        0 <= heap < before.heaps@.len() ==> (#[trigger] after.heaps@[heap]).address == before.heaps@[heap].address
            && after.heaps@[heap].domain == before.heaps@[heap].domain
}

impl Space {
    /// Whether the segment's span is held for its heap, or its mapping is there.
    pub open spec fn segment_placed(&self, heap: int, index: int) -> bool {
        let own = self.heaps@[heap];
        let segment = own.segments@[index];
        if segment.slices == 0 {
            self.mapped@.dom().contains(segment.base) && self.mapped@[segment.base] == SLAB_SIZE
        } else {
            self.holdings@.dom().contains(segment.base) && self.holdings@[segment.base] == (Holding {
                domain: own.domain,
                slices: segment.slices as int,
                user: User::Segment { heap: own.address },
            })
        }
    }

    /// Whether the slabs that were cut from the segment are the heap's own.
    pub open spec fn segment_owned(&self, heap: int, index: int) -> bool {
        let own = self.heaps@[heap];
        forall|at: int|
            0 <= at < own.used_slabs(index) ==> self.slabs@[#[trigger] own.slab_base(index, at)].owner == own.address
                && !self.slabs@[own.slab_base(index, at)].shared
    }

    /// Whether at least one slab was cut from the segment, and the end of the one that slabs are cut
    /// from is where that ends.
    pub open spec fn segment_held(&self, heap: int, index: int) -> bool {
        let own = self.heaps@[heap];
        let segment = own.segments@[index];
        &&& own.used_slabs(index) >= 1
        &&& segment.slices != 0 && segment.base == own.locality_segment ==> own.locality_end == segment.base + segment.slices
            * MEDIUM_SLICE_SIZE
        &&& self.segment_placed(heap, index)
        &&& self.segment_owned(heap, index)
    }

    /// Whether the slabs of the heap's segments are there, and no two segments start at one place.
    pub open spec fn segments_held(&self, heap: int) -> bool {
        let segments = self.heaps@[heap].segments@;
        &&& self.heaps@[heap].segments_ok(&self.slabs, self.sizes())
        &&& forall|index: int| 0 <= index < segments.len() ==> #[trigger] self.segment_held(heap, index)
        &&& forall|left: int, right: int|
            #![trigger segments[left], segments[right]]
            0 <= left < right < segments.len() ==> segments[left].base != segments[right].base
    }

    /// Whether the slabs of every heap's segments are there.
    pub open spec fn segments_whole(&self) -> bool {
        forall|heap: int| 0 <= heap < self.heaps@.len() ==> #[trigger] self.segments_held(heap)
    }
}

/// A slab of the table is a slab of some class.
pub proof fn lemma_some_class(space: Space, heap: int, slab: usize)
    requires
        space.inv(),
        space.slabs@.dom().contains(slab),
    ensures
        small(&space.heaps@[heap].small, &space.slabs).slab_of_some_class(space.sizes(), slab),
{
    let model = space.slabs@[slab];
    assert(classed(model, space.sizes()));
    assert(space.view_of(heap).slab_of_class(space.sizes(), marks_context(model.marker), marked_class(model.marker), slab));
}

/// The segments stay in order where they stay, and the slabs with them.
pub proof fn lemma_segments_go_on(before: Space, after: Space)
    requires
        before.segments_whole(),
        after.inv(),
        after.sizes() == before.sizes(),
        localities_kept(before.heaps@, after.heaps@),
        classes_kept(before.slabs@, after.slabs@),
        grounds_kept(before, after),
    ensures
        after.segments_whole(),
{
    assert forall|heap: int| 0 <= heap < after.heaps@.len() implies #[trigger] after.segments_held(heap) by {
        let own = after.heaps@[heap];
        if heap < before.heaps@.len() {
            let old_own = before.heaps@[heap];
            assert(before.segments_held(heap));
            assert(locality_kept(old_own, own));
            assert forall|index: int| 0 <= index < own.segments@.len() implies own.used_slabs(index) == old_own.used_slabs(index)
                && #[trigger] after.segment_held(heap, index) by {
                assert(before.segment_held(heap, index));
                assert(before.segment_placed(heap, index) && before.segment_owned(heap, index));
                assert(own.slab_base(index, 0) == own.segments@[index].base) by {
                    assert(0 * SLAB_SIZE == 0);
                }
                assert(small(&old_own.small, &before.slabs).slab_of_some_class(before.sizes(), old_own.slab_base(index, 0)));
                assert forall|at: int| 0 <= at < own.used_slabs(index) implies after.slabs@[#[trigger] own.slab_base(index, at)].owner
                    == own.address && !after.slabs@[own.slab_base(index, at)].shared by {
                    let slab = old_own.slab_base(index, at);
                    assert(small(&old_own.small, &before.slabs).slab_of_some_class(before.sizes(), slab));
                    assert(before.slabs@.dom().contains(slab));
                }
            }
            assert forall|index: int| 0 <= index < own.segments@.len() implies {
                let segment = #[trigger] own.segments@[index];
                &&& segment.slices <= MEDIUM_REGION_SLICE_COUNT
                &&& segment.slices != 0 && segment.base == own.locality_segment ==> segment.base <= own.locality_next
                &&& segment.base + segment.slices * MEDIUM_SLICE_SIZE <= usize::MAX
                &&& segment.base + own.used_slabs(index) * SLAB_SIZE <= usize::MAX
                &&& own.used_slabs(index) <= segment.slices * 2 || segment.slices == 0
            } by {
                assert(old_own.segments@[index] == own.segments@[index]);
                assert(after.segment_held(heap, index));
            }
            assert forall|index: int, at: int|
                #![trigger own.slab_base(index, at)]
                0 <= index < own.segments@.len() && 0 <= at < own.used_slabs(index) implies small(&own.small, &after.slabs).slab_of_some_class(
                after.sizes(),
                own.slab_base(index, at),
            ) by {
                assert(after.segment_held(heap, index));
                let slab = old_own.slab_base(index, at);
                assert(small(&old_own.small, &before.slabs).slab_of_some_class(before.sizes(), slab));
                assert(before.slabs@.dom().contains(slab));
                lemma_some_class(after, heap, slab);
            }
        } else {
            assert(own.segments@.len() == 0);
        }
    }
}

/// Where a slab of a heap lies after a new one came in: it is the new one, or lay there before.
proof fn lemma_slab_places(before: Space, after: Space, heap: int, request: SlabRequest, answer: usize, slab: usize, index: int, at: int)
    requires
        before.inv(),
        before.segments_held(heap),
        0 <= heap < before.heaps@.len(),
        refill_pending(before, heap, request),
        slab == (match request {
            SlabRequest::CommitSlab { slab } => slab,
            SlabRequest::CommitSegment { base, slices } => base,
            SlabRequest::MapSlab => answer,
        }),
        locality_moved(before.heaps@[heap], after.heaps@[heap], request, answer),
        0 <= index < after.heaps@[heap].segments@.len(),
        0 <= at < after.heaps@[heap].used_slabs(index),
        index < before.heaps@[heap].segments@.len() ==> after.heaps@[heap].used_slabs(index) == before.heaps@[heap].used_slabs(index) + (
        if request is CommitSlab && before.heaps@[heap].segments@[index].slices != 0 && before.heaps@[heap].segments@[index].base
            == before.heaps@[heap].locality_segment {
            1int
        } else {
            0
        }),
        index >= before.heaps@[heap].segments@.len() ==> after.heaps@[heap].used_slabs(index) == 1,
    ensures
        ({
            let left = before.heaps@[heap];
            let here = after.heaps@[heap].slab_base(index, at);
            ||| here == slab
            ||| index < left.segments@.len() && at < left.used_slabs(index) && here == left.slab_base(index, at)
                && before.slabs@.dom().contains(here)
        }),
{
    let left = before.heaps@[heap];
    let right = after.heaps@[heap];
    assert(before.heap_ok(heap));
    let here = right.slab_base(index, at);
    if index < left.segments@.len() && at < left.used_slabs(index) {
        assert(here == left.slab_base(index, at));
        assert(small(&left.small, &before.slabs).slab_of_some_class(before.sizes(), left.slab_base(index, at)));
    } else if index < left.segments@.len() {
        let segment = left.segments@[index];
        assert(left.slab_base(index, 0) == segment.base) by {
            assert(0 * SLAB_SIZE == 0);
        }
        assert(before.segment_held(heap, index));
        assert(small(&left.small, &before.slabs).slab_of_some_class(before.sizes(), left.slab_base(index, 0)));
        crate::allocator::blocks::lemma_at_address(&before.slabs, segment.base);
        assert((left.locality_next - segment.base) % (SLAB_SIZE as int) == 0) by (nonlinear_arith)
            requires
                left.locality_next as int % (SLAB_SIZE as int) == 0,
                segment.base as int % (SLAB_SIZE as int) == 0,
                SLAB_SIZE == 32768,
        ;
        assert(at * SLAB_SIZE == left.locality_next - segment.base) by (nonlinear_arith)
            requires
                at == (left.locality_next - segment.base) / (SLAB_SIZE as int),
                (left.locality_next - segment.base) % (SLAB_SIZE as int) == 0,
                SLAB_SIZE == 32768,
        ;
        assert(here == slab);
    } else {
        assert(at == 0);
        assert(here == slab) by {
            assert(0 * SLAB_SIZE == 0);
        }
    }
}

/// A new slab of a heap keeps the segments in order.
#[verifier::rlimit(60)]
#[verifier::spinoff_prover]
pub proof fn lemma_segments_moved(before: Space, after: Space, heap: int, request: SlabRequest, answer: usize, slab: usize)
    requires
        before.inv(),
        before.segments_whole(),
        after.inv(),
        0 <= heap < before.heaps@.len(),
        refill_pending(before, heap, request),
        refill_reply(before, request, Some(answer)),
        slab == (match request {
            SlabRequest::CommitSlab { slab } => slab,
            SlabRequest::CommitSegment { base, slices } => base,
            SlabRequest::MapSlab => answer,
        }),
        same_but_heap(before, after, heap),
        locality_moved(before.heaps@[heap], after.heaps@[heap], request, answer),
        !before.slabs@.dom().contains(slab),
        after.slabs@.remove(slab) == before.slabs@,
        after.slabs@.dom().contains(slab),
        after.slabs@[slab].owner == before.heaps@[heap].address,
        !after.slabs@[slab].shared,
        grounds_kept(before, after),
        match request {
            SlabRequest::CommitSlab { slab } => true,
            SlabRequest::CommitSegment { base, slices } => after.holdings@.dom().contains(base) && after.holdings@[base] == (Holding {
                domain: before.heaps@[heap].domain,
                slices: slices as int,
                user: User::Segment { heap: before.heaps@[heap].address },
            }),
            SlabRequest::MapSlab => after.mapped@.dom().contains(answer) && after.mapped@[answer] == SLAB_SIZE,
        },
    ensures
        after.segments_whole(),
{
    assert forall|other: usize| #[trigger] before.slabs@.dom().contains(other) implies after.slabs@.dom().contains(other)
        && after.slabs@[other] == before.slabs@[other] by {
        assert(after.slabs@.remove(slab).dom().contains(other));
        assert(after.slabs@.remove(slab)[other] == before.slabs@[other]);
    }
    let left = before.heaps@[heap];
    let right = after.heaps@[heap];
    assert(before.segments_held(heap));
    assert(before.heap_ok(heap));
    // What was there lies where it lay, and only the segment that slabs are cut from gets one more.
    assert forall|index: int| 0 <= index < left.segments@.len() implies {
        &&& right.segments@[index].base == left.segments@[index].base
        &&& right.segments@[index].slices == left.segments@[index].slices
        &&& right.used_slabs(index) == left.used_slabs(index) + (if request is CommitSlab && left.segments@[index].slices != 0
            && left.segments@[index].base == left.locality_segment {
            1int
        } else {
            0
        })
        &&& #[trigger] before.segment_held(heap, index)
    } by {
        assert(before.segment_held(heap, index));
        let segment = left.segments@[index];
        if segment.slices != 0 && request is CommitSegment {
            assert(left.slab_base(index, 0) == segment.base) by {
                assert(0 * SLAB_SIZE == 0);
            }
            assert(small(&left.small, &before.slabs).slab_of_some_class(before.sizes(), left.slab_base(index, 0)));
            assert(segment.base != slab);
            if segment.base == left.locality_segment {
                assert(left.locality_next == left.locality_end);
                assert((left.locality_next - segment.base) / (SLAB_SIZE as int) == segment.slices * 2) by (nonlinear_arith)
                    requires
                        left.locality_next == segment.base + segment.slices * MEDIUM_SLICE_SIZE,
                        MEDIUM_SLICE_SIZE == 65536,
                        SLAB_SIZE == 32768,
                ;
            }
        }
        if request is CommitSlab && segment.slices != 0 && segment.base == left.locality_segment {
            assert((left.locality_next + SLAB_SIZE - segment.base) / (SLAB_SIZE as int) == (left.locality_next - segment.base) / (
            SLAB_SIZE as int) + 1) by (nonlinear_arith)
                requires
                    SLAB_SIZE == 32768,
            ;
        }
    }
    if !(request is CommitSlab) {
        let last = left.segments@.len() as int;
        assert(right.segments@[last].base == slab);
        assert(right.used_slabs(last) == 1) by {
            if request is CommitSegment {
                assert((right.locality_next - slab) / (SLAB_SIZE as int) == 1) by (nonlinear_arith)
                    requires
                        right.locality_next == slab + SLAB_SIZE,
                        SLAB_SIZE == 32768,
                ;
            }
        }
    }
    assert forall|index: int| 0 <= index < right.segments@.len() implies #[trigger] after.segment_held(heap, index) by {
        if index < left.segments@.len() {
            assert(before.segment_held(heap, index));
            assert(before.segment_placed(heap, index) && before.segment_owned(heap, index));
            assert(left.slab_base(index, 0) == left.segments@[index].base) by {
                assert(0 * SLAB_SIZE == 0);
            }
            assert(small(&left.small, &before.slabs).slab_of_some_class(before.sizes(), left.slab_base(index, 0)));
        }
        assert forall|at: int| 0 <= at < right.used_slabs(index) implies after.slabs@[#[trigger] right.slab_base(index, at)].owner
            == right.address && !after.slabs@[right.slab_base(index, at)].shared by {
            lemma_slab_places(before, after, heap, request, answer, slab, index, at);
            if right.slab_base(index, at) != slab {
                assert(before.slabs@[left.slab_base(index, at)].owner == left.address);
            }
        }
    }
    assert(right.segments_ok(&after.slabs, after.sizes())) by {
        assert forall|index: int| 0 <= index < right.segments@.len() implies {
            let segment = #[trigger] right.segments@[index];
            &&& segment.slices <= MEDIUM_REGION_SLICE_COUNT
            &&& segment.slices != 0 && segment.base == right.locality_segment ==> segment.base <= right.locality_next
            &&& segment.base + segment.slices * MEDIUM_SLICE_SIZE <= usize::MAX
            &&& segment.base + right.used_slabs(index) * SLAB_SIZE <= usize::MAX
            &&& right.used_slabs(index) <= segment.slices * 2 || segment.slices == 0
        } by {
            let segment = right.segments@[index];
            assert(after.segment_held(heap, index));
            if index < left.segments@.len() {
                assert(left.segments@[index].base == segment.base);
                if request is CommitSlab && segment.slices != 0 && segment.base == left.locality_segment {
                    crate::allocator::heaps::lemma_next_multiple(
                        left.locality_next as int,
                        left.locality_end as int,
                        SLAB_SIZE as int,
                    );
                    let used = right.used_slabs(index);
                    assert(used * SLAB_SIZE <= right.locality_next - segment.base) by (nonlinear_arith)
                        requires
                            used == (right.locality_next - segment.base) / (SLAB_SIZE as int),
                            SLAB_SIZE == 32768,
                    ;
                    assert(used <= segment.slices * 2) by (nonlinear_arith)
                        requires
                            used * SLAB_SIZE <= segment.slices * MEDIUM_SLICE_SIZE,
                            SLAB_SIZE == 32768,
                            MEDIUM_SLICE_SIZE == 65536,
                    ;
                }
            } else {
                crate::allocator::blocks::lemma_at_address(&after.slabs, slab);
                match request {
                    SlabRequest::CommitSegment { base, slices } => {
                        lemma_held_bounds(before, base);
                    },
                    _ => {},
                }
            }
        }
        assert forall|index: int, at: int|
            #![trigger right.slab_base(index, at)]
            0 <= index < right.segments@.len() && 0 <= at < right.used_slabs(index) implies small(&right.small, &after.slabs).slab_of_some_class(
            after.sizes(),
            right.slab_base(index, at),
        ) by {
            let here = right.slab_base(index, at);
            if index < left.segments@.len() {
                assert(before.segment_held(heap, index));
            }
            lemma_slab_places(before, after, heap, request, answer, slab, index, at);
            lemma_some_class(after, heap, here);
        }
    }
    assert forall|other: int| 0 <= other < after.heaps@.len() implies #[trigger] after.segments_held(other) by {
        if other == heap {
            assert forall|l: int, r: int| #![trigger right.segments@[l], right.segments@[r]] 0 <= l < r < right.segments@.len() implies right.segments@[l].base
                != right.segments@[r].base by {
                assert(before.segment_held(heap, l));
                assert(left.slab_base(l, 0) == left.segments@[l].base) by {
                    assert(0 * SLAB_SIZE == 0);
                }
                assert(small(&left.small, &before.slabs).slab_of_some_class(before.sizes(), left.slab_base(l, 0)));
                if r < left.segments@.len() {
                    assert(before.segment_held(heap, r));
                    assert(left.segments@[l].base != left.segments@[r].base);
                }
            }
        } else {
            let own = after.heaps@[other];
            assert(before.segments_held(other));
            assert(own == before.heaps@[other]);
            assert forall|index: int| 0 <= index < own.segments@.len() implies #[trigger] after.segment_held(other, index) by {
                assert(before.segment_held(other, index));
                assert(before.segment_placed(other, index) && before.segment_owned(other, index));
                assert(own.slab_base(index, 0) == own.segments@[index].base) by {
                    assert(0 * SLAB_SIZE == 0);
                }
                assert(small(&own.small, &before.slabs).slab_of_some_class(before.sizes(), own.slab_base(index, 0)));
                assert forall|at: int| 0 <= at < own.used_slabs(index) implies after.slabs@[#[trigger] own.slab_base(index, at)].owner
                    == own.address && !after.slabs@[own.slab_base(index, at)].shared by {
                    assert(small(&own.small, &before.slabs).slab_of_some_class(before.sizes(), own.slab_base(index, at)));
                    assert(before.slabs@.dom().contains(own.slab_base(index, at)));
                }
            }
            assert forall|index: int, at: int|
                #![trigger own.slab_base(index, at)]
                0 <= index < own.segments@.len() && 0 <= at < own.used_slabs(index) implies small(&own.small, &after.slabs).slab_of_some_class(
                after.sizes(),
                own.slab_base(index, at),
            ) by {
                assert(small(&own.small, &before.slabs).slab_of_some_class(before.sizes(), own.slab_base(index, at)));
                assert(before.slabs@.dom().contains(own.slab_base(index, at)));
                lemma_some_class(after, other, own.slab_base(index, at));
            }
        }
    }
}

} // verus!
