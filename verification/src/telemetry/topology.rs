//! What a region looks like from outside.

use vstd::prelude::*;

use crate::allocator::region::PhysicalSliceKind;

verus! {

#[derive(Clone, Copy, Debug, PartialEq, Eq, Structural)]
pub struct DomainSnapshot {
    pub domain_id: usize,
    pub is_default: bool,
}

#[derive(Clone, Copy, Debug, PartialEq, Eq, Structural)]
pub struct PhysicalSegmentSnapshot {
    pub segment_index: usize,
    pub class_index: usize,
    pub context: bool,
    pub live_blocks: usize,
    pub usable_blocks: usize,
    pub utilization_tracked: bool,
}

pub struct PhysicalSliceSnapshot {
    pub slice_index: usize,
    pub kind: PhysicalSliceKind,
    pub span_slices: usize,
    pub owner: usize,
    pub requested_bytes: usize,
    pub usable_bytes: usize,
    pub segments: Vec<PhysicalSegmentSnapshot>,
}

#[verifier::ext_equal]
pub struct SliceModel {
    pub slice_index: usize,
    pub kind: PhysicalSliceKind,
    pub span_slices: usize,
    pub owner: usize,
    pub requested_bytes: usize,
    pub usable_bytes: usize,
    pub segments: Seq<PhysicalSegmentSnapshot>,
}

impl View for PhysicalSliceSnapshot {
    type V = SliceModel;

    open spec fn view(&self) -> SliceModel {
        SliceModel {
            slice_index: self.slice_index,
            kind: self.kind,
            span_slices: self.span_slices,
            owner: self.owner,
            requested_bytes: self.requested_bytes,
            usable_bytes: self.usable_bytes,
            segments: self.segments@,
        }
    }
}

pub struct RegionSnapshot {
    pub domain_id: usize,
    pub region_index: usize,
    pub base_address: usize,
    pub reserved_bytes: usize,
    pub slice_bytes: usize,
    pub used_slices: usize,
    pub free_slices: usize,
    pub used_bitmap: Vec<u64>,
    pub slices: Vec<PhysicalSliceSnapshot>,
}

#[verifier::ext_equal]
pub struct RegionModel {
    pub domain_id: usize,
    pub region_index: usize,
    pub base_address: usize,
    pub reserved_bytes: usize,
    pub slice_bytes: usize,
    pub used_slices: usize,
    pub free_slices: usize,
    pub used_bitmap: Seq<u64>,
    pub slices: Seq<SliceModel>,
}

pub open spec fn slice_models(slices: Seq<PhysicalSliceSnapshot>) -> Seq<SliceModel> {
    Seq::new(slices.len(), |at: int| slices[at]@)
}

impl View for RegionSnapshot {
    type V = RegionModel;

    open spec fn view(&self) -> RegionModel {
        RegionModel {
            domain_id: self.domain_id,
            region_index: self.region_index,
            base_address: self.base_address,
            reserved_bytes: self.reserved_bytes,
            slice_bytes: self.slice_bytes,
            used_slices: self.used_slices,
            free_slices: self.free_slices,
            used_bitmap: self.used_bitmap@,
            slices: slice_models(self.slices@),
        }
    }
}

/// Whether the medium span that starts at `start` goes on at `at`, through slices that nothing
/// else is known of.
pub open spec fn continues(slices: Seq<SliceModel>, start: int, at: int) -> bool {
    &&& 0 <= start < at < slices.len()
    &&& slices[start].kind == PhysicalSliceKind::Medium
    &&& at - start < slices[start].span_slices
    &&& forall|between: int|
        #![trigger slices[between]]
        start < between <= at ==> slices[between].slice_index == slices[start].slice_index + (between - start) && slices[between].kind
            == PhysicalSliceKind::Unknown
}

/// The medium span that goes on at `at`, where one does.
pub open spec fn continued_from(slices: Seq<SliceModel>, before: int, at: int) -> bool {
    exists|start: int| start < before && #[trigger] continues(slices, start, at)
}

pub open spec fn continuation(slices: Seq<SliceModel>, before: int, at: int) -> SliceModel {
    if continued_from(slices, before, at) {
        let start = choose|start: int| start < before && #[trigger] continues(slices, start, at);
        SliceModel { kind: PhysicalSliceKind::MediumContinuation, owner: slices[start].owner, ..slices[at] }
    } else {
        slices[at]
    }
}

/// The slices with those marked that medium spans go on in.
pub open spec fn with_continuations(slices: Seq<SliceModel>) -> Seq<SliceModel> {
    Seq::new(slices.len(), |at: int| continuation(slices, slices.len() as int, at))
}

/// A slice continues one span at most.
proof fn lemma_one_start(slices: Seq<SliceModel>, left: int, right: int, at: int)
    requires
        continues(slices, left, at),
        continues(slices, right, at),
    ensures
        left == right,
{
    if left < right {
        assert(slices[right].kind == PhysicalSliceKind::Unknown);
    } else if right < left {
        assert(slices[left].kind == PhysicalSliceKind::Unknown);
    }
}

/// The slice as the span that starts at `start` marks it.
pub open spec fn marked(slices: Seq<SliceModel>, start: int, at: int) -> SliceModel {
    if continues(slices, start, at) {
        SliceModel { kind: PhysicalSliceKind::MediumContinuation, owner: slices[start].owner, ..slices[at] }
    } else {
        slices[at]
    }
}

proof fn lemma_continuation(slices: Seq<SliceModel>, before: int, at: int)
    ensures
        forall|start: int|
            start < before && #[trigger] continues(slices, start, at) ==> continuation(slices, before, at) == marked(slices, start, at),
        (forall|start: int| start < before ==> !#[trigger] continues(slices, start, at)) ==> continuation(slices, before, at)
            == slices[at],
{
    assert forall|start: int| start < before && #[trigger] continues(slices, start, at) implies continuation(slices, before, at)
        == marked(slices, start, at) by {
        assert(continued_from(slices, before, at));
        let chosen = choose|start: int| start < before && #[trigger] continues(slices, start, at);
        lemma_one_start(slices, start, chosen, at);
    }
}

/// Marks the slices that the span at `index` goes on in.
fn mark_span(slices: &mut Vec<PhysicalSliceSnapshot>, index: usize)
    requires
        index < old(slices)@.len(),
        old(slices)@[index as int].kind == PhysicalSliceKind::Medium,
    ensures
        final(slices)@.len() == old(slices)@.len(),
        forall|at: int|
            0 <= at < old(slices)@.len() ==> #[trigger] final(slices)@[at]@ == marked(slice_models(old(slices)@), index as int, at),
{
    let ghost first = slice_models(slices@);
    let start_slice: usize = slices[index].slice_index;
    let span_slices: usize = slices[index].span_slices;
    let owner: usize = slices[index].owner;
    let mut offset: usize = 1;
    while offset < span_slices
        invariant_except_break
            1 <= offset,
            forall|at: int|
                0 <= at < first.len() ==> #[trigger] slices@[at]@ == (if index < at < index + offset {
                    marked(first, index as int, at)
                } else {
                    first[at]
                }),
            forall|at: int| index < at < index + offset && at < first.len() ==> #[trigger] continues(first, index as int, at),
            offset <= first.len() - index,
        invariant
            first == slice_models(old(slices)@),
            slices@.len() == first.len(),
            index < first.len(),
            first[index as int].kind == PhysicalSliceKind::Medium,
            first[index as int].slice_index == start_slice,
            first[index as int].span_slices == span_slices,
            first[index as int].owner == owner,
        ensures
            forall|at: int| 0 <= at < first.len() ==> #[trigger] slices@[at]@ == marked(first, index as int, at),
        decreases span_slices - offset,
    {
        let ghost place = index + offset;
        if offset >= slices.len() - index {
            break ;
        }
        let at: usize = index + offset;
        assert(slices@[at as int]@ == first[at as int]);
        let unknown: bool = match slices[at].kind {
            PhysicalSliceKind::Unknown => true,
            _ => false,
        };
        if slices[at].slice_index < start_slice || slices[at].slice_index - start_slice != offset || !unknown {
            proof {
                assert forall|other: int| 0 <= other < first.len() implies #[trigger] slices@[other]@ == marked(
                    first,
                    index as int,
                    other,
                ) by {
                    if continues(first, index as int, other) && other >= at {
                        assert(first[at as int].slice_index == start_slice + offset);
                    }
                }
            }
            break ;
        }
        proof {
            assert(continues(first, index as int, at as int)) by {
                assert forall|between: int|
                    #![trigger first[between]]
                    index < between <= at implies first[between].slice_index == first[index as int].slice_index + (between - index)
                    && first[between].kind == PhysicalSliceKind::Unknown by {
                    if between < at {
                        assert(continues(first, index as int, between));
                    }
                }
            }
        }
        let ghost before = slices@;
        let mut slice = slices.remove(at);
        slice.kind = PhysicalSliceKind::MediumContinuation;
        slice.owner = owner;
        slices.insert(at, slice);
        proof {
            assert forall|other: int| 0 <= other < first.len() && other != at implies #[trigger] slices@[other] == before[other] by {}
        }
        offset = offset + 1;
    }
}

/// Marks the slices that medium spans go on in.
pub fn mark_continuations(slices: &mut Vec<PhysicalSliceSnapshot>)
    ensures
        slice_models(final(slices)@) == with_continuations(slice_models(old(slices)@)),
{
    let ghost first = slice_models(slices@);
    let mut index: usize = 0;
    proof {
        assert forall|at: int| 0 <= at < first.len() implies #[trigger] slices@[at]@ == continuation(first, 0, at) by {
            lemma_continuation(first, 0, at);
        }
    }
    while index < slices.len()
        invariant
            first == slice_models(old(slices)@),
            slices@.len() == first.len(),
            index <= first.len(),
            forall|at: int| 0 <= at < first.len() ==> #[trigger] slices@[at]@ == continuation(first, index as int, at),
        decreases first.len() - index,
    {
        let ghost current = slice_models(slices@);
        let medium: bool = match slices[index].kind {
            PhysicalSliceKind::Medium => true,
            _ => false,
        };
        proof {
            assert(slices@[index as int]@ == continuation(first, index as int, index as int));
            lemma_continuation(first, index as int, index as int);
            if medium {
                assert(first[index as int].kind == PhysicalSliceKind::Medium);
                assert forall|at: int| index <= at < first.len() implies #[trigger] current[at] == first[at] by {
                    assert(slices@[at]@ == continuation(first, index as int, at));
                    lemma_continuation(first, index as int, at);
                    assert forall|start: int| start < index implies !#[trigger] continues(first, start, at) by {
                        if continues(first, start, at) && index < at {
                            assert(first[index as int].kind == PhysicalSliceKind::Unknown);
                        }
                        if continues(first, start, at) && index == at {
                            assert(first[at].kind == PhysicalSliceKind::Unknown);
                        }
                    }
                }
                assert(current[index as int] == first[index as int]);
            }
        }
        if medium {
            mark_span(slices, index);
        }
        proof {
            assert forall|at: int| 0 <= at < first.len() implies #[trigger] slices@[at]@ == continuation(first, index + 1, at) by {
                lemma_continuation(first, index as int, at);
                lemma_continuation(first, index + 1, at);
                assert(current[at] == continuation(first, index as int, at));
                if medium {
                    assert(continues(current, index as int, at) == continues(first, index as int, at)) by {
                        assert forall|between: int| index <= between < first.len() implies #[trigger] current[between] == first[between] by {}
                        if continues(current, index as int, at) {
                            assert forall|between: int|
                                #![trigger first[between]]
                                index < between <= at implies first[between].slice_index == first[index as int].slice_index + (between
                                - index) && first[between].kind == PhysicalSliceKind::Unknown by {
                                assert(current[between] == first[between]);
                            }
                        }
                        if continues(first, index as int, at) {
                            assert forall|between: int|
                                #![trigger current[between]]
                                index < between <= at implies current[between].slice_index == current[index as int].slice_index + (between
                                - index) && current[between].kind == PhysicalSliceKind::Unknown by {
                                assert(current[between] == first[between]);
                            }
                        }
                    }
                    if continues(first, index as int, at) {
                        assert(current[at] == first[at]);
                        assert(current[index as int] == first[index as int]);
                    }
                } else {
                    assert(!continues(first, index as int, at)) by {
                        if continues(first, index as int, at) {
                            assert(first[index as int].kind == PhysicalSliceKind::Medium);
                            assert forall|start: int| start < index implies !#[trigger] continues(first, start, index as int) by {
                                if continues(first, start, index as int) {
                                    assert(first[index as int].kind == PhysicalSliceKind::Unknown);
                                }
                            }
                        }
                    }
                }
                if exists|start: int| start < index && #[trigger] continues(first, start, at) {
                    let start = choose|start: int| start < index && #[trigger] continues(first, start, at);
                    assert(continuation(first, index as int, at) == marked(first, start, at));
                    assert(continuation(first, index + 1, at) == marked(first, start, at));
                    if continues(first, index as int, at) {
                        lemma_one_start(first, start, index as int, at);
                    }
                } else if !continues(first, index as int, at) {
                    assert forall|start: int| start < index + 1 implies !#[trigger] continues(first, start, at) by {}
                }
            }
        }
        index = index + 1;
    }
    proof {
        assert(slice_models(slices@) =~= with_continuations(first));
    }
}

/// A slice is marked exactly where a medium span goes on in it: it follows the span's first slice at less than
/// the span's length, and nothing else is known of it or of the slices between. It then has the owner of the
/// span. Every other slice stays as it is.
pub proof fn law_spans_go_on_in_the_slices_behind_them(slices: Seq<SliceModel>, start: int, at: int)
    requires
        0 <= at < slices.len(),
    ensures
        ({
            let now = with_continuations(slices)[at];
            let goes_on = 0 <= start < at && slices[start].kind == PhysicalSliceKind::Medium && at - start < slices[start].span_slices && (
            forall|between: int|
                #![trigger slices[between]]
                start < between <= at ==> slices[between].kind == PhysicalSliceKind::Unknown && slices[between].slice_index
                    == slices[start].slice_index + between - start);
            &&& with_continuations(slices).len() == slices.len()
            &&& goes_on ==> now.kind == PhysicalSliceKind::MediumContinuation && now.owner == slices[start].owner
            &&& slices[at].kind != PhysicalSliceKind::Unknown ==> now == slices[at]
            &&& now.slice_index == slices[at].slice_index && now.span_slices == slices[at].span_slices
            &&& now.requested_bytes == slices[at].requested_bytes && now.usable_bytes == slices[at].usable_bytes
            &&& now.segments == slices[at].segments
            &&& now != slices[at] ==> exists|first: int|
                0 <= first < at && (#[trigger] slices[first]).kind == PhysicalSliceKind::Medium && at - first < slices[first].span_slices
                    && now.owner == slices[first].owner
        }),
{
    let all = slices.len() as int;
    lemma_continuation(slices, all, at);
    let goes_on = 0 <= start < at && slices[start].kind == PhysicalSliceKind::Medium && at - start < slices[start].span_slices && (
    forall|between: int|
        #![trigger slices[between]]
        start < between <= at ==> slices[between].kind == PhysicalSliceKind::Unknown && slices[between].slice_index
            == slices[start].slice_index + between - start);
    if goes_on {
        assert(continues(slices, start, at));
    }
    if with_continuations(slices)[at] != slices[at] {
        let first = choose|first: int| first < all && #[trigger] continues(slices, first, at);
        assert(continues(slices, first, at));
        assert(slices[first].kind == PhysicalSliceKind::Medium);
        assert(with_continuations(slices)[at] == marked(slices, first, at));
    }
    if slices[at].kind != PhysicalSliceKind::Unknown {
        assert forall|first: int| first < all implies !#[trigger] continues(slices, first, at) by {}
    }
}

} // verus!
