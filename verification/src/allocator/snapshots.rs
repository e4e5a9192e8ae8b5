//! Regions and domains as telemetry shows them.

use vstd::prelude::*;

use crate::allocator::classes::{MEDIUM_REGION_SIZE, MEDIUM_REGION_SLICE_COUNT, MEDIUM_SLICE_SIZE};
use crate::allocator::domains::DomainState;
use crate::allocator::region::{PhysicalSegment, PhysicalSlice, PhysicalSliceKind, Region};
use crate::allocator::slices::slice_is_used;
use crate::sorting::{order_by_key, sorts};
use crate::telemetry::topology::{
    mark_continuations, slice_models, with_continuations, DomainSnapshot, PhysicalSegmentSnapshot,
    PhysicalSliceSnapshot, RegionModel, RegionSnapshot, SliceModel,
};

verus! {

/// The slab that a half of a slice holds, where it holds one.
pub open spec fn segment_shown(segment: PhysicalSegment, index: usize) -> Seq<PhysicalSegmentSnapshot> {
    match segment.class_index {
        None => Seq::empty(),
        Some(class_index) => seq![
            PhysicalSegmentSnapshot {
                segment_index: index,
                class_index,
                context: segment.context,
                live_blocks: segment.live_blocks,
                usable_blocks: segment.usable_blocks,
                utilization_tracked: segment.utilization_tracked,
            },
        ],
    }
}

pub open spec fn slice_shown(region: &Region, slice: int) -> SliceModel {
    let physical = region.physical@[slice];
    let medium = physical.kind == PhysicalSliceKind::Medium;
    SliceModel {
        slice_index: slice as usize,
        kind: physical.kind,
        span_slices: physical.span,
        owner: physical.owner,
        requested_bytes: if medium {
            region.allocations@[slice].requested_bytes
        } else {
            0
        },
        usable_bytes: if medium {
            region.allocations@[slice].usable_bytes
        } else {
            0
        },
        segments: segment_shown(physical.first, 0) + segment_shown(physical.second, 1),
    }
}

/// The slices in use below `count`, as they are known, in ascending order.
pub open spec fn slices_shown(region: &Region, count: int) -> Seq<SliceModel>
    decreases count,
{
    if count <= 0 {
        Seq::empty()
    } else if region.used_set().contains(count - 1) {
        slices_shown(region, count - 1).push(slice_shown(region, count - 1))
    } else {
        slices_shown(region, count - 1)
    }
}

/// How telemetry shows a region.
pub open spec fn region_shown(region: &Region, domain_id: usize, region_index: usize) -> RegionModel {
    let slices = slices_shown(region, MEDIUM_REGION_SLICE_COUNT as int);
    RegionModel {
        domain_id,
        region_index,
        base_address: region.base,
        reserved_bytes: MEDIUM_REGION_SIZE,
        slice_bytes: MEDIUM_SLICE_SIZE,
        used_slices: slices.len() as usize,
        free_slices: (MEDIUM_REGION_SLICE_COUNT - slices.len()) as usize,
        used_bitmap: region.used@,
        slices: with_continuations(slices),
    }
}

fn show_segment(segments: &mut Vec<PhysicalSegmentSnapshot>, segment: PhysicalSegment, segment_index: usize)
    ensures
        final(segments)@ == old(segments)@ + segment_shown(segment, segment_index),
{
    match segment.class_index {
        None => {
            assert(segments@ =~= old(segments)@ + segment_shown(segment, segment_index));
        },
        Some(class_index) => {
            segments.push(
                PhysicalSegmentSnapshot {
                    segment_index,
                    class_index,
                    context: segment.context,
                    live_blocks: segment.live_blocks,
                    usable_blocks: segment.usable_blocks,
                    utilization_tracked: segment.utilization_tracked,
                },
            );
            assert(segments@ =~= old(segments)@ + segment_shown(segment, segment_index));
        },
    }
}

fn show_slice(region: &Region, slice: usize) -> (shown: PhysicalSliceSnapshot)
    requires
        region.wf(),
        slice < MEDIUM_REGION_SLICE_COUNT,
    ensures
        shown@ == slice_shown(region, slice as int),
        shown.slice_index == slice,
{
    let physical: PhysicalSlice = region.physical[slice];
    let medium: bool = match physical.kind {
        PhysicalSliceKind::Medium => true,
        _ => false,
    };
    let (requested_bytes, usable_bytes) = if medium {
        let allocation = region.allocations[slice];
        (allocation.requested_bytes, allocation.usable_bytes)
    } else {
        (0, 0)
    };
    let mut segments: Vec<PhysicalSegmentSnapshot> = Vec::new();
    show_segment(&mut segments, physical.first, 0);
    show_segment(&mut segments, physical.second, 1);
    assert(segments@ =~= segment_shown(physical.first, 0) + segment_shown(physical.second, 1));
    PhysicalSliceSnapshot {
        slice_index: slice,
        kind: physical.kind,
        span_slices: physical.span,
        owner: physical.owner,
        requested_bytes,
        usable_bytes,
        segments,
    }
}

fn copy_bitmap(used: &Vec<u64>) -> (copy: Vec<u64>)
    ensures
        copy@ == used@,
{
    let mut copy: Vec<u64> = Vec::new();
    let mut word: usize = 0;
    while word < used.len()
        invariant
            word <= used@.len(),
            copy@ == used@.take(word as int),
        decreases used@.len() - word,
    {
        copy.push(used[word]);
        word = word + 1;
        assert(copy@ =~= used@.take(word as int));
    }
    assert(copy@ =~= used@);
    copy
}

proof fn lemma_slices_shown(region: &Region, count: int)
    requires
        0 <= count,
    ensures
        slices_shown(region, count).len() <= count,
    decreases count,
{
    if count > 0 {
        lemma_slices_shown(region, count - 1);
    }
}

/// Shows a region and the slices of it that are in use.
pub fn show_region(region: &Region, domain_id: usize, region_index: usize) -> (shown: RegionSnapshot)
    requires
        region.wf(),
    ensures
        shown@ == region_shown(region, domain_id, region_index),
{
    let used_bitmap = copy_bitmap(&region.used);
    let mut slices: Vec<PhysicalSliceSnapshot> = Vec::new();
    let mut slice: usize = 0;
    proof {
        assert(slice_models(slices@) =~= slices_shown(region, 0));
    }
    while slice < MEDIUM_REGION_SLICE_COUNT
        invariant
            region.wf(),
            slice <= MEDIUM_REGION_SLICE_COUNT,
            slice_models(slices@) == slices_shown(region, slice as int),
        decreases MEDIUM_REGION_SLICE_COUNT - slice,
    {
        if slice_is_used(&region.used, slice) {
            let ghost before = slices@;
            let shown = show_slice(region, slice);
            slices.push(shown);
            proof {
                assert(slice_models(slices@) =~= slice_models(before).push(slices@.last()@));
            }
        }
        slice = slice + 1;
    }
    proof {
        lemma_slices_shown(region, MEDIUM_REGION_SLICE_COUNT as int);
    }
    let used_slices: usize = slices.len();
    mark_continuations(&mut slices);
    RegionSnapshot {
        domain_id,
        region_index,
        base_address: region.base,
        reserved_bytes: MEDIUM_REGION_SIZE,
        slice_bytes: MEDIUM_SLICE_SIZE,
        used_slices,
        free_slices: MEDIUM_REGION_SLICE_COUNT - used_slices,
        used_bitmap,
        slices,
    }
}

pub open spec fn region_models(regions: Seq<RegionSnapshot>) -> Seq<RegionModel> {
    Seq::new(regions.len(), |at: int| regions[at]@)
}

/// The regions of a domain, numbered from `first` on.
pub open spec fn domain_shown(domain: &DomainState, count: int, first: int) -> Seq<RegionModel> {
    Seq::new(count as nat, |index: int| region_shown(&domain.regions@[index], domain.id, (first + index) as usize))
}

/// The regions of the domains from `from` down to the first, the newest domain's first.
pub open spec fn domains_shown(domains: Seq<DomainState>, from: int) -> Seq<RegionModel>
    decreases domains.len() - from,
{
    if from < 0 || from >= domains.len() {
        Seq::empty()
    } else {
        let newer = domains_shown(domains, from + 1);
        newer + domain_shown(&domains[from], domains[from].regions@.len() as int, newer.len() as int)
    }
}

/// Shows every region of the process: those of the newest domain first, and numbered in that
/// order.
pub fn telemetry_region_snapshots(domains: &Vec<DomainState>) -> (shown: Vec<RegionSnapshot>)
    requires
        forall|at: int| 0 <= at < domains@.len() ==> (#[trigger] domains@[at]).wf(),
    ensures
        region_models(shown@) == domains_shown(domains@, 0),
{
    let mut shown: Vec<RegionSnapshot> = Vec::new();
    let mut at: usize = domains.len();
    proof {
        assert(region_models(shown@) =~= domains_shown(domains@, at as int));
    }
    while at > 0
        invariant
            at <= domains@.len(),
            region_models(shown@) == domains_shown(domains@, at as int),
            forall|d: int| 0 <= d < domains@.len() ==> (#[trigger] domains@[d]).wf(),
        decreases at,
    {
        at = at - 1;
        let domain = &domains[at];
        assert(domains@[at as int].wf());
        let ghost newer = region_models(shown@);
        let mut index: usize = 0;
        proof {
            assert(region_models(shown@) =~= newer + domain_shown(domain, 0, newer.len() as int));
        }
        while index < domain.regions.len()
            invariant
                at < domains@.len(),
                domain == domains@[at as int],
                domain.wf(),
                index <= domain.regions@.len(),
                shown@.len() == newer.len() + index,
                region_models(shown@) == newer + domain_shown(domain, index as int, newer.len() as int),
            decreases domain.regions@.len() - index,
        {
            let ghost before = shown@;
            assert(domain.regions@[index as int].wf());
            let region_index: usize = shown.len();
            let region = show_region(&domain.regions[index], domain.id, region_index);
            shown.push(region);
            index = index + 1;
            proof {
                assert(region_models(shown@) =~= region_models(before).push(shown@.last()@));
                assert(domain_shown(domain, index as int, newer.len() as int) =~= domain_shown(
                    domain,
                    index - 1,
                    newer.len() as int,
                ).push(shown@.last()@));
                assert(region_models(shown@) =~= newer + domain_shown(domain, index as int, newer.len() as int));
            }
        }
    }
    shown
}

/// Shows every domain, by ascending number.
pub fn telemetry_domain_snapshots(domains: &Vec<DomainState>) -> (shown: Vec<DomainSnapshot>)
    ensures
        exists|order: Seq<usize>|
            {
                &&& #[trigger] sorts(domain_keys(domains@), order)
                &&& shown@ == Seq::new(
                    order.len(),
                    |at: int|
                        DomainSnapshot {
                            domain_id: domains@[order[at] as int].id,
                            is_default: domains@[order[at] as int].is_default,
                        },
                )
            },
{
    let mut keys: Vec<(usize, usize)> = Vec::new();
    let mut at: usize = 0;
    while at < domains.len()
        invariant
            at <= domains@.len(),
            keys@ == domain_keys(domains@).take(at as int),
        decreases domains@.len() - at,
    {
        keys.push((domains[at].id, 0));
        at = at + 1;
        assert(keys@ =~= domain_keys(domains@).take(at as int));
    }
    assert(keys@ =~= domain_keys(domains@));
    let order = order_by_key(&keys);
    let mut shown: Vec<DomainSnapshot> = Vec::new();
    let ghost all = Seq::new(
        order@.len(),
        |at: int|
            DomainSnapshot { domain_id: domains@[order@[at] as int].id, is_default: domains@[order@[at] as int].is_default },
    );
    let mut place: usize = 0;
    while place < order.len()
        invariant
            sorts(domain_keys(domains@), order@),
            place <= order@.len(),
            all.len() == order@.len(),
            forall|i: int|
                0 <= i < order@.len() ==> #[trigger] all[i] == (DomainSnapshot {
                    domain_id: domains@[order@[i] as int].id,
                    is_default: domains@[order@[i] as int].is_default,
                }),
            shown@ == all.take(place as int),
        decreases order@.len() - place,
    {
        let index: usize = order[place];
        shown.push(DomainSnapshot { domain_id: domains[index].id, is_default: domains[index].is_default });
        place = place + 1;
        assert(shown@ =~= all.take(place as int));
    }
    assert(shown@ =~= all);
    assert(sorts(domain_keys(domains@), order@));
    shown
}

pub open spec fn domain_keys(domains: Seq<DomainState>) -> Seq<(usize, usize)> {
    Seq::new(domains.len(), |at: int| (domains[at].id, 0usize))
}

} // verus!
