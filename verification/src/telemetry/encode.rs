//! Snapshots in the form that is written out.

use vstd::prelude::*;

use crate::allocator::region::PhysicalSliceKind;
use crate::telemetry::aggregates::{Counts, SizeClassSnapshot};
use crate::telemetry::callers::{CallerSnapshot, ThreadLog};
use crate::telemetry::events::{Event, EventKind, HeapKind};
use crate::telemetry::stats::{Estimate, Stats};
use crate::telemetry::topology::{DomainSnapshot, PhysicalSegmentSnapshot, PhysicalSliceSnapshot, RegionSnapshot};

verus! {

#[derive(Clone, Copy, Debug, PartialEq, Eq, Structural)]
pub struct EncodedStats {
    pub allocated_bytes: u64,
    pub deallocated_bytes: u64,
    pub live_bytes: u64,
    pub peak_live_bytes: u64,
    pub mapped_bytes: u64,
    pub os_mappings: u64,
    pub os_unmappings: u64,
    pub allocations: u64,
    pub deallocations: u64,
    pub remote_frees: u64,
    pub pending_remote_blocks: u64,
    pub remote_pushes_in_progress: u64,
    pub drained_remote_blocks: u64,
}

#[derive(Clone, Copy, Debug, PartialEq, Eq, Structural)]
pub struct EncodedEstimate {
    pub value: u64,
    pub lower_bound: u64,
    pub upper_bound: u64,
}

#[derive(Clone, Copy, Debug, PartialEq, Eq, Structural)]
pub struct EncodedSizeClass {
    pub class_index: u32,
    pub block_bytes: u64,
    pub live_allocations: EncodedEstimate,
    pub requested_bytes: EncodedEstimate,
    pub usable_bytes: EncodedEstimate,
}

#[derive(Clone, Copy, Debug, PartialEq, Eq, Structural)]
pub struct EncodedRegion {
    pub region_index: u32,
    pub reserved_bytes: u64,
    pub used_slices: u64,
    pub free_slices: u64,
}

pub struct EncodedDomain {
    pub domain_id: u64,
    pub is_default: bool,
    pub region_indices: Vec<u32>,
    pub region_count: u64,
    pub reserved_bytes: u64,
    pub used_slices: u64,
    pub free_slices: u64,
    pub small_slices: u64,
    pub medium_slices: u64,
    pub bump_slices: u64,
    pub unknown_slices: u64,
}

#[derive(Clone, Copy, Debug, PartialEq, Eq, Structural)]
pub enum EncodedSliceKind {
    Unknown,
    Small,
    Medium,
    MediumContinuation,
    Bump,
}

#[derive(Clone, Copy, Debug, PartialEq, Eq, Structural)]
pub struct EncodedSegment {
    pub segment_index: u8,
    pub class_index: u32,
    pub context: bool,
    pub live_blocks: u32,
    pub usable_blocks: u32,
    pub utilization_tracked: bool,
}

pub struct EncodedSlice {
    pub slice_index: u32,
    pub kind: EncodedSliceKind,
    pub span_slices: u32,
    pub owner: u64,
    pub requested_bytes: u64,
    pub usable_bytes: u64,
    pub segments: Vec<EncodedSegment>,
}

pub struct EncodedTopologyRegion {
    pub region_index: u32,
    pub base_address: u64,
    pub region_bytes: u64,
    pub slice_bytes: u64,
    pub used_bitmap: Vec<u64>,
    pub slices: Vec<EncodedSlice>,
}

#[derive(Clone, Copy, Debug, PartialEq, Eq, Structural)]
pub enum EncodedEventKind {
    Allocated,
    Deallocated,
}

#[derive(Clone, Copy, Debug, PartialEq, Eq, Structural)]
pub enum EncodedHeapKind {
    General,
    Bump,
    Thread,
}

pub struct EncodedEvent {
    pub thread_log_id: u64,
    pub event_thread_id: u64,
    pub sequence: u64,
    pub allocation_id: u64,
    pub kind: EncodedEventKind,
    pub heap_id: u64,
    pub heap_kind: EncodedHeapKind,
    pub freed_after_heap_release: bool,
    pub address: u64,
    pub size: u64,
    pub align: u64,
    pub call_stack: Vec<u64>,
}

pub struct EncodedThreadLog {
    pub thread_log_id: u64,
    pub total_events: u64,
    pub lost_events: u64,
    pub allocated_histogram: Vec<u64>,
    pub live_histogram: Vec<u64>,
}

pub struct EncodedThreadName {
    pub thread_id: u64,
    pub name: String,
}

pub struct EncodedCallers {
    pub session_id: u64,
    pub total_events: u64,
    pub lost_events: u64,
    pub threads: Vec<EncodedThreadLog>,
    pub events: Vec<EncodedEvent>,
    pub thread_names: Vec<EncodedThreadName>,
}

pub struct EncodedHistograms {
    pub allocated: Vec<u64>,
    pub live: Vec<u64>,
}

/// The numbers as 64-bit words.
pub open spec fn widened(numbers: Seq<usize>) -> Seq<u64> {
    Seq::new(numbers.len(), |at: int| numbers[at] as u64)
}

fn widen(numbers: &Vec<usize>) -> (words: Vec<u64>)
    ensures
        words@ == widened(numbers@),
{
    let mut words: Vec<u64> = Vec::new();
    let mut at: usize = 0;
    while at < numbers.len()
        invariant
            at <= numbers@.len(),
            words@ == widened(numbers@).take(at as int),
        decreases numbers@.len() - at,
    {
        words.push(numbers[at] as u64);
        at = at + 1;
        assert(words@ =~= widened(numbers@).take(at as int));
    }
    assert(words@ =~= widened(numbers@));
    words
}

pub open spec fn stats_encoded(stats: Stats) -> EncodedStats {
    EncodedStats {
        allocated_bytes: stats.allocated_bytes as u64,
        deallocated_bytes: stats.deallocated_bytes as u64,
        live_bytes: stats.live_bytes as u64,
        peak_live_bytes: stats.peak_live_bytes as u64,
        mapped_bytes: stats.mapped_bytes as u64,
        os_mappings: stats.os_mappings as u64,
        os_unmappings: stats.os_unmappings as u64,
        allocations: stats.allocations as u64,
        deallocations: stats.deallocations as u64,
        remote_frees: stats.remote_frees as u64,
        pending_remote_blocks: stats.pending_remote_blocks as u64,
        remote_pushes_in_progress: stats.remote_pushes_in_progress as u64,
        drained_remote_blocks: stats.drained_remote_blocks as u64,
    }
}

pub fn encode_stats(stats: Stats) -> (encoded: EncodedStats)
    ensures
        encoded == stats_encoded(stats),
{
    EncodedStats {
        allocated_bytes: stats.allocated_bytes as u64,
        deallocated_bytes: stats.deallocated_bytes as u64,
        live_bytes: stats.live_bytes as u64,
        peak_live_bytes: stats.peak_live_bytes as u64,
        mapped_bytes: stats.mapped_bytes as u64,
        os_mappings: stats.os_mappings as u64,
        os_unmappings: stats.os_unmappings as u64,
        allocations: stats.allocations as u64,
        deallocations: stats.deallocations as u64,
        remote_frees: stats.remote_frees as u64,
        pending_remote_blocks: stats.pending_remote_blocks as u64,
        remote_pushes_in_progress: stats.remote_pushes_in_progress as u64,
        drained_remote_blocks: stats.drained_remote_blocks as u64,
    }
}

pub open spec fn estimate_encoded(estimate: Estimate<usize>) -> EncodedEstimate {
    EncodedEstimate {
        value: estimate.value as u64,
        lower_bound: estimate.lower_bound as u64,
        upper_bound: estimate.upper_bound as u64,
    }
}

pub fn encode_estimate(estimate: Estimate<usize>) -> (encoded: EncodedEstimate)
    ensures
        encoded == estimate_encoded(estimate),
{
    EncodedEstimate {
        value: estimate.value as u64,
        lower_bound: estimate.lower_bound as u64,
        upper_bound: estimate.upper_bound as u64,
    }
}

pub open spec fn size_class_encoded(class: SizeClassSnapshot) -> EncodedSizeClass {
    EncodedSizeClass {
        class_index: class.class_index as u32,
        block_bytes: class.block_bytes as u64,
        live_allocations: estimate_encoded(class.live_allocations),
        requested_bytes: estimate_encoded(class.requested_bytes),
        usable_bytes: estimate_encoded(class.usable_bytes),
    }
}

pub fn encode_size_class(class: &SizeClassSnapshot) -> (encoded: EncodedSizeClass)
    ensures
        encoded == size_class_encoded(*class),
{
    EncodedSizeClass {
        class_index: class.class_index as u32,
        block_bytes: class.block_bytes as u64,
        live_allocations: encode_estimate(class.live_allocations),
        requested_bytes: encode_estimate(class.requested_bytes),
        usable_bytes: encode_estimate(class.usable_bytes),
    }
}

pub open spec fn region_encoded(region: RegionSnapshot) -> EncodedRegion {
    EncodedRegion {
        region_index: region.region_index as u32,
        reserved_bytes: region.reserved_bytes as u64,
        used_slices: region.used_slices as u64,
        free_slices: region.free_slices as u64,
    }
}

pub fn encode_region(region: &RegionSnapshot) -> (encoded: EncodedRegion)
    ensures
        encoded == region_encoded(*region),
{
    EncodedRegion {
        region_index: region.region_index as u32,
        reserved_bytes: region.reserved_bytes as u64,
        used_slices: region.used_slices as u64,
        free_slices: region.free_slices as u64,
    }
}

pub open spec fn kind_encoded(kind: PhysicalSliceKind) -> EncodedSliceKind {
    match kind {
        PhysicalSliceKind::Unknown => EncodedSliceKind::Unknown,
        PhysicalSliceKind::Small => EncodedSliceKind::Small,
        PhysicalSliceKind::Medium => EncodedSliceKind::Medium,
        PhysicalSliceKind::MediumContinuation => EncodedSliceKind::MediumContinuation,
        PhysicalSliceKind::Bump => EncodedSliceKind::Bump,
    }
}

pub open spec fn segment_encoded(segment: PhysicalSegmentSnapshot) -> EncodedSegment {
    EncodedSegment {
        segment_index: segment.segment_index as u8,
        class_index: segment.class_index as u32,
        context: segment.context,
        live_blocks: segment.live_blocks as u32,
        usable_blocks: segment.usable_blocks as u32,
        utilization_tracked: segment.utilization_tracked,
    }
}

/// Whether `encoded` is the slice as it is written out.
pub open spec fn encodes_slice(slice: PhysicalSliceSnapshot, encoded: EncodedSlice) -> bool {
    &&& encoded.slice_index == slice.slice_index as u32
    &&& encoded.kind == kind_encoded(slice.kind)
    &&& encoded.span_slices == slice.span_slices as u32
    &&& encoded.owner == slice.owner as u64
    &&& encoded.requested_bytes == slice.requested_bytes as u64
    &&& encoded.usable_bytes == slice.usable_bytes as u64
    &&& encoded.segments@ == slice.segments@.map_values(|segment: PhysicalSegmentSnapshot| segment_encoded(segment))
}

fn encode_slice(slice: &PhysicalSliceSnapshot) -> (encoded: EncodedSlice)
    ensures
        encodes_slice(*slice, encoded),
{
    let ghost all = slice.segments@.map_values(|segment: PhysicalSegmentSnapshot| segment_encoded(segment));
    let mut segments: Vec<EncodedSegment> = Vec::new();
    let mut at: usize = 0;
    while at < slice.segments.len()
        invariant
            at <= slice.segments@.len(),
            all == slice.segments@.map_values(|segment: PhysicalSegmentSnapshot| segment_encoded(segment)),
            segments@ == all.take(at as int),
        decreases slice.segments@.len() - at,
    {
        let segment = slice.segments[at];
        segments.push(
            EncodedSegment {
                segment_index: segment.segment_index as u8,
                class_index: segment.class_index as u32,
                context: segment.context,
                live_blocks: segment.live_blocks as u32,
                usable_blocks: segment.usable_blocks as u32,
                utilization_tracked: segment.utilization_tracked,
            },
        );
        at = at + 1;
        assert(segments@ =~= all.take(at as int));
    }
    assert(segments@ =~= all);
    EncodedSlice {
        slice_index: slice.slice_index as u32,
        kind: match slice.kind {
            PhysicalSliceKind::Unknown => EncodedSliceKind::Unknown,
            PhysicalSliceKind::Small => EncodedSliceKind::Small,
            PhysicalSliceKind::Medium => EncodedSliceKind::Medium,
            PhysicalSliceKind::MediumContinuation => EncodedSliceKind::MediumContinuation,
            PhysicalSliceKind::Bump => EncodedSliceKind::Bump,
        },
        span_slices: slice.span_slices as u32,
        owner: slice.owner as u64,
        requested_bytes: slice.requested_bytes as u64,
        usable_bytes: slice.usable_bytes as u64,
        segments,
    }
}

/// Whether `encoded` is the region as it is written out.
pub open spec fn encodes_topology(region: RegionSnapshot, encoded: EncodedTopologyRegion) -> bool {
    &&& encoded.region_index == region.region_index as u32
    &&& encoded.base_address == region.base_address as u64
    &&& encoded.region_bytes == region.reserved_bytes as u64
    &&& encoded.slice_bytes == region.slice_bytes as u64
    &&& encoded.used_bitmap@ == region.used_bitmap@
    &&& encoded.slices@.len() == region.slices@.len()
    &&& forall|at: int| 0 <= at < region.slices@.len() ==> encodes_slice(region.slices@[at], #[trigger] encoded.slices@[at])
}

pub fn encode_topology_region(region: &RegionSnapshot) -> (encoded: EncodedTopologyRegion)
    ensures
        encodes_topology(*region, encoded),
{
    let mut slices: Vec<EncodedSlice> = Vec::new();
    let mut at: usize = 0;
    while at < region.slices.len()
        invariant
            at <= region.slices@.len(),
            slices@.len() == at,
            forall|index: int| 0 <= index < at ==> encodes_slice(region.slices@[index], #[trigger] slices@[index]),
        decreases region.slices@.len() - at,
    {
        let slice = encode_slice(&region.slices[at]);
        slices.push(slice);
        at = at + 1;
    }
    let mut used_bitmap: Vec<u64> = Vec::new();
    let mut word: usize = 0;
    while word < region.used_bitmap.len()
        invariant
            word <= region.used_bitmap@.len(),
            used_bitmap@ == region.used_bitmap@.take(word as int),
        decreases region.used_bitmap@.len() - word,
    {
        used_bitmap.push(region.used_bitmap[word]);
        word = word + 1;
        assert(used_bitmap@ =~= region.used_bitmap@.take(word as int));
    }
    assert(used_bitmap@ =~= region.used_bitmap@);
    EncodedTopologyRegion {
        region_index: region.region_index as u32,
        base_address: region.base_address as u64,
        region_bytes: region.reserved_bytes as u64,
        slice_bytes: region.slice_bytes as u64,
        used_bitmap,
        slices,
    }
}

/// What the regions of a domain come to.
pub struct DomainSums {
    pub regions: int,
    pub reserved: int,
    pub used: int,
    pub free: int,
    pub small: int,
    pub medium: int,
    pub bump: int,
    pub unknown: int,
}

pub open spec fn no_sums() -> DomainSums {
    DomainSums { regions: 0, reserved: 0, used: 0, free: 0, small: 0, medium: 0, bump: 0, unknown: 0 }
}

impl DomainSums {
    pub open spec fn below(self, other: DomainSums) -> bool {
        &&& self.regions <= other.regions
        &&& self.reserved <= other.reserved
        &&& self.used <= other.used
        &&& self.free <= other.free
        &&& self.small <= other.small
        &&& self.medium <= other.medium
        &&& self.bump <= other.bump
        &&& self.unknown <= other.unknown
    }

    pub open spec fn within(self) -> bool {
        &&& self.regions <= u64::MAX
        &&& self.reserved <= u64::MAX
        &&& self.used <= u64::MAX
        &&& self.free <= u64::MAX
        &&& self.small <= u64::MAX
        &&& self.medium <= u64::MAX
        &&& self.bump <= u64::MAX
        &&& self.unknown <= u64::MAX
    }

    pub open spec fn with_slice(self, kind: PhysicalSliceKind) -> DomainSums {
        match kind {
            PhysicalSliceKind::Small => DomainSums { small: self.small + 1, ..self },
            PhysicalSliceKind::Medium => DomainSums { medium: self.medium + 1, ..self },
            PhysicalSliceKind::MediumContinuation => DomainSums { medium: self.medium + 1, ..self },
            PhysicalSliceKind::Bump => DomainSums { bump: self.bump + 1, ..self },
            PhysicalSliceKind::Unknown => DomainSums { unknown: self.unknown + 1, ..self },
        }
    }

    pub open spec fn with_region(self, region: RegionSnapshot) -> DomainSums {
        DomainSums {
            regions: self.regions + 1,
            reserved: self.reserved + region.reserved_bytes,
            used: self.used + region.used_slices,
            free: self.free + region.free_slices,
            ..self
        }
    }
}

/// The sums with the first slices of a region counted.
pub open spec fn with_slices(sums: DomainSums, slices: Seq<PhysicalSliceSnapshot>, count: int) -> DomainSums
    decreases count,
{
    if count <= 0 {
        sums
    } else {
        with_slices(sums, slices, count - 1).with_slice(slices[count - 1].kind)
    }
}

/// The sums of the first regions, as far as they are the domain's.
pub open spec fn domain_sums(regions: Seq<RegionSnapshot>, domain_id: usize, count: int) -> DomainSums
    decreases count,
{
    if count <= 0 {
        no_sums()
    } else {
        let sums = domain_sums(regions, domain_id, count - 1);
        let region = regions[count - 1];
        if region.domain_id == domain_id {
            with_slices(sums.with_region(region), region.slices@, region.slices@.len() as int)
        } else {
            sums
        }
    }
}

/// The numbers of the domain's regions among the first ones.
pub open spec fn domain_regions(regions: Seq<RegionSnapshot>, domain_id: usize, count: int) -> Seq<u32>
    decreases count,
{
    if count <= 0 {
        Seq::empty()
    } else if regions[count - 1].domain_id == domain_id {
        domain_regions(regions, domain_id, count - 1).push(regions[count - 1].region_index as u32)
    } else {
        domain_regions(regions, domain_id, count - 1)
    }
}

proof fn lemma_with_slices(sums: DomainSums, slices: Seq<PhysicalSliceSnapshot>, count: int, all: int)
    requires
        0 <= count <= all <= slices.len(),
    ensures
        with_slices(sums, slices, count).below(with_slices(sums, slices, all)),
        sums.below(with_slices(sums, slices, count)),
    decreases all,
{
    if count < all {
        lemma_with_slices(sums, slices, count, all - 1);
    } else if count > 0 {
        lemma_with_slices(sums, slices, count - 1, count - 1);
    }
}

proof fn lemma_domain_sums(regions: Seq<RegionSnapshot>, domain_id: usize, count: int, all: int)
    requires
        0 <= count <= all <= regions.len(),
    ensures
        domain_sums(regions, domain_id, count).below(domain_sums(regions, domain_id, all)),
    decreases all - count,
{
    if count < all {
        lemma_domain_sums(regions, domain_id, count, all - 1);
        let sums = domain_sums(regions, domain_id, all - 1);
        let region = regions[all - 1];
        if region.domain_id == domain_id {
            lemma_with_slices(sums.with_region(region), region.slices@, region.slices@.len() as int, region.slices@.len() as int);
        }
    }
}

/// Whether `encoded` is the domain as it is written out.
pub open spec fn encodes_domain(domain: DomainSnapshot, regions: Seq<RegionSnapshot>, encoded: EncodedDomain) -> bool {
    let sums = domain_sums(regions, domain.domain_id, regions.len() as int);
    &&& encoded.domain_id == domain.domain_id as u64
    &&& encoded.is_default == domain.is_default
    &&& encoded.region_indices@ == domain_regions(regions, domain.domain_id, regions.len() as int)
    &&& holds_sums(encoded, sums)
}

pub open spec fn holds_sums(encoded: EncodedDomain, sums: DomainSums) -> bool {
    &&& encoded.region_count == sums.regions
    &&& encoded.reserved_bytes == sums.reserved
    &&& encoded.used_slices == sums.used
    &&& encoded.free_slices == sums.free
    &&& encoded.small_slices == sums.small
    &&& encoded.medium_slices == sums.medium
    &&& encoded.bump_slices == sums.bump
    &&& encoded.unknown_slices == sums.unknown
}

fn encode_domain(domain: &DomainSnapshot, regions: &Vec<RegionSnapshot>) -> (encoded: EncodedDomain)
    requires
        domain_sums(regions@, domain.domain_id, regions@.len() as int).within(),
    ensures
        encodes_domain(*domain, regions@, encoded),
{
    let ghost all = regions@.len() as int;
    let domain_id: usize = domain.domain_id;
    let mut encoded = EncodedDomain {
        domain_id: domain.domain_id as u64,
        is_default: domain.is_default,
        region_indices: Vec::new(),
        region_count: 0,
        reserved_bytes: 0,
        used_slices: 0,
        free_slices: 0,
        small_slices: 0,
        medium_slices: 0,
        bump_slices: 0,
        unknown_slices: 0,
    };
    let mut at: usize = 0;
    while at < regions.len()
        invariant
            at <= regions@.len(),
            all == regions@.len(),
            domain_id == domain.domain_id,
            encoded.domain_id == domain.domain_id as u64,
            encoded.is_default == domain.is_default,
            encoded.region_indices@ == domain_regions(regions@, domain_id, at as int),
            holds_sums(encoded, domain_sums(regions@, domain_id, at as int)),
            domain_sums(regions@, domain_id, all).within(),
        decreases regions@.len() - at,
    {
        let region = &regions[at];
        let ghost sums = domain_sums(regions@, domain_id, at as int);
        proof {
            lemma_domain_sums(regions@, domain_id, at + 1, all);
        }
        if region.domain_id == domain_id {
            let ghost begun = sums.with_region(*region);
            let ghost length = region.slices@.len() as int;
            proof {
                lemma_with_slices(begun, region.slices@, 0, length);
            }
            encoded.region_indices.push(region.region_index as u32);
            encoded.region_count = encoded.region_count + 1;
            encoded.reserved_bytes = encoded.reserved_bytes + region.reserved_bytes as u64;
            encoded.used_slices = encoded.used_slices + region.used_slices as u64;
            encoded.free_slices = encoded.free_slices + region.free_slices as u64;
            let mut slice: usize = 0;
            while slice < region.slices.len()
                invariant
                    slice <= region.slices@.len(),
                    length == region.slices@.len(),
                    encoded.domain_id == domain.domain_id as u64,
                    encoded.is_default == domain.is_default,
                    encoded.region_indices@ == domain_regions(regions@, domain_id, at as int).push(region.region_index as u32),
                    holds_sums(encoded, with_slices(begun, region.slices@, slice as int)),
                    with_slices(begun, region.slices@, length).within(),
                decreases region.slices@.len() - slice,
            {
                proof {
                    lemma_with_slices(begun, region.slices@, slice + 1, length);
                }
                match region.slices[slice].kind {
                    PhysicalSliceKind::Small => {
                        encoded.small_slices = encoded.small_slices + 1;
                    },
                    PhysicalSliceKind::Medium => {
                        encoded.medium_slices = encoded.medium_slices + 1;
                    },
                    PhysicalSliceKind::MediumContinuation => {
                        encoded.medium_slices = encoded.medium_slices + 1;
                    },
                    PhysicalSliceKind::Bump => {
                        encoded.bump_slices = encoded.bump_slices + 1;
                    },
                    PhysicalSliceKind::Unknown => {
                        encoded.unknown_slices = encoded.unknown_slices + 1;
                    },
                }
                slice = slice + 1;
            }
        }
        at = at + 1;
    }
    encoded
}

/// Sums up the regions of each domain.
pub fn encode_domains(domains: &Vec<DomainSnapshot>, regions: &Vec<RegionSnapshot>) -> (encoded: Vec<EncodedDomain>)
    requires
        forall|at: int|
            0 <= at < domains@.len() ==> domain_sums(regions@, (#[trigger] domains@[at]).domain_id, regions@.len() as int).within(),
    ensures
        encoded@.len() == domains@.len(),
        forall|at: int| 0 <= at < domains@.len() ==> encodes_domain(domains@[at], regions@, #[trigger] encoded@[at]),
{
    let mut encoded: Vec<EncodedDomain> = Vec::new();
    let mut at: usize = 0;
    while at < domains.len()
        invariant
            at <= domains@.len(),
            encoded@.len() == at,
            forall|index: int|
                0 <= index < domains@.len() ==> domain_sums(
                    regions@,
                    (#[trigger] domains@[index]).domain_id,
                    regions@.len() as int,
                ).within(),
            forall|index: int| 0 <= index < at ==> encodes_domain(domains@[index], regions@, #[trigger] encoded@[index]),
        decreases domains@.len() - at,
    {
        assert(domain_sums(regions@, domains@[at as int].domain_id, regions@.len() as int).within());
        let domain = encode_domain(&domains[at], regions);
        encoded.push(domain);
        at = at + 1;
    }
    encoded
}

pub open spec fn event_kind_encoded(kind: EventKind) -> EncodedEventKind {
    match kind {
        EventKind::Allocated => EncodedEventKind::Allocated,
        EventKind::Deallocated => EncodedEventKind::Deallocated,
    }
}

pub open spec fn heap_kind_encoded(kind: HeapKind) -> EncodedHeapKind {
    match kind {
        HeapKind::General => EncodedHeapKind::General,
        HeapKind::Bump => EncodedHeapKind::Bump,
        HeapKind::Thread => EncodedHeapKind::Thread,
    }
}

pub open spec fn encodes_event(event: Event, encoded: EncodedEvent) -> bool {
    &&& encoded.thread_log_id == event.thread_log_id as u64
    &&& encoded.event_thread_id == event.event_thread_id as u64
    &&& encoded.sequence == event.sequence as u64
    &&& encoded.allocation_id == event.allocation_id as u64
    &&& encoded.kind == event_kind_encoded(event.kind)
    &&& encoded.heap_id == event.heap_id as u64
    &&& encoded.heap_kind == heap_kind_encoded(event.heap_kind)
    &&& encoded.freed_after_heap_release == event.freed_after_heap_release
    &&& encoded.address == event.address as u64
    &&& encoded.size == event.size as u64
    &&& encoded.align == event.align as u64
    &&& encoded.call_stack@ == widened(event.call_stack@)
}

fn encode_event(event: &Event) -> (encoded: EncodedEvent)
    ensures
        encodes_event(*event, encoded),
{
    EncodedEvent {
        thread_log_id: event.thread_log_id as u64,
        event_thread_id: event.event_thread_id as u64,
        sequence: event.sequence as u64,
        allocation_id: event.allocation_id as u64,
        kind: match event.kind {
            EventKind::Allocated => EncodedEventKind::Allocated,
            EventKind::Deallocated => EncodedEventKind::Deallocated,
        },
        heap_id: event.heap_id as u64,
        heap_kind: match event.heap_kind {
            HeapKind::General => EncodedHeapKind::General,
            HeapKind::Bump => EncodedHeapKind::Bump,
            HeapKind::Thread => EncodedHeapKind::Thread,
        },
        freed_after_heap_release: event.freed_after_heap_release,
        address: event.address as u64,
        size: event.size as u64,
        align: event.align as u64,
        call_stack: widen(&event.call_stack),
    }
}

pub open spec fn encodes_thread(thread: ThreadLog, encoded: EncodedThreadLog) -> bool {
    &&& encoded.thread_log_id == thread.thread_log_id as u64
    &&& encoded.total_events == thread.total_events as u64
    &&& encoded.lost_events == thread.lost_events as u64
    &&& encoded.allocated_histogram@ == widened(thread.allocated_histogram@)
    &&& encoded.live_histogram@ == widened(thread.live_histogram@)
}

/// Whether `encoded` holds the callers as they are written out.
pub open spec fn encodes_callers(callers: CallerSnapshot, encoded: EncodedCallers) -> bool {
    &&& encoded.session_id == callers.session_id as u64
    &&& encoded.total_events == callers.total_events as u64
    &&& encoded.lost_events == callers.lost_events as u64
    &&& encoded.threads@.len() == callers.threads@.len()
    &&& forall|at: int| 0 <= at < callers.threads@.len() ==> encodes_thread(callers.threads@[at], #[trigger] encoded.threads@[at])
    &&& encoded.events@.len() == callers.events@.len()
    &&& forall|at: int| 0 <= at < callers.events@.len() ==> encodes_event(callers.events@[at], #[trigger] encoded.events@[at])
    &&& encoded.thread_names@.len() == callers.thread_names@.len()
    &&& forall|at: int|
        0 <= at < callers.thread_names@.len() ==> (#[trigger] encoded.thread_names@[at]).thread_id
            == callers.thread_names@[at].thread_id as u64 && encoded.thread_names@[at].name@ == callers.thread_names@[at].name@
}

pub fn encode_callers(callers: &CallerSnapshot) -> (encoded: EncodedCallers)
    ensures
        encodes_callers(*callers, encoded),
{
    let mut threads: Vec<EncodedThreadLog> = Vec::new();
    let mut at: usize = 0;
    while at < callers.threads.len()
        invariant
            at <= callers.threads@.len(),
            threads@.len() == at,
            forall|index: int| 0 <= index < at ==> encodes_thread(callers.threads@[index], #[trigger] threads@[index]),
        decreases callers.threads@.len() - at,
    {
        let thread = &callers.threads[at];
        threads.push(
            EncodedThreadLog {
                thread_log_id: thread.thread_log_id as u64,
                total_events: thread.total_events as u64,
                lost_events: thread.lost_events as u64,
                allocated_histogram: widen(&thread.allocated_histogram),
                live_histogram: widen(&thread.live_histogram),
            },
        );
        at = at + 1;
    }
    let mut events: Vec<EncodedEvent> = Vec::new();
    let mut event: usize = 0;
    while event < callers.events.len()
        invariant
            event <= callers.events@.len(),
            events@.len() == event,
            forall|index: int| 0 <= index < event ==> encodes_event(callers.events@[index], #[trigger] events@[index]),
        decreases callers.events@.len() - event,
    {
        let encoded = encode_event(&callers.events[event]);
        events.push(encoded);
        event = event + 1;
    }
    let mut thread_names: Vec<EncodedThreadName> = Vec::new();
    let mut name: usize = 0;
    while name < callers.thread_names.len()
        invariant
            name <= callers.thread_names@.len(),
            thread_names@.len() == name,
            forall|index: int|
                0 <= index < name ==> (#[trigger] thread_names@[index]).thread_id == callers.thread_names@[index].thread_id as u64
                    && thread_names@[index].name@ == callers.thread_names@[index].name@,
        decreases callers.thread_names@.len() - name,
    {
        thread_names.push(
            EncodedThreadName {
                thread_id: callers.thread_names[name].thread_id as u64,
                name: callers.thread_names[name].name.clone(),
            },
        );
        name = name + 1;
    }
    EncodedCallers {
        session_id: callers.session_id as u64,
        total_events: callers.total_events as u64,
        lost_events: callers.lost_events as u64,
        threads,
        events,
        thread_names,
    }
}

/// A count that is not below nothing.
pub open spec fn floored(count: isize) -> u64 {
    if count < 0 {
        0
    } else {
        count as u64
    }
}

pub open spec fn live_encoded(counts: Seq<isize>) -> Seq<u64> {
    Seq::new(counts.len(), |at: int| floored(counts[at]))
}

/// Writes the histograms out, empty ones where nothing was counted.
pub fn encode_histograms(aggregates: Option<&Counts>) -> (encoded: EncodedHistograms)
    ensures
        ({
            let counts = match aggregates {
                Some(counts) => counts@,
                None => crate::telemetry::aggregates::no_counts(),
            };
            &&& encoded.allocated@ == widened(counts.size_allocations)
            &&& encoded.live@ == live_encoded(counts.size_live)
        }),
{
    match aggregates {
        Some(counts) => encode_counts(counts),
        None => {
            let counts = Counts::new();
            encode_counts(&counts)
        },
    }
}

fn encode_counts(counts: &Counts) -> (encoded: EncodedHistograms)
    ensures
        encoded.allocated@ == widened(counts@.size_allocations),
        encoded.live@ == live_encoded(counts@.size_live),
{
    let ghost all = live_encoded(counts.size_live@);
    let mut live: Vec<u64> = Vec::new();
    let mut at: usize = 0;
    while at < counts.size_live.len()
        invariant
            at <= counts.size_live@.len(),
            all == live_encoded(counts.size_live@),
            live@ == all.take(at as int),
        decreases counts.size_live@.len() - at,
    {
        let count: isize = counts.size_live[at];
        if count < 0 {
            live.push(0);
        } else {
            live.push(count as u64);
        }
        at = at + 1;
        assert(live@ =~= all.take(at as int));
    }
    assert(live@ =~= all);
    EncodedHistograms { allocated: widen(&counts.size_allocations), live }
}

/// What is written out of the counters is what they are.
pub proof fn law_counters_are_written_as_they_are(stats: Stats, estimate: Estimate<usize>)
    ensures
        ({
            let encoded = stats_encoded(stats);
            &&& encoded.allocated_bytes == stats.allocated_bytes && encoded.deallocated_bytes == stats.deallocated_bytes
            &&& encoded.live_bytes == stats.live_bytes && encoded.peak_live_bytes == stats.peak_live_bytes
            &&& encoded.mapped_bytes == stats.mapped_bytes
            &&& encoded.os_mappings == stats.os_mappings && encoded.os_unmappings == stats.os_unmappings
            &&& encoded.allocations == stats.allocations && encoded.deallocations == stats.deallocations
            &&& encoded.remote_frees == stats.remote_frees
            &&& encoded.pending_remote_blocks == stats.pending_remote_blocks
            &&& encoded.remote_pushes_in_progress == stats.remote_pushes_in_progress
            &&& encoded.drained_remote_blocks == stats.drained_remote_blocks
        }),
        estimate_encoded(estimate).value == estimate.value,
        estimate_encoded(estimate).lower_bound == estimate.lower_bound,
        estimate_encoded(estimate).upper_bound == estimate.upper_bound,
{
}

/// What is written out of size classes and regions is what they are, where their numbers fit.
pub proof fn law_classes_and_regions_are_written_as_they_are(class: SizeClassSnapshot, region: RegionSnapshot)
    ensures
        class.class_index <= u32::MAX ==> size_class_encoded(class).class_index == class.class_index,
        size_class_encoded(class).block_bytes == class.block_bytes,
        size_class_encoded(class).live_allocations.value == class.live_allocations.value,
        size_class_encoded(class).live_allocations.lower_bound == class.live_allocations.lower_bound,
        size_class_encoded(class).live_allocations.upper_bound == class.live_allocations.upper_bound,
        size_class_encoded(class).requested_bytes.value == class.requested_bytes.value,
        size_class_encoded(class).requested_bytes.lower_bound == class.requested_bytes.lower_bound,
        size_class_encoded(class).requested_bytes.upper_bound == class.requested_bytes.upper_bound,
        size_class_encoded(class).usable_bytes.value == class.usable_bytes.value,
        size_class_encoded(class).usable_bytes.lower_bound == class.usable_bytes.lower_bound,
        size_class_encoded(class).usable_bytes.upper_bound == class.usable_bytes.upper_bound,
        region.region_index <= u32::MAX ==> region_encoded(region).region_index == region.region_index,
        region_encoded(region).reserved_bytes == region.reserved_bytes,
        region_encoded(region).used_slices == region.used_slices,
        region_encoded(region).free_slices == region.free_slices,
{
}

/// A domain's region adds its memory and its slices to the domain, and to no other. What it holds of slices is
/// the slices of each kind together.
pub proof fn law_regions_count_for_their_domain(regions: Seq<RegionSnapshot>, domain_id: usize, count: int)
    requires
        0 < count <= regions.len(),
    ensures
        ({
            let before = domain_sums(regions, domain_id, count - 1);
            let after = domain_sums(regions, domain_id, count);
            let region = regions[count - 1];
            if region.domain_id == domain_id {
                &&& after.regions == before.regions + 1
                &&& after.reserved == before.reserved + region.reserved_bytes
                &&& after.used == before.used + region.used_slices
                &&& after.free == before.free + region.free_slices
                &&& after.small + after.medium + after.bump + after.unknown == before.small + before.medium + before.bump + before.unknown
                    + region.slices@.len()
            } else {
                after == before
            }
        }),
{
    let region = regions[count - 1];
    let before = domain_sums(regions, domain_id, count - 1);
    lemma_slices_counted(before.with_region(region), region.slices@, region.slices@.len() as int);
}

/// Slices change no sum but those of their kinds, and these by one together for each.
proof fn lemma_slices_counted(sums: DomainSums, slices: Seq<PhysicalSliceSnapshot>, count: int)
    requires
        0 <= count <= slices.len(),
    ensures
        ({
            let after = with_slices(sums, slices, count);
            &&& after.regions == sums.regions && after.reserved == sums.reserved && after.used == sums.used && after.free == sums.free
            &&& after.small + after.medium + after.bump + after.unknown == sums.small + sums.medium + sums.bump + sums.unknown + count
        }),
    decreases count,
{
    if count > 0 {
        lemma_slices_counted(sums, slices, count - 1);
    }
}

/// How many of the first slices are of a kind.
pub open spec fn of_kind(slices: Seq<PhysicalSliceSnapshot>, kind: PhysicalSliceKind, count: int) -> int
    decreases count,
{
    if count <= 0 {
        0
    } else if slices[count - 1].kind == kind {
        of_kind(slices, kind, count - 1) + 1
    } else {
        of_kind(slices, kind, count - 1)
    }
}

/// The slices of a region count for their kinds, and those that medium spans go on in count as medium.
pub proof fn law_slices_count_for_their_kind(sums: DomainSums, slices: Seq<PhysicalSliceSnapshot>, count: int)
    requires
        0 <= count <= slices.len(),
    ensures
        ({
            let after = with_slices(sums, slices, count);
            &&& after.small == sums.small + of_kind(slices, PhysicalSliceKind::Small, count)
            &&& after.medium == sums.medium + of_kind(slices, PhysicalSliceKind::Medium, count) + of_kind(
                slices,
                PhysicalSliceKind::MediumContinuation,
                count,
            )
            &&& after.bump == sums.bump + of_kind(slices, PhysicalSliceKind::Bump, count)
            &&& after.unknown == sums.unknown + of_kind(slices, PhysicalSliceKind::Unknown, count)
        }),
    decreases count,
{
    if count > 0 {
        law_slices_count_for_their_kind(sums, slices, count - 1);
    }
}

} // verus!
