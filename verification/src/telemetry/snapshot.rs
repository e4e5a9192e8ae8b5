//! A snapshot of everything that telemetry knows.

use vstd::prelude::*;

use crate::telemetry::addresses::AddressLookup;
use crate::telemetry::aggregates::{classes_shown, size_class_snapshots, Aggregates, Counts, SizeClassSnapshot};
use crate::telemetry::callers::CallerSnapshot;
use crate::telemetry::encode::{
    domain_sums, encode_callers, encode_domains, encode_histograms, encode_region, encode_size_class,
    encode_stats, encode_topology_region, encodes_callers, encodes_domain, encodes_topology, live_encoded,
    region_encoded, size_class_encoded, stats_encoded, widened, EncodedCallers, EncodedDomain,
    EncodedHistograms, EncodedRegion, EncodedSizeClass, EncodedStats, EncodedTopologyRegion,
};
use crate::telemetry::stats::{no_stats, Stats};
use crate::telemetry::topology::{DomainSnapshot, RegionSnapshot};
use crate::tunables::MAX_SIZE_CLASSES;

verus! {

#[derive(Clone, Copy, Debug, PartialEq, Eq, Structural)]
pub struct Version {
    pub major: u16,
    pub minor: u16,
    pub patch: u16,
}

/// Everything that a snapshot holds.
pub struct EncodedSnapshot {
    pub producer: Version,
    pub capture_duration_nanos: u64,
    pub stats: EncodedStats,
    pub size_classes: Vec<EncodedSizeClass>,
    pub regions: Vec<EncodedRegion>,
    pub topology: Vec<EncodedTopologyRegion>,
    pub domains: Vec<EncodedDomain>,
    pub callers: Option<EncodedCallers>,
    pub histograms: EncodedHistograms,
    pub addresses: Vec<AddressLookup>,
}

/// A snapshot in its written form.
pub struct Snapshot {
    pub bytes: Vec<u8>,
}

impl Snapshot {
    /// The whole snapshot.
    pub fn as_bytes(&self) -> (bytes: &[u8])
        ensures
            bytes@ == self.bytes@,
    {
        self.bytes.as_slice()
    }
}

/// What a snapshot shows as totals: those that were counted, else empty ones where there are
/// callers to show.
pub fn snapshot_stats(stats: Option<Stats>, has_callers: bool) -> (shown: Option<Stats>)
    ensures
        shown == (match stats {
            Some(stats) => Some(stats),
            None => if has_callers {
                Some(no_stats())
            } else {
                None
            },
        }),
{
    match stats {
        Some(stats) => Some(stats),
        None => if has_callers {
            Some(Stats::default())
        } else {
            None
        },
    }
}

/// The size classes that a snapshot shows.
pub open spec fn shown_classes(before: Option<Counts>, after: Option<Counts>) -> Seq<SizeClassSnapshot> {
    match (before, after) {
        (Some(before), Some(after)) => classes_shown(before@, after@, MAX_SIZE_CLASSES as int),
        _ => Seq::empty(),
    }
}

/// Puts a snapshot together, from what was counted before and after the regions were looked at.
pub fn build_snapshot(
    aggregates: &Aggregates,
    before: Option<Counts>,
    after: Option<Counts>,
    regions: &Vec<RegionSnapshot>,
    domains: &Vec<DomainSnapshot>,
    callers: Option<CallerSnapshot>,
    addresses: Vec<AddressLookup>,
    producer: Version,
    capture_duration_nanos: u64,
) -> (snapshot: Option<EncodedSnapshot>)
    requires
        before matches Some(counts) ==> counts@.shape(),
        after matches Some(counts) ==> counts@.shape(),
        aggregates.totals.mapped_bytes + aggregates.totals.bump_committed_bytes <= usize::MAX,
        forall|at: int|
            0 <= at < domains@.len() ==> domain_sums(regions@, (#[trigger] domains@[at]).domain_id, regions@.len() as int).within(),
    ensures
        snapshot is Some <==> after is Some || callers is Some,
        snapshot matches Some(snapshot) ==> {
            let classes = shown_classes(before, after);
            &&& snapshot.producer == producer
            &&& snapshot.capture_duration_nanos == capture_duration_nanos
            &&& snapshot.stats == stats_encoded(
                match after {
                    Some(counts) => Aggregates::stats_of(aggregates.totals, counts@),
                    None => no_stats(),
                },
            )
            &&& snapshot.size_classes@ == classes.map_values(|class: SizeClassSnapshot| size_class_encoded(class))
            &&& snapshot.regions@ == regions@.map_values(|region: RegionSnapshot| region_encoded(region))
            &&& snapshot.topology@.len() == regions@.len()
            &&& forall|at: int| 0 <= at < regions@.len() ==> encodes_topology(regions@[at], #[trigger] snapshot.topology@[at])
            &&& snapshot.domains@.len() == domains@.len()
            &&& forall|at: int|
                0 <= at < domains@.len() ==> encodes_domain(domains@[at], regions@, #[trigger] snapshot.domains@[at])
            &&& match (callers, snapshot.callers) {
                (Some(callers), Some(encoded)) => encodes_callers(callers, encoded),
                (None, None) => true,
                _ => false,
            }
            &&& snapshot.histograms.allocated@ == (match after {
                Some(counts) => widened(counts@.size_allocations),
                None => widened(crate::telemetry::aggregates::no_counts().size_allocations),
            })
            &&& snapshot.histograms.live@ == (match after {
                Some(counts) => live_encoded(counts@.size_live),
                None => live_encoded(crate::telemetry::aggregates::no_counts().size_live),
            })
            &&& snapshot.addresses == addresses
        },
{
    let counted: Option<Stats> = match &after {
        Some(counts) => Some(aggregates.aggregate_stats(counts)),
        None => None,
    };
    let stats = match snapshot_stats(counted, callers.is_some()) {
        None => {
            return None;
        },
        Some(stats) => stats,
    };
    let classes: Vec<SizeClassSnapshot> = match (&before, &after) {
        (Some(before), Some(after)) => size_class_snapshots(before, after),
        _ => Vec::new(),
    };
    assert(classes@ =~= shown_classes(before, after));
    let ghost all_classes = classes@.map_values(|class: SizeClassSnapshot| size_class_encoded(class));
    let mut size_classes: Vec<EncodedSizeClass> = Vec::new();
    let mut class: usize = 0;
    while class < classes.len()
        invariant
            class <= classes@.len(),
            all_classes == classes@.map_values(|class: SizeClassSnapshot| size_class_encoded(class)),
            size_classes@ == all_classes.take(class as int),
        decreases classes@.len() - class,
    {
        size_classes.push(encode_size_class(&classes[class]));
        class = class + 1;
        assert(size_classes@ =~= all_classes.take(class as int));
    }
    assert(size_classes@ =~= all_classes);
    let ghost all_regions = regions@.map_values(|region: RegionSnapshot| region_encoded(region));
    let mut encoded_regions: Vec<EncodedRegion> = Vec::new();
    let mut topology: Vec<EncodedTopologyRegion> = Vec::new();
    let mut region: usize = 0;
    while region < regions.len()
        invariant
            region <= regions@.len(),
            all_regions == regions@.map_values(|region: RegionSnapshot| region_encoded(region)),
            encoded_regions@ == all_regions.take(region as int),
            topology@.len() == region,
            forall|at: int| 0 <= at < region ==> encodes_topology(regions@[at], #[trigger] topology@[at]),
        decreases regions@.len() - region,
    {
        encoded_regions.push(encode_region(&regions[region]));
        let shown = encode_topology_region(&regions[region]);
        topology.push(shown);
        region = region + 1;
        assert(encoded_regions@ =~= all_regions.take(region as int));
    }
    assert(encoded_regions@ =~= all_regions);
    let encoded_callers: Option<EncodedCallers> = match &callers {
        Some(callers) => Some(encode_callers(callers)),
        None => None,
    };
    let histograms = match &after {
        Some(counts) => encode_histograms(Some(counts)),
        None => encode_histograms(None),
    };
    Some(
        EncodedSnapshot {
            producer,
            capture_duration_nanos,
            stats: encode_stats(stats),
            size_classes,
            regions: encoded_regions,
            topology,
            domains: encode_domains(domains, regions),
            callers: encoded_callers,
            histograms,
            addresses,
        },
    )
}

/// Turns the outcome of writing a snapshot into one: its length must be known, there must be
/// memory for it, and writing it must have succeeded.
pub fn encode_snapshot_with(encoded_len: Option<usize>, mapped: bool, written: Option<Vec<u8>>) -> (snapshot: Option<Snapshot>)
    ensures
        snapshot is Some <==> encoded_len is Some && mapped && written is Some,
        snapshot matches Some(snapshot) ==> snapshot.bytes == written->0,
{
    if encoded_len.is_none() || !mapped {
        return None;
    }
    match written {
        None => None,
        Some(bytes) => Some(Snapshot { bytes }),
    }
}

} // verus!
