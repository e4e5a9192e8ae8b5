use rallocator::config::Config;
use rallocator::hal::{frames_to_capture, monotonic_millis, plan_mapping, align_mapping, retained_frames};
use rallocator::telemetry::addresses::{merge_address_lookup, resolve_address, stack_addresses, AddressLookup, Symbol};
use rallocator::telemetry::aggregates::{histogram_bucket, size_class_snapshots, stats, Aggregates, SizeClassSnapshot, ThreadTelemetry};
use rallocator::telemetry::callers::{CallerSnapshot, ThreadLog, ThreadName, ThreadTracking, Tracking};
use rallocator::telemetry::encode::{
    encode_callers, encode_domains, encode_estimate, encode_region, encode_size_class, encode_stats, encode_topology_region,
    EncodedEventKind, EncodedSliceKind,
};
use rallocator::telemetry::events::{Event, EventKind, HeapKind};
use rallocator::telemetry::snapshot::{encode_snapshot_with, snapshot_stats};
use rallocator::telemetry::stats::{Estimate, Sampler, Session, Stats, StatsDelta};
use rallocator::telemetry::topology::{DomainSnapshot, PhysicalSegmentSnapshot, PhysicalSliceSnapshot, RegionSnapshot};
use rallocator::allocator::region::PhysicalSliceKind;
use rallocator::tunables::Standard as StandardTunables;

struct TelemetryConfig;

impl Config for TelemetryConfig {
    type Tunables = StandardTunables;
    const TRACK_AGGREGATES: bool = true;
    const TRACK_CALLERS: bool = true;
    const CALLER_EVENT_CAPACITY: usize = <rallocator::config::Standard as Config>::CALLER_EVENT_CAPACITY;
    const CALLER_ALLOCATION_STACK_FRAMES: usize = <rallocator::config::Standard as Config>::CALLER_ALLOCATION_STACK_FRAMES;
    const CALLER_DEALLOCATION_STACK_FRAMES: usize = <rallocator::config::Standard as Config>::CALLER_DEALLOCATION_STACK_FRAMES;
    const CALLER_TRACK_THREADS: bool = <rallocator::config::Standard as Config>::CALLER_TRACK_THREADS;
    const CALLER_TRACK_HEAP_LIFETIMES: bool = <rallocator::config::Standard as Config>::CALLER_TRACK_HEAP_LIFETIMES;
}

struct CustomCallerConfig;

impl Config for CustomCallerConfig {
    type Tunables = StandardTunables;
    const TRACK_AGGREGATES: bool = false;
    const TRACK_CALLERS: bool = true;
    const CALLER_EVENT_CAPACITY: usize = 8;
    const CALLER_ALLOCATION_STACK_FRAMES: usize = 3;
    const CALLER_DEALLOCATION_STACK_FRAMES: usize = 5;
    const CALLER_TRACK_THREADS: bool = false;
    const CALLER_TRACK_HEAP_LIFETIMES: bool = false;
}

fn sample_stats() -> Stats {
    Stats {
        allocated_bytes: 101,
        deallocated_bytes: 41,
        live_bytes: 60,
        peak_live_bytes: 80,
        mapped_bytes: 256,
        os_mappings: 7,
        os_unmappings: 3,
        allocations: 11,
        deallocations: 5,
        remote_frees: 4,
        pending_remote_blocks: 3,
        remote_pushes_in_progress: 2,
        drained_remote_blocks: 1,
    }
}

#[test]
fn caller_diagnostic_configuration_has_stable_defaults_and_overrides() {
    assert!(TelemetryConfig::CALLER_EVENT_CAPACITY == 128 * 1024);
    assert!(TelemetryConfig::CALLER_ALLOCATION_STACK_FRAMES == 16);
    assert!(TelemetryConfig::CALLER_DEALLOCATION_STACK_FRAMES == 16);
    assert!(TelemetryConfig::CALLER_TRACK_THREADS);
    assert!(TelemetryConfig::CALLER_TRACK_HEAP_LIFETIMES);

    assert!(CustomCallerConfig::CALLER_EVENT_CAPACITY == 8);
    assert!(CustomCallerConfig::CALLER_ALLOCATION_STACK_FRAMES == 3);
    assert!(CustomCallerConfig::CALLER_DEALLOCATION_STACK_FRAMES == 5);
    assert!(!CustomCallerConfig::CALLER_TRACK_THREADS);
    assert!(!CustomCallerConfig::CALLER_TRACK_HEAP_LIFETIMES);
}

#[test]
fn telemetry_views_expose_values_and_sampling_progress() {
    let exact = Estimate::exact(7);
    assert_eq!(exact.value(), 7);
    assert_eq!(exact.lower_bound(), 7);
    assert_eq!(exact.upper_bound(), 7);
    assert!(exact.is_exact());
    assert!(!Estimate::bounded(7, 6, 8).is_exact());

    let expected = sample_stats();
    let memory = expected.memory();
    assert_eq!(memory.live_requested_bytes(), Estimate::exact(60));
    assert_eq!(memory.live_usable_bytes(), Estimate::bounded(60, 60, 256));
    assert_eq!(memory.committed_bytes(), 256);
    assert_eq!(memory.peak_live_bytes(), 80);

    let operations = expected.operations();
    assert_eq!(operations.allocations(), 11);
    assert_eq!(operations.deallocations(), 5);
    assert_eq!(operations.allocated_bytes(), 101);
    assert_eq!(operations.deallocated_bytes(), 41);

    let reclamation = expected.reclamation();
    assert_eq!(reclamation.committed_bytes(), 256);
    assert_eq!(reclamation.mappings(), 7);
    assert_eq!(reclamation.unmappings(), 3);

    let remote = expected.remote();
    assert_eq!(remote.frees(), 4);
    assert_eq!(remote.pending_blocks(), Estimate::bounded(3, 1, 3));
    assert_eq!(remote.drained_blocks(), 1);

    let delta = StatsDelta::between(sample_stats(), Stats::default());
    assert_eq!(delta.allocated_bytes(), 0);
    assert_eq!(delta.deallocated_bytes(), 0);
    assert_eq!(delta.allocations(), 0);
    assert_eq!(delta.deallocations(), 0);
    assert_eq!(delta.mappings(), 0);
    assert_eq!(delta.unmappings(), 0);
    assert_eq!(delta.remote_frees(), 0);
    assert_eq!(delta.drained_remote_blocks(), 0);

    let mut aggregates = Aggregates::new();
    aggregates.initialize_aggregate_shard(true);
    let mut sampler = Sampler::new(5, stats(&aggregates)).unwrap();
    let sample = sampler.sample(6, stats(&aggregates)).unwrap();
    assert_eq!(sample.elapsed(), 1);
    assert_eq!(sample.current(), &stats(&aggregates).unwrap());
    assert_eq!(sample.delta(), &StatsDelta::between(sampler.previous, sampler.previous));

    let mut session = Session::start(7, stats(&aggregates)).unwrap();
    assert!(session.sample(8, stats(&aggregates)).is_some());
    let report = session.finish(9, stats(&aggregates)).unwrap();
    assert_eq!(report.elapsed(), 2);
    assert_eq!(report.initial(), report.final_stats());
    assert_eq!(report.delta(), &StatsDelta::between(*report.initial(), *report.final_stats()));
}

#[test]
fn sampler_and_session_report_interval_deltas() {
    let mut aggregates = Aggregates::new();
    let thread = ThreadTelemetry::new();
    let shard = aggregates.initialize_aggregate_shard(true);
    let mut sampler = Sampler::new(0, stats(&aggregates)).unwrap();
    aggregates.record_allocation(&thread, shard, 8);
    aggregates.record_deallocation_stats(&thread, shard, 8);
    let sample = sampler.sample(1, stats(&aggregates)).unwrap();
    assert!(sample.delta().allocations() >= 1);
    assert!(sample.delta().deallocations() >= 1);

    let session = Session::start(2, stats(&aggregates)).unwrap();
    aggregates.record_allocation(&thread, shard, 128);
    aggregates.record_deallocation_stats(&thread, shard, 128);
    let report = session.finish(3, stats(&aggregates)).unwrap();
    assert!(report.delta().allocations() >= 1);
    assert!(report.delta().deallocations() >= 1);
}

#[test]
fn suppression_and_counter_recorders_cover_disabled_paths() {
    let mut aggregates = Aggregates::new();
    let mut thread = ThreadTelemetry::new();
    assert!(!thread.suppressed());
    assert!(stats(&aggregates).is_none());
    assert!(aggregates.aggregate_snapshot().is_none());
    assert!(Sampler::new(0, None).is_none());
    let mut sampler = Sampler { sampled_at: 0, previous: Stats::default() };
    assert!(sampler.sample(0, None).is_none());
    assert!(Session::start(0, None).is_none());
    let session = Session { started_at: 0, sampler, baseline: Stats::default() };
    assert!(session.finish(0, None).is_none());
    assert!(snapshot_stats(None, false).is_none());
    assert_eq!(snapshot_stats(None, true), Some(Stats::default()));
    assert_eq!(snapshot_stats(Some(sample_stats()), false), Some(sample_stats()));
    aggregates.totals.begin_remote_free();
    aggregates.totals.finish_remote_free();
    aggregates.totals.record_remote_drain(1);
    assert_eq!(aggregates.totals.remote_frees, 0);
    assert_eq!(aggregates.totals.drained_remote_blocks, 0);

    let shard = aggregates.initialize_aggregate_shard(true);
    thread.enter();
    assert!(thread.suppressed());
    aggregates.record_allocation(&thread, shard, 1);
    aggregates.record_deallocation_stats(&thread, shard, 1);
    aggregates.record_small_allocation(&thread, shard, 0, 8, 1);
    aggregates.record_small_deallocation(&thread, shard, 0, 1);
    aggregates.totals.record_remote_retired_free(thread.suppressed());
    thread.leave();
    assert!(!thread.suppressed());
    assert_eq!(stats(&aggregates).unwrap(), Stats::default());

    aggregates.totals.record_mapping(8);
    aggregates.totals.record_bump_commit(4);
    aggregates.totals.record_bump_decommit(4);
    aggregates.record_allocation(&thread, shard, 3);
    aggregates.record_deallocation_stats(&thread, shard, 3);
    aggregates.record_small_allocation(&thread, shard, 0, 8, 3);
    aggregates.record_small_deallocation(&thread, shard, 0, 3);
    aggregates.totals.begin_remote_free();
    aggregates.totals.finish_remote_free();
    aggregates.totals.record_remote_retired_free(false);
    aggregates.totals.record_remote_drain(1);
    aggregates.totals.record_unmapping(8);
    let counted = stats(&aggregates).unwrap();
    assert_eq!(counted.allocations, 2);
    assert_eq!(counted.allocated_bytes, 6);
    assert_eq!(counted.peak_live_bytes, 3);
    assert_eq!(counted.remote_frees, 2);
    assert_eq!(counted.drained_remote_blocks, 1);
    assert_eq!(counted.os_mappings, 1);
    assert_eq!(counted.os_unmappings, 1);
    let before = aggregates.aggregate_snapshot().unwrap();
    let after = aggregates.aggregate_snapshot().unwrap();
    assert!(!size_class_snapshots(&before, &after).is_empty());

    let mut tracking = Tracking::new();
    let mut caller = ThreadTracking::new();
    assert!(tracking.caller_snapshot().is_none());
    tracking.track_callers(&mut caller, true);
    let session = tracking.active_session();
    assert_ne!(session, 0);
    tracking.track_callers(&mut caller, true);
    assert_eq!(tracking.active_session(), session);
    tracking.track_callers(&mut caller, false);
}

#[test]
fn shards_of_threads_are_counted_together() {
    let mut aggregates = Aggregates::new();
    let thread = ThreadTelemetry::new();
    let first = aggregates.initialize_aggregate_shard(true);
    let second = aggregates.initialize_aggregate_shard(true);
    aggregates.record_allocation(&thread, first, 2_048);
    aggregates.record_deallocation_stats(&thread, second, 2_048);
    let counts = aggregates.aggregate_snapshot().unwrap();
    assert_eq!(counts.allocations, 1);
    assert_eq!(counts.deallocations, 1);
    let bucket = histogram_bucket(2_048);
    assert_eq!(bucket, 12);
    assert_eq!(counts.size_allocations[bucket], 1);
    assert_eq!(counts.size_live[bucket], 0);
}

#[test]
fn private_snapshot_encoders_cover_every_topology_kind() {
    let class = SizeClassSnapshot {
        class_index: 2,
        block_bytes: 64,
        live_allocations: Estimate::bounded(3, 2, 4),
        requested_bytes: Estimate::bounded(150, 120, 180),
        usable_bytes: Estimate::bounded(192, 128, 256),
    };
    assert_eq!(encode_estimate(class.live_allocations).value, 3);
    assert_eq!(encode_size_class(&class).block_bytes, 64);
    assert_eq!(encode_stats(sample_stats()).allocations, 11);

    let kinds = [
        PhysicalSliceKind::Unknown,
        PhysicalSliceKind::Small,
        PhysicalSliceKind::Medium,
        PhysicalSliceKind::MediumContinuation,
        PhysicalSliceKind::Bump,
    ];
    let region = RegionSnapshot {
        domain_id: 9,
        region_index: 4,
        base_address: 0x1000,
        reserved_bytes: 0x20_000,
        slice_bytes: 0x1_000,
        used_slices: kinds.len(),
        free_slices: 2,
        used_bitmap: vec![0x1f],
        slices: kinds
            .into_iter()
            .enumerate()
            .map(|(slice_index, kind)| PhysicalSliceSnapshot {
                slice_index,
                kind,
                span_slices: 1,
                owner: 17,
                requested_bytes: 20,
                usable_bytes: 32,
                segments: vec![PhysicalSegmentSnapshot {
                    segment_index: 1,
                    class_index: 2,
                    context: true,
                    live_blocks: 3,
                    usable_blocks: 4,
                    utilization_tracked: true,
                }],
            })
            .collect(),
    };
    assert_eq!(encode_region(&region).region_index, 4);
    let topology = encode_topology_region(&region);
    assert_eq!(topology.slices.len(), 5);
    assert_eq!(topology.slices[0].kind, EncodedSliceKind::Unknown);
    assert_eq!(topology.slices[1].kind, EncodedSliceKind::Small);
    assert_eq!(topology.slices[2].kind, EncodedSliceKind::Medium);
    assert_eq!(topology.slices[3].kind, EncodedSliceKind::MediumContinuation);
    assert_eq!(topology.slices[4].kind, EncodedSliceKind::Bump);
    assert_eq!(topology.slices[0].segments[0].live_blocks, 3);

    let domains = encode_domains(
        &vec![DomainSnapshot { domain_id: 9, is_default: true }, DomainSnapshot { domain_id: 10, is_default: false }],
        &vec![region],
    );
    assert_eq!(domains[0].small_slices, 1);
    assert_eq!(domains[0].medium_slices, 2);
    assert_eq!(domains[0].bump_slices, 1);
    assert_eq!(domains[0].unknown_slices, 1);
    assert_eq!(domains[1].region_count, 0);
}

fn event(event_thread_id: usize, sequence: usize, kind: EventKind, call_stack: Vec<usize>) -> Event {
    Event {
        thread_log_id: 7,
        event_thread_id,
        sequence,
        allocation_id: 8,
        kind,
        heap_id: 4,
        heap_kind: HeapKind::General,
        freed_after_heap_release: false,
        address: 0x1000,
        size: 16,
        align: 8,
        call_stack,
    }
}

#[test]
fn caller_encoding_and_address_details_are_deterministic() {
    let stack_address = 0x5555;
    let callers = CallerSnapshot {
        session_id: 3,
        total_events: 2,
        lost_events: 0,
        threads: vec![ThreadLog {
            thread_log_id: 7,
            total_events: 2,
            lost_events: 0,
            allocated_histogram: vec![0, 1],
            live_histogram: vec![0, 0],
        }],
        events: vec![
            event(7, 1, EventKind::Allocated, vec![0, stack_address]),
            event(9, 2, EventKind::Deallocated, Vec::new()),
        ],
        thread_names: vec![
            ThreadName { thread_id: 7, name: "allocator".to_owned() },
            ThreadName { thread_id: 9, name: "reclaimer".to_owned() },
        ],
    };
    let encoded = encode_callers(&callers);
    assert_eq!(encoded.events[0].kind, EncodedEventKind::Allocated);
    assert_eq!(encoded.events[1].kind, EncodedEventKind::Deallocated);
    assert_eq!(encoded.events[0].call_stack.len(), 2);
    assert_eq!(encoded.thread_names[1].name, "reclaimer");

    let addresses = stack_addresses(&callers.events);
    assert_eq!(addresses, vec![stack_address]);

    let mut lookup = AddressLookup { address: 0, symbol: None, filename: None, line: None, column: None };
    merge_address_lookup(&mut lookup, Some("first".into()), Some("first.rs".into()), Some(10), Some(20));
    merge_address_lookup(&mut lookup, Some("second".into()), Some("second.rs".into()), Some(30), Some(40));
    assert_eq!(lookup.symbol.as_deref(), Some("first"));
    assert_eq!(lookup.filename.as_deref(), Some("first.rs"));
    assert_eq!(lookup.line, Some(10));
    assert_eq!(lookup.column, Some(20));

    let symbols = vec![
        Symbol { name: None, filename: None, line: Some(4), column: None },
        Symbol { name: Some("inner".into()), filename: None, line: Some(9), column: Some(2) },
    ];
    let resolved = resolve_address(stack_address, symbols);
    assert_eq!(resolved.address, stack_address as u64);
    assert_eq!(resolved.symbol.as_deref(), Some("inner"));
    assert_eq!(resolved.line, Some(4));
    assert_eq!(resolved.column, Some(2));
}

#[test]
fn a_snapshot_needs_its_length_its_storage_and_its_bytes() {
    assert!(encode_snapshot_with(None, true, Some(vec![0])).is_none());
    assert!(encode_snapshot_with(Some(1), false, Some(vec![0])).is_none());
    assert!(encode_snapshot_with(Some(1), true, None).is_none());
    let snapshot = encode_snapshot_with(Some(1), true, Some(vec![7])).unwrap();
    assert_eq!(snapshot.as_bytes(), &[7]);
}

#[test]
fn stack_capture_clamps_to_its_fixed_buffer() {
    assert!(frames_to_capture(usize::MAX, 128) <= 64);
    let captured = (1..=64).collect::<Vec<usize>>();
    let frames = retained_frames(&captured, usize::MAX, 128);
    assert!(frames.len() <= 60);
    assert_eq!(frames[0], 5);
    assert_eq!(frames_to_capture(0, 128), 0);
}

#[test]
fn mappings_are_cut_to_their_alignment() {
    let plan = plan_mapping(10_000).unwrap();
    assert_eq!(plan.rounded_size, 12_288);
    assert_eq!(plan.mapping_size, 12_288 + 2 * 1024 * 1024);
    let cut = align_mapping(plan, 0x1000);
    assert_eq!(cut.address, 2 * 1024 * 1024);
    assert_eq!(cut.prefix_size, 2 * 1024 * 1024 - 0x1000);
    assert_eq!(cut.suffix, cut.address + 12_288);
    assert_eq!(cut.suffix_size, 0x1000);
    assert!(plan_mapping(usize::MAX).is_none());
    assert_eq!(monotonic_millis(3, 25_000_000), 3_025);
}
