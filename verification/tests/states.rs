use rallocator::allocator::blocks::pop_block;
use rallocator::allocator::bump::{
    BumpRelease, BumpState, CreatedBump, Placement, BUMP_CHUNK_SIZE, RETENTION_DECAY_INTERVAL,
};
use rallocator::allocator::classes::{
    allocation_segment, context_required_size, context_user_offset, direct_mapping_size, medium_slice_count, MAX_MEDIUM_ALIGNMENT,
    MEDIUM_MAX_SLICES, MEDIUM_REGION_BITMAP_WORDS, MEDIUM_REGION_SIZE, MEDIUM_REGION_SLICE_COUNT, MEDIUM_SLICE_SIZE,
};
use rallocator::allocator::direct::Records;
use rallocator::allocator::domains::DomainState;
use rallocator::allocator::heaps::{HeapState, Segment, SlabAllocation, SlabRequest};
use rallocator::allocator::layout::{align_up, Layout};
use rallocator::allocator::medium::{begin_medium, continue_medium, deallocate_medium, finish_medium, MediumStep};
use rallocator::allocator::rallocator::{take_matching_state, Rallocator};
use rallocator::allocator::refill::initialize_slab;
use rallocator::allocator::region::{PhysicalSliceKind, SpanOwner};
use rallocator::allocator::remote::{pop_remote_block, push_remote_available, RemoteHeap};
use rallocator::allocator::slab::{slab_block_layout, Slab, SLAB_MARKER, SLAB_SIZE};
use rallocator::allocator::slices::{find_free_slices, find_free_slices_in, insert_extent, mark_slices, take_extent, Extent};
use rallocator::allocator::snapshots::telemetry_region_snapshots;
use rallocator::allocator::space::Space;
use rallocator::allocator::table::SlabTable;
use rallocator::allocator::threads::ThreadState;
use rallocator::allocator::usage::general_heap_usage;
use rallocator::config::{CallerSettings, Standard as StandardConfig};
use rallocator::hints::backend::{Backend, Registry};
use rallocator::hints::bump::{Options, BUMP_SEGMENT_SIZE};
use rallocator::hints::domain::Domain;
use rallocator::hints::general::Options as GeneralOptions;
use rallocator::telemetry::callers::{ThreadTracking, Tracking};
use rallocator::telemetry::events::{HeapKind, TrackingAllocation};
use rallocator::telemetry::stacks::{stack_hash, StackTable};
use rallocator::telemetry::topology::{mark_continuations, PhysicalSliceSnapshot};
use rallocator::tunables::{Standard, Tuning, MAX_SIZE_CLASSES};

const BASE: usize = 1 << 32;
const WORD: Layout = Layout { size: 8, align: 8 };

fn layout(size: usize, align: usize) -> Layout {
    Layout::from_size_align(size, align).unwrap()
}

fn state(options: Options) -> BumpState {
    match BumpState::create(options, 1, BASE, 77) {
        CreatedBump::Created { mut state } => {
            assert!(state.reset_state(options).is_empty());
            state
        }
        _ => panic!("the heap has its chunk and its fallback"),
    }
}

fn space(bumps: Vec<BumpState>) -> Space {
    let mut space = Space::new(Tuning::of::<Standard>().unwrap());
    space.bumps = bumps;
    space
}

fn served(placement: Option<Placement>) -> usize {
    match placement {
        Some(Placement::Served { address }) => address,
        other => panic!("expected a block, not {other:?}"),
    }
}

fn place(state: &mut BumpState, layout: Layout) -> usize {
    match state.allocate(layout) {
        Some(Placement::NeedChunk) => {
            let chunk = BASE + state.chunks.len() * BUMP_CHUNK_SIZE;
            state.supply_chunk(chunk);
            served(state.allocate(layout))
        }
        placement => served(placement),
    }
}

#[test]
fn constructors_initialize_empty_runtime_state() {
    let state = ThreadState::new(0);
    assert_eq!(state.token, 0);
    assert_eq!(state.default_heap, 0);
    assert_eq!(state.remote_heap, 0);
    assert_eq!(state.active_heap, 0);
    assert_eq!(state.active_bump, 0);
    assert_eq!(state.active_remote, 0);
    assert_eq!(state.bump_pool.len(), 0);

    let remote = RemoteHeap::new(1, 2, 3, 1, GeneralOptions::new());
    assert_eq!(remote.classes.len(), MAX_SIZE_CLASSES);
    assert!(remote.classes.iter().all(|class| class.is_empty()));
    assert!(remote.context_classes.iter().all(|class| class.is_empty()));

    assert!(context_required_size(usize::MAX, 16).is_none());
    assert!(direct_mapping_size(usize::MAX, 16, 0).is_none());
}

#[test]
fn contiguous_latest_allocations_rewind_in_reverse_order() {
    let mut state = state(Options::new());
    let first = place(&mut state, WORD);
    let second = place(&mut state, WORD);
    let third = place(&mut state, WORD);

    state.deallocate(third, WORD, true);
    state.deallocate(second, WORD, true);
    assert_eq!(state.cursor, second);
    assert_eq!(state.used_bytes, WORD.size);

    assert_eq!(place(&mut state, WORD), second);
    assert_eq!(place(&mut state, WORD), third);

    state.deallocate(third, WORD, true);
    state.deallocate(second, WORD, true);
    state.deallocate(first, WORD, true);
    assert!(matches!(state.release_handle(), BumpRelease::Finished { .. }));
}

#[test]
fn tracked_latest_allocations_restore_alignment_padding() {
    let mut state = state(Options::new());
    let first_layout = layout(3, 1);
    let second_layout = layout(5, 8);
    let third_layout = layout(7, 32);
    let first = served(state.allocate_tracked(first_layout));
    let second = served(state.allocate_tracked(second_layout));
    let third = served(state.allocate_tracked(third_layout));

    let allocation = TrackingAllocation { log: 2, allocation_id: 5, heap_id: 3, heap_kind: HeapKind::Bump };
    state.set_tracking(third, allocation);
    let (logged, handle_gone, _) = state.deallocate_tracked(third, third_layout, true);
    assert_eq!(logged, allocation);
    assert!(!handle_gone);
    state.deallocate_tracked(second, second_layout, true);
    assert_eq!(served(state.allocate_tracked(second_layout)), second);
    assert_eq!(served(state.allocate_tracked(third_layout)), third);

    state.deallocate_tracked(third, third_layout, true);
    state.deallocate_tracked(second, second_layout, true);
    state.deallocate_tracked(first, first_layout, true);
    assert!(matches!(state.release_handle(), BumpRelease::Finished { .. }));
}

#[test]
fn non_latest_allocation_does_not_rewind_the_cursor() {
    let mut state = state(Options::new());
    let first = place(&mut state, WORD);
    let second = place(&mut state, WORD);
    let cursor = state.cursor;

    state.deallocate(first, WORD, true);
    assert_eq!(state.cursor, cursor);

    state.deallocate(second, WORD, true);
    state.release_handle();
}

#[test]
fn headerless_alignment_padding_stops_the_rewind_chain_safely() {
    let mut state = state(Options::new());
    let first_layout = layout(1, 1);
    let second_layout = layout(1, 64);
    let first = place(&mut state, first_layout);
    let second = place(&mut state, second_layout);
    assert_ne!(first + first_layout.size, second);

    state.deallocate(second, second_layout, true);
    assert_eq!(state.cursor, second);
    state.deallocate(first, first_layout, true);
    assert_eq!(state.cursor, second);

    state.release_handle();
}

#[test]
fn final_allocation_release_returns_state_without_a_handle() {
    let mut state = state(Options::new());
    let address = place(&mut state, WORD);
    assert!(matches!(state.release_handle(), BumpRelease::InUse));
    assert!(matches!(state.deallocate(address, WORD, false), BumpRelease::Finished { .. }));
    let mut pool = vec![state.address];
    assert_eq!(take_matching_state(&space(vec![state]), &mut pool, 1), Some(0));
    assert!(pool.is_empty());
}

#[test]
fn matching_state_removal_handles_a_non_head_domain() {
    let mut first = state(Options::new());
    let mut second = state(Options::new());
    first.domain = 1;
    second.domain = 2;
    second.address += BUMP_CHUNK_SIZE;
    first.release_handle();
    second.release_handle();
    let names = (first.address, second.address);
    let space = space(vec![first, second]);
    let mut pool = vec![names.1, names.0];
    assert_eq!(take_matching_state(&space, &mut pool, 2), Some(1));
    assert_eq!(pool, vec![names.0]);
    assert_eq!(take_matching_state(&space, &mut pool, 2), None);
    assert_eq!(pool, vec![names.0]);
}

#[test]
fn state_creation_and_fallback_restoration_report_allocation_failures() {
    assert!(matches!(BumpState::create(Options::new(), 1, 0, 0), CreatedBump::NoChunk));
    assert!(matches!(BumpState::create(Options::new(), 1, BASE, 0), CreatedBump::NoFallback { release: BASE }));

    let mut state = state(Options::new());
    let fallback = state.take_fallback_heap();
    assert_eq!(fallback, 77);
    assert!(!state.ensure_fallback_heap(0));
    assert!(state.ensure_fallback_heap(fallback));
    state.release_handle();
}

#[test]
fn state_thresholds_and_retention_cover_direct_lifecycle_paths() {
    let options = Options::new().with_retained_chunks(1).with_max_retained_chunks(4);
    let mut state = state(options);
    assert!(state.ensure_fallback_heap(0));
    assert!(state.allocate(layout(BUMP_SEGMENT_SIZE + 1, 1)).is_none());

    state.retention_target = 4;
    state.used_chunk_count = 1;
    for _ in 0..RETENTION_DECAY_INTERVAL {
        state.adapt_and_trim_state();
    }
    assert_eq!(state.retention_target, 3);
    assert!(matches!(state.release_handle(), BumpRelease::Finished { .. }));
}

#[test]
fn reset_reuses_available_chunks_and_zero_credits_need_no_release() {
    let options = Options::new().with_retained_chunks(2);
    let mut state = state(options);
    let half = layout(BUMP_SEGMENT_SIZE / 2, 16);
    let allocations = (0..5).map(|_| place(&mut state, half)).collect::<Vec<_>>();
    let chunks = state.chunks.len();
    assert!(chunks > 1);
    for address in allocations {
        state.deallocate(address, half, false);
    }
    assert!(matches!(state.release_handle(), BumpRelease::Finished { .. }));

    assert!(state.ensure_fallback_heap(77));
    state.reset_state(options);
    let kept = state.chunks.len();
    assert!(kept <= chunks);
    let addresses = (0..3).map(|_| served(state.allocate(half))).collect::<Vec<_>>();
    assert_eq!(state.chunks.len(), kept);
    for address in addresses {
        state.deallocate(address, half, false);
    }
    state.release_handle();
}

#[test]
fn allocation_rejects_address_overflow_and_exhausted_backing() {
    assert_eq!(align_up(usize::MAX, 2), None);
    let mut state = state(Options::new());
    let half = layout(BUMP_SEGMENT_SIZE / 2, 16);
    let first = served(state.allocate(half));
    let second = served(state.allocate(half));
    assert_ne!(first, second);
    // Without another chunk the heap cannot go on, and says so.
    let mut exhausted = 0;
    while let Some(Placement::Served { .. }) = state.allocate(half) {
        exhausted += 1;
    }
    assert!(exhausted < 4);
    state.deallocate(first, half, false);
    state.deallocate(second, half, false);
}

#[test]
fn usage_reports_the_chunk_that_a_new_heap_has() {
    let state = state(Options::new());
    assert_eq!(state.options, Options::new());
    assert_eq!(state.usage().committed_bytes, BUMP_CHUNK_SIZE);
    assert_eq!(state.usage().chunk_count, 1);
    assert_eq!(state.usage().live_allocations, 0);
}

#[test]
fn bitmap_and_extent_helpers_cover_wrapping_and_coalescing() {
    let mut used = vec![0; MEDIUM_REGION_BITMAP_WORDS];
    mark_slices(&mut used, 0, 2, true);
    mark_slices(&mut used, 4, 2, true);
    assert_eq!(find_free_slices(&used, 4, 2), Some(6));
    assert_eq!(find_free_slices_in(&used, MEDIUM_REGION_SLICE_COUNT - 1, MEDIUM_REGION_SLICE_COUNT, 2), None);
    mark_slices(&mut used, 0, 2, false);
    used.fill(u64::MAX);
    mark_slices(&mut used, 2, 2, false);
    assert_eq!(find_free_slices(&used, 4, 2), Some(2));

    let mut extents = Vec::new();
    insert_extent(&mut extents, 2, 3);
    insert_extent(&mut extents, 0, 2);
    insert_extent(&mut extents, 5, 3);
    assert_eq!(extents.len(), 1);
    assert_eq!(take_extent(&mut extents, 2), Some(0));
    assert_eq!(take_extent(&mut extents, 6), Some(2));
    assert!(take_extent(&mut extents, 1).is_none());
}

#[test]
fn exhausted_region_and_secondary_extents_cover_search_edges() {
    let mut domain = DomainState::new(1);
    let (full, _) = domain.allocate_slices(MEDIUM_REGION_SLICE_COUNT, Some(BASE)).unwrap();
    assert_eq!(full, BASE);
    assert!(domain.allocate_slices(1, None).is_none());

    let mut extents = vec![Extent { slice: 0, count: 1 }, Extent { slice: 2, count: 2 }];
    assert_eq!(take_extent(&mut extents, 2), Some(2));

    let mut extents = vec![Extent { slice: 0, count: 1 }, Extent { slice: 2, count: 3 }];
    assert_eq!(take_extent(&mut extents, 2), Some(2));
    assert_eq!(extents[1].slice, 4);
    assert_eq!(extents[1].count, 1);
}

#[test]
fn region_manager_expands_after_a_region_is_full() {
    let mut domain = DomainState::new(1);
    let (first, _) = domain.allocate_slices(MEDIUM_REGION_SLICE_COUNT, Some(BASE)).unwrap();
    let (second, appended) = domain.allocate_slices(1, Some(BASE + 3 * MEDIUM_REGION_SIZE)).unwrap();
    assert!(appended);
    assert!(second < first || second >= first + MEDIUM_REGION_SIZE);
    assert_eq!(domain.find_region(second), Some(domain.regions.len() - 1));
}

#[test]
fn slab_initialization_and_fallback_cover_capacity_edges() {
    let tuning = Tuning::of::<Standard>().unwrap();
    let (first_block, block_count) = slab_block_layout(tuning.sizes[0]);
    assert!(first_block < block_count);

    let mut domain = DomainState::new(1);
    let mut heap = HeapState::new(8, GeneralOptions::new(), 1, false);
    assert!(domain.allocate_slices(MEDIUM_REGION_SLICE_COUNT + 1, Some(BASE)).is_none());
    domain.allocate_slices(MEDIUM_REGION_SLICE_COUNT, Some(BASE)).unwrap();
    let (request, _) = heap.begin_slab(&mut domain, None, true);
    assert_eq!(request, SlabRequest::MapSlab);
}

#[test]
fn locality_slab_commit_failure_preserves_the_reserved_segment() {
    let mut domain = DomainState::new(1);
    let mut heap = HeapState::new(8, GeneralOptions::new(), 1, false);
    let (request, _) = heap.begin_slab(&mut domain, Some(BASE), true);
    assert_eq!(request, SlabRequest::CommitSegment { base: BASE, slices: 64 });
    let first = heap.finish_slab(&mut domain, request, Some(SLAB_SIZE)).unwrap();
    assert_eq!(first.address, BASE);

    let (request, _) = heap.begin_slab(&mut domain, None, true);
    assert_eq!(request, SlabRequest::CommitSlab { slab: BASE + SLAB_SIZE });
    assert!(heap.finish_slab(&mut domain, request, Some(SLAB_SIZE)).is_some());
    let (request, _) = heap.begin_slab(&mut domain, None, true);
    assert!(heap.finish_slab(&mut domain, request, Some(0)).is_some());

    let (request, _) = heap.begin_slab(&mut domain, None, true);
    assert!(heap.finish_slab(&mut domain, request, None).is_none());
    assert_eq!(heap.locality_next, BASE + 3 * SLAB_SIZE);
    assert_eq!(heap.locality_end, BASE + 64 * MEDIUM_SLICE_SIZE);
}

#[test]
fn bump_chunks_are_slices_from_shared_regions() {
    let mut domain = DomainState::new(5);
    let (chunk, _) = domain.allocate_slices(1, Some(BASE)).unwrap();
    let region = domain.find_region(chunk).unwrap();
    assert_eq!(domain.regions[region].domain, 5);
    domain.release_slices(chunk, 1);
}

#[test]
fn topology_snapshots_cover_continuations_and_truncated_spans() {
    let mut domain = DomainState::new(1);
    let (base, _) = domain.allocate_slices(12, Some(BASE)).unwrap();
    let region = &mut domain.regions[0];
    region.physical[0].kind = PhysicalSliceKind::Medium;
    region.physical[0].span = 3;
    region.physical[1].kind = PhysicalSliceKind::Small;
    region.physical[2].kind = PhysicalSliceKind::MediumContinuation;
    region.physical[11].kind = PhysicalSliceKind::Medium;
    region.physical[11].span = 2;

    let snapshots = telemetry_region_snapshots(&vec![domain]);
    let snapshot = snapshots.iter().find(|snapshot| snapshot.base_address == base).unwrap();
    assert_eq!(snapshot.used_slices, 12);
    assert_eq!(snapshot.slices[2].kind, PhysicalSliceKind::MediumContinuation);
    assert_eq!(allocation_segment(base + 123), base);
}

fn medium(heap: &mut HeapState, domain: &mut DomainState, layout: Layout, now: u64, committed: bool) -> usize {
    match begin_medium(heap, domain, layout, now, true) {
        MediumStep::Unfit => 0,
        MediumStep::Served { address } => address,
        MediumStep::Purge { spans } => {
            let decommitted = vec![true; spans.len()];
            let slices = medium_slice_count(layout).unwrap();
            match continue_medium(heap, domain, slices, &spans, &decommitted, Some(BASE)) {
                None => 0,
                Some((address, _)) => finish_medium(heap, domain, layout, address, committed),
            }
        }
    }
}

#[test]
fn medium_purge_releases_fixed_and_variable_spans() {
    let mut domain = DomainState::new(1);
    let mut heap = HeapState::new(8, GeneralOptions::from_values(MEDIUM_SLICE_SIZE, 0), 1, false);
    let fixed_layout = layout(MEDIUM_SLICE_SIZE, 16);
    let large_layout = layout((MEDIUM_MAX_SLICES + 1) * MEDIUM_SLICE_SIZE, 16);

    let fixed = medium(&mut heap, &mut domain, fixed_layout, 0, true);
    let large = medium(&mut heap, &mut domain, large_layout, 0, true);
    assert_ne!(fixed, 0);
    assert_ne!(large, 0);
    let owner = deallocate_medium(&mut heap, &mut domain, fixed, 1, 1_000);
    assert_eq!(owner, SpanOwner { heap: 8, retirable: false });
    deallocate_medium(&mut heap, &mut domain, large, MEDIUM_MAX_SLICES + 1, 1_000);

    assert!(domain.purge_medium(500, false).is_empty());
    assert!(!domain.regions[0].bins[0].free.is_empty());
    assert!(!domain.regions[0].large_free.is_empty());
    let spans = domain.purge_medium(1_001, false);
    assert_eq!(spans.len(), 2);
    assert!(domain.regions[0].bins[0].free.is_empty());
    assert!(domain.regions[0].large_free.is_empty());
    domain.finish_purge(&spans, &vec![true, true]);
    assert!(domain.purge_medium(1_001, true).is_empty());
}

#[test]
fn medium_purge_keeps_slices_reserved_when_decommit_fails() {
    let mut domain = DomainState::new(1);
    let mut heap = HeapState::new(8, GeneralOptions::from_values(MEDIUM_SLICE_SIZE, 0), 1, false);
    let fixed_layout = layout(MEDIUM_SLICE_SIZE, 16);
    let fixed = medium(&mut heap, &mut domain, fixed_layout, 0, true);
    deallocate_medium(&mut heap, &mut domain, fixed, 1, 1);
    let spans = domain.purge_medium(2, false);
    assert_eq!(spans.len(), 1);
    domain.finish_purge(&spans, &vec![false]);
    let (next, _) = domain.allocate_slices(1, None).unwrap();
    assert_ne!(next, fixed);
    domain.release_slices(fixed, 1);
}

#[test]
fn oversized_and_overaligned_spans_do_not_fit() {
    assert_eq!(medium_slice_count(layout(1, 2 * MAX_MEDIUM_ALIGNMENT)), None);
    assert_eq!(medium_slice_count(layout(MEDIUM_REGION_SIZE + MEDIUM_SLICE_SIZE, 16)), None);
    assert_eq!(medium_slice_count(layout(MEDIUM_SLICE_SIZE + 1, 16)), Some(2));
    assert_eq!(allocation_segment(0x1234_5678), 0x1234_0000);
    assert_eq!(context_user_offset(16), 16);
}

#[test]
fn slabs_hand_out_every_block_once() {
    let mut slab = Slab::new(BASE, SLAB_MARKER, 8, 64);
    let mut blocks = Vec::new();
    loop {
        let block = slab.take_local(256);
        if block == 0 {
            break;
        }
        assert!(!blocks.contains(&block));
        assert_eq!(block % 64, 0);
        blocks.push(block);
    }
    let (first, count) = slab_block_layout(64);
    assert_eq!(blocks.len(), count - first - 1);
    let tuning = Tuning::of::<Standard>().unwrap();
    let class = tuning.sizes.iter().position(|size| *size == 64).unwrap();
    slab.recycle(blocks[5], tuning.shifts[class], tuning.reciprocals[class]);
    assert_eq!(slab.take_local(256), blocks[5]);
    slab.push_remote(blocks[7], 0);
    assert_eq!(slab.take_local(256), 0);
    assert_eq!(slab.drain_remote(tuning.shifts[class], tuning.reciprocals[class]), 1);
    assert_eq!(slab.take_local(256), blocks[7]);
}

#[test]
fn stack_tables_name_equal_stacks_alike() {
    assert_eq!(stack_hash(&Vec::new()), 0xcbf2_9ce4_8422_2325);
    let mut table = StackTable::new(8);
    let first = table.replace(0, &vec![1, 2]);
    let second = table.replace(0, &vec![1, 2]);
    assert_eq!(first, second);
    let third = table.replace(0, &vec![3]);
    assert_ne!(first, third);
    assert_eq!(table.resolve(first), vec![1, 2]);
    assert_eq!(table.resolve(third), vec![3]);
}

#[test]
fn slow_refills_reuse_active_and_partial_slabs() {
    let tuning = Tuning::of::<Standard>().unwrap();
    let mut domain = DomainState::new(1);
    let mut heap = HeapState::new(77, GeneralOptions::new(), 1, false);
    let mut slabs = SlabTable::new();
    for (context, address) in [(false, BASE), (true, BASE + SLAB_SIZE)] {
        let segment = Segment { base: address, slices: 0, committed_bytes: SLAB_SIZE };
        let allocation = SlabAllocation { address, segment: Some(segment) };
        let first = initialize_slab(&mut heap, &mut slabs, &mut domain, &tuning, allocation, context, 0, false);
        assert_ne!(first, 0);
        assert_ne!(pop_block(&mut heap.small, &mut slabs, &tuning, context, 0).0, 0);
        let lists = if context { &mut heap.small.context_classes } else { &mut heap.small.classes };
        lists.hot[0].active = 0;
        lists.partial[0].push(address);
        assert_ne!(pop_block(&mut heap.small, &mut slabs, &tuning, context, 0).0, 0);

        // Nothing is left once every block is handed out.
        let mut served = 3;
        while pop_block(&mut heap.small, &mut slabs, &tuning, context, 0).0 != 0 {
            served += 1;
        }
        let (first_block, block_count) = slab_block_layout(16);
        assert_eq!(served, block_count - first_block);
        assert_eq!(pop_block(&mut heap.small, &mut slabs, &tuning, context, 0).0, 0);
    }
}

#[test]
fn tracking_target_creates_a_log_for_a_new_session() {
    let mut tracking = Tracking::new();
    let mut thread = ThreadTracking::new();
    let settings = CallerSettings::of::<StandardConfig>();
    tracking.track_callers(&mut thread, true);
    thread.invalidate_tracking_cache();
    assert!(tracking.tracking_target(&mut thread, settings).is_some());
    tracking.track_callers(&mut thread, false);
    thread.invalidate_tracking_cache();
}

fn class_slab(heap: &mut HeapState, slabs: &mut SlabTable, domain: &mut DomainState, address: usize, slices: usize, first: bool) -> usize {
    let tuning = Tuning::of::<Standard>().unwrap();
    let committed_bytes = if slices == 0 { SLAB_SIZE } else { slices * MEDIUM_SLICE_SIZE };
    let segment = if first { Some(Segment { base: address, slices, committed_bytes }) } else { None };
    initialize_slab(heap, slabs, domain, &tuning, SlabAllocation { address, segment }, false, 0, false)
}

#[test]
fn remote_available_retries_compare_exchange_failures() {
    let tuning = Tuning::of::<Standard>().unwrap();
    let mut domain = DomainState::new(1);
    let mut heap = HeapState::new(77, GeneralOptions::new(), 1, false);
    let mut slabs = SlabTable::new();
    let block = class_slab(&mut heap, &mut slabs, &mut domain, BASE, 0, true);
    let mut remote = RemoteHeap::new(78, 1, 77, 1, GeneralOptions::new());

    push_remote_available(&mut remote, &tuning, false, 0, block, &slabs);
    assert_eq!(remote.classes[0], vec![block]);

    assert_eq!(pop_remote_block(&mut remote, &tuning, false, 0, 1, &slabs), block);
    assert!(remote.classes[0].is_empty());
    assert_eq!(pop_remote_block(&mut remote, &tuning, false, 0, 1, &slabs), 0);
    assert_eq!(remote.usage.live_allocations, 1);
}

#[test]
fn allocator_propagates_hal_allocation_failures() {
    let mut registry = Registry::new();
    let backend = Backend::new(1);
    registry.register(backend);
    assert!(Domain::try_new(&registry, || None).is_none());

    let mut domain = DomainState::new(1);
    assert!(domain.allocate_slices(1, None).is_none());

    let mut heap = HeapState::new(8, GeneralOptions::new(), 1, false);
    for spare in [Some(BASE), None, None] {
        let (request, _) = heap.begin_slab(&mut domain, spare, true);
        assert!(matches!(request, SlabRequest::CommitSegment { slices: 64, .. }));
        assert!(heap.finish_slab(&mut domain, request, None).is_none());
    }

    let mut rallocator = Rallocator::new(Tuning::of::<Standard>().unwrap(), backend);
    let mut thread = ThreadState::new(7);
    assert!(!rallocator.ensure_default_heap(&mut thread, 0));
    assert_eq!(thread.default_heap, 0);

    assert!(matches!(BumpState::create(Options::new(), 1, BASE, 0), CreatedBump::NoFallback { release: BASE }));
}

#[test]
fn allocator_recovers_from_commit_and_decommit_failures() {
    let mut domain = DomainState::new(1);
    let mut heap = HeapState::new(8, GeneralOptions::new(), 1, false);
    let medium_layout = layout(MEDIUM_SLICE_SIZE, 16);
    assert_eq!(medium(&mut heap, &mut domain, medium_layout, 0, false), 0);

    // The span that got no memory is free again.
    assert!(domain.regions[0].used.iter().all(|word| *word == 0));

    // A slice stays taken where its memory could not be given back.
    let mut space = space(Vec::new());
    space.add_domain(true);
    let (chunk, _) = space.take_slice(1, Some(BASE)).unwrap();
    space.settle_chunk(1, chunk, false);
    assert!(space.domains[0].find_region(chunk).is_some());
    let (next, _) = space.take_slice(1, None).unwrap();
    assert_ne!(next, chunk);
    space.settle_chunk(1, chunk, true);
    assert_eq!(space.domains[0].regions[0].used[0], 0b10);
}

#[test]
fn direct_slab_usage_and_list_removal_cover_non_head_entries() {
    let tuning = Tuning::of::<Standard>().unwrap();
    let mut domain = DomainState::new(1);
    let mut heap = HeapState::new(77, GeneralOptions::new(), 1, true);
    let mut slabs = SlabTable::new();
    let records = Records { extras: Vec::new() };

    assert_ne!(class_slab(&mut heap, &mut slabs, &mut domain, BASE, 0, true), 0);
    let usage = general_heap_usage(&heap, &slabs, &tuning, &domain, &records, None);
    assert_eq!(usage.reserved_bytes(), SLAB_SIZE);

    let segment = BASE + MEDIUM_SLICE_SIZE;
    assert_ne!(class_slab(&mut heap, &mut slabs, &mut domain, segment, 1, true), 0);
    assert_ne!(class_slab(&mut heap, &mut slabs, &mut domain, segment + SLAB_SIZE, 0, false), 0);
    heap.locality_segment = 0;
    heap.locality_next = 0;
    heap.locality_end = 0;
    let usage = general_heap_usage(&heap, &slabs, &tuning, &domain, &records, None);
    assert!(usage.reserved_bytes() >= MEDIUM_SLICE_SIZE + SLAB_SIZE);
}

#[test]
fn every_session_has_a_number_of_its_own() {
    let mut tracking = Tracking::new();
    let mut thread = ThreadTracking::new();
    tracking.track_callers(&mut thread, true);
    let first = tracking.active_session;
    assert_ne!(first, 0);
    tracking.track_callers(&mut thread, true);
    assert_eq!(tracking.active_session, first);
    tracking.track_callers(&mut thread, false);
    assert_eq!(tracking.active_session, 0);
    assert_eq!(tracking.last_session, first);
    tracking.track_callers(&mut thread, true);
    assert_eq!(tracking.active_session, first + 1);
}

#[test]
fn bump_heaps_count_the_bytes_of_their_live_blocks() {
    let mut state = state(Options::new());
    let first = place(&mut state, layout(8, 8));
    let second = place(&mut state, layout(24, 8));
    let third = place(&mut state, layout(16, 16));
    assert_eq!(state.live_requested_bytes, 48);
    assert!(matches!(state.deallocate(first, layout(8, 8), true), BumpRelease::InUse));
    assert_eq!(state.live_requested_bytes, 40);
    assert!(matches!(state.deallocate(third, layout(16, 16), true), BumpRelease::InUse));
    assert_eq!(state.live_requested_bytes, 24);
    assert!(matches!(state.deallocate(second, layout(24, 8), true), BumpRelease::InUse));
    assert_eq!(state.live_requested_bytes, 0);
}

#[test]
fn logged_blocks_need_room_behind_two_headers() {
    let mut state = state(Options::new());
    let fits = layout(BUMP_SEGMENT_SIZE - 56, 8);
    let overhangs = layout(BUMP_SEGMENT_SIZE - 55, 8);
    assert!(state.serves_tracked(fits));
    assert!(state.serves_tracked(overhangs));
    assert!(state.is_roomy());
    assert!(!state.is_spent(fits, true));
    assert!(!state.is_spent(overhangs, false));
    assert!(state.serves_tracked(layout(BUMP_SEGMENT_SIZE - 48, 8)));
    assert!(!state.serves_tracked(layout(BUMP_SEGMENT_SIZE - 31, 8)));
    assert!(matches!(state.allocate_tracked(overhangs), Some(Placement::NeedChunk)));
    assert_eq!(state.credits, 0);
    assert_eq!(state.end, state.chunks[0] + 2 * BUMP_SEGMENT_SIZE);
    assert!(!state.is_spent(overhangs, true));
}

#[test]
fn purges_leave_what_is_not_due() {
    let mut domain = DomainState::new(1);
    let mut heap = HeapState::new(8, GeneralOptions::from_values(MEDIUM_SLICE_SIZE, 0), 1, false);
    let one = layout(MEDIUM_SLICE_SIZE, 16);
    let two = layout(2 * MEDIUM_SLICE_SIZE, 16);
    let early = medium(&mut heap, &mut domain, one, 0, true);
    let late = medium(&mut heap, &mut domain, two, 0, true);
    deallocate_medium(&mut heap, &mut domain, early, 1, 100);
    deallocate_medium(&mut heap, &mut domain, late, 2, 200);
    let spans = domain.purge_medium(150, false);
    assert_eq!(spans.len(), 1);
    assert_eq!(spans[0].address, early);
    assert!(domain.regions[0].bins[0].free.is_empty());
    assert_eq!(domain.regions[0].bins[0].purge_after, 0);
    assert_eq!(domain.regions[0].bins[1].free.len(), 1);
    assert_eq!(domain.regions[0].bins[1].purge_after, 200);
}

#[test]
fn bins_wait_until_their_last_span_is_taken() {
    let mut domain = DomainState::new(1);
    let mut heap = HeapState::new(8, GeneralOptions::from_values(MEDIUM_SLICE_SIZE, 0), 1, false);
    let one = layout(MEDIUM_SLICE_SIZE, 16);
    let first = medium(&mut heap, &mut domain, one, 0, true);
    let second = medium(&mut heap, &mut domain, one, 0, true);
    deallocate_medium(&mut heap, &mut domain, first, 1, 100);
    deallocate_medium(&mut heap, &mut domain, second, 1, 200);
    assert_eq!(domain.regions[0].bins[0].free.len(), 2);
    assert_eq!(domain.take_kept(one), Some(second));
    assert_eq!(domain.regions[0].bins[0].free.len(), 1);
    assert_eq!(domain.regions[0].bins[0].purge_after, 100);
    assert_eq!(domain.take_kept(one), Some(first));
    assert_eq!(domain.regions[0].bins[0].purge_after, 0);
    assert_eq!(domain.take_kept(one), None);
}

#[test]
fn extents_wait_until_the_last_of_them_is_taken() {
    let mut domain = DomainState::new(1);
    let mut heap = HeapState::new(8, GeneralOptions::from_values(MEDIUM_SLICE_SIZE, 0), 1, false);
    let small = layout((MEDIUM_MAX_SLICES + 1) * MEDIUM_SLICE_SIZE, 16);
    let large = layout(2 * (MEDIUM_MAX_SLICES + 1) * MEDIUM_SLICE_SIZE, 16);
    let span = medium(&mut heap, &mut domain, large, 0, true);
    deallocate_medium(&mut heap, &mut domain, span, 2 * (MEDIUM_MAX_SLICES + 1), 100);
    assert_eq!(domain.take_kept(small), Some(span));
    assert_eq!(domain.regions[0].large_free.len(), 1);
    assert_eq!(domain.regions[0].large_purge_after, 100);
    assert_eq!(domain.take_kept(small), Some(span + (MEDIUM_MAX_SLICES + 1) * MEDIUM_SLICE_SIZE));
    assert!(domain.regions[0].large_free.is_empty());
    assert_eq!(domain.regions[0].large_purge_after, 0);
}

#[test]
fn spans_of_any_length_are_continued_as_far_as_slices_follow() {
    let slice = |slice_index: usize, kind: PhysicalSliceKind, span_slices: usize| PhysicalSliceSnapshot {
        slice_index,
        kind,
        span_slices,
        owner: 5,
        requested_bytes: 0,
        usable_bytes: 0,
        segments: Vec::new(),
    };
    let last = usize::MAX;
    let mut slices = vec![
        slice(last - 1, PhysicalSliceKind::Medium, usize::MAX),
        slice(last, PhysicalSliceKind::Unknown, 0),
        slice(0, PhysicalSliceKind::Unknown, 0),
    ];
    mark_continuations(&mut slices);
    assert_eq!(slices[1].kind, PhysicalSliceKind::MediumContinuation);
    assert_eq!(slices[2].kind, PhysicalSliceKind::Unknown);
}
