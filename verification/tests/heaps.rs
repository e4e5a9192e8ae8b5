use rallocator::allocator::accounting::{count_freed, count_mapping, count_returned, count_served};
use rallocator::allocator::allocation::{AllocOptions, AllocStep, ServedKind};
use rallocator::allocator::bump::BumpRelease;
use rallocator::allocator::deallocation::{FreeStep, FreedTo};
use rallocator::allocator::heaps::SlabRequest;
use rallocator::allocator::layout::Layout;
use rallocator::allocator::logging::logged_heap;
use rallocator::allocator::retire::StorageRelease;
use rallocator::allocator::rallocator::{CreateStep, DestroyStep, Rallocator};
use rallocator::allocator::snapshots::{telemetry_domain_snapshots, telemetry_region_snapshots};
use rallocator::allocator::threads::ThreadState;
use rallocator::config::{CallerSettings, Standard as StandardConfig};
use rallocator::hints::backend::{Backend, Registry};
use rallocator::hints::bump::Options as BumpOptions;
use rallocator::hints::domain::Domain;
use rallocator::hints::general::Options as GeneralOptions;
use rallocator::hints::heap::{thread_heap, Access, Controls, CreationError, Heap, Info, InfoKind, Options, Usage};
use rallocator::hints::{Error, Hint, HintState};
use rallocator::telemetry::addresses::{resolve_address, stack_addresses};
use rallocator::telemetry::aggregates::{stats, Aggregates, ThreadTelemetry};
use rallocator::telemetry::callers::{PendingTracking, ThreadTracking, Tracking};
use rallocator::telemetry::encode::{EncodedEventKind, EncodedHeapKind, EncodedSliceKind};
use rallocator::telemetry::events::{HeapKind, TrackingAllocation};
use rallocator::telemetry::snapshot::{build_snapshot, EncodedSnapshot, Version};
use rallocator::telemetry::stats::Stats;
use rallocator::telemetry::topology::RegionSnapshot;
use rallocator::tunables::{Standard, Tuning};

const SLICE: usize = 64 * 1024;
const REGION: usize = 1024 * 1024 * 1024;
const SLAB: usize = 32 * 1024;
const STORAGE: usize = 4096;

/// A stand-in for the system's memory: addresses without bytes.
struct System {
    next: usize,
    reserved: Option<usize>,
    maps: usize,
    unmaps: usize,
    fail_reserve: bool,
    fail_map: bool,
    fail_commit: bool,
    fail_decommit: bool,
    commits_left: usize,
}

impl System {
    fn new() -> System {
        System {
            next: 1 << 33,
            reserved: None,
            maps: 0,
            unmaps: 0,
            fail_reserve: false,
            fail_map: false,
            fail_commit: false,
            fail_decommit: false,
            commits_left: usize::MAX,
        }
    }

    fn take(&mut self, bytes: usize) -> usize {
        let address = self.next;
        self.next += bytes.div_ceil(REGION) * REGION;
        address
    }

    fn map(&mut self, bytes: usize) -> usize {
        if std::mem::take(&mut self.fail_map) {
            return 0;
        }
        self.maps += 1;
        self.take(bytes)
    }

    fn spare(&mut self) -> Option<usize> {
        if self.fail_reserve {
            return None;
        }
        if self.reserved.is_none() {
            self.reserved = Some(self.take(REGION));
        }
        self.reserved
    }

    fn settle(&mut self, used: bool) {
        if used {
            self.reserved = None;
        }
    }

    fn commit(&mut self) -> bool {
        if self.commits_left == 0 {
            return false;
        }
        self.commits_left -= 1;
        !std::mem::take(&mut self.fail_commit)
    }

    fn decommit(&mut self) -> bool {
        !std::mem::take(&mut self.fail_decommit)
    }
}

/// A process with one thread.
struct World {
    system: System,
    rallocator: Rallocator,
    hints: HintState,
    registry: Registry,
    thread: ThreadState,
    aggregates: Aggregates,
    telemetry: ThreadTelemetry,
    shard: usize,
    tracking: Tracking,
    caller: ThreadTracking,
    settings: CallerSettings,
    frames: Vec<usize>,
    track_callers: bool,
    now: u64,
    kind: Option<ServedKind>,
    freed_to: Option<FreedTo>,
    gone: Vec<usize>,
}

fn tuning() -> Tuning {
    Tuning::of::<Standard>().unwrap()
}

fn layout(size: usize, align: usize) -> Layout {
    Layout::from_size_align(size, align).unwrap()
}

fn settle_chunks(rallocator: &mut Rallocator, system: &mut System, domain: usize, chunks: Vec<usize>) {
    for chunk in chunks {
        let decommitted = system.decommit();
        rallocator.space.settle_chunk(domain, chunk, decommitted);
    }
}

fn create(rallocator: &mut Rallocator, thread: &mut ThreadState, system: &mut System, options: Options) -> Result<rallocator::hints::backend::RawHeap, CreationError> {
    let spare = system.spare();
    let (mut step, used) = rallocator.create_heap(thread, options, spare);
    system.settle(used);
    loop {
        step = match step {
            CreateStep::Failed => return Err(CreationError::CreationFailed),
            CreateStep::General { options, domain } => {
                let storage = system.map(STORAGE);
                return rallocator.finish_general(options, domain, storage);
            }
            CreateStep::Chunk { options, domain, chunk } => {
                let committed = system.commit();
                rallocator.finish_chunk(options, domain, chunk, committed)
            }
            CreateStep::Fallback { options, domain, chunk } => {
                let storage = system.map(STORAGE);
                rallocator.finish_bump(options, domain, chunk, storage)
            }
            CreateStep::Pooled { options, bump } => {
                let storage = system.map(STORAGE);
                rallocator.finish_pooled(thread, options, bump, storage)
            }
            CreateStep::Release { domain, chunk } => {
                settle_chunks(rallocator, system, domain, vec![chunk]);
                return Err(CreationError::CreationFailed);
            }
            CreateStep::Created { heap, domain, trimmed } => {
                settle_chunks(rallocator, system, domain, trimmed);
                return Ok(heap);
            }
        };
    }
}

impl World {
    fn new() -> World {
        World::with_tuning(tuning())
    }

    fn with_tuning(tuning: Tuning) -> World {
        let backend = Backend::new(1);
        let mut registry = Registry::new();
        registry.register(backend);
        let mut aggregates = Aggregates::new();
        let shard = aggregates.initialize_aggregate_shard(true);
        World {
            system: System::new(),
            rallocator: Rallocator::new(tuning, backend),
            hints: HintState::new(),
            registry,
            thread: ThreadState::new(7),
            aggregates,
            telemetry: ThreadTelemetry::new(),
            shard,
            tracking: Tracking::new(),
            caller: ThreadTracking::new(),
            settings: CallerSettings::of::<StandardConfig>(),
            frames: vec![0x10, 0x20],
            track_callers: false,
            now: 10,
            kind: None,
            freed_to: None,
            gone: Vec::new(),
        }
    }

    fn options(&self, logged: bool) -> AllocOptions {
        AllocOptions { track_callers: self.track_callers, track_aggregates: true, logged, now: self.now }
    }

    fn track(&mut self, enabled: bool) {
        self.track_callers = true;
        self.tracking.track_callers(&mut self.caller, enabled);
    }

    fn log(&mut self, pending: PendingTracking, address: usize, layout: Layout, kind: ServedKind) {
        let token = self.thread.token;
        let Some((heap_id, heap_kind)) = logged_heap(&self.thread, kind) else {
            return;
        };
        let allocation = self.tracking.commit(pending, address, layout, heap_id, heap_kind, token, &self.frames);
        if kind == ServedKind::Bump {
            let bump = self.rallocator.space.find_bump(self.thread.active_bump).unwrap();
            self.rallocator.space.log_bump(bump, address, allocation);
        } else {
            self.rallocator.space.log_record(address, allocation);
        }
    }

    fn unlog(&mut self, allocation: TrackingAllocation, address: usize, layout: Layout, late: bool) {
        self.tracking.record_deallocation(allocation, address, layout, late, self.thread.token, &self.frames);
    }

    fn serve(&mut self, layout: Layout) -> usize {
        let pending = if self.track_callers { self.tracking.begin_allocation(&mut self.caller, self.settings) } else { None };
        let options = self.options(pending.is_some());
        let spare = self.system.spare();
        let (mut step, mut used, mut drained) = self.rallocator.space.allocate(&self.thread, layout, options, spare);
        loop {
            self.system.settle(used);
            self.aggregates.totals.record_remote_drain(drained as usize);
            used = false;
            drained = 0;
            step = match step {
                AllocStep::Failed => return 0,
                AllocStep::Served { address, kind } => {
                    count_served(
                        &mut self.aggregates,
                        &self.telemetry,
                        self.shard,
                        &self.rallocator.space.tuning.sizes,
                        layout,
                        kind,
                    );
                    self.kind = Some(kind);
                    if matches!(kind, ServedKind::Small { .. } | ServedKind::Recorded { .. }) {
                        self.rallocator.space.update_physical_small_live_blocks(address, true);
                    }
                    if let Some(pending) = pending {
                        self.log(pending, address, layout, kind);
                    }
                    assert_ne!(address, 0);
                    assert_eq!(address % layout.align, 0);
                    return address;
                }
                AllocStep::MapHeap => {
                    let storage = self.system.map(STORAGE);
                    if !self.rallocator.ensure_default_heap(&mut self.thread, storage) {
                        return 0;
                    }
                    let spare = self.system.spare();
                    let (next, took, back) = self.rallocator.space.allocate_with_heap(&self.thread, layout, options, spare);
                    used = took;
                    drained = back;
                    next
                }
                AllocStep::Refill { heap, request, class, recorded } => {
                    let reply = match request {
                        SlabRequest::CommitSlab { .. } => if self.system.commit() { Some(SLAB) } else { None },
                        SlabRequest::CommitSegment { .. } => if self.system.commit() { Some(SLAB) } else { None },
                        SlabRequest::MapSlab => match self.system.map(SLAB) {
                            0 => None,
                            address => Some(address),
                        },
                    };
                    if reply.is_some() {
                        count_mapping(
                            &mut self.aggregates.totals,
                            &AllocStep::Refill { heap, request, class, recorded },
                            layout,
                            SLAB,
                        );
                    }
                    self.rallocator.space.allocate_refilled(layout, heap, request, class, recorded, reply, options)
                }
                AllocStep::Slice { heap, remote, slice, class, recorded } => {
                    let committed = self.system.commit();
                    self.rallocator.space.allocate_sliced(layout, heap, remote, slice, class, recorded, committed, options)
                }
                AllocStep::Purge { heap, spans } => {
                    let mut decommitted = Vec::new();
                    for span in &spans {
                        let gone = self.system.decommit();
                        if gone {
                            self.aggregates.totals.record_unmapping(span.slices * SLICE);
                        }
                        decommitted.push(gone);
                    }
                    let spare = self.system.spare();
                    let (next, took) = self.rallocator.space.allocate_purged(layout, heap, &spans, &decommitted, spare);
                    used = took;
                    next
                }
                AllocStep::Span { heap, address } => {
                    let committed = self.system.commit();
                    if committed {
                        count_mapping(&mut self.aggregates.totals, &AllocStep::Span { heap, address }, layout, 0);
                    }
                    self.rallocator.space.allocate_spanned(layout, heap, address, committed)
                }
                AllocStep::Chunk { bump, chunk, logged } => {
                    let committed = chunk.is_some() && self.system.commit();
                    if committed {
                        self.aggregates.totals.record_bump_commit(SLICE);
                    }
                    let spare = self.system.spare();
                    let (next, took, back) = self
                        .rallocator
                        .space
                        .allocate_chunked(&self.thread, layout, bump, chunk, logged, committed, options, spare);
                    used = took;
                    drained = back;
                    next
                }
                AllocStep::Mapping { plan, recorded, owner } => {
                    let mapping = self.system.map(plan.mapping_size);
                    if mapping != 0 {
                        count_mapping(&mut self.aggregates.totals, &AllocStep::Mapping { plan, recorded, owner }, layout, 0);
                    }
                    self.rallocator.space.allocate_mapped(layout, plan, recorded, owner, mapping)
                }
            };
        }
    }

    fn free(&mut self, address: usize, layout: Layout) {
        let step = self.rallocator.space.deallocate(&self.thread, address, layout, self.now + 1_000);
        count_freed(&mut self.aggregates, &self.telemetry, self.shard, layout, &step);
        count_returned(&mut self.aggregates.totals, &self.telemetry, &self.rallocator.space, &step);
        match step {
            FreeStep::Small { to, .. } => {
                self.rallocator.space.update_physical_small_live_blocks(address, false);
                self.came_back(to);
            }
            FreeStep::Recorded { extra, to } => {
                self.rallocator.space.update_physical_small_live_blocks(address, false);
                self.unlog(extra.tracking, address, layout, false);
                self.came_back(to);
            }
            FreeStep::Medium { gone } => self.gone.extend(gone),
            FreeStep::Direct { extra, gone } => {
                self.gone.extend(gone);
                self.unlog(extra.tracking, address, layout, false);
                self.system.unmaps += 1;
                self.aggregates.totals.record_unmapping(extra.mapping_size);
            }
            FreeStep::Bump { bump, header, release } => {
                if let Some((allocation, late)) = header {
                    self.unlog(allocation, address, layout, late);
                }
                if let BumpRelease::Finished { trimmed } = release {
                    self.pool(bump, trimmed);
                }
            }
        }
    }

    fn came_back(&mut self, to: FreedTo) {
        self.freed_to = Some(to);
        let heap = match to {
            FreedTo::Own { heap } | FreedTo::Queued { heap } => heap,
            FreedTo::Listed { .. } => return,
        };
        let (releases, gone) = self.rallocator.space.release_retired(heap);
        if gone {
            self.gone.push(self.rallocator.space.heaps[heap].address);
        }
        self.give_up(self.rallocator.space.heaps[heap].domain, releases);
    }

    fn give_up(&mut self, domain: usize, releases: Vec<StorageRelease>) {
        for release in releases {
            if release.direct_mapping {
                self.system.unmaps += 1;
                self.aggregates.totals.record_unmapping(release.release_bytes);
                continue;
            }
            let decommitted = release.committed_bytes == 0 || self.system.decommit();
            if decommitted && release.committed_bytes != 0 {
                self.aggregates.totals.record_unmapping(release.committed_bytes);
            }
            self.rallocator.space.settle_chunk(domain, release.address, decommitted);
        }
    }

    fn retire(&mut self, name: usize) -> usize {
        let heap = self.rallocator.space.find_heap(name).unwrap();
        let domain = self.rallocator.space.heaps[heap].domain;
        let departure = self.rallocator.space.retire_general_heap(heap);
        for span in departure.spans {
            let decommitted = self.system.decommit();
            if decommitted {
                self.aggregates.totals.record_unmapping(span.slices * SLICE);
            }
            self.rallocator.space.settle_span(domain, span, decommitted);
        }
        self.give_up(domain, departure.releases);
        self.aggregates.totals.record_remote_drain(departure.drained);
        if departure.retained == 0 {
            self.gone.push(name);
        }
        departure.retained
    }

    fn pool(&mut self, bump: usize, trimmed: Vec<usize>) {
        let domain = self.rallocator.space.bumps[bump].domain;
        settle_chunks(&mut self.rallocator, &mut self.system, domain, trimmed);
        let retired = self.rallocator.return_pooled_bump(&mut self.thread, bump);
        self.retire(retired);
    }

    fn try_heap(&mut self, options: Options) -> Result<Heap, CreationError> {
        Heap::try_with_options(&self.registry, &mut self.hints.controls, options, |options| {
            create(&mut self.rallocator, &mut self.thread, &mut self.system, options)
        })
    }

    fn bump(&mut self, options: BumpOptions) -> Heap {
        self.try_heap(Options::bump(options)).unwrap()
    }

    fn pooled(&mut self, options: BumpOptions) -> Heap {
        Heap::from_thread_pool(&self.registry, &mut self.hints.controls, options, |options| {
            create(&mut self.rallocator, &mut self.thread, &mut self.system, options)
        })
    }

    fn pooled_in(&mut self, domain: Domain, options: BumpOptions) -> Heap {
        Heap::from_thread_pool_in(&self.registry, &mut self.hints.controls, domain, options, |options| {
            create(&mut self.rallocator, &mut self.thread, &mut self.system, options)
        })
    }

    fn domain(&mut self) -> Domain {
        Domain::new(&self.registry, || Some(self.rallocator.create_domain()))
    }

    fn enter<R>(&mut self, hint: Hint, operation: impl FnOnce(&mut World) -> R) -> R {
        assert!(self.hints.accepts(hint));
        let snapshot = self.hints.enter(hint, 1);
        self.thread.set_active_hint(&self.rallocator.space, self.hints.context.active);
        let result = operation(self);
        self.hints.restore(hint, snapshot);
        self.thread.set_active_hint(&self.rallocator.space, self.hints.context.active);
        if let Some(identity) = hint.heap {
            self.unshare(identity);
        }
        result
    }

    fn with_heap<R>(&mut self, heap: &Heap, operation: impl FnOnce(&mut World) -> R) -> R {
        let hint = Hint::new().with_heap(heap, &mut self.hints.controls).0;
        self.enter(hint, operation)
    }

    fn unshare(&mut self, identity: usize) {
        if let Some(hint) = self.hints.controls.unshare(identity) {
            match self.rallocator.destroy_hint(&mut self.thread, hint) {
                DestroyStep::Pooled { bump, trimmed, retired } => {
                    let domain = self.rallocator.space.bumps[bump].domain;
                    settle_chunks(&mut self.rallocator, &mut self.system, domain, trimmed);
                    if retired != 0 {
                        self.retire(retired);
                    }
                }
                DestroyStep::Retire { heap } => {
                    self.retire(heap);
                }
                DestroyStep::InUse | DestroyStep::Kept => {}
            }
        }
    }

    fn drop_heap(&mut self, heap: Heap) {
        self.unshare(heap.identity());
    }

    fn inspect<R>(&mut self, heap: &Heap, read: impl FnOnce(&Rallocator, &ThreadState, rallocator::hints::backend::RawHint, bool) -> R) -> R {
        let access = heap.begin_access(&mut self.hints.controls, &self.hints.context);
        let active = match access {
            Access::Granted(active) => active,
            Access::Claimed => false,
            Access::Busy => panic!("the heap is claimed elsewhere"),
        };
        let hint = self.hints.controls.controls[heap.identity() - 1].hint;
        let result = read(&self.rallocator, &self.thread, hint, active);
        heap.end_access(&mut self.hints.controls, access);
        result
    }

    fn info(&mut self, heap: &Heap) -> Info {
        self.inspect(heap, |rallocator, thread, hint, active| rallocator.heap_info(thread, hint, active))
    }

    fn usage(&mut self, heap: &Heap) -> Result<Usage, Error> {
        self.inspect(heap, |rallocator, thread, hint, _| rallocator.heap_usage(thread, hint))
    }

    fn stats(&self) -> Stats {
        stats(&self.aggregates).unwrap()
    }
}

const WORD: Layout = Layout { size: 8, align: 8 };

#[test]
fn bump_heaps_and_their_pools_preserve_domain_identity() {
    let mut world = World::new();
    let domain = world.domain();
    let heap = world.pooled_in(domain, BumpOptions::new());
    assert_eq!(world.info(&heap).domain(), domain);
    let first_address = world.with_heap(&heap, |world| world.serve(WORD));
    world.free(first_address, WORD);
    world.drop_heap(heap);

    let default_heap = world.pooled(BumpOptions::new());
    let default_value = world.with_heap(&default_heap, |world| world.serve(WORD));
    assert_ne!(default_value, first_address);
    world.free(default_value, WORD);
    world.drop_heap(default_heap);

    let heap = world.pooled_in(domain, BumpOptions::new());
    let value = world.with_heap(&heap, |world| world.serve(WORD));
    assert_eq!(value, first_address);
}

#[test]
fn bump_info_and_usage_report_configuration_and_live_bytes() {
    let mut world = World::new();
    let options = BumpOptions::new().with_max_allocation_bytes(1024).with_retained_chunks(2);
    let heap = world.bump(options);
    let info = world.info(&heap);
    let InfoKind::Bump(bump_info) = info.kind() else {
        panic!("expected bump heap info");
    };
    assert_eq!(bump_info.options(), options);
    assert!(!info.is_active());

    let bytes = layout(48, 1);
    let hint = Hint::new().with_heap(&heap, &mut world.hints.controls).0;
    let value = world.enter(hint, |world| {
        assert!(world.info(&heap).is_active());
        let value = world.serve(bytes);
        let usage = world.usage(&heap).unwrap();
        assert_eq!(usage.live_allocations(), 1);
        assert_eq!(usage.live_requested_bytes(), 48);
        assert_eq!(usage.live_usable_bytes(), 48);
        value
    });
    world.free(value, bytes);
    assert!(world.usage(&heap).unwrap().is_empty());
}

#[test]
fn ordinary_global_allocations_use_the_active_bump_heap() {
    let mut world = World::new();
    let heap = world.bump(BumpOptions::new());
    let value = world.with_heap(&heap, |world| world.serve(WORD));

    assert_eq!(world.kind, Some(ServedKind::Bump));
    assert_eq!(world.usage(&heap).unwrap().bump().unwrap().allocation_count(), 1);
    assert_eq!(world.usage(&heap).unwrap().live_allocations(), 1);

    world.free(value, WORD);
    assert!(world.usage(&heap).unwrap().is_empty());
}

#[test]
fn reverse_order_frees_reuse_the_active_bump_tail() {
    let mut world = World::new();
    let heap = world.bump(BumpOptions::new());

    world.with_heap(&heap, |world| {
        let first = world.serve(WORD);
        let second = world.serve(WORD);
        let third = world.serve(WORD);

        world.free(third, WORD);
        world.free(second, WORD);

        assert_eq!(world.serve(WORD), second);
        assert_eq!(world.serve(WORD), third);

        world.free(third, WORD);
        world.free(second, WORD);
        world.free(first, WORD);
    });
    assert!(world.usage(&heap).unwrap().is_empty());
}

#[test]
fn allocations_cross_the_second_chunk_segment() {
    let mut world = World::new();
    let heap = world.bump(BumpOptions::new());
    let bytes = layout(128, 1);
    let values = world.with_heap(&heap, |world| (0..400).map(|_| world.serve(bytes)).collect::<Vec<_>>());

    assert!(world.usage(&heap).unwrap().bump().unwrap().cursor_used_bytes() > 32 * 1024);
    assert_eq!(values.len(), 400);
    for value in values {
        world.free(value, bytes);
    }
    assert!(world.usage(&heap).unwrap().is_empty());
}

#[test]
fn nested_bump_heaps_restore_the_previous_heap() {
    let mut world = World::new();
    let outer = world.bump(BumpOptions::new());
    let inner = world.bump(BumpOptions::new());

    let (outer_first, inner_value, outer_second) = world.with_heap(&outer, |world| {
        let outer_first = world.serve(WORD);
        let inner_value = world.with_heap(&inner, |world| world.serve(WORD));
        let outer_second = world.serve(WORD);
        (outer_first, inner_value, outer_second)
    });

    assert_eq!(world.usage(&outer).unwrap().bump().unwrap().allocation_count(), 2);
    assert_eq!(world.usage(&inner).unwrap().bump().unwrap().allocation_count(), 1);
    world.free(outer_first, WORD);
    world.free(inner_value, WORD);
    world.free(outer_second, WORD);
    assert!(world.usage(&outer).unwrap().is_empty());
    assert!(world.usage(&inner).unwrap().is_empty());
}

#[test]
fn a_bump_heap_can_be_reentered_around_another_heap() {
    let mut world = World::new();
    let outer = world.bump(BumpOptions::new());
    let inner = world.bump(BumpOptions::new());

    world.with_heap(&outer, |world| {
        world.with_heap(&inner, |world| {
            world.with_heap(&outer, |world| {
                let value = world.serve(WORD);
                assert_eq!(world.usage(&outer).unwrap().live_allocations(), 1);
                world.free(value, WORD);
            });
        });
    });
    assert!(world.usage(&inner).unwrap().is_empty());
}

#[test]
fn global_hint_temporarily_bypasses_the_bump_heap() {
    let mut world = World::new();
    let heap = world.bump(BumpOptions::new());
    let (bump_first, global, bump_second) = world.with_heap(&heap, |world| {
        let bump_first = world.serve(WORD);
        let global = world.enter(Hint::global(), |world| world.serve(WORD));
        let bump_second = world.serve(WORD);
        (bump_first, global, bump_second)
    });

    assert_eq!(world.usage(&heap).unwrap().bump().unwrap().allocation_count(), 2);
    world.free(global, WORD);
    assert_eq!(world.usage(&heap).unwrap().live_allocations(), 2);
    world.free(bump_first, WORD);
    world.free(bump_second, WORD);
    assert!(world.usage(&heap).unwrap().is_empty());
}

#[test]
fn empty_bump_heaps_are_reused_from_the_thread_pool() {
    let mut world = World::new();
    let heap = world.pooled(BumpOptions::new());
    let first_address = world.with_heap(&heap, |world| world.serve(WORD));
    world.free(first_address, WORD);
    world.drop_heap(heap);

    let heap = world.pooled(BumpOptions::new());
    let value = world.with_heap(&heap, |world| world.serve(WORD));
    assert_eq!(value, first_address);
}

#[test]
fn fresh_bump_heap_does_not_alias_the_thread_pool() {
    let mut world = World::new();
    let heap = world.pooled(BumpOptions::new());
    let pooled_address = world.with_heap(&heap, |world| world.serve(WORD));
    world.free(pooled_address, WORD);
    world.drop_heap(heap);

    let heap = world.bump(BumpOptions::new());
    let value = world.with_heap(&heap, |world| world.serve(WORD));
    assert_ne!(value, pooled_address);
}

#[test]
fn configured_size_and_alignment_thresholds_fall_back_to_general() {
    let mut world = World::new();
    let heap = world.bump(BumpOptions::new().with_max_allocation_bytes(256).with_max_alignment(256));
    let bump_layout = layout(256, 16);
    let large_layout = layout(257, 16);
    let overaligned_layout = layout(64, 512);

    let (bump_address, large_address, overaligned_address) =
        world.with_heap(&heap, |world| (world.serve(bump_layout), world.serve(large_layout), world.serve(overaligned_layout)));

    assert_eq!(overaligned_address % overaligned_layout.align, 0);
    assert_eq!(world.usage(&heap).unwrap().bump().unwrap().allocation_count(), 1);

    world.free(bump_address, bump_layout);
    world.free(large_address, large_layout);
    world.free(overaligned_address, overaligned_layout);
    assert!(world.usage(&heap).unwrap().is_empty());
}

#[test]
fn escaped_vec_reallocates_into_the_general_allocator() {
    let mut world = World::new();
    let heap = world.bump(BumpOptions::new());
    let values = world.with_heap(&heap, |world| world.serve(WORD));
    assert_eq!(world.usage(&heap).unwrap().live_allocations(), 1);

    let longer = world.serve(layout(1_025 * 8, 8));
    assert!(matches!(world.kind, Some(ServedKind::Small { .. })));
    world.free(values, WORD);
    assert!(world.usage(&heap).unwrap().is_empty());
    assert_ne!(longer, values);
}

#[test]
fn lowering_retained_chunks_trims_reused_backing_state() {
    let mut world = World::new();
    let heap = world.pooled(BumpOptions::new().with_retained_chunks(8));
    let bytes = layout(256, 1);
    let values = world.with_heap(&heap, |world| (0..4_000).map(|_| world.serve(bytes)).collect::<Vec<_>>());
    assert!(world.usage(&heap).unwrap().bump().unwrap().chunk_count() > 8);

    for value in values {
        world.free(value, bytes);
    }
    world.drop_heap(heap);

    let recycled = world.pooled(BumpOptions::new().with_retained_chunks(1));
    assert_eq!(world.usage(&recycled).unwrap().bump().unwrap().chunk_count(), 1);
}

#[test]
fn pooled_bump_retention_grows_with_demand_and_decays_after_underuse() {
    let mut world = World::new();
    let options = BumpOptions::new().with_retained_chunks(2).with_max_retained_chunks(8);
    let heap = world.pooled(options);
    let bytes = layout(256, 1);
    let values = world.with_heap(&heap, |world| (0..4_000).map(|_| world.serve(bytes)).collect::<Vec<_>>());
    assert!(world.usage(&heap).unwrap().bump().unwrap().chunk_count() > 8);

    for value in values {
        world.free(value, bytes);
    }
    world.drop_heap(heap);

    let recycled = world.pooled(options);
    assert_eq!(world.usage(&recycled).unwrap().bump().unwrap().chunk_count(), 8);
    world.drop_heap(recycled);

    for _ in 0..48 {
        let heap = world.pooled(options);
        let value = world.with_heap(&heap, |world| world.serve(WORD));
        world.free(value, WORD);
        world.drop_heap(heap);
    }

    let recycled = world.pooled(options);
    assert_eq!(world.usage(&recycled).unwrap().bump().unwrap().chunk_count(), 2);
}

#[test]
fn a_claimed_bump_heap_is_not_entered_by_another_thread() {
    let mut world = World::new();
    let heap = world.bump(BumpOptions::new());
    assert!(world.hints.controls.claim(heap.identity()));
    let hint = Hint::new().with_heap(&heap, &mut world.hints.controls).0;
    assert!(!world.hints.accepts(hint));
    world.hints.controls.release(heap.identity());
    assert!(world.hints.accepts(hint));
}

#[test]
fn allocations_keep_a_bump_heap_alive_after_its_handle() {
    let mut world = World::new();
    let heap = world.bump(BumpOptions::new());
    let value = world.with_heap(&heap, |world| world.serve(WORD));
    world.drop_heap(heap);
    assert_eq!(world.thread.bump_pool.len(), 0);
    world.free(value, WORD);
    assert_eq!(world.thread.bump_pool.len(), 1);

    let recycled = world.pooled(BumpOptions::new());
    let next = world.with_heap(&recycled, |world| world.serve(WORD));
    assert_eq!(next, value);
}

#[test]
fn a_hint_keeps_a_bump_heap_alive_after_its_handle() {
    let mut world = World::new();
    let heap = world.bump(BumpOptions::new());
    let hint = Hint::new().with_heap(&heap, &mut world.hints.controls).0;
    world.drop_heap(heap);
    let value = world.enter(hint, |world| world.serve(WORD));
    assert_eq!(world.kind, Some(ServedKind::Bump));
    world.free(value, WORD);
    assert_eq!(world.thread.bump_pool.len(), 1);
}

#[test]
fn logged_bump_blocks_carry_a_header() {
    let mut world = World::new();
    world.track_callers = true;
    let heap = world.bump(BumpOptions::new());
    let value = world.with_heap(&heap, |world| world.serve(WORD));
    assert_eq!(world.kind, Some(ServedKind::Bump));
    let allocation = TrackingAllocation { log: 1, allocation_id: 5, heap_id: 3, heap_kind: HeapKind::Bump };
    world.rallocator.space.log_bump(0, value, allocation);
    match world.rallocator.space.deallocate(&world.thread, value, WORD, 0) {
        FreeStep::Bump { header: Some((logged, handle_gone)), .. } => {
            assert_eq!(logged, allocation);
            assert!(!handle_gone);
        }
        _ => panic!("expected a block of the bump heap"),
    }
}

#[test]
fn allocates_aligned_memory_and_tracks_statistics() {
    let mut world = World::new();
    let warmup = layout(16, 16);
    let warmup_address = world.serve(warmup);
    world.free(warmup_address, warmup);
    let before = world.stats();
    let layout = layout(257, 4096);

    let address = world.serve(layout);
    assert_eq!(address % layout.align, 0);
    world.free(address, layout);

    let after = world.stats();
    assert_eq!(after.allocated_bytes - before.allocated_bytes, layout.size);
    assert_eq!(after.deallocated_bytes - before.deallocated_bytes, layout.size);
    assert_eq!(after.live_bytes, before.live_bytes);
    assert_eq!(after.allocations - before.allocations, 1);
    assert_eq!(after.deallocations - before.deallocations, 1);
}

#[test]
fn small_allocations_support_every_power_of_two_alignment() {
    let mut world = World::new();
    for alignment in [32, 64, 128, 256, 512, 1024, 2048, 4096] {
        for size in [1, 17, 257, 1003, 4096, 8193] {
            let layout = layout(size, alignment);
            let address = world.serve(layout);
            assert_eq!(address % alignment, 0);
            world.free(address, layout);
        }
    }
}

#[test]
fn application_defined_layout_builds_derived_lookup_tables() {
    let sizes = vec![
        16, 32, 48, 64, 96, 112, 128, 160, 192, 224, 256, 320, 384, 448, 512, 640, 768, 896, 1024, 1280, 1536, 1792, 2048, 2560, 3072,
        3584, 4096, 5120, 6144, 7168, 8192, 10240, 12288, 14336, 16384,
    ];
    let mut world = World::with_tuning(Tuning::new(sizes, 4, 256, 1_000).unwrap());
    let layout = layout(65, 16);
    let address = world.serve(layout);
    assert_eq!(world.kind, Some(ServedKind::Small { class: 4 }));
    world.free(address, layout);
}

#[test]
fn small_allocations_reuse_size_class_slabs() {
    let mut world = World::new();
    let layout = layout(64, 8);
    let before = world.stats();

    let first = world.serve(layout);
    world.free(first, layout);

    let mappings_after_first = world.stats().os_mappings;
    let second = world.serve(layout);
    world.free(second, layout);

    let after = world.stats();
    assert_eq!(after.os_mappings, mappings_after_first);
    assert_eq!(after.allocations - before.allocations, 2);
    assert_eq!(after.deallocations - before.deallocations, 2);
}

#[test]
fn mixed_small_classes_stay_in_a_locality_segment() {
    let mut world = World::new();
    let layouts = [layout(96, 16), layout(224, 16)];
    let mut allocations = Vec::new();
    for index in 0..1_600 {
        let layout = layouts[index % layouts.len()];
        allocations.push((world.serve(layout), layout));
    }
    let first = allocations.iter().map(|(address, _)| address & !(SLAB - 1)).min().unwrap();
    let last = allocations.iter().map(|(address, _)| address & !(SLAB - 1)).max().unwrap();
    assert!(last - first < 4 * 1024 * 1024);
    for (address, layout) in allocations {
        world.free(address, layout);
    }
}

#[test]
fn large_allocations_release_direct_mappings() {
    let mut world = World::new();
    let layout = layout(64 * 1024 * 1024, 128 * 1024);
    let before = world.stats();

    let address = world.serve(layout);
    assert_eq!(address % layout.align, 0);
    assert_eq!(world.stats().os_mappings - before.os_mappings, 1);

    world.free(address, layout);

    let after = world.stats();
    assert_eq!(after.os_mappings - before.os_mappings, 1);
    assert!(after.mapped_bytes <= before.mapped_bytes);
    assert_eq!(world.system.unmaps, 1);
}

#[test]
fn medium_spans_are_aligned_and_reused() {
    let mut world = World::new();
    let layout = layout(64 * 1024, 64 * 1024);

    let first = world.serve(layout);
    assert_eq!(first % layout.align, 0);
    assert_eq!(world.kind, Some(ServedKind::Medium));
    world.free(first, layout);

    let after_first = world.stats();

    let second = world.serve(layout);
    assert_eq!(second, first);
    world.free(second, layout);

    let after_reuse = world.stats();
    assert_eq!(after_reuse.os_mappings, after_first.os_mappings);
    assert_eq!(after_reuse.mapped_bytes, after_first.mapped_bytes);
}

#[test]
fn medium_region_supports_cached_and_variable_length_spans() {
    let mut world = World::new();
    let before = world.stats();
    let mut allocations = Vec::new();

    for slices in [1, 2, 8, 16, 64, 256, 512, 1024, 2048] {
        let layout = layout(slices * 64 * 1024, 64 * 1024);
        let address = world.serve(layout);
        assert_eq!(address % layout.align, 0);
        allocations.push((address, layout));
    }

    for (address, layout) in allocations {
        world.free(address, layout);
    }

    assert_eq!(world.stats().live_bytes, before.live_bytes);
}

#[test]
fn adjacent_large_extents_coalesce_and_split() {
    let mut world = World::new();
    let first_layout = layout(64 * 1024 * 1024, 64 * 1024);
    let combined_layout = layout(128 * 1024 * 1024, 64 * 1024);

    let first = world.serve(first_layout);
    let second = world.serve(first_layout);
    assert_eq!(second - first, first_layout.size);

    world.free(second, first_layout);
    world.free(first, first_layout);

    let mappings_before_reuse = world.stats().os_mappings;
    let combined = world.serve(combined_layout);
    assert_eq!(combined, first);
    assert_eq!(world.stats().os_mappings, mappings_before_reuse);
    world.free(combined, combined_layout);
}

#[test]
fn heap_creation_reports_backing_allocation_failures() {
    let mut world = World::new();
    world.system.fail_commit = true;
    assert_eq!(world.try_heap(Options::bump(BumpOptions::new())).unwrap_err(), CreationError::CreationFailed);

    world.system.fail_map = true;
    assert_eq!(world.try_heap(Options::bump(BumpOptions::new())).unwrap_err(), CreationError::CreationFailed);

    world.system.fail_map = true;
    assert_eq!(world.try_heap(Options::general(GeneralOptions::new())).unwrap_err(), CreationError::CreationFailed);

    let unregistered = Registry::new();
    let mut controls = Controls::new();
    let missing = Heap::try_new(&unregistered, &mut controls, |_| Err(CreationError::CreationFailed));
    assert_eq!(missing.unwrap_err(), CreationError::BackendUnavailable);
}

#[test]
fn failing_systems_give_no_block() {
    let mut world = World::new();
    world.system.fail_map = true;
    let options = world.options(false);
    let (step, _, _) = world.rallocator.space.allocate(&world.thread, WORD, options, None);
    assert!(matches!(step, AllocStep::MapHeap));
    assert_eq!(world.serve(WORD), 0);
    assert!(world.serve(WORD) != 0);

    world.system.fail_map = true;
    assert_eq!(world.serve(layout(2 * REGION, 16)), 0);

    // Without slabs a small block gets a mapping of its own.
    let class = layout(3_000, 8);
    world.system.fail_commit = true;
    let address = world.serve(class);
    assert!(matches!(world.kind, Some(ServedKind::Direct { .. })));
    world.free(address, class);

    // Without memory for a span so does a medium one.
    world.system.fail_commit = true;
    let medium = layout(SLICE, 16);
    let address = world.serve(medium);
    assert!(matches!(world.kind, Some(ServedKind::Direct { .. })));
    world.free(address, medium);
}

#[test]
fn a_failed_reservation_falls_back_to_mapped_slabs() {
    let mut world = World::new();
    world.system.fail_reserve = true;
    let address = world.serve(WORD);
    assert!(matches!(world.kind, Some(ServedKind::Small { .. })));
    assert_eq!(address / SLAB * SLAB % SLAB, 0);
    assert_eq!(world.stats().mapped_bytes, SLAB);
    world.free(address, WORD);
}

#[test]
fn exhausted_bump_allocations_use_every_general_fallback_class() {
    let mut world = World::new();
    let heap = world.bump(BumpOptions::new().with_max_allocation_bytes(1));
    let kinds = world.with_heap(&heap, |world| {
        let mut kinds = Vec::new();
        for layout in [layout(16, 16), layout(SLICE, 16), layout(16, 2 * SLICE)] {
            let address = world.serve(layout);
            assert_ne!(address, 0);
            kinds.push(world.kind.unwrap());
            world.free(address, layout);
        }
        kinds
    });
    assert!(matches!(kinds[0], ServedKind::Small { .. }));
    assert_eq!(kinds[1], ServedKind::Medium);
    assert!(matches!(kinds[2], ServedKind::Direct { .. }));
}

#[test]
fn logged_blocks_carry_what_the_log_knows() {
    let mut world = World::new();
    world.track(true);
    let allocation = TrackingAllocation { log: 1, allocation_id: 9, heap_id: 3, heap_kind: HeapKind::General };
    for layout in [layout(24, 16), layout(64 * 1024, 16)] {
        let address = world.serve(layout);
        world.rallocator.space.log_record(address, allocation);
        match world.rallocator.space.deallocate(&world.thread, address, layout, 0) {
            FreeStep::Recorded { extra, .. } => {
                assert_eq!(extra.tracking, allocation);
                assert_eq!(extra.requested_bytes, 24);
            }
            FreeStep::Direct { extra, .. } => assert_eq!(extra.tracking, allocation),
            _ => panic!("expected a record"),
        }
    }
}

#[test]
fn tracked_larger_small_allocations_reuse_context_slabs() {
    let mut world = World::new();
    let layout = layout(4_096, 16);
    world.track(true);

    let first = world.serve(layout);
    assert!(matches!(world.kind, Some(ServedKind::Recorded { .. })));
    world.free(first, layout);
    let mappings = world.stats().os_mappings;

    let second = world.serve(layout);
    assert_ne!(second, 0);
    world.free(second, layout);
    world.track(false);

    assert_eq!(world.stats().os_mappings, mappings);
}

fn region_snapshots(world: &World) -> Vec<RegionSnapshot> {
    telemetry_region_snapshots(&world.rallocator.space.domains)
}

fn snapshot(world: &World) -> EncodedSnapshot {
    let before = world.aggregates.aggregate_snapshot();
    let after = world.aggregates.aggregate_snapshot();
    let regions = region_snapshots(world);
    let domains = telemetry_domain_snapshots(&world.rallocator.space.domains);
    let callers = world.tracking.caller_snapshot();
    let mut addresses = Vec::new();
    if let Some(callers) = &callers {
        for address in stack_addresses(&callers.events) {
            addresses.push(resolve_address(address, Vec::new()));
        }
    }
    let producer = Version { major: 0, minor: 1, patch: 0 };
    build_snapshot(&world.aggregates, before, after, &regions, &domains, callers, addresses, producer, 5).unwrap()
}

#[test]
fn tracking_is_off_by_default_and_process_wide_when_enabled() {
    let mut world = World::new();
    world.track(false);
    let value = world.serve(WORD);
    world.free(value, WORD);
    assert!(world.tracking.caller_snapshot().is_none());

    world.track(true);
    let value = world.serve(WORD);
    world.free(value, WORD);
    world.track(false);

    let callers = snapshot(&world).callers.unwrap();
    assert_ne!(callers.session_id, 0);
    assert_eq!(callers.threads.len(), 1);
    assert_eq!(callers.total_events, 2);
    assert_eq!(callers.lost_events, 0);
    assert_eq!(callers.events[0].kind, EncodedEventKind::Allocated);
    assert_eq!(callers.events[1].kind, EncodedEventKind::Deallocated);
    assert!(!callers.events[0].call_stack.is_empty());
}

#[test]
fn snapshot_encodes_allocations_by_stack() {
    let mut world = World::new();
    world.track(true);
    let layout = layout(777, 1);
    for _ in 0..4 {
        let value = world.serve(layout);
        world.free(value, layout);
    }
    world.track(false);

    let callers = snapshot(&world).callers.unwrap();
    let target_stack =
        &callers.events.iter().find(|event| event.kind == EncodedEventKind::Allocated && event.size == 777).unwrap().call_stack;
    let allocation_count = callers
        .events
        .iter()
        .filter(|event| event.kind == EncodedEventKind::Allocated && event.call_stack == *target_stack)
        .count();
    assert_eq!(allocation_count, 4);
}

#[test]
fn retained_call_stacks_are_encoded() {
    let mut world = World::new();
    world.track(true);
    let value = world.serve(WORD);
    world.free(value, WORD);
    world.track(false);

    let snapshot = snapshot(&world);
    let callers = snapshot.callers.unwrap();
    let event = callers.events.iter().find(|event| event.kind == EncodedEventKind::Allocated).unwrap();
    assert!(!event.call_stack.is_empty());
    assert!(event.call_stack.iter().all(|address| *address != 0));
    assert!(event.call_stack.iter().all(|address| snapshot.addresses.iter().any(|lookup| lookup.address == *address)));
}

#[test]
fn bump_heap_allocations_are_still_fully_tracked() {
    let mut world = World::new();
    world.track(true);
    let heap = world.bump(BumpOptions::new());
    let layout = layout(256, 1);
    let address = world.with_heap(&heap, |world| world.serve(layout));
    world.free(address, layout);
    world.track(false);

    let snapshot = snapshot(&world);
    assert!(snapshot.topology.iter().flat_map(|region| &region.slices).any(|slice| slice.kind == EncodedSliceKind::Bump));
    assert!(snapshot.callers.unwrap().events.iter().any(|event| {
        event.kind == EncodedEventKind::Allocated
            && event.address == address as u64
            && event.size == 256
            && event.heap_kind == EncodedHeapKind::Bump
            && event.heap_id != 0
    }));
}

#[test]
fn escaped_bump_free_records_heap_lifetime_and_free_stack() {
    let mut world = World::new();
    world.track(true);
    let heap = world.bump(BumpOptions::new());
    let layout = layout(384, 1);
    let address = world.with_heap(&heap, |world| world.serve(layout));
    world.drop_heap(heap);
    world.free(address, layout);
    world.track(false);

    let callers = snapshot(&world).callers.unwrap();
    let allocation = callers
        .events
        .iter()
        .find(|event| event.kind == EncodedEventKind::Allocated && event.address == address as u64)
        .unwrap();
    let deallocation = callers
        .events
        .iter()
        .find(|event| {
            event.kind == EncodedEventKind::Deallocated
                && event.thread_log_id == allocation.thread_log_id
                && event.allocation_id == allocation.allocation_id
        })
        .unwrap();
    assert_eq!(allocation.heap_kind, EncodedHeapKind::Bump);
    assert_eq!(allocation.heap_id, deallocation.heap_id);
    assert!(deallocation.freed_after_heap_release);
    assert!(!deallocation.call_stack.is_empty());
}

#[test]
fn aggregate_and_per_thread_histograms_record_allocated_and_live_sizes() {
    let mut world = World::new();
    world.track(true);
    let layout = layout(512, 1);
    let address = world.serve(layout);
    world.free(address, layout);
    world.track(false);

    let snapshot = snapshot(&world);
    let bucket = usize::BITS as usize - 512_usize.leading_zeros() as usize;
    assert!(snapshot.histograms.allocated[bucket] >= 1);
    let callers = snapshot.callers.unwrap();
    let thread = callers
        .threads
        .iter()
        .find(|thread| {
            callers.events.iter().any(|event| {
                event.thread_log_id == thread.thread_log_id
                    && event.kind == EncodedEventKind::Allocated
                    && event.address == address as u64
            })
        })
        .unwrap();
    assert!(thread.allocated_histogram[bucket] >= 1);
    assert_eq!(thread.live_histogram[bucket], 0);
}

#[test]
fn snapshot_reports_bounded_size_class_and_region_telemetry() {
    let mut world = World::new();
    let layout = layout(64, 1);
    let value = world.serve(layout);
    let snapshot = snapshot(&world);
    assert!(snapshot.stats.live_bytes >= 64);
    assert!(snapshot.stats.mapped_bytes >= snapshot.stats.live_bytes);

    let class = snapshot.size_classes.iter().find(|class| class.block_bytes == 64).unwrap();
    assert!(class.live_allocations.lower_bound >= 1);
    assert!(class.requested_bytes.lower_bound >= 64);
    assert!(class.usable_bytes.lower_bound >= 64);
    assert!(!snapshot.regions.is_empty());
    let default_domain = snapshot.domains.iter().find(|domain| domain.is_default).expect("default domain telemetry");
    assert!(!default_domain.region_indices.is_empty());
    assert!(default_domain.small_slices >= 1);
    let segments = snapshot
        .topology
        .iter()
        .flat_map(|region| &region.slices)
        .filter(|slice| slice.kind == EncodedSliceKind::Small)
        .flat_map(|slice| &slice.segments)
        .filter(|segment| segment.class_index == class.class_index)
        .collect::<Vec<_>>();
    assert!(!segments.is_empty());
    assert!(segments.iter().all(|segment| segment.utilization_tracked));
    assert!(segments.iter().any(|segment| segment.live_blocks >= 1 && segment.usable_blocks >= segment.live_blocks));

    world.free(value, layout);
}

#[test]
fn snapshot_reports_explicit_domain_region_use() {
    let mut world = World::new();
    let domain = world.domain();
    let heap = world.try_heap(Options::default().with_domain(domain)).unwrap();
    let layout = layout(64, 1);
    let value = world.with_heap(&heap, |world| world.serve(layout));

    let snapshot = snapshot(&world);
    let explicit = snapshot
        .domains
        .iter()
        .find(|domain| !domain.is_default && domain.small_slices != 0)
        .expect("explicit domain telemetry");
    assert_eq!(explicit.region_count, 1);
    assert_eq!(explicit.region_indices.len(), 1);

    world.free(value, layout);
}

#[test]
fn bounded_per_thread_logs_report_overwritten_events() {
    let mut world = World::new();
    world.settings.event_capacity = 64;
    world.track(true);
    for _ in 0..3_000 {
        let value = world.serve(WORD);
        world.free(value, WORD);
    }
    world.track(false);

    let callers = snapshot(&world).callers.unwrap();
    assert!(callers.total_events >= 5_000);
    assert!(callers.threads.iter().all(|thread| thread.total_events - thread.lost_events <= 64));
    assert_eq!(callers.lost_events, callers.total_events - callers.events.len() as u64);
}

#[test]
fn blocks_of_other_threads_go_to_their_owner() {
    let mut world = World::new();
    let address = world.serve(WORD);
    world.free(address, WORD);
    assert!(matches!(world.freed_to, Some(FreedTo::Own { .. })));

    let address = world.serve(WORD);
    let owner = std::mem::replace(&mut world.thread, ThreadState::new(8));
    let other = world.serve(WORD);
    world.free(address, WORD);
    assert!(matches!(world.freed_to, Some(FreedTo::Queued { .. })));
    world.free(other, WORD);
    assert!(matches!(world.freed_to, Some(FreedTo::Own { .. })));
    world.thread = owner;
    for _ in 0..5_000 {
        assert_ne!(world.serve(WORD), 0);
    }
}

#[test]
fn thread_heaps_serve_other_threads() {
    let mut world = World::new();
    assert_ne!(world.serve(WORD), 0);
    let storage = world.system.map(STORAGE);
    let heap = thread_heap(&world.registry, &mut world.hints.controls, || {
        world.rallocator.create_thread_heap(&mut world.thread, storage)
    })
    .unwrap();
    let info = world.info(&heap);
    assert!(matches!(info.kind(), InfoKind::General(general) if general.is_thread_target()));
    let live = world.usage(&heap).unwrap().live_allocations();

    let owner = std::mem::replace(&mut world.thread, ThreadState::new(8));
    let address = world.with_heap(&heap, |world| world.serve(WORD));
    assert_eq!(world.usage(&heap), Err(Error::UsageUnavailable));
    let other = world.with_heap(&heap, |world| world.serve(WORD));
    world.free(other, WORD);
    assert!(matches!(world.freed_to, Some(FreedTo::Listed { .. })));
    world.thread = owner;
    assert_eq!(world.usage(&heap).unwrap().live_allocations(), live + 1);
    world.free(address, WORD);
    assert!(matches!(world.freed_to, Some(FreedTo::Own { .. })));
    assert_eq!(world.usage(&heap).unwrap().live_allocations(), live);
}

#[test]
fn heaps_count_what_they_serve() {
    let mut world = World::new();
    let heap = world.try_heap(Options::general(GeneralOptions::new())).unwrap();
    let sizes = [layout(100, 8), layout(3 * SLICE, 8), layout(2 * REGION, 8)];
    let blocks = world.with_heap(&heap, |world| sizes.map(|layout| (world.serve(layout), layout)));
    let usage = world.usage(&heap).unwrap();
    let general = usage.general().unwrap();
    assert_eq!(general.small().live_allocations(), 1);
    assert_eq!(general.small().requested_bytes(), 100);
    assert_eq!(general.small().usable_bytes(), 112);
    assert_eq!(general.medium().live_allocations(), 1);
    assert_eq!(general.medium().requested_bytes(), 3 * SLICE);
    assert_eq!(general.direct().live_allocations(), 1);
    assert_eq!(general.direct().requested_bytes(), 2 * REGION);
    assert_eq!(usage.live_allocations(), 3);
    for (address, layout) in blocks {
        world.free(address, layout);
    }
    assert!(world.usage(&heap).unwrap().is_empty());
}

#[test]
fn ending_threads_give_their_bump_heaps_to_the_process() {
    let mut world = World::new();
    let first = world.serve(WORD);
    let heap = world.pooled(BumpOptions::new());
    let value = world.with_heap(&heap, |world| world.serve(WORD));
    world.free(value, WORD);
    world.drop_heap(heap);
    assert_eq!(world.thread.bump_pool.len(), 1);
    let default_heap = world.thread.default_heap;
    assert_eq!(world.rallocator.cleanup(&mut world.thread), default_heap);
    assert_eq!(world.retire(default_heap), 1);
    assert_eq!(world.rallocator.bump_pool.len(), 1);
    assert!(world.thread.tearing_down);

    // A thread that ends still gets memory, in a mapping of its own.
    let late = world.serve(WORD);
    assert!(matches!(world.kind, Some(ServedKind::Direct { .. })));
    world.free(late, WORD);
    assert_ne!(first, late);

    world.thread = ThreadState::new(8);
    let heap = world.pooled(BumpOptions::new());
    let again = world.with_heap(&heap, |world| world.serve(WORD));
    assert_eq!(again, value);
}

#[test]
fn no_two_blocks_in_use_meet() {
    let mut world = World::new();
    let heap = world.bump(BumpOptions::new());
    let layouts = [layout(0, 1), layout(1, 1), layout(100, 64), layout(5_000, 8), layout(40_000, 16), layout(300_000, 4096)];
    let mut blocks: Vec<(usize, Layout)> = Vec::new();
    for round in 0..60 {
        let layout = layouts[round % layouts.len()];
        let address = if round % 2 == 0 { world.serve(layout) } else { world.with_heap(&heap, |world| world.serve(layout)) };
        for (other, theirs) in &blocks {
            assert!(address + layout.bytes() <= *other || other + theirs.bytes() <= address);
        }
        blocks.push((address, layout));
        if round % 7 == 6 {
            let (address, layout) = blocks.swap_remove(round / 3);
            world.free(address, layout);
        }
    }
    for (address, layout) in blocks {
        world.free(address, layout);
    }
    assert!(world.usage(&heap).unwrap().is_empty());
    assert_eq!(world.stats().live_bytes, 0);
}

fn general_heap(world: &mut World, cache: usize) -> Heap {
    let options = GeneralOptions::new().with_locality_segment_bytes(64 * 1024).with_medium_cache_max_bytes(cache);
    world.try_heap(Options::general(options)).unwrap()
}

#[test]
fn retired_heaps_give_their_slices_back() {
    let mut world = World::new();
    let bytes = layout(64, 1);
    let heap = general_heap(&mut world, 0);
    world.drop_heap(heap);
    assert_eq!(world.gone.len(), 1);

    let before = world.stats();
    let heap = general_heap(&mut world, 0);
    world.with_heap(&heap, |world| {
        let value = world.serve(bytes);
        world.free(value, bytes);
    });
    let allocated = world.stats();
    assert!(allocated.os_mappings > before.os_mappings);
    world.drop_heap(heap);
    assert!(world.stats().os_unmappings > allocated.os_unmappings);
    assert_eq!(world.gone.len(), 2);

    let before = world.stats();
    let heap = general_heap(&mut world, 0);
    let value = world.with_heap(&heap, |world| world.serve(bytes));
    world.drop_heap(heap);
    assert_eq!(world.stats().os_unmappings, before.os_unmappings);
    assert_eq!(world.gone.len(), 2);
    world.free(value, bytes);
    assert!(world.stats().os_unmappings > before.os_unmappings);
    assert_eq!(world.gone.len(), 3);
    assert!(world.rallocator.space.slabs.position(value - value % SLAB).is_none());

    let before = world.stats();
    let heap = general_heap(&mut world, 0);
    let wide = layout(128, 1);
    let (first, second) = world.with_heap(&heap, |world| (world.serve(bytes), world.serve(wide)));
    world.drop_heap(heap);
    world.free(first, bytes);
    assert_eq!(world.stats().os_unmappings, before.os_unmappings);
    world.free(second, wide);
    assert!(world.stats().os_unmappings > before.os_unmappings);

    let before = world.stats();
    let heap = general_heap(&mut world, 64 * 1024);
    let medium = layout(64 * 1024, 1);
    world.with_heap(&heap, |world| {
        let value = world.serve(medium);
        world.free(value, medium);
    });
    world.drop_heap(heap);
    assert!(world.stats().os_unmappings > before.os_unmappings);
}

#[test]
fn a_retired_slice_waits_for_its_own_blocks_alone() {
    let mut world = World::new();
    let heap = world.try_heap(Options::general(GeneralOptions::new())).unwrap();
    let block = layout(16_384, 1);
    let name = world.rallocator.space.heaps[0].address;
    let values = world.with_heap(&heap, |world| (0..6).map(|_| world.serve(block)).collect::<Vec<_>>());
    let slices: Vec<usize> = values.iter().map(|value| value - value % SLICE).collect();
    assert_eq!(slices[0], slices[1]);
    assert_eq!(slices[2], slices[3]);
    assert_ne!(slices[0], slices[2]);
    world.drop_heap(heap);
    assert!(world.gone.is_empty());
    let held = |world: &World| world.rallocator.space.heaps[0].segments.len();
    assert_eq!(held(&world), 3);

    // Each block fills a slab, and two slabs a slice.
    world.free(values[0], block);
    assert_eq!(held(&world), 3);
    world.free(values[1], block);
    assert_eq!(held(&world), 2);
    world.free(values[5], block);
    world.free(values[4], block);
    assert_eq!(held(&world), 1);
    assert!(world.gone.is_empty());
    world.free(values[2], block);
    world.free(values[3], block);
    assert_eq!(held(&world), 0);
    assert_eq!(world.gone, vec![name]);
    assert!(world.rallocator.space.slabs.slabs.is_empty());
}

#[test]
fn retired_mappings_go_with_their_last_block() {
    let mut world = World::new();
    world.system.fail_reserve = true;
    let heap = world.try_heap(Options::general(GeneralOptions::new())).unwrap();
    let value = world.with_heap(&heap, |world| world.serve(WORD));
    let other = world.with_heap(&heap, |world| world.serve(WORD));
    world.drop_heap(heap);
    let unmaps = world.system.unmaps;
    world.free(value, WORD);
    assert_eq!(world.system.unmaps, unmaps);
    world.free(other, WORD);
    assert_eq!(world.system.unmaps, unmaps + 1);
    assert_eq!(world.gone.len(), 1);
}

#[test]
fn what_cannot_be_decommitted_stays_taken() {
    let mut world = World::new();
    let heap = general_heap(&mut world, 0);
    let bytes = layout(64, 1);
    let value = world.with_heap(&heap, |world| world.serve(bytes));
    world.drop_heap(heap);
    world.system.fail_decommit = true;
    let before = world.stats();
    world.free(value, bytes);
    assert_eq!(world.stats().os_unmappings, before.os_unmappings);
    let heap = general_heap(&mut world, 0);
    let next = world.with_heap(&heap, |world| world.serve(bytes));
    assert_ne!(next - next % SLICE, value - value % SLICE);
}

#[test]
fn escaped_medium_and_direct_allocations_outlive_their_heap_handle() {
    let mut world = World::new();
    let heap = general_heap(&mut world, 0);
    let medium_layout = layout(128 * 1024, 16);
    let direct_layout = layout(64, 128 * 1024);
    let (medium, direct) = world.with_heap(&heap, |world| (world.serve(medium_layout), world.serve(direct_layout)));
    assert_ne!(medium, 0);
    assert_ne!(direct, 0);
    world.drop_heap(heap);
    assert!(world.gone.is_empty());

    world.free(medium, medium_layout);
    assert!(world.gone.is_empty());
    world.free(direct, direct_layout);
    assert_eq!(world.gone.len(), 1);
}

#[test]
fn medium_payload_cannot_forge_bump_ownership() {
    let mut world = World::new();
    let payload = layout(3 * 8, 64 * 1024);
    let address = world.serve(payload);
    assert_ne!(address, 0);
    assert_eq!(world.kind, Some(ServedKind::Medium));
    world.free(address, payload);
}

#[test]
fn direct_payload_cannot_forge_bump_ownership() {
    let mut world = World::new();
    let before = world.stats();
    let payload = layout(3 * 8, 128 * 1024);
    let address = world.serve(payload);
    assert_ne!(address, 0);
    world.free(address, payload);
    assert!(world.stats().os_unmappings > before.os_unmappings);
}

#[test]
fn hinted_blocks_lie_in_the_heap_of_the_hint() {
    let mut world = World::new();
    let heap = world.try_heap(Options::general(GeneralOptions::new())).unwrap();
    let name = world.rallocator.space.heaps[0].address;
    let value = world.with_heap(&heap, |world| world.serve(WORD));
    let other = world.serve(WORD);
    let owner = |world: &World, value: usize| {
        let at = world.rallocator.space.slabs.position(value - value % SLAB).unwrap();
        world.rallocator.space.slabs.slabs[at].owner
    };
    assert_eq!(owner(&world, value), name);
    assert_eq!(owner(&world, other), world.thread.default_heap);
    let direct = layout(2 * REGION, 8);
    let mapped = world.with_heap(&heap, |world| world.serve(direct));
    let extra = world.rallocator.space.records.extras.iter().find(|extra| extra.address == mapped).unwrap();
    assert_eq!(extra.owner.heap, name);
}

#[test]
fn remote_and_direct_allocation_failures_return_null() {
    let mut world = World::new();
    let warm = world.serve(WORD);
    world.free(warm, WORD);
    world.system.fail_map = true;
    assert_eq!(world.serve(layout(2 * REGION, 16)), 0);

    let storage = world.system.map(STORAGE);
    let heap = thread_heap(&world.registry, &mut world.hints.controls, || {
        world.rallocator.create_thread_heap(&mut world.thread, storage)
    })
    .unwrap();
    let owner = std::mem::replace(&mut world.thread, ThreadState::new(8));
    world.system.fail_commit = true;
    world.with_heap(&heap, |world| world.serve(layout(700, 8)));
    assert!(!world.system.fail_commit);
    assert_eq!(world.rallocator.space.remotes[0].usage.live_allocations, 0);
    world.thread = owner;

    let contextual = layout(24, 16);
    world.track(true);
    let address = world.serve(contextual);
    assert_ne!(address, 0);
    assert!(matches!(world.kind, Some(ServedKind::Recorded { .. })));
    world.free(address, contextual);

    let over_aligned = layout(32, 2 * SLAB);
    let address = world.serve(over_aligned);
    assert_ne!(address, 0);
    world.free(address, over_aligned);

    // Without memory for a slab a recorded block is refused.
    let fresh = layout(3_000, 8);
    world.system.fail_commit = true;
    assert_eq!(world.serve(fresh), 0);
}

#[test]
fn blocks_on_their_way_back_are_counted() {
    let mut world = World::new();
    let heap = world.try_heap(Options::general(GeneralOptions::new())).unwrap();
    let block = layout(16_384, 8);
    let (first, second) = world.with_heap(&heap, |world| (world.serve(block), world.serve(block)));
    world.free(first, block);
    assert!(matches!(world.freed_to, Some(FreedTo::Queued { .. })));
    let totals = world.aggregates.totals;
    assert_eq!((totals.remote_frees, totals.pending_remote_blocks, totals.drained_remote_blocks), (1, 1, 0));
    assert_eq!(totals.remote_pushes_in_progress, 0);

    // A slab holds one such block, so that the heap looks through its inbox.
    assert_eq!(world.with_heap(&heap, |world| world.serve(block)), first);
    let totals = world.aggregates.totals;
    assert_eq!((totals.remote_frees, totals.pending_remote_blocks, totals.drained_remote_blocks), (1, 0, 1));

    // A retired heap waits for its blocks and not for those on their way.
    world.free(first, block);
    assert_eq!(world.aggregates.totals.pending_remote_blocks, 1);
    world.drop_heap(heap);
    let totals = world.aggregates.totals;
    assert_eq!((totals.remote_frees, totals.pending_remote_blocks, totals.drained_remote_blocks), (2, 0, 2));
    world.free(second, block);
    let totals = world.aggregates.totals;
    assert_eq!((totals.remote_frees, totals.pending_remote_blocks, totals.drained_remote_blocks), (3, 0, 2));
}

#[test]
fn logged_blocks_that_no_segment_holds_are_served_otherwise() {
    let mut world = World::new();
    world.track(true);
    let heap = world.bump(BumpOptions::new());
    world.with_heap(&heap, |world| world.serve(layout(32 * 1024 - 56, 8)));
    assert_eq!(world.kind, Some(ServedKind::Bump));
    let at = world.rallocator.space.bumps.len() - 1;
    let chunks = world.rallocator.space.bumps[at].chunks.len();
    world.system.commits_left = 3;
    world.with_heap(&heap, |world| world.serve(layout(32 * 1024 - 48, 8)));
    assert!(matches!(world.kind, Some(ServedKind::Recorded { .. } | ServedKind::Direct { .. })));
    assert_eq!(world.rallocator.space.bumps[at].chunks.len(), chunks + 3);
    assert_eq!(world.rallocator.space.bumps[at].allocation_count, 1);
}

#[test]
fn bump_blocks_without_a_header_come_back_where_headers_are_kept() {
    let mut world = World::new();
    world.track_callers = true;
    let heap = world.bump(BumpOptions::new());
    let large = layout(32 * 1024 - 16, 8);
    let value = world.with_heap(&heap, |world| world.serve(large));
    assert_eq!(world.kind, Some(ServedKind::Bump));
    let at = world.rallocator.space.bumps.len() - 1;
    assert!(!world.rallocator.space.bumps[at].keeps_header(value));
    assert_eq!(world.rallocator.space.bumps[at].live_requested_bytes, large.size);
    match world.rallocator.space.deallocate(&world.thread, value, large, 0) {
        FreeStep::Bump { header: None, .. } => {}
        _ => panic!("expected a block of the bump heap"),
    }
    assert_eq!(world.rallocator.space.bumps[at].live_requested_bytes, 0);
}

#[test]
fn logs_name_the_heap_that_served() {
    let mut thread = ThreadState::new(7);
    thread.default_heap = 8;
    thread.remote_heap = 16;
    assert_eq!(logged_heap(&thread, ServedKind::Medium), Some((8, HeapKind::General)));
    thread.active_remote = 16;
    assert_eq!(logged_heap(&thread, ServedKind::Recorded { class: 1 }), Some((8, HeapKind::General)));
    thread.active_remote = 24;
    assert_eq!(logged_heap(&thread, ServedKind::Recorded { class: 1 }), Some((24, HeapKind::Thread)));
    thread.active_heap = 32;
    thread.active_bump = 40;
    assert_eq!(logged_heap(&thread, ServedKind::Bump), Some((40, HeapKind::Bump)));
    assert_eq!(logged_heap(&thread, ServedKind::Direct { mapping_size: 4096 }), Some((32, HeapKind::General)));
    thread.tearing_down = true;
    assert_eq!(logged_heap(&thread, ServedKind::Bump), None);
}

#[test]
fn only_blocks_of_the_own_thread_heap_need_a_heap_to_go_to() {
    let mut world = World::new();
    let small = world.serve(WORD);
    assert!(!world.rallocator.space.needs_heap(&world.thread, small));
    let stranger = ThreadState::new(9);
    assert!(!world.rallocator.space.needs_heap(&stranger, small));
}

#[test]
fn ending_threads_keep_what_other_threads_need() {
    let mut world = World::new();
    world.serve(WORD);
    let storage = world.system.map(STORAGE);
    let raw = world.rallocator.create_thread_heap(&mut world.thread, storage).unwrap();
    assert_eq!(raw.hint.target, storage);
    assert_eq!(world.rallocator.create_thread_heap(&mut world.thread, 0), Some(raw));
    let default_heap = world.thread.default_heap;
    assert_eq!(world.rallocator.cleanup(&mut world.thread), default_heap);
    let remote = world.rallocator.space.find_remote(storage).unwrap();
    assert_eq!(world.rallocator.space.remotes[remote].owner_token, 0);
    assert_eq!(world.rallocator.space.remotes[remote].owner_heap, 0);
    assert_eq!(world.thread.remote_heap, storage);
    assert_eq!(world.thread.default_heap, 0);
    assert!(world.thread.tearing_down);
}

#[test]
fn heaps_are_active_within_their_scopes() {
    let mut world = World::new();
    let outer = world.bump(BumpOptions::new());
    let inner = world.bump(BumpOptions::new());
    assert!(!world.info(&outer).is_active());
    world.with_heap(&outer, |world| {
        assert!(world.info(&outer).is_active());
        assert!(!world.info(&inner).is_active());
        world.with_heap(&inner, |world| {
            assert!(world.info(&outer).is_active());
            assert!(world.info(&inner).is_active());
            world.with_heap(&outer, |world| assert!(world.info(&outer).is_active()));
            assert!(world.info(&outer).is_active());
        });
        assert!(world.info(&outer).is_active());
        assert!(!world.info(&inner).is_active());
    });
    assert!(!world.info(&outer).is_active());
}

#[test]
fn blocks_of_every_kind_are_aligned_and_lie_apart() {
    let mut world = World::new();
    let bump = world.bump(BumpOptions::new());
    let mut blocks: Vec<(usize, usize)> = Vec::new();
    for size in [1_usize, 8, 24, 100, 4_000, 20_000, 70_000, 900_000, 5_000_000] {
        for align in [1_usize, 16, 64, 4096] {
            for in_bump in [false, true] {
                let own = layout(size, align);
                let address = if in_bump { world.with_heap(&bump, |world| world.serve(own)) } else { world.serve(own) };
                assert_ne!(address, 0);
                assert_eq!(address % align, 0);
                for (other, bytes) in &blocks {
                    assert!(address + size <= *other || other + bytes <= address);
                }
                blocks.push((address, size));
            }
        }
    }
}

#[test]
fn allocators_accept_their_own_domains_and_valid_options() {
    let mut world = World::new();
    let domain = world.domain();
    let standard = Options::bump(BumpOptions::new());
    assert!(world.rallocator.accepts(standard));
    assert!(world.rallocator.accepts(Options { domain: Some(domain), ..standard }));
    let foreign = Domain { backend: Backend { identity: domain.backend.identity + 1 }, ..domain };
    assert!(!world.rallocator.accepts(Options { domain: Some(foreign), ..standard }));
    let mut unknown = domain;
    unknown.target.target = 100;
    assert!(!world.rallocator.accepts(Options { domain: Some(unknown), ..standard }));
    let uneven = BumpOptions { max_alignment: 24, ..BumpOptions::new() };
    assert!(!uneven.is_valid());
    assert!(BumpOptions::new().is_valid());
    assert!(!world.rallocator.accepts(Options::bump(uneven)));
    assert!(world.rallocator.accepts(Options::general(GeneralOptions::new())));
    assert!(!world.rallocator.accepts(Options::general(GeneralOptions::from_values(1, 0))));
}

#[test]
fn totals_are_reported_where_they_fit() {
    let mut world = World::new();
    let heap = general_heap(&mut world, 0);
    let hint = world.hints.controls.controls[heap.identity() - 1].hint;
    assert!(world.rallocator.can_report(hint));
    let large = layout(2 * REGION, 16);
    world.with_heap(&heap, |world| {
        world.serve(large);
        world.serve(large);
    });
    assert!(world.rallocator.can_report(hint));
    assert_eq!(world.usage(&heap).unwrap().live_requested_bytes(), 2 * large.size);
    for extra in &mut world.rallocator.space.records.extras {
        extra.requested_bytes = usize::MAX;
    }
    assert!(!world.rallocator.can_report(hint));
}
