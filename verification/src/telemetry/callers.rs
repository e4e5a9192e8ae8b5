//! Recording who allocates: sessions, the logs of threads, and what they hold together.

use vstd::prelude::*;

use crate::allocator::layout::Layout;
use crate::config::CallerSettings;
use crate::sorting::{order_by_key, sorts};
use crate::telemetry::events::{
    event_models, Event, EventKind, EventModel, HeapKind, TrackingAllocation, TrackingRecord,
};
use crate::telemetry::log::{ThreadSnapshot, TrackingState};
use crate::telemetry::stacks::copy_frames;

verus! {

/// How many allocations a thread makes before it looks for a new session.
pub const REFRESH_INTERVAL: usize = 64;

/// What a thread knows of the recording.
#[derive(Clone, Copy, Debug, PartialEq, Eq, Structural)]
pub struct ThreadTracking {
    pub session: usize,
    /// The thread's log in the session.
    pub log: Option<usize>,
    pub refresh_countdown: usize,
    /// Whether the thread is inside of a telemetry operation.
    pub in_tracking: bool,
}

pub struct ThreadName {
    pub thread_id: usize,
    pub name: String,
}

#[verifier::ext_equal]
pub struct NameModel {
    pub thread_id: usize,
    pub name: Seq<char>,
}

impl View for ThreadName {
    type V = NameModel;

    open spec fn view(&self) -> NameModel {
        NameModel { thread_id: self.thread_id, name: self.name@ }
    }
}

/// The recording of the process.
pub struct Tracking {
    /// The session that is running, or 0.
    pub active_session: usize,
    pub last_session: usize,
    pub next_session: usize,
    pub next_log_id: usize,
    /// Whether anything was recorded yet.
    pub callers_available: bool,
    pub logs: Vec<TrackingState>,
    pub names: Vec<ThreadName>,
}

/// An allocation that is about to be recorded.
#[derive(Clone, Copy, Debug, PartialEq, Eq, Structural)]
pub struct PendingTracking {
    pub log: usize,
    pub allocation_id: usize,
    /// How many frames are to be kept.
    pub frame_limit: usize,
}

pub open spec fn invalidated(thread: ThreadTracking) -> ThreadTracking {
    ThreadTracking { session: usize::MAX, log: None, refresh_countdown: 0, ..thread }
}

impl ThreadTracking {
    pub fn new() -> (thread: ThreadTracking)
        ensures
            thread == (ThreadTracking { session: 0, log: None, refresh_countdown: 0, in_tracking: false }),
    {
        ThreadTracking { session: 0, log: None, refresh_countdown: 0, in_tracking: false }
    }

    /// Makes the thread look for its session with its next allocation.
    pub fn invalidate_tracking_cache(&mut self)
        ensures
            *final(self) == invalidated(*old(self)),
    {
        self.session = usize::MAX;
        self.log = None;
        self.refresh_countdown = 0;
    }
}

pub fn refresh_interval() -> (interval: usize)
    ensures
        interval == REFRESH_INTERVAL,
{
    REFRESH_INTERVAL
}

/// Whether a session was started where none was running, or ended, and nothing else changed.
pub open spec fn switched(before: Tracking, after: Tracking, enabled: bool) -> bool {
    if enabled && before.active_session != 0 {
        after == before
    } else {
        &&& after.same_logs(&before)
        &&& if enabled {
            &&& after.active_session == before.next_session
            &&& after.last_session == before.next_session
            &&& after.next_session == before.next_session + 1
        } else {
            &&& after.active_session == 0
            &&& after.last_session == before.last_session
            &&& after.next_session == before.next_session
        }
    }
}

/// A session that is started where none was running has a number that is not zero and that no session
/// before it had: none that ran earlier, and none that a log was made in.
pub proof fn law_a_new_session_has_a_new_number(before: Tracking, after: Tracking)
    requires
        before.wf(),
        before.active_session == 0,
        switched(before, after, true),
    ensures
        after.active_session != 0,
        after.active_session > before.last_session,
        forall|at: int| 0 <= at < before.logs@.len() ==> (#[trigger] before.logs@[at]).session_id != after.active_session,
{
}

impl Tracking {
    /// Whether the logs are in order, and sessions are numbered from one, in order.
    pub open spec fn wf(&self) -> bool {
        &&& forall|at: int| 0 <= at < self.logs@.len() ==> (#[trigger] self.logs@[at]).wf()
        &&& self.next_session == self.last_session + 1
        &&& self.active_session == 0 || self.active_session == self.last_session
        &&& forall|at: int| 0 <= at < self.logs@.len() ==> 1 <= (#[trigger] self.logs@[at]).session_id <= self.last_session
    }

    pub fn new() -> (tracking: Tracking)
        ensures
            tracking.wf(),
            tracking.active_session == 0,
            tracking.last_session == 0,
            tracking.next_session == 1,
            tracking.next_log_id == 1,
            !tracking.callers_available,
            tracking.logs@.len() == 0,
            tracking.names@.len() == 0,
    {
        Tracking {
            active_session: 0,
            last_session: 0,
            next_session: 1,
            next_log_id: 1,
            callers_available: false,
            logs: Vec::new(),
            names: Vec::new(),
        }
    }

    pub fn active_session(&self) -> (session: usize)
        ensures
            session == self.active_session,
    {
        self.active_session
    }

    /// What the recording's logs and names are kept from.
    pub open spec fn same_logs(&self, other: &Tracking) -> bool {
        self.logs == other.logs && self.names == other.names && self.next_log_id == other.next_log_id && self.callers_available
            == other.callers_available
    }

    /// Starts a session, or ends the one that is running. A session that is running goes on.
    pub fn track_callers(&mut self, thread: &mut ThreadTracking, enabled: bool)
        requires
            old(self).wf(),
            enabled && old(self).active_session == 0 ==> old(self).next_session < usize::MAX,
        ensures
            final(self).wf(),
            switched(*old(self), *final(self), enabled),
            *final(thread) == (if enabled && old(self).active_session != 0 {
                *old(thread)
            } else {
                invalidated(*old(thread))
            }),
    {
        if enabled {
            if self.active_session != 0 {
                return ;
            }
            let session: usize = self.next_session;
            self.next_session = session + 1;
            self.last_session = session;
            self.active_session = session;
        } else {
            self.active_session = 0;
        }
        thread.invalidate_tracking_cache();
    }

    /// Makes a log for a thread in a session.
    pub fn create_thread_log(&mut self, settings: CallerSettings, session_id: usize) -> (log: usize)
        requires
            old(self).wf(),
            settings.valid(),
            1 <= session_id <= old(self).last_session,
        ensures
            final(self).wf(),
            log == old(self).logs@.len(),
            final(self).logs@.len() == old(self).logs@.len() + 1,
            forall|at: int| 0 <= at < old(self).logs@.len() ==> #[trigger] final(self).logs@[at] == old(self).logs@[at],
            final(self).logs@[log as int].begun(session_id, old(self).next_log_id, settings, 0),
            final(self).next_log_id == old(self).next_log_id.wrapping_add(1),
            final(self).active_session == old(self).active_session,
            final(self).last_session == old(self).last_session,
            final(self).next_session == old(self).next_session,
            final(self).callers_available == old(self).callers_available,
            final(self).names == old(self).names,
    {
        proof {
            let exponent = choose|exponent: nat| settings.event_capacity == #[trigger] vstd::arithmetic::power2::pow2(exponent);
            vstd::arithmetic::power2::lemma_pow2_pos(exponent);
        }
        let ghost before = self.logs@;
        let log: usize = self.logs.len();
        let state = TrackingState::new(
            session_id,
            self.next_log_id,
            settings.event_capacity,
            settings.allocation_stack_frames,
            settings.deallocation_stack_frames,
            settings.track_threads,
            settings.track_heap_lifetimes,
        );
        self.logs.push(state);
        self.next_log_id = self.next_log_id.wrapping_add(1);
        proof {
            assert forall|at: int| 0 <= at < self.logs@.len() implies (#[trigger] self.logs@[at]).wf() && 1
                <= self.logs@[at].session_id <= self.last_session by {
                if at < before.len() {
                    assert(before[at].wf());
                }
            }
        }
        log
    }

    /// Whether a thread's next allocation makes a log.
    pub open spec fn joins(&self, thread: ThreadTracking) -> bool {
        !thread.in_tracking && thread.refresh_countdown == 0 && self.active_session != thread.session && self.active_session != 0
    }

    pub open spec fn next_thread(&self, thread: ThreadTracking) -> ThreadTracking {
        if thread.in_tracking {
            thread
        } else if thread.refresh_countdown == 0 {
            if self.active_session == thread.session {
                ThreadTracking { refresh_countdown: REFRESH_INTERVAL, ..thread }
            } else {
                ThreadTracking {
                    refresh_countdown: REFRESH_INTERVAL,
                    session: self.active_session,
                    log: if self.active_session == 0 {
                        None
                    } else {
                        Some(self.logs@.len() as usize)
                    },
                    ..thread
                }
            }
        } else {
            ThreadTracking { refresh_countdown: (thread.refresh_countdown - 1) as usize, ..thread }
        }
    }

    /// The log that a thread records its next event in. Every so often the thread looks whether
    /// the session has changed, and gets a log for a new one.
    pub fn tracking_target(&mut self, thread: &mut ThreadTracking, settings: CallerSettings) -> (log: Option<usize>)
        requires
            old(self).wf(),
            settings.valid(),
            old(thread).log matches Some(log) ==> log < old(self).logs@.len(),
        ensures
            final(self).wf(),
            final(self).active_session == old(self).active_session,
            final(self).last_session == old(self).last_session,
            final(self).next_session == old(self).next_session,
            final(self).callers_available == old(self).callers_available,
            final(self).names == old(self).names,
            *final(thread) == old(self).next_thread(*old(thread)),
            log == (if old(thread).in_tracking {
                None
            } else {
                final(thread).log
            }),
            final(thread).log matches Some(log) ==> log < final(self).logs@.len(),
            !old(self).joins(*old(thread)) ==> *final(self) == *old(self),
            old(self).joins(*old(thread)) ==> final(self).logs@.len() == old(self).logs@.len() + 1 && (forall|at: int|
                0 <= at < old(self).logs@.len() ==> #[trigger] final(self).logs@[at] == old(self).logs@[at])
                && final(self).logs@.last().begun(old(self).active_session, old(self).next_log_id, settings, 0)
                && final(self).next_log_id == old(self).next_log_id.wrapping_add(1),
    {
        if thread.in_tracking {
            return None;
        }
        if thread.refresh_countdown == 0 {
            let session: usize = self.active_session;
            thread.refresh_countdown = REFRESH_INTERVAL;
            if session != thread.session {
                thread.session = session;
                thread.log = None;
                if session != 0 {
                    let log: usize = self.create_thread_log(settings, session);
                    thread.log = Some(log);
                }
            }
        } else {
            thread.refresh_countdown = thread.refresh_countdown - 1;
        }
        thread.log
    }

    /// Starts recording an allocation, where a session is running and the thread takes part.
    pub fn begin_allocation(&mut self, thread: &mut ThreadTracking, settings: CallerSettings) -> (pending: Option<PendingTracking>)
        requires
            old(self).wf(),
            settings.valid(),
            old(thread).log matches Some(log) ==> log < old(self).logs@.len(),
        ensures
            final(self).wf(),
            final(thread).log matches Some(log) ==> log < final(self).logs@.len(),
            final(self).active_session == old(self).active_session,
            final(self).last_session == old(self).last_session,
            final(self).next_session == old(self).next_session,
            final(self).names == old(self).names,
            old(self).active_session == 0 ==> pending is None && *final(thread) == *old(thread),
            old(self).active_session != 0 ==> *final(thread) == old(self).next_thread(*old(thread)),
            pending is Some <==> old(self).active_session != 0 && !old(thread).in_tracking && final(thread).log is Some,
            pending matches Some(pending) ==> {
                &&& Some(pending.log) == final(thread).log
                &&& pending.log < final(self).logs@.len()
                &&& final(self).callers_available
                &&& pending.frame_limit == final(self).logs@[pending.log as int].allocation_stack_frames
                &&& if old(self).joins(*old(thread)) {
                    &&& pending.allocation_id == 1
                    &&& final(self).logs@.len() == old(self).logs@.len() + 1
                    &&& final(self).logs@.last().begun(old(self).active_session, old(self).next_log_id, settings, 1)
                    &&& final(self).next_log_id == old(self).next_log_id.wrapping_add(1)
                } else {
                    &&& pending.allocation_id == old(self).logs@[pending.log as int].next_allocation_id
                    &&& final(self).logs@.len() == old(self).logs@.len()
                    &&& final(self).logs@[pending.log as int] == (TrackingState {
                        next_allocation_id: pending.allocation_id.wrapping_add(1),
                        ..old(self).logs@[pending.log as int]
                    })
                    &&& final(self).next_log_id == old(self).next_log_id
                }
                &&& forall|at: int|
                    0 <= at < old(self).logs@.len() && at != pending.log ==> #[trigger] final(self).logs@[at] == old(self).logs@[at]
            },
            pending is None ==> *final(self) == *old(self),
    {
        if self.active_session == 0 {
            return None;
        }
        let count: usize = self.logs.len();
        assert(count == old(self).logs@.len());
        let target = self.tracking_target(thread, settings);
        match target {
            None => None,
            Some(log) => {
                let ghost before = self.logs@;
                self.callers_available = true;
                assert(self.logs@[log as int].wf());
                let allocation_id: usize = self.logs[log].take_allocation_id();
                let frame_limit: usize = self.logs[log].allocation_stack_frames;
                proof {
                    assert forall|at: int| 0 <= at < self.logs@.len() implies (#[trigger] self.logs@[at]).wf() && 1
                        <= self.logs@[at].session_id <= self.last_session by {
                        assert(before[at].wf());
                    }
                }
                Some(PendingTracking { log, allocation_id, frame_limit })
            },
        }
    }

    /// Writes an event into a log.
    fn record_in(&mut self, log: usize, record: TrackingRecord, frames: &Vec<usize>)
        requires
            old(self).wf(),
            log < old(self).logs@.len(),
            old(self).logs@[log as int].write_index < usize::MAX,
        ensures
            final(self).wf(),
            final(self).logs@.len() == old(self).logs@.len(),
            forall|at: int| 0 <= at < old(self).logs@.len() && at != log ==> #[trigger] final(self).logs@[at] == old(self).logs@[at],
            final(self).logs@[log as int].recorded(&old(self).logs@[log as int], record, frames@),
            final(self).active_session == old(self).active_session,
            final(self).last_session == old(self).last_session,
            final(self).next_session == old(self).next_session,
            final(self).next_log_id == old(self).next_log_id,
            final(self).callers_available == old(self).callers_available,
            final(self).names == old(self).names,
    {
        let ghost before = self.logs@;
        assert(self.logs@[log as int].wf());
        self.logs[log].record(record, frames);
        proof {
            assert forall|at: int| 0 <= at < self.logs@.len() implies (#[trigger] self.logs@[at]).wf() && 1
                <= self.logs@[at].session_id <= self.last_session by {
                assert(before[at].wf());
            }
        }
    }

    /// Records that an allocation was made. Returns what it carries to be found again.
    pub fn commit(
        &mut self,
        pending: PendingTracking,
        address: usize,
        layout: Layout,
        heap_id: usize,
        heap_kind: HeapKind,
        thread_token: usize,
        frames: &Vec<usize>,
    ) -> (allocation: TrackingAllocation)
        requires
            old(self).wf(),
            pending.log < old(self).logs@.len(),
            old(self).logs@[pending.log as int].write_index < usize::MAX,
            pending.log < usize::MAX,
        ensures
            final(self).wf(),
            allocation == (TrackingAllocation {
                log: (pending.log + 1) as usize,
                allocation_id: pending.allocation_id,
                heap_id,
                heap_kind,
            }),
            final(self).logs@.len() == old(self).logs@.len(),
            forall|at: int|
                0 <= at < old(self).logs@.len() && at != pending.log ==> #[trigger] final(self).logs@[at] == old(self).logs@[at],
            final(self).logs@[pending.log as int].recorded(
                &old(self).logs@[pending.log as int],
                TrackingRecord {
                    kind: EventKind::Allocated,
                    allocation_id: pending.allocation_id,
                    event_thread_id: thread_token,
                    heap_id,
                    heap_kind,
                    freed_after_heap_release: false,
                    address,
                    layout,
                },
                frames@,
            ),
            *final(self) == (Tracking { logs: final(self).logs, ..*old(self) }),
    {
        let record = TrackingRecord {
            kind: EventKind::Allocated,
            allocation_id: pending.allocation_id,
            event_thread_id: thread_token,
            heap_id,
            heap_kind,
            freed_after_heap_release: false,
            address,
            layout,
        };
        self.record_in(pending.log, record, frames);
        TrackingAllocation { log: pending.log + 1, allocation_id: pending.allocation_id, heap_id, heap_kind }
    }

    /// Records that an allocation was freed, where a log knows of it.
    pub fn record_deallocation(
        &mut self,
        allocation: TrackingAllocation,
        address: usize,
        layout: Layout,
        freed_after_heap_release: bool,
        thread_token: usize,
        frames: &Vec<usize>,
    )
        requires
            old(self).wf(),
            allocation.log <= old(self).logs@.len(),
            allocation.log != 0 ==> old(self).logs@[allocation.log - 1].write_index < usize::MAX,
        ensures
            final(self).wf(),
            allocation.log == 0 ==> *final(self) == *old(self),
            allocation.log != 0 ==> {
                &&& final(self).logs@.len() == old(self).logs@.len()
                &&& forall|at: int|
                    0 <= at < old(self).logs@.len() && at != allocation.log - 1 ==> #[trigger] final(self).logs@[at] == old(self).logs@[at]
                &&& final(self).logs@[allocation.log - 1].recorded(
                    &old(self).logs@[allocation.log - 1],
                    TrackingRecord {
                        kind: EventKind::Deallocated,
                        allocation_id: allocation.allocation_id,
                        event_thread_id: thread_token,
                        heap_id: allocation.heap_id,
                        heap_kind: allocation.heap_kind,
                        freed_after_heap_release,
                        address,
                        layout,
                    },
                    frames@,
                )
                &&& *final(self) == (Tracking { logs: final(self).logs, ..*old(self) })
            },
    {
        if allocation.log == 0 {
            return ;
        }
        let record = TrackingRecord {
            kind: EventKind::Deallocated,
            allocation_id: allocation.allocation_id,
            event_thread_id: thread_token,
            heap_id: allocation.heap_id,
            heap_kind: allocation.heap_kind,
            freed_after_heap_release,
            address,
            layout,
        };
        self.record_in(allocation.log - 1, record, frames);
    }

    /// Whether a name is kept for the thread.
    pub open spec fn knows_thread(&self, thread_id: usize) -> bool {
        exists|at: int| 0 <= at < self.names@.len() && (#[trigger] self.names@[at]).thread_id == thread_id
    }

    /// Keeps the name of a thread, where it has one and none is kept yet.
    pub fn register_thread_identity(&mut self, thread_id: usize, name: Option<String>)
        ensures
            final(self).logs == old(self).logs,
            final(self).active_session == old(self).active_session,
            final(self).last_session == old(self).last_session,
            final(self).next_session == old(self).next_session,
            final(self).next_log_id == old(self).next_log_id,
            final(self).callers_available == old(self).callers_available,
            name is None || old(self).knows_thread(thread_id) ==> final(self).names == old(self).names,
            name is Some && !old(self).knows_thread(thread_id) ==> final(self).names@ == old(self).names@.push(
                ThreadName { thread_id, name: name->0 },
            ),
    {
        match name {
            None => {},
            Some(name) => {
                let mut at: usize = 0;
                while at < self.names.len()
                    invariant
                        at <= self.names@.len(),
                        *self == *old(self),
                        forall|index: int| 0 <= index < at ==> (#[trigger] self.names@[index]).thread_id != thread_id,
                    decreases self.names@.len() - at,
                {
                    if self.names[at].thread_id == thread_id {
                        assert(self.knows_thread(thread_id));
                        return ;
                    }
                    at = at + 1;
                }
                self.names.push(ThreadName { thread_id, name });
            },
        }
    }
}

/// What the logs of a session hold of one thread.
pub struct ThreadLog {
    pub thread_log_id: usize,
    pub total_events: usize,
    pub lost_events: usize,
    pub allocated_histogram: Vec<usize>,
    pub live_histogram: Vec<usize>,
}

#[verifier::ext_equal]
pub struct ThreadLogModel {
    pub thread_log_id: usize,
    pub total_events: usize,
    pub lost_events: usize,
    pub allocated_histogram: Seq<usize>,
    pub live_histogram: Seq<usize>,
}

impl View for ThreadLog {
    type V = ThreadLogModel;

    open spec fn view(&self) -> ThreadLogModel {
        ThreadLogModel {
            thread_log_id: self.thread_log_id,
            total_events: self.total_events,
            lost_events: self.lost_events,
            allocated_histogram: self.allocated_histogram@,
            live_histogram: self.live_histogram@,
        }
    }
}

/// What the logs of a session hold.
pub struct CallerSnapshot {
    pub session_id: usize,
    pub total_events: usize,
    pub lost_events: usize,
    pub threads: Vec<ThreadLog>,
    pub events: Vec<Event>,
    pub thread_names: Vec<ThreadName>,
}

pub open spec fn thread_models(threads: Seq<ThreadLog>) -> Seq<ThreadLogModel> {
    Seq::new(threads.len(), |at: int| threads[at]@)
}

pub open spec fn name_models(names: Seq<ThreadName>) -> Seq<NameModel> {
    Seq::new(names.len(), |at: int| names[at]@)
}

/// The events that the first logs hold of a session.
pub open spec fn session_events(logs: Seq<TrackingState>, session: usize, count: int) -> Seq<EventModel>
    decreases count,
{
    if count <= 0 {
        Seq::empty()
    } else if logs[count - 1].session_id == session {
        session_events(logs, session, count - 1) + logs[count - 1].history@.skip(logs[count - 1].first())
    } else {
        session_events(logs, session, count - 1)
    }
}

pub open spec fn log_shown(log: TrackingState) -> ThreadLogModel {
    ThreadLogModel {
        thread_log_id: log.thread_log_id,
        total_events: log.write_index,
        lost_events: log.first() as usize,
        allocated_histogram: log.allocated_histogram@,
        live_histogram: log.live_histogram@,
    }
}

pub open spec fn session_threads(logs: Seq<TrackingState>, session: usize, count: int) -> Seq<ThreadLogModel>
    decreases count,
{
    if count <= 0 {
        Seq::empty()
    } else if logs[count - 1].session_id == session {
        session_threads(logs, session, count - 1).push(log_shown(logs[count - 1]))
    } else {
        session_threads(logs, session, count - 1)
    }
}

/// How many events the first logs of a session were given, and how many they let go.
pub open spec fn session_counts(logs: Seq<TrackingState>, session: usize, count: int) -> (int, int)
    decreases count,
{
    if count <= 0 {
        (0, 0)
    } else {
        let (total, lost) = session_counts(logs, session, count - 1);
        if logs[count - 1].session_id == session {
            (total + logs[count - 1].write_index, lost + logs[count - 1].first())
        } else {
            (total, lost)
        }
    }
}

proof fn lemma_session_counts(logs: Seq<TrackingState>, session: usize, count: int, all: int)
    requires
        0 <= count <= all <= logs.len(),
    ensures
        0 <= session_counts(logs, session, count).0 <= session_counts(logs, session, all).0,
        0 <= session_counts(logs, session, count).1 <= session_counts(logs, session, all).1,
        session_counts(logs, session, count).1 <= session_counts(logs, session, count).0,
    decreases all,
{
    if count < all {
        lemma_session_counts(logs, session, count, all - 1);
    } else if count > 0 {
        lemma_session_counts(logs, session, count - 1, count - 1);
    }
}

pub open spec fn event_keys(events: Seq<EventModel>) -> Seq<(usize, usize)> {
    Seq::new(events.len(), |at: int| (events[at].thread_log_id, events[at].sequence))
}

/// Whether an event of the thread is among them.
pub open spec fn names_thread(events: Seq<EventModel>, thread_id: usize) -> bool {
    exists|at: int| 0 <= at < events.len() && (#[trigger] events[at]).event_thread_id == thread_id
}

/// The names of the threads that the events name.
pub open spec fn names_of(names: Seq<NameModel>, events: Seq<EventModel>) -> Seq<NameModel>
    decreases names.len(),
{
    if names.len() == 0 {
        Seq::empty()
    } else if names_thread(events, names.last().thread_id) {
        names_of(names.drop_last(), events).push(names.last())
    } else {
        names_of(names.drop_last(), events)
    }
}

fn copy_event(event: &Event) -> (copy: Event)
    ensures
        copy@ == event@,
{
    Event {
        thread_log_id: event.thread_log_id,
        event_thread_id: event.event_thread_id,
        sequence: event.sequence,
        allocation_id: event.allocation_id,
        kind: event.kind,
        heap_id: event.heap_id,
        heap_kind: event.heap_kind,
        freed_after_heap_release: event.freed_after_heap_release,
        address: event.address,
        size: event.size,
        align: event.align,
        call_stack: copy_frames(&event.call_stack),
    }
}

/// Whether the events are those of the logs, ordered by log and number.
pub open spec fn ordered_events(all: Seq<EventModel>, events: Seq<EventModel>) -> bool {
    exists|order: Seq<usize>|
        #[trigger] sorts(event_keys(all), order) && events == Seq::new(order.len(), |at: int| all[order[at] as int])
}

/// The events in the order of their logs and numbers.
fn sort_events(all: &Vec<Event>) -> (events: Vec<Event>)
    ensures
        ordered_events(event_models(all@), event_models(events@)),
{
    let ghost models = event_models(all@);
    let mut keys: Vec<(usize, usize)> = Vec::new();
    let mut at: usize = 0;
    while at < all.len()
        invariant
            at <= all@.len(),
            models == event_models(all@),
            keys@ == event_keys(models).take(at as int),
        decreases all@.len() - at,
    {
        keys.push((all[at].thread_log_id, all[at].sequence));
        at = at + 1;
        assert(keys@ =~= event_keys(models).take(at as int));
    }
    assert(keys@ =~= event_keys(models));
    let order = order_by_key(&keys);
    let mut events: Vec<Event> = Vec::new();
    let ghost sorted = Seq::new(order@.len(), |at: int| models[order@[at] as int]);
    let mut place: usize = 0;
    assert(event_models(events@) =~= sorted.take(0));
    while place < order.len()
        invariant
            models == event_models(all@),
            sorts(event_keys(models), order@),
            sorted == Seq::new(order@.len(), |at: int| models[order@[at] as int]),
            place <= order@.len(),
            event_models(events@) == sorted.take(place as int),
        decreases order@.len() - place,
    {
        let ghost before = events@;
        let event = copy_event(&all[order[place]]);
        events.push(event);
        proof {
            assert(event_models(events@) =~= event_models(before).push(events@.last()@));
            assert(sorted.take(place + 1) =~= sorted.take(place as int).push(sorted[place as int]));
        }
        place = place + 1;
    }
    assert(sorted.take(place as int) =~= sorted);
    assert(sorts(event_keys(models), order@));
    events
}

fn has_thread(events: &Vec<Event>, thread_id: usize) -> (found: bool)
    ensures
        found == names_thread(event_models(events@), thread_id),
{
    let mut at: usize = 0;
    while at < events.len()
        invariant
            at <= events@.len(),
            forall|index: int| 0 <= index < at ==> (#[trigger] event_models(events@)[index]).event_thread_id != thread_id,
        decreases events@.len() - at,
    {
        if events[at].event_thread_id == thread_id {
            assert(event_models(events@)[at as int].event_thread_id == thread_id);
            return true;
        }
        at = at + 1;
    }
    false
}

/// The names of the threads that the events name.
fn select_names(names: &Vec<ThreadName>, events: &Vec<Event>) -> (selected: Vec<ThreadName>)
    ensures
        name_models(selected@) == names_of(name_models(names@), event_models(events@)),
{
    let ghost models = name_models(names@);
    let mut selected: Vec<ThreadName> = Vec::new();
    let mut at: usize = 0;
    assert(models.take(0) =~= Seq::empty());
    assert(name_models(selected@) =~= Seq::empty());
    while at < names.len()
        invariant
            at <= names@.len(),
            models == name_models(names@),
            name_models(selected@) == names_of(models.take(at as int), event_models(events@)),
        decreases names@.len() - at,
    {
        let ghost before = selected@;
        proof {
            assert(models.take(at + 1).drop_last() =~= models.take(at as int));
            assert(models.take(at + 1).last() == names@[at as int]@);
        }
        if has_thread(events, names[at].thread_id) {
            let name = ThreadName { thread_id: names[at].thread_id, name: names[at].name.clone() };
            assert(name@ =~= names@[at as int]@);
            selected.push(name);
            assert(name_models(selected@) =~= name_models(before).push(selected@.last()@));
        }
        at = at + 1;
    }
    assert(models.take(at as int) =~= models);
    selected
}

impl Tracking {
    /// What the logs of the last session hold together, where anything was recorded.
    pub fn caller_snapshot(&self) -> (snapshot: Option<CallerSnapshot>)
        requires
            self.wf(),
            session_counts(self.logs@, self.last_session, self.logs@.len() as int).0 <= usize::MAX,
        ensures
            snapshot is Some <==> self.callers_available,
            snapshot matches Some(snapshot) ==> {
                let count = self.logs@.len() as int;
                let session = self.last_session;
                &&& snapshot.session_id == session
                &&& snapshot.total_events == session_counts(self.logs@, session, count).0
                &&& snapshot.lost_events == session_counts(self.logs@, session, count).1
                &&& thread_models(snapshot.threads@) == session_threads(self.logs@, session, count)
                &&& ordered_events(session_events(self.logs@, session, count), event_models(snapshot.events@))
                &&& name_models(snapshot.thread_names@) == names_of(name_models(self.names@), event_models(snapshot.events@))
            },
    {
        if !self.callers_available {
            return None;
        }
        let session_id: usize = self.last_session;
        let ghost count = self.logs@.len() as int;
        let mut threads: Vec<ThreadLog> = Vec::new();
        let mut all: Vec<Event> = Vec::new();
        let mut total_events: usize = 0;
        let mut lost_events: usize = 0;
        let mut at: usize = 0;
        assert(thread_models(threads@) =~= Seq::empty());
        assert(event_models(all@) =~= Seq::empty());
        while at < self.logs.len()
            invariant
                self.wf(),
                session_id == self.last_session,
                count == self.logs@.len(),
                at <= self.logs@.len(),
                session_counts(self.logs@, session_id, count).0 <= usize::MAX,
                total_events == session_counts(self.logs@, session_id, at as int).0,
                lost_events == session_counts(self.logs@, session_id, at as int).1,
                thread_models(threads@) == session_threads(self.logs@, session_id, at as int),
                event_models(all@) == session_events(self.logs@, session_id, at as int),
            decreases self.logs@.len() - at,
        {
            assert(self.logs@[at as int].wf());
            proof {
                lemma_session_counts(self.logs@, session_id, at + 1, count);
            }
            if self.logs[at].session_id == session_id {
                let ghost threads_before = threads@;
                let ghost all_before = all@;
                let mut snapshot: ThreadSnapshot = self.logs[at].snapshot();
                total_events = total_events + snapshot.total_events;
                lost_events = lost_events + snapshot.lost_events;
                let ghost mine = snapshot.events@;
                all.append(&mut snapshot.events);
                threads.push(
                    ThreadLog {
                        thread_log_id: self.logs[at].thread_log_id,
                        total_events: snapshot.total_events,
                        lost_events: snapshot.lost_events,
                        allocated_histogram: snapshot.allocated_histogram,
                        live_histogram: snapshot.live_histogram,
                    },
                );
                proof {
                    assert(event_models(all@) =~= event_models(all_before) + event_models(mine));
                    assert(threads@.last()@ =~= log_shown(self.logs@[at as int]));
                    assert(thread_models(threads@) =~= thread_models(threads_before).push(threads@.last()@));
                }
            }
            at = at + 1;
        }
        let events = sort_events(&all);
        let thread_names = select_names(&self.names, &events);
        Some(CallerSnapshot { session_id, total_events, lost_events, threads, events, thread_names })
    }
}

/// A thread looks whether the session has changed once its countdown is over, and starts another. It then has the
/// session that is running, with a new log where that is another one than before, and none where none is running.
/// Between, and where the session is the same, it keeps its log.
pub proof fn law_threads_follow_the_session(tracking: Tracking, thread: ThreadTracking)
    requires
        tracking.logs@.len() <= usize::MAX,
    ensures
        ({
            let next = tracking.next_thread(thread);
            &&& thread.in_tracking ==> next == thread
            &&& next.in_tracking == thread.in_tracking
            &&& !thread.in_tracking && thread.refresh_countdown > 0 ==> next.refresh_countdown + 1 == thread.refresh_countdown
                && next.session == thread.session && next.log == thread.log
            &&& !thread.in_tracking && thread.refresh_countdown == 0 ==> {
                &&& next.session == tracking.active_session
                &&& next.refresh_countdown == REFRESH_INTERVAL
                &&& thread.session == tracking.active_session ==> next.log == thread.log
                &&& thread.session != tracking.active_session && tracking.active_session == 0 ==> next.log is None
                &&& thread.session != tracking.active_session && tracking.active_session != 0 ==> (next.log matches Some(log) && log
                    == tracking.logs@.len())
            }
            &&& tracking.joins(thread) <==> !thread.in_tracking && thread.refresh_countdown == 0 && tracking.active_session != 0
                && thread.session != tracking.active_session
        }),
{
}

} // verus!
