//! Allocation events, and what an allocation carries to be found in them again.

use vstd::prelude::*;

use crate::allocator::layout::Layout;

verus! {

#[derive(Clone, Copy, Debug, PartialEq, Eq, Structural)]
pub enum HeapKind {
    General,
    Bump,
    Thread,
}

/// Which event log knows of an allocation, and under which number.
#[derive(Clone, Copy, Debug, PartialEq, Eq, Structural)]
pub struct TrackingAllocation {
    /// The log, or 0 where no log knows of the allocation.
    pub log: usize,
    pub allocation_id: usize,
    pub heap_id: usize,
    pub heap_kind: HeapKind,
}

pub open spec fn not_logged() -> TrackingAllocation {
    TrackingAllocation { log: 0, allocation_id: 0, heap_id: 0, heap_kind: HeapKind::General }
}

impl TrackingAllocation {
    pub fn none() -> (allocation: TrackingAllocation)
        ensures
            allocation == not_logged(),
    {
        TrackingAllocation { log: 0, allocation_id: 0, heap_id: 0, heap_kind: HeapKind::General }
    }
}

#[derive(Clone, Copy, Debug, PartialEq, Eq, Structural)]
pub enum EventKind {
    Allocated,
    Deallocated,
}

/// Something that happened to an allocation.
pub struct Event {
    pub thread_log_id: usize,
    pub event_thread_id: usize,
    pub sequence: usize,
    pub allocation_id: usize,
    pub kind: EventKind,
    pub heap_id: usize,
    pub heap_kind: HeapKind,
    pub freed_after_heap_release: bool,
    pub address: usize,
    pub size: usize,
    pub align: usize,
    pub call_stack: Vec<usize>,
}

#[verifier::ext_equal]
pub struct EventModel {
    pub thread_log_id: usize,
    pub event_thread_id: usize,
    pub sequence: usize,
    pub allocation_id: usize,
    pub kind: EventKind,
    pub heap_id: usize,
    pub heap_kind: HeapKind,
    pub freed_after_heap_release: bool,
    pub address: usize,
    pub size: usize,
    pub align: usize,
    pub call_stack: Seq<usize>,
}

impl View for Event {
    type V = EventModel;

    open spec fn view(&self) -> EventModel {
        EventModel {
            thread_log_id: self.thread_log_id,
            event_thread_id: self.event_thread_id,
            sequence: self.sequence,
            allocation_id: self.allocation_id,
            kind: self.kind,
            heap_id: self.heap_id,
            heap_kind: self.heap_kind,
            freed_after_heap_release: self.freed_after_heap_release,
            address: self.address,
            size: self.size,
            align: self.align,
            call_stack: self.call_stack@,
        }
    }
}

pub open spec fn event_models(events: Seq<Event>) -> Seq<EventModel> {
    Seq::new(events.len(), |at: int| events[at]@)
}

/// What is to be written down of an event.
#[derive(Clone, Copy, Debug, PartialEq, Eq, Structural)]
pub struct TrackingRecord {
    pub kind: EventKind,
    pub allocation_id: usize,
    pub event_thread_id: usize,
    pub heap_id: usize,
    pub heap_kind: HeapKind,
    pub freed_after_heap_release: bool,
    pub address: usize,
    pub layout: Layout,
}

} // verus!
