//! The event log of a thread: a ring that keeps the newest events.

use vstd::prelude::*;

use crate::config::CallerSettings;
use crate::telemetry::aggregates::{added, bit_length, histogram_bucket, zeros, HISTOGRAM_BUCKETS};
use crate::telemetry::events::{event_models, Event, EventKind, EventModel, HeapKind, TrackingRecord};
use crate::telemetry::stacks::{
    dropped, has_vacancy, law_stack_resolves_to_its_frames, lemma_search, named, resolved, EntryModel,
    StackTable,
};

verus! {

#[derive(Clone, Copy, Debug, PartialEq, Eq, Structural)]
pub struct TrackingSlotData {
    /// The number of the event, counted from 1, or 0.
    pub sequence: usize,
    pub allocation_id: usize,
    pub event_thread_id: usize,
    pub heap_id: usize,
    pub heap_kind: HeapKind,
    pub freed_after_heap_release: bool,
    pub address: usize,
    pub size: usize,
    pub align: usize,
    pub stack_id: usize,
    pub kind: EventKind,
}

pub open spec fn empty_slot() -> TrackingSlotData {
    TrackingSlotData {
        sequence: 0,
        allocation_id: 0,
        event_thread_id: 0,
        heap_id: 0,
        heap_kind: HeapKind::General,
        freed_after_heap_release: false,
        address: 0,
        size: 0,
        align: 0,
        stack_id: 0,
        kind: EventKind::Allocated,
    }
}

pub struct TrackingState {
    pub session_id: usize,
    pub thread_log_id: usize,
    pub slots: Vec<TrackingSlotData>,
    pub stacks: StackTable,
    pub allocation_stack_frames: usize,
    pub deallocation_stack_frames: usize,
    pub track_threads: bool,
    pub track_heap_lifetimes: bool,
    pub allocated_histogram: Vec<usize>,
    pub live_histogram: Vec<usize>,
    pub write_index: usize,
    pub next_allocation_id: usize,
    /// Every event that was ever recorded.
    pub history: Ghost<Seq<EventModel>>,
}

/// The slots whose events name the stack.
pub open spec fn naming(slots: Seq<TrackingSlotData>, stack_id: int) -> Set<int> {
    Set::new(|at: int| 0 <= at < slots.len() && slots[at].stack_id == stack_id)
}

/// The event that a slot holds.
pub open spec fn held(slot: TrackingSlotData, log: usize, entries: Seq<EntryModel>) -> EventModel {
    EventModel {
        thread_log_id: log,
        event_thread_id: slot.event_thread_id,
        sequence: slot.sequence,
        allocation_id: slot.allocation_id,
        kind: slot.kind,
        heap_id: slot.heap_id,
        heap_kind: slot.heap_kind,
        freed_after_heap_release: slot.freed_after_heap_release,
        address: slot.address,
        size: slot.size,
        align: slot.align,
        call_stack: resolved(entries, slot.stack_id as int),
    }
}

impl TrackingState {
    pub open spec fn capacity(&self) -> int {
        self.slots@.len() as int
    }

    /// The oldest event that the ring still holds.
    pub open spec fn first(&self) -> int {
        if self.write_index > self.capacity() {
            self.write_index - self.capacity()
        } else {
            0
        }
    }

    /// Whether the stacks are counted as often as slots name them.
    pub open spec fn stacks_ok(&self) -> bool {
        &&& self.stacks@.len() == self.capacity()
        &&& forall|at: int| 0 <= at < self.capacity() ==> (#[trigger] self.slots@[at]).stack_id <= self.capacity()
        &&& forall|stack: int|
            0 <= stack < self.capacity() ==> (#[trigger] self.stacks@[stack]).references == naming(self.slots@, stack + 1).len()
    }

    pub open spec fn wf(&self) -> bool {
        &&& self.capacity() > 0
        &&& self.stacks_ok()
        &&& self.allocated_histogram@.len() == HISTOGRAM_BUCKETS
        &&& self.live_histogram@.len() == HISTOGRAM_BUCKETS
        &&& self.history@.len() == self.write_index
        &&& forall|index: int|
            #![trigger self.history@[index]]
            self.first() <= index < self.write_index ==> held(
                self.slots@[index % self.capacity()],
                self.thread_log_id,
                self.stacks@,
            ) == self.history@[index] && self.history@[index].sequence == index + 1
        &&& forall|at: int| self.write_index <= at < self.capacity() ==> #[trigger] self.slots@[at] == empty_slot()
    }

    /// Whether the log is a new one of those settings, out of which so many allocations were numbered.
    pub open spec fn begun(&self, session_id: usize, thread_log_id: usize, settings: CallerSettings, numbered: int) -> bool {
        &&& self.session_id == session_id
        &&& self.thread_log_id == thread_log_id
        &&& self.capacity() == settings.event_capacity
        &&& self.allocation_stack_frames == settings.allocation_stack_frames
        &&& self.deallocation_stack_frames == settings.deallocation_stack_frames
        &&& self.track_threads == settings.track_threads
        &&& self.track_heap_lifetimes == settings.track_heap_lifetimes
        &&& self.history@.len() == 0
        &&& self.write_index == 0
        &&& self.next_allocation_id == 1 + numbered
        &&& self.allocated_histogram@ == zeros(HISTOGRAM_BUCKETS as int)
        &&& self.live_histogram@ == zeros(HISTOGRAM_BUCKETS as int)
    }

    /// Whether the log holds one event more and counts it, and nothing else changed.
    pub open spec fn recorded(&self, before: &TrackingState, record: TrackingRecord, call_stack: Seq<usize>) -> bool {
        let bucket = bit_length(record.layout.size as int);
        &&& self.history@ == before.history@.push(before.event_of(record, call_stack))
        &&& self.write_index == before.write_index + 1
        &&& self.capacity() == before.capacity()
        &&& self.session_id == before.session_id
        &&& self.thread_log_id == before.thread_log_id
        &&& self.allocation_stack_frames == before.allocation_stack_frames
        &&& self.deallocation_stack_frames == before.deallocation_stack_frames
        &&& self.track_threads == before.track_threads
        &&& self.track_heap_lifetimes == before.track_heap_lifetimes
        &&& self.next_allocation_id == before.next_allocation_id
        &&& self.allocated_histogram@ == (match record.kind {
            EventKind::Allocated => added(before.allocated_histogram@, bucket, 1),
            EventKind::Deallocated => before.allocated_histogram@,
        })
        &&& self.live_histogram@ == (match record.kind {
            EventKind::Allocated => added(before.live_histogram@, bucket, 1),
            EventKind::Deallocated => added(before.live_histogram@, bucket, usize::MAX),
        })
    }

    /// What the log keeps of a record.
    pub open spec fn event_of(&self, record: TrackingRecord, call_stack: Seq<usize>) -> EventModel {
        EventModel {
            thread_log_id: self.thread_log_id,
            event_thread_id: if self.track_threads {
                record.event_thread_id
            } else {
                0
            },
            sequence: (self.write_index + 1) as usize,
            allocation_id: record.allocation_id,
            kind: record.kind,
            heap_id: if self.track_heap_lifetimes {
                record.heap_id
            } else {
                0
            },
            heap_kind: record.heap_kind,
            freed_after_heap_release: self.track_heap_lifetimes && record.freed_after_heap_release,
            address: record.address,
            size: record.layout.size,
            align: record.layout.align,
            call_stack,
        }
    }
}

proof fn lemma_naming_finite(slots: Seq<TrackingSlotData>, stack_id: int)
    ensures
        naming(slots, stack_id).finite(),
        naming(slots, stack_id).len() <= slots.len(),
{
    let range = vstd::set_lib::set_int_range(0, slots.len() as int);
    vstd::set_lib::lemma_int_range(0, slots.len() as int);
    assert(naming(slots, stack_id).subset_of(range));
    vstd::set_lib::lemma_set_subset_finite(range, naming(slots, stack_id));
    vstd::set_lib::lemma_len_subset(naming(slots, stack_id), range);
}

/// With one slot that names no stack there is a stack that no slot names.
proof fn lemma_vacancy(slots: Seq<TrackingSlotData>, spare: int)
    requires
        0 <= spare < slots.len(),
        slots[spare].stack_id == 0,
    ensures
        exists|stack: int| 0 <= stack < slots.len() && #[trigger] naming(slots, stack + 1).len() == 0,
{
    let count = slots.len() as int;
    if forall|stack: int| 0 <= stack < count ==> #[trigger] naming(slots, stack + 1).len() != 0 {
        let stacks = vstd::set_lib::set_int_range(0, count);
        vstd::set_lib::lemma_int_range(0, count);
        let slot_of = |stack: int| naming(slots, stack + 1).choose();
        let used = stacks.map(slot_of);
        assert forall|stack: int| #[trigger] stacks.contains(stack) implies naming(slots, stack + 1).contains(slot_of(stack)) by {
            lemma_naming_finite(slots, stack + 1);
            assert(naming(slots, stack + 1).len() != 0);
        }
        assert forall|left: int, right: int|
            #![trigger slot_of(left), slot_of(right)]
            stacks.contains(left) && stacks.contains(right) && slot_of(left) == slot_of(right) implies left == right by {
            assert(naming(slots, left + 1).contains(slot_of(left)));
            assert(naming(slots, right + 1).contains(slot_of(right)));
        }
        lemma_image_len(stacks, slot_of);
        let others = stacks.remove(spare);
        assert forall|at: int| #[trigger] used.contains(at) implies others.contains(at) by {
            let stack = choose|stack: int| stacks.contains(stack) && at == slot_of(stack);
            assert(naming(slots, stack + 1).contains(slot_of(stack)));
        }
        assert(used.subset_of(others));
        vstd::set_lib::lemma_len_subset(used, others);
        assert(false);
    }
}

/// Mapping a set one to one keeps its size.
proof fn lemma_image_len(set: Set<int>, image: spec_fn(int) -> int)
    requires
        set.finite(),
        forall|left: int, right: int|
            #![trigger image(left), image(right)]
            set.contains(left) && set.contains(right) && image(left) == image(right) ==> left == right,
    ensures
        set.map(image).finite(),
        set.map(image).len() == set.len(),
    decreases set.len(),
{
    if set.len() == 0 {
        assert(set =~= Set::empty());
        assert(set.map(image) =~= Set::empty());
    } else {
        let member = set.choose();
        let rest = set.remove(member);
        lemma_image_len(rest, image);
        assert(set.map(image) =~= rest.map(image).insert(image(member))) by {
            assert forall|value: int| set.map(image).contains(value) implies #[trigger] rest.map(image).insert(image(member)).contains(
                value,
            ) by {
                let from = choose|from: int| set.contains(from) && value == image(from);
                if from != member {
                    assert(rest.contains(from));
                }
            }
            assert forall|value: int| #[trigger] rest.map(image).insert(image(member)).contains(value) implies set.map(image).contains(
                value,
            ) by {
                if value == image(member) {
                    assert(set.contains(member));
                } else {
                    let from = choose|from: int| rest.contains(from) && value == image(from);
                    assert(set.contains(from));
                }
            }
        }
        if rest.map(image).contains(image(member)) {
            let from = choose|from: int| rest.contains(from) && image(member) == image(from);
            assert(set.contains(from) && set.contains(member));
            assert(from == member);
        }
    }
}

/// Events of the window lie in different slots.
proof fn lemma_slots_apart(left: int, right: int, capacity: int)
    requires
        capacity > 0,
        left < right < left + capacity,
    ensures
        left % capacity != right % capacity,
{
    vstd::arithmetic::div_mod::lemma_fundamental_div_mod(left, capacity);
    vstd::arithmetic::div_mod::lemma_fundamental_div_mod(right, capacity);
    if left % capacity == right % capacity {
        let a = left / capacity;
        let b = right / capacity;
        assert(right - left == capacity * b - capacity * a);
        assert(a < b) by (nonlinear_arith)
            requires
                capacity * b - capacity * a > 0,
                capacity > 0,
        ;
        assert(capacity * b - capacity * a >= capacity) by (nonlinear_arith)
            requires
                a + 1 <= b,
                capacity > 0,
        ;
    }
}

fn zero_histogram() -> (list: Vec<usize>)
    ensures
        list@ == zeros(HISTOGRAM_BUCKETS as int),
{
    let mut list: Vec<usize> = Vec::new();
    while list.len() < HISTOGRAM_BUCKETS
        invariant
            list@.len() <= HISTOGRAM_BUCKETS,
            list@ == zeros(list@.len() as int),
        decreases HISTOGRAM_BUCKETS - list@.len(),
    {
        list.push(0);
        assert(list@ =~= zeros(list@.len() as int));
    }
    list
}

impl TrackingSlotData {
    pub fn new() -> (slot: TrackingSlotData)
        ensures
            slot == empty_slot(),
    {
        TrackingSlotData {
            sequence: 0,
            allocation_id: 0,
            event_thread_id: 0,
            heap_id: 0,
            heap_kind: HeapKind::General,
            freed_after_heap_release: false,
            address: 0,
            size: 0,
            align: 0,
            stack_id: 0,
            kind: EventKind::Allocated,
        }
    }
}

impl TrackingState {
    pub fn new(
        session_id: usize,
        thread_log_id: usize,
        event_capacity: usize,
        allocation_stack_frames: usize,
        deallocation_stack_frames: usize,
        track_threads: bool,
        track_heap_lifetimes: bool,
    ) -> (state: TrackingState)
        requires
            event_capacity > 0,
        ensures
            state.wf(),
            state.session_id == session_id,
            state.thread_log_id == thread_log_id,
            state.capacity() == event_capacity,
            state.allocation_stack_frames == allocation_stack_frames,
            state.deallocation_stack_frames == deallocation_stack_frames,
            state.track_threads == track_threads,
            state.track_heap_lifetimes == track_heap_lifetimes,
            state.history@.len() == 0,
            state.write_index == 0,
            state.next_allocation_id == 1,
            state.allocated_histogram@ == zeros(HISTOGRAM_BUCKETS as int),
            state.live_histogram@ == zeros(HISTOGRAM_BUCKETS as int),
    {
        let mut slots: Vec<TrackingSlotData> = Vec::new();
        while slots.len() < event_capacity
            invariant
                slots@.len() <= event_capacity,
                forall|at: int| 0 <= at < slots@.len() ==> #[trigger] slots@[at] == empty_slot(),
            decreases event_capacity - slots@.len(),
        {
            slots.push(TrackingSlotData::new());
        }
        let state = TrackingState {
            session_id,
            thread_log_id,
            slots,
            stacks: StackTable::new(event_capacity),
            allocation_stack_frames,
            deallocation_stack_frames,
            track_threads,
            track_heap_lifetimes,
            allocated_histogram: zero_histogram(),
            live_histogram: zero_histogram(),
            write_index: 0,
            next_allocation_id: 1,
            history: Ghost(Seq::empty()),
        };
        proof {
            assert forall|stack: int| 0 <= stack < state.capacity() implies (#[trigger] state.stacks@[stack]).references == naming(
                state.slots@,
                stack + 1,
            ).len() by {
                assert(naming(state.slots@, stack + 1) =~= Set::empty()) by {
                    assert forall|at: int| !#[trigger] naming(state.slots@, stack + 1).contains(at) by {
                        if 0 <= at < state.slots@.len() {
                            assert(state.slots@[at] == empty_slot());
                        }
                    }
                }
            }
        }
        state
    }

    /// Hands out a number for an allocation.
    pub fn take_allocation_id(&mut self) -> (allocation_id: usize)
        requires
            old(self).wf(),
        ensures
            final(self).wf(),
            allocation_id == old(self).next_allocation_id,
            *final(self) == (TrackingState { next_allocation_id: old(self).next_allocation_id.wrapping_add(1), ..*old(self) }),
    {
        let allocation_id: usize = self.next_allocation_id;
        self.next_allocation_id = self.next_allocation_id.wrapping_add(1);
        allocation_id
    }

    /// Records an event. The oldest one makes place where the ring is full.
    pub fn record(&mut self, record: TrackingRecord, call_stack: &Vec<usize>)
        requires
            old(self).wf(),
            old(self).write_index < usize::MAX,
        ensures
            final(self).wf(),
            final(self).recorded(old(self), record, call_stack@),
    {
        let ghost before = *self;
        let ghost capacity = self.capacity();
        let bucket: usize = histogram_bucket(record.layout.size);
        match record.kind {
            EventKind::Allocated => {
                let allocated: usize = self.allocated_histogram[bucket].wrapping_add(1);
                self.allocated_histogram.set(bucket, allocated);
                let live: usize = self.live_histogram[bucket].wrapping_add(1);
                self.live_histogram.set(bucket, live);
            },
            EventKind::Deallocated => {
                let live: usize = self.live_histogram[bucket].wrapping_sub(1);
                self.live_histogram.set(bucket, live);
            },
        }
        let index: usize = self.write_index;
        let place: usize = index % self.slots.len();
        let previous_stack_id: usize = self.slots[place].stack_id;
        let ghost slots = self.slots@;
        let ghost freed = slots.update(place as int, TrackingSlotData { stack_id: 0, ..slots[place as int] });
        let ghost entries = self.stacks@;
        let ghost middle = dropped(entries, previous_stack_id as int);
        proof {
            lemma_freed_counts(&before, place as int);
            lemma_vacancy(freed, place as int);
            let stack = choose|stack: int| 0 <= stack < freed.len() && #[trigger] naming(freed, stack + 1).len() == 0;
            assert(middle[stack].references == 0);
            assert forall|at: int| 0 <= at < entries.len() implies (#[trigger] middle[at]).references < usize::MAX by {
                lemma_naming_finite(freed, at + 1);
                lemma_naming_less(freed, at + 1, place as int);
            }
        }
        let stack_id: usize = self.stacks.replace(previous_stack_id, call_stack);
        let data = TrackingSlotData {
            sequence: index + 1,
            allocation_id: record.allocation_id,
            event_thread_id: if self.track_threads {
                record.event_thread_id
            } else {
                0
            },
            heap_id: if self.track_heap_lifetimes {
                record.heap_id
            } else {
                0
            },
            heap_kind: record.heap_kind,
            freed_after_heap_release: self.track_heap_lifetimes && record.freed_after_heap_release,
            address: record.address,
            size: record.layout.size,
            align: record.layout.align,
            stack_id,
            kind: record.kind,
        };
        self.slots.set(place, data);
        self.write_index = index + 1;
        self.history = Ghost(self.history@.push(before.event_of(record, call_stack@)));
        proof {
            lemma_search(middle, call_stack@);
            law_stack_resolves_to_its_frames(middle, call_stack@);
            lemma_named_counts(freed, self.slots@, middle, self.stacks@, call_stack@, place as int, stack_id);
            assert(self.stacks_ok());
            assert forall|at: int|
                #![trigger self.history@[at]]
                self.first() <= at < self.write_index implies held(self.slots@[at % capacity], self.thread_log_id, self.stacks@)
                == self.history@[at] && self.history@[at].sequence == at + 1 by {
                if at == index {
                    assert(held(data, self.thread_log_id, self.stacks@) =~= before.event_of(record, call_stack@));
                } else {
                    lemma_slots_apart(at, index as int, capacity);
                    assert(self.slots@[at % capacity] == before.slots@[at % capacity]);
                    assert(self.history@[at] == before.history@[at]);
                    let slot = before.slots@[at % capacity];
                    vstd::arithmetic::div_mod::lemma_mod_bound(at, capacity);
                    assert(slot.stack_id <= capacity);
                    if slot.stack_id != 0 {
                        let stack = slot.stack_id - 1;
                        assert(naming(freed, stack + 1).contains(at % capacity));
                        lemma_naming_finite(freed, stack + 1);
                        if naming(freed, stack + 1).len() == 0 {
                            assert(naming(freed, stack + 1) =~= Set::empty());
                        }
                        assert(middle[stack].references > 0);
                        assert(middle[stack].frames == entries[stack].frames);
                    }
                    assert(resolved(self.stacks@, slot.stack_id as int) == resolved(middle, slot.stack_id as int));
                    assert(resolved(middle, slot.stack_id as int) == resolved(entries, slot.stack_id as int));
                }
            }
            assert forall|at: int| self.write_index <= at < capacity implies #[trigger] self.slots@[at] == empty_slot() by {
                vstd::arithmetic::div_mod::lemma_small_mod(index as nat, capacity as nat);
                assert(before.slots@[at] == empty_slot());
            }
        }
    }
}

proof fn lemma_naming_less(slots: Seq<TrackingSlotData>, stack_id: int, spare: int)
    requires
        0 <= spare < slots.len(),
        slots[spare].stack_id != stack_id,
        slots.len() <= usize::MAX,
    ensures
        naming(slots, stack_id).len() < usize::MAX,
{
    let range = vstd::set_lib::set_int_range(0, slots.len() as int);
    vstd::set_lib::lemma_int_range(0, slots.len() as int);
    let others = range.remove(spare);
    assert(naming(slots, stack_id).subset_of(others));
    vstd::set_lib::lemma_set_subset_finite(range, naming(slots, stack_id));
    vstd::set_lib::lemma_len_subset(naming(slots, stack_id), others);
}

/// Once a slot stops naming its stack the stacks are counted without it.
proof fn lemma_freed_counts(state: &TrackingState, place: int)
    requires
        state.wf(),
        0 <= place < state.capacity(),
    ensures
        ({
            let slots = state.slots@;
            let previous = slots[place].stack_id as int;
            let freed = slots.update(place, TrackingSlotData { stack_id: 0, ..slots[place] });
            let middle = dropped(state.stacks@, previous);
            &&& previous != 0 ==> state.stacks@[previous - 1].references > 0
            &&& middle.len() == state.capacity()
            &&& forall|stack: int|
                0 <= stack < state.capacity() ==> (#[trigger] middle[stack]).references == naming(freed, stack + 1).len()
            &&& forall|stack: int| 0 <= stack < state.capacity() ==> (#[trigger] middle[stack]).frames == state.stacks@[stack].frames
        }),
{
    let slots = state.slots@;
    let previous = slots[place].stack_id as int;
    let freed = slots.update(place, TrackingSlotData { stack_id: 0, ..slots[place] });
    let middle = dropped(state.stacks@, previous);
    assert forall|stack: int| 0 <= stack < state.capacity() implies (#[trigger] middle[stack]).references == naming(freed, stack + 1).len()
        && middle[stack].frames == state.stacks@[stack].frames && (previous == stack + 1 ==> state.stacks@[stack].references > 0) by {
        lemma_naming_finite(slots, stack + 1);
        assert(state.stacks@[stack].references == naming(slots, stack + 1).len());
        if previous == stack + 1 {
            assert(naming(slots, stack + 1).contains(place));
            assert(naming(freed, stack + 1) =~= naming(slots, stack + 1).remove(place));
        } else {
            assert(naming(freed, stack + 1) =~= naming(slots, stack + 1));
        }
    }
    assert(slots[place].stack_id <= state.capacity());
    if previous != 0 {
        assert(middle[previous - 1].frames == state.stacks@[previous - 1].frames);
    }
}

/// Once a slot names a stack the stacks are counted with it.
proof fn lemma_named_counts(
    freed: Seq<TrackingSlotData>,
    slots: Seq<TrackingSlotData>,
    middle: Seq<EntryModel>,
    after: Seq<EntryModel>,
    frames: Seq<usize>,
    place: int,
    stack_id: usize,
)
    requires
        0 <= place < freed.len(),
        freed.len() <= usize::MAX,
        middle.len() == freed.len(),
        has_vacancy(middle),
        slots.len() == freed.len(),
        freed[place].stack_id == 0,
        slots[place].stack_id == stack_id,
        forall|at: int| 0 <= at < freed.len() && at != place ==> #[trigger] slots[at] == freed[at],
        forall|at: int| 0 <= at < freed.len() ==> (#[trigger] freed[at]).stack_id <= freed.len(),
        forall|stack: int| 0 <= stack < freed.len() ==> (#[trigger] middle[stack]).references == naming(freed, stack + 1).len(),
        after == named(middle, frames).0,
        stack_id == named(middle, frames).1,
    ensures
        after.len() == freed.len(),
        forall|at: int| 0 <= at < slots.len() ==> (#[trigger] slots[at]).stack_id <= slots.len(),
        forall|stack: int| 0 <= stack < slots.len() ==> (#[trigger] after[stack]).references == naming(slots, stack + 1).len(),
{
    lemma_search(middle, frames);
    assert forall|at: int| 0 <= at < slots.len() implies (#[trigger] slots[at]).stack_id <= slots.len() by {
        if at != place {
            assert(freed[at].stack_id <= freed.len());
        }
    }
    assert forall|stack: int| 0 <= stack < slots.len() implies (#[trigger] after[stack]).references == naming(slots, stack + 1).len() by {
        lemma_naming_finite(freed, stack + 1);
        assert(middle[stack].references == naming(freed, stack + 1).len());
        if stack_id == stack + 1 {
            assert(naming(slots, stack + 1) =~= naming(freed, stack + 1).insert(place));
            lemma_naming_less(freed, stack + 1, place);
        } else {
            assert(naming(slots, stack + 1) =~= naming(freed, stack + 1));
        }
    }
}

/// What a log holds.
pub struct ThreadSnapshot {
    pub total_events: usize,
    pub lost_events: usize,
    pub events: Vec<Event>,
    pub allocated_histogram: Vec<usize>,
    pub live_histogram: Vec<usize>,
}

impl TrackingState {
    /// What the log holds: the newest events as they were recorded, oldest first, and how many
    /// it had to let go.
    pub fn snapshot(&self) -> (snapshot: ThreadSnapshot)
        requires
            self.wf(),
        ensures
            snapshot.total_events == self.write_index,
            snapshot.lost_events == self.first(),
            event_models(snapshot.events@) == self.history@.skip(self.first()),
            snapshot.allocated_histogram@ == self.allocated_histogram@,
            snapshot.live_histogram@ == self.live_histogram@,
    {
        let total_events: usize = self.write_index;
        let first_index: usize = total_events.saturating_sub(self.slots.len());
        let ghost kept = self.history@.skip(self.first());
        let mut events: Vec<Event> = Vec::new();
        let mut index: usize = first_index;
        assert(event_models(events@) =~= kept.take(0));
        while index < total_events
            invariant
                self.wf(),
                total_events == self.write_index,
                first_index == self.first(),
                first_index <= index <= total_events,
                kept == self.history@.skip(self.first()),
                events@.len() == index - first_index,
                event_models(events@) == kept.take(index - first_index),
            decreases total_events - index,
        {
            let ghost before = events@;
            let data: TrackingSlotData = self.slots[index % self.slots.len()];
            proof {
                let entry = self.history@[index as int];
                assert(held(self.slots@[index as int % self.capacity()], self.thread_log_id, self.stacks@) == entry);
                vstd::arithmetic::div_mod::lemma_mod_bound(index as int, self.capacity());
                assert(self.slots@[index as int % self.capacity()].stack_id <= self.capacity());
            }
            if data.sequence == index + 1 {
                let call_stack = self.stacks.resolve(data.stack_id);
                let event = Event {
                    thread_log_id: self.thread_log_id,
                    event_thread_id: data.event_thread_id,
                    sequence: index + 1,
                    allocation_id: data.allocation_id,
                    kind: data.kind,
                    heap_id: data.heap_id,
                    heap_kind: data.heap_kind,
                    freed_after_heap_release: data.freed_after_heap_release,
                    address: data.address,
                    size: data.size,
                    align: data.align,
                    call_stack,
                };
                assert(event@ =~= self.history@[index as int]);
                events.push(event);
            }
            proof {
                assert(event_models(events@) =~= event_models(before).push(events@.last()@));
                assert(kept.take(index + 1 - first_index) =~= kept.take(index - first_index).push(kept[index - first_index]));
            }
            index = index + 1;
        }
        assert(kept.take(index - first_index) =~= kept);
        let lost_events: usize = total_events - events.len();
        ThreadSnapshot {
            total_events,
            lost_events,
            events,
            allocated_histogram: crate::telemetry::stacks::copy_frames(&self.allocated_histogram),
            live_histogram: crate::telemetry::stacks::copy_frames(&self.live_histogram),
        }
    }
}

/// A log keeps exactly the newest events, up to its capacity, and counts the others as lost.
pub proof fn law_log_keeps_the_newest_events(state: TrackingState)
    requires
        state.wf(),
    ensures
        state.history@.skip(state.first()).len() == (if state.write_index < state.capacity() {
            state.write_index as int
        } else {
            state.capacity()
        }),
        state.first() + state.history@.skip(state.first()).len() == state.write_index,
{
}

} // verus!
