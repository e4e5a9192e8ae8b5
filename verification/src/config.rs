//! Configurations of an allocator.

use vstd::prelude::*;

use crate::allocator::layout::is_power_of_two;
use crate::telemetry::stacks::MAX_TRACKED_STACK_FRAMES;
use crate::tunables::{Standard as StandardTunables, Tunables};

verus! {

/// What an allocator type is configured with.
pub trait Config {
    type Tunables: Tunables;

    /// Whether allocations are counted.
    const TRACK_AGGREGATES: bool;

    /// Whether callers can be recorded.
    const TRACK_CALLERS: bool;

    /// The events that a thread's log keeps.
    const CALLER_EVENT_CAPACITY: usize;

    /// The frames that are kept of an allocation's call stack.
    const CALLER_ALLOCATION_STACK_FRAMES: usize;

    /// The frames that are kept of a deallocation's call stack.
    const CALLER_DEALLOCATION_STACK_FRAMES: usize;

    /// Whether events name their thread.
    const CALLER_TRACK_THREADS: bool;

    /// Whether events name their heap, and blocks freed after its end.
    const CALLER_TRACK_HEAP_LIFETIMES: bool;
}

/// The configuration that counts and records nothing.
pub struct Standard;

impl Config for Standard {
    type Tunables = StandardTunables;

    const TRACK_AGGREGATES: bool = false;
    const TRACK_CALLERS: bool = false;
    const CALLER_EVENT_CAPACITY: usize = 128 * 1024;
    const CALLER_ALLOCATION_STACK_FRAMES: usize = 16;
    const CALLER_DEALLOCATION_STACK_FRAMES: usize = 16;
    const CALLER_TRACK_THREADS: bool = true;
    const CALLER_TRACK_HEAP_LIFETIMES: bool = true;
}

/// How callers are recorded.
#[derive(Clone, Copy, Debug, PartialEq, Eq, Structural)]
pub struct CallerSettings {
    pub event_capacity: usize,
    pub allocation_stack_frames: usize,
    pub deallocation_stack_frames: usize,
    pub track_threads: bool,
    pub track_heap_lifetimes: bool,
}

impl CallerSettings {
    /// Whether a log can be made with these settings.
    pub open spec fn valid(self) -> bool {
        &&& is_power_of_two(self.event_capacity as int)
        &&& self.allocation_stack_frames <= MAX_TRACKED_STACK_FRAMES
        &&& self.deallocation_stack_frames <= MAX_TRACKED_STACK_FRAMES
    }

    /// The settings of a configuration.
    pub fn of<C: Config>() -> (settings: CallerSettings)
        ensures
            settings.event_capacity == C::CALLER_EVENT_CAPACITY,
            settings.allocation_stack_frames == C::CALLER_ALLOCATION_STACK_FRAMES,
            settings.deallocation_stack_frames == C::CALLER_DEALLOCATION_STACK_FRAMES,
            settings.track_threads == C::CALLER_TRACK_THREADS,
            settings.track_heap_lifetimes == C::CALLER_TRACK_HEAP_LIFETIMES,
    {
        CallerSettings {
            event_capacity: C::CALLER_EVENT_CAPACITY,
            allocation_stack_frames: C::CALLER_ALLOCATION_STACK_FRAMES,
            deallocation_stack_frames: C::CALLER_DEALLOCATION_STACK_FRAMES,
            track_threads: C::CALLER_TRACK_THREADS,
            track_heap_lifetimes: C::CALLER_TRACK_HEAP_LIFETIMES,
        }
    }
}

/// A log can be made with the standard configuration.
pub proof fn law_standard_caller_settings_are_valid()
    ensures
        (CallerSettings {
            event_capacity: <Standard as Config>::CALLER_EVENT_CAPACITY,
            allocation_stack_frames: <Standard as Config>::CALLER_ALLOCATION_STACK_FRAMES,
            deallocation_stack_frames: <Standard as Config>::CALLER_DEALLOCATION_STACK_FRAMES,
            track_threads: <Standard as Config>::CALLER_TRACK_THREADS,
            track_heap_lifetimes: <Standard as Config>::CALLER_TRACK_HEAP_LIFETIMES,
        }).valid(),
{
    vstd::arithmetic::power2::lemma2_to64();
    assert(131072 == vstd::arithmetic::power2::pow2(17));
}

} // verus!
