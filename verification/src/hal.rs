//! What the system is asked for, and what its answers are made into.

use vstd::prelude::*;

use crate::allocator::layout::{align_up, aligned, lemma_aligned};

verus! {

/// Where mappings start: at a multiple of this.
pub const ALLOCATION_ALIGNMENT: usize = 2 * 1024 * 1024;
pub const PAGE_SIZE: usize = 4 * 1024;
/// The innermost frames of a call stack, which belong to the recording itself.
pub const SKIPPED_FRAMES: usize = 4;
pub const MAX_CAPTURED_FRAMES: usize = 64;

/// How much to map so that an aligned mapping of a size can be cut from it.
#[derive(Clone, Copy, Debug, PartialEq, Eq, Structural)]
pub struct MappingPlan {
    pub rounded_size: usize,
    pub mapping_size: usize,
}

/// An aligned mapping, and what is left of the mapping that it was cut from.
#[derive(Clone, Copy, Debug, PartialEq, Eq, Structural)]
pub struct AlignedMapping {
    pub address: usize,
    pub prefix_size: usize,
    pub suffix: usize,
    pub suffix_size: usize,
}

/// Plans a mapping. None where the address space is too small for it.
pub fn plan_mapping(size: usize) -> (plan: Option<MappingPlan>)
    ensures
        plan is Some <==> size + PAGE_SIZE - 1 <= usize::MAX && aligned(size as int, PAGE_SIZE as int) + ALLOCATION_ALIGNMENT <= usize::MAX,
        plan matches Some(plan) ==> plan.rounded_size == aligned(size as int, PAGE_SIZE as int) && plan.mapping_size == plan.rounded_size
            + ALLOCATION_ALIGNMENT,
{
    match align_up(size, PAGE_SIZE) {
        None => None,
        Some(rounded_size) => match rounded_size.checked_add(ALLOCATION_ALIGNMENT) {
            None => None,
            Some(mapping_size) => Some(MappingPlan { rounded_size, mapping_size }),
        },
    }
}

/// Cuts an aligned mapping from one that is large enough.
pub fn align_mapping(plan: MappingPlan, mapping: usize) -> (cut: AlignedMapping)
    requires
        plan.mapping_size == plan.rounded_size + ALLOCATION_ALIGNMENT,
        mapping + plan.mapping_size <= usize::MAX,
    ensures
        cut.address as int % (ALLOCATION_ALIGNMENT as int) == 0,
        cut.address == aligned(mapping as int, ALLOCATION_ALIGNMENT as int),
        cut.address == mapping + cut.prefix_size,
        cut.suffix == cut.address + plan.rounded_size,
        cut.suffix + cut.suffix_size == mapping + plan.mapping_size,
{
    proof {
        lemma_aligned(mapping as int, ALLOCATION_ALIGNMENT as int);
    }
    let top: usize = mapping + (ALLOCATION_ALIGNMENT - 1);
    let address: usize = top - top % ALLOCATION_ALIGNMENT;
    let prefix_size: usize = address - mapping;
    let suffix_size: usize = plan.mapping_size - prefix_size - plan.rounded_size;
    AlignedMapping { address, prefix_size, suffix: address + plan.rounded_size, suffix_size }
}

/// The milliseconds of a point in time.
pub open spec fn millis(seconds: int, nanoseconds: int) -> int {
    let whole = if seconds * 1000 > u64::MAX {
        u64::MAX as int
    } else {
        seconds * 1000
    };
    if whole + nanoseconds / 1_000_000 > u64::MAX {
        u64::MAX as int
    } else {
        whole + nanoseconds / 1_000_000
    }
}

pub fn monotonic_millis(seconds: u64, nanoseconds: u64) -> (time: u64)
    ensures
        time == millis(seconds as int, nanoseconds as int),
{
    let whole: u64 = match seconds.checked_mul(1_000) {
        Some(whole) => whole,
        None => u64::MAX,
    };
    whole.saturating_add(nanoseconds / 1_000_000)
}

pub open spec fn smaller(left: int, right: int) -> int {
    if left < right {
        left
    } else {
        right
    }
}

/// How many frames are kept of a call stack.
pub open spec fn frame_limit(limit: int, room: int) -> int {
    smaller(smaller(limit, room), MAX_CAPTURED_FRAMES - SKIPPED_FRAMES)
}

/// How many frames to capture for a limit, or 0 for none.
pub fn frames_to_capture(limit: usize, room: usize) -> (frames: usize)
    ensures
        frames == (if frame_limit(limit as int, room as int) == 0 {
            0
        } else {
            frame_limit(limit as int, room as int) + SKIPPED_FRAMES
        }),
        frames <= MAX_CAPTURED_FRAMES,
{
    let mut kept: usize = if limit < room {
        limit
    } else {
        room
    };
    if kept > MAX_CAPTURED_FRAMES - SKIPPED_FRAMES {
        kept = MAX_CAPTURED_FRAMES - SKIPPED_FRAMES;
    }
    if kept == 0 {
        0
    } else {
        kept + SKIPPED_FRAMES
    }
}

/// The frames of a captured call stack that are kept: without the innermost ones, up to the
/// limit.
pub fn retained_frames(captured: &Vec<usize>, limit: usize, room: usize) -> (frames: Vec<usize>)
    ensures
        ({
            let skipped = smaller(captured@.len() as int, SKIPPED_FRAMES as int);
            let kept = smaller(captured@.len() - skipped, frame_limit(limit as int, room as int));
            frames@ == captured@.subrange(skipped, skipped + kept)
        }),
{
    let mut most: usize = if limit < room {
        limit
    } else {
        room
    };
    if most > MAX_CAPTURED_FRAMES - SKIPPED_FRAMES {
        most = MAX_CAPTURED_FRAMES - SKIPPED_FRAMES;
    }
    let skipped: usize = if captured.len() < SKIPPED_FRAMES {
        captured.len()
    } else {
        SKIPPED_FRAMES
    };
    let mut frames: Vec<usize> = Vec::new();
    let mut at: usize = skipped;
    let ghost kept = smaller(captured@.len() - skipped, most as int);
    while at < captured.len() && at - skipped < most
        invariant
            skipped == smaller(captured@.len() as int, SKIPPED_FRAMES as int),
            kept == smaller(captured@.len() - skipped, most as int),
            skipped <= at <= skipped + kept,
            frames@ == captured@.subrange(skipped as int, at as int),
        decreases captured@.len() - at,
    {
        frames.push(captured[at]);
        at = at + 1;
        assert(frames@ =~= captured@.subrange(skipped as int, at as int));
    }
    frames
}

/// A point in time is so many whole milliseconds after the start, unless that is more than can be told.
pub proof fn law_times_are_whole_milliseconds(seconds: int, nanoseconds: int)
    requires
        0 <= seconds <= u64::MAX,
        0 <= nanoseconds <= u64::MAX,
    ensures
        ({
            let time = millis(seconds, nanoseconds);
            let exact = seconds * 1000 + nanoseconds / 1_000_000;
            &&& 0 <= time <= u64::MAX
            &&& exact <= u64::MAX ==> time == exact
            &&& exact > u64::MAX ==> time == u64::MAX
        }),
{
}

/// Later points in time are not told as earlier ones.
pub proof fn law_times_go_forward(seconds: int, nanoseconds: int, later_seconds: int, later_nanoseconds: int)
    requires
        0 <= seconds <= later_seconds,
        0 <= nanoseconds < 1_000_000_000,
        0 <= later_nanoseconds < 1_000_000_000,
        seconds < later_seconds || nanoseconds <= later_nanoseconds,
    ensures
        millis(seconds, nanoseconds) <= millis(later_seconds, later_nanoseconds),
{
    assert(nanoseconds / 1_000_000 < 1000);
}

/// As many frames are kept as are asked for and have room, up to 60.
pub proof fn law_frames_are_kept_up_to_the_limit(limit: int, room: int)
    ensures
        frame_limit(limit, room) <= limit,
        frame_limit(limit, room) <= room,
        frame_limit(limit, room) <= 60,
        frame_limit(limit, room) == limit || frame_limit(limit, room) == room || frame_limit(limit, room) == 60,
{
}

} // verus!
