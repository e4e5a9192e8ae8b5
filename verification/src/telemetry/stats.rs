//! Totals of the process, and how they change over time.

use vstd::prelude::*;
use vstd::std_specs::cmp::PartialEqSpec;

verus! {

/// A value with lower and upper bounds.
#[derive(Clone, Copy, Debug, PartialEq, Eq, Structural)]
pub struct Estimate<T> {
    pub value: T,
    pub lower_bound: T,
    pub upper_bound: T,
}

pub open spec fn exactly<T>(value: T) -> Estimate<T> {
    Estimate { value, lower_bound: value, upper_bound: value }
}

impl<T: Copy> Estimate<T> {
    pub fn value(&self) -> (value: T)
        ensures
            value == self.value,
    {
        self.value
    }

    pub fn lower_bound(&self) -> (value: T)
        ensures
            value == self.lower_bound,
    {
        self.lower_bound
    }

    pub fn upper_bound(&self) -> (value: T)
        ensures
            value == self.upper_bound,
    {
        self.upper_bound
    }

    pub fn exact(value: T) -> (estimate: Estimate<T>)
        ensures
            estimate == exactly(value),
    {
        Estimate { value, lower_bound: value, upper_bound: value }
    }

    pub fn bounded(value: T, lower_bound: T, upper_bound: T) -> (estimate: Estimate<T>)
        ensures
            estimate == (Estimate { value, lower_bound, upper_bound }),
    {
        Estimate { value, lower_bound, upper_bound }
    }
}

impl<T: Copy + PartialEq> Estimate<T> {
    /// Whether the bounds leave nothing open.
    pub fn is_exact(&self) -> (exact: bool)
        ensures
            T::obeys_eq_spec() ==> exact == self.lower_bound.eq_spec(&self.upper_bound),
    {
        self.lower_bound == self.upper_bound
    }
}

/// What the process has counted so far.
#[derive(Clone, Copy, Debug, PartialEq, Eq, Structural)]
pub struct Stats {
    pub allocated_bytes: usize,
    pub deallocated_bytes: usize,
    pub live_bytes: usize,
    pub peak_live_bytes: usize,
    pub mapped_bytes: usize,
    pub os_mappings: usize,
    pub os_unmappings: usize,
    pub allocations: usize,
    pub deallocations: usize,
    pub remote_frees: usize,
    pub pending_remote_blocks: usize,
    pub remote_pushes_in_progress: usize,
    pub drained_remote_blocks: usize,
}

pub open spec fn no_stats() -> Stats {
    Stats {
        allocated_bytes: 0,
        deallocated_bytes: 0,
        live_bytes: 0,
        peak_live_bytes: 0,
        mapped_bytes: 0,
        os_mappings: 0,
        os_unmappings: 0,
        allocations: 0,
        deallocations: 0,
        remote_frees: 0,
        pending_remote_blocks: 0,
        remote_pushes_in_progress: 0,
        drained_remote_blocks: 0,
    }
}

impl Default for Stats {
    fn default() -> (stats: Stats)
        ensures
            stats == no_stats(),
    {
        Stats {
            allocated_bytes: 0,
            deallocated_bytes: 0,
            live_bytes: 0,
            peak_live_bytes: 0,
            mapped_bytes: 0,
            os_mappings: 0,
            os_unmappings: 0,
            allocations: 0,
            deallocations: 0,
            remote_frees: 0,
            pending_remote_blocks: 0,
            remote_pushes_in_progress: 0,
            drained_remote_blocks: 0,
        }
    }
}

/// The memory of the process.
#[derive(Clone, Copy, Debug, PartialEq, Eq, Structural)]
pub struct MemoryStats {
    pub live_requested_bytes: Estimate<usize>,
    pub live_usable_bytes: Estimate<usize>,
    pub committed_bytes: usize,
    pub peak_live_bytes: usize,
}

/// Allocations and deallocations of the process.
#[derive(Clone, Copy, Debug, PartialEq, Eq, Structural)]
pub struct OperationStats {
    pub allocations: usize,
    pub deallocations: usize,
    pub allocated_bytes: usize,
    pub deallocated_bytes: usize,
}

/// Mappings of the process.
#[derive(Clone, Copy, Debug, PartialEq, Eq, Structural)]
pub struct ReclamationStats {
    pub committed_bytes: usize,
    pub mappings: usize,
    pub unmappings: usize,
}

/// Blocks that other threads freed.
#[derive(Clone, Copy, Debug, PartialEq, Eq, Structural)]
pub struct RemoteStats {
    pub frees: usize,
    pub pending_blocks: Estimate<usize>,
    pub drained_blocks: usize,
}

/// How far the counts rose over an interval.
#[derive(Clone, Copy, Debug, PartialEq, Eq, Structural)]
pub struct StatsDelta {
    pub allocated_bytes: usize,
    pub deallocated_bytes: usize,
    pub allocations: usize,
    pub deallocations: usize,
    pub mappings: usize,
    pub unmappings: usize,
    pub remote_frees: usize,
    pub drained_remote_blocks: usize,
}

/// One interval. Times are in nanoseconds.
#[derive(Clone, Copy, Debug, PartialEq, Eq, Structural)]
pub struct Sample {
    pub elapsed: u64,
    pub current: Stats,
    pub delta: StatsDelta,
}

/// Turns counts into intervals.
#[derive(Clone, Copy, Debug, PartialEq, Eq, Structural)]
pub struct Sampler {
    pub sampled_at: u64,
    pub previous: Stats,
}

/// A collection between two points in time.
#[derive(Clone, Copy, Debug, PartialEq, Eq, Structural)]
pub struct Session {
    pub started_at: u64,
    pub sampler: Sampler,
    pub baseline: Stats,
}

/// What a session has collected.
#[derive(Clone, Copy, Debug, PartialEq, Eq, Structural)]
pub struct SessionReport {
    pub elapsed: u64,
    pub initial: Stats,
    pub final_stats: Stats,
    pub delta: StatsDelta,
}

/// How much the second number is above the first.
pub open spec fn rise(from: int, to: int) -> int {
    if to > from {
        to - from
    } else {
        0
    }
}

pub open spec fn delta_between(initial: Stats, current: Stats) -> StatsDelta {
    StatsDelta {
        allocated_bytes: rise(initial.allocated_bytes as int, current.allocated_bytes as int) as usize,
        deallocated_bytes: rise(initial.deallocated_bytes as int, current.deallocated_bytes as int) as usize,
        allocations: rise(initial.allocations as int, current.allocations as int) as usize,
        deallocations: rise(initial.deallocations as int, current.deallocations as int) as usize,
        mappings: rise(initial.os_mappings as int, current.os_mappings as int) as usize,
        unmappings: rise(initial.os_unmappings as int, current.os_unmappings as int) as usize,
        remote_frees: rise(initial.remote_frees as int, current.remote_frees as int) as usize,
        drained_remote_blocks: rise(initial.drained_remote_blocks as int, current.drained_remote_blocks as int) as usize,
    }
}

impl Stats {
    pub fn memory(&self) -> (memory: MemoryStats)
        ensures
            memory == (MemoryStats {
                live_requested_bytes: exactly(self.live_bytes),
                live_usable_bytes: Estimate { value: self.live_bytes, lower_bound: self.live_bytes, upper_bound: self.mapped_bytes },
                committed_bytes: self.mapped_bytes,
                peak_live_bytes: self.peak_live_bytes,
            }),
    {
        MemoryStats {
            live_requested_bytes: Estimate::exact(self.live_bytes),
            live_usable_bytes: Estimate::bounded(self.live_bytes, self.live_bytes, self.mapped_bytes),
            committed_bytes: self.mapped_bytes,
            peak_live_bytes: self.peak_live_bytes,
        }
    }

    pub fn operations(&self) -> (operations: OperationStats)
        ensures
            operations == (OperationStats {
                allocations: self.allocations,
                deallocations: self.deallocations,
                allocated_bytes: self.allocated_bytes,
                deallocated_bytes: self.deallocated_bytes,
            }),
    {
        OperationStats {
            allocations: self.allocations,
            deallocations: self.deallocations,
            allocated_bytes: self.allocated_bytes,
            deallocated_bytes: self.deallocated_bytes,
        }
    }

    pub fn reclamation(&self) -> (reclamation: ReclamationStats)
        ensures
            reclamation == (ReclamationStats {
                committed_bytes: self.mapped_bytes,
                mappings: self.os_mappings,
                unmappings: self.os_unmappings,
            }),
    {
        ReclamationStats { committed_bytes: self.mapped_bytes, mappings: self.os_mappings, unmappings: self.os_unmappings }
    }

    /// Blocks that are just being pushed may or may not be pending.
    pub fn remote(&self) -> (remote: RemoteStats)
        ensures
            remote == (RemoteStats {
                frees: self.remote_frees,
                pending_blocks: Estimate {
                    value: self.pending_remote_blocks,
                    lower_bound: rise(self.remote_pushes_in_progress as int, self.pending_remote_blocks as int) as usize,
                    upper_bound: self.pending_remote_blocks,
                },
                drained_blocks: self.drained_remote_blocks,
            }),
    {
        RemoteStats {
            frees: self.remote_frees,
            pending_blocks: Estimate::bounded(
                self.pending_remote_blocks,
                self.pending_remote_blocks.saturating_sub(self.remote_pushes_in_progress),
                self.pending_remote_blocks,
            ),
            drained_blocks: self.drained_remote_blocks,
        }
    }
}

impl MemoryStats {
    pub fn live_requested_bytes(&self) -> (value: Estimate<usize>)
        ensures
            value == self.live_requested_bytes,
    {
        self.live_requested_bytes
    }

    pub fn live_usable_bytes(&self) -> (value: Estimate<usize>)
        ensures
            value == self.live_usable_bytes,
    {
        self.live_usable_bytes
    }

    pub fn committed_bytes(&self) -> (value: usize)
        ensures
            value == self.committed_bytes,
    {
        self.committed_bytes
    }

    pub fn peak_live_bytes(&self) -> (value: usize)
        ensures
            value == self.peak_live_bytes,
    {
        self.peak_live_bytes
    }
}

impl OperationStats {
    pub fn allocations(&self) -> (value: usize)
        ensures
            value == self.allocations,
    {
        self.allocations
    }

    pub fn deallocations(&self) -> (value: usize)
        ensures
            value == self.deallocations,
    {
        self.deallocations
    }

    pub fn allocated_bytes(&self) -> (value: usize)
        ensures
            value == self.allocated_bytes,
    {
        self.allocated_bytes
    }

    pub fn deallocated_bytes(&self) -> (value: usize)
        ensures
            value == self.deallocated_bytes,
    {
        self.deallocated_bytes
    }
}

impl ReclamationStats {
    pub fn committed_bytes(&self) -> (value: usize)
        ensures
            value == self.committed_bytes,
    {
        self.committed_bytes
    }

    pub fn mappings(&self) -> (value: usize)
        ensures
            value == self.mappings,
    {
        self.mappings
    }

    pub fn unmappings(&self) -> (value: usize)
        ensures
            value == self.unmappings,
    {
        self.unmappings
    }
}

impl RemoteStats {
    pub fn frees(&self) -> (value: usize)
        ensures
            value == self.frees,
    {
        self.frees
    }

    pub fn pending_blocks(&self) -> (value: Estimate<usize>)
        ensures
            value == self.pending_blocks,
    {
        self.pending_blocks
    }

    pub fn drained_blocks(&self) -> (value: usize)
        ensures
            value == self.drained_blocks,
    {
        self.drained_blocks
    }
}

impl StatsDelta {
    /// How far the counts rose. One that fell counts as unchanged.
    pub fn between(initial: Stats, current: Stats) -> (delta: StatsDelta)
        ensures
            delta == delta_between(initial, current),
    {
        StatsDelta {
            allocated_bytes: current.allocated_bytes.saturating_sub(initial.allocated_bytes),
            deallocated_bytes: current.deallocated_bytes.saturating_sub(initial.deallocated_bytes),
            allocations: current.allocations.saturating_sub(initial.allocations),
            deallocations: current.deallocations.saturating_sub(initial.deallocations),
            mappings: current.os_mappings.saturating_sub(initial.os_mappings),
            unmappings: current.os_unmappings.saturating_sub(initial.os_unmappings),
            remote_frees: current.remote_frees.saturating_sub(initial.remote_frees),
            drained_remote_blocks: current.drained_remote_blocks.saturating_sub(initial.drained_remote_blocks),
        }
    }
}

impl StatsDelta {
    pub fn allocated_bytes(&self) -> (value: usize)
        ensures
            value == self.allocated_bytes,
    {
        self.allocated_bytes
    }

    pub fn deallocated_bytes(&self) -> (value: usize)
        ensures
            value == self.deallocated_bytes,
    {
        self.deallocated_bytes
    }

    pub fn allocations(&self) -> (value: usize)
        ensures
            value == self.allocations,
    {
        self.allocations
    }

    pub fn deallocations(&self) -> (value: usize)
        ensures
            value == self.deallocations,
    {
        self.deallocations
    }

    pub fn mappings(&self) -> (value: usize)
        ensures
            value == self.mappings,
    {
        self.mappings
    }

    pub fn unmappings(&self) -> (value: usize)
        ensures
            value == self.unmappings,
    {
        self.unmappings
    }

    pub fn remote_frees(&self) -> (value: usize)
        ensures
            value == self.remote_frees,
    {
        self.remote_frees
    }

    pub fn drained_remote_blocks(&self) -> (value: usize)
        ensures
            value == self.drained_remote_blocks,
    {
        self.drained_remote_blocks
    }
}

impl Sample {
    pub fn elapsed(&self) -> (value: u64)
        ensures
            value == self.elapsed,
    {
        self.elapsed
    }

    pub fn current(&self) -> (value: &Stats)
        ensures
            *value == self.current,
    {
        &self.current
    }

    pub fn delta(&self) -> (value: &StatsDelta)
        ensures
            *value == self.delta,
    {
        &self.delta
    }
}

impl Sampler {
    /// Starts sampling, where there are counts to sample.
    pub fn new(now: u64, stats: Option<Stats>) -> (sampler: Option<Sampler>)
        ensures
            sampler is Some <==> stats is Some,
            sampler matches Some(sampler) ==> sampler == (Sampler { sampled_at: now, previous: stats->0 }),
    {
        match stats {
            None => None,
            Some(previous) => Some(Sampler { sampled_at: now, previous }),
        }
    }

    /// Ends an interval and starts the next one.
    pub fn sample(&mut self, now: u64, stats: Option<Stats>) -> (sample: Option<Sample>)
        ensures
            sample is Some <==> stats is Some,
            stats is None ==> *final(self) == *old(self),
            sample matches Some(sample) ==> {
                &&& sample == (Sample {
                    elapsed: rise(old(self).sampled_at as int, now as int) as u64,
                    current: stats->0,
                    delta: delta_between(old(self).previous, stats->0),
                })
                &&& *final(self) == (Sampler { sampled_at: now, previous: stats->0 })
            },
    {
        match stats {
            None => None,
            Some(current) => {
                let sample = Sample {
                    elapsed: now.saturating_sub(self.sampled_at),
                    current,
                    delta: StatsDelta::between(self.previous, current),
                };
                self.sampled_at = now;
                self.previous = current;
                Some(sample)
            },
        }
    }
}

impl Session {
    /// Starts a session, where there are counts to collect.
    pub fn start(now: u64, stats: Option<Stats>) -> (session: Option<Session>)
        ensures
            session is Some <==> stats is Some,
            session matches Some(session) ==> session == (Session {
                started_at: now,
                sampler: Sampler { sampled_at: now, previous: stats->0 },
                baseline: stats->0,
            }),
    {
        match stats {
            None => None,
            Some(baseline) => Some(
                Session { started_at: now, sampler: Sampler { sampled_at: now, previous: baseline }, baseline },
            ),
        }
    }

    pub fn sample(&mut self, now: u64, stats: Option<Stats>) -> (sample: Option<Sample>)
        ensures
            sample is Some <==> stats is Some,
            stats is None ==> *final(self) == *old(self),
            sample matches Some(sample) ==> {
                &&& sample == (Sample {
                    elapsed: rise(old(self).sampler.sampled_at as int, now as int) as u64,
                    current: stats->0,
                    delta: delta_between(old(self).sampler.previous, stats->0),
                })
                &&& *final(self) == (Session { sampler: Sampler { sampled_at: now, previous: stats->0 }, ..*old(self) })
            },
    {
        self.sampler.sample(now, stats)
    }

    /// Ends the session.
    pub fn finish(self, now: u64, stats: Option<Stats>) -> (report: Option<SessionReport>)
        ensures
            report is Some <==> stats is Some,
            report matches Some(report) ==> report == (SessionReport {
                elapsed: rise(self.started_at as int, now as int) as u64,
                initial: self.baseline,
                final_stats: stats->0,
                delta: delta_between(self.baseline, stats->0),
            }),
    {
        match stats {
            None => None,
            Some(final_stats) => Some(
                SessionReport {
                    elapsed: now.saturating_sub(self.started_at),
                    initial: self.baseline,
                    final_stats,
                    delta: StatsDelta::between(self.baseline, final_stats),
                },
            ),
        }
    }
}

impl SessionReport {
    pub fn elapsed(&self) -> (value: u64)
        ensures
            value == self.elapsed,
    {
        self.elapsed
    }

    pub fn initial(&self) -> (value: &Stats)
        ensures
            *value == self.initial,
    {
        &self.initial
    }

    pub fn final_stats(&self) -> (value: &Stats)
        ensures
            *value == self.final_stats,
    {
        &self.final_stats
    }

    pub fn delta(&self) -> (value: &StatsDelta)
        ensures
            *value == self.delta,
    {
        &self.delta
    }
}

/// While counts only rise, the intervals of a session add up to its report.
pub proof fn law_intervals_add_up(first: Stats, middle: Stats, last: Stats)
    requires
        first.allocated_bytes <= middle.allocated_bytes <= last.allocated_bytes,
        first.deallocated_bytes <= middle.deallocated_bytes <= last.deallocated_bytes,
        first.allocations <= middle.allocations <= last.allocations,
        first.deallocations <= middle.deallocations <= last.deallocations,
        first.os_mappings <= middle.os_mappings <= last.os_mappings,
        first.os_unmappings <= middle.os_unmappings <= last.os_unmappings,
        first.remote_frees <= middle.remote_frees <= last.remote_frees,
        first.drained_remote_blocks <= middle.drained_remote_blocks <= last.drained_remote_blocks,
    ensures
        delta_between(first, middle).allocated_bytes + delta_between(middle, last).allocated_bytes == delta_between(first, last).allocated_bytes,
        delta_between(first, middle).deallocated_bytes + delta_between(middle, last).deallocated_bytes == delta_between(first, last).deallocated_bytes,
        delta_between(first, middle).allocations + delta_between(middle, last).allocations == delta_between(first, last).allocations,
        delta_between(first, middle).deallocations + delta_between(middle, last).deallocations == delta_between(first, last).deallocations,
        delta_between(first, middle).mappings + delta_between(middle, last).mappings == delta_between(first, last).mappings,
        delta_between(first, middle).unmappings + delta_between(middle, last).unmappings == delta_between(first, last).unmappings,
        delta_between(first, middle).remote_frees + delta_between(middle, last).remote_frees == delta_between(first, last).remote_frees,
        delta_between(first, middle).drained_remote_blocks + delta_between(middle, last).drained_remote_blocks == delta_between(first, last).drained_remote_blocks,
{
}

} // verus!
