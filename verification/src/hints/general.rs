//! Options and usage of general-purpose heaps.

use vstd::prelude::*;

use crate::allocator::layout::is_power_of_two;

verus! {

pub const MEDIUM_SLICE_BYTES: usize = 64 * 1024;
pub const MAX_LOCALITY_SEGMENT_BYTES: usize = 1024 * 1024 * 1024;
pub const MAX_MEDIUM_CACHE_BYTES: usize = 8 * 1024 * 1024;
pub const DEFAULT_LOCALITY_SEGMENT_BYTES: usize = 4 * 1024 * 1024;
pub const DEFAULT_MEDIUM_CACHE_MAX_BYTES: usize = 8 * 1024 * 1024;

/// Runtime options of a general-purpose heap.
#[derive(Clone, Copy, Debug, PartialEq, Eq, Structural)]
pub struct Options {
    pub locality_segment_bytes: usize,
    pub medium_cache_max_bytes: usize,
}

/// What is known of a general-purpose heap without looking into it.
#[derive(Clone, Copy, Debug, PartialEq, Eq, Structural)]
pub struct Info {
    pub options: Options,
    pub thread_target: bool,
}

/// Totals of one kind of allocation.
#[derive(Clone, Copy, Debug, PartialEq, Eq, Structural)]
pub struct AllocationUsage {
    pub live_allocations: usize,
    pub requested_bytes: usize,
    pub usable_bytes: usize,
}

/// What a general-purpose heap holds.
#[derive(Clone, Copy, Debug, PartialEq, Eq, Structural)]
pub struct Usage {
    pub small: AllocationUsage,
    pub medium: AllocationUsage,
    pub direct: AllocationUsage,
    pub cached_medium_bytes: usize,
    pub slab_count: usize,
    pub slice_count: usize,
}

/// Whether locality segments may be this long.
pub open spec fn valid_locality(bytes: int) -> bool {
    MEDIUM_SLICE_BYTES <= bytes <= MAX_LOCALITY_SEGMENT_BYTES && is_power_of_two(bytes)
}

/// Whether spans up to this length may be cached.
pub open spec fn valid_medium_cache(bytes: int) -> bool {
    bytes == 0 || (MEDIUM_SLICE_BYTES <= bytes <= MAX_MEDIUM_CACHE_BYTES && is_power_of_two(bytes))
}

pub open spec fn standard_options() -> Options {
    Options {
        locality_segment_bytes: DEFAULT_LOCALITY_SEGMENT_BYTES,
        medium_cache_max_bytes: DEFAULT_MEDIUM_CACHE_MAX_BYTES,
    }
}

impl Options {
    pub fn new() -> (options: Options)
        ensures
            options == standard_options(),
    {
        Options {
            locality_segment_bytes: DEFAULT_LOCALITY_SEGMENT_BYTES,
            medium_cache_max_bytes: DEFAULT_MEDIUM_CACHE_MAX_BYTES,
        }
    }

    pub fn with_locality_segment_bytes(self, bytes: usize) -> (options: Options)
        requires
            valid_locality(bytes as int),
        ensures
            options == (Options { locality_segment_bytes: bytes, ..self }),
    {
        Options { locality_segment_bytes: bytes, ..self }
    }

    pub fn with_medium_cache_max_bytes(self, bytes: usize) -> (options: Options)
        requires
            valid_medium_cache(bytes as int),
        ensures
            options == (Options { medium_cache_max_bytes: bytes, ..self }),
    {
        Options { medium_cache_max_bytes: bytes, ..self }
    }

    pub fn locality_segment_bytes(self) -> (bytes: usize)
        ensures
            bytes == self.locality_segment_bytes,
    {
        self.locality_segment_bytes
    }

    pub fn medium_cache_max_bytes(self) -> (bytes: usize)
        ensures
            bytes == self.medium_cache_max_bytes,
    {
        self.medium_cache_max_bytes
    }

    /// Options of values that were checked before.
    pub fn from_values(locality_segment_bytes: usize, medium_cache_max_bytes: usize) -> (options: Options)
        ensures
            options.locality_segment_bytes == locality_segment_bytes,
            options.medium_cache_max_bytes == medium_cache_max_bytes,
    {
        Options { locality_segment_bytes, medium_cache_max_bytes }
    }
}

impl Default for Options {
    fn default() -> (options: Options)
        ensures
            options == standard_options(),
    {
        Options::new()
    }
}

impl Info {
    pub fn options(&self) -> (options: Options)
        ensures
            options == self.options,
    {
        self.options
    }

    pub fn is_thread_target(&self) -> (thread_target: bool)
        ensures
            thread_target == self.thread_target,
    {
        self.thread_target
    }

    pub fn new(options: Options, thread_target: bool) -> (info: Info)
        ensures
            info.options == options,
            info.thread_target == thread_target,
    {
        Info { options, thread_target }
    }
}

pub open spec fn no_usage() -> AllocationUsage {
    AllocationUsage { live_allocations: 0, requested_bytes: 0, usable_bytes: 0 }
}

impl Default for AllocationUsage {
    fn default() -> (usage: AllocationUsage)
        ensures
            usage == no_usage(),
    {
        AllocationUsage { live_allocations: 0, requested_bytes: 0, usable_bytes: 0 }
    }
}

/// What one call adds to the totals.
#[derive(Clone, Copy, Debug, PartialEq, Eq, Structural)]
pub struct Amount {
    pub live_allocations: usize,
    pub requested_bytes: usize,
    pub usable_bytes: usize,
}

/// Whether each total has grown by its part of the amount.
pub open spec fn added(before: AllocationUsage, after: AllocationUsage, amount: Amount) -> bool {
    &&& after.live_allocations == before.live_allocations + amount.live_allocations
    &&& after.requested_bytes == before.requested_bytes + amount.requested_bytes
    &&& after.usable_bytes == before.usable_bytes + amount.usable_bytes
}

/// The three sums of the amounts.
pub open spec fn summed(amounts: Seq<Amount>) -> (int, int, int) {
    amounts.fold_left(
        (0, 0, 0),
        |sums: (int, int, int), amount: Amount|
            (sums.0 + amount.live_allocations, sums.1 + amount.requested_bytes, sums.2 + amount.usable_bytes),
    )
}

/// Adding any number of amounts, one after the other, grows each total by the sum of its parts.
pub proof fn law_amounts_add_up(totals: Seq<AllocationUsage>, amounts: Seq<Amount>)
    requires
        totals.len() == amounts.len() + 1,
        forall|at: int|
            #![trigger amounts[at]]
            0 <= at < amounts.len() ==> added(totals[at], totals[at + 1], amounts[at]),
    ensures
        totals.last().live_allocations == totals.first().live_allocations + summed(amounts).0,
        totals.last().requested_bytes == totals.first().requested_bytes + summed(amounts).1,
        totals.last().usable_bytes == totals.first().usable_bytes + summed(amounts).2,
    decreases amounts.len(),
{
    if amounts.len() > 0 {
        let earlier = amounts.drop_last();
        assert forall|at: int|
            #![trigger earlier[at]]
            0 <= at < earlier.len() implies added(totals.drop_last()[at], totals.drop_last()[at + 1], earlier[at]) by {
            assert(earlier[at] == amounts[at]);
        }
        law_amounts_add_up(totals.drop_last(), earlier);
        assert(added(totals[amounts.len() - 1], totals[amounts.len() as int], amounts[amounts.len() - 1]));
    }
}

/// The order in which amounts are added makes no difference to the totals.
pub proof fn law_amounts_add_up_in_any_order(
    left: Seq<AllocationUsage>,
    right: Seq<AllocationUsage>,
    amounts: Seq<Amount>,
    reordered: Seq<Amount>,
)
    requires
        left.len() == amounts.len() + 1,
        right.len() == reordered.len() + 1,
        left.first() == right.first(),
        amounts.to_multiset() == reordered.to_multiset(),
        forall|at: int|
            #![trigger amounts[at]]
            0 <= at < amounts.len() ==> added(left[at], left[at + 1], amounts[at]),
        forall|at: int|
            #![trigger reordered[at]]
            0 <= at < reordered.len() ==> added(right[at], right[at + 1], reordered[at]),
    ensures
        left.last() == right.last(),
{
    law_amounts_add_up(left, amounts);
    law_amounts_add_up(right, reordered);
    vstd::seq_lib::lemma_fold_left_permutation(
        amounts,
        reordered,
        |sums: (int, int, int), amount: Amount|
            (sums.0 + amount.live_allocations, sums.1 + amount.requested_bytes, sums.2 + amount.usable_bytes),
        (0, 0, 0),
    );
}

impl AllocationUsage {
    pub fn live_allocations(&self) -> (count: usize)
        ensures
            count == self.live_allocations,
    {
        self.live_allocations
    }

    pub fn requested_bytes(&self) -> (bytes: usize)
        ensures
            bytes == self.requested_bytes,
    {
        self.requested_bytes
    }

    pub fn usable_bytes(&self) -> (bytes: usize)
        ensures
            bytes == self.usable_bytes,
    {
        self.usable_bytes
    }

    pub fn add(&mut self, live_allocations: usize, requested_bytes: usize, usable_bytes: usize)
        requires
            old(self).live_allocations + live_allocations <= usize::MAX,
            old(self).requested_bytes + requested_bytes <= usize::MAX,
            old(self).usable_bytes + usable_bytes <= usize::MAX,
        ensures
            added(*old(self), *final(self), (Amount { live_allocations, requested_bytes, usable_bytes })),
    {
        self.live_allocations = self.live_allocations + live_allocations;
        self.requested_bytes = self.requested_bytes + requested_bytes;
        self.usable_bytes = self.usable_bytes + usable_bytes;
    }
}

impl Usage {
    pub fn small(&self) -> (usage: &AllocationUsage)
        ensures
            *usage == self.small,
    {
        &self.small
    }

    pub fn medium(&self) -> (usage: &AllocationUsage)
        ensures
            *usage == self.medium,
    {
        &self.medium
    }

    pub fn direct(&self) -> (usage: &AllocationUsage)
        ensures
            *usage == self.direct,
    {
        &self.direct
    }

    pub fn cached_medium_bytes(&self) -> (bytes: usize)
        ensures
            bytes == self.cached_medium_bytes,
    {
        self.cached_medium_bytes
    }

    pub fn slab_count(&self) -> (count: usize)
        ensures
            count == self.slab_count,
    {
        self.slab_count
    }

    pub fn slice_count(&self) -> (count: usize)
        ensures
            count == self.slice_count,
    {
        self.slice_count
    }

    pub fn new(
        small: AllocationUsage,
        medium: AllocationUsage,
        direct: AllocationUsage,
        cached_medium_bytes: usize,
        slab_count: usize,
        slice_count: usize,
    ) -> (usage: Usage)
        ensures
            usage == (Usage { small, medium, direct, cached_medium_bytes, slab_count, slice_count }),
    {
        Usage { small, medium, direct, cached_medium_bytes, slab_count, slice_count }
    }
}

} // verus!
