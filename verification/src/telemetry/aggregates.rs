//! Counting what the allocator does.

use vstd::prelude::*;

use crate::telemetry::stats::{rise, Estimate, Stats};
use crate::tunables::MAX_SIZE_CLASSES;

verus! {

/// One bucket for nothing, and one for each bit that the highest set bit of a size can be.
pub const HISTOGRAM_BUCKETS: usize = 65;

/// How many bits a number takes.
pub open spec fn bit_length(number: int) -> int
    decreases number,
{
    if number <= 0 {
        0
    } else {
        1 + bit_length(number / 2)
    }
}

proof fn lemma_bit_length(number: int, bits: nat)
    requires
        0 <= number < vstd::arithmetic::power2::pow2(bits),
    ensures
        0 <= bit_length(number) <= bits,
    decreases bits,
{
    if number > 0 {
        if bits == 0 {
            vstd::arithmetic::power2::lemma2_to64();
        } else {
            vstd::arithmetic::power2::lemma_pow2_unfold(bits);
            lemma_bit_length(number / 2, (bits - 1) as nat);
        }
    }
}

/// The bucket that a size is counted in.
pub fn histogram_bucket(size: usize) -> (bucket: usize)
    ensures
        bucket == bit_length(size as int),
        bucket < HISTOGRAM_BUCKETS,
{
    proof {
        vstd::arithmetic::power2::lemma2_to64();
        lemma_bit_length(size as int, 64);
    }
    let mut rest: usize = size;
    let mut bucket: usize = 0;
    while rest > 0
        invariant
            bucket + bit_length(rest as int) == bit_length(size as int),
            bit_length(size as int) <= 64,
            bit_length(rest as int) >= 0,
        decreases rest,
    {
        proof {
            vstd::arithmetic::power2::lemma2_to64();
            lemma_bit_length(rest as int / 2, 64);
        }
        rest = rest / 2;
        bucket = bucket + 1;
    }
    bucket
}

/// Counts of one thread, or of all of them. They wrap around.
pub struct Counts {
    pub allocated_bytes: usize,
    pub deallocated_bytes: usize,
    pub allocations: usize,
    pub deallocations: usize,
    pub class_block_bytes: Vec<usize>,
    pub class_allocations: Vec<usize>,
    pub class_deallocations: Vec<usize>,
    pub class_allocated_bytes: Vec<usize>,
    pub class_deallocated_bytes: Vec<usize>,
    pub size_allocations: Vec<usize>,
    pub size_live: Vec<isize>,
}

#[verifier::ext_equal]
pub struct CountsModel {
    pub allocated_bytes: usize,
    pub deallocated_bytes: usize,
    pub allocations: usize,
    pub deallocations: usize,
    pub class_block_bytes: Seq<usize>,
    pub class_allocations: Seq<usize>,
    pub class_deallocations: Seq<usize>,
    pub class_allocated_bytes: Seq<usize>,
    pub class_deallocated_bytes: Seq<usize>,
    pub size_allocations: Seq<usize>,
    pub size_live: Seq<isize>,
}

impl View for Counts {
    type V = CountsModel;

    open spec fn view(&self) -> CountsModel {
        CountsModel {
            allocated_bytes: self.allocated_bytes,
            deallocated_bytes: self.deallocated_bytes,
            allocations: self.allocations,
            deallocations: self.deallocations,
            class_block_bytes: self.class_block_bytes@,
            class_allocations: self.class_allocations@,
            class_deallocations: self.class_deallocations@,
            class_allocated_bytes: self.class_allocated_bytes@,
            class_deallocated_bytes: self.class_deallocated_bytes@,
            size_allocations: self.size_allocations@,
            size_live: self.size_live@,
        }
    }
}

pub open spec fn zeros(count: int) -> Seq<usize> {
    Seq::new(count as nat, |at: int| 0usize)
}

pub open spec fn no_counts() -> CountsModel {
    CountsModel {
        allocated_bytes: 0,
        deallocated_bytes: 0,
        allocations: 0,
        deallocations: 0,
        class_block_bytes: zeros(MAX_SIZE_CLASSES as int),
        class_allocations: zeros(MAX_SIZE_CLASSES as int),
        class_deallocations: zeros(MAX_SIZE_CLASSES as int),
        class_allocated_bytes: zeros(MAX_SIZE_CLASSES as int),
        class_deallocated_bytes: zeros(MAX_SIZE_CLASSES as int),
        size_allocations: zeros(HISTOGRAM_BUCKETS as int),
        size_live: Seq::new(HISTOGRAM_BUCKETS as nat, |at: int| 0isize),
    }
}

/// The list with `value` added at `index`.
pub open spec fn added(list: Seq<usize>, index: int, value: usize) -> Seq<usize> {
    list.update(index, list[index].wrapping_add(value))
}

pub open spec fn added_signed(list: Seq<isize>, index: int, value: isize) -> Seq<isize> {
    list.update(index, list[index].wrapping_add(value))
}

impl CountsModel {
    pub open spec fn shape(self) -> bool {
        &&& self.class_block_bytes.len() == MAX_SIZE_CLASSES
        &&& self.class_allocations.len() == MAX_SIZE_CLASSES
        &&& self.class_deallocations.len() == MAX_SIZE_CLASSES
        &&& self.class_allocated_bytes.len() == MAX_SIZE_CLASSES
        &&& self.class_deallocated_bytes.len() == MAX_SIZE_CLASSES
        &&& self.size_allocations.len() == HISTOGRAM_BUCKETS
        &&& self.size_live.len() == HISTOGRAM_BUCKETS
    }

    pub open spec fn with_allocation(self, size: usize) -> CountsModel {
        CountsModel {
            allocated_bytes: self.allocated_bytes.wrapping_add(size),
            allocations: self.allocations.wrapping_add(1),
            size_allocations: added(self.size_allocations, bit_length(size as int), 1),
            size_live: added_signed(self.size_live, bit_length(size as int), 1),
            ..self
        }
    }

    pub open spec fn with_deallocation(self, size: usize) -> CountsModel {
        CountsModel {
            deallocated_bytes: self.deallocated_bytes.wrapping_add(size),
            deallocations: self.deallocations.wrapping_add(1),
            size_live: added_signed(self.size_live, bit_length(size as int), (-1) as isize),
            ..self
        }
    }

    pub open spec fn with_small_allocation(self, class: int, block_bytes: usize, size: usize) -> CountsModel {
        CountsModel {
            class_block_bytes: self.class_block_bytes.update(class, block_bytes),
            class_allocations: added(self.class_allocations, class, 1),
            class_allocated_bytes: added(self.class_allocated_bytes, class, size),
            ..self.with_allocation(size)
        }
    }

    pub open spec fn with_small_deallocation(self, class: int, size: usize) -> CountsModel {
        CountsModel {
            class_deallocations: added(self.class_deallocations, class, 1),
            class_deallocated_bytes: added(self.class_deallocated_bytes, class, size),
            ..self.with_deallocation(size)
        }
    }

    /// The counts of both. The sizes of classes' blocks are not counted but kept.
    pub open spec fn merged(self, other: CountsModel) -> CountsModel {
        CountsModel {
            allocated_bytes: self.allocated_bytes.wrapping_add(other.allocated_bytes),
            deallocated_bytes: self.deallocated_bytes.wrapping_add(other.deallocated_bytes),
            allocations: self.allocations.wrapping_add(other.allocations),
            deallocations: self.deallocations.wrapping_add(other.deallocations),
            class_block_bytes: larger_each(self.class_block_bytes, other.class_block_bytes),
            class_allocations: added_each(self.class_allocations, other.class_allocations),
            class_deallocations: added_each(self.class_deallocations, other.class_deallocations),
            class_allocated_bytes: added_each(self.class_allocated_bytes, other.class_allocated_bytes),
            class_deallocated_bytes: added_each(self.class_deallocated_bytes, other.class_deallocated_bytes),
            size_allocations: added_each(self.size_allocations, other.size_allocations),
            size_live: Seq::new(self.size_live.len(), |at: int| self.size_live[at].wrapping_add(other.size_live[at])),
        }
    }
}

pub open spec fn added_each(left: Seq<usize>, right: Seq<usize>) -> Seq<usize> {
    Seq::new(left.len(), |at: int| left[at].wrapping_add(right[at]))
}

pub open spec fn larger_each(left: Seq<usize>, right: Seq<usize>) -> Seq<usize> {
    Seq::new(
        left.len(),
        |at: int|
            if left[at] < right[at] {
                right[at]
            } else {
                left[at]
            },
    )
}

fn zero_list(count: usize) -> (list: Vec<usize>)
    ensures
        list@ == zeros(count as int),
{
    let mut list: Vec<usize> = Vec::new();
    while list.len() < count
        invariant
            list@.len() <= count,
            list@ == zeros(list@.len() as int),
        decreases count - list@.len(),
    {
        list.push(0);
        assert(list@ =~= zeros(list@.len() as int));
    }
    list
}

fn add_at(list: &mut Vec<usize>, index: usize, value: usize)
    requires
        index < old(list)@.len(),
    ensures
        final(list)@ == added(old(list)@, index as int, value),
{
    let sum: usize = list[index].wrapping_add(value);
    list.set(index, sum);
}

fn add_signed_at(list: &mut Vec<isize>, index: usize, value: isize)
    requires
        index < old(list)@.len(),
    ensures
        final(list)@ == added_signed(old(list)@, index as int, value),
{
    let sum: isize = list[index].wrapping_add(value);
    list.set(index, sum);
}

fn add_each(list: &mut Vec<usize>, other: &Vec<usize>)
    requires
        old(list)@.len() == other@.len(),
    ensures
        final(list)@ == added_each(old(list)@, other@),
{
    let mut at: usize = 0;
    while at < other.len()
        invariant
            at <= other@.len(),
            list@.len() == other@.len(),
            list@.len() == old(list)@.len(),
            forall|i: int|
                0 <= i < list@.len() ==> #[trigger] list@[i] == (if i < at {
                    old(list)@[i].wrapping_add(other@[i])
                } else {
                    old(list)@[i]
                }),
        decreases other@.len() - at,
    {
        let sum: usize = list[at].wrapping_add(other[at]);
        list.set(at, sum);
        at = at + 1;
    }
    assert(list@ =~= added_each(old(list)@, other@));
}

fn keep_larger(list: &mut Vec<usize>, other: &Vec<usize>)
    requires
        old(list)@.len() == other@.len(),
    ensures
        final(list)@ == larger_each(old(list)@, other@),
{
    let mut at: usize = 0;
    while at < other.len()
        invariant
            at <= other@.len(),
            list@.len() == other@.len(),
            list@.len() == old(list)@.len(),
            forall|i: int|
                0 <= i < list@.len() ==> #[trigger] list@[i] == (if i < at && old(list)@[i] < other@[i] {
                    other@[i]
                } else {
                    old(list)@[i]
                }),
        decreases other@.len() - at,
    {
        if list[at] < other[at] {
            let larger: usize = other[at];
            list.set(at, larger);
        }
        at = at + 1;
    }
    assert(list@ =~= larger_each(old(list)@, other@));
}

fn add_each_signed(list: &mut Vec<isize>, other: &Vec<isize>)
    requires
        old(list)@.len() == other@.len(),
    ensures
        final(list)@ == Seq::new(old(list)@.len(), |at: int| old(list)@[at].wrapping_add(other@[at])),
{
    let mut at: usize = 0;
    while at < other.len()
        invariant
            at <= other@.len(),
            list@.len() == other@.len(),
            list@.len() == old(list)@.len(),
            forall|i: int|
                0 <= i < list@.len() ==> #[trigger] list@[i] == (if i < at {
                    old(list)@[i].wrapping_add(other@[i])
                } else {
                    old(list)@[i]
                }),
        decreases other@.len() - at,
    {
        let sum: isize = list[at].wrapping_add(other[at]);
        list.set(at, sum);
        at = at + 1;
    }
    assert(list@ =~= Seq::new(old(list)@.len(), |at: int| old(list)@[at].wrapping_add(other@[at])));
}

impl Counts {
    pub fn new() -> (counts: Counts)
        ensures
            counts@ == no_counts(),
            counts@.shape(),
    {
        let mut size_live: Vec<isize> = Vec::new();
        while size_live.len() < HISTOGRAM_BUCKETS
            invariant
                size_live@.len() <= HISTOGRAM_BUCKETS,
                forall|at: int| 0 <= at < size_live@.len() ==> size_live@[at] == 0,
            decreases HISTOGRAM_BUCKETS - size_live@.len(),
        {
            size_live.push(0);
        }
        let counts = Counts {
            allocated_bytes: 0,
            deallocated_bytes: 0,
            allocations: 0,
            deallocations: 0,
            class_block_bytes: zero_list(MAX_SIZE_CLASSES),
            class_allocations: zero_list(MAX_SIZE_CLASSES),
            class_deallocations: zero_list(MAX_SIZE_CLASSES),
            class_allocated_bytes: zero_list(MAX_SIZE_CLASSES),
            class_deallocated_bytes: zero_list(MAX_SIZE_CLASSES),
            size_allocations: zero_list(HISTOGRAM_BUCKETS),
            size_live,
        };
        assert(counts@ =~= no_counts());
        counts
    }

    fn count_allocation(&mut self, size: usize)
        requires
            old(self)@.shape(),
        ensures
            final(self)@ == old(self)@.with_allocation(size),
            final(self)@.shape(),
    {
        self.allocated_bytes = self.allocated_bytes.wrapping_add(size);
        self.allocations = self.allocations.wrapping_add(1);
        let bucket: usize = histogram_bucket(size);
        add_at(&mut self.size_allocations, bucket, 1);
        add_signed_at(&mut self.size_live, bucket, 1);
    }

    fn count_deallocation(&mut self, size: usize)
        requires
            old(self)@.shape(),
        ensures
            final(self)@ == old(self)@.with_deallocation(size),
            final(self)@.shape(),
    {
        self.deallocated_bytes = self.deallocated_bytes.wrapping_add(size);
        self.deallocations = self.deallocations.wrapping_add(1);
        let bucket: usize = histogram_bucket(size);
        add_signed_at(&mut self.size_live, bucket, -1);
    }

    fn merge(&mut self, other: &Counts)
        requires
            old(self)@.shape(),
            other@.shape(),
        ensures
            final(self)@ == old(self)@.merged(other@),
            final(self)@.shape(),
    {
        self.allocated_bytes = self.allocated_bytes.wrapping_add(other.allocated_bytes);
        self.deallocated_bytes = self.deallocated_bytes.wrapping_add(other.deallocated_bytes);
        self.allocations = self.allocations.wrapping_add(other.allocations);
        self.deallocations = self.deallocations.wrapping_add(other.deallocations);
        keep_larger(&mut self.class_block_bytes, &other.class_block_bytes);
        add_each(&mut self.class_allocations, &other.class_allocations);
        add_each(&mut self.class_deallocations, &other.class_deallocations);
        add_each(&mut self.class_allocated_bytes, &other.class_allocated_bytes);
        add_each(&mut self.class_deallocated_bytes, &other.class_deallocated_bytes);
        add_each(&mut self.size_allocations, &other.size_allocations);
        add_each_signed(&mut self.size_live, &other.size_live);
    }
}

/// Counts that are kept once for the process.
#[derive(Clone, Copy, Debug, PartialEq, Eq, Structural)]
pub struct Totals {
    /// Whether anything was counted yet.
    pub available: bool,
    pub live_bytes: usize,
    pub peak_live_bytes: usize,
    pub mapped_bytes: usize,
    pub bump_committed_bytes: usize,
    pub os_mappings: usize,
    pub os_unmappings: usize,
    pub remote_frees: usize,
    pub pending_remote_blocks: usize,
    pub remote_pushes_in_progress: usize,
    pub drained_remote_blocks: usize,
}

pub open spec fn no_totals() -> Totals {
    Totals {
        available: false,
        live_bytes: 0,
        peak_live_bytes: 0,
        mapped_bytes: 0,
        bump_committed_bytes: 0,
        os_mappings: 0,
        os_unmappings: 0,
        remote_frees: 0,
        pending_remote_blocks: 0,
        remote_pushes_in_progress: 0,
        drained_remote_blocks: 0,
    }
}

impl Totals {
    pub fn new() -> (totals: Totals)
        ensures
            totals == no_totals(),
    {
        Totals {
            available: false,
            live_bytes: 0,
            peak_live_bytes: 0,
            mapped_bytes: 0,
            bump_committed_bytes: 0,
            os_mappings: 0,
            os_unmappings: 0,
            remote_frees: 0,
            pending_remote_blocks: 0,
            remote_pushes_in_progress: 0,
            drained_remote_blocks: 0,
        }
    }

    pub open spec fn mapped(self, size: usize) -> Totals {
        Totals {
            available: true,
            mapped_bytes: self.mapped_bytes.wrapping_add(size),
            os_mappings: self.os_mappings.wrapping_add(1),
            ..self
        }
    }

    pub fn record_mapping(&mut self, size: usize)
        ensures
            *final(self) == old(self).mapped(size),
    {
        self.available = true;
        self.mapped_bytes = self.mapped_bytes.wrapping_add(size);
        self.os_mappings = self.os_mappings.wrapping_add(1);
    }

    pub open spec fn unmapped(self, size: usize) -> Totals {
        Totals {
            mapped_bytes: self.mapped_bytes.wrapping_sub(size),
            os_unmappings: self.os_unmappings.wrapping_add(1),
            ..self
        }
    }

    pub fn record_unmapping(&mut self, size: usize)
        ensures
            *final(self) == old(self).unmapped(size),
    {
        self.mapped_bytes = self.mapped_bytes.wrapping_sub(size);
        self.os_unmappings = self.os_unmappings.wrapping_add(1);
    }

    pub fn record_bump_commit(&mut self, size: usize)
        ensures
            *final(self) == (Totals { bump_committed_bytes: old(self).bump_committed_bytes.wrapping_add(size), ..*old(self) }),
    {
        self.bump_committed_bytes = self.bump_committed_bytes.wrapping_add(size);
    }

    pub fn record_bump_decommit(&mut self, size: usize)
        ensures
            *final(self) == (Totals { bump_committed_bytes: old(self).bump_committed_bytes.wrapping_sub(size), ..*old(self) }),
    {
        self.bump_committed_bytes = self.bump_committed_bytes.wrapping_sub(size);
    }

    pub open spec fn pushed(self) -> Totals {
        if self.available {
            Totals {
                remote_frees: self.remote_frees.wrapping_add(1),
                pending_remote_blocks: self.pending_remote_blocks.wrapping_add(1),
                ..self
            }
        } else {
            self
        }
    }

    /// Counts a block that another thread is about to free.
    pub fn begin_remote_free(&mut self)
        ensures
            *final(self) == (if old(self).available {
                Totals {
                    remote_pushes_in_progress: old(self).remote_pushes_in_progress.wrapping_add(1),
                    ..old(self).pushed()
                }
            } else {
                *old(self)
            }),
    {
        if self.available {
            self.remote_pushes_in_progress = self.remote_pushes_in_progress.wrapping_add(1);
            self.remote_frees = self.remote_frees.wrapping_add(1);
            self.pending_remote_blocks = self.pending_remote_blocks.wrapping_add(1);
        }
    }

    pub fn finish_remote_free(&mut self)
        ensures
            *final(self) == (if old(self).available {
                Totals { remote_pushes_in_progress: old(self).remote_pushes_in_progress.wrapping_sub(1), ..*old(self) }
            } else {
                *old(self)
            }),
    {
        if self.available {
            self.remote_pushes_in_progress = self.remote_pushes_in_progress.wrapping_sub(1);
        }
    }

    /// Counts a block of a retired heap that was freed.
    pub fn record_remote_retired_free(&mut self, suppressed: bool)
        ensures
            *final(self) == (if old(self).available && !suppressed {
                Totals { remote_frees: old(self).remote_frees.wrapping_add(1), ..*old(self) }
            } else {
                *old(self)
            }),
    {
        if !suppressed && self.available {
            self.remote_frees = self.remote_frees.wrapping_add(1);
        }
    }

    /// Counts blocks that came back to their slab.
    pub fn record_remote_drain(&mut self, blocks: usize)
        ensures
            *final(self) == (if old(self).available {
                Totals {
                    pending_remote_blocks: old(self).pending_remote_blocks.wrapping_sub(blocks),
                    drained_remote_blocks: old(self).drained_remote_blocks.wrapping_add(blocks),
                    ..*old(self)
                }
            } else {
                *old(self)
            }),
    {
        if self.available {
            self.pending_remote_blocks = self.pending_remote_blocks.wrapping_sub(blocks);
            self.drained_remote_blocks = self.drained_remote_blocks.wrapping_add(blocks);
        }
    }

    pub open spec fn with_live(self, size: usize) -> Totals {
        Totals {
            live_bytes: (self.live_bytes + size) as usize,
            peak_live_bytes: if self.live_bytes + size > self.peak_live_bytes {
                (self.live_bytes + size) as usize
            } else {
                self.peak_live_bytes
            },
            ..self
        }
    }

    pub open spec fn without_live(self, size: usize) -> Totals {
        Totals { live_bytes: self.live_bytes.wrapping_sub(size), ..self }
    }
}

/// The counts of a thread, or those that threads share which got none of their own.
pub struct AggregateShard {
    pub shared: bool,
    pub counts: Counts,
}

/// Everything that is counted.
pub struct Aggregates {
    pub totals: Totals,
    pub shards: Vec<AggregateShard>,
    /// The shared counts, once a thread needed them.
    pub fallback: Option<usize>,
}

/// What a thread knows of its counting.
#[derive(Clone, Copy, Debug, PartialEq, Eq, Structural)]
pub struct ThreadTelemetry {
    /// How many telemetry operations the thread is inside of.
    pub suppression_depth: usize,
    pub shard: Option<usize>,
}

pub open spec fn shard_models(shards: Seq<AggregateShard>) -> Seq<CountsModel> {
    Seq::new(shards.len(), |at: int| shards[at].counts@)
}

/// The counts of the first shards taken together.
pub open spec fn merged_shards(shards: Seq<CountsModel>) -> CountsModel
    decreases shards.len(),
{
    if shards.len() == 0 {
        no_counts()
    } else {
        merged_shards(shards.drop_last()).merged(shards.last())
    }
}

impl ThreadTelemetry {
    pub fn new() -> (thread: ThreadTelemetry)
        ensures
            thread == (ThreadTelemetry { suppression_depth: 0, shard: None }),
    {
        ThreadTelemetry { suppression_depth: 0, shard: None }
    }

    pub fn suppressed(&self) -> (suppressed: bool)
        ensures
            suppressed == (self.suppression_depth != 0),
    {
        self.suppression_depth != 0
    }

    /// Enters a telemetry operation: what the thread does inside of it is not counted.
    pub fn enter(&mut self)
        requires
            old(self).suppression_depth < usize::MAX,
        ensures
            *final(self) == (ThreadTelemetry { suppression_depth: (old(self).suppression_depth + 1) as usize, ..*old(self) }),
    {
        self.suppression_depth = self.suppression_depth + 1;
    }

    pub fn leave(&mut self)
        requires
            old(self).suppression_depth > 0,
        ensures
            *final(self) == (ThreadTelemetry { suppression_depth: (old(self).suppression_depth - 1) as usize, ..*old(self) }),
    {
        self.suppression_depth = self.suppression_depth - 1;
    }
}

impl Aggregates {
    pub open spec fn wf(&self) -> bool {
        &&& forall|at: int| 0 <= at < self.shards@.len() ==> (#[trigger] self.shards@[at]).counts@.shape()
        &&& self.fallback matches Some(fallback) ==> fallback < self.shards@.len()
    }

    pub fn new() -> (aggregates: Aggregates)
        ensures
            aggregates.wf(),
            aggregates.totals == no_totals(),
            aggregates.shards@.len() == 0,
            aggregates.fallback is None,
    {
        Aggregates { totals: Totals::new(), shards: Vec::new(), fallback: None }
    }

    /// Gives a thread counts: its own where there is memory for them, else the shared ones.
    pub fn initialize_aggregate_shard(&mut self, mapped: bool) -> (shard: usize)
        requires
            old(self).wf(),
        ensures
            final(self).wf(),
            final(self).totals == (Totals { available: true, ..old(self).totals }),
            shard < final(self).shards@.len(),
            !mapped && old(self).fallback is Some ==> shard == old(self).fallback->0 && final(self).shards == old(self).shards
                && final(self).fallback == old(self).fallback,
            mapped || old(self).fallback is None ==> {
                &&& shard == old(self).shards@.len()
                &&& final(self).shards@.len() == old(self).shards@.len() + 1
                &&& final(self).shards@.take(shard as int) == old(self).shards@
                &&& final(self).shards@[shard as int].counts@ == no_counts()
                &&& final(self).shards@[shard as int].shared == !mapped
                &&& final(self).fallback == (if mapped {
                    old(self).fallback
                } else {
                    Some(shard)
                })
            },
    {
        self.totals.available = true;
        if !mapped {
            if let Some(fallback) = self.fallback {
                return fallback;
            }
        }
        let shard: usize = self.shards.len();
        self.shards.push(AggregateShard { shared: !mapped, counts: Counts::new() });
        if !mapped {
            self.fallback = Some(shard);
        }
        assert(self.shards@.take(shard as int) =~= old(self).shards@);
        shard
    }

    /// Changes the counts of one shard and nothing else of the shards.
    pub open spec fn changes_shard(&self, other: &Aggregates, shard: int) -> bool {
        &&& self.shards@.len() == other.shards@.len()
        &&& self.fallback == other.fallback
        &&& forall|at: int| 0 <= at < self.shards@.len() && at != shard ==> #[trigger] self.shards@[at] == other.shards@[at]
        &&& self.shards@[shard].shared == other.shards@[shard].shared
    }

    pub fn record_allocation(&mut self, thread: &ThreadTelemetry, shard: usize, size: usize)
        requires
            old(self).wf(),
            shard < old(self).shards@.len(),
            old(self).totals.live_bytes + size <= usize::MAX,
        ensures
            final(self).wf(),
            thread.suppression_depth != 0 ==> *final(self) == *old(self),
            thread.suppression_depth == 0 ==> final(self).changes_shard(old(self), shard as int) && final(self).shards@[shard as int].counts@
                == old(self).shards@[shard as int].counts@.with_allocation(size) && final(self).totals == old(self).totals.with_live(
                size,
            ),
    {
        if thread.suppressed() {
            return ;
        }
        let ghost before = self.shards@;
        self.shards[shard].counts.count_allocation(size);
        self.count_live(size);
        proof {
            assert forall|at: int| 0 <= at < self.shards@.len() implies (#[trigger] self.shards@[at]).counts@.shape() by {
                if at != shard {
                    assert(self.shards@[at] == before[at]);
                }
            }
        }
    }

    fn count_live(&mut self, size: usize)
        requires
            old(self).totals.live_bytes + size <= usize::MAX,
        ensures
            final(self).totals == old(self).totals.with_live(size),
            final(self).shards == old(self).shards,
            final(self).fallback == old(self).fallback,
    {
        let live: usize = self.totals.live_bytes + size;
        self.totals.live_bytes = live;
        if live > self.totals.peak_live_bytes {
            self.totals.peak_live_bytes = live;
        }
    }

    pub fn record_deallocation_stats(&mut self, thread: &ThreadTelemetry, shard: usize, size: usize)
        requires
            old(self).wf(),
            shard < old(self).shards@.len(),
        ensures
            final(self).wf(),
            thread.suppression_depth != 0 ==> *final(self) == *old(self),
            thread.suppression_depth == 0 ==> final(self).changes_shard(old(self), shard as int) && final(self).shards@[shard as int].counts@
                == old(self).shards@[shard as int].counts@.with_deallocation(size) && final(self).totals == old(self).totals.without_live(size),
    {
        if thread.suppressed() {
            return ;
        }
        let ghost before = self.shards@;
        self.shards[shard].counts.count_deallocation(size);
        self.totals.live_bytes = self.totals.live_bytes.wrapping_sub(size);
        proof {
            assert forall|at: int| 0 <= at < self.shards@.len() implies (#[trigger] self.shards@[at]).counts@.shape() by {
                if at != shard {
                    assert(self.shards@[at] == before[at]);
                }
            }
        }
    }

    pub fn record_small_allocation(
        &mut self,
        thread: &ThreadTelemetry,
        shard: usize,
        class: usize,
        block_bytes: usize,
        requested_bytes: usize,
    )
        requires
            old(self).wf(),
            shard < old(self).shards@.len(),
            class < MAX_SIZE_CLASSES,
            old(self).totals.live_bytes + requested_bytes <= usize::MAX,
        ensures
            final(self).wf(),
            thread.suppression_depth != 0 ==> *final(self) == *old(self),
            thread.suppression_depth == 0 ==> final(self).changes_shard(old(self), shard as int) && final(self).shards@[shard as int].counts@
                == old(self).shards@[shard as int].counts@.with_small_allocation(class as int, block_bytes, requested_bytes)
                && final(self).totals == old(self).totals.with_live(requested_bytes),
    {
        if thread.suppressed() {
            return ;
        }
        let ghost before = self.shards@;
        self.shards[shard].counts.count_allocation(requested_bytes);
        self.shards[shard].counts.class_block_bytes.set(class, block_bytes);
        add_at(&mut self.shards[shard].counts.class_allocations, class, 1);
        add_at(&mut self.shards[shard].counts.class_allocated_bytes, class, requested_bytes);
        self.count_live(requested_bytes);
        proof {
            assert forall|at: int| 0 <= at < self.shards@.len() implies (#[trigger] self.shards@[at]).counts@.shape() by {
                if at != shard {
                    assert(self.shards@[at] == before[at]);
                }
            }
        }
    }

    pub fn record_small_deallocation(&mut self, thread: &ThreadTelemetry, shard: usize, class: usize, requested_bytes: usize)
        requires
            old(self).wf(),
            shard < old(self).shards@.len(),
            class < MAX_SIZE_CLASSES,
        ensures
            final(self).wf(),
            thread.suppression_depth != 0 ==> *final(self) == *old(self),
            thread.suppression_depth == 0 ==> final(self).changes_shard(old(self), shard as int) && final(self).shards@[shard as int].counts@
                == old(self).shards@[shard as int].counts@.with_small_deallocation(class as int, requested_bytes)
                && final(self).totals == old(self).totals.without_live(requested_bytes),
    {
        if thread.suppressed() {
            return ;
        }
        let ghost before = self.shards@;
        self.shards[shard].counts.count_deallocation(requested_bytes);
        add_at(&mut self.shards[shard].counts.class_deallocations, class, 1);
        add_at(&mut self.shards[shard].counts.class_deallocated_bytes, class, requested_bytes);
        self.totals.live_bytes = self.totals.live_bytes.wrapping_sub(requested_bytes);
        proof {
            assert forall|at: int| 0 <= at < self.shards@.len() implies (#[trigger] self.shards@[at]).counts@.shape() by {
                if at != shard {
                    assert(self.shards@[at] == before[at]);
                }
            }
        }
    }

    /// The counts of all threads taken together, where anything was counted.
    pub fn aggregate_snapshot(&self) -> (snapshot: Option<Counts>)
        requires
            self.wf(),
        ensures
            snapshot is Some <==> self.totals.available,
            snapshot matches Some(snapshot) ==> snapshot@ == merged_shards(shard_models(self.shards@)) && snapshot@.shape(),
    {
        if !self.totals.available {
            return None;
        }
        let ghost models = shard_models(self.shards@);
        let mut snapshot = Counts::new();
        let mut at: usize = 0;
        assert(models.take(0) =~= Seq::empty());
        while at < self.shards.len()
            invariant
                self.wf(),
                models == shard_models(self.shards@),
                at <= self.shards@.len(),
                snapshot@.shape(),
                snapshot@ == merged_shards(models.take(at as int)),
            decreases self.shards@.len() - at,
        {
            assert(self.shards@[at as int].counts@.shape());
            snapshot.merge(&self.shards[at].counts);
            proof {
                assert(models.take(at + 1).drop_last() =~= models.take(at as int));
                assert(models.take(at + 1).last() == self.shards@[at as int].counts@);
            }
            at = at + 1;
        }
        assert(models.take(at as int) =~= models);
        Some(snapshot)
    }

    pub open spec fn stats_of(totals: Totals, counts: CountsModel) -> Stats {
        Stats {
            allocated_bytes: counts.allocated_bytes,
            deallocated_bytes: counts.deallocated_bytes,
            live_bytes: totals.live_bytes,
            peak_live_bytes: totals.peak_live_bytes,
            mapped_bytes: (totals.mapped_bytes + totals.bump_committed_bytes) as usize,
            os_mappings: totals.os_mappings,
            os_unmappings: totals.os_unmappings,
            allocations: counts.allocations,
            deallocations: counts.deallocations,
            remote_frees: totals.remote_frees,
            pending_remote_blocks: totals.pending_remote_blocks,
            remote_pushes_in_progress: totals.remote_pushes_in_progress,
            drained_remote_blocks: totals.drained_remote_blocks,
        }
    }

    pub fn aggregate_stats(&self, counts: &Counts) -> (stats: Stats)
        requires
            self.totals.mapped_bytes + self.totals.bump_committed_bytes <= usize::MAX,
        ensures
            stats == Aggregates::stats_of(self.totals, counts@),
    {
        Stats {
            allocated_bytes: counts.allocated_bytes,
            deallocated_bytes: counts.deallocated_bytes,
            live_bytes: self.totals.live_bytes,
            peak_live_bytes: self.totals.peak_live_bytes,
            mapped_bytes: self.totals.mapped_bytes + self.totals.bump_committed_bytes,
            os_mappings: self.totals.os_mappings,
            os_unmappings: self.totals.os_unmappings,
            allocations: counts.allocations,
            deallocations: counts.deallocations,
            remote_frees: self.totals.remote_frees,
            pending_remote_blocks: self.totals.pending_remote_blocks,
            remote_pushes_in_progress: self.totals.remote_pushes_in_progress,
            drained_remote_blocks: self.totals.drained_remote_blocks,
        }
    }
}

/// The totals of the process, where anything was counted.
pub fn stats(aggregates: &Aggregates) -> (stats: Option<Stats>)
    requires
        aggregates.wf(),
        aggregates.totals.mapped_bytes + aggregates.totals.bump_committed_bytes <= usize::MAX,
    ensures
        stats is Some <==> aggregates.totals.available,
        stats matches Some(stats) ==> stats == Aggregates::stats_of(
            aggregates.totals,
            merged_shards(shard_models(aggregates.shards@)),
        ),
{
    match aggregates.aggregate_snapshot() {
        None => None,
        Some(counts) => Some(aggregates.aggregate_stats(&counts)),
    }
}

/// A size class as telemetry shows it.
#[derive(Clone, Copy, Debug, PartialEq, Eq, Structural)]
pub struct SizeClassSnapshot {
    pub class_index: usize,
    pub block_bytes: usize,
    pub live_allocations: Estimate<usize>,
    pub requested_bytes: Estimate<usize>,
    pub usable_bytes: Estimate<usize>,
}

/// The product, or the largest number where that is larger.
pub open spec fn limited_product(left: int, right: int) -> int {
    if left * right > usize::MAX {
        usize::MAX as int
    } else {
        left * right
    }
}

fn saturating_product(left: usize, right: usize) -> (product: usize)
    ensures
        product == limited_product(left as int, right as int),
{
    match left.checked_mul(right) {
        Some(product) => product,
        None => usize::MAX,
    }
}

/// What is live between two points in time: what came before the first and was not gone by the
/// second at least, what came before the second and was not gone by the first at most.
pub open spec fn live_between(up_before: usize, down_before: usize, up_after: usize, down_after: usize) -> Estimate<usize> {
    Estimate {
        value: rise(down_after as int, up_after as int) as usize,
        lower_bound: rise(down_after as int, up_before as int) as usize,
        upper_bound: rise(down_before as int, up_after as int) as usize,
    }
}

pub open spec fn class_bytes(before: CountsModel, after: CountsModel, class: int) -> usize {
    if before.class_block_bytes[class] < after.class_block_bytes[class] {
        after.class_block_bytes[class]
    } else {
        before.class_block_bytes[class]
    }
}

pub open spec fn class_shown(before: CountsModel, after: CountsModel, class: int) -> SizeClassSnapshot {
    let block_bytes = class_bytes(before, after, class);
    let live = live_between(
        before.class_allocations[class],
        before.class_deallocations[class],
        after.class_allocations[class],
        after.class_deallocations[class],
    );
    SizeClassSnapshot {
        class_index: class as usize,
        block_bytes,
        live_allocations: live,
        requested_bytes: live_between(
            before.class_allocated_bytes[class],
            before.class_deallocated_bytes[class],
            after.class_allocated_bytes[class],
            after.class_deallocated_bytes[class],
        ),
        usable_bytes: Estimate {
            value: limited_product(live.value as int, block_bytes as int) as usize,
            lower_bound: limited_product(live.lower_bound as int, block_bytes as int) as usize,
            upper_bound: limited_product(live.upper_bound as int, block_bytes as int) as usize,
        },
    }
}

/// The first classes that were used.
pub open spec fn classes_shown(before: CountsModel, after: CountsModel, count: int) -> Seq<SizeClassSnapshot>
    decreases count,
{
    if count <= 0 {
        Seq::empty()
    } else if class_bytes(before, after, count - 1) == 0 {
        classes_shown(before, after, count - 1)
    } else {
        classes_shown(before, after, count - 1).push(class_shown(before, after, count - 1))
    }
}

/// Shows the classes that were used, from counts taken before and after.
pub fn size_class_snapshots(before: &Counts, after: &Counts) -> (classes: Vec<SizeClassSnapshot>)
    requires
        before@.shape(),
        after@.shape(),
    ensures
        classes@ == classes_shown(before@, after@, MAX_SIZE_CLASSES as int),
{
    let mut classes: Vec<SizeClassSnapshot> = Vec::new();
    let mut class: usize = 0;
    while class < MAX_SIZE_CLASSES
        invariant
            before@.shape(),
            after@.shape(),
            class <= MAX_SIZE_CLASSES,
            classes@ == classes_shown(before@, after@, class as int),
        decreases MAX_SIZE_CLASSES - class,
    {
        let block_bytes: usize = if before.class_block_bytes[class] < after.class_block_bytes[class] {
            after.class_block_bytes[class]
        } else {
            before.class_block_bytes[class]
        };
        if block_bytes != 0 {
            let allocations: usize = after.class_allocations[class];
            let deallocations: usize = after.class_deallocations[class];
            let live_allocations = Estimate::bounded(
                allocations.saturating_sub(deallocations),
                before.class_allocations[class].saturating_sub(deallocations),
                allocations.saturating_sub(before.class_deallocations[class]),
            );
            let allocated: usize = after.class_allocated_bytes[class];
            let deallocated: usize = after.class_deallocated_bytes[class];
            let requested_bytes = Estimate::bounded(
                allocated.saturating_sub(deallocated),
                before.class_allocated_bytes[class].saturating_sub(deallocated),
                allocated.saturating_sub(before.class_deallocated_bytes[class]),
            );
            let usable_bytes = Estimate::bounded(
                saturating_product(live_allocations.value, block_bytes),
                saturating_product(live_allocations.lower_bound, block_bytes),
                saturating_product(live_allocations.upper_bound, block_bytes),
            );
            classes.push(
                SizeClassSnapshot { class_index: class, block_bytes, live_allocations, requested_bytes, usable_bytes },
            );
        }
        class = class + 1;
    }
    classes
}

/// While counts only rise, what a class shows as live lies within its bounds.
pub proof fn law_class_estimates_hold_their_value(before: CountsModel, after: CountsModel, class: int)
    requires
        before.class_allocations[class] <= after.class_allocations[class],
        before.class_deallocations[class] <= after.class_deallocations[class],
        before.class_allocated_bytes[class] <= after.class_allocated_bytes[class],
        before.class_deallocated_bytes[class] <= after.class_deallocated_bytes[class],
    ensures
        ({
            let shown = class_shown(before, after, class);
            &&& shown.live_allocations.lower_bound <= shown.live_allocations.value <= shown.live_allocations.upper_bound
            &&& shown.requested_bytes.lower_bound <= shown.requested_bytes.value <= shown.requested_bytes.upper_bound
            &&& shown.usable_bytes.lower_bound <= shown.usable_bytes.value <= shown.usable_bytes.upper_bound
        }),
{
    let shown = class_shown(before, after, class);
    let live = shown.live_allocations;
    let bytes = shown.block_bytes as int;
    assert(live.lower_bound * bytes <= live.value * bytes && live.value * bytes <= live.upper_bound * bytes && 0 <= live.lower_bound
        * bytes) by (nonlinear_arith)
        requires
            0 <= live.lower_bound <= live.value <= live.upper_bound,
            bytes >= 0,
    ;
}

} // verus!
