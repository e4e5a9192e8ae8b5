//! What holds of the counters over any number of calls.

use vstd::prelude::*;
use vstd::arithmetic::power2::{lemma_pow2_unfold, pow2};

use crate::sorting::{in_order, sorts};
use crate::telemetry::addresses::{first_column, first_filename, first_line, first_name, Symbol};
use crate::telemetry::aggregates::{
    bit_length, class_shown, classes_shown, merged_shards, Aggregates, CountsModel, SizeClassSnapshot, Totals,
    HISTOGRAM_BUCKETS,
};
use crate::telemetry::callers::{
    event_keys, names_of, names_thread, ordered_events, session_counts, session_events, NameModel,
};
use crate::telemetry::events::{EventKind, EventModel, TrackingRecord};
use crate::telemetry::log::TrackingState;
use crate::telemetry::stats::{delta_between, Stats};
use crate::tunables::MAX_SIZE_CLASSES;

verus! {

/// What happens to the bytes in use.
pub ghost enum Counted {
    Allocated { size: usize },
    Freed { size: usize },
}

/// The bytes in use after the first events: those allocated, without those freed.
pub open spec fn running(events: Seq<Counted>, count: int) -> int
    decreases count,
{
    if count <= 0 {
        0
    } else {
        running(events, count - 1) + match events[count - 1] {
            Counted::Allocated { size } => size as int,
            Counted::Freed { size } => -(size as int),
        }
    }
}

/// Whether the totals are those that the events lead through, from none on.
pub open spec fn counted_through(totals: Seq<Totals>, events: Seq<Counted>) -> bool {
    &&& totals.len() == events.len() + 1
    &&& totals[0].live_bytes == 0 && totals[0].peak_live_bytes == 0
    &&& forall|at: int|
        #![trigger events[at]]
        0 <= at < events.len() ==> match events[at] {
            Counted::Allocated { size } => totals[at + 1] == totals[at].with_live(size),
            Counted::Freed { size } => totals[at + 1] == totals[at].without_live(size),
        }
}

/// The live bytes are what was allocated without what was freed, and their peak is the highest that
/// they have been: never below them, and reached at some time.
pub proof fn law_the_peak_is_the_highest_that_live_bytes_were(totals: Seq<Totals>, events: Seq<Counted>, count: int)
    requires
        counted_through(totals, events),
        0 <= count <= events.len(),
        forall|at: int| 0 <= at <= events.len() ==> 0 <= #[trigger] running(events, at) <= usize::MAX,
    ensures
        totals[count].live_bytes == running(events, count),
        totals[count].live_bytes <= totals[count].peak_live_bytes,
        forall|at: int| 0 <= at <= count ==> #[trigger] running(events, at) <= totals[count].peak_live_bytes,
        exists|at: int| 0 <= at <= count && #[trigger] running(events, at) == totals[count].peak_live_bytes,
    decreases count,
{
    if count > 0 {
        law_the_peak_is_the_highest_that_live_bytes_were(totals, events, count - 1);
        let before = totals[count - 1];
        let after = totals[count];
        let event = events[count - 1];
        assert(0 <= running(events, count) <= usize::MAX);
        assert(0 <= running(events, count - 1) <= usize::MAX);
        let at = choose|at: int| 0 <= at <= count - 1 && #[trigger] running(events, at) == before.peak_live_bytes;
        match event {
            Counted::Allocated { size } => {
                assert(after == before.with_live(size));
                assert(after.live_bytes == running(events, count));
                if after.peak_live_bytes == before.peak_live_bytes {
                    assert(running(events, at) == after.peak_live_bytes);
                } else {
                    assert(running(events, count) == after.peak_live_bytes);
                }
            },
            Counted::Freed { size } => {
                assert(after == before.without_live(size));
                assert(after.live_bytes == running(events, count));
                assert(running(events, at) == after.peak_live_bytes);
            },
        }
        assert forall|at: int| 0 <= at <= count implies #[trigger] running(events, at) <= after.peak_live_bytes by {
            if at < count {
                assert(running(events, at) <= before.peak_live_bytes);
            }
        }
    } else {
        assert(running(events, 0) == 0);
    }
}

/// A counter of live bytes changes nothing else.
pub proof fn law_live_bytes_are_counted_apart(totals: Totals, size: usize)
    ensures
        totals.with_live(size) == (Totals {
            live_bytes: totals.with_live(size).live_bytes,
            peak_live_bytes: totals.with_live(size).peak_live_bytes,
            ..totals
        }),
        totals.without_live(size) == (Totals { live_bytes: totals.without_live(size).live_bytes, ..totals }),
{
}

/// Whether the size belongs into the bucket: into the first where it is nothing, and otherwise where
/// its highest bit is the bucket's.
pub open spec fn belongs(size: int, bucket: int) -> bool {
    if size == 0 {
        bucket == 0
    } else {
        0 < bucket && pow2((bucket - 1) as nat) <= size < pow2(bucket as nat)
    }
}

/// Every size belongs into one bucket, and there is one for each.
pub proof fn law_sizes_have_one_bucket(size: int, bucket: int)
    requires
        0 <= size <= u64::MAX,
    ensures
        belongs(size, bit_length(size)),
        0 <= bit_length(size) < HISTOGRAM_BUCKETS,
        belongs(size, bucket) ==> bucket == bit_length(size),
{
    lemma_bit_length_bounds(size);
    vstd::arithmetic::power2::lemma2_to64();
    let bits = bit_length(size);
    if bits > 64 {
        vstd::arithmetic::power2::lemma_pow2_strictly_increases(64, bits as nat);
        if bits > 65 {
            vstd::arithmetic::power2::lemma_pow2_strictly_increases(64, (bits - 1) as nat);
        }
    }
    if size > 0 && belongs(size, bucket) {
        if bucket < bits {
            if bucket < bits - 1 {
                vstd::arithmetic::power2::lemma_pow2_strictly_increases(bucket as nat, (bits - 1) as nat);
            }
        } else if bits < bucket {
            if bits < bucket - 1 {
                vstd::arithmetic::power2::lemma_pow2_strictly_increases(bits as nat, (bucket - 1) as nat);
            }
        }
    }
}

proof fn lemma_bit_length_bounds(number: int)
    requires
        0 <= number,
    ensures
        0 <= bit_length(number),
        belongs(number, bit_length(number)),
    decreases number,
{
    if number > 0 {
        lemma_bit_length_bounds(number / 2);
        let bits = bit_length(number / 2);
        vstd::arithmetic::power2::lemma2_to64();
        lemma_pow2_unfold((bits + 1) as nat);
        if bits > 0 {
            lemma_pow2_unfold(bits as nat);
        }
    }
}

/// Whether the list differs from the other at the place alone, where it is that much higher.
pub open spec fn raised(before: Seq<usize>, after: Seq<usize>, place: int, value: int) -> bool {
    &&& after.len() == before.len()
    &&& forall|at: int|
        #![trigger after[at]]
        0 <= at < before.len() && at != place ==> after[at] == before[at]
    &&& before[place] + value <= usize::MAX ==> after[place] == before[place] + value
}

/// Whether the list differs from the other at the place alone, where it is one higher or lower.
pub open spec fn moved(before: Seq<isize>, after: Seq<isize>, place: int, value: int) -> bool {
    &&& after.len() == before.len()
    &&& forall|at: int|
        #![trigger after[at]]
        0 <= at < before.len() && at != place ==> after[at] == before[at]
    &&& isize::MIN <= before[place] + value <= isize::MAX ==> after[place] == before[place] + value
}

/// An allocation is counted once, with its bytes, and in the bucket of its size. A block of a class is
/// also counted under its class, whose block size is known then. Nothing that is gone is counted.
pub proof fn law_allocations_are_counted_once(counts: CountsModel, class: int, block_bytes: usize, size: usize)
    requires
        counts.shape(),
        0 <= class < MAX_SIZE_CLASSES,
    ensures
        ({
            let plain = counts.with_allocation(size);
            let small = counts.with_small_allocation(class, block_bytes, size);
            let bucket = bit_length(size as int);
            &&& counts.allocations < usize::MAX ==> plain.allocations == counts.allocations + 1
            &&& counts.allocated_bytes + size <= usize::MAX ==> plain.allocated_bytes == counts.allocated_bytes + size
            &&& plain.deallocations == counts.deallocations
            &&& plain.deallocated_bytes == counts.deallocated_bytes
            &&& raised(counts.size_allocations, plain.size_allocations, bucket, 1)
            &&& moved(counts.size_live, plain.size_live, bucket, 1)
            &&& plain.class_block_bytes == counts.class_block_bytes
            &&& plain.class_allocations == counts.class_allocations
            &&& plain.class_deallocations == counts.class_deallocations
            &&& plain.class_allocated_bytes == counts.class_allocated_bytes
            &&& plain.class_deallocated_bytes == counts.class_deallocated_bytes
            &&& small.allocations == plain.allocations
            &&& small.allocated_bytes == plain.allocated_bytes
            &&& small.deallocations == counts.deallocations
            &&& small.deallocated_bytes == counts.deallocated_bytes
            &&& small.size_allocations == plain.size_allocations
            &&& small.size_live == plain.size_live
            &&& small.class_block_bytes[class] == block_bytes
            &&& small.class_block_bytes.len() == counts.class_block_bytes.len()
            &&& forall|other: int|
                #![trigger small.class_block_bytes[other]]
                0 <= other < MAX_SIZE_CLASSES && other != class ==> small.class_block_bytes[other] == counts.class_block_bytes[other]
            &&& raised(counts.class_allocations, small.class_allocations, class, 1)
            &&& raised(counts.class_allocated_bytes, small.class_allocated_bytes, class, size as int)
            &&& small.class_deallocations == counts.class_deallocations
            &&& small.class_deallocated_bytes == counts.class_deallocated_bytes
        }),
{
    law_sizes_have_one_bucket(size as int, 0);
}

/// A deallocation is counted once, with its bytes, and takes one block out of the bucket of its size.
/// A block of a class is also counted under its class. What was allocated stays counted.
pub proof fn law_deallocations_are_counted_once(counts: CountsModel, class: int, size: usize)
    requires
        counts.shape(),
        0 <= class < MAX_SIZE_CLASSES,
    ensures
        ({
            let plain = counts.with_deallocation(size);
            let small = counts.with_small_deallocation(class, size);
            let bucket = bit_length(size as int);
            &&& counts.deallocations < usize::MAX ==> plain.deallocations == counts.deallocations + 1
            &&& counts.deallocated_bytes + size <= usize::MAX ==> plain.deallocated_bytes == counts.deallocated_bytes + size
            &&& plain.allocations == counts.allocations
            &&& plain.allocated_bytes == counts.allocated_bytes
            &&& plain.size_allocations == counts.size_allocations
            &&& moved(counts.size_live, plain.size_live, bucket, -1)
            &&& plain.class_block_bytes == counts.class_block_bytes
            &&& plain.class_allocations == counts.class_allocations
            &&& plain.class_deallocations == counts.class_deallocations
            &&& plain.class_allocated_bytes == counts.class_allocated_bytes
            &&& plain.class_deallocated_bytes == counts.class_deallocated_bytes
            &&& small.deallocations == plain.deallocations
            &&& small.deallocated_bytes == plain.deallocated_bytes
            &&& small.allocations == counts.allocations
            &&& small.allocated_bytes == counts.allocated_bytes
            &&& small.size_allocations == counts.size_allocations
            &&& small.size_live == plain.size_live
            &&& small.class_block_bytes == counts.class_block_bytes
            &&& small.class_allocations == counts.class_allocations
            &&& small.class_allocated_bytes == counts.class_allocated_bytes
            &&& raised(counts.class_deallocations, small.class_deallocations, class, 1)
            &&& raised(counts.class_deallocated_bytes, small.class_deallocated_bytes, class, size as int)
        }),
{
    law_sizes_have_one_bucket(size as int, 0);
}

/// The sum of one count over the shards.
pub open spec fn summed(shards: Seq<CountsModel>, count: spec_fn(CountsModel) -> int) -> int
    decreases shards.len(),
{
    if shards.len() == 0 {
        0
    } else {
        summed(shards.drop_last(), count) + count(shards.last())
    }
}

/// Whether the sum fits into a machine word.
pub open spec fn sum_fits(shards: Seq<CountsModel>, count: spec_fn(CountsModel) -> int) -> bool {
    summed(shards, count) <= usize::MAX
}

proof fn lemma_summed(shards: Seq<CountsModel>, count: spec_fn(CountsModel) -> int)
    requires
        forall|own: CountsModel| 0 <= #[trigger] count(own),
    ensures
        0 <= summed(shards, count),
    decreases shards.len(),
{
    if shards.len() > 0 {
        lemma_summed(shards.drop_last(), count);
        assert(0 <= count(shards.last()));
    }
}

/// The counts of the process are the sums of the counts of all threads, each of them, and under each
/// class and in each bucket. The block size of a class is one that a thread knows.
pub proof fn law_threads_are_counted_together(shards: Seq<CountsModel>, class: int, bucket: int)
    requires
        forall|at: int| 0 <= at < shards.len() ==> (#[trigger] shards[at]).shape(),
        0 <= class < MAX_SIZE_CLASSES,
        0 <= bucket < HISTOGRAM_BUCKETS,
    ensures
        ({
            let all = merged_shards(shards);
            let allocations = |own: CountsModel| own.allocations as int;
            let deallocations = |own: CountsModel| own.deallocations as int;
            let allocated = |own: CountsModel| own.allocated_bytes as int;
            let deallocated = |own: CountsModel| own.deallocated_bytes as int;
            let up = |own: CountsModel| own.class_allocations[class] as int;
            let down = |own: CountsModel| own.class_deallocations[class] as int;
            let up_bytes = |own: CountsModel| own.class_allocated_bytes[class] as int;
            let down_bytes = |own: CountsModel| own.class_deallocated_bytes[class] as int;
            let sized = |own: CountsModel| own.size_allocations[bucket] as int;
            &&& all.shape()
            &&& sum_fits(shards, allocations) ==> all.allocations == summed(shards, allocations)
            &&& sum_fits(shards, deallocations) ==> all.deallocations == summed(shards, deallocations)
            &&& sum_fits(shards, allocated) ==> all.allocated_bytes == summed(shards, allocated)
            &&& sum_fits(shards, deallocated) ==> all.deallocated_bytes == summed(shards, deallocated)
            &&& sum_fits(shards, up) ==> all.class_allocations[class] == summed(shards, up)
            &&& sum_fits(shards, down) ==> all.class_deallocations[class] == summed(shards, down)
            &&& sum_fits(shards, up_bytes) ==> all.class_allocated_bytes[class] == summed(shards, up_bytes)
            &&& sum_fits(shards, down_bytes) ==> all.class_deallocated_bytes[class] == summed(shards, down_bytes)
            &&& sum_fits(shards, sized) ==> all.size_allocations[bucket] == summed(shards, sized)
            &&& forall|at: int| 0 <= at < shards.len() ==> (#[trigger] shards[at]).class_block_bytes[class] <= all.class_block_bytes[class]
            &&& all.class_block_bytes[class] == 0 || exists|at: int|
                0 <= at < shards.len() && (#[trigger] shards[at]).class_block_bytes[class] == all.class_block_bytes[class]
        }),
    decreases shards.len(),
{
    if shards.len() > 0 {
        let earlier = shards.drop_last();
        let last = shards.len() - 1;
        assert forall|at: int| 0 <= at < earlier.len() implies (#[trigger] earlier[at]).shape() by {
            assert(earlier[at] == shards[at]);
        }
        assert(shards[last].shape());
        law_threads_are_counted_together(earlier, class, bucket);
        let before = merged_shards(earlier);
        let all = merged_shards(shards);
        lemma_summed(earlier, |own: CountsModel| own.allocations as int);
        lemma_summed(earlier, |own: CountsModel| own.deallocations as int);
        lemma_summed(earlier, |own: CountsModel| own.allocated_bytes as int);
        lemma_summed(earlier, |own: CountsModel| own.deallocated_bytes as int);
        lemma_summed(earlier, |own: CountsModel| own.class_allocations[class] as int);
        lemma_summed(earlier, |own: CountsModel| own.class_deallocations[class] as int);
        lemma_summed(earlier, |own: CountsModel| own.class_allocated_bytes[class] as int);
        lemma_summed(earlier, |own: CountsModel| own.class_deallocated_bytes[class] as int);
        lemma_summed(earlier, |own: CountsModel| own.size_allocations[bucket] as int);
        assert forall|at: int| 0 <= at < shards.len() implies (#[trigger] shards[at]).class_block_bytes[class]
            <= all.class_block_bytes[class] by {
            if at < last {
                assert(earlier[at] == shards[at]);
            }
        }
        if all.class_block_bytes[class] == before.class_block_bytes[class] {
            if before.class_block_bytes[class] != 0 {
                let at = choose|at: int|
                    0 <= at < earlier.len() && (#[trigger] earlier[at]).class_block_bytes[class] == before.class_block_bytes[class];
                assert(shards[at] == earlier[at]);
            }
        } else {
            assert(shards[last].class_block_bytes[class] == all.class_block_bytes[class]);
        }
    }
}

/// The totals of the process report what was counted, each under its name. What is mapped is what is
/// mapped for blocks, and what bump heaps have committed.
pub proof fn law_totals_report_what_was_counted(totals: Totals, counts: CountsModel)
    requires
        totals.mapped_bytes + totals.bump_committed_bytes <= usize::MAX,
    ensures
        ({
            let stats = Aggregates::stats_of(totals, counts);
            &&& stats.allocations == counts.allocations
            &&& stats.deallocations == counts.deallocations
            &&& stats.allocated_bytes == counts.allocated_bytes
            &&& stats.deallocated_bytes == counts.deallocated_bytes
            &&& stats.live_bytes == totals.live_bytes
            &&& stats.peak_live_bytes == totals.peak_live_bytes
            &&& stats.mapped_bytes == totals.mapped_bytes + totals.bump_committed_bytes
            &&& stats.os_mappings == totals.os_mappings
            &&& stats.os_unmappings == totals.os_unmappings
            &&& stats.remote_frees == totals.remote_frees
            &&& stats.pending_remote_blocks == totals.pending_remote_blocks
            &&& stats.remote_pushes_in_progress == totals.remote_pushes_in_progress
            &&& stats.drained_remote_blocks == totals.drained_remote_blocks
        }),
{
}

/// A mapping raises what is mapped by its size and the number of mappings by one, and an unmapping of
/// the same size takes the bytes off again and is counted itself.
pub proof fn law_unmapping_takes_a_mapping_off(totals: Totals, size: usize)
    ensures
        totals.mapped_bytes + size <= usize::MAX ==> totals.mapped(size).mapped_bytes == totals.mapped_bytes + size,
        totals.os_mappings < usize::MAX ==> totals.mapped(size).os_mappings == totals.os_mappings + 1,
        totals.os_unmappings < usize::MAX ==> totals.unmapped(size).os_unmappings == totals.os_unmappings + 1,
        totals.unmapped(size).os_mappings == totals.os_mappings,
        totals.mapped(size).os_unmappings == totals.os_unmappings,
        totals.mapped(size).available,
        size <= totals.mapped_bytes ==> totals.unmapped(size).mapped_bytes == totals.mapped_bytes - size,
        totals.mapped_bytes + size <= usize::MAX ==> totals.mapped(size).unmapped(size).mapped_bytes == totals.mapped_bytes,
        totals.mapped(size).live_bytes == totals.live_bytes && totals.unmapped(size).live_bytes == totals.live_bytes,
        totals.mapped(size).peak_live_bytes == totals.peak_live_bytes && totals.unmapped(size).peak_live_bytes
            == totals.peak_live_bytes,
{
}

/// How far one count rose: by the difference, and not at all where it fell.
pub open spec fn rose(initial: usize, current: usize, delta: usize) -> bool {
    if initial <= current {
        initial + delta == current
    } else {
        delta == 0
    }
}

/// An interval shows of every count how far it rose.
pub proof fn law_intervals_show_the_difference(initial: Stats, current: Stats)
    ensures
        ({
            let delta = delta_between(initial, current);
            &&& rose(initial.allocated_bytes, current.allocated_bytes, delta.allocated_bytes)
            &&& rose(initial.deallocated_bytes, current.deallocated_bytes, delta.deallocated_bytes)
            &&& rose(initial.allocations, current.allocations, delta.allocations)
            &&& rose(initial.deallocations, current.deallocations, delta.deallocations)
            &&& rose(initial.os_mappings, current.os_mappings, delta.mappings)
            &&& rose(initial.os_unmappings, current.os_unmappings, delta.unmappings)
            &&& rose(initial.remote_frees, current.remote_frees, delta.remote_frees)
            &&& rose(initial.drained_remote_blocks, current.drained_remote_blocks, delta.drained_remote_blocks)
        }),
{
}

/// A class shows the blocks that were allocated and are not freed, the bytes that were asked for with
/// them, and as usable so many blocks of the class.
pub proof fn law_classes_show_what_is_live(before: CountsModel, after: CountsModel, class: int)
    requires
        0 <= class < MAX_SIZE_CLASSES,
        before.shape(),
        after.shape(),
    ensures
        ({
            let shown = class_shown(before, after, class);
            &&& shown.class_index == class
            &&& shown.block_bytes >= before.class_block_bytes[class] && shown.block_bytes >= after.class_block_bytes[class]
            &&& shown.block_bytes == before.class_block_bytes[class] || shown.block_bytes == after.class_block_bytes[class]
            &&& rose(after.class_deallocations[class], after.class_allocations[class], shown.live_allocations.value)
            &&& rose(after.class_deallocations[class], before.class_allocations[class], shown.live_allocations.lower_bound)
            &&& rose(before.class_deallocations[class], after.class_allocations[class], shown.live_allocations.upper_bound)
            &&& rose(after.class_deallocated_bytes[class], after.class_allocated_bytes[class], shown.requested_bytes.value)
            &&& rose(after.class_deallocated_bytes[class], before.class_allocated_bytes[class], shown.requested_bytes.lower_bound)
            &&& rose(before.class_deallocated_bytes[class], after.class_allocated_bytes[class], shown.requested_bytes.upper_bound)
            &&& shown.live_allocations.value * shown.block_bytes <= usize::MAX ==> shown.usable_bytes.value
                == shown.live_allocations.value * shown.block_bytes
            &&& shown.live_allocations.lower_bound * shown.block_bytes <= usize::MAX ==> shown.usable_bytes.lower_bound
                == shown.live_allocations.lower_bound * shown.block_bytes
            &&& shown.live_allocations.upper_bound * shown.block_bytes <= usize::MAX ==> shown.usable_bytes.upper_bound
                == shown.live_allocations.upper_bound * shown.block_bytes
        }),
{
    let shown = class_shown(before, after, class);
    lemma_products_positive(shown.live_allocations.value as int, shown.block_bytes as int);
    lemma_products_positive(shown.live_allocations.lower_bound as int, shown.block_bytes as int);
    lemma_products_positive(shown.live_allocations.upper_bound as int, shown.block_bytes as int);
}

proof fn lemma_products_positive(left: int, right: int)
    requires
        0 <= left,
        0 <= right,
    ensures
        0 <= left * right,
{
    assert(0 <= left * right) by (nonlinear_arith)
        requires
            0 <= left,
            0 <= right,
    ;
}

/// Whether the class was ever used.
pub open spec fn class_used(before: CountsModel, after: CountsModel, class: int) -> bool {
    before.class_block_bytes[class] != 0 || after.class_block_bytes[class] != 0
}

/// Whether the class is among those shown.
pub open spec fn class_listed(shown: Seq<SizeClassSnapshot>, own: SizeClassSnapshot) -> bool {
    exists|at: int| 0 <= at < shown.len() && #[trigger] shown[at] == own
}

/// The classes that were used are shown, in ascending order, and no other.
pub proof fn law_used_classes_are_shown(before: CountsModel, after: CountsModel, count: int)
    requires
        before.shape(),
        after.shape(),
        0 <= count <= MAX_SIZE_CLASSES,
    ensures
        ({
            let shown = classes_shown(before, after, count);
            &&& forall|class: int|
                0 <= class < count && class_used(before, after, class) ==> class_listed(shown, #[trigger] class_shown(before, after, class))
            &&& forall|at: int|
                #![trigger shown[at]]
                0 <= at < shown.len() ==> shown[at].class_index < count && class_used(before, after, shown[at].class_index as int)
                    && shown[at] == class_shown(before, after, shown[at].class_index as int)
            &&& forall|left: int, right: int|
                #![trigger shown[left], shown[right]]
                0 <= left < right < shown.len() ==> shown[left].class_index < shown[right].class_index
        }),
    decreases count,
{
    if count > 0 {
        law_used_classes_are_shown(before, after, count - 1);
        let earlier = classes_shown(before, after, count - 1);
        let shown = classes_shown(before, after, count);
        assert forall|class: int| 0 <= class < count && class_used(before, after, class) implies class_listed(
            shown,
            #[trigger] class_shown(before, after, class),
        ) by {
            let own = class_shown(before, after, class);
            if class < count - 1 {
                let at = choose|at: int| 0 <= at < earlier.len() && #[trigger] earlier[at] == own;
                assert(shown[at] == own);
            } else {
                assert(shown[earlier.len() as int] == own);
            }
        }
        if class_used(before, after, count - 1) {
            assert(shown == earlier.push(class_shown(before, after, count - 1)));
            assert forall|at: int|
                #![trigger shown[at]]
                0 <= at < shown.len() implies shown[at].class_index < count && class_used(before, after, shown[at].class_index as int)
                && shown[at] == class_shown(before, after, shown[at].class_index as int) by {
                if at < earlier.len() {
                    assert(shown[at] == earlier[at]);
                }
            }
            assert forall|left: int, right: int|
                #![trigger shown[left], shown[right]]
                0 <= left < right < shown.len() implies shown[left].class_index < shown[right].class_index by {
                assert(shown[left] == earlier[left]);
                if right < earlier.len() {
                    assert(shown[right] == earlier[right]);
                }
            }
        }
    }
}

/// The line of an address is that of the first symbol that has one.
pub proof fn law_the_first_line_counts(symbols: Seq<Symbol>, count: int)
    requires
        0 <= count <= symbols.len(),
    ensures
        match first_line(symbols, count) {
            Some(value) => exists|at: int|
                0 <= at < count && (#[trigger] symbols[at]).line == Some(value) && forall|earlier: int|
                    0 <= earlier < at ==> (#[trigger] symbols[earlier]).line is None,
            None => forall|at: int| 0 <= at < count ==> (#[trigger] symbols[at]).line is None,
        },
    decreases count,
{
    if count > 0 {
        law_the_first_line_counts(symbols, count - 1);
        assert(symbols[count - 1].line == symbols[count - 1].line);
    }
}

/// The column of an address is that of the first symbol that has one.
pub proof fn law_the_first_column_counts(symbols: Seq<Symbol>, count: int)
    requires
        0 <= count <= symbols.len(),
    ensures
        match first_column(symbols, count) {
            Some(value) => exists|at: int|
                0 <= at < count && (#[trigger] symbols[at]).column == Some(value) && forall|earlier: int|
                    0 <= earlier < at ==> (#[trigger] symbols[earlier]).column is None,
            None => forall|at: int| 0 <= at < count ==> (#[trigger] symbols[at]).column is None,
        },
    decreases count,
{
    if count > 0 {
        law_the_first_column_counts(symbols, count - 1);
        assert(symbols[count - 1].column == symbols[count - 1].column);
    }
}

/// The name of an address is that of the first symbol that has one.
pub proof fn law_the_first_name_counts(symbols: Seq<Symbol>, count: int)
    requires
        0 <= count <= symbols.len(),
    ensures
        match first_name(symbols, count) {
            Some(value) => exists|at: int|
                0 <= at < count && (#[trigger] symbols[at]).name == Some(value) && forall|earlier: int|
                    0 <= earlier < at ==> (#[trigger] symbols[earlier]).name is None,
            None => forall|at: int| 0 <= at < count ==> (#[trigger] symbols[at]).name is None,
        },
    decreases count,
{
    if count > 0 {
        law_the_first_name_counts(symbols, count - 1);
        assert(symbols[count - 1].name == symbols[count - 1].name);
    }
}

/// The file name of an address is that of the first symbol that has one.
pub proof fn law_the_first_filename_counts(symbols: Seq<Symbol>, count: int)
    requires
        0 <= count <= symbols.len(),
    ensures
        match first_filename(symbols, count) {
            Some(value) => exists|at: int|
                0 <= at < count && (#[trigger] symbols[at]).filename == Some(value) && forall|earlier: int|
                    0 <= earlier < at ==> (#[trigger] symbols[earlier]).filename is None,
            None => forall|at: int| 0 <= at < count ==> (#[trigger] symbols[at]).filename is None,
        },
    decreases count,
{
    if count > 0 {
        law_the_first_filename_counts(symbols, count - 1);
        assert(symbols[count - 1].filename == symbols[count - 1].filename);
    }
}

/// Whether a log of the session still holds the event: it is among the last that the log was given, as many
/// as the log has places for.
pub open spec fn still_held(log: TrackingState, session: usize, index: int, event: EventModel) -> bool {
    &&& log.session_id == session
    &&& 0 <= index < log.history@.len()
    &&& log.write_index - log.slots@.len() <= index
    &&& log.history@[index] == event
}

/// What is shown of a session is every event that one of its logs still holds, and no other. What its logs were
/// given is what is shown and what was lost.
#[verifier::spinoff_prover]
#[verifier::rlimit(60)]
pub proof fn law_sessions_show_what_their_logs_hold(logs: Seq<TrackingState>, session: usize, count: int, event: EventModel)
    requires
        0 <= count <= logs.len(),
        forall|at: int| 0 <= at < logs.len() ==> (#[trigger] logs[at]).wf(),
    ensures
        session_events(logs, session, count).contains(event) <==> exists|at: int, index: int|
            0 <= at < count && #[trigger] still_held(logs[at], session, index, event),
        session_counts(logs, session, count).0 == session_events(logs, session, count).len() + session_counts(logs, session, count).1,
    decreases count,
{
    let all = session_events(logs, session, count);
    if count > 0 {
        law_sessions_show_what_their_logs_hold(logs, session, count - 1, event);
        let earlier = session_events(logs, session, count - 1);
        let log = logs[count - 1];
        assert(log.wf());
        let own = log.history@.skip(log.first());
        if all.contains(event) {
            let place = choose|place: int| 0 <= place < all.len() && all[place] == event;
            if place < earlier.len() {
                assert(earlier[place] == event);
                assert(earlier.contains(event));
                let (at, index) = choose|at: int, index: int|
                    0 <= at < count - 1 && #[trigger] still_held(logs[at], session, index, event);
                assert(still_held(logs[at], session, index, event));
            } else {
                let index = log.first() + (place - earlier.len());
                assert(own[place - earlier.len()] == event);
                assert(still_held(logs[count - 1], session, index, event));
            }
        }
        if exists|at: int, index: int| 0 <= at < count && #[trigger] still_held(logs[at], session, index, event) {
            let (at, index) = choose|at: int, index: int| 0 <= at < count && #[trigger] still_held(logs[at], session, index, event);
            if at < count - 1 {
                assert(still_held(logs[at], session, index, event));
                assert(earlier.contains(event));
                let place = choose|place: int| 0 <= place < earlier.len() && earlier[place] == event;
                assert(all[place] == event);
            } else {
                assert(own[index - log.first()] == event);
                assert(all[earlier.len() + (index - log.first())] == event);
            }
        }
    }
}

/// The names shown are those of the threads that events name.
pub proof fn law_named_threads_are_those_of_events(names: Seq<NameModel>, events: Seq<EventModel>, name: NameModel)
    ensures
        names_of(names, events).contains(name) <==> names.contains(name) && exists|at: int|
            0 <= at < events.len() && (#[trigger] events[at]).event_thread_id == name.thread_id,
    decreases names.len(),
{
    if names.len() > 0 {
        let rest = names.drop_last();
        law_named_threads_are_those_of_events(rest, events, name);
        let shown = names_of(names, events);
        let earlier = names_of(rest, events);
        if shown.contains(name) {
            let at = choose|at: int| 0 <= at < shown.len() && shown[at] == name;
            if at < earlier.len() {
                assert(earlier[at] == name);
                assert(rest.contains(name));
                let place = choose|place: int| 0 <= place < rest.len() && rest[place] == name;
                assert(names[place] == name);
            } else {
                assert(names[names.len() - 1] == name);
            }
        }
        if names.contains(name) && names_thread(events, name.thread_id) {
            let place = choose|place: int| 0 <= place < names.len() && names[place] == name;
            if place < rest.len() {
                assert(rest[place] == name);
                assert(earlier.contains(name));
                let at = choose|at: int| 0 <= at < earlier.len() && earlier[at] == name;
                assert(shown[at] == name);
            } else {
                assert(shown[shown.len() - 1] == name);
            }
        }
    }
}

/// The events of a snapshot are those of its logs, each as often, by their logs and within a log by their numbers.
pub proof fn law_events_are_shown_in_order(all: Seq<EventModel>, events: Seq<EventModel>)
    requires
        ordered_events(all, events),
    ensures
        events.len() == all.len(),
        forall|left: int, right: int|
            #![trigger events[left], events[right]]
            0 <= left < right < events.len() ==> events[left].thread_log_id < events[right].thread_log_id || (events[left].thread_log_id
                == events[right].thread_log_id && events[left].sequence <= events[right].sequence),
        forall|at: int| #![trigger all[at]] 0 <= at < all.len() ==> events.contains(all[at]),
        forall|at: int| #![trigger events[at]] 0 <= at < events.len() ==> all.contains(events[at]),
{
    let order = choose|order: Seq<usize>|
        #[trigger] sorts(event_keys(all), order) && events == Seq::new(order.len(), |at: int| all[order[at] as int]);
    assert forall|left: int, right: int|
        #![trigger events[left], events[right]]
        0 <= left < right < events.len() implies events[left].thread_log_id < events[right].thread_log_id || (
    events[left].thread_log_id == events[right].thread_log_id && events[left].sequence <= events[right].sequence) by {
        let keys = event_keys(all);
        assert(order[left] < all.len() && order[right] < all.len());
        assert(in_order(keys[order[left] as int], keys[order[right] as int]));
    }
    let places = Seq::new(order.len(), |at: int| order[at] as int);
    let span = vstd::set_lib::set_int_range(0, all.len() as int);
    vstd::set_lib::lemma_int_range(0, all.len() as int);
    assert(places.no_duplicates()) by {
        assert forall|left: int, right: int| 0 <= left < right < places.len() implies places[left] != places[right] by {
            assert(order[left] != order[right]);
        }
    }
    places.unique_seq_to_set();
    assert(places.to_set().subset_of(span)) by {
        assert forall|place: int| places.to_set().contains(place) implies span.contains(place) by {
            let at = choose|at: int| 0 <= at < places.len() && places[at] == place;
            assert(order[at] < all.len());
        }
    }
    vstd::set_lib::lemma_subset_equality(places.to_set(), span);
    assert forall|at: int| #![trigger all[at]] 0 <= at < all.len() implies events.contains(all[at]) by {
        assert(span.contains(at));
        assert(places.contains(at));
        let place = choose|place: int| 0 <= place < places.len() && places[place] == at;
        assert(order[place] == at);
        assert(events[place] == all[at]);
    }
    assert forall|at: int| #![trigger events[at]] 0 <= at < events.len() implies all.contains(events[at]) by {
        assert(order[at] < all.len());
        assert(all[order[at] as int] == events[at]);
    }
}

/// A log is given an event with all that was recorded of it, under the next number, and counts it under its
/// size. It leaves out the thread and the heap where it is not to name them.
pub proof fn law_logs_are_given_what_was_recorded(before: TrackingState, after: TrackingState, record: TrackingRecord, call_stack: Seq<usize>)
    requires
        before.wf(),
        after.recorded(&before, record, call_stack),
        before.write_index < usize::MAX,
    ensures
        ({
            let event = after.history@.last();
            &&& after.history@.drop_last() == before.history@
            &&& event.sequence == before.history@.len() + 1
            &&& event.thread_log_id == before.thread_log_id
            &&& event.kind == record.kind
            &&& event.allocation_id == record.allocation_id
            &&& event.address == record.address
            &&& event.size == record.layout.size && event.align == record.layout.align
            &&& event.heap_kind == record.heap_kind
            &&& event.call_stack == call_stack
            &&& before.track_threads ==> event.event_thread_id == record.event_thread_id
            &&& !before.track_threads ==> event.event_thread_id == 0
            &&& before.track_heap_lifetimes ==> event.heap_id == record.heap_id && event.freed_after_heap_release
                == record.freed_after_heap_release
            &&& !before.track_heap_lifetimes ==> event.heap_id == 0 && !event.freed_after_heap_release
            &&& forall|bucket: int|
                #![trigger after.live_histogram@[bucket]]
                0 <= bucket < HISTOGRAM_BUCKETS && !belongs(record.layout.size as int, bucket) ==> after.live_histogram@[bucket]
                    == before.live_histogram@[bucket] && after.allocated_histogram@[bucket] == before.allocated_histogram@[bucket]
            &&& forall|bucket: int|
                #![trigger after.live_histogram@[bucket]]
                0 <= bucket < HISTOGRAM_BUCKETS && belongs(record.layout.size as int, bucket) ==> match record.kind {
                    EventKind::Allocated => after.live_histogram@[bucket] == before.live_histogram@[bucket].wrapping_add(1)
                        && after.allocated_histogram@[bucket] == before.allocated_histogram@[bucket].wrapping_add(1),
                    EventKind::Deallocated => after.live_histogram@[bucket] == before.live_histogram@[bucket].wrapping_sub(1)
                        && after.allocated_histogram@[bucket] == before.allocated_histogram@[bucket],
                }
        }),
{
    let size = record.layout.size as int;
    law_sizes_have_one_bucket(size, 0);
    assert(after.history@.drop_last() =~= before.history@);
    assert forall|bucket: int| #[trigger] belongs(size, bucket) implies bucket == bit_length(size) by {
        law_sizes_have_one_bucket(size, bucket);
    }
}

} // verus!
