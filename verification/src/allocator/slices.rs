//! The slices of a region: which are in use, and the free extents among those that are kept.

use vstd::prelude::*;

use crate::allocator::classes::{MEDIUM_REGION_BITMAP_WORDS, MEDIUM_REGION_SLICE_COUNT};
use crate::bits::{bit, bits_of, test_bit, with_bit, without_bit};

verus! {

/// The slices from `start` on, `count` of them.
pub open spec fn span(start: int, count: int) -> Set<int> {
    Set::new(|slice: int| start <= slice < start + count)
}

/// Whether none of `count` slices from `start` on is used.
pub open spec fn run_is_free(used: Set<int>, start: int, count: int) -> bool {
    forall|slice: int| start <= slice < start + count ==> !#[trigger] used.contains(slice)
}

/// The lowest start, from `start` on, of `count` free slices that end by `end`.
pub open spec fn first_run(used: Set<int>, start: int, end: int, count: int) -> Option<int>
    decreases end - start,
{
    if count <= 0 || start + count > end {
        None
    } else if run_is_free(used, start, count) {
        Some(start)
    } else {
        first_run(used, start + 1, end, count)
    }
}

/// The run that is allocated next: the first one from `start` on, else the first of all.
pub open spec fn next_run(used: Set<int>, start: int, count: int) -> Option<int> {
    match first_run(used, start, MEDIUM_REGION_SLICE_COUNT as int, count) {
        Some(run) => Some(run),
        None => first_run(used, 0, MEDIUM_REGION_SLICE_COUNT as int, count),
    }
}

/// A run that is found is free and the first one; none is found only where there is none.
pub proof fn lemma_first_run(used: Set<int>, start: int, end: int, count: int)
    ensures
        match first_run(used, start, end, count) {
            Some(run) => start <= run && run + count <= end && count > 0 && run_is_free(used, run, count)
                && forall|other: int| start <= other < run ==> !#[trigger] run_is_free(used, other, count),
            None => count <= 0 || forall|other: int|
                start <= other && other + count <= end ==> !#[trigger] run_is_free(used, other, count),
        },
    decreases end - start,
{
    if count > 0 && start + count <= end && !run_is_free(used, start, count) {
        lemma_first_run(used, start + 1, end, count);
    }
}

/// Runs that start before the first free slice of a scan are not free.
proof fn lemma_first_run_is(used: Set<int>, start: int, end: int, count: int, run: int)
    requires
        count > 0,
        start <= run,
        run + count <= end,
        run_is_free(used, run, count),
        forall|other: int| start <= other < run ==> !#[trigger] run_is_free(used, other, count),
    ensures
        first_run(used, start, end, count) == Some(run),
    decreases run - start,
{
    if start < run {
        assert(!run_is_free(used, start, count));
        lemma_first_run_is(used, start + 1, end, count, run);
    }
}

proof fn lemma_no_run(used: Set<int>, start: int, end: int, count: int)
    requires
        forall|other: int| start <= other && other + count <= end ==> !#[trigger] run_is_free(used, other, count),
    ensures
        first_run(used, start, end, count) is None,
    decreases end - start,
{
    if count > 0 && start + count <= end {
        assert(!run_is_free(used, start, count));
        lemma_no_run(used, start + 1, end, count);
    }
}

pub fn slice_is_used(used: &Vec<u64>, slice_index: usize) -> (is_used: bool)
    requires
        used@.len() == MEDIUM_REGION_BITMAP_WORDS,
        slice_index < MEDIUM_REGION_SLICE_COUNT,
    ensures
        is_used == bits_of(used@).contains(slice_index as int),
{
    test_bit(used[slice_index / 64], slice_index % 64)
}

pub fn find_free_slices_in(used: &Vec<u64>, start: usize, end: usize, count: usize) -> (run: Option<usize>)
    requires
        used@.len() == MEDIUM_REGION_BITMAP_WORDS,
        end <= MEDIUM_REGION_SLICE_COUNT,
    ensures
        match run {
            Some(run) => first_run(bits_of(used@), start as int, end as int, count as int) == Some(run as int),
            None => first_run(bits_of(used@), start as int, end as int, count as int) is None,
        },
{
    let ghost set = bits_of(used@);
    let mut run_start: usize = start;
    let mut run_length: usize = 0;
    let mut slice_index: usize = start;
    while slice_index < end
        invariant
            used@.len() == MEDIUM_REGION_BITMAP_WORDS,
            end <= MEDIUM_REGION_SLICE_COUNT,
            set == bits_of(used@),
            start <= run_start,
            run_start + run_length == slice_index,
            start <= end ==> slice_index <= end,
            run_length < count || count == 0,
            run_is_free(set, run_start as int, run_length as int),
            count > 0 ==> forall|other: int| start <= other < run_start ==> !#[trigger] run_is_free(set, other, count as int),
        decreases end - slice_index,
    {
        if slice_is_used(used, slice_index) {
            proof {
                assert forall|other: int| count > 0 && start <= other < slice_index + 1 implies !#[trigger] run_is_free(
                    set,
                    other,
                    count as int,
                ) by {
                    if other >= run_start {
                        assert(set.contains(slice_index as int));
                    }
                }
            }
            run_start = slice_index + 1;
            run_length = 0;
        } else {
            run_length = run_length + 1;
            if run_length == count {
                proof {
                    lemma_first_run_is(set, start as int, end as int, count as int, run_start as int);
                }
                return Some(run_start);
            }
        }
        slice_index = slice_index + 1;
    }
    proof {
        if count > 0 {
            lemma_no_run(set, start as int, end as int, count as int);
        }
    }
    None
}

pub fn find_free_slices(used: &Vec<u64>, start: usize, count: usize) -> (run: Option<usize>)
    requires
        used@.len() == MEDIUM_REGION_BITMAP_WORDS,
    ensures
        match run {
            Some(run) => next_run(bits_of(used@), start as int, count as int) == Some(run as int) && run + count
                <= MEDIUM_REGION_SLICE_COUNT && run_is_free(bits_of(used@), run as int, count as int),
            None => next_run(bits_of(used@), start as int, count as int) is None,
        },
{
    proof {
        lemma_first_run(bits_of(used@), start as int, MEDIUM_REGION_SLICE_COUNT as int, count as int);
        lemma_first_run(bits_of(used@), 0, MEDIUM_REGION_SLICE_COUNT as int, count as int);
    }
    match find_free_slices_in(used, start, MEDIUM_REGION_SLICE_COUNT, count) {
        Some(run) => Some(run),
        None => find_free_slices_in(used, 0, MEDIUM_REGION_SLICE_COUNT, count),
    }
}

/// Marks `count` slices from `slice_index` on as used or as free.
pub fn mark_slices(used: &mut Vec<u64>, slice_index: usize, count: usize, value: bool)
    requires
        old(used)@.len() == MEDIUM_REGION_BITMAP_WORDS,
        slice_index + count <= MEDIUM_REGION_SLICE_COUNT,
    ensures
        final(used)@.len() == MEDIUM_REGION_BITMAP_WORDS,
        bits_of(final(used)@) == (if value {
            bits_of(old(used)@).union(span(slice_index as int, count as int))
        } else {
            bits_of(old(used)@).difference(span(slice_index as int, count as int))
        }),
{
    let ghost before = bits_of(used@);
    let mut index: usize = 0;
    while index < count
        invariant
            used@.len() == MEDIUM_REGION_BITMAP_WORDS,
            slice_index + count <= MEDIUM_REGION_SLICE_COUNT,
            index <= count,
            forall|slice: int|
                #![trigger bits_of(used@).contains(slice)]
                bits_of(used@).contains(slice) == (if slice_index <= slice < slice_index + index {
                    value
                } else {
                    before.contains(slice)
                }),
        decreases count - index,
    {
        let current: usize = slice_index + index;
        let word_index: usize = current / 64;
        let word: u64 = used[word_index];
        let ghost words = used@;
        let updated: u64 = if value {
            with_bit(word, current % 64)
        } else {
            without_bit(word, current % 64)
        };
        used[word_index] = updated;
        proof {
            assert forall|slice: int|
                #![trigger bits_of(used@).contains(slice)]
                bits_of(used@).contains(slice) == (if slice_index <= slice < slice_index + index + 1 {
                    value
                } else {
                    before.contains(slice)
                }) by {
                assert(bits_of(words).contains(slice) == (if slice_index <= slice < slice_index + index {
                    value
                } else {
                    before.contains(slice)
                }));
                if 0 <= slice < used@.len() * 64 {
                    if slice / 64 == word_index as int {
                        assert(used@[slice / 64] == updated);
                        assert(bit(updated, slice % 64) == (if slice % 64 == current as int % 64 {
                            value
                        } else {
                            bit(word, slice % 64)
                        }));
                    } else {
                        assert(used@[slice / 64] == words[slice / 64]);
                    }
                }
            }
        }
        index = index + 1;
    }
    proof {
        if value {
            assert(bits_of(used@) =~= before.union(span(slice_index as int, count as int)));
        } else {
            assert(bits_of(used@) =~= before.difference(span(slice_index as int, count as int)));
        }
    }
}

/// Consecutive slices that are kept for reuse.
#[derive(Clone, Copy, Debug, PartialEq, Eq, Structural)]
pub struct Extent {
    pub slice: usize,
    pub count: usize,
}

impl Extent {
    pub open spec fn end(self) -> int {
        self.slice + self.count
    }

    pub open spec fn slices(self) -> Set<int> {
        span(self.slice as int, self.count as int)
    }
}

/// Extents are sorted, none is empty, and between two of them there is a slice that is in
/// neither: neighbours have been joined.
pub open spec fn joined(extents: Seq<Extent>) -> bool {
    &&& forall|index: int|
        #![trigger extents[index]]
        0 <= index < extents.len() ==> extents[index].count > 0 && extents[index].end() <= MEDIUM_REGION_SLICE_COUNT
    &&& forall|left: int, right: int|
        #![trigger extents[left], extents[right]]
        0 <= left < right < extents.len() ==> extents[left].end() < extents[right].slice
}

/// The slices of all extents.
pub open spec fn covered(extents: Seq<Extent>) -> Set<int> {
    Set::new(
        |slice: int|
            exists|index: int| 0 <= index < extents.len() && (#[trigger] extents[index]).slices().contains(slice),
    )
}

/// The first extent from `start` on that has `count` slices.
pub open spec fn first_extent(extents: Seq<Extent>, start: int, count: int) -> Option<int>
    decreases extents.len() - start,
{
    if start < 0 || start >= extents.len() {
        None
    } else if extents[start].count >= count {
        Some(start)
    } else {
        first_extent(extents, start + 1, count)
    }
}

/// The extents once `count` slices were taken off the front of extent `index`.
pub open spec fn without_front(extents: Seq<Extent>, index: int, count: int) -> Seq<Extent> {
    if extents[index].count == count {
        extents.remove(index)
    } else {
        extents.update(
            index,
            Extent {
                slice: (extents[index].slice + count) as usize,
                count: (extents[index].count - count) as usize,
            },
        )
    }
}

proof fn lemma_without_front(extents: Seq<Extent>, index: int, count: int)
    requires
        joined(extents),
        0 <= index < extents.len(),
        0 < count <= extents[index].count,
    ensures
        joined(without_front(extents, index, count)),
        covered(without_front(extents, index, count)) =~= covered(extents).difference(
            span(extents[index].slice as int, count),
        ),
        span(extents[index].slice as int, count).subset_of(covered(extents)),
{
    let after = without_front(extents, index, count);
    let taken = span(extents[index].slice as int, count);
    assert forall|slice: int| taken.contains(slice) implies covered(extents).contains(slice) by {
        assert(extents[index].slices().contains(slice));
    }
    let removed = extents[index].count == count;
    assert forall|slice: int| covered(after).contains(slice) == covered(extents).difference(taken).contains(slice) by {
        if covered(after).contains(slice) {
            let at = choose|at: int| 0 <= at < after.len() && (#[trigger] after[at]).slices().contains(slice);
            let from = if removed && at >= index {
                at + 1
            } else {
                at
            };
            assert(extents[from].slices().contains(slice));
            if from < index {
                assert(extents[from].end() < extents[index].slice);
            } else if from > index {
                assert(extents[index].end() < extents[from].slice);
            }
        }
        if covered(extents).contains(slice) && !taken.contains(slice) {
            let at = choose|at: int| 0 <= at < extents.len() && (#[trigger] extents[at]).slices().contains(slice);
            if removed {
                if at < index {
                    assert(after[at] == extents[at]);
                } else {
                    assert(at > index);
                    assert(after[at - 1] == extents[at]);
                }
            } else {
                assert(after[at].slices().contains(slice));
            }
        }
    }
    assert forall|at: int| #![trigger after[at]] 0 <= at < after.len() implies after[at].count > 0 && after[at].end()
        <= MEDIUM_REGION_SLICE_COUNT by {
        if removed && at >= index {
            assert(after[at] == extents[at + 1]);
        }
    }
    assert forall|left: int, right: int|
        #![trigger after[left], after[right]]
        0 <= left < right < after.len() implies after[left].end() < after[right].slice by {
        if removed {
            let from_left = if left >= index {
                left + 1
            } else {
                left
            };
            let from_right = if right >= index {
                right + 1
            } else {
                right
            };
            assert(extents[from_left].end() < extents[from_right].slice);
        } else {
            assert(extents[left].end() < extents[right].slice);
        }
    }
}

/// Takes `count` slices off the front of the first extent that has them.
pub fn take_extent(extents: &mut Vec<Extent>, count: usize) -> (slice: Option<usize>)
    requires
        joined(old(extents)@),
        count > 0,
    ensures
        joined(final(extents)@),
        match slice {
            Some(slice) => {
                &&& first_extent(old(extents)@, 0, count as int) is Some
                &&& slice == old(extents)@[first_extent(old(extents)@, 0, count as int)->0].slice
                &&& final(extents)@ == without_front(
                    old(extents)@,
                    first_extent(old(extents)@, 0, count as int)->0,
                    count as int,
                )
                &&& covered(final(extents)@) == covered(old(extents)@).difference(span(slice as int, count as int))
                &&& span(slice as int, count as int).subset_of(covered(old(extents)@))
                &&& slice + count <= MEDIUM_REGION_SLICE_COUNT
            },
            None => first_extent(old(extents)@, 0, count as int) is None && *final(extents) == *old(extents),
        },
{
    let ghost before = extents@;
    let mut index: usize = 0;
    while index < extents.len()
        invariant
            *extents == *old(extents),
            before == extents@,
            joined(before),
            count > 0,
            index <= before.len(),
            first_extent(before, 0, count as int) == first_extent(before, index as int, count as int),
        decreases before.len() - index,
    {
        let current: Extent = extents[index];
        if current.count >= count {
            proof {
                assert(first_extent(before, index as int, count as int) == Some(index as int));
                lemma_without_front(before, index as int, count as int);
                assert(before[index as int].end() <= MEDIUM_REGION_SLICE_COUNT);
            }
            if current.count == count {
                extents.remove(index);
            } else {
                extents[index] = Extent { slice: current.slice + count, count: current.count - count };
            }
            assert(extents@ =~= without_front(before, index as int, count as int));
            return Some(current.slice);
        }
        index = index + 1;
    }
    None
}

/// Adds slices that are in no extent, joining them with the neighbours that they touch.
pub fn insert_extent(extents: &mut Vec<Extent>, slice: usize, count: usize)
    requires
        joined(old(extents)@),
        count > 0,
        slice + count <= MEDIUM_REGION_SLICE_COUNT,
        covered(old(extents)@).disjoint(span(slice as int, count as int)),
    ensures
        joined(final(extents)@),
        covered(final(extents)@) == covered(old(extents)@).union(span(slice as int, count as int)),
{
    let ghost before = extents@;
    let ghost added = span(slice as int, count as int);
    let mut position: usize = 0;
    while position < extents.len() && extents[position].slice < slice
        invariant
            extents@ == before,
            position <= before.len(),
            forall|index: int| 0 <= index < position ==> (#[trigger] before[index]).slice < slice,
        decreases before.len() - position,
    {
        position = position + 1;
    }
    proof {
        assert forall|index: int| #![trigger before[index]] 0 <= index < before.len() implies (if index < position {
            before[index].end() <= slice
        } else {
            slice + count <= before[index].slice
        }) by {
            if index < position {
                if before[index].end() > slice {
                    assert(before[index].slices().contains(slice as int));
                    assert(added.contains(slice as int));
                    assert(covered(before).contains(slice as int));
                }
            } else {
                if position < index {
                    assert(before[position as int].end() < before[index].slice);
                }
                if before[index].slice < slice + count {
                    assert(before[index].slices().contains(before[index].slice as int));
                    assert(covered(before).contains(before[index].slice as int));
                    assert(added.contains(before[index].slice as int));
                }
            }
        }
    }
    let joins_previous: bool = position > 0 && extents[position - 1].slice + extents[position - 1].count == slice;
    let joins_next: bool = position < extents.len() && slice + count == extents[position].slice;
    if joins_previous {
        let previous: Extent = extents[position - 1];
        if joins_next {
            let next: Extent = extents[position];
            extents.remove(position);
            extents[position - 1] = Extent { slice: previous.slice, count: previous.count + count + next.count };
        } else {
            extents[position - 1] = Extent { slice: previous.slice, count: previous.count + count };
        }
    } else if joins_next {
        let next: Extent = extents[position];
        extents[position] = Extent { slice, count: count + next.count };
    } else {
        extents.insert(position, Extent { slice, count });
    }
    proof {
        lemma_inserted(before, extents@, position as int, slice, count, joins_previous, joins_next);
    }
}

/// Whether slices from `slice` on fit between the extents before `position` and those from it on.
spec fn fits_at(extents: Seq<Extent>, position: int, slice: int, count: int) -> bool {
    &&& joined(extents)
    &&& 0 < count
    &&& 0 <= slice
    &&& slice + count <= MEDIUM_REGION_SLICE_COUNT
    &&& 0 <= position <= extents.len()
    &&& forall|index: int|
        #![trigger extents[index]]
        0 <= index < extents.len() ==> (if index < position {
            extents[index].end() <= slice
        } else {
            slice + count <= extents[index].slice
        })
}

proof fn lemma_insert_apart(before: Seq<Extent>, position: int, slice: usize, count: usize)
    requires
        fits_at(before, position, slice as int, count as int),
        position > 0 ==> before[position - 1].end() < slice,
        position < before.len() ==> slice + count < before[position].slice,
    ensures
        joined(before.insert(position, Extent { slice, count })),
        covered(before.insert(position, Extent { slice, count })) =~= covered(before).union(
            span(slice as int, count as int),
        ),
{
    let after = before.insert(position, Extent { slice, count });
    let added = span(slice as int, count as int);
    assert(after[position].slices() =~= added);
    assert forall|s: int| #[trigger] covered(after).contains(s) == (covered(before).contains(s) || added.contains(s)) by {
        if covered(before).contains(s) {
            let at = choose|at: int| 0 <= at < before.len() && (#[trigger] before[at]).slices().contains(s);
            if at < position {
                assert(after[at] == before[at]);
            } else {
                assert(after[at + 1] == before[at]);
            }
        }
        if covered(after).contains(s) {
            let to = choose|to: int| 0 <= to < after.len() && (#[trigger] after[to]).slices().contains(s);
            if to < position {
                assert(after[to] == before[to]);
            } else if to > position {
                assert(after[to] == before[to - 1]);
            }
        }
        if added.contains(s) {
            assert(after[position].slices().contains(s));
        }
    }
    assert forall|left: int, right: int|
        #![trigger after[left], after[right]]
        0 <= left < right < after.len() implies after[left].end() < after[right].slice by {
        let l = if left < position {
            left
        } else {
            left - 1
        };
        let r = if right < position {
            right
        } else {
            right - 1
        };
        if left == position {
            if r > position {
                assert(before[position].end() < before[r].slice);
            }
            assert(after[right] == before[r]);
        } else if right == position {
            if left < position - 1 {
                assert(before[left].end() < before[position - 1].slice);
            }
            assert(after[left] == before[left]);
        } else {
            assert(after[left] == before[l] && after[right] == before[r]);
            assert(before[l].end() < before[r].slice);
        }
    }
    assert forall|at: int| #![trigger after[at]] 0 <= at < after.len() implies after[at].count > 0 && after[at].end()
        <= MEDIUM_REGION_SLICE_COUNT by {
        if at < position {
            assert(after[at] == before[at]);
        } else if at > position {
            assert(after[at] == before[at - 1]);
        }
    }
}

/// Growing the extent at `at` to cover added slices keeps the list joined, where the grown
/// extent still ends before its neighbours.
proof fn lemma_grow(before: Seq<Extent>, at: int, grown: Extent, slice: int, count: int)
    requires
        joined(before),
        0 <= at < before.len(),
        grown.count > 0,
        grown.end() <= MEDIUM_REGION_SLICE_COUNT,
        grown.slices() =~= before[at].slices().union(span(slice, count)),
        at > 0 ==> before[at - 1].end() < grown.slice,
        at + 1 < before.len() ==> grown.end() < before[at + 1].slice,
    ensures
        joined(before.update(at, grown)),
        covered(before.update(at, grown)) =~= covered(before).union(span(slice, count)),
{
    let after = before.update(at, grown);
    let added = span(slice, count);
    assert forall|s: int| #[trigger] covered(after).contains(s) == (covered(before).contains(s) || added.contains(s)) by {
        if covered(before).contains(s) {
            let from = choose|from: int| 0 <= from < before.len() && (#[trigger] before[from]).slices().contains(s);
            assert(after[from].slices().contains(s));
        }
        if added.contains(s) {
            assert(after[at].slices().contains(s));
        }
        if covered(after).contains(s) {
            let to = choose|to: int| 0 <= to < after.len() && (#[trigger] after[to]).slices().contains(s);
            if to != at {
                assert(before[to].slices().contains(s));
            } else {
                assert(grown.slices().contains(s));
                assert(before[at].slices().union(added).contains(s));
                if before[at].slices().contains(s) {
                    assert(covered(before).contains(s));
                }
            }
        }
    }
    assert(covered(after) =~= covered(before).union(added));
    assert forall|left: int, right: int|
        #![trigger after[left], after[right]]
        0 <= left < right < after.len() implies after[left].end() < after[right].slice by {
        assert(before[left].end() < before[right].slice);
        if left == at && right > at + 1 {
            assert(before[at + 1].end() < before[right].slice);
        }
        if right == at && left < at - 1 {
            assert(before[left].end() < before[at - 1].slice);
        }
    }
}

/// Dropping an extent takes its slices away.
proof fn lemma_drop(before: Seq<Extent>, at: int)
    requires
        joined(before),
        0 <= at < before.len(),
    ensures
        joined(before.remove(at)),
        covered(before.remove(at)) =~= covered(before).difference(before[at].slices()),
        before[at].slices().subset_of(covered(before)),
{
    lemma_without_front(before, at, before[at].count as int);
    assert(before[at].slices() =~= span(before[at].slice as int, before[at].count as int));
}

proof fn lemma_inserted(
    before: Seq<Extent>,
    after: Seq<Extent>,
    position: int,
    slice: usize,
    count: usize,
    joins_previous: bool,
    joins_next: bool,
)
    requires
        fits_at(before, position, slice as int, count as int),
        joins_previous == (position > 0 && before[position - 1].end() == slice),
        joins_next == (position < before.len() && slice + count == before[position].slice),
        joins_previous && joins_next ==> after == before.remove(position).update(
            position - 1,
            Extent {
                slice: before[position - 1].slice,
                count: (before[position - 1].count + count + before[position].count) as usize,
            },
        ),
        joins_previous && !joins_next ==> after == before.update(
            position - 1,
            Extent { slice: before[position - 1].slice, count: (before[position - 1].count + count) as usize },
        ),
        !joins_previous && joins_next ==> after == before.update(
            position,
            Extent { slice, count: (count + before[position].count) as usize },
        ),
        !joins_previous && !joins_next ==> after == before.insert(position, Extent { slice, count }),
    ensures
        joined(after),
        covered(after) =~= covered(before).union(span(slice as int, count as int)),
{
    let added = span(slice as int, count as int);
    if position > 0 {
        assert(before[position - 1].end() <= slice);
    }
    if position < before.len() {
        assert(slice + count <= before[position].slice);
    }
    if joins_previous && joins_next {
        let dropped = before.remove(position);
        let next = before[position];
        lemma_drop(before, position);
        assert(dropped[position - 1] == before[position - 1]);
        let grown = after[position - 1];
        if position + 1 < before.len() {
            assert(before[position].end() < before[position + 1].slice);
            assert(dropped[position] == before[position + 1]);
        }
        if position > 1 {
            assert(before[position - 2].end() < before[position - 1].slice);
            assert(dropped[position - 2] == before[position - 2]);
        }
        let whole = span(slice as int, count + next.count);
        assert(grown.slices() =~= dropped[position - 1].slices().union(whole));
        lemma_grow(dropped, position - 1, grown, slice as int, count + next.count);
        assert(whole =~= added.union(next.slices()));
        assert(covered(after) =~= covered(before).union(added));
    } else if joins_previous {
        let grown = after[position - 1];
        if position > 1 {
            assert(before[position - 2].end() < before[position - 1].slice);
        }
        assert(grown.slices() =~= before[position - 1].slices().union(added));
        lemma_grow(before, position - 1, grown, slice as int, count as int);
    } else if joins_next {
        let grown = after[position];
        if position + 1 < before.len() {
            assert(before[position].end() < before[position + 1].slice);
        }
        assert(grown.slices() =~= before[position].slices().union(added));
        lemma_grow(before, position, grown, slice as int, count as int);
    } else {
        lemma_insert_apart(before, position, slice, count);
    }
}

/// Two joined lists that cover the same slices are the same list.
pub proof fn law_joined_extents_are_unique(left: Seq<Extent>, right: Seq<Extent>)
    requires
        joined(left),
        joined(right),
        covered(left) =~= covered(right),
    ensures
        left =~= right,
    decreases left.len(),
{
    if left.len() == 0 {
        if right.len() > 0 {
            assert(right[0].slices().contains(right[0].slice as int));
            assert(covered(right).contains(right[0].slice as int));
        }
    } else if right.len() == 0 {
        assert(left[0].slices().contains(left[0].slice as int));
        assert(covered(left).contains(left[0].slice as int));
    } else {
        lemma_last_extent(left, right);
        lemma_last_extent(right, left);
        let last_left = left.last();
        let last_right = right.last();
        assert(last_left == last_right);
        assert(covered(left.drop_last()) =~= covered(right.drop_last())) by {
            lemma_covered_without_last(left);
            lemma_covered_without_last(right);
        }
        law_joined_extents_are_unique(left.drop_last(), right.drop_last());
        assert(left =~= left.drop_last().push(last_left));
        assert(right =~= right.drop_last().push(last_right));
    }
}

proof fn lemma_covered_without_last(extents: Seq<Extent>)
    requires
        joined(extents),
        extents.len() > 0,
    ensures
        covered(extents.drop_last()) =~= covered(extents).difference(extents.last().slices()),
        joined(extents.drop_last()),
{
    let last = extents.len() - 1;
    assert forall|slice: int| covered(extents.drop_last()).contains(slice) == covered(extents).difference(
        extents.last().slices(),
    ).contains(slice) by {
        if covered(extents.drop_last()).contains(slice) {
            let at = choose|at: int|
                0 <= at < extents.drop_last().len() && (#[trigger] extents.drop_last()[at]).slices().contains(slice);
            assert(extents[at].slices().contains(slice));
            assert(extents[at].end() < extents[last].slice);
        }
        if covered(extents).contains(slice) && !extents.last().slices().contains(slice) {
            let at = choose|at: int| 0 <= at < extents.len() && (#[trigger] extents[at]).slices().contains(slice);
            assert(at < last);
            assert(extents.drop_last()[at] == extents[at]);
        }
    }
    assert forall|l: int, r: int|
        #![trigger extents.drop_last()[l], extents.drop_last()[r]]
        0 <= l < r < extents.drop_last().len() implies extents.drop_last()[l].end() < extents.drop_last()[r].slice by {
        assert(extents[l].end() < extents[r].slice);
    }
}

/// The last extents of two lists that cover the same slices end, and start, at the same slice.
proof fn lemma_last_extent(left: Seq<Extent>, right: Seq<Extent>)
    requires
        joined(left),
        joined(right),
        left.len() > 0,
        right.len() > 0,
        covered(left) =~= covered(right),
    ensures
        left.last().end() <= right.last().end(),
        left.last().end() == right.last().end() ==> left.last().slice >= right.last().slice,
{
    let l = left.len() - 1;
    let r = right.len() - 1;
    let top = left[l].end() - 1;
    assert(left[l].slices().contains(top));
    assert(covered(right).contains(top));
    let at = choose|at: int| 0 <= at < right.len() && (#[trigger] right[at]).slices().contains(top);
    if at < r {
        assert(right[at].end() < right[r].slice);
    }
    if left[l].end() == right[r].end() && left[l].slice < right[r].slice {
        let below = right[r].slice - 1;
        assert(left[l].slices().contains(below));
        assert(covered(right).contains(below));
        let other = choose|other: int| 0 <= other < right.len() && (#[trigger] right[other]).slices().contains(below);
        if other < r {
            assert(right[other].end() < right[r].slice);
        }
    }
}

/// Taking slices and giving them back restores the list of extents.
pub proof fn law_extents_restored(before: Seq<Extent>, taken: Seq<Extent>, after: Seq<Extent>, slice: int, count: int)
    requires
        joined(before),
        joined(after),
        span(slice, count).subset_of(covered(before)),
        covered(taken) =~= covered(before).difference(span(slice, count)),
        covered(after) =~= covered(taken).union(span(slice, count)),
    ensures
        after =~= before,
{
    assert(covered(after) =~= covered(before));
    law_joined_extents_are_unique(after, before);
}

} // verus!
