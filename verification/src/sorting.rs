//! Sorting by keys, and sorted sets of numbers.

use vstd::prelude::*;

verus! {

/// Whether the first key does not come after the second.
pub open spec fn in_order(left: (usize, usize), right: (usize, usize)) -> bool {
    left.0 < right.0 || left.0 == right.0 && left.1 <= right.1
}

/// Whether `order` names every index below `count` once.
pub open spec fn names_all(order: Seq<usize>, count: int) -> bool {
    &&& order.len() == count
    &&& forall|at: int| 0 <= at < order.len() ==> (#[trigger] order[at]) < count
    &&& forall|left: int, right: int|
        #![trigger order[left], order[right]]
        0 <= left < right < order.len() ==> order[left] != order[right]
}

/// Whether `order` names every key once, in ascending order.
pub open spec fn sorts(keys: Seq<(usize, usize)>, order: Seq<usize>) -> bool {
    &&& names_all(order, keys.len() as int)
    &&& forall|left: int, right: int|
        #![trigger order[left], order[right]]
        0 <= left < right < order.len() ==> in_order(keys[order[left] as int], keys[order[right] as int])
}

/// The indices of the keys in ascending order of the keys.
pub fn order_by_key(keys: &Vec<(usize, usize)>) -> (order: Vec<usize>)
    ensures
        sorts(keys@, order@),
{
    let mut order: Vec<usize> = Vec::new();
    let mut next: usize = 0;
    while next < keys.len()
        invariant
            next <= keys@.len(),
            names_all(order@, next as int),
            forall|left: int, right: int|
                #![trigger order@[left], order@[right]]
                0 <= left < right < order@.len() ==> in_order(keys@[order@[left] as int], keys@[order@[right] as int]),
        decreases keys@.len() - next,
    {
        let ghost before = order@;
        let key: (usize, usize) = keys[next];
        let mut place: usize = order.len();
        let mut searching: bool = true;
        while searching
            invariant
                next < keys@.len(),
                key == keys@[next as int],
                order@ == before,
                before.len() == next,
                names_all(before, next as int),
                place <= before.len(),
                forall|at: int| place <= at < before.len() ==> in_order(key, #[trigger] keys@[before[at] as int]),
                !searching ==> place == 0 || in_order(keys@[before[place - 1] as int], key),
            decreases place + (if searching {
                1int
            } else {
                0
            }),
        {
            if place == 0 {
                searching = false;
            } else {
                let other: (usize, usize) = keys[order[place - 1]];
                if other.0 < key.0 || other.0 == key.0 && other.1 <= key.1 {
                    searching = false;
                } else {
                    place = place - 1;
                }
            }
        }
        order.insert(place, next);
        proof {
            assert forall|at: int| 0 <= at < order@.len() implies #[trigger] order@[at] == (if at < place {
                before[at]
            } else if at == place {
                next
            } else {
                before[at - 1]
            }) by {}
            assert forall|left: int, right: int|
                #![trigger order@[left], order@[right]]
                0 <= left < right < order@.len() implies order@[left] != order@[right] && in_order(
                keys@[order@[left] as int],
                keys@[order@[right] as int],
            ) by {
                if left == place {
                    assert(before[right - 1] < next);
                    assert(in_order(key, keys@[before[right - 1] as int]));
                } else if right == place {
                    assert(before[left] < next);
                    if left < place - 1 {
                        assert(in_order(keys@[before[left] as int], keys@[before[place - 1] as int]));
                    }
                } else {
                    let l = if left < place {
                        left
                    } else {
                        left - 1
                    };
                    let r = if right < place {
                        right
                    } else {
                        right - 1
                    };
                    assert(before[l] != before[r]);
                    assert(in_order(keys@[before[l] as int], keys@[before[r] as int]));
                }
            }
        }
        next = next + 1;
    }
    order
}

/// Whether the numbers ascend, none twice.
pub open spec fn ascending(numbers: Seq<usize>) -> bool {
    forall|left: int, right: int|
        #![trigger numbers[left], numbers[right]]
        0 <= left < right < numbers.len() ==> numbers[left] < numbers[right]
}

/// Puts a number into a list that ascends, unless it is there already.
pub fn insert_sorted(numbers: &mut Vec<usize>, number: usize)
    requires
        ascending(old(numbers)@),
    ensures
        ascending(final(numbers)@),
        forall|other: usize| #[trigger] final(numbers)@.contains(other) <==> old(numbers)@.contains(other) || other == number,
{
    let ghost before = numbers@;
    let mut place: usize = 0;
    while place < numbers.len() && numbers[place] < number
        invariant
            numbers@ == before,
            ascending(before),
            place <= before.len(),
            forall|at: int| 0 <= at < place ==> (#[trigger] before[at]) < number,
        decreases before.len() - place,
    {
        place = place + 1;
    }
    if place < numbers.len() && numbers[place] == number {
        assert(before[place as int] == number);
        return ;
    }
    numbers.insert(place, number);
    proof {
        assert forall|at: int| 0 <= at < numbers@.len() implies #[trigger] numbers@[at] == (if at < place {
            before[at]
        } else if at == place {
            number
        } else {
            before[at - 1]
        }) by {}
        assert forall|left: int, right: int|
            #![trigger numbers@[left], numbers@[right]]
            0 <= left < right < numbers@.len() implies numbers@[left] < numbers@[right] by {
            if left == place {
                if place < right - 1 {
                    assert(before[place as int] < before[right - 1]);
                }
            } else if right != place {
                let l = if left < place {
                    left
                } else {
                    left - 1
                };
                let r = if right < place {
                    right
                } else {
                    right - 1
                };
                assert(before[l] < before[r]);
            }
        }
        assert forall|other: usize| #[trigger] numbers@.contains(other) <==> before.contains(other) || other == number by {
            if before.contains(other) {
                let at = choose|at: int| 0 <= at < before.len() && before[at] == other;
                let now = if at < place {
                    at
                } else {
                    at + 1
                };
                assert(numbers@[now] == other);
            }
            if other == number {
                assert(numbers@[place as int] == other);
            }
            if numbers@.contains(other) {
                let at = choose|at: int| 0 <= at < numbers@.len() && numbers@[at] == other;
                if at < place {
                    assert(before[at] == other);
                } else if at > place {
                    assert(before[at - 1] == other);
                }
            }
        }
    }
}

} // verus!
