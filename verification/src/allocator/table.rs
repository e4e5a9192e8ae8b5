//! The slabs of the process, found by the address that they start at.

use vstd::prelude::*;

use crate::allocator::slab::{Slab, SlabModel};

verus! {

pub struct SlabTable {
    pub slabs: Vec<Slab>,
}

impl SlabTable {
    pub open spec fn is_at(&self, index: int, address: usize) -> bool {
        0 <= index < self.slabs@.len() && self.slabs@[index].address == address
    }

    /// The position of the slab that starts at `address`.
    pub open spec fn at(&self, address: usize) -> int {
        choose|index: int| self.is_at(index, address)
    }

    pub open spec fn has(&self, address: usize) -> bool {
        exists|index: int| self.is_at(index, address)
    }

    pub open spec fn wf(&self) -> bool {
        &&& forall|index: int| 0 <= index < self.slabs@.len() ==> (#[trigger] self.slabs@[index]).wf()
        &&& forall|left: int, right: int|
            #![trigger self.slabs@[left], self.slabs@[right]]
            0 <= left < right < self.slabs@.len() ==> self.slabs@[left].address != self.slabs@[right].address
    }
}

impl View for SlabTable {
    type V = Map<usize, SlabModel>;

    open spec fn view(&self) -> Map<usize, SlabModel> {
        Map::new(|address: usize| self.has(address), |address: usize| self.slabs@[self.at(address)]@)
    }
}

pub proof fn lemma_at(table: &SlabTable, index: int)
    requires
        table.wf(),
        0 <= index < table.slabs@.len(),
    ensures
        table.has(table.slabs@[index].address),
        table.at(table.slabs@[index].address) == index,
        table@.dom().contains(table.slabs@[index].address),
        table@[table.slabs@[index].address] == table.slabs@[index]@,
{
    let address = table.slabs@[index].address;
    assert(table.is_at(index, address));
    let chosen = table.at(address);
    assert(table.is_at(chosen, address));
    if chosen < index {
        assert(table.slabs@[chosen].address != table.slabs@[index].address);
    } else if index < chosen {
        assert(table.slabs@[index].address != table.slabs@[chosen].address);
    }
}

/// Changing one slab in place changes that slab's entry.
pub proof fn lemma_changed_slab(before: &SlabTable, after: &SlabTable, index: int)
    requires
        before.wf(),
        0 <= index < before.slabs@.len(),
        after.slabs@.len() == before.slabs@.len(),
        forall|other: int|
            #![trigger after.slabs@[other]]
            0 <= other < before.slabs@.len() && other != index ==> after.slabs@[other] == before.slabs@[other],
        after.slabs@[index].wf(),
        after.slabs@[index].address == before.slabs@[index].address,
    ensures
        after.wf(),
        after@ == before@.insert(before.slabs@[index].address, after.slabs@[index]@),
{
    assert forall|at: int| 0 <= at < after.slabs@.len() implies (#[trigger] after.slabs@[at]).wf() by {
        assert(before.slabs@[at].wf());
    }
    assert forall|left: int, right: int|
        #![trigger after.slabs@[left], after.slabs@[right]]
        0 <= left < right < after.slabs@.len() implies after.slabs@[left].address != after.slabs@[right].address by {
        assert(before.slabs@[left].address != before.slabs@[right].address);
    }
    let changed = before.slabs@[index].address;
    let expected = before@.insert(changed, after.slabs@[index]@);
    assert forall|address: usize| after@.dom().contains(address) == expected.dom().contains(address) by {
        if after.has(address) {
            let at = after.at(address);
            assert(after.is_at(at, address));
            assert(before.is_at(at, address));
        }
        if before.has(address) {
            let at = before.at(address);
            assert(before.is_at(at, address));
            assert(after.is_at(at, address));
        }
        if address == changed {
            assert(after.is_at(index, address));
        }
    }
    assert forall|address: usize| after@.dom().contains(address) implies after@[address] == expected[address] by {
        let at = after.at(address);
        assert(after.is_at(at, address));
        lemma_at(after, at);
        lemma_at(before, at);
    }
    assert(after@ =~= expected);
}

impl SlabTable {
    pub fn new() -> (table: SlabTable)
        ensures
            table.wf(),
            table@ == Map::<usize, SlabModel>::empty(),
    {
        let table = SlabTable { slabs: Vec::new() };
        assert(table@ =~= Map::<usize, SlabModel>::empty());
        table
    }

    pub fn position(&self, address: usize) -> (position: Option<usize>)
        requires
            self.wf(),
        ensures
            position is Some <==> self@.dom().contains(address),
            position matches Some(index) ==> index < self.slabs@.len() && self.slabs@[index as int].address == address
                && self@[address] == self.slabs@[index as int]@,
    {
        let mut index: usize = 0;
        while index < self.slabs.len()
            invariant
                self.wf(),
                index <= self.slabs@.len(),
                forall|at: int| 0 <= at < index ==> (#[trigger] self.slabs@[at]).address != address,
            decreases self.slabs@.len() - index,
        {
            if self.slabs[index].address == address {
                proof {
                    lemma_at(self, index as int);
                }
                return Some(index);
            }
            index = index + 1;
        }
        proof {
            if self.has(address) {
                assert(self.is_at(self.at(address), address));
            }
        }
        None
    }

    /// Adds a slab at an address where there is none.
    pub fn push(&mut self, slab: Slab)
        requires
            old(self).wf(),
            slab.wf(),
            !old(self)@.dom().contains(slab.address),
        ensures
            final(self).wf(),
            final(self)@ == old(self)@.insert(slab.address, slab@),
    {
        let ghost before = *self;
        let ghost model = slab@;
        let ghost added = slab.address;
        self.slabs.push(slab);
        proof {
            let last = before.slabs@.len() as int;
            assert forall|left: int, right: int|
                #![trigger self.slabs@[left], self.slabs@[right]]
                0 <= left < right < self.slabs@.len() implies self.slabs@[left].address != self.slabs@[right].address by {
                if right < last {
                    assert(before.slabs@[left].address != before.slabs@[right].address);
                } else {
                    assert(before.is_at(left, before.slabs@[left].address));
                }
            }
            let expected = before@.insert(added, model);
            assert forall|address: usize| self@.dom().contains(address) == expected.dom().contains(address) by {
                if self.has(address) {
                    let at = self.at(address);
                    assert(self.is_at(at, address));
                    if at < last {
                        assert(before.is_at(at, address));
                    }
                }
                if before.has(address) {
                    let at = before.at(address);
                    assert(before.is_at(at, address));
                    assert(self.is_at(at, address));
                }
                if address == added {
                    assert(self.is_at(last, address));
                }
            }
            assert forall|address: usize| self@.dom().contains(address) implies self@[address] == expected[address] by {
                let at = self.at(address);
                assert(self.is_at(at, address));
                lemma_at(self, at);
                if at < last {
                    lemma_at(&before, at);
                }
            }
            assert(self@ =~= expected);
        }
    }

    /// Removes the slab at an address where there is one.
    pub fn remove(&mut self, address: usize) -> (slab: Slab)
        requires
            old(self).wf(),
            old(self)@.dom().contains(address),
        ensures
            final(self).wf(),
            final(self)@ == old(self)@.remove(address),
            slab.wf(),
            slab@ == old(self)@[address],
            slab.address == address,
    {
        let ghost before = *self;
        let index: usize = self.position(address).unwrap();
        let slab = self.slabs.remove(index);
        proof {
            assert(before.slabs@[index as int].wf());
            assert forall|at: int| 0 <= at < self.slabs@.len() implies (#[trigger] self.slabs@[at]).wf() by {
                let from = if at < index {
                    at
                } else {
                    at + 1
                };
                assert(before.slabs@[from].wf());
            }
            assert forall|left: int, right: int|
                #![trigger self.slabs@[left], self.slabs@[right]]
                0 <= left < right < self.slabs@.len() implies self.slabs@[left].address != self.slabs@[right].address by {
                let l = if left < index {
                    left
                } else {
                    left + 1
                };
                let r = if right < index {
                    right
                } else {
                    right + 1
                };
                assert(before.slabs@[l].address != before.slabs@[r].address);
            }
            let expected = before@.remove(address);
            assert forall|a: usize| self@.dom().contains(a) == expected.dom().contains(a) by {
                if self.has(a) {
                    let at = self.at(a);
                    assert(self.is_at(at, a));
                    let from = if at < index {
                        at
                    } else {
                        at + 1
                    };
                    assert(before.is_at(from, a));
                    if from < index {
                        assert(before.slabs@[from].address != before.slabs@[index as int].address);
                    } else {
                        assert(before.slabs@[index as int].address != before.slabs@[from].address);
                    }
                }
                if before.has(a) && a != address {
                    let from = before.at(a);
                    assert(before.is_at(from, a));
                    let at = if from < index {
                        from
                    } else {
                        from - 1
                    };
                    assert(self.is_at(at, a));
                }
            }
            assert forall|a: usize| self@.dom().contains(a) implies self@[a] == expected[a] by {
                let at = self.at(a);
                assert(self.is_at(at, a));
                lemma_at(self, at);
                let from = if at < index {
                    at
                } else {
                    at + 1
                };
                lemma_at(&before, from);
            }
            assert(self@ =~= expected);
        }
        slab
    }
}

} // verus!
