//! Blocks in mappings of their own, and the records that blocks are found by.

use vstd::prelude::*;

use crate::allocator::arenas::fresh_mapping;
use crate::allocator::classes::{MEDIUM_REGION_SIZE, MEDIUM_SLICE_SIZE};
use crate::allocator::direct::{
    direct_address, lemma_record_at, mapping_bytes, place_direct, record_at, DirectPlan, ExtraHeader,
};
use crate::allocator::heaps::HeapState;
use crate::allocator::layout::Layout;
use crate::allocator::references::lemma_refs_go_on;
use crate::allocator::refills::{lemma_arena_step, lemma_span_step, same_but_heap};
use crate::allocator::region::SpanOwner;
use crate::allocator::segments::lemma_segments_go_on;
use crate::allocator::space::{cache_held, locality_held, mapped_ok, slab_placed, stretches_apart, Space};
use crate::allocator::uses::{
    direct_ok, directs_ok, is_direct, law_blocks_in_use_lie_apart, lemma_record_lies, lemma_small_kept,
    uses_kept, Block,
};
use crate::telemetry::events::TrackingAllocation;

verus! {

/// Which record is found under an address, once another is added.
pub proof fn lemma_record_pushed(extras: Seq<ExtraHeader>, extra: ExtraHeader, address: usize)
    ensures
        record_at(extras.push(extra), address) == if extra.address == address {
            extras.len() as int
        } else {
            record_at(extras, address)
        },
{
    assert(extras.push(extra).drop_last() =~= extras);
    assert(extras.push(extra).last() == extra);
}

/// Taking a record away leaves the others' records.
pub proof fn lemma_record_removed(extras: Seq<ExtraHeader>, at: int, address: usize)
    requires
        0 <= at < extras.len(),
        extras[at].address != address,
    ensures
        record_at(extras.remove(at), address) >= 0 <==> record_at(extras, address) >= 0,
        record_at(extras, address) >= 0 ==> extras.remove(at)[record_at(extras.remove(at), address)] == extras[record_at(
            extras,
            address,
        )],
    decreases extras.len(),
{
    if at == extras.len() - 1 {
        assert(extras.remove(at) =~= extras.drop_last());
        lemma_record_at(extras.drop_last(), address);
    } else {
        let shorter = extras.remove(at);
        assert(shorter.last() == extras.last());
        assert(shorter.drop_last() =~= extras.drop_last().remove(at));
        lemma_record_at(extras, address);
        lemma_record_at(shorter, address);
        lemma_record_at(extras.drop_last(), address);
        lemma_record_at(shorter.drop_last(), address);
        lemma_record_removed(extras.drop_last(), at, address);
        if extras.last().address != address && record_at(extras, address) >= 0 {
            let place = record_at(shorter.drop_last(), address);
            assert(shorter[place] == shorter.drop_last()[place]);
        }
    }
}

/// A fresh mapping meets nothing that is there, so that it can join the others.
pub proof fn lemma_mapping_joins(space: Space, mapping: usize, bytes: int)
    requires
        mapped_ok(space.domains@, space.mapped@),
        fresh_mapping(space.domains@, space.mapped@, mapping, bytes),
    ensures
        mapped_ok(space.domains@, space.mapped@.insert(mapping, bytes)),
        !space.mapped@.dom().contains(mapping),
{
    let mapped = space.mapped@;
    let now = mapped.insert(mapping, bytes);
    if mapped.dom().contains(mapping) {
        assert(stretches_apart(mapping as int, bytes, mapping as int, mapped[mapping]));
        assert(mapped[mapping] > 0);
    }
    assert forall|address: usize| #[trigger] now.dom().contains(address) implies now[address] > 0 by {
        if address != mapping {
            assert(mapped.dom().contains(address));
        }
    }
    assert forall|address: usize, at: int, index: int|
        #![trigger now.dom().contains(address), space.domains@[at].regions@[index]]
        now.dom().contains(address) && 0 <= at < space.domains@.len() && 0 <= index < space.domains@[at].regions@.len() implies stretches_apart(
        address as int,
        now[address],
        space.domains@[at].regions@[index].base as int,
        MEDIUM_REGION_SIZE as int,
    ) by {
        if address != mapping {
            assert(mapped.dom().contains(address));
        }
    }
    assert forall|left: usize, right: usize|
        #![trigger now.dom().contains(left), now.dom().contains(right)]
        now.dom().contains(left) && now.dom().contains(right) && left != right implies stretches_apart(
        left as int,
        now[left],
        right as int,
        now[right],
    ) by {
        if left != mapping {
            assert(mapped.dom().contains(left));
        }
        if right != mapping {
            assert(mapped.dom().contains(right));
        }
    }
}

/// A fresh mapping is no slab that is there.
proof fn lemma_mapping_is_no_slab(space: Space, mapping: usize, bytes: int)
    requires
        space.inv(),
        fresh_mapping(space.domains@, space.mapped@, mapping, bytes),
    ensures
        !space.slabs@.dom().contains(mapping),
{
    if space.slabs@.dom().contains(mapping) {
        assert(slab_placed(space.holdings@, space.mapped@, mapping));
        lemma_mapping_joins(space, mapping, bytes);
        let base = choose|base: usize| #[trigger] crate::allocator::space::slab_in(space.holdings@, base, mapping);
        crate::allocator::refills::lemma_held_bounds(space, base);
        let (at, index) = choose|at: int, index: int|
            0 <= at < space.domains@.len() && 0 <= index < space.domains@[at].regions@.len() && (
            #[trigger] space.domains@[at].regions@[index]).base <= base && base + space.holdings@[base].slices
                * MEDIUM_SLICE_SIZE <= space.domains@[at].regions@[index].base
                + MEDIUM_REGION_SIZE;
        assert(stretches_apart(
            mapping as int,
            bytes,
            space.domains@[at].regions@[index].base as int,
            MEDIUM_REGION_SIZE as int,
        ));
    }
}

/// Whether nothing but a heap's count of outside blocks, the records and the mappings may differ.
pub open spec fn same_but_direct(before: Space, after: Space, owner: Option<usize>) -> bool {
    &&& after.tuning == before.tuning
    &&& after.domains == before.domains
    &&& after.slabs == before.slabs
    &&& after.remotes == before.remotes
    &&& after.bumps == before.bumps
    &&& after.holdings == before.holdings
    &&& after.out == before.out
    &&& match owner {
        None => after.heaps == before.heaps,
        Some(heap) => {
            &&& after.heaps@.len() == before.heaps@.len()
            &&& forall|other: int|
                #![trigger after.heaps@[other]]
                0 <= other < before.heaps@.len() && other != heap ==> after.heaps@[other] == before.heaps@[other]
            &&& after.heaps@[heap as int] == (HeapState {
                retirement: after.heaps@[heap as int].retirement,
                ..before.heaps@[heap as int]
            })
        },
    }
}

/// What holds of the blocks in use does not hang on the heaps' counts, and on the records and the
/// mappings only as far as a block lies in a mapping of its own.
pub proof fn lemma_direct_uses(before: Space, after: Space, owner: Option<usize>, block: Block)
    requires
        same_but_direct(before, after, owner),
        !(block is Direct),
    ensures
        before.uses(block) == after.uses(block),
{
    match block {
        Block::Small { block, context, class, requested_bytes } => {
            if before.used_as(block, context, class, requested_bytes) {
                lemma_small_kept(before, after, block, context, class, requested_bytes);
            }
            if after.used_as(block, context, class, requested_bytes) {
                lemma_small_kept(after, before, block, context, class, requested_bytes);
            }
        },
        _ => {},
    }
}

/// The counts of a heap, the records and the mappings of single blocks are of no matter to the rest.
pub proof fn lemma_direct_step(before: Space, after: Space, owner: Option<usize>)
    requires
        before.inv(),
        same_but_direct(before, after, owner),
        owner matches Some(heap) ==> heap < before.heaps@.len(),
        mapped_ok(after.domains@, after.mapped@),
        forall|slab: usize|
            #[trigger] before.mapped@.dom().contains(slab) && before.slabs@.dom().contains(slab) ==> after.mapped@.dom().contains(slab)
                && after.mapped@[slab] == before.mapped@[slab],
    ensures
        after.inv(),
{
    let counted = Space { heaps: after.heaps, ..before };
    if let Some(heap) = owner {
        let heap = heap as int;
        assert(before.heap_ok(heap));
        assert(same_but_heap(before, counted, heap));
        assert(cache_held(counted.heaps@[heap], counted.holdings@)) by {
            assert(cache_held(before.heaps@[heap], before.holdings@));
        }
        assert(locality_held(counted.heaps@[heap], counted.holdings@, counted.slabs@)) by {
            assert(locality_held(before.heaps@[heap], before.holdings@, before.slabs@));
        }
        lemma_arena_step(before, counted, heap);
    }
    lemma_span_step(counted, after, 0);
}

/// Taking a record away leaves the others in order.
pub proof fn lemma_records_without(before: Space, after: Space, gone: int)
    requires
        before.records_ok(),
        0 <= gone < before.records.extras@.len(),
        after.records.extras@ == before.records.extras@.remove(gone),
        after.sizes() == before.sizes(),
        forall|block: usize, class: int, requested_bytes: int|
            #[trigger] before.used_as(block, true, class, requested_bytes) ==> after.used_as(block, true, class, requested_bytes),
    ensures
        after.records_ok(),
{
    let extras = before.records.extras@;
    let now = after.records.extras@;
    assert forall|at: int| 0 <= at < now.len() && !is_direct(#[trigger] now[at]) implies exists|
        block: usize,
        requested_bytes: int,
    | #[trigger] after.holds_record(at, block, requested_bytes) by {
        let old_at = if at < gone {
            at
        } else {
            at + 1
        };
        assert(now[at] == extras[old_at]);
        let (block, requested_bytes) = choose|block: usize, requested_bytes: int|
            #[trigger] before.holds_record(old_at, block, requested_bytes);
        let class = now[at].class_index->0 as int;
        assert forall|other: int| 0 <= other < now.len() && other != at implies !(block <= (#[trigger] now[other]).address < block
            + after.sizes()[class]) by {
            let old_other = if other < gone {
                other
            } else {
                other + 1
            };
            assert(now[other] == extras[old_other]);
        }
        assert(after.holds_record(at, block, requested_bytes));
    }
    assert forall|left: int, right: int|
        #![trigger now[left], now[right]]
        0 <= left < right < now.len() implies now[left].address != now[right].address by {
        let i = if left < gone {
            left
        } else {
            left + 1
        };
        let j = if right < gone {
            right
        } else {
            right + 1
        };
        assert(now[left] == extras[i] && now[right] == extras[j]);
    }
}

/// A record that was there lies in no block that is new.
proof fn lemma_apart_from_record(before: Space, after: Space, at: int, own: Block)
    requires
        before.whole(),
        after.inv(),
        directs_ok(after.records.extras@, after.mapped@, after.slabs@),
        after.sizes() == before.sizes(),
        uses_kept(before, after),
        0 <= at < before.records.extras@.len(),
        after.uses(own),
        !before.uses(own),
    ensures
        !(after.start_of(own) <= before.records.extras@[at].address < after.start_of(own) + after.length_of(own)),
{
    let block = lemma_record_lies(before, at);
    assert(after.uses(block));
    law_blocks_in_use_lie_apart(after, block, own);
}

impl Space {
    /// Whom a block counts for.
    pub open spec fn owner_of_direct(&self, owner: Option<usize>) -> SpanOwner {
        match owner {
            None => SpanOwner { heap: 0, retirable: false },
            Some(heap) => self.heaps@[heap as int].span_owner(),
        }
    }

    /// Puts a block into a mapping of its own, and records it.
    pub fn map_direct(
        &mut self,
        plan: DirectPlan,
        layout: Layout,
        mapping: usize,
        owner: Option<usize>,
    ) -> (address: usize)
        requires
            old(self).whole(),
            layout.wf(),
            plan.mapping_size == mapping_bytes(layout, plan.class_size),
            plan.class_size matches Some(size) ==> size > 0,
            fresh_mapping(old(self).domains@, old(self).mapped@, mapping, plan.mapping_size as int),
            owner matches Some(heap) ==> heap < old(self).heaps@.len(),
        ensures
            final(self).whole(),
            same_but_direct(*old(self), *final(self), owner),
            direct_address(layout, plan.class_size, mapping as int) == Some(address as int),
            mapping <= address,
            address + layout.spec_bytes() <= mapping + plan.mapping_size,
            address as int % (layout.align as int) == 0,
            final(self).mapped@ == old(self).mapped@.insert(mapping, plan.mapping_size as int),
            owner matches Some(heap) ==> final(self).heaps@[heap as int].retirement == old(self).heaps@[heap as int].retained(),
            final(self).records.extras@ == old(self).records.extras@.push(
                ExtraHeader {
                    address,
                    mapping_address: mapping,
                    mapping_size: plan.mapping_size,
                    tracking: crate::telemetry::events::not_logged(),
                    class_index: None,
                    owner: old(self).owner_of_direct(owner),
                    requested_bytes: layout.size,
                    usable_bytes: layout.spec_bytes() as usize,
                },
            ),
            final(self).record_of(address).owner == old(self).owner_of_direct(owner),
            final(self).uses(Block::Direct { address, mapping, bytes: plan.mapping_size as int }),
            !old(self).uses(Block::Direct { address, mapping, bytes: plan.mapping_size as int }),
            forall|block: Block|
                #[trigger] old(self).uses(block) && !(block matches Block::Direct { address: other, .. } && other == address)
                    ==> final(self).uses(block),
            uses_kept(*old(self), *final(self)),
    {
        let ghost before = *self;
        let placed: Option<usize> = place_direct(plan, layout, mapping);
        let address: usize = match placed {
            Some(address) => address,
            None => mapping,
        };
        proof {
            lemma_mapping_joins(before, mapping, plan.mapping_size as int);
            lemma_mapping_is_no_slab(before, mapping, plan.mapping_size as int);
        }
        let span_owner: SpanOwner = match owner {
            None => SpanOwner { heap: 0, retirable: false },
            Some(heap) => {
                self.heaps[heap].retain_external_allocation();
                SpanOwner { heap: self.heaps[heap].address, retirable: self.heaps[heap].retirable }
            },
        };
        let usable_bytes: usize = layout.bytes();
        self.records.register(
            ExtraHeader {
                address,
                mapping_address: mapping,
                mapping_size: plan.mapping_size,
                tracking: TrackingAllocation::none(),
                class_index: None,
                owner: span_owner,
                requested_bytes: layout.size,
                usable_bytes,
            },
        );
        proof {
            self.mapped@ = before.mapped@.insert(mapping, plan.mapping_size as int);
            lemma_direct_step(before, *self, owner);
            lemma_segments_go_on(before, *self);
            lemma_refs_go_on(before, *self, -1, 0);
            let extras = before.records.extras@;
            let extra = self.records.extras@.last();
            let now = self.records.extras@;
            assert(now == extras.push(extra));
            assert forall|at: int| 0 <= at < now.len() && is_direct(#[trigger] now[at]) implies direct_ok(
                now[at],
                self.mapped@,
                self.slabs@,
            ) by {
                if at < extras.len() {
                    assert(direct_ok(extras[at], before.mapped@, before.slabs@));
                }
            }
            assert forall|left: int, right: int|
                #![trigger now[left], now[right]]
                0 <= left < right < now.len() && is_direct(now[left]) && is_direct(now[right]) implies now[left].mapping_address
                != now[right].mapping_address by {
                assert(direct_ok(extras[left], before.mapped@, before.slabs@));
                if right < extras.len() {
                    assert(extras[left].mapping_address != extras[right].mapping_address);
                }
            }
            lemma_record_pushed(extras, extra, address);
            assert(!before.uses(Block::Direct { address, mapping, bytes: plan.mapping_size as int })) by {
                lemma_record_at(extras, address);
                if record_at(extras, address) >= 0 && is_direct(before.record_of(address)) {
                    assert(direct_ok(before.record_of(address), before.mapped@, before.slabs@));
                }
            }
            assert forall|block: Block| #[trigger] before.uses(block) implies self.uses(block) by {
                if let Block::Direct { address: other, mapping: theirs, bytes } = block {
                    lemma_record_pushed(extras, extra, other);
                    lemma_record_at(extras, other);
                    let kept = before.record_of(other);
                    assert(direct_ok(kept, before.mapped@, before.slabs@));
                    assert(stretches_apart(mapping as int, plan.mapping_size as int, theirs as int, before.mapped@[theirs]));
                    assert(other != address);
                } else {
                    lemma_direct_uses(before, *self, owner, block);
                }
            }
            let own = Block::Direct { address, mapping, bytes: plan.mapping_size as int };
            assert forall|at: int| 0 <= at < now.len() && !is_direct(#[trigger] now[at]) implies exists|
                block: usize,
                requested_bytes: int,
            | #[trigger] self.holds_record(at, block, requested_bytes) by {
                let (block, requested_bytes) = choose|block: usize, requested_bytes: int|
                    #[trigger] before.holds_record(at, block, requested_bytes);
                let class = now[at].class_index->0 as int;
                let holder = Block::Small { block, context: true, class, requested_bytes };
                lemma_direct_uses(before, *self, owner, holder);
                assert(before.uses(holder) && self.uses(holder));
                law_blocks_in_use_lie_apart(*self, own, holder);
                assert forall|other: int| 0 <= other < now.len() && other != at implies !(block <= (#[trigger] now[other]).address < block
                    + self.sizes()[class]) by {
                    if other < extras.len() {
                        assert(now[other] == extras[other]);
                    }
                }
                assert(self.holds_record(at, block, requested_bytes));
            }
            assert forall|left: int, right: int|
                #![trigger now[left], now[right]]
                0 <= left < right < now.len() implies now[left].address != now[right].address by {
                if right < extras.len() {
                    assert(extras[left].address != extras[right].address);
                } else {
                    lemma_apart_from_record(before, *self, left, own);
                }
            }
        }
        address
    }

    /// Forgets a block in a mapping of its own, whose mapping is to go. Gives its record.
    #[verifier::spinoff_prover]
    #[verifier::rlimit(40)]
    pub fn unmap_direct(&mut self, address: usize) -> (extra: ExtraHeader)
        requires
            old(self).whole(),
            exists|mapping: usize, bytes: int| #[trigger] old(self).uses(Block::Direct { address, mapping, bytes }),
        ensures
            final(self).whole(),
            same_but_direct(*old(self), *final(self), None),
            extra == old(self).record_of(address),
            old(self).mapped@.dom().contains(extra.mapping_address),
            old(self).mapped@[extra.mapping_address] == extra.mapping_size,
            final(self).mapped@ == old(self).mapped@.remove(extra.mapping_address),
            final(self).records.extras@ == old(self).records.extras@.remove(record_at(old(self).records.extras@, address)),
            forall|block: Block|
                #[trigger] old(self).uses(block) && block != (Block::Direct {
                    address,
                    mapping: extra.mapping_address,
                    bytes: extra.mapping_size as int,
                }) ==> final(self).uses(block),
    {
        let ghost before = *self;
        let ghost extras = self.records.extras@;
        let ghost at = record_at(extras, address);
        proof {
            lemma_record_at(extras, address);
        }
        let removed: Option<ExtraHeader> = self.records.unregister(address);
        match removed {
            None => {
                proof {
                    assert(false);
                }
                ExtraHeader {
                    address,
                    mapping_address: 0,
                    mapping_size: 0,
                    tracking: TrackingAllocation::none(),
                    class_index: None,
                    owner: SpanOwner { heap: 0, retirable: false },
                    requested_bytes: 0,
                    usable_bytes: 0,
                }
            },
            Some(extra) => {
                proof {
                    let mapping = extra.mapping_address;
                    self.mapped@ = before.mapped@.remove(mapping);
                    assert(direct_ok(extra, before.mapped@, before.slabs@));
                    assert(mapped_ok(self.domains@, self.mapped@)) by {
                        assert forall|left: usize| #[trigger] self.mapped@.dom().contains(left) implies before.mapped@.dom().contains(left)
                            && self.mapped@[left] == before.mapped@[left] by {}
                    }
                    lemma_direct_step(before, *self, None);
                    lemma_segments_go_on(before, *self);
                    lemma_refs_go_on(before, *self, -1, 0);
                    let now = self.records.extras@;
                    assert forall|place: int| 0 <= place < now.len() && is_direct(#[trigger] now[place]) implies direct_ok(
                        now[place],
                        self.mapped@,
                        self.slabs@,
                    ) by {
                        let old_place = if place < at {
                            place
                        } else {
                            place + 1
                        };
                        assert(now[place] == extras[old_place]);
                        assert(direct_ok(extras[old_place], before.mapped@, before.slabs@));
                        if old_place < at {
                            assert(extras[old_place].mapping_address != extras[at].mapping_address);
                        } else {
                            assert(extras[at].mapping_address != extras[old_place].mapping_address);
                        }
                    }
                    assert forall|left: int, right: int|
                        #![trigger now[left], now[right]]
                        0 <= left < right < now.len() && is_direct(now[left]) && is_direct(now[right]) implies now[left].mapping_address
                        != now[right].mapping_address by {
                        let i = if left < at {
                            left
                        } else {
                            left + 1
                        };
                        let j = if right < at {
                            right
                        } else {
                            right + 1
                        };
                        assert(now[left] == extras[i] && now[right] == extras[j]);
                    }
                    assert forall|block: Block|
                        #[trigger] before.uses(block) && block != (Block::Direct {
                            address,
                            mapping: extra.mapping_address,
                            bytes: extra.mapping_size as int,
                        }) implies self.uses(block) by {
                        if let Block::Direct { address: other, mapping: theirs, bytes } = block {
                            if other != address {
                                lemma_record_removed(extras, at, other);
                            }
                        } else {
                            lemma_direct_uses(before, *self, None, block);
                        }
                    }
                    assert forall|block: usize, class: int, requested_bytes: int|
                        #[trigger] before.used_as(block, true, class, requested_bytes) implies self.used_as(
                        block,
                        true,
                        class,
                        requested_bytes,
                    ) by {
                        lemma_direct_uses(before, *self, None, Block::Small { block, context: true, class, requested_bytes });
                    }
                }
                proof {
                    lemma_records_without(before, *self, at);
                }
                extra
            },
        }
    }
}

} // verus!
