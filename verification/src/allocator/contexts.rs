//! Small blocks with records.

use vstd::prelude::*;

use crate::allocator::blocks::lemma_at_address;
use crate::allocator::classes::{segment_of, user_offset};
use crate::allocator::direct::{
    context_address, law_recorded_blocks_hold_their_layout, lemma_record_at, record_at, record_class,
    ExtraHeader,
};
use crate::allocator::directs::{
    lemma_direct_step, lemma_direct_uses, lemma_record_pushed, lemma_record_removed, lemma_records_without,
    same_but_direct,
};
use crate::allocator::layout::Layout;
use crate::allocator::references::lemma_refs_go_on;
use crate::allocator::region::SpanOwner;
use crate::allocator::segments::lemma_segments_go_on;
use crate::allocator::serving::step_kept;
use crate::allocator::space::Space;
use crate::allocator::uses::{
    direct_ok, is_direct, law_blocks_in_use_lie_apart, lemma_in_slab, lemma_record_lies, Block,
};
use crate::telemetry::events::TrackingAllocation;

verus! {

impl Space {
    /// Whether the block is in use with a record under the address.
    pub open spec fn uses_recorded(&self, block: usize, address: usize, class: int, requested_bytes: int) -> bool {
        &&& self.used_as(block, true, class, requested_bytes)
        &&& record_at(self.records.extras@, address) >= 0
        &&& self.record_of(address).class_index == Some(class as usize)
        &&& block <= address < block + self.sizes()[class]
    }

    /// Whether no record lies in the block.
    pub open spec fn unrecorded(&self, block: usize, class: int) -> bool {
        forall|at: int|
            0 <= at < self.records.extras@.len() ==> !(block <= (#[trigger] self.records.extras@[at]).address < block
                + self.sizes()[class])
    }

    /// Records a small block that was put to use. Gives where the user's bytes start.
    pub fn record_context(&mut self, block: usize, class: usize, layout: Layout) -> (address: usize)
        requires
            old(self).whole(),
            layout.wf(),
            record_class(old(self).sizes(), layout) == Some(class),
            old(self).used_as(block, true, class as int, layout.size as int),
            old(self).unrecorded(block, class as int),
        ensures
            step_kept(*old(self), *final(self)),
            same_but_direct(*old(self), *final(self), None),
            final(self).mapped == old(self).mapped,
            address == block + user_offset(layout.align as int),
            address as int % (layout.align as int) == 0,
            address + layout.spec_bytes() <= block + old(self).sizes()[class as int],
            final(self).uses_recorded(block, address, class as int, layout.size as int),
            final(self).records.extras@ == old(self).records.extras@.push(
                ExtraHeader {
                    address,
                    mapping_address: 0,
                    mapping_size: 0,
                    tracking: crate::telemetry::events::not_logged(),
                    class_index: Some(class),
                    owner: SpanOwner { heap: 0, retirable: false },
                    requested_bytes: layout.size,
                    usable_bytes: old(self).sizes()[class as int],
                },
            ),
    {
        let ghost before = *self;
        let ghost extras = self.records.extras@;
        proof {
            lemma_context_block(before, block, class as int, layout);
        }
        let address: usize = context_address(block, layout);
        let usable_bytes: usize = self.tuning.sizes[class];
        self.records.register(
            ExtraHeader {
                address,
                mapping_address: 0,
                mapping_size: 0,
                tracking: TrackingAllocation::none(),
                class_index: Some(class),
                owner: SpanOwner { heap: 0, retirable: false },
                requested_bytes: layout.size,
                usable_bytes,
            },
        );
        proof {
            let now = self.records.extras@;
            let extra = now.last();
            assert(now == extras.push(extra));
            lemma_direct_step(before, *self, None);
            lemma_segments_go_on(before, *self);
            lemma_refs_go_on(before, *self, -1, 0);
            lemma_record_pushed(extras, extra, address);
            assert forall|other: Block| #[trigger] before.uses(other) implies self.uses(other) by {
                if let Block::Direct { address: theirs, mapping, bytes } = other {
                    lemma_record_pushed(extras, extra, theirs);
                    lemma_record_at(extras, theirs);
                    assert(extras[record_at(extras, theirs)].address == theirs);
                } else {
                    lemma_direct_uses(before, *self, None, other);
                }
            }
            assert(self.uses(Block::Small { block, context: true, class: class as int, requested_bytes: layout.size as int })) by {
                assert(before.uses(Block::Small { block, context: true, class: class as int, requested_bytes: layout.size as int }));
            }
            assert forall|at: int| 0 <= at < now.len() && is_direct(#[trigger] now[at]) implies direct_ok(
                now[at],
                self.mapped@,
                self.slabs@,
            ) by {
                assert(now[at] == extras[at]);
            }
            assert forall|at: int| 0 <= at < now.len() && !is_direct(#[trigger] now[at]) implies exists|
                held: usize,
                requested_bytes: int,
            | #[trigger] self.holds_record(at, held, requested_bytes) by {
                if at < extras.len() {
                    let (held, requested_bytes) = choose|held: usize, requested_bytes: int|
                        #[trigger] before.holds_record(at, held, requested_bytes);
                    let theirs = now[at].class_index->0 as int;
                    let holder = Block::Small { block: held, context: true, class: theirs, requested_bytes };
                    lemma_direct_uses(before, *self, None, holder);
                    let own = Block::Small { block, context: true, class: class as int, requested_bytes: layout.size as int };
                    assert(before.uses(own) && before.uses(holder));
                    if own == holder {
                        assert(!(block <= extras[at].address < block + before.sizes()[class as int]));
                    } else {
                        law_blocks_in_use_lie_apart(before, own, holder);
                    }
                    assert forall|other: int| 0 <= other < now.len() && other != at implies !(held <= (#[trigger] now[other]).address
                        < held + self.sizes()[theirs]) by {
                        if other < extras.len() {
                            assert(now[other] == extras[other]);
                        }
                    }
                    assert(self.holds_record(at, held, requested_bytes));
                } else {
                    assert forall|other: int| 0 <= other < now.len() && other != at implies !(block <= (#[trigger] now[other]).address
                        < block + self.sizes()[class as int]) by {
                        assert(now[other] == extras[other]);
                    }
                    assert(self.holds_record(at, block, layout.size as int));
                }
            }
            assert forall|left: int, right: int|
                #![trigger now[left], now[right]]
                0 <= left < right < now.len() implies now[left].address != now[right].address by {
                if right < extras.len() {
                    assert(extras[left].address != extras[right].address);
                } else {
                    assert(now[left] == extras[left]);
                }
            }
        }
        address
    }

    /// Takes the record of a small block away.
    pub fn forget_context(&mut self, block: usize, address: usize, class: usize, requested_bytes: usize) -> (extra: ExtraHeader)
        requires
            old(self).whole(),
            old(self).uses_recorded(block, address, class as int, requested_bytes as int),
        ensures
            step_kept(*old(self), *final(self)),
            same_but_direct(*old(self), *final(self), None),
            final(self).mapped == old(self).mapped,
            extra == old(self).record_of(address),
            final(self).records.extras@ == old(self).records.extras@.remove(record_at(old(self).records.extras@, address)),
            final(self).used_as(block, true, class as int, requested_bytes as int),
    {
        let ghost before = *self;
        let ghost extras = self.records.extras@;
        let ghost at = record_at(extras, address);
        proof {
            lemma_record_at(extras, address);
        }
        let removed: Option<ExtraHeader> = self.records.unregister(address);
        proof {
            lemma_forgotten(before, *self, block, address, class as int, requested_bytes as int);
        }
        match removed {
            Some(extra) => extra,
            None => ExtraHeader {
                address,
                mapping_address: 0,
                mapping_size: 0,
                tracking: TrackingAllocation::none(),
                class_index: Some(class),
                owner: SpanOwner { heap: 0, retirable: false },
                requested_bytes,
                usable_bytes: 0,
            },
        }
    }
}

/// Without one of its small blocks' records the space stays whole, and the block stays in use.
#[verifier::spinoff_prover]
#[verifier::rlimit(40)]
proof fn lemma_forgotten(before: Space, after: Space, block: usize, address: usize, class: int, requested_bytes: int)
    requires
        before.whole(),
        before.uses_recorded(block, address, class, requested_bytes),
        same_but_direct(before, after, None),
        after.mapped == before.mapped,
        after.records.extras@ == before.records.extras@.remove(record_at(before.records.extras@, address)),
    ensures
        step_kept(before, after),
        after.used_as(block, true, class, requested_bytes),
{
    let extras = before.records.extras@;
    let at = record_at(extras, address);
    lemma_record_at(extras, address);
    lemma_direct_step(before, after, None);
    let now = after.records.extras@;
        lemma_segments_go_on(before, after);
    lemma_refs_go_on(before, after, -1, 0);
    assert forall|place: int| 0 <= place < now.len() implies #[trigger] now[place] == extras[if place < at {
        place
    } else {
        place + 1
    }] by {}
    assert forall|place: int| 0 <= place < now.len() && is_direct(#[trigger] now[place]) implies direct_ok(
        now[place],
        after.mapped@,
        after.slabs@,
    ) by {
        assert(direct_ok(
            extras[if place < at {
                place
            } else {
                place + 1
            }],
            before.mapped@,
            before.slabs@,
        ));
    }
    assert forall|other: Block| #[trigger] before.uses(other) implies after.uses(other) by {
        if let Block::Direct { address: theirs, mapping, bytes } = other {
            if theirs != address {
                lemma_record_removed(extras, at, theirs);
            }
        } else {
            lemma_direct_uses(before, after, None, other);
        }
    }
    assert(before.uses(Block::Small { block, context: true, class: class, requested_bytes }));
    assert forall|held: usize, theirs: int, requested: int|
        #[trigger] before.used_as(held, true, theirs, requested) implies after.used_as(held, true, theirs, requested) by {
        lemma_direct_uses(
            before,
            after,
            None,
            Block::Small { block: held, context: true, class: theirs, requested_bytes: requested },
        );
    }
    lemma_records_without(before, after, at);
}

/// A block that was just put to use holds no record yet.
pub proof fn lemma_unrecorded(before: Space, after: Space, block: usize, class: int, requested_bytes: int)
    requires
        before.whole(),
        step_kept(before, after),
        after.records == before.records,
        after.used_as(block, true, class, requested_bytes),
        !before.used_as(block, true, class, requested_bytes),
    ensures
        after.unrecorded(block, class),
{
    let own = Block::Small { block, context: true, class, requested_bytes };
    assert(after.uses(own) && !before.uses(own));
    assert forall|at: int| 0 <= at < after.records.extras@.len() implies !(block <= (#[trigger] after.records.extras@[at]).address < block
        + after.sizes()[class]) by {
        let theirs = lemma_record_lies(before, at);
        assert(after.uses(theirs));
        law_blocks_in_use_lie_apart(after, theirs, own);
    }
}

/// Where the user's bytes lie in a block with a record.
proof fn lemma_context_block(space: Space, block: usize, class: int, layout: Layout)
    requires
        space.inv(),
        layout.wf(),
        space.used_as(block, true, class, layout.size as int),
        record_class(space.sizes(), layout) == Some(class as usize),
    ensures
        block + space.sizes()[class] <= usize::MAX,
        user_offset(layout.align as int) + layout.spec_bytes() <= space.sizes()[class],
        (block + user_offset(layout.align as int)) % (layout.align as int) == 0,
{
    lemma_in_slab(space, block, true, class, layout.size as int);
    let slab = segment_of(block as int) as usize;
    lemma_at_address(&space.slabs, slab);
    let model = space.slabs@[slab];
    let size = model.block_size;
    let index = model.index_of(block as int);
    assert(block - model.address == index * size) by (nonlinear_arith)
        requires
            index == (block - model.address) / size,
            (block - model.address) % size == 0,
            size > 0,
    ;
    law_recorded_blocks_hold_their_layout(space.sizes(), layout, slab as int, index);
}

} // verus!
