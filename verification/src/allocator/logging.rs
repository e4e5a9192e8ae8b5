//! What an event log knows of a block, kept with the block.

use vstd::prelude::*;

use crate::allocator::allocation::ServedKind;
use crate::allocator::bump::{header_of, TrackingHeader};
use crate::allocator::bumps::{lemma_bump_step, let_go, same_but_bump};
use crate::allocator::deallocation::has_header;
use crate::allocator::direct::{lemma_record_at, record_at, ExtraHeader};
use crate::allocator::directs::{lemma_direct_step, lemma_direct_uses, same_but_direct};
use crate::allocator::rallocator::lemma_empty_bump_kept;
use crate::allocator::references::lemma_refs_go_on;
use crate::allocator::segments::lemma_segments_go_on;
use crate::allocator::serving::step_kept;
use crate::allocator::space::Space;
use crate::allocator::threads::ThreadState;
use crate::allocator::uses::{direct_ok, is_direct, Block};
use crate::telemetry::events::{HeapKind, TrackingAllocation};

verus! {

/// The heap that the log names for a block, and of which kind it is. A thread that is about to end logs
/// nothing.
pub open spec fn logged_owner(thread: ThreadState, kind: ServedKind) -> Option<(usize, HeapKind)> {
    if thread.tearing_down {
        None
    } else if kind is Bump {
        Some((thread.active_bump, HeapKind::Bump))
    } else if kind is Recorded && thread.spec_current_remote() != 0 {
        Some((thread.spec_current_remote(), HeapKind::Thread))
    } else {
        Some((thread.spec_current_heap(), HeapKind::General))
    }
}

/// Finds the heap that the log names for a block, and its kind.
pub fn logged_heap(thread: &ThreadState, kind: ServedKind) -> (owner: Option<(usize, HeapKind)>)
    ensures
        owner == logged_owner(*thread, kind),
{
    if thread.tearing_down {
        return None;
    }
    match kind {
        ServedKind::Bump => Some((thread.active_bump, HeapKind::Bump)),
        ServedKind::Recorded { .. } => {
            let remote: usize = thread.current_remote();
            if remote != 0 {
                Some((remote, HeapKind::Thread))
            } else {
                Some((thread.current_heap(), HeapKind::General))
            }
        },
        _ => Some((thread.current_heap(), HeapKind::General)),
    }
}

/// The record at a place, with what an event log knows.
pub open spec fn logged_at(extras: Seq<ExtraHeader>, at: int, allocation: TrackingAllocation) -> Seq<ExtraHeader> {
    extras.update(at, ExtraHeader { tracking: allocation, ..extras[at] })
}

/// What an event log knows of one block does not matter to where the records stand.
proof fn lemma_record_logged(extras: Seq<ExtraHeader>, at: int, allocation: TrackingAllocation, address: usize)
    requires
        0 <= at < extras.len(),
    ensures
        record_at(logged_at(extras, at, allocation), address) == record_at(extras, address),
    decreases extras.len(),
{
    let now = logged_at(extras, at, allocation);
    if extras.last().address != address {
        if at < extras.len() - 1 {
            assert(now.drop_last() =~= logged_at(extras.drop_last(), at, allocation));
            lemma_record_logged(extras.drop_last(), at, allocation, address);
        } else {
            assert(now.drop_last() =~= extras.drop_last());
        }
    }
}

/// What an event log knows of a block does not matter to the space.
#[verifier::spinoff_prover]
proof fn lemma_logged(before: Space, after: Space, at: int, allocation: TrackingAllocation)
    requires
        before.whole(),
        same_but_direct(before, after, None),
        after.mapped == before.mapped,
        0 <= at < before.records.extras@.len(),
        after.records.extras@ == logged_at(before.records.extras@, at, allocation),
    ensures
        step_kept(before, after),
{
    let extras = before.records.extras@;
    let now = after.records.extras@;
    lemma_direct_step(before, after, None);
    lemma_segments_go_on(before, after);
    lemma_refs_go_on(before, after, -1, 0);
    assert forall|place: int| 0 <= place < now.len() implies (#[trigger] now[place]) == (ExtraHeader {
        tracking: now[place].tracking,
        ..extras[place]
    }) by {}
    assert forall|place: int| 0 <= place < now.len() && is_direct(#[trigger] now[place]) implies direct_ok(
        now[place],
        after.mapped@,
        after.slabs@,
    ) by {
        assert(direct_ok(extras[place], before.mapped@, before.slabs@));
    }
    assert forall|left: int, right: int|
        #![trigger now[left], now[right]]
        0 <= left < right < now.len() && is_direct(now[left]) && is_direct(now[right]) implies now[left].mapping_address
        != now[right].mapping_address by {
        assert(extras[left].mapping_address != extras[right].mapping_address);
    }
    assert forall|block: Block| #[trigger] before.uses(block) implies after.uses(block) by {
        if let Block::Direct { address, mapping, bytes } = block {
            lemma_record_logged(extras, at, allocation, address);
            lemma_record_at(extras, address);
            assert(now[record_at(extras, address)].mapping_address == mapping);
        } else {
            lemma_direct_uses(before, after, None, block);
        }
    }
    assert forall|place: int| 0 <= place < now.len() && !is_direct(#[trigger] now[place]) implies exists|
        block: usize,
        requested_bytes: int,
    | #[trigger] after.holds_record(place, block, requested_bytes) by {
        assert(!is_direct(extras[place]));
        let (block, requested_bytes) = choose|block: usize, requested_bytes: int|
            #[trigger] before.holds_record(place, block, requested_bytes);
        lemma_direct_uses(
            before,
            after,
            None,
            Block::Small { block, context: true, class: extras[place].class_index->0 as int, requested_bytes },
        );
        assert forall|other: int| 0 <= other < now.len() && other != place implies !(block <= (#[trigger] now[other]).address < block
            + after.sizes()[now[place].class_index->0 as int]) by {
            assert(now[other].address == extras[other].address);
        }
        assert(after.holds_record(place, block, requested_bytes));
    }
    assert forall|left: int, right: int|
        #![trigger now[left], now[right]]
        0 <= left < right < now.len() implies now[left].address != now[right].address by {
        assert(extras[left].address != extras[right].address);
    }
}

impl Space {
    /// Writes down which event a block with a record belongs to.
    pub fn log_record(&mut self, address: usize, allocation: TrackingAllocation)
        requires
            old(self).whole(),
            record_at(old(self).records.extras@, address) >= 0,
        ensures
            step_kept(*old(self), *final(self)),
            same_but_direct(*old(self), *final(self), None),
            final(self).mapped == old(self).mapped,
            final(self).records.extras@ == logged_at(
                old(self).records.extras@,
                record_at(old(self).records.extras@, address),
                allocation,
            ),
            final(self).record_of(address) == (ExtraHeader { tracking: allocation, ..old(self).record_of(address) }),
    {
        let ghost before = *self;
        proof {
            lemma_record_at(self.records.extras@, address);
        }
        if let Some(at) = self.records.find(address) {
            let extra: ExtraHeader = self.records.extras[at];
            self.records.extras.set(at, ExtraHeader { tracking: allocation, ..extra });
            proof {
                lemma_logged(before, *self, at as int, allocation);
                lemma_record_logged(before.records.extras@, at as int, allocation, address);
            }
        }
    }

    /// Writes down which event a block of a bump heap belongs to.
    pub fn log_bump(&mut self, bump: usize, address: usize, allocation: TrackingAllocation)
        requires
            old(self).whole(),
            bump < old(self).bumps@.len(),
            old(self).bumps@[bump as int].wf(),
            has_header(*old(self), bump as int, address),
        ensures
            step_kept(*old(self), *final(self)),
            same_but_bump(*old(self), *final(self), bump as int),
            final(self).domains == old(self).domains,
            final(self).holdings == old(self).holdings,
            final(self).bumps@[bump as int].live == old(self).bumps@[bump as int].live,
            ({
                let headers = old(self).bumps@[bump as int].headers@;
                let at = header_of(headers, address);
                final(self).bumps@[bump as int].headers@ == headers.update(at, TrackingHeader { allocation, ..headers[at] })
            }),
    {
        let ghost before = *self;
        self.bumps[bump].set_tracking(address, allocation);
        proof {
            assert(self.holdings@ =~= let_go(before.holdings@, Seq::empty()));
            lemma_bump_step(before, *self, bump as int, Seq::empty());
            lemma_empty_bump_kept(before, *self, bump as int);
        }
    }
}

} // verus!
