//! Which blocks come into use with a step, and that no others do.

use vstd::prelude::*;

use crate::allocator::blocks::lemma_marked;
use crate::allocator::bump::BumpState;
use crate::allocator::bumps::same_but_bump;
use crate::allocator::classes::segment_of;
use crate::allocator::direct::ExtraHeader;
use crate::allocator::directs::{lemma_direct_uses, lemma_record_pushed, lemma_record_removed, same_but_direct};
use crate::allocator::domains::{lemma_region_at, DomainState};
use crate::allocator::frames::alike_slab;
use crate::allocator::heaps::allocated;
use crate::allocator::holdings::{lemma_apart_in, registered, unregistered};
use crate::allocator::region::{no_allocation, SpanOwner};
use crate::allocator::releases::{went, without_entry};
use crate::allocator::remote::idle_at;
use crate::allocator::slab::RemoteFree;
use crate::allocator::space::Space;
use crate::allocator::uses::{is_direct, Block};

verus! {

impl DomainState {
    /// Nothing is a medium allocation here that was none in `other`.
    pub open spec fn no_more_live(&self, other: &DomainState) -> bool {
        forall|a: int, s: int| #[trigger] self.medium_live(a, s) ==> other.medium_live(a, s)
    }

    /// Nothing but at the address is a medium allocation here that was none in `other`.
    pub open spec fn no_live_but(&self, other: &DomainState, address: int) -> bool {
        forall|a: int, s: int| #[trigger] self.medium_live(a, s) && a != address ==> other.medium_live(a, s)
    }
}

/// The medium allocations are those that are registered.
pub proof fn lemma_same_allocations(before: &DomainState, after: &DomainState)
    requires
        before.wf(),
        after.wf(),
        after.regions@.len() == before.regions@.len(),
        forall|at: int|
            #![trigger after.regions@[at]]
            0 <= at < before.regions@.len() ==> after.regions@[at].base == before.regions@[at].base && after.regions@[at].allocations
                == before.regions@[at].allocations,
    ensures
        after.no_more_live(before),
{
    assert forall|a: int, s: int| #[trigger] after.medium_live(a, s) implies before.medium_live(a, s) by {
        let at = after.region_at(a)->0;
        assert(0 <= at < after.regions@.len() && after.regions@[at].holds(a));
        assert(before.regions@[at].holds(a));
        lemma_region_at(before, a, at);
        let left = before.regions@[at];
        let right = after.regions@[at];
        assert(right.is_registered(right.slice_of(a)));
        assert(left.is_registered(left.slice_of(a)) && left.length(left.slice_of(a)) == right.length(right.slice_of(a)));
    }
}

/// Slices that are taken are no medium allocation.
pub proof fn lemma_allocated_lives(
    before: &DomainState,
    after: &DomainState,
    spare: Option<usize>,
    slices: int,
    base: usize,
    appended: bool,
)
    requires
        before.wf(),
        after.wf(),
        allocated(before, after, spare, slices, base, appended),
    ensures
        after.no_more_live(before),
{
    if appended {
        let last = before.regions@.len() as int;
        assert forall|a: int, s: int| #[trigger] after.medium_live(a, s) implies before.medium_live(a, s) by {
            let at = after.region_at(a)->0;
            assert(0 <= at < after.regions@.len() && after.regions@[at].holds(a));
            let right = after.regions@[at];
            assert(right.is_registered(right.slice_of(a)));
            if at == last {
                assert(right == after.regions@.last());
                assert(!right.is_registered(right.slice_of(a)));
            } else {
                assert(before.regions@[at] == right);
                lemma_region_at(before, a, at);
            }
        }
    } else {
        lemma_same_allocations(before, after);
    }
}

/// A span that is registered is the one medium allocation that joins.
pub proof fn lemma_registered_lives(
    before: &DomainState,
    after: &DomainState,
    address: usize,
    slices: usize,
    requested_bytes: usize,
    owner: SpanOwner,
)
    requires
        before.wf(),
        after.wf(),
        before.idle_span(address as int, slices as int),
        registered(before, after, address, slices, requested_bytes, owner),
    ensures
        after.no_live_but(before, address as int),
{
    let index = before.region_at(address as int)->0;
    assert(0 <= index < before.regions@.len() && before.regions@[index].holds(address as int));
    assert forall|a: int, s: int| #[trigger] after.medium_live(a, s) && a != address implies before.medium_live(a, s) by {
        let at = after.region_at(a)->0;
        assert(0 <= at < after.regions@.len() && after.regions@[at].holds(a));
        let left = before.regions@[at];
        let right = after.regions@[at];
        assert(left.wf() && right.wf());
        assert(left.base == right.base);
        assert(left.holds(a));
        lemma_region_at(before, a, at);
        let slice = right.slice_of(a);
        assert(right.is_registered(slice));
        if at == index {
            lemma_apart_in(&left, a, s, 0, 0);
            lemma_apart_in(&left, address as int, slices as int, 0, 0);
            assert(slice != left.slice_of(address as int));
            assert(right.allocations@[slice] == left.allocations@[slice]);
        }
        assert(left.is_registered(slice) && left.length(slice) == right.length(slice));
    }
}

/// A span that is taken off the register is a medium allocation no more, and no other becomes one.
pub proof fn lemma_unregistered_lives(before: &DomainState, after: &DomainState, address: usize, slices: usize)
    requires
        before.wf(),
        after.wf(),
        before.medium_live(address as int, slices as int),
        unregistered(before, after, address),
    ensures
        after.no_more_live(before),
{
    assert forall|a: int, s: int| #[trigger] after.medium_live(a, s) implies before.medium_live(a, s) by {
        let at = after.region_at(a)->0;
        assert(0 <= at < after.regions@.len() && after.regions@[at].holds(a));
        let left = before.regions@[at];
        let right = after.regions@[at];
        assert(left.base == right.base);
        assert(left.holds(a));
        lemma_region_at(before, a, at);
        let slice = right.slice_of(a);
        assert(right.is_registered(slice));
        assert(left.wf() && right.wf());
        let index = before.region_at(address as int)->0;
        assert(0 <= index < before.regions@.len() && before.regions@[index].holds(address as int));
        lemma_apart_in(&before.regions@[index], address as int, slices as int, 0, 0);
        let gone = before.regions@[index].slice_of(address as int);
        if at == index && slice == gone {
            assert(right.allocations@[slice] == no_allocation());
        }
        assert(right.allocations@[slice] == left.allocations@[slice]);
        assert(left.is_registered(slice) && left.length(slice) == right.length(slice));
    }
}

/// Whether no medium block of any domain is new.
pub open spec fn mediums_less(before: Seq<DomainState>, after: Seq<DomainState>) -> bool {
    forall|at: int, a: int, s: int|
        0 <= at < after.len() && #[trigger] after[at].medium_live(a, s) ==> at < before.len() && before[at].medium_live(a, s)
}

/// No medium block is new where none of the one domain that differs is.
pub proof fn lemma_mediums_less(before: Seq<DomainState>, after: Seq<DomainState>, place: int)
    requires
        after.len() == before.len(),
        0 <= place < before.len(),
        forall|other: int| #![trigger after[other]] 0 <= other < before.len() && other != place ==> after[other] == before[other],
        after[place].no_more_live(&before[place]),
    ensures
        mediums_less(before, after),
{
    assert forall|at: int, a: int, s: int| 0 <= at < after.len() && #[trigger] after[at].medium_live(a, s) implies at < before.len()
        && before[at].medium_live(a, s) by {
        if at != place {
            assert(after[at] == before[at]);
        }
    }
}

/// Whether no block but the given one, if there is one, comes into use.
#[verifier::opaque]
pub open spec fn uses_only(before: Space, after: Space, own: Option<Block>) -> bool {
    forall|block: Block| #[trigger] after.uses(block) ==> before.uses(block) || own == Some(block)
}

/// Whether every slab that was there has the blocks in use that it had, and every other none.
pub open spec fn smalls_less(before: Space, after: Space) -> bool {
    forall|slab: usize|
        #[trigger] after.slabs@.dom().contains(slab) ==> after.out@[slab].len() == 0 || (before.slabs@.dom().contains(slab)
            && alike_slab(before.slabs@[slab], after.slabs@[slab]) && after.out@[slab] == before.out@[slab])
}

/// Whether no block of a bump heap is new.
pub open spec fn bumps_less(before: Seq<BumpState>, after: Seq<BumpState>) -> bool {
    forall|bump: int|
        #![trigger after[bump]]
        0 <= bump < after.len() && after[bump].wf() ==> bump < before.len() && before[bump].wf() && after[bump].live@
            == before[bump].live@
}

/// Nothing happened.
pub proof fn lemma_only_now(space: Space)
    ensures
        uses_only(space, space, None),
{
    reveal(uses_only);
}

/// A step after one with which nothing came into use.
pub proof fn lemma_only_then(before: Space, middle: Space, after: Space, own: Option<Block>)
    requires
        uses_only(before, middle, None),
        uses_only(middle, after, own),
    ensures
        uses_only(before, after, own),
{
    reveal(uses_only);
}

/// A block with an entry of its slab was in use where the entry was there.
proof fn lemma_was_used(before: Space, after: Space, block: usize, context: bool, class: int, requested_bytes: int, at: int)
    requires
        before.inv(),
        after.inv(),
        after.sizes() == before.sizes(),
        after.used_as(block, context, class, requested_bytes),
        ({
            let slab = segment_of(block as int) as usize;
            &&& before.slabs@.dom().contains(slab)
            &&& alike_slab(before.slabs@[slab], after.slabs@[slab])
        }),
        before.is_entry(at, block, before.sizes()[class] - requested_bytes),
    ensures
        before.used_as(block, context, class, requested_bytes),
{
    let slab = segment_of(block as int) as usize;
    assert(before.entries_ok(slab));
    assert(before.entry_ok(slab, at));
    assert(before.loose(block));
    assert(before.slabs@[slab].address == slab);
    assert(idle_at(before.slabs@, before.sizes(), context, class, block));
}

/// No small block comes into use where no slab has a new one.
proof fn lemma_smalls_less(before: Space, after: Space, block: usize, context: bool, class: int, requested_bytes: int)
    requires
        before.inv(),
        after.inv(),
        after.sizes() == before.sizes(),
        smalls_less(before, after),
        after.used_as(block, context, class, requested_bytes),
    ensures
        before.used_as(block, context, class, requested_bytes),
{
    let at = choose|at: int| #[trigger] after.is_entry(at, block, after.sizes()[class] - requested_bytes);
    let slab = segment_of(block as int) as usize;
    assert(after.slabs@.dom().contains(slab));
    assert(before.is_entry(at, block, before.sizes()[class] - requested_bytes));
    lemma_was_used(before, after, block, context, class, requested_bytes, at);
}

/// Nothing comes into use where nothing of any kind does.
pub proof fn lemma_still(before: Space, after: Space)
    requires
        before.inv(),
        after.inv(),
        after.sizes() == before.sizes(),
        smalls_less(before, after),
        mediums_less(before.domains@, after.domains@),
        bumps_less(before.bumps@, after.bumps@),
        after.records == before.records,
    ensures
        uses_only(before, after, None),
{
    reveal(uses_only);
    assert forall|block: Block| #[trigger] after.uses(block) implies before.uses(block) by {
        match block {
            Block::Small { block, context, class, requested_bytes } => {
                lemma_smalls_less(before, after, block, context, class, requested_bytes);
            },
            Block::Medium { place, address, slices } => {
                assert(after.domains@[place].medium_live(address as int, slices));
            },
            Block::Bump { bump, address, bytes } => {
                assert(after.bumps@[bump].wf());
            },
            Block::Direct { .. } => {},
        }
    }
}

/// A block that joins the blocks in use of its slab is the one that comes into use.
pub proof fn lemma_small_joins(before: Space, after: Space, block: usize, context: bool, class: int, requested_bytes: int)
    requires
        before.inv(),
        after.inv(),
        after.sizes() == before.sizes(),
        0 <= class < before.sizes().len(),
        0 <= requested_bytes <= before.sizes()[class],
        idle_at(before.slabs@, before.sizes(), context, class, block),
        forall|slab: usize|
            #[trigger] after.slabs@.dom().contains(slab) ==> before.slabs@.dom().contains(slab) && alike_slab(
                before.slabs@[slab],
                after.slabs@[slab],
            ),
        after.out@ == before.out@.insert(
            segment_of(block as int) as usize,
            before.out@[segment_of(block as int) as usize].push(
                RemoteFree { block, padding: (before.sizes()[class] - requested_bytes) as usize },
            ),
        ),
        after.domains == before.domains,
        after.bumps == before.bumps,
        after.records == before.records,
    ensures
        uses_only(before, after, Some(Block::Small { block, context, class, requested_bytes })),
{
    reveal(uses_only);
    let own = segment_of(block as int) as usize;
    assert forall|other: Block| #[trigger] after.uses(other) implies before.uses(other) || other == (Block::Small {
        block,
        context,
        class,
        requested_bytes,
    }) by {
        if let Block::Small { block: b, context: x, class: c, requested_bytes: r } = other {
            let at = choose|at: int| #[trigger] after.is_entry(at, b, after.sizes()[c] - r);
            let slab = segment_of(b as int) as usize;
            assert(after.slabs@.dom().contains(slab));
            assert(alike_slab(before.slabs@[slab], after.slabs@[slab]));
            if slab == own && at == before.out@[own].len() {
                assert(b == block);
                let marker = before.slabs@[own].marker;
                lemma_marked(context, class, marker);
                lemma_marked(x, c, marker);
            } else {
                assert(before.is_entry(at, b, before.sizes()[c] - r));
                lemma_was_used(before, after, b, x, c, r, at);
            }
        }
    }
}

/// Nothing comes into use where a small block goes.
pub proof fn lemma_small_goes(before: Space, after: Space, block: usize, padding: int)
    requires
        before.inv(),
        after.inv(),
        after.sizes() == before.sizes(),
        after.domains == before.domains,
        after.bumps == before.bumps,
        after.records == before.records,
        went(before, after, block, padding),
    ensures
        uses_only(before, after, None),
{
    reveal(uses_only);
    let slab = segment_of(block as int) as usize;
    let gone = choose|at: int|
        #[trigger] before.is_entry(at, block, padding) && after.out@ == without_entry(before.out@, slab, at);
    assert forall|other: Block| #[trigger] after.uses(other) implies before.uses(other) by {
        if let Block::Small { block: b, context: x, class: c, requested_bytes: r } = other {
            let at = choose|at: int| #[trigger] after.is_entry(at, b, after.sizes()[c] - r);
            let theirs = segment_of(b as int) as usize;
            assert(after.slabs@.dom().contains(theirs));
            assert(before.slabs@.dom().contains(theirs));
            assert(alike_slab(before.slabs@[theirs], after.slabs@[theirs]));
            let old_at = if theirs == slab && at >= gone {
                at + 1
            } else {
                at
            };
            assert(before.is_entry(old_at, b, before.sizes()[c] - r));
            lemma_was_used(before, after, b, x, c, r, old_at);
        }
    }
}

/// Nothing comes into use where a block of a bump heap goes.
pub proof fn lemma_bump_goes(before: Space, after: Space, bump: int, address: int)
    requires
        before.inv(),
        after.inv(),
        same_but_bump(before, after, bump),
        after.domains == before.domains,
        0 <= bump < before.bumps@.len(),
        before.bumps@[bump].wf(),
        after.bumps@[bump].live@ == before.bumps@[bump].live@.remove(address),
    ensures
        uses_only(before, after, None),
{
    reveal(uses_only);
    assert(smalls_less(before, after));
    assert forall|other: Block| #[trigger] after.uses(other) implies before.uses(other) by {
        match other {
            Block::Small { block, context, class, requested_bytes } => {
                lemma_smalls_less(before, after, block, context, class, requested_bytes);
            },
            Block::Bump { bump: at, address: a, bytes: b } => {
                if at != bump {
                    assert(after.bumps@[at] == before.bumps@[at]);
                }
            },
            _ => {},
        }
    }
}

/// Nothing comes into use where a record goes.
pub proof fn lemma_record_goes(before: Space, after: Space, gone: int)
    requires
        same_but_direct(before, after, None),
        before.records_ok(),
        0 <= gone < before.records.extras@.len(),
        after.records.extras@ == before.records.extras@.remove(gone),
    ensures
        uses_only(before, after, None),
{
    reveal(uses_only);
    let extras = before.records.extras@;
    let now = after.records.extras@;
    assert forall|other: Block| #[trigger] after.uses(other) implies before.uses(other) by {
        if let Block::Direct { address, mapping, bytes } = other {
            crate::allocator::direct::lemma_record_at(now, address);
            crate::allocator::direct::lemma_record_at(extras, address);
            if extras[gone].address == address {
                let at = crate::allocator::direct::record_at(now, address);
                let old_at = if at < gone {
                    at
                } else {
                    at + 1
                };
                assert(now[at] == extras[old_at]);
                if old_at < gone {
                    assert(extras[old_at].address != extras[gone].address);
                } else {
                    assert(extras[gone].address != extras[old_at].address);
                }
            } else {
                lemma_record_removed(extras, gone, address);
            }
        } else {
            lemma_direct_uses(before, after, None, other);
        }
    }
}

/// A span that is served is the block that comes into use.
pub proof fn lemma_medium_joins(before: Space, after: Space, place: int, address: usize, slices: int)
    requires
        before.inv(),
        after.inv(),
        after.sizes() == before.sizes(),
        after.slabs == before.slabs,
        after.out == before.out,
        after.bumps == before.bumps,
        after.records == before.records,
        after.domains@.len() == before.domains@.len(),
        forall|other: int|
            #![trigger after.domains@[other]]
            0 <= other < before.domains@.len() && other != place ==> after.domains@[other] == before.domains@[other],
        after.domains@[place].no_live_but(&before.domains@[place], address as int),
        after.domains@[place].medium_live(address as int, slices),
    ensures
        uses_only(before, after, Some(Block::Medium { place, address, slices })),
{
    reveal(uses_only);
    assert(smalls_less(before, after));
    assert forall|other: Block| #[trigger] after.uses(other) implies before.uses(other) || other == (Block::Medium {
        place,
        address,
        slices,
    }) by {
        match other {
            Block::Small { block, context, class, requested_bytes } => {
                lemma_smalls_less(before, after, block, context, class, requested_bytes);
            },
            Block::Medium { place: at, address: a, slices: s } => {
                assert(after.domains@[at].medium_live(a as int, s));
                if at != place {
                    assert(after.domains@[at] == before.domains@[at]);
                }
            },
            _ => {},
        }
    }
}

/// A block that a bump heap places is the one that comes into use.
pub proof fn lemma_bump_joins(before: Space, after: Space, bump: int, address: int, bytes: int)
    requires
        before.inv(),
        after.inv(),
        after.sizes() == before.sizes(),
        after.slabs == before.slabs,
        after.out == before.out,
        after.records == before.records,
        after.domains == before.domains,
        after.bumps@.len() == before.bumps@.len(),
        0 <= bump < before.bumps@.len(),
        before.bumps@[bump].wf(),
        forall|other: int|
            #![trigger after.bumps@[other]]
            0 <= other < before.bumps@.len() && other != bump ==> after.bumps@[other] == before.bumps@[other],
        after.bumps@[bump].live@ == before.bumps@[bump].live@.insert(address, bytes),
    ensures
        uses_only(before, after, Some(Block::Bump { bump, address, bytes })),
{
    reveal(uses_only);
    assert(smalls_less(before, after));
    assert forall|other: Block| #[trigger] after.uses(other) implies before.uses(other) || other == (Block::Bump {
        bump,
        address,
        bytes,
    }) by {
        match other {
            Block::Small { block, context, class, requested_bytes } => {
                lemma_smalls_less(before, after, block, context, class, requested_bytes);
            },
            Block::Bump { bump: at, address: a, bytes: b } => {
                if at != bump {
                    assert(after.bumps@[at] == before.bumps@[at]);
                }
            },
            _ => {},
        }
    }
}

/// A block in a mapping of its own is the one that comes into use with its record, and with the
/// record of a block of a slab none does.
pub proof fn lemma_record_joins(before: Space, after: Space, owner: Option<usize>, extra: ExtraHeader)
    requires
        same_but_direct(before, after, owner),
        after.records.extras@ == before.records.extras@.push(extra),
    ensures
        uses_only(
            before,
            after,
            if is_direct(extra) {
                Some(
                    Block::Direct { address: extra.address, mapping: extra.mapping_address, bytes: extra.mapping_size as int },
                )
            } else {
                None
            },
        ),
{
    reveal(uses_only);
    let extras = before.records.extras@;
    assert forall|other: Block| #[trigger] after.uses(other) implies before.uses(other) || (is_direct(extra) && other == (
    Block::Direct { address: extra.address, mapping: extra.mapping_address, bytes: extra.mapping_size as int })) by {
        if let Block::Direct { address, mapping, bytes } = other {
            lemma_record_pushed(extras, extra, address);
            crate::allocator::direct::lemma_record_at(extras, address);
            if address != extra.address {
                let at = crate::allocator::direct::record_at(extras, address);
                assert(extras.push(extra)[at] == extras[at]);
            }
        } else {
            lemma_direct_uses(before, after, owner, other);
        }
    }
}

} // verus!
