//! Blocks with a record: mapped on their own, or in a slab with what an event log needs.

use vstd::prelude::*;
use vstd::arithmetic::power2::{lemma_pow2_strictly_increases, pow2};

use crate::allocator::classes::{
    class_from, class_index_for_alignment, context_required_size, context_user_offset, default_class,
    direct_mapping_size, larger, lemma_class_from, lemma_multiple, small_class, user_offset, EXTRA_SIZE,
    HEADER_OFFSET, MAX_SMALL_ALIGNMENT,
};
use crate::allocator::layout::{align_up, aligned, lemma_aligned, Layout};
use crate::allocator::region::SpanOwner;
use crate::telemetry::events::TrackingAllocation;
use crate::tunables::{valid_sizes, Tuning};

verus! {

/// What is written down next to a block that no slab, span or chunk tells about.
#[derive(Clone, Copy, Debug, PartialEq, Eq, Structural)]
pub struct ExtraHeader {
    /// Where the user's bytes start.
    pub address: usize,
    /// The mapping that the block lies in alone, or 0.
    pub mapping_address: usize,
    pub mapping_size: usize,
    pub tracking: TrackingAllocation,
    /// The class of the block, or None for a block in a mapping of its own.
    pub class_index: Option<usize>,
    pub owner: SpanOwner,
    pub requested_bytes: usize,
    pub usable_bytes: usize,
}

/// How much is mapped for a block, and which class its address must not look like.
#[derive(Clone, Copy, Debug, PartialEq, Eq, Structural)]
pub struct DirectPlan {
    pub mapping_size: usize,
    /// The size of the blocks that a block without a record would have come from.
    pub class_size: Option<usize>,
}

/// The size of the class that the layout has without a record, where that matters.
pub open spec fn mistaken_size(sizes: Seq<usize>, layout: Layout, has_context: bool) -> Option<usize> {
    if has_context {
        match small_class(sizes, layout) {
            None => None,
            Some(class) => Some(sizes[class as int]),
        }
    } else {
        None
    }
}

pub open spec fn mapping_bytes(layout: Layout, class_size: Option<usize>) -> int {
    layout.spec_bytes() + (layout.align - 1) + (if class_size is Some {
        layout.align as int
    } else {
        0
    }) + HEADER_OFFSET + EXTRA_SIZE
}

/// Decides how much to map for a layout.
pub fn plan_direct(tuning: &Tuning, layout: Layout, has_context: bool) -> (plan: DirectPlan)
    requires
        tuning.wf(),
        layout.wf(),
    ensures
        plan.class_size == mistaken_size(tuning.sizes@, layout, has_context),
        plan.mapping_size == mapping_bytes(layout, plan.class_size),
{
    let exponent = Ghost(choose|exponent: nat| layout.align == #[trigger] vstd::arithmetic::power2::pow2(exponent));
    proof {
        vstd::arithmetic::power2::lemma_pow2_pos(exponent@);
    }
    let class: Option<usize> = if has_context {
        default_class(tuning, layout)
    } else {
        None
    };
    let mut class_size: Option<usize> = None;
    let mut space: usize = 0;
    if let Some(class) = class {
        proof {
            lemma_class_from(
                tuning.sizes@,
                0,
                larger(layout.spec_bytes(), layout.align as int),
                if layout.align <= 16 {
                    1
                } else {
                    layout.align as int
                },
            );
        }
        class_size = Some(tuning.sizes[class]);
        space = layout.align;
    }
    match direct_mapping_size(layout.bytes(), layout.align, space) {
        Some(mapping_size) => DirectPlan { mapping_size, class_size },
        None => {
            proof {
                assert(false);
            }
            DirectPlan { mapping_size: 0, class_size }
        },
    }
}

/// Where the user's bytes lie in a mapping. None where the address space ends before them.
pub open spec fn direct_address(layout: Layout, class_size: Option<usize>, mapping: int) -> Option<int> {
    let first = mapping + EXTRA_SIZE + HEADER_OFFSET;
    let user = aligned(first, layout.align as int);
    if first + layout.align - 1 > usize::MAX {
        None
    } else if class_size is Some && (user as usize) & ((class_size->0 - 1) as usize) == 0 {
        if user + layout.align > usize::MAX {
            None
        } else {
            Some(user + layout.align)
        }
    } else {
        Some(user)
    }
}

/// Finds the place of the user's bytes in a mapping: behind the record, aligned, and not where
/// a block of the layout's class could start.
pub fn place_direct(plan: DirectPlan, layout: Layout, mapping: usize) -> (address: Option<usize>)
    requires
        layout.wf(),
        plan.mapping_size == mapping_bytes(layout, plan.class_size),
        plan.class_size matches Some(size) ==> size > 0,
    ensures
        match direct_address(layout, plan.class_size, mapping as int) {
            None => address is None,
            Some(user) => address matches Some(address) && address == user,
        },
        address matches Some(address) ==> {
            &&& mapping + EXTRA_SIZE + HEADER_OFFSET <= address
            &&& address + layout.spec_bytes() <= mapping + plan.mapping_size
            &&& address as int % (layout.align as int) == 0
        },
        mapping + plan.mapping_size <= usize::MAX ==> address is Some,
{
    let exponent = Ghost(choose|exponent: nat| layout.align == #[trigger] vstd::arithmetic::power2::pow2(exponent));
    proof {
        vstd::arithmetic::power2::lemma_pow2_pos(exponent@);
        lemma_aligned(mapping + EXTRA_SIZE + HEADER_OFFSET, layout.align as int);
    }
    let first: usize = match mapping.checked_add(EXTRA_SIZE + HEADER_OFFSET) {
        None => {
            return None;
        },
        Some(first) => first,
    };
    let user: usize = match align_up(first, layout.align) {
        None => {
            return None;
        },
        Some(user) => user,
    };
    if let Some(size) = plan.class_size {
        if user & (size - 1) == 0 {
            proof {
                vstd::arithmetic::div_mod::lemma_mod_add_multiples_vanish(user as int, layout.align as int);
            }
            return user.checked_add(layout.align);
        }
    }
    Some(user)
}

/// The class of the block that holds a layout and its record. None where no class does.
pub open spec fn record_class(sizes: Seq<usize>, layout: Layout) -> Option<usize> {
    if layout.align > MAX_SMALL_ALIGNMENT {
        None
    } else {
        class_from(
            sizes,
            0,
            larger(layout.size as int, 1) + user_offset(layout.align as int) + EXTRA_SIZE,
            layout.align as int,
        )
    }
}

pub fn context_class(tuning: &Tuning, layout: Layout) -> (class: Option<usize>)
    requires
        tuning.wf(),
        layout.wf(),
    ensures
        class == record_class(tuning.sizes@, layout),
        class matches Some(class) ==> {
            &&& class < tuning.sizes@.len()
            &&& user_offset(layout.align as int) + layout.spec_bytes() + EXTRA_SIZE <= tuning.sizes@[class as int]
            &&& tuning.sizes@[class as int] as int % (layout.align as int) == 0
        },
{
    if layout.align > MAX_SMALL_ALIGNMENT {
        return None;
    }
    let required: usize = match context_required_size(layout.size, layout.align) {
        Some(required) => required,
        None => {
            proof {
                assert(false);
            }
            0
        },
    };
    proof {
        lemma_class_from(tuning.sizes@, 0, required as int, layout.align as int);
    }
    class_index_for_alignment(tuning, required, layout.align)
}

/// The user's bytes of a block with a record are aligned as asked, and lie between the word before
/// them and the record at the block's end.
pub proof fn law_recorded_blocks_hold_their_layout(sizes: Seq<usize>, layout: Layout, slab: int, index: int)
    requires
        valid_sizes(sizes),
        layout.wf(),
        record_class(sizes, layout) is Some,
        slab % (crate::allocator::slab::SLAB_SIZE as int) == 0,
    ensures
        ({
            let class = record_class(sizes, layout)->0;
            &&& class < sizes.len()
            &&& user_offset(layout.align as int) + layout.spec_bytes() + EXTRA_SIZE <= sizes[class as int]
            &&& (slab + index * sizes[class as int] + user_offset(layout.align as int)) % layout.align as int == 0
        }),
{
    let align = layout.align as int;
    let offset = user_offset(align);
    lemma_class_from(sizes, 0, larger(layout.size as int, 1) + offset + EXTRA_SIZE, align);
    let class = record_class(sizes, layout)->0;
    let size = sizes[class as int] as int;
    let exponent = choose|exponent: nat| align == #[trigger] pow2(exponent);
    vstd::arithmetic::power2::lemma2_to64();
    if exponent > 12 {
        lemma_pow2_strictly_increases(12, exponent);
    }
    let rest = (15 - exponent) as nat;
    vstd::arithmetic::power2::lemma_pow2_adds(exponent, rest);
    lemma_multiple(slab, 32768, align, pow2(rest) as int);
    assert(offset % align == 0) by {
        if align <= 16 {
            if exponent > 4 {
                lemma_pow2_strictly_increases(4, exponent);
            }
            let up = (4 - exponent) as nat;
            vstd::arithmetic::power2::lemma_pow2_adds(exponent, up);
            lemma_multiple(16, 16, align, pow2(up) as int);
        } else {
            vstd::arithmetic::div_mod::lemma_mod_self_0(align);
        }
    }
    let quotient = size / align;
    let base = slab / align;
    let more = offset / align;
    vstd::arithmetic::div_mod::lemma_fundamental_div_mod(size, align);
    vstd::arithmetic::div_mod::lemma_fundamental_div_mod(slab, align);
    vstd::arithmetic::div_mod::lemma_fundamental_div_mod(offset, align);
    assert(slab + index * size + offset == (base + index * quotient + more) * align) by (nonlinear_arith)
        requires
            size == align * quotient,
            slab == align * base,
            offset == align * more,
    ;
    vstd::arithmetic::div_mod::lemma_mod_multiples_basic(base + index * quotient + more, align);
}

/// Where the user's bytes start in a block with a record.
pub fn context_address(block: usize, layout: Layout) -> (address: usize)
    requires
        block + user_offset(layout.align as int) <= usize::MAX,
    ensures
        address == block + user_offset(layout.align as int),
{
    block + context_user_offset(layout.align)
}

/// The blocks that carry a record, the newest last.
pub struct Records {
    pub extras: Vec<ExtraHeader>,
}

/// Where the record of the block stands, or -1.
pub open spec fn record_at(extras: Seq<ExtraHeader>, address: usize) -> int
    decreases extras.len(),
{
    if extras.len() == 0 {
        -1
    } else if extras.last().address == address {
        extras.len() - 1
    } else {
        record_at(extras.drop_last(), address)
    }
}

pub proof fn lemma_record_at(extras: Seq<ExtraHeader>, address: usize)
    ensures
        -1 <= record_at(extras, address) < extras.len(),
        record_at(extras, address) >= 0 ==> extras[record_at(extras, address)].address == address,
        record_at(extras, address) < 0 <==> forall|at: int| 0 <= at < extras.len() ==> (#[trigger] extras[at]).address != address,
    decreases extras.len(),
{
    if extras.len() > 0 {
        lemma_record_at(extras.drop_last(), address);
        let rest = extras.drop_last();
        if extras.last().address != address {
            assert forall|at: int| 0 <= at < rest.len() implies #[trigger] rest[at] == extras[at] by {}
            if record_at(rest, address) < 0 {
                assert forall|at: int| 0 <= at < extras.len() implies (#[trigger] extras[at]).address != address by {
                    if at < rest.len() {
                        assert(rest[at].address != address);
                    }
                }
            } else {
                assert(extras[record_at(rest, address)].address == address);
            }
        } else {
            assert(extras[extras.len() - 1].address == address);
        }
    }
}

proof fn lemma_record_prefix(extras: Seq<ExtraHeader>, address: usize, from: int)
    requires
        0 <= from <= extras.len(),
        forall|at: int| from <= at < extras.len() ==> (#[trigger] extras[at]).address != address,
    ensures
        record_at(extras, address) == record_at(extras.take(from), address),
    decreases extras.len(),
{
    if from < extras.len() {
        assert(extras.last() == extras[extras.len() - 1]);
        lemma_record_prefix(extras.drop_last(), address, from);
        assert(extras.drop_last().take(from) =~= extras.take(from));
    } else {
        assert(extras.take(from) =~= extras);
    }
}

impl Records {
    pub fn new() -> (records: Records)
        ensures
            records.extras@.len() == 0,
    {
        Records { extras: Vec::new() }
    }

    pub fn register(&mut self, extra: ExtraHeader)
        ensures
            final(self).extras@ == old(self).extras@.push(extra),
    {
        self.extras.push(extra);
    }

    /// The record of the block, or None where the block has none.
    pub fn find(&self, address: usize) -> (found: Option<usize>)
        ensures
            match found {
                None => record_at(self.extras@, address) == -1,
                Some(at) => at == record_at(self.extras@, address) && at < self.extras@.len() && self.extras@[at as int].address
                    == address,
            },
    {
        let mut at: usize = self.extras.len();
        while at > 0
            invariant
                at <= self.extras@.len(),
                forall|other: int| at <= other < self.extras@.len() ==> (#[trigger] self.extras@[other]).address != address,
            decreases at,
        {
            at = at - 1;
            if self.extras[at].address == address {
                proof {
                    lemma_record_prefix(self.extras@, address, at + 1);
                    assert(self.extras@.take(at + 1).last() == self.extras@[at as int]);
                }
                return Some(at);
            }
        }
        proof {
            lemma_record_at(self.extras@, address);
        }
        None
    }

    /// Takes the record of the block off.
    pub fn unregister(&mut self, address: usize) -> (extra: Option<ExtraHeader>)
        ensures
            match extra {
                None => record_at(old(self).extras@, address) == -1 && *final(self) == *old(self),
                Some(extra) => {
                    let at = record_at(old(self).extras@, address);
                    &&& 0 <= at < old(self).extras@.len()
                    &&& extra == old(self).extras@[at]
                    &&& extra.address == address
                    &&& final(self).extras@ == old(self).extras@.remove(at)
                },
            },
    {
        match self.find(address) {
            None => None,
            Some(at) => Some(self.extras.remove(at)),
        }
    }
}

} // verus!
