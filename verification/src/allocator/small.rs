//! The small side of a heap: cached blocks, active and partial slabs of each size class, and the
//! inbox of slabs that other threads freed blocks of.

use vstd::prelude::*;

use crate::allocator::classes::segment_of;
use crate::allocator::slab::{
    divides_by, lemma_distinct_indices, lemma_drained, lemma_next_block, lemma_take_removes, SlabModel,
    CONTEXT_SLAB_MARKER, SLAB_MARKER,
};
use crate::allocator::table::{lemma_changed_slab, SlabTable};
use crate::tunables::{valid_sizes, MAX_SIZE_CLASSES};

verus! {

/// The blocks and the slab that a class serves from first. Zero stands for none.
#[derive(Clone, Copy, Debug, PartialEq, Eq, Structural)]
pub struct ClassHot {
    pub cached_first: usize,
    pub cached_second: usize,
    pub active: usize,
}

pub open spec fn empty_hot() -> ClassHot {
    ClassHot { cached_first: 0, cached_second: 0, active: 0 }
}

impl ClassHot {
    pub fn new() -> (hot: ClassHot)
        ensures
            hot == empty_hot(),
    {
        ClassHot { cached_first: 0, cached_second: 0, active: 0 }
    }
}

/// The lists of one kind of slab, by class. A partial list has its newest slab last.
pub struct ClassSet {
    pub hot: Vec<ClassHot>,
    pub partial: Vec<Vec<usize>>,
}

#[verifier::ext_equal]
pub struct ClassLists {
    pub hot: Seq<ClassHot>,
    pub partial: Seq<Seq<usize>>,
}

impl View for ClassSet {
    type V = ClassLists;

    open spec fn view(&self) -> ClassLists {
        ClassLists {
            hot: self.hot@,
            partial: Seq::new(self.partial@.len(), |class: int| self.partial@[class]@),
        }
    }
}

impl ClassSet {
    pub fn new() -> (set: ClassSet)
        ensures
            set@.hot == Seq::new(MAX_SIZE_CLASSES as nat, |class: int| empty_hot()),
            set@.partial == Seq::new(MAX_SIZE_CLASSES as nat, |class: int| Seq::<usize>::empty()),
    {
        let mut hot: Vec<ClassHot> = Vec::new();
        let mut partial: Vec<Vec<usize>> = Vec::new();
        while hot.len() < MAX_SIZE_CLASSES
            invariant
                hot@.len() <= MAX_SIZE_CLASSES,
                partial@.len() == hot@.len(),
                forall|class: int| 0 <= class < hot@.len() ==> hot@[class] == empty_hot(),
                forall|class: int| 0 <= class < hot@.len() ==> (#[trigger] partial@[class])@ == Seq::<usize>::empty(),
            decreases MAX_SIZE_CLASSES - hot@.len(),
        {
            hot.push(ClassHot::new());
            partial.push(Vec::new());
        }
        let set = ClassSet { hot, partial };
        proof {
            assert(set@.hot =~= Seq::new(MAX_SIZE_CLASSES as nat, |class: int| empty_hot()));
            assert(set@.partial =~= Seq::new(MAX_SIZE_CLASSES as nat, |class: int| Seq::<usize>::empty()));
        }
        set
    }
}

pub struct SmallState {
    pub classes: ClassSet,
    pub context_classes: ClassSet,
    /// Slabs that other threads freed blocks of, newest last.
    pub inbox: Vec<usize>,
}

/// A heap's small side together with the slabs of the process.
#[verifier::ext_equal]
pub struct SmallHeap {
    pub classes: ClassLists,
    pub context: ClassLists,
    pub inbox: Seq<usize>,
    pub slabs: Map<usize, SlabModel>,
}

/// The marker of the slabs of a class.
pub open spec fn marker_of(context: bool, class: int) -> int {
    if context {
        CONTEXT_SLAB_MARKER + class
    } else {
        SLAB_MARKER + class
    }
}

/// The index of the block that a slab hands out, taking its remote list in where it has none.
pub open spec fn take_index(slab: SlabModel) -> Option<int> {
    if slab.next_block() is Some {
        slab.next_block()
    } else {
        slab.drained().next_block()
    }
}

/// The slab after it handed out that block.
pub open spec fn take_after(slab: SlabModel, batch_limit: int) -> SlabModel {
    if slab.next_block() is Some {
        slab.after_take(batch_limit)
    } else {
        slab.drained().after_take(batch_limit)
    }
}

/// The position, counted from the head of a partial list, of the slab with the most free
/// blocks among the first `scanned`; the first such slab wins.
pub open spec fn most_free(partial: Seq<usize>, slabs: Map<usize, SlabModel>, scanned: int) -> Option<int>
    decreases scanned,
{
    if scanned <= 0 || partial.len() == 0 {
        None
    } else if scanned > partial.len() {
        most_free(partial, slabs, partial.len() as int)
    } else {
        match most_free(partial, slabs, scanned - 1) {
            None => Some(scanned - 1),
            Some(best) => if slabs[partial[partial.len() - scanned]].free().len() > slabs[partial[partial.len() - 1 - best]].free().len() {
                Some(scanned - 1)
            } else {
                Some(best)
            },
        }
    }
}

impl SmallHeap {
    pub open spec fn lists(self, context: bool) -> ClassLists {
        if context {
            self.context
        } else {
            self.classes
        }
    }

    pub open spec fn with_lists(self, context: bool, lists: ClassLists) -> SmallHeap {
        if context {
            SmallHeap { context: lists, ..self }
        } else {
            SmallHeap { classes: lists, ..self }
        }
    }

    pub open spec fn hot(self, context: bool, class: int) -> ClassHot {
        self.lists(context).hot[class]
    }

    pub open spec fn partial(self, context: bool, class: int) -> Seq<usize> {
        self.lists(context).partial[class]
    }

    pub open spec fn with_hot(self, context: bool, class: int, hot: ClassHot) -> SmallHeap {
        self.with_lists(
            context,
            ClassLists { hot: self.lists(context).hot.update(class, hot), ..self.lists(context) },
        )
    }

    pub open spec fn with_partial(self, context: bool, class: int, partial: Seq<usize>) -> SmallHeap {
        self.with_lists(
            context,
            ClassLists { partial: self.lists(context).partial.update(class, partial), ..self.lists(context) },
        )
    }

    pub open spec fn with_slab(self, address: usize, slab: SlabModel) -> SmallHeap {
        SmallHeap { slabs: self.slabs.insert(address, slab), ..self }
    }

    /// Whether `address` is a slab of the class.
    pub open spec fn slab_of_class(self, sizes: Seq<usize>, context: bool, class: int, address: usize) -> bool {
        &&& self.slabs.dom().contains(address)
        &&& self.slabs[address].address == address
        &&& self.slabs[address].block_size == sizes[class]
        &&& self.slabs[address].marker == marker_of(context, class)
    }

    /// Whether `block` is a block of the class that is neither free nor waiting to be.
    pub open spec fn idle_block(self, sizes: Seq<usize>, context: bool, class: int, block: usize) -> bool {
        let slab = segment_of(block as int) as usize;
        &&& self.slab_of_class(sizes, context, class, slab)
        &&& self.slabs[slab].handed_out(block as int)
        &&& !self.slabs[slab].in_remote_list(block as int)
    }

    /// The class's entry names slabs and idle blocks of the class, and no block twice.
    pub open spec fn hot_ok(self, sizes: Seq<usize>, context: bool, class: int) -> bool {
        self.hot_fits(sizes, context, class, self.hot(context, class))
    }

    pub open spec fn hot_fits(self, sizes: Seq<usize>, context: bool, class: int, hot: ClassHot) -> bool {
        &&& hot.active != 0 ==> self.slab_of_class(sizes, context, class, hot.active)
        &&& hot.cached_first != 0 ==> self.idle_block(sizes, context, class, hot.cached_first)
        &&& hot.cached_second != 0 ==> self.idle_block(sizes, context, class, hot.cached_second) && hot.cached_first != 0
            && hot.cached_first != hot.cached_second
    }

    pub open spec fn partial_ok(self, sizes: Seq<usize>, context: bool, class: int) -> bool {
        self.partial_fits(sizes, context, class, self.partial(context, class))
    }

    pub open spec fn partial_fits(self, sizes: Seq<usize>, context: bool, class: int, partial: Seq<usize>) -> bool {
        forall|position: int|
            0 <= position < partial.len() ==> self.slab_of_class(sizes, context, class, #[trigger] partial[position])
    }

    /// Whether `address` is a slab of some class.
    pub open spec fn slab_of_some_class(self, sizes: Seq<usize>, address: usize) -> bool {
        exists|context: bool, class: int|
            0 <= class < sizes.len() && #[trigger] self.slab_of_class(sizes, context, class, address)
    }

    pub open spec fn inbox_ok(self, sizes: Seq<usize>) -> bool {
        forall|position: int|
            0 <= position < self.inbox.len() ==> self.slab_of_some_class(sizes, #[trigger] self.inbox[position])
    }

    pub open spec fn shape(self) -> bool {
        &&& self.classes.hot.len() == MAX_SIZE_CLASSES
        &&& self.classes.partial.len() == MAX_SIZE_CLASSES
        &&& self.context.hot.len() == MAX_SIZE_CLASSES
        &&& self.context.partial.len() == MAX_SIZE_CLASSES
    }

    /// Every list names slabs of its class, and every cached block is one that its slab handed
    /// out, cached once.
    pub open spec fn inv(self, sizes: Seq<usize>) -> bool {
        &&& self.shape()
        &&& forall|address: usize| #[trigger] self.slabs.dom().contains(address) ==> self.slabs[address].well_formed()
        &&& forall|context: bool, class: int| 0 <= class < sizes.len() ==> #[trigger] self.hot_ok(sizes, context, class)
        &&& forall|context: bool, class: int| 0 <= class < sizes.len() ==> #[trigger] self.partial_ok(sizes, context, class)
        &&& self.inbox_ok(sizes)
    }
}

/// A slab changed so that what was handed out and idle still is.
pub open spec fn keeps_idle(before: SlabModel, after: SlabModel) -> bool {
    &&& after.well_formed()
    &&& after.address == before.address
    &&& after.block_size == before.block_size
    &&& after.marker == before.marker
    &&& forall|block: int|
        #![trigger after.handed_out(block)]
        before.handed_out(block) && !before.in_remote_list(block) ==> after.handed_out(block) && !after.in_remote_list(block)
}

/// The invariant survives a change of one slab that keeps its idle blocks idle.
pub proof fn lemma_inv_slab(small: SmallHeap, sizes: Seq<usize>, address: usize, after: SlabModel)
    requires
        small.inv(sizes),
        small.slabs.dom().contains(address),
        keeps_idle(small.slabs[address], after),
    ensures
        small.with_slab(address, after).inv(sizes),
{
    let changed = small.with_slab(address, after);
    assert forall|context: bool, class: int, a: usize| #[trigger] small.slab_of_class(sizes, context, class, a) implies changed.slab_of_class(
        sizes,
        context,
        class,
        a,
    ) by {}
    assert forall|context: bool, class: int, block: usize|
        #[trigger] small.idle_block(sizes, context, class, block) implies changed.idle_block(sizes, context, class, block) by {
        let slab = segment_of(block as int) as usize;
        assert(small.slab_of_class(sizes, context, class, slab));
        if slab == address {
            assert(small.slabs[address].handed_out(block as int));
            assert(after.handed_out(block as int));
        }
    }
    assert forall|context: bool, class: int| 0 <= class < sizes.len() implies #[trigger] changed.hot_ok(sizes, context, class) by {
        assert(small.hot_ok(sizes, context, class));
    }
    assert forall|context: bool, class: int| 0 <= class < sizes.len() implies #[trigger] changed.partial_ok(
        sizes,
        context,
        class,
    ) by {
        assert(small.partial_ok(sizes, context, class));
        assert(changed.partial(context, class) == small.partial(context, class));
    }
    assert forall|position: int| 0 <= position < changed.inbox.len() implies changed.slab_of_some_class(
        sizes,
        #[trigger] changed.inbox[position],
    ) by {
        assert(small.slab_of_some_class(sizes, small.inbox[position]));
        let (context, class) = choose|context: bool, class: int|
            0 <= class < sizes.len() && #[trigger] small.slab_of_class(sizes, context, class, small.inbox[position]);
        assert(changed.slab_of_class(sizes, context, class, changed.inbox[position]));
    }
}

/// Handing a block out keeps idle blocks idle.
pub proof fn lemma_take_keeps_idle(slab: SlabModel, batch_limit: int)
    requires
        slab.well_formed(),
    ensures
        keeps_idle(slab, slab.after_take(batch_limit)),
{
    let after = slab.after_take(batch_limit);
    if slab.next_block() is Some {
        lemma_take_removes(slab, batch_limit);
    } else {
        lemma_next_block(slab);
        assert(after == slab);
    }
    assert forall|block: int|
        #![trigger after.handed_out(block)]
        slab.handed_out(block) && !slab.in_remote_list(block) implies after.handed_out(block) && !after.in_remote_list(block) by {
        assert(after.index_of(block) == slab.index_of(block));
        let index = slab.index_of(block);
        assert(!slab.free().contains(index));
        if slab.next_block() is Some {
            assert(!after.free().contains(index));
        }
        if after.in_remote_list(block) {
            let position = choose|position: int|
                0 <= position < after.remote.len() && (#[trigger] after.remote[position]).block == block;
            assert(slab.remote[position].block == block);
        }
    }
}

/// Taking the remote list in keeps idle blocks idle.
pub proof fn lemma_drain_keeps_idle(slab: SlabModel)
    requires
        slab.well_formed(),
    ensures
        keeps_idle(slab, slab.drained()),
{
    lemma_drained(slab);
    let after = slab.drained();
    assert forall|block: int|
        #![trigger after.handed_out(block)]
        slab.handed_out(block) && !slab.in_remote_list(block) implies after.handed_out(block) && !after.in_remote_list(block) by {
        assert(after.index_of(block) == slab.index_of(block));
        let index = slab.index_of(block);
        if slab.remote_blocks().contains(index) {
            let position = choose|position: int|
                0 <= position < slab.remote.len() && index == slab.index_of((#[trigger] slab.remote[position]).block as int);
            assert(slab.handed_out(slab.remote[position].block as int));
            if slab.remote[position].block != block {
                lemma_distinct_indices(slab, slab.remote[position].block as int, block);
            }
        }
    }
}

pub proof fn lemma_keeps_idle_trans(first: SlabModel, second: SlabModel, third: SlabModel)
    requires
        keeps_idle(first, second),
        keeps_idle(second, third),
    ensures
        keeps_idle(first, third),
{
    assert forall|block: int|
        #![trigger third.handed_out(block)]
        first.handed_out(block) && !first.in_remote_list(block) implies third.handed_out(block) && !third.in_remote_list(
        block,
    ) by {
        assert(second.handed_out(block));
    }
}

pub proof fn lemma_take_after(slab: SlabModel, batch_limit: int)
    requires
        slab.well_formed(),
    ensures
        keeps_idle(slab, take_after(slab, batch_limit)),
{
    if slab.next_block() is Some {
        lemma_take_keeps_idle(slab, batch_limit);
    } else {
        lemma_drain_keeps_idle(slab);
        lemma_drained(slab);
        lemma_take_keeps_idle(slab.drained(), batch_limit);
        lemma_keeps_idle_trans(slab, slab.drained(), slab.drained().after_take(batch_limit));
    }
}

/// What holds of a heap's blocks and slabs depends on the slabs alone.
proof fn lemma_same_slabs(small: SmallHeap, changed: SmallHeap, sizes: Seq<usize>)
    requires
        changed.slabs == small.slabs,
    ensures
        forall|context: bool, class: int, address: usize|
            #[trigger] changed.slab_of_class(sizes, context, class, address) == small.slab_of_class(sizes, context, class, address),
        forall|context: bool, class: int, block: usize|
            #[trigger] changed.idle_block(sizes, context, class, block) == small.idle_block(sizes, context, class, block),
        forall|address: usize|
            #[trigger] changed.slab_of_some_class(sizes, address) == small.slab_of_some_class(sizes, address),
{
    assert forall|context: bool, class: int, address: usize|
        #[trigger] changed.slab_of_class(sizes, context, class, address) == small.slab_of_class(sizes, context, class, address) by {}
    assert forall|address: usize|
        #[trigger] changed.slab_of_some_class(sizes, address) == small.slab_of_some_class(sizes, address) by {
        if small.slab_of_some_class(sizes, address) {
            let (context, class) = choose|context: bool, class: int|
                0 <= class < sizes.len() && #[trigger] small.slab_of_class(sizes, context, class, address);
            assert(changed.slab_of_class(sizes, context, class, address));
        }
        if changed.slab_of_some_class(sizes, address) {
            let (context, class) = choose|context: bool, class: int|
                0 <= class < sizes.len() && #[trigger] changed.slab_of_class(sizes, context, class, address);
            assert(small.slab_of_class(sizes, context, class, address));
        }
    }
}

/// The invariant survives a change of one class's entry that names slabs and idle blocks of the
/// class.
pub proof fn lemma_inv_hot(small: SmallHeap, sizes: Seq<usize>, context: bool, class: int, hot: ClassHot)
    requires
        small.inv(sizes),
        valid_sizes(sizes),
        0 <= class < sizes.len(),
        small.hot_fits(sizes, context, class, hot),
    ensures
        small.with_hot(context, class, hot).inv(sizes),
{
    let changed = small.with_hot(context, class, hot);
    lemma_same_slabs(small, changed, sizes);
    assert forall|other: bool, c: int| 0 <= c < sizes.len() implies #[trigger] changed.hot_ok(sizes, other, c) by {
        assert(small.hot_ok(sizes, other, c));
        if other == context && c == class {
            assert(changed.hot(other, c) == hot);
        } else {
            assert(changed.hot(other, c) == small.hot(other, c));
        }
    }
    assert forall|other: bool, c: int| 0 <= c < sizes.len() implies #[trigger] changed.partial_ok(sizes, other, c) by {
        assert(small.partial_ok(sizes, other, c));
        assert(changed.partial(other, c) == small.partial(other, c));
    }
}

/// The invariant survives a change of one class's partial list that names slabs of the class.
pub proof fn lemma_inv_partial(small: SmallHeap, sizes: Seq<usize>, context: bool, class: int, partial: Seq<usize>)
    requires
        small.inv(sizes),
        valid_sizes(sizes),
        0 <= class < sizes.len(),
        small.partial_fits(sizes, context, class, partial),
    ensures
        small.with_partial(context, class, partial).inv(sizes),
{
    let changed = small.with_partial(context, class, partial);
    lemma_same_slabs(small, changed, sizes);
    assert forall|other: bool, c: int| 0 <= c < sizes.len() implies #[trigger] changed.hot_ok(sizes, other, c) by {
        assert(small.hot_ok(sizes, other, c));
        assert(changed.hot(other, c) == small.hot(other, c));
    }
    assert forall|other: bool, c: int| 0 <= c < sizes.len() implies #[trigger] changed.partial_ok(sizes, other, c) by {
        assert(small.partial_ok(sizes, other, c));
        if other == context && c == class {
            assert(changed.partial(other, c) == partial);
        } else {
            assert(changed.partial(other, c) == small.partial(other, c));
        }
    }
}


/// A count as the counters hold it.
pub open spec fn wrapped(count: int) -> int {
    count % 0x1_0000_0000_0000_0000
}

pub fn wrapping_sum(left: u64, right: u64) -> (sum: u64)
    ensures
        forall|total: int, more: int| left == wrapped(total) && right == wrapped(more) ==> sum == #[trigger] wrapped(total + more),
{
    let sum: u64 = ((left as u128 + right as u128) % 0x1_0000_0000_0000_0000u128) as u64;
    proof {
        assert forall|total: int, more: int| left == wrapped(total) && right == wrapped(more) implies sum == #[trigger] wrapped(
            total + more,
        ) by {
            vstd::arithmetic::div_mod::lemma_add_mod_noop(total, more, 0x1_0000_0000_0000_0000);
        }
    }
    sum
}

/// The heap's small side and the slabs, as one.
pub open spec fn small(state: &SmallState, slabs: &SlabTable) -> SmallHeap {
    SmallHeap {
        classes: state.classes@,
        context: state.context_classes@,
        inbox: state.inbox@,
        slabs: slabs@,
    }
}

/// Whether a slab's marker marks one whose blocks carry records.
pub open spec fn marks_context(marker: u64) -> bool {
    marker >= CONTEXT_SLAB_MARKER
}

/// The class that a slab's marker names.
pub open spec fn marked_class(marker: u64) -> int {
    if marks_context(marker) {
        marker - CONTEXT_SLAB_MARKER
    } else {
        marker - SLAB_MARKER
    }
}

impl SmallHeap {
    /// The block that the class's active slab hands out, or 0.
    pub open spec fn active_block(self, context: bool, class: int) -> int {
        let active = self.hot(context, class).active;
        if active == 0 {
            0
        } else {
            match take_index(self.slabs[active]) {
                Some(index) => self.slabs[active].block_at(index),
                None => 0,
            }
        }
    }

    /// The blocks that taking from the active slab drains from its remote list.
    pub open spec fn active_drains(self, context: bool, class: int) -> int {
        let active = self.hot(context, class).active;
        if active == 0 || self.slabs[active].next_block() is Some {
            0
        } else {
            self.slabs[active].remote.len() as int
        }
    }

    /// The heap after its active slab was asked for a block.
    pub open spec fn after_active(self, context: bool, class: int, batch_limit: int) -> SmallHeap {
        let active = self.hot(context, class).active;
        if active == 0 {
            self
        } else {
            self.with_slab(active, take_after(self.slabs[active], batch_limit))
        }
    }

    pub open spec fn without_active(self, context: bool, class: int) -> SmallHeap {
        self.with_hot(context, class, ClassHot { active: 0, ..self.hot(context, class) })
    }

    /// The heap after the partial slab with the most free blocks, among the first
    /// `scan_limit`, became the active one.
    pub open spec fn after_select(self, context: bool, class: int, scan_limit: int) -> SmallHeap {
        let partial = self.partial(context, class);
        match most_free(partial, self.slabs, scan_limit) {
            None => self,
            Some(best) => {
                let position = partial.len() - 1 - best;
                self.with_partial(context, class, partial.remove(position)).with_hot(
                    context,
                    class,
                    ClassHot { active: partial[position], ..self.hot(context, class) },
                )
            },
        }
    }

    pub open spec fn can_select(self, context: bool, class: int, scan_limit: int) -> bool {
        most_free(self.partial(context, class), self.slabs, scan_limit) is Some
    }

    /// The heap after the remote list of one slab of its inbox was taken in. A slab that had no
    /// free block and now has one joins its class's partial list, unless it is active.
    pub open spec fn drain_slab(self, address: usize) -> SmallHeap {
        let slab = self.slabs[address];
        let drained = SlabModel { queued: false, ..slab.drained() };
        let context = marks_context(slab.marker);
        let class = marked_class(slab.marker);
        let after = self.with_slab(address, drained);
        if slab.free().len() == 0 && drained.free().len() != 0 && self.hot(context, class).active != address {
            after.with_partial(context, class, self.partial(context, class).push(address))
        } else {
            after
        }
    }

    /// The heap after the slabs of a list were drained, newest first.
    pub open spec fn drain_list(self, list: Seq<usize>) -> SmallHeap
        decreases list.len(),
    {
        if list.len() == 0 {
            self
        } else {
            self.drain_slab(list.last()).drain_list(list.drop_last())
        }
    }

    pub open spec fn list_drains(self, list: Seq<usize>) -> int
        decreases list.len(),
    {
        if list.len() == 0 {
            0
        } else {
            self.slabs[list.last()].remote.len() + self.drain_slab(list.last()).list_drains(list.drop_last())
        }
    }

    /// The heap after its inbox was taken in.
    pub open spec fn drain_inbox(self) -> SmallHeap {
        (SmallHeap { inbox: Seq::empty(), ..self }).drain_list(self.inbox)
    }

    pub open spec fn inbox_drains(self) -> int {
        (SmallHeap { inbox: Seq::empty(), ..self }).list_drains(self.inbox)
    }

    /// The heap in which the class looks for its next slab: the inbox is taken in where no
    /// partial slab is left.
    pub open spec fn before_select(self, context: bool, class: int, scan_limit: int) -> SmallHeap {
        if self.can_select(context, class, scan_limit) {
            self
        } else {
            self.drain_inbox()
        }
    }

    /// The block that the class serves without a new slab, or 0, with the heap after it and the
    /// blocks that were drained: a cached block, else one of the active slab, else one of the
    /// partial slab that becomes active.
    pub open spec fn pop(self, context: bool, class: int, batch_limit: int, scan_limit: int) -> (int, SmallHeap, int) {
        let hot = self.hot(context, class);
        if hot.cached_first != 0 {
            (
                hot.cached_first as int,
                self.with_hot(
                    context,
                    class,
                    ClassHot { cached_first: hot.cached_second, cached_second: 0, active: hot.active },
                ),
                0,
            )
        } else if self.active_block(context, class) != 0 {
            (
                self.active_block(context, class),
                self.after_active(context, class, batch_limit),
                self.active_drains(context, class),
            )
        } else {
            let emptied = self.after_active(context, class, batch_limit).without_active(context, class);
            let searched = emptied.before_select(context, class, scan_limit);
            let selected = searched.after_select(context, class, scan_limit);
            let drained = self.active_drains(context, class) + (if emptied.can_select(context, class, scan_limit) {
                0
            } else {
                emptied.inbox_drains()
            });
            (
                selected.active_block(context, class),
                selected.after_active(context, class, batch_limit),
                drained + selected.active_drains(context, class),
            )
        }
    }
}

impl SlabTable {
    /// Takes a block from a slab, draining its remote list where the slab has none of its own.
    /// Returns the block, or 0, and the number of drained blocks.
    pub fn take_from(&mut self, address: usize, batch_limit: usize, shift: u8, reciprocal: u64) -> (taken: (usize, u64))
        requires
            old(self).wf(),
            old(self)@.dom().contains(address),
            divides_by(shift, reciprocal, old(self)@[address].block_size),
        ensures
            final(self).wf(),
            final(self)@ == old(self)@.insert(address, take_after(old(self)@[address], batch_limit as int)),
            match take_index(old(self)@[address]) {
                Some(index) => taken.0 == old(self)@[address].block_at(index) && taken.0 != 0,
                None => taken.0 == 0,
            },
            taken.1 == wrapped(
                if old(self)@[address].next_block() is Some {
                    0
                } else {
                    old(self)@[address].remote.len() as int
                },
            ),
    {
        let ghost before = *self;
        let index: usize = self.position(address).unwrap();
        assert(self.slabs@[index as int].wf());
        let (block, drained) = self.slabs[index].take(batch_limit, shift, reciprocal);
        proof {
            let slab = before.slabs@[index as int]@;
            lemma_take_after(slab, batch_limit as int);
            assert(self.slabs@[index as int]@.address == slab.address);
            lemma_changed_slab(&before, self, index as int);
        }
        (block, drained as u64)
    }
}

impl SmallState {
    pub open spec fn lists(&self, context: bool) -> ClassLists {
        if context {
            self.context_classes@
        } else {
            self.classes@
        }
    }

    pub fn new() -> (state: SmallState)
        ensures
            state.inbox@.len() == 0,
            forall|context: bool, class: int|
                #![trigger state.lists(context).hot[class]]
                0 <= class < MAX_SIZE_CLASSES ==> state.lists(context).hot[class] == empty_hot(),
            forall|context: bool, class: int|
                #![trigger state.lists(context).partial[class]]
                0 <= class < MAX_SIZE_CLASSES ==> state.lists(context).partial[class].len() == 0,
            state.classes@.hot.len() == MAX_SIZE_CLASSES,
            state.classes@.partial.len() == MAX_SIZE_CLASSES,
            state.context_classes@.hot.len() == MAX_SIZE_CLASSES,
            state.context_classes@.partial.len() == MAX_SIZE_CLASSES,
    {
        SmallState { classes: ClassSet::new(), context_classes: ClassSet::new(), inbox: Vec::new() }
    }

    pub fn hot(&self, context: bool, class: usize) -> (hot: ClassHot)
        requires
            class < self.lists(context).hot.len(),
        ensures
            hot == self.lists(context).hot[class as int],
    {
        if context {
            self.context_classes.hot[class]
        } else {
            self.classes.hot[class]
        }
    }

    pub fn set_hot(&mut self, context: bool, class: usize, hot: ClassHot)
        requires
            class < old(self).lists(context).hot.len(),
        ensures
            final(self).inbox == old(self).inbox,
            forall|slabs: &SlabTable|
                #![trigger small(final(self), slabs)]
                small(final(self), slabs) == small(old(self), slabs).with_hot(context, class as int, hot),
    {
        let ghost before = *self;
        if context {
            self.context_classes.hot[class] = hot;
        } else {
            self.classes.hot[class] = hot;
        }
        proof {
            assert(self.classes@.partial =~= before.classes@.partial);
            assert(self.context_classes@.partial =~= before.context_classes@.partial);
            assert forall|slabs: &SlabTable| #![trigger small(self, slabs)] small(self, slabs) == small(&before, slabs).with_hot(
                context,
                class as int,
                hot,
            ) by {
                assert(small(self, slabs) =~= small(&before, slabs).with_hot(context, class as int, hot));
            }
        }
    }

    pub fn partial_len(&self, context: bool, class: usize) -> (len: usize)
        requires
            class < self.lists(context).partial.len(),
        ensures
            len == self.lists(context).partial[class as int].len(),
    {
        if context {
            self.context_classes.partial[class].len()
        } else {
            self.classes.partial[class].len()
        }
    }

    pub fn partial_at(&self, context: bool, class: usize, position: usize) -> (slab: usize)
        requires
            class < self.lists(context).partial.len(),
            position < self.lists(context).partial[class as int].len(),
        ensures
            slab == self.lists(context).partial[class as int][position as int],
    {
        if context {
            self.context_classes.partial[class][position]
        } else {
            self.classes.partial[class][position]
        }
    }

    pub fn push_partial(&mut self, context: bool, class: usize, slab: usize)
        requires
            class < old(self).lists(context).partial.len(),
        ensures
            final(self).inbox == old(self).inbox,
            forall|slabs: &SlabTable|
                #![trigger small(final(self), slabs)]
                small(final(self), slabs) == small(old(self), slabs).with_partial(
                    context,
                    class as int,
                    small(old(self), slabs).partial(context, class as int).push(slab),
                ),
    {
        let ghost before = *self;
        if context {
            self.context_classes.partial[class].push(slab);
        } else {
            self.classes.partial[class].push(slab);
        }
        proof {
            assert forall|slabs: &SlabTable| #![trigger small(self, slabs)] small(self, slabs) == small(&before, slabs).with_partial(
                context,
                class as int,
                small(&before, slabs).partial(context, class as int).push(slab),
            ) by {
                let expected = small(&before, slabs).with_partial(
                    context,
                    class as int,
                    small(&before, slabs).partial(context, class as int).push(slab),
                );
                assert(small(self, slabs).classes.partial =~= expected.classes.partial);
                assert(small(self, slabs).context.partial =~= expected.context.partial);
                assert(small(self, slabs) =~= expected);
            }
        }
    }

    pub fn remove_partial(&mut self, context: bool, class: usize, position: usize) -> (slab: usize)
        requires
            class < old(self).lists(context).partial.len(),
            position < old(self).lists(context).partial[class as int].len(),
        ensures
            slab == old(self).lists(context).partial[class as int][position as int],
            final(self).inbox == old(self).inbox,
            forall|slabs: &SlabTable|
                #![trigger small(final(self), slabs)]
                small(final(self), slabs) == small(old(self), slabs).with_partial(
                    context,
                    class as int,
                    small(old(self), slabs).partial(context, class as int).remove(position as int),
                ),
    {
        let ghost before = *self;
        let slab: usize = if context {
            self.context_classes.partial[class].remove(position)
        } else {
            self.classes.partial[class].remove(position)
        };
        proof {
            assert forall|slabs: &SlabTable| #![trigger small(self, slabs)] small(self, slabs) == small(&before, slabs).with_partial(
                context,
                class as int,
                small(&before, slabs).partial(context, class as int).remove(position as int),
            ) by {
                let expected = small(&before, slabs).with_partial(
                    context,
                    class as int,
                    small(&before, slabs).partial(context, class as int).remove(position as int),
                );
                assert(small(self, slabs).classes.partial =~= expected.classes.partial);
                assert(small(self, slabs).context.partial =~= expected.context.partial);
                assert(small(self, slabs) =~= expected);
            }
        }
        slab
    }
}

} // verus!
