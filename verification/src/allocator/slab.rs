//! A slab: 32 KiB cut into equal blocks, with the blocks that can be handed out.

use vstd::prelude::*;
use vstd::arithmetic::power2::pow2;

use crate::bits::{bit, bits_of, lemma_bit_zero, lowest_bit, with_bit, without_bit};

verus! {

pub const SLAB_SIZE: usize = 32 * 1024;
pub const SLAB_HEADER_SIZE: usize = 384;
pub const RECYCLED_BITMAP_WORDS: usize = 32;
pub const MAX_BLOCK_SIZE: usize = 16 * 1024;
pub const SLAB_MARKER: u64 = 0x5241_4C4C_4F43_0000;
pub const CONTEXT_SLAB_MARKER: u64 = 0x5241_4C4C_4F43_1000;
/// The shift of a size that is no power of two.
pub const NO_SHIFT: u8 = 255;

/// A block freed by another thread, with the bytes of the block that were never requested.
#[derive(Clone, Copy, Debug, PartialEq, Eq, Structural)]
pub struct RemoteFree {
    pub block: usize,
    pub padding: usize,
}

/// What a slab stands for: which blocks it can still hand out, and in which of its three
/// stores each of them is.
#[verifier::ext_equal]
pub struct SlabModel {
    pub address: int,
    pub marker: u64,
    pub owner: usize,
    pub block_size: int,
    /// Blocks given back, kept in the bitmap.
    pub recycled: Set<int>,
    /// Blocks given back, moved out of the bitmap to be handed out first.
    pub batch: Set<int>,
    /// The lowest block that was never handed out.
    pub fresh: int,
    /// Blocks freed by other threads, oldest first.
    pub remote: Seq<RemoteFree>,
    pub queued: bool,
    /// Bytes of blocks in use that were never requested.
    pub padding: int,
    /// Whether the slab belongs to a thread heap, which other threads allocate from.
    pub shared: bool,
}

pub open spec fn valid_block_size(size: int) -> bool {
    16 <= size <= MAX_BLOCK_SIZE && size % 16 == 0
}

/// The number of blocks that a slab of blocks of this size is cut into.
pub open spec fn block_count(size: int) -> int {
    SLAB_SIZE as int / size
}

/// The first block that the slab's header leaves free.
pub open spec fn first_block(size: int) -> int {
    (SLAB_HEADER_SIZE + size - 1) / size
}

/// The smallest member of a set that has one.
#[verifier::opaque]
pub open spec fn least(set: Set<int>) -> int {
    choose|member: int| set.contains(member) && forall|other: int| set.contains(other) ==> member <= other
}

/// The members of `set` that share a bitmap word with `index`.
pub open spec fn same_word(set: Set<int>, index: int) -> Set<int> {
    set.filter(|member: int| member / 64 == index / 64)
}

pub open spec fn total_padding(remote: Seq<RemoteFree>) -> int
    decreases remote.len(),
{
    if remote.len() == 0 {
        0
    } else {
        total_padding(remote.drop_last()) + remote.last().padding
    }
}

impl SlabModel {
    pub open spec fn count(self) -> int {
        block_count(self.block_size)
    }

    pub open spec fn first(self) -> int {
        first_block(self.block_size)
    }

    pub open spec fn free(self) -> Set<int> {
        Set::new(
            |index: int|
                self.recycled.contains(index) || self.batch.contains(index) || self.fresh <= index
                    < self.count(),
        )
    }

    pub open spec fn index_of(self, block: int) -> int {
        (block - self.address) / self.block_size
    }

    pub open spec fn block_at(self, index: int) -> int {
        self.address + index * self.block_size
    }

    /// Whether `block` is the address of a block that was handed out and not taken back.
    pub open spec fn handed_out(self, block: int) -> bool {
        &&& self.address <= block < self.address + SLAB_SIZE
        &&& (block - self.address) % self.block_size == 0
        &&& self.first() <= self.index_of(block) < self.fresh
        &&& !self.recycled.contains(self.index_of(block))
        &&& !self.batch.contains(self.index_of(block))
    }

    /// The blocks that wait in the remote list.
    pub open spec fn remote_blocks(self) -> Set<int> {
        Set::new(
            |index: int|
                exists|position: int|
                    0 <= position < self.remote.len() && index == self.index_of(
                        (#[trigger] self.remote[position]).block as int,
                    ),
        )
    }

    /// The block that the slab hands out next: a batched one, else the lowest recycled one,
    /// else the lowest fresh one.
    pub open spec fn next_block(self) -> Option<int> {
        if exists|index: int| self.batch.contains(index) {
            Some(least(self.batch))
        } else if exists|index: int| self.recycled.contains(index) {
            Some(least(self.recycled))
        } else if self.fresh < self.count() {
            Some(self.fresh)
        } else {
            None
        }
    }

    /// The slab once it has handed out its next block. Blocks of at most `batch_limit` bytes
    /// move a whole bitmap word into the batch.
    pub open spec fn after_take(self, batch_limit: int) -> SlabModel {
        if exists|index: int| self.batch.contains(index) {
            SlabModel { batch: self.batch.remove(least(self.batch)), ..self }
        } else if exists|index: int| self.recycled.contains(index) {
            let lowest = least(self.recycled);
            if self.block_size <= batch_limit {
                SlabModel {
                    batch: same_word(self.recycled, lowest).remove(lowest),
                    recycled: self.recycled.difference(same_word(self.recycled, lowest)),
                    ..self
                }
            } else {
                SlabModel { recycled: self.recycled.remove(lowest), ..self }
            }
        } else if self.fresh < self.count() {
            SlabModel { fresh: self.fresh + 1, ..self }
        } else {
            self
        }
    }

    /// The slab once the blocks of its remote list are back in its bitmap.
    pub open spec fn drained(self) -> SlabModel {
        SlabModel {
            recycled: self.recycled.union(self.remote_blocks()),
            remote: Seq::empty(),
            padding: self.padding - total_padding(self.remote),
            ..self
        }
    }

    /// What every slab keeps to.
    pub open spec fn well_formed(self) -> bool {
        &&& valid_block_size(self.block_size)
        &&& 0 < self.address
        &&& self.address % SLAB_SIZE as int == 0
        &&& self.address + SLAB_SIZE <= usize::MAX
        &&& self.first() <= self.fresh <= self.count()
        &&& forall|index: int|
            #![trigger self.recycled.contains(index)]
            self.recycled.contains(index) ==> self.first() <= index < self.fresh
        &&& forall|index: int|
            #![trigger self.batch.contains(index)]
            self.batch.contains(index) ==> self.first() <= index < self.fresh
                && !self.recycled.contains(index)
        &&& forall|position: int|
            0 <= position < self.remote.len() ==> self.handed_out(
                (#[trigger] self.remote[position]).block as int,
            )
        &&& forall|left: int, right: int|
            #![trigger self.remote[left], self.remote[right]]
            0 <= left < right < self.remote.len() ==> self.remote[left].block
                != self.remote[right].block
        &&& total_padding(self.remote) <= self.padding
    }
}

pub struct Slab {
    pub address: usize,
    pub marker: u64,
    pub owner: usize,
    pub block_size: usize,
    pub usable_blocks: usize,
    /// The address of the next fresh block, or 0 once there is none.
    pub fresh_next: usize,
    pub free_count: usize,
    /// Bit `w` is set where word `w` of the bitmap holds a block.
    pub recycled_summary: u64,
    pub recycled: Vec<u64>,
    pub recycled_batch: u64,
    pub recycled_batch_word: usize,
    pub remote_free: Vec<RemoteFree>,
    pub remote_queued: bool,
    pub padding_bytes: usize,
    pub shared: bool,
}

/// The blocks that a batch word stands for.
pub open spec fn batch_set(word: u64, word_index: int) -> Set<int> {
    Set::new(|index: int| bit(word, index - word_index * 64))
}

impl View for Slab {
    type V = SlabModel;

    open spec fn view(&self) -> SlabModel {
        SlabModel {
            address: self.address as int,
            marker: self.marker,
            owner: self.owner,
            block_size: self.block_size as int,
            recycled: bits_of(self.recycled@),
            batch: batch_set(self.recycled_batch, self.recycled_batch_word as int),
            fresh: if self.fresh_next == 0 {
                block_count(self.block_size as int)
            } else {
                (self.fresh_next - self.address) / self.block_size as int
            },
            remote: self.remote_free@,
            queued: self.remote_queued,
            padding: self.padding_bytes as int,
            shared: self.shared,
        }
    }
}

impl Slab {
    /// The invariant of a slab: its model's, and that the counters and the summary agree
    /// with the sets that they summarise.
    pub open spec fn wf(&self) -> bool {
        &&& self@.well_formed()
        &&& self.recycled@.len() == RECYCLED_BITMAP_WORDS
        &&& self.recycled_batch_word < RECYCLED_BITMAP_WORDS
        &&& self.usable_blocks == self@.count() - self@.first()
        &&& self.fresh_next != 0 ==> self.fresh_next == self@.block_at(self@.fresh) && self@.fresh
            < self@.count()
        &&& forall|word: int|
            #![trigger self.recycled@[word]]
            0 <= word < RECYCLED_BITMAP_WORDS ==> (bit(self.recycled_summary, word)
                <==> self.recycled@[word] != 0)
        &&& forall|word: int| RECYCLED_BITMAP_WORDS <= word ==> !#[trigger] bit(self.recycled_summary, word)
        &&& self@.free().finite()
        &&& self.free_count == self@.free().len()
    }
}

pub proof fn lemma_least(set: Set<int>, member: int)
    requires
        set.contains(member),
        forall|other: int| set.contains(other) ==> member <= other,
    ensures
        least(set) == member,
{
    reveal(least);
    let chosen = least(set);
    assert(set.contains(chosen) && forall|other: int| set.contains(other) ==> chosen <= other);
}

/// The block arithmetic of a size class.
pub proof fn lemma_blocks(size: int)
    requires
        valid_block_size(size),
    ensures
        1 <= first_block(size) < block_count(size) <= 2048,
        block_count(size) * size <= SLAB_SIZE,
        SLAB_SIZE < (block_count(size) + 1) * size,
        first_block(size) * size >= SLAB_HEADER_SIZE,
{
    let count = block_count(size);
    let first = first_block(size);
    vstd::arithmetic::div_mod::lemma_fundamental_div_mod(SLAB_SIZE as int, size);
    vstd::arithmetic::div_mod::lemma_fundamental_div_mod(SLAB_HEADER_SIZE + size - 1, size);
    assert(count * size <= SLAB_SIZE && SLAB_SIZE < (count + 1) * size && first * size
        <= SLAB_HEADER_SIZE + size - 1 && SLAB_HEADER_SIZE + size - 1 < (first + 1) * size)
        by (nonlinear_arith)
        requires
            SLAB_SIZE as int == size * count + SLAB_SIZE as int % size,
            0 <= SLAB_SIZE as int % size < size,
            SLAB_HEADER_SIZE + size - 1 == size * first + (SLAB_HEADER_SIZE + size - 1) % size,
            0 <= (SLAB_HEADER_SIZE + size - 1) % size < size,
    ;
    assert(1 <= first < count <= 2048 && first * size >= 384) by (nonlinear_arith)
        requires
            16 <= size <= 16384,
            count * size <= 32768,
            32768 < (count + 1) * size,
            first * size <= 384 + size - 1,
            384 + size - 1 < (first + 1) * size,
    ;
}

/// A block's address gives back its index, and the index its address.
pub proof fn lemma_block_at(slab: SlabModel, index: int)
    requires
        slab.block_size > 0,
    ensures
        slab.index_of(slab.block_at(index)) == index,
        (slab.block_at(index) - slab.address) % slab.block_size == 0,
{
    let size = slab.block_size;
    assert(slab.block_at(index) - slab.address == index * size);
    vstd::arithmetic::div_mod::lemma_div_multiples_vanish(index, size);
    vstd::arithmetic::div_mod::lemma_mod_multiples_basic(index, size);
    assert(index * size == size * index) by (nonlinear_arith);
}

pub proof fn lemma_index_of(slab: SlabModel, block: int)
    requires
        slab.block_size > 0,
        (block - slab.address) % slab.block_size == 0,
    ensures
        slab.block_at(slab.index_of(block)) == block,
{
    vstd::arithmetic::div_mod::lemma_fundamental_div_mod(block - slab.address, slab.block_size);
    let index = slab.index_of(block);
    let size = slab.block_size;
    assert(index * size == size * index) by (nonlinear_arith);
}

pub proof fn lemma_free_finite(slab: SlabModel)
    requires
        slab.well_formed(),
    ensures
        slab.free().finite(),
{
    lemma_blocks(slab.block_size);
    let range = vstd::set_lib::set_int_range(0, slab.count());
    vstd::set_lib::lemma_int_range(0, slab.count());
    assert(slab.free().subset_of(range));
    vstd::set_lib::lemma_set_subset_finite(range, slab.free());
}

/// A change of the stores that leaves every block of the remote list handed out keeps the
/// slab well formed.
proof fn lemma_restore(slab: SlabModel, after: SlabModel)
    requires
        slab.well_formed(),
        after.address == slab.address,
        after.block_size == slab.block_size,
        after.remote == slab.remote,
        after.padding == slab.padding,
        slab.fresh <= after.fresh <= slab.count(),
        forall|index: int|
            #![trigger after.recycled.contains(index)]
            after.recycled.contains(index) ==> slab.recycled.contains(index),
        forall|index: int|
            #![trigger after.batch.contains(index)]
            after.batch.contains(index) ==> !after.recycled.contains(index) && (slab.batch.contains(
                index,
            ) || slab.recycled.contains(index)),
    ensures
        after.well_formed(),
{
    assert forall|position: int| 0 <= position < after.remote.len() implies after.handed_out(
        (#[trigger] after.remote[position]).block as int,
    ) by {
        let block = slab.remote[position].block as int;
        assert(slab.handed_out(block));
        assert(after.index_of(block) == slab.index_of(block));
    }
    assert forall|index: int| #![trigger after.recycled.contains(index)] after.recycled.contains(index) implies after.first()
        <= index < after.fresh by {
        assert(slab.recycled.contains(index));
    }
}

proof fn lemma_take_batched(slab: SlabModel, batch_limit: int)
    requires
        slab.well_formed(),
        exists|index: int| slab.batch.contains(index),
    ensures
        slab.next_block() == Some(least(slab.batch)),
        slab.batch.contains(least(slab.batch)),
        slab.after_take(batch_limit).free() =~= slab.free().remove(least(slab.batch)),
        slab.after_take(batch_limit).well_formed(),
{
    lemma_next_block(slab);
    let lowest = least(slab.batch);
    let after = slab.after_take(batch_limit);
    assert(after.batch == slab.batch.remove(lowest));
    assert(after.recycled == slab.recycled && after.fresh == slab.fresh);
    assert forall|index: int| #![trigger after.batch.contains(index)] after.batch.contains(index) implies slab.batch.contains(
        index,
    ) && !after.recycled.contains(index) by {}
    lemma_restore(slab, after);
    assert forall|index: int| after.free().contains(index) == slab.free().remove(lowest).contains(index) by {
        assert(slab.batch.contains(lowest));
    }
}

proof fn lemma_take_recycled(slab: SlabModel, batch_limit: int)
    requires
        slab.well_formed(),
        !exists|index: int| slab.batch.contains(index),
        exists|index: int| slab.recycled.contains(index),
    ensures
        slab.next_block() == Some(least(slab.recycled)),
        slab.recycled.contains(least(slab.recycled)),
        slab.after_take(batch_limit).free() =~= slab.free().remove(least(slab.recycled)),
        slab.after_take(batch_limit).well_formed(),
{
    lemma_next_block(slab);
    let lowest = least(slab.recycled);
    let word = same_word(slab.recycled, lowest);
    let after = slab.after_take(batch_limit);
    assert(word.contains(lowest));
    assert forall|index: int| #![trigger after.batch.contains(index)] after.batch.contains(index) implies slab.recycled.contains(
        index,
    ) && !after.recycled.contains(index) by {
        assert(word.contains(index));
    }
    assert forall|index: int| after.free().contains(index) == slab.free().remove(lowest).contains(index) by {
        assert(!slab.batch.contains(index));
        assert(word.contains(index) == (slab.recycled.contains(index) && index / 64 == lowest / 64));
    }
    lemma_restore(slab, after);
}

/// Handing out the next block takes exactly that block from the free ones.
pub proof fn lemma_take_removes(slab: SlabModel, batch_limit: int)
    requires
        slab.well_formed(),
        slab.next_block() is Some,
    ensures
        slab.free().contains(slab.next_block()->0),
        slab.after_take(batch_limit).free() =~= slab.free().remove(slab.next_block()->0),
        slab.after_take(batch_limit).well_formed(),
        slab.first() <= slab.next_block()->0 < slab.count(),
{
    if exists|index: int| slab.batch.contains(index) {
        lemma_take_batched(slab, batch_limit);
    } else if exists|index: int| slab.recycled.contains(index) {
        lemma_take_recycled(slab, batch_limit);
    } else {
        let after = slab.after_take(batch_limit);
        assert(after.fresh == slab.fresh + 1);
        lemma_restore(slab, after);
    }
}

/// The next block, where there is one, is in the store that it is taken from.
pub proof fn lemma_next_block(slab: SlabModel)
    requires
        slab.well_formed(),
    ensures
        slab.next_block() is None <==> (forall|index: int| !slab.free().contains(index)),
        (exists|index: int| slab.batch.contains(index)) ==> slab.batch.contains(least(slab.batch)),
        (exists|index: int| slab.recycled.contains(index)) ==> slab.recycled.contains(
            least(slab.recycled),
        ) && forall|other: int| slab.recycled.contains(other) ==> least(slab.recycled) <= other,
{
    if exists|index: int| slab.batch.contains(index) {
        let some = choose|index: int| slab.batch.contains(index);
        lemma_has_least(slab.batch, some, slab.first());
        assert(slab.free().contains(some));
    } else if exists|index: int| slab.recycled.contains(index) {
        let some = choose|index: int| slab.recycled.contains(index);
        assert(slab.free().contains(some));
    } else if slab.fresh < slab.count() {
        assert(slab.free().contains(slab.fresh));
    }
    if exists|index: int| slab.recycled.contains(index) {
        let some = choose|index: int| slab.recycled.contains(index);
        lemma_has_least(slab.recycled, some, slab.first());
    }
}

/// A set that is bounded below has a least member.
pub proof fn lemma_has_least(set: Set<int>, member: int, bound: int)
    requires
        set.contains(member),
        forall|other: int| set.contains(other) ==> bound <= other,
    ensures
        set.contains(least(set)),
        forall|other: int| set.contains(other) ==> least(set) <= other,
    decreases member - bound,
{
    if forall|other: int| set.contains(other) ==> member <= other {
        lemma_least(set, member);
    } else {
        let smaller = choose|other: int| set.contains(other) && other < member;
        lemma_has_least(set, smaller, bound);
    }
}


proof fn lemma_batch_without(word: u64, word_index: int, cleared: int, after: u64)
    requires
        0 <= cleared < 64,
        forall|other: int| bit(after, other) == (bit(word, other) && other != cleared),
    ensures
        batch_set(after, word_index) =~= batch_set(word, word_index).remove(word_index * 64 + cleared),
{
}

proof fn lemma_empty_batch(word_index: int)
    ensures
        forall|index: int| !batch_set(0, word_index).contains(index),
{
    assert forall|index: int| !batch_set(0, word_index).contains(index) by {
        lemma_bit_zero(index - word_index * 64);
    }
}

/// The lowest bit of the lowest word that has one is the least index.
proof fn lemma_lowest_recycled(words: Seq<u64>, word_index: int, bit_index: int)
    requires
        0 <= word_index < words.len(),
        forall|word: int| 0 <= word < word_index ==> #[trigger] words[word] == 0,
        bit(words[word_index], bit_index),
        forall|other: int| bit(words[word_index], other) ==> bit_index <= other,
    ensures
        bits_of(words).contains(word_index * 64 + bit_index),
        least(bits_of(words)) == word_index * 64 + bit_index,
{
    let lowest = word_index * 64 + bit_index;
    assert(lowest / 64 == word_index && lowest % 64 == bit_index);
    assert forall|other: int| bits_of(words).contains(other) implies lowest <= other by {
        if other / 64 < word_index {
            lemma_bit_zero(other % 64);
            assert(words[other / 64] == 0);
        } else if other / 64 == word_index {
            assert(bit(words[word_index], other % 64));
        }
    }
    lemma_least(bits_of(words), lowest);
}

/// Replacing one word changes the membership of that word's indices only.
proof fn lemma_word_update(words: Seq<u64>, word_index: int, word: u64)
    requires
        0 <= word_index < words.len(),
    ensures
        forall|index: int|
            #![trigger bits_of(words.update(word_index, word)).contains(index)]
            bits_of(words.update(word_index, word)).contains(index) == (if index / 64 == word_index
                && 0 <= index {
                bit(word, index % 64)
            } else {
                bits_of(words).contains(index)
            }),
{
    let updated = words.update(word_index, word);
    assert forall|index: int| #![trigger bits_of(updated).contains(index)] bits_of(updated).contains(index) == (if index / 64
        == word_index && 0 <= index {
        bit(word, index % 64)
    } else {
        bits_of(words).contains(index)
    }) by {
        if 0 <= index < words.len() * 64 {
            if index / 64 == word_index {
                assert(updated[index / 64] == word);
            } else {
                assert(updated[index / 64] == words[index / 64]);
            }
        }
    }
}

impl Slab {
    /// Takes the next block, or returns 0 where the slab has none.
    pub fn take_local(&mut self, batch_limit: usize) -> (block: usize)
        requires
            old(self).wf(),
        ensures
            final(self).wf(),
            final(self)@ == old(self)@.after_take(batch_limit as int),
            old(self)@.next_block() is None ==> block == 0,
            old(self)@.next_block() matches Some(index) ==> block == old(self)@.block_at(index) && block
                != 0,
    {
        let ghost before = self@;
        proof {
            lemma_blocks(before.block_size);
            lemma_next_block(before);
            if before.next_block() is Some {
                lemma_take_removes(before, batch_limit as int);
                let next = before.next_block()->0;
                let size = before.block_size;
                let count = before.count();
                assert(0 <= next * size && next * size < count * size) by (nonlinear_arith)
                    requires
                        0 <= next < count,
                        size > 0,
                ;
            }
        }
        if self.recycled_batch != 0 {
            let batch: u64 = self.recycled_batch;
            let bit_index: usize = lowest_bit(batch);
            let block_index: usize = self.recycled_batch_word * 64 + bit_index;
            proof {
                let set = before.batch;
                assert(set.contains(block_index as int));
                assert forall|other: int| set.contains(other) implies block_index <= other by {
                    assert(bit(batch, other - self.recycled_batch_word * 64));
                }
                lemma_least(set, block_index as int);
            }
            self.recycled_batch = without_bit(batch, bit_index);
            self.free_count = self.free_count - 1;
            proof {
                lemma_batch_without(
                    batch,
                    self.recycled_batch_word as int,
                    bit_index as int,
                    self.recycled_batch,
                );
                assert(self@ =~= before.after_take(batch_limit as int));
            }
            return self.address + block_index * self.block_size;
        }
        proof {
            lemma_empty_batch(self.recycled_batch_word as int);
        }
        if self.recycled_summary != 0 {
            let word_index: usize = lowest_bit(self.recycled_summary);
            assert(bit(self.recycled_summary, word_index as int));
            let word: u64 = self.recycled[word_index];
            let bit_index: usize = lowest_bit(word);
            let block_index: usize = word_index * 64 + bit_index;
            let ghost words = self.recycled@;
            proof {
                lemma_lowest_recycled(words, word_index as int, bit_index as int);
            }
            self.free_count = self.free_count - 1;
            if self.block_size <= batch_limit {
                self.recycled[word_index] = 0;
                self.recycled_summary = without_bit(self.recycled_summary, word_index);
                self.recycled_batch_word = word_index;
                self.recycled_batch = without_bit(word, bit_index);
                proof {
                    lemma_word_update(words, word_index as int, 0);
                    assert forall|index: int| !bit(0, index) by {
                        lemma_bit_zero(index);
                    }
                    lemma_batch_without(word, word_index as int, bit_index as int, self.recycled_batch);
                    let after = before.after_take(batch_limit as int);
                    let shared = same_word(before.recycled, block_index as int);
                    assert forall|index: int| shared.contains(index) == batch_set(word, word_index as int).contains(index) by {
                        if index / 64 == block_index as int / 64 {
                            assert(index % 64 == index - word_index * 64);
                        }
                        if bit(word, index - word_index * 64) {
                            assert(index / 64 == word_index);
                            assert(index % 64 == index - word_index * 64);
                        }
                    }
                    assert(self@.batch =~= after.batch);
                    assert(self@.recycled =~= after.recycled);
                    assert(self@ =~= after);
                }
            } else {
                let remaining: u64 = without_bit(word, bit_index);
                self.recycled[word_index] = remaining;
                if remaining == 0 {
                    self.recycled_summary = without_bit(self.recycled_summary, word_index);
                }
                proof {
                    lemma_word_update(words, word_index as int, remaining);
                    let after = before.after_take(batch_limit as int);
                    assert forall|index: int| self@.recycled.contains(index) == after.recycled.contains(index) by {
                        if index / 64 == word_index as int && 0 <= index {
                            assert(bits_of(words).contains(index) == bit(word, index % 64));
                        }
                    }
                    assert(self@.batch =~= after.batch);
                    assert(self@ =~= after);
                }
            }
            return self.address + block_index * self.block_size;
        }
        proof {
            assert forall|index: int| !before.recycled.contains(index) by {
                if bits_of(self.recycled@).contains(index) {
                    lemma_bit_zero(index / 64);
                    assert(self.recycled@[index / 64] == 0);
                    lemma_bit_zero(index % 64);
                }
            }
        }
        if self.fresh_next == 0 {
            return 0;
        }
        let block: usize = self.fresh_next;
        proof {
            let size = before.block_size;
            let fresh = before.fresh;
            let count = before.count();
            assert((fresh + 1) * size == fresh * size + size) by (nonlinear_arith);
            assert((fresh + 2) * size == fresh * size + size + size) by (nonlinear_arith);
            lemma_block_at(before, fresh);
            lemma_block_at(before, fresh + 1);
            assert(fresh + 1 < count ==> (fresh + 2) * size <= count * size) by (nonlinear_arith)
                requires
                    size > 0,
            ;
            assert(fresh + 1 >= count ==> (fresh + 2) * size >= (count + 1) * size) by (nonlinear_arith)
                requires
                    size > 0,
            ;
            assert(before.block_at(fresh + 1) == block + size);
        }
        let next: usize = block + self.block_size;
        let slab_end: usize = self.address + SLAB_SIZE;
        self.free_count = self.free_count - 1;
        if slab_end - next >= self.block_size {
            self.fresh_next = next;
        } else {
            self.fresh_next = 0;
        }
        proof {
            let after = before.after_take(batch_limit as int);
            assert(after.fresh == before.fresh + 1);
            assert(self@ =~= after);
        }
        block
    }
}


/// Whether `shift` and `reciprocal` are the constants that divide by `size`: a shift where the
/// size is a power of two, else the rounded-up reciprocal scaled by 2^64.
pub open spec fn divides_by(shift: u8, reciprocal: u64, size: int) -> bool {
    if shift == NO_SHIFT {
        reciprocal == (0x1_0000_0000_0000_0000 + size - 1) / size
    } else {
        shift < 64 && size == pow2(shift as nat)
    }
}

proof fn lemma_reciprocal(offset: int, size: int, reciprocal: int)
    requires
        valid_block_size(size),
        0 <= offset < SLAB_SIZE,
        offset % size == 0,
        reciprocal == (0x1_0000_0000_0000_0000 + size - 1) / size,
    ensures
        0 <= offset * reciprocal < 0x1_0000_0000_0000_0000_0000_0000_0000_0000,
        offset * reciprocal / 0x1_0000_0000_0000_0000 == offset / size,
{
    let scale: int = 0x1_0000_0000_0000_0000;
    let quotient = offset / size;
    vstd::arithmetic::div_mod::lemma_fundamental_div_mod(offset, size);
    vstd::arithmetic::div_mod::lemma_fundamental_div_mod(scale + size - 1, size);
    let excess = size * reciprocal - scale;
    assert(0 <= excess < size);
    assert(0 <= quotient < 2048) by (nonlinear_arith)
        requires
            offset == size * quotient,
            0 <= offset < 32768,
            size >= 16,
    ;
    assert(offset * reciprocal == quotient * scale + quotient * excess) by (nonlinear_arith)
        requires
            offset == size * quotient,
            excess == size * reciprocal - scale,
    ;
    assert(0 <= quotient * excess < 2048 * 16384) by (nonlinear_arith)
        requires
            0 <= quotient < 2048,
            0 <= excess < 16384,
    ;
    assert(0 <= quotient * scale <= 2048 * scale) by (nonlinear_arith)
        requires
            0 <= quotient < 2048,
            scale > 0,
    ;
    vstd::arithmetic::div_mod::lemma_fundamental_div_mod_converse(
        offset * reciprocal,
        scale,
        quotient,
        quotient * excess,
    );
}

/// The index of the block that starts at `offset`, by a shift or by one multiplication.
pub fn block_index(offset: usize, shift: u8, reciprocal: u64, size: usize) -> (index: usize)
    requires
        valid_block_size(size as int),
        divides_by(shift, reciprocal, size as int),
        offset < SLAB_SIZE,
        offset as int % size as int == 0,
    ensures
        index == offset as int / size as int,
{
    if shift != NO_SHIFT {
        let wide: u64 = offset as u64;
        proof {
            vstd::bits::lemma_u64_shr_is_div(wide, shift as u64);
        }
        (wide >> (shift as u64)) as usize
    } else {
        proof {
            lemma_reciprocal(offset as int, size as int, reciprocal as int);
        }
        let product: u128 = (offset as u128) * (reciprocal as u128);
        assert(product >> 64u128 == product / 0x1_0000_0000_0000_0000u128) by (bit_vector);
        (product >> 64u128) as usize
    }
}


impl SlabModel {
    /// The slab once `block` is back in its bitmap.
    pub open spec fn recycling(self, block: int) -> SlabModel {
        SlabModel { recycled: self.recycled.insert(self.index_of(block)), ..self }
    }

    /// Whether `block` waits in the remote list.
    pub open spec fn in_remote_list(self, block: int) -> bool {
        exists|position: int|
            0 <= position < self.remote.len() && (#[trigger] self.remote[position]).block == block
    }
}

/// Two different blocks of a slab have different indices.
pub proof fn lemma_distinct_indices(slab: SlabModel, left: int, right: int)
    requires
        slab.block_size > 0,
        slab.handed_out(left),
        slab.handed_out(right),
        left != right,
    ensures
        slab.index_of(left) != slab.index_of(right),
{
    lemma_index_of(slab, left);
    lemma_index_of(slab, right);
}

/// Putting a handed-out block back makes it, and nothing else, free.
pub proof fn lemma_recycling(slab: SlabModel, block: int)
    requires
        slab.well_formed(),
        slab.handed_out(block),
        !slab.in_remote_list(block),
    ensures
        slab.recycling(block).well_formed(),
        !slab.free().contains(slab.index_of(block)),
        slab.recycling(block).free() =~= slab.free().insert(slab.index_of(block)),
{
    let after = slab.recycling(block);
    assert forall|position: int| 0 <= position < after.remote.len() implies after.handed_out(
        (#[trigger] after.remote[position]).block as int,
    ) by {
        let other = slab.remote[position].block as int;
        assert(slab.handed_out(other));
        lemma_distinct_indices(slab, block, other);
        assert(after.index_of(other) == slab.index_of(other));
    }
    assert(!slab.free().contains(slab.index_of(block)));
}

/// Taking the newest entry off the remote list and recycling it leaves what draining yields.
proof fn lemma_drain_step(slab: SlabModel)
    requires
        slab.well_formed(),
        slab.remote.len() > 0,
    ensures
        ({
            let last = slab.remote.last();
            let popped = SlabModel {
                remote: slab.remote.drop_last(),
                padding: slab.padding - last.padding,
                ..slab
            };
            &&& popped.well_formed()
            &&& popped.handed_out(last.block as int)
            &&& !popped.in_remote_list(last.block as int)
            &&& popped.recycling(last.block as int).drained() == slab.drained()
            &&& last.padding <= slab.padding
        }),
{
    let last = slab.remote.last();
    let popped = SlabModel {
        remote: slab.remote.drop_last(),
        padding: slab.padding - last.padding,
        ..slab
    };
    let total = slab.remote.len() - 1;
    assert(slab.handed_out(slab.remote[total].block as int));
    assert(total_padding(slab.remote) == total_padding(slab.remote.drop_last()) + last.padding);
    lemma_total_padding(slab.remote.drop_last());
    assert forall|position: int| 0 <= position < popped.remote.len() implies popped.handed_out(
        (#[trigger] popped.remote[position]).block as int,
    ) by {
        assert(slab.handed_out(slab.remote[position].block as int));
        assert(popped.index_of(slab.remote[position].block as int) == slab.index_of(
            slab.remote[position].block as int,
        ));
    }
    assert forall|left: int, right: int|
        #![trigger popped.remote[left], popped.remote[right]]
        0 <= left < right < popped.remote.len() implies popped.remote[left].block
        != popped.remote[right].block by {
        assert(slab.remote[left].block != slab.remote[right].block);
    }
    assert(popped.handed_out(last.block as int)) by {
        assert(popped.index_of(last.block as int) == slab.index_of(last.block as int));
    }
    if popped.in_remote_list(last.block as int) {
        let position = choose|position: int|
            0 <= position < popped.remote.len() && (#[trigger] popped.remote[position]).block
                == last.block;
        assert(slab.remote[position].block != slab.remote[total].block);
    }
    let recycled = popped.recycling(last.block as int);
    let left = recycled.drained();
    let right = slab.drained();
    assert forall|index: int| left.recycled.contains(index) == right.recycled.contains(index) by {
        if slab.remote_blocks().contains(index) {
            let position = choose|position: int|
                0 <= position < slab.remote.len() && index == slab.index_of(
                    (#[trigger] slab.remote[position]).block as int,
                );
            if position < total {
                assert(recycled.remote[position] == slab.remote[position]);
                assert(recycled.index_of(recycled.remote[position].block as int) == index);
                assert(recycled.remote_blocks().contains(index));
            } else {
                assert(recycled.recycled.contains(index));
            }
        }
        if recycled.remote_blocks().contains(index) {
            let position = choose|position: int|
                0 <= position < recycled.remote.len() && index == recycled.index_of(
                    (#[trigger] recycled.remote[position]).block as int,
                );
            assert(slab.index_of(slab.remote[position].block as int) == index);
            assert(slab.remote_blocks().contains(index));
        }
        if index == popped.index_of(last.block as int) {
            assert(slab.index_of(slab.remote[total].block as int) == index);
            assert(slab.remote_blocks().contains(index));
        }
    }
    assert(left.recycled =~= right.recycled);
    assert(left =~= right);
}

pub proof fn lemma_total_padding(remote: Seq<RemoteFree>)
    ensures
        0 <= total_padding(remote),
    decreases remote.len(),
{
    if remote.len() > 0 {
        lemma_total_padding(remote.drop_last());
    }
}

/// Draining keeps a slab well formed and frees exactly the blocks of its remote list.
pub proof fn lemma_drained(slab: SlabModel)
    requires
        slab.well_formed(),
    ensures
        slab.drained().well_formed(),
        slab.drained().free() =~= slab.free().union(slab.remote_blocks()),
        slab.drained().padding >= 0,
    decreases slab.remote.len(),
{
    lemma_total_padding(slab.remote);
    if slab.remote.len() == 0 {
        assert(slab.remote_blocks() =~= Set::empty());
        assert(slab.drained() =~= slab);
    } else {
        lemma_drain_step(slab);
        let last = slab.remote.last();
        let popped = SlabModel {
            remote: slab.remote.drop_last(),
            padding: slab.padding - last.padding,
            ..slab
        };
        lemma_recycling(popped, last.block as int);
        lemma_drained(popped.recycling(last.block as int));
    }
}

impl Slab {
    /// Puts a handed-out block back into the bitmap.
    pub fn recycle(&mut self, block: usize, shift: u8, reciprocal: u64)
        requires
            old(self).wf(),
            old(self)@.handed_out(block as int),
            !old(self)@.in_remote_list(block as int),
            divides_by(shift, reciprocal, old(self).block_size as int),
        ensures
            final(self).wf(),
            final(self)@ == old(self)@.recycling(block as int),
            final(self).free_count == old(self).free_count + 1,
            final(self).block_size == old(self).block_size,
    {
        let ghost before = self@;
        proof {
            lemma_blocks(before.block_size);
            lemma_recycling(before, block as int);
            let whole = before.recycling(block as int);
            lemma_free_finite(whole);
            let range = vstd::set_lib::set_int_range(0, whole.count());
            vstd::set_lib::lemma_int_range(0, whole.count());
            vstd::set_lib::lemma_len_subset(whole.free(), range);
        }
        let index: usize = block_index(block - self.address, shift, reciprocal, self.block_size);
        let word_index: usize = index / 64;
        let ghost words = self.recycled@;
        let word: u64 = self.recycled[word_index];
        let updated: u64 = with_bit(word, index % 64);
        self.recycled[word_index] = updated;
        self.recycled_summary = with_bit(self.recycled_summary, word_index);
        self.free_count = self.free_count + 1;
        proof {
            lemma_word_update(words, word_index as int, updated);
            let after = before.recycling(block as int);
            assert(bit(updated, index as int % 64));
            lemma_bit_zero(index as int % 64);
            assert(updated != 0);
            assert forall|other: int| self@.recycled.contains(other) == after.recycled.contains(other) by {
                if other / 64 == word_index as int && 0 <= other {
                    assert(bits_of(words).contains(other) == bit(word, other % 64));
                }
            }
            assert(self@.recycled =~= after.recycled);
            assert(self@ =~= after);
        }
    }

    /// Puts every block of the remote list back into the bitmap, and returns how many.
    pub fn drain_remote(&mut self, shift: u8, reciprocal: u64) -> (drained: usize)
        requires
            old(self).wf(),
            divides_by(shift, reciprocal, old(self).block_size as int),
        ensures
            final(self).wf(),
            final(self)@ == old(self)@.drained(),
            drained == old(self)@.remote.len(),
    {
        let ghost before = self@;
        let total: usize = self.remote_free.len();
        while self.remote_free.len() > 0
            invariant
                self.wf(),
                self@.drained() == before.drained(),
                self.block_size == before.block_size,
                divides_by(shift, reciprocal, self.block_size as int),
            decreases self.remote_free@.len(),
        {
            let ghost current = self@;
            proof {
                lemma_drain_step(current);
            }
            let last = self.remote_free.pop().unwrap();
            self.padding_bytes = self.padding_bytes - last.padding;
            proof {
                assert(current.remote.subrange(0, current.remote.len() - 1) =~= current.remote.drop_last());
                assert(self@.free() =~= current.free());
            }
            self.recycle(last.block, shift, reciprocal);
        }
        proof {
            assert(self@.remote_blocks() =~= Set::empty());
            assert(self@.drained() =~= self@);
        }
        total
    }

    /// Takes the next block, draining the remote list where the slab has none of its own.
    pub fn take(&mut self, batch_limit: usize, shift: u8, reciprocal: u64) -> (taken: (usize, usize))
        requires
            old(self).wf(),
            divides_by(shift, reciprocal, old(self).block_size as int),
        ensures
            final(self).wf(),
            old(self)@.next_block() is Some ==> final(self)@ == old(self)@.after_take(batch_limit as int)
                && taken.0 == old(self)@.block_at(old(self)@.next_block()->0) && taken.0 != 0 && taken.1 == 0,
            old(self)@.next_block() is None ==> final(self)@ == old(self)@.drained().after_take(
                batch_limit as int,
            ) && taken.1 == old(self)@.remote.len(),
            old(self)@.next_block() is None && old(self)@.drained().next_block() is None ==> taken.0 == 0,
            old(self)@.next_block() is None && old(self)@.drained().next_block() is Some ==> taken.0
                == old(self)@.block_at(old(self)@.drained().next_block()->0) && taken.0 != 0,
    {
        let block: usize = self.take_local(batch_limit);
        if block != 0 {
            return (block, 0);
        }
        let drained: usize = self.drain_remote(shift, reciprocal);
        (self.take_local(batch_limit), drained)
    }
}


/// A slab of which nothing was handed out from block `fresh` on, and everything before it is
/// in use.
pub open spec fn new_slab(
    address: int,
    marker: u64,
    owner: usize,
    block_size: int,
    fresh: int,
    shared: bool,
) -> SlabModel {
    SlabModel {
        address,
        marker,
        owner,
        block_size,
        recycled: Set::empty(),
        batch: Set::empty(),
        fresh,
        remote: Seq::empty(),
        queued: false,
        padding: 0,
        shared,
    }
}

/// The first block that the header leaves free, and the number of blocks.
pub fn slab_block_layout(block_size: usize) -> (layout: (usize, usize))
    requires
        valid_block_size(block_size as int),
    ensures
        layout.0 == first_block(block_size as int),
        layout.1 == block_count(block_size as int),
        1 <= layout.0 < layout.1 <= 2048,
{
    proof {
        lemma_blocks(block_size as int);
    }
    ((SLAB_HEADER_SIZE + block_size - 1) / block_size, SLAB_SIZE / block_size)
}

fn zero_words(count: usize) -> (words: Vec<u64>)
    ensures
        words@.len() == count,
        forall|index: int| 0 <= index < count ==> words@[index] == 0,
{
    let mut words: Vec<u64> = Vec::new();
    while words.len() < count
        invariant
            words@.len() <= count,
            forall|index: int| 0 <= index < words@.len() ==> words@[index] == 0,
        decreases count - words@.len(),
    {
        words.push(0);
    }
    words
}

impl Slab {
    /// A slab whose blocks below `fresh` are all in use.
    fn with_fresh(
        address: usize,
        marker: u64,
        owner: usize,
        block_size: usize,
        fresh: usize,
        shared: bool,
    ) -> (slab: Slab)
        requires
            valid_block_size(block_size as int),
            0 < address,
            address as int % SLAB_SIZE as int == 0,
            address + SLAB_SIZE <= usize::MAX,
            first_block(block_size as int) <= fresh <= block_count(block_size as int),
        ensures
            slab.wf(),
            slab@ == new_slab(address as int, marker, owner, block_size as int, fresh as int, shared),
    {
        let (first, count) = slab_block_layout(block_size);
        proof {
            lemma_blocks(block_size as int);
            assert(fresh * block_size <= count * block_size) by (nonlinear_arith)
                requires
                    fresh <= count,
                    block_size >= 0,
            ;
        }
        let fresh_next: usize = if fresh < count {
            address + fresh * block_size
        } else {
            0
        };
        let slab = Slab {
            address,
            marker,
            owner,
            block_size,
            usable_blocks: count - first,
            fresh_next,
            free_count: count - fresh,
            recycled_summary: 0,
            recycled: zero_words(RECYCLED_BITMAP_WORDS),
            recycled_batch: 0,
            recycled_batch_word: 0,
            remote_free: Vec::new(),
            remote_queued: false,
            padding_bytes: 0,
            shared,
        };
        proof {
            let model = new_slab(address as int, marker, owner, block_size as int, fresh as int, shared);
            lemma_block_at(model, fresh as int);
            lemma_empty_batch(0);
            assert forall|index: int| !bit(0, index) by {
                lemma_bit_zero(index);
            }
            assert(slab@.batch =~= Set::empty());
            assert(slab@.recycled =~= Set::empty());
            assert(slab@ =~= model);
            vstd::set_lib::lemma_int_range(fresh as int, count as int);
            assert(model.free() =~= vstd::set_lib::set_int_range(fresh as int, count as int));
        }
        slab
    }

    /// A slab that has just handed out its first block.
    pub fn new(address: usize, marker: u64, owner: usize, block_size: usize) -> (slab: Slab)
        requires
            valid_block_size(block_size as int),
            0 < address,
            address as int % SLAB_SIZE as int == 0,
            address + SLAB_SIZE <= usize::MAX,
        ensures
            slab.wf(),
            slab@ == new_slab(
                address as int,
                marker,
                owner,
                block_size as int,
                first_block(block_size as int) + 1,
                false,
            ),
    {
        let (first, _count) = slab_block_layout(block_size);
        Slab::with_fresh(address, marker, owner, block_size, first + 1, false)
    }

    /// A slab whose blocks are all published to a thread heap's lists.
    pub fn new_remote(address: usize, marker: u64, owner: usize, block_size: usize) -> (slab: Slab)
        requires
            valid_block_size(block_size as int),
            0 < address,
            address as int % SLAB_SIZE as int == 0,
            address + SLAB_SIZE <= usize::MAX,
        ensures
            slab.wf(),
            slab@ == new_slab(
                address as int,
                marker,
                owner,
                block_size as int,
                block_count(block_size as int),
                true,
            ),
    {
        let (_first, count) = slab_block_layout(block_size);
        Slab::with_fresh(address, marker, owner, block_size, count, true)
    }

    /// Adds a block that another thread freed to the remote list.
    pub fn push_remote(&mut self, block: usize, padding: usize)
        requires
            old(self).wf(),
            old(self)@.handed_out(block as int),
            !old(self)@.in_remote_list(block as int),
            total_padding(old(self)@.remote) + padding <= old(self)@.padding,
        ensures
            final(self).wf(),
            final(self)@ == (SlabModel {
                remote: old(self)@.remote.push(RemoteFree { block, padding }),
                ..old(self)@
            }),
            final(self).free_count == old(self).free_count,
    {
        let ghost before = self@;
        self.remote_free.push(RemoteFree { block, padding });
        proof {
            assert(before.remote.push(RemoteFree { block, padding }).drop_last() =~= before.remote);
            assert(self@ =~= (SlabModel {
                remote: before.remote.push(RemoteFree { block, padding }),
                ..before
            }));
            assert(self@.free() =~= before.free());
            assert forall|position: int| 0 <= position < self@.remote.len() implies self@.handed_out(
                (#[trigger] self@.remote[position]).block as int,
            ) by {
                if position < before.remote.len() {
                    assert(before.handed_out(before.remote[position].block as int));
                    assert(self@.index_of(before.remote[position].block as int) == before.index_of(
                        before.remote[position].block as int,
                    ));
                } else {
                    assert(self@.index_of(block as int) == before.index_of(block as int));
                }
            }
            assert forall|left: int, right: int|
                #![trigger self@.remote[left], self@.remote[right]]
                0 <= left < right < self@.remote.len() implies self@.remote[left].block
                != self@.remote[right].block by {
                if right < before.remote.len() {
                    assert(before.remote[left].block != before.remote[right].block);
                } else {
                    assert(before.remote[left].block != block);
                }
            }
        }
    }
}

/// What was taken and put back is handed out again before anything fresh, and before any
/// higher recycled block.
pub proof fn law_recycled_block_is_reused(slab: SlabModel, block: int)
    requires
        slab.well_formed(),
        slab.handed_out(block),
        !slab.in_remote_list(block),
        forall|index: int| !slab.batch.contains(index),
        forall|index: int| slab.recycled.contains(index) ==> slab.index_of(block) <= index,
    ensures
        slab.recycling(block).next_block() == Some(slab.index_of(block)),
{
    let after = slab.recycling(block);
    lemma_least(after.recycled, slab.index_of(block));
    assert(after.recycled.contains(slab.index_of(block)));
}

/// A slab that hands out a block and takes it back can hand out what it could before.
pub proof fn law_take_then_recycle(slab: SlabModel, batch_limit: int)
    requires
        slab.well_formed(),
        slab.next_block() is Some,
    ensures
        ({
            let index = slab.next_block()->0;
            let after = slab.after_take(batch_limit).recycling(slab.block_at(index));
            &&& after.free() =~= slab.free()
            &&& after.free().len() == slab.free().len()
        }),
{
    lemma_take_removes(slab, batch_limit);
    let index = slab.next_block()->0;
    lemma_blocks(slab.block_size);
    lemma_block_at(slab, index);
    let taken = slab.after_take(batch_limit);
    assert(taken.index_of(slab.block_at(index)) == slab.index_of(slab.block_at(index)));
    assert(taken.recycling(slab.block_at(index)).free() =~= taken.free().insert(index));
}

/// A slab is cut into as many blocks as it has room for, and those that its header reaches into are not used.
pub proof fn law_slabs_are_cut_to_their_length(size: int)
    requires
        valid_block_size(size),
    ensures
        block_count(size) * size <= 32768 < (block_count(size) + 1) * size,
        (first_block(size) - 1) * size < 384 <= first_block(size) * size,
        0 < first_block(size) < block_count(size),
{
    let count = block_count(size);
    let first = first_block(size);
    vstd::arithmetic::div_mod::lemma_fundamental_div_mod(32768, size);
    vstd::arithmetic::div_mod::lemma_fundamental_div_mod(384 + size - 1, size);
    vstd::arithmetic::div_mod::lemma_mod_bound(32768, size);
    vstd::arithmetic::div_mod::lemma_mod_bound(384 + size - 1, size);
    assert(count * size <= 32768 < (count + 1) * size) by (nonlinear_arith)
        requires
            32768 == size * count + 32768int % size,
            0 <= 32768int % size < size,
    ;
    assert((first - 1) * size < 384 <= first * size) by (nonlinear_arith)
        requires
            384 + size - 1 == size * first + (384 + size - 1) % size,
            0 <= (384 + size - 1) % size < size,
    ;
    assert(0 < first) by (nonlinear_arith)
        requires
            384 <= first * size,
            size > 0,
    ;
    assert(first < count) by (nonlinear_arith)
        requires
            (first - 1) * size < 384,
            32768 < (count + 1) * size,
            16 <= size <= 16384,
    ;
}

/// A slab hands out a free block where it has one, and then one block is free no longer, and no other changes.
/// A block that was used before goes before one that was not.
pub proof fn law_slabs_hand_out_free_blocks(slab: SlabModel, batch_limit: int)
    requires
        slab.well_formed(),
    ensures
        match slab.next_block() {
            Some(index) => {
                &&& slab.free().contains(index)
                &&& slab.first() <= index < slab.count()
                &&& slab.after_take(batch_limit).free() == slab.free().remove(index)
                &&& index >= slab.fresh ==> forall|other: int| slab.free().contains(other) ==> index <= other
            },
            None => forall|index: int| !slab.free().contains(index),
        },
        slab.after_take(batch_limit).address == slab.address,
        slab.after_take(batch_limit).block_size == slab.block_size,
        slab.after_take(batch_limit).remote == slab.remote,
{
    if exists|index: int| slab.batch.contains(index) {
        let some = choose|index: int| slab.batch.contains(index);
        lemma_least_member(slab.batch, some, slab.first());
    } else if exists|index: int| slab.recycled.contains(index) {
        let some = choose|index: int| slab.recycled.contains(index);
        lemma_least_member(slab.recycled, some, slab.first());
    }
    if let Some(index) = slab.next_block() {
        assert(slab.after_take(batch_limit).free() =~= slab.free().remove(index));
    }
}

/// A set of numbers from some bound on that has a member has a least one.
proof fn lemma_least_member(set: Set<int>, member: int, bound: int)
    requires
        set.contains(member),
        forall|other: int| set.contains(other) ==> bound <= other,
    ensures
        set.contains(least(set)),
        forall|other: int| set.contains(other) ==> least(set) <= other,
    decreases member - bound,
{
    if exists|other: int| set.contains(other) && other < member {
        let smaller = choose|other: int| set.contains(other) && other < member;
        lemma_least_member(set, smaller, bound);
    } else {
        lemma_least(set, member);
    }
}

} // verus!
