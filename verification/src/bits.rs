//! Bits of 64-bit words, and the sets of indices that words of them stand for.

use vstd::prelude::*;

verus! {

/// Whether bit `index` of `word` is set.
pub open spec fn bit(word: u64, index: int) -> bool {
    0 <= index < 64 && (word >> (index as u64)) & 1u64 == 1u64
}

/// Whether bit `index % 64` of word `index / 64` is set.
pub open spec fn bit_in(words: Seq<u64>, index: int) -> bool {
    0 <= index < words.len() * 64 && bit(words[index / 64], index % 64)
}

/// The indices of the set bits of `words`.
pub open spec fn bits_of(words: Seq<u64>) -> Set<int> {
    Set::new(|index: int| bit_in(words, index))
}

pub proof fn lemma_bit_zero(index: int)
    ensures
        !bit(0, index),
{
    if 0 <= index < 64 {
        let i = index as u64;
        assert((0u64 >> i) & 1u64 == 0u64) by (bit_vector);
    }
}

/// A word is zero exactly when none of its bits is set.
pub proof fn lemma_word_nonzero(word: u64)
    ensures
        word != 0 ==> bit(word, word.trailing_zeros() as int),
        word != 0 ==> word.trailing_zeros() < 64,
        forall|index: int| 0 <= index < word.trailing_zeros() ==> !bit(word, index),
{
    vstd::std_specs::bits::axiom_u64_trailing_zeros(word);
    let zeros = word.trailing_zeros();
    assert forall|index: int| 0 <= index < zeros implies !bit(word, index) by {
        let i = index as u64;
        assert((word >> i) & 1u64 == 0u64);
    }
}

pub proof fn lemma_set_bit(word: u64, set: int, index: int)
    requires
        0 <= set < 64,
    ensures
        bit(word | (1u64 << (set as u64)), index) == (bit(word, index) || index == set),
{
    if 0 <= index < 64 {
        let s = set as u64;
        let i = index as u64;
        assert(((word | (1u64 << s)) >> i) & 1u64 == 1u64 <==> ((word >> i) & 1u64 == 1u64 || i == s))
            by (bit_vector)
            requires
                s < 64,
                i < 64,
        ;
    }
}

pub proof fn lemma_clear_bit(word: u64, clear: int, index: int)
    requires
        0 <= clear < 64,
    ensures
        bit(word & !(1u64 << (clear as u64)), index) == (bit(word, index) && index != clear),
{
    if 0 <= index < 64 {
        let c = clear as u64;
        let i = index as u64;
        assert(((word & !(1u64 << c)) >> i) & 1u64 == 1u64 <==> ((word >> i) & 1u64 == 1u64 && i != c))
            by (bit_vector)
            requires
                c < 64,
                i < 64,
        ;
    }
}

/// Whether the bit is set, read from the word.
pub fn test_bit(word: u64, index: usize) -> (set: bool)
    requires
        index < 64,
    ensures
        set == bit(word, index as int),
{
    let i: u64 = index as u64;
    assert((word & (1u64 << i) != 0) == ((word >> i) & 1u64 == 1u64)) by (bit_vector)
        requires
            i < 64,
    ;
    word & (1u64 << i) != 0
}

pub fn with_bit(word: u64, index: usize) -> (result: u64)
    requires
        index < 64,
    ensures
        forall|other: int| bit(result, other) == (bit(word, other) || other == index),
{
    let result: u64 = word | (1u64 << (index as u64));
    proof {
        assert forall|other: int| bit(result, other) == (bit(word, other) || other == index) by {
            lemma_set_bit(word, index as int, other);
        }
    }
    result
}

pub fn without_bit(word: u64, index: usize) -> (result: u64)
    requires
        index < 64,
    ensures
        forall|other: int| bit(result, other) == (bit(word, other) && other != index),
{
    let result: u64 = word & !(1u64 << (index as u64));
    proof {
        assert forall|other: int| bit(result, other) == (bit(word, other) && other != index) by {
            lemma_clear_bit(word, index as int, other);
        }
    }
    result
}

/// The index of the lowest set bit of a word that has one.
pub fn lowest_bit(word: u64) -> (index: usize)
    requires
        word != 0,
    ensures
        index < 64,
        bit(word, index as int),
        forall|other: int| bit(word, other) ==> index <= other,
{
    proof {
        lemma_word_nonzero(word);
    }
    word.trailing_zeros() as usize
}

/// The number of set bits among the first `count` bits of `word`.
pub open spec fn ones_below(word: u64, count: int) -> int
    decreases count,
{
    if count <= 0 {
        0
    } else {
        ones_below(word, count - 1) + (if bit(word, count - 1) { 1int } else { 0int })
    }
}

/// The number of set bits among the first `count` bits of `words`.
pub open spec fn ones_in(words: Seq<u64>, count: int) -> int
    decreases count,
{
    if count <= 0 {
        0
    } else {
        ones_in(words, count - 1) + (if bit_in(words, count - 1) { 1int } else { 0int })
    }
}

pub proof fn lemma_ones_bounds(words: Seq<u64>, count: int)
    requires
        0 <= count,
    ensures
        0 <= ones_in(words, count) <= count,
    decreases count,
{
    if count > 0 {
        lemma_ones_bounds(words, count - 1);
    }
}

} // verus!
