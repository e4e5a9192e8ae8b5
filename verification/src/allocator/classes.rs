//! Which store serves a layout: a small size class, a medium span, or a mapping of its own.

use vstd::prelude::*;

use crate::allocator::layout::{is_power_of_two, Layout};
use crate::allocator::slab::{CONTEXT_SLAB_MARKER, NO_SHIFT, SLAB_MARKER, SLAB_SIZE};
use crate::tunables::{exact_shift, first_fit, fits, valid_sizes, Tuning, LARGEST_CLASS, NO_CLASS};
use vstd::arithmetic::power2::{lemma_pow2_strictly_increases, pow2};

verus! {

pub const MEDIUM_SLICE_SIZE: usize = 64 * 1024;
pub const MEDIUM_MAX_SLICES: usize = 512;
pub const LOCAL_MEDIUM_CLASSES: usize = 8;
pub const MEDIUM_REGION_SIZE: usize = 1024 * 1024 * 1024;
pub const MEDIUM_REGION_SLICE_COUNT: usize = 16_384;
pub const MEDIUM_REGION_BITMAP_WORDS: usize = 256;
pub const HEADER_OFFSET: usize = 16;
/// The bytes of the record kept beside a tracked or directly mapped allocation.
pub const EXTRA_SIZE: usize = 96;
pub const MAX_SMALL_ALIGNMENT: usize = 4096;
pub const MAX_MEDIUM_ALIGNMENT: usize = 64 * 1024;

/// The larger of two numbers.
pub open spec fn larger(left: int, right: int) -> int {
    if left < right {
        right
    } else {
        left
    }
}

fn max(left: usize, right: usize) -> (result: usize)
    ensures
        result == larger(left as int, right as int),
{
    if left < right {
        right
    } else {
        left
    }
}

/// The first class from `start` on that serves `required` bytes at multiples of `alignment`.
pub open spec fn class_from(sizes: Seq<usize>, start: int, required: int, alignment: int) -> Option<usize>
    decreases sizes.len() - start,
{
    if start < 0 || start >= sizes.len() {
        None
    } else if fits(sizes, start, required, alignment) {
        Some(start as usize)
    } else {
        class_from(sizes, start + 1, required, alignment)
    }
}

/// A class that fits and is preceded by none that does is the first one.
pub proof fn lemma_class_from(sizes: Seq<usize>, start: int, required: int, alignment: int)
    requires
        0 <= start,
        sizes.len() <= usize::MAX,
    ensures
        match class_from(sizes, start, required, alignment) {
            Some(class) => start <= class < sizes.len() && fits(sizes, class as int, required, alignment)
                && forall|index: int| start <= index < class ==> !#[trigger] fits(sizes, index, required, alignment),
            None => forall|index: int| start <= index ==> !#[trigger] fits(sizes, index, required, alignment),
        },
    decreases sizes.len() - start,
{
    if start < sizes.len() && !fits(sizes, start, required, alignment) {
        lemma_class_from(sizes, start + 1, required, alignment);
    }
}

/// An entry of a class map names the first class that fits its bucket, and so every size in it.
proof fn lemma_bucket(sizes: Seq<usize>, required: int, bucket: int, alignment: int, entry: u8)
    requires
        valid_sizes(sizes),
        0 < required,
        bucket == (required + 15) / 16,
        first_fit(sizes, bucket * 16, alignment, entry),
    ensures
        class_from(sizes, 0, required, alignment) == (if entry == NO_CLASS {
            None::<usize>
        } else {
            Some(entry as usize)
        }),
{
    assert forall|index: int| fits(sizes, index, required, alignment) == fits(sizes, index, bucket * 16, alignment) by {
        if 0 <= index < sizes.len() {
            assert(sizes[index] % 16 == 0);
        }
    }
    lemma_class_from(sizes, 0, required, alignment);
    if entry != NO_CLASS {
        assert(fits(sizes, entry as int, bucket * 16, alignment));
        match class_from(sizes, 0, required, alignment) {
            Some(class) => {
                if class < entry {
                    assert(fits(sizes, class as int, required, alignment));
                    assert(!fits(sizes, class as int, bucket * 16, alignment));
                }
                assert(fits(sizes, entry as int, required, alignment));
            },
            None => {
                assert(!fits(sizes, entry as int, required, alignment));
            },
        }
    } else {
        match class_from(sizes, 0, required, alignment) {
            Some(class) => {
                assert(!fits(sizes, class as int, bucket * 16, alignment));
            },
            None => {},
        }
    }
}

/// No class is larger than the largest.
proof fn lemma_too_large(sizes: Seq<usize>, required: int, alignment: int)
    requires
        valid_sizes(sizes),
        required > LARGEST_CLASS,
    ensures
        class_from(sizes, 0, required, alignment) is None,
{
    lemma_class_from(sizes, 0, required, alignment);
    match class_from(sizes, 0, required, alignment) {
        Some(class) => {
            if class < sizes.len() - 1 {
                assert(sizes[class as int] < sizes[sizes.len() - 1]);
            }
        },
        None => {},
    }
}

pub fn class_index(tuning: &Tuning, required_size: usize) -> (class: Option<usize>)
    requires
        tuning.wf(),
        required_size > 0,
    ensures
        class == class_from(tuning.sizes@, 0, required_size as int, 1),
{
    if required_size > LARGEST_CLASS {
        proof {
            lemma_too_large(tuning.sizes@, required_size as int, 1);
        }
        None
    } else {
        let bucket: usize = (required_size + 15) / 16;
        let entry: u8 = tuning.class_map[bucket];
        proof {
            lemma_bucket(tuning.sizes@, required_size as int, bucket as int, 1, entry);
            let last = tuning.sizes@.len() - 1;
            assert(fits(tuning.sizes@, last, bucket * 16, 1));
        }
        Some(entry as usize)
    }
}

pub fn class_index_for_alignment(tuning: &Tuning, required_size: usize, alignment: usize) -> (class: Option<usize>)
    requires
        tuning.wf(),
        required_size > 0,
    ensures
        class == (if is_power_of_two(alignment as int) && alignment <= MAX_SMALL_ALIGNMENT {
            class_from(tuning.sizes@, 0, required_size as int, alignment as int)
        } else {
            None::<usize>
        }),
{
    let shift: u8 = exact_shift(alignment);
    if shift == NO_SHIFT || alignment > MAX_SMALL_ALIGNMENT {
        return None;
    }
    assert(alignment == pow2(shift as nat));
    if required_size > LARGEST_CLASS {
        proof {
            lemma_too_large(tuning.sizes@, required_size as int, alignment as int);
        }
        return None;
    }
    proof {
        vstd::arithmetic::power2::lemma2_to64();
        if shift > 12 {
            lemma_pow2_strictly_increases(12, shift as nat);
        }
    }
    let bucket: usize = (required_size + 15) / 16;
    let entry: u8 = tuning.aligned_class_map[shift as usize][bucket];
    proof {
        lemma_bucket(tuning.sizes@, required_size as int, bucket as int, alignment as int, entry);
    }
    if entry == NO_CLASS {
        None
    } else {
        Some(entry as usize)
    }
}

/// The small class of a layout: the first one that holds its bytes and whose blocks all lie at
/// multiples of its alignment.
pub open spec fn small_class(sizes: Seq<usize>, layout: Layout) -> Option<usize> {
    if layout.align > MAX_SMALL_ALIGNMENT {
        None
    } else {
        class_from(
            sizes,
            0,
            larger(layout.spec_bytes(), layout.align as int),
            if layout.align <= 16 {
                1
            } else {
                layout.align as int
            },
        )
    }
}

pub fn default_class(tuning: &Tuning, layout: Layout) -> (class: Option<usize>)
    requires
        tuning.wf(),
        layout.wf(),
    ensures
        class == small_class(tuning.sizes@, layout),
{
    if layout.align > MAX_SMALL_ALIGNMENT {
        return None;
    }
    let required_size: usize = max(layout.bytes(), layout.align);
    if layout.align <= 16 {
        class_index(tuning, required_size)
    } else {
        class_index_for_alignment(tuning, required_size, layout.align)
    }
}

/// The offset of the user's bytes in a block that carries a record.
pub open spec fn user_offset(alignment: int) -> int {
    larger(HEADER_OFFSET as int, alignment)
}

pub fn context_user_offset(alignment: usize) -> (offset: usize)
    ensures
        offset == user_offset(alignment as int),
{
    max(HEADER_OFFSET, alignment)
}

/// The bytes of a block that holds `size` bytes at `alignment` and a record behind them.
pub fn context_required_size(size: usize, alignment: usize) -> (required: Option<usize>)
    ensures
        required is Some <==> larger(size as int, 1) + user_offset(alignment as int) + EXTRA_SIZE <= usize::MAX,
        required matches Some(required) ==> required == larger(size as int, 1) + user_offset(alignment as int)
            + EXTRA_SIZE,
{
    let bytes: usize = max(size, 1);
    match bytes.checked_add(context_user_offset(alignment)) {
        Some(total) => total.checked_add(EXTRA_SIZE),
        None => None,
    }
}

/// The bytes to map so that `requested_size` bytes at `alignment`, a record and
/// `discriminator_space` fit wherever the mapping starts.
pub fn direct_mapping_size(requested_size: usize, alignment: usize, discriminator_space: usize) -> (size: Option<usize>)
    requires
        alignment > 0,
    ensures
        size is Some <==> requested_size + (alignment - 1) + discriminator_space + HEADER_OFFSET + EXTRA_SIZE
            <= usize::MAX,
        size matches Some(size) ==> size == requested_size + (alignment - 1) + discriminator_space + HEADER_OFFSET
            + EXTRA_SIZE,
{
    match requested_size.checked_add(alignment - 1) {
        Some(total) => match total.checked_add(discriminator_space) {
            Some(total) => total.checked_add(HEADER_OFFSET + EXTRA_SIZE),
            None => None,
        },
        None => None,
    }
}

/// The slices of a medium span that holds the layout.
pub open spec fn medium_slices(layout: Layout) -> Option<usize> {
    let slices = (layout.spec_bytes() + MEDIUM_SLICE_SIZE - 1) / (MEDIUM_SLICE_SIZE as int);
    if layout.align > MAX_MEDIUM_ALIGNMENT || slices > MEDIUM_REGION_SLICE_COUNT {
        None
    } else {
        Some(slices as usize)
    }
}

pub fn medium_slice_count(layout: Layout) -> (slices: Option<usize>)
    ensures
        slices == medium_slices(layout),
        slices matches Some(count) ==> 1 <= count <= MEDIUM_REGION_SLICE_COUNT && layout.spec_bytes() <= count
            * MEDIUM_SLICE_SIZE && (count - 1) * MEDIUM_SLICE_SIZE < layout.spec_bytes(),
{
    if layout.align > MAX_MEDIUM_ALIGNMENT {
        return None;
    }
    let size: usize = layout.bytes();
    match size.checked_add(MEDIUM_SLICE_SIZE - 1) {
        None => None,
        Some(total) => {
            let slices: usize = total / MEDIUM_SLICE_SIZE;
            if slices > MEDIUM_REGION_SLICE_COUNT {
                None
            } else {
                Some(slices)
            }
        },
    }
}

/// The bin of a medium layout, where spans of its length are binned.
pub open spec fn medium_bin(layout: Layout) -> Option<usize> {
    match medium_slices(layout) {
        Some(slices) => if slices > MEDIUM_MAX_SLICES {
            None
        } else {
            Some((slices - 1) as usize)
        },
        None => None,
    }
}

pub fn medium_class(layout: Layout) -> (class: Option<usize>)
    ensures
        class == medium_bin(layout),
{
    match medium_slice_count(layout) {
        Some(slices) => if slices > MEDIUM_MAX_SLICES {
            None
        } else {
            Some(slices - 1)
        },
        None => None,
    }
}

/// The slot of a heap's medium cache that holds spans of `slice_count` slices: one for each
/// power of two up to 128.
pub open spec fn cache_slot(slice_count: int) -> Option<usize> {
    if exists|slot: usize| slot < LOCAL_MEDIUM_CLASSES && slice_count == #[trigger] pow2(slot as nat) {
        Some(choose|slot: usize| slot < LOCAL_MEDIUM_CLASSES && slice_count == #[trigger] pow2(slot as nat))
    } else {
        None
    }
}

pub proof fn lemma_cache_slot(slice_count: int, slot: usize)
    requires
        slot < LOCAL_MEDIUM_CLASSES,
        slice_count == pow2(slot as nat),
    ensures
        cache_slot(slice_count) == Some(slot),
{
    let chosen = choose|slot: usize| slot < LOCAL_MEDIUM_CLASSES && slice_count == #[trigger] pow2(slot as nat);
    assert(chosen < LOCAL_MEDIUM_CLASSES && slice_count == pow2(chosen as nat));
    if chosen < slot {
        lemma_pow2_strictly_increases(chosen as nat, slot as nat);
    } else if slot < chosen {
        lemma_pow2_strictly_increases(slot as nat, chosen as nat);
    }
}

pub fn local_medium_class(slice_count: usize) -> (slot: Option<usize>)
    ensures
        slot == cache_slot(slice_count as int),
        slot matches Some(slot) ==> slot < LOCAL_MEDIUM_CLASSES && slice_count == pow2(slot as nat),
{
    let shift: u8 = exact_shift(slice_count);
    if shift != NO_SHIFT && (shift as usize) < LOCAL_MEDIUM_CLASSES {
        proof {
            lemma_cache_slot(slice_count as int, shift as usize);
        }
        Some(shift as usize)
    } else {
        proof {
            if exists|slot: usize| slot < LOCAL_MEDIUM_CLASSES && slice_count == #[trigger] pow2(slot as nat) {
                let slot = choose|slot: usize| slot < LOCAL_MEDIUM_CLASSES && slice_count == #[trigger] pow2(slot as nat);
                if shift != NO_SHIFT {
                    lemma_pow2_strictly_increases(slot as nat, shift as nat);
                }
            }
        }
        None
    }
}

/// The class that a slab's marker names, where it marks an ordinary slab.
pub fn slab_class_from_marker(tuning: &Tuning, marker: u64) -> (class: Option<usize>)
    ensures
        class matches Some(class) ==> class < tuning.sizes@.len() && marker == SLAB_MARKER + class,
        class is Some <==> SLAB_MARKER <= marker < SLAB_MARKER + tuning.sizes@.len(),
{
    if marker >= SLAB_MARKER && marker - SLAB_MARKER < tuning.sizes.len() as u64 {
        Some((marker - SLAB_MARKER) as usize)
    } else {
        None
    }
}

/// Whether a slab's marker marks a slab whose blocks carry records.
pub fn is_context_marker(tuning: &Tuning, marker: u64) -> (context: bool)
    ensures
        context <==> CONTEXT_SLAB_MARKER <= marker < CONTEXT_SLAB_MARKER + tuning.sizes@.len(),
{
    marker >= CONTEXT_SLAB_MARKER && marker - CONTEXT_SLAB_MARKER < tuning.sizes.len() as u64
}

/// The slab-sized segment that an address lies in.
pub open spec fn segment_of(address: int) -> int {
    address - address % (SLAB_SIZE as int)
}

pub fn allocation_segment(address: usize) -> (segment: usize)
    ensures
        segment == segment_of(address as int),
{
    address - address % SLAB_SIZE
}

/// A class serves what it is chosen for: its blocks hold the layout's bytes, and each of them
/// lies at a multiple of its alignment.
pub proof fn law_small_blocks_hold_their_layout(sizes: Seq<usize>, layout: Layout, slab: int, index: int)
    requires
        valid_sizes(sizes),
        layout.wf(),
        small_class(sizes, layout) is Some,
        slab % (SLAB_SIZE as int) == 0,
    ensures
        ({
            let class = small_class(sizes, layout)->0;
            &&& class < sizes.len()
            &&& sizes[class as int] >= layout.spec_bytes()
            &&& (slab + index * sizes[class as int]) % layout.align as int == 0
        }),
{
    let align = layout.align as int;
    lemma_class_from(
        sizes,
        0,
        larger(layout.spec_bytes(), align),
        if layout.align <= 16 {
            1
        } else {
            align
        },
    );
    let class = small_class(sizes, layout)->0;
    let size = sizes[class as int] as int;
    let exponent = choose|exponent: nat| align == #[trigger] pow2(exponent);
    vstd::arithmetic::power2::lemma2_to64();
    if exponent > 12 {
        lemma_pow2_strictly_increases(12, exponent);
    }
    let rest = (15 - exponent) as nat;
    vstd::arithmetic::power2::lemma_pow2_adds(exponent, rest);
    assert(SLAB_SIZE as int == pow2(15));
    if layout.align <= 16 {
        assert(sizes[class as int] % 16 == 0);
        if exponent > 4 {
            lemma_pow2_strictly_increases(4, exponent);
        }
        let up = (4 - exponent) as nat;
        vstd::arithmetic::power2::lemma_pow2_adds(exponent, up);
        lemma_multiple(size, 16, align, pow2(up) as int);
    }
    lemma_multiple(slab, SLAB_SIZE as int, align, pow2(rest) as int);
    let quotient = size / align;
    let base = slab / align;
    vstd::arithmetic::div_mod::lemma_fundamental_div_mod(size, align);
    vstd::arithmetic::div_mod::lemma_fundamental_div_mod(slab, align);
    assert(slab + index * size == (base + index * quotient) * align) by (nonlinear_arith)
        requires
            size == align * quotient,
            slab == align * base,
    ;
    vstd::arithmetic::div_mod::lemma_mod_multiples_basic(base + index * quotient, align);
}

/// A multiple of a multiple is a multiple.
pub proof fn lemma_multiple(value: int, outer: int, inner: int, factor: int)
    requires
        value % outer == 0,
        outer == inner * factor,
        inner > 0,
        factor > 0,
    ensures
        value % inner == 0,
{
    let quotient = value / outer;
    assert(outer > 0) by (nonlinear_arith)
        requires
            outer == inner * factor,
            inner > 0,
            factor > 0,
    ;
    vstd::arithmetic::div_mod::lemma_fundamental_div_mod(value, outer);
    assert(value == (quotient * factor) * inner) by (nonlinear_arith)
        requires
            value == outer * quotient,
            outer == inner * factor,
    ;
    vstd::arithmetic::div_mod::lemma_mod_multiples_basic(quotient * factor, inner);
}

} // verus!
