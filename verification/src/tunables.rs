//! Allocation tuning parameters: the small size classes and the tables derived from them.

use vstd::prelude::*;
use vstd::arithmetic::power2::{lemma_pow2_strictly_increases, lemma_pow2_unfold, pow2};

use crate::allocator::slab::{divides_by, valid_block_size, NO_SHIFT};

verus! {

pub const MAX_SIZE_CLASSES: usize = 48;
pub const CLASS_MAP_LEN: usize = 1_025;
pub const ALIGNMENT_CLASS_MAPS: usize = 13;
/// The size of the largest class.
pub const LARGEST_CLASS: usize = 16_384;
/// The entry of a class map where no class fits.
pub const NO_CLASS: u8 = 255;

/// Size classes are strictly increasing multiples of 16 that end at 16 KiB.
pub open spec fn valid_sizes(sizes: Seq<usize>) -> bool {
    &&& 0 < sizes.len() <= MAX_SIZE_CLASSES
    &&& sizes[sizes.len() - 1] == LARGEST_CLASS
    &&& forall|index: int| 0 <= index < sizes.len() ==> sizes[index] != 0 && #[trigger] sizes[index] % 16 == 0
    &&& forall|left: int, right: int| 0 <= left < right < sizes.len() ==> sizes[left] < sizes[right]
}

/// Whether a block of class `index` serves `required` bytes at multiples of `alignment`.
pub open spec fn fits(sizes: Seq<usize>, index: int, required: int, alignment: int) -> bool {
    0 <= index < sizes.len() && sizes[index] >= required && sizes[index] as int % alignment == 0
}

/// Whether `entry` is the first class that fits, or `NO_CLASS` where none does.
pub open spec fn first_fit(sizes: Seq<usize>, required: int, alignment: int, entry: u8) -> bool {
    if entry == NO_CLASS {
        forall|index: int| !#[trigger] fits(sizes, index, required, alignment)
    } else {
        &&& fits(sizes, entry as int, required, alignment)
        &&& forall|index: int| 0 <= index < entry ==> !#[trigger] fits(sizes, index, required, alignment)
    }
}

/// Size-class layout of small allocations.
pub trait SizeClassLayout {
    /// The sizes of the classes.
    spec fn spec_sizes() -> Seq<usize>;

    fn sizes() -> (sizes: Vec<usize>)
        ensures
            sizes@ == Self::spec_sizes(),
    ;
}

/// Allocator personality.
pub trait Tunables {
    type SizeClasses: SizeClassLayout;

    /// Maximum number of partial slabs examined when selecting a new active slab.
    const PARTIAL_SLAB_SCAN_LIMIT: usize;
    /// Largest block size whose recycled bitmap word is cached in its slab.
    const RECYCLED_BITMAP_BATCH_MAX_BLOCK_SIZE: usize;
    /// Delay before unused medium spans become eligible for decommit.
    const MEDIUM_PURGE_DELAY_MS: u64;
}

/// General-purpose size classes used by [`Standard`].
pub struct StandardSizeClasses;

impl SizeClassLayout for StandardSizeClasses {
    open spec fn spec_sizes() -> Seq<usize> {
        seq![
            16, 32, 48, 64, 80, 96, 112, 128, 160, 192, 224, 256, 320, 384, 448, 512, 640, 768, 896, 1024,
            1280, 1536, 1792, 2048, 2560, 3072, 3584, 4096, 4384, 5120, 6144, 7168, 8192, 10240, 12288,
            14336, 16384,
        ]
    }

    fn sizes() -> (sizes: Vec<usize>) {
        let sizes: Vec<usize> = vec![
            16, 32, 48, 64, 80, 96, 112, 128, 160, 192, 224, 256, 320, 384, 448, 512, 640, 768, 896, 1024,
            1280, 1536, 1792, 2048, 2560, 3072, 3584, 4096, 4384, 5120, 6144, 7168, 8192, 10240, 12288,
            14336, 16384,
        ];
        assert(sizes@ =~= Self::spec_sizes());
        sizes
    }
}

/// The standard personality.
pub struct Standard;

impl Tunables for Standard {
    type SizeClasses = StandardSizeClasses;

    const PARTIAL_SLAB_SCAN_LIMIT: usize = 4;
    const RECYCLED_BITMAP_BATCH_MAX_BLOCK_SIZE: usize = 256;
    const MEDIUM_PURGE_DELAY_MS: u64 = 1_000;
}

pub fn valid_size_classes(sizes: &[usize]) -> (valid: bool)
    ensures
        valid == valid_sizes(sizes@),
{
    if sizes.len() == 0 || sizes.len() > MAX_SIZE_CLASSES || sizes[sizes.len() - 1] != LARGEST_CLASS {
        return false;
    }
    let mut index: usize = 0;
    let mut previous: usize = 0;
    while index < sizes.len()
        invariant
            index <= sizes@.len(),
            index == 0 ==> previous == 0,
            index > 0 ==> previous == sizes@[index - 1],
            forall|earlier: int| 0 <= earlier < index ==> sizes@[earlier] != 0 && #[trigger] sizes@[earlier] % 16 == 0,
            forall|left: int, right: int| 0 <= left < right < index ==> sizes@[left] < sizes@[right],
            forall|earlier: int| 0 <= earlier < index ==> sizes@[earlier] <= previous,
        decreases sizes@.len() - index,
    {
        let size: usize = sizes[index];
        if size == 0 || size % 16 != 0 || size <= previous {
            assert(size == sizes@[index as int]);
            return false;
        }
        previous = size;
        index = index + 1;
    }
    true
}

/// The first class that serves `required` bytes at multiples of `alignment`.
fn find_class(sizes: &[usize], required: usize, alignment: usize) -> (entry: u8)
    requires
        sizes@.len() < 255,
        alignment > 0,
    ensures
        first_fit(sizes@, required as int, alignment as int, entry),
{
    let mut class_index: usize = 0;
    while class_index < sizes.len()
        invariant
            class_index <= sizes@.len(),
            sizes@.len() < 255,
            alignment > 0,
            forall|index: int|
                0 <= index < class_index ==> !#[trigger] fits(sizes@, index, required as int, alignment as int),
        decreases sizes@.len() - class_index,
    {
        let class_size: usize = sizes[class_index];
        if class_size >= required && class_size % alignment == 0 {
            assert(fits(sizes@, class_index as int, required as int, alignment as int));
            return class_index as u8;
        }
        assert(!fits(sizes@, class_index as int, required as int, alignment as int));
        class_index = class_index + 1;
    }
    NO_CLASS
}

/// Whether `map` gives, for each bucket of 16 bytes, the first class that serves it.
pub open spec fn class_map_for(map: Seq<u8>, sizes: Seq<usize>, alignment: int) -> bool {
    &&& map.len() == CLASS_MAP_LEN
    &&& map[0] == NO_CLASS
    &&& forall|bucket: int|
        1 <= bucket < CLASS_MAP_LEN ==> first_fit(sizes, bucket * 16, alignment, #[trigger] map[bucket])
}

fn class_map(sizes: &[usize], alignment: usize) -> (map: Vec<u8>)
    requires
        sizes@.len() < 255,
        alignment > 0,
    ensures
        class_map_for(map@, sizes@, alignment as int),
{
    let mut map: Vec<u8> = Vec::new();
    map.push(NO_CLASS);
    while map.len() < CLASS_MAP_LEN
        invariant
            1 <= map@.len() <= CLASS_MAP_LEN,
            map@[0] == NO_CLASS,
            sizes@.len() < 255,
            alignment > 0,
            forall|bucket: int|
                1 <= bucket < map@.len() ==> first_fit(sizes@, bucket * 16, alignment as int, #[trigger] map@[bucket]),
        decreases CLASS_MAP_LEN - map@.len(),
    {
        let bytes: usize = map.len() * 16;
        map.push(find_class(sizes, bytes, alignment));
    }
    map
}

pub fn create_class_map(sizes: &[usize]) -> (map: Vec<u8>)
    requires
        sizes@.len() < 255,
    ensures
        class_map_for(map@, sizes@, 1),
{
    class_map(sizes, 1)
}

/// One class map for each power of two up to 4096.
pub open spec fn aligned_maps_for(maps: Seq<Vec<u8>>, sizes: Seq<usize>) -> bool {
    &&& maps.len() == ALIGNMENT_CLASS_MAPS
    &&& forall|shift: int|
        0 <= shift < ALIGNMENT_CLASS_MAPS ==> class_map_for((#[trigger] maps[shift])@, sizes, pow2(shift as nat) as int)
}

pub fn create_aligned_class_map(sizes: &[usize]) -> (maps: Vec<Vec<u8>>)
    requires
        sizes@.len() < 255,
    ensures
        aligned_maps_for(maps@, sizes@),
{
    let mut maps: Vec<Vec<u8>> = Vec::new();
    let mut alignment: usize = 1;
    proof {
        vstd::arithmetic::power2::lemma2_to64();
    }
    while maps.len() < ALIGNMENT_CLASS_MAPS
        invariant
            maps@.len() <= ALIGNMENT_CLASS_MAPS,
            alignment == pow2(maps@.len()),
            1 <= alignment <= 8192,
            sizes@.len() < 255,
            forall|shift: int|
                0 <= shift < maps@.len() ==> class_map_for((#[trigger] maps@[shift])@, sizes@, pow2(shift as nat) as int),
        decreases ALIGNMENT_CLASS_MAPS - maps@.len(),
    {
        proof {
            lemma_pow2_unfold((maps@.len() + 1) as nat);
            vstd::arithmetic::power2::lemma2_to64();
            if maps@.len() + 1 < 13 {
                lemma_pow2_strictly_increases((maps@.len() + 1) as nat, 13);
            }
        }
        maps.push(class_map(sizes, alignment));
        alignment = alignment * 2;
    }
    maps
}

/// 2^64 divided by `size`, rounded up and truncated to 64 bits.
pub open spec fn reciprocal_of(size: int) -> int {
    (0x1_0000_0000_0000_0000 + size - 1) / size % 0x1_0000_0000_0000_0000
}

pub fn create_class_reciprocals(sizes: &[usize]) -> (reciprocals: Vec<u64>)
    requires
        sizes@.len() <= MAX_SIZE_CLASSES,
        forall|index: int| 0 <= index < sizes@.len() ==> sizes@[index] != 0,
    ensures
        reciprocals@.len() == MAX_SIZE_CLASSES,
        forall|index: int|
            0 <= index < MAX_SIZE_CLASSES ==> #[trigger] reciprocals@[index] == (if index < sizes@.len() {
                reciprocal_of(sizes@[index] as int)
            } else {
                0
            }),
{
    let mut reciprocals: Vec<u64> = Vec::new();
    while reciprocals.len() < MAX_SIZE_CLASSES
        invariant
            sizes@.len() <= MAX_SIZE_CLASSES,
            forall|index: int| 0 <= index < sizes@.len() ==> sizes@[index] != 0,
            reciprocals@.len() <= MAX_SIZE_CLASSES,
            forall|index: int|
                0 <= index < reciprocals@.len() ==> #[trigger] reciprocals@[index] == (if index < sizes@.len() {
                    reciprocal_of(sizes@[index] as int)
                } else {
                    0
                }),
        decreases MAX_SIZE_CLASSES - reciprocals@.len(),
    {
        let index: usize = reciprocals.len();
        if index < sizes.len() {
            let size: u128 = sizes[index] as u128;
            let quotient: u128 = (0x1_0000_0000_0000_0000u128 + size - 1) / size;
            reciprocals.push((quotient % 0x1_0000_0000_0000_0000u128) as u64);
        } else {
            reciprocals.push(0);
        }
    }
    reciprocals
}

/// The exponent of a power of two, or `NO_SHIFT`.
pub open spec fn shift_of(size: int, shift: u8) -> bool {
    if shift == NO_SHIFT {
        forall|exponent: nat| size != #[trigger] pow2(exponent)
    } else {
        size == pow2(shift as nat)
    }
}

pub fn exact_shift(size: usize) -> (shift: u8)
    ensures
        shift_of(size as int, shift),
        shift == NO_SHIFT || shift < 64,
{
    let mut shift: u8 = 0;
    let mut power: u128 = 1;
    proof {
        vstd::arithmetic::power2::lemma2_to64();
    }
    while shift < 64
        invariant
            shift <= 64,
            power == pow2(shift as nat),
            power <= 0x1_0000_0000_0000_0000,
            forall|exponent: nat| exponent < shift ==> size != #[trigger] pow2(exponent),
        decreases 64 - shift,
    {
        if size as u128 == power {
            return shift;
        }
        proof {
            lemma_pow2_unfold((shift + 1) as nat);
            vstd::arithmetic::power2::lemma2_to64();
            if shift + 1 < 64 {
                lemma_pow2_strictly_increases((shift + 1) as nat, 64);
            }
        }
        power = power * 2;
        shift = shift + 1;
    }
    proof {
        vstd::arithmetic::power2::lemma2_to64();
        assert forall|exponent: nat| size != #[trigger] pow2(exponent) by {
            if exponent > 64 {
                lemma_pow2_strictly_increases(64, exponent);
            }
        }
    }
    NO_SHIFT
}

pub fn create_class_shifts(sizes: &[usize]) -> (shifts: Vec<u8>)
    requires
        sizes@.len() <= MAX_SIZE_CLASSES,
    ensures
        shifts@.len() == MAX_SIZE_CLASSES,
        forall|index: int|
            #![trigger shifts@[index]]
            0 <= index < MAX_SIZE_CLASSES ==> if index < sizes@.len() {
                shift_of(sizes@[index] as int, shifts@[index]) && (shifts@[index] == NO_SHIFT || shifts@[index] < 64)
            } else {
                shifts@[index] == NO_SHIFT
            },
{
    let mut shifts: Vec<u8> = Vec::new();
    while shifts.len() < MAX_SIZE_CLASSES
        invariant
            sizes@.len() <= MAX_SIZE_CLASSES,
            shifts@.len() <= MAX_SIZE_CLASSES,
            forall|index: int|
                #![trigger shifts@[index]]
                0 <= index < shifts@.len() ==> if index < sizes@.len() {
                    shift_of(sizes@[index] as int, shifts@[index]) && (shifts@[index] == NO_SHIFT || shifts@[index] < 64)
                } else {
                    shifts@[index] == NO_SHIFT
                },
        decreases MAX_SIZE_CLASSES - shifts@.len(),
    {
        let index: usize = shifts.len();
        if index < sizes.len() {
            shifts.push(exact_shift(sizes[index]));
        } else {
            shifts.push(NO_SHIFT);
        }
    }
    shifts
}

/// The values of a personality, with the tables derived from its size classes.
pub struct Tuning {
    pub sizes: Vec<usize>,
    pub class_map: Vec<u8>,
    pub aligned_class_map: Vec<Vec<u8>>,
    pub reciprocals: Vec<u64>,
    pub shifts: Vec<u8>,
    pub partial_slab_scan_limit: usize,
    pub batch_limit: usize,
    pub medium_purge_delay_ms: u64,
}

impl Tuning {
    pub open spec fn wf(&self) -> bool {
        &&& valid_sizes(self.sizes@)
        &&& class_map_for(self.class_map@, self.sizes@, 1)
        &&& aligned_maps_for(self.aligned_class_map@, self.sizes@)
        &&& self.reciprocals@.len() == MAX_SIZE_CLASSES
        &&& self.shifts@.len() == MAX_SIZE_CLASSES
        &&& forall|index: int|
            #![trigger self.sizes@[index]]
            0 <= index < self.sizes@.len() ==> divides_by(self.shifts@[index], self.reciprocals@[index], self.sizes@[index] as int)
                && valid_block_size(self.sizes@[index] as int)
        &&& self.partial_slab_scan_limit != 0
    }

    /// The tables of a layout, where the layout and the scan limit are valid.
    pub fn new(sizes: Vec<usize>, partial_slab_scan_limit: usize, batch_limit: usize, medium_purge_delay_ms: u64) -> (tuning: Option<Tuning>)
        ensures
            tuning is Some <==> partial_slab_scan_limit != 0 && valid_sizes(sizes@),
            tuning matches Some(tuning) ==> tuning.wf() && tuning.sizes@ == sizes@ && tuning.partial_slab_scan_limit
                == partial_slab_scan_limit && tuning.batch_limit == batch_limit && tuning.medium_purge_delay_ms
                == medium_purge_delay_ms,
    {
        if partial_slab_scan_limit == 0 || !valid_size_classes(sizes.as_slice()) {
            return None;
        }
        let class_map = create_class_map(sizes.as_slice());
        let aligned_class_map = create_aligned_class_map(sizes.as_slice());
        let reciprocals = create_class_reciprocals(sizes.as_slice());
        let shifts = create_class_shifts(sizes.as_slice());
        proof {
            assert forall|index: int|
                #![trigger sizes@[index]]
                0 <= index < sizes@.len() implies divides_by(shifts@[index], reciprocals@[index], sizes@[index] as int)
                && valid_block_size(sizes@[index] as int) by {
                let size = sizes@[index] as int;
                if index < sizes@.len() - 1 {
                    assert(sizes@[index] < sizes@[sizes@.len() - 1]);
                }
                let scale: int = 0x1_0000_0000_0000_0000;
                vstd::arithmetic::div_mod::lemma_fundamental_div_mod(scale + size - 1, size);
                let quotient = (scale + size - 1) / size;
                assert(0 <= quotient < scale) by (nonlinear_arith)
                    requires
                        scale + size - 1 == size * quotient + (scale + size - 1) % size,
                        0 <= (scale + size - 1) % size < size,
                        16 <= size <= 16384,
                        scale == 0x1_0000_0000_0000_0000,
                ;
                vstd::arithmetic::div_mod::lemma_small_mod(quotient as nat, scale as nat);
            }
        }
        Some(
            Tuning {
                sizes,
                class_map,
                aligned_class_map,
                reciprocals,
                shifts,
                partial_slab_scan_limit,
                batch_limit,
                medium_purge_delay_ms,
            },
        )
    }

    /// The values of a personality type.
    pub fn of<T: Tunables>() -> (tuning: Option<Tuning>)
        ensures
            tuning is Some <==> T::PARTIAL_SLAB_SCAN_LIMIT != 0 && valid_sizes(T::SizeClasses::spec_sizes()),
            tuning matches Some(tuning) ==> tuning.wf() && tuning.sizes@ == T::SizeClasses::spec_sizes()
                && tuning.partial_slab_scan_limit == T::PARTIAL_SLAB_SCAN_LIMIT && tuning.batch_limit
                == T::RECYCLED_BITMAP_BATCH_MAX_BLOCK_SIZE && tuning.medium_purge_delay_ms
                == T::MEDIUM_PURGE_DELAY_MS,
    {
        Tuning::new(
            T::SizeClasses::sizes(),
            T::PARTIAL_SLAB_SCAN_LIMIT,
            T::RECYCLED_BITMAP_BATCH_MAX_BLOCK_SIZE,
            T::MEDIUM_PURGE_DELAY_MS,
        )
    }
}

/// The standard size classes are a valid layout.
pub proof fn law_standard_size_classes_are_valid()
    ensures
        valid_sizes(StandardSizeClasses::spec_sizes()),
{
    let sizes = StandardSizeClasses::spec_sizes();
    assert(sizes.len() == 37);
    assert forall|left: int, right: int| 0 <= left < right < sizes.len() implies sizes[left] < sizes[right] by {
        lemma_standard_sizes_step(right - 1);
        lemma_standard_sizes_increase(left, right);
    }
}

proof fn lemma_standard_sizes_step(index: int)
    requires
        0 <= index < 36,
    ensures
        StandardSizeClasses::spec_sizes()[index] < StandardSizeClasses::spec_sizes()[index + 1],
{
}

proof fn lemma_standard_sizes_increase(left: int, right: int)
    requires
        0 <= left < right < 37,
    ensures
        StandardSizeClasses::spec_sizes()[left] < StandardSizeClasses::spec_sizes()[right],
    decreases right - left,
{
    lemma_standard_sizes_step(right - 1);
    if left + 1 < right {
        lemma_standard_sizes_increase(left, right - 1);
    }
}

} // verus!
