//! Allocation layouts and address arithmetic.

use vstd::prelude::*;
use vstd::arithmetic::power2::{lemma_pow2_pos, pow2};

use crate::allocator::slab::NO_SHIFT;
use crate::tunables::exact_shift;

verus! {

/// The size and alignment of a memory request.
#[derive(Clone, Copy, Debug, PartialEq, Eq, Structural)]
pub struct Layout {
    pub size: usize,
    pub align: usize,
}

pub open spec fn is_power_of_two(value: int) -> bool {
    exists|exponent: nat| value == #[trigger] pow2(exponent)
}

impl Layout {
    /// The alignment is a power of two, and the size rounded up to it fits in an `isize`.
    pub open spec fn wf(self) -> bool {
        is_power_of_two(self.align as int) && self.size + self.align - 1 <= isize::MAX
    }

    pub fn from_size_align(size: usize, align: usize) -> (layout: Option<Layout>)
        ensures
            layout is Some <==> (Layout { size, align }).wf(),
            layout matches Some(layout) ==> layout == (Layout { size, align }),
    {
        let limit: usize = isize::MAX as usize;
        let shift: u8 = exact_shift(align);
        if shift == NO_SHIFT {
            return None;
        }
        proof {
            lemma_pow2_pos(shift as nat);
        }
        if align - 1 > limit || size > limit - (align - 1) {
            None
        } else {
            Some(Layout { size, align })
        }
    }

    /// The size that is served: a request for nothing takes one byte.
    pub open spec fn spec_bytes(self) -> int {
        if self.size == 0 {
            1
        } else {
            self.size as int
        }
    }

    pub fn bytes(self) -> (bytes: usize)
        ensures
            bytes == self.spec_bytes(),
    {
        if self.size == 0 {
            1
        } else {
            self.size
        }
    }
}

/// The lowest multiple of `alignment` that is not below `address`.
pub open spec fn aligned(address: int, alignment: int) -> int {
    (address + alignment - 1) / alignment * alignment
}

pub proof fn lemma_aligned(address: int, alignment: int)
    requires
        alignment > 0,
    ensures
        aligned(address, alignment) % alignment == 0,
        address <= aligned(address, alignment) < address + alignment,
        address % alignment == 0 ==> aligned(address, alignment) == address,
        aligned(address, alignment) == address + alignment - 1 - (address + alignment - 1) % alignment,
{
    let top = address + alignment - 1;
    vstd::arithmetic::div_mod::lemma_fundamental_div_mod(top, alignment);
    vstd::arithmetic::div_mod::lemma_fundamental_div_mod(address, alignment);
    let quotient = top / alignment;
    assert(quotient * alignment == alignment * quotient) by (nonlinear_arith);
    vstd::arithmetic::div_mod::lemma_mod_multiples_basic(quotient, alignment);
    if address % alignment == 0 {
        let exact = address / alignment;
        assert(exact * alignment == alignment * exact) by (nonlinear_arith);
        vstd::arithmetic::div_mod::lemma_fundamental_div_mod_converse(top, alignment, exact, alignment - 1);
    }
}

/// Rounds `address` up to a multiple of `alignment`, unless that leaves the address space.
pub fn align_up(address: usize, alignment: usize) -> (result: Option<usize>)
    requires
        alignment > 0,
    ensures
        result is Some <==> address + alignment - 1 <= usize::MAX,
        result matches Some(result) ==> result == aligned(address as int, alignment as int),
{
    proof {
        lemma_aligned(address as int, alignment as int);
    }
    if alignment - 1 > usize::MAX - address {
        None
    } else {
        let top: usize = address + (alignment - 1);
        Some(top - top % alignment)
    }
}

} // verus!
