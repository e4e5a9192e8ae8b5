//! Options and usage of bump heaps.

use vstd::prelude::*;

use crate::allocator::layout::is_power_of_two;
use crate::allocator::slab::NO_SHIFT;
use crate::tunables::exact_shift;

verus! {

pub const BUMP_SEGMENT_SIZE: usize = 32 * 1024;
pub const DEFAULT_MAX_ALLOCATION_BYTES: usize = 32 * 1024;
pub const DEFAULT_MAX_ALIGNMENT: usize = 4 * 1024;
pub const DEFAULT_RETAINED_CHUNKS: usize = 4;
pub const DEFAULT_MAX_RETAINED_CHUNKS: usize = 16;

/// Runtime options of a bump heap.
#[derive(Clone, Copy, Debug, PartialEq, Eq, Structural)]
pub struct Options {
    pub max_allocation_bytes: usize,
    pub max_alignment: usize,
    pub retained_chunks: usize,
    pub max_retained_chunks: usize,
}

/// What is known of a bump heap without looking into it.
#[derive(Clone, Copy, Debug, PartialEq, Eq, Structural)]
pub struct Info {
    pub options: Options,
}

/// What a bump heap holds.
#[derive(Clone, Copy, Debug, PartialEq, Eq, Structural)]
pub struct Usage {
    pub cursor_used_bytes: usize,
    pub allocation_count: usize,
    pub chunk_count: usize,
}

pub open spec fn standard_options() -> Options {
    Options {
        max_allocation_bytes: DEFAULT_MAX_ALLOCATION_BYTES,
        max_alignment: DEFAULT_MAX_ALIGNMENT,
        retained_chunks: DEFAULT_RETAINED_CHUNKS,
        max_retained_chunks: DEFAULT_MAX_RETAINED_CHUNKS,
    }
}

impl Options {
    /// What the setters keep to.
    pub open spec fn valid(self) -> bool {
        &&& 0 < self.max_allocation_bytes <= BUMP_SEGMENT_SIZE
        &&& 0 < self.max_alignment <= BUMP_SEGMENT_SIZE
        &&& is_power_of_two(self.max_alignment as int)
        &&& 0 < self.retained_chunks <= self.max_retained_chunks
    }

    /// Checks whether a heap can have the options.
    pub fn is_valid(self) -> (valid: bool)
        ensures
            valid == self.valid(),
    {
        let shift: u8 = exact_shift(self.max_alignment);
        proof {
            if shift != NO_SHIFT {
                vstd::arithmetic::power2::lemma_pow2_pos(shift as nat);
            }
        }
        0 < self.max_allocation_bytes && self.max_allocation_bytes <= BUMP_SEGMENT_SIZE && shift != NO_SHIFT && self.max_alignment
            <= BUMP_SEGMENT_SIZE && 0 < self.retained_chunks && self.retained_chunks <= self.max_retained_chunks
    }

    pub fn new() -> (options: Options)
        ensures
            options == standard_options(),
            options.valid(),
    {
        proof {
            vstd::arithmetic::power2::lemma2_to64();
            assert(DEFAULT_MAX_ALIGNMENT as int == vstd::arithmetic::power2::pow2(12));
        }
        Options {
            max_allocation_bytes: DEFAULT_MAX_ALLOCATION_BYTES,
            max_alignment: DEFAULT_MAX_ALIGNMENT,
            retained_chunks: DEFAULT_RETAINED_CHUNKS,
            max_retained_chunks: DEFAULT_MAX_RETAINED_CHUNKS,
        }
    }

    pub fn with_max_allocation_bytes(self, bytes: usize) -> (options: Options)
        requires
            0 < bytes <= BUMP_SEGMENT_SIZE,
        ensures
            options == (Options { max_allocation_bytes: bytes, ..self }),
            self.valid() ==> options.valid(),
    {
        Options { max_allocation_bytes: bytes, ..self }
    }

    pub fn with_max_alignment(self, alignment: usize) -> (options: Options)
        requires
            0 < alignment <= BUMP_SEGMENT_SIZE,
            is_power_of_two(alignment as int),
        ensures
            options == (Options { max_alignment: alignment, ..self }),
            self.valid() ==> options.valid(),
    {
        Options { max_alignment: alignment, ..self }
    }

    /// Fixes the number of chunks that a pooled heap keeps.
    pub fn with_retained_chunks(self, chunks: usize) -> (options: Options)
        requires
            chunks > 0,
        ensures
            options == (Options { retained_chunks: chunks, max_retained_chunks: chunks, ..self }),
            self.valid() ==> options.valid(),
    {
        Options { retained_chunks: chunks, max_retained_chunks: chunks, ..self }
    }

    /// Lets recent demand raise the number of chunks that a pooled heap keeps.
    pub fn with_max_retained_chunks(self, chunks: usize) -> (options: Options)
        requires
            chunks >= self.retained_chunks,
        ensures
            options == (Options { max_retained_chunks: chunks, ..self }),
            self.valid() ==> options.valid(),
    {
        Options { max_retained_chunks: chunks, ..self }
    }

    pub fn max_allocation_bytes(self) -> (bytes: usize)
        ensures
            bytes == self.max_allocation_bytes,
    {
        self.max_allocation_bytes
    }

    pub fn max_alignment(self) -> (alignment: usize)
        ensures
            alignment == self.max_alignment,
    {
        self.max_alignment
    }

    pub fn retained_chunks(self) -> (chunks: usize)
        ensures
            chunks == self.retained_chunks,
    {
        self.retained_chunks
    }

    pub fn max_retained_chunks(self) -> (chunks: usize)
        ensures
            chunks == self.max_retained_chunks,
    {
        self.max_retained_chunks
    }
}

impl Default for Options {
    fn default() -> (options: Options)
        ensures
            options == standard_options(),
    {
        Options::new()
    }
}

impl Info {
    pub fn options(&self) -> (options: Options)
        ensures
            options == self.options,
    {
        self.options
    }

    pub fn new(options: Options) -> (info: Info)
        ensures
            info.options == options,
    {
        Info { options }
    }
}

impl Usage {
    pub fn cursor_used_bytes(&self) -> (bytes: usize)
        ensures
            bytes == self.cursor_used_bytes,
    {
        self.cursor_used_bytes
    }

    pub fn allocation_count(&self) -> (count: usize)
        ensures
            count == self.allocation_count,
    {
        self.allocation_count
    }

    pub fn chunk_count(&self) -> (count: usize)
        ensures
            count == self.chunk_count,
    {
        self.chunk_count
    }

    pub fn new(cursor_used_bytes: usize, allocation_count: usize, chunk_count: usize) -> (usage: Usage)
        ensures
            usage == (Usage { cursor_used_bytes, allocation_count, chunk_count }),
    {
        Usage { cursor_used_bytes, allocation_count, chunk_count }
    }
}

} // verus!
