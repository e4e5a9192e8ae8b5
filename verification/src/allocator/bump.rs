//! Bump heaps: blocks are cut from chunks one after the other, and chunks are reused once no
//! block of the heap is left.

use vstd::prelude::*;

use crate::allocator::layout::{align_up, aligned, is_power_of_two, lemma_aligned, Layout};
use crate::hints::bump::{Options, BUMP_SEGMENT_SIZE};
use crate::telemetry::events::{not_logged, TrackingAllocation};

verus! {

pub const BUMP_CHUNK_SIZE: usize = 64 * 1024;
/// The references that a segment's blocks are counted with before they are handed out.
pub const SEGMENT_REFERENCE_CREDITS: usize = 32 * 1024;
pub const RETENTION_DECAY_INTERVAL: usize = 8;
pub const BUMP_CHUNK_MARKER: u64 = 0x5241_4C4C_4152_454E;
/// What the root chunk's header takes.
pub const BUMP_ROOT_SIZE: usize = 320;
/// What the header of a chunk or of its second half takes.
pub const BUMP_HEADER_SIZE: usize = 16;
pub const TRACKING_HEADER_SIZE: usize = 40;
pub const TRACKING_HEADER_ALIGNMENT: usize = 8;

/// What a block that is known to an event log carries in front of it.
#[derive(Clone, Copy, Debug, PartialEq, Eq, Structural)]
pub struct TrackingHeader {
    pub address: usize,
    pub allocation: TrackingAllocation,
    pub previous_cursor: usize,
}

/// A block of the current segment: where the cursor was before it, and where it lies.
pub struct Placed {
    pub rewind: int,
    pub address: int,
    pub end: int,
}

pub struct BumpState {
    pub address: usize,
    /// The handle, the blocks that are in use, and the credits.
    pub references: usize,
    /// The chunks, in the order that they are used in.
    pub chunks: Vec<usize>,
    pub current: usize,
    pub cursor: usize,
    pub end: usize,
    pub allocation_count: usize,
    pub used_bytes: usize,
    pub live_requested_bytes: usize,
    pub handle_released: bool,
    pub used_chunk_count: usize,
    pub retention_target: usize,
    pub underutilized_resets: usize,
    pub credits: usize,
    pub options: Options,
    pub domain: usize,
    /// The heap that serves what the bump heap does not, or 0.
    pub fallback_heap: usize,
    pub headers: Vec<TrackingHeader>,
    /// The blocks in use, by address, with their length.
    pub live: Ghost<Map<int, int>>,
    /// The blocks of the current segment that the cursor has passed.
    pub placed: Ghost<Seq<Placed>>,
}

/// The half chunk that an address lies in.
pub open spec fn segment_base(address: int) -> int {
    address - address % (BUMP_SEGMENT_SIZE as int)
}

pub open spec fn chunk_base(address: int) -> int {
    address - address % (BUMP_CHUNK_SIZE as int)
}

/// Whether a chunk may lie at the address.
pub open spec fn valid_chunk(chunk: int) -> bool {
    0 < chunk && chunk % (BUMP_CHUNK_SIZE as int) == 0 && chunk + BUMP_CHUNK_SIZE <= usize::MAX
}

/// Where blocks start in a half of a chunk.
pub open spec fn segment_start(chunk: int, is_root: bool, first: bool) -> int {
    if first {
        if is_root {
            chunk + BUMP_ROOT_SIZE
        } else {
            chunk + BUMP_HEADER_SIZE
        }
    } else {
        chunk + BUMP_SEGMENT_SIZE + BUMP_HEADER_SIZE
    }
}

impl BumpState {
    pub open spec fn base(&self) -> int {
        self.chunks@[self.current as int] as int
    }

    pub open spec fn in_first(&self) -> bool {
        self.end == self.base() + BUMP_SEGMENT_SIZE
    }

    pub open spec fn start(&self) -> int {
        segment_start(self.base(), self.current == 0, self.in_first())
    }

    pub open spec fn handles(&self) -> int {
        if self.handle_released {
            0
        } else {
            1
        }
    }

    pub open spec fn chunks_ok(&self) -> bool {
        &&& self.chunks@.len() >= 1
        &&& forall|index: int| 0 <= index < self.chunks@.len() ==> valid_chunk(#[trigger] self.chunks@[index] as int)
        &&& forall|left: int, right: int|
            #![trigger self.chunks@[left], self.chunks@[right]]
            0 <= left < right < self.chunks@.len() ==> self.chunks@[left] != self.chunks@[right]
    }

    /// Whether a block of these bytes lies in a segment that the heap has come to.
    pub open spec fn reached(&self, address: int, bytes: int) -> bool {
        exists|index: int| #[trigger] self.reached_in(index, address, bytes)
    }

    pub open spec fn reached_in(&self, index: int, address: int, bytes: int) -> bool {
        &&& 0 <= index <= self.current
        &&& self.chunks@[index] == chunk_base(address)
        &&& index == self.current && self.in_first() ==> address % (BUMP_CHUNK_SIZE as int) < BUMP_SEGMENT_SIZE
        &&& 0 < bytes
        &&& address + bytes <= segment_base(address) + BUMP_SEGMENT_SIZE
    }

    pub open spec fn placed_ok(&self) -> bool {
        &&& forall|index: int|
            #![trigger self.placed@[index]]
            0 <= index < self.placed@.len() ==> self.start() <= self.placed@[index].rewind <= self.placed@[index].address
                < self.placed@[index].end <= self.cursor
        &&& forall|left: int, right: int|
            #![trigger self.placed@[left], self.placed@[right]]
            0 <= left < right < self.placed@.len() ==> self.placed@[left].end <= self.placed@[right].rewind
    }

    pub open spec fn live_ok(&self) -> bool {
        &&& self.live@.dom().finite()
        &&& forall|address: int| #[trigger] self.live@.dom().contains(address) ==> self.reached(address, self.live@[address])
        &&& forall|left: int, right: int|
            #![trigger self.live@[left], self.live@[right]]
            self.live@.dom().contains(left) && self.live@.dom().contains(right) && left < right ==> left + self.live@[left] <= right
        &&& forall|address: int|
            #[trigger] self.live@.dom().contains(address) && segment_base(address) == self.end - BUMP_SEGMENT_SIZE
                ==> self.is_placed(address, self.live@[address])
    }

    pub open spec fn is_placed(&self, address: int, bytes: int) -> bool {
        exists|index: int|
            0 <= index < self.placed@.len() && (#[trigger] self.placed@[index]).address == address && self.placed@[index].end
                == address + bytes
    }

    pub open spec fn headers_ok(&self) -> bool {
        &&& forall|at: int|
            0 <= at < self.headers@.len() ==> self.live@.dom().contains((#[trigger] self.headers@[at]).address as int)
        &&& forall|left: int, right: int|
            #![trigger self.headers@[left], self.headers@[right]]
            0 <= left < right < self.headers@.len() ==> self.headers@[left].address != self.headers@[right].address
        &&& forall|at: int, index: int|
            #![trigger self.headers@[at], self.placed@[index]]
            0 <= at < self.headers@.len() && 0 <= index < self.placed@.len() && self.headers@[at].address
                == self.placed@[index].address ==> self.headers@[at].previous_cursor == self.placed@[index].rewind
    }

    pub open spec fn wf(&self) -> bool {
        &&& self.chunks_ok()
        &&& self.current < self.chunks@.len()
        &&& self.in_first() || self.end == self.base() + BUMP_CHUNK_SIZE
        &&& self.start() <= self.cursor <= self.end
        &&& self.credits + self.placed@.len() <= SEGMENT_REFERENCE_CREDITS
        &&& self.placed_ok()
        &&& self.live_ok()
        &&& self.headers_ok()
        &&& self.references == self.credits + self.live@.dom().len() + self.handles()
        &&& self.options.valid()
        &&& self.retention_target >= 1
        &&& self.address != 0
    }

    /// What the fields that only resets and finishes change are.
    pub open spec fn same_owner(&self, other: &BumpState) -> bool {
        &&& self.address == other.address
        &&& self.handle_released == other.handle_released
        &&& self.retention_target == other.retention_target
        &&& self.underutilized_resets == other.underutilized_resets
        &&& self.options == other.options
        &&& self.domain == other.domain
        &&& self.fallback_heap == other.fallback_heap
    }

    /// Whether a segment follows the current one.
    pub open spec fn has_next(&self) -> bool {
        self.in_first() || self.current + 1 < self.chunks@.len()
    }

    /// Where the segment after the current one starts.
    pub open spec fn next_start(&self) -> int {
        if self.in_first() {
            segment_start(self.base(), false, false)
        } else {
            segment_start(self.chunks@[self.current + 1] as int, false, true)
        }
    }

    /// Where a block goes that leaves `header` bytes in front of it.
    pub open spec fn target(cursor: int, header: int, alignment: int) -> int {
        aligned(cursor + header, alignment)
    }

    pub open spec fn fits(cursor: int, end: int, header: int, alignment: int, bytes: int) -> bool {
        BumpState::target(cursor, header, alignment) + bytes <= end
    }
}

/// Rounding up commutes with moving by a multiple.
proof fn lemma_aligned_shift(base: int, offset: int, alignment: int)
    requires
        alignment > 0,
        base % alignment == 0,
    ensures
        aligned(base + offset, alignment) == base + aligned(offset, alignment),
{
    let top = offset + alignment - 1;
    let multiple = base / alignment;
    vstd::arithmetic::div_mod::lemma_fundamental_div_mod(base, alignment);
    assert(base + top == multiple * alignment + top) by {
        assert(alignment * multiple == multiple * alignment) by (nonlinear_arith);
    }
    vstd::arithmetic::div_mod::lemma_hoist_over_denominator(top, multiple, alignment as nat);
    assert((base + top) / alignment == top / alignment + multiple);
    assert((top / alignment + multiple) * alignment == top / alignment * alignment + multiple * alignment) by (nonlinear_arith);
}

/// An alignment of at most half a chunk divides half a chunk.
pub proof fn lemma_segment_multiple(alignment: int)
    requires
        is_power_of_two(alignment),
        alignment <= BUMP_SEGMENT_SIZE,
    ensures
        (BUMP_SEGMENT_SIZE as int) % alignment == 0,
        alignment > 0,
{
    let exponent = choose|exponent: nat| alignment == #[trigger] vstd::arithmetic::power2::pow2(exponent);
    vstd::arithmetic::power2::lemma2_to64();
    vstd::arithmetic::power2::lemma_pow2_pos(exponent);
    if exponent > 15 {
        vstd::arithmetic::power2::lemma_pow2_strictly_increases(15, exponent);
    }
    let rest = (15 - exponent) as nat;
    vstd::arithmetic::power2::lemma_pow2_adds(exponent, rest);
    let factor = vstd::arithmetic::power2::pow2(rest) as int;
    assert(BUMP_SEGMENT_SIZE as int == alignment * factor);
    assert(alignment * factor == factor * alignment) by (nonlinear_arith);
    vstd::arithmetic::div_mod::lemma_mod_multiples_basic(factor, alignment);
}

/// A block that fits behind a chunk's header fits into every segment but the root's first.
pub proof fn lemma_fits_fresh(base: int, header: int, alignment: int, bytes: int)
    requires
        base % (BUMP_SEGMENT_SIZE as int) == 0,
        is_power_of_two(alignment),
        alignment <= BUMP_SEGMENT_SIZE,
        0 <= header,
        0 < bytes,
        aligned(BUMP_HEADER_SIZE + header, alignment) + bytes <= BUMP_SEGMENT_SIZE,
    ensures
        BumpState::fits(base + BUMP_HEADER_SIZE, base + BUMP_SEGMENT_SIZE, header, alignment, bytes),
        BumpState::target(base + BUMP_HEADER_SIZE, header, alignment) == base + aligned(BUMP_HEADER_SIZE + header, alignment),
        base + BUMP_HEADER_SIZE <= BumpState::target(base + BUMP_HEADER_SIZE, header, alignment),
        base + BUMP_HEADER_SIZE + header + alignment - 1 < base + BUMP_SEGMENT_SIZE + alignment,
{
    lemma_segment_multiple(alignment);
    vstd::arithmetic::div_mod::lemma_fundamental_div_mod(base, BUMP_SEGMENT_SIZE as int);
    vstd::arithmetic::div_mod::lemma_fundamental_div_mod(BUMP_SEGMENT_SIZE as int, alignment);
    let outer = base / (BUMP_SEGMENT_SIZE as int);
    let inner = BUMP_SEGMENT_SIZE as int / alignment;
    assert(base == (inner * outer) * alignment) by (nonlinear_arith)
        requires
            base == BUMP_SEGMENT_SIZE * outer,
            BUMP_SEGMENT_SIZE == alignment * inner,
    ;
    vstd::arithmetic::div_mod::lemma_mod_multiples_basic(inner * outer, alignment);
    lemma_aligned_shift(base, BUMP_HEADER_SIZE + header, alignment);
    lemma_aligned(BUMP_HEADER_SIZE + header, alignment);
}

/// The address space holds so few chunks and blocks that their numbers can be counted.
pub proof fn lemma_bump_counts(state: &BumpState)
    requires
        state.wf(),
    ensures
        state.chunks@.len() * BUMP_CHUNK_SIZE <= usize::MAX,
        state.chunks@.len() < usize::MAX,
        state.live@.dom().len() + SEGMENT_REFERENCE_CREDITS + 2 <= usize::MAX,
{
    let size = BUMP_CHUNK_SIZE as int;
    let chunks = state.chunks@;
    let places = Seq::new(chunks.len(), |index: int| chunks[index] as int / size);
    let limit = usize::MAX as int / size;
    assert forall|index: int| 0 <= index < chunks.len() implies 1 <= #[trigger] places[index] < limit by {
        assert(valid_chunk(chunks[index] as int));
        let chunk = chunks[index] as int;
        vstd::arithmetic::div_mod::lemma_fundamental_div_mod(chunk, size);
        vstd::arithmetic::div_mod::lemma_fundamental_div_mod(usize::MAX as int, size);
        assert(chunk / size + 1 <= limit) by (nonlinear_arith)
            requires
                chunk == size * (chunk / size),
                usize::MAX as int == size * limit + usize::MAX as int % size,
                chunk + size <= usize::MAX as int,
                0 <= usize::MAX as int % size < size,
                size == 65536,
        ;
    }
    assert(places.no_duplicates()) by {
        assert forall|left: int, right: int| 0 <= left < right < places.len() implies places[left] != places[right] by {
            assert(valid_chunk(chunks[left] as int) && valid_chunk(chunks[right] as int));
            vstd::arithmetic::div_mod::lemma_fundamental_div_mod(chunks[left] as int, size);
            vstd::arithmetic::div_mod::lemma_fundamental_div_mod(chunks[right] as int, size);
            assert(chunks[left] != chunks[right]);
        }
    }
    places.unique_seq_to_set();
    vstd::set_lib::lemma_int_range(1, if limit > 1 {
        limit
    } else {
        1
    });
    assert(places.to_set().subset_of(vstd::set_lib::set_int_range(1, limit))) by {
        assert forall|place: int| places.to_set().contains(place) implies vstd::set_lib::set_int_range(1, limit).contains(place) by {
            let index = choose|index: int| 0 <= index < places.len() && places[index] == place;
        }
    }
    assert(1 < limit) by {
        assert(1 <= places[0] < limit);
    }
    vstd::set_lib::lemma_len_subset(places.to_set(), vstd::set_lib::set_int_range(1, limit));
    vstd::arithmetic::div_mod::lemma_fundamental_div_mod(usize::MAX as int, size);
    assert(chunks.len() * size <= usize::MAX) by (nonlinear_arith)
        requires
            chunks.len() <= limit,
            usize::MAX as int == size * limit + usize::MAX as int % size,
            0 <= usize::MAX as int % size,
            size == 65536,
    ;
    let span = vstd::set_lib::set_int_range(size, usize::MAX as int);
    assert(size <= usize::MAX) by {
        assert(valid_chunk(chunks[0] as int));
    }
    vstd::set_lib::lemma_int_range(size, usize::MAX as int);
    assert(state.live@.dom().subset_of(span)) by {
        assert forall|address: int| state.live@.dom().contains(address) implies span.contains(address) by {
            assert(state.reached(address, state.live@[address]));
            let index = choose|index: int| #[trigger] state.reached_in(index, address, state.live@[address]);
            assert(valid_chunk(chunks[index] as int));
            assert(1 <= places[index]);
            lemma_bases(address);
            vstd::arithmetic::div_mod::lemma_fundamental_div_mod(chunks[index] as int, size);
        }
    }
    vstd::set_lib::lemma_len_subset(state.live@.dom(), span);
}

/// What a bump heap made of a request.
#[derive(Clone, Copy, Debug, PartialEq, Eq, Structural)]
pub enum Placement {
    /// The address space ends before the block would.
    Overflow,
    Served { address: usize },
    /// Every chunk is used up: another one is needed.
    NeedChunk,
}

impl BumpState {
    fn release_unused_references(&mut self)
        requires
            old(self).wf(),
        ensures
            final(self).wf(),
            final(self).credits == 0,
            final(self).references == old(self).references - old(self).credits,
            final(self).same_owner(old(self)),
            final(self).chunks == old(self).chunks,
            final(self).current == old(self).current,
            final(self).cursor == old(self).cursor,
            final(self).end == old(self).end,
            final(self).allocation_count == old(self).allocation_count,
            final(self).used_bytes == old(self).used_bytes,
            final(self).live_requested_bytes == old(self).live_requested_bytes,
            final(self).used_chunk_count == old(self).used_chunk_count,
            final(self).headers == old(self).headers,
            final(self).live == old(self).live,
            final(self).placed == old(self).placed,
    {
        let ghost before = *self;
        self.references = self.references - self.credits;
        self.credits = 0;
        proof {
            lemma_same_live(&before, self);
        }
    }

    /// Goes to a segment that no block lies in yet.
    fn open_segment(&mut self, index: usize, first: bool)
        requires
            old(self).wf(),
            old(self).credits == 0,
            old(self).live@.dom().len() + SEGMENT_REFERENCE_CREDITS + 1 <= usize::MAX,
            index < old(self).chunks@.len(),
            index == old(self).current && !first && old(self).in_first() || index == old(self).current + 1 && first,
        ensures
            final(self).wf(),
            final(self).credits == SEGMENT_REFERENCE_CREDITS,
            final(self).references == old(self).references + SEGMENT_REFERENCE_CREDITS,
            final(self).same_owner(old(self)),
            final(self).chunks == old(self).chunks,
            final(self).current == index,
            final(self).in_first() == first,
            final(self).cursor == segment_start(old(self).chunks@[index as int] as int, false, first),
            final(self).cursor == final(self).start(),
            final(self).end == old(self).chunks@[index as int] + (if first {
                BUMP_SEGMENT_SIZE
            } else {
                BUMP_CHUNK_SIZE
            }),
            final(self).allocation_count == old(self).allocation_count,
            final(self).used_bytes == old(self).used_bytes,
            final(self).live_requested_bytes == old(self).live_requested_bytes,
            final(self).used_chunk_count == old(self).used_chunk_count,
            final(self).headers == old(self).headers,
            final(self).live == old(self).live,
            final(self).placed@.len() == 0,
    {
        let ghost before = *self;
        let chunk: usize = self.chunks[index];
        assert(valid_chunk(self.chunks@[index as int] as int));
        self.current = index;
        if first {
            self.cursor = chunk + BUMP_HEADER_SIZE;
            self.end = chunk + BUMP_SEGMENT_SIZE;
        } else {
            self.cursor = chunk + BUMP_SEGMENT_SIZE + BUMP_HEADER_SIZE;
            self.end = chunk + BUMP_CHUNK_SIZE;
        }
        self.references = self.references + SEGMENT_REFERENCE_CREDITS;
        self.credits = SEGMENT_REFERENCE_CREDITS;
        self.placed = Ghost(Seq::empty());
        proof {
            assert(self.base() == chunk);
            assert forall|address: int| #[trigger] self.live@.dom().contains(address) implies self.reached(address, self.live@[address])
                && segment_base(address) != self.end - BUMP_SEGMENT_SIZE by {
                assert(before.reached(address, before.live@[address]));
                let at = choose|at: int| #[trigger] before.reached_in(at, address, before.live@[address]);
                assert(self.reached_in(at, address, self.live@[address]));
                lemma_bases(address);
                lemma_chunk_halves(chunk as int);
                if at == index {
                    assert(before.in_first());
                } else {
                    if at < index {
                        assert(before.chunks@[at] != before.chunks@[index as int]);
                    }
                }
            }
        }
    }
}

/// Where an address lies within its half chunk and its chunk.
proof fn lemma_bases(address: int)
    ensures
        segment_base(address) <= address < segment_base(address) + BUMP_SEGMENT_SIZE,
        chunk_base(address) <= address < chunk_base(address) + BUMP_CHUNK_SIZE,
        address % (BUMP_CHUNK_SIZE as int) < BUMP_SEGMENT_SIZE ==> segment_base(address) == chunk_base(address),
        address % (BUMP_CHUNK_SIZE as int) >= BUMP_SEGMENT_SIZE ==> segment_base(address) == chunk_base(address) + BUMP_SEGMENT_SIZE,
{
    let half = BUMP_SEGMENT_SIZE as int;
    let whole = BUMP_CHUNK_SIZE as int;
    vstd::arithmetic::div_mod::lemma_fundamental_div_mod(address, whole);
    let quotient = address / whole;
    let rest = address % whole;
    if rest < half {
        vstd::arithmetic::div_mod::lemma_fundamental_div_mod_converse(address, half, 2 * quotient, rest);
    } else {
        vstd::arithmetic::div_mod::lemma_fundamental_div_mod_converse(address, half, 2 * quotient + 1, rest - half);
    }
}

/// A chunk starts a chunk and a half chunk, and its second half a half chunk.
proof fn lemma_chunk_halves(chunk: int)
    requires
        chunk % (BUMP_CHUNK_SIZE as int) == 0,
    ensures
        segment_base(chunk) == chunk,
        chunk_base(chunk) == chunk,
        segment_base(chunk + BUMP_SEGMENT_SIZE) == chunk + BUMP_SEGMENT_SIZE,
        chunk % (BUMP_SEGMENT_SIZE as int) == 0,
        (chunk + BUMP_SEGMENT_SIZE) % (BUMP_SEGMENT_SIZE as int) == 0,
        forall|address: int|
            #![trigger segment_base(address)]
            chunk <= address < chunk + BUMP_SEGMENT_SIZE ==> segment_base(address) == chunk && chunk_base(address) == chunk
                && address % (BUMP_CHUNK_SIZE as int) < BUMP_SEGMENT_SIZE,
        forall|address: int|
            #![trigger segment_base(address)]
            chunk + BUMP_SEGMENT_SIZE <= address < chunk + BUMP_CHUNK_SIZE ==> segment_base(address) == chunk + BUMP_SEGMENT_SIZE
                && chunk_base(address) == chunk,
{
    let half = BUMP_SEGMENT_SIZE as int;
    let whole = BUMP_CHUNK_SIZE as int;
    vstd::arithmetic::div_mod::lemma_fundamental_div_mod(chunk, whole);
    let quotient = chunk / whole;
    assert forall|address: int| chunk <= address < chunk + BUMP_CHUNK_SIZE implies #[trigger] chunk_base(address) == chunk && address
        % whole == address - chunk by {
        vstd::arithmetic::div_mod::lemma_fundamental_div_mod_converse(address, whole, quotient, address - chunk);
    }
    assert forall|address: int|
        #![trigger segment_base(address)]
        chunk <= address < chunk + BUMP_SEGMENT_SIZE implies segment_base(address) == chunk && chunk_base(address) == chunk && address
        % (BUMP_CHUNK_SIZE as int) < BUMP_SEGMENT_SIZE by {
        assert(chunk_base(address) == chunk);
        lemma_bases(address);
    }
    assert forall|address: int|
        #![trigger segment_base(address)]
        chunk + BUMP_SEGMENT_SIZE <= address < chunk + BUMP_CHUNK_SIZE implies segment_base(address) == chunk + BUMP_SEGMENT_SIZE
        && chunk_base(address) == chunk by {
        assert(chunk_base(address) == chunk);
        lemma_bases(address);
    }
    assert(segment_base(chunk) == chunk);
    assert(segment_base(chunk + BUMP_SEGMENT_SIZE) == chunk + BUMP_SEGMENT_SIZE);
}

/// What holds of the blocks depends on where the heap is, on its blocks and on nothing else.
proof fn lemma_same_live(before: &BumpState, after: &BumpState)
    requires
        before.live_ok(),
        after.chunks == before.chunks,
        after.current == before.current,
        after.end == before.end,
        after.live == before.live,
        after.placed == before.placed,
    ensures
        after.live_ok(),
{
    assert forall|address: int| #[trigger] after.live@.dom().contains(address) implies after.reached(address, after.live@[address]) by {
        assert(before.reached(address, before.live@[address]));
        let at = choose|at: int| #[trigger] before.reached_in(at, address, before.live@[address]);
        assert(after.reached_in(at, address, after.live@[address]));
    }
    assert forall|address: int|
        #[trigger] after.live@.dom().contains(address) && segment_base(address) == after.end - BUMP_SEGMENT_SIZE implies after.is_placed(
        address,
        after.live@[address],
    ) by {
        assert(before.is_placed(address, before.live@[address]));
        let at = choose|at: int|
            0 <= at < before.placed@.len() && (#[trigger] before.placed@[at]).address == address && before.placed@[at].end == address
                + before.live@[address];
        assert(after.placed@[at].address == address);
    }
}

/// Every block that the cursor has passed took at least a byte.
proof fn lemma_placed_count(state: &BumpState, count: int)
    requires
        state.placed_ok(),
        state.start() <= state.cursor,
        0 <= count <= state.placed@.len(),
    ensures
        count > 0 ==> state.start() + count <= state.placed@[count - 1].end,
        state.start() + count <= state.cursor,
    decreases count,
{
    if count > 0 {
        lemma_placed_count(state, count - 1);
        let last = state.placed@[count - 1];
        if count > 1 {
            assert(state.placed@[count - 2].end <= last.rewind);
        }
        assert(state.placed@[count - 1].end <= state.cursor);
    }
}

/// What handing out a block in the current segment leaves.
pub open spec fn took(before: &BumpState, after: &BumpState, address: usize, bytes: int, requested_bytes: usize) -> bool {
    &&& after.same_owner(before)
    &&& after.chunks == before.chunks
    &&& after.current == before.current
    &&& after.end == before.end
    &&& after.used_chunk_count == before.used_chunk_count
    &&& after.cursor == address + bytes
    &&& after.allocation_count == before.allocation_count.wrapping_add(1)
    &&& after.used_bytes == before.used_bytes.wrapping_add(bytes as usize)
    &&& after.live_requested_bytes == before.live_requested_bytes.wrapping_add(requested_bytes)
    &&& after.credits == before.credits - 1
    &&& after.references == before.references
    &&& after.live@ == before.live@.insert(address as int, bytes)
    &&& !before.live@.dom().contains(address as int)
    &&& forall|other: int|
        #[trigger] before.live@.dom().contains(other) ==> other + before.live@[other] <= address || address + bytes <= other
}

impl BumpState {
    /// Hands out a block that fits behind the cursor.
    fn take(&mut self, address: usize, bytes: usize, requested_bytes: usize)
        requires
            old(self).wf(),
            old(self).credits > 0,
            old(self).cursor <= address,
            0 < bytes,
            address + bytes <= old(self).end,
            forall|at: int| 0 <= at < old(self).headers@.len() ==> (#[trigger] old(self).headers@[at]).address != address,
        ensures
            final(self).wf(),
            final(self).headers == old(self).headers,
            final(self).placed@ == old(self).placed@.push(
                Placed { rewind: old(self).cursor as int, address: address as int, end: address + bytes },
            ),
            took(old(self), final(self), address, bytes as int, requested_bytes),
    {
        let ghost before = *self;
        self.cursor = address + bytes;
        self.allocation_count = self.allocation_count.wrapping_add(1);
        self.used_bytes = self.used_bytes.wrapping_add(bytes);
        self.live_requested_bytes = self.live_requested_bytes.wrapping_add(requested_bytes);
        self.credits = self.credits - 1;
        self.live = Ghost(self.live@.insert(address as int, bytes as int));
        self.placed = Ghost(
            self.placed@.push(Placed { rewind: before.cursor as int, address: address as int, end: address + bytes }),
        );
        proof {
            lemma_taken(&before, self, address as int, bytes as int);
        }
    }

    /// Hands out a block in the first segment from the current one on that it fits into.
    fn place(&mut self, header: usize, alignment: usize, bytes: usize, requested_bytes: usize) -> (outcome: (Placement, usize))
        requires
            old(self).wf(),
            is_power_of_two(alignment as int),
            alignment <= BUMP_SEGMENT_SIZE,
            header <= TRACKING_HEADER_SIZE,
            0 < bytes,
            aligned(BUMP_HEADER_SIZE + header, alignment as int) + bytes <= BUMP_SEGMENT_SIZE,
            old(self).live@.dom().len() + SEGMENT_REFERENCE_CREDITS + 2 <= usize::MAX,
            !old(self).spent(header as int, alignment as int, bytes as int),
        ensures
            final(self).wf(),
            final(self).headers == old(self).headers,
            ({
                let placement = outcome.0;
                let here = BumpState::target(old(self).cursor as int, header as int, alignment as int);
                let next = BumpState::target(old(self).next_start(), header as int, alignment as int);
                if old(self).cursor + header + alignment - 1 > usize::MAX {
                    placement == Placement::Overflow && *final(self) == *old(self)
                } else if here + bytes <= old(self).end {
                    &&& placement == (Placement::Served { address: here as usize })
                    &&& took(old(self), final(self), here as usize, bytes as int, requested_bytes)
                    &&& outcome.1 == old(self).cursor
                    &&& final(self).placed@.last().rewind == old(self).cursor
                    &&& final(self).placed@.last().address == here
                } else if !old(self).has_next() {
                    &&& placement == Placement::NeedChunk
                    &&& final(self).credits == 0
                    &&& final(self).references == old(self).references - old(self).credits
                    &&& final(self).same_place(old(self))
                } else if old(self).next_start() + header + alignment - 1 > usize::MAX {
                    &&& placement == Placement::Overflow
                    &&& advanced(old(self), final(self))
                } else {
                    &&& placement == (Placement::Served { address: next as usize })
                    &&& exists|middle: BumpState|
                        #[trigger] advanced(old(self), &middle) && took(&middle, final(self), next as usize, bytes as int, requested_bytes)
                    &&& outcome.1 == old(self).next_start()
                    &&& final(self).placed@.last().rewind == old(self).next_start()
                    &&& final(self).placed@.last().address == next
                    &&& final(self).live@ == old(self).live@.insert(next, bytes as int)
                    &&& !old(self).live@.dom().contains(next)
                    &&& final(self).same_owner(old(self))
                    &&& final(self).chunks == old(self).chunks
                }
            }),
    {
        let ghost before = *self;
        proof {
            lemma_segment_multiple(alignment as int);
            lemma_aligned(self.cursor + header, alignment as int);
        }
        let start: usize = match self.cursor.checked_add(header) {
            None => {
                return (Placement::Overflow, 0);
            },
            Some(start) => start,
        };
        let address: usize = match align_up(start, alignment) {
            None => {
                return (Placement::Overflow, 0);
            },
            Some(address) => address,
        };
        if address <= self.end && self.end - address >= bytes {
            proof {
                lemma_placed_count(self, self.placed@.len() as int);
                lemma_fresh_address(self, address as int);
            }
            let previous: usize = self.cursor;
            self.take(address, bytes, requested_bytes);
            return (Placement::Served { address }, previous);
        }
        self.release_unused_references();
        let ghost released = *self;
        let first_half: bool = self.end == self.chunks[self.current] + BUMP_SEGMENT_SIZE;
        assert(first_half == before.in_first());
        if first_half {
            self.open_segment(self.current, false);
        } else if self.current < self.chunks.len() - 1 {
            let index: usize = self.current + 1;
            self.open_segment(index, true);
            self.used_chunk_count = self.used_chunk_count.wrapping_add(1);
        } else {
            return (Placement::NeedChunk, 0);
        }
        let ghost middle = *self;
        proof {
            assert(middle.cursor == before.next_start());
            assert(advanced(&before, &middle));
            assert(middle.wf()) by {
                lemma_reopened(&before, &middle);
            }
            assert(valid_chunk(self.chunks@[self.current as int] as int));
            lemma_chunk_halves(self.base());
            lemma_fits_fresh(self.end - BUMP_SEGMENT_SIZE, header as int, alignment as int, bytes as int);
            lemma_aligned(self.cursor + header, alignment as int);
        }
        let start: usize = match self.cursor.checked_add(header) {
            None => {
                return (Placement::Overflow, 0);
            },
            Some(start) => start,
        };
        let address: usize = match align_up(start, alignment) {
            None => {
                return (Placement::Overflow, 0);
            },
            Some(address) => address,
        };
        proof {
            lemma_fresh_address(self, address as int);
        }
        let previous: usize = self.cursor;
        self.take(address, bytes, requested_bytes);
        proof {
            assert(advanced(&before, &middle) && took(&middle, self, address, bytes as int, requested_bytes));
        }
        (Placement::Served { address }, previous)
    }

    /// Everything but the credits is as in `other`.
    pub open spec fn same_place(&self, other: &BumpState) -> bool {
        &&& self.same_owner(other)
        &&& self.chunks == other.chunks
        &&& self.current == other.current
        &&& self.cursor == other.cursor
        &&& self.end == other.end
        &&& self.allocation_count == other.allocation_count
        &&& self.used_bytes == other.used_bytes
        &&& self.live_requested_bytes == other.live_requested_bytes
        &&& self.used_chunk_count == other.used_chunk_count
        &&& self.live == other.live
        &&& self.placed == other.placed
    }
}

/// What going to the next segment leaves.
pub open spec fn advanced(before: &BumpState, after: &BumpState) -> bool {
    &&& before.has_next()
    &&& after.same_owner(before)
    &&& after.chunks == before.chunks
    &&& after.current == (if before.in_first() {
        before.current as int
    } else {
        before.current + 1
    })
    &&& after.cursor == before.next_start()
    &&& after.end == after.base() + (if before.in_first() {
        BUMP_CHUNK_SIZE
    } else {
        BUMP_SEGMENT_SIZE
    })
    &&& after.used_chunk_count == (if before.in_first() {
        before.used_chunk_count
    } else {
        before.used_chunk_count.wrapping_add(1)
    })
    &&& after.allocation_count == before.allocation_count
    &&& after.used_bytes == before.used_bytes
    &&& after.live_requested_bytes == before.live_requested_bytes
    &&& after.credits == SEGMENT_REFERENCE_CREDITS
    &&& after.references == before.references - before.credits + SEGMENT_REFERENCE_CREDITS
    &&& after.live == before.live
    &&& after.placed@.len() == 0
    &&& after.headers == before.headers
}

/// What going past every segment that there is leaves.
pub open spec fn used_up(before: &BumpState, after: &BumpState) -> bool {
    let last = before.chunks@.len() - 1;
    &&& after.same_owner(before)
    &&& after.chunks == before.chunks
    &&& after.current == last
    &&& after.cursor == (if before.has_next() {
        segment_start(before.chunks@[last] as int, false, false)
    } else {
        before.cursor as int
    })
    &&& after.end == before.chunks@[last] + BUMP_CHUNK_SIZE
    &&& after.used_chunk_count == before.used_chunk_count.wrapping_add((last - before.current) as usize)
    &&& after.allocation_count == before.allocation_count
    &&& after.used_bytes == before.used_bytes
    &&& after.live_requested_bytes == before.live_requested_bytes
    &&& after.credits == 0
    &&& after.references == before.references - before.credits
    &&& after.live == before.live
    &&& after.placed@ == (if before.has_next() {
        Seq::empty()
    } else {
        before.placed@
    })
    &&& after.headers == before.headers
}

/// Going to the next segment and past every other is going past them all.
proof fn lemma_used_up_on(before: &BumpState, middle: &BumpState, after: &BumpState)
    requires
        before.wf(),
        middle.wf(),
        advanced(before, middle),
        used_up(middle, after),
    ensures
        used_up(before, after),
{
    let last = before.chunks@.len() - 1;
    assert(middle.placed@ =~= Seq::empty());
    assert(after.placed@ =~= Seq::empty());
    if before.in_first() {
        assert(middle.base() == before.base());
        assert(!middle.in_first());
    } else {
        assert(middle.in_first());
    }
    if !middle.has_next() {
        assert(middle.current == last);
        assert(before.in_first());
    }
}

impl BumpState {
    /// Goes past every segment that there is.
    fn use_up(&mut self)
        requires
            old(self).wf(),
            old(self).live@.dom().len() + SEGMENT_REFERENCE_CREDITS + 2 <= usize::MAX,
        ensures
            final(self).wf(),
            used_up(old(self), final(self)),
        decreases 2 * (old(self).chunks@.len() - old(self).current) + (if old(self).in_first() {
            1int
        } else {
            0
        }),
    {
        let ghost before = *self;
        self.release_unused_references();
        let first_half: bool = self.end == self.chunks[self.current] + BUMP_SEGMENT_SIZE;
        assert(first_half == before.in_first());
        if first_half {
            self.open_segment(self.current, false);
        } else if self.current < self.chunks.len() - 1 {
            let index: usize = self.current + 1;
            self.open_segment(index, true);
            self.used_chunk_count = self.used_chunk_count.wrapping_add(1);
        } else {
            return;
        }
        let ghost middle = *self;
        proof {
            assert(middle.cursor == before.next_start());
            assert(advanced(&before, &middle));
            lemma_reopened(&before, &middle);
        }
        self.use_up();
        proof {
            lemma_used_up_on(&before, &middle, self);
        }
    }
}

proof fn lemma_reopened(before: &BumpState, after: &BumpState)
    requires
        before.wf(),
        advanced(before, after),
    ensures
        after.wf(),
{
    let index = after.current as int;
    let chunk = before.chunks@[index] as int;
    assert(valid_chunk(before.chunks@[index] as int));
    assert(after.base() == chunk);
    lemma_chunk_halves(chunk);
    assert forall|address: int| #[trigger] after.live@.dom().contains(address) implies after.reached(address, after.live@[address])
        && segment_base(address) != after.end - BUMP_SEGMENT_SIZE by {
        assert(before.reached(address, before.live@[address]));
        let at = choose|at: int| #[trigger] before.reached_in(at, address, before.live@[address]);
        assert(after.reached_in(at, address, after.live@[address]));
        lemma_bases(address);
        if at < index {
            assert(before.chunks@[at] != before.chunks@[index]);
        }
    }
}

/// No block in use starts behind the cursor in the current segment.
proof fn lemma_fresh_address(state: &BumpState, address: int)
    requires
        state.wf(),
        state.cursor <= address < state.end,
    ensures
        !state.live@.dom().contains(address),
        forall|at: int| 0 <= at < state.headers@.len() ==> (#[trigger] state.headers@[at]).address != address,
{
    assert(valid_chunk(state.chunks@[state.current as int] as int));
    lemma_chunk_halves(state.base());
    if state.live@.dom().contains(address) {
        assert(segment_base(address) == state.end - BUMP_SEGMENT_SIZE);
        assert(state.is_placed(address, state.live@[address]));
        let at = choose|at: int|
            0 <= at < state.placed@.len() && (#[trigger] state.placed@[at]).address == address && state.placed@[at].end == address
                + state.live@[address];
        assert(state.placed@[at].end <= state.cursor);
    }
}

proof fn lemma_taken(before: &BumpState, after: &BumpState, address: int, bytes: int)
    requires
        before.wf(),
        before.credits > 0,
        before.cursor <= address,
        0 < bytes,
        address + bytes <= before.end,
        forall|at: int| 0 <= at < before.headers@.len() ==> (#[trigger] before.headers@[at]).address != address,
        after.same_owner(before),
        after.chunks == before.chunks,
        after.current == before.current,
        after.end == before.end,
        after.headers == before.headers,
        after.cursor == address + bytes,
        after.credits == before.credits - 1,
        after.references == before.references,
        after.live@ == before.live@.insert(address, bytes),
        after.placed@ == before.placed@.push(Placed { rewind: before.cursor as int, address, end: address + bytes }),
    ensures
        after.wf(),
        !before.live@.dom().contains(address),
        forall|other: int|
            #[trigger] before.live@.dom().contains(other) ==> other + before.live@[other] <= address || address + bytes <= other,
{
    let last = before.placed@.len() as int;
    assert(valid_chunk(before.chunks@[before.current as int] as int));
    lemma_chunk_halves(before.base());
    assert forall|other: int|
        #[trigger] before.live@.dom().contains(other) implies other + before.live@[other] <= address || address + bytes <= other by {
        assert(before.reached(other, before.live@[other]));
        let at = choose|at: int| #[trigger] before.reached_in(at, other, before.live@[other]);
        lemma_bases(other);
        if segment_base(other) == before.end - BUMP_SEGMENT_SIZE {
            assert(before.is_placed(other, before.live@[other]));
            let position = choose|position: int|
                0 <= position < before.placed@.len() && (#[trigger] before.placed@[position]).address == other
                    && before.placed@[position].end == other + before.live@[other];
            assert(before.placed@[position].end <= before.cursor);
        } else {
            assert(segment_base(address) == before.end - BUMP_SEGMENT_SIZE);
            lemma_segments_apart(other, address);
        }
    }
    if before.live@.dom().contains(address) {
        assert(before.reached(address, before.live@[address]));
        assert(address + before.live@[address] <= address || address + bytes <= address);
        let at = choose|at: int| #[trigger] before.reached_in(at, address, before.live@[address]);
        assert(before.live@[address] > 0);
    }
    assert forall|index: int|
        #![trigger after.placed@[index]]
        0 <= index < after.placed@.len() implies after.start() <= after.placed@[index].rewind <= after.placed@[index].address
        < after.placed@[index].end <= after.cursor by {
        if index < last {
            assert(after.placed@[index] == before.placed@[index]);
        }
    }
    assert forall|left: int, right: int|
        #![trigger after.placed@[left], after.placed@[right]]
        0 <= left < right < after.placed@.len() implies after.placed@[left].end <= after.placed@[right].rewind by {
        assert(after.placed@[left] == before.placed@[left]);
        assert(before.placed@[left].end <= before.cursor);
        if right < last {
            assert(after.placed@[right] == before.placed@[right]);
        }
    }
    assert forall|other: int| #[trigger] after.live@.dom().contains(other) implies after.reached(other, after.live@[other]) by {
        if other == address {
            assert(after.reached_in(after.current as int, address, bytes));
        } else {
            assert(before.reached(other, before.live@[other]));
            let at = choose|at: int| #[trigger] before.reached_in(at, other, before.live@[other]);
            assert(after.reached_in(at, other, after.live@[other]));
        }
    }
    assert forall|left: int, right: int|
        #![trigger after.live@[left], after.live@[right]]
        after.live@.dom().contains(left) && after.live@.dom().contains(right) && left < right implies left + after.live@[left] <= right by {
        if left == address {
            assert(before.live@.dom().contains(right));
            assert(before.reached(right, before.live@[right]));
            let at = choose|at: int| #[trigger] before.reached_in(at, right, before.live@[right]);
        } else if right == address {
            assert(before.live@.dom().contains(left));
        } else {
            assert(before.live@[left] == after.live@[left] && before.live@[right] == after.live@[right]);
        }
    }
    assert forall|other: int|
        #[trigger] after.live@.dom().contains(other) && segment_base(other) == after.end - BUMP_SEGMENT_SIZE implies after.is_placed(
        other,
        after.live@[other],
    ) by {
        if other == address {
            assert(after.placed@[last].address == address);
        } else {
            assert(before.is_placed(other, before.live@[other]));
            let position = choose|position: int|
                0 <= position < before.placed@.len() && (#[trigger] before.placed@[position]).address == other
                    && before.placed@[position].end == other + before.live@[other];
            assert(after.placed@[position] == before.placed@[position]);
        }
    }
    assert forall|at: int, index: int|
        #![trigger after.headers@[at], after.placed@[index]]
        0 <= at < after.headers@.len() && 0 <= index < after.placed@.len() && after.headers@[at].address
            == after.placed@[index].address implies after.headers@[at].previous_cursor == after.placed@[index].rewind by {
        if index < last {
            assert(after.placed@[index] == before.placed@[index]);
            assert(before.headers@[at].previous_cursor == before.placed@[index].rewind);
        } else {
            assert(before.headers@[at].address != address);
        }
    }
}

/// Blocks of different half chunks lie apart.
proof fn lemma_segments_apart(left: int, right: int)
    requires
        segment_base(left) != segment_base(right),
    ensures
        segment_base(left) + BUMP_SEGMENT_SIZE <= segment_base(right) || segment_base(right) + BUMP_SEGMENT_SIZE <= segment_base(left),
{
    let half = BUMP_SEGMENT_SIZE as int;
    vstd::arithmetic::div_mod::lemma_fundamental_div_mod(left, half);
    vstd::arithmetic::div_mod::lemma_fundamental_div_mod(right, half);
    let a = left / half;
    let b = right / half;
    assert(a + 1 <= b || b + 1 <= a) by (nonlinear_arith)
        requires
            half * a != half * b,
    ;
    assert(half * a + half <= half * b || half * b + half <= half * a) by (nonlinear_arith)
        requires
            a + 1 <= b || b + 1 <= a,
            half > 0,
    ;
}

/// Whether a layout fits into half a chunk.
pub open spec fn fits_segment(layout: Layout) -> bool {
    aligned(BUMP_HEADER_SIZE as int, layout.align as int) + layout.spec_bytes() <= BUMP_SEGMENT_SIZE
}

pub open spec fn tracked_alignment(layout: Layout) -> int {
    if layout.align < TRACKING_HEADER_ALIGNMENT {
        TRACKING_HEADER_ALIGNMENT as int
    } else {
        layout.align as int
    }
}

/// Whether a layout may fit into half a chunk together with what an event log needs.
pub open spec fn fits_segment_logged(layout: Layout) -> bool {
    layout.spec_bytes() + TRACKING_HEADER_SIZE + tracked_alignment(layout) - 1 <= BUMP_SEGMENT_SIZE
}

/// Whether a block fits half a chunk that nothing else lies in.
pub open spec fn fits_empty(header: int, alignment: int, bytes: int) -> bool {
    aligned(BUMP_HEADER_SIZE + header, alignment) + bytes <= BUMP_SEGMENT_SIZE
}

pub fn can_fit_in_chunk_segment(layout: Layout) -> (fits: bool)
    requires
        layout.wf(),
    ensures
        fits == fits_segment(layout),
{
    let size: usize = layout.bytes();
    proof {
        lemma_layout(layout);
        lemma_aligned(BUMP_HEADER_SIZE as int, layout.align as int);
    }
    match align_up(BUMP_HEADER_SIZE, layout.align) {
        None => false,
        Some(start) => start <= BUMP_SEGMENT_SIZE && BUMP_SEGMENT_SIZE - start >= size,
    }
}

pub fn can_fit_tracked_in_chunk_segment(layout: Layout) -> (fits: bool)
    requires
        layout.wf(),
    ensures
        fits == fits_segment_logged(layout),
{
    let size: usize = layout.bytes();
    let alignment: usize = if layout.align < TRACKING_HEADER_ALIGNMENT {
        TRACKING_HEADER_ALIGNMENT
    } else {
        layout.align
    };
    match size.checked_add(TRACKING_HEADER_SIZE) {
        None => false,
        Some(with_header) => match with_header.checked_add(alignment - 1) {
            None => false,
            Some(total) => total <= BUMP_SEGMENT_SIZE,
        },
    }
}

proof fn lemma_layout(layout: Layout)
    requires
        layout.wf(),
    ensures
        layout.align > 0,
{
    let exponent = choose|exponent: nat| layout.align == #[trigger] vstd::arithmetic::power2::pow2(exponent);
    vstd::arithmetic::power2::lemma_pow2_pos(exponent);
}

proof fn lemma_larger_power(alignment: int)
    requires
        is_power_of_two(alignment),
    ensures
        is_power_of_two(TRACKING_HEADER_ALIGNMENT as int),
{
    vstd::arithmetic::power2::lemma2_to64();
    assert(TRACKING_HEADER_ALIGNMENT as int == vstd::arithmetic::power2::pow2(3));
}

impl BumpState {
    /// Whether the heap goes on in another chunk, and nothing else changed.
    pub open spec fn supplied(&self, before: &BumpState, chunk: usize) -> bool {
        &&& self.same_owner(before)
        &&& self.chunks@ == before.chunks@.push(chunk)
        &&& self.current == before.chunks@.len()
        &&& self.cursor == chunk + BUMP_HEADER_SIZE
        &&& self.end == chunk + BUMP_SEGMENT_SIZE
        &&& self.used_chunk_count == before.used_chunk_count.wrapping_add(1)
        &&& self.allocation_count == before.allocation_count
        &&& self.used_bytes == before.used_bytes
        &&& self.live_requested_bytes == before.live_requested_bytes
        &&& self.credits == SEGMENT_REFERENCE_CREDITS
        &&& self.references == before.references + SEGMENT_REFERENCE_CREDITS
        &&& self.live == before.live
        &&& self.headers == before.headers
        &&& self.placed@.len() == 0
    }

    /// Whether the heap serves such a layout at all.
    pub open spec fn serves(&self, layout: Layout) -> bool {
        layout.spec_bytes() <= self.options.max_allocation_bytes && layout.align <= self.options.max_alignment && fits_segment(layout)
    }

    /// Whether the heap serves such a layout to be known to an event log.
    pub open spec fn serves_logged(&self, layout: Layout) -> bool {
        &&& layout.spec_bytes() <= self.options.max_allocation_bytes
        &&& layout.align <= self.options.max_alignment
        &&& fits_segment_logged(layout)
    }

    /// Whether the block would be cut from a segment whose credits are gone.
    pub open spec fn spent(&self, header: int, alignment: int, bytes: int) -> bool {
        &&& self.credits == 0
        &&& self.cursor + header + alignment - 1 <= usize::MAX
        &&& BumpState::fits(self.cursor as int, self.end as int, header, alignment, bytes)
    }

    /// Checks whether the heap serves such a layout to be known to an event log.
    pub fn serves_tracked(&self, layout: Layout) -> (serves: bool)
        requires
            layout.wf(),
        ensures
            serves == self.serves_logged(layout),
    {
        layout.bytes() <= self.options.max_allocation_bytes && layout.align <= self.options.max_alignment
            && can_fit_tracked_in_chunk_segment(layout)
    }

    /// Whether the heap is far enough from the end of the address space to place a block.
    pub open spec fn roomy(&self) -> bool {
        self.cursor + BUMP_CHUNK_SIZE <= usize::MAX && (self.has_next() ==> self.next_start() + BUMP_CHUNK_SIZE <= usize::MAX)
    }

    /// Checks whether the heap is far enough from the end of the address space to place a block.
    pub fn is_roomy(&self) -> (roomy: bool)
        requires
            self.wf(),
        ensures
            roomy == self.roomy(),
    {
        if self.cursor > usize::MAX - BUMP_CHUNK_SIZE {
            return false;
        }
        let first_half: bool = self.end == self.chunks[self.current] + BUMP_SEGMENT_SIZE;
        if first_half {
            self.chunks[self.current] <= usize::MAX - BUMP_CHUNK_SIZE - BUMP_SEGMENT_SIZE - BUMP_HEADER_SIZE
        } else if self.current < self.chunks.len() - 1 {
            self.chunks[self.current + 1] <= usize::MAX - BUMP_CHUNK_SIZE - BUMP_HEADER_SIZE
        } else {
            true
        }
    }

    /// Whether the block, with a header for an event log or without, would be cut from a segment whose
    /// credits are gone.
    pub fn is_spent(&self, layout: Layout, logged: bool) -> (spent: bool)
        requires
            layout.wf(),
        ensures
            spent == (if logged {
                self.spent(TRACKING_HEADER_SIZE as int, tracked_alignment(layout), layout.spec_bytes())
            } else {
                self.spent(0, layout.align as int, layout.spec_bytes())
            }),
    {
        let header: usize = if logged {
            TRACKING_HEADER_SIZE
        } else {
            0
        };
        let alignment: usize = if logged && layout.align < TRACKING_HEADER_ALIGNMENT {
            TRACKING_HEADER_ALIGNMENT
        } else {
            layout.align
        };
        proof {
            lemma_layout(layout);
            lemma_aligned(self.cursor + header, alignment as int);
        }
        if self.credits != 0 {
            return false;
        }
        match self.cursor.checked_add(header) {
            None => false,
            Some(start) => match align_up(start, alignment) {
                None => false,
                Some(address) => address <= self.end && self.end - address >= layout.bytes(),
            },
        }
    }

    /// The header of a block at the address that is the next to be placed.
    pub open spec fn next_header(&self, layout: Layout, address: usize) -> TrackingHeader {
        TrackingHeader {
            address,
            allocation: not_logged(),
            previous_cursor: (if BumpState::fits(
                self.cursor as int,
                self.end as int,
                TRACKING_HEADER_SIZE as int,
                tracked_alignment(layout),
                layout.spec_bytes(),
            ) {
                self.cursor as int
            } else {
                self.next_start()
            }) as usize,
        }
    }

    /// What placing a block makes of the heap. One that not even an empty segment holds needs a chunk
    /// after all that there are.
    pub open spec fn placing(
        &self,
        after: &BumpState,
        placement: Placement,
        header: int,
        alignment: int,
        bytes: int,
        requested_bytes: usize,
    ) -> bool {
        let here = BumpState::target(self.cursor as int, header, alignment);
        let next = BumpState::target(self.next_start(), header, alignment);
        if !fits_empty(header, alignment, bytes) {
            placement == Placement::NeedChunk && used_up(self, after)
        } else if self.cursor + header + alignment - 1 > usize::MAX {
            placement == Placement::Overflow && after.same_place(self) && after.credits == self.credits && after.references
                == self.references
        } else if here + bytes <= self.end {
            placement == (Placement::Served { address: here as usize }) && took(self, after, here as usize, bytes, requested_bytes)
        } else if !self.has_next() {
            placement == Placement::NeedChunk && after.credits == 0 && after.references == self.references - self.credits
                && after.same_place(self)
        } else if self.next_start() + header + alignment - 1 > usize::MAX {
            placement == Placement::Overflow && advanced(self, after)
        } else {
            &&& placement == (Placement::Served { address: next as usize })
            &&& exists|middle: BumpState|
                #[trigger] advanced(self, &middle) && took(&middle, after, next as usize, bytes, requested_bytes)
        }
    }

    /// Cuts a block for a layout. Returns None where the heap does not serve such a layout.
    pub fn allocate(&mut self, layout: Layout) -> (placement: Option<Placement>)
        requires
            old(self).wf(),
            layout.wf(),
            !old(self).spent(0, layout.align as int, layout.spec_bytes()),
        ensures
            final(self).wf(),
            final(self).headers == old(self).headers,
            placement is Some <==> old(self).serves(layout),
            placement is None ==> *final(self) == *old(self),
            placement matches Some(placement) ==> old(self).placing(
                final(self),
                placement,
                0,
                layout.align as int,
                layout.spec_bytes(),
                layout.size,
            ),
            placement matches Some(Placement::Served { address }) ==> final(self).live@ == old(self).live@.insert(
                address as int,
                layout.spec_bytes(),
            ) && !old(self).live@.dom().contains(address as int) && address as int % (layout.align as int) == 0,
    {
        let ghost before = *self;
        proof {
            lemma_bump_counts(self);
        }
        let size: usize = layout.bytes();
        if size > self.options.max_allocation_bytes || layout.align > self.options.max_alignment || !can_fit_in_chunk_segment(
            layout,
        ) {
            return None;
        }
        proof {
            lemma_layout(layout);
            lemma_aligned(self.cursor as int, layout.align as int);
            lemma_aligned(self.next_start(), layout.align as int);
        }
        let (placement, _previous) = self.place(0, layout.align, size, layout.size);
        Some(placement)
    }

    /// Cuts a block for a layout, with room in front of it for what an event log needs.
    pub fn allocate_tracked(&mut self, layout: Layout) -> (placement: Option<Placement>)
        requires
            old(self).wf(),
            layout.wf(),
            !old(self).spent(TRACKING_HEADER_SIZE as int, tracked_alignment(layout), layout.spec_bytes()),
        ensures
            final(self).wf(),
            placement is Some <==> old(self).serves_logged(layout),
            placement is None ==> *final(self) == *old(self),
            placement matches Some(placement) ==> old(self).placing(
                final(self),
                placement,
                TRACKING_HEADER_SIZE as int,
                tracked_alignment(layout),
                layout.spec_bytes(),
                layout.size,
            ),
            match placement {
                Some(Placement::Served { address }) => {
                    &&& final(self).live@ == old(self).live@.insert(address as int, layout.spec_bytes())
                    &&& !old(self).live@.dom().contains(address as int)
                    &&& address as int % tracked_alignment(layout) == 0
                    &&& final(self).headers@ == old(self).headers@.push(old(self).next_header(layout, address))
                },
                _ => final(self).headers == old(self).headers,
            },
    {
        let ghost before = *self;
        proof {
            lemma_bump_counts(self);
        }
        let size: usize = layout.bytes();
        if size > self.options.max_allocation_bytes || layout.align > self.options.max_alignment
            || !can_fit_tracked_in_chunk_segment(layout) {
            return None;
        }
        let alignment: usize = if layout.align < TRACKING_HEADER_ALIGNMENT {
            TRACKING_HEADER_ALIGNMENT
        } else {
            layout.align
        };
        proof {
            lemma_layout(layout);
            lemma_larger_power(layout.align as int);
            lemma_aligned(self.cursor + TRACKING_HEADER_SIZE, alignment as int);
            lemma_aligned(self.next_start() + TRACKING_HEADER_SIZE, alignment as int);
            lemma_aligned(BUMP_HEADER_SIZE + TRACKING_HEADER_SIZE, alignment as int);
        }
        let start: usize = match align_up(BUMP_HEADER_SIZE + TRACKING_HEADER_SIZE, alignment) {
            None => BUMP_SEGMENT_SIZE,
            Some(start) => start,
        };
        if start > BUMP_SEGMENT_SIZE || size > BUMP_SEGMENT_SIZE - start {
            self.use_up();
            return Some(Placement::NeedChunk);
        }
        let (placement, previous_cursor) = self.place(TRACKING_HEADER_SIZE, alignment, size, layout.size);
        if let Placement::Served { address } = placement {
            let ghost middle = *self;
            self.headers.push(TrackingHeader { address, allocation: TrackingAllocation::none(), previous_cursor });
            proof {
                lemma_same_live(&middle, self);
                assert forall|at: int, index: int|
                    #![trigger self.headers@[at], self.placed@[index]]
                    0 <= at < self.headers@.len() && 0 <= index < self.placed@.len() && self.headers@[at].address
                        == self.placed@[index].address implies self.headers@[at].previous_cursor == self.placed@[index].rewind by {
                    if at < middle.headers@.len() {
                        assert(middle.headers@[at].previous_cursor == middle.placed@[index].rewind);
                    } else {
                        let last = self.placed@.len() - 1;
                        if index < last {
                            assert(self.placed@[index].end <= self.placed@[last].rewind);
                        }
                    }
                }
                assert forall|at: int| 0 <= at < self.headers@.len() implies self.live@.dom().contains(
                    (#[trigger] self.headers@[at]).address as int,
                ) by {
                    if at < middle.headers@.len() {
                        assert(middle.live@.dom().contains(middle.headers@[at].address as int));
                    }
                }
            }
        }
        Some(placement)
    }
}

/// What is left to do once a block or the handle of a bump heap is gone.
pub enum BumpRelease {
    /// The heap is still in use.
    InUse,
    /// Nothing uses the heap any more: it goes to a pool, without these chunks.
    Finished { trimmed: Vec<usize> },
}

/// The number of chunks that a heap keeps from now on, and how often in a row it could have kept
/// fewer.
pub open spec fn adapted(target: int, resets: int, used: int, minimum: int, maximum: int) -> (int, int) {
    if used > target {
        (if used < maximum {
            used
        } else {
            maximum
        }, 0)
    } else if used * 2 <= target && target > minimum {
        if resets + 1 >= RETENTION_DECAY_INTERVAL {
            let reduction = if target / 4 > 1 {
                target / 4
            } else {
                1
            };
            let reduced = if target > reduction {
                target - reduction
            } else {
                0
            };
            let at_least_used = if reduced > used {
                reduced
            } else {
                used
            };
            (if at_least_used > minimum {
                at_least_used
            } else {
                minimum
            }, 0)
        } else {
            (target, resets + 1)
        }
    } else {
        (target, 0)
    }
}

impl BumpState {
    /// Gives the heap another chunk, and goes to it.
    pub fn supply_chunk(&mut self, chunk: usize)
        requires
            old(self).wf(),
            old(self).credits == 0,
            !old(self).has_next(),
            valid_chunk(chunk as int),
            forall|index: int| 0 <= index < old(self).chunks@.len() ==> #[trigger] old(self).chunks@[index] != chunk,
        ensures
            final(self).wf(),
            final(self).supplied(old(self), chunk),
    {
        let ghost before = *self;
        proof {
            lemma_bump_counts(self);
        }
        self.chunks.push(chunk);
        proof {
            let last = before.chunks@.len() as int;
            assert(self.base() == before.base());
            assert forall|index: int| 0 <= index < self.chunks@.len() implies valid_chunk(#[trigger] self.chunks@[index] as int) by {
                if index < last {
                    assert(valid_chunk(before.chunks@[index] as int));
                }
            }
            assert forall|left: int, right: int|
                #![trigger self.chunks@[left], self.chunks@[right]]
                0 <= left < right < self.chunks@.len() implies self.chunks@[left] != self.chunks@[right] by {
                if right < last {
                    assert(before.chunks@[left] != before.chunks@[right]);
                } else {
                    assert(before.chunks@[left] != chunk);
                }
            }
            assert forall|address: int| #[trigger] self.live@.dom().contains(address) implies self.reached(address, self.live@[address]) by {
                assert(before.reached(address, before.live@[address]));
                let at = choose|at: int| #[trigger] before.reached_in(at, address, before.live@[address]);
                assert(self.reached_in(at, address, self.live@[address]));
            }
            assert forall|address: int|
                #[trigger] self.live@.dom().contains(address) && segment_base(address) == self.end - BUMP_SEGMENT_SIZE implies self.is_placed(
                address,
                self.live@[address],
            ) by {
                assert(before.is_placed(address, before.live@[address]));
                let at = choose|at: int|
                    0 <= at < before.placed@.len() && (#[trigger] before.placed@[at]).address == address && before.placed@[at].end
                        == address + before.live@[address];
                assert(self.placed@[at].address == address);
            }
            assert(self.wf());
        }
        let index: usize = self.chunks.len() - 1;
        self.open_segment(index, true);
        let ghost opened = *self;
        self.used_chunk_count = self.used_chunk_count.wrapping_add(1);
        proof {
            lemma_same_live(&opened, self);
        }
    }

    /// Takes the chunks off that the heap has beyond a number of them.
    fn trim_state(&mut self, retained_chunks: usize) -> (trimmed: Vec<usize>)
        requires
            old(self).chunks_ok(),
            retained_chunks >= 1,
        ensures
            final(self).chunks_ok(),
            final(self).chunks@ == kept_chunks(old(self).chunks@, retained_chunks as int),
            trimmed@ == dropped_chunks(old(self).chunks@, retained_chunks as int),
            final(self).address == old(self).address,
            final(self).references == old(self).references,
            final(self).current == old(self).current,
            final(self).cursor == old(self).cursor,
            final(self).end == old(self).end,
            final(self).allocation_count == old(self).allocation_count,
            final(self).used_bytes == old(self).used_bytes,
            final(self).live_requested_bytes == old(self).live_requested_bytes,
            final(self).handle_released == old(self).handle_released,
            final(self).used_chunk_count == old(self).used_chunk_count,
            final(self).retention_target == old(self).retention_target,
            final(self).underutilized_resets == old(self).underutilized_resets,
            final(self).credits == old(self).credits,
            final(self).options == old(self).options,
            final(self).domain == old(self).domain,
            final(self).fallback_heap == old(self).fallback_heap,
            final(self).headers == old(self).headers,
            final(self).live == old(self).live,
    {
        let ghost before = self.chunks@;
        if self.chunks.len() <= retained_chunks {
            return Vec::new();
        }
        let trimmed = self.chunks.split_off(retained_chunks);
        proof {
            assert(self.chunks@ =~= before.take(retained_chunks as int));
            assert(trimmed@ =~= before.skip(retained_chunks as int));
            assert forall|index: int| 0 <= index < self.chunks@.len() implies valid_chunk(#[trigger] self.chunks@[index] as int) by {
                assert(valid_chunk(before[index] as int));
            }
            assert forall|left: int, right: int|
                #![trigger self.chunks@[left], self.chunks@[right]]
                0 <= left < right < self.chunks@.len() implies self.chunks@[left] != self.chunks@[right] by {
                assert(before[left] != before[right]);
            }
        }
        trimmed
    }

    /// Decides how many chunks an unused heap keeps, and takes the others off.
    pub fn adapt_and_trim_state(&mut self) -> (trimmed: Vec<usize>)
        requires
            old(self).chunks_ok(),
            old(self).options.valid(),
            old(self).retention_target >= 1,
        ensures
            final(self).chunks_ok(),
            ({
                let (target, resets) = adapted(
                    old(self).retention_target as int,
                    old(self).underutilized_resets as int,
                    old(self).used_chunk_count as int,
                    old(self).options.retained_chunks as int,
                    old(self).options.max_retained_chunks as int,
                );
                &&& target >= 1
                &&& final(self).retention_target == target
                &&& final(self).underutilized_resets == resets
                &&& final(self).chunks@ == kept_chunks(old(self).chunks@, target)
                &&& trimmed@ == dropped_chunks(old(self).chunks@, target)
            }),
            final(self).address == old(self).address,
            final(self).references == old(self).references,
            final(self).credits == old(self).credits,
            final(self).options == old(self).options,
            final(self).domain == old(self).domain,
            final(self).fallback_heap == old(self).fallback_heap,
            final(self).used_chunk_count == old(self).used_chunk_count,
            final(self).handle_released == old(self).handle_released,
            final(self).live == old(self).live,
            final(self).headers == old(self).headers,
            final(self).allocation_count == old(self).allocation_count,
            final(self).used_bytes == old(self).used_bytes,
            final(self).live_requested_bytes == old(self).live_requested_bytes,
    {
        let minimum: usize = self.options.retained_chunks;
        let maximum: usize = self.options.max_retained_chunks;
        let used: usize = self.used_chunk_count;
        let target: usize = self.retention_target;
        if used > target {
            self.retention_target = if used < maximum {
                used
            } else {
                maximum
            };
            self.underutilized_resets = 0;
        } else if used <= target / 2 && target > minimum {
            if self.underutilized_resets >= RETENTION_DECAY_INTERVAL - 1 {
                let quarter: usize = target / 4;
                let reduction: usize = if quarter > 1 {
                    quarter
                } else {
                    1
                };
                let reduced: usize = target - reduction;
                let at_least_used: usize = if reduced > used {
                    reduced
                } else {
                    used
                };
                self.retention_target = if at_least_used > minimum {
                    at_least_used
                } else {
                    minimum
                };
                self.underutilized_resets = 0;
            } else {
                self.underutilized_resets = self.underutilized_resets + 1;
            }
        } else {
            self.underutilized_resets = 0;
        }
        self.trim_state(self.retention_target)
    }

    /// Ends the use of the heap where no reference is left.
    fn finish_if_unused(&mut self) -> (release: BumpRelease)
        requires
            old(self).wf(),
        ensures
            old(self).references != 0 ==> release is InUse && *final(self) == *old(self),
            old(self).references == 0 ==> finished(old(self), final(self), release) && final(self).pooled(),
            final(self).live == old(self).live,
            final(self).headers == old(self).headers,
            final(self).references == old(self).references,
            final(self).credits == old(self).credits,
            final(self).handle_released == old(self).handle_released,
            final(self).address == old(self).address,
            final(self).domain == old(self).domain,
            final(self).fallback_heap == old(self).fallback_heap,
            final(self).options == old(self).options,
            final(self).allocation_count == old(self).allocation_count,
            final(self).used_bytes == old(self).used_bytes,
            final(self).live_requested_bytes == old(self).live_requested_bytes,
            final(self).used_chunk_count == old(self).used_chunk_count,
    {
        if self.references != 0 {
            return BumpRelease::InUse;
        }
        proof {
            assert(self.live@.dom().len() == 0);
            assert(self.live@ =~= Map::empty());
            if self.headers@.len() > 0 {
                assert(self.live@.dom().contains(self.headers@[0].address as int));
            }
        }
        let trimmed = self.adapt_and_trim_state();
        BumpRelease::Finished { trimmed }
    }

    /// Whether the heap may lie in a pool.
    pub open spec fn pooled(&self) -> bool {
        &&& self.chunks_ok()
        &&& self.options.valid()
        &&& self.retention_target >= 1
        &&& self.references == 0
        &&& self.credits == 0
        &&& self.live@ == Map::<int, int>::empty()
        &&& self.headers@.len() == 0
        &&& self.address != 0
    }

    /// Whether the heap is a new one in the chunk, ready for its first use.
    pub open spec fn new_in(&self, chunk: usize, options: Options, domain: usize, fallback_heap: usize) -> bool {
        &&& self.address == chunk + BUMP_STATE_OFFSET
        &&& self.chunks@ == seq![chunk]
        &&& self.options == options
        &&& self.domain == domain
        &&& self.fallback_heap == fallback_heap
        &&& self.retention_target == options.retained_chunks
        &&& self.references == 1 + SEGMENT_REFERENCE_CREDITS
        &&& self.credits == SEGMENT_REFERENCE_CREDITS
        &&& self.current == 0
        &&& self.cursor == chunk + BUMP_ROOT_SIZE
        &&& self.end == chunk + BUMP_SEGMENT_SIZE
        &&& self.allocation_count == 0
        &&& self.used_bytes == 0
        &&& self.live_requested_bytes == 0
        &&& !self.handle_released
        &&& self.used_chunk_count == 1
        &&& self.live@ == Map::<int, int>::empty()
        &&& self.headers@.len() == 0
    }

    /// Whether the handle of the heap is gone, and with it the references that were not used. The
    /// heap ends where no block of it is in use.
    pub open spec fn let_go_of(&self, before: &BumpState, release: BumpRelease) -> bool {
        &&& self.handle_released
        &&& self.credits == 0
        &&& self.references == before.live@.dom().len()
        &&& self.live == before.live
        &&& self.headers == before.headers
        &&& self.address == before.address
        &&& self.domain == before.domain
        &&& self.fallback_heap == before.fallback_heap
        &&& self.options == before.options
        &&& self.allocation_count == before.allocation_count
        &&& self.used_bytes == before.used_bytes
        &&& self.live_requested_bytes == before.live_requested_bytes
        &&& self.used_chunk_count == before.used_chunk_count
        &&& if before.live@.dom().len() != 0 {
            &&& release is InUse
            &&& self.wf()
            &&& self.chunks == before.chunks
            &&& self.current == before.current
            &&& self.cursor == before.cursor
            &&& self.end == before.end
            &&& self.retention_target == before.retention_target
            &&& self.underutilized_resets == before.underutilized_resets
        } else {
            finished(before, self, release) && self.pooled()
        }
    }

    /// How many chunks the heap keeps for its next use.
    pub open spec fn renewal_target(&self, options: Options) -> int {
        clamped(self.retention_target as int, options.retained_chunks as int, options.max_retained_chunks as int)
    }

    /// The chunks that the heap lets go of for its next use.
    pub open spec fn renewal_drops(&self, options: Options) -> Seq<usize> {
        dropped_chunks(self.chunks@, self.renewal_target(options))
    }

    /// Whether the heap is ready for its next use: it starts again in its first chunk, and counts nothing.
    pub open spec fn renewed(&self, before: &BumpState, options: Options) -> bool {
        &&& self.retention_target == before.renewal_target(options)
        &&& self.chunks@ == kept_chunks(before.chunks@, before.renewal_target(options))
        &&& self.options == options
        &&& self.references == 1 + SEGMENT_REFERENCE_CREDITS
        &&& self.credits == SEGMENT_REFERENCE_CREDITS
        &&& self.current == 0
        &&& self.cursor == before.chunks@[0] + BUMP_ROOT_SIZE
        &&& self.end == before.chunks@[0] + BUMP_SEGMENT_SIZE
        &&& self.allocation_count == 0
        &&& self.used_bytes == 0
        &&& self.live_requested_bytes == 0
        &&& !self.handle_released
        &&& self.used_chunk_count == 1
        &&& self.underutilized_resets == before.underutilized_resets
        &&& self.address == before.address
        &&& self.domain == before.domain
        &&& self.fallback_heap == before.fallback_heap
        &&& self.live@ == Map::<int, int>::empty()
        &&& self.headers@.len() == 0
    }

    /// Takes a block back. Where it is the last one that was cut and the thread uses the heap,
    /// the cursor goes back to `rewind_to`.
    fn finish_deallocation(
        &mut self,
        address: usize,
        bytes: usize,
        requested_bytes: usize,
        rewind_to: usize,
        reclaim_tail: bool,
    ) -> (release: BumpRelease)
        requires
            old(self).wf(),
            old(self).live@.dom().contains(address as int),
            old(self).live@[address as int] == bytes,
            forall|at: int| 0 <= at < old(self).headers@.len() ==> (#[trigger] old(self).headers@[at]).address != address,
            rewind_to == address || forall|index: int|
                0 <= index < old(self).placed@.len() && (#[trigger] old(self).placed@[index]).address == address ==> rewind_to
                    == old(self).placed@[index].rewind,
        ensures
            freed(old(self), final(self), release, address as int, bytes as int, requested_bytes, rewind_to, reclaim_tail),
            final(self).headers == old(self).headers,
            release is InUse ==> final(self).wf(),
            release is Finished ==> final(self).pooled(),
    {
        let ghost before = *self;
        proof {
            assert(before.reached(address as int, before.live@[address as int]));
            let at = choose|at: int| #[trigger] before.reached_in(at, address as int, before.live@[address as int]);
            lemma_bases(address as int);
            assert(valid_chunk(before.chunks@[at] as int));
        }
        self.live_requested_bytes = self.live_requested_bytes.wrapping_sub(requested_bytes);
        let reclaimed: bool = reclaim_tail && self.cursor == address + bytes;
        self.live = Ghost(self.live@.remove(address as int));
        if reclaimed {
            proof {
                lemma_tail(&before, address as int, bytes as int);
            }
            self.cursor = rewind_to;
            self.used_bytes = self.used_bytes.wrapping_sub(bytes);
            self.credits = self.credits + 1;
            self.placed = Ghost(self.placed@.drop_last());
            proof {
                lemma_freed(&before, self, address as int);
            }
            return BumpRelease::InUse;
        }
        self.references = self.references - 1;
        proof {
            lemma_freed(&before, self, address as int);
        }
        self.finish_if_unused()
    }

    /// Takes a block back that no event log knows. What was skipped in front of it to align it
    /// stays skipped.
    pub fn deallocate(&mut self, address: usize, layout: Layout, reclaim_tail: bool) -> (release: BumpRelease)
        requires
            old(self).wf(),
            layout.wf(),
            old(self).live@.dom().contains(address as int),
            old(self).live@[address as int] == layout.spec_bytes(),
            forall|at: int| 0 <= at < old(self).headers@.len() ==> (#[trigger] old(self).headers@[at]).address != address,
        ensures
            freed(old(self), final(self), release, address as int, layout.spec_bytes(), layout.size, address, reclaim_tail),
            final(self).headers == old(self).headers,
            release is InUse ==> final(self).wf(),
            release is Finished ==> final(self).pooled(),
    {
        let size: usize = layout.bytes();
        self.finish_deallocation(address, size, layout.size, address, reclaim_tail)
    }

    /// Checks whether the heap keeps a header for the block.
    pub fn keeps_header(&self, address: usize) -> (kept: bool)
        ensures
            kept <==> exists|at: int| 0 <= at < self.headers@.len() && (#[trigger] self.headers@[at]).address == address,
    {
        let mut at: usize = 0;
        while at < self.headers.len()
            invariant
                at <= self.headers@.len(),
                forall|before: int| 0 <= before < at ==> (#[trigger] self.headers@[before]).address != address,
            decreases self.headers@.len() - at,
        {
            if self.headers[at].address == address {
                return true;
            }
            at += 1;
        }
        false
    }

    /// Where the header of a block stands among the headers.
    fn find_header(&self, address: usize) -> (at: usize)
        requires
            self.wf(),
            exists|at: int| 0 <= at < self.headers@.len() && (#[trigger] self.headers@[at]).address == address,
        ensures
            at == header_of(self.headers@, address),
            at < self.headers@.len(),
            self.headers@[at as int].address == address,
    {
        let mut at: usize = 0;
        let ghost target = header_of(self.headers@, address);
        let length: usize = self.headers.len();
        while self.headers[at].address != address
            invariant
                self.wf(),
                0 <= target < self.headers@.len(),
                self.headers@[target].address == address,
                at <= target,
                length == self.headers@.len(),
            decreases self.headers@.len() - at,
        {
            assert(at < target);
            at = at + 1;
        }
        proof {
            if at < target {
                assert(self.headers@[at as int].address != self.headers@[target].address);
            }
        }
        at
    }

    /// Writes down which event a block belongs to.
    pub fn set_tracking(&mut self, address: usize, allocation: TrackingAllocation)
        requires
            old(self).wf(),
            exists|at: int| 0 <= at < old(self).headers@.len() && (#[trigger] old(self).headers@[at]).address == address,
        ensures
            final(self).wf(),
            final(self).same_place(old(self)),
            final(self).credits == old(self).credits,
            final(self).references == old(self).references,
            ({
                let at = header_of(old(self).headers@, address);
                final(self).headers@ == old(self).headers@.update(at, TrackingHeader { allocation, ..old(self).headers@[at] })
            }),
    {
        let ghost before = *self;
        let at: usize = self.find_header(address);
        let header = self.headers[at];
        self.headers.set(at, TrackingHeader { allocation, ..header });
        proof {
            lemma_same_live(&before, self);
            assert forall|other: int| 0 <= other < self.headers@.len() implies (#[trigger] self.headers@[other]).address
                == before.headers@[other].address && self.headers@[other].previous_cursor == before.headers@[other].previous_cursor by {}
            assert(self.headers_ok());
        }
    }

    /// Takes a block back that an event log knows. Returns what the log keeps of it too, and
    /// whether the handle was gone before.
    pub fn deallocate_tracked(&mut self, address: usize, layout: Layout, reclaim_tail: bool) -> (released: (
        TrackingAllocation,
        bool,
        BumpRelease,
    ))
        requires
            old(self).wf(),
            layout.wf(),
            old(self).live@.dom().contains(address as int),
            old(self).live@[address as int] == layout.spec_bytes(),
            exists|at: int| 0 <= at < old(self).headers@.len() && (#[trigger] old(self).headers@[at]).address == address,
        ensures
            ({
                let at = header_of(old(self).headers@, address);
                let header = old(self).headers@[at];
                &&& released.0 == header.allocation
                &&& released.1 == old(self).handle_released
                &&& freed(
                    old(self),
                    final(self),
                    released.2,
                    address as int,
                    layout.spec_bytes(),
                    layout.size,
                    header.previous_cursor,
                    reclaim_tail,
                )
                &&& final(self).headers@ == old(self).headers@.remove(at)
            }),
            released.2 is InUse ==> final(self).wf(),
            released.2 is Finished ==> final(self).pooled(),
    {
        let ghost before = *self;
        let at: usize = self.find_header(address);
        let header = self.headers.remove(at);
        let size: usize = layout.bytes();
        proof {
            lemma_same_live(&before, self);
            assert forall|other: int| 0 <= other < self.headers@.len() implies exists|old_at: int|
                0 <= old_at < before.headers@.len() && old_at != at && #[trigger] self.headers@[other] == before.headers@[old_at] by {
                let old_at = if other < at {
                    other
                } else {
                    other + 1
                };
                assert(self.headers@[other] == before.headers@[old_at]);
            }
            assert forall|left: int, right: int|
                #![trigger self.headers@[left], self.headers@[right]]
                0 <= left < right < self.headers@.len() implies self.headers@[left].address != self.headers@[right].address by {
                let old_left = if left < at {
                    left
                } else {
                    left + 1
                };
                let old_right = if right < at {
                    right
                } else {
                    right + 1
                };
                assert(before.headers@[old_left].address != before.headers@[old_right].address);
            }
            assert forall|other: int, index: int|
                #![trigger self.headers@[other], self.placed@[index]]
                0 <= other < self.headers@.len() && 0 <= index < self.placed@.len() && self.headers@[other].address
                    == self.placed@[index].address implies self.headers@[other].previous_cursor == self.placed@[index].rewind by {
                let old_at = if other < at {
                    other
                } else {
                    other + 1
                };
                assert(self.headers@[other] == before.headers@[old_at]);
            }
            assert forall|other: int| 0 <= other < self.headers@.len() implies (#[trigger] self.headers@[other]).address != address by {
                let old_at = if other < at {
                    other
                } else {
                    other + 1
                };
                assert(self.headers@[other] == before.headers@[old_at]);
                if old_at < at {
                    assert(before.headers@[old_at].address != before.headers@[at as int].address);
                } else {
                    assert(before.headers@[at as int].address != before.headers@[old_at].address);
                }
            }
        }
        let handle_released: bool = self.handle_released;
        let release = self.finish_deallocation(address, size, layout.size, header.previous_cursor, reclaim_tail);
        (header.allocation, handle_released, release)
    }

    /// Gives the handle up: blocks that are in use keep the heap until they are freed.
    pub fn release_handle(&mut self) -> (release: BumpRelease)
        requires
            old(self).wf(),
            !old(self).handle_released,
        ensures
            final(self).let_go_of(old(self), release),
    {
        let ghost before = *self;
        self.release_unused_references();
        self.handle_released = true;
        self.references = self.references - 1;
        proof {
            lemma_same_live(&before, self);
        }
        self.finish_if_unused()
    }

    /// A bump heap in its root chunk that is not in use yet.
    pub fn create(options: Options, domain: usize, chunk: usize, fallback_heap: usize) -> (created: CreatedBump)
        requires
            options.valid(),
            chunk != 0 ==> valid_chunk(chunk as int),
        ensures
            match created {
                CreatedBump::NoChunk => chunk == 0,
                CreatedBump::NoFallback { release } => chunk != 0 && fallback_heap == 0 && release == chunk,
                CreatedBump::Created { state } => {
                    &&& chunk != 0 && fallback_heap != 0
                    &&& state.pooled()
                    &&& state.address == chunk + BUMP_STATE_OFFSET
                    &&& state.chunks@ == seq![chunk]
                    &&& state.used_chunk_count == 1
                    &&& state.retention_target == options.retained_chunks
                    &&& state.underutilized_resets == 0
                    &&& state.options == options
                    &&& state.domain == domain
                    &&& state.fallback_heap == fallback_heap
                    &&& !state.handle_released
                },
            },
    {
        if chunk == 0 {
            return CreatedBump::NoChunk;
        }
        if fallback_heap == 0 {
            return CreatedBump::NoFallback { release: chunk };
        }
        let mut chunks: Vec<usize> = Vec::new();
        chunks.push(chunk);
        let state = BumpState {
            address: chunk + BUMP_STATE_OFFSET,
            references: 0,
            chunks,
            current: 0,
            cursor: 0,
            end: chunk + BUMP_CHUNK_SIZE,
            allocation_count: 0,
            used_bytes: 0,
            live_requested_bytes: 0,
            handle_released: false,
            used_chunk_count: 1,
            retention_target: options.retained_chunks,
            underutilized_resets: 0,
            credits: 0,
            options,
            domain,
            fallback_heap,
            headers: Vec::new(),
            live: Ghost(Map::empty()),
            placed: Ghost(Seq::empty()),
        };
        CreatedBump::Created { state }
    }

    /// Takes a heap that nothing uses into use, under these options. Returns the chunks that it
    /// does not keep.
    pub fn reset_state(&mut self, options: Options) -> (trimmed: Vec<usize>)
        requires
            old(self).pooled(),
            old(self).fallback_heap != 0,
            options.valid(),
        ensures
            final(self).wf(),
            final(self).renewed(old(self), options),
            trimmed@ == old(self).renewal_drops(options),
    {
        let target: usize = if self.retention_target < options.retained_chunks {
            options.retained_chunks
        } else if self.retention_target > options.max_retained_chunks {
            options.max_retained_chunks
        } else {
            self.retention_target
        };
        let trimmed = self.trim_state(target);
        let root: usize = self.chunks[0];
        assert(valid_chunk(self.chunks@[0] as int));
        self.options = options;
        self.retention_target = target;
        self.current = 0;
        self.cursor = root + BUMP_ROOT_SIZE;
        self.end = root + BUMP_SEGMENT_SIZE;
        self.allocation_count = 0;
        self.used_bytes = 0;
        self.live_requested_bytes = 0;
        self.handle_released = false;
        self.used_chunk_count = 1;
        self.references = 1 + SEGMENT_REFERENCE_CREDITS;
        self.credits = SEGMENT_REFERENCE_CREDITS;
        self.placed = Ghost(Seq::empty());
        trimmed
    }

    /// The heap that serves what the bump heap does not, handed over.
    pub fn take_fallback_heap(&mut self) -> (heap: usize)
        requires
            old(self).pooled(),
        ensures
            heap == old(self).fallback_heap,
            *final(self) == (BumpState { fallback_heap: 0, ..*old(self) }),
            final(self).pooled(),
    {
        let heap: usize = self.fallback_heap;
        self.fallback_heap = 0;
        heap
    }

    /// Gives the heap one that serves what it does not, where it has none. `reply` is the heap
    /// that was made for it, or 0. Returns whether it has one.
    pub fn ensure_fallback_heap(&mut self, reply: usize) -> (present: bool)
        requires
            old(self).pooled(),
        ensures
            present == (old(self).fallback_heap != 0 || reply != 0),
            *final(self) == (BumpState {
                fallback_heap: (if old(self).fallback_heap != 0 {
                    old(self).fallback_heap
                } else {
                    reply
                }),
                ..*old(self)
            }),
            final(self).pooled(),
    {
        if self.fallback_heap != 0 {
            return true;
        }
        if reply == 0 {
            return false;
        }
        self.fallback_heap = reply;
        true
    }

    /// What the heap holds.
    pub fn usage(&self) -> (usage: BumpUsage)
        requires
            self.wf(),
            !self.handle_released,
        ensures
            usage.committed_bytes == self.chunks@.len() * BUMP_CHUNK_SIZE,
            usage.used_bytes == self.used_bytes,
            usage.allocation_count == self.allocation_count,
            usage.live_allocations == self.live@.dom().len(),
            usage.live_requested_bytes == self.live_requested_bytes,
            usage.chunk_count == self.chunks@.len(),
    {
        proof {
            lemma_bump_counts(self);
        }
        BumpUsage {
            committed_bytes: self.chunks.len() * BUMP_CHUNK_SIZE,
            used_bytes: self.used_bytes,
            allocation_count: self.allocation_count,
            live_allocations: self.references - 1 - self.credits,
            live_requested_bytes: self.live_requested_bytes,
            chunk_count: self.chunks.len(),
        }
    }
}

/// Where the state of a bump heap lies in its root chunk.
pub const BUMP_STATE_OFFSET: usize = 64;

#[derive(Clone, Copy, Debug, PartialEq, Eq, Structural)]
pub struct BumpUsage {
    pub committed_bytes: usize,
    pub used_bytes: usize,
    pub allocation_count: usize,
    pub live_allocations: usize,
    pub live_requested_bytes: usize,
    pub chunk_count: usize,
}

/// What became of an attempt to make a bump heap.
pub enum CreatedBump {
    NoChunk,
    /// The chunk that was mapped for the heap goes back.
    NoFallback { release: usize },
    Created { state: BumpState },
}

pub open spec fn clamped(value: int, low: int, high: int) -> int {
    if value < low {
        low
    } else if value > high {
        high
    } else {
        value
    }
}

pub open spec fn kept_chunks(chunks: Seq<usize>, count: int) -> Seq<usize> {
    if chunks.len() <= count {
        chunks
    } else {
        chunks.take(count)
    }
}

pub open spec fn dropped_chunks(chunks: Seq<usize>, count: int) -> Seq<usize> {
    if chunks.len() <= count {
        Seq::empty()
    } else {
        chunks.skip(count)
    }
}

/// Where the header of the block stands.
pub open spec fn header_of(headers: Seq<TrackingHeader>, address: usize) -> int {
    choose|at: int| 0 <= at < headers.len() && (#[trigger] headers[at]).address == address
}

/// What the end of a heap's use leaves.
pub open spec fn finished(before: &BumpState, after: &BumpState, release: BumpRelease) -> bool {
    let (target, resets) = adapted(
        before.retention_target as int,
        before.underutilized_resets as int,
        before.used_chunk_count as int,
        before.options.retained_chunks as int,
        before.options.max_retained_chunks as int,
    );
    &&& release is Finished
    &&& after.retention_target == target
    &&& after.underutilized_resets == resets
    &&& after.chunks@ == kept_chunks(before.chunks@, target)
    &&& release->trimmed@ == dropped_chunks(before.chunks@, target)
    &&& after.address == before.address
    &&& after.options == before.options
    &&& after.domain == before.domain
    &&& after.fallback_heap == before.fallback_heap
    &&& after.used_chunk_count == before.used_chunk_count
}

/// What freeing a block leaves.
pub open spec fn freed(
    before: &BumpState,
    after: &BumpState,
    release: BumpRelease,
    address: int,
    bytes: int,
    requested_bytes: usize,
    rewind_to: usize,
    reclaim_tail: bool,
) -> bool {
    &&& after.live@ == before.live@.remove(address)
    &&& if reclaim_tail && before.cursor == address + bytes {
        &&& release is InUse
        &&& after.same_owner(before)
        &&& after.chunks == before.chunks
        &&& after.current == before.current
        &&& after.end == before.end
        &&& after.cursor == rewind_to
        &&& after.allocation_count == before.allocation_count
        &&& after.used_bytes == before.used_bytes.wrapping_sub(bytes as usize)
        &&& after.live_requested_bytes == before.live_requested_bytes.wrapping_sub(requested_bytes)
        &&& after.used_chunk_count == before.used_chunk_count
        &&& after.credits == before.credits + 1
        &&& after.references == before.references
    } else {
        &&& after.references == before.references - 1
        &&& after.credits == before.credits
        &&& after.allocation_count == before.allocation_count
        &&& after.used_bytes == before.used_bytes
        &&& after.live_requested_bytes == before.live_requested_bytes.wrapping_sub(requested_bytes)
        &&& if before.references == 1 {
            finished(before, after, release)
        } else {
            &&& release is InUse
            &&& after.same_owner(before)
            &&& after.chunks == before.chunks
            &&& after.current == before.current
            &&& after.end == before.end
            &&& after.cursor == before.cursor
            &&& after.used_chunk_count == before.used_chunk_count
        }
    }
}

/// A block that ends at the cursor is the last one that the cursor has passed.
proof fn lemma_tail(state: &BumpState, address: int, bytes: int)
    requires
        state.wf(),
        state.live@.dom().contains(address),
        state.live@[address] == bytes,
        state.cursor == address + bytes,
    ensures
        state.placed@.len() > 0,
        state.placed@.last().address == address,
        state.placed@.last().end == state.cursor,
{
    assert(state.reached(address, bytes));
    let at = choose|at: int| #[trigger] state.reached_in(at, address, bytes);
    lemma_bases(address);
    assert(valid_chunk(state.chunks@[state.current as int] as int));
    lemma_chunk_halves(state.base());
    let current = state.end - BUMP_SEGMENT_SIZE;
    assert(segment_base(current) == current);
    if segment_base(address) != current {
        lemma_segments_apart(address, current);
    }
    assert(state.is_placed(address, bytes));
    let index = choose|index: int|
        0 <= index < state.placed@.len() && (#[trigger] state.placed@[index]).address == address && state.placed@[index].end == address
            + bytes;
    let last = state.placed@.len() - 1;
    if index < last {
        assert(state.placed@[index].end <= state.placed@[last].rewind);
        assert(state.placed@[last].end <= state.cursor);
    }
}

proof fn lemma_freed(before: &BumpState, after: &BumpState, address: int)
    requires
        before.wf(),
        before.live@.dom().contains(address),
        forall|at: int| 0 <= at < before.headers@.len() ==> (#[trigger] before.headers@[at]).address != address,
        after.same_owner(before),
        after.chunks == before.chunks,
        after.current == before.current,
        after.end == before.end,
        after.headers == before.headers,
        after.live@ == before.live@.remove(address),
        ({
            ||| after.placed == before.placed && after.cursor == before.cursor && after.credits == before.credits && after.references
                == before.references - 1
            ||| {
                &&& before.placed@.len() > 0
                &&& before.placed@.last().address == address
                &&& before.placed@.last().end == before.cursor
                &&& before.placed@.last().rewind <= after.cursor <= address
                &&& after.placed@ == before.placed@.drop_last()
                &&& after.credits == before.credits + 1
                &&& after.references == before.references
            }
        }),
    ensures
        after.wf(),
{
    let last = before.placed@.len() - 1;
    let dropped = after.placed@.len() < before.placed@.len();
    assert forall|index: int| 0 <= index < after.placed@.len() implies after.placed@[index] == before.placed@[index] by {}
    assert forall|index: int|
        #![trigger after.placed@[index]]
        0 <= index < after.placed@.len() implies after.start() <= after.placed@[index].rewind <= after.placed@[index].address
        < after.placed@[index].end <= after.cursor by {
        if dropped {
            assert(before.placed@[index].end <= before.placed@[last].rewind);
        }
    }
    assert forall|left: int, right: int|
        #![trigger after.placed@[left], after.placed@[right]]
        0 <= left < right < after.placed@.len() implies after.placed@[left].end <= after.placed@[right].rewind by {
        assert(before.placed@[left].end <= before.placed@[right].rewind);
    }
    assert forall|other: int| #[trigger] after.live@.dom().contains(other) implies after.reached(other, after.live@[other]) by {
        assert(before.reached(other, before.live@[other]));
        let at = choose|at: int| #[trigger] before.reached_in(at, other, before.live@[other]);
        assert(after.reached_in(at, other, after.live@[other]));
    }
    assert forall|left: int, right: int|
        #![trigger after.live@[left], after.live@[right]]
        after.live@.dom().contains(left) && after.live@.dom().contains(right) && left < right implies left + after.live@[left] <= right by {
        assert(before.live@[left] == after.live@[left] && before.live@[right] == after.live@[right]);
    }
    assert forall|other: int|
        #[trigger] after.live@.dom().contains(other) && segment_base(other) == after.end - BUMP_SEGMENT_SIZE implies after.is_placed(
        other,
        after.live@[other],
    ) by {
        assert(before.is_placed(other, before.live@[other]));
        let position = choose|position: int|
            0 <= position < before.placed@.len() && (#[trigger] before.placed@[position]).address == other
                && before.placed@[position].end == other + before.live@[other];
        if dropped {
            assert(position != last);
        }
        assert(after.placed@[position] == before.placed@[position]);
    }
    assert forall|at: int| 0 <= at < after.headers@.len() implies after.live@.dom().contains(
        (#[trigger] after.headers@[at]).address as int,
    ) by {
        assert(before.headers@[at].address != address);
    }
    assert forall|at: int, index: int|
        #![trigger after.headers@[at], after.placed@[index]]
        0 <= at < after.headers@.len() && 0 <= index < after.placed@.len() && after.headers@[at].address
            == after.placed@[index].address implies after.headers@[at].previous_cursor == after.placed@[index].rewind by {
        assert(before.headers@[at].previous_cursor == before.placed@[index].rewind);
    }
    assert(before.placed@.len() > 0 ==> before.placed@[last].end <= before.cursor);
}

/// Freeing the block that was cut last takes the cutting back: the cursor is where the block
/// was, and every count but that of the cuttings is as before.
pub proof fn law_freeing_the_last_block_rewinds(
    before: BumpState,
    middle: BumpState,
    after: BumpState,
    release: BumpRelease,
    address: usize,
    bytes: int,
    requested_bytes: usize,
    rewind_to: usize,
)
    requires
        took(&before, &middle, address, bytes, requested_bytes),
        freed(&middle, &after, release, address as int, bytes, requested_bytes, rewind_to, true),
    ensures
        release is InUse,
        after.cursor == rewind_to,
        after.used_bytes == before.used_bytes,
        after.live_requested_bytes == before.live_requested_bytes,
        after.credits == before.credits,
        after.references == before.references,
        after.live@ == before.live@,
        after.end == before.end,
        after.current == before.current,
{
    assert(after.live@ =~= before.live@);
}

/// How long the blocks in use are, all together.
pub open spec fn live_bytes(live: Map<int, int>) -> int
    decreases live.dom().len(),
    when live.dom().finite()
{
    if live.dom().len() == 0 {
        0
    } else {
        let address = live.dom().choose();
        live[address] + live_bytes(live.remove(address))
    }
}

proof fn lemma_live_bytes(live: Map<int, int>, address: int)
    requires
        live.dom().finite(),
        live.dom().contains(address),
    ensures
        live_bytes(live) == live[address] + live_bytes(live.remove(address)),
    decreases live.dom().len(),
{
    let chosen = live.dom().choose();
    assert(live.remove(chosen).dom() =~= live.dom().remove(chosen));
    assert(live.remove(address).dom() =~= live.dom().remove(address));
    if chosen != address {
        lemma_live_bytes(live.remove(chosen), address);
        lemma_live_bytes(live.remove(address), chosen);
        assert(live.remove(chosen).remove(address) =~= live.remove(address).remove(chosen));
    }
}

proof fn lemma_wrapped_sum(count: int, sum: int, bytes: int)
    requires
        0 <= bytes <= usize::MAX,
        count == sum % (usize::MAX + 1),
    ensures
        (if count + bytes > usize::MAX {
            count + bytes - (usize::MAX + 1)
        } else {
            count + bytes
        }) == (sum + bytes) % (usize::MAX + 1),
        (if count - bytes < 0 {
            count - bytes + (usize::MAX + 1)
        } else {
            count - bytes
        }) == (sum - bytes) % (usize::MAX + 1),
{
    let modulus = usize::MAX + 1;
    vstd::arithmetic::div_mod::lemma_add_mod_noop(sum, bytes, modulus);
    vstd::arithmetic::div_mod::lemma_sub_mod_noop(sum, bytes, modulus);
    vstd::arithmetic::div_mod::lemma_small_mod(bytes as nat, modulus as nat);
    vstd::arithmetic::div_mod::lemma_mod_bound(sum, modulus);
    if count + bytes < modulus {
        vstd::arithmetic::div_mod::lemma_small_mod((count + bytes) as nat, modulus as nat);
    } else {
        vstd::arithmetic::div_mod::lemma_mod_sub_multiples_vanish(count + bytes, modulus);
        vstd::arithmetic::div_mod::lemma_small_mod((count + bytes - modulus) as nat, modulus as nat);
    }
    if count - bytes >= 0 {
        vstd::arithmetic::div_mod::lemma_small_mod((count - bytes) as nat, modulus as nat);
    } else {
        vstd::arithmetic::div_mod::lemma_mod_add_multiples_vanish(count - bytes, modulus);
        vstd::arithmetic::div_mod::lemma_small_mod((count - bytes + modulus) as nat, modulus as nat);
    }
}

impl BumpState {
    /// Whether the heap counts the bytes of its blocks in use, but for how often the count wrapped.
    pub open spec fn counts_live(&self) -> bool {
        self.live_requested_bytes == live_bytes(self.live@) % (usize::MAX + 1)
    }
}

/// A bump heap counts the bytes of its blocks in use from the start, and from every renewal.
pub proof fn law_bump_heaps_start_with_no_live_bytes(
    state: BumpState,
    before: BumpState,
    chunk: usize,
    options: Options,
    domain: usize,
    fallback_heap: usize,
)
    requires
        state.new_in(chunk, options, domain, fallback_heap) || state.renewed(&before, options),
    ensures
        state.counts_live(),
        state.live_requested_bytes == 0,
{
    assert(state.live@.dom() =~= Set::<int>::empty());
    vstd::arithmetic::div_mod::lemma_small_mod(0, (usize::MAX + 1) as nat);
}

/// A bump heap that counts the bytes of its blocks in use counts them still once it has placed one that
/// was asked for with all its bytes, or turned it away.
pub proof fn law_placing_counts_live_bytes(
    before: BumpState,
    after: BumpState,
    placement: Placement,
    header: int,
    alignment: int,
    requested_bytes: usize,
)
    requires
        before.wf(),
        before.counts_live(),
        before.placing(&after, placement, header, alignment, requested_bytes as int, requested_bytes),
    ensures
        after.counts_live(),
{
    if let Placement::Served { address } = placement {
        let bytes = requested_bytes as int;
        assert(after.live@ == before.live@.insert(address as int, bytes));
        assert(after.live@.dom() =~= before.live@.dom().insert(address as int));
        assert(after.live@.remove(address as int) =~= before.live@);
        lemma_live_bytes(after.live@, address as int);
        lemma_wrapped_sum(before.live_requested_bytes as int, live_bytes(before.live@), bytes);
    }
}

/// A bump heap that counts the bytes of its blocks in use counts them still once one was freed that was
/// asked for with all its bytes.
pub proof fn law_freeing_counts_live_bytes(
    before: BumpState,
    after: BumpState,
    release: BumpRelease,
    address: int,
    requested_bytes: usize,
    rewind_to: usize,
    reclaim_tail: bool,
)
    requires
        before.wf(),
        before.counts_live(),
        before.live@.dom().contains(address),
        before.live@[address] == requested_bytes,
        freed(&before, &after, release, address, requested_bytes as int, requested_bytes, rewind_to, reclaim_tail),
    ensures
        after.counts_live(),
{
    lemma_live_bytes(before.live@, address);
    lemma_wrapped_sum(before.live_requested_bytes as int, live_bytes(before.live@), requested_bytes as int);
}

/// A bump heap that counts the bytes of its blocks in use counts them still once it got a chunk or its
/// handle is gone.
pub proof fn law_chunks_and_handles_keep_the_count(before: BumpState, after: BumpState, chunk: usize, release: BumpRelease)
    requires
        before.counts_live(),
        after.supplied(&before, chunk) || after.let_go_of(&before, release),
    ensures
        after.counts_live(),
{
}

/// How many chunks a heap keeps follows its demand: never fewer than its options ask for and never
/// more than they allow. It grows at once to what was used, and shrinks by a quarter at most, after
/// so many uses in a row that took no more than half of it.
pub proof fn law_retention_follows_demand(before: BumpState, after: BumpState, release: BumpRelease)
    requires
        before.options.valid(),
        before.options.retained_chunks <= before.retention_target <= before.options.max_retained_chunks,
        finished(&before, &after, release),
    ensures
        before.options.retained_chunks <= after.retention_target <= before.options.max_retained_chunks,
        after.chunks@.len() <= after.retention_target,
        before.used_chunk_count > before.retention_target ==> after.retention_target == if before.used_chunk_count
            < before.options.max_retained_chunks {
            before.used_chunk_count
        } else {
            before.options.max_retained_chunks
        },
        after.retention_target < before.retention_target ==> {
            &&& before.used_chunk_count * 2 <= before.retention_target
            &&& before.underutilized_resets + 1 >= RETENTION_DECAY_INTERVAL
            &&& after.retention_target == before.retention_target - 1 || before.retention_target - after.retention_target
                <= before.retention_target / 4
        },
{
}

/// A heap that is used again keeps no fewer chunks than its new options ask for and no more than they
/// allow.
pub proof fn law_renewal_keeps_to_the_options(before: BumpState, after: BumpState, options: Options)
    requires
        options.valid(),
        after.renewed(&before, options),
    ensures
        options.retained_chunks <= after.retention_target <= options.max_retained_chunks,
        after.chunks@.len() <= after.retention_target,
{
}

/// Blocks of a bump heap that are in use never share a byte.
pub proof fn law_bump_blocks_lie_apart(state: BumpState, left: int, right: int)
    requires
        state.wf(),
        state.live@.dom().contains(left),
        state.live@.dom().contains(right),
        left != right,
    ensures
        left + state.live@[left] <= right || right + state.live@[right] <= left,
{
    if left < right {
        assert(left + state.live@[left] <= right);
    } else {
        assert(right + state.live@[right] <= left);
    }
}

/// No multiple of the alignment lies between an address and what it is rounded up to.
pub proof fn lemma_aligned_lowest(address: int, alignment: int, other: int)
    requires
        alignment > 0,
        other % alignment == 0,
        address <= other,
    ensures
        aligned(address, alignment) <= other,
{
    lemma_aligned(address, alignment);
    let low = aligned(address, alignment);
    vstd::arithmetic::div_mod::lemma_fundamental_div_mod(low, alignment);
    vstd::arithmetic::div_mod::lemma_fundamental_div_mod(other, alignment);
    if other < low {
        assert(low / alignment <= other / alignment) by (nonlinear_arith)
            requires
                alignment > 0,
                low == alignment * (low / alignment),
                other == alignment * (other / alignment),
                low < other + alignment,
        ;
        assert(low <= other) by (nonlinear_arith)
            requires
                alignment > 0,
                low == alignment * (low / alignment),
                other == alignment * (other / alignment),
                low / alignment <= other / alignment,
        ;
    }
}

/// Whether a block lies at the address, at a multiple of its alignment, from `start` to before `end`.
pub open spec fn lies_at(address: int, alignment: int, bytes: int, start: int, end: int) -> bool {
    start <= address && address % alignment == 0 && address + bytes <= end
}

/// Whether a block can lie anywhere from `start` to before `end`.
pub open spec fn has_room(alignment: int, bytes: int, start: int, end: int) -> bool {
    exists|address: int| #[trigger] lies_at(address, alignment, bytes, start, end)
}

/// Whether the address is the lowest one that a block can lie at.
pub open spec fn lowest_at(address: int, alignment: int, bytes: int, start: int, end: int) -> bool {
    &&& lies_at(address, alignment, bytes, start, end)
    &&& forall|other: int| #[trigger] lies_at(other, alignment, bytes, start, end) ==> address <= other
}

/// There is room for a block where the first multiple of its alignment leaves enough.
proof fn lemma_room(alignment: int, bytes: int, start: int, end: int)
    requires
        alignment > 0,
    ensures
        has_room(alignment, bytes, start, end) <==> aligned(start, alignment) + bytes <= end,
        has_room(alignment, bytes, start, end) ==> lowest_at(aligned(start, alignment), alignment, bytes, start, end),
{
    lemma_aligned(start, alignment);
    assert forall|other: int| #[trigger] lies_at(other, alignment, bytes, start, end) implies aligned(start, alignment) <= other by {
        lemma_aligned_lowest(start, alignment, other);
    }
    if aligned(start, alignment) + bytes <= end {
        assert(lies_at(aligned(start, alignment), alignment, bytes, start, end));
    }
}

/// A bump heap serves a layout exactly where its bytes and its alignment are within the heap's options
/// and it can lie behind the header of half a chunk that is empty. A request for nothing takes a byte.
pub proof fn law_bump_heaps_refuse_only_what_they_cannot_hold(state: BumpState, layout: Layout)
    requires
        layout.wf(),
    ensures
        state.serves(layout) <==> {
            &&& layout.size <= state.options.max_allocation_bytes
            &&& 1 <= state.options.max_allocation_bytes
            &&& layout.align <= state.options.max_alignment
            &&& has_room(
                layout.align as int,
                if layout.size == 0 {
                    1
                } else {
                    layout.size as int
                },
                16,
                32768,
            )
        },
{
    lemma_layout(layout);
    lemma_room(layout.align as int, layout.spec_bytes(), 16, 32768);
}

/// A bump heap serves a layout to be known to an event log exactly where its bytes and its alignment are
/// within the heap's options and half a chunk is as long as the block, what the log needs in front of it,
/// and what aligning the block can take.
pub proof fn law_logged_blocks_are_refused_only_for_their_length(state: BumpState, layout: Layout)
    requires
        layout.wf(),
    ensures
        state.serves_logged(layout) <==> {
            &&& layout.size <= state.options.max_allocation_bytes
            &&& 1 <= state.options.max_allocation_bytes
            &&& layout.align <= state.options.max_alignment
            &&& (if layout.size == 0 {
                1
            } else {
                layout.size as int
            }) + 40 + (if layout.align < 8 {
                8
            } else {
                layout.align as int
            }) - 1 <= 32 * 1024
        },
{
}

/// Whether the heap has a segment after the current one: the second half of the current chunk, or the
/// first half of the chunk behind it.
pub open spec fn goes_on(state: &BumpState) -> bool {
    state.end == state.chunks@[state.current as int] + 32 * 1024 || state.current + 1 < state.chunks@.len()
}

/// Where blocks start in the segment after the current one.
pub open spec fn goes_on_at(state: &BumpState) -> int {
    16 + if state.end == state.chunks@[state.current as int] + 32 * 1024 {
        state.end as int
    } else {
        state.chunks@[state.current + 1] as int
    }
}

/// A block goes to the lowest address that is free for it in the current segment, and where none is, in
/// the segment after it. Only where that has none either, because there is no such segment or because no
/// empty one holds the block, is a chunk asked for. No block that an empty segment holds is turned away,
/// but at the end of the address space.
pub proof fn law_blocks_go_to_the_lowest_free_address(
    before: BumpState,
    after: BumpState,
    placement: Placement,
    header: int,
    alignment: int,
    bytes: int,
    requested_bytes: usize,
)
    requires
        before.wf(),
        is_power_of_two(alignment),
        alignment <= BUMP_SEGMENT_SIZE,
        0 <= header <= TRACKING_HEADER_SIZE,
        0 < bytes,
        before.placing(&after, placement, header, alignment, bytes, requested_bytes),
    ensures
        ({
            let here = has_room(alignment, bytes, before.cursor + header, before.end as int);
            let empty = has_room(alignment, bytes, 16 + header, 32768);
            &&& match placement {
                Placement::Served { address } => {
                    &&& empty
                    &&& here ==> lowest_at(address as int, alignment, bytes, before.cursor + header, before.end as int)
                    &&& !here ==> goes_on(&before) && lowest_at(
                        address as int,
                        alignment,
                        bytes,
                        goes_on_at(&before) + header,
                        goes_on_at(&before) - 16 + 32 * 1024,
                    )
                    &&& after.cursor == address + bytes
                    &&& after.live@ == before.live@.insert(address as int, bytes)
                },
                Placement::NeedChunk => (!empty || !here && !goes_on(&before)) && after.live@ == before.live@,
                Placement::Overflow => {
                    &&& empty
                    &&& before.cursor + header + alignment - 1 > usize::MAX || !here && goes_on(&before) && goes_on_at(&before) + header
                        + alignment - 1 > usize::MAX
                    &&& after.live@ == before.live@
                },
            }
            &&& empty && here && before.cursor + 64 * 1024 <= usize::MAX ==> placement is Served
            &&& empty && goes_on(&before) && before.cursor + 64 * 1024 <= usize::MAX && goes_on_at(&before) + 64 * 1024 <= usize::MAX
                ==> placement is Served
            &&& before.cursor + 64 * 1024 <= usize::MAX && !goes_on(&before) ==> placement is Served || placement is NeedChunk
        }),
{
    lemma_segment_multiple(alignment);
    lemma_room(alignment, bytes, before.cursor + header, before.end as int);
    lemma_room(alignment, bytes, 16 + header, 32768);
    lemma_aligned(before.cursor + header, alignment);
    if goes_on(&before) {
        assert(before.has_next());
        assert(before.next_start() == goes_on_at(&before));
        lemma_room(alignment, bytes, goes_on_at(&before) + header, goes_on_at(&before) - 16 + 32 * 1024);
        lemma_aligned(goes_on_at(&before) + header, alignment);
        let base = goes_on_at(&before) - 16;
        if aligned(BUMP_HEADER_SIZE + header, alignment) + bytes <= BUMP_SEGMENT_SIZE {
            assert(valid_chunk(before.chunks@[before.current as int] as int));
            assert(base % (BUMP_SEGMENT_SIZE as int) == 0) by {
                if before.in_first() {
                    lemma_chunk_halves(before.chunks@[before.current as int] as int);
                } else {
                    assert(valid_chunk(before.chunks@[before.current + 1] as int));
                    lemma_chunk_halves(before.chunks@[before.current + 1] as int);
                }
            }
            lemma_fits_fresh(base, header, alignment, bytes);
        }
    }
}

/// Where a heap ends its use, what it keeps and what it lets go of are its chunks, in their order. It keeps
/// as many as it aims at, or all. It aims at more only where more were used, and at fewer only where at most
/// half of what it aimed at was used the last eight times: then at a quarter fewer, at one fewer at least,
/// but at no fewer than were used or than its options ask for.
pub proof fn law_chunks_kept_and_let_go_are_all_there_were(before: BumpState, after: BumpState, release: BumpRelease)
    requires
        finished(&before, &after, release),
    ensures
        ({
            let aim = before.retention_target;
            let used = before.used_chunk_count;
            let least = before.options.retained_chunks;
            let most = before.options.max_retained_chunks;
            let now = after.retention_target;
            &&& after.chunks@ + release->trimmed@ == before.chunks@
            &&& after.chunks@.len() == before.chunks@.len() || after.chunks@.len() == now
            &&& after.chunks@.len() <= now || release->trimmed@.len() == 0
            &&& used > aim ==> after.underutilized_resets == 0 && now == if used < most {
                used
            } else {
                most
            }
            &&& used <= aim && (used * 2 > aim || aim <= least) ==> now == aim && after.underutilized_resets == 0
            &&& used * 2 <= aim && aim > least && used <= aim && before.underutilized_resets + 1 < 8 ==> now == aim
                && after.underutilized_resets == before.underutilized_resets + 1
            &&& used * 2 <= aim && aim > least && used <= aim && before.underutilized_resets + 1 >= 8 ==> {
                &&& after.underutilized_resets == 0
                &&& now == used || now == least || now == aim - aim as int / 4 || now == aim - 1 && aim as int / 4 <= 1
                &&& now >= used && now >= least
                &&& aim as int / 4 >= 1 ==> now >= aim - aim as int / 4
                &&& aim as int / 4 <= 1 ==> now >= aim - 1
            }
        }),
{
    let target = after.retention_target as int;
    assert(after.chunks@ + release->trimmed@ =~= before.chunks@);
}

/// A heap that is used again has the first of its chunks, lets go of the others, and starts behind the
/// header of its first chunk with nothing in use and nothing counted.
pub proof fn law_renewed_heaps_start_again(before: BumpState, after: BumpState, options: Options)
    requires
        options.valid(),
        before.chunks@.len() >= 1,
        after.renewed(&before, options),
    ensures
        after.chunks@ + before.renewal_drops(options) == before.chunks@,
        options.retained_chunks <= before.retention_target <= options.max_retained_chunks ==> after.retention_target
            == before.retention_target,
        before.retention_target < options.retained_chunks ==> after.retention_target == options.retained_chunks,
        before.retention_target > options.max_retained_chunks ==> after.retention_target == options.max_retained_chunks,
        after.chunks@.len() == before.chunks@.len() || after.chunks@.len() == after.retention_target,
        after.chunks@.len() <= after.retention_target,
        after.cursor == before.chunks@[0] + 320,
        after.end == before.chunks@[0] + 32 * 1024,
        after.live@.len() == 0,
        after.allocation_count == 0 && after.used_bytes == 0 && after.live_requested_bytes == 0 && after.used_chunk_count == 1,
        after.options == options,
{
    assert(after.chunks@ + before.renewal_drops(options) =~= before.chunks@);
    assert(after.live@.dom() =~= Set::<int>::empty());
}

} // verus!
