//! The end of a heap: what nothing uses goes back at once, and the rest block by block.

use vstd::prelude::*;

use crate::allocator::classes::{MEDIUM_REGION_SLICE_COUNT, MEDIUM_SLICE_SIZE};
use crate::allocator::heaps::{HeapState, RetirementState, Segment};
use crate::allocator::slab::SLAB_SIZE;
use crate::allocator::small::{small, SmallHeap, SmallState};
use crate::allocator::table::SlabTable;
use crate::allocator::usage::{slab_sums, slab_tally};
use crate::tunables::Tuning;

verus! {

/// A part of a segment that goes back as one.
#[derive(Clone, Copy, Debug, PartialEq, Eq, Structural)]
pub struct Piece {
    pub base: usize,
    /// The slabs that were cut from it.
    pub slabs: usize,
    pub committed_bytes: usize,
    /// Whether it was mapped on its own.
    pub direct_mapping: bool,
}

/// Slabs of a retired heap that still hold blocks in use.
#[derive(Clone, Copy, Debug, PartialEq, Eq, Structural)]
pub struct RetiredSlice {
    pub base: usize,
    pub slabs: usize,
    /// The blocks that are still in use.
    pub remaining: usize,
    pub owner: usize,
    pub track_aggregates: bool,
    pub direct_mapping: bool,
    pub committed_bytes: usize,
    pub release_bytes: usize,
}

/// Storage that goes back to the system.
#[derive(Clone, Copy, Debug, PartialEq, Eq, Structural)]
pub struct StorageRelease {
    pub address: usize,
    pub direct_mapping: bool,
    pub committed_bytes: usize,
    pub release_bytes: usize,
    pub track_aggregates: bool,
}

/// A span that a heap kept and gives back.
#[derive(Clone, Copy, Debug, PartialEq, Eq, Structural)]
pub struct KeptSpan {
    pub address: usize,
    pub slices: usize,
}

pub open spec fn release_size(direct_mapping: bool) -> usize {
    if direct_mapping {
        SLAB_SIZE
    } else {
        MEDIUM_SLICE_SIZE
    }
}

pub open spec fn capped(value: int) -> int {
    if value < 0 {
        0
    } else if value > 2 {
        2
    } else {
        value
    }
}

impl HeapState {
    pub open spec fn segment_pieces(&self, index: int) -> Seq<Piece> {
        let segment = self.segments@[index];
        if segment.slices == 0 {
            seq![Piece { base: segment.base, slabs: 1, committed_bytes: SLAB_SIZE, direct_mapping: true }]
        } else {
            Seq::new(
                segment.slices as nat,
                |slice: int|
                    Piece {
                        base: (segment.base + slice * MEDIUM_SLICE_SIZE) as usize,
                        slabs: capped(self.used_slabs(index) - 2 * slice) as usize,
                        committed_bytes: (capped(segment.committed_bytes as int / (SLAB_SIZE as int) - 2 * slice) * SLAB_SIZE) as usize,
                        direct_mapping: false,
                    },
            )
        }
    }

    /// The pieces of the first segments, those of the newest first.
    pub open spec fn pieces(&self, count: int) -> Seq<Piece>
        decreases count,
    {
        if count <= 0 {
            Seq::empty()
        } else {
            self.segment_pieces(count - 1) + self.pieces(count - 1)
        }
    }
}

/// The blocks of a piece that are in use.
pub open spec fn piece_live(heap: SmallHeap, sizes: Seq<usize>, piece: Piece) -> int {
    (if piece.slabs > 0 {
        slab_sums(heap, sizes, piece.base).live
    } else {
        0
    }) + (if piece.slabs > 1 {
        slab_sums(heap, sizes, (piece.base + SLAB_SIZE) as usize).live
    } else {
        0
    })
}

/// The blocks of a piece that are on their way back.
pub open spec fn piece_drains(heap: SmallHeap, piece: Piece) -> int {
    (if piece.slabs > 0 {
        heap.slabs[piece.base].remote.len() as int
    } else {
        0
    }) + (if piece.slabs > 1 {
        heap.slabs[(piece.base + SLAB_SIZE) as usize].remote.len() as int
    } else {
        0
    })
}

/// Whether the slabs of a piece are slabs of the heap.
pub open spec fn piece_ok(heap: SmallHeap, sizes: Seq<usize>, piece: Piece) -> bool {
    &&& piece.slabs <= 2
    &&& piece.slabs > 0 ==> heap.slab_of_some_class(sizes, piece.base)
    &&& piece.slabs > 1 ==> piece.base + SLAB_SIZE <= usize::MAX && heap.slab_of_some_class(sizes, (piece.base + SLAB_SIZE) as usize)
}

/// What a piece becomes: storage to give back, or slabs that wait for their blocks.
pub enum Prepared {
    Released { release: StorageRelease },
    Retained { slice: RetiredSlice },
}

pub open spec fn prepared(heap: SmallHeap, sizes: Seq<usize>, piece: Piece, owner: usize, track_aggregates: bool) -> Prepared {
    let live = piece_live(heap, sizes, piece);
    if live == 0 {
        Prepared::Released {
            release: StorageRelease {
                address: piece.base,
                direct_mapping: piece.direct_mapping,
                committed_bytes: piece.committed_bytes,
                release_bytes: release_size(piece.direct_mapping),
                track_aggregates,
            },
        }
    } else {
        Prepared::Retained {
            slice: RetiredSlice {
                base: piece.base,
                slabs: piece.slabs,
                remaining: live as usize,
                owner,
                track_aggregates,
                direct_mapping: piece.direct_mapping,
                committed_bytes: piece.committed_bytes,
                release_bytes: release_size(piece.direct_mapping),
            },
        }
    }
}

/// Decides what becomes of a piece. Returns the number of blocks that were on their way back too.
pub fn prepare_retired_slice(
    state: &SmallState,
    slabs: &SlabTable,
    tuning: &Tuning,
    piece: Piece,
    owner: usize,
    track_aggregates: bool,
) -> (result: (Prepared, usize))
    requires
        tuning.wf(),
        slabs.wf(),
        small(state, slabs).inv(tuning.sizes@),
        piece_ok(small(state, slabs), tuning.sizes@, piece),
    ensures
        result.0 == prepared(small(state, slabs), tuning.sizes@, piece, owner, track_aggregates),
        result.1 == piece_drains(small(state, slabs), piece),
        result.1 <= 2 * SLAB_SIZE,
{
    let release_bytes: usize = if piece.direct_mapping {
        SLAB_SIZE
    } else {
        MEDIUM_SLICE_SIZE
    };
    let mut remaining: usize = 0;
    let mut drained: usize = 0;
    if piece.slabs > 0 {
        let (live, remote) = slab_counts(state, slabs, tuning, piece.base);
        remaining = live;
        drained = remote;
    }
    if piece.slabs > 1 {
        let (live, remote) = slab_counts(state, slabs, tuning, piece.base + SLAB_SIZE);
        remaining = remaining + live;
        drained = drained + remote;
    }
    if remaining == 0 {
        return (
            Prepared::Released {
                release: StorageRelease {
                    address: piece.base,
                    direct_mapping: piece.direct_mapping,
                    committed_bytes: piece.committed_bytes,
                    release_bytes,
                    track_aggregates,
                },
            },
            drained,
        );
    }
    (
        Prepared::Retained {
            slice: RetiredSlice {
                base: piece.base,
                slabs: piece.slabs,
                remaining,
                owner,
                track_aggregates,
                direct_mapping: piece.direct_mapping,
                committed_bytes: piece.committed_bytes,
                release_bytes,
            },
        },
        drained,
    )
}

/// The blocks of a slab that are in use, and those that are on their way back.
fn slab_counts(state: &SmallState, slabs: &SlabTable, tuning: &Tuning, address: usize) -> (counts: (usize, usize))
    requires
        tuning.wf(),
        slabs.wf(),
        small(state, slabs).inv(tuning.sizes@),
        small(state, slabs).slab_of_some_class(tuning.sizes@, address),
    ensures
        counts.0 == slab_sums(small(state, slabs), tuning.sizes@, address).live,
        counts.1 == small(state, slabs).slabs[address].remote.len(),
        counts.0 <= SLAB_SIZE,
        counts.1 <= SLAB_SIZE,
{
    let tally = slab_tally(state, slabs, tuning, address);
    let index: usize = slabs.position(address).unwrap();
    let remote: usize = slabs.slabs[index].remote_free.len();
    proof {
        let heap = small(state, slabs);
        let sizes = tuning.sizes@;
        let (x, c) = choose|x: bool, c: int| 0 <= c < sizes.len() && #[trigger] heap.slab_of_class(sizes, x, c, address);
        let slab = heap.slabs[address];
        assert(slab.well_formed());
        crate::allocator::blocks::lemma_marked(x, c, slab.marker);
        crate::allocator::usage::lemma_live_count(heap, sizes, x, c, address);
        crate::allocator::slab::lemma_blocks(slab.block_size);
        vstd::arithmetic::div_mod::lemma_fundamental_div_mod(SLAB_SIZE as int, slab.block_size);
        assert(slab.count() <= SLAB_SIZE) by (nonlinear_arith)
            requires
                slab.block_size >= 16,
                slab.block_size * slab.count() <= SLAB_SIZE,
                slab.count() >= 0,
        ;
    }
    (tally.live, remote)
}

/// The pieces of a heap's segments, those of the newest first.
fn heap_pieces(heap: &HeapState, slabs: &SlabTable, tuning: &Tuning) -> (pieces: Vec<Piece>)
    requires
        tuning.wf(),
        heap.wf(),
        heap.segments_ok(slabs, tuning.sizes@),
    ensures
        pieces@ == heap.pieces(heap.segments@.len() as int),
        forall|at: int|
            0 <= at < pieces@.len() ==> piece_ok(small(&heap.small, slabs), tuning.sizes@, #[trigger] pieces@[at]),
{
    let ghost model = small(&heap.small, slabs);
    let ghost sizes = tuning.sizes@;
    let mut pieces: Vec<Piece> = Vec::new();
    let mut index: usize = heap.segments.len();
    proof {
        assert(Seq::<Piece>::empty() + heap.pieces(index as int) =~= heap.pieces(index as int));
    }
    while index > 0
        invariant
            heap.wf(),
            model == small(&heap.small, slabs),
            sizes == tuning.sizes@,
            heap.segments_ok(slabs, sizes),
            index <= heap.segments@.len(),
            pieces@ + heap.pieces(index as int) == heap.pieces(heap.segments@.len() as int),
            forall|at: int| 0 <= at < pieces@.len() ==> piece_ok(model, sizes, #[trigger] pieces@[at]),
        decreases index,
    {
        let ghost before = pieces@;
        let ghost count = index as int;
        index = index - 1;
        let segment: Segment = heap.segments[index];
        let ghost mine = heap.segment_pieces(index as int);
        if segment.slices == 0 {
            pieces.push(Piece { base: segment.base, slabs: 1, committed_bytes: SLAB_SIZE, direct_mapping: true });
            proof {
                assert(heap.slab_base(index as int, 0) == segment.base);
                assert(model.slab_of_some_class(sizes, segment.base));
                assert(pieces@ =~= before + mine);
            }
        } else {
            let used: usize = if segment.base == heap.locality_segment {
                (heap.locality_next - segment.base) / SLAB_SIZE
            } else {
                segment.slices * 2
            };
            let committed: usize = segment.committed_bytes / SLAB_SIZE;
            let mut slice: usize = 0;
            let mut base: usize = segment.base;
            proof {
                assert(before + mine.take(0) =~= before);
            }
            while slice < segment.slices
                invariant
                    heap.wf(),
                    model == small(&heap.small, slabs),
                    sizes == tuning.sizes@,
                    heap.segments_ok(slabs, sizes),
                    index < heap.segments@.len(),
                    segment == heap.segments@[index as int],
                    segment.slices != 0,
                    segment.slices <= MEDIUM_REGION_SLICE_COUNT,
                    segment.base + segment.slices * MEDIUM_SLICE_SIZE <= usize::MAX,
                    mine == heap.segment_pieces(index as int),
                    used == heap.used_slabs(index as int),
                    committed == segment.committed_bytes as int / (SLAB_SIZE as int),
                    slice <= segment.slices,
                    base == segment.base + slice * MEDIUM_SLICE_SIZE,
                    pieces@ == before + mine.take(slice as int),
                    forall|at: int| 0 <= at < pieces@.len() ==> piece_ok(model, sizes, #[trigger] pieces@[at]),
                decreases segment.slices - slice,
            {
                let skipped: usize = slice * 2;
                let left: usize = used.saturating_sub(skipped);
                let initialized: usize = if left > 2 {
                    2
                } else {
                    left
                };
                let behind: usize = committed.saturating_sub(skipped);
                let committed_slabs: usize = if behind > 2 {
                    2
                } else {
                    behind
                };
                let ghost so_far = pieces@;
                proof {
                    assert(slice * MEDIUM_SLICE_SIZE + MEDIUM_SLICE_SIZE <= segment.slices * MEDIUM_SLICE_SIZE && (slice + 1)
                        * MEDIUM_SLICE_SIZE == slice * MEDIUM_SLICE_SIZE + MEDIUM_SLICE_SIZE && skipped * SLAB_SIZE == slice
                        * MEDIUM_SLICE_SIZE && (skipped + 1) * SLAB_SIZE == slice * MEDIUM_SLICE_SIZE + SLAB_SIZE) by (nonlinear_arith)
                        requires
                            slice + 1 <= segment.slices,
                            skipped == 2 * slice,
                            MEDIUM_SLICE_SIZE == 65536,
                            SLAB_SIZE == 32768,
                    ;
                    assert(committed_slabs * SLAB_SIZE <= 65536) by (nonlinear_arith)
                        requires
                            committed_slabs <= 2,
                            SLAB_SIZE == 32768,
                    ;
                    if initialized > 0 {
                        assert(heap.slab_base(index as int, skipped as int) == base);
                        assert(model.slab_of_some_class(sizes, base));
                    }
                    if initialized > 1 {
                        assert(heap.slab_base(index as int, skipped + 1) == base + SLAB_SIZE);
                        assert(model.slab_of_some_class(sizes, (base + SLAB_SIZE) as usize));
                    }
                }
                pieces.push(
                    Piece { base, slabs: initialized, committed_bytes: committed_slabs * SLAB_SIZE, direct_mapping: false },
                );
                proof {
                    assert(mine[slice as int] == pieces@.last());
                    assert(mine.take(slice + 1) =~= mine.take(slice as int).push(mine[slice as int]));
                    assert(pieces@ =~= before + mine.take(slice + 1));
                }
                slice = slice + 1;
                base = base + MEDIUM_SLICE_SIZE;
            }
            proof {
                assert(mine.take(slice as int) =~= mine);
            }
        }
        proof {
            assert(heap.pieces(count) == mine + heap.pieces(count - 1));
            assert(before + (mine + heap.pieces(count - 1)) =~= (before + mine) + heap.pieces(count - 1));
        }
    }
    proof {
        assert(pieces@ + heap.pieces(0) =~= pieces@);
    }
    pieces
}

/// The spans that a heap keeps, as they stand in its cache.
pub open spec fn kept_spans(cache: Seq<usize>, count: int) -> Seq<KeptSpan>
    decreases count,
{
    if count <= 0 {
        Seq::empty()
    } else if cache[count - 1] == 0 {
        kept_spans(cache, count - 1)
    } else {
        kept_spans(cache, count - 1).push(
            KeptSpan { address: cache[count - 1], slices: vstd::arithmetic::power2::pow2((count - 1) as nat) as usize },
        )
    }
}

/// The blocks of the first pieces that are on their way back.
pub open spec fn all_drains(heap: SmallHeap, pieces: Seq<Piece>) -> int
    decreases pieces.len(),
{
    if pieces.len() == 0 {
        0
    } else {
        all_drains(heap, pieces.drop_last()) + piece_drains(heap, pieces.last())
    }
}

/// How many blocks are on their way back to the slabs of a heap.
pub fn count_drains(heap: &HeapState, slabs: &SlabTable, tuning: &Tuning) -> (drained: usize)
    requires
        tuning.wf(),
        heap.wf(),
        slabs.wf(),
        small(&heap.small, slabs).inv(tuning.sizes@),
        heap.segments_ok(slabs, tuning.sizes@),
    ensures
        drained as int == all_drains(small(&heap.small, slabs), heap.pieces(heap.segments@.len() as int)) % (usize::MAX + 1),
{
    let ghost sizes = tuning.sizes@;
    let ghost model = small(&heap.small, slabs);
    let pieces = heap_pieces(heap, slabs, tuning);
    let mut drained: usize = 0;
    let mut index: usize = 0;
    proof {
        assert(pieces@.take(0) =~= Seq::empty());
        vstd::arithmetic::div_mod::lemma_small_mod(0, (usize::MAX + 1) as nat);
    }
    while index < pieces.len()
        invariant
            tuning.wf(),
            slabs.wf(),
            sizes == tuning.sizes@,
            model == small(&heap.small, slabs),
            model.inv(sizes),
            forall|at: int| 0 <= at < pieces@.len() ==> piece_ok(model, sizes, #[trigger] pieces@[at]),
            index <= pieces@.len(),
            drained as int == all_drains(model, pieces@.take(index as int)) % (usize::MAX + 1),
        decreases pieces@.len() - index,
    {
        assert(piece_ok(model, sizes, pieces@[index as int]));
        let (result, count) = prepare_retired_slice(&heap.small, slabs, tuning, pieces[index], heap.address, heap.track_aggregates);
        proof {
            assert(pieces@.take(index + 1).drop_last() =~= pieces@.take(index as int));
            assert(pieces@.take(index + 1).last() == pieces@[index as int]);
            let total = all_drains(model, pieces@.take(index as int));
            vstd::arithmetic::div_mod::lemma_add_mod_noop(total, count as int, usize::MAX + 1);
            vstd::arithmetic::div_mod::lemma_small_mod(count as nat, (usize::MAX + 1) as nat);
            lemma_wrap(drained, count);
        }
        drained = drained.wrapping_add(count);
        index = index + 1;
    }
    proof {
        assert(pieces@.take(index as int) =~= pieces@);
    }
    drained
}

proof fn lemma_wrap(left: usize, right: usize)
    ensures
        left.wrapping_add(right) as int == (left + right) % (usize::MAX + 1),
{
    let whole = usize::MAX + 1;
    if left + right >= whole {
        vstd::arithmetic::div_mod::lemma_fundamental_div_mod_converse(left + right, whole, 1, left + right - whole);
    } else {
        vstd::arithmetic::div_mod::lemma_small_mod((left + right) as nat, whole as nat);
    }
}

impl RetirementState {
    /// Counts down what keeps a retired heap. Returns whether its own storage goes back.
    pub fn release_retired_group(&mut self) -> (gone: bool)
        ensures
            gone == (old(self).retired_releases == 1),
            *final(self) == (RetirementState { retired_releases: old(self).retired_releases.wrapping_sub(1), ..*old(self) }),
    {
        let last: bool = self.retired_releases == 1;
        self.retired_releases = self.retired_releases.wrapping_sub(1);
        last
    }

    /// Counts down the medium and direct allocations of a heap. Returns whether the heap's own
    /// storage goes back.
    pub fn release_external_allocation(&mut self) -> (gone: bool)
        ensures
            ({
                let ended = old(self).external_allocations == 1 && old(self).retiring && old(self).retirement_ready;
                &&& gone == (ended && old(self).retired_releases == 1)
                &&& *final(self) == (RetirementState {
                    external_allocations: old(self).external_allocations.wrapping_sub(1),
                    retired_releases: (if ended {
                        old(self).retired_releases.wrapping_sub(1)
                    } else {
                        old(self).retired_releases
                    }),
                    ..*old(self)
                })
            }),
    {
        let last: bool = self.external_allocations == 1;
        self.external_allocations = self.external_allocations.wrapping_sub(1);
        if last && self.retiring && self.retirement_ready {
            return self.release_retired_group();
        }
        false
    }
}

/// A slice of a retired heap waits for exactly the blocks of it that were in use.
pub proof fn law_retired_slice_waits_for_its_blocks(heap: SmallHeap, sizes: Seq<usize>, piece: Piece, owner: usize, track_aggregates: bool)
    requires
        0 <= piece_live(heap, sizes, piece) <= usize::MAX,
    ensures
        match prepared(heap, sizes, piece, owner, track_aggregates) {
            Prepared::Released { .. } => piece_live(heap, sizes, piece) == 0,
            Prepared::Retained { slice } => slice.remaining == piece_live(heap, sizes, piece) && slice.remaining > 0,
        },
{
}

} // verus!
