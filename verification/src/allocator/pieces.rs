//! The pieces that a heap's segments are made of: those that a heap still has, and those that went back.

use vstd::prelude::*;

use crate::allocator::classes::MEDIUM_SLICE_SIZE;
use crate::allocator::heaps::HeapState;
use crate::allocator::holdings::spans_apart;
use crate::allocator::refills::lemma_held_bounds;
use crate::allocator::retire::{capped, release_size, Piece, StorageRelease};
use crate::allocator::retirement::{
    cut_off, last_slice, last_used, lemma_cut_beside, lemma_cut_used, piece_of, vacated, within,
};
use crate::allocator::slab::SLAB_SIZE;
use crate::allocator::space::Space;

verus! {

/// What is given back of a piece.
pub open spec fn release_of(piece: Piece, track_aggregates: bool) -> StorageRelease {
    StorageRelease {
        address: piece.base,
        direct_mapping: piece.direct_mapping,
        committed_bytes: piece.committed_bytes,
        release_bytes: release_size(piece.direct_mapping),
        track_aggregates,
    }
}

impl HeapState {
    /// Whether the piece is that one of the heap's segment.
    pub open spec fn piece_at(&self, index: int, slice: int, piece: Piece) -> bool {
        &&& 0 <= index < self.segments@.len()
        &&& 0 <= slice < self.segment_pieces(index).len()
        &&& piece == self.segment_pieces(index)[slice]
    }

    /// Whether the piece is one of the heap's.
    pub open spec fn has_piece(&self, piece: Piece) -> bool {
        exists|index: int, slice: int| #[trigger] self.piece_at(index, slice, piece)
    }
}

/// Whether a piece that the heap had and has no more is given back by the release.
pub open spec fn gives_back(before: HeapState, after: HeapState, release: StorageRelease) -> bool {
    exists|piece: Piece|
        #[trigger] before.has_piece(piece) && !after.has_piece(piece) && release == release_of(piece, before.track_aggregates)
}

/// Whether a heap has the pieces that it had, but for those that are given back, each once.
pub open spec fn pieces_released(before: HeapState, after: HeapState, releases: Seq<StorageRelease>) -> bool {
    &&& after.track_aggregates == before.track_aggregates
    &&& forall|piece: Piece| #[trigger] after.has_piece(piece) ==> before.has_piece(piece)
    &&& forall|piece: Piece|
        #[trigger] before.has_piece(piece) && !after.has_piece(piece) ==> releases.contains(
            release_of(piece, before.track_aggregates),
        )
    &&& forall|at: int| 0 <= at < releases.len() ==> gives_back(before, after, #[trigger] releases[at])
    &&& forall|left: int, right: int|
        #![trigger releases[left], releases[right]]
        0 <= left < right < releases.len() ==> releases[left].address != releases[right].address
}

/// Whether no two pieces of a heap start at one place.
pub open spec fn pieces_apart(own: HeapState) -> bool {
    forall|i: int, s: int, p: Piece, j: int, t: int, q: Piece|
        #![trigger own.piece_at(i, s, p), own.piece_at(j, t, q)]
        own.piece_at(i, s, p) && own.piece_at(j, t, q) && p.base == q.base ==> i == j && s == t
}

/// What is released in two steps is released.
pub proof fn lemma_released_on(
    first: HeapState,
    second: HeapState,
    third: HeapState,
    early: Seq<StorageRelease>,
    late: Seq<StorageRelease>,
)
    requires
        pieces_released(first, second, early),
        pieces_released(second, third, late),
        pieces_apart(first),
    ensures
        pieces_released(first, third, early + late),
{
    let all = early + late;
    let track = first.track_aggregates;
    assert forall|piece: Piece| #[trigger] third.has_piece(piece) implies first.has_piece(piece) by {
        assert(second.has_piece(piece));
    }
    assert forall|piece: Piece| #[trigger] first.has_piece(piece) && !third.has_piece(piece) implies all.contains(
        release_of(piece, track),
    ) by {
        if second.has_piece(piece) {
            let at = choose|at: int| 0 <= at < late.len() && late[at] == release_of(piece, track);
            assert(late.contains(release_of(piece, track)));
            assert(all[early.len() + at] == release_of(piece, track));
        } else {
            let at = choose|at: int| 0 <= at < early.len() && early[at] == release_of(piece, track);
            assert(early.contains(release_of(piece, track)));
            assert(all[at] == release_of(piece, track));
        }
    }
    assert forall|at: int| 0 <= at < all.len() implies gives_back(first, third, #[trigger] all[at]) by {
        if at < early.len() {
            assert(all[at] == early[at]);
            assert(gives_back(first, second, early[at]));
            let piece = choose|piece: Piece|
                #[trigger] first.has_piece(piece) && !second.has_piece(piece) && early[at] == release_of(piece, track);
            assert(first.has_piece(piece) && !third.has_piece(piece));
        } else {
            assert(all[at] == late[at - early.len()]);
            assert(gives_back(second, third, late[at - early.len()]));
            let piece = choose|piece: Piece|
                #[trigger] second.has_piece(piece) && !third.has_piece(piece) && late[at - early.len()] == release_of(piece, track);
            assert(first.has_piece(piece));
        }
    }
    assert forall|left: int, right: int|
        #![trigger all[left], all[right]]
        0 <= left < right < all.len() implies all[left].address != all[right].address by {
        if right < early.len() {
            assert(all[left] == early[left] && all[right] == early[right]);
        } else if left >= early.len() {
            assert(all[left] == late[left - early.len()] && all[right] == late[right - early.len()]);
        } else {
            assert(all[left] == early[left] && all[right] == late[right - early.len()]);
            assert(gives_back(first, second, early[left]) && gives_back(second, third, late[right - early.len()]));
            let p = choose|piece: Piece|
                #[trigger] first.has_piece(piece) && !second.has_piece(piece) && early[left] == release_of(piece, track);
            let q = choose|piece: Piece|
                #[trigger] second.has_piece(piece) && !third.has_piece(piece) && late[right - early.len()] == release_of(piece, track);
            assert(first.has_piece(q));
            let (i, s) = choose|i: int, s: int| #[trigger] first.piece_at(i, s, p);
            let (j, t) = choose|j: int, t: int| #[trigger] first.piece_at(j, t, q);
            assert(first.piece_at(i, s, p) && first.piece_at(j, t, q));
        }
    }
}

/// Nothing is released where the heap has the pieces that it had.
pub proof fn lemma_none_released(before: HeapState, after: HeapState)
    requires
        after.segments == before.segments,
        after.track_aggregates == before.track_aggregates,
        forall|index: int| 0 <= index < before.segments@.len() ==> after.used_slabs(index) == #[trigger] before.used_slabs(index),
    ensures
        pieces_released(before, after, Seq::empty()),
        forall|piece: Piece| #[trigger] before.has_piece(piece) <==> after.has_piece(piece),
{
    assert forall|index: int| 0 <= index < before.segments@.len() implies #[trigger] after.segment_pieces(index)
        =~= before.segment_pieces(index) by {
        assert(after.used_slabs(index) == before.used_slabs(index));
    }
    assert forall|piece: Piece| #[trigger] before.has_piece(piece) <==> after.has_piece(piece) by {
        if before.has_piece(piece) {
            let (i, s) = choose|i: int, s: int| #[trigger] before.piece_at(i, s, piece);
            assert(after.segment_pieces(i) == before.segment_pieces(i));
            assert(after.piece_at(i, s, piece));
        }
        if after.has_piece(piece) {
            let (i, s) = choose|i: int, s: int| #[trigger] after.piece_at(i, s, piece);
            assert(after.segment_pieces(i) == before.segment_pieces(i));
            assert(before.piece_at(i, s, piece));
        }
    }
}

/// Where a piece of a heap lies.
proof fn lemma_piece_place(space: Space, heap: int, index: int, slice: int)
    requires
        space.whole(),
        0 <= heap < space.heaps@.len(),
        0 <= index < space.heaps@[heap].segments@.len(),
        0 <= slice < space.heaps@[heap].segment_pieces(index).len(),
    ensures
        ({
            let segment = space.heaps@[heap].segments@[index];
            let piece = space.heaps@[heap].segment_pieces(index)[slice];
            &&& piece.base == segment.base + slice * MEDIUM_SLICE_SIZE
            &&& segment.slices > 0 ==> slice < segment.slices && (slice + 1) * MEDIUM_SLICE_SIZE <= segment.slices * MEDIUM_SLICE_SIZE
            &&& segment.slices == 0 ==> slice == 0
        }),
{
    let segment = space.heaps@[heap].segments@[index];
    assert(space.segments_held(heap));
    assert(space.segment_held(heap, index));
    assert(space.segment_placed(heap, index));
    if segment.slices > 0 {
        lemma_held_bounds(space, segment.base);
        assert((slice + 1) * MEDIUM_SLICE_SIZE <= segment.slices * MEDIUM_SLICE_SIZE && 0 <= slice * MEDIUM_SLICE_SIZE <= (slice + 1)
            * MEDIUM_SLICE_SIZE) by (nonlinear_arith)
            requires
                0 <= slice < segment.slices,
                MEDIUM_SLICE_SIZE == 65536,
        ;
    } else {
        assert(0 * MEDIUM_SLICE_SIZE == 0);
    }
}

/// No two pieces of a heap start at one place.
pub proof fn lemma_heap_pieces_apart(space: Space, heap: int)
    requires
        space.whole(),
        0 <= heap < space.heaps@.len(),
    ensures
        pieces_apart(space.heaps@[heap]),
{
    let own = space.heaps@[heap];
    assert forall|i: int, s: int, p: Piece, j: int, t: int, q: Piece|
        #![trigger own.piece_at(i, s, p), own.piece_at(j, t, q)]
        own.piece_at(i, s, p) && own.piece_at(j, t, q) && p.base == q.base implies i == j && s == t by {
        let one = own.segments@[i];
        let other = own.segments@[j];
        lemma_piece_place(space, heap, i, s);
        lemma_piece_place(space, heap, j, t);
        assert(space.segments_held(heap));
        assert(space.segment_held(heap, i) && space.segment_held(heap, j));
        assert(space.segment_placed(heap, i) && space.segment_placed(heap, j));
        if i == j {
            assert(s == t) by (nonlinear_arith)
                requires
                    one.base + s * MEDIUM_SLICE_SIZE == one.base + t * MEDIUM_SLICE_SIZE,
                    MEDIUM_SLICE_SIZE == 65536,
            ;
        } else {
            if i < j {
                assert(one.base != other.base);
            } else {
                assert(other.base != one.base);
            }
            assert(s * MEDIUM_SLICE_SIZE + MEDIUM_SLICE_SIZE == (s + 1) * MEDIUM_SLICE_SIZE && t * MEDIUM_SLICE_SIZE + MEDIUM_SLICE_SIZE == (t
                + 1) * MEDIUM_SLICE_SIZE && s * MEDIUM_SLICE_SIZE >= 0 && t * MEDIUM_SLICE_SIZE >= 0) by (nonlinear_arith)
                requires
                    s >= 0,
                    t >= 0,
                    MEDIUM_SLICE_SIZE == 65536,
            ;
            if one.slices > 0 && other.slices > 0 {
                assert(spans_apart(one.base as int, one.slices as int, other.base as int, other.slices as int));
            } else if one.slices > 0 {
                crate::allocator::uses::lemma_held_is_unmapped(space, one.base, other.base);
            } else if other.slices > 0 {
                crate::allocator::uses::lemma_held_is_unmapped(space, other.base, one.base);
            }
        }
    }
}

/// The committed bytes of the pieces that a segment is cut into.
pub proof fn lemma_cut_committed(committed: int, rest: int, slices: int)
    requires
        slices >= 2,
        committed >= 0,
        rest == (slices - 1) * MEDIUM_SLICE_SIZE,
    ensures
        forall|slice: int|
            0 <= slice < slices - 1 ==> capped(within(committed, rest) / (SLAB_SIZE as int) - 2 * slice) == #[trigger] capped(
                committed / (SLAB_SIZE as int) - 2 * slice,
            ),
        capped(within(committed - within(committed, rest), MEDIUM_SLICE_SIZE as int) / (SLAB_SIZE as int)) == capped(
            committed / (SLAB_SIZE as int) - 2 * (slices - 1),
        ),
{
    let whole = committed / 32768;
    assert(rest / 32768 == 2 * (slices - 1) && rest == 32768 * (2 * (slices - 1))) by (nonlinear_arith)
        requires
            rest == (slices - 1) * 65536,
    ;
}

/// A cut parts the pieces of the segment: the last is a segment of its own, or unused.
#[verifier::spinoff_prover]
#[verifier::rlimit(40)]
proof fn lemma_cut_parts(before: Space, right: HeapState, heap: int, index: int, last: usize)
    requires
        before.whole(),
        0 <= heap < before.heaps@.len(),
        0 <= index < before.heaps@[heap].segments@.len(),
        before.heaps@[heap].segments@[index].slices >= 2,
        last == last_slice(before.heaps@[heap], index),
        cut_off(before.heaps@[heap], right, index),
    ensures
        ({
            let left = before.heaps@[heap];
            let n = left.segments@[index].slices as int;
            &&& left.segment_pieces(index).len() == n
            &&& right.segment_pieces(index) == left.segment_pieces(index).take(n - 1)
            &&& forall|at: int|
                0 <= at < left.segments@.len() && at != index ==> #[trigger] right.segment_pieces(at) == left.segment_pieces(at)
            &&& if last_used(left, index) {
                right.segment_pieces(left.segments@.len() as int) == seq![left.segment_pieces(index)[n - 1]]
            } else {
                left.segment_pieces(index)[n - 1].slabs == 0
            }
        }),
{
    let left = before.heaps@[heap];
    let segment = left.segments@[index];
    let n = segment.slices as int;
    assert(before.segments_held(heap));
    assert(before.segment_held(heap, index));
    assert(before.segment_placed(heap, index));
    assert(before.heap_ok(heap));
    lemma_held_bounds(before, segment.base);
    assert(n * MEDIUM_SLICE_SIZE == (n - 1) * MEDIUM_SLICE_SIZE + MEDIUM_SLICE_SIZE) by (nonlinear_arith);
    lemma_cut_used(left, right, index, last);
    lemma_cut_committed(segment.committed_bytes as int, (n - 1) * MEDIUM_SLICE_SIZE, n);
    let used = left.used_slabs(index);
    let cut = right.used_slabs(index);
    assert(right.segment_pieces(index) =~= left.segment_pieces(index).take(n - 1)) by {
        assert forall|slice: int| 0 <= slice < n - 1 implies #[trigger] right.segment_pieces(index)[slice]
            == left.segment_pieces(index)[slice] by {
            assert(capped(cut - 2 * slice) == capped(used - 2 * slice));
            assert(capped(segment.committed_bytes as int / (SLAB_SIZE as int) - 2 * slice) == capped(
                right.segments@[index].committed_bytes as int / (SLAB_SIZE as int) - 2 * slice,
            ));
        }
    }
    assert forall|at: int| 0 <= at < left.segments@.len() && at != index implies #[trigger] right.segment_pieces(at)
        == left.segment_pieces(at) by {
        lemma_cut_beside(before, right, heap, index, at, last);
        assert(right.segment_pieces(at) =~= left.segment_pieces(at));
    }
    if last_used(left, index) {
        let end = left.segments@.len() as int;
        let tail = right.used_slabs(end);
        assert(0 * MEDIUM_SLICE_SIZE == 0);
        assert(capped(tail) == capped(used - 2 * (n - 1)));
        assert(right.segment_pieces(end) =~= seq![left.segment_pieces(index)[n - 1]]);
    } else {
        assert(capped(used - 2 * (n - 1)) == 0);
    }
}

/// A cut releases the last piece of the segment where no slab lies in it, and nothing else.
pub proof fn lemma_cut_pieces(before: Space, right: HeapState, heap: int, index: int, last: usize)
    requires
        before.whole(),
        0 <= heap < before.heaps@.len(),
        0 <= index < before.heaps@[heap].segments@.len(),
        before.heaps@[heap].segments@[index].slices >= 2,
        last == last_slice(before.heaps@[heap], index),
        cut_off(before.heaps@[heap], right, index),
    ensures
        ({
            let left = before.heaps@[heap];
            let end = left.segment_pieces(index)[left.segments@[index].slices - 1];
            &&& pieces_released(
                left,
                right,
                if last_used(left, index) {
                    Seq::empty()
                } else {
                    seq![release_of(end, left.track_aggregates)]
                },
            )
            &&& forall|piece: Piece| #[trigger] left.has_piece(piece) && !right.has_piece(piece) ==> piece.slabs == 0
        }),
{
    let left = before.heaps@[heap];
    let n = left.segments@[index].slices as int;
    let end = left.segment_pieces(index)[n - 1];
    let count = left.segments@.len() as int;
    lemma_cut_parts(before, right, heap, index, last);
    lemma_heap_pieces_apart(before, heap);
    assert(left.piece_at(index, n - 1, end));
    assert forall|piece: Piece| #[trigger] right.has_piece(piece) implies left.has_piece(piece) && (last_used(left, index) || piece
        != end) by {
        let (i, s) = choose|i: int, s: int| #[trigger] right.piece_at(i, s, piece);
        if i == count {
            assert(left.piece_at(index, n - 1, piece));
        } else {
            if i == index {
                assert(right.segment_pieces(i)[s] == left.segment_pieces(i)[s]);
            } else {
                assert(right.segment_pieces(i) == left.segment_pieces(i));
            }
            assert(left.piece_at(i, s, piece));
            if piece == end {
                assert(i == index && s == n - 1);
            }
        }
    }
    assert forall|piece: Piece| #[trigger] left.has_piece(piece) && (last_used(left, index) || piece != end) implies right.has_piece(
        piece,
    ) by {
        let (i, s) = choose|i: int, s: int| #[trigger] left.piece_at(i, s, piece);
        if i == index && s == n - 1 {
            assert(right.piece_at(count, 0, piece));
        } else {
            if i == index {
                assert(right.segment_pieces(i)[s] == left.segment_pieces(i)[s]);
            } else {
                assert(right.segment_pieces(i) == left.segment_pieces(i));
            }
            assert(right.piece_at(i, s, piece));
        }
    }
    assert(left.has_piece(end));
    let one = seq![release_of(end, left.track_aggregates)];
    assert(one[0] == release_of(end, left.track_aggregates));
    assert(one.contains(release_of(end, left.track_aggregates)));
}

/// Where a segment of at most one slice goes, its piece is released, and nothing else.
pub proof fn lemma_vacated_pieces(before: Space, after: Space, heap: int, index: int)
    requires
        before.whole(),
        0 <= heap < before.heaps@.len(),
        0 <= index < before.heaps@[heap].segments@.len(),
        before.heaps@[heap].segments@[index].slices <= 1,
        vacated(before, after, heap, index),
    ensures
        ({
            let left = before.heaps@[heap];
            let right = after.heaps@[heap];
            let gone = piece_of(left, index);
            &&& pieces_released(left, right, seq![release_of(gone, left.track_aggregates)])
            &&& forall|piece: Piece| #[trigger] left.has_piece(piece) ==> (right.has_piece(piece) <==> piece != gone)
        }),
{
    let left = before.heaps@[heap];
    let right = after.heaps@[heap];
    let gone = piece_of(left, index);
    lemma_heap_pieces_apart(before, heap);
    assert(left.segment_pieces(index).len() == 1);
    assert(left.piece_at(index, 0, gone));
    assert forall|piece: Piece| #[trigger] right.has_piece(piece) implies left.has_piece(piece) && piece != gone by {
        let (i, s) = choose|i: int, s: int| #[trigger] right.piece_at(i, s, piece);
        let from = if i < index {
            i
        } else {
            i + 1
        };
        assert(right.segments@[i] == left.segments@[from]);
        assert(right.used_slabs(i) == left.used_slabs(from));
        assert(right.segment_pieces(i) =~= left.segment_pieces(from));
        assert(left.piece_at(from, s, piece));
        if piece == gone {
            assert(from == index);
        }
    }
    assert forall|piece: Piece| #[trigger] left.has_piece(piece) && piece != gone implies right.has_piece(piece) by {
        let (i, s) = choose|i: int, s: int| #[trigger] left.piece_at(i, s, piece);
        let to = if i < index {
            i
        } else {
            i - 1
        };
        if i == index {
            assert(s == 0);
        }
        assert(right.segments@[to] == left.segments@[i]);
        assert(right.used_slabs(to) == left.used_slabs(i));
        assert(right.segment_pieces(to) =~= left.segment_pieces(i));
        assert(right.piece_at(to, s, piece));
    }
    assert(left.has_piece(gone));
    let one = seq![release_of(gone, left.track_aggregates)];
    assert(one[0] == release_of(gone, left.track_aggregates));
    assert(one.contains(release_of(gone, left.track_aggregates)));
}

} // verus!
