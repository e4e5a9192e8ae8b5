//! Heaps that are let go of. What they keep goes back at once, and every slice as soon as no block of it
//! is in use any more.

use vstd::prelude::*;
use vstd::arithmetic::power2::pow2;

use crate::allocator::arenas::{domain_step, lemma_domain_step, lemma_unheld, same_regions};
use crate::allocator::classes::LOCAL_MEDIUM_CLASSES;
use crate::allocator::directs::{lemma_direct_step, lemma_direct_uses, same_but_direct};
use crate::allocator::heaps::RetirementState;
use crate::allocator::lives::{
    bumps_less, lemma_mediums_less, lemma_only_now, lemma_only_then, lemma_same_allocations, lemma_still,
    mediums_less, smalls_less, uses_only,
};
use crate::allocator::mediums::mediums_kept;
use crate::allocator::pieces::{
    lemma_heap_pieces_apart, lemma_none_released, lemma_released_on, lemma_vacated_pieces, pieces_apart,
    pieces_released,
};
use crate::allocator::references::{lemma_refs_go_on, refs_kept};
use crate::allocator::refills::{lemma_arena_step, lemma_held_bounds, lemma_span_step, same_but_heap, users_kept};
use crate::allocator::retire::{all_drains, count_drains, kept_spans, piece_live, KeptSpan, Piece, StorageRelease};
use crate::allocator::retirement::{lemma_piece, others_held, piece_of, vacated};
use crate::allocator::segments::{lemma_segments_go_on, segments_stay};
use crate::allocator::serving::{lemma_spans_only, lemma_spans_still, step_kept};
use crate::allocator::slab::SLAB_SIZE;
use crate::allocator::space::{cache_held, held_ok, holdings_ok, locality_held, Holding, Space, User};
use crate::allocator::thread_heaps::{slice_pending, span_returned};
use crate::allocator::uses::{bumps_kept, lemma_records_go_on, lemma_whole_goes_on, smalls_kept, uses_kept, Block};
use crate::allocator::vacancies::{lemma_lists_kept_on, lemma_names_slabs, lists_kept};

verus! {

/// Whether the span is held for nothing any more, and is to be given back.
pub open spec fn kept_pending(space: Space, domain: usize, span: KeptSpan) -> bool {
    &&& space.holdings@.dom().contains(span.address)
    &&& space.holdings@[span.address] == (Holding { domain, slices: span.slices as int, user: User::Pending })
}

/// Whether the memory is the heap's no more, and is to be given back.
pub open spec fn given_up(space: Space, domain: usize, release: StorageRelease) -> bool {
    if release.direct_mapping {
        !space.mapped@.dom().contains(release.address)
    } else {
        slice_pending(space, domain, release.address)
    }
}

impl Space {
    /// Gives back a span that was kept for medium blocks, once it is decommitted.
    pub fn settle_span(&mut self, domain: usize, span: KeptSpan, decommitted: bool)
        requires
            old(self).whole(),
            kept_pending(*old(self), domain, span),
        ensures
            step_kept(*old(self), *final(self)),
            uses_only(*old(self), *final(self), None),
            if decommitted {
                span_returned(*old(self), *final(self), domain, span.address, span.slices as int)
            } else {
                *final(self) == *old(self)
            },
    {
        let ghost before = *self;
        if decommitted {
            let address: usize = span.address;
            let place: usize = domain - 1;
            proof {
                assert(held_ok(before.domains@, address, before.holdings@[address]));
                assert(before.domains@[place as int].wf());
                lemma_held_bounds(before, address);
            }
            self.domains[place].give_back(address, span.slices);
            proof {
                let left = before.domains@[place as int];
                let right = self.domains@[place as int];
                assert(same_regions(left, right));
                assert(domain_step(before.domains@, self.domains@, place as int, before.mapped@, None));
                lemma_domain_step(before.domains@, self.domains@, place as int, before.mapped@, None);
                self.holdings@ = before.holdings@.remove(address);
                lemma_unheld(before.domains@, self.domains@, place as int, before.holdings@, address);
                lemma_span_step(before, *self, 0);
                assert forall|index: int, a: int, s: int|
                    #![trigger self.domains@[index].medium_live(a, s)]
                    #![trigger before.domains@[index].medium_live(a, s)]
                    0 <= index < before.domains@.len() && before.domains@[index].medium_live(a, s) implies self.domains@[index].medium_live(a, s)
                    && self.domains@[index].medium_at(a) == before.domains@[index].medium_at(a) by {
                    if index == place {
                        crate::allocator::holdings::lemma_live_length(&left, a, s);
                        crate::allocator::holdings::lemma_idle_apart_live(&left, address as int, span.slices as int, a, s);
                    }
                }
                lemma_spans_only(before, *self);
                lemma_same_allocations(&left, &right);
                lemma_mediums_less(before.domains@, self.domains@, place as int);
                lemma_spans_still(before, *self);
            }
        } else {
            proof {
                lemma_only_now(before);
            }
        }
    }

    /// Takes the span out of one slot of a heap's cache.
    fn drop_cached(&mut self, heap: usize, slot: usize, slices: usize) -> (span: Option<KeptSpan>)
        requires
            slices == pow2(slot as nat),
            old(self).whole(),
            heap < old(self).heaps@.len(),
            slot < LOCAL_MEDIUM_CLASSES,
        ensures
            step_kept(*old(self), *final(self)),
            same_but_heap(*old(self), *final(self), heap as int),
            final(self).heaps@[heap as int].same_but_cache(&old(self).heaps@[heap as int]),
            final(self).heaps@[heap as int].retirement == old(self).heaps@[heap as int].retirement,
            final(self).heaps@[heap as int].track_aggregates == old(self).heaps@[heap as int].track_aggregates,
            final(self).heaps@[heap as int].medium_cache@ == old(self).heaps@[heap as int].medium_cache@.update(slot as int, 0),
            final(self).domains == old(self).domains,
            final(self).slabs == old(self).slabs,
            final(self).out == old(self).out,
            final(self).mapped == old(self).mapped,
            match span {
                None => old(self).heaps@[heap as int].medium_cache@[slot as int] == 0 && final(self).holdings == old(self).holdings,
                Some(span) => {
                    &&& span.address == old(self).heaps@[heap as int].medium_cache@[slot as int]
                    &&& span.address != 0
                    &&& span.slices == pow2(slot as nat)
                    &&& old(self).holdings@.dom().contains(span.address)
                    &&& old(self).holdings@[span.address].user is Cache
                    &&& final(self).holdings@ == old(self).holdings@.insert(
                        span.address,
                        Holding { domain: old(self).heaps@[heap as int].domain, slices: span.slices as int, user: User::Pending },
                    )
                },
            },
    {
        let ghost before = *self;
        let ghost own = self.heaps@[heap as int];
        assert(before.heap_ok(heap as int));
        let address: usize = self.heaps[heap].medium_cache[slot];
        if address == 0 {
            proof {
                assert(own.medium_cache@.update(slot as int, 0) =~= own.medium_cache@);
                assert(uses_kept(before, before));
            }
            return None;
        }
        self.heaps[heap].medium_cache[slot] = 0;
        proof {
            let freed = Holding { domain: own.domain, slices: slices as int, user: User::Pending };
            self.holdings@ = before.holdings@.insert(address, freed);
            assert(holdings_ok(self.domains@, self.holdings@)) by {
                assert forall|at: usize| #[trigger] self.holdings@.dom().contains(at) implies held_ok(self.domains@, at, self.holdings@[at]) by {
                    assert(before.holdings@.dom().contains(at));
                }
                assert forall|l: usize, r: usize|
                    #![trigger self.holdings@.dom().contains(l), self.holdings@.dom().contains(r)]
                    self.holdings@.dom().contains(l) && self.holdings@.dom().contains(r) && l != r implies crate::allocator::holdings::spans_apart(
                    l as int,
                    self.holdings@[l].slices,
                    r as int,
                    self.holdings@[r].slices,
                ) by {
                    assert(before.holdings@.dom().contains(l) && before.holdings@.dom().contains(r));
                }
            }
            let now = self.heaps@[heap as int];
            assert(cache_held(now, self.holdings@)) by {
                assert forall|at: int|
                    #![trigger now.medium_cache@[at]]
                    0 <= at < LOCAL_MEDIUM_CLASSES && now.medium_cache@[at] != 0 implies self.holdings@.dom().contains(now.medium_cache@[at])
                    && self.holdings@[now.medium_cache@[at]] == (Holding {
                    domain: now.domain,
                    slices: pow2(at as nat) as int,
                    user: User::Cache { heap: now.address, slot: at },
                }) by {
                    assert(at != slot);
                    assert(now.medium_cache@[at] == own.medium_cache@[at]);
                    assert(own.medium_cache@[slot as int] == address);
                }
            }
            assert(users_kept(before.holdings@, self.holdings@, own.address, 0));
            assert(locality_held(now, self.holdings@, self.slabs@));
            lemma_arena_step(before, *self, heap as int);
            assert(smalls_kept(before, *self));
            assert(mediums_kept(before.domains@, self.domains@));
            assert(bumps_kept(before.bumps@, self.bumps@));
            assert(segments_stay(before.holdings@, self.holdings@));
            assert(refs_kept(before, *self, -1, 0));
            lemma_whole_goes_on(before, *self);
        }
        Some(KeptSpan { address, slices })
    }

    /// Takes every span out of a heap's cache: they are to be given back.
    pub fn drop_cache(&mut self, heap: usize) -> (spans: Vec<KeptSpan>)
        requires
            old(self).whole(),
            heap < old(self).heaps@.len(),
        ensures
            step_kept(*old(self), *final(self)),
            same_but_heap(*old(self), *final(self), heap as int),
            final(self).heaps@[heap as int].same_but_cache(&old(self).heaps@[heap as int]),
            final(self).heaps@[heap as int].retirement == old(self).heaps@[heap as int].retirement,
            final(self).heaps@[heap as int].track_aggregates == old(self).heaps@[heap as int].track_aggregates,
            final(self).domains == old(self).domains,
            final(self).slabs == old(self).slabs,
            final(self).out == old(self).out,
            final(self).mapped == old(self).mapped,
            spans@ == kept_spans(old(self).heaps@[heap as int].medium_cache@, LOCAL_MEDIUM_CLASSES as int),
            forall|slot: int| 0 <= slot < LOCAL_MEDIUM_CLASSES ==> #[trigger] final(self).heaps@[heap as int].medium_cache@[slot] == 0,
            forall|at: int|
                0 <= at < spans@.len() ==> kept_pending(*final(self), old(self).heaps@[heap as int].domain, #[trigger] spans@[at]),
    {
        let ghost before = *self;
        let ghost own = self.heaps@[heap as int];
        let mut spans: Vec<KeptSpan> = Vec::new();
        let mut slot: usize = 0;
        let mut slices: usize = 1;
        assert(before.heap_ok(heap as int));
        proof {
            vstd::arithmetic::power2::lemma2_to64();
        }
        while slot < LOCAL_MEDIUM_CLASSES
            invariant
                step_kept(before, *self),
                same_but_heap(before, *self, heap as int),
                own == before.heaps@[heap as int],
                heap < before.heaps@.len(),
                own.medium_cache@.len() == LOCAL_MEDIUM_CLASSES,
                self.heaps@[heap as int].medium_cache@.len() == LOCAL_MEDIUM_CLASSES,
                self.heaps@[heap as int].same_but_cache(&own),
                self.heaps@[heap as int].retirement == own.retirement,
                self.heaps@[heap as int].track_aggregates == own.track_aggregates,
                self.domains == before.domains,
                self.slabs == before.slabs,
                self.out == before.out,
                self.mapped == before.mapped,
                slot <= LOCAL_MEDIUM_CLASSES,
                slices == pow2(slot as nat),
                slices <= 256,
                spans@ == kept_spans(own.medium_cache@, slot as int),
                forall|at: int|
                    0 <= at < LOCAL_MEDIUM_CLASSES ==> #[trigger] self.heaps@[heap as int].medium_cache@[at] == if at < slot {
                        0
                    } else {
                        own.medium_cache@[at]
                    },
                forall|at: int| 0 <= at < spans@.len() ==> kept_pending(*self, own.domain, #[trigger] spans@[at]),
            decreases LOCAL_MEDIUM_CLASSES - slot,
        {
            let ghost middle = *self;
            let span: Option<KeptSpan> = self.drop_cached(heap, slot, slices);
            proof {
                assert forall|at: int| 0 <= at < spans@.len() implies kept_pending(*self, own.domain, #[trigger] spans@[at]) by {
                    assert(kept_pending(middle, own.domain, spans@[at]));
                }
            }
            if let Some(span) = span {
                spans.push(span);
            }
            proof {
                vstd::arithmetic::power2::lemma_pow2_unfold((slot + 1) as nat);
                vstd::arithmetic::power2::lemma2_to64();
                if slot < 7 {
                    vstd::arithmetic::power2::lemma_pow2_strictly_increases(slot as nat, 7);
                }
            }
            slices = slices * 2;
            slot = slot + 1;
        }
        spans
    }
}

/// The heap's segments of at most one slice count blocks as in use, from a place on.
pub open spec fn busy_from(space: Space, heap: int, from: int) -> bool {
    forall|at: int|
        from <= at < space.heaps@[heap].segments@.len() && (#[trigger] space.heaps@[heap].segments@[at]).slices <= 1 ==> piece_live(
            space.view_of(heap),
            space.sizes(),
            piece_of(space.heaps@[heap], at),
        ) > 0
}

/// Whether of the heap's segments of at most one slice those went that no block of is in use, and no
/// other piece.
pub open spec fn vacancies_only(before: Space, after: Space, heap: int) -> bool {
    let own = before.heaps@[heap];
    forall|at: int, slice: int, piece: Piece|
        #[trigger] own.piece_at(at, slice, piece) ==> (after.heaps@[heap].has_piece(piece) <==> own.segments@[at].slices > 1 || piece_live(
            before.view_of(heap),
            before.sizes(),
            piece,
        ) > 0)
}

/// Whether the release is of the memory that the slab lay in.
pub open spec fn releases_slab(release: StorageRelease, slab: usize) -> bool {
    release.address == slab || release.address + SLAB_SIZE == slab
}

/// Whether the slabs that are gone lay in memory that is given up, and the others are as they were.
pub open spec fn slabs_left(before: Space, after: Space, releases: Seq<StorageRelease>) -> bool {
    &&& forall|slab: usize|
        #[trigger] after.slabs@.dom().contains(slab) ==> before.slabs@.dom().contains(slab) && after.slabs@[slab] == before.slabs@[slab]
    &&& forall|slab: usize|
        #[trigger] before.slabs@.dom().contains(slab) && !after.slabs@.dom().contains(slab) ==> exists|at: int|
            0 <= at < releases.len() && #[trigger] releases_slab(releases[at], slab)
}

impl Space {
    /// Whether the heap's lists are those that it had, as far as they name slabs that are there.
    pub open spec fn lists_left(&self, after: &Space, heap: int) -> bool {
        lists_kept(self.view_of(heap), after.view_of(heap), after.slabs@.dom(), self.sizes().len() as int)
    }
}

/// The lists stay those that they were while slabs go.
proof fn lemma_lists_left_on(before: Space, middle: Space, after: Space, heap: int)
    requires
        middle.tuning == before.tuning,
        before.lists_left(&middle, heap),
        middle.lists_left(&after, heap),
        after.slabs@.dom().subset_of(middle.slabs@.dom()),
    ensures
        before.lists_left(&after, heap),
{
    lemma_lists_kept_on(
        before.view_of(heap),
        middle.view_of(heap),
        after.view_of(heap),
        middle.slabs@.dom(),
        after.slabs@.dom(),
        before.sizes().len() as int,
    );
}

/// What goes after something went adds its memory to what is given up.
proof fn lemma_slabs_left_on(
    before: Space,
    middle: Space,
    after: Space,
    first: Seq<StorageRelease>,
    second: Seq<StorageRelease>,
    all: Seq<StorageRelease>,
)
    requires
        slabs_left(before, middle, first),
        slabs_left(middle, after, second),
        all == first + second,
    ensures
        slabs_left(before, after, all),
{
    assert forall|slab: usize| #[trigger] after.slabs@.dom().contains(slab) implies before.slabs@.dom().contains(slab)
        && after.slabs@[slab] == before.slabs@[slab] by {
        assert(middle.slabs@.dom().contains(slab));
    }
    assert forall|slab: usize| #[trigger] before.slabs@.dom().contains(slab) && !after.slabs@.dom().contains(slab) implies exists|at: int|
        0 <= at < all.len() && #[trigger] releases_slab(all[at], slab) by {
        if middle.slabs@.dom().contains(slab) {
            let at = choose|at: int| 0 <= at < second.len() && #[trigger] releases_slab(second[at], slab);
            assert(releases_slab(all[first.len() + at], slab));
        } else {
            let at = choose|at: int| 0 <= at < first.len() && #[trigger] releases_slab(first[at], slab);
            assert(releases_slab(all[at], slab));
        }
    }
}

/// Whether what went of the heap so far are segments of at most one slice that no block of is in use,
/// and the segments at the places given are those that are left.
spec fn vacant_sofar(before: Space, now: Space, heap: int, places: Seq<int>) -> bool {
    let own = before.heaps@[heap];
    let left = now.heaps@[heap];
    &&& pieces_apart(own)
    &&& places.len() == left.segments@.len()
    &&& forall|at: int|
        #![trigger places[at]]
        0 <= at < places.len() ==> {
            &&& 0 <= places[at] < own.segments@.len()
            &&& left.segments@[at] == own.segments@[places[at]]
            &&& left.used_slabs(at) == own.used_slabs(places[at])
            &&& left.segments@[at].slices <= 1 ==> piece_live(now.view_of(heap), now.sizes(), piece_of(left, at)) == piece_live(
                before.view_of(heap),
                before.sizes(),
                piece_of(left, at),
            )
        }
    &&& forall|at: int, slice: int, piece: Piece|
        #[trigger] own.piece_at(at, slice, piece) && !left.has_piece(piece) ==> own.segments@[at].slices <= 1 && piece_live(
            before.view_of(heap),
            before.sizes(),
            piece,
        ) == 0
}

/// What went stays within what may go, once another segment that no block of is in use is gone.
proof fn lemma_vacant_on(before: Space, middle: Space, after: Space, heap: int, index: int, places: Seq<int>)
    requires
        before.whole(),
        middle.whole(),
        after.whole(),
        0 <= heap < before.heaps@.len(),
        0 <= heap < middle.heaps@.len(),
        0 <= heap < after.heaps@.len(),
        0 <= index < middle.heaps@[heap].segments@.len(),
        middle.heaps@[heap].segments@[index].slices <= 1,
        vacated(middle, after, heap, index),
        vacant_sofar(before, middle, heap, places),
        piece_live(middle.view_of(heap), middle.sizes(), piece_of(middle.heaps@[heap], index)) == 0,
    ensures
        vacant_sofar(before, after, heap, places.remove(index)),
{
    let own = before.heaps@[heap];
    let left = middle.heaps@[heap];
    let right = after.heaps@[heap];
    let gone = piece_of(left, index);
    let fewer = places.remove(index);
    lemma_vacated_pieces(middle, after, heap, index);
    assert forall|at: int|
        #![trigger fewer[at]]
        0 <= at < fewer.len() implies {
        &&& 0 <= fewer[at] < own.segments@.len()
        &&& right.segments@[at] == own.segments@[fewer[at]]
        &&& right.used_slabs(at) == own.used_slabs(fewer[at])
        &&& right.segments@[at].slices <= 1 ==> piece_live(after.view_of(heap), after.sizes(), piece_of(right, at)) == piece_live(
            before.view_of(heap),
            before.sizes(),
            piece_of(right, at),
        )
    } by {
        let from = if at < index {
            at
        } else {
            at + 1
        };
        assert(fewer[at] == places[from]);
        assert(right.segments@[at] == left.segments@[from]);
        assert(right.used_slabs(at) == left.used_slabs(from));
        if right.segments@[at].slices <= 1 {
            lemma_piece(middle, heap, from);
            lemma_piece(after, heap, at);
            assert(piece_of(right, at) == piece_of(left, from)) by {
                assert(0 * crate::allocator::classes::MEDIUM_SLICE_SIZE == 0);
            }
        }
    }
    assert(places[index] < own.segments@.len());
    assert(own.segment_pieces(places[index]) =~= left.segment_pieces(index));
    assert(own.piece_at(places[index], 0, gone));
    assert forall|at: int, slice: int, piece: Piece|
        #[trigger] own.piece_at(at, slice, piece) && !right.has_piece(piece) implies own.segments@[at].slices <= 1 && piece_live(
        before.view_of(heap),
        before.sizes(),
        piece,
    ) == 0 by {
        if left.has_piece(piece) {
            assert(piece == gone);
            assert(at == places[index]);
        }
    }
}

/// What is left counts blocks as in use, so that nothing else went and nothing else stayed.
proof fn lemma_vacancies(before: Space, after: Space, heap: int, places: Seq<int>)
    requires
        before.whole(),
        after.whole(),
        0 <= heap < before.heaps@.len(),
        0 <= heap < after.heaps@.len(),
        vacant_sofar(before, after, heap, places),
        busy_from(after, heap, 0),
    ensures
        vacancies_only(before, after, heap),
{
    let own = before.heaps@[heap];
    let left = after.heaps@[heap];
    assert forall|at: int, slice: int, piece: Piece| #[trigger] own.piece_at(at, slice, piece) implies (left.has_piece(piece)
        <==> own.segments@[at].slices > 1 || piece_live(before.view_of(heap), before.sizes(), piece) > 0) by {
        if left.has_piece(piece) && own.segments@[at].slices <= 1 {
            let (i, s) = choose|i: int, s: int| #[trigger] left.piece_at(i, s, piece);
            let from = places[i];
            assert(own.segment_pieces(from) =~= left.segment_pieces(i));
            assert(own.piece_at(from, s, piece));
            assert(from == at);
            assert(left.segments@[i].slices <= 1);
            assert(s == 0);
            assert(piece == piece_of(left, i));
        }
    }
}

impl Space {
    /// Lets go of every slice and mapping of a heap that no block of is in use.
    #[verifier::spinoff_prover]
    #[verifier::rlimit(60)]
    pub fn release_vacant(&mut self, heap: usize) -> (releases: Vec<StorageRelease>)
        requires
            old(self).whole(),
            heap < old(self).heaps@.len(),
        ensures
            step_kept(*old(self), *final(self)),
            uses_only(*old(self), *final(self), None),
            same_but_heap(*old(self), *final(self), heap as int),
            final(self).domains == old(self).domains,
            final(self).heaps@[heap as int].retirement == old(self).heaps@[heap as int].retirement,
            final(self).heaps@[heap as int].segments@.len() + releases@.len() == old(self).heaps@[heap as int].segments@.len(),
            pieces_released(old(self).heaps@[heap as int], final(self).heaps@[heap as int], releases@),
            vacancies_only(*old(self), *final(self), heap as int),
            slabs_left(*old(self), *final(self), releases@),
            old(self).lists_left(final(self), heap as int),
            busy_from(*final(self), heap as int, 0),
            final(self).heaps@[heap as int].medium_cache == old(self).heaps@[heap as int].medium_cache,
            others_held(old(self).holdings@, final(self).holdings@),
            forall|address: usize| #[trigger] final(self).mapped@.dom().contains(address) ==> old(self).mapped@.dom().contains(address),
            (forall|at: int|
                0 <= at < old(self).heaps@[heap as int].segments@.len() ==> (#[trigger] old(self).heaps@[heap as int].segments@[at]).slices <= 1)
                ==> (forall|at: int|
                0 <= at < final(self).heaps@[heap as int].segments@.len() ==> (#[trigger] final(self).heaps@[heap as int].segments@[at]).slices
                    <= 1),
            forall|at: int|
                0 <= at < releases@.len() ==> given_up(*final(self), old(self).heaps@[heap as int].domain, #[trigger] releases@[at]),
    {
        let ghost before = *self;
        let ghost domain = self.heaps@[heap as int].domain;
        let mut releases: Vec<StorageRelease> = Vec::new();
        let mut index: usize = self.heaps[heap].segments.len();
        let ghost mut places: Seq<int> = Seq::new(index as nat, |at: int| at);
        proof {
            lemma_heap_pieces_apart(before, heap as int);
            lemma_none_released(before.heaps@[heap as int], before.heaps@[heap as int]);
            assert forall|at: int, slice: int, piece: Piece|
                #[trigger] before.heaps@[heap as int].piece_at(at, slice, piece) implies before.heaps@[heap as int].has_piece(piece) by {}
        }
        proof {
            lemma_only_now(before);
            assert(before.heap_ok(heap as int));
            lemma_names_slabs(before.view_of(heap as int), before.sizes());
        }
        while index > 0
            invariant
                step_kept(before, *self),
                uses_only(before, *self, None),
                same_but_heap(before, *self, heap as int),
                heap < before.heaps@.len(),
                domain == before.heaps@[heap as int].domain,
                self.domains == before.domains,
                self.heaps@[heap as int].retirement == before.heaps@[heap as int].retirement,
                index <= self.heaps@[heap as int].segments@.len(),
                self.heaps@[heap as int].segments@.len() + releases@.len() == before.heaps@[heap as int].segments@.len(),
                pieces_apart(before.heaps@[heap as int]),
                pieces_released(before.heaps@[heap as int], self.heaps@[heap as int], releases@),
                before.whole(),
                slabs_left(before, *self, releases@),
                before.lists_left(self, heap as int),
                vacant_sofar(before, *self, heap as int, places),
                busy_from(*self, heap as int, index as int),
                self.heaps@[heap as int].medium_cache == before.heaps@[heap as int].medium_cache,
                others_held(before.holdings@, self.holdings@),
                forall|address: usize| #[trigger] self.mapped@.dom().contains(address) ==> before.mapped@.dom().contains(address),
                (forall|at: int|
                    0 <= at < before.heaps@[heap as int].segments@.len() ==> (#[trigger] before.heaps@[heap as int].segments@[at]).slices <= 1)
                    ==> (forall|at: int|
                    0 <= at < self.heaps@[heap as int].segments@.len() ==> (#[trigger] self.heaps@[heap as int].segments@[at]).slices <= 1),
                forall|at: int| 0 <= at < releases@.len() ==> given_up(*self, domain, #[trigger] releases@[at]),
            decreases index,
        {
            index = index - 1;
            if self.heaps[heap].segments[index].slices <= 1 {
                let ghost middle = *self;
                let release: Option<StorageRelease> = self.release_segment(heap, index);
                proof {
                    lemma_only_then(before, middle, *self, None);
                }
                if let Some(release) = release {
                    proof {
                        assert(middle.segments_held(heap as int));
                        assert(middle.segment_held(heap as int, index as int));
                        assert(middle.segment_placed(heap as int, index as int));
                        lemma_busy_on(middle, *self, heap as int, index as int);
                        lemma_vacant_on(before, middle, *self, heap as int, index as int, places);
                        places = places.remove(index as int);
                        lemma_vacated_pieces(middle, *self, heap as int, index as int);
                        lemma_released_on(
                            before.heaps@[heap as int],
                            middle.heaps@[heap as int],
                            self.heaps@[heap as int],
                            releases@,
                            seq![release],
                        );
                        assert(releases@.push(release) =~= releases@ + seq![release]);
                        assert(slabs_left(middle, *self, seq![release])) by {
                            assert forall|slab: usize| #[trigger] middle.slabs@.dom().contains(slab) && !self.slabs@.dom().contains(slab)
                                implies exists|at: int| 0 <= at < seq![release].len() && #[trigger] releases_slab(seq![release][at], slab) by {
                                assert(releases_slab(seq![release][0], slab));
                            }
                        }
                        lemma_slabs_left_on(before, middle, *self, releases@, seq![release], releases@.push(release));
                        lemma_lists_left_on(before, middle, *self, heap as int);
                        lemma_given_up_on(middle, *self, heap as int, index as int, domain, releases@);
                    }
                    releases.push(release);
                }
            }
        }
        proof {
            lemma_vacancies(before, *self, heap as int, places);
        }
        releases
    }
}

/// No block comes into use where the slabs, the domains, the bump heaps and the records stay.
proof fn lemma_same_still(before: Space, after: Space)
    requires
        before.inv(),
        after.inv(),
        after.tuning == before.tuning,
        after.slabs == before.slabs,
        after.out == before.out,
        after.domains == before.domains,
        after.bumps == before.bumps,
        after.records == before.records,
    ensures
        uses_only(before, after, None),
{
    assert(smalls_less(before, after));
    assert(mediums_less(before.domains@, after.domains@));
    assert(bumps_less(before.bumps@, after.bumps@));
    lemma_still(before, after);
}

/// What was given up stays so, and the next joins it.
proof fn lemma_given_up_on(before: Space, after: Space, heap: int, index: int, domain: usize, releases: Seq<StorageRelease>)
    requires
        before.whole(),
        0 <= heap < before.heaps@.len(),
        0 <= index < before.heaps@[heap].segments@.len(),
        domain == before.heaps@[heap].domain,
        vacated(before, after, heap, index),
        forall|at: int| 0 <= at < releases.len() ==> given_up(before, domain, #[trigger] releases[at]),
    ensures
        forall|at: int| 0 <= at < releases.len() ==> given_up(after, domain, #[trigger] releases[at]),
{
    assert(before.segments_held(heap));
    assert(before.segment_held(heap, index));
    assert(before.segment_placed(heap, index));
    assert forall|at: int| 0 <= at < releases.len() implies given_up(after, domain, #[trigger] releases[at]) by {
        assert(given_up(before, domain, releases[at]));
    }
}

/// What counts blocks as in use counts them still once another segment is gone.
proof fn lemma_busy_on(before: Space, after: Space, heap: int, index: int)
    requires
        before.whole(),
        after.whole(),
        0 <= heap < before.heaps@.len(),
        0 <= index < before.heaps@[heap].segments@.len(),
        before.heaps@[heap].segments@[index].slices <= 1,
        vacated(before, after, heap, index),
        busy_from(before, heap, index + 1),
    ensures
        busy_from(after, heap, index),
{
    let left = before.heaps@[heap];
    let right = after.heaps@[heap];
    assert forall|at: int| index <= at < right.segments@.len() && (#[trigger] right.segments@[at]).slices <= 1 implies piece_live(
        after.view_of(heap),
        after.sizes(),
        piece_of(right, at),
    ) > 0 by {
        assert(right.segments@[at] == left.segments@[at + 1]);
        assert(piece_live(before.view_of(heap), before.sizes(), piece_of(left, at + 1)) > 0);
        lemma_piece(before, heap, at + 1);
        lemma_piece(after, heap, at);
        assert(right.used_slabs(at) == left.used_slabs(at + 1));
        assert(piece_of(right, at) == piece_of(left, at + 1)) by {
            assert(0 * crate::allocator::classes::MEDIUM_SLICE_SIZE == 0);
        }
    }
}

/// What is left to do for a heap that is let go of.
pub struct Departure {
    /// Spans to decommit: go on with `settle_span` for each.
    pub spans: Vec<KeptSpan>,
    /// Slices to decommit, where they are committed, and to go on with `settle_chunk` for, and mappings to unmap.
    pub releases: Vec<StorageRelease>,
    /// How many of its slices and mappings, and of its blocks elsewhere as one, the heap waits for.
    pub retained: usize,
    /// How many blocks of it were on their way back from other threads.
    pub drained: usize,
}

/// The work on a heap's retirement alone keeps the blocks in use.
proof fn lemma_retirement_kept(before: Space, after: Space, heap: int)
    requires
        before.whole(),
        0 <= heap < before.heaps@.len(),
        same_but_direct(before, after, Some(heap as usize)),
        after.records == before.records,
        after.mapped == before.mapped,
    ensures
        step_kept(before, after),
{
    lemma_direct_step(before, after, Some(heap as usize));
    lemma_segments_go_on(before, after);
    lemma_refs_go_on(before, after, -1, 0);
    assert forall|block: Block| #[trigger] before.uses(block) implies after.uses(block) by {
        if !(block is Direct) {
            lemma_direct_uses(before, after, Some(heap as usize), block);
        }
    }
    lemma_records_go_on(before, after);
}

impl Space {
    /// Lets go of a heap. What it keeps is given up, and every slice of it that no block of is in use. It
    /// waits for the others: go on with `release_retired` whenever one of its blocks is freed.
    #[verifier::spinoff_prover]
    #[verifier::rlimit(60)]
    pub fn retire_general_heap(&mut self, heap: usize) -> (departure: Departure)
        requires
            old(self).whole(),
            heap < old(self).heaps@.len(),
        ensures
            step_kept(*old(self), *final(self)),
            uses_only(*old(self), *final(self), None),
            same_but_heap(*old(self), *final(self), heap as int),
            final(self).domains == old(self).domains,
            departure.spans@ == kept_spans(old(self).heaps@[heap as int].medium_cache@, LOCAL_MEDIUM_CLASSES as int),
            pieces_released(old(self).heaps@[heap as int], final(self).heaps@[heap as int], departure.releases@),
            slabs_left(*old(self), *final(self), departure.releases@),
            old(self).lists_left(final(self), heap as int),
            forall|piece: Piece|
                #[trigger] old(self).heaps@[heap as int].has_piece(piece) ==> (final(self).heaps@[heap as int].has_piece(piece)
                    <==> piece_live(old(self).view_of(heap as int), old(self).sizes(), piece) > 0),
            forall|at: int|
                0 <= at < departure.spans@.len() ==> kept_pending(
                    *final(self),
                    old(self).heaps@[heap as int].domain,
                    #[trigger] departure.spans@[at],
                ),
            forall|at: int|
                0 <= at < departure.releases@.len() ==> given_up(
                    *final(self),
                    old(self).heaps@[heap as int].domain,
                    #[trigger] departure.releases@[at],
                ),
            forall|slot: int| 0 <= slot < LOCAL_MEDIUM_CLASSES ==> #[trigger] final(self).heaps@[heap as int].medium_cache@[slot] == 0,
            forall|at: int|
                0 <= at < final(self).heaps@[heap as int].segments@.len() ==> (#[trigger] final(self).heaps@[heap as int].segments@[at]).slices
                    <= 1,
            busy_from(*final(self), heap as int, 0),
            ({
                let segments = final(self).heaps@[heap as int].segments@.len() as usize;
                departure.retained == if old(self).heaps@[heap as int].retirement.external_allocations != 0 {
                    segments.wrapping_add(1)
                } else {
                    segments
                }
            }),
            departure.drained as int == all_drains(
                old(self).view_of(heap as int),
                old(self).heaps@[heap as int].pieces(old(self).heaps@[heap as int].segments@.len() as int),
            ) % (usize::MAX + 1),
            final(self).heaps@[heap as int].retirement == (RetirementState {
                retiring: true,
                retirement_ready: true,
                retired_releases: departure.retained,
                external_allocations: old(self).heaps@[heap as int].retirement.external_allocations,
            }),
    {
        let ghost before = *self;
        let ghost domain = self.heaps@[heap as int].domain;
        proof {
            assert(before.heap_ok(heap as int));
            assert(before.segments_held(heap as int));
        }
        let drained: usize = count_drains(&self.heaps[heap], &self.slabs, &self.tuning);
        let spans: Vec<KeptSpan> = self.drop_cache(heap);
        let ghost flushed = *self;
        let mut releases: Vec<StorageRelease> = self.split_segments(heap);
        let ghost cut = *self;
        let ghost unused = releases@;
        let mut vacant: Vec<StorageRelease> = self.release_vacant(heap);
        let ghost vacated = vacant@;
        releases.append(&mut vacant);
        let ghost emptied = *self;
        proof {
            let first = before.heaps@[heap as int];
            let second = flushed.heaps@[heap as int];
            let third = cut.heaps@[heap as int];
            let fourth = emptied.heaps@[heap as int];
            lemma_heap_pieces_apart(before, heap as int);
            lemma_heap_pieces_apart(flushed, heap as int);
            lemma_none_released(first, second);
            lemma_released_on(second, third, fourth, unused, vacated);
            lemma_released_on(first, second, fourth, Seq::empty(), releases@);
            assert(Seq::empty() + releases@ =~= releases@);
            assert(cut.view_of(heap as int) == before.view_of(heap as int));
            assert forall|piece: Piece| #[trigger] first.has_piece(piece) implies (fourth.has_piece(piece) <==> piece_live(
                before.view_of(heap as int),
                before.sizes(),
                piece,
            ) > 0) by {
                assert(second.has_piece(piece));
                if third.has_piece(piece) {
                    let (at, slice) = choose|at: int, slice: int| #[trigger] third.piece_at(at, slice, piece);
                    assert(third.segments@[at].slices <= 1);
                }
            }
            assert forall|at: int| 0 <= at < spans@.len() implies kept_pending(emptied, domain, #[trigger] spans@[at]) by {
                assert(kept_pending(flushed, domain, spans@[at]));
            }
            assert forall|at: int| 0 <= at < releases@.len() implies given_up(emptied, domain, #[trigger] releases@[at]) by {
                if at < unused.len() {
                    assert(releases@[at] == unused[at]);
                    assert(slice_pending(cut, domain, unused[at].address));
                } else {
                    assert(releases@[at] == vacated[at - unused.len()]);
                }
            }
        }
        let external: usize = self.heaps[heap].retirement.external_allocations;
        let segments: usize = self.heaps[heap].segments.len();
        let retained: usize = if external != 0 {
            segments.wrapping_add(1)
        } else {
            segments
        };
        self.heaps[heap].retirement = RetirementState {
            retiring: true,
            retirement_ready: true,
            retired_releases: retained,
            external_allocations: external,
        };
        proof {
            lemma_retirement_kept(emptied, *self, heap as int);
            assert(slabs_left(before, cut, unused));
            lemma_slabs_left_on(before, cut, emptied, unused, vacated, releases@);
            lemma_same_still(before, cut);
            lemma_same_still(emptied, *self);
            lemma_only_then(before, cut, emptied, None);
            lemma_only_then(before, emptied, *self, None);
            lemma_none_released(emptied.heaps@[heap as int], self.heaps@[heap as int]);
            lemma_released_on(
                before.heaps@[heap as int],
                emptied.heaps@[heap as int],
                self.heaps@[heap as int],
                releases@,
                Seq::empty(),
            );
            assert(releases@ + Seq::empty() =~= releases@);
            assert(self.view_of(heap as int) == emptied.view_of(heap as int));
            assert forall|at: int| 0 <= at < self.heaps@[heap as int].segments@.len() implies #[trigger] piece_of(
                self.heaps@[heap as int],
                at,
            ) == piece_of(emptied.heaps@[heap as int], at) by {
                assert(self.heaps@[heap as int].used_slabs(at) == emptied.heaps@[heap as int].used_slabs(at));
            }
            assert(busy_from(*self, heap as int, 0)) by {
                assert forall|at: int|
                    0 <= at < self.heaps@[heap as int].segments@.len() && (#[trigger] self.heaps@[heap as int].segments@[at]).slices
                        <= 1 implies piece_live(self.view_of(heap as int), self.sizes(), piece_of(self.heaps@[heap as int], at)) > 0 by {
                    assert(emptied.heaps@[heap as int].segments@[at].slices <= 1);
                }
            }
        }
        Departure { spans, releases, retained, drained }
    }

    /// Lets go of what no block of is in use any more, where the heap was let go of. The heap's own
    /// storage goes with the last of what it waited for.
    #[verifier::spinoff_prover]
    #[verifier::rlimit(60)]
    pub fn release_retired(&mut self, heap: usize) -> (outcome: (Vec<StorageRelease>, bool))
        requires
            old(self).whole(),
            heap < old(self).heaps@.len(),
        ensures
            step_kept(*old(self), *final(self)),
            uses_only(*old(self), *final(self), None),
            !old(self).heaps@[heap as int].retirement.retiring ==> *final(self) == *old(self) && outcome.0@.len() == 0 && !outcome.1,
            old(self).heaps@[heap as int].retirement.retiring ==> {
                let before = old(self).heaps@[heap as int].retirement;
                let count = outcome.0@.len();
                &&& same_but_heap(*old(self), *final(self), heap as int)
                &&& final(self).domains == old(self).domains
                &&& busy_from(*final(self), heap as int, 0)
                &&& pieces_released(old(self).heaps@[heap as int], final(self).heaps@[heap as int], outcome.0@)
                &&& vacancies_only(*old(self), *final(self), heap as int)
                &&& slabs_left(*old(self), *final(self), outcome.0@)
                &&& old(self).lists_left(final(self), heap as int)
                &&& final(self).heaps@[heap as int].segments@.len() + count == old(self).heaps@[heap as int].segments@.len()
                &&& final(self).heaps@[heap as int].retirement == (RetirementState {
                    retired_releases: before.retired_releases.wrapping_sub(count as usize),
                    ..before
                })
                &&& outcome.1 == (1 <= before.retired_releases <= count)
            },
            forall|at: int|
                0 <= at < outcome.0@.len() ==> given_up(*final(self), old(self).heaps@[heap as int].domain, #[trigger] outcome.0@[at]),
    {
        let ghost before = *self;
        let ghost domain = self.heaps@[heap as int].domain;
        if !self.heaps[heap].retirement.retiring {
            proof {
                assert(uses_kept(before, before));
                lemma_only_now(before);
            }
            return (Vec::new(), false);
        }
        let releases: Vec<StorageRelease> = self.release_vacant(heap);
        let ghost emptied = *self;
        let ghost start = self.heaps@[heap as int].retirement;
        let mut gone: bool = false;
        let mut at: usize = 0;
        while at < releases.len()
            invariant
                at <= releases@.len(),
                heap < emptied.heaps@.len(),
                start == emptied.heaps@[heap as int].retirement,
                same_but_direct(emptied, *self, Some(heap)),
                self.records == emptied.records,
                self.mapped == emptied.mapped,
                self.heaps@[heap as int].retirement == (RetirementState {
                    retired_releases: start.retired_releases.wrapping_sub(at),
                    ..start
                }),
                gone == (1 <= start.retired_releases <= at),
            decreases releases@.len() - at,
        {
            let last: bool = self.heaps[heap].retirement.release_retired_group();
            if last {
                gone = true;
            }
            at = at + 1;
        }
        proof {
            lemma_retirement_kept(emptied, *self, heap as int);
            lemma_same_still(emptied, *self);
            lemma_only_then(before, emptied, *self, None);
            lemma_heap_pieces_apart(before, heap as int);
            lemma_none_released(emptied.heaps@[heap as int], self.heaps@[heap as int]);
            lemma_released_on(
                before.heaps@[heap as int],
                emptied.heaps@[heap as int],
                self.heaps@[heap as int],
                releases@,
                Seq::empty(),
            );
            assert(releases@ + Seq::empty() =~= releases@);
            assert(vacancies_only(before, *self, heap as int)) by {
                assert forall|piece: Piece| #[trigger] emptied.heaps@[heap as int].has_piece(piece) <==> self.heaps@[heap as int].has_piece(
                    piece,
                ) by {}
            }
            assert(self.view_of(heap as int) == emptied.view_of(heap as int));
            assert(busy_from(*self, heap as int, 0)) by {
                assert forall|at: int|
                    0 <= at < self.heaps@[heap as int].segments@.len() && (#[trigger] self.heaps@[heap as int].segments@[at]).slices
                        <= 1 implies piece_live(self.view_of(heap as int), self.sizes(), piece_of(self.heaps@[heap as int], at)) > 0 by {
                    assert(emptied.heaps@[heap as int].segments@[at].slices <= 1);
                    assert(self.heaps@[heap as int].used_slabs(at) == emptied.heaps@[heap as int].used_slabs(at));
                    assert(piece_of(self.heaps@[heap as int], at) == piece_of(emptied.heaps@[heap as int], at));
                }
            }
            assert forall|index: int| 0 <= index < releases@.len() implies given_up(*self, domain, #[trigger] releases@[index]) by {
                assert(given_up(emptied, domain, releases@[index]));
            }
        }
        (releases, gone)
    }
}

} // verus!
