//! Medium blocks of a space.

use vstd::prelude::*;
use vstd::arithmetic::power2::pow2;

use crate::allocator::arenas::{
    domain_step, fresh_region, lemma_domain_step, lemma_domains_apart, lemma_held, lemma_spans_held,
    lemma_unheld, same_regions,
};
use crate::allocator::classes::{
    cache_slot, medium_slices, LOCAL_MEDIUM_CLASSES, MEDIUM_MAX_SLICES, MEDIUM_REGION_SLICE_COUNT,
    MEDIUM_SLICE_SIZE,
};
use crate::allocator::domains::{
    due_spans, first_keeping, keeps_span, kept_slice, lemma_region_at, DomainState, PurgeSpan,
};
use crate::allocator::heaps::HeapState;
use crate::allocator::holdings::{
    lemma_idle_apart_live, lemma_live_length, registered, slices_freed, spans_apart, unregistered,
};
use crate::allocator::layout::Layout;
use crate::allocator::lives::{lemma_mediums_less, lemma_same_allocations, lemma_unregistered_lives, mediums_less};
use crate::allocator::medium::{
    begin_medium, continue_medium, continued, deallocate_medium, finish_medium, kept_after, kept_from, reused,
    served, MediumStep,
};
use crate::allocator::refills::{lemma_arena_step, same_but_heap, users_kept};
use crate::allocator::region::{Region, SpanOwner};
use crate::allocator::segments::segments_stay;
use crate::allocator::space::{cache_held, domains_ok, held_ok, holdings_ok, locality_held, Holding, Space, User};

verus! {

/// What a heap keeps for medium blocks is held for it, so it is in order.
pub proof fn lemma_cache_ok(space: Space, heap: int)
    requires
        space.inv(),
        0 <= heap < space.heaps@.len(),
    ensures
        space.heaps@[heap].cache_ok(&space.domains@[space.heaps@[heap].domain - 1]),
{
    assert(space.heap_ok(heap));
    let own = space.heaps@[heap];
    let domain = space.domains@[own.domain - 1];
    assert forall|slot: int|
        #![trigger own.medium_cache@[slot]]
        0 <= slot < LOCAL_MEDIUM_CLASSES && own.medium_cache@[slot] != 0 implies domain.idle_span(
        own.medium_cache@[slot] as int,
        pow2(slot as nat) as int,
    ) by {
        let address = own.medium_cache@[slot];
        assert(held_ok(space.domains@, address, space.holdings@[address]));
    }
    assert forall|left: int, right: int|
        #![trigger own.medium_cache@[left], own.medium_cache@[right]]
        0 <= left < right < LOCAL_MEDIUM_CLASSES && own.medium_cache@[left] != 0 && own.medium_cache@[right] != 0 implies spans_apart(
        own.medium_cache@[left] as int,
        pow2(left as nat) as int,
        own.medium_cache@[right] as int,
        pow2(right as nat) as int,
    ) by {
        let first = own.medium_cache@[left];
        let second = own.medium_cache@[right];
        assert(space.holdings@[first].user != space.holdings@[second].user);
        assert(space.holdings@.dom().contains(first) && space.holdings@.dom().contains(second));
    }
}

/// Whether the spans are none that anyone holds or uses, so that their memory can be given back.
pub open spec fn purge_pending(space: Space, heap: int, spans: Seq<PurgeSpan>) -> bool {
    let domain = space.domains@[space.heaps@[heap].domain - 1];
    &&& forall|at: int|
        #![trigger spans[at]]
        0 <= at < spans.len() ==> domain.is_span(spans[at].address as int, spans[at].slices as int)
    &&& forall|a: int, s: int| #[trigger] domain.medium_live(a, s) ==> DomainState::apart_from_all(a, s, spans)
    &&& forall|address: usize|
        #[trigger] space.holdings@.dom().contains(address) && space.holdings@[address].domain == space.heaps@[heap].domain
            ==> DomainState::apart_from_all(address as int, space.holdings@[address].slices, spans)
}

/// Whether the span was taken for the heap and its memory is not committed yet.
pub open spec fn span_pending(space: Space, heap: int, address: usize, slices: int) -> bool {
    &&& space.holdings@.dom().contains(address)
    &&& space.holdings@[address] == (Holding { domain: space.heaps@[heap].domain, slices, user: User::Pending })
}

/// Whether every medium block of every domain is as it was.
pub open spec fn mediums_kept(before: Seq<DomainState>, after: Seq<DomainState>) -> bool {
    forall|at: int, a: int, s: int|
        #![trigger after[at].medium_live(a, s)]
        #![trigger before[at].medium_live(a, s)]
        0 <= at < before.len() && before[at].medium_live(a, s) ==> after[at].medium_live(a, s) && after[at].medium_at(a)
            == before[at].medium_at(a)
}

proof fn lemma_same_bases(before: DomainState, after: DomainState)
    requires
        after.id == before.id,
        after.same_bases(&before),
        after.regions@.len() == before.regions@.len(),
    ensures
        same_regions(before, after),
{
}

/// Whether nothing but the domains, the held spans and the one heap may differ.
pub open spec fn arena_only(before: Space, after: Space, heap: int) -> bool {
    &&& same_but_heap(before, after, heap)
    &&& after.heaps@[heap].same_but_cache(&before.heaps@[heap])
    &&& after.slabs == before.slabs
    &&& after.out == before.out
    &&& after.mapped == before.mapped
    &&& segments_stay(before.holdings@, after.holdings@)
    &&& forall|other: int|
        #![trigger after.domains@[other]]
        0 <= other < before.domains@.len() && other != before.heaps@[heap].domain - 1 ==> after.domains@[other]
            == before.domains@[other]
}

/// Whether the span at hand is a medium block of the heap now: one that the heap kept, or else one
/// that its domain did.
pub open spec fn span_drawn(before: Space, after: Space, heap: int, layout: Layout, address: usize) -> bool {
    let own = before.heaps@[heap];
    let left = before.domains@[own.domain - 1];
    let right = after.domains@[own.domain - 1];
    let slices = medium_slices(layout)->0;
    let slot = own.cache_slot(slices as int);
    if slot is Some && own.medium_cache@[slot->0 as int] != 0 {
        &&& after.heaps@[heap].medium_cache@ == own.medium_cache@.update(slot->0 as int, 0)
        &&& registered(&left, &right, address, slices, layout.size, own.span_owner())
        &&& after.holdings@ == before.holdings@.remove(address)
    } else {
        &&& after.heaps@[heap].medium_cache@ == own.medium_cache@
        &&& reused(&left, &right, address, slices, layout.size, own.span_owner())
        &&& after.holdings@ == before.holdings@
    }
}

/// The span that is at hand for so many slices, or 0: the one that the heap keeps, or else the first
/// that its domain does.
pub open spec fn span_at_hand(space: Space, heap: int, slices: int) -> int {
    let own = space.heaps@[heap];
    let regions = space.domains@[own.domain - 1].regions@;
    let slot = own.cache_slot(slices);
    if slot is Some && own.medium_cache@[slot->0 as int] != 0 {
        own.medium_cache@[slot->0 as int] as int
    } else {
        match first_keeping(regions, 0, slices) {
            Some(index) => regions[index].address_of(kept_slice(regions[index], slices)),
            None => 0,
        }
    }
}

/// Whether every region is there as it was, with the spans that it keeps.
pub open spec fn stores_kept(before: Seq<DomainState>, after: Seq<DomainState>) -> bool {
    &&& after.len() == before.len()
    &&& forall|at: int| 0 <= at < before.len() ==> same_stores(before[at].regions@, (#[trigger] after[at]).regions@)
}

/// Whether the regions keep the same spans.
pub open spec fn same_stores(before: Seq<Region>, after: Seq<Region>) -> bool {
    &&& after.len() == before.len()
    &&& forall|index: int|
        #![trigger after[index]]
        0 <= index < before.len() ==> {
            &&& after[index].base == before[index].base
            &&& after[index].bins == before[index].bins
            &&& after[index].large_free == before[index].large_free
        }
}

/// The first region that keeps a span is the same one where the regions keep the same spans.
proof fn lemma_same_keeping(before: Seq<Region>, after: Seq<Region>, start: int, slices: int)
    requires
        same_stores(before, after),
    ensures
        first_keeping(after, start, slices) == first_keeping(before, start, slices),
        first_keeping(after, start, slices) matches Some(index) ==> 0 <= index < after.len(),
    decreases before.len() - start,
{
    if 0 <= start < before.len() {
        assert(after[start].bins == before[start].bins && after[start].large_free == before[start].large_free);
        lemma_same_keeping(before, after, start + 1, slices);
    }
}

/// The span at hand is the same one where the heaps and the spans that are kept are.
pub proof fn lemma_same_span(before: Space, after: Space, heap: int, slices: int)
    requires
        before.inv(),
        0 <= heap < before.heaps@.len(),
        after.heaps == before.heaps,
        stores_kept(before.domains@, after.domains@),
    ensures
        span_at_hand(after, heap, slices) == span_at_hand(before, heap, slices),
{
    assert(before.heap_ok(heap));
    let place = before.heaps@[heap].domain - 1;
    let left = before.domains@[place].regions@;
    let right = after.domains@[place].regions@;
    assert(same_stores(left, right));
    lemma_same_keeping(left, right, 0, slices);
    if let Some(index) = first_keeping(right, 0, slices) {
        assert(right[index].bins == left[index].bins);
    }
}

impl Space {
    /// Starts on a medium block: from what the heap keeps, from what its domain keeps, or with the
    /// spans whose memory can be given back before slices are taken.
    pub fn begin_medium(&mut self, heap: usize, layout: Layout, now: u64, track_aggregates: bool) -> (step: MediumStep)
        requires
            old(self).inv(),
            heap < old(self).heaps@.len(),
        ensures
            final(self).inv(),
            arena_only(*old(self), *final(self), heap as int),
            forall|block: usize| #[trigger] final(self).loose(block) == old(self).loose(block),
            mediums_kept(old(self).domains@, final(self).domains@),
            !(step is Served) ==> mediums_less(old(self).domains@, final(self).domains@),
            step is Unfit <==> medium_slices(layout) is None,
            match step {
                MediumStep::Unfit => final(self).domains@ == old(self).domains@,
                MediumStep::Served { address } => {
                    &&& address == span_at_hand(*old(self), heap as int, medium_slices(layout)->0 as int)
                    &&& served(
                        &old(self).domains@[old(self).heaps@[heap as int].domain - 1],
                        &final(self).domains@[old(self).heaps@[heap as int].domain - 1],
                        &old(self).heaps@[heap as int],
                        &final(self).heaps@[heap as int],
                        layout,
                        address,
                    )
                    &&& span_drawn(*old(self), *final(self), heap as int, layout, address)
                    &&& final(self).heaps@[heap as int].track_aggregates == track_aggregates
                },
                MediumStep::Purge { spans } => {
                    let regions = old(self).domains@[old(self).heaps@[heap as int].domain - 1].regions@;
                    let left = final(self).domains@[old(self).heaps@[heap as int].domain - 1].regions@;
                    &&& span_at_hand(*old(self), heap as int, medium_slices(layout)->0 as int) == 0
                    &&& final(self).heaps@[heap as int].track_aggregates == track_aggregates
                    &&& final(self).heaps@[heap as int].retirement == old(self).heaps@[heap as int].retirement
                    &&& final(self).heaps@[heap as int].medium_cache@ == old(self).heaps@[heap as int].medium_cache@
                    &&& final(self).holdings == old(self).holdings
                    &&& spans@ == due_spans(regions, regions.len() as int, now, false)
                    &&& left.len() == regions.len()
                    &&& forall|index: int|
                        #![trigger left[index]]
                        0 <= index < left.len() ==> left[index].without_due(&regions[index], now, false)
                    &&& purge_pending(*final(self), heap as int, spans@)
                },
            },
    {
        let ghost before = *self;
        let ghost at = heap as int;
        assert(self.heap_ok(at));
        let place: usize = self.heaps[heap].domain - 1;
        proof {
            lemma_cache_ok(before, at);
            assert(before.domains@[place as int].wf());
        }
        let step: MediumStep = begin_medium(&mut self.heaps[heap], &mut self.domains[place], layout, now, track_aggregates);
        proof {
            let left = before.domains@[place as int];
            let right = self.domains@[place as int];
            let own = before.heaps@[at];
            lemma_same_bases(left, right);
            assert(domain_step(before.domains@, self.domains@, place as int, before.mapped@, None));
            lemma_domain_step(before.domains@, self.domains@, place as int, before.mapped@, None);
            match &step {
                MediumStep::Unfit => {
                    assert(self.domains@ =~= before.domains@);
                },
                MediumStep::Served { address } => {
                    let slices = medium_slices(layout)->0 as int;
                    let slot = own.cache_slot(slices);
                    if slot is Some && own.medium_cache@[slot->0 as int] != 0 {
                        assert(slices == pow2(slot->0 as nat));
                        self.holdings@ = before.holdings@.remove(*address);
                        lemma_unheld(before.domains@, self.domains@, place as int, before.holdings@, *address);
                        lemma_cache_dropped(own, self.heaps@[at], before.holdings@, *address, slot->0 as int);
                    } else {
                        assert(own.medium_cache@ == self.heaps@[at].medium_cache@);
                        assert forall|other: usize| #[trigger] before.holdings@.dom().contains(other) implies held_ok(
                            self.domains@,
                            other,
                            before.holdings@[other],
                        ) by {
                            assert(held_ok(before.domains@, other, before.holdings@[other]));
                            if before.holdings@[other].domain - 1 == place {
                                assert(left.idle_span(other as int, before.holdings@[other].slices));
                            }
                        }
                    }
                },
                MediumStep::Purge { spans } => {
                    lemma_spans_held(before.domains@, self.domains@, place as int, before.holdings@);
                    assert forall|address: usize|
                        #[trigger] before.holdings@.dom().contains(address) && before.holdings@[address].domain == own.domain implies DomainState::apart_from_all(
                        address as int,
                        before.holdings@[address].slices,
                        spans@,
                    ) by {
                        assert(held_ok(before.domains@, address, before.holdings@[address]));
                        assert(left.idle_span(address as int, before.holdings@[address].slices));
                        assert forall|index: int| #![trigger spans@[index]] 0 <= index < spans@.len() implies spans_apart(
                            address as int,
                            before.holdings@[address].slices,
                            spans@[index].address as int,
                            spans@[index].slices as int,
                        ) by {
                            assert(left.unused_span(spans@[index].address as int, spans@[index].slices as int));
                        }
                    }
                },
            }
            assert(holdings_ok(self.domains@, self.holdings@));
            assert(users_kept(before.holdings@, self.holdings@, own.address, 0));
            assert(cache_held(self.heaps@[at], self.holdings@));
            assert(locality_held(self.heaps@[at], self.holdings@, self.slabs@));
            lemma_arena_step(before, *self, at);
            if !(step is Served) {
                lemma_mediums_less(before.domains@, self.domains@, place as int);
            }
        }
        step
    }

    /// Settles the purge and takes the slices of a medium block. Also says whether the spare
    /// region was used.
    pub fn continue_medium(
        &mut self,
        heap: usize,
        layout: Layout,
        spans: &Vec<PurgeSpan>,
        decommitted: &Vec<bool>,
        spare: Option<usize>,
    ) -> (taken: Option<(usize, bool)>)
        requires
            old(self).inv(),
            heap < old(self).heaps@.len(),
            medium_slices(layout) is Some,
            1 <= medium_slices(layout)->0 <= MEDIUM_REGION_SLICE_COUNT,
            spans@.len() == decommitted@.len(),
            purge_pending(*old(self), heap as int, spans@),
            spare matches Some(base) ==> fresh_region(old(self).domains@, old(self).mapped@, base),
        ensures
            final(self).inv(),
            arena_only(*old(self), *final(self), heap as int),
            final(self).heaps == old(self).heaps,
            forall|block: usize| #[trigger] final(self).loose(block) == old(self).loose(block),
            mediums_kept(old(self).domains@, final(self).domains@),
            mediums_less(old(self).domains@, final(self).domains@),
            taken matches Some((address, appended)) ==> span_pending(
                *final(self),
                heap as int,
                address,
                medium_slices(layout)->0 as int,
            ),
            taken is None ==> spare is None,
            taken matches Some((address, appended)) && appended ==> spare is Some,
            continued(
                &old(self).domains@[old(self).heaps@[heap as int].domain - 1],
                &final(self).domains@[old(self).heaps@[heap as int].domain - 1],
                spans@,
                decommitted@,
                spare,
                medium_slices(layout)->0 as int,
                taken,
            ),
    {
        let ghost before = *self;
        let ghost at = heap as int;
        let ghost slices = medium_slices(layout)->0 as int;
        assert(self.heap_ok(at));
        let place: usize = self.heaps[heap].domain - 1;
        let count: usize = match crate::allocator::classes::medium_slice_count(layout) {
            Some(count) => count,
            None => 1,
        };
        proof {
            lemma_cache_ok(before, at);
            let domain = before.domains@[place as int];
            let own = before.heaps@[at];
            assert(domain.wf());
            assert forall|index: int| #![trigger spans@[index]] 0 <= index < spans@.len() implies domain.is_span(
                spans@[index].address as int,
                spans@[index].slices as int,
            ) && own.cache_apart(spans@[index].address as int, spans@[index].slices as int) by {
                assert forall|slot: int|
                    #![trigger own.medium_cache@[slot]]
                    0 <= slot < LOCAL_MEDIUM_CLASSES && own.medium_cache@[slot] != 0 implies spans_apart(
                    own.medium_cache@[slot] as int,
                    pow2(slot as nat) as int,
                    spans@[index].address as int,
                    spans@[index].slices as int,
                ) by {
                    let address = own.medium_cache@[slot];
                    assert(before.holdings@.dom().contains(address));
                    assert(DomainState::apart_from_all(address as int, before.holdings@[address].slices, spans@));
                }
            }
            if let Some(base) = spare {
                assert forall|index: int| 0 <= index < domain.regions@.len() implies crate::allocator::domains::apart(
                    (#[trigger] domain.regions@[index]).base as int,
                    base as int,
                ) by {
                    assert(crate::allocator::domains::apart(before.domains@[place as int].regions@[index].base as int, base as int));
                }
            }
        }
        let taken: Option<(usize, bool)> = continue_medium(
            &self.heaps[heap],
            &mut self.domains[place],
            count,
            spans,
            decommitted,
            spare,
        );
        proof {
            let left = before.domains@[place as int];
            let right = self.domains@[place as int];
            let grown: Option<usize> = match taken {
                Some((address, appended)) => if appended {
                    Some(address)
                } else {
                    None
                },
                None => None,
            };
            assert(domain_step(before.domains@, self.domains@, place as int, before.mapped@, grown));
            lemma_domain_step(before.domains@, self.domains@, place as int, before.mapped@, grown);
            assert forall|other: usize| #[trigger] before.holdings@.dom().contains(other) implies held_ok(
                self.domains@,
                other,
                before.holdings@[other],
            ) && (taken matches Some((address, appended)) ==> spans_apart(
                other as int,
                before.holdings@[other].slices,
                address as int,
                slices,
            )) by {
                let holding = before.holdings@[other];
                assert(held_ok(before.domains@, other, holding));
                if holding.domain - 1 == place {
                    assert(left.idle_span(other as int, holding.slices));
                    assert(DomainState::apart_from_all(other as int, holding.slices, spans@));
                } else if let Some((address, appended)) = taken {
                    assert(self.domains@[holding.domain - 1] == before.domains@[holding.domain - 1]);
                    assert(right.idle_span(address as int, slices));
                    lemma_domains_apart(
                        self.domains@,
                        holding.domain - 1,
                        other as int,
                        holding.slices,
                        place as int,
                        address as int,
                        slices,
                    );
                }
            }
            assert(holdings_ok(self.domains@, before.holdings@));
            if let Some((address, appended)) = taken {
                let holding = Holding { domain: before.heaps@[at].domain, slices, user: User::Pending };
                assert(held_ok(self.domains@, address, holding));
                assert(!before.holdings@.dom().contains(address)) by {
                    if before.holdings@.dom().contains(address) {
                        assert(held_ok(before.domains@, address, before.holdings@[address]));
                        assert(spans_apart(address as int, before.holdings@[address].slices, address as int, slices));
                        lemma_meets_itself(address as int, before.holdings@[address].slices, slices);
                    }
                }
                lemma_held(self.domains@, before.holdings@, address, holding);
                self.holdings@ = before.holdings@.insert(address, holding);
            }
            assert(users_kept(before.holdings@, self.holdings@, 0, 0));
            assert(users_kept(before.holdings@, self.holdings@, before.heaps@[at].address, 0));
            assert(cache_held(self.heaps@[at], self.holdings@)) by {
                assert forall|slot: int|
                    #![trigger self.heaps@[at].medium_cache@[slot]]
                    0 <= slot < LOCAL_MEDIUM_CLASSES && self.heaps@[at].medium_cache@[slot] != 0 implies {
                    let address = self.heaps@[at].medium_cache@[slot];
                    self.holdings@.dom().contains(address) && self.holdings@[address] == before.holdings@[address]
                } by {
                    assert(before.holdings@.dom().contains(before.heaps@[at].medium_cache@[slot]));
                }
            }
            assert(locality_held(self.heaps@[at], self.holdings@, self.slabs@));
            lemma_arena_step(before, *self, at);
            lemma_mediums_less(before.domains@, self.domains@, place as int);
        }
        taken
    }

    /// Finishes a medium block whose slices were taken: puts it to use, or gives the slices back
    /// where the memory could not be committed. Gives 0 then.
    pub fn finish_medium(&mut self, heap: usize, layout: Layout, address: usize, committed: bool) -> (allocation: usize)
        requires
            old(self).inv(),
            heap < old(self).heaps@.len(),
            medium_slices(layout) is Some,
            span_pending(*old(self), heap as int, address, medium_slices(layout)->0 as int),
        ensures
            final(self).inv(),
            arena_only(*old(self), *final(self), heap as int),
            forall|block: usize| #[trigger] final(self).loose(block) == old(self).loose(block),
            mediums_kept(old(self).domains@, final(self).domains@),
            !committed ==> mediums_less(old(self).domains@, final(self).domains@),
            if committed {
                &&& allocation == address
                &&& served(
                    &old(self).domains@[old(self).heaps@[heap as int].domain - 1],
                    &final(self).domains@[old(self).heaps@[heap as int].domain - 1],
                    &old(self).heaps@[heap as int],
                    &final(self).heaps@[heap as int],
                    layout,
                    address,
                )
                &&& registered(
                    &old(self).domains@[old(self).heaps@[heap as int].domain - 1],
                    &final(self).domains@[old(self).heaps@[heap as int].domain - 1],
                    address,
                    medium_slices(layout)->0,
                    layout.size,
                    old(self).heaps@[heap as int].span_owner(),
                )
                &&& final(self).heaps@[heap as int].medium_cache == old(self).heaps@[heap as int].medium_cache
                &&& final(self).heaps@[heap as int].track_aggregates == old(self).heaps@[heap as int].track_aggregates
                &&& final(self).holdings@ == old(self).holdings@.remove(address)
            } else {
                &&& allocation == 0
                &&& final(self).heaps@ == old(self).heaps@
                &&& slices_freed(
                    &old(self).domains@[old(self).heaps@[heap as int].domain - 1],
                    &final(self).domains@[old(self).heaps@[heap as int].domain - 1],
                    address,
                    medium_slices(layout)->0 as int,
                )
                &&& final(self).holdings@ == old(self).holdings@.remove(address)
            },
    {
        let ghost before = *self;
        let ghost at = heap as int;
        let ghost slices = medium_slices(layout)->0 as int;
        assert(self.heap_ok(at));
        let place: usize = self.heaps[heap].domain - 1;
        proof {
            lemma_cache_ok(before, at);
            let own = before.heaps@[at];
            assert(before.domains@[place as int].wf());
            assert(held_ok(before.domains@, address, before.holdings@[address]));
            assert forall|slot: int|
                #![trigger own.medium_cache@[slot]]
                0 <= slot < LOCAL_MEDIUM_CLASSES && own.medium_cache@[slot] != 0 implies spans_apart(
                own.medium_cache@[slot] as int,
                pow2(slot as nat) as int,
                address as int,
                slices,
            ) by {
                let cached = own.medium_cache@[slot];
                assert(before.holdings@.dom().contains(cached));
                assert(before.holdings@[cached].user != before.holdings@[address].user);
            }
        }
        let allocation: usize = finish_medium(&mut self.heaps[heap], &mut self.domains[place], layout, address, committed);
        proof {
            let left = before.domains@[place as int];
            let right = self.domains@[place as int];
            let own = before.heaps@[at];
            lemma_same_bases(left, right);
            assert(domain_step(before.domains@, self.domains@, place as int, before.mapped@, None));
            lemma_domain_step(before.domains@, self.domains@, place as int, before.mapped@, None);
            self.holdings@ = before.holdings@.remove(address);
            lemma_unheld(before.domains@, self.domains@, place as int, before.holdings@, address);
            assert(users_kept(before.holdings@, self.holdings@, own.address, 0));
            assert(cache_held(self.heaps@[at], self.holdings@)) by {
                assert forall|slot: int|
                    #![trigger self.heaps@[at].medium_cache@[slot]]
                    0 <= slot < LOCAL_MEDIUM_CLASSES && self.heaps@[at].medium_cache@[slot] != 0 implies {
                    let cached = self.heaps@[at].medium_cache@[slot];
                    self.holdings@.dom().contains(cached) && self.holdings@[cached] == before.holdings@[cached]
                } by {
                    assert(before.holdings@.dom().contains(own.medium_cache@[slot]));
                }
            }
            assert(locality_held(self.heaps@[at], self.holdings@, self.slabs@));
            assert forall|index: int, a: int, s: int|
                #![trigger self.domains@[index].medium_live(a, s)]
                #![trigger before.domains@[index].medium_live(a, s)]
                0 <= index < before.domains@.len() && before.domains@[index].medium_live(a, s) implies self.domains@[index].medium_live(a, s)
                && self.domains@[index].medium_at(a) == before.domains@[index].medium_at(a) by {
                if index == place {
                    lemma_live_length(&left, a, s);
                    lemma_idle_apart_live(&left, address as int, slices, a, s);
                }
            }
            lemma_arena_step(before, *self, at);
            if !committed {
                lemma_mediums_less(before.domains@, self.domains@, place as int);
            }
        }
        allocation
    }
}

/// Nothing that has slices is apart from what starts where it starts.
pub proof fn lemma_meets_itself(address: int, left: int, right: int)
    requires
        left > 0,
        right > 0,
    ensures
        !spans_apart(address, left, address, right),
{
    assert(left * MEDIUM_SLICE_SIZE > 0 && right * MEDIUM_SLICE_SIZE > 0) by (nonlinear_arith)
        requires
            left > 0,
            right > 0,
            MEDIUM_SLICE_SIZE == 65536,
    ;
}

/// The heap keeps one span less: the others are held for it still.
proof fn lemma_cache_dropped(before: HeapState, after: HeapState, holdings: Map<usize, Holding>, address: usize, slot: int)
    requires
        cache_held(before, holdings),
        after.address == before.address,
        after.domain == before.domain,
        0 <= slot < LOCAL_MEDIUM_CLASSES,
        before.medium_cache@.len() == LOCAL_MEDIUM_CLASSES,
        address != 0,
        before.medium_cache@[slot] == address,
        after.medium_cache@ == before.medium_cache@.update(slot, 0),
    ensures
        cache_held(after, holdings.remove(address)),
{
    assert(holdings[address].user == User::Cache { heap: before.address, slot });
    assert forall|other: int|
        #![trigger after.medium_cache@[other]]
        0 <= other < LOCAL_MEDIUM_CLASSES && after.medium_cache@[other] != 0 implies {
        let cached = after.medium_cache@[other];
        &&& holdings.remove(address).dom().contains(cached)
        &&& holdings.remove(address)[cached] == (Holding {
            domain: after.domain,
            slices: pow2(other as nat) as int,
            user: User::Cache { heap: after.address, slot: other },
        })
    } by {
        assert(other != slot);
        let cached = before.medium_cache@[other];
        assert(holdings[cached].user == User::Cache { heap: before.address, slot: other });
    }
}

/// A held span is apart from every medium block.
pub proof fn lemma_held_apart_live(space: Space, held: usize, place: int, address: int, slices: int)
    requires
        domains_ok(space.domains@),
        holdings_ok(space.domains@, space.holdings@),
        space.holdings@.dom().contains(held),
        0 <= place < space.domains@.len(),
        space.domains@[place].medium_live(address, slices),
    ensures
        spans_apart(held as int, space.holdings@[held].slices, address, slices),
        0 < slices,
{
    let holding = space.holdings@[held];
    assert(held_ok(space.domains@, held, holding));
    assert(space.domains@[place].wf());
    lemma_live_length(&space.domains@[place], address, slices);
    if holding.domain - 1 == place {
        lemma_idle_apart_live(&space.domains@[place], held as int, holding.slices, address, slices);
    } else {
        lemma_domains_apart(space.domains@, holding.domain - 1, held as int, holding.slices, place, address, slices);
    }
}

/// The heap keeps one span more, in place of what it kept for that many slices.
proof fn lemma_cache_put(
    before: HeapState,
    after: HeapState,
    holdings: Map<usize, Holding>,
    address: usize,
    slot: int,
)
    requires
        cache_held(before, holdings),
        after.address == before.address,
        after.domain == before.domain,
        0 <= slot < LOCAL_MEDIUM_CLASSES,
        before.medium_cache@.len() == LOCAL_MEDIUM_CLASSES,
        address != 0,
        !holdings.dom().contains(address),
        after.medium_cache@ == before.medium_cache@.update(slot, address),
    ensures
        ({
            let holding = Holding {
                domain: before.domain,
                slices: pow2(slot as nat) as int,
                user: User::Cache { heap: before.address, slot },
            };
            let displaced = before.medium_cache@[slot];
            let rest = if displaced == 0 {
                holdings
            } else {
                holdings.remove(displaced)
            };
            cache_held(after, rest.insert(address, holding))
        }),
{
    let holding = Holding {
        domain: before.domain,
        slices: pow2(slot as nat) as int,
        user: User::Cache { heap: before.address, slot },
    };
    let displaced = before.medium_cache@[slot];
    let rest = if displaced == 0 {
        holdings
    } else {
        holdings.remove(displaced)
    };
    let now = rest.insert(address, holding);
    assert forall|other: int|
        #![trigger after.medium_cache@[other]]
        0 <= other < LOCAL_MEDIUM_CLASSES && after.medium_cache@[other] != 0 implies {
        let cached = after.medium_cache@[other];
        &&& now.dom().contains(cached)
        &&& now[cached] == (Holding {
            domain: after.domain,
            slices: pow2(other as nat) as int,
            user: User::Cache { heap: after.address, slot: other },
        })
    } by {
        if other != slot {
            let cached = before.medium_cache@[other];
            assert(holdings[cached].user == User::Cache { heap: before.address, slot: other });
            if displaced != 0 {
                assert(holdings[displaced].user == User::Cache { heap: before.address, slot });
            }
            assert(cached != address);
        }
    }
}

/// Whether the block is in use as a medium block of the domain at that place.
pub open spec fn medium_used(space: Space, place: int, address: usize, slices: int) -> bool {
    0 <= place < space.domains@.len() && space.domains@[place].medium_live(address as int, slices)
}

/// Whether a heap takes back the medium block that was made for it, in what it keeps.
pub open spec fn cached_back(space: Space, heap: Option<usize>, place: int, address: usize, slices: usize) -> bool {
    heap matches Some(heap) && space.heaps@[heap as int].domain == place + 1 && space.domains@[place].medium_at(
        address as int,
    ).owner.heap == space.heaps@[heap as int].address && space.heaps@[heap as int].cache_slot(slices as int) is Some
}

/// Whether the medium block went into what the heap keeps, where it takes it back, and what that
/// kept in its place, or otherwise the block itself, into what the domain keeps, until the deadline.
pub open spec fn span_freed(
    before: Space,
    after: Space,
    heap: Option<usize>,
    place: int,
    address: usize,
    slices: usize,
    deadline: u64,
) -> bool {
    let left = before.domains@[place];
    let right = after.domains@[place];
    &&& after.domains@.len() == before.domains@.len()
    &&& forall|other: int|
        #![trigger after.domains@[other]]
        0 <= other < before.domains@.len() && other != place ==> after.domains@[other] == before.domains@[other]
    &&& if cached_back(before, heap, place, address, slices) {
        let kept = before.heaps@[heap->0 as int];
        let slot = kept.cache_slot(slices as int)->0 as int;
        let displaced = kept.medium_cache@[slot];
        &&& after.heaps@[heap->0 as int].medium_cache@ == kept.medium_cache@.update(slot, address)
        &&& displaced == 0 ==> unregistered(&left, &right, address)
        &&& displaced != 0 ==> kept_after(&left, &right, address, displaced, slices, deadline)
    } else {
        &&& heap matches Some(heap) ==> after.heaps@[heap as int].medium_cache@ == before.heaps@[heap as int].medium_cache@
        &&& kept_after(&left, &right, address, address, slices, deadline)
    }
}

/// The only region that keeps such a span is the first one.
proof fn lemma_only_keeping(regions: Seq<Region>, start: int, index: int, slices: int)
    requires
        0 <= start <= index < regions.len(),
        keeps_span(regions[index], slices),
        forall|other: int| 0 <= other < regions.len() && other != index ==> !keeps_span(#[trigger] regions[other], slices),
    ensures
        first_keeping(regions, start, slices) == Some(index),
    decreases index - start,
{
    if start < index {
        assert(!keeps_span(regions[start], slices));
        lemma_only_keeping(regions, start + 1, index, slices);
    }
}

/// Where no region is the first to keep such a span, none keeps one.
proof fn lemma_none_keeping(regions: Seq<Region>, start: int, index: int, slices: int)
    requires
        0 <= start <= index < regions.len(),
        first_keeping(regions, start, slices) is None,
    ensures
        !keeps_span(regions[index], slices),
    decreases index - start,
{
    if start < index {
        lemma_none_keeping(regions, start + 1, index, slices);
    }
}

/// A medium block of a few slices that goes back is the one that is served next for so many slices: by
/// the heap that keeps it, or where that keeps none of that length, by a heap of the domain that keeps
/// it, where the domain kept no other.
pub proof fn law_freed_spans_are_served_next(
    before: Space,
    after: Space,
    heap: usize,
    place: int,
    address: usize,
    slices: usize,
    deadline: u64,
)
    requires
        before.inv(),
        heap < before.heaps@.len(),
        0 <= place < before.domains@.len(),
        before.heaps@[heap as int].domain == place + 1,
        after.heaps@[heap as int].domain == place + 1,
        after.heaps@[heap as int].medium_cache_max_bytes == before.heaps@[heap as int].medium_cache_max_bytes,
        address != 0,
        0 < slices <= MEDIUM_MAX_SLICES,
        before.domains@[place].medium_live(address as int, slices as int),
        span_freed(before, after, Some(heap), place, address, slices, deadline),
    ensures
        cached_back(before, Some(heap), place, address, slices) ==> span_at_hand(after, heap as int, slices as int) == address,
        ({
            let slot = before.heaps@[heap as int].cache_slot(slices as int);
            (slot is Some ==> before.heaps@[heap as int].medium_cache@[slot->0 as int] == 0) && first_keeping(
                before.domains@[place].regions@,
                0,
                slices as int,
            ) is None
        }) ==> span_at_hand(after, heap as int, slices as int) == address,
{
    let own = before.heaps@[heap as int];
    let slot = own.cache_slot(slices as int);
    let left = before.domains@[place];
    let right = after.domains@[place];
    assert(before.heap_ok(heap as int) && left.wf());
    if cached_back(before, Some(heap), place, address, slices) {
        assert(after.heaps@[heap as int].cache_slot(slices as int) == slot);
        assert(0 <= slot->0 < own.medium_cache@.len());
        assert(after.heaps@[heap as int].medium_cache@[slot->0 as int] == address);
    } else if (slot is Some ==> own.medium_cache@[slot->0 as int] == 0) && first_keeping(left.regions@, 0, slices as int) is None {
        let middle = choose|middle: DomainState|
            #[trigger] unregistered(&left, &middle, address) && kept_from(&middle, &right, address, slices, deadline);
        let index = left.region_at(address as int)->0;
        assert(left.regions@[index].holds(address as int));
        assert(middle.regions@[index].base == left.regions@[index].base);
        assert(middle.regions@[index].holds(address as int));
        let chosen = middle.region_at(address as int)->0;
        assert(chosen == index) by {
            assert(middle.regions@[chosen].holds(address as int));
            assert(left.regions@[chosen].holds(address as int));
            lemma_region_at(&left, address as int, chosen);
        }
        assert forall|other: int| 0 <= other < right.regions@.len() && other != index implies !keeps_span(
            #[trigger] right.regions@[other],
            slices as int,
        ) by {
            lemma_none_keeping(left.regions@, 0, other, slices as int);
            assert(middle.regions@[other] == left.regions@[other]);
        }
        let free = right.regions@[index].bins@[slices - 1].free@;
        let slice = middle.regions@[index].slice_of(address as int);
        assert(free.last() == slice as usize);
        lemma_only_keeping(right.regions@, 0, index, slices as int);
        let base = left.regions@[index].base as int;
        vstd::arithmetic::div_mod::lemma_fundamental_div_mod(address - base, MEDIUM_SLICE_SIZE as int);
        assert(slice * MEDIUM_SLICE_SIZE == address - base);
    }
}

impl Space {
    /// Finds the domain that an address lies in a region of.
    pub fn find_place(&self, address: usize) -> (found: Option<usize>)
        requires
            self.inv(),
        ensures
            match found {
                Some(place) => place < self.domains@.len() && self.domains@[place as int].region_at(address as int) is Some,
                None => forall|place: int|
                    0 <= place < self.domains@.len() ==> (#[trigger] self.domains@[place]).region_at(address as int) is None,
            },
            forall|place: int|
                0 <= place < self.domains@.len() && (#[trigger] self.domains@[place]).region_at(address as int) is Some ==> found
                    == Some(place as usize),
    {
        let mut at: usize = 0;
        while at < self.domains.len()
            invariant
                self.inv(),
                at <= self.domains@.len(),
                forall|before: int| 0 <= before < at ==> (#[trigger] self.domains@[before]).region_at(address as int) is None,
            decreases self.domains@.len() - at,
        {
            assert(self.domains@[at as int].wf());
            if self.domains[at].find_region(address).is_some() {
                proof {
                    assert forall|place: int|
                        0 <= place < self.domains@.len() && (#[trigger] self.domains@[place]).region_at(address as int) is Some implies place
                        == at by {
                        lemma_one_domain(self.domains@, at as int, place, address as int);
                    }
                }
                return Some(at);
            }
            at = at + 1;
        }
        None
    }

    /// Takes a medium block back: into what the heap keeps, where the block is its own and it keeps
    /// that many slices, and otherwise into what the domain keeps. Gives the heap that the block
    /// was made for.
    #[verifier::rlimit(60)]
    #[verifier::spinoff_prover]
    pub fn free_medium(&mut self, heap: Option<usize>, address: usize, slices: usize, deadline: u64) -> (owner: SpanOwner)
        requires
            old(self).inv(),
            heap matches Some(heap) ==> heap < old(self).heaps@.len(),
            slices <= MEDIUM_REGION_SLICE_COUNT,
            exists|place: int| #[trigger] medium_used(*old(self), place, address, slices as int),
        ensures
            final(self).inv(),
            final(self).domains@.len() == old(self).domains@.len(),
            final(self).tuning == old(self).tuning,
            final(self).slabs == old(self).slabs,
            final(self).remotes == old(self).remotes,
            final(self).bumps == old(self).bumps,
            final(self).records == old(self).records,
            final(self).mapped == old(self).mapped,
            final(self).out == old(self).out,
            segments_stay(old(self).holdings@, final(self).holdings@),
            forall|block: usize| #[trigger] final(self).loose(block) == old(self).loose(block),
            exists|place: int|
                #[trigger] medium_used(*old(self), place, address, slices as int) && owner == old(self).domains@[place].medium_at(
                    address as int,
                ).owner && span_freed(*old(self), *final(self), heap, place, address, slices, deadline),
            forall|place: int, s: int|
                0 <= place < old(self).domains@.len() ==> !#[trigger] final(self).domains@[place].medium_live(address as int, s),
            mediums_less(old(self).domains@, final(self).domains@),
            forall|at: int|
                0 <= at < old(self).heaps@.len() ==> (#[trigger] final(self).heaps@[at]).retirement == old(self).heaps@[at].retirement,
            match heap {
                Some(heap) => {
                    let kept = old(self).heaps@[heap as int];
                    let slot = kept.cache_slot(slices as int);
                    &&& same_but_heap(*old(self), *final(self), heap as int)
                    &&& final(self).heaps@[heap as int].same_but_cache(&kept)
                    &&& final(self).heaps@[heap as int].medium_cache@ == (if medium_used(
                        *old(self),
                        kept.domain - 1,
                        address,
                        slices as int,
                    ) && owner.heap == kept.address && slot is Some {
                        kept.medium_cache@.update(slot->0 as int, address)
                    } else {
                        kept.medium_cache@
                    })
                },
                None => final(self).heaps == old(self).heaps,
            },
            forall|place: int, a: int, s: int|
                #![trigger final(self).domains@[place].medium_live(a, s)]
                #![trigger old(self).domains@[place].medium_live(a, s)]
                0 <= place < old(self).domains@.len() && old(self).domains@[place].medium_live(a, s) && a != address ==> final(self).domains@[place].medium_live(a, s) && final(self).domains@[place].medium_at(a) == old(self).domains@[place].medium_at(a),
    {
        let ghost before = *self;
        let ghost used = choose|place: int| #[trigger] medium_used(before, place, address, slices as int);
        let ghost left = before.domains@[used];
        proof {
            assert(medium_used(before, used, address, slices as int));
            assert(left.wf());
            lemma_live_length(&left, address as int, slices as int);
        }
        let place: usize = match self.find_place(address) {
            Some(place) => place,
            None => 0,
        };
        assert(place == used);
        let own: Option<usize> = match heap {
            Some(heap) => if self.heaps[heap].domain == place + 1 {
                Some(heap)
            } else {
                None
            },
            None => None,
        };
        proof {
            assert(address != 0) by {
                let region = left.regions@[left.region_at(address as int)->0];
                assert(region.wf());
                assert(region.holds(address as int));
            }
            assert forall|held: usize| #[trigger] before.holdings@.dom().contains(held) implies spans_apart(
                held as int,
                before.holdings@[held].slices,
                address as int,
                slices as int,
            ) by {
                lemma_held_apart_live(before, held, used, address as int, slices as int);
            }
            assert(!before.holdings@.dom().contains(address)) by {
                if before.holdings@.dom().contains(address) {
                    assert(held_ok(before.domains@, address, before.holdings@[address]));
                    lemma_meets_itself(address as int, before.holdings@[address].slices, slices as int);
                }
            }
        }
        match own {
            Some(heap) => {
                proof {
                    assert(before.heap_ok(heap as int));
                    lemma_cache_ok(before, heap as int);
                }
                let owner: SpanOwner = deallocate_medium(&mut self.heaps[heap], &mut self.domains[place], address, slices, deadline);
                proof {
                    let right = self.domains@[place as int];
                    let kept = before.heaps@[heap as int];
                    let slot = kept.cache_slot(slices as int);
                    lemma_same_bases(left, right);
                    assert(domain_step(before.domains@, self.domains@, place as int, before.mapped@, None));
                    lemma_domain_step(before.domains@, self.domains@, place as int, before.mapped@, None);
                    if owner.heap == kept.address && slot is Some {
                        let displaced = kept.medium_cache@[slot->0 as int];
                        let holding = Holding {
                            domain: kept.domain,
                            slices: pow2(slot->0 as nat) as int,
                            user: User::Cache { heap: kept.address, slot: slot->0 as int },
                        };
                        assert(slices == pow2(slot->0 as nat));
                        let rest = if displaced == 0 {
                            before.holdings@
                        } else {
                            before.holdings@.remove(displaced)
                        };
                        if displaced == 0 {
                            lemma_spans_held(before.domains@, self.domains@, place as int, before.holdings@);
                        } else {
                            assert(before.holdings@.dom().contains(displaced));
                            lemma_unheld(before.domains@, self.domains@, place as int, before.holdings@, displaced);
                        }
                        assert(held_ok(self.domains@, address, holding));
                        lemma_held(self.domains@, rest, address, holding);
                        self.holdings@ = rest.insert(address, holding);
                        lemma_cache_put(kept, self.heaps@[heap as int], before.holdings@, address, slot->0 as int);
                    } else {
                        lemma_spans_held(before.domains@, self.domains@, place as int, before.holdings@);
                    }
                    assert(users_kept(before.holdings@, self.holdings@, kept.address, 0));
                    assert(cache_held(self.heaps@[heap as int], self.holdings@));
                    assert(locality_held(self.heaps@[heap as int], self.holdings@, self.slabs@));
                    lemma_arena_step(before, *self, heap as int);
                    lemma_mediums_less(before.domains@, self.domains@, place as int);
                    lemma_other_mediums(before, *self, place as int, address, slices as int);
                    assert forall|s: int| !#[trigger] right.medium_live(address as int, s) by {
                        if right.medium_live(address as int, s) {
                            if owner.heap == kept.address && slot is Some {
                                lemma_live_length(&right, address as int, s);
                                lemma_idle_apart_live(&right, address as int, slices as int, address as int, s);
                                lemma_meets_itself(address as int, slices as int, s);
                            } else {
                                let middle = choose|middle: DomainState|
                                    #[trigger] unregistered(&left, &middle, address) && kept_from(&middle, &right, address, slices, deadline);
                                lemma_not_live(left, middle, right, address, slices, s);
                            }
                        }
                    }
                    lemma_live_nowhere(before, *self, place as int, address);
                    assert(span_freed(before, *self, Some(heap), place as int, address, slices, deadline));
                }
                owner
            },
            None => {
                let allocation: crate::allocator::region::MediumAllocation = self.domains[place].unregister_span(address, slices);
                let ghost middle = self.domains@[place as int];
                self.domains[place].keep_span(address, slices, deadline);
                proof {
                    let right = self.domains@[place as int];
                    assert(same_regions(left, right));
                    assert(domain_step(before.domains@, self.domains@, place as int, before.mapped@, None));
                    lemma_domain_step(before.domains@, self.domains@, place as int, before.mapped@, None);
                    assert forall|held: usize| #[trigger] before.holdings@.dom().contains(held) implies held_ok(
                        self.domains@,
                        held,
                        before.holdings@[held],
                    ) by {
                        assert(held_ok(before.domains@, held, before.holdings@[held]));
                        if before.holdings@[held].domain - 1 == place {
                            assert(left.idle_span(held as int, before.holdings@[held].slices));
                            assert(middle.idle_span(held as int, before.holdings@[held].slices));
                        }
                    }
                    assert(holdings_ok(self.domains@, self.holdings@));
                    crate::allocator::refills::lemma_span_step(before, *self, 0);
                    lemma_unregistered_lives(&left, &middle, address, slices);
                    lemma_same_allocations(&middle, &right);
                    lemma_mediums_less(before.domains@, self.domains@, place as int);
                    assert(right.keeps_live_but(&left, address as int, slices as int)) by {
                        assert forall|a: int, s: int|
                            #![trigger right.medium_live(a, s)]
                            #![trigger left.medium_live(a, s)]
                            left.medium_live(a, s) && s > 0 && spans_apart(a, s, address as int, slices as int) implies right.medium_live(a, s)
                            && right.medium_at(a) == left.medium_at(a) by {
                            assert(middle.medium_live(a, s));
                        }
                    }
                    lemma_other_mediums(before, *self, place as int, address, slices as int);
                    assert forall|s: int| !#[trigger] right.medium_live(address as int, s) by {
                        if right.medium_live(address as int, s) {
                            lemma_not_live(left, middle, right, address, slices, s);
                        }
                    }
                    lemma_live_nowhere(before, *self, place as int, address);
                }
                proof {
                    let right = self.domains@[place as int];
                    assert(kept_after(&left, &right, address, address, slices, deadline)) by {
                        assert(unregistered(&left, &middle, address));
                        assert(kept_from(&middle, &right, address, slices, deadline));
                    }
                    assert(span_freed(before, *self, heap, place as int, address, slices, deadline));
                }
                allocation.owner
            },
        }
    }
}

/// A block that was taken out of the registry and kept is in use no longer.
proof fn lemma_not_live(left: DomainState, middle: DomainState, right: DomainState, address: usize, slices: usize, s: int)
    requires
        left.wf(),
        right.wf(),
        left.medium_live(address as int, slices as int),
        unregistered(&left, &middle, address),
        middle.region_at(address as int) is Some ==> right.same_but_region(&middle, middle.region_at(address as int)->0)
            && right.regions@[middle.region_at(address as int)->0].same_but_kept(&middle.regions@[middle.region_at(address as int)->0]),
    ensures
        !right.medium_live(address as int, s),
{
    let index = left.region_at(address as int)->0;
    let region = left.regions@[index];
    assert(region.holds(address as int) && 0 <= index < left.regions@.len());
    assert(region.wf());
    assert(middle.regions@[index].holds(address as int));
    assert(exists|at: int| 0 <= at < middle.regions@.len() && (#[trigger] middle.regions@[at]).holds(address as int));
    let found = middle.region_at(address as int)->0;
    assert(0 <= found < middle.regions@.len() && middle.regions@[found].holds(address as int));
    assert(found == index) by {
        if found != index {
            assert(middle.regions@[found] == left.regions@[found]);
            crate::allocator::domains::lemma_region_at(&left, address as int, found);
        }
    }
    assert(right.regions@[index].holds(address as int));
    crate::allocator::domains::lemma_region_at(&right, address as int, index);
    let slice = region.slice_of(address as int);
    assert(right.regions@[index].slice_of(address as int) == slice);
    assert(0 <= slice < MEDIUM_REGION_SLICE_COUNT) by {
        crate::allocator::holdings::lemma_apart_in(&region, address as int, 1, 0, 1);
    }
    assert(right.regions@[index].allocations@[slice] == crate::allocator::region::no_allocation());
}

/// What lies in one domain's regions is in use in no other domain.
proof fn lemma_live_nowhere(before: Space, after: Space, place: int, address: usize)
    requires
        domains_ok(before.domains@),
        0 <= place < before.domains@.len(),
        before.domains@[place].region_at(address as int) is Some,
        after.domains@.len() == before.domains@.len(),
        forall|other: int|
            #![trigger after.domains@[other]]
            0 <= other < before.domains@.len() && other != place ==> after.domains@[other] == before.domains@[other],
        forall|s: int| !#[trigger] after.domains@[place].medium_live(address as int, s),
    ensures
        forall|other: int, s: int|
            0 <= other < before.domains@.len() ==> !#[trigger] after.domains@[other].medium_live(address as int, s),
{
    assert forall|other: int, s: int| 0 <= other < before.domains@.len() implies !#[trigger] after.domains@[other].medium_live(
        address as int,
        s,
    ) by {
        if other != place && after.domains@[other].medium_live(address as int, s) {
            lemma_one_domain(before.domains@, place, other, address as int);
        }
    }
}

/// Every medium block but the one that is taken back stays.
proof fn lemma_other_mediums(before: Space, after: Space, place: int, address: usize, slices: int)
    requires
        domains_ok(before.domains@),
        medium_used(before, place, address, slices),
        after.domains@.len() == before.domains@.len(),
        forall|other: int|
            #![trigger after.domains@[other]]
            0 <= other < before.domains@.len() && other != place ==> after.domains@[other] == before.domains@[other],
        after.domains@[place].keeps_live_but(&before.domains@[place], address as int, slices),
    ensures
        forall|other: int, a: int, s: int|
            #![trigger after.domains@[other].medium_live(a, s)]
            #![trigger before.domains@[other].medium_live(a, s)]
            0 <= other < before.domains@.len() && before.domains@[other].medium_live(a, s) && a != address
                ==> after.domains@[other].medium_live(a, s) && after.domains@[other].medium_at(a) == before.domains@[other].medium_at(a),
{
    assert forall|other: int, a: int, s: int|
        #![trigger after.domains@[other].medium_live(a, s)]
        #![trigger before.domains@[other].medium_live(a, s)]
        0 <= other < before.domains@.len() && before.domains@[other].medium_live(a, s) && a != address implies after.domains@[other].medium_live(a, s)
        && after.domains@[other].medium_at(a) == before.domains@[other].medium_at(a) by {
        if other == place {
            assert(before.domains@[place].wf());
            lemma_live_length(&before.domains@[place], a, s);
            lemma_lives_apart(&before.domains@[place], a, s, address as int, slices);
        }
    }
}

/// Two medium blocks of a domain do not meet.
pub proof fn lemma_lives_apart(domain: &DomainState, a: int, s: int, b: int, t: int)
    requires
        domain.wf(),
        domain.spans_ok(),
        domain.medium_live(a, s),
        domain.medium_live(b, t),
        a != b,
    ensures
        spans_apart(a, s, b, t),
{
    lemma_live_length(domain, a, s);
    lemma_live_length(domain, b, t);
    let i = domain.region_at(a)->0;
    let j = domain.region_at(b)->0;
    let left = domain.regions@[i];
    let right = domain.regions@[j];
    assert(0 <= i < domain.regions@.len() && left.holds(a));
    assert(0 <= j < domain.regions@.len() && right.holds(b));
    crate::allocator::holdings::lemma_apart_in(&right, b, t, 0, 1);
    crate::allocator::holdings::lemma_apart_in(&left, a, s, 0, 1);
    if i == j {
        let p = left.slice_of(a);
        let q = left.slice_of(b);
        assert(p != q);
        assert(left.is_registered(p) && left.is_registered(q));
        if p < q {
            assert(p + left.length(p) <= q);
        } else {
            assert(q + left.length(q) <= p);
        }
        crate::allocator::holdings::lemma_apart_in(&left, a, s, q, t);
    } else {
        if i < j {
            assert(crate::allocator::domains::apart(domain.regions@[i].base as int, domain.regions@[j].base as int));
        } else {
            assert(crate::allocator::domains::apart(domain.regions@[j].base as int, domain.regions@[i].base as int));
        }
        crate::allocator::holdings::lemma_apart_regions(&left, &right, a, s, right.slice_of(b), t);
    }
}

/// An address lies in the regions of one domain at most.
pub proof fn lemma_one_domain(domains: Seq<DomainState>, left: int, right: int, address: int)
    requires
        domains_ok(domains),
        0 <= left < domains.len(),
        0 <= right < domains.len(),
        domains[left].region_at(address) is Some,
        domains[right].region_at(address) is Some,
    ensures
        left == right,
{
    let i = domains[left].region_at(address)->0;
    let j = domains[right].region_at(address)->0;
    assert(0 <= i < domains[left].regions@.len() && domains[left].regions@[i].holds(address));
    assert(0 <= j < domains[right].regions@.len() && domains[right].regions@[j].holds(address));
    if left < right {
        assert(crate::allocator::domains::apart(domains[left].regions@[i].base as int, domains[right].regions@[j].base as int));
    } else if right < left {
        assert(crate::allocator::domains::apart(domains[right].regions@[j].base as int, domains[left].regions@[i].base as int));
    }
}

} // verus!
