//! Medium allocations of a heap: whole slices, cached by length.

use vstd::prelude::*;
use vstd::arithmetic::power2::pow2;

use crate::allocator::classes::{
    cache_slot, local_medium_class, medium_slice_count, medium_slices, LOCAL_MEDIUM_CLASSES, MEDIUM_REGION_SIZE,
    MEDIUM_REGION_SLICE_COUNT, MEDIUM_SLICE_SIZE,
};
use crate::allocator::domains::{
    apart, due_spans, first_keeping, first_open, kept_slice, kept_taken, DomainState, PurgeSpan,
};
use crate::allocator::heaps::{allocated, HeapState, RetirementState};
use crate::allocator::holdings::{lemma_idle_apart_live, registered, slices_freed, spans_apart, unregistered};
use crate::allocator::layout::Layout;
use crate::allocator::lives::{
    lemma_allocated_lives, lemma_registered_lives, lemma_same_allocations, lemma_unregistered_lives,
};
use crate::allocator::region::{valid_base, MediumAllocation, SpanOwner};
use crate::allocator::slices::span;

verus! {

impl HeapState {
    /// The spans that the heap caches are in use, by no medium allocation, and lie apart.
    pub open spec fn cache_ok(&self, domain: &DomainState) -> bool {
        &&& forall|slot: int|
            #![trigger self.medium_cache@[slot]]
            0 <= slot < LOCAL_MEDIUM_CLASSES && self.medium_cache@[slot] != 0 ==> domain.idle_span(
                self.medium_cache@[slot] as int,
                pow2(slot as nat) as int,
            )
        &&& forall|left: int, right: int|
            #![trigger self.medium_cache@[left], self.medium_cache@[right]]
            0 <= left < right < LOCAL_MEDIUM_CLASSES && self.medium_cache@[left] != 0 && self.medium_cache@[right] != 0
                ==> spans_apart(
                self.medium_cache@[left] as int,
                pow2(left as nat) as int,
                self.medium_cache@[right] as int,
                pow2(right as nat) as int,
            )
    }

    /// Whether a span lies apart from every cached one.
    pub open spec fn cache_apart(&self, address: int, slices: int) -> bool {
        forall|slot: int|
            #![trigger self.medium_cache@[slot]]
            0 <= slot < LOCAL_MEDIUM_CLASSES && self.medium_cache@[slot] != 0 ==> spans_apart(
                self.medium_cache@[slot] as int,
                pow2(slot as nat) as int,
                address,
                slices,
            )
    }

    /// The slot that a span of `slices` slices is cached in, where the heap caches such spans.
    pub open spec fn cache_slot(&self, slices: int) -> Option<usize> {
        if slices * MEDIUM_SLICE_SIZE <= self.medium_cache_max_bytes {
            cache_slot(slices)
        } else {
            None
        }
    }

    /// Everything but the cache of medium spans is as in `other`.
    pub open spec fn same_but_cache(&self, other: &HeapState) -> bool {
        &&& self.address == other.address
        &&& self.small == other.small
        &&& self.locality_next == other.locality_next
        &&& self.locality_end == other.locality_end
        &&& self.locality_segment_slices == other.locality_segment_slices
        &&& self.medium_cache_max_bytes == other.medium_cache_max_bytes
        &&& self.domain == other.domain
        &&& self.segments == other.segments
        &&& self.locality_segment == other.locality_segment
        &&& self.retirable == other.retirable
    }

    pub open spec fn span_owner(&self) -> SpanOwner {
        SpanOwner { heap: self.address, retirable: self.retirable }
    }

    /// How a medium or direct allocation changes the heap's retirement.
    pub open spec fn retained(&self) -> RetirementState {
        if self.retirable {
            RetirementState {
                external_allocations: self.retirement.external_allocations.wrapping_add(1),
                ..self.retirement
            }
        } else {
            self.retirement
        }
    }

    fn slot_for(&self, slices: usize) -> (slot: Option<usize>)
        requires
            slices <= MEDIUM_REGION_SLICE_COUNT,
        ensures
            slot == self.cache_slot(slices as int),
            slot matches Some(slot) ==> slot < LOCAL_MEDIUM_CLASSES && slices == pow2(slot as nat),
    {
        assert(slices * MEDIUM_SLICE_SIZE <= MEDIUM_REGION_SIZE) by (nonlinear_arith)
            requires
                slices <= MEDIUM_REGION_SLICE_COUNT,
                MEDIUM_SLICE_SIZE == 65536,
                MEDIUM_REGION_SIZE == 1073741824,
                MEDIUM_REGION_SLICE_COUNT == 16384,
        ;
        if slices * MEDIUM_SLICE_SIZE <= self.medium_cache_max_bytes {
            local_medium_class(slices)
        } else {
            None
        }
    }

    /// Takes the cached span of a length, or 0.
    fn take_cached(&mut self, slices: usize, Ghost(domain): Ghost<DomainState>) -> (address: usize)
        requires
            old(self).wf(),
            slices <= MEDIUM_REGION_SLICE_COUNT,
            old(self).cache_ok(&domain),
        ensures
            final(self).wf(),
            final(self).same_but_cache(old(self)),
            final(self).track_aggregates == old(self).track_aggregates,
            final(self).retirement == old(self).retirement,
            final(self).cache_ok(&domain),
            match old(self).cache_slot(slices as int) {
                Some(slot) => {
                    &&& slot < LOCAL_MEDIUM_CLASSES
                    &&& address == old(self).medium_cache@[slot as int]
                    &&& final(self).medium_cache@ == old(self).medium_cache@.update(slot as int, 0)
                },
                None => address == 0 && final(self).medium_cache@ == old(self).medium_cache@,
            },
            address != 0 ==> domain.idle_span(address as int, slices as int) && final(self).cache_apart(
                address as int,
                slices as int,
            ),
    {
        let ghost before = self.medium_cache@;
        match self.slot_for(slices) {
            None => 0,
            Some(slot) => {
                let address: usize = self.medium_cache[slot];
                if address != 0 {
                    self.medium_cache[slot] = 0;
                } else {
                    assert(before.update(slot as int, 0) =~= before);
                }
                proof {
                    assert(self.medium_cache@ =~= before.update(slot as int, 0));
                    if address != 0 {
                        assert forall|other: int|
                            #![trigger self.medium_cache@[other]]
                            0 <= other < LOCAL_MEDIUM_CLASSES && self.medium_cache@[other] != 0 implies spans_apart(
                            self.medium_cache@[other] as int,
                            pow2(other as nat) as int,
                            address as int,
                            slices as int,
                        ) by {
                            assert(before[other] != 0);
                            if other < slot {
                                assert(before[other] != 0 && before[slot as int] != 0);
                            } else {
                                assert(before[slot as int] != 0 && before[other] != 0);
                            }
                        }
                    }
                }
                address
            },
        }
    }

    /// Puts an idle span into the cache. Returns the span that has no room there, or 0.
    fn put_cached(&mut self, address: usize, slices: usize, Ghost(domain): Ghost<DomainState>) -> (displaced: usize)
        requires
            old(self).wf(),
            address != 0,
            slices <= MEDIUM_REGION_SLICE_COUNT,
            old(self).cache_ok(&domain),
            domain.idle_span(address as int, slices as int),
            old(self).cache_apart(address as int, slices as int),
        ensures
            final(self).wf(),
            final(self).same_but_cache(old(self)),
            final(self).track_aggregates == old(self).track_aggregates,
            final(self).retirement == old(self).retirement,
            final(self).cache_ok(&domain),
            match old(self).cache_slot(slices as int) {
                Some(slot) => {
                    &&& slot < LOCAL_MEDIUM_CLASSES
                    &&& displaced == old(self).medium_cache@[slot as int]
                    &&& final(self).medium_cache@ == old(self).medium_cache@.update(slot as int, address)
                },
                None => displaced == address && final(self).medium_cache@ == old(self).medium_cache@,
            },
            displaced != 0 ==> domain.idle_span(displaced as int, slices as int) && final(self).cache_apart(
                displaced as int,
                slices as int,
            ),
    {
        let ghost before = self.medium_cache@;
        match self.slot_for(slices) {
            None => address,
            Some(slot) => {
                let displaced: usize = self.medium_cache[slot];
                self.medium_cache[slot] = address;
                proof {
                    let after = self.medium_cache@;
                    assert(before[slot as int] == displaced);
                    assert forall|other: int|
                        #![trigger after[other]]
                        0 <= other < LOCAL_MEDIUM_CLASSES && after[other] != 0 implies domain.idle_span(
                        after[other] as int,
                        pow2(other as nat) as int,
                    ) by {
                        if other != slot {
                            assert(before[other] != 0);
                        }
                    }
                    assert forall|left: int, right: int|
                        #![trigger after[left], after[right]]
                        0 <= left < right < LOCAL_MEDIUM_CLASSES && after[left] != 0 && after[right] != 0 implies spans_apart(
                        after[left] as int,
                        pow2(left as nat) as int,
                        after[right] as int,
                        pow2(right as nat) as int,
                    ) by {
                        if left == slot {
                            assert(before[right] != 0);
                        } else if right == slot {
                            assert(before[left] != 0);
                        } else {
                            assert(before[left] != 0 && before[right] != 0);
                        }
                    }
                    if displaced != 0 {
                        assert forall|other: int|
                            #![trigger after[other]]
                            0 <= other < LOCAL_MEDIUM_CLASSES && after[other] != 0 implies spans_apart(
                            after[other] as int,
                            pow2(other as nat) as int,
                            displaced as int,
                            slices as int,
                        ) by {
                            if other == slot {
                                assert(before[slot as int] != 0);
                            } else {
                                assert(before[other] != 0);
                                if other < slot {
                                    assert(before[other] != 0 && before[slot as int] != 0);
                                } else {
                                    assert(before[slot as int] != 0 && before[other] != 0);
                                }
                            }
                        }
                    }
                }
                displaced
            },
        }
    }

    /// Counts a medium or direct allocation that the heap owns.
    pub fn retain_external_allocation(&mut self)
        ensures
            final(self).same_but_cache(old(self)),
            final(self).track_aggregates == old(self).track_aggregates,
            final(self).medium_cache == old(self).medium_cache,
            final(self).retirement == old(self).retained(),
    {
        if self.retirable {
            self.retirement.external_allocations = self.retirement.external_allocations.wrapping_add(1);
        }
    }
}

/// What is left to do for a medium allocation.
pub enum MediumStep {
    /// The layout takes more slices than a region has, or asks for too large an alignment.
    Unfit,
    Served { address: usize },
    /// The memory of these spans can be given back before slices are taken.
    Purge { spans: Vec<PurgeSpan> },
}

/// Cached spans stay what they are where the domain keeps its spans.
pub proof fn lemma_cache_kept(heap: &HeapState, before: &DomainState, after: &DomainState)
    requires
        heap.cache_ok(before),
        forall|a: int, s: int|
            #![trigger after.idle_span(a, s)]
            before.idle_span(a, s) ==> after.idle_span(a, s),
    ensures
        heap.cache_ok(after),
{
    assert forall|slot: int|
        #![trigger heap.medium_cache@[slot]]
        0 <= slot < LOCAL_MEDIUM_CLASSES && heap.medium_cache@[slot] != 0 implies after.idle_span(
        heap.medium_cache@[slot] as int,
        pow2(slot as nat) as int,
    ) by {
        assert(before.idle_span(heap.medium_cache@[slot] as int, pow2(slot as nat) as int));
    }
}

pub proof fn lemma_cache_kept_but(heap: &HeapState, before: &DomainState, after: &DomainState, address: int, slices: int)
    requires
        heap.cache_ok(before),
        heap.cache_apart(address, slices),
        after.keeps_idle_but(before, address, slices),
    ensures
        heap.cache_ok(after),
{
    assert forall|slot: int|
        #![trigger heap.medium_cache@[slot]]
        0 <= slot < LOCAL_MEDIUM_CLASSES && heap.medium_cache@[slot] != 0 implies after.idle_span(
        heap.medium_cache@[slot] as int,
        pow2(slot as nat) as int,
    ) by {
        assert(before.idle_span(heap.medium_cache@[slot] as int, pow2(slot as nat) as int));
    }
}

/// A span that shares nothing with what is in use lies apart from every cached one.
pub proof fn lemma_cache_apart(heap: &HeapState, domain: &DomainState, address: int, slices: int)
    requires
        heap.cache_ok(domain),
        domain.unused_span(address, slices),
    ensures
        heap.cache_apart(address, slices),
{
    assert forall|slot: int|
        #![trigger heap.medium_cache@[slot]]
        0 <= slot < LOCAL_MEDIUM_CLASSES && heap.medium_cache@[slot] != 0 implies spans_apart(
        heap.medium_cache@[slot] as int,
        pow2(slot as nat) as int,
        address,
        slices,
    ) by {
        assert(domain.idle_span(heap.medium_cache@[slot] as int, pow2(slot as nat) as int));
    }
}

/// What serving a span to a layout leaves: the span is registered to the heap, and what else was
/// held is held as before.
pub open spec fn served(before: &DomainState, after: &DomainState, heap_before: &HeapState, heap: &HeapState, layout: Layout, address: usize) -> bool {
    let slices = medium_slices(layout)->0 as int;
    &&& after.medium_live(address as int, slices)
    &&& after.medium_at(address as int) == (MediumAllocation {
        owner: heap_before.span_owner(),
        requested_bytes: layout.size,
        usable_bytes: (slices * MEDIUM_SLICE_SIZE) as usize,
    })
    &&& forall|a: int, s: int|
        #![trigger before.medium_live(a, s)]
        #![trigger after.medium_live(a, s)]
        before.medium_live(a, s) ==> spans_apart(a, s, address as int, slices) && after.medium_live(a, s) && after.medium_at(a)
            == before.medium_at(a)
    &&& after.no_live_but(before, address as int)
    &&& heap.retirement == heap_before.retained()
}

/// Whether the domain no longer keeps the span that its first region with one for so many slices
/// keeps, and nothing else of it differs.
pub open spec fn unkept(before: &DomainState, after: &DomainState, slices: int) -> bool {
    let index = first_keeping(before.regions@, 0, slices)->0;
    let left = before.regions@[index];
    let right = after.regions@[index];
    &&& first_keeping(before.regions@, 0, slices) is Some
    &&& after.same_but_region(before, index)
    &&& right.same_but_kept(&left)
    &&& kept_taken(&left, &right, slices)
    &&& right.kept() == left.kept().difference(span(kept_slice(left, slices), slices))
}

/// Whether a span that the domain kept is a medium allocation of it now.
pub open spec fn reused(
    before: &DomainState,
    after: &DomainState,
    address: usize,
    slices: usize,
    requested_bytes: usize,
    owner: SpanOwner,
) -> bool {
    exists|middle: DomainState|
        #[trigger] unkept(before, &middle, slices as int) && registered(&middle, after, address, slices, requested_bytes, owner)
}

/// Starts a medium allocation: a span of the heap's cache, else one that the domain keeps, else
/// the spans that can be purged before slices are taken.
pub fn begin_medium(heap: &mut HeapState, domain: &mut DomainState, layout: Layout, now: u64, track_aggregates: bool) -> (step: MediumStep)
    requires
        old(heap).wf(),
        old(domain).wf(),
        old(domain).spans_ok(),
        old(heap).cache_ok(old(domain)),
    ensures
        final(heap).wf(),
        final(domain).wf(),
        final(domain).spans_ok(),
        final(heap).cache_ok(final(domain)),
        final(heap).same_but_cache(old(heap)),
        final(domain).id == old(domain).id,
        final(domain).same_bases(old(domain)),
        final(domain).regions@.len() == old(domain).regions@.len(),
        step is Unfit <==> medium_slices(layout) is None,
        match step {
            MediumStep::Unfit => *final(heap) == *old(heap) && *final(domain) == *old(domain),
            MediumStep::Served { address } => {
                let slices = medium_slices(layout)->0;
                let slot = old(heap).cache_slot(slices as int);
                &&& final(heap).track_aggregates == track_aggregates
                &&& served(old(domain), final(domain), old(heap), final(heap), layout, address)
                &&& if slot is Some && old(heap).medium_cache@[slot->0 as int] != 0 {
                    &&& address == old(heap).medium_cache@[slot->0 as int]
                    &&& final(heap).medium_cache@ == old(heap).medium_cache@.update(slot->0 as int, 0)
                    &&& registered(old(domain), final(domain), address, slices, layout.size, old(heap).span_owner())
                } else {
                    let index = first_keeping(old(domain).regions@, 0, slices as int)->0;
                    &&& first_keeping(old(domain).regions@, 0, slices as int) is Some
                    &&& address == old(domain).regions@[index].address_of(
                        kept_slice(old(domain).regions@[index], slices as int),
                    )
                    &&& final(heap).medium_cache@ == old(heap).medium_cache@
                    &&& reused(old(domain), final(domain), address, slices, layout.size, old(heap).span_owner())
                    &&& old(domain).unused_span(address as int, slices as int)
                }
                &&& forall|a: int, s: int|
                    #![trigger final(domain).idle_span(a, s)]
                    #![trigger old(domain).idle_span(a, s)]
                    old(domain).idle_span(a, s) && spans_apart(a, s, address as int, slices as int) ==> final(domain).idle_span(a, s)
            },
            MediumStep::Purge { spans } => {
                let slices = medium_slices(layout)->0 as int;
                let slot = old(heap).cache_slot(slices);
                &&& final(heap).track_aggregates == track_aggregates
                &&& final(heap).retirement == old(heap).retirement
                &&& final(heap).medium_cache@ == old(heap).medium_cache@
                &&& slot is Some ==> old(heap).medium_cache@[slot->0 as int] == 0
                &&& first_keeping(old(domain).regions@, 0, slices) is None
                &&& spans@ == due_spans(old(domain).regions@, old(domain).regions@.len() as int, now, false)
                &&& forall|index: int|
                    #![trigger final(domain).regions@[index]]
                    0 <= index < final(domain).regions@.len() ==> final(domain).regions@[index].without_due(
                        &old(domain).regions@[index],
                        now,
                        false,
                    )
                &&& final(domain).keeps_spans(old(domain))
                &&& final(domain).no_more_live(old(domain))
                &&& forall|a: int, s: int|
                    #[trigger] final(domain).medium_live(a, s) ==> DomainState::apart_from_all(a, s, spans@)
                &&& forall|at: int|
                    #![trigger spans@[at]]
                    0 <= at < spans@.len() ==> final(domain).is_span(spans@[at].address as int, spans@[at].slices as int)
                        && old(domain).unused_span(spans@[at].address as int, spans@[at].slices as int)
            },
        },
{
    let ghost heap_before = *heap;
    let ghost before = *domain;
    let slices: usize = match medium_slice_count(layout) {
        None => {
            return MediumStep::Unfit;
        },
        Some(slices) => slices,
    };
    heap.track_aggregates = track_aggregates;
    let owner = SpanOwner { heap: heap.address, retirable: heap.retirable };
    let cached: usize = heap.take_cached(slices, Ghost(*domain));
    if cached != 0 {
        domain.register_span(cached, slices, layout.size, owner);
        proof {
            lemma_cache_kept_but(heap, &before, domain, cached as int, slices as int);
            lemma_registered_lives(&before, domain, cached, slices, layout.size, owner);
            assert forall|a: int, s: int|
                #![trigger before.medium_live(a, s)]
                #![trigger domain.medium_live(a, s)]
                before.medium_live(a, s) implies spans_apart(a, s, cached as int, slices as int) && domain.medium_live(a, s)
                && domain.medium_at(a) == before.medium_at(a) by {
                lemma_idle_apart_live(&before, cached as int, slices as int, a, s);
                crate::allocator::holdings::lemma_live_length(&before, a, s);
            }
        }
        heap.retain_external_allocation();
        return MediumStep::Served { address: cached };
    }
    assert(heap.medium_cache@ =~= heap_before.medium_cache@);
    let kept = domain.reuse_span(layout);
    match kept {
        Some(address) => {
            let ghost middle = *domain;
            proof {
                assert(unkept(&before, &middle, slices as int));
                lemma_cache_apart(heap, &before, address as int, slices as int);
                lemma_cache_kept(heap, &before, &middle);
            }
            domain.register_span(address, slices, layout.size, owner);
            proof {
                lemma_cache_kept_but(heap, &middle, domain, address as int, slices as int);
                lemma_same_allocations(&before, &middle);
                lemma_registered_lives(&middle, domain, address, slices, layout.size, owner);
                assert forall|a: int, s: int|
                    #![trigger before.medium_live(a, s)]
                    #![trigger domain.medium_live(a, s)]
                    before.medium_live(a, s) implies spans_apart(a, s, address as int, slices as int) && domain.medium_live(a, s)
                    && domain.medium_at(a) == before.medium_at(a) by {
                    crate::allocator::holdings::lemma_live_length(&before, a, s);
                    assert(middle.medium_live(a, s));
                }
                assert forall|a: int, s: int|
                    #![trigger domain.idle_span(a, s)]
                    #![trigger before.idle_span(a, s)]
                    before.idle_span(a, s) && spans_apart(a, s, address as int, slices as int) implies domain.idle_span(a, s) by {
                    assert(middle.idle_span(a, s));
                }
            }
            heap.retain_external_allocation();
            MediumStep::Served { address }
        },
        None => {
            let ghost middle = *domain;
            proof {
                assert(middle.regions@ =~= before.regions@);
                crate::allocator::heaps::lemma_same_regions(&before, &middle);
            }
            let spans = domain.collect_purge(now, false);
            proof {
                lemma_same_allocations(&before, domain);
                lemma_cache_kept(heap, &before, domain);
            }
            MediumStep::Purge { spans }
        },
    }
}

/// Whether the slices of the spans that were decommitted are free, and nothing else of the domain
/// differs.
pub open spec fn purge_settled(before: &DomainState, after: &DomainState, spans: Seq<PurgeSpan>, decommitted: Seq<bool>) -> bool {
    &&& after.wf()
    &&& after.id == before.id
    &&& after.is_default == before.is_default
    &&& after.regions@.len() == before.regions@.len()
    &&& forall|index: int|
        #![trigger after.regions@[index]]
        0 <= index < after.regions@.len() ==> {
            &&& after.regions@[index].same_but_bitmap(&before.regions@[index])
            &&& after.regions@[index].next_slice == before.regions@[index].next_slice
            &&& after.regions@[index].used_set() == before.regions@[index].used_set().difference(
                before.given_back(index, spans, decommitted, spans.len() as int),
            )
        }
}

/// Whether the purge is settled, and the slices of a medium block are then taken where some are free
/// or a region stands by.
pub open spec fn continued(
    before: &DomainState,
    after: &DomainState,
    spans: Seq<PurgeSpan>,
    decommitted: Seq<bool>,
    spare: Option<usize>,
    slices: int,
    taken: Option<(usize, bool)>,
) -> bool {
    exists|purged: DomainState|
        #[trigger] purge_settled(before, &purged, spans, decommitted) && match taken {
            Some((address, appended)) => allocated(&purged, after, spare, slices, address, appended) && after.gained(
                &purged,
                address as int,
                slices,
            ),
            None => first_open(purged.regions@, 0, slices) is None && spare is None && after.regions@ == purged.regions@,
        }
}

/// Goes on once the system answered which memory it took back: slices are taken, which the
/// system must commit.
pub fn continue_medium(
    heap: &HeapState,
    domain: &mut DomainState,
    slices: usize,
    spans: &Vec<PurgeSpan>,
    decommitted: &Vec<bool>,
    spare: Option<usize>,
) -> (taken: Option<(usize, bool)>)
    requires
        heap.wf(),
        old(domain).wf(),
        old(domain).spans_ok(),
        heap.cache_ok(old(domain)),
        0 < slices <= MEDIUM_REGION_SLICE_COUNT,
        spans@.len() == decommitted@.len(),
        forall|at: int|
            #![trigger spans@[at]]
            0 <= at < spans@.len() ==> old(domain).is_span(spans@[at].address as int, spans@[at].slices as int)
                && heap.cache_apart(spans@[at].address as int, spans@[at].slices as int),
        forall|a: int, s: int| #[trigger] old(domain).medium_live(a, s) ==> DomainState::apart_from_all(a, s, spans@),
        spare matches Some(base) ==> valid_base(base as int) && forall|index: int|
            0 <= index < old(domain).regions@.len() ==> apart((#[trigger] old(domain).regions@[index]).base as int, base as int),
    ensures
        final(domain).wf(),
        final(domain).spans_ok(),
        heap.cache_ok(final(domain)),
        final(domain).id == old(domain).id,
        final(domain).is_default == old(domain).is_default,
        final(domain).same_bases(old(domain)),
        taken matches Some((address, true)) ==> final(domain).regions@.len() == old(domain).regions@.len() + 1 && spare == Some(address)
            && final(domain).regions@[old(domain).regions@.len() as int].base == address,
        !(taken matches Some((address, true))) ==> final(domain).regions@.len() == old(domain).regions@.len(),
        continued(old(domain), final(domain), spans@, decommitted@, spare, slices as int, taken),
        forall|a: int, s: int|
            #![trigger final(domain).idle_span(a, s)]
            #![trigger old(domain).idle_span(a, s)]
            old(domain).idle_span(a, s) && DomainState::apart_from_all(a, s, spans@) ==> final(domain).idle_span(a, s)
                && (taken matches Some((address, appended)) ==> spans_apart(a, s, address as int, slices as int)),
        forall|a: int, s: int|
            #![trigger final(domain).medium_live(a, s)]
            #![trigger old(domain).medium_live(a, s)]
            old(domain).medium_live(a, s) ==> final(domain).medium_live(a, s) && final(domain).medium_at(a)
                == old(domain).medium_at(a) && (taken matches Some((address, appended)) ==> spans_apart(
                a,
                s,
                address as int,
                slices as int,
            )),
        taken matches Some((address, appended)) ==> final(domain).idle_span(address as int, slices as int) && heap.cache_apart(
            address as int,
            slices as int,
        ),
        final(domain).no_more_live(old(domain)),
{
    let ghost before = *domain;
    domain.settle_purge(spans, decommitted);
    let ghost purged = *domain;
    proof {
        assert forall|slot: int|
            #![trigger heap.medium_cache@[slot]]
            0 <= slot < LOCAL_MEDIUM_CLASSES && heap.medium_cache@[slot] != 0 implies purged.idle_span(
            heap.medium_cache@[slot] as int,
            pow2(slot as nat) as int,
        ) by {
            let a = heap.medium_cache@[slot] as int;
            let s = pow2(slot as nat) as int;
            assert(before.idle_span(a, s));
            assert forall|at: int| #![trigger spans@[at]] 0 <= at < spans@.len() implies spans_apart(
                a,
                s,
                spans@[at].address as int,
                spans@[at].slices as int,
            ) by {
                assert(heap.cache_apart(spans@[at].address as int, spans@[at].slices as int));
            }
            assert(DomainState::apart_from_all(a, s, spans@));
        }
        assert forall|index: int| 0 <= index < purged.regions@.len() implies purged.regions@[index].base
            == before.regions@[index].base by {
            assert(purged.regions@[index].same_but_bitmap(&before.regions@[index]));
        }
    }
    let taken = domain.take_slices(slices, spare);
    proof {
        lemma_same_allocations(&before, &purged);
        assert(purge_settled(&before, &purged, spans@, decommitted@));
        match taken {
            Some((address, appended)) => {
                lemma_allocated_lives(&purged, domain, spare, slices as int, address, appended);
                lemma_cache_apart(heap, &purged, address as int, slices as int);
                lemma_cache_kept(heap, &purged, domain);
            },
            None => {
                crate::allocator::heaps::lemma_same_regions(&purged, domain);
                lemma_same_allocations(&purged, domain);
                lemma_cache_kept(heap, &purged, domain);
            },
        }
    }
    taken
}

/// Takes the system's answer whether the slices were committed. Returns the allocation, or 0.
pub fn finish_medium(heap: &mut HeapState, domain: &mut DomainState, layout: Layout, address: usize, committed: bool) -> (allocation: usize)
    requires
        old(heap).wf(),
        old(domain).wf(),
        old(domain).spans_ok(),
        old(heap).cache_ok(old(domain)),
        medium_slices(layout) is Some,
        old(domain).idle_span(address as int, medium_slices(layout)->0 as int),
        old(heap).cache_apart(address as int, medium_slices(layout)->0 as int),
    ensures
        final(heap).wf(),
        final(domain).wf(),
        final(domain).spans_ok(),
        final(heap).cache_ok(final(domain)),
        final(heap).same_but_cache(old(heap)),
        final(domain).id == old(domain).id,
        final(domain).same_bases(old(domain)),
        final(domain).regions@.len() == old(domain).regions@.len(),
        final(heap).medium_cache == old(heap).medium_cache,
        final(heap).track_aggregates == old(heap).track_aggregates,
        final(domain).keeps_idle_but(old(domain), address as int, medium_slices(layout)->0 as int),
        if committed {
            &&& allocation == address
            &&& served(old(domain), final(domain), old(heap), final(heap), layout, address)
            &&& registered(
                old(domain),
                final(domain),
                address,
                medium_slices(layout)->0,
                layout.size,
                old(heap).span_owner(),
            )
        } else {
            &&& allocation == 0
            &&& *final(heap) == *old(heap)
            &&& slices_freed(old(domain), final(domain), address, medium_slices(layout)->0 as int)
            &&& final(domain).keeps_live_but(old(domain), address as int, medium_slices(layout)->0 as int)
            &&& final(domain).no_more_live(old(domain))
        },
{
    let ghost before = *domain;
    let slices: usize = medium_slice_count(layout).unwrap();
    if !committed {
        domain.give_up(address, slices);
        proof {
            lemma_cache_kept_but(heap, &before, domain, address as int, slices as int);
            lemma_same_allocations(&before, domain);
        }
        return 0;
    }
    let owner = SpanOwner { heap: heap.address, retirable: heap.retirable };
    domain.register_span(address, slices, layout.size, owner);
    proof {
        lemma_cache_kept_but(heap, &before, domain, address as int, slices as int);
        lemma_registered_lives(&before, domain, address, slices, layout.size, owner);
        assert forall|a: int, s: int|
            #![trigger before.medium_live(a, s)]
            #![trigger domain.medium_live(a, s)]
            before.medium_live(a, s) implies spans_apart(a, s, address as int, slices as int) && domain.medium_live(a, s)
            && domain.medium_at(a) == before.medium_at(a) by {
            lemma_idle_apart_live(&before, address as int, slices as int, a, s);
            crate::allocator::holdings::lemma_live_length(&before, a, s);
        }
    }
    heap.retain_external_allocation();
    address
}

/// Takes a medium allocation back. A span that the freeing heap owns goes into its cache; the
/// span that has no room there, or the span itself, is kept by the domain.
pub fn deallocate_medium(heap: &mut HeapState, domain: &mut DomainState, address: usize, slices: usize, deadline: u64) -> (owner: SpanOwner)
    requires
        old(heap).wf(),
        old(domain).wf(),
        old(domain).spans_ok(),
        old(heap).cache_ok(old(domain)),
        address != 0,
        slices <= MEDIUM_REGION_SLICE_COUNT,
        old(domain).medium_live(address as int, slices as int),
    ensures
        final(heap).wf(),
        final(domain).wf(),
        final(domain).spans_ok(),
        final(heap).cache_ok(final(domain)),
        final(heap).same_but_cache(old(heap)),
        final(domain).id == old(domain).id,
        final(domain).same_bases(old(domain)),
        final(domain).regions@.len() == old(domain).regions@.len(),
        final(heap).retirement == old(heap).retirement,
        final(heap).track_aggregates == old(heap).track_aggregates,
        owner == old(domain).medium_at(address as int).owner,
        final(domain).keeps_live_but(old(domain), address as int, slices as int),
        final(domain).no_more_live(old(domain)),
        ({
            let slot = old(heap).cache_slot(slices as int);
            if owner.heap == old(heap).address && slot is Some {
                let displaced = old(heap).medium_cache@[slot->0 as int];
                &&& final(heap).medium_cache@ == old(heap).medium_cache@.update(slot->0 as int, address)
                &&& displaced == 0 ==> unregistered(old(domain), final(domain), address)
                &&& final(domain).idle_span(address as int, slices as int)
                &&& displaced != 0 ==> kept_after(old(domain), final(domain), address, displaced, slices, deadline)
                &&& forall|a: int, s: int|
                    #![trigger final(domain).idle_span(a, s)]
                    #![trigger old(domain).idle_span(a, s)]
                    old(domain).idle_span(a, s) && (displaced == 0 || spans_apart(a, s, displaced as int, slices as int))
                        ==> final(domain).idle_span(a, s)
            } else {
                &&& final(heap).medium_cache@ == old(heap).medium_cache@
                &&& kept_after(old(domain), final(domain), address, address, slices, deadline)
                &&& forall|a: int, s: int|
                    #![trigger final(domain).idle_span(a, s)]
                    #![trigger old(domain).idle_span(a, s)]
                    old(domain).idle_span(a, s) ==> final(domain).idle_span(a, s)
            }
        }),
{
    let ghost before = *domain;
    let ghost heap_before = *heap;
    let allocation = domain.unregister_span(address, slices);
    let ghost middle = *domain;
    proof {
        lemma_unregistered_lives(&before, &middle, address, slices);
        lemma_cache_kept(heap, &before, domain);
        assert forall|slot: int|
            #![trigger heap.medium_cache@[slot]]
            0 <= slot < LOCAL_MEDIUM_CLASSES && heap.medium_cache@[slot] != 0 implies spans_apart(
            heap.medium_cache@[slot] as int,
            pow2(slot as nat) as int,
            address as int,
            slices as int,
        ) by {
            assert(before.idle_span(heap.medium_cache@[slot] as int, pow2(slot as nat) as int));
        }
    }
    let owner = allocation.owner;
    let mut displaced: usize = address;
    if owner.heap == heap.address {
        displaced = heap.put_cached(address, slices, Ghost(*domain));
    }
    if displaced != 0 {
        domain.keep_span(displaced, slices, deadline);
        proof {
            lemma_cache_kept_but(heap, &middle, domain, displaced as int, slices as int);
            lemma_same_allocations(&middle, domain);
            assert(kept_after(&before, domain, address, displaced, slices, deadline)) by {
                assert(kept_from(&middle, domain, displaced, slices, deadline));
                assert(unregistered(&before, &middle, address));
            }
            assert forall|a: int, s: int|
                #![trigger domain.medium_live(a, s)]
                #![trigger before.medium_live(a, s)]
                before.medium_live(a, s) && s > 0 && spans_apart(a, s, address as int, slices as int) implies domain.medium_live(a, s)
                && domain.medium_at(a) == before.medium_at(a) by {
                assert(middle.medium_live(a, s));
                lemma_idle_apart_live(&middle, displaced as int, slices as int, a, s);
            }
            if displaced != address {
                assert(spans_apart(address as int, slices as int, displaced as int, slices as int)) by {
                    let slot = heap_before.cache_slot(slices as int)->0;
                    assert(heap.medium_cache@[slot as int] == address);
                }
            }
            assert forall|a: int, s: int|
                #![trigger domain.idle_span(a, s)]
                #![trigger before.idle_span(a, s)]
                before.idle_span(a, s) && spans_apart(a, s, displaced as int, slices as int) implies domain.idle_span(a, s) by {
                assert(middle.idle_span(a, s));
            }
        }
    }
    owner
}

/// What taking `address` off the register and keeping `displaced` leaves.
pub open spec fn kept_after(before: &DomainState, after: &DomainState, address: usize, displaced: usize, slices: usize, deadline: u64) -> bool {
    exists|middle: DomainState|
        #[trigger] unregistered(before, &middle, address) && kept_from(&middle, after, displaced, slices, deadline)
}

/// What keeping a span leaves of its domain.
pub open spec fn kept_from(before: &DomainState, after: &DomainState, address: usize, slices: usize, deadline: u64) -> bool {
    let index = before.region_at(address as int)->0;
    let left = before.regions@[index];
    let right = after.regions@[index];
    let slice = left.slice_of(address as int);
    &&& 0 <= index < before.regions@.len()
    &&& after.same_but_region(before, index)
    &&& right.same_but_kept(&left)
    &&& right.kept() == left.kept().union(span(slice, slices as int))
    &&& if slices <= crate::allocator::classes::MEDIUM_MAX_SLICES {
        &&& right.large_free == left.large_free
        &&& right.large_purge_after == left.large_purge_after
        &&& right.bins@[slices - 1].free@ == left.bins@[slices - 1].free@.push(slice as usize)
        &&& right.bins@[slices - 1].purge_after == (if left.bins@[slices - 1].purge_after == 0 {
            deadline
        } else {
            left.bins@[slices - 1].purge_after
        })
        &&& forall|other: int|
            #![trigger right.bins@[other]]
            0 <= other < crate::allocator::classes::MEDIUM_MAX_SLICES && other != slices - 1 ==> right.bins@[other]
                == left.bins@[other]
    } else {
        &&& right.bins == left.bins
        &&& crate::allocator::slices::covered(right.large_free@) == crate::allocator::slices::covered(left.large_free@).union(
            span(slice, slices as int),
        )
        &&& right.large_purge_after == (if left.large_purge_after == 0 {
            deadline
        } else {
            left.large_purge_after
        })
    }
}

} // verus!
