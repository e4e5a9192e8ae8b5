//! The spans that heaps hold, as the domains change.

use vstd::prelude::*;

use crate::allocator::classes::{MEDIUM_REGION_SIZE, MEDIUM_SLICE_SIZE};
use crate::allocator::domains::{apart, DomainState};
use crate::allocator::holdings::{lemma_apart_in, lemma_apart_regions, spans_apart};
use crate::allocator::region::valid_base;
use crate::allocator::space::{domains_ok, held_ok, holdings_ok, mapped_ok, stretches_apart, Holding};

verus! {

/// Whether every domain has the regions that it had.
pub open spec fn bases_kept(before: Seq<DomainState>, after: Seq<DomainState>) -> bool {
    &&& after.len() == before.len()
    &&& forall|at: int| 0 <= at < before.len() ==> same_regions(before[at], #[trigger] after[at])
}

/// Whether the regions lie where they lay.
pub open spec fn same_regions(before: DomainState, after: DomainState) -> bool {
    &&& after.id == before.id
    &&& after.regions@.len() == before.regions@.len()
    &&& forall|at: int|
        #![trigger after.regions@[at]]
        0 <= at < before.regions@.len() ==> after.regions@[at].base == before.regions@[at].base
}

/// Whether the regions lie where they lay, with one more behind them.
pub open spec fn one_region_more(before: DomainState, after: DomainState, base: usize) -> bool {
    &&& after.id == before.id
    &&& after.regions@.len() == before.regions@.len() + 1
    &&& forall|at: int|
        #![trigger after.regions@[at]]
        0 <= at < before.regions@.len() ==> after.regions@[at].base == before.regions@[at].base
    &&& after.regions@[before.regions@.len() as int].base == base
}

/// Whether a region reserved there meets no region and no mapping.
pub open spec fn fresh_region(domains: Seq<DomainState>, mapped: Map<usize, int>, base: usize) -> bool {
    &&& valid_base(base as int)
    &&& forall|at: int, index: int|
        #![trigger domains[at].regions@[index]]
        0 <= at < domains.len() && 0 <= index < domains[at].regions@.len() ==> apart(
            domains[at].regions@[index].base as int,
            base as int,
        )
    &&& forall|address: usize|
        #[trigger] mapped.dom().contains(address) ==> stretches_apart(
            address as int,
            mapped[address],
            base as int,
            MEDIUM_REGION_SIZE as int,
        )
}

/// Whether a mapping made there meets no region and no other mapping.
pub open spec fn fresh_mapping(domains: Seq<DomainState>, mapped: Map<usize, int>, address: usize, bytes: int) -> bool {
    &&& 0 < address
    &&& 0 < bytes
    &&& address + bytes <= usize::MAX
    &&& forall|at: int, index: int|
        #![trigger domains[at].regions@[index]]
        0 <= at < domains.len() && 0 <= index < domains[at].regions@.len() ==> stretches_apart(
            address as int,
            bytes,
            domains[at].regions@[index].base as int,
            MEDIUM_REGION_SIZE as int,
        )
    &&& forall|other: usize|
        #[trigger] mapped.dom().contains(other) ==> stretches_apart(address as int, bytes, other as int, mapped[other])
}

/// Whether nothing but the domain at that place may differ, and its regions lie where they lay or
/// have a fresh one behind them.
pub open spec fn domain_step(
    before: Seq<DomainState>,
    after: Seq<DomainState>,
    at: int,
    mapped: Map<usize, int>,
    spare: Option<usize>,
) -> bool {
    &&& 0 <= at < before.len()
    &&& after.len() == before.len()
    &&& forall|other: int| #![trigger after[other]] 0 <= other < before.len() && other != at ==> after[other] == before[other]
    &&& after[at].wf()
    &&& after[at].spans_ok()
    &&& match spare {
        None => same_regions(before[at], after[at]),
        Some(base) => one_region_more(before[at], after[at], base) && fresh_region(before, mapped, base),
    }
}

/// A step of one domain keeps the domains in order and the mappings apart from them.
pub proof fn lemma_domain_step(before: Seq<DomainState>, after: Seq<DomainState>, at: int, mapped: Map<usize, int>, spare: Option<usize>)
    requires
        domains_ok(before),
        mapped_ok(before, mapped),
        domain_step(before, after, at, mapped, spare),
    ensures
        domains_ok(after),
        mapped_ok(after, mapped),
{
    assert forall|index: int| 0 <= index < after.len() implies (#[trigger] after[index]).wf() && after[index].spans_ok() && after[index].id
        == index + 1 by {
        assert(before[index].wf());
    }
    assert forall|left: int, right: int, i: int, j: int|
        #![trigger after[left].regions@[i], after[right].regions@[j]]
        0 <= left < right < after.len() && 0 <= i < after[left].regions@.len() && 0 <= j < after[right].regions@.len() implies apart(
        after[left].regions@[i].base as int,
        after[right].regions@[j].base as int,
    ) by {
        if i < before[left].regions@.len() && j < before[right].regions@.len() {
            assert(apart(before[left].regions@[i].base as int, before[right].regions@[j].base as int));
        } else if i < before[left].regions@.len() {
            assert(before[left].regions@[i].base == after[left].regions@[i].base);
            assert(apart(before[left].regions@[i].base as int, spare->0 as int));
        } else {
            assert(before[right].regions@[j].base == after[right].regions@[j].base);
            assert(apart(before[right].regions@[j].base as int, spare->0 as int));
        }
    }
    assert forall|address: usize, place: int, index: int|
        #![trigger mapped.dom().contains(address), after[place].regions@[index]]
        mapped.dom().contains(address) && 0 <= place < after.len() && 0 <= index < after[place].regions@.len() implies stretches_apart(
        address as int,
        mapped[address],
        after[place].regions@[index].base as int,
        MEDIUM_REGION_SIZE as int,
    ) by {
        if index < before[place].regions@.len() {
            assert(stretches_apart(address as int, mapped[address], before[place].regions@[index].base as int, MEDIUM_REGION_SIZE as int));
        }
    }
}

/// A span of one domain is apart from a span of another.
pub proof fn lemma_domains_apart(domains: Seq<DomainState>, left: int, a: int, s: int, right: int, b: int, t: int)
    requires
        domains_ok(domains),
        0 <= left < domains.len(),
        0 <= right < domains.len(),
        left != right,
        domains[left].used_span(a, s),
        domains[right].used_span(b, t),
    ensures
        spans_apart(a, s, b, t),
{
    let i = domains[left].region_at(a)->0;
    let j = domains[right].region_at(b)->0;
    let first = domains[left].regions@[i];
    let second = domains[right].regions@[j];
    assert(domains[left].wf() && domains[right].wf());
    assert(0 <= i < domains[left].regions@.len() && first.holds(a));
    assert(0 <= j < domains[right].regions@.len() && second.holds(b));
    if left < right {
        assert(apart(domains[left].regions@[i].base as int, domains[right].regions@[j].base as int));
    } else {
        assert(apart(domains[right].regions@[j].base as int, domains[left].regions@[i].base as int));
    }
    lemma_apart_in(&second, b, t, 0, 1);
    lemma_apart_regions(&first, &second, a, s, second.slice_of(b), t);
}

/// What a domain gained is apart from everything that is held.
pub proof fn lemma_gained_apart(
    before: Seq<DomainState>,
    after: Seq<DomainState>,
    at: int,
    holdings: Map<usize, Holding>,
    address: usize,
    slices: int,
)
    requires
        domains_ok(before),
        domains_ok(after),
        holdings_ok(before, holdings),
        0 <= at < before.len(),
        after.len() == before.len(),
        forall|other: int| #![trigger after[other]] 0 <= other < before.len() && other != at ==> after[other] == before[other],
        after[at].gained(&before[at], address as int, slices),
        slices > 0,
    ensures
        forall|other: usize|
            #[trigger] holdings.dom().contains(other) ==> spans_apart(other as int, holdings[other].slices, address as int, slices),
        !holdings.dom().contains(address),
        holdings_ok(after, holdings),
{
    assert forall|other: usize| #[trigger] holdings.dom().contains(other) implies spans_apart(
        other as int,
        holdings[other].slices,
        address as int,
        slices,
    ) && held_ok(after, other, holdings[other]) by {
        let holding = holdings[other];
        let place = holding.domain - 1;
        assert(held_ok(before, other, holding));
        if place == at {
            assert(before[at].idle_span(other as int, holding.slices));
        } else {
            assert(after[place] == before[place]);
            lemma_domains_apart(after, place, other as int, holding.slices, at, address as int, slices);
        }
    }
    if holdings.dom().contains(address) {
        assert(held_ok(before, address, holdings[address]));
        assert(spans_apart(address as int, holdings[address].slices, address as int, slices));
        assert(false) by (nonlinear_arith)
            requires
                holdings[address].slices > 0,
                slices > 0,
                address + holdings[address].slices * MEDIUM_SLICE_SIZE <= address || address + slices * MEDIUM_SLICE_SIZE <= address,
                MEDIUM_SLICE_SIZE == 65536,
        ;
    }
}

/// One more span is held: what was in order stays so.
pub proof fn lemma_held(
    domains: Seq<DomainState>,
    holdings: Map<usize, Holding>,
    address: usize,
    holding: Holding,
)
    requires
        holdings_ok(domains, holdings),
        held_ok(domains, address, holding),
        forall|other: usize|
            #[trigger] holdings.dom().contains(other) ==> spans_apart(other as int, holdings[other].slices, address as int, holding.slices),
    ensures
        holdings_ok(domains, holdings.insert(address, holding)),
{
    let more = holdings.insert(address, holding);
    assert forall|other: usize| #[trigger] more.dom().contains(other) implies held_ok(domains, other, more[other]) by {
        if other != address {
            assert(holdings.dom().contains(other));
        }
    }
    assert forall|left: usize, right: usize|
        #![trigger more.dom().contains(left), more.dom().contains(right)]
        more.dom().contains(left) && more.dom().contains(right) && left != right implies spans_apart(
        left as int,
        more[left].slices,
        right as int,
        more[right].slices,
    ) by {
        if left != address {
            assert(holdings.dom().contains(left));
        }
        if right != address {
            assert(holdings.dom().contains(right));
        }
    }
}

/// A span is held no longer, and its domain keeps every other one.
pub proof fn lemma_unheld(
    before: Seq<DomainState>,
    after: Seq<DomainState>,
    at: int,
    holdings: Map<usize, Holding>,
    address: usize,
)
    requires
        holdings_ok(before, holdings),
        holdings.dom().contains(address),
        0 <= at < before.len(),
        after.len() == before.len(),
        forall|other: int| #![trigger after[other]] 0 <= other < before.len() && other != at ==> after[other] == before[other],
        after[at].keeps_idle_but(&before[at], address as int, holdings[address].slices),
    ensures
        holdings_ok(after, holdings.remove(address)),
{
    let less = holdings.remove(address);
    assert forall|other: usize| #[trigger] less.dom().contains(other) implies held_ok(after, other, less[other]) by {
        assert(holdings.dom().contains(other));
        assert(held_ok(before, other, holdings[other]));
        assert(spans_apart(other as int, holdings[other].slices, address as int, holdings[address].slices));
        if holdings[other].domain - 1 == at {
            assert(before[at].idle_span(other as int, holdings[other].slices));
        }
    }
    assert forall|left: usize, right: usize|
        #![trigger less.dom().contains(left), less.dom().contains(right)]
        less.dom().contains(left) && less.dom().contains(right) && left != right implies spans_apart(
        left as int,
        less[left].slices,
        right as int,
        less[right].slices,
    ) by {
        assert(holdings.dom().contains(left) && holdings.dom().contains(right));
    }
}

/// A domain that keeps its spans keeps what is held.
pub proof fn lemma_spans_held(before: Seq<DomainState>, after: Seq<DomainState>, at: int, holdings: Map<usize, Holding>)
    requires
        holdings_ok(before, holdings),
        0 <= at < before.len(),
        after.len() == before.len(),
        forall|other: int| #![trigger after[other]] 0 <= other < before.len() && other != at ==> after[other] == before[other],
        forall|a: int, s: int| #![trigger after[at].idle_span(a, s)] before[at].idle_span(a, s) ==> after[at].idle_span(a, s),
    ensures
        holdings_ok(after, holdings),
{
    assert forall|other: usize| #[trigger] holdings.dom().contains(other) implies held_ok(after, other, holdings[other]) by {
        assert(held_ok(before, other, holdings[other]));
        if holdings[other].domain - 1 == at {
            assert(before[at].idle_span(other as int, holdings[other].slices));
        }
    }
}

} // verus!
