//! The instruction addresses that call stacks name, and what is known of them.

use vstd::prelude::*;

use crate::sorting::{ascending, insert_sorted};
use crate::telemetry::events::{event_models, Event, EventModel};

verus! {

/// What a lookup found at an address.
pub struct Symbol {
    pub name: Option<String>,
    pub filename: Option<String>,
    pub line: Option<u32>,
    pub column: Option<u32>,
}

/// What is known of an address.
pub struct AddressLookup {
    pub address: u64,
    pub symbol: Option<String>,
    pub filename: Option<String>,
    pub line: Option<u32>,
    pub column: Option<u32>,
}

/// Whether a call stack of the events names the address.
pub open spec fn names_address(events: Seq<EventModel>, address: usize) -> bool {
    exists|at: int| 0 <= at < events.len() && #[trigger] events[at].call_stack.contains(address)
}

/// The addresses that the events' call stacks name, ascending, each once, and without 0.
pub fn stack_addresses(events: &Vec<Event>) -> (addresses: Vec<usize>)
    ensures
        ascending(addresses@),
        forall|address: usize|
            #[trigger] addresses@.contains(address) <==> address != 0 && names_address(event_models(events@), address),
{
    let ghost models = event_models(events@);
    let mut addresses: Vec<usize> = Vec::new();
    let mut at: usize = 0;
    while at < events.len()
        invariant
            at <= events@.len(),
            models == event_models(events@),
            ascending(addresses@),
            forall|address: usize|
                #[trigger] addresses@.contains(address) <==> address != 0 && names_address(models.take(at as int), address),
        decreases events@.len() - at,
    {
        let ghost before = addresses@;
        let ghost frames = events@[at as int].call_stack@;
        let mut frame: usize = 0;
        while frame < events[at].call_stack.len()
            invariant
                at < events@.len(),
                frames == events@[at as int].call_stack@,
                frame <= frames.len(),
                ascending(addresses@),
                forall|address: usize|
                    #[trigger] addresses@.contains(address) <==> before.contains(address) || address != 0 && frames.take(
                        frame as int,
                    ).contains(address),
            decreases frames.len() - frame,
        {
            let address: usize = events[at].call_stack[frame];
            let ghost current = addresses@;
            if address != 0 {
                insert_sorted(&mut addresses, address);
            }
            proof {
                let less = frames.take(frame as int);
                let more = frames.take(frame + 1);
                assert forall|other: usize| more.contains(other) <==> #[trigger] less.contains(other) || other == address by {
                    if less.contains(other) {
                        let index = choose|index: int| 0 <= index < less.len() && less[index] == other;
                        assert(more[index] == other);
                    }
                    if other == address {
                        assert(more[frame as int] == other);
                    }
                    if more.contains(other) {
                        let index = choose|index: int| 0 <= index < more.len() && more[index] == other;
                        if index < frame {
                            assert(less[index] == other);
                        }
                    }
                }
                assert forall|other: usize|
                    #[trigger] addresses@.contains(other) <==> before.contains(other) || other != 0 && frames.take(frame + 1).contains(
                        other,
                    ) by {
                    assert(current.contains(other) <==> before.contains(other) || other != 0 && frames.take(frame as int).contains(other));
                }
            }
            frame = frame + 1;
        }
        proof {
            assert(frames.take(frame as int) =~= frames);
            assert forall|address: usize|
                #[trigger] addresses@.contains(address) <==> address != 0 && names_address(models.take(at + 1), address) by {
                let less = models.take(at as int);
                let more = models.take(at + 1);
                assert(before.contains(address) <==> address != 0 && names_address(less, address));
                if names_address(less, address) {
                    let index = choose|index: int| 0 <= index < less.len() && #[trigger] less[index].call_stack.contains(address);
                    assert(more[index].call_stack.contains(address));
                }
                if frames.contains(address) {
                    assert(more[at as int].call_stack.contains(address));
                }
                if names_address(more, address) {
                    let index = choose|index: int| 0 <= index < more.len() && #[trigger] more[index].call_stack.contains(address);
                    if index < at {
                        assert(less[index].call_stack.contains(address));
                    }
                }
            }
        }
        at = at + 1;
    }
    assert(models.take(at as int) =~= models);
    addresses
}

/// What was known first.
pub open spec fn first_known<T>(known: Option<T>, found: Option<T>) -> Option<T> {
    match known {
        Some(value) => Some(value),
        None => found,
    }
}

/// Adds what a lookup found to what is known. What was known first stays.
pub fn merge_address_lookup(
    lookup: &mut AddressLookup,
    symbol: Option<String>,
    filename: Option<String>,
    line: Option<u32>,
    column: Option<u32>,
)
    ensures
        final(lookup).address == old(lookup).address,
        final(lookup).symbol == first_known(old(lookup).symbol, symbol),
        final(lookup).filename == first_known(old(lookup).filename, filename),
        final(lookup).line == first_known(old(lookup).line, line),
        final(lookup).column == first_known(old(lookup).column, column),
{
    if lookup.symbol.is_none() {
        lookup.symbol = symbol;
    }
    if lookup.filename.is_none() {
        lookup.filename = filename;
    }
    if lookup.line.is_none() {
        lookup.line = line;
    }
    if lookup.column.is_none() {
        lookup.column = column;
    }
}

/// The first known value of the symbols up to `count`.
pub open spec fn first_line(symbols: Seq<Symbol>, count: int) -> Option<u32>
    decreases count,
{
    if count <= 0 {
        None
    } else {
        first_known(first_line(symbols, count - 1), symbols[count - 1].line)
    }
}

pub open spec fn first_column(symbols: Seq<Symbol>, count: int) -> Option<u32>
    decreases count,
{
    if count <= 0 {
        None
    } else {
        first_known(first_column(symbols, count - 1), symbols[count - 1].column)
    }
}

pub open spec fn first_name(symbols: Seq<Symbol>, count: int) -> Option<String>
    decreases count,
{
    if count <= 0 {
        None
    } else {
        first_known(first_name(symbols, count - 1), symbols[count - 1].name)
    }
}

pub open spec fn first_filename(symbols: Seq<Symbol>, count: int) -> Option<String>
    decreases count,
{
    if count <= 0 {
        None
    } else {
        first_known(first_filename(symbols, count - 1), symbols[count - 1].filename)
    }
}

/// What the symbols that were found at an address say of it together.
pub fn resolve_address(address: usize, symbols: Vec<Symbol>) -> (lookup: AddressLookup)
    ensures
        lookup.address == address as u64,
        lookup.symbol == first_name(symbols@, symbols@.len() as int),
        lookup.filename == first_filename(symbols@, symbols@.len() as int),
        lookup.line == first_line(symbols@, symbols@.len() as int),
        lookup.column == first_column(symbols@, symbols@.len() as int),
{
    let ghost all = symbols@;
    let mut lookup = AddressLookup { address: address as u64, symbol: None, filename: None, line: None, column: None };
    let mut rest = symbols;
    let ghost mut done: int = 0;
    while rest.len() > 0
        invariant
            0 <= done <= all.len(),
            rest@ == all.skip(done),
            lookup.address == address as u64,
            lookup.symbol == first_name(all, done),
            lookup.filename == first_filename(all, done),
            lookup.line == first_line(all, done),
            lookup.column == first_column(all, done),
        decreases rest@.len(),
    {
        let ghost before = rest@;
        let symbol = rest.remove(0);
        assert(symbol == all[done]);
        merge_address_lookup(&mut lookup, symbol.name, symbol.filename, symbol.line, symbol.column);
        proof {
            done = done + 1;
            assert(rest@ =~= all.skip(done));
        }
    }
    lookup
}

} // verus!
