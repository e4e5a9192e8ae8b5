# rallocator

A general-purpose memory allocator with allocation hints, written in Verus.

The library (`src/`) holds the decisions: which heap serves a request, where its block lies, where a
block goes when it is freed, what is counted, what an event log keeps. It works on plain addresses and
asks for memory in steps. A step such as `AllocStep::Refill` names what the system has to do, and the
answer goes on with the function that the step names. Contracts speak of the blocks that are in use
(`Space::uses`): a block that is served was not in use, it overlaps no other, nothing else comes into use
with it, and whatever else was in use stays so until it is freed.

- `allocator/` is the allocator: size classes, slabs, slices and regions, general-purpose, bump and thread
  heaps, direct mappings, retirement, usage.
- `hints/` is how a program names heaps and domains and enters them.
- `telemetry/` counts and logs, and builds snapshots.
- `tunables.rs` and `config.rs` configure all that.
- `error_derive/` is what a derive for error types decides.

`app/` is the process around it: the system's memory, the global allocator, handles and scopes, files and
macros. `tests/` runs the library against a stand-in for the system.
