//! The blocks in use, of whatever kind, and that no two of them meet.

use vstd::prelude::*;

use crate::allocator::blocks::{lemma_at_address, lemma_marked};
use crate::allocator::bump::{chunk_base, BumpState};
use crate::allocator::classes::{segment_of, MEDIUM_REGION_SIZE, MEDIUM_SLICE_SIZE};
use crate::allocator::direct::{record_at, ExtraHeader};
use crate::allocator::domains::apart;
use crate::allocator::frames::alike_slab;
use crate::allocator::holdings::{lemma_live_length, spans_apart};
use crate::allocator::mediums::{lemma_held_apart_live, lemma_lives_apart, medium_used, mediums_kept};
use crate::allocator::references::{lemma_refs_go_on, refs_kept};
use crate::allocator::refills::{lemma_held_bounds, lemma_slab_apart};
use crate::allocator::remote::idle_at;
use crate::allocator::segments::{grounds_kept, lemma_segments_go_on, localities_kept};
use crate::allocator::slab::{SlabModel, SLAB_SIZE};
use crate::allocator::space::{slab_in, slab_placed, stretches_apart, Space, User};

verus! {

/// A block in use.
#[allow(inconsistent_fields)]
pub ghost enum Block {
    /// A block of a slab, and what was asked of it.
    Small { block: usize, context: bool, class: int, requested_bytes: int },
    /// A span of slices of the domain at that place.
    Medium { place: int, address: usize, slices: int },
    /// A block of the bump heap at that place.
    Bump { bump: int, address: int, bytes: int },
    /// A mapping of its own.
    Direct { address: usize, mapping: usize, bytes: int },
}

/// Whether the record is that of a block in a mapping of its own.
pub open spec fn is_direct(extra: ExtraHeader) -> bool {
    extra.class_index is None
}

/// Whether the record's mapping is there and no slab, and the block lies in it.
pub open spec fn direct_ok(extra: ExtraHeader, mapped: Map<usize, int>, slabs: Map<usize, SlabModel>) -> bool {
    &&& mapped.dom().contains(extra.mapping_address)
    &&& mapped[extra.mapping_address] == extra.mapping_size
    &&& !slabs.dom().contains(extra.mapping_address)
    &&& extra.mapping_address <= extra.address
    &&& extra.address + extra.usable_bytes <= extra.mapping_address + extra.mapping_size
    &&& 0 < extra.usable_bytes
}

/// Whether every block in a mapping of its own has it alone.
pub open spec fn directs_ok(extras: Seq<ExtraHeader>, mapped: Map<usize, int>, slabs: Map<usize, SlabModel>) -> bool {
    &&& forall|at: int| 0 <= at < extras.len() && is_direct(#[trigger] extras[at]) ==> direct_ok(extras[at], mapped, slabs)
    &&& forall|left: int, right: int|
        #![trigger extras[left], extras[right]]
        0 <= left < right < extras.len() && is_direct(extras[left]) && is_direct(extras[right]) ==> extras[left].mapping_address
            != extras[right].mapping_address
}

impl Space {
    /// Whether the record at that place is that of a block of a slab, which is in use, and which no
    /// other record lies in.
    pub open spec fn holds_record(&self, at: int, block: usize, requested_bytes: int) -> bool {
        let extras = self.records.extras@;
        extras[at].class_index matches Some(class) && {
            &&& self.used_as(block, true, class as int, requested_bytes)
            &&& block <= extras[at].address < block + self.sizes()[class as int]
            &&& forall|other: int|
                0 <= other < extras.len() && other != at ==> !(block <= (#[trigger] extras[other]).address < block
                    + self.sizes()[class as int])
        }
    }

    /// Whether every record has an address of its own and is that of a block in use.
    pub open spec fn records_ok(&self) -> bool {
        let extras = self.records.extras@;
        &&& forall|at: int|
            0 <= at < extras.len() && !is_direct(#[trigger] extras[at]) ==> exists|block: usize, requested_bytes: int|
                #[trigger] self.holds_record(at, block, requested_bytes)
        &&& forall|left: int, right: int|
            #![trigger extras[left], extras[right]]
            0 <= left < right < extras.len() ==> extras[left].address != extras[right].address
    }

    /// Whether everything is in order, the blocks with records and the heaps' segments among it.
    pub open spec fn whole(&self) -> bool {
        &&& self.inv()
        &&& directs_ok(self.records.extras@, self.mapped@, self.slabs@)
        &&& self.records_ok()
        &&& self.segments_whole()
        &&& self.refs_owned()
    }

    /// The record of the block at the address.
    pub open spec fn record_of(&self, address: usize) -> ExtraHeader {
        self.records.extras@[record_at(self.records.extras@, address)]
    }

    /// Whether the block is in use.
    pub open spec fn uses(&self, block: Block) -> bool {
        match block {
            Block::Small { block, context, class, requested_bytes } => self.used_as(block, context, class, requested_bytes),
            Block::Medium { place, address, slices } => medium_used(*self, place, address, slices),
            Block::Bump { bump, address, bytes } => {
                &&& 0 <= bump < self.bumps@.len()
                &&& self.bumps@[bump].wf()
                &&& self.bumps@[bump].live@.dom().contains(address)
                &&& self.bumps@[bump].live@[address] == bytes
            },
            Block::Direct { address, mapping, bytes } => {
                let extra = self.record_of(address);
                &&& record_at(self.records.extras@, address) >= 0
                &&& is_direct(extra)
                &&& extra.mapping_address == mapping
                &&& extra.mapping_size == bytes
            },
        }
    }

    /// Where the block starts.
    pub open spec fn start_of(&self, block: Block) -> int {
        match block {
            Block::Small { block, context, class, requested_bytes } => block as int,
            Block::Medium { place, address, slices } => address as int,
            Block::Bump { bump, address, bytes } => address,
            Block::Direct { address, mapping, bytes } => mapping as int,
        }
    }

    /// How long the block is.
    pub open spec fn length_of(&self, block: Block) -> int {
        match block {
            Block::Small { block, context, class, requested_bytes } => self.sizes()[class] as int,
            Block::Medium { place, address, slices } => slices * MEDIUM_SLICE_SIZE,
            Block::Bump { bump, address, bytes } => bytes,
            Block::Direct { address, mapping, bytes } => bytes,
        }
    }

    /// Whether two blocks do not meet.
    pub open spec fn blocks_apart(&self, left: Block, right: Block) -> bool {
        stretches_apart(self.start_of(left), self.length_of(left), self.start_of(right), self.length_of(right))
    }
}

/// Whether every block that is in use stays so.
pub open spec fn uses_kept(before: Space, after: Space) -> bool {
    forall|block: Block| #[trigger] before.uses(block) ==> after.uses(block)
}

/// A small block stays in use where its slab's blocks in use stay, or one more joins them.
pub proof fn lemma_small_kept(before: Space, after: Space, block: usize, context: bool, class: int, requested_bytes: int)
    requires
        before.used_as(block, context, class, requested_bytes),
        after.sizes() == before.sizes(),
        idle_at(after.slabs@, after.sizes(), context, class, block),
        ({
            let slab = segment_of(block as int) as usize;
            &&& after.out@.dom().contains(slab)
            &&& after.out@[slab] == before.out@[slab] || after.out@[slab] == before.out@[slab].push(after.out@[slab].last())
        }),
    ensures
        after.used_as(block, context, class, requested_bytes),
{
    let at = choose|at: int| #[trigger] before.is_entry(at, block, before.sizes()[class] - requested_bytes);
    assert(after.is_entry(at, block, after.sizes()[class] - requested_bytes));
}

/// Whether every slab stays, and with it its blocks in use, which one more may join.
pub open spec fn smalls_kept(before: Space, after: Space) -> bool {
    forall|slab: usize|
        #[trigger] before.slabs@.dom().contains(slab) ==> {
            &&& after.slabs@.dom().contains(slab)
            &&& alike_slab(before.slabs@[slab], after.slabs@[slab])
            &&& after.out@[slab] == before.out@[slab] || after.out@[slab] == before.out@[slab].push(after.out@[slab].last())
        }
}

/// Whether the blocks in use of every bump heap stay.
pub open spec fn bumps_kept(before: Seq<BumpState>, after: Seq<BumpState>) -> bool {
    &&& before.len() <= after.len()
    &&& forall|bump: int, address: int|
        #![trigger before[bump].live@.dom().contains(address)]
        0 <= bump < before.len() && before[bump].wf() && before[bump].live@.dom().contains(address) ==> {
            &&& after[bump].wf()
            &&& after[bump].live@.dom().contains(address)
            &&& after[bump].live@[address] == before[bump].live@[address]
        }
}

/// The blocks in use stay so where each kind of them does.
pub proof fn lemma_uses_go_on(before: Space, after: Space)
    requires
        before.inv(),
        after.inv(),
        after.sizes() == before.sizes(),
        smalls_kept(before, after),
        before.domains@.len() <= after.domains@.len(),
        mediums_kept(before.domains@, after.domains@),
        bumps_kept(before.bumps@, after.bumps@),
        after.records == before.records,
    ensures
        uses_kept(before, after),
{
    assert forall|block: Block| #[trigger] before.uses(block) implies after.uses(block) by {
        match block {
            Block::Small { block, context, class, requested_bytes } => {
                let slab = segment_of(block as int) as usize;
                let at = choose|at: int| #[trigger] before.is_entry(at, block, before.sizes()[class] - requested_bytes);
                assert(before.slabs@.dom().contains(slab));
                assert(after.is_entry(at, block, after.sizes()[class] - requested_bytes));
                assert(after.entries_ok(slab));
                assert(after.entry_ok(slab, at));
                assert(after.loose(block));
                assert(after.slabs@[slab].address == slab);
            },
            Block::Medium { place, address, slices } => {
                assert(before.domains@[place].medium_live(address as int, slices));
            },
            Block::Bump { bump, address, bytes } => {
                assert(before.bumps@[bump].live@.dom().contains(address));
            },
            Block::Direct { .. } => {},
        }
    }
}

/// What lies in a held span is no mapping.
pub proof fn lemma_held_is_unmapped(space: Space, base: usize, address: usize)
    requires
        space.inv(),
        space.holdings@.dom().contains(base),
        base <= address < base + space.holdings@[base].slices * MEDIUM_SLICE_SIZE,
    ensures
        !space.mapped@.dom().contains(address),
{
    lemma_held_bounds(space, base);
    let (at, index) = choose|at: int, index: int|
        0 <= at < space.domains@.len() && 0 <= index < space.domains@[at].regions@.len() && (
        #[trigger] space.domains@[at].regions@[index]).base <= base && base + space.holdings@[base].slices * MEDIUM_SLICE_SIZE
            <= space.domains@[at].regions@[index].base + MEDIUM_REGION_SIZE;
    if space.mapped@.dom().contains(address) {
        assert(stretches_apart(
            address as int,
            space.mapped@[address],
            space.domains@[at].regions@[index].base as int,
            MEDIUM_REGION_SIZE as int,
        ));
        assert(space.mapped@[address] > 0);
    }
}

/// The blocks in mappings of their own stay in order where mappings and slabs join, and no slab
/// lies in a mapping that was there.
pub proof fn lemma_directs_go_on(before: Space, after: Space)
    requires
        directs_ok(before.records.extras@, before.mapped@, before.slabs@),
        after.records == before.records,
        forall|address: usize|
            #[trigger] before.mapped@.dom().contains(address) ==> after.mapped@.dom().contains(address) && after.mapped@[address]
                == before.mapped@[address],
        forall|slab: usize|
            #[trigger] after.slabs@.dom().contains(slab) && !before.slabs@.dom().contains(slab) ==> !before.mapped@.dom().contains(slab),
    ensures
        directs_ok(after.records.extras@, after.mapped@, after.slabs@),
{
    let extras = before.records.extras@;
    assert forall|at: int| 0 <= at < extras.len() && is_direct(#[trigger] extras[at]) implies direct_ok(
        extras[at],
        after.mapped@,
        after.slabs@,
    ) by {
        assert(direct_ok(extras[at], before.mapped@, before.slabs@));
        assert(before.mapped@.dom().contains(extras[at].mapping_address));
    }
}

/// The records stay in order where the blocks in use stay.
pub proof fn lemma_records_go_on(before: Space, after: Space)
    requires
        before.records_ok(),
        after.records == before.records,
        after.sizes() == before.sizes(),
        uses_kept(before, after),
    ensures
        after.records_ok(),
{
    let extras = before.records.extras@;
    assert forall|at: int| 0 <= at < extras.len() && !is_direct(#[trigger] extras[at]) implies exists|
        block: usize,
        requested_bytes: int,
    | #[trigger] after.holds_record(at, block, requested_bytes) by {
        let (block, requested_bytes) = choose|block: usize, requested_bytes: int|
            #[trigger] before.holds_record(at, block, requested_bytes);
        let class = extras[at].class_index->0 as int;
        assert(before.uses(Block::Small { block, context: true, class, requested_bytes }));
        assert(after.uses(Block::Small { block, context: true, class, requested_bytes }));
        assert(after.holds_record(at, block, requested_bytes));
    }
}

/// Everything stays in order, and the blocks in use with it, where nothing but slabs, mappings and
/// blocks in use joins.
pub proof fn lemma_whole_goes_on(before: Space, after: Space)
    requires
        before.whole(),
        after.inv(),
        after.sizes() == before.sizes(),
        smalls_kept(before, after),
        before.domains@.len() <= after.domains@.len(),
        mediums_kept(before.domains@, after.domains@),
        bumps_kept(before.bumps@, after.bumps@),
        localities_kept(before.heaps@, after.heaps@),
        refs_kept(before, after, -1, 0),
        grounds_kept(before, after),
        after.records == before.records,
        forall|address: usize|
            #[trigger] before.mapped@.dom().contains(address) ==> after.mapped@.dom().contains(address) && after.mapped@[address]
                == before.mapped@[address],
        forall|slab: usize|
            #[trigger] after.slabs@.dom().contains(slab) && !before.slabs@.dom().contains(slab) ==> !before.mapped@.dom().contains(slab),
    ensures
        after.whole(),
        uses_kept(before, after),
{
    lemma_uses_go_on(before, after);
    lemma_directs_go_on(before, after);
    lemma_records_go_on(before, after);
    lemma_segments_go_on(before, after);
    lemma_refs_go_on(before, after, -1, 0);
}

/// Where a record says its block lies.
pub proof fn lemma_record_lies(space: Space, at: int) -> (block: Block)
    requires
        space.whole(),
        0 <= at < space.records.extras@.len(),
    ensures
        space.uses(block),
        space.start_of(block) <= space.records.extras@[at].address < space.start_of(block) + space.length_of(block),
        match block {
            Block::Small { block, context, class, requested_bytes } => context && space.holds_record(
                at,
                block,
                requested_bytes,
            ) && !is_direct(space.records.extras@[at]),
            Block::Direct { address, mapping, bytes } => is_direct(space.records.extras@[at]) && address
                == space.records.extras@[at].address && mapping == space.records.extras@[at].mapping_address,
            _ => false,
        },
{
    let extras = space.records.extras@;
    let extra = extras[at];
    if is_direct(extra) {
        assert(direct_ok(extra, space.mapped@, space.slabs@));
        crate::allocator::direct::lemma_record_at(extras, extra.address);
        let found = record_at(extras, extra.address);
        if found < at {
            assert(extras[found].address != extras[at].address);
        } else if at < found {
            assert(extras[at].address != extras[found].address);
        }
        Block::Direct { address: extra.address, mapping: extra.mapping_address, bytes: extra.mapping_size as int }
    } else {
        let (block, requested_bytes) = choose|block: usize, requested_bytes: int|
            #[trigger] space.holds_record(at, block, requested_bytes);
        Block::Small { block, context: true, class: extra.class_index->0 as int, requested_bytes }
    }
}

/// A small block lies in its slab.
pub proof fn lemma_in_slab(space: Space, block: usize, context: bool, class: int, requested_bytes: int)
    requires
        space.inv(),
        space.used_as(block, context, class, requested_bytes),
    ensures
        ({
            let slab = segment_of(block as int) as usize;
            &&& space.slabs@.dom().contains(slab)
            &&& slab_placed(space.holdings@, space.mapped@, slab)
            &&& slab <= block
            &&& block + space.sizes()[class] <= slab + SLAB_SIZE
            &&& slab as int % (SLAB_SIZE as int) == 0
            &&& space.sizes()[class] > 0
        }),
{
    let slab = segment_of(block as int) as usize;
    let model = space.slabs@[slab];
    lemma_at_address(&space.slabs, slab);
    crate::allocator::slab::lemma_blocks(model.block_size);
    let size = model.block_size;
    let index = model.index_of(block as int);
    assert(block - model.address == index * size) by (nonlinear_arith)
        requires
            index == (block - model.address) / size,
            (block - model.address) % size == 0,
            size > 0,
    ;
    assert((index + 1) * size <= crate::allocator::slab::block_count(size) * size) by (nonlinear_arith)
        requires
            index + 1 <= crate::allocator::slab::block_count(size),
            size > 0,
    ;
    assert((index + 1) * size == index * size + size) by (nonlinear_arith);
}

/// Two blocks of one slab do not meet.
proof fn lemma_in_one_slab(space: Space, left: usize, right: usize, slab: usize, size: int)
    requires
        size > 0,
        left != right,
        (left - slab) % size == 0,
        (right - slab) % size == 0,
    ensures
        stretches_apart(left as int, size, right as int, size),
{
    let i = (left - slab) / size;
    let j = (right - slab) / size;
    assert(left - slab == i * size && right - slab == j * size) by (nonlinear_arith)
        requires
            i == (left - slab) / size,
            j == (right - slab) / size,
            (left - slab) % size == 0,
            (right - slab) % size == 0,
            size > 0,
    ;
    if i < j {
        assert(i * size + size <= j * size) by (nonlinear_arith)
            requires
                i + 1 <= j,
                size > 0,
        ;
    } else if j < i {
        assert(j * size + size <= i * size) by (nonlinear_arith)
            requires
                j + 1 <= i,
                size > 0,
        ;
    }
}

proof fn lemma_small_small(space: Space, left: Block, right: Block)
    requires
        space.inv(),
        space.uses(left),
        space.uses(right),
        left is Small,
        right is Small,
        left != right,
    ensures
        space.blocks_apart(left, right),
{
    if let Block::Small { block: a, context: x, class: c, requested_bytes: r } = left {
        if let Block::Small { block: b, context: y, class: d, requested_bytes: t } = right {
            lemma_in_slab(space, a, x, c, r);
            lemma_in_slab(space, b, y, d, t);
            let i = segment_of(a as int) as usize;
            let j = segment_of(b as int) as usize;
            if i == j {
                lemma_marked(x, c, space.slabs@[i].marker);
                lemma_marked(y, d, space.slabs@[i].marker);
                if a == b {
                    let p = choose|at: int| #[trigger] space.is_entry(at, a, space.sizes()[c] - r);
                    let q = choose|at: int| #[trigger] space.is_entry(at, b, space.sizes()[d] - t);
                    assert(space.entries_ok(i));
                    assert(space.out@[i][p].block == space.out@[i][q].block);
                    assert(p == q);
                    assert(left == right);
                } else {
                    lemma_in_one_slab(space, a, b, i, space.slabs@[i].block_size);
                }
            } else {
                assert(stretches_apart(i as int, SLAB_SIZE as int, j as int, SLAB_SIZE as int)) by (nonlinear_arith)
                    requires
                        i as int % (SLAB_SIZE as int) == 0,
                        j as int % (SLAB_SIZE as int) == 0,
                        i != j,
                        SLAB_SIZE == 32768,
                ;
            }
        }
    }
}

/// A medium block lies in a region.
pub proof fn lemma_in_region(space: Space, place: int, address: usize, slices: int)
    requires
        space.inv(),
        medium_used(space, place, address, slices),
    ensures
        exists|index: int|
            0 <= index < space.domains@[place].regions@.len() && (#[trigger] space.domains@[place].regions@[index]).base <= address
                && address + slices * MEDIUM_SLICE_SIZE <= space.domains@[place].regions@[index].base + MEDIUM_REGION_SIZE,
        0 < slices,
{
    assert(space.domains@[place].wf());
    lemma_live_length(&space.domains@[place], address as int, slices);
    let index = space.domains@[place].region_at(address as int)->0;
    let region = space.domains@[place].regions@[index];
    assert(0 <= index < space.domains@[place].regions@.len() && region.holds(address as int));
    let offset = address - region.base;
    let slice = region.slice_of(address as int);
    assert(offset + slices * MEDIUM_SLICE_SIZE <= MEDIUM_REGION_SIZE) by (nonlinear_arith)
        requires
            slice == offset / 65536,
            offset % 65536 == 0,
            slice + slices <= 16384,
            MEDIUM_SLICE_SIZE == 65536,
            MEDIUM_REGION_SIZE == 1073741824,
    ;
}

/// A block of a bump heap lies in a chunk that is held for that heap.
pub proof fn lemma_in_chunk(space: Space, bump: int, address: int, bytes: int)
    requires
        space.inv(),
        space.uses(Block::Bump { bump, address, bytes }),
    ensures
        ({
            let chunk = chunk_base(address) as usize;
            &&& chunk == chunk_base(address)
            &&& space.holdings@.dom().contains(chunk)
            &&& space.holdings@[chunk].slices == 1
            &&& space.holdings@[chunk].user == (User::Chunk { bump: space.bumps@[bump].address })
            &&& chunk <= address
            &&& address + bytes <= chunk + MEDIUM_SLICE_SIZE
            &&& 0 < bytes
        }),
{
    let own = space.bumps@[bump];
    assert(space.chunks_held(bump));
    assert(own.reached(address, bytes));
    let index = choose|index: int| #[trigger] own.reached_in(index, address, bytes);
    let chunk = own.chunks@[index];
    assert(space.holdings@.dom().contains(chunk));
    assert(address + bytes <= chunk + MEDIUM_SLICE_SIZE) by (nonlinear_arith)
        requires
            chunk == address - address % 65536,
            address + bytes <= (address - address % 32768) + 32768,
            MEDIUM_SLICE_SIZE == 65536,
    ;
}

/// A mapping of its own lies outside every region and is no slab's.
proof fn lemma_in_mapping(space: Space, address: usize, mapping: usize, bytes: int)
    requires
        space.inv(),
        directs_ok(space.records.extras@, space.mapped@, space.slabs@),
        space.uses(Block::Direct { address, mapping, bytes }),
    ensures
        space.mapped@.dom().contains(mapping),
        space.mapped@[mapping] == bytes,
        !space.slabs@.dom().contains(mapping),
        0 < bytes,
{
    crate::allocator::direct::lemma_record_at(space.records.extras@, address);
    assert(direct_ok(space.record_of(address), space.mapped@, space.slabs@));
}

proof fn lemma_small_other(space: Space, left: Block, right: Block)
    requires
        space.inv(),
        directs_ok(space.records.extras@, space.mapped@, space.slabs@),
        space.uses(left),
        space.uses(right),
        left is Small,
        !(right is Small),
    ensures
        space.blocks_apart(left, right),
{
    if let Block::Small { block, context, class, requested_bytes } = left {
        lemma_in_slab(space, block, context, class, requested_bytes);
        let slab = segment_of(block as int) as usize;
        let in_span = exists|base: usize| #[trigger] slab_in(space.holdings@, base, slab);
        match right {
            Block::Small { .. } => {},
            Block::Medium { place, address, slices } => {
                lemma_in_region(space, place, address, slices);
                if in_span {
                    let base = choose|base: usize| #[trigger] slab_in(space.holdings@, base, slab);
                    lemma_held_apart_live(space, base, place, address as int, slices);
                } else {
                    let index = choose|index: int|
                        0 <= index < space.domains@[place].regions@.len() && (#[trigger] space.domains@[place].regions@[index]).base
                            <= address && address + slices * MEDIUM_SLICE_SIZE <= space.domains@[place].regions@[index].base
                            + MEDIUM_REGION_SIZE;
                    assert(space.mapped@.dom().contains(slab));
                    assert(stretches_apart(
                        slab as int,
                        space.mapped@[slab],
                        space.domains@[place].regions@[index].base as int,
                        MEDIUM_REGION_SIZE as int,
                    ));
                }
            },
            Block::Bump { bump, address, bytes } => {
                lemma_in_chunk(space, bump, address, bytes);
                lemma_slab_apart(space, slab, chunk_base(address) as usize);
            },
            Block::Direct { address, mapping, bytes } => {
                lemma_in_mapping(space, address, mapping, bytes);
                if in_span {
                    let base = choose|base: usize| #[trigger] slab_in(space.holdings@, base, slab);
                    lemma_held_bounds(space, base);
                    let (at, index) = choose|at: int, index: int|
                        0 <= at < space.domains@.len() && 0 <= index < space.domains@[at].regions@.len() && (
                        #[trigger] space.domains@[at].regions@[index]).base <= base && base + space.holdings@[base].slices
                            * MEDIUM_SLICE_SIZE <= space.domains@[at].regions@[index].base + MEDIUM_REGION_SIZE;
                    assert(stretches_apart(
                        mapping as int,
                        space.mapped@[mapping],
                        space.domains@[at].regions@[index].base as int,
                        MEDIUM_REGION_SIZE as int,
                    ));
                } else {
                    assert(space.mapped@.dom().contains(slab));
                    assert(slab != mapping);
                }
            },
        }
    }
}

proof fn lemma_spans(space: Space, left: Block, right: Block)
    requires
        space.inv(),
        directs_ok(space.records.extras@, space.mapped@, space.slabs@),
        space.uses(left),
        space.uses(right),
        left != right,
        !(left is Small),
        !(right is Small),
        !(left is Direct),
        !(right is Direct),
    ensures
        space.blocks_apart(left, right),
{
    match (left, right) {
        (Block::Medium { place: p, address: a, slices: s }, Block::Medium { place: q, address: b, slices: t }) => {
            lemma_in_region(space, p, a, s);
            lemma_in_region(space, q, b, t);
            let i = choose|index: int|
                0 <= index < space.domains@[p].regions@.len() && (#[trigger] space.domains@[p].regions@[index]).base <= a && a + s
                    * MEDIUM_SLICE_SIZE <= space.domains@[p].regions@[index].base + MEDIUM_REGION_SIZE;
            let j = choose|index: int|
                0 <= index < space.domains@[q].regions@.len() && (#[trigger] space.domains@[q].regions@[index]).base <= b && b + t
                    * MEDIUM_SLICE_SIZE <= space.domains@[q].regions@[index].base + MEDIUM_REGION_SIZE;
            if p == q {
                assert(space.domains@[p].wf());
                if a != b {
                    lemma_lives_apart(&space.domains@[p], a as int, s, b as int, t);
                } else {
                    assert(s == t);
                }
            } else if p < q {
                assert(apart(space.domains@[p].regions@[i].base as int, space.domains@[q].regions@[j].base as int));
            } else {
                assert(apart(space.domains@[q].regions@[j].base as int, space.domains@[p].regions@[i].base as int));
            }
        },
        (Block::Bump { bump: p, address: a, bytes: s }, Block::Bump { bump: q, address: b, bytes: t }) => {
            lemma_in_chunk(space, p, a, s);
            lemma_in_chunk(space, q, b, t);
            if p == q {
                crate::allocator::bump::law_bump_blocks_lie_apart(space.bumps@[p], a, b);
            } else {
                let c = chunk_base(a) as usize;
                let d = chunk_base(b) as usize;
                if p < q {
                    assert(space.bumps@[p].address != space.bumps@[q].address);
                } else {
                    assert(space.bumps@[q].address != space.bumps@[p].address);
                }
                assert(c != d);
                assert(spans_apart(c as int, 1, d as int, 1));
            }
        },
        (Block::Medium { place, address, slices }, Block::Bump { bump, address: b, bytes }) => {
            lemma_in_chunk(space, bump, b, bytes);
            lemma_held_apart_live(space, chunk_base(b) as usize, place, address as int, slices);
        },
        (Block::Bump { bump, address: b, bytes }, Block::Medium { place, address, slices }) => {
            lemma_in_chunk(space, bump, b, bytes);
            lemma_held_apart_live(space, chunk_base(b) as usize, place, address as int, slices);
        },
        _ => {},
    }
}

proof fn lemma_direct_other(space: Space, left: Block, right: Block)
    requires
        space.inv(),
        directs_ok(space.records.extras@, space.mapped@, space.slabs@),
        space.uses(left),
        space.uses(right),
        left != right,
        left is Direct,
        !(right is Small),
    ensures
        space.blocks_apart(left, right),
{
    if let Block::Direct { address, mapping, bytes } = left {
        lemma_in_mapping(space, address, mapping, bytes);
        match right {
            Block::Small { .. } => {},
            Block::Medium { place, address: a, slices } => {
                lemma_in_region(space, place, a, slices);
                let index = choose|index: int|
                    0 <= index < space.domains@[place].regions@.len() && (#[trigger] space.domains@[place].regions@[index]).base <= a
                        && a + slices * MEDIUM_SLICE_SIZE <= space.domains@[place].regions@[index].base + MEDIUM_REGION_SIZE;
                assert(stretches_apart(
                    mapping as int,
                    space.mapped@[mapping],
                    space.domains@[place].regions@[index].base as int,
                    MEDIUM_REGION_SIZE as int,
                ));
            },
            Block::Bump { bump, address: b, bytes: t } => {
                lemma_in_chunk(space, bump, b, t);
                let base = chunk_base(b) as usize;
                lemma_held_bounds(space, base);
                let (at, index) = choose|at: int, index: int|
                    0 <= at < space.domains@.len() && 0 <= index < space.domains@[at].regions@.len() && (
                    #[trigger] space.domains@[at].regions@[index]).base <= base && base + space.holdings@[base].slices
                        * MEDIUM_SLICE_SIZE <= space.domains@[at].regions@[index].base + MEDIUM_REGION_SIZE;
                assert(stretches_apart(
                    mapping as int,
                    space.mapped@[mapping],
                    space.domains@[at].regions@[index].base as int,
                    MEDIUM_REGION_SIZE as int,
                ));
            },
            Block::Direct { address: b, mapping: other, bytes: t } => {
                lemma_in_mapping(space, b, other, t);
                let extras = space.records.extras@;
                crate::allocator::direct::lemma_record_at(extras, address);
                crate::allocator::direct::lemma_record_at(extras, b);
                let i = record_at(extras, address);
                let j = record_at(extras, b);
                if i == j {
                    assert(left == right);
                } else if i < j {
                    assert(extras[i].mapping_address != extras[j].mapping_address);
                } else {
                    assert(extras[j].mapping_address != extras[i].mapping_address);
                }
            },
        }
    }
}

/// No two blocks in use share a byte, whatever kinds they are of and whichever heaps and domains
/// they come from.
pub proof fn law_blocks_in_use_lie_apart(space: Space, left: Block, right: Block)
    requires
        space.inv(),
        directs_ok(space.records.extras@, space.mapped@, space.slabs@),
        space.uses(left),
        space.uses(right),
        left != right,
    ensures
        space.blocks_apart(left, right),
{
    if left is Small && right is Small {
        lemma_small_small(space, left, right);
    } else if left is Small {
        lemma_small_other(space, left, right);
    } else if right is Small {
        lemma_small_other(space, right, left);
    } else if left is Direct {
        lemma_direct_other(space, left, right);
    } else if right is Direct {
        lemma_direct_other(space, right, left);
    } else {
        lemma_spans(space, left, right);
    }
}

} // verus!
