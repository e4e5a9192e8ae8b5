//! How many blocks of each slab are in use, as a snapshot of the regions shows it.

use vstd::prelude::*;

use crate::allocator::arenas::{domain_step, lemma_domain_step, lemma_spans_held, same_regions};
use crate::allocator::classes::MEDIUM_SLICE_SIZE;
use crate::allocator::domains::{lemma_changed_region, DomainState};
use crate::allocator::holdings::lemma_metadata_frame;
use crate::allocator::refills::lemma_span_step;
use crate::allocator::region::PhysicalSegment;
use crate::allocator::serving::{lemma_spans_only, step_kept};
use crate::allocator::slab::SLAB_SIZE;
use crate::allocator::space::Space;
use crate::allocator::thread_heaps::same_but_spans;

verus! {

/// What counting a block in or out leaves of the domain that the block lies in.
pub open spec fn block_counted(before: &DomainState, after: &DomainState, address: usize, allocate: bool) -> bool {
    match before.region_at(address as int) {
        None => after.regions@ == before.regions@,
        Some(index) => {
            let region = before.regions@[index];
            let slice = region.slice_of(address as int);
            let half = (address - region.base) % (MEDIUM_SLICE_SIZE as int) / (SLAB_SIZE as int);
            let segment = region.physical@[slice].segment(half);
            &&& after.same_but_region(before, index)
            &&& after.regions@[index].same_but_metadata(&region)
            &&& after.regions@[index].allocations == region.allocations
            &&& after.regions@[index].physical@ == region.physical@.update(
                slice,
                region.physical@[slice].with_segment(
                    half,
                    PhysicalSegment {
                        live_blocks: if allocate {
                            segment.live_blocks.wrapping_add(1)
                        } else {
                            segment.live_blocks.wrapping_sub(1)
                        },
                        ..segment
                    },
                ),
            )
        },
    }
}

impl DomainState {
    /// Counts a block of a slab in or out, where the slab lies in one of the domain's regions.
    pub fn update_physical_small_live_blocks(&mut self, address: usize, allocate: bool)
        requires
            old(self).wf(),
            old(self).spans_ok(),
        ensures
            final(self).wf(),
            final(self).spans_ok(),
            final(self).id == old(self).id,
            final(self).is_default == old(self).is_default,
            final(self).keeps_spans(old(self)),
            final(self).same_bases(old(self)),
            final(self).regions@.len() == old(self).regions@.len(),
            block_counted(old(self), final(self), address, allocate),
    {
        let ghost before = *self;
        match self.find_region(address) {
            None => {},
            Some(index) => {
                assert(self.regions@[index as int].wf());
                let slice: usize = self.regions[index].slice_index(address);
                let half: usize = self.regions[index].segment_index(address);
                self.regions[index].update_live_blocks(slice, half, allocate);
                proof {
                    lemma_changed_region(&before, self, index as int);
                    lemma_metadata_frame(&before, self, index as int);
                }
            },
        }
    }
}

impl Space {
    /// Counts a small block in or out.
    pub fn update_physical_small_live_blocks(&mut self, address: usize, allocate: bool)
        requires
            old(self).whole(),
        ensures
            step_kept(*old(self), *final(self)),
            same_but_spans(*old(self), *final(self)),
            final(self).holdings == old(self).holdings,
            forall|place: int|
                #![trigger final(self).domains@[place]]
                0 <= place < old(self).domains@.len() ==> if old(self).domains@[place].region_at(address as int) is Some {
                    block_counted(&old(self).domains@[place], &final(self).domains@[place], address, allocate)
                } else {
                    final(self).domains@[place] == old(self).domains@[place]
                },
    {
        let ghost before = *self;
        match self.find_place(address) {
            None => {
                proof {
                    assert(same_but_spans(before, *self));
                    lemma_spans_only(before, *self);
                }
            },
            Some(place) => {
                proof {
                    assert(before.domains@[place as int].wf());
                }
                self.domains[place].update_physical_small_live_blocks(address, allocate);
                proof {
                    let left = before.domains@[place as int];
                    let right = self.domains@[place as int];
                    assert(same_regions(left, right));
                    assert(domain_step(before.domains@, self.domains@, place as int, before.mapped@, None));
                    lemma_domain_step(before.domains@, self.domains@, place as int, before.mapped@, None);
                    lemma_spans_held(before.domains@, self.domains@, place as int, before.holdings@);
                    lemma_span_step(before, *self, 0);
                    lemma_spans_only(before, *self);
                }
            },
        }
    }
}

} // verus!
