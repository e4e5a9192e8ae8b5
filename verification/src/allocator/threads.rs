//! What a thread of the process has of the space.

use vstd::prelude::*;

use crate::allocator::classes::{medium_slices, small_class};
use crate::allocator::direct::record_class;
use crate::allocator::layout::Layout;
use crate::allocator::space::Space;

verus! {

/// How many bump heaps a thread keeps for itself.
pub const THREAD_BUMP_POOL: usize = 4;

/// The heaps of a thread. Each is named by its address, 0 for none.
pub struct ThreadState {
    /// Whether the thread is about to end.
    pub tearing_down: bool,
    pub token: usize,
    /// The heap that serves the thread where no hint is active.
    pub default_heap: usize,
    /// The heap through which other threads allocate for this one.
    pub remote_heap: usize,
    pub active_heap: usize,
    pub active_bump: usize,
    pub active_remote: usize,
    /// The bump heaps that wait for their next use, oldest first.
    pub bump_pool: Vec<usize>,
}

/// How a block comes to be, where no bump heap serves it.
#[derive(Clone, Copy, Debug, PartialEq, Eq, Structural)]
pub enum Route {
    /// A block of a slab, with its record where that is asked for.
    Small { class: usize },
    /// A span of slices.
    Medium,
    /// A mapping of its own.
    Direct,
}

/// How a block of the layout comes to be.
pub open spec fn route(sizes: Seq<usize>, layout: Layout, recorded: bool) -> Route {
    if recorded {
        match record_class(sizes, layout) {
            Some(class) => Route::Small { class },
            None => Route::Direct,
        }
    } else {
        match small_class(sizes, layout) {
            Some(class) => Route::Small { class },
            None => if medium_slices(layout) is Some {
                Route::Medium
            } else {
                Route::Direct
            },
        }
    }
}

impl Space {
    pub open spec fn has_heap(&self, address: usize) -> bool {
        exists|at: int| #[trigger] self.is_heap(at, address)
    }

    pub open spec fn has_remote(&self, address: usize) -> bool {
        exists|at: int| #[trigger] self.is_remote(at, address)
    }

    pub open spec fn has_bump(&self, address: usize) -> bool {
        exists|at: int| #[trigger] self.is_bump(at, address)
    }
}

impl ThreadState {
    /// A thread that has not allocated yet.
    pub fn new(token: usize) -> (thread: ThreadState)
        ensures
            thread.is_new(token),
    {
        ThreadState {
            tearing_down: false,
            token,
            default_heap: 0,
            remote_heap: 0,
            active_heap: 0,
            active_bump: 0,
            active_remote: 0,
            bump_pool: Vec::new(),
        }
    }

    pub open spec fn is_new(&self, token: usize) -> bool {
        &&& !self.tearing_down
        &&& self.token == token
        &&& self.default_heap == 0
        &&& self.remote_heap == 0
        &&& self.active_heap == 0
        &&& self.active_bump == 0
        &&& self.active_remote == 0
        &&& self.bump_pool@.len() == 0
    }

    /// Whether the names are those of heaps of the space.
    pub open spec fn known(&self, space: Space) -> bool {
        &&& self.default_heap != 0 ==> space.has_heap(self.default_heap)
        &&& self.active_heap != 0 ==> space.has_heap(self.active_heap)
        &&& self.remote_heap != 0 ==> space.has_remote(self.remote_heap)
        &&& self.active_remote != 0 ==> space.has_remote(self.active_remote)
        &&& self.active_bump != 0 ==> space.has_bump(self.active_bump)
        &&& self.bump_pool@.len() <= THREAD_BUMP_POOL
        &&& forall|index: int| 0 <= index < self.bump_pool@.len() ==> space.has_bump(#[trigger] self.bump_pool@[index])
    }

    /// The heap that serves the thread, or 0 while it has none.
    pub open spec fn spec_current_heap(&self) -> usize {
        if self.active_heap != 0 {
            self.active_heap
        } else {
            self.default_heap
        }
    }

    /// The heap that serves the thread, or 0 while it has none.
    pub fn current_heap(&self) -> (heap: usize)
        ensures
            heap == self.spec_current_heap(),
    {
        if self.active_heap != 0 {
            self.active_heap
        } else {
            self.default_heap
        }
    }

    /// The thread heap of another thread that is to serve this one, or 0.
    pub open spec fn spec_current_remote(&self) -> usize {
        if self.active_remote == self.remote_heap {
            0
        } else {
            self.active_remote
        }
    }

    /// The thread heap of another thread that is to serve this one, or 0. A thread's own needs no
    /// detour: its default heap serves it.
    pub fn current_remote(&self) -> (remote: usize)
        ensures
            remote == self.spec_current_remote(),
    {
        if self.active_remote == self.remote_heap {
            0
        } else {
            self.active_remote
        }
    }
}

} // verus!
