//! An allocator for small objects in memory that several processes share.
//!
//! The memory is a region of bytes, divided into slabs. A worker takes slabs from a global
//! pool, divides them into slots of a size class, and hands the slots out. A slot that its own
//! worker frees is available again at once; one that another worker frees waits until its
//! owner reclaims it. A slab from which nothing is taken any more goes back to the pool.
//!
//! All operations work on the bytes of the region, and what they do is stated over the state
//! that those bytes hold: see [`state`] for the states and what the operations do to them,
//! [`region`] for how the bytes hold a state, and [`laws`] for what follows. [`interleave`],
//! [`interleave_remote`] and [`interleave_claims`] deal with the words that workers use at the
//! same time.
//!
//! [`assigned`] is a second allocator, with another layout, whose workers are assigned from
//! outside.
mod align;
pub mod allocation;
pub mod allocator;
pub mod assigned;
pub mod cache_aligned;
pub mod dashboard;
pub mod effects;
pub mod error;
pub mod free_stack;
pub mod freeing;
pub mod global_free_list;
pub mod header;
pub mod index;
pub mod init;
pub mod interleave;
pub mod interleave_claims;
pub mod interleave_remote;
pub mod intrusive;
pub mod joining;
pub mod laws;
pub mod links;
pub mod linked_list_node;
pub mod memory;
pub mod node_table;
pub mod records;
pub mod region;
pub mod region_frame;
pub mod region_steps;
pub mod remote_free_batch;
pub mod remote_free_list;
pub mod size_classes;
pub mod slab_meta;
pub mod slots;
pub mod state;
pub mod transitions;
pub mod worker_local_list;

use vstd::prelude::*;

verus! {

pub use crate::align::round_to_next_alignment_of;
pub use crate::allocator::{Allocator, FreeOnlyAllocator};
pub use crate::assigned::worker_assigned::WorkerAssignedAllocator;
pub use crate::remote_free_batch::RemoteFreeBatch;

} // verus!
