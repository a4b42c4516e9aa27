//! An allocator whose slabs keep their lists, free stacks and remote frees in their own
//! metadata, and whose workers are assigned from outside.
pub mod effects;
pub mod error;
pub mod free_stack;
pub mod global_free_list;
pub mod global_free_stack;
pub mod header;
pub mod in_use;
pub mod init;
pub mod laws;
pub mod raw_allocator;
pub mod region;
pub mod remote_free_stack;
pub mod simulation;
pub mod slab_meta;
pub mod state;
pub mod steps;
pub mod worker_assigned;
pub mod worker_local_list;
pub mod worker_state;
