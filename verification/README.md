# rts-alloc

A slab allocator for small objects in memory that several processes share, written in Rust and
verified with Verus.

There is a maximum number of workers (threads or processes) that may use the allocator at any
given time, and each has an index of its own. A worker allocates in slabs that it owns, and takes
a slab from the global pool when none of them has a free slot. A slot that its own worker frees is
available again at once. A slot that another worker frees is queued, and becomes available when
its owner cleans its queue. A slab from which nothing is taken any more goes back to the pool.

## Layout

- `src/` is the verified library. Every operation takes the bytes of the region and is specified
  over the state that the bytes hold.
  - `memory`, `records`, `links`, `node_table`, `intrusive`: words, tables and linked lists in bytes
  - `free_stack`, `global_free_list`, `worker_local_list`, `remote_free_list`: the structures
  - `header`, `init`, `joining`: layout of a region, creating and joining one
  - `allocation`, `freeing`, `remote_free_batch`: what workers do
  - `state`, `region`, `transitions`, `laws`: the state, how bytes hold it, and what holds of it
  - `interleave`, `interleave_remote`, `interleave_claims`: what several workers use at the same
    time
  - `assigned`: a second allocator that keeps everything about a slab in its own metadata
  - `dashboard`: what the terminal view shows
- `tests/` runs the library on concrete values.
- `app/` maps files, and has the command line and the terminal view. It works on a region under a
  lock, one operation at a time; the library's `advance` functions give the single accesses to
  shared words that lock-free workers would make, and the `interleave` modules show that these may
  come in any order and that no worker holds up the others.
