//! The header of the region.
use crate::cache_aligned::{CacheAligned, CacheAlignedU64};
use crate::memory::{agree, load_u32, load_u64, same_outside, store_u32, store_u64, u32_at, u64_at};
use crate::region::{GLOBAL_HEAD, LIST_HEADS};
use vstd::prelude::*;

pub mod layout;

verus! {

/// Marks a region as one of this allocator: "rtsaloc".
pub const MAGIC: u64 = 0x727473616c6f63;

/// The version of the layout of the region.
pub const VERSION: u32 = 2;

/// Where the words of the header lie.
pub const VERSION_AT: usize = 8;

pub const NUM_WORKERS_AT: usize = 12;

pub const NUM_SLABS_AT: usize = 16;

pub const SLAB_SIZE_AT: usize = 20;

pub const ELEMENTS_AT: usize = 24;

pub const METAS_AT: usize = 28;

pub const STACKS_AT: usize = 32;

pub const SLABS_AT: usize = 36;

/// The offsets of the heads of a worker's lists for one size class.
#[derive(Clone, Copy)]
pub struct WorkerLocalListPartialFullHeads {
    pub partial: usize,
    pub full: usize,
}

/// The offsets of the words that the region keeps for a worker.
#[derive(Clone, Copy)]
pub struct WorkerLocalListHeads {
    pub claimed: usize,
    pub outstanding_allocation_bytes: usize,
    pub remote_free_head: usize,
    pub heads: [WorkerLocalListPartialFullHeads; 5],
}

impl WorkerLocalListHeads {
    /// The record starts at `offset`.
    pub open spec fn starts_at(self, offset: int) -> bool {
        &&& self.claimed == offset
        &&& self.outstanding_allocation_bytes == offset + 8
        &&& self.remote_free_head == offset + 16
        &&& forall|c: int|
            0 <= c < 5 ==> (#[trigger] self.heads[c]).partial == offset + LIST_HEADS + 8 * c
        &&& forall|c: int|
            0 <= c < 5 ==> (#[trigger] self.heads[c]).full == offset + LIST_HEADS + 8 * c + 4
    }

    /// The record that starts at `offset`.
    pub fn new(offset: usize) -> (heads: Self)
        requires
            offset + 64 <= usize::MAX,
        ensures
            heads.starts_at(offset as int),
    {
        let first = offset + LIST_HEADS;
        WorkerLocalListHeads {
            claimed: offset,
            outstanding_allocation_bytes: offset + 8,
            remote_free_head: offset + 16,
            heads: [
                WorkerLocalListPartialFullHeads { partial: first, full: first + 4 },
                WorkerLocalListPartialFullHeads { partial: first + 8, full: first + 12 },
                WorkerLocalListPartialFullHeads { partial: first + 16, full: first + 20 },
                WorkerLocalListPartialFullHeads { partial: first + 24, full: first + 28 },
                WorkerLocalListPartialFullHeads { partial: first + 32, full: first + 36 },
            ],
        }
    }
}

/// What the header says of the region.
#[derive(Debug, PartialEq, Eq, Structural)]
pub struct Header {
    pub magic: u64,
    pub version: u32,
    /// Maximum number of workers that can use this allocator.
    pub num_workers: u32,
    /// Number of slabs in the allocator.
    pub num_slabs: u32,
    /// The size in bytes of each slab.
    pub slab_size: u32,
    /// The offset in bytes to the free list elements.
    pub free_list_elements_offset: u32,
    /// The offset in bytes to the slab shared metadata.
    pub slab_shared_meta_offset: u32,
    /// The offset in bytes to the slab free stacks.
    pub slab_free_stacks_offset: u32,
    /// The offset in bytes to the slabs.
    pub slabs_offset: u32,
    /// The head of the global free list.
    pub global_free_list_head: CacheAlignedU64,
}

impl Header {
    /// The header that the region starts with.
    pub open spec fn of(mem: Seq<u8>) -> Header {
        Header {
            magic: u64_at(mem, 0),
            version: u32_at(mem, VERSION_AT as int),
            num_workers: u32_at(mem, NUM_WORKERS_AT as int),
            num_slabs: u32_at(mem, NUM_SLABS_AT as int),
            slab_size: u32_at(mem, SLAB_SIZE_AT as int),
            free_list_elements_offset: u32_at(mem, ELEMENTS_AT as int),
            slab_shared_meta_offset: u32_at(mem, METAS_AT as int),
            slab_free_stacks_offset: u32_at(mem, STACKS_AT as int),
            slabs_offset: u32_at(mem, SLABS_AT as int),
            global_free_list_head: CacheAligned(u64_at(mem, GLOBAL_HEAD as int)),
        }
    }

    /// All but the head of the global free list depends on the first words only.
    pub proof fn lemma_same(a: Seq<u8>, b: Seq<u8>)
        requires
            agree(a, b, 0, GLOBAL_HEAD as int),
        ensures
            Header::of(b) == (Header {
                global_free_list_head: Header::of(b).global_free_list_head,
                ..Header::of(a)
            }),
    {
        crate::memory::lemma_word_same(a, b, 0, 8);
        crate::memory::lemma_word_same(a, b, VERSION_AT as int, 4);
        crate::memory::lemma_word_same(a, b, NUM_WORKERS_AT as int, 4);
        crate::memory::lemma_word_same(a, b, NUM_SLABS_AT as int, 4);
        crate::memory::lemma_word_same(a, b, SLAB_SIZE_AT as int, 4);
        crate::memory::lemma_word_same(a, b, ELEMENTS_AT as int, 4);
        crate::memory::lemma_word_same(a, b, METAS_AT as int, 4);
        crate::memory::lemma_word_same(a, b, STACKS_AT as int, 4);
        crate::memory::lemma_word_same(a, b, SLABS_AT as int, 4);
    }

    /// Reads the header of a region.
    pub fn read(mem: &[u8]) -> (header: Header)
        requires
            mem@.len() >= 128,
        ensures
            header == Header::of(mem@),
    {
        Header {
            magic: load_u64(mem, 0),
            version: load_u32(mem, VERSION_AT),
            num_workers: load_u32(mem, NUM_WORKERS_AT),
            num_slabs: load_u32(mem, NUM_SLABS_AT),
            slab_size: load_u32(mem, SLAB_SIZE_AT),
            free_list_elements_offset: load_u32(mem, ELEMENTS_AT),
            slab_shared_meta_offset: load_u32(mem, METAS_AT),
            slab_free_stacks_offset: load_u32(mem, STACKS_AT),
            slabs_offset: load_u32(mem, SLABS_AT),
            global_free_list_head: CacheAligned(load_u64(mem, GLOBAL_HEAD)),
        }
    }

    /// Writes the header of a region.
    pub fn write(&self, mem: &mut [u8])
        requires
            old(mem)@.len() >= 128,
        ensures
            Header::of(final(mem)@) == *self,
            same_outside(old(mem)@, final(mem)@, 0, 128),
    {
        store_u32(mem, NUM_WORKERS_AT, self.num_workers);
        let ghost m1 = mem@;
        store_u32(mem, NUM_SLABS_AT, self.num_slabs);
        let ghost m2 = mem@;
        store_u32(mem, SLAB_SIZE_AT, self.slab_size);
        let ghost m3 = mem@;
        store_u32(mem, ELEMENTS_AT, self.free_list_elements_offset);
        let ghost m4 = mem@;
        store_u32(mem, METAS_AT, self.slab_shared_meta_offset);
        let ghost m5 = mem@;
        store_u32(mem, STACKS_AT, self.slab_free_stacks_offset);
        let ghost m6 = mem@;
        store_u32(mem, SLABS_AT, self.slabs_offset);
        let ghost m7 = mem@;
        store_u64(mem, GLOBAL_HEAD, self.global_free_list_head.0);
        let ghost m8 = mem@;
        store_u64(mem, 0, self.magic);
        let ghost m9 = mem@;
        store_u32(mem, VERSION_AT, self.version);
        proof {
            crate::memory::lemma_word_same(m1, mem@, NUM_WORKERS_AT as int, 4);
            crate::memory::lemma_word_same(m2, mem@, NUM_SLABS_AT as int, 4);
            crate::memory::lemma_word_same(m3, mem@, SLAB_SIZE_AT as int, 4);
            crate::memory::lemma_word_same(m4, mem@, ELEMENTS_AT as int, 4);
            crate::memory::lemma_word_same(m5, mem@, METAS_AT as int, 4);
            crate::memory::lemma_word_same(m6, mem@, STACKS_AT as int, 4);
            crate::memory::lemma_word_same(m7, mem@, SLABS_AT as int, 4);
            crate::memory::lemma_word_same(m8, mem@, GLOBAL_HEAD as int, 8);
            crate::memory::lemma_word_same(m9, mem@, 0, 8);
        }
    }
}

/// Where the words of the header lie.
pub proof fn law_header_words(mem: Seq<u8>)
    ensures
        ({
            let header = Header::of(mem);
            &&& header.magic == u64_at(mem, 0)
            &&& header.version == u32_at(mem, 8)
            &&& header.num_workers == u32_at(mem, 12)
            &&& header.num_slabs == u32_at(mem, 16)
            &&& header.slab_size == u32_at(mem, 20)
            &&& header.free_list_elements_offset == u32_at(mem, 24)
            &&& header.slab_shared_meta_offset == u32_at(mem, 28)
            &&& header.slab_free_stacks_offset == u32_at(mem, 32)
            &&& header.slabs_offset == u32_at(mem, 36)
            &&& header.global_free_list_head.0 == u64_at(mem, 64)
        }),
        MAGIC == 0x727473616c6f63,
        VERSION == 2,
{
}

} // verus!
