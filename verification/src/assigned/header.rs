//! The header of the region.
use crate::assigned::region::{RawLayout, GLOBAL_FREE_STACK};
use crate::cache_aligned::{CacheAligned, CacheAlignedU64};
use crate::memory::{agree, load_u32, load_u64, same_outside, store_u32, store_u64, u32_at, u64_at};
use vstd::prelude::*;

pub mod layout;

verus! {

/// Marks a region as one of this allocator: "rtsaloc".
pub const MAGIC: u64 = 0x727473616c6f63;

/// The version of the layout of the region.
pub const VERSION: u32 = 1;

/// Where the words of the header lie.
pub const VERSION_AT: usize = 8;

pub const NUM_WORKERS_AT: usize = 12;

pub const NUM_SLABS_AT: usize = 16;

pub const SLAB_META_SIZE_AT: usize = 20;

pub const SLAB_META_OFFSET_AT: usize = 24;

pub const SLAB_SIZE_AT: usize = 28;

pub const SLAB_OFFSET_AT: usize = 32;

/// What the header says of the region.
#[derive(Debug, PartialEq, Eq, Structural)]
pub struct Header {
    pub magic: u64,
    pub version: u32,
    /// Number of workers that can use this allocator.
    pub num_workers: u32,
    /// Number of slabs in the allocator.
    pub num_slabs: u32,
    /// The size in bytes of the metadata of a slab.
    pub slab_meta_size: u32,
    /// The offset in bytes to the slab metadata.
    pub slab_meta_offset: u32,
    /// The size in bytes of each slab.
    pub slab_size: u32,
    /// The offset in bytes to the slabs.
    pub slab_offset: u32,
    /// The head of the global free stack, with its generation.
    pub global_free_stack: CacheAlignedU64,
}

impl Header {
    /// The header that the region starts with.
    pub open spec fn of(mem: Seq<u8>) -> Header {
        Header {
            magic: u64_at(mem, 0),
            version: u32_at(mem, VERSION_AT as int),
            num_workers: u32_at(mem, NUM_WORKERS_AT as int),
            num_slabs: u32_at(mem, NUM_SLABS_AT as int),
            slab_meta_size: u32_at(mem, SLAB_META_SIZE_AT as int),
            slab_meta_offset: u32_at(mem, SLAB_META_OFFSET_AT as int),
            slab_size: u32_at(mem, SLAB_SIZE_AT as int),
            slab_offset: u32_at(mem, SLAB_OFFSET_AT as int),
            global_free_stack: CacheAligned(u64_at(mem, GLOBAL_FREE_STACK as int)),
        }
    }

    /// Where the header says that things lie.
    pub open spec fn layout_spec(self) -> RawLayout {
        RawLayout {
            num_workers: self.num_workers,
            num_slabs: self.num_slabs,
            slab_meta_size: self.slab_meta_size,
            slab_meta_offset: self.slab_meta_offset,
            slab_size: self.slab_size,
            slab_offset: self.slab_offset,
        }
    }

    /// Where the header says that things lie.
    pub fn layout(&self) -> (layout: RawLayout)
        ensures
            layout == self.layout_spec(),
    {
        RawLayout {
            num_workers: self.num_workers,
            num_slabs: self.num_slabs,
            slab_meta_size: self.slab_meta_size,
            slab_meta_offset: self.slab_meta_offset,
            slab_size: self.slab_size,
            slab_offset: self.slab_offset,
        }
    }

    /// All but the head of the global free stack depends on the first words only.
    pub proof fn lemma_same(a: Seq<u8>, b: Seq<u8>)
        requires
            agree(a, b, 0, GLOBAL_FREE_STACK as int),
        ensures
            Header::of(b) == (Header {
                global_free_stack: Header::of(b).global_free_stack,
                ..Header::of(a)
            }),
    {
        crate::memory::lemma_word_same(a, b, 0, 8);
        crate::memory::lemma_word_same(a, b, VERSION_AT as int, 4);
        crate::memory::lemma_word_same(a, b, NUM_WORKERS_AT as int, 4);
        crate::memory::lemma_word_same(a, b, NUM_SLABS_AT as int, 4);
        crate::memory::lemma_word_same(a, b, SLAB_META_SIZE_AT as int, 4);
        crate::memory::lemma_word_same(a, b, SLAB_META_OFFSET_AT as int, 4);
        crate::memory::lemma_word_same(a, b, SLAB_SIZE_AT as int, 4);
        crate::memory::lemma_word_same(a, b, SLAB_OFFSET_AT as int, 4);
    }

    /// Reads the header of a region.
    pub fn read(mem: &[u8]) -> (header: Header)
        requires
            mem@.len() >= 128,
        ensures
            header == Header::of(mem@),
    {
        Header {
            magic: load_u64(mem, 0),
            version: load_u32(mem, VERSION_AT),
            num_workers: load_u32(mem, NUM_WORKERS_AT),
            num_slabs: load_u32(mem, NUM_SLABS_AT),
            slab_meta_size: load_u32(mem, SLAB_META_SIZE_AT),
            slab_meta_offset: load_u32(mem, SLAB_META_OFFSET_AT),
            slab_size: load_u32(mem, SLAB_SIZE_AT),
            slab_offset: load_u32(mem, SLAB_OFFSET_AT),
            global_free_stack: CacheAligned(load_u64(mem, GLOBAL_FREE_STACK)),
        }
    }

    /// Writes the header of a region.
    pub fn write(&self, mem: &mut [u8])
        requires
            old(mem)@.len() >= 128,
        ensures
            Header::of(final(mem)@) == *self,
            same_outside(old(mem)@, final(mem)@, 0, 128),
    {
        store_u64(mem, 0, self.magic);
        let ghost m1 = mem@;
        store_u32(mem, VERSION_AT, self.version);
        let ghost m2 = mem@;
        store_u32(mem, NUM_WORKERS_AT, self.num_workers);
        let ghost m3 = mem@;
        store_u32(mem, NUM_SLABS_AT, self.num_slabs);
        let ghost m4 = mem@;
        store_u32(mem, SLAB_META_SIZE_AT, self.slab_meta_size);
        let ghost m5 = mem@;
        store_u32(mem, SLAB_META_OFFSET_AT, self.slab_meta_offset);
        let ghost m6 = mem@;
        store_u32(mem, SLAB_SIZE_AT, self.slab_size);
        let ghost m7 = mem@;
        store_u32(mem, SLAB_OFFSET_AT, self.slab_offset);
        let ghost m8 = mem@;
        store_u64(mem, GLOBAL_FREE_STACK, self.global_free_stack.0);
        proof {
            crate::memory::lemma_word_same(m1, mem@, 0, 8);
            crate::memory::lemma_word_same(m2, mem@, VERSION_AT as int, 4);
            crate::memory::lemma_word_same(m3, mem@, NUM_WORKERS_AT as int, 4);
            crate::memory::lemma_word_same(m4, mem@, NUM_SLABS_AT as int, 4);
            crate::memory::lemma_word_same(m5, mem@, SLAB_META_SIZE_AT as int, 4);
            crate::memory::lemma_word_same(m6, mem@, SLAB_META_OFFSET_AT as int, 4);
            crate::memory::lemma_word_same(m7, mem@, SLAB_SIZE_AT as int, 4);
            crate::memory::lemma_word_same(m8, mem@, SLAB_OFFSET_AT as int, 4);
        }
    }
}

/// Where the words of the header lie.
pub proof fn law_header_words(mem: Seq<u8>)
    ensures
        ({
            let header = Header::of(mem);
            &&& header.magic == u64_at(mem, 0)
            &&& header.version == u32_at(mem, 8)
            &&& header.num_workers == u32_at(mem, 12)
            &&& header.num_slabs == u32_at(mem, 16)
            &&& header.slab_meta_size == u32_at(mem, 20)
            &&& header.slab_meta_offset == u32_at(mem, 24)
            &&& header.slab_size == u32_at(mem, 28)
            &&& header.slab_offset == u32_at(mem, 32)
            &&& header.global_free_stack.0 == u64_at(mem, 64)
            &&& header.layout_spec().num_workers == header.num_workers
            &&& header.layout_spec().num_slabs == header.num_slabs
            &&& header.layout_spec().slab_meta_size == header.slab_meta_size
            &&& header.layout_spec().slab_meta_offset == header.slab_meta_offset
            &&& header.layout_spec().slab_size == header.slab_size
            &&& header.layout_spec().slab_offset == header.slab_offset
        }),
        MAGIC == 0x727473616c6f63,
        VERSION == 1,
{
}

} // verus!
