//! The handles through which workers allocate and free.
use crate::free_stack::FreeStack;
use crate::global_free_list::GlobalFreeList;
use crate::header::layout::{single_free_stack_size, HEADER_SIZE, SLAB_META_SIZE, WORKER_HEADS_SIZE};
use crate::header::{Header, WorkerLocalListHeads, WorkerLocalListPartialFullHeads};
use crate::index::NULL_U16;
use crate::linked_list_node::NodeList;
use crate::memory::{agree, load_u64, u16_at};
use crate::records::{lemma_record_within, record_offset};
use crate::region::{
    CachedLayout, GLOBAL_HEAD, REMOTE_FREE_STACK_HEAD,
};
use crate::size_classes::{size_class, size_class_index, NUM_SIZE_CLASSES};
use crate::remote_free_list::RemoteFreeList;
use crate::slab_meta::SlabMeta;
use crate::state::{placed, State};
use crate::transitions::{lemma_placed_push, lemma_placed_unlink};
use crate::worker_local_list::WorkerLocalList;
use vstd::arithmetic::div_mod::*;
use vstd::prelude::*;

verus! {

/// Where the region is mapped, and its size in bytes.
#[derive(Clone, Copy, Debug, PartialEq, Eq, Structural)]
pub struct MappedRegion {
    pub header: usize,
    pub file_size: usize,
}

/// What all handles to a region share.
#[derive(Clone, Copy, Debug, PartialEq, Eq, Structural)]
pub struct AllocatorBase {
    pub region: MappedRegion,
    pub layout: CachedLayout,
}

/// A handle of a worker, which can allocate and free.
///
/// The bytes of the region are passed to each operation.
#[derive(Debug, PartialEq, Eq, Structural)]
pub struct Allocator {
    pub base: AllocatorBase,
    pub worker_index: u32,
}

/// A handle that belongs to no worker and can only free.
#[derive(Debug, PartialEq, Eq, Structural)]
pub struct FreeOnlyAllocator {
    pub base: AllocatorBase,
}

/// Which slab an allocation is in, and which of its slots it is.
#[derive(Clone, Copy, Debug, PartialEq, Eq, Structural)]
pub struct AllocationIndexes {
    pub slab_index: u32,
    pub index_within_slab: u16,
}

impl CachedLayout {
    /// The layout that a header describes.
    pub open spec fn of(header: Header) -> CachedLayout {
        CachedLayout {
            num_slabs: header.num_slabs,
            num_workers: header.num_workers,
            slab_size: header.slab_size,
            free_list_elements_offset: header.free_list_elements_offset,
            slab_shared_meta_offset: header.slab_shared_meta_offset,
            slab_free_stacks_offset: header.slab_free_stacks_offset,
            slabs_offset: header.slabs_offset,
        }
    }

    /// The header, the bytes of the slabs outside `lo..hi` and what follows the slabs are
    /// untouched.
    pub open spec fn only_bytes(self, a: Seq<u8>, b: Seq<u8>, lo: int, hi: int) -> bool {
        &&& a.len() == b.len()
        &&& agree(a, b, 0, GLOBAL_HEAD as int)
        &&& forall|i: int|
            self.slabs_offset <= i < a.len() && !(lo <= i < hi) ==> #[trigger] b[i] == a[i]
    }
}

impl AllocatorBase {
    /// The handle is for a region of `size` bytes, into which its layout fits.
    pub open spec fn maps(self, size: int) -> bool {
        &&& self.layout.wf()
        &&& self.layout.fits(size)
        &&& self.region.file_size == size
        &&& self.region.header + size <= usize::MAX
    }

    /// The region is the one that the handle is for, and holds a state, in order but for the
    /// accounting.
    pub open spec fn in_order(self, mem: Seq<u8>) -> bool {
        &&& self.maps(mem.len() as int)
        &&& self.layout == CachedLayout::of(Header::of(mem))
        &&& self.layout.holds(mem, self.layout.state(mem))
        &&& self.layout.state(mem).ok(self.layout)
    }

    /// The region is the one that the handle is for, and everything in it is as it should be.
    pub open spec fn valid(self, mem: Seq<u8>) -> bool {
        &&& self.in_order(mem)
        &&& self.layout.state(mem).accounted(self.layout)
    }

    /// The state that the region holds.
    pub open spec fn state(self, mem: Seq<u8>) -> State {
        self.layout.state(mem)
    }

    /// The offsets of the allocations in use.
    pub open spec fn live(self, mem: Seq<u8>) -> Set<int> {
        self.state(mem).live(self.layout)
    }

    /// A region whose header is untouched and that holds a state in order.
    pub proof fn lemma_in_order(self, a: Seq<u8>, b: Seq<u8>, s: State)
        requires
            self.maps(a.len() as int),
            self.layout == CachedLayout::of(Header::of(a)),
            a.len() == b.len(),
            agree(a, b, 0, GLOBAL_HEAD as int),
            self.layout.holds(b, s),
            s.ok(self.layout),
        ensures
            self.in_order(b),
            self.state(b) == s,
    {
        Header::lemma_same(a, b);
        self.layout.lemma_state(b, s);
    }

    /// The free stacks of a state in order have room.
    pub proof fn lemma_fit(self, s: State)
        requires
            s.ok(self.layout),
        ensures
            self.layout.stacks_fit(s.stack),
    {
        assert forall|i: int| 0 <= i < self.layout.num_slabs implies (#[trigger] s.stack[i]).len()
            <= self.layout.slab_size / 256 by {
            assert(s.slab_ok(self.layout, i));
        }
    }

    /// The handle for the region `mem`, mapped at `header`, whose header is trusted.
    pub fn from_mapping(mem: &[u8], header: usize) -> (base: Self)
        requires
            mem@.len() >= HEADER_SIZE,
        ensures
            base.region == (MappedRegion { header, file_size: mem@.len() as usize }),
            base.layout == CachedLayout::of(Header::of(mem@)),
    {
        let read = Header::read(mem);
        let layout = CachedLayout {
            num_slabs: read.num_slabs,
            num_workers: read.num_workers,
            slab_size: read.slab_size,
            free_list_elements_offset: read.free_list_elements_offset,
            slab_shared_meta_offset: read.slab_shared_meta_offset,
            slab_free_stacks_offset: read.slab_free_stacks_offset,
            slabs_offset: read.slabs_offset,
        };
        AllocatorBase { region: MappedRegion { header, file_size: mem.len() }, layout }
    }

    /// The address at which the region is mapped.
    pub fn header(&self) -> (header: usize)
        ensures
            header == self.region.header,
    {
        self.region.header
    }

    /// Find the offset given a pointer.
    pub fn offset(&self, ptr: usize) -> (offset: usize)
        requires
            self.region.header <= ptr,
        ensures
            offset == ptr - self.region.header,
    {
        ptr - self.header()
    }

    /// Return a pointer given a shareable offset - calculated by `offset`.
    pub fn ptr_from_offset(&self, offset: usize) -> (ptr: usize)
        requires
            self.region.header + offset <= usize::MAX,
        ensures
            ptr == self.region.header + offset,
    {
        self.header() + offset
    }

    /// Return offset within a slab, whose size is a power of two.
    pub fn offset_within_slab(slab_size: u32, offset_from_slab_start: usize) -> (offset: u32)
        requires
            crate::align::is_pow2(slab_size as int),
            slab_size > 0,
        ensures
            offset == offset_from_slab_start as int % slab_size as int,
    {
        let mask: usize = slab_size as usize - 1;
        proof {
            crate::align::lemma_mask(offset_from_slab_start, slab_size as usize, mask);
            lemma_mod_bound(offset_from_slab_start as int, slab_size as int);
        }
        (offset_from_slab_start & mask) as u32
    }

    /// The words that workers share about a slab.
    pub fn slab_meta(&self, slab_index: u32) -> (meta: SlabMeta)
        requires
            self.layout.wf(),
            slab_index < self.layout.num_slabs,
        ensures
            meta.starts_at(self.layout.meta_at(slab_index as int)),
            self.layout.meta_at(slab_index as int) + SLAB_META_SIZE
                <= self.layout.slab_free_stacks_offset,
    {
        proof {
            lemma_record_within(
                self.layout.slab_shared_meta_offset as int,
                SLAB_META_SIZE as int,
                self.layout.num_slabs as int,
                slab_index as int,
                0,
                SLAB_META_SIZE as int,
            );
        }
        SlabMeta::new(
            record_offset(
                self.layout.slab_shared_meta_offset as usize,
                SLAB_META_SIZE,
                slab_index as usize,
                0,
                Ghost(self.layout.num_slabs as int),
            ),
        )
    }

    /// The offset of a slab.
    pub fn slab(&self, slab_index: u32) -> (offset: usize)
        requires
            self.layout.wf(),
            self.layout.end() <= usize::MAX,
            slab_index < self.layout.num_slabs,
        ensures
            offset == self.layout.slabs_offset + slab_index * self.layout.slab_size,
    {
        record_offset(
            self.layout.slabs_offset as usize,
            self.layout.slab_size as usize,
            slab_index as usize,
            0,
            Ghost(self.layout.num_slabs as int),
        )
    }

    /// The free list elements of the region.
    pub fn free_list_elements(&self) -> (list: NodeList)
        ensures
            list == self.layout.nodes(),
    {
        NodeList {
            offset: self.layout.free_list_elements_offset as usize,
            len: self.layout.num_slabs,
        }
    }

    /// The words that the region keeps for a worker.
    pub fn worker_meta(&self, worker_index: u32) -> (meta: WorkerLocalListHeads)
        requires
            self.layout.wf(),
            worker_index < self.layout.num_workers,
        ensures
            meta.starts_at(self.layout.worker_at(worker_index as int)),
            self.layout.worker_at(worker_index as int) + WORKER_HEADS_SIZE
                <= self.layout.free_list_elements_offset,
    {
        WorkerLocalListHeads::new(
            record_offset(
                HEADER_SIZE,
                WORKER_HEADS_SIZE,
                worker_index as usize,
                0,
                Ghost(self.layout.num_workers as int),
            ),
        )
    }

    /// Find the slab index and index within the slab for a given offset.
    pub fn find_allocation_indexes(&self, mem: &[u8], offset: usize) -> (indexes: AllocationIndexes)
        requires
            self.in_order(mem@),
            offset >= self.layout.slabs_offset,
            self.layout.slab_of(offset as int) < self.layout.num_slabs,
        ensures
            indexes.slab_index == self.layout.slab_of(offset as int),
            indexes.index_within_slab == self.state(mem@).index_in_slab(
                self.layout,
                offset as int,
            ),
    {
        proof {
            self.layout.lemma_bounds();
        }
        let offset_from_slab_start: usize = offset - self.layout.slabs_offset as usize;
        proof {
            lemma_div_pos_is_pos(offset_from_slab_start as int, self.layout.slab_size as int);
        }
        let slab_index: u32 = (offset_from_slab_start / self.layout.slab_size as usize) as u32;
        let offset_within_slab = Self::offset_within_slab(
            self.layout.slab_size,
            offset_from_slab_start,
        );
        let ghost s = self.state(mem@);
        proof {
            assert(s.slab_ok(self.layout, slab_index as int));
            self.layout.lemma_read_meta(mem@, s, slab_index as int);
        }
        let size_class_index = load_u64(mem, self.slab_meta(slab_index).size_class_index) as usize;
        let size = size_class(size_class_index);
        proof {
            crate::slots::lemma_serves(self.layout.slab_size as int, size_class_index as int);
            crate::slots::lemma_slots(self.layout.slab_size as int, size_class_index as int);
            lemma_div_is_ordered(
                offset_within_slab as int,
                self.layout.slab_size as int,
                size as int,
            );
            lemma_div_pos_is_pos(offset_within_slab as int, size as int);
        }
        let index_within_slab: u16 = (offset_within_slab / size) as u16;
        AllocationIndexes { slab_index, index_within_slab }
    }
}

impl Allocator {
    /// The region is the one that the handle is for, in order but for the accounting.
    pub open spec fn in_order(self, mem: Seq<u8>) -> bool {
        &&& self.base.in_order(mem)
        &&& self.worker_index < self.base.layout.num_workers
    }

    /// The region is the one that the handle is for, and everything in it is as it should be.
    pub open spec fn valid(self, mem: Seq<u8>) -> bool {
        &&& self.base.valid(mem)
        &&& self.worker_index < self.base.layout.num_workers
    }

    /// The state that the region holds.
    pub open spec fn state(self, mem: Seq<u8>) -> State {
        self.base.state(mem)
    }

    /// The words that the region keeps for this worker.
    pub fn worker_meta(&self) -> (meta: WorkerLocalListHeads)
        requires
            self.base.layout.wf(),
            self.worker_index < self.base.layout.num_workers,
        ensures
            meta.starts_at(self.base.layout.worker_at(self.worker_index as int)),
            self.base.layout.worker_at(self.worker_index as int) + WORKER_HEADS_SIZE
                <= self.base.layout.free_list_elements_offset,
    {
        self.base.worker_meta(self.worker_index)
    }

    /// The heads of this worker's lists for a size class.
    pub fn worker_head(&self, size_index: usize) -> (heads: WorkerLocalListPartialFullHeads)
        requires
            self.base.layout.wf(),
            self.worker_index < self.base.layout.num_workers,
            size_index < NUM_SIZE_CLASSES,
        ensures
            heads.partial == self.base.layout.head_at(self.worker_index as int, 2 * size_index),
            heads.full == self.base.layout.head_at(self.worker_index as int, 2 * size_index + 1),
    {
        self.worker_meta().heads[size_index]
    }

    /// Returns the free list elements in allocator.
    pub fn free_list_elements(&self) -> (list: NodeList)
        ensures
            list == self.base.layout.nodes(),
    {
        self.base.free_list_elements()
    }

    /// Returns a `GlobalFreeList` to interact with the global free list.
    pub fn global_free_list(&self) -> (list: GlobalFreeList)
        ensures
            list == self.base.layout.global_list(),
    {
        GlobalFreeList::new(GLOBAL_HEAD, self.free_list_elements())
    }

    /// Returns a `WorkerLocalList` for the current worker to interact with its
    /// local free list of partially full slabs.
    pub fn worker_local_list_partial(&self, size_index: usize) -> (list: WorkerLocalList)
        requires
            self.base.layout.wf(),
            self.worker_index < self.base.layout.num_workers,
            size_index < NUM_SIZE_CLASSES,
        ensures
            list == self.base.layout.local_list(self.worker_index as int, 2 * size_index),
    {
        WorkerLocalList::new(self.worker_head(size_index).partial, self.free_list_elements())
    }

    /// Returns a `WorkerLocalList` for the current worker to interact with its
    /// local free list of full slabs.
    pub fn worker_local_list_full(&self, size_index: usize) -> (list: WorkerLocalList)
        requires
            self.base.layout.wf(),
            self.worker_index < self.base.layout.num_workers,
            size_index < NUM_SIZE_CLASSES,
        ensures
            list == self.base.layout.local_list(self.worker_index as int, 2 * size_index + 1),
    {
        WorkerLocalList::new(self.worker_head(size_index).full, self.free_list_elements())
    }

    /// Returns the list that the current worker allocates from.
    pub fn worker_local_list(&self, size_index: usize) -> (list: WorkerLocalList)
        requires
            self.base.layout.wf(),
            self.worker_index < self.base.layout.num_workers,
            size_index < NUM_SIZE_CLASSES,
        ensures
            list == self.base.layout.local_list(self.worker_index as int, 2 * size_index),
    {
        self.worker_local_list_partial(size_index)
    }

    /// Returns an instance of `RemoteFreeList` for the given slab. The list of a new region is
    /// empty, and stays so until something is pushed onto it.
    pub fn remote_free_list(&self, mem: &[u8], slab_index: u32) -> (list: RemoteFreeList)
        requires
            self.base.in_order(mem@),
            slab_index < self.base.layout.num_slabs,
        ensures
            list == (RemoteFreeList {
                slab_item_size: self.state(mem@).slot_size(slab_index as int) as u32,
                capacity: self.base.layout.slots(
                    self.state(mem@).class[slab_index as int] as int,
                ) as u16,
                head: (self.base.layout.meta_at(slab_index as int) + REMOTE_FREE_STACK_HEAD) as usize,
                slab: (self.base.layout.slabs_offset + slab_index
                    * self.base.layout.slab_size) as usize,
            }),
            list.wf(mem@.len() as int),
            u16_at(mem@, list.head as int) == self.state(mem@).slab_heads[slab_index as int],
            self.state(mem@).slab_heads[slab_index as int] == NULL_U16 ==> list.is_list(mem@)
                && list.contents(mem@) == Seq::<int>::empty(),
    {
        let (size_index, slab_item_size) = self.slab_size_class(mem, slab_index);
        proof {
            self.base.layout.lemma_bounds();
            crate::slots::lemma_serves(self.base.layout.slab_size as int, size_index as int);
            crate::slots::lemma_slots(self.base.layout.slab_size as int, size_index as int);
            lemma_record_within(
                self.base.layout.slabs_offset as int,
                self.base.layout.slab_size as int,
                self.base.layout.num_slabs as int,
                slab_index as int,
                0,
                self.base.layout.slab_size as int,
            );
        }
        let head = self.slab_meta(slab_index).remote_free_stack_head;
        let slab = self.slab(slab_index);
        let capacity = (self.base.layout.slab_size / slab_item_size) as u16;
        let list = RemoteFreeList::new(slab_item_size, capacity, head, slab);
        proof {
            self.base.layout.lemma_read_meta(mem@, self.state(mem@), slab_index as int);
            if u16_at(mem@, head as int) == NULL_U16 {
                list.thread().lemma_items(mem@, NULL_U16 as int, Seq::empty());
            }
        }
        list
    }

    /// Returns the slab's assigned size class index and class size in bytes.
    pub fn slab_size_class(&self, mem: &[u8], slab_index: u32) -> (class: (usize, u32))
        requires
            self.base.in_order(mem@),
            slab_index < self.base.layout.num_slabs,
        ensures
            class.0 == self.state(mem@).class[slab_index as int],
            class.1 == self.state(mem@).slot_size(slab_index as int),
            class.0 < NUM_SIZE_CLASSES,
    {
        proof {
            self.base.layout.lemma_bounds();
            let s = self.state(mem@);
            assert(s.slab_ok(self.base.layout, slab_index as int));
            self.base.layout.lemma_read_meta(mem@, s, slab_index as int);
        }
        let size_index = load_u64(mem, self.slab_meta(slab_index).size_class_index) as usize;
        let size = size_class(size_index);
        (size_index, size)
    }

    /// The words that workers share about a slab.
    pub fn slab_meta(&self, slab_index: u32) -> (meta: SlabMeta)
        requires
            self.base.layout.wf(),
            slab_index < self.base.layout.num_slabs,
        ensures
            meta.starts_at(self.base.layout.meta_at(slab_index as int)),
            self.base.layout.meta_at(slab_index as int) + SLAB_META_SIZE
                <= self.base.layout.slab_free_stacks_offset,
    {
        self.base.slab_meta(slab_index)
    }

    /// The free stack for the given slab index.
    pub fn slab_free_stack(&self, slab_index: u32) -> (stack: FreeStack)
        requires
            self.base.layout.wf(),
            self.base.layout.end() <= usize::MAX,
            slab_index < self.base.layout.num_slabs,
        ensures
            stack == self.base.layout.free_stack(slab_index as int),
    {
        proof {
            self.base.layout.lemma_bounds();
            self.base.layout.lemma_stack_within(slab_index as int);
        }
        let free_stack_size = single_free_stack_size(self.base.layout.slab_size);
        let top = record_offset(
            self.base.layout.slab_free_stacks_offset as usize,
            free_stack_size,
            slab_index as usize,
            0,
            Ghost(self.base.layout.num_slabs as int),
        );
        FreeStack::new(top, top + 2, top + 4)
    }

    /// The offset of a slab.
    pub fn slab(&self, slab_index: u32) -> (offset: usize)
        requires
            self.base.layout.wf(),
            self.base.layout.end() <= usize::MAX,
            slab_index < self.base.layout.num_slabs,
        ensures
            offset == self.base.layout.slabs_offset + slab_index * self.base.layout.slab_size,
    {
        self.base.slab(slab_index)
    }

    /// A slab moves from one list of this worker to the front of another.
    pub(crate) fn move_slab(
        &self,
        mem: &mut [u8],
        from: &WorkerLocalList,
        to: &WorkerLocalList,
        slab_index: u32,
        Ghost(s): Ghost<State>,
        Ghost(places): Ghost<Seq<int>>,
        Ghost(kf): Ghost<int>,
        Ghost(kt): Ghost<int>,
    )
        requires
            self.base.layout.holds(old(mem)@, s),
            self.base.layout.stacks_fit(s.stack),
            self.worker_index < self.base.layout.num_workers,
            0 <= kf < 10,
            0 <= kt < 10,
            kf != kt,
            *from == self.base.layout.local_list(self.worker_index as int, kf),
            *to == self.base.layout.local_list(self.worker_index as int, kt),
            placed(places, s.lists),
            places.len() == self.base.layout.num_slabs,
            slab_index < places.len(),
            places[slab_index as int] == 1 + 10 * self.worker_index + kf,
            s.lists.len() == 1 + 10 * self.base.layout.num_workers,
            forall|k: int| 0 <= k < s.lists.len() ==> (#[trigger] s.lists[k]).no_duplicates(),
        ensures
            self.base.layout.holds(
                final(mem)@,
                s.unlinked(1 + 10 * self.worker_index + kf, slab_index as int).pushed(
                    1 + 10 * self.worker_index + kt,
                    slab_index as int,
                ),
            ),
            self.base.layout.only_tables(old(mem)@, final(mem)@),
    {
        let ghost l = self.base.layout;
        let ghost w = self.worker_index as int;
        let ghost idf = 1 + 10 * w + kf;
        let ghost idt = 1 + 10 * w + kt;
        let ghost m0 = mem@;
        proof {
            l.lemma_ready_local(m0, s, w, kf);
            lemma_placed_unlink(places, s.lists, idf, slab_index as int);
        }
        from.remove(mem, slab_index);
        let ghost m1 = mem@;
        let ghost s1 = s.unlinked(idf, slab_index as int);
        let ghost places1 = places.update(slab_index as int, -1);
        proof {
            l.lemma_holds_local(m0, m1, s, w, kf, places, slab_index);
            l.lemma_ready_local(m1, s1, w, kt);
            assert(s1.lists[idt] == s.lists[idt]);
            lemma_placed_push(places1, s1.lists, idt, slab_index as int);
        }
        to.push(mem, slab_index);
        proof {
            l.lemma_holds_local(m1, mem@, s1, w, kt, places1, slab_index);
        }
    }
}

} // verus!
