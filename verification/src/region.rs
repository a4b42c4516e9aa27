//! The region as tables, and what holds of them between operations.
use crate::align::is_pow2;
use crate::free_stack::FreeStack;
use crate::global_free_list::{generation_of, index_of, GlobalFreeList};
use crate::header::layout::{
    free_stack_bytes, HEADER_SIZE, NODE_SIZE, SLAB_META_SIZE, WORKER_HEADS_SIZE,
};
use crate::index::NULL_U64;
use crate::intrusive::Thread;
use crate::linked_list_node::{NodeList, GLOBAL_NEXT, WORKER_LOCAL_NEXT, WORKER_LOCAL_PREV};
use crate::links::{dlinked, linked};
use crate::memory::{agree, u16_at, u32_at, u64_at, u8_at};
use crate::records::{column16, column32, column64, column8, record};
use crate::size_classes::{class_bytes, MAX_SIZE};
use crate::state::State;
use crate::worker_local_list::WorkerLocalList;
use vstd::prelude::*;

verus! {

/// The offset of the head of the global free list.
pub const GLOBAL_HEAD: usize = 64;

/// Where the words of a worker's heads lie within its record.
pub const CLAIMED: usize = 0;

pub const OUTSTANDING: usize = 8;

pub const REMOTE_HEAD: usize = 16;

pub const LIST_HEADS: usize = 24;

/// Where the words of a slab's metadata lie within its record.
pub const ASSIGNED_WORKER: usize = 0;

pub const SIZE_CLASS_INDEX: usize = 8;

pub const REMOTE_FREE_STACK_HEAD: usize = 64;

/// A slab is a power of two in size, holds at least four allocations of any class, and has
/// no more slots than a free stack can count.
pub open spec fn valid_slab_size(slab_size: int) -> bool {
    &&& is_pow2(slab_size)
    &&& slab_size >= 4 * MAX_SIZE
    &&& slab_size / 256 <= u16::MAX
}

/// The slab sizes are the powers of two from 16 KiB up to 8 MiB.
pub proof fn law_slab_sizes(slab_size: int)
    requires
        slab_size <= u32::MAX,
    ensures
        valid_slab_size(slab_size) <==> slab_size == 16384 || slab_size == 32768 || slab_size
            == 65536 || slab_size == 131072 || slab_size == 262144 || slab_size == 524288
            || slab_size == 1048576 || slab_size == 2097152 || slab_size == 4194304 || slab_size
            == 8388608,
{
    vstd::arithmetic::power2::lemma2_to64();
    if is_pow2(slab_size) {
        let k = choose|k: nat| slab_size == #[trigger] vstd::arithmetic::power2::pow2(k);
        if k < 14 {
            vstd::arithmetic::power2::lemma_pow2_strictly_increases(k, 14);
        }
        if k > 23 {
            if k > 24 {
                vstd::arithmetic::power2::lemma_pow2_strictly_increases(24, k);
            }
            assert(slab_size >= 16777216);
            assert(slab_size / 256 >= 65536);
        }
        assert(14 <= k <= 23 ==> k == 14 || k == 15 || k == 16 || k == 17 || k == 18 || k == 19
            || k == 20 || k == 21 || k == 22 || k == 23);
    }
    assert(is_pow2(16384)) by {
        assert(vstd::arithmetic::power2::pow2(14) == 16384);
    }
    assert(is_pow2(32768)) by {
        assert(vstd::arithmetic::power2::pow2(15) == 32768);
    }
    assert(is_pow2(65536)) by {
        assert(vstd::arithmetic::power2::pow2(16) == 65536);
    }
    assert(is_pow2(131072)) by {
        assert(vstd::arithmetic::power2::pow2(17) == 131072);
    }
    assert(is_pow2(262144)) by {
        assert(vstd::arithmetic::power2::pow2(18) == 262144);
    }
    assert(is_pow2(524288)) by {
        assert(vstd::arithmetic::power2::pow2(19) == 524288);
    }
    assert(is_pow2(1048576)) by {
        assert(vstd::arithmetic::power2::pow2(20) == 1048576);
    }
    assert(is_pow2(2097152)) by {
        assert(vstd::arithmetic::power2::pow2(21) == 2097152);
    }
    assert(is_pow2(4194304)) by {
        assert(vstd::arithmetic::power2::pow2(22) == 4194304);
    }
    assert(is_pow2(8388608)) by {
        assert(vstd::arithmetic::power2::pow2(23) == 8388608);
    }
}

/// A slab of this size has room for slots of a class, and no more than a free stack can count.
pub open spec fn serves(slab_size: int, class: int) -> bool {
    1 <= slab_size / class_bytes(class) <= u16::MAX
}

/// What a handle remembers of the header.
#[derive(Clone, Copy, Debug, PartialEq, Eq, Structural)]
pub struct CachedLayout {
    pub num_slabs: u32,
    pub num_workers: u32,
    pub slab_size: u32,
    pub free_list_elements_offset: u32,
    pub slab_shared_meta_offset: u32,
    pub slab_free_stacks_offset: u32,
    pub slabs_offset: u32,
}

/// What the region holds, as plain values.
pub struct Tables {
    /// The head of the global free list, with its generation.
    pub ghead: u64,
    /// The links of the global free list.
    pub gnext: Seq<u32>,
    /// The links of the worker local lists.
    pub wprev: Seq<u32>,
    pub wnext: Seq<u32>,
    /// The heads of the worker local lists: ten for each worker.
    pub heads: Seq<u32>,
    /// Which worker slots are taken.
    pub claimed: Seq<u8>,
    /// The bytes that each worker has handed out.
    pub outstanding: Seq<u64>,
    /// The heads of the remote free lists.
    pub rhead: Seq<u64>,
    /// The worker and size class of each slab.
    pub assigned: Seq<u32>,
    pub class: Seq<u64>,
    /// The head of each slab's own remote free list.
    pub slab_heads: Seq<u16>,
    /// The free slots of each slab, and how many slots it has.
    pub stack: Seq<Seq<u16>>,
    pub cap: Seq<u16>,
    /// The bytes of the slabs.
    pub data: Seq<u8>,
}

impl CachedLayout {
    /// One past the last byte of the slabs.
    pub open spec fn end(self) -> int {
        self.slabs_offset + self.num_slabs * self.slab_size
    }

    /// The size of the slabs is a power of two, so that slots of any class fill them.
    pub open spec fn sliced(self) -> bool {
        is_pow2(self.slab_size as int) && self.slab_size > 0
    }

    /// The parts come one after another, without overlap.
    pub open spec fn wf(self) -> bool {
        &&& valid_slab_size(self.slab_size as int)
        &&& self.num_slabs > 0
        &&& HEADER_SIZE + self.num_workers * WORKER_HEADS_SIZE <= self.free_list_elements_offset
        &&& self.free_list_elements_offset + self.num_slabs * NODE_SIZE
            <= self.slab_shared_meta_offset
        &&& self.slab_shared_meta_offset + self.num_slabs * SLAB_META_SIZE
            <= self.slab_free_stacks_offset
        &&& self.slab_free_stacks_offset + self.num_slabs * free_stack_bytes(self.slab_size as int)
            <= self.slabs_offset
        &&& self.slabs_offset % self.slab_size == 0
    }

    /// The region has room for everything.
    pub open spec fn fits(self, size: int) -> bool {
        self.end() <= size <= usize::MAX
    }

    pub open spec fn nodes(self) -> NodeList {
        NodeList { offset: self.free_list_elements_offset as usize, len: self.num_slabs }
    }

    pub open spec fn global_list(self) -> GlobalFreeList {
        GlobalFreeList { head: GLOBAL_HEAD, list: self.nodes() }
    }

    /// The offset of the head word of a worker local list: `k` counts partial and full lists
    /// of all classes, in turn.
    pub open spec fn head_at(self, worker: int, k: int) -> int {
        record(HEADER_SIZE as int, WORKER_HEADS_SIZE as int, worker, LIST_HEADS + 4 * k)
    }

    pub open spec fn local_list(self, worker: int, k: int) -> WorkerLocalList {
        WorkerLocalList { head: self.head_at(worker, k) as usize, list: self.nodes() }
    }

    pub open spec fn stack_at(self, slab: int) -> int {
        record(
            self.slab_free_stacks_offset as int,
            free_stack_bytes(self.slab_size as int),
            slab,
            0,
        )
    }

    pub open spec fn free_stack(self, slab: int) -> FreeStack {
        FreeStack {
            top: self.stack_at(slab) as usize,
            capacity: (self.stack_at(slab) + 2) as usize,
            stack: (self.stack_at(slab) + 4) as usize,
        }
    }

    pub open spec fn meta_at(self, slab: int) -> int {
        record(self.slab_shared_meta_offset as int, SLAB_META_SIZE as int, slab, 0)
    }

    pub open spec fn worker_at(self, worker: int) -> int {
        record(HEADER_SIZE as int, WORKER_HEADS_SIZE as int, worker, 0)
    }

    /// What the region holds.
    pub open spec fn tables(self, mem: Seq<u8>) -> Tables {
        let ns = self.num_slabs as nat;
        let nw = self.num_workers as nat;
        let nodes = self.free_list_elements_offset as int;
        let metas = self.slab_shared_meta_offset as int;
        let stacks = self.slab_free_stacks_offset as int;
        let stack_bytes = free_stack_bytes(self.slab_size as int);
        Tables {
            ghead: u64_at(mem, GLOBAL_HEAD as int),
            gnext: column32(mem, nodes, NODE_SIZE as int, GLOBAL_NEXT as int, ns),
            wprev: column32(mem, nodes, NODE_SIZE as int, WORKER_LOCAL_PREV as int, ns),
            wnext: column32(mem, nodes, NODE_SIZE as int, WORKER_LOCAL_NEXT as int, ns),
            heads: Seq::new(10 * nw, |l: int| u32_at(mem, self.head_at(l / 10, l % 10))),
            claimed: column8(
                mem,
                HEADER_SIZE as int,
                WORKER_HEADS_SIZE as int,
                CLAIMED as int,
                nw,
            ),
            outstanding: column64(
                mem,
                HEADER_SIZE as int,
                WORKER_HEADS_SIZE as int,
                OUTSTANDING as int,
                nw,
            ),
            rhead: column64(
                mem,
                HEADER_SIZE as int,
                WORKER_HEADS_SIZE as int,
                REMOTE_HEAD as int,
                nw,
            ),
            assigned: column32(mem, metas, SLAB_META_SIZE as int, ASSIGNED_WORKER as int, ns),
            class: column64(mem, metas, SLAB_META_SIZE as int, SIZE_CLASS_INDEX as int, ns),
            slab_heads: column16(
                mem,
                metas,
                SLAB_META_SIZE as int,
                REMOTE_FREE_STACK_HEAD as int,
                ns,
            ),
            stack: Seq::new(ns, |i: int| self.free_stack(i).contents(mem)),
            cap: column16(mem, stacks, stack_bytes, 2, ns),
            data: mem.subrange(self.slabs_offset as int, self.end()),
        }
    }

    /// How freed allocations are threaded into a remote free list: through the bytes of the
    /// slabs, each item being the offset of an allocation in the region.
    pub open spec fn thread(self) -> Thread {
        Thread { base: -(self.slabs_offset as int), stride: 1, width: 8, null: NULL_U64 as int }
    }

    /// The slab that an offset lies in, and how far into it.
    pub open spec fn slab_of(self, off: int) -> int {
        (off - self.slabs_offset) / self.slab_size as int
    }

    pub open spec fn within(self, off: int) -> int {
        (off - self.slabs_offset) % self.slab_size as int
    }

    /// How many slots a slab has when it serves the given class.
    pub open spec fn slots(self, class: int) -> int {
        self.slab_size as int / class_bytes(class)
    }

    /// The offset at which a slot of a slab starts, when the slab serves the given class.
    pub open spec fn slot(self, slab: int, class: int, index: int) -> int {
        self.slabs_offset + slab * self.slab_size + index * class_bytes(class)
    }
}

/// Heads and links form the given lists.
pub open spec fn lists_ok(t: Tables, lists: Seq<Seq<u32>>) -> bool {
    &&& lists.len() == 1 + t.heads.len()
    &&& linked(t.gnext, index_of(t.ghead), lists[0])
    &&& forall|k: int|
        1 <= k < lists.len() ==> dlinked(t.wprev, t.wnext, t.heads[k - 1], #[trigger] lists[k])
}

/// Heads and links form the given remote free lists.
pub open spec fn threads_ok(l: CachedLayout, t: Tables, remote: Seq<Seq<int>>) -> bool {
    &&& remote.len() == t.rhead.len()
    &&& forall|w: int|
        0 <= w < remote.len() ==> l.thread().threads(t.data, t.rhead[w] as int, #[trigger] remote[w])
}

impl CachedLayout {
    /// The region holds the given state.
    #[verifier::opaque]
    pub open spec fn holds(self, mem: Seq<u8>, s: State) -> bool {
        let t = self.tables(mem);
        &&& self.wf()
        &&& self.fits(mem.len() as int)
        &&& lists_ok(t, s.lists)
        &&& threads_ok(self, t, s.remote)
        &&& s.generation == generation_of(t.ghead)
        &&& s.claimed == t.claimed
        &&& s.outstanding == t.outstanding
        &&& s.assigned == t.assigned
        &&& s.class == t.class
        &&& s.slab_heads == t.slab_heads
        &&& s.stack == t.stack
        &&& s.cap == t.cap
    }

    /// The state that the region holds.
    pub open spec fn state(self, mem: Seq<u8>) -> State {
        choose|s: State| self.holds(mem, s)
    }

    /// The header, the bytes of the slabs and what follows them are untouched.
    pub open spec fn only_tables(self, a: Seq<u8>, b: Seq<u8>) -> bool {
        &&& a.len() == b.len()
        &&& agree(a, b, 0, GLOBAL_HEAD as int)
        &&& agree(a, b, self.slabs_offset as int, a.len() as int)
    }

    /// The region holds at most one state.
    pub proof fn lemma_state(self, mem: Seq<u8>, s: State)
        requires
            self.holds(mem, s),
        ensures
            self.state(mem) == s,
            self.holds(mem, self.state(mem)),
    {
        reveal(CachedLayout::holds);
        let t = self.tables(mem);
        let u = self.state(mem);
        assert forall|k: int| 0 <= k < s.lists.len() implies u.lists[k] == s.lists[k] by {
            let _ = s.lists[k];
            if k == 0 {
                crate::links::lemma_linked_unique(t.gnext, index_of(t.ghead), u.lists[0], s.lists[0]);
            } else {
                let _ = u.lists[k];
                crate::links::lemma_linked_unique(t.wnext, t.heads[k - 1], u.lists[k], s.lists[k]);
            }
        }
        assert(u.lists =~= s.lists);
        assert forall|w: int| 0 <= w < s.remote.len() implies u.remote[w] == s.remote[w] by {
            self.thread().lemma_unique(t.data, t.rhead[w] as int, u.remote[w], s.remote[w]);
        }
        assert(u.remote =~= s.remote);
    }
}

/// A slab serves a class if a slot of the class fits in it, and no more than 65535 do.
pub proof fn law_serves(slab_size: int, class: int)
    requires
        0 <= slab_size,
        0 <= class < 5,
    ensures
        serves(slab_size, class) <==> class_bytes(class) <= slab_size && slab_size / class_bytes(
            class,
        ) <= 65535,
{
    let bytes = class_bytes(class);
    if bytes <= slab_size {
        vstd::arithmetic::div_mod::lemma_div_is_ordered(bytes, slab_size, bytes);
        vstd::arithmetic::div_mod::lemma_div_by_self(bytes);
    } else {
        vstd::arithmetic::div_mod::lemma_basic_div(slab_size, bytes);
    }
}

/// Every offset of a slot, and every offset within it, leads to its slab and its index.
pub proof fn law_offset_of_slot(
    l: CachedLayout,
    s: State,
    slab: int,
    index: int,
    byte: int,
)
    requires
        l.wf(),
        s.ok(l),
        0 <= slab < l.num_slabs,
        0 <= index < l.slab_size as int / class_bytes(s.class[slab] as int),
        0 <= byte < class_bytes(s.class[slab] as int),
    ensures
        ({
            let off = l.slabs_offset + slab * l.slab_size + index * class_bytes(
                s.class[slab] as int,
            ) + byte;
            &&& l.slab_of(off) == slab
            &&& s.index_in_slab(l, off) == index
        }),
{
    let class = s.class[slab] as int;
    let bytes = class_bytes(class);
    let ss = l.slab_size as int;
    assert(s.slab_ok(l, slab));
    crate::slots::lemma_serves(ss, class);
    crate::slots::lemma_slots(ss, class);
    let within = index * bytes + byte;
    vstd::arithmetic::mul::lemma_mul_inequality(index + 1, ss / bytes, bytes);
    vstd::arithmetic::mul::lemma_mul_is_distributive_add_other_way(bytes, index, 1);
    vstd::arithmetic::mul::lemma_mul_nonnegative(index, bytes);
    vstd::arithmetic::div_mod::lemma_fundamental_div_mod_converse(
        slab * ss + within,
        ss,
        slab,
        within,
    );
    vstd::arithmetic::div_mod::lemma_fundamental_div_mod_converse(within, bytes, index, byte);
}

/// Where the words about workers and slabs lie.
pub proof fn law_words(l: CachedLayout, mem: Seq<u8>, w: int, slab: int)
    requires
        l.wf(),
        0 <= w < l.num_workers,
        0 <= slab < l.num_slabs,
    ensures
        ({
            let t = l.tables(mem);
            let node = l.free_list_elements_offset + 12 * slab;
            let meta = l.slab_shared_meta_offset + 128 * slab;
            let stack = l.slab_free_stacks_offset + slab * (4 + 2 * (l.slab_size as int / 256));
            &&& t.ghead == u64_at(mem, 64)
            &&& t.claimed[w] == u8_at(mem, 128 + 64 * w)
            &&& t.outstanding[w] == u64_at(mem, 136 + 64 * w)
            &&& t.rhead[w] == u64_at(mem, 144 + 64 * w)
            &&& t.gnext[slab] == u32_at(mem, node)
            &&& t.wprev[slab] == u32_at(mem, node + 4)
            &&& t.wnext[slab] == u32_at(mem, node + 8)
            &&& t.assigned[slab] == u32_at(mem, meta)
            &&& t.class[slab] == u64_at(mem, meta + 8)
            &&& t.slab_heads[slab] == u16_at(mem, meta + 64)
            &&& t.stack[slab].len() == u16_at(mem, stack)
            &&& t.cap[slab] == u16_at(mem, stack + 2)
            &&& forall|j: int|
                0 <= j < t.stack[slab].len() ==> #[trigger] t.stack[slab][j] == u16_at(
                    mem,
                    stack + 4 + 2 * j,
                )
        }),
{
    l.lemma_bounds();
    l.lemma_stack_within(slab);
    let stack = l.slab_free_stacks_offset + slab * (4 + 2 * (l.slab_size as int / 256));
    assert(l.stack_at(slab) == stack);
    assert(record(
        l.slab_free_stacks_offset as int,
        free_stack_bytes(l.slab_size as int),
        slab,
        2,
    ) == stack + 2);
}

} // verus!
