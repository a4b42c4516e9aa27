//! Includes all functions related to modifying the global free stack.
//! These are internal functions that should be used by the allocator only.
//!
//! The head of the stack carries a generation, as that of the global free list does, so that
//! workers can use the stack at the same time.
use crate::assigned::header::Header;
use crate::assigned::raw_allocator::RawAllocator;
use crate::assigned::region::{RawTables, ASSIGNED, GLOBAL_FREE_STACK, NEXT, PREV};
use crate::global_free_list::{
    generation_of, index_of, next_generation, pop_attempt, push_attempt, tagged, unpack_index,
};
use crate::index::NULL_U32;
use crate::interleave::{Task, Words};
use crate::links::{chain, linked};
use crate::memory::{load_u32, load_u64, same_outside, store_u32, store_u64, u32_at, u64_at};
use vstd::prelude::*;

verus! {

/// The slabs on the global free stack, in order.
pub open spec fn free_slabs(allocator: &RawAllocator, mem: Seq<u8>) -> Seq<u32> {
    let t = allocator.layout(mem).tables(mem);
    chain(t.next, index_of(t.ghead))
}

/// Push a slab index onto the global free stack.
pub fn return_the_slab(allocator: &RawAllocator, mem: &mut [u8], index: u32)
    requires
        old(mem)@.len() >= 128,
        ({
            let l = allocator.layout(old(mem)@);
            &&& l.metas_apart()
            &&& l.slab_meta_offset + l.num_slabs * l.slab_meta_size <= old(mem)@.len()
                <= usize::MAX
            &&& index < l.num_slabs
            &&& l.stacks_fit(l.tables(old(mem)@).stack)
        }),
    ensures
        ({
            let l = allocator.layout(old(mem)@);
            let meta = l.meta_at(index as int);
            &&& allocator.layout(final(mem)@) == l
            &&& l.tables(final(mem)@) == l.tables(old(mem)@).returned(index as int)
            &&& final(mem)@.len() == old(mem)@.len()
            &&& forall|i: int|
                0 <= i < old(mem)@.len() && !(GLOBAL_FREE_STACK <= i < GLOBAL_FREE_STACK + 8) && !(
                meta <= i < meta + 12) ==> #[trigger] final(mem)@[i] == old(mem)@[i]
        }),
{
    let ghost m0 = mem@;
    let ghost l = allocator.layout(m0);
    let ghost slab = index as int;
    let ghost at = l.meta_at(slab);
    proof {
        l.lemma_meta_within(slab);
    }
    let current_head = load_u64(mem, GLOBAL_FREE_STACK);
    let (next, new_head) = push_attempt(current_head, index);
    let meta = allocator.slab_meta(mem, index).offset;
    store_u32(mem, meta + ASSIGNED, NULL_U32);  // mark the slab as unassigned.
    let ghost m1 = mem@;
    store_u32(mem, meta + PREV, NULL_U32);  // not used in global free stack - clear for safety.
    let ghost m2 = mem@;
    store_u32(mem, meta + NEXT, next);  // link the slab to the global free stack.
    let ghost m3 = mem@;
    store_u64(mem, GLOBAL_FREE_STACK, new_head);
    proof {
        let ta = l.tables(m0);
        let t3 = l.tables(m3);
        crate::memory::lemma_word_same(m1, m3, at + ASSIGNED, 4);
        crate::memory::lemma_word_same(m2, m3, at + PREV, 4);
        crate::memory::lemma_word_same(m0, m3, at + crate::assigned::region::CLASS, 1);
        crate::memory::lemma_word_same(m0, m3, at + crate::assigned::region::REMOTE, 4);
        l.lemma_row_op(m0, m3, slab);
        assert(ta.stack[slab].len() <= l.slab_size / 256);
        l.lemma_stack_same(m0, m3, slab);
        assert(ta.class.update(slab, ta.class[slab]) =~= ta.class);
        assert(ta.rhead.update(slab, ta.rhead[slab]) =~= ta.rhead);
        assert(ta.stack.update(slab, ta.stack[slab]) =~= ta.stack);
        l.lemma_ghead_op(m3, mem@);
        Header::lemma_same(m0, mem@);
    }
}

/// Try to pop a free slab index from the global free stack.
/// Returns `None` if the stack is empty.
pub fn try_pop_free_slab(allocator: &RawAllocator, mem: &mut [u8]) -> (popped: Option<u32>)
    requires
        old(mem)@.len() >= 128,
        ({
            let l = allocator.layout(old(mem)@);
            &&& l.metas_apart()
            &&& l.slab_meta_offset + l.num_slabs * l.slab_meta_size <= old(mem)@.len()
                <= usize::MAX
            &&& linked(
                l.tables(old(mem)@).next,
                index_of(l.tables(old(mem)@).ghead),
                free_slabs(allocator, old(mem)@),
            )
        }),
    ensures
        popped is None <==> free_slabs(allocator, old(mem)@).len() == 0,
        popped is None ==> final(mem)@ == old(mem)@,
        popped matches Some(slab) ==> {
            let l = allocator.layout(old(mem)@);
            &&& slab == free_slabs(allocator, old(mem)@)[0]
            &&& slab < l.num_slabs
            &&& u64_at(final(mem)@, GLOBAL_FREE_STACK as int) == tagged(
                next_generation(generation_of(l.tables(old(mem)@).ghead)),
                l.tables(old(mem)@).next[slab as int],
            )
            &&& same_outside(
                old(mem)@,
                final(mem)@,
                GLOBAL_FREE_STACK as int,
                GLOBAL_FREE_STACK + 8,
            )
        },
{
    let ghost l = allocator.layout(mem@);
    let ghost t = l.tables(mem@);
    let ghost list = free_slabs(allocator, mem@);
    let current_head = load_u64(mem, GLOBAL_FREE_STACK);
    let (_, head_index) = unpack_index(current_head);
    proof {
        if list.len() > 0 {
            assert(list[0] < t.next.len());
        }
    }
    if head_index == NULL_U32 {
        return None;
    }
    proof {
        l.lemma_meta_within(head_index as int);
    }
    let next_slab = load_u32(mem, allocator.slab_meta(mem, head_index).offset + NEXT);
    store_u64(mem, GLOBAL_FREE_STACK, pop_attempt(current_head, next_slab));
    Some(head_index)
}

/// The words of the global free stack that workers share.
pub open spec fn stack_words(allocator: &RawAllocator, mem: Seq<u8>) -> Words {
    let t = allocator.layout(mem).tables(mem);
    Words { head: t.ghead, next: t.next }
}

/// Makes the next access of a task on the global free stack. The slab to be pushed is marked
/// as unassigned when it is linked; the link of a popped slab stays.
pub fn advance(allocator: &RawAllocator, mem: &mut [u8], task: Task) -> (next: Task)
    requires
        old(mem)@.len() >= 128,
        ({
            let l = allocator.layout(old(mem)@);
            &&& l.metas_apart()
            &&& l.slab_meta_offset + l.num_slabs * l.slab_meta_size <= old(mem)@.len()
                <= usize::MAX
            &&& task.names(l.num_slabs as int)
        }),
        !(task is PopClear),
    ensures
        allocator.layout(final(mem)@) == allocator.layout(old(mem)@),
        (stack_words(allocator, final(mem)@), next) == task.step(
            stack_words(allocator, old(mem)@),
            false,
        ),
        match task {
            Task::PushLink { slab, seen } => {
                let meta = allocator.layout(old(mem)@).meta_at(slab as int);
                &&& u32_at(final(mem)@, meta + ASSIGNED) == NULL_U32
                &&& u32_at(final(mem)@, meta + PREV) == NULL_U32
                &&& same_outside(old(mem)@, final(mem)@, meta, meta + 12)
            },
            Task::PushSwap { slab, seen } => same_outside(
                old(mem)@,
                final(mem)@,
                GLOBAL_FREE_STACK as int,
                GLOBAL_FREE_STACK + 8,
            ),
            Task::PopSwap { seen, next } => same_outside(
                old(mem)@,
                final(mem)@,
                GLOBAL_FREE_STACK as int,
                GLOBAL_FREE_STACK + 8,
            ),
            _ => final(mem)@ == old(mem)@,
        },
{
    let ghost before = mem@;
    let ghost l = allocator.layout(before);
    match task {
        Task::PushStart { slab } => {
            let seen = load_u64(mem, GLOBAL_FREE_STACK);
            Task::PushLink { slab, seen }
        },
        Task::PushLink { slab, seen } => {
            proof {
                l.lemma_meta_within(slab as int);
            }
            let meta = allocator.slab_meta(mem, slab).offset;
            let (next, _) = push_attempt(seen, slab);
            store_u32(mem, meta + ASSIGNED, NULL_U32);
            let ghost m1 = mem@;
            store_u32(mem, meta + PREV, NULL_U32);
            let ghost m2 = mem@;
            store_u32(mem, meta + NEXT, next);
            proof {
                crate::memory::lemma_word_same(m1, mem@, meta + ASSIGNED, 4);
                crate::memory::lemma_word_same(m2, mem@, meta + PREV, 4);
                crate::memory::lemma_word_same(before, mem@, GLOBAL_FREE_STACK as int, 8);
                Header::lemma_same(before, mem@);
                crate::records::lemma_record_frame(
                    before,
                    mem@,
                    l.slab_meta_offset as int,
                    l.slab_meta_size as int,
                    l.num_slabs as int,
                    slab as int,
                    0,
                    12,
                );
                assert(l.tables(mem@).next =~= l.tables(before).next.update(slab as int, next));
            }
            Task::PushSwap { slab, seen }
        },
        Task::PushSwap { slab, seen } => {
            if load_u64(mem, GLOBAL_FREE_STACK) == seen {
                let (_, new_head) = push_attempt(seen, slab);
                store_u64(mem, GLOBAL_FREE_STACK, new_head);
                proof {
                    lemma_head_store(allocator, before, mem@);
                }
                Task::Done { popped: None }
            } else {
                Task::PushStart { slab }
            }
        },
        Task::PopStart => {
            let seen = load_u64(mem, GLOBAL_FREE_STACK);
            let (_, index) = unpack_index(seen);
            if index == NULL_U32 {
                Task::Done { popped: None }
            } else {
                Task::PopRead { seen }
            }
        },
        Task::PopRead { seen } => {
            let (_, index) = unpack_index(seen);
            proof {
                l.lemma_meta_within(index as int);
            }
            let next = load_u32(mem, allocator.slab_meta(mem, index).offset + NEXT);
            Task::PopSwap { seen, next }
        },
        Task::PopSwap { seen, next } => {
            if load_u64(mem, GLOBAL_FREE_STACK) == seen {
                let (_, index) = unpack_index(seen);
                store_u64(mem, GLOBAL_FREE_STACK, pop_attempt(seen, next));
                proof {
                    lemma_head_store(allocator, before, mem@);
                }
                Task::Done { popped: Some(index) }
            } else {
                Task::PopStart
            }
        },
        Task::PopClear { slab } => task,
        Task::Done { popped } => task,
    }
}

/// A store to the head leaves the links alone.
proof fn lemma_head_store(allocator: &RawAllocator, a: Seq<u8>, b: Seq<u8>)
    requires
        a.len() >= 128,
        ({
            let l = allocator.layout(a);
            &&& l.metas_apart()
            &&& l.slab_meta_offset + l.num_slabs * l.slab_meta_size <= a.len() <= usize::MAX
        }),
        same_outside(a, b, GLOBAL_FREE_STACK as int, GLOBAL_FREE_STACK + 8),
    ensures
        allocator.layout(b) == allocator.layout(a),
        stack_words(allocator, b).next == stack_words(allocator, a).next,
{
    let l = allocator.layout(a);
    Header::lemma_same(a, b);
    crate::records::lemma_table_frame(
        a,
        b,
        l.slab_meta_offset as int,
        l.slab_meta_size as int,
        l.num_slabs as int,
        GLOBAL_FREE_STACK as int,
        GLOBAL_FREE_STACK + 8,
    );
    assert(l.tables(b).next =~= l.tables(a).next);
}

/// A slab that is returned comes first on the global free stack, before the slabs that were there,
/// and has no owner; nothing else changes but the generation, which moves on by one.
pub proof fn law_returned(t: RawTables, list: Seq<u32>, slab: u32)
    requires
        linked(t.next, index_of(t.ghead), list),
        slab < t.next.len(),
        slab < t.assigned.len(),
        !list.contains(slab),
    ensures
        ({
            let after = t.returned(slab as int);
            &&& linked(after.next, index_of(after.ghead), seq![slab] + list)
            &&& generation_of(after.ghead) as int == (generation_of(t.ghead) + 1) % 0x1_0000_0000
            &&& after.assigned[slab as int] == NULL_U32
            &&& forall|i: int|
                0 <= i < t.assigned.len() && i != slab ==> #[trigger] after.assigned[i]
                    == t.assigned[i]
            &&& after.class == t.class
            &&& after.stack == t.stack
            &&& after.heads == t.heads
            &&& after.rhead == t.rhead
        }),
{
    crate::links::lemma_linked_push(t.next, index_of(t.ghead), list, slab);
    crate::global_free_list::law_pack_round_trip(
        next_generation(generation_of(t.ghead)),
        slab,
        t.ghead,
    );
}

} // verus!
