//! Telling allocations in use from other offsets.
use crate::assigned::raw_allocator::RawAllocator;
use crate::assigned::region::REMOTE;
use crate::assigned::remote_free_stack::{slot_thread, RemoteFreeStackIter};
use crate::index::NULL_U32;
use crate::memory::load_u32;
use crate::size_classes::{class_bytes, size_class, NUM_SIZE_CLASSES};
use vstd::prelude::*;

verus! {

impl RawAllocator {
    /// Whether a slot of a slab with an owner is on the free stack of the slab.
    fn is_free(&self, mem: &[u8], slab_index: u32, index: u16) -> (free: bool)
        requires
            self.valid(mem@),
            slab_index < self.layout(mem@).num_slabs,
        ensures
            free == self.state(mem@).stack[slab_index as int].contains(index),
    {
        let ghost l = self.layout(mem@);
        let ghost s = self.state(mem@);
        proof {
            l.lemma_bounds();
            l.lemma_ok(s);
            l.lemma_read_meta(mem@, s, slab_index as int);
        }
        let stack = self.slab_meta(mem, slab_index).free_stack();
        let ghost items = stack.contents(mem@);
        let len = stack.len(mem);
        let mut place: u16 = 0;
        while place < len
            invariant
                place <= len,
                len == items.len(),
                items == stack.contents(mem@),
                stack.fits(mem@.len() as int, items.len() as int),
                items == s.stack[slab_index as int],
                s == self.state(mem@),
                forall|i: int| 0 <= i < place ==> #[trigger] items[i] != index,
            decreases len - place,
        {
            if stack.get(mem, place) == index {
                return true;
            }
            place = place + 1;
        }
        false
    }

    /// Whether a slot of a slab with an owner is on the remote free stack of the slab.
    fn is_freed_remotely(&self, mem: &[u8], slab_index: u32, index: u16) -> (freed: bool)
        requires
            self.valid(mem@),
            slab_index < self.layout(mem@).num_slabs,
            self.state(mem@).assigned[slab_index as int] != NULL_U32,
        ensures
            freed == self.state(mem@).remote[slab_index as int].contains(index as int),
    {
        let ghost l = self.layout(mem@);
        let ghost s = self.state(mem@);
        let ghost slab = slab_index as int;
        let ghost class = s.class[slab] as int;
        let ghost all = s.remote[slab];
        let ghost mut passed: int = 0;
        proof {
            l.lemma_bounds();
            l.lemma_ok(s);
            l.lemma_read_meta(mem@, s, slab);
            l.lemma_slab_within(slab);
            let _ = s.class[slab];
        }
        let meta = self.slab_meta(mem, slab_index);
        let mut iter = RemoteFreeStackIter {
            current: load_u32(mem, meta.offset + REMOTE),
            slab_item_size: size_class(meta.size_class_index(mem)),
            slab: self.slab(mem, slab_index),
        };
        assert(all.skip(0) =~= all);
        loop
            invariant
                self.valid(mem@),
                l == self.layout(mem@),
                s == self.state(mem@),
                l.wf(),
                l.reach(s),
                l.fits(mem@.len() as int),
                0 <= slab < l.num_slabs,
                s.assigned[slab] != NULL_U32,
                class == s.class[slab],
                0 <= class < NUM_SIZE_CLASSES,
                slab == slab_index,
                all == s.remote[slab],
                0 <= passed <= all.len(),
                iter.slab == l.slab_at(slab),
                iter.slab_item_size == class_bytes(class),
                iter.yields(mem@, all.skip(passed)),
                forall|i: int| 0 <= i < passed ==> #[trigger] all[i] != index,
            decreases all.len() - passed,
        {
            let ghost rest = all.skip(passed);
            proof {
                l.lemma_bounds();
                slot_thread(l.slab_at(slab), class_bytes(class)).lemma_empty(
                    mem@,
                    iter.current as int,
                    rest,
                );
                if rest.len() > 0 {
                    assert(rest[0] == all[passed]);
                    assert(0 <= s.remote[slab][passed] < s.capacity(l, slab));
                    assert(rest[0] == iter.current);
                    l.lemma_slot_at(slab, class, rest[0]);
                }
            }
            match iter.next(mem) {
                None => {
                    return false;
                },
                Some(item) => {
                    if item == index as u32 {
                        assert(all[passed] == index);
                        return true;
                    }
                    proof {
                        assert(rest.drop_first() =~= all.skip(passed + 1));
                        passed = passed + 1;
                    }
                },
            }
        }
    }

    /// Whether an allocation in use starts at an offset.
    pub fn is_in_use(&self, mem: &[u8], offset: usize) -> (in_use: bool)
        requires
            self.valid(mem@),
        ensures
            in_use == self.live(mem@).contains(offset as int),
    {
        let ghost l = self.layout(mem@);
        let ghost s = self.state(mem@);
        proof {
            l.lemma_bounds();
            l.lemma_ok(s);
        }
        let header = self.header(mem);
        if offset < header.slab_offset as usize {
            return false;
        }
        let from_first_slab = offset - header.slab_offset as usize;
        let slab = from_first_slab / header.slab_size as usize;
        if slab >= header.num_slabs as usize {
            return false;
        }
        let slab_index = slab as u32;
        proof {
            l.lemma_read_meta(mem@, s, slab as int);
        }
        let meta = self.slab_meta(mem, slab_index);
        if meta.assigned_worker(mem) == NULL_U32 {
            return false;
        }
        let ghost class = s.class[slab as int] as int;
        let item_size = size_class(meta.size_class_index(mem)) as usize;
        let from_slab = from_first_slab % header.slab_size as usize;
        if from_slab % item_size != 0 {
            return false;
        }
        proof {
            l.slabs().lemma_slot_of(offset as int, class);
        }
        let index = (from_slab / item_size) as u16;
        !self.is_free(mem, slab_index, index) && !self.is_freed_remotely(mem, slab_index, index)
    }
}

} // verus!
