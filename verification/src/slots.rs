//! How a slab is divided into slots.
use crate::align::is_pow2;
use crate::region::{serves, valid_slab_size, CachedLayout};
use crate::size_classes::{class_bytes, NUM_SIZE_CLASSES};
use vstd::arithmetic::div_mod::*;
use vstd::arithmetic::mul::*;
use vstd::arithmetic::power2::*;
use vstd::prelude::*;

verus! {

/// A power of two is a multiple of every smaller one.
proof fn lemma_multiple(k: nat, class: int)
    requires
        0 <= class < NUM_SIZE_CLASSES,
        k >= 8 + class,
    ensures
        pow2(k) as int % class_bytes(class) == 0,
    decreases k,
{
    lemma2_to64();
    if k > 8 + class {
        let size = class_bytes(class);
        let half = pow2((k - 1) as nat) as int;
        lemma_multiple((k - 1) as nat, class);
        lemma_pow2_unfold(k);
        lemma_fundamental_div_mod(half, size);
        lemma_mul_is_associative(2, half / size, size);
        lemma_mul_is_commutative(size, half / size);
        lemma_mod_multiples_basic(2 * (half / size), size);
        assert(pow2(k) == 2 * (half / size) * size);
    } else {
        assert(k == 8 || k == 9 || k == 10 || k == 11 || k == 12);
        assert(pow2(k) == class_bytes(class));
        lemma_mod_self_0(class_bytes(class));
    }
}

/// The slots of a slab fill it, and its free stack has room for them.
pub proof fn lemma_slots(slab_size: int, class: int)
    requires
        is_pow2(slab_size),
        0 <= class < NUM_SIZE_CLASSES,
        serves(slab_size, class),
    ensures
        slab_size / class_bytes(class) * class_bytes(class) == slab_size,
        slab_size % class_bytes(class) == 0,
        slab_size >= 4 * 4096 ==> slab_size / class_bytes(class) >= 4,
        1 <= slab_size / class_bytes(class) <= slab_size / 256,
        slab_size / class_bytes(class) <= u16::MAX,
{
    let k = choose|k: nat| slab_size == #[trigger] pow2(k);
    lemma2_to64();
    assert(slab_size >= class_bytes(class));
    let j = (8 + class) as nat;
    assert(pow2(j) == class_bytes(class));
    if k < j {
        lemma_pow2_strictly_increases(k, j);
    }
    lemma_multiple(k, class);
    lemma_fundamental_div_mod(slab_size, class_bytes(class));
    lemma_mul_is_commutative(class_bytes(class), slab_size / class_bytes(class));
}

/// A slab of a valid size can serve any class.
pub proof fn lemma_serves(slab_size: int, class: int)
    requires
        valid_slab_size(slab_size),
        0 <= class < NUM_SIZE_CLASSES,
    ensures
        serves(slab_size, class),
{
}

impl CachedLayout {
    /// Where a slot lies, and that its offset leads back to it.
    pub proof fn lemma_slot(self, slab: int, class: int, index: int)
        requires
            self.sliced(),
            0 <= slab < self.num_slabs,
            0 <= class < NUM_SIZE_CLASSES,
            serves(self.slab_size as int, class),
            0 <= index < self.slots(class),
        ensures
            ({
                let off = self.slot(slab, class, index);
                &&& self.slabs_offset <= off
                &&& off + class_bytes(class) <= self.end()
                &&& self.slab_of(off) == slab
                &&& self.within(off) == index * class_bytes(class)
                &&& self.within(off) / class_bytes(class) == index
                &&& self.within(off) % class_bytes(class) == 0
            }),
            self.slots(class) <= u16::MAX,
    {
        let size = class_bytes(class);
        let n = self.slots(class);
        let ss = self.slab_size as int;
        lemma_slots(ss, class);
        crate::records::lemma_record_within(0, size, n, index, 0, size);
        crate::records::lemma_record_within(
            self.slabs_offset as int,
            ss,
            self.num_slabs as int,
            slab,
            index * size,
            size,
        );
        let rel = slab * ss + index * size;
        lemma_fundamental_div_mod_converse(rel, ss, slab, index * size);
        lemma_div_multiples_vanish(index, size);
        lemma_mod_multiples_basic(index, size);
        lemma_mul_is_commutative(index, size);
    }

    /// An offset that starts a slot is the offset of that slot.
    pub proof fn lemma_slot_of(self, off: int, class: int)
        requires
            self.sliced(),
            self.slabs_offset <= off,
            self.slab_of(off) < self.num_slabs,
            0 <= class < NUM_SIZE_CLASSES,
            serves(self.slab_size as int, class),
            self.within(off) % class_bytes(class) == 0,
        ensures
            0 <= self.slab_of(off),
            0 <= self.within(off) / class_bytes(class) < self.slots(class) <= u16::MAX,
            off == self.slot(self.slab_of(off), class, self.within(off) / class_bytes(class)),
            off + class_bytes(class) <= self.end(),
    {
        let size = class_bytes(class);
        let ss = self.slab_size as int;
        let rel = off - self.slabs_offset;
        lemma_slots(ss, class);
        lemma_fundamental_div_mod(rel, ss);
        lemma_div_pos_is_pos(rel, ss);
        lemma_fundamental_div_mod(self.within(off), size);
        lemma_mod_bound(rel, ss);
        lemma_mul_is_commutative(ss, rel / ss);
        let index = self.within(off) / size;
        lemma_mul_is_commutative(size, index);
        lemma_div_pos_is_pos(self.within(off), size);
        if index >= self.slots(class) {
            lemma_mul_inequality(self.slots(class), index, size);
        }
        self.lemma_slot(self.slab_of(off), class, index);
    }
}

/// Two slots with different offsets do not overlap, whatever slabs and classes they are of.
pub proof fn lemma_slots_apart(
    l: CachedLayout,
    slab1: int,
    class1: int,
    index1: int,
    slab2: int,
    class2: int,
    index2: int,
)
    requires
        l.sliced(),
        0 <= slab1 < l.num_slabs,
        0 <= slab2 < l.num_slabs,
        0 <= class1 < NUM_SIZE_CLASSES,
        0 <= class2 < NUM_SIZE_CLASSES,
        serves(l.slab_size as int, class1),
        serves(l.slab_size as int, class2),
        0 <= index1 < l.slots(class1),
        0 <= index2 < l.slots(class2),
        slab1 == slab2 ==> class1 == class2,
        l.slot(slab1, class1, index1) < l.slot(slab2, class2, index2),
    ensures
        l.slot(slab1, class1, index1) + class_bytes(class1) <= l.slot(slab2, class2, index2),
{
    let ss = l.slab_size as int;
    lemma_slots(ss, class1);
    lemma_slots(ss, class2);
    let size1 = class_bytes(class1);
    let size2 = class_bytes(class2);
    crate::records::lemma_record_within(0, size1, l.slots(class1), index1, 0, size1);
    crate::records::lemma_record_within(0, size2, l.slots(class2), index2, 0, size2);
    if slab1 == slab2 {
        if index1 >= index2 {
            lemma_mul_inequality(index2, index1, size1);
        }
        crate::records::lemma_record_apart(0, size1, index1, index2);
    } else if slab1 < slab2 {
        crate::records::lemma_record_apart(0, ss, slab1, slab2);
    } else {
        crate::records::lemma_record_apart(0, ss, slab2, slab1);
    }
}

} // verus!
