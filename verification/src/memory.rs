//! Little-endian words in a byte region.
//!
//! The region shared by all workers is a slice of bytes; a "pointer" into it is a
//! byte offset from its start. Everything the allocator keeps in the region is a
//! word of one, two, four or eight bytes at some offset.
use vstd::prelude::*;

verus! {

/// The number held by the `width` bytes at `off`, least significant byte first.
pub open spec fn word(mem: Seq<u8>, off: int, width: nat) -> nat
    decreases width,
{
    if width == 0 {
        0
    } else {
        mem[off] as nat + 256 * word(mem, off + 1, (width - 1) as nat)
    }
}

pub open spec fn u8_at(mem: Seq<u8>, off: int) -> u8 {
    word(mem, off, 1) as u8
}

pub open spec fn u16_at(mem: Seq<u8>, off: int) -> u16 {
    word(mem, off, 2) as u16
}

pub open spec fn u32_at(mem: Seq<u8>, off: int) -> u32 {
    word(mem, off, 4) as u32
}

pub open spec fn u64_at(mem: Seq<u8>, off: int) -> u64 {
    word(mem, off, 8) as u64
}

/// The two regions have the same size and agree on every byte outside `lo..hi`.
pub open spec fn same_outside(a: Seq<u8>, b: Seq<u8>, lo: int, hi: int) -> bool {
    &&& a.len() == b.len()
    &&& forall|i: int| 0 <= i < a.len() && !(lo <= i < hi) ==> #[trigger] b[i] == a[i]
}

/// The two regions agree on every byte of `lo..hi`.
pub open spec fn agree(a: Seq<u8>, b: Seq<u8>, lo: int, hi: int) -> bool {
    forall|i: int| lo <= i < hi ==> #[trigger] b[i] == a[i]
}

/// `after` is `before` with the `width` bytes at `off` replaced by those of `value`.
pub open spec fn written(before: Seq<u8>, after: Seq<u8>, off: int, width: nat, value: nat) -> bool {
    &&& same_outside(before, after, off, off + width)
    &&& word(after, off, width) == value
}

/// One past the largest number that fits in `width` bytes.
pub open spec fn limit(width: nat) -> nat
    decreases width,
{
    if width == 0 {
        1
    } else {
        256 * limit((width - 1) as nat)
    }
}

pub proof fn lemma_word_bound(mem: Seq<u8>, off: int, width: nat)
    ensures
        word(mem, off, width) < limit(width),
    decreases width,
{
    if width > 0 {
        lemma_word_bound(mem, off + 1, (width - 1) as nat);
    }
}

proof fn lemma_limits()
    ensures
        limit(1) == 0x100,
        limit(2) == 0x1_0000,
        limit(4) == 0x1_0000_0000,
        limit(8) == 0x1_0000_0000_0000_0000,
{
    reveal_with_fuel(limit, 9);
}

/// A word depends only on its own bytes.
pub proof fn lemma_word_same(a: Seq<u8>, b: Seq<u8>, off: int, width: nat)
    requires
        forall|i: int| off <= i < off + width ==> a[i] == b[i],
    ensures
        word(a, off, width) == word(b, off, width),
    decreases width,
{
    if width > 0 {
        lemma_word_same(a, b, off + 1, (width - 1) as nat);
    }
}

/// Words that lie outside the part of the region that changed are unchanged.
pub proof fn lemma_frame(a: Seq<u8>, b: Seq<u8>, lo: int, hi: int)
    requires
        same_outside(a, b, lo, hi),
    ensures
        forall|off: int, width: nat|
            0 <= off && off + width <= a.len() && (off + width <= lo || hi <= off) ==> #[trigger] word(
                b,
                off,
                width,
            ) == word(a, off, width),
{
    assert forall|off: int, width: nat|
        0 <= off && off + width <= a.len() && (off + width <= lo || hi <= off) implies #[trigger] word(
        b,
        off,
        width,
    ) == word(a, off, width) by {
        lemma_word_same(a, b, off, width);
    }
}

fn load(mem: &[u8], off: usize, width: usize) -> (value: u64)
    requires
        width <= 8,
        off + width <= mem@.len(),
    ensures
        value == word(mem@, off as int, width as nat),
    decreases width,
{
    if width == 0 {
        0
    } else {
        let low = mem[off];
        let high = load(mem, off + 1, width - 1);
        proof {
            lemma_word_bound(mem@, off + 1, (width - 1) as nat);
            reveal_with_fuel(limit, 9);
        }
        low as u64 + 256 * high
    }
}

fn store(mem: &mut [u8], off: usize, width: usize, value: u64)
    requires
        width <= 8,
        off + width <= old(mem)@.len(),
        value < limit(width as nat),
    ensures
        written(old(mem)@, final(mem)@, off as int, width as nat, value as nat),
    decreases width,
{
    if width > 0 {
        mem[off] = (value % 256) as u8;
        let ghost mid = mem@;
        store(mem, off + 1, width - 1, value / 256);
    }
}

pub fn load_u8(mem: &[u8], off: usize) -> (value: u8)
    requires
        off + 1 <= mem@.len(),
    ensures
        value == u8_at(mem@, off as int),
{
    proof {
        lemma_limits();
        lemma_word_bound(mem@, off as int, 1);
    }
    load(mem, off, 1) as u8
}

pub fn load_u16(mem: &[u8], off: usize) -> (value: u16)
    requires
        off + 2 <= mem@.len(),
    ensures
        value == u16_at(mem@, off as int),
{
    proof {
        lemma_limits();
        lemma_word_bound(mem@, off as int, 2);
    }
    load(mem, off, 2) as u16
}

pub fn load_u32(mem: &[u8], off: usize) -> (value: u32)
    requires
        off + 4 <= mem@.len(),
    ensures
        value == u32_at(mem@, off as int),
{
    proof {
        lemma_limits();
        lemma_word_bound(mem@, off as int, 4);
    }
    load(mem, off, 4) as u32
}

pub fn load_u64(mem: &[u8], off: usize) -> (value: u64)
    requires
        off + 8 <= mem@.len(),
    ensures
        value == u64_at(mem@, off as int),
{
    load(mem, off, 8)
}

pub fn store_u8(mem: &mut [u8], off: usize, value: u8)
    requires
        off + 1 <= old(mem)@.len(),
    ensures
        same_outside(old(mem)@, final(mem)@, off as int, off + 1),
        u8_at(final(mem)@, off as int) == value,
{
    proof {
        lemma_limits();
    }
    store(mem, off, 1, value as u64);
}

pub fn store_u16(mem: &mut [u8], off: usize, value: u16)
    requires
        off + 2 <= old(mem)@.len(),
    ensures
        same_outside(old(mem)@, final(mem)@, off as int, off + 2),
        u16_at(final(mem)@, off as int) == value,
{
    proof {
        lemma_limits();
    }
    store(mem, off, 2, value as u64);
}

pub fn store_u32(mem: &mut [u8], off: usize, value: u32)
    requires
        off + 4 <= old(mem)@.len(),
    ensures
        same_outside(old(mem)@, final(mem)@, off as int, off + 4),
        u32_at(final(mem)@, off as int) == value,
{
    proof {
        lemma_limits();
    }
    store(mem, off, 4, value as u64);
}

pub fn store_u64(mem: &mut [u8], off: usize, value: u64)
    requires
        off + 8 <= old(mem)@.len(),
    ensures
        same_outside(old(mem)@, final(mem)@, off as int, off + 8),
        u64_at(final(mem)@, off as int) == value,
{
    proof {
        lemma_limits();
    }
    store(mem, off, 8, value);
}

/// Words are little-endian: each byte counts 256 times as much as the one before it.
pub proof fn law_little_endian(mem: Seq<u8>, off: int)
    ensures
        u8_at(mem, off) == mem[off],
        u16_at(mem, off) == mem[off] + 256 * mem[off + 1],
        u32_at(mem, off) == u16_at(mem, off) + 65536 * u16_at(mem, off + 2),
        u64_at(mem, off) == u32_at(mem, off) + 4294967296 * u32_at(mem, off + 4),
{
    reveal_with_fuel(word, 9);
}

} // verus!
