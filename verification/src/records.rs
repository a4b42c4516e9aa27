//! Tables of equally sized records in the region.
use crate::memory::{same_outside, u16_at, u32_at, u64_at, u8_at, word};
use vstd::arithmetic::mul::lemma_mul_inequality;
use vstd::arithmetic::mul::lemma_mul_is_distributive_add_other_way;
use vstd::prelude::*;

verus! {

/// The offset of a field of the `i`th record of the table at `base`.
pub open spec fn record(base: int, stride: int, i: int, field: int) -> int {
    base + i * stride + field
}

/// The values of one four-byte field over all records.
pub open spec fn column32(mem: Seq<u8>, base: int, stride: int, field: int, n: nat) -> Seq<u32> {
    Seq::new(n, |i: int| u32_at(mem, record(base, stride, i, field)))
}

/// The values of one eight-byte field over all records.
pub open spec fn column64(mem: Seq<u8>, base: int, stride: int, field: int, n: nat) -> Seq<u64> {
    Seq::new(n, |i: int| u64_at(mem, record(base, stride, i, field)))
}

/// The values of one two-byte field over all records.
pub open spec fn column16(mem: Seq<u8>, base: int, stride: int, field: int, n: nat) -> Seq<u16> {
    Seq::new(n, |i: int| u16_at(mem, record(base, stride, i, field)))
}

/// The values of one one-byte field over all records.
pub open spec fn column8(mem: Seq<u8>, base: int, stride: int, field: int, n: nat) -> Seq<u8> {
    Seq::new(n, |i: int| u8_at(mem, record(base, stride, i, field)))
}

/// A record lies within its table.
pub proof fn lemma_record_within(base: int, stride: int, n: int, i: int, field: int, width: int)
    requires
        0 <= i < n,
        0 <= field,
        0 <= width,
        field + width <= stride,
    ensures
        base <= record(base, stride, i, field),
        0 <= i * stride,
        record(base, stride, i, field) + width <= base + n * stride,
{
    lemma_mul_inequality(i + 1, n, stride);
    lemma_mul_inequality(0, i, stride);
    lemma_mul_is_distributive_add_other_way(stride, i, 1);
}

/// Different records do not overlap.
pub proof fn lemma_record_apart(base: int, stride: int, i: int, j: int)
    requires
        i < j,
        0 <= stride,
    ensures
        record(base, stride, i, 0) + stride <= record(base, stride, j, 0),
{
    lemma_mul_inequality(i + 1, j, stride);
    lemma_mul_is_distributive_add_other_way(stride, i, 1);
}

/// After a change to one field of one record, all other fields are as before.
pub proof fn lemma_record_frame(
    a: Seq<u8>,
    b: Seq<u8>,
    base: int,
    stride: int,
    n: int,
    k: int,
    field: int,
    width: int,
)
    requires
        0 <= base,
        base + n * stride <= a.len(),
        0 <= k < n,
        0 <= field,
        0 <= width,
        field + width <= stride,
        same_outside(
            a,
            b,
            record(base, stride, k, field),
            record(base, stride, k, field) + width,
        ),
    ensures
        forall|i: int, g: int, v: nat|
            0 <= i < n && 0 <= g && g + v <= stride && (i != k || g + v <= field || field + width <= g)
                ==> #[trigger] word(b, record(base, stride, i, g), v) == word(
                a,
                record(base, stride, i, g),
                v,
            ),
{
    assert forall|i: int, g: int, v: nat|
        0 <= i < n && 0 <= g && g + v <= stride && (i != k || g + v <= field || field + width <= g) implies #[trigger] word(
        b,
        record(base, stride, i, g),
        v,
    ) == word(a, record(base, stride, i, g), v) by {
        lemma_record_within(base, stride, n, i, g, v as int);
        lemma_record_within(base, stride, n, k, field, width);
        if i < k {
            lemma_record_apart(base, stride, i, k);
        } else if k < i {
            lemma_record_apart(base, stride, k, i);
        }
        crate::memory::lemma_word_same(a, b, record(base, stride, i, g), v);
    }
}

/// A table none of whose bytes changed is as before.
pub proof fn lemma_table_frame(
    a: Seq<u8>,
    b: Seq<u8>,
    base: int,
    stride: int,
    n: int,
    lo: int,
    hi: int,
)
    requires
        0 <= base,
        base + n * stride <= a.len(),
        same_outside(a, b, lo, hi),
        base + n * stride <= lo || hi <= base,
    ensures
        forall|i: int, g: int, v: nat|
            0 <= i < n && 0 <= g && g + v <= stride ==> #[trigger] word(
                b,
                record(base, stride, i, g),
                v,
            ) == word(a, record(base, stride, i, g), v),
{
    assert forall|i: int, g: int, v: nat|
        0 <= i < n && 0 <= g && g + v <= stride implies #[trigger] word(
        b,
        record(base, stride, i, g),
        v,
    ) == word(a, record(base, stride, i, g), v) by {
        lemma_record_within(base, stride, n, i, g, v as int);
        crate::memory::lemma_word_same(a, b, record(base, stride, i, g), v);
    }
}

/// The offset of a field of the `i`th record, computed.
pub(crate) fn record_offset(base: usize, stride: usize, i: usize, field: usize, Ghost(n): Ghost<int>) -> (off:
    usize)
    requires
        0 <= i < n,
        field < stride,
        base + n * stride <= usize::MAX,
    ensures
        off == record(base as int, stride as int, i as int, field as int),
{
    proof {
        lemma_record_within(base as int, stride as int, n, i as int, field as int, 1);
    }
    base + i * stride + field
}

} // verus!
