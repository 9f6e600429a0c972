//! Bit-addressed access to a little-endian byte buffer. Bit `i` is bit `i % 8`
//! of byte `i / 8`, so the buffer reads as one unsigned integer.
use vstd::prelude::*;
use crate::layout::MAX_WIDTH;

verus! {

/// Bit `i` of a little-endian buffer.
pub open spec fn bit_at(s: Seq<u8>, i: int) -> u8 {
    (s[i / 8] >> ((i % 8) as u8)) & 1
}

/// Bit `j` of a word.
pub open spec fn word_bit(x: u32, j: int) -> u32 {
    (x >> (j as u32)) & 1
}

/// The low `c` bits of a word.
pub open spec fn low_bits(x: u32, c: u32) -> u32 {
    x & (((1u32 << c) as u32 - 1) as u32)
}

proof fn lemma_set_bit(b: u8, sh: u8, k: u8)
    requires
        sh < 8,
        k < 8,
    ensures
        ((b | (1u8 << sh)) >> k) & 1 == (if k == sh { 1u8 } else { (b >> k) & 1 }),
        ((b & !(1u8 << sh)) >> k) & 1 == (if k == sh { 0u8 } else { (b >> k) & 1 }),
{
    assert(((b | (1u8 << sh)) >> k) & 1 == (if k == sh { 1u8 } else { (b >> k) & 1 })) by (bit_vector)
        requires sh < 8 && k < 8;
    assert(((b & !(1u8 << sh)) >> k) & 1 == (if k == sh { 0u8 } else { (b >> k) & 1 })) by (bit_vector)
        requires sh < 8 && k < 8;
}

proof fn lemma_push_bit(r: u32, b: u32, k: u32, j: u32)
    requires
        k < 31,
        j < 32,
        b <= 1,
        r < (1u32 << k),
    ensures
        (r | (b << k)) < (1u32 << (k + 1) as u32),
        j < k ==> ((r | (b << k)) >> j) & 1 == (r >> j) & 1,
        j == k ==> ((r | (b << k)) >> j) & 1 == b,
{
    assert((r | (b << k)) < (1u32 << (k + 1) as u32)) by (bit_vector)
        requires k < 31 && b <= 1 && r < (1u32 << k);
    assert(j < k ==> ((r | (b << k)) >> j) & 1 == (r >> j) & 1) by (bit_vector)
        requires k < 31 && j < 32 && b <= 1 && r < (1u32 << k);
    assert(j == k ==> ((r | (b << k)) >> j) & 1 == b) by (bit_vector)
        requires k < 31 && j < 32 && b <= 1 && r < (1u32 << k);
}

proof fn lemma_low_bits_step(x: u32, j: u32)
    requires
        j < 31,
    ensures
        low_bits(x, (j + 1) as u32) == low_bits(x, j) | (((x >> j) & 1) << j),
{
    assert(x & (((1u32 << (j + 1) as u32) as u32 - 1) as u32) == (x & (((1u32 << j) as u32 - 1) as u32)) | (((x >> j) & 1) << j))
        by (bit_vector)
        requires j < 31;
}

/// Two words whose low `c` bits agree one by one agree on their low `c` bits.
proof fn lemma_low_bits_eq(x: u32, y: u32, c: u32)
    requires
        c < 32,
        forall|j: int| 0 <= j < c ==> #[trigger] word_bit(x, j) == word_bit(y, j),
    ensures
        low_bits(x, c) == low_bits(y, c),
    decreases c,
{
    if c == 0 {
        assert(low_bits(x, 0) == 0 && low_bits(y, 0) == 0) by (bit_vector);
    } else {
        lemma_low_bits_eq(x, y, (c - 1) as u32);
        lemma_low_bits_step(x, (c - 1) as u32);
        lemma_low_bits_step(y, (c - 1) as u32);
        assert(word_bit(x, c - 1) == word_bit(y, c - 1));
    }
}

pub proof fn lemma_below_is_low(r: u32, c: u32)
    requires
        c < 32,
        r < (1u32 << c),
    ensures
        low_bits(r, c) == r,
{
    assert(r & (((1u32 << c) as u32 - 1) as u32) == r) by (bit_vector)
        requires c < 32 && r < (1u32 << c);
}

/// A byte whose two low bits are kept keeps bits 0 and 1.
pub proof fn lemma_low_two_bits(x: u8, y: u8, k: u8)
    requires
        x % 4 == y % 4,
        k < 2,
    ensures
        (x >> k) & 1 == (y >> k) & 1,
{
    assert((x >> k) & 1 == (y >> k) & 1) by (bit_vector)
        requires x % 4 == y % 4 && k < 2;
}

/// The unsigned integer that bits `start ..< start + count` of `b` make up.
pub open spec fn field_value(b: Seq<u8>, start: int, count: u32) -> u32 {
    choose|r: u32| #[trigger] is_field_value(b, start, count, r)
}

/// `r` holds bits `start ..< start + count` of `b` and nothing above them.
pub open spec fn is_field_value(b: Seq<u8>, start: int, count: u32, r: u32) -> bool {
    r < (1u32 << count) && forall|j: int| 0 <= j < count ==> #[trigger] word_bit(r, j) == bit_at(b, start + j) as u32
}

/// Writes the low `count` bits of `value` at bits `start ..< start + count`.
pub fn write_bits(buf: &mut Vec<u8>, start: usize, count: usize, value: u32)
    requires
        count <= 32,
        start + count <= 8 * old(buf)@.len(),
        old(buf)@.len() <= MAX_WIDTH,
    ensures
        final(buf)@.len() == old(buf)@.len(),
        forall|i: int| 0 <= i < 8 * old(buf)@.len() && !(start <= i < start + count)
            ==> #[trigger] bit_at(final(buf)@, i) == bit_at(old(buf)@, i),
        forall|j: int| 0 <= j < count ==> #[trigger] bit_at(final(buf)@, start + j) as u32 == word_bit(value, j),
{
    let mut k: usize = 0;
    while k < count
        invariant
            k <= count <= 32,
            start + count <= 8 * buf@.len(),
            buf@.len() <= MAX_WIDTH,
            buf@.len() == old(buf)@.len(),
            forall|i: int| 0 <= i < 8 * old(buf)@.len() && !(start <= i < start + k)
                ==> #[trigger] bit_at(buf@, i) == bit_at(old(buf)@, i),
            forall|j: int| 0 <= j < k ==> #[trigger] bit_at(buf@, start + j) as u32 == word_bit(value, j),
        decreases count - k,
    {
        let idx = start + k;
        let byte = idx / 8;
        let sh = (idx % 8) as u8;
        let mask: u8 = 1u8 << sh;
        let old_byte = buf[byte];
        let ghost before = buf@;
        let bit = (value >> (k as u32)) & 1;
        if bit == 1 {
            buf.set(byte, old_byte | mask);
        } else {
            buf.set(byte, old_byte & !mask);
        }
        proof {
            assert forall|i: int| 0 <= i < 8 * old(buf)@.len() && i != idx
                implies #[trigger] bit_at(buf@, i) == bit_at(before, i) by {
                if i / 8 == byte as int {
                    lemma_set_bit(old_byte, sh, (i % 8) as u8);
                }
            }
            lemma_set_bit(old_byte, sh, sh);
            assert(bit_at(buf@, idx as int) as u32 == word_bit(value, k as int)) by {
                assert(bit == 0 || bit == 1) by (bit_vector) requires bit == (value >> (k as u32)) & 1;
            }
            assert forall|j: int| 0 <= j < k + 1 implies #[trigger] bit_at(buf@, start + j) as u32 == word_bit(value, j) by {
                if j < k {
                    assert(bit_at(buf@, start + j) == bit_at(before, start + j));
                }
            }
        }
        k = k + 1;
    }
}

/// Reads bits `start ..< start + count` as an unsigned integer.
pub fn read_bits(buf: &Vec<u8>, start: usize, count: usize) -> (r: u32)
    requires
        count < 32,
        start + count <= 8 * buf@.len(),
        buf@.len() <= MAX_WIDTH,
    ensures
        r < (1u32 << count as u32),
        forall|j: int| 0 <= j < count ==> #[trigger] word_bit(r, j) == bit_at(buf@, start + j) as u32,
        r == field_value(buf@, start as int, count as u32),
{
    let mut r: u32 = 0;
    let mut k: usize = 0;
    assert(0u32 < (1u32 << 0u32)) by (bit_vector);
    while k < count
        invariant
            k <= count < 32,
            start + count <= 8 * buf@.len(),
            buf@.len() <= MAX_WIDTH,
            r < (1u32 << k as u32),
            forall|j: int| 0 <= j < k ==> #[trigger] word_bit(r, j) == bit_at(buf@, start + j) as u32,
        decreases count - k,
    {
        let idx = start + k;
        let byte_val = buf[idx / 8];
        let sh = (idx % 8) as u8;
        let bit = ((byte_val >> sh) & 1) as u32;
        let ghost r0 = r;
        assert(bit <= 1) by (bit_vector) requires bit == ((byte_val >> sh) & 1) as u32;
        r = r | (bit << (k as u32));
        proof {
            assert(bit_at(buf@, idx as int) as u32 == bit);
            assert forall|j: int| 0 <= j < k + 1 implies #[trigger] word_bit(r, j) == bit_at(buf@, start + j) as u32 by {
                lemma_push_bit(r0, bit, k as u32, j as u32);
                if j < k {
                    assert(word_bit(r0, j) == bit_at(buf@, start + j) as u32);
                } else {
                    assert(start + j == idx);
                }
            }
            lemma_push_bit(r0, bit, k as u32, 0);
        }
        k = k + 1;
    }
    proof {
        let c = count as u32;
        let o = field_value(buf@, start as int, c);
        assert(is_field_value(buf@, start as int, c, r));
        assert forall|j: int| 0 <= j < c implies #[trigger] word_bit(r, j) == word_bit(o, j) by {
            assert(word_bit(o, j) == bit_at(buf@, start + j) as u32);
        }
        lemma_low_bits_eq(r, o, c);
        lemma_below_is_low(r, c);
        lemma_below_is_low(o, c);
    }
    r
}

/// Reading back the bits that a write left gives the low bits of the value written.
pub proof fn lemma_read_written(r: u32, value: u32, count: u32, s: Seq<u8>, start: int)
    requires
        count < 32,
        r < (1u32 << count),
        forall|j: int| 0 <= j < count ==> #[trigger] word_bit(r, j) == bit_at(s, start + j) as u32,
        forall|j: int| 0 <= j < count ==> #[trigger] bit_at(s, start + j) as u32 == word_bit(value, j),
    ensures
        r == low_bits(value, count),
{
    assert forall|j: int| 0 <= j < count implies #[trigger] word_bit(r, j) == word_bit(value, j) by {
        assert(word_bit(r, j) == bit_at(s, start + j) as u32);
    }
    lemma_low_bits_eq(r, value, count);
    lemma_below_is_low(r, count);
}

} // verus!
