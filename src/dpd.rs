//! Densely packed decimal: three decimal digits in a ten-bit declet.
//!
//! Bits of a declet, most significant first, are `pqr stu v wxy`; the digits
//! in binary are `abcd efgh ijkm`. Digits below eight keep their three low
//! bits in place; `v` and the bits after it say which digits are eight or nine.
use vstd::prelude::*;

verus! {

/// The canonical declet of the digits `d2 d1 d0`, most significant first.
pub open spec fn declet_of(d2: u16, d1: u16, d0: u16) -> u16 {
    let a = d2 >= 8;
    let e = d1 >= 8;
    let i = d0 >= 8;
    let d = d2 & 1;
    let h = d1 & 1;
    let m = d0 & 1;
    let fg = (d1 >> 1) & 3;
    let jk = (d0 >> 1) & 3;
    if !a && !e && !i {
        (d2 << 7) | (d1 << 4) | d0
    } else if !a && !e && i {
        (d2 << 7) | (d1 << 4) | 8 | m
    } else if !a && e && !i {
        (d2 << 7) | (jk << 5) | (h << 4) | 10 | m
    } else if a && !e && !i {
        (jk << 8) | (d << 7) | (d1 << 4) | 12 | m
    } else if a && e && !i {
        (jk << 8) | (d << 7) | (h << 4) | 14 | m
    } else if a && !e && i {
        (fg << 8) | (d << 7) | 32 | (h << 4) | 14 | m
    } else if !a && e && i {
        (d2 << 7) | 64 | (h << 4) | 14 | m
    } else {
        (d << 7) | 96 | (h << 4) | 14 | m
    }
}

/// The digits of any ten-bit declet, canonical or not, most significant first.
pub open spec fn digits_of_declet(x: u16) -> (u16, u16, u16) {
    let pqr = (x >> 7) & 7;
    let stu = (x >> 4) & 7;
    let wxy = x & 7;
    let pq = (x >> 8) & 3;
    let st = (x >> 5) & 3;
    let r = (x >> 7) & 1;
    let u = (x >> 4) & 1;
    let y = x & 1;
    let v = (x >> 3) & 1;
    let wx = (x >> 1) & 3;
    if v == 0 {
        (pqr, stu, wxy)
    } else if wx == 0 {
        (pqr, stu, 8 | y)
    } else if wx == 1 {
        (pqr, 8 | u, (st << 1) | y)
    } else if wx == 2 {
        (8 | r, stu, (pq << 1) | y)
    } else if st == 0 {
        (8 | r, 8 | u, (pq << 1) | y)
    } else if st == 1 {
        (8 | r, (pq << 1) | u, 8 | y)
    } else if st == 2 {
        (pqr, 8 | u, 8 | y)
    } else {
        (8 | r, 8 | u, 8 | y)
    }
}

/// Packs the digits `d2 d1 d0` (most significant first) into their canonical declet.
pub fn encode_declet(d2: u8, d1: u8, d0: u8) -> (r: u16)
    requires
        d2 <= 9,
        d1 <= 9,
        d0 <= 9,
    ensures
        r == declet_of(d2 as u16, d1 as u16, d0 as u16),
        r < 1024,
{
    let (x2, x1, x0) = (d2 as u16, d1 as u16, d0 as u16);
    let a = x2 >= 8;
    let e = x1 >= 8;
    let i = x0 >= 8;
    let d = x2 & 1;
    let h = x1 & 1;
    let m = x0 & 1;
    let fg = (x1 >> 1) & 3;
    let jk = (x0 >> 1) & 3;
    proof {
        lemma_declet_range(x2, x1, x0);
    }
    if !a && !e && !i {
        (x2 << 7) | (x1 << 4) | x0
    } else if !a && !e && i {
        (x2 << 7) | (x1 << 4) | 8 | m
    } else if !a && e && !i {
        (x2 << 7) | (jk << 5) | (h << 4) | 10 | m
    } else if a && !e && !i {
        (jk << 8) | (d << 7) | (x1 << 4) | 12 | m
    } else if a && e && !i {
        (jk << 8) | (d << 7) | (h << 4) | 14 | m
    } else if a && !e && i {
        (fg << 8) | (d << 7) | 32 | (h << 4) | 14 | m
    } else if !a && e && i {
        (x2 << 7) | 64 | (h << 4) | 14 | m
    } else {
        (d << 7) | 96 | (h << 4) | 14 | m
    }
}

pub proof fn lemma_declet_range(d2: u16, d1: u16, d0: u16)
    requires
        d2 <= 9,
        d1 <= 9,
        d0 <= 9,
    ensures
        declet_of(d2, d1, d0) < 1024,
{
    let x = declet_of(d2, d1, d0);
    assert(x < 1024) by (bit_vector)
        requires
            d2 <= 9 && d1 <= 9 && d0 <= 9,
            x == (if !(d2 >= 8) && !(d1 >= 8) && !(d0 >= 8) {
                (d2 << 7) | (d1 << 4) | d0
            } else if !(d2 >= 8) && !(d1 >= 8) && (d0 >= 8) {
                (d2 << 7) | (d1 << 4) | 8 | (d0 & 1)
            } else if !(d2 >= 8) && (d1 >= 8) && !(d0 >= 8) {
                (d2 << 7) | (((d0 >> 1) & 3) << 5) | ((d1 & 1) << 4) | 10 | (d0 & 1)
            } else if (d2 >= 8) && !(d1 >= 8) && !(d0 >= 8) {
                (((d0 >> 1) & 3) << 8) | ((d2 & 1) << 7) | (d1 << 4) | 12 | (d0 & 1)
            } else if (d2 >= 8) && (d1 >= 8) && !(d0 >= 8) {
                (((d0 >> 1) & 3) << 8) | ((d2 & 1) << 7) | ((d1 & 1) << 4) | 14 | (d0 & 1)
            } else if (d2 >= 8) && !(d1 >= 8) && (d0 >= 8) {
                (((d1 >> 1) & 3) << 8) | ((d2 & 1) << 7) | 32 | ((d1 & 1) << 4) | 14 | (d0 & 1)
            } else if !(d2 >= 8) && (d1 >= 8) && (d0 >= 8) {
                (d2 << 7) | 64 | ((d1 & 1) << 4) | 14 | (d0 & 1)
            } else {
                ((d2 & 1) << 7) | 96 | ((d1 & 1) << 4) | 14 | (d0 & 1)
            });
}

/// Unpacking the canonical declet of three digits gives the digits back.
pub proof fn lemma_declet_round_trip(d2: u16, d1: u16, d0: u16)
    requires
        d2 <= 9,
        d1 <= 9,
        d0 <= 9,
    ensures
        digits_of_declet(declet_of(d2, d1, d0)) == (d2, d1, d0),
{
    let x = declet_of(d2, d1, d0);
    if !(d2 >= 8) && !(d1 >= 8) && !(d0 >= 8) {
        assert((x >> 3) & 1 == 0 && (x >> 7) & 7 == d2 && (x >> 4) & 7 == d1 && x & 7 == d0) by (bit_vector)
            requires
                d2 <= 9 && d1 <= 9 && d0 <= 9 && !(d2 >= 8) && !(d1 >= 8) && !(d0 >= 8),
                x == (d2 << 7) | (d1 << 4) | d0;
    } else if !(d2 >= 8) && !(d1 >= 8) && (d0 >= 8) {
        assert((x >> 3) & 1 == 1 && (x >> 1) & 3 == 0 && (x >> 7) & 7 == d2 && (x >> 4) & 7 == d1 && (8 | (x & 1)) == d0) by (bit_vector)
            requires
                d2 <= 9 && d1 <= 9 && d0 <= 9 && !(d2 >= 8) && !(d1 >= 8) && (d0 >= 8),
                x == (d2 << 7) | (d1 << 4) | 8 | (d0 & 1);
    } else if !(d2 >= 8) && (d1 >= 8) && !(d0 >= 8) {
        assert((x >> 3) & 1 == 1 && (x >> 1) & 3 == 1 && (x >> 7) & 7 == d2 && (8 | ((x >> 4) & 1)) == d1 && ((((x >> 5) & 3) << 1) | (x & 1)) == d0) by (bit_vector)
            requires
                d2 <= 9 && d1 <= 9 && d0 <= 9 && !(d2 >= 8) && (d1 >= 8) && !(d0 >= 8),
                x == (d2 << 7) | (((d0 >> 1) & 3) << 5) | ((d1 & 1) << 4) | 10 | (d0 & 1);
    } else if (d2 >= 8) && !(d1 >= 8) && !(d0 >= 8) {
        assert((x >> 3) & 1 == 1 && (x >> 1) & 3 == 2 && (8 | ((x >> 7) & 1)) == d2 && (x >> 4) & 7 == d1 && ((((x >> 8) & 3) << 1) | (x & 1)) == d0) by (bit_vector)
            requires
                d2 <= 9 && d1 <= 9 && d0 <= 9 && (d2 >= 8) && !(d1 >= 8) && !(d0 >= 8),
                x == (((d0 >> 1) & 3) << 8) | ((d2 & 1) << 7) | (d1 << 4) | 12 | (d0 & 1);
    } else if (d2 >= 8) && (d1 >= 8) && !(d0 >= 8) {
        assert((x >> 3) & 1 == 1 && (x >> 1) & 3 == 3 && (x >> 5) & 3 == 0 && (8 | ((x >> 7) & 1)) == d2 && (8 | ((x >> 4) & 1)) == d1 && ((((x >> 8) & 3) << 1) | (x & 1)) == d0) by (bit_vector)
            requires
                d2 <= 9 && d1 <= 9 && d0 <= 9 && (d2 >= 8) && (d1 >= 8) && !(d0 >= 8),
                x == (((d0 >> 1) & 3) << 8) | ((d2 & 1) << 7) | ((d1 & 1) << 4) | 14 | (d0 & 1);
    } else if (d2 >= 8) && !(d1 >= 8) && (d0 >= 8) {
        assert((x >> 3) & 1 == 1 && (x >> 1) & 3 == 3 && (x >> 5) & 3 == 1 && (8 | ((x >> 7) & 1)) == d2 && ((((x >> 8) & 3) << 1) | ((x >> 4) & 1)) == d1 && (8 | (x & 1)) == d0) by (bit_vector)
            requires
                d2 <= 9 && d1 <= 9 && d0 <= 9 && (d2 >= 8) && !(d1 >= 8) && (d0 >= 8),
                x == (((d1 >> 1) & 3) << 8) | ((d2 & 1) << 7) | 32 | ((d1 & 1) << 4) | 14 | (d0 & 1);
    } else if !(d2 >= 8) && (d1 >= 8) && (d0 >= 8) {
        assert((x >> 3) & 1 == 1 && (x >> 1) & 3 == 3 && (x >> 5) & 3 == 2 && (x >> 7) & 7 == d2 && (8 | ((x >> 4) & 1)) == d1 && (8 | (x & 1)) == d0) by (bit_vector)
            requires
                d2 <= 9 && d1 <= 9 && d0 <= 9 && !(d2 >= 8) && (d1 >= 8) && (d0 >= 8),
                x == (d2 << 7) | 64 | ((d1 & 1) << 4) | 14 | (d0 & 1);
    } else if (d2 >= 8) && (d1 >= 8) && (d0 >= 8) {
        assert((x >> 3) & 1 == 1 && (x >> 1) & 3 == 3 && (x >> 5) & 3 == 3 && (8 | ((x >> 7) & 1)) == d2 && (8 | ((x >> 4) & 1)) == d1 && (8 | (x & 1)) == d0) by (bit_vector)
            requires
                d2 <= 9 && d1 <= 9 && d0 <= 9 && (d2 >= 8) && (d1 >= 8) && (d0 >= 8),
                x == ((d2 & 1) << 7) | 96 | ((d1 & 1) << 4) | 14 | (d0 & 1);
    }
}

/// Unpacks any ten-bit declet, canonical or not, into its digits, most significant first.
pub fn decode_declet(x: u16) -> (r: (u8, u8, u8))
    requires
        x < 1024,
    ensures
        r.0 <= 9,
        r.1 <= 9,
        r.2 <= 9,
        (r.0 as u16, r.1 as u16, r.2 as u16) == digits_of_declet(x),
{
    let t = digits_of_declet_exec(x);
    proof {
        lemma_declet_digits_range(x);
    }
    (t.0 as u8, t.1 as u8, t.2 as u8)
}

fn digits_of_declet_exec(x: u16) -> (r: (u16, u16, u16))
    ensures
        r == digits_of_declet(x),
{
    let pqr = (x >> 7) & 7;
    let stu = (x >> 4) & 7;
    let wxy = x & 7;
    let pq = (x >> 8) & 3;
    let st = (x >> 5) & 3;
    let r_bit = (x >> 7) & 1;
    let u = (x >> 4) & 1;
    let y = x & 1;
    let v = (x >> 3) & 1;
    let wx = (x >> 1) & 3;
    if v == 0 {
        (pqr, stu, wxy)
    } else if wx == 0 {
        (pqr, stu, 8 | y)
    } else if wx == 1 {
        (pqr, 8 | u, (st << 1) | y)
    } else if wx == 2 {
        (8 | r_bit, stu, (pq << 1) | y)
    } else if st == 0 {
        (8 | r_bit, 8 | u, (pq << 1) | y)
    } else if st == 1 {
        (8 | r_bit, (pq << 1) | u, 8 | y)
    } else if st == 2 {
        (pqr, 8 | u, 8 | y)
    } else {
        (8 | r_bit, 8 | u, 8 | y)
    }
}

proof fn lemma_declet_digits_range(x: u16)
    ensures
        digits_of_declet(x).0 <= 9,
        digits_of_declet(x).1 <= 9,
        digits_of_declet(x).2 <= 9,
{
    let pqr = (x >> 7) & 7;
    let stu = (x >> 4) & 7;
    let wxy = x & 7;
    let pq = (x >> 8) & 3;
    let st = (x >> 5) & 3;
    let r = (x >> 7) & 1;
    let u = (x >> 4) & 1;
    let y = x & 1;
    assert(pqr <= 7 && stu <= 7 && wxy <= 7 && pq <= 3 && st <= 3 && r <= 1 && u <= 1 && y <= 1)
        by (bit_vector)
        requires
            pqr == (x >> 7) & 7 && stu == (x >> 4) & 7 && wxy == x & 7,
            pq == (x >> 8) & 3 && st == (x >> 5) & 3,
            r == (x >> 7) & 1 && u == (x >> 4) & 1 && y == x & 1;
    assert((8u16 | y) <= 9 && (8u16 | r) <= 9 && (8u16 | u) <= 9 && ((st << 1) | y) <= 7
        && ((pq << 1) | y) <= 7 && ((pq << 1) | u) <= 7) by (bit_vector)
        requires
            st <= 3 && pq <= 3 && r <= 1 && u <= 1 && y <= 1;
}

} // verus!
