//! The binary encoding: sign, combination field and trailing significand.
use vstd::prelude::*;
use crate::bits::{field_value, bit_at, lemma_below_is_low, lemma_low_two_bits, lemma_read_written, low_bits, read_bits, word_bit, write_bits};
use crate::dpd::{decode_declet, declet_of, digits_of_declet, encode_declet, lemma_declet_round_trip};
use crate::layout::{
    bias, declets, exp_cont_bits, fits, format_of, max_biased, precision, select_payload_width, select_width,
    trailing_bits, valid_width, Format, MAX_WIDTH,
};
use vstd::arithmetic::power2::pow2;
use crate::error::Error;

verus! {

/// What a bitstring holds, as the combination field tells it.
#[derive(PartialEq, Eq, Structural, Clone, Copy, Debug)]
pub enum Kind {
    Finite,
    Infinity,
    QuietNan,
    SignalingNan,
}

/// The parts of a decimal value.
///
/// `digits` are decimal digits, most significant first, without leading
/// zeros: the significand of a finite value (empty for zero) or the payload
/// of a NaN (empty for none). `exponent` is the exponent of the last
/// significand digit, and matters only for finite values.
pub struct Decimal {
    pub negative: bool,
    pub kind: Kind,
    pub digits: Vec<u8>,
    pub exponent: i64,
}

/// Digits, each below ten, with no leading zero.
pub open spec fn canonical_digits(s: Seq<u8>) -> bool {
    &&& forall|i: int| 0 <= i < s.len() ==> #[trigger] s[i] <= 9
    &&& (s.len() > 0 ==> s[0] != 0)
}

impl Decimal {
    pub open spec fn wf(&self) -> bool {
        canonical_digits(self.digits@)
    }
}

/// The byte that holds the sign and the head of the combination field.
pub open spec fn top_byte(b: Seq<u8>) -> u8 {
    b[b.len() - 1]
}

pub open spec fn spec_negative(b: Seq<u8>) -> bool {
    top_byte(b) & 0x80 == 0x80
}

pub open spec fn spec_infinite(b: Seq<u8>) -> bool {
    top_byte(b) & 0x7C == 0x78
}

pub open spec fn spec_nan(b: Seq<u8>) -> bool {
    top_byte(b) & 0x7C == 0x7C
}

pub open spec fn spec_finite(b: Seq<u8>) -> bool {
    top_byte(b) & 0x78 != 0x78
}

pub open spec fn spec_quiet_nan(b: Seq<u8>) -> bool {
    top_byte(b) & 0x7E == 0x7C
}

pub open spec fn spec_signaling_nan(b: Seq<u8>) -> bool {
    top_byte(b) & 0x7E == 0x7E
}

/// The kind of value that a bitstring holds.
pub open spec fn kind_of(b: Seq<u8>) -> Kind {
    if spec_finite(b) {
        Kind::Finite
    } else if spec_infinite(b) {
        Kind::Infinity
    } else if spec_quiet_nan(b) {
        Kind::QuietNan
    } else {
        Kind::SignalingNan
    }
}

/// The widths that a value's encoding may take: for a finite value those it
/// fits; for a NaN those whose trailing significand holds its payload.
pub open spec fn encodable_in(d: Decimal, w: nat) -> bool {
    parts_encodable_in(d.kind, d.digits@.len(), d.exponent as int, w)
}

/// The widths that a value of `kind` with `n` digits and exponent `q` may take.
pub open spec fn parts_encodable_in(kind: Kind, n: nat, q: int, w: nat) -> bool {
    match kind {
        Kind::Finite => fits(w, n, q),
        Kind::Infinity => valid_width(w),
        _ => valid_width(w) && n + 1 <= precision(w),
    }
}

/// The width that an encoding takes: the narrowest possible.
pub open spec fn chosen_width(d: Decimal, w: nat) -> bool {
    parts_chosen_width(d.kind, d.digits@.len(), d.exponent as int, w)
}

/// The narrowest width that a value of `kind` with `n` digits and exponent `q` takes.
pub open spec fn parts_chosen_width(kind: Kind, n: nat, q: int, w: nat) -> bool {
    parts_encodable_in(kind, n, q, w) && forall|v: nat| v < w ==> !#[trigger] parts_encodable_in(kind, n, q, v)
}

proof fn lemma_top_fields(low: u8, g: u8, s: u8)
    requires
        low < 4,
        g < 32,
        s <= 1,
    ensures
        ((low + g * 4 + s * 128) as u8) & 0x80 == s * 128,
        ((low + g * 4 + s * 128) as u8) & 0x7C == g * 4,
        ((low + g * 4 + s * 128) as u8) & 0x78 == (g & 0x1E) * 4,
        ((low + g * 4 + s * 128) as u8) & 0x7E == (g * 4) + (low & 2),
        (((low + g * 4 + s * 128) as u8) >> 2) & 0x1F == g,
        ((low + g * 4 + s * 128) as u8) % 4 == low,
        (((low + g * 4 + s * 128) as u8) >= 128) == (s == 1),
        ((low + g * 4 + s * 128) as u8) & 2 == low & 2,
{
    assert(((low + g * 4 + s * 128) as u8) & 0x80 == s * 128
        && ((low + g * 4 + s * 128) as u8) & 0x7C == g * 4
        && ((low + g * 4 + s * 128) as u8) & 0x78 == (g & 0x1E) * 4
        && ((low + g * 4 + s * 128) as u8) & 0x7E == (g * 4) + (low & 2)
        && (((low + g * 4 + s * 128) as u8) >> 2) & 0x1F == g
        && ((low + g * 4 + s * 128) as u8) % 4 == low
        && (((low + g * 4 + s * 128) as u8) >= 128) == (s == 1)
        && ((low + g * 4 + s * 128) as u8) & 2 == low & 2) by (bit_vector)
        requires low < 4 && g < 32 && s <= 1;
}

proof fn lemma_finite_head(e_top: u8, msd: u8)
    requires
        e_top < 3,
        msd <= 9,
    ensures
        msd < 8 ==> ((e_top * 8 + msd) as u8) & 0x1E != 0x1E && ((e_top * 8 + msd) as u8) < 24
            && ((e_top * 8 + msd) as u8) / 8 == e_top && ((e_top * 8 + msd) as u8) % 8 == msd,
        msd >= 8 ==> ((24 + e_top * 2 + msd % 2) as u8) & 0x1E != 0x1E && ((24 + e_top * 2 + msd % 2) as u8) >= 24
            && (((24 + e_top * 2 + msd % 2) as u8) / 2) % 4 == e_top
            && 8 + ((24 + e_top * 2 + msd % 2) as u8) % 2 == msd,
{
    assert((msd < 8 ==> ((e_top * 8 + msd) as u8) & 0x1E != 0x1E && ((e_top * 8 + msd) as u8) < 24
            && ((e_top * 8 + msd) as u8) / 8 == e_top && ((e_top * 8 + msd) as u8) % 8 == msd)
        && (msd >= 8 ==> ((24 + e_top * 2 + msd % 2) as u8) & 0x1E != 0x1E && ((24 + e_top * 2 + msd % 2) as u8) >= 24
            && (((24 + e_top * 2 + msd % 2) as u8) / 2) % 4 == e_top
            && 8 + ((24 + e_top * 2 + msd % 2) as u8) % 2 == msd)) by (bit_vector)
        requires e_top < 3 && msd <= 9;
}

/// `digits` right-aligned in `len` places, zeros before.
pub open spec fn padded(digits: Seq<u8>, len: nat) -> Seq<u8> {
    Seq::new(len, |k: int| if k < len - digits.len() { 0u8 } else { digits[k - (len - digits.len())] })
}

/// Bits `start ..< start + count` of `b` hold the low `count` bits of `value`.
pub open spec fn field_holds(b: Seq<u8>, start: int, count: nat, value: u32) -> bool {
    forall|j: int| 0 <= j < count ==> #[trigger] bit_at(b, start + j) as u32 == word_bit(value, j)
}

/// Of `n` declets, the `j`-th from the most significant holds the digits
/// `ds[first + 3 * j ..< first + 3 * j + 3]`.
pub open spec fn declet_holds(b: Seq<u8>, n: nat, j: int, ds: Seq<u8>, first: int) -> bool {
    field_holds(
        b,
        (n - 1 - j) * 10,
        10,
        declet_of(ds[first + 3 * j] as u16, ds[first + 3 * j + 1] as u16, ds[first + 3 * j + 2] as u16) as u32,
    )
}

/// The trailing significand of `n` declets holds `ds[first ..< first + 3 * n]`.
pub open spec fn declets_hold(b: Seq<u8>, n: nat, ds: Seq<u8>, first: int) -> bool {
    forall|j: int| 0 <= j < n ==> #[trigger] declet_holds(b, n, j, ds, first)
}

/// The head of the combination field of a finite value: its most significant
/// digit and the top two bits of its biased exponent.
pub open spec fn finite_head(msd: u8, e_top: u8) -> u8 {
    if msd < 8 {
        (e_top * 8 + msd) as u8
    } else {
        (24 + e_top * 2 + msd % 2) as u8
    }
}

/// The sign bit and the five-bit head of the combination field.
pub open spec fn head_holds(b: Seq<u8>, negative: bool, head: u8) -> bool {
    &&& (top_byte(b) >> 2) & 0x1F == head
    &&& (top_byte(b) >= 128) == negative
}

/// `b` is the encoding, in its own width, of the value with these parts.
/// A finite value's significand is padded to the format's precision: its
/// first digit goes to the combination field, the rest to the declets; the
/// biased exponent is split between the head and the continuation bits. A
/// NaN's payload fills the declets; the bit after the head marks a signaling NaN.
pub open spec fn encodes(b: Seq<u8>, negative: bool, kind: Kind, digits: Seq<u8>, exponent: int) -> bool {
    let w = b.len();
    &&& valid_width(w)
    &&& match kind {
        Kind::Finite => {
            let p = padded(digits, precision(w));
            let e = exponent + bias(w);
            let m = pow2(exp_cont_bits(w)) as int;
            &&& digits.len() <= precision(w)
            &&& 0 <= e <= max_biased(w)
            &&& head_holds(b, negative, finite_head(p[0], (e / m) as u8))
            &&& field_holds(b, trailing_bits(w) as int, exp_cont_bits(w), (e % m) as u32)
            &&& declets_hold(b, declets(w), p, 1)
        },
        Kind::Infinity => head_holds(b, negative, 30),
        _ => {
            &&& digits.len() + 1 <= precision(w)
            &&& head_holds(b, negative, 31)
            &&& (top_byte(b) & 2 == 2) == (kind == Kind::SignalingNan)
            &&& declets_hold(b, declets(w), padded(digits, (3 * declets(w)) as nat), 0)
        },
    }
}

proof fn lemma_field_frame(b1: Seq<u8>, b2: Seq<u8>, start: int, count: nat, value: u32)
    requires
        field_holds(b1, start, count, value),
        forall|i: int| start <= i < start + count ==> #[trigger] bit_at(b2, i) == bit_at(b1, i),
    ensures
        field_holds(b2, start, count, value),
{
    assert forall|j: int| 0 <= j < count implies #[trigger] bit_at(b2, start + j) as u32 == word_bit(value, j) by {
        assert(bit_at(b2, start + j) == bit_at(b1, start + j));
    }
}

proof fn lemma_declets_frame(b1: Seq<u8>, b2: Seq<u8>, n: nat, ds: Seq<u8>, first: int)
    requires
        declets_hold(b1, n, ds, first),
        forall|i: int| 0 <= i < 10 * n ==> #[trigger] bit_at(b2, i) == bit_at(b1, i),
    ensures
        declets_hold(b2, n, ds, first),
{
    assert forall|j: int| 0 <= j < n implies #[trigger] declet_holds(b2, n, j, ds, first) by {
        assert(declet_holds(b1, n, j, ds, first));
        let s0 = (n - 1 - j) * 10;
        assert forall|i: int| s0 <= i < s0 + 10 implies #[trigger] bit_at(b2, i) == bit_at(b1, i) by {
            assert(0 <= i < 10 * n);
        }
        lemma_field_frame(b1, b2, s0, 10, declet_of(ds[first + 3 * j] as u16, ds[first + 3 * j + 1] as u16, ds[first + 3 * j + 2] as u16) as u32);
    }
}

/// Setting the top byte leaves every bit below it; with its two low bits
/// kept, every bit below its six high bits.
proof fn lemma_top_frame(b1: Seq<u8>, b2: Seq<u8>)
    requires
        b1.len() == b2.len() > 0,
        b2 == b1.update(b1.len() - 1, b2[b2.len() - 1]),
    ensures
        forall|i: int| 0 <= i < 8 * b1.len() - 8 ==> #[trigger] bit_at(b2, i) == bit_at(b1, i),
        b2[b2.len() - 1] % 4 == b1[b1.len() - 1] % 4 ==>
            forall|i: int| 0 <= i < 8 * b1.len() - 6 ==> #[trigger] bit_at(b2, i) == bit_at(b1, i),
{
    if b2[b2.len() - 1] % 4 == b1[b1.len() - 1] % 4 {
        assert forall|i: int| 0 <= i < 8 * b1.len() - 6 implies #[trigger] bit_at(b2, i) == bit_at(b1, i) by {
            if i / 8 == b1.len() - 1 {
                lemma_low_two_bits(b2[b2.len() - 1], b1[b1.len() - 1], (i % 8) as u8);
            }
        }
    }
}

/// The digit at position `k` of `digits` right-aligned in `len` places.
fn padded_digit(digits: &Vec<u8>, len: usize, k: usize) -> (r: u8)
    requires
        digits@.len() <= len,
        k < len,
        forall|i: int| 0 <= i < digits@.len() ==> #[trigger] digits@[i] <= 9,
    ensures
        r <= 9,
        r == padded(digits@, len as nat)[k as int],
{
    let lead = len - digits.len();
    if k < lead {
        0
    } else {
        digits[k - lead]
    }
}

/// Writes `digits`, right-aligned in `3 * f.declets + skip` places, into the
/// trailing significand, leaving out the first `skip` places.
fn write_declets(buf: &mut Vec<u8>, f: &Format, digits: &Vec<u8>, skip: usize)
    requires
        f.describes(old(buf)@.len()),
        digits@.len() <= 3 * f.declets + skip,
        skip <= 1,
        forall|i: int| 0 <= i < digits@.len() ==> #[trigger] digits@[i] <= 9,
    ensures
        final(buf)@.len() == old(buf)@.len(),
        declets_hold(final(buf)@, f.declets as nat, padded(digits@, (3 * f.declets + skip) as nat), skip as int),
        forall|i: int| f.trailing_bits <= i < 8 * old(buf)@.len() ==> #[trigger] bit_at(final(buf)@, i) == bit_at(old(buf)@, i),
{
    let len = 3 * f.declets + skip;
    let n = f.declets;
    let ghost p = padded(digits@, len as nat);
    let mut j: usize = 0;
    while j < n
        invariant
            f.describes(buf@.len()),
            n == f.declets,
            len == 3 * n + skip,
            p == padded(digits@, len as nat),
            digits@.len() <= len,
            skip <= 1,
            j <= n,
            buf@.len() == old(buf)@.len(),
            forall|i: int| 0 <= i < digits@.len() ==> #[trigger] digits@[i] <= 9,
            forall|jj: int| 0 <= jj < j ==> #[trigger] declet_holds(buf@, n as nat, jj, p, skip as int),
            forall|i: int| 0 <= i < 8 * old(buf)@.len() && !((n - j) * 10 <= i < n * 10)
                ==> #[trigger] bit_at(buf@, i) == bit_at(old(buf)@, i),
        decreases n - j,
    {
        let base = skip + 3 * j;
        let d2 = padded_digit(digits, len, base);
        let d1 = padded_digit(digits, len, base + 1);
        let d0 = padded_digit(digits, len, base + 2);
        let declet = encode_declet(d2, d1, d0);
        let ghost before = buf@;
        let start = (n - 1 - j) * 10;
        write_bits(buf, start, 10, declet as u32);
        proof {
            assert forall|jj: int| 0 <= jj < j + 1 implies #[trigger] declet_holds(buf@, n as nat, jj, p, skip as int) by {
                if jj < j {
                    assert(declet_holds(before, n as nat, jj, p, skip as int));
                    let s0 = (n - 1 - jj) * 10;
                    assert forall|k: int| 0 <= k < 10 implies #[trigger] bit_at(buf@, s0 + k) == bit_at(before, s0 + k) by {
                        assert(!(start <= s0 + k < start + 10));
                    }
                    assert forall|k: int| 0 <= k < 10 implies #[trigger] bit_at(buf@, s0 + k) as u32 == word_bit(
                        declet_of(p[skip + 3 * jj] as u16, p[skip + 3 * jj + 1] as u16, p[skip + 3 * jj + 2] as u16) as u32, k) by {
                        assert(bit_at(buf@, s0 + k) == bit_at(before, s0 + k));
                    }
                }
            }
            assert forall|i: int| 0 <= i < 8 * old(buf)@.len() && !((n - (j + 1)) * 10 <= i < n * 10)
                implies #[trigger] bit_at(buf@, i) == bit_at(old(buf)@, i) by {
                assert(bit_at(buf@, i) == bit_at(before, i));
            }
        }
        j = j + 1;
    }
    proof {
        assert forall|i: int| f.trailing_bits <= i < 8 * old(buf)@.len() implies #[trigger] bit_at(buf@, i) == bit_at(old(buf)@, i) by {
            assert(!((n - j) * 10 <= i < n * 10));
        }
    }
}

/// Digit `i`, counted from the most significant, of a trailing significand
/// of `n` declets: any ten-bit pattern unpacks, canonical or not.
pub open spec fn declet_digit(b: Seq<u8>, n: nat, i: int) -> u8 {
    let t = digits_of_declet((field_value(b, (n - 1 - i / 3) * 10, 10) % 1024) as u16);
    if i % 3 == 0 {
        t.0 as u8
    } else if i % 3 == 1 {
        t.1 as u8
    } else {
        t.2 as u8
    }
}

/// The `3 * n` digits of a trailing significand of `n` declets.
pub open spec fn trailing_digits(b: Seq<u8>, n: nat) -> Seq<u8> {
    Seq::new(3 * n, |i: int| declet_digit(b, n, i))
}

/// The parts that any bitstring of a valid width decodes to.
pub open spec fn decoded_parts(b: Seq<u8>) -> (bool, Kind, Seq<u8>, int) {
    let w = b.len();
    let top = top_byte(b);
    let g = (top >> 2) & 0x1F;
    let negative = top >= 128;
    if g < 30 {
        let e_top: int = if g >= 24 { ((g / 2) % 4) as int } else { (g / 8) as int };
        let msd: u8 = if g >= 24 { (8 + g % 2) as u8 } else { g % 8 };
        let m = pow2(exp_cont_bits(w)) as int;
        let cont = field_value(b, trailing_bits(w) as int, exp_cont_bits(w) as u32) as int;
        (negative, Kind::Finite, without_leading_zeros(seq![msd] + trailing_digits(b, declets(w))),
            e_top * m + cont % m - bias(w))
    } else if g == 30 {
        (negative, Kind::Infinity, Seq::empty(), 0)
    } else {
        (negative, if top & 2 == 2 { Kind::SignalingNan } else { Kind::QuietNan },
            without_leading_zeros(trailing_digits(b, declets(w))), 0)
    }
}

proof fn lemma_read_declet(x: u32, buf: Seq<u8>, n: nat, j: int, ds: Seq<u8>, first: int)
    requires
        declet_holds(buf, n, j, ds, first),
        x < (1u32 << 10u32),
        forall|k: int| 0 <= k < 10 ==> #[trigger] word_bit(x, k) == bit_at(buf, (n - 1 - j) * 10 + k) as u32,
        0 <= first,
        0 <= j,
        first + 3 * j + 2 < ds.len(),
        forall|i: int| 0 <= i < ds.len() ==> #[trigger] ds[i] <= 9,
    ensures
        x < 1024,
        digits_of_declet(x as u16) == (ds[first + 3 * j] as u16, ds[first + 3 * j + 1] as u16, ds[first + 3 * j + 2] as u16),
{
    let (d2, d1, d0) = (ds[first + 3 * j] as u16, ds[first + 3 * j + 1] as u16, ds[first + 3 * j + 2] as u16);
    let decl = declet_of(d2, d1, d0);
    crate::dpd::lemma_declet_range(d2, d1, d0);
    lemma_read_written(x, decl as u32, 10, buf, (n - 1 - j) * 10);
    assert((1u32 << 10u32) == 1024) by (bit_vector);
    lemma_below_is_low(decl as u32, 10);
    lemma_declet_round_trip(d2, d1, d0);
}

/// Reads the trailing significand as `3 * f.declets` digits, most significant first.
fn read_declets(buf: &Vec<u8>, f: &Format, out: &mut Vec<u8>)
    requires
        f.describes(buf@.len()),
        forall|i: int| 0 <= i < old(out)@.len() ==> #[trigger] old(out)@[i] <= 9,
    ensures
        final(out)@.len() == old(out)@.len() + 3 * f.declets,
        forall|i: int| 0 <= i < final(out)@.len() ==> #[trigger] final(out)@[i] <= 9,
        final(out)@ == old(out)@ + trailing_digits(buf@, f.declets as nat),
        forall|ds: Seq<u8>, first: int|
            #[trigger] declets_hold(buf@, f.declets as nat, ds, first) && 0 <= first
                && first + 3 * f.declets <= ds.len() && (forall|i: int| 0 <= i < ds.len() ==> #[trigger] ds[i] <= 9)
                ==> final(out)@ == old(out)@ + ds.subrange(first, first + 3 * f.declets),
{
    let n = f.declets;
    let mut j: usize = 0;
    while j < n
        invariant
            f.describes(buf@.len()),
            n == f.declets,
            j <= n,
            out@.len() == old(out)@.len() + 3 * j,
            forall|i: int| 0 <= i < out@.len() ==> #[trigger] out@[i] <= 9,
            out@ == old(out)@ + trailing_digits(buf@, n as nat).subrange(0, 3 * j),
            forall|ds: Seq<u8>, first: int|
                #[trigger] declets_hold(buf@, n as nat, ds, first) && 0 <= first
                    && first + 3 * n <= ds.len() && (forall|i: int| 0 <= i < ds.len() ==> #[trigger] ds[i] <= 9)
                    ==> out@ == old(out)@ + ds.subrange(first, first + 3 * j),
        decreases n - j,
    {
        let x = read_bits(buf, (n - 1 - j) * 10, 10);
        let ghost before = out@;
        assert((1u32 << 10u32) == 1024) by (bit_vector);
        let (d2, d1, d0) = decode_declet((x % 1024) as u16);
        out.push(d2);
        out.push(d1);
        out.push(d0);
        proof {
            let td = trailing_digits(buf@, n as nat);
            assert((3 * j) / 3 == j && (3 * j + 1) / 3 == j && (3 * j + 2) / 3 == j);
            assert((3 * j) % 3 == 0 && (3 * j + 1) % 3 == 1 && (3 * j + 2) % 3 == 2);
            assert(td[3 * j] == d2 && td[3 * j + 1] == d1 && td[3 * j + 2] == d0);
            assert(td.subrange(0, 3 * (j + 1)) =~= td.subrange(0, 3 * j) + seq![d2, d1, d0]);
        }
        proof {
            assert forall|ds: Seq<u8>, first: int|
                #[trigger] declets_hold(buf@, n as nat, ds, first) && 0 <= first
                    && first + 3 * n <= ds.len() && (forall|i: int| 0 <= i < ds.len() ==> #[trigger] ds[i] <= 9)
                implies out@ == old(out)@ + ds.subrange(first, first + 3 * (j + 1)) by {
                assert(declet_holds(buf@, n as nat, j as int, ds, first));
                lemma_read_declet(x, buf@, n as nat, j as int, ds, first);
                assert(before == old(out)@ + ds.subrange(first, first + 3 * j));
                assert(out@ =~= old(out)@ + ds.subrange(first, first + 3 * (j + 1)));
            }
        }
        j = j + 1;
    }
}

/// Stripping the zeros that pad canonical digits gives the digits back.
proof fn lemma_strip_padded(ds: Seq<u8>, len: nat, r: Seq<u8>, k: int)
    requires
        canonical_digits(ds),
        ds.len() <= len,
        canonical_digits(r),
        0 <= k <= len,
        r == padded(ds, len).subrange(k, len as int),
        forall|i: int| 0 <= i < k ==> #[trigger] padded(ds, len)[i] == 0,
    ensures
        r == ds,
{
    let p = padded(ds, len);
    let lead = len - ds.len();
    if k < lead {
        assert(r[0] == p[k]);
    } else if k > lead {
        assert(p[lead] == ds[0]);
    }
    if ds.len() == 0 && k < len {
        assert(r[0] == p[k]);
    }
    assert(r =~= ds);
}

/// A digit sequence without its leading zeros.
pub open spec fn without_leading_zeros(s: Seq<u8>) -> Seq<u8>
    decreases s.len(),
{
    if s.len() > 0 && s[0] == 0 {
        without_leading_zeros(s.drop_first())
    } else {
        s
    }
}

proof fn lemma_without_leading_zeros(v: Seq<u8>, r: Seq<u8>, k: int)
    requires
        0 <= k <= v.len(),
        r == v.subrange(k, v.len() as int),
        forall|i: int| 0 <= i < k ==> #[trigger] v[i] == 0,
        r.len() > 0 ==> r[0] != 0,
    ensures
        r == without_leading_zeros(v),
    decreases k,
{
    if k > 0 {
        assert(v[0] == 0);
        let t = v.drop_first();
        assert(r == t.subrange(k - 1, t.len() as int));
        assert forall|i: int| 0 <= i < k - 1 implies #[trigger] t[i] == 0 by {
            assert(t[i] == v[i + 1]);
        }
        lemma_without_leading_zeros(t, r, k - 1);
    } else {
        assert(r =~= v);
    }
}

/// Drops the leading zeros of a digit sequence.
pub fn strip_leading_zeros(v: &Vec<u8>) -> (r: Vec<u8>)
    requires
        forall|i: int| 0 <= i < v@.len() ==> #[trigger] v@[i] <= 9,
    ensures
        canonical_digits(r@),
        exists|k: int| 0 <= k <= v@.len() && r@ == v@.subrange(k, v@.len() as int)
            && forall|i: int| 0 <= i < k ==> #[trigger] v@[i] == 0,
        r@ == without_leading_zeros(v@),
{
    let mut k: usize = 0;
    while k < v.len() && v[k] == 0
        invariant
            k <= v@.len(),
            forall|i: int| 0 <= i < k ==> #[trigger] v@[i] == 0,
        decreases v@.len() - k,
    {
        k = k + 1;
    }
    let mut r: Vec<u8> = Vec::new();
    let mut i: usize = k;
    while i < v.len()
        invariant
            k <= i <= v@.len(),
            r@ == v@.subrange(k as int, i as int),
        decreases v@.len() - i,
    {
        r.push(v[i]);
        i = i + 1;
    }
    proof {
        lemma_without_leading_zeros(v@, r@, k as int);
    }
    r
}

/// Encodes a value in a width that holds it.
pub fn encode_in(d: &Decimal, w: usize) -> (r: Vec<u8>)
    requires
        d.wf(),
        encodable_in(*d, w as nat),
    ensures
        r@.len() == w,
        kind_of(r@) == d.kind,
        spec_negative(r@) == d.negative,
        encodes(r@, d.negative, d.kind, d.digits@, d.exponent as int),
{
    let sign: u8 = if d.negative { 1 } else { 0 };
    match d.kind {
        Kind::Finite => {
            let f = format_of(w);
            let mut buf: Vec<u8> = vec![0u8; w];
            write_declets(&mut buf, &f, &d.digits, 1);
            let ghost buf1 = buf@;
            let biased = (d.exponent + f.bias as i64) as u32;
            write_bits(&mut buf, f.trailing_bits, f.exp_cont_bits, biased % f.cont_modulus);
            let ghost buf2 = buf@;
            proof {
                lemma_declets_frame(buf1, buf2, f.declets as nat, padded(d.digits@, f.precision as nat), 1);
            }
            let e_top = biased / f.cont_modulus;
            assert(e_top < 3) by (nonlinear_arith)
                requires biased <= f.max_biased, f.max_biased < f.cont_modulus * 3, e_top == biased / f.cont_modulus, f.cont_modulus > 0;
            let msd = padded_digit(&d.digits, f.precision, 0);
            let g: u8 = if msd < 8 {
                (e_top as u8) * 8 + msd
            } else {
                24 + (e_top as u8) * 2 + msd % 2
            };
            proof {
                lemma_finite_head(e_top as u8, msd);
            }
            let low = buf[w - 1] % 4;
            proof {
                lemma_top_fields(low, g, sign);
            }
            buf.set(w - 1, low + g * 4 + sign * 128);
            proof {
                lemma_top_frame(buf2, buf@);
                lemma_declets_frame(buf2, buf@, f.declets as nat, padded(d.digits@, f.precision as nat), 1);
                assert forall|i: int| f.trailing_bits <= i < f.trailing_bits + f.exp_cont_bits
                    implies #[trigger] bit_at(buf@, i) == bit_at(buf2, i) by {}
                lemma_field_frame(buf2, buf@, f.trailing_bits as int, f.exp_cont_bits as nat, biased % f.cont_modulus);
                assert(encodes(buf@, d.negative, d.kind, d.digits@, d.exponent as int));
            }
            buf
        },
        Kind::Infinity => {
            let mut buf: Vec<u8> = vec![0u8; w];
            proof {
                lemma_top_fields(0, 30, sign);
                assert(30u8 & 0x1E == 30) by (bit_vector);
            }
            buf.set(w - 1, 0 + 30 * 4 + sign * 128);
            buf
        },
        _ => {
            let f = format_of(w);
            let mut buf: Vec<u8> = vec![0u8; w];
            write_declets(&mut buf, &f, &d.digits, 0);
            let ghost buf1 = buf@;
            let low: u8 = if d.kind == Kind::SignalingNan { 2 } else { 0 };
            proof {
                lemma_top_fields(low, 31, sign);
                assert(31u8 & 0x1E == 30) by (bit_vector);
                assert(low & 2 == low) by (bit_vector) requires low == 0 || low == 2;
            }
            buf.set(w - 1, low + 31 * 4 + sign * 128);
            proof {
                lemma_top_frame(buf1, buf@);
                lemma_declets_frame(buf1, buf@, f.declets as nat, padded(d.digits@, (3 * f.declets) as nat), 0);
            }
            buf
        },
    }
}

/// Encodes a value in the narrowest width that holds it.
pub fn encode(d: &Decimal) -> (r: Result<Vec<u8>, Error>)
    requires
        d.wf(),
    ensures
        r is Ok <==> exists|w: nat| encodable_in(*d, w),
        r matches Ok(b) ==> chosen_width(*d, b@.len()),
        r matches Ok(b) ==> kind_of(b@) == d.kind,
        r matches Ok(b) ==> spec_negative(b@) == d.negative,
        r matches Ok(b) ==> encodes(b@, d.negative, d.kind, d.digits@, d.exponent as int),
        r matches Err(e) ==> e == (if d.kind == Kind::Finite && d.digits@.len() <= precision(MAX_WIDTH as nat) {
            Error::ExponentOverflow
        } else {
            Error::DigitOverflow
        }),
{
    let w = match d.kind {
        Kind::Finite => match select_width(d.digits.len(), d.exponent) {
            Some(w) => w,
            None => {
                return if d.digits.len() > 43 {
                    Err(Error::DigitOverflow)
                } else {
                    Err(Error::ExponentOverflow)
                };
            },
        },
        Kind::Infinity => 4,
        _ => match select_payload_width(d.digits.len()) {
            Some(w) => w,
            None => {
                return Err(Error::DigitOverflow);
            },
        },
    };
    assert(chosen_width(*d, w as nat));
    assert(encodable_in(*d, w as nat));
    Ok(encode_in(d, w))
}

proof fn lemma_head_of_top(top: u8, g: u8)
    requires
        g == (top >> 2) & 0x1F,
    ensures
        (top & 0x80 == 0x80) == (top >= 128),
        (top & 0x78 != 0x78) == (g < 30),
        (top & 0x7C == 0x78) == (g == 30),
        (top & 0x7E == 0x7C) == (g == 31 && top & 2 == 0),
        (top & 0x7E == 0x7E) == (g == 31 && top & 2 == 2),
        g < 32,
        top & 2 == 0 || top & 2 == 2,
{
    assert((top & 0x80 == 0x80) == (top >= 128)
        && (top & 0x78 != 0x78) == (g < 30)
        && (top & 0x7C == 0x78) == (g == 30)
        && (top & 0x7E == 0x7C) == (g == 31 && top & 2 == 0)
        && (top & 0x7E == 0x7E) == (g == 31 && top & 2 == 2)
        && g < 32
        && (top & 2 == 0 || top & 2 == 2)) by (bit_vector)
        requires g == (top >> 2) & 0x1F;
}

/// What decoding an encoding gives back: the parts that were encoded.
pub open spec fn decodes_to(r: Decimal, negative: bool, kind: Kind, digits: Seq<u8>, exponent: int) -> bool {
    &&& r.negative == negative
    &&& r.kind == kind
    &&& (kind != Kind::Infinity ==> r.digits@ == digits)
    &&& (kind == Kind::Finite ==> r.exponent == exponent)
}

/// The head of the combination field tells the kinds apart.
proof fn lemma_head_of_kind(b: Seq<u8>, neg: bool, kind: Kind, ds: Seq<u8>, q: int)
    requires
        encodes(b, neg, kind, ds, q),
        canonical_digits(ds),
    ensures
        kind == Kind::Finite ==> (top_byte(b) >> 2) & 0x1F < 30,
        kind == Kind::Infinity ==> (top_byte(b) >> 2) & 0x1F == 30,
        (kind == Kind::QuietNan || kind == Kind::SignalingNan) ==> (top_byte(b) >> 2) & 0x1F == 31,
{
    if kind == Kind::Finite {
        let w = b.len();
        let p = padded(ds, precision(w));
        let e = q + bias(w);
        let m = pow2(exp_cont_bits(w)) as int;
        vstd::arithmetic::power2::lemma2_to64();
        assert(w == 4 || w == 8 || w == 12 || w == 16 || w == 20);
        assert(max_biased(w) < m * 3);
        assert(e / m < 3) by (nonlinear_arith)
            requires 0 <= e <= max_biased(w), max_biased(w) < m * 3, m > 0;
        assert(p[0] <= 9);
        assert(finite_head(p[0], (e / m) as u8) < 30);
    }
}

/// Decodes a finite value whose combination-field head is `g`.
#[verifier::rlimit(40)]
fn decode_finite(b: &Vec<u8>, f: &Format, g: u8, negative: bool) -> (r: Decimal)
    requires
        f.describes(b@.len()),
        g == (top_byte(b@) >> 2) & 0x1F,
        g < 30,
        negative == (top_byte(b@) >= 128),
    ensures
        r.wf(),
        r.kind == Kind::Finite,
        r.negative == negative,
        r.digits@.len() <= precision(b@.len()),
        -100000 <= r.exponent <= 100000,
        (r.negative, r.kind, r.digits@, r.exponent as int) == decoded_parts(b@),
        forall|neg: bool, kind: Kind, ds: Seq<u8>, q: int|
            #[trigger] encodes(b@, neg, kind, ds, q) && canonical_digits(ds) ==> decodes_to(r, neg, kind, ds, q),
{
    let (e_top, msd): (u8, u8) = if g >= 24 {
        ((g / 2) % 4, 8 + g % 2)
    } else {
        (g / 8, g % 8)
    };
    let cont = read_bits(b, f.trailing_bits, f.exp_cont_bits);
    assert(e_top as i64 * f.cont_modulus as i64 <= 4 * 16384) by (nonlinear_arith)
        requires e_top <= 4, f.cont_modulus <= 16384;
    let biased: i64 = e_top as i64 * f.cont_modulus as i64 + (cont % f.cont_modulus) as i64;
    let mut all: Vec<u8> = Vec::new();
    all.push(msd);
    let ghost first = all@;
    read_declets(b, f, &mut all);
    let digits = strip_leading_zeros(&all);
    let r = Decimal { negative, kind: Kind::Finite, digits, exponent: biased - f.bias as i64 };
    proof {
        assert(all@ =~= seq![msd] + trailing_digits(b@, f.declets as nat));
    }
    proof {
        let w = b@.len();
        assert((1u32 << 6u32) == 64 && (1u32 << 8u32) == 256 && (1u32 << 10u32) == 1024
            && (1u32 << 12u32) == 4096 && (1u32 << 14u32) == 16384) by (bit_vector);
        vstd::arithmetic::power2::lemma2_to64();
        assert(w == 4 || w == 8 || w == 12 || w == 16 || w == 20);
        assert(f.cont_modulus == (1u32 << f.exp_cont_bits as u32));
        assert forall|neg: bool, kind: Kind, ds: Seq<u8>, q: int|
            #[trigger] encodes(b@, neg, kind, ds, q) && canonical_digits(ds) implies decodes_to(r, neg, kind, ds, q) by {
            lemma_head_of_kind(b@, neg, kind, ds, q);
            assert(kind == Kind::Finite);
            let p = padded(ds, f.precision as nat);
            let e = q + f.bias;
            let m = f.cont_modulus as int;
            assert(e / m < 3) by (nonlinear_arith)
                requires 0 <= e <= f.max_biased, f.max_biased < m * 3, m > 0;
            assert(p[0] <= 9);
            lemma_finite_head((e / m) as u8, p[0]);
            assert(e_top as int == e / m && msd == p[0]);
            lemma_read_written(cont, (e % m) as u32, f.exp_cont_bits as u32, b@, f.trailing_bits as int);
            assert(e % m < m) by (nonlinear_arith) requires m > 0;
            lemma_below_is_low((e % m) as u32, f.exp_cont_bits as u32);
            assert(cont as int == e % m);
            assert(cont % f.cont_modulus == cont) by (nonlinear_arith)
                requires cont < f.cont_modulus;
            assert(e == (e / m) * m + e % m) by (nonlinear_arith) requires m > 0;
            assert(biased == e);
            assert forall|i: int| 0 <= i < p.len() implies #[trigger] p[i] <= 9 by {}
            assert(all@ == first + p.subrange(1, 1 + 3 * f.declets));
            assert(all@ =~= p);
            let k = choose|k: int| 0 <= k <= all@.len() && digits@ == all@.subrange(k, all@.len() as int)
                && forall|i: int| 0 <= i < k ==> #[trigger] all@[i] == 0;
            lemma_strip_padded(ds, f.precision as nat, digits@, k);
        }
    }
    r
}

/// Decodes a NaN: its payload and whether it signals.
fn decode_nan(b: &Vec<u8>, f: &Format, negative: bool) -> (r: Decimal)
    requires
        f.describes(b@.len()),
        (top_byte(b@) >> 2) & 0x1F == 31,
        negative == (top_byte(b@) >= 128),
        top_byte(b@) & 2 == 0 || top_byte(b@) & 2 == 2,
    ensures
        r.wf(),
        r.kind == (if top_byte(b@) & 2 == 2 { Kind::SignalingNan } else { Kind::QuietNan }),
        r.negative == negative,
        r.digits@.len() <= precision(b@.len()),
        r.exponent == 0,
        (r.negative, r.kind, r.digits@, r.exponent as int) == decoded_parts(b@),
        forall|neg: bool, kind: Kind, ds: Seq<u8>, q: int|
            #[trigger] encodes(b@, neg, kind, ds, q) && canonical_digits(ds) ==> decodes_to(r, neg, kind, ds, q),
{
    let mut all: Vec<u8> = Vec::new();
    read_declets(b, f, &mut all);
    let digits = strip_leading_zeros(&all);
    let kind = if b[b.len() - 1] & 2 == 2 { Kind::SignalingNan } else { Kind::QuietNan };
    let r = Decimal { negative, kind, digits, exponent: 0 };
    assert(all@ =~= trailing_digits(b@, f.declets as nat));
    proof {
        assert forall|neg: bool, kind: Kind, ds: Seq<u8>, q: int|
            #[trigger] encodes(b@, neg, kind, ds, q) && canonical_digits(ds) implies decodes_to(r, neg, kind, ds, q) by {
            lemma_head_of_kind(b@, neg, kind, ds, q);
            assert(kind == Kind::QuietNan || kind == Kind::SignalingNan);
            let len = (3 * f.declets) as nat;
            let p = padded(ds, len);
            assert forall|i: int| 0 <= i < p.len() implies #[trigger] p[i] <= 9 by {}
            assert(all@ =~= p);
            let k = choose|k: int| 0 <= k <= all@.len() && digits@ == all@.subrange(k, all@.len() as int)
                && forall|i: int| 0 <= i < k ==> #[trigger] all@[i] == 0;
            lemma_strip_padded(ds, len, digits@, k);
        }
    }
    r
}

/// Reads the parts of a value back from its encoding. Every bit pattern
/// decodes, non-canonical declets included; an encoding of canonical parts
/// decodes to exactly those parts.
pub fn decode(b: &Vec<u8>) -> (r: Decimal)
    requires
        valid_width(b@.len()),
    ensures
        r.wf(),
        r.kind == kind_of(b@),
        r.negative == spec_negative(b@),
        r.digits@.len() <= precision(b@.len()),
        r.kind == Kind::Infinity ==> r.digits@.len() == 0,
        -100000 <= r.exponent <= 100000,
        (r.negative, r.kind, r.digits@, r.exponent as int) == decoded_parts(b@),
        forall|neg: bool, kind: Kind, ds: Seq<u8>, q: int|
            #[trigger] encodes(b@, neg, kind, ds, q) && canonical_digits(ds) ==> decodes_to(r, neg, kind, ds, q),
{
    let w = b.len();
    let f = format_of(w);
    let top = b[w - 1];
    let g: u8 = (top >> 2) & 0x1F;
    proof {
        lemma_head_of_top(top, g);
    }
    let negative = top >= 128;
    if g < 30 {
        decode_finite(b, &f, g, negative)
    } else if g == 30 {
        let r = Decimal { negative, kind: Kind::Infinity, digits: Vec::new(), exponent: 0 };
        assert(r.digits@ =~= Seq::<u8>::empty());
        proof {
            assert forall|neg: bool, kind: Kind, ds: Seq<u8>, q: int|
                #[trigger] encodes(b@, neg, kind, ds, q) && canonical_digits(ds) implies decodes_to(r, neg, kind, ds, q) by {
                lemma_head_of_kind(b@, neg, kind, ds, q);
            }
        }
        r
    } else {
        decode_nan(b, &f, negative)
    }
}

} // verus!
