//! Decimals of a width known in advance: decimal32 and decimal64.
use vstd::prelude::*;
use crate::bitstring::{encodes_integer, reads_integer, Bitstring};
use crate::codec::{canonical_digits, encode_in, encodable_in, encodes, Decimal, Kind};
use crate::integer::{decimal_of_integer, digits_value, lemma_digits_lower, lemma_pow10_ge, pow10_int};
use vstd::arithmetic::power2::lemma2_to64;

verus! {

/// A 32-bit decimal, little-endian.
#[derive(Clone, Copy, Debug)]
pub struct Bitstring32 {
    bytes: [u8; 4],
}

/// A 64-bit decimal, little-endian.
#[derive(Clone, Copy, Debug)]
pub struct Bitstring64 {
    bytes: [u8; 8],
}

impl View for Bitstring32 {
    type V = Seq<u8>;

    closed spec fn view(&self) -> Seq<u8> {
        self.bytes@
    }
}

impl View for Bitstring64 {
    type V = Seq<u8>;

    closed spec fn view(&self) -> Seq<u8> {
        self.bytes@
    }
}

/// A byte array as a growable buffer.
fn bytes_to_vec(b: &[u8]) -> (r: Vec<u8>)
    ensures
        r@ == b@,
{
    let mut v: Vec<u8> = Vec::new();
    let mut i: usize = 0;
    while i < b.len()
        invariant
            i <= b@.len(),
            v@ == b@.subrange(0, i as int),
        decreases b@.len() - i,
    {
        v.push(b[i]);
        i = i + 1;
    }
    assert(v@ == b@);
    v
}

/// A whole number with exponent zero, encoded in `w` bytes; its magnitude
/// has at most 7 digits for 4 bytes and 16 for 8.
fn integer_at(negative: bool, magnitude: u128, w: usize) -> (r: Vec<u8>)
    requires
        w == 4 || w == 8,
        w == 4 ==> magnitude < 10000000,
        w == 8 ==> magnitude < 10000000000000000,
    ensures
        r@.len() == w,
        exists|s: Seq<u8>| canonical_digits(s) && #[trigger] digits_value(s) == magnitude
            && encodes(r@, negative, Kind::Finite, s, 0),
{
    let d = decimal_of_integer(negative, magnitude);
    proof {
        lemma2_to64();
        reveal_with_fuel(pow10_int, 17);
        let n = d.digits@.len();
        let p: nat = if w == 4 { 7 } else { 16 };
        assert(pow10_int(7) == 10000000 && pow10_int(16) == 10000000000000000);
        if n > p {
            lemma_digits_lower(d.digits@);
            lemma_pow10_ge((n - 1) as nat, p);
        }
        assert(encodable_in(d, w as nat));
    }
    encode_in(&d, w)
}

/// `n` nines.
fn nines(n: usize) -> (r: Vec<u8>)
    ensures
        r@ == Seq::new(n as nat, |i: int| 9u8),
{
    let mut v: Vec<u8> = Vec::new();
    let mut i: usize = 0;
    while i < n
        invariant
            i <= n,
            v@ == Seq::new(i as nat, |k: int| 9u8),
        decreases n - i,
    {
        v.push(9);
        i = i + 1;
        assert(v@ =~= Seq::new(i as nat, |k: int| 9u8));
    }
    v
}

/// The finite value with significand `digits` and exponent `exponent`, encoded in `w` bytes.
fn finite_at(negative: bool, digits: Vec<u8>, exponent: i64, w: usize) -> (r: Vec<u8>)
    requires
        canonical_digits(digits@),
        encodable_in(Decimal { negative, kind: Kind::Finite, digits, exponent }, w as nat),
    ensures
        r@.len() == w,
        encodes(r@, negative, Kind::Finite, digits@, exponent as int),
{
    let d = Decimal { negative, kind: Kind::Finite, digits, exponent };
    encode_in(&d, w)
}

impl Bitstring32 {
    /// Takes a buffer that is already in little-endian byte order.
    pub fn from_le_bytes(bytes: [u8; 4]) -> (r: Self)
        ensures
            r@ == bytes@,
    {
        Bitstring32 { bytes }
    }

    /// Takes a buffer in big-endian byte order.
    pub fn from_be_bytes(bytes: [u8; 4]) -> (r: Self)
        ensures
            r@ == bytes@.reverse(),
    {
        let r = Bitstring32 { bytes: [bytes[3], bytes[2], bytes[1], bytes[0]] };
        assert(r@ =~= bytes@.reverse());
        r
    }

    /// The buffer, most significant byte first.
    pub fn to_be_bytes(&self) -> (r: [u8; 4])
        ensures
            r@ == self@.reverse(),
    {
        let b = self.bytes;
        let r = [b[3], b[2], b[1], b[0]];
        assert(r@ =~= self@.reverse());
        r
    }

    /// The buffer, least significant byte first, whatever the platform.
    pub fn as_le_bytes(&self) -> (r: &[u8; 4])
        ensures
            r@ == self@,
    {
        &self.bytes
    }

    /// The same bitstring as a decimal of variable width.
    pub fn to_bitstring(&self) -> (r: Bitstring)
        ensures
            r@ == self@,
            r.wf(),
    {
        match Bitstring::try_from_le_bytes(self.bytes.as_slice()) {
            Ok(d) => d,
            Err(_) => {
                proof {
                    assert(false);
                }
                Bitstring::from_u8(0)
            },
        }
    }

    /// Zero: significand 0, exponent 0.
    pub fn zero() -> (r: Self)
        ensures
            encodes(r@, false, Kind::Finite, Seq::<u8>::empty(), 0),
    {
        let digits = Vec::new();
        proof {
            lemma2_to64();
        }
        let v = finite_at(false, digits, 0, 4);
        let r = Bitstring32 { bytes: [v[0], v[1], v[2], v[3]] };
        assert(r@ =~= v@);
        r
    }

    /// The largest finite value, `9999999e90`.
    pub fn max() -> (r: Self)
        ensures
            encodes(r@, false, Kind::Finite, Seq::new(7, |i: int| 9u8), 90),
    {
        let digits = nines(7);
        proof {
            lemma2_to64();
        }
        let v = finite_at(false, digits, 90, 4);
        let r = Bitstring32 { bytes: [v[0], v[1], v[2], v[3]] };
        assert(r@ =~= v@);
        r
    }

    /// The smallest finite value, `-9999999e90`.
    pub fn min() -> (r: Self)
        ensures
            encodes(r@, true, Kind::Finite, Seq::new(7, |i: int| 9u8), 90),
    {
        let digits = nines(7);
        proof {
            lemma2_to64();
        }
        let v = finite_at(true, digits, 90, 4);
        let r = Bitstring32 { bytes: [v[0], v[1], v[2], v[3]] };
        assert(r@ =~= v@);
        r
    }

    /// The smallest positive value, `1e-101`.
    pub fn min_positive() -> (r: Self)
        ensures
            encodes(r@, false, Kind::Finite, seq![1u8], -101),
    {
        let digits = vec![1u8];
        assert(digits@ =~= seq![1u8]);
        proof {
            lemma2_to64();
        }
        let v = finite_at(false, digits, -101, 4);
        let r = Bitstring32 { bytes: [v[0], v[1], v[2], v[3]] };
        assert(r@ =~= v@);
        r
    }
    pub fn from_i8(x: i8) -> (r: Self)
        ensures
            encodes_integer(r@, x as int),
    {
        let v = integer_at(x < 0, if x < 0 { (-(x as i128)) as u128 } else { x as u128 }, 4);
        let r = Bitstring32 { bytes: [v[0], v[1], v[2], v[3]] };
        assert(r@ =~= v@);
        r
    }

    pub fn to_i8(&self) -> (r: Option<i8>)
        ensures
            reads_integer(self@, i8::MIN as int, i8::MAX as int, match r { Some(v) => Some(v as int), None => None }),
    {
        self.to_bitstring().to_i8()
    }

    pub fn from_i16(x: i16) -> (r: Self)
        ensures
            encodes_integer(r@, x as int),
    {
        let v = integer_at(x < 0, if x < 0 { (-(x as i128)) as u128 } else { x as u128 }, 4);
        let r = Bitstring32 { bytes: [v[0], v[1], v[2], v[3]] };
        assert(r@ =~= v@);
        r
    }

    pub fn to_i16(&self) -> (r: Option<i16>)
        ensures
            reads_integer(self@, i16::MIN as int, i16::MAX as int, match r { Some(v) => Some(v as int), None => None }),
    {
        self.to_bitstring().to_i16()
    }

    pub fn to_i32(&self) -> (r: Option<i32>)
        ensures
            reads_integer(self@, i32::MIN as int, i32::MAX as int, match r { Some(v) => Some(v as int), None => None }),
    {
        self.to_bitstring().to_i32()
    }

    pub fn to_i64(&self) -> (r: Option<i64>)
        ensures
            reads_integer(self@, i64::MIN as int, i64::MAX as int, match r { Some(v) => Some(v as int), None => None }),
    {
        self.to_bitstring().to_i64()
    }

    pub fn to_i128(&self) -> (r: Option<i128>)
        ensures
            reads_integer(self@, i128::MIN as int, i128::MAX as int, match r { Some(v) => Some(v as int), None => None }),
    {
        self.to_bitstring().to_i128()
    }

    pub fn from_u8(x: u8) -> (r: Self)
        ensures
            encodes_integer(r@, x as int),
    {
        let v = integer_at(false, x as u128, 4);
        let r = Bitstring32 { bytes: [v[0], v[1], v[2], v[3]] };
        assert(r@ =~= v@);
        r
    }

    pub fn to_u8(&self) -> (r: Option<u8>)
        ensures
            reads_integer(self@, u8::MIN as int, u8::MAX as int, match r { Some(v) => Some(v as int), None => None }),
    {
        self.to_bitstring().to_u8()
    }

    pub fn from_u16(x: u16) -> (r: Self)
        ensures
            encodes_integer(r@, x as int),
    {
        let v = integer_at(false, x as u128, 4);
        let r = Bitstring32 { bytes: [v[0], v[1], v[2], v[3]] };
        assert(r@ =~= v@);
        r
    }

    pub fn to_u16(&self) -> (r: Option<u16>)
        ensures
            reads_integer(self@, u16::MIN as int, u16::MAX as int, match r { Some(v) => Some(v as int), None => None }),
    {
        self.to_bitstring().to_u16()
    }

    pub fn to_u32(&self) -> (r: Option<u32>)
        ensures
            reads_integer(self@, u32::MIN as int, u32::MAX as int, match r { Some(v) => Some(v as int), None => None }),
    {
        self.to_bitstring().to_u32()
    }

    pub fn to_u64(&self) -> (r: Option<u64>)
        ensures
            reads_integer(self@, u64::MIN as int, u64::MAX as int, match r { Some(v) => Some(v as int), None => None }),
    {
        self.to_bitstring().to_u64()
    }

    pub fn to_u128(&self) -> (r: Option<u128>)
        ensures
            reads_integer(self@, u128::MIN as int, u128::MAX as int, match r { Some(v) => Some(v as int), None => None }),
    {
        self.to_bitstring().to_u128()
    }

}

impl Bitstring64 {
    /// Takes a buffer in little-endian byte order.
    pub fn from_le_bytes(bytes: [u8; 8]) -> (r: Self)
        ensures
            r@ == bytes@,
    {
        Bitstring64 { bytes }
    }

    /// Takes a buffer in big-endian byte order.
    pub fn from_be_bytes(bytes: [u8; 8]) -> (r: Self)
        ensures
            r@ == bytes@.reverse(),
    {
        let r = Bitstring64 {
            bytes: [bytes[7], bytes[6], bytes[5], bytes[4], bytes[3], bytes[2], bytes[1], bytes[0]],
        };
        assert(r@ =~= bytes@.reverse());
        r
    }

    /// The buffer, least significant byte first, whatever the platform.
    pub fn as_le_bytes(&self) -> (r: [u8; 8])
        ensures
            r@ == self@,
    {
        self.bytes
    }

    /// The buffer, most significant byte first.
    pub fn to_be_bytes(&self) -> (r: [u8; 8])
        ensures
            r@ == self@.reverse(),
    {
        let b = self.bytes;
        let r = [b[7], b[6], b[5], b[4], b[3], b[2], b[1], b[0]];
        assert(r@ =~= self@.reverse());
        r
    }

    /// The same bitstring as a decimal of variable width.
    pub fn to_bitstring(&self) -> (r: Bitstring)
        ensures
            r@ == self@,
            r.wf(),
    {
        match Bitstring::try_from_le_bytes(self.bytes.as_slice()) {
            Ok(d) => d,
            Err(_) => {
                proof {
                    assert(false);
                }
                Bitstring::from_u8(0)
            },
        }
    }

    /// Zero: significand 0, exponent 0.
    pub fn zero() -> (r: Self)
        ensures
            encodes(r@, false, Kind::Finite, Seq::<u8>::empty(), 0),
    {
        let digits = Vec::new();
        proof {
            lemma2_to64();
        }
        let v = finite_at(false, digits, 0, 8);
        let r = Bitstring64 { bytes: [v[0], v[1], v[2], v[3], v[4], v[5], v[6], v[7]] };
        assert(r@ =~= v@);
        r
    }

    /// The largest finite value, `9999999999999999e369`.
    pub fn max() -> (r: Self)
        ensures
            encodes(r@, false, Kind::Finite, Seq::new(16, |i: int| 9u8), 369),
    {
        let digits = nines(16);
        proof {
            lemma2_to64();
        }
        let v = finite_at(false, digits, 369, 8);
        let r = Bitstring64 { bytes: [v[0], v[1], v[2], v[3], v[4], v[5], v[6], v[7]] };
        assert(r@ =~= v@);
        r
    }

    /// The smallest finite value, `-9999999999999999e369`.
    pub fn min() -> (r: Self)
        ensures
            encodes(r@, true, Kind::Finite, Seq::new(16, |i: int| 9u8), 369),
    {
        let digits = nines(16);
        proof {
            lemma2_to64();
        }
        let v = finite_at(true, digits, 369, 8);
        let r = Bitstring64 { bytes: [v[0], v[1], v[2], v[3], v[4], v[5], v[6], v[7]] };
        assert(r@ =~= v@);
        r
    }

    /// The smallest positive value, `1e-398`.
    pub fn min_positive() -> (r: Self)
        ensures
            encodes(r@, false, Kind::Finite, seq![1u8], -398),
    {
        let digits = vec![1u8];
        assert(digits@ =~= seq![1u8]);
        proof {
            lemma2_to64();
        }
        let v = finite_at(false, digits, -398, 8);
        let r = Bitstring64 { bytes: [v[0], v[1], v[2], v[3], v[4], v[5], v[6], v[7]] };
        assert(r@ =~= v@);
        r
    }
    pub fn from_i8(x: i8) -> (r: Self)
        ensures
            encodes_integer(r@, x as int),
    {
        let v = integer_at(x < 0, if x < 0 { (-(x as i128)) as u128 } else { x as u128 }, 8);
        let r = Bitstring64 { bytes: [v[0], v[1], v[2], v[3], v[4], v[5], v[6], v[7]] };
        assert(r@ =~= v@);
        r
    }

    pub fn to_i8(&self) -> (r: Option<i8>)
        ensures
            reads_integer(self@, i8::MIN as int, i8::MAX as int, match r { Some(v) => Some(v as int), None => None }),
    {
        self.to_bitstring().to_i8()
    }

    pub fn from_i16(x: i16) -> (r: Self)
        ensures
            encodes_integer(r@, x as int),
    {
        let v = integer_at(x < 0, if x < 0 { (-(x as i128)) as u128 } else { x as u128 }, 8);
        let r = Bitstring64 { bytes: [v[0], v[1], v[2], v[3], v[4], v[5], v[6], v[7]] };
        assert(r@ =~= v@);
        r
    }

    pub fn to_i16(&self) -> (r: Option<i16>)
        ensures
            reads_integer(self@, i16::MIN as int, i16::MAX as int, match r { Some(v) => Some(v as int), None => None }),
    {
        self.to_bitstring().to_i16()
    }

    pub fn from_i32(x: i32) -> (r: Self)
        ensures
            encodes_integer(r@, x as int),
    {
        let v = integer_at(x < 0, if x < 0 { (-(x as i128)) as u128 } else { x as u128 }, 8);
        let r = Bitstring64 { bytes: [v[0], v[1], v[2], v[3], v[4], v[5], v[6], v[7]] };
        assert(r@ =~= v@);
        r
    }

    pub fn to_i32(&self) -> (r: Option<i32>)
        ensures
            reads_integer(self@, i32::MIN as int, i32::MAX as int, match r { Some(v) => Some(v as int), None => None }),
    {
        self.to_bitstring().to_i32()
    }

    pub fn to_i64(&self) -> (r: Option<i64>)
        ensures
            reads_integer(self@, i64::MIN as int, i64::MAX as int, match r { Some(v) => Some(v as int), None => None }),
    {
        self.to_bitstring().to_i64()
    }

    pub fn to_i128(&self) -> (r: Option<i128>)
        ensures
            reads_integer(self@, i128::MIN as int, i128::MAX as int, match r { Some(v) => Some(v as int), None => None }),
    {
        self.to_bitstring().to_i128()
    }

    pub fn from_u8(x: u8) -> (r: Self)
        ensures
            encodes_integer(r@, x as int),
    {
        let v = integer_at(false, x as u128, 8);
        let r = Bitstring64 { bytes: [v[0], v[1], v[2], v[3], v[4], v[5], v[6], v[7]] };
        assert(r@ =~= v@);
        r
    }

    pub fn to_u8(&self) -> (r: Option<u8>)
        ensures
            reads_integer(self@, u8::MIN as int, u8::MAX as int, match r { Some(v) => Some(v as int), None => None }),
    {
        self.to_bitstring().to_u8()
    }

    pub fn from_u16(x: u16) -> (r: Self)
        ensures
            encodes_integer(r@, x as int),
    {
        let v = integer_at(false, x as u128, 8);
        let r = Bitstring64 { bytes: [v[0], v[1], v[2], v[3], v[4], v[5], v[6], v[7]] };
        assert(r@ =~= v@);
        r
    }

    pub fn to_u16(&self) -> (r: Option<u16>)
        ensures
            reads_integer(self@, u16::MIN as int, u16::MAX as int, match r { Some(v) => Some(v as int), None => None }),
    {
        self.to_bitstring().to_u16()
    }

    pub fn from_u32(x: u32) -> (r: Self)
        ensures
            encodes_integer(r@, x as int),
    {
        let v = integer_at(false, x as u128, 8);
        let r = Bitstring64 { bytes: [v[0], v[1], v[2], v[3], v[4], v[5], v[6], v[7]] };
        assert(r@ =~= v@);
        r
    }

    pub fn to_u32(&self) -> (r: Option<u32>)
        ensures
            reads_integer(self@, u32::MIN as int, u32::MAX as int, match r { Some(v) => Some(v as int), None => None }),
    {
        self.to_bitstring().to_u32()
    }

    pub fn to_u64(&self) -> (r: Option<u64>)
        ensures
            reads_integer(self@, u64::MIN as int, u64::MAX as int, match r { Some(v) => Some(v as int), None => None }),
    {
        self.to_bitstring().to_u64()
    }

    pub fn to_u128(&self) -> (r: Option<u128>)
        ensures
            reads_integer(self@, u128::MIN as int, u128::MAX as int, match r { Some(v) => Some(v as int), None => None }),
    {
        self.to_bitstring().to_u128()
    }

}

} // verus!
