//! A decimal of any supported width.
use vstd::prelude::*;
use crate::codec::{
    chosen_width, decode, encode, encodable_in, kind_of, spec_finite, spec_infinite, spec_nan,
    spec_negative, spec_quiet_nan, spec_signaling_nan, top_byte, canonical_digits, decoded_parts, decodes_to, encodes, parts_chosen_width, parts_encodable_in, Decimal, Kind,
};
use crate::error::Error;
use vstd::arithmetic::power2::lemma2_to64;
use vstd::string::StringSliceAdditionalSpecFns;
use crate::integer::{lemma_whole_nonneg, decimal_of_integer, digits_of_u128, digits_to_u128, digits_value, integer_of, whole_magnitude, whole_value};
use crate::layout::{precision, valid_width, MAX_WIDTH};
use crate::text::{format_decimal, literal_parts, parse_decimal, text_of, LiteralParts};

verus! {

/// A decimal bitstring of 4 to `MAX_WIDTH` bytes, a multiple of 4, in
/// little-endian byte order.
#[derive(Clone, Debug)]
pub struct Bitstring {
    bytes: Vec<u8>,
}

impl View for Bitstring {
    type V = Seq<u8>;

    closed spec fn view(&self) -> Seq<u8> {
        self.bytes@
    }
}

/// The width a buffer of `len` bytes would need, rounded up to whole 4-byte blocks.
pub open spec fn needed_width(len: nat) -> nat {
    if len == 0 { 4 } else { ((len + 3) / 4 * 4) as nat }
}

/// What `try_from_le_bytes` returns for a buffer of `len` bytes that is not a decimal.
pub open spec fn byte_count_error(len: nat) -> Error {
    if len > MAX_WIDTH {
        Error::ByteCount { got: MAX_WIDTH, want: len as usize }
    } else {
        Error::ByteCount { got: len as usize, want: needed_width(len) as usize }
    }
}

/// What `try_from_le_bytes` gives for a buffer: the buffer itself where its
/// length is a width, the error that names the width needed otherwise.
pub open spec fn le_bytes_result(b: Seq<u8>) -> Result<Seq<u8>, Error> {
    if valid_width(b.len()) {
        Ok(b)
    } else {
        Err(byte_count_error(b.len()))
    }
}

proof fn lemma_nan_kinds(b: Seq<u8>)
    requires
        b.len() > 0,
    ensures
        (kind_of(b) == Kind::QuietNan || kind_of(b) == Kind::SignalingNan) == spec_nan(b),
        (kind_of(b) == Kind::SignalingNan) == spec_signaling_nan(b),
{
    let t = top_byte(b);
    assert((t & 0x7C == 0x7C) == (!(t & 0x78 != 0x78) && !(t & 0x7C == 0x78))) by (bit_vector);
    assert((t & 0x7E == 0x7E) == (!(t & 0x78 != 0x78) && !(t & 0x7C == 0x78) && !(t & 0x7E == 0x7C)))
        by (bit_vector);
}

/// `b` encodes the whole number `x`: the digits of `|x|`, exponent zero, the sign of `x`.
pub open spec fn encodes_integer(b: Seq<u8>, x: int) -> bool {
    exists|s: Seq<u8>| canonical_digits(s) && #[trigger] digits_value(s) == (if x < 0 { -x } else { x })
        && encodes(b, x < 0, Kind::Finite, s, 0)
}

/// `b` encodes the whole number `x` as `encodes_integer` says, in the narrowest width.
pub open spec fn holds_integer(b: Seq<u8>, x: int) -> bool {
    &&& encodes_integer(b, x)
    &&& exists|s: Seq<u8>| canonical_digits(s) && #[trigger] digits_value(s) == (if x < 0 { -x } else { x })
        && encodes(b, x < 0, Kind::Finite, s, 0) && parts_chosen_width(Kind::Finite, s.len(), 0, b.len())
}

/// `r` is what reading `b` as an integer in `lo ..= hi` gives: the whole
/// value of the finite value it encodes, where it is one and in range.
pub open spec fn reads_integer(b: Seq<u8>, lo: int, hi: int, r: Option<int>) -> bool {
    &&& !spec_finite(b) ==> r is None
    &&& r == (if decoded_parts(b).1 == Kind::Finite {
        match integer_of(decoded_parts(b).0, decoded_parts(b).2, decoded_parts(b).3) {
            Some(v) => if lo <= v <= hi { Some(v) } else { None },
            None => None,
        }
    } else {
        None
    })
    &&& forall|neg: bool, s: Seq<u8>, q: int|
        #[trigger] encodes(b, neg, Kind::Finite, s, q) && canonical_digits(s) ==> r == (
        match integer_of(neg, s, q) {
            Some(v) => if lo <= v <= hi { Some(v) } else { None },
            None => None,
        })
}

/// `b` is a NaN with this sign and kind whose payload holds the digits of `payload`.
pub open spec fn holds_payload(b: Seq<u8>, negative: bool, signaling: bool, payload: int) -> bool {
    exists|s: Seq<u8>| canonical_digits(s) && #[trigger] digits_value(s) == payload
        && encodes(b, negative, if signaling { Kind::SignalingNan } else { Kind::QuietNan }, s, 0)
}

/// `r` is what reading the payload of the NaN that `b` encodes gives: its
/// value, where it fits a `u128`.
pub open spec fn reads_payload(b: Seq<u8>, r: Option<u128>) -> bool {
    &&& r == (if decoded_parts(b).1 == Kind::QuietNan || decoded_parts(b).1 == Kind::SignalingNan {
        if digits_value(decoded_parts(b).2) <= u128::MAX { Some(digits_value(decoded_parts(b).2) as u128) } else { None }
    } else {
        None
    })
    &&& forall|neg: bool, kind: Kind, s: Seq<u8>, q: int|
        #[trigger] encodes(b, neg, kind, s, q) && canonical_digits(s)
            && (kind == Kind::QuietNan || kind == Kind::SignalingNan) ==> r == (
            if digits_value(s) <= u128::MAX { Some(digits_value(s) as u128) } else { None })
}

/// `r` is the encoding of a literal's parts in the narrowest width that holds
/// them, or, where none does, the error that says why.
pub open spec fn encodes_literal(p: LiteralParts, r: Result<Bitstring, Error>) -> bool {
    let negative = p.0;
    let kind = p.1;
    let digits = p.2;
    let exponent = p.3;
    &&& (r is Ok <==> exists|w: nat| parts_encodable_in(kind, digits.len(), exponent, w))
    &&& (r matches Ok(d) ==> d.wf() && encodes(d@, negative, kind, digits, exponent)
        && parts_chosen_width(kind, digits.len(), exponent, d@.len()))
    &&& (r matches Err(e) ==> e == (if kind == Kind::Finite && digits.len() <= precision(MAX_WIDTH as nat) {
            Error::ExponentOverflow
        } else {
            Error::DigitOverflow
        }))
}

impl Bitstring {
    pub open spec fn wf(&self) -> bool {
        valid_width(self@.len())
    }

    /// Parses a decimal literal and encodes it in the narrowest width that holds it.
    pub fn try_parse_str(s: &str) -> (r: Result<Bitstring, Error>)
        ensures
            literal_parts(s.spec_bytes()) is Err ==> r == Err::<Bitstring, Error>(literal_parts(s.spec_bytes())->Err_0),
            literal_parts(s.spec_bytes()) is Ok ==> encodes_literal(literal_parts(s.spec_bytes())->Ok_0, r),
    {
        let b = s.as_bytes();
        let d = match parse_decimal(b) {
            Ok(d) => d,
            Err(e) => {
                return Err(e);
            },
        };
        let ghost p = literal_parts(s.spec_bytes());
        assert(p->Ok_0 == (d.negative, d.kind, d.digits@, d.exponent as int));
        let r = match encode(&d) {
            Ok(bytes) => {
                let r = Ok(Bitstring { bytes });
                proof {
                    assert(chosen_width(d, bytes@.len()));
                    assert forall|v: nat| v < bytes@.len() implies !#[trigger] parts_encodable_in(d.kind, d.digits@.len(), d.exponent as int, v) by {
                        assert(!encodable_in(d, v));
                    }
                    assert(encodable_in(d, bytes@.len()));
                    assert(parts_chosen_width(d.kind, d.digits@.len(), d.exponent as int, bytes@.len()));
                    assert(encodes(bytes@, d.negative, d.kind, d.digits@, d.exponent as int));
                    assert(r->Ok_0@ == bytes@);
                    assert(r->Ok_0.wf());
                }
                r
            },
            Err(e) => Err(e),
        };
        proof {
            let pp = (d.negative, d.kind, d.digits@, d.exponent as int);
            assert(pp.1 == d.kind && pp.2 == d.digits@ && pp.3 == d.exponent as int);
            if r is Ok {
                assert(parts_encodable_in(pp.1, pp.2.len(), pp.3, r->Ok_0@.len()));
            } else {
                assert(!exists|w: nat| encodable_in(d, w));
                if exists|w: nat| parts_encodable_in(pp.1, pp.2.len(), pp.3, w) {
                    let w = choose|w: nat| parts_encodable_in(pp.1, pp.2.len(), pp.3, w);
                    assert(encodable_in(d, w));
                }
            }
            assert(encodes_literal(pp, r));
        }
        r
    }

    /// Takes a little-endian buffer as a decimal, when its length is a width.
    pub fn try_from_le_bytes(b: &[u8]) -> (r: Result<Bitstring, Error>)
        ensures
            r matches Ok(d) ==> le_bytes_result(b@) == Ok::<Seq<u8>, Error>(d@) && d.wf(),
            r matches Err(e) ==> le_bytes_result(b@) == Err::<Seq<u8>, Error>(e),
    {
        let len = b.len();
        if len > MAX_WIDTH {
            return Err(Error::ByteCount { got: MAX_WIDTH, want: len });
        }
        if len == 0 {
            return Err(Error::ByteCount { got: 0, want: 4 });
        }
        if len % 4 != 0 {
            return Err(Error::ByteCount { got: len, want: (len + 3) / 4 * 4 });
        }
        let mut bytes: Vec<u8> = Vec::new();
        let mut i: usize = 0;
        while i < len
            invariant
                len == b@.len(),
                i <= len,
                bytes@ == b@.subrange(0, i as int),
            decreases len - i,
        {
            bytes.push(b[i]);
            i = i + 1;
        }
        assert(bytes@ == b@);
        Ok(Bitstring { bytes })
    }

    /// The bitstring, least significant byte first.
    pub fn as_le_bytes(&self) -> (r: &[u8])
        ensures
            r@ == self@,
    {
        self.bytes.as_slice()
    }

    /// The value in the canonical text form.
    pub fn to_string(&self) -> (r: String)
        requires
            self.wf(),
        ensures
            r@ == text_of(decoded_parts(self@).0, decoded_parts(self@).1, decoded_parts(self@).2, decoded_parts(self@).3),
            forall|neg: bool, kind: Kind, s: Seq<u8>, q: int|
                #[trigger] encodes(self@, neg, kind, s, q) && canonical_digits(s) ==> r@ == text_of(neg, kind, s, q),
    {
        let d = decode(&self.bytes);
        let r = format_decimal(&d);
        proof {
            assert forall|neg: bool, kind: Kind, s: Seq<u8>, q: int|
                #[trigger] encodes(self@, neg, kind, s, q) && canonical_digits(s) implies r@ == text_of(neg, kind, s, q) by {
                assert(decodes_to(d, neg, kind, s, q));
            }
        }
        r
    }

    pub fn is_sign_negative(&self) -> (r: bool)
        requires
            self.wf(),
        ensures
            r == spec_negative(self@),
    {
        self.bytes[self.bytes.len() - 1] & 0x80 == 0x80
    }

    pub fn is_sign_positive(&self) -> (r: bool)
        requires
            self.wf(),
        ensures
            r == !spec_negative(self@),
    {
        !self.is_sign_negative()
    }

    pub fn is_finite(&self) -> (r: bool)
        requires
            self.wf(),
        ensures
            r == spec_finite(self@),
    {
        self.bytes[self.bytes.len() - 1] & 0x78 != 0x78
    }

    pub fn is_infinite(&self) -> (r: bool)
        requires
            self.wf(),
        ensures
            r == spec_infinite(self@),
    {
        self.bytes[self.bytes.len() - 1] & 0x7C == 0x78
    }

    pub fn is_nan(&self) -> (r: bool)
        requires
            self.wf(),
        ensures
            r == spec_nan(self@),
    {
        self.bytes[self.bytes.len() - 1] & 0x7C == 0x7C
    }

    pub fn is_quiet_nan(&self) -> (r: bool)
        requires
            self.wf(),
        ensures
            r == spec_quiet_nan(self@),
    {
        self.bytes[self.bytes.len() - 1] & 0x7E == 0x7C
    }

    pub fn is_signaling_nan(&self) -> (r: bool)
        requires
            self.wf(),
        ensures
            r == spec_signaling_nan(self@),
    {
        self.bytes[self.bytes.len() - 1] & 0x7E == 0x7E
    }

    /// Encodes a whole number with exponent zero; every `u128` and `i128` fits.
    fn from_integer(negative: bool, magnitude: u128) -> (r: Bitstring)
        ensures
            r.wf(),
            spec_finite(r@),
            spec_negative(r@) == negative,
            exists|s: Seq<u8>| canonical_digits(s) && digits_value(s) == magnitude
                && #[trigger] encodes(r@, negative, Kind::Finite, s, 0)
                && parts_chosen_width(Kind::Finite, s.len(), 0, r@.len()),
    {
        let d = decimal_of_integer(negative, magnitude);
        proof {
            lemma2_to64();
        }
        assert(encodable_in(d, MAX_WIDTH as nat));
        match encode(&d) {
            Ok(bytes) => {
                assert(encodes(bytes@, negative, Kind::Finite, d.digits@, 0));
                assert(chosen_width(d, bytes@.len()));
                assert forall|v: nat| v < bytes@.len() implies !#[trigger] parts_encodable_in(Kind::Finite, d.digits@.len(), 0, v) by {
                    assert(!encodable_in(d, v));
                }
                Bitstring { bytes }
            },
            Err(_) => {
                proof {
                    assert(false);
                }
                Bitstring { bytes: vec![0u8; 4] }
            },
        }
    }

    /// The sign and magnitude of a whole finite value that fits a `u128`.
    fn to_integer(&self) -> (r: Option<(bool, u128)>)
        requires
            self.wf(),
        ensures
            !spec_finite(self@) ==> r is None,
            r == (if decoded_parts(self@).1 == Kind::Finite {
                match whole_value(decoded_parts(self@).2, decoded_parts(self@).3) {
                    Some(m) => if m <= u128::MAX { Some((decoded_parts(self@).0, m as u128)) } else { None },
                    None => None,
                }
            } else {
                None
            }),
            forall|neg: bool, s: Seq<u8>, q: int|
                #[trigger] encodes(self@, neg, Kind::Finite, s, q) && canonical_digits(s) ==> r == (
                match whole_value(s, q) {
                    Some(m) => if m <= u128::MAX { Some((neg, m as u128)) } else { None },
                    None => None,
                }),
    {
        let d = decode(&self.bytes);
        let m = whole_magnitude(&d);
        proof {
            assert forall|neg: bool, s: Seq<u8>, q: int|
                #[trigger] encodes(self@, neg, Kind::Finite, s, q) && canonical_digits(s) implies (
                match m {
                    Some(v) => Some((d.negative, v)),
                    None => None,
                }) == (
                match whole_value(s, q) {
                    Some(x) => if x <= u128::MAX { Some((neg, x as u128)) } else { None },
                    None => None,
                }) by {
                assert(decodes_to(d, neg, Kind::Finite, s, q));
            }
        }
        match m {
            Some(v) => Some((d.negative, v)),
            None => None,
        }
    }

    pub fn from_u128(x: u128) -> (r: Bitstring)
        ensures
            r.wf(),
            holds_integer(r@, x as int),
    {
        let r = Bitstring::from_integer(false, x);
        proof {
            let s = choose|s: Seq<u8>| canonical_digits(s) && digits_value(s) == x
                && #[trigger] encodes(r@, false, Kind::Finite, s, 0)
                && parts_chosen_width(Kind::Finite, s.len(), 0, r@.len());
            assert(encodes(r@, (x as int) < 0, Kind::Finite, s, 0));
        }
        r
    }

    pub fn from_i128(x: i128) -> (r: Bitstring)
        ensures
            r.wf(),
            holds_integer(r@, x as int),
    {
        let negative = x < 0;
        let m: u128 = if x < 0 { (-(x + 1)) as u128 + 1 } else { x as u128 };
        let r = Bitstring::from_integer(negative, m);
        proof {
            let s = choose|s: Seq<u8>| canonical_digits(s) && digits_value(s) == m
                && #[trigger] encodes(r@, negative, Kind::Finite, s, 0)
                && parts_chosen_width(Kind::Finite, s.len(), 0, r@.len());
            assert(encodes(r@, (x as int) < 0, Kind::Finite, s, 0));
        }
        r
    }

    pub fn to_u128(&self) -> (r: Option<u128>)
        requires
            self.wf(),
        ensures
            reads_integer(self@, 0, u128::MAX as int, match r { Some(v) => Some(v as int), None => None }),
    {
        let t = self.to_integer();
        let r = match t {
            Some((negative, m)) => if negative && m != 0 { None } else { Some(m) },
            None => None,
        };
        proof {
            let dp = decoded_parts(self@);
            if dp.1 == Kind::Finite {
                lemma_whole_nonneg(dp.2, dp.3);
                match whole_value(dp.2, dp.3) {
                    Some(m) => {
                        if m <= u128::MAX {
                            assert(t == Some((dp.0, m as u128)));
                        } else {
                            assert(t is None);
                        }
                    },
                    None => {
                        assert(t is None);
                    },
                }
            }
        }
        proof {
            assert forall|neg: bool, s: Seq<u8>, q: int|
                #[trigger] encodes(self@, neg, Kind::Finite, s, q) && canonical_digits(s) implies (match r {
                    Some(v) => Some(v as int),
                    None => None,
                }) == (match integer_of(neg, s, q) {
                    Some(v) => if 0 <= v <= u128::MAX as int { Some(v) } else { None },
                    None => None,
                }) by {
                assert(t == (match whole_value(s, q) {
                    Some(m) => if m <= u128::MAX { Some((neg, m as u128)) } else { None },
                    None => None,
                }));
                lemma_whole_nonneg(s, q);
                match whole_value(s, q) {
                    Some(m) => {
                        if m <= u128::MAX {
                            assert(t == Some((neg, m as u128)));
                        } else {
                            assert(t is None);
                        }
                    },
                    None => {
                        assert(t is None);
                    },
                }
            }
        }
        r
    }

    pub fn to_i128(&self) -> (r: Option<i128>)
        requires
            self.wf(),
        ensures
            reads_integer(self@, i128::MIN as int, i128::MAX as int, match r { Some(v) => Some(v as int), None => None }),
    {
        let t = self.to_integer();
        let r = match t {
            Some((negative, m)) => {
                if negative {
                    if m <= 170141183460469231731687303715884105728 {
                        if m == 0 {
                            Some(0)
                        } else {
                            Some(-((m - 1) as i128) - 1)
                        }
                    } else {
                        None
                    }
                } else if m <= 170141183460469231731687303715884105727 {
                    Some(m as i128)
                } else {
                    None
                }
            },
            None => None,
        };
        proof {
            let dp = decoded_parts(self@);
            if dp.1 == Kind::Finite {
                lemma_whole_nonneg(dp.2, dp.3);
                match whole_value(dp.2, dp.3) {
                    Some(m) => {
                        if m <= u128::MAX {
                            assert(t == Some((dp.0, m as u128)));
                        } else {
                            assert(t is None);
                        }
                    },
                    None => {
                        assert(t is None);
                    },
                }
            }
        }
        proof {
            assert forall|neg: bool, s: Seq<u8>, q: int|
                #[trigger] encodes(self@, neg, Kind::Finite, s, q) && canonical_digits(s) implies (match r {
                    Some(v) => Some(v as int),
                    None => None,
                }) == (match integer_of(neg, s, q) {
                    Some(v) => if i128::MIN as int <= v <= i128::MAX as int { Some(v) } else { None },
                    None => None,
                }) by {
                assert(t == (match whole_value(s, q) {
                    Some(m) => if m <= u128::MAX { Some((neg, m as u128)) } else { None },
                    None => None,
                }));
                lemma_whole_nonneg(s, q);
                match whole_value(s, q) {
                    Some(m) => {
                        if m <= u128::MAX {
                            assert(t == Some((neg, m as u128)));
                        } else {
                            assert(t is None);
                        }
                    },
                    None => {
                        assert(t is None);
                    },
                }
            }
        }
        r
    }

    pub fn from_i8(x: i8) -> (r: Bitstring)
        ensures
            r.wf(),
            holds_integer(r@, x as int),
    {
        Bitstring::from_i128(x as i128)
    }

    pub fn to_i8(&self) -> (r: Option<i8>)
        requires
            self.wf(),
        ensures
            reads_integer(self@, i8::MIN as int, i8::MAX as int, match r { Some(v) => Some(v as int), None => None }),
    {
        match self.to_i128() {
            Some(v) => if i8::MIN as i128 <= v && v <= i8::MAX as i128 { Some(v as i8) } else { None },
            None => None,
        }
    }

    pub fn from_i16(x: i16) -> (r: Bitstring)
        ensures
            r.wf(),
            holds_integer(r@, x as int),
    {
        Bitstring::from_i128(x as i128)
    }

    pub fn to_i16(&self) -> (r: Option<i16>)
        requires
            self.wf(),
        ensures
            reads_integer(self@, i16::MIN as int, i16::MAX as int, match r { Some(v) => Some(v as int), None => None }),
    {
        match self.to_i128() {
            Some(v) => if i16::MIN as i128 <= v && v <= i16::MAX as i128 { Some(v as i16) } else { None },
            None => None,
        }
    }

    pub fn from_i32(x: i32) -> (r: Bitstring)
        ensures
            r.wf(),
            holds_integer(r@, x as int),
    {
        Bitstring::from_i128(x as i128)
    }

    pub fn to_i32(&self) -> (r: Option<i32>)
        requires
            self.wf(),
        ensures
            reads_integer(self@, i32::MIN as int, i32::MAX as int, match r { Some(v) => Some(v as int), None => None }),
    {
        match self.to_i128() {
            Some(v) => if i32::MIN as i128 <= v && v <= i32::MAX as i128 { Some(v as i32) } else { None },
            None => None,
        }
    }

    pub fn from_i64(x: i64) -> (r: Bitstring)
        ensures
            r.wf(),
            holds_integer(r@, x as int),
    {
        Bitstring::from_i128(x as i128)
    }

    pub fn to_i64(&self) -> (r: Option<i64>)
        requires
            self.wf(),
        ensures
            reads_integer(self@, i64::MIN as int, i64::MAX as int, match r { Some(v) => Some(v as int), None => None }),
    {
        match self.to_i128() {
            Some(v) => if i64::MIN as i128 <= v && v <= i64::MAX as i128 { Some(v as i64) } else { None },
            None => None,
        }
    }

    pub fn from_u8(x: u8) -> (r: Bitstring)
        ensures
            r.wf(),
            holds_integer(r@, x as int),
    {
        Bitstring::from_u128(x as u128)
    }

    pub fn to_u8(&self) -> (r: Option<u8>)
        requires
            self.wf(),
        ensures
            reads_integer(self@, u8::MIN as int, u8::MAX as int, match r { Some(v) => Some(v as int), None => None }),
    {
        match self.to_u128() {
            Some(v) => if u8::MIN as u128 <= v && v <= u8::MAX as u128 { Some(v as u8) } else { None },
            None => None,
        }
    }

    pub fn from_u16(x: u16) -> (r: Bitstring)
        ensures
            r.wf(),
            holds_integer(r@, x as int),
    {
        Bitstring::from_u128(x as u128)
    }

    pub fn to_u16(&self) -> (r: Option<u16>)
        requires
            self.wf(),
        ensures
            reads_integer(self@, u16::MIN as int, u16::MAX as int, match r { Some(v) => Some(v as int), None => None }),
    {
        match self.to_u128() {
            Some(v) => if u16::MIN as u128 <= v && v <= u16::MAX as u128 { Some(v as u16) } else { None },
            None => None,
        }
    }

    pub fn from_u32(x: u32) -> (r: Bitstring)
        ensures
            r.wf(),
            holds_integer(r@, x as int),
    {
        Bitstring::from_u128(x as u128)
    }

    pub fn to_u32(&self) -> (r: Option<u32>)
        requires
            self.wf(),
        ensures
            reads_integer(self@, u32::MIN as int, u32::MAX as int, match r { Some(v) => Some(v as int), None => None }),
    {
        match self.to_u128() {
            Some(v) => if u32::MIN as u128 <= v && v <= u32::MAX as u128 { Some(v as u32) } else { None },
            None => None,
        }
    }

    pub fn from_u64(x: u64) -> (r: Bitstring)
        ensures
            r.wf(),
            holds_integer(r@, x as int),
    {
        Bitstring::from_u128(x as u128)
    }

    pub fn to_u64(&self) -> (r: Option<u64>)
        requires
            self.wf(),
        ensures
            reads_integer(self@, u64::MIN as int, u64::MAX as int, match r { Some(v) => Some(v as int), None => None }),
    {
        match self.to_u128() {
            Some(v) => if u64::MIN as u128 <= v && v <= u64::MAX as u128 { Some(v as u64) } else { None },
            None => None,
        }
    }

    /// A NaN whose payload holds the digits of `payload`.
    pub fn nan_with_payload(negative: bool, signaling: bool, payload: u128) -> (r: Bitstring)
        ensures
            r.wf(),
            spec_nan(r@),
            spec_signaling_nan(r@) == signaling,
            spec_negative(r@) == negative,
            holds_payload(r@, negative, signaling, payload as int),
    {
        let kind = if signaling { Kind::SignalingNan } else { Kind::QuietNan };
        let d = Decimal { negative, kind, digits: digits_of_u128(payload), exponent: 0 };
        proof {
            lemma2_to64();
        }
        assert(encodable_in(d, MAX_WIDTH as nat));
        match encode(&d) {
            Ok(bytes) => {
                proof {
                    lemma_nan_kinds(bytes@);
                    assert(encodes(bytes@, negative, kind, d.digits@, 0));
                }
                Bitstring { bytes }
            },
            Err(_) => {
                proof {
                    assert(false);
                }
                Bitstring { bytes: vec![0u8; 4] }
            },
        }
    }

    /// The payload of a NaN, when it fits a `u128`.
    pub fn nan_payload(&self) -> (r: Option<u128>)
        requires
            self.wf(),
        ensures
            r is Some ==> spec_nan(self@),
            reads_payload(self@, r),
    {
        let d = decode(&self.bytes);
        proof {
            lemma_nan_kinds(self@);
        }
        if d.kind == Kind::QuietNan || d.kind == Kind::SignalingNan {
            let r = digits_to_u128(&d.digits, d.digits.len());
            proof {
                assert(d.digits@.subrange(0, d.digits@.len() as int) =~= d.digits@);
                assert forall|neg: bool, kind: Kind, s: Seq<u8>, q: int|
                    #[trigger] encodes(self@, neg, kind, s, q) && canonical_digits(s)
                        && (kind == Kind::QuietNan || kind == Kind::SignalingNan) implies r == (
                        if digits_value(s) <= u128::MAX { Some(digits_value(s) as u128) } else { None }) by {
                    assert(decodes_to(d, neg, kind, s, q));
                }
            }
            r
        } else {
            proof {
                assert forall|neg: bool, kind: Kind, s: Seq<u8>, q: int|
                    #[trigger] encodes(self@, neg, kind, s, q) && canonical_digits(s)
                        && (kind == Kind::QuietNan || kind == Kind::SignalingNan) implies false by {
                    assert(decodes_to(d, neg, kind, s, q));
                }
            }
            None
        }
    }
}

} // verus!
