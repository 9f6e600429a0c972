//! Laws that relate the library's operations.
use vstd::prelude::*;
use crate::bitstring::{holds_payload, encodes_integer, reads_payload, le_bytes_result, reads_integer, Bitstring};
use crate::integer::{digits_value, lemma_integer_round_trip};
use crate::codec::{canonical_digits, encodes, Kind};
use crate::codec::{spec_finite, spec_infinite, spec_nan, spec_quiet_nan, spec_signaling_nan, top_byte};

verus! {

/// Reading a bitstring's own little-endian bytes back succeeds and gives the
/// same bytes: `try_from_le_bytes(d.as_le_bytes()) == Ok(d)`.
pub proof fn lemma_bytes_round_trip(d: Bitstring)
    requires
        d.wf(),
    ensures
        le_bytes_result(d@) == Ok::<Seq<u8>, crate::error::Error>(d@),
{
}

/// Every bitstring is exactly one of finite, infinite and NaN; a signaling
/// NaN is a NaN and not a quiet one.
pub proof fn lemma_classifier_consistency(b: Seq<u8>)
    requires
        b.len() > 0,
    ensures
        spec_finite(b) || spec_infinite(b) || spec_nan(b),
        !(spec_finite(b) && spec_infinite(b)),
        !(spec_finite(b) && spec_nan(b)),
        !(spec_infinite(b) && spec_nan(b)),
        spec_signaling_nan(b) ==> spec_nan(b) && !spec_quiet_nan(b),
        spec_nan(b) ==> spec_quiet_nan(b) || spec_signaling_nan(b),
{
    let t = top_byte(b);
    assert(((t & 0x78 != 0x78) || (t & 0x7C == 0x78) || (t & 0x7C == 0x7C))
        && !((t & 0x78 != 0x78) && (t & 0x7C == 0x78))
        && !((t & 0x78 != 0x78) && (t & 0x7C == 0x7C))
        && ((t & 0x7E == 0x7E) ==> (t & 0x7C == 0x7C) && !(t & 0x7E == 0x7C))
        && ((t & 0x7C == 0x7C) ==> (t & 0x7E == 0x7C) || (t & 0x7E == 0x7E))) by (bit_vector);
}

/// Reading back a whole number that `from_*` wrote (`holds_integer` implies
/// `encodes_integer`) gives that number, for
/// every target type whose range holds it: `to_i(from_i(i)) == Some(i)`.
pub proof fn lemma_integer_bits_round_trip(b: Seq<u8>, x: int, lo: int, hi: int, r: Option<int>)
    requires
        encodes_integer(b, x),
        reads_integer(b, lo, hi, r),
        lo <= x <= hi,
    ensures
        r == Some(x),
{
    let s = choose|s: Seq<u8>| canonical_digits(s) && #[trigger] digits_value(s) == (if x < 0 { -x } else { x })
        && encodes(b, x < 0, Kind::Finite, s, 0);
    lemma_integer_round_trip(x, s);
    assert(encodes(b, x < 0, Kind::Finite, s, 0) && canonical_digits(s));
}

/// A NaN's payload reads back as the payload it was made with, and its
/// sign and kind are kept.
pub proof fn lemma_payload_round_trip(b: Seq<u8>, negative: bool, signaling: bool, payload: int, r: Option<u128>)
    requires
        holds_payload(b, negative, signaling, payload),
        0 <= payload <= u128::MAX,
        reads_payload(b, r),
    ensures
        r == Some(payload as u128),
{
    let kind = if signaling { Kind::SignalingNan } else { Kind::QuietNan };
    let s = choose|s: Seq<u8>| canonical_digits(s) && #[trigger] digits_value(s) == payload
        && encodes(b, negative, kind, s, 0);
    assert(encodes(b, negative, kind, s, 0) && canonical_digits(s));
}

} // verus!
