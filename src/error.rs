//! Why a conversion failed.
use vstd::prelude::*;
use crate::layout::MAX_WIDTH;
use crate::text::{append_u64, number_text};

verus! {

/// Why a conversion failed.
#[derive(PartialEq, Eq, Structural, Clone, Copy, Debug)]
pub enum Error {
    /// The text is not a decimal literal.
    Parse,
    /// The significand or payload has more digits than the widest width holds.
    DigitOverflow,
    /// The exponent is out of range for every width that holds the digits.
    ExponentOverflow,
    /// A buffer of `got` bytes cannot be a decimal; `want` bytes would be needed.
    ByteCount { got: usize, want: usize },
}

/// The description of a failure.
pub open spec fn message_of(e: Error) -> Seq<char> {
    match e {
        Error::Parse => "the text is not a valid decimal number"@,
        Error::DigitOverflow => "the value has more digits than any supported decimal width holds"@,
        Error::ExponentOverflow => "the exponent is out of range for every supported decimal width"@,
        Error::ByteCount { got, want } => "the value cannot fit into a decimal of `"@ + number_text(got as nat)
            + "` bytes; the width needed is `"@ + number_text(want as nat) + "` bytes"@
            + if want <= MAX_WIDTH { "; decimals must be a multiple of 32 bits (4 bytes)"@ } else { Seq::<char>::empty() },
    }
}

impl Error {
    /// A description of the failure for people.
    pub fn to_string(&self) -> (r: String)
        ensures
            r@ == message_of(*self),
    {
        let mut out = String::new();
        match self {
            Error::Parse => {
                out.append("the text is not a valid decimal number");
            },
            Error::DigitOverflow => {
                out.append("the value has more digits than any supported decimal width holds");
            },
            Error::ExponentOverflow => {
                out.append("the exponent is out of range for every supported decimal width");
            },
            Error::ByteCount { got, want } => {
                out.append("the value cannot fit into a decimal of `");
                append_u64(&mut out, *got as u64);
                out.append("` bytes; the width needed is `");
                append_u64(&mut out, *want as u64);
                out.append("` bytes");
                if *want <= MAX_WIDTH {
                    out.append("; decimals must be a multiple of 32 bits (4 bytes)");
                }
            },
        }
        assert(out@ =~= message_of(*self));
        out
    }
}

} // verus!
