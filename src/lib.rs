//! Arbitrary-width IEEE 754 decimal floating-point bitstrings, using the
//! densely-packed-decimal encoding in little-endian byte order, with
//! conversions to and from text and primitive integers.
//!
//! `text` lexes literals into the parts of a value (`codec::Decimal`) and
//! writes them back; `codec` packs those parts into the sign, combination
//! field and trailing significand of a bitstring and reads them back;
//! `Bitstring` ties the two together and picks the narrowest width.
use vstd::prelude::*;

pub mod bits;
pub mod bitstring;
pub mod codec;
pub mod dpd;
pub mod error;
pub mod fixed;
pub mod integer;
pub mod laws;
pub mod layout;
pub mod text;

pub use bitstring::Bitstring;
pub use error::Error;
pub use fixed::{Bitstring32, Bitstring64};

verus! {

} // verus!
