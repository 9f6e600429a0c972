//! Parameters of the decimal interchange formats, by width in bytes.
use vstd::prelude::*;
use vstd::arithmetic::power2::{pow2, lemma2_to64};

verus! {

/// The widest bitstring supported, in bytes.
pub const MAX_WIDTH: usize = 20;

/// A width is a positive multiple of four bytes, no wider than `MAX_WIDTH`.
pub open spec fn valid_width(w: nat) -> bool {
    4 <= w <= MAX_WIDTH && w % 4 == 0
}

/// Bits of the exponent continuation in the combination field.
pub open spec fn exp_cont_bits(w: nat) -> nat {
    w / 2 + 4
}

/// Decimal digits of precision.
pub open spec fn precision(w: nat) -> nat {
    (9 * (w / 4) - 2) as nat
}

/// Largest exponent of a significand in scientific form.
pub open spec fn emax(w: nat) -> nat {
    3 * pow2((exp_cont_bits(w) - 1) as nat)
}

/// Exponent bias.
pub open spec fn bias(w: nat) -> nat {
    (emax(w) + precision(w) - 2) as nat
}

/// Largest biased exponent.
pub open spec fn max_biased(w: nat) -> nat {
    (3 * pow2(exp_cont_bits(w)) - 1) as nat
}

/// Bits of the trailing significand.
pub open spec fn trailing_bits(w: nat) -> nat {
    (8 * w - 6 - exp_cont_bits(w)) as nat
}

/// Number of declets in the trailing significand.
pub open spec fn declets(w: nat) -> nat {
    trailing_bits(w) / 10
}

/// A finite value with `n` significand digits and last-digit exponent `q`
/// fits a width when both the digit count and the biased exponent are in range.
pub open spec fn fits(w: nat, n: nat, q: int) -> bool {
    valid_width(w) && n <= precision(w) && 0 <= q + bias(w) <= max_biased(w)
}

/// The narrowest width that a finite value fits, if any.
pub open spec fn narrowest_fit(w: nat, n: nat, q: int) -> bool {
    fits(w, n, q) && forall|v: nat| v < w ==> !#[trigger] fits(v, n, q)
}

pub struct Format {
    pub width: usize,
    pub exp_cont_bits: usize,
    pub precision: usize,
    pub bias: u32,
    pub max_biased: u32,
    pub trailing_bits: usize,
    pub declets: usize,
    /// `2` to the power of `exp_cont_bits`.
    pub cont_modulus: u32,
}

impl Format {
    pub open spec fn describes(&self, w: nat) -> bool {
        &&& valid_width(w)
        &&& self.width == w
        &&& self.exp_cont_bits == exp_cont_bits(w)
        &&& self.precision == precision(w)
        &&& self.bias == bias(w)
        &&& self.max_biased == max_biased(w)
        &&& self.trailing_bits == trailing_bits(w)
        &&& self.declets == declets(w)
        &&& self.declets * 10 == self.trailing_bits
        &&& self.precision == 3 * self.declets + 1
        &&& self.trailing_bits + self.exp_cont_bits + 6 == 8 * w
        &&& self.max_biased < pow2(self.exp_cont_bits as nat) * 3
        &&& 6 <= self.exp_cont_bits <= 14
        &&& self.cont_modulus == pow2(self.exp_cont_bits as nat)
        &&& self.bias <= self.max_biased
        &&& 64 <= self.cont_modulus <= 16384
    }
}

/// The parameters of the format of width `w`.
pub fn format_of(w: usize) -> (f: Format)
    requires
        valid_width(w as nat),
    ensures
        f.describes(w as nat),
{
    proof {
        lemma2_to64();
    }
    if w == 4 {
        Format { width: 4, exp_cont_bits: 6, precision: 7, bias: 101, max_biased: 191, trailing_bits: 20, declets: 2, cont_modulus: 64 }
    } else if w == 8 {
        Format { width: 8, exp_cont_bits: 8, precision: 16, bias: 398, max_biased: 767, trailing_bits: 50, declets: 5, cont_modulus: 256 }
    } else if w == 12 {
        Format { width: 12, exp_cont_bits: 10, precision: 25, bias: 1559, max_biased: 3071, trailing_bits: 80, declets: 8, cont_modulus: 1024 }
    } else if w == 16 {
        Format { width: 16, exp_cont_bits: 12, precision: 34, bias: 6176, max_biased: 12287, trailing_bits: 110, declets: 11, cont_modulus: 4096 }
    } else {
        Format { width: 20, exp_cont_bits: 14, precision: 43, bias: 24617, max_biased: 49151, trailing_bits: 140, declets: 14, cont_modulus: 16384 }
    }
}

/// The narrowest width that a finite value with `n` significand digits and
/// last-digit exponent `q` fits, or `None` where no width is wide enough.
pub fn select_width(n: usize, q: i64) -> (r: Option<usize>)
    ensures
        r matches Some(w) ==> narrowest_fit(w as nat, n as nat, q as int),
        r is None ==> forall|v: nat| !#[trigger] fits(v, n as nat, q as int),
{
    let mut w: usize = 4;
    while w <= MAX_WIDTH
        invariant
            4 <= w <= MAX_WIDTH + 4,
            w % 4 == 0,
            forall|v: nat| v < w ==> !#[trigger] fits(v, n as nat, q as int),
        decreases MAX_WIDTH + 4 - w,
    {
        let f = format_of(w);
        if n <= f.precision && q >= -(f.bias as i64) && q <= f.max_biased as i64 - f.bias as i64 {
            return Some(w);
        }
        w = w + 4;
    }
    None
}

/// The narrowest width whose trailing significand holds `n` NaN payload digits.
pub fn select_payload_width(n: usize) -> (r: Option<usize>)
    ensures
        r matches Some(w) ==> valid_width(w as nat) && n + 1 <= precision(w as nat)
            && forall|v: nat| v < w && valid_width(v) ==> precision(v) < n + 1,
        r is None ==> forall|v: nat| valid_width(v) ==> precision(v) < n + 1,
{
    let mut w: usize = 4;
    while w <= MAX_WIDTH
        invariant
            4 <= w <= MAX_WIDTH + 4,
            w % 4 == 0,
            forall|v: nat| v < w && valid_width(v) ==> precision(v) < n + 1,
        decreases MAX_WIDTH + 4 - w,
    {
        let f = format_of(w);
        if n < f.precision {
            return Some(w);
        }
        w = w + 4;
    }
    None
}

} // verus!
