//! Whole numbers as decimal values.
use vstd::prelude::*;
use crate::codec::{canonical_digits, Decimal, Kind};

verus! {

/// The value of a digit sequence, most significant digit first.
pub open spec fn digits_value(s: Seq<u8>) -> nat
    decreases s.len(),
{
    if s.len() == 0 {
        0
    } else {
        digits_value(s.drop_last()) * 10 + s.last() as nat
    }
}

/// Digits, each below ten.
pub open spec fn decimal_digits(s: Seq<u8>) -> bool {
    forall|i: int| 0 <= i < s.len() ==> #[trigger] s[i] <= 9
}

/// A digit sequence splits into a prefix, scaled by the length of the rest, and the rest.
pub proof fn lemma_digits_split(s: Seq<u8>, k: int)
    requires
        0 <= k <= s.len(),
    ensures
        digits_value(s) == digits_value(s.subrange(0, k)) * pow10_int((s.len() - k) as nat)
            + digits_value(s.subrange(k, s.len() as int)),
    decreases s.len(),
{
    if k == s.len() {
        assert(s.subrange(0, k) =~= s);
        assert(s.subrange(k, s.len() as int) =~= Seq::<u8>::empty());
        assert(pow10_int(0) == 1);
        assert(digits_value(Seq::<u8>::empty()) == 0);
    } else {
        let t = s.drop_last();
        lemma_digits_split(t, k);
        assert(t.subrange(0, k) =~= s.subrange(0, k));
        let rest = s.subrange(k, s.len() as int);
        assert(rest.drop_last() =~= t.subrange(k, t.len() as int));
        assert(rest.last() == s.last());
        assert(digits_value(rest) == digits_value(rest.drop_last()) * 10 + rest.last() as int);
        assert(digits_value(s) == digits_value(t) * 10 + s.last() as int);
        let a = digits_value(s.subrange(0, k));
        let p = pow10_int((t.len() - k) as nat);
        assert(pow10_int((s.len() - k) as nat) == 10 * p);
        assert(digits_value(s) == (a * p + digits_value(rest.drop_last())) * 10 + s.last() as int);
        assert((a * p + digits_value(rest.drop_last())) * 10 == a * (10 * p) + digits_value(rest.drop_last()) * 10)
            by (nonlinear_arith);
    }
}

/// Canonical digits, `n` of them, are worth at least ten to the `n - 1`.
pub proof fn lemma_digits_lower(s: Seq<u8>)
    requires
        canonical_digits(s),
        s.len() > 0,
    ensures
        digits_value(s) >= pow10_int((s.len() - 1) as nat),
{
    lemma_digits_split(s, 1);
    let h = s.subrange(0, 1);
    assert(h.drop_last() =~= Seq::<u8>::empty());
    assert(digits_value(Seq::<u8>::empty()) == 0);
    assert(digits_value(h) == s[0] as int);
    lemma_pow10_monotone((s.len() - 1) as nat);
    assert(digits_value(h) * pow10_int((s.len() - 1) as nat) >= pow10_int((s.len() - 1) as nat)) by (nonlinear_arith)
        requires digits_value(h) >= 1, pow10_int((s.len() - 1) as nat) >= 1;
}

/// A sequence of `n` digits is worth less than ten to the `n`.
pub proof fn lemma_digits_bound(s: Seq<u8>)
    requires
        decimal_digits(s),
    ensures
        digits_value(s) < pow10_int(s.len()),
    decreases s.len(),
{
    if s.len() > 0 {
        let t = s.drop_last();
        assert(decimal_digits(t));
        lemma_digits_bound(t);
        assert(s.last() == s[s.len() - 1]);
        assert(digits_value(t) * 10 + s.last() < pow10_int(t.len()) * 10) by (nonlinear_arith)
            requires digits_value(t) < pow10_int(t.len()), s.last() <= 9;
    }
}

/// A digit sequence is worth zero exactly when every digit is zero.
pub proof fn lemma_digits_zero(s: Seq<u8>)
    ensures
        (digits_value(s) == 0) == (forall|i: int| 0 <= i < s.len() ==> #[trigger] s[i] == 0),
    decreases s.len(),
{
    if s.len() > 0 {
        let t = s.drop_last();
        lemma_digits_zero(t);
        if digits_value(s) == 0 {
            assert forall|i: int| 0 <= i < s.len() implies #[trigger] s[i] == 0 by {
                if i < t.len() {
                    assert(t[i] == s[i]);
                }
            }
        }
        if forall|i: int| 0 <= i < s.len() ==> #[trigger] s[i] == 0 {
            assert forall|i: int| 0 <= i < t.len() implies #[trigger] t[i] == 0 by {
                assert(s[i] == 0);
            }
            assert(s[s.len() - 1] == 0);
        }
    }
}

/// The significand digits of `x` in decimal, without leading zeros.
pub fn digits_of_u128(x: u128) -> (r: Vec<u8>)
    ensures
        canonical_digits(r@),
        digits_value(r@) == x,
        r@.len() <= 39,
{
    let mut r: Vec<u8> = Vec::new();
    let mut v = x;
    while v > 0
        invariant
            decimal_digits(r@),
            r@.len() > 0 && v == 0 ==> r@[0] != 0,
            v as int * pow10_int(r@.len() as nat) + digits_value(r@) == x as int,
            v > 0 ==> v as int * pow10_int(r@.len() as nat) <= x as int,
            r@.len() <= 39,
        decreases v,
    {
        proof {
            lemma_pow10_monotone(r@.len() as nat);
            lemma_pow10_bound(r@.len() as nat, v as int, x as int);
        }
        let ghost old_r = r@;
        let ghost v0 = v as int;
        let digit = (v % 10) as u8;
        r.insert(0, digit);
        v = v / 10;
        proof {
            let n = old_r.len();
            assert(r@.subrange(0, 1) =~= seq![digit]);
            assert(r@.subrange(1, r@.len() as int) =~= old_r);
            lemma_digits_split(r@, 1);
            assert(seq![digit].drop_last() =~= Seq::<u8>::empty());
            assert(digits_value(Seq::<u8>::empty()) == 0);
            assert(digits_value(seq![digit]) == digit as int);
            let p = pow10_int(n as nat);
            assert(pow10_int((n + 1) as nat) == 10 * p);
            assert(v0 == (v0 / 10) * 10 + v0 % 10);
            assert(v0 * p == (v0 / 10) * (10 * p) + (v0 % 10) * p) by (nonlinear_arith)
                requires v0 == (v0 / 10) * 10 + v0 % 10;
            assert(v as int * pow10_int(r@.len() as nat) <= v0 * p) by (nonlinear_arith)
                requires v as int == v0 / 10, pow10_int(r@.len() as nat) == 10 * p, v0 >= 0, p >= 1;
            if v == 0 {
                assert(digit != 0);
            }
        }
    }
    r
}

pub open spec fn pow10_int(n: nat) -> int
    decreases n,
{
    if n == 0 { 1 } else { 10 * pow10_int((n - 1) as nat) }
}

proof fn lemma_pow10_step(n: nat)
    ensures
        n > 0 ==> pow10_int(n) == 10 * pow10_int((n - 1) as nat),
{
}

proof fn lemma_pow10_bound(n: nat, v: int, x: int)
    requires
        v > 0,
        v * pow10_int(n) <= x,
        x <= 340282366920938463463374607431768211455,
    ensures
        n < 39,
{
    lemma_pow10_monotone(n);
    if n >= 39 {
        lemma_pow10_ge(n, 39);
        reveal_with_fuel(pow10_int, 40);
        assert(pow10_int(39) == 1000000000000000000000000000000000000000);
        assert(v * pow10_int(n) >= pow10_int(n)) by (nonlinear_arith)
            requires v > 0, pow10_int(n) >= 1;
    }
}

pub proof fn lemma_pow10_monotone(n: nat)
    ensures
        pow10_int(n) >= 1,
    decreases n,
{
    if n > 0 {
        lemma_pow10_monotone((n - 1) as nat);
    }
}

pub proof fn lemma_pow10_ge(n: nat, m: nat)
    requires
        m <= n,
    ensures
        pow10_int(m) <= pow10_int(n),
    decreases n,
{
    if m < n {
        lemma_pow10_ge((n - 1) as nat, m);
        lemma_pow10_monotone((n - 1) as nat);
    }
}

pub proof fn lemma_prefix_value_grows(s: Seq<u8>, i: int, j: int)
    requires
        0 <= i <= j <= s.len(),
    ensures
        digits_value(s.subrange(0, i)) <= digits_value(s.subrange(0, j)),
    decreases j - i,
{
    if i < j {
        lemma_prefix_value_grows(s, i, j - 1);
        assert(s.subrange(0, j).drop_last() =~= s.subrange(0, j - 1));
    }
}

/// The value of the digits `digits[0..keep]`, when it fits a `u128`.
pub fn digits_to_u128(digits: &Vec<u8>, keep: usize) -> (r: Option<u128>)
    requires
        keep <= digits@.len(),
        forall|i: int| 0 <= i < digits@.len() ==> #[trigger] digits@[i] <= 9,
    ensures
        r == (if digits_value(digits@.subrange(0, keep as int)) <= u128::MAX {
            Some(digits_value(digits@.subrange(0, keep as int)) as u128)
        } else {
            None
        }),
{
    let mut acc: u128 = 0;
    let mut i: usize = 0;
    assert(digits@.subrange(0, 0) =~= Seq::<u8>::empty());
    while i < keep
        invariant
            keep <= digits@.len(),
            i <= keep,
            forall|j: int| 0 <= j < digits@.len() ==> #[trigger] digits@[j] <= 9,
            acc == digits_value(digits@.subrange(0, i as int)),
        decreases keep - i,
    {
        assert(digits@.subrange(0, i + 1).drop_last() =~= digits@.subrange(0, i as int));
        acc = match acc.checked_mul(10) {
            Some(v) => v,
            None => {
                proof {
                    lemma_prefix_value_grows(digits@, i + 1, keep as int);
                }
                return None;
            },
        };
        acc = match acc.checked_add(digits[i] as u128) {
            Some(v) => v,
            None => {
                proof {
                    lemma_prefix_value_grows(digits@, i + 1, keep as int);
                }
                return None;
            },
        };
        i = i + 1;
    }
    Some(acc)
}

/// A finite value with exponent zero and the digits of `magnitude`.
pub fn decimal_of_integer(negative: bool, magnitude: u128) -> (r: Decimal)
    ensures
        r.wf(),
        r.kind == Kind::Finite,
        r.negative == negative,
        r.exponent == 0,
        r.digits@.len() <= 39,
        digits_value(r.digits@) == magnitude,
{
    Decimal { negative, kind: Kind::Finite, digits: digits_of_u128(magnitude), exponent: 0 }
}

/// The magnitude of the finite value with these significand digits and
/// last-digit exponent, when it is a whole number.
pub open spec fn whole_value(digits: Seq<u8>, exponent: int) -> Option<int> {
    let v = digits_value(digits) as int;
    if exponent >= 0 {
        Some(v * pow10_int(exponent as nat))
    } else if v % pow10_int((-exponent) as nat) == 0 {
        Some(v / pow10_int((-exponent) as nat))
    } else {
        None
    }
}

/// A whole value's magnitude is not negative.
pub proof fn lemma_whole_nonneg(digits: Seq<u8>, exponent: int)
    ensures
        whole_value(digits, exponent) matches Some(m) ==> m >= 0,
{
    let v = digits_value(digits) as int;
    if exponent >= 0 {
        lemma_pow10_monotone(exponent as nat);
        assert(v * pow10_int(exponent as nat) >= 0) by (nonlinear_arith)
            requires v >= 0, pow10_int(exponent as nat) >= 1;
    } else {
        lemma_pow10_monotone((-exponent) as nat);
        assert(v / pow10_int((-exponent) as nat) >= 0) by (nonlinear_arith)
            requires v >= 0, pow10_int((-exponent) as nat) >= 1;
    }
}

/// The signed value of a whole finite value.
pub open spec fn integer_of(negative: bool, digits: Seq<u8>, exponent: int) -> Option<int> {
    match whole_value(digits, exponent) {
        Some(m) => Some(if negative { -m } else { m }),
        None => None,
    }
}

/// The magnitude of a finite value when it is a whole number that fits a
/// `u128`: trailing fractional digits must be zeros.
pub fn whole_magnitude(d: &Decimal) -> (r: Option<u128>)
    requires
        d.wf(),
        -100000 <= d.exponent <= 100000,
    ensures
        d.kind != Kind::Finite ==> r is None,
        d.kind == Kind::Finite ==> (r is Some <==> (whole_value(d.digits@, d.exponent as int) matches Some(v) && v <= u128::MAX)),
        r matches Some(v) ==> whole_value(d.digits@, d.exponent as int) == Some(v as int),
{
    if d.kind != Kind::Finite {
        return None;
    }
    let n = d.digits.len();
    let ghost s = d.digits@;
    let ghost v = digits_value(s) as int;
    proof {
        assert(s.subrange(0, n as int) =~= s);
        lemma_digits_bound(s);
        lemma_digits_zero(s);
        lemma_pow10_monotone(n as nat);
        if n > 0 {
            assert(s[0] != 0);
        }
    }
    let keep: usize;
    if d.exponent < 0 {
        let m = (-d.exponent) as usize;
        let ghost p = pow10_int(m as nat);
        proof {
            lemma_pow10_monotone(m as nat);
        }
        if m >= n {
            if n == 0 {
                proof {
                    assert(v == 0);
                    assert(0int % p == 0) by (nonlinear_arith) requires p >= 1;
                    assert(0int / p == 0) by (nonlinear_arith) requires p >= 1;
                }
                return Some(0);
            }
            proof {
                lemma_pow10_ge(m as nat, n as nat);
                assert(v % p == v) by (nonlinear_arith) requires 0 <= v < p;
                assert(s[0] != 0);
                assert(v != 0);
                assert((-d.exponent) as nat == m as nat);
                assert(v % pow10_int((-d.exponent) as nat) != 0);
                assert(whole_value(d.digits@, d.exponent as int) is None);
            }
            return None;
        }
        keep = n - m;
        let ghost tail = s.subrange(keep as int, n as int);
        proof {
            lemma_digits_split(s, keep as int);
            lemma_digits_zero(tail);
            assert(decimal_digits(tail));
            lemma_digits_bound(tail);
            let a = digits_value(s.subrange(0, keep as int)) as int;
            let b = digits_value(tail) as int;
            assert(v == a * p + b);
            assert(v % p == b && v / p == a) by (nonlinear_arith)
                requires v == a * p + b, 0 <= b < p, a >= 0;
            assert((-d.exponent) as nat == m as nat);
        }
        let mut i = keep;
        while i < n
            invariant
                keep <= i <= n == d.digits@.len(),
                s == d.digits@,
                tail == s.subrange(keep as int, n as int),
                forall|j: int| keep <= j < i ==> #[trigger] s[j] == 0,
                digits_value(tail) != 0 ==> whole_value(d.digits@, d.exponent as int) is None,
                digits_value(tail) == 0 ==> whole_value(d.digits@, d.exponent as int) == Some(digits_value(s.subrange(0, keep as int)) as int),
                (digits_value(tail) == 0) == (forall|j: int| 0 <= j < tail.len() ==> #[trigger] tail[j] == 0),
            decreases n - i,
        {
            if d.digits[i] != 0 {
                proof {
                    assert(tail[i - keep] != 0);
                }
                return None;
            }
            i = i + 1;
        }
        proof {
            assert forall|j: int| 0 <= j < tail.len() implies #[trigger] tail[j] == 0 by {
                assert(s[keep + j] == 0);
            }
        }
        return digits_to_u128(&d.digits, keep);
    }
    let mut acc = match digits_to_u128(&d.digits, n) {
        Some(v) => v,
        None => {
            proof {
                lemma_pow10_monotone(d.exponent as nat);
                assert(v * pow10_int(d.exponent as nat) >= v) by (nonlinear_arith)
                    requires v >= 0, pow10_int(d.exponent as nat) >= 1;
            }
            return None;
        },
    };
    if d.exponent > 0 {
        let q = d.exponent;
        let mut k: i64 = 0;
        proof {
            lemma_pow10_monotone(0);
            assert(pow10_int(0) == 1);
        }
        proof {
            assert(acc as int == v);
            assert(v * pow10_int(0) == v);
        }
        while k < q
            invariant
                0 <= k <= q == d.exponent,
                whole_value(d.digits@, d.exponent as int) == Some(v * pow10_int(q as nat)),
                acc as int == v * pow10_int(k as nat),
                v >= 0,
            decreases q - k,
        {
            proof {
                lemma_pow10_step((k + 1) as nat);
            }
            acc = match acc.checked_mul(10) {
                Some(x) => x,
                None => {
                    proof {
                        lemma_pow10_ge(q as nat, (k + 1) as nat);
                        assert(v * pow10_int(q as nat) >= v * pow10_int((k + 1) as nat)) by (nonlinear_arith)
                            requires v >= 0, pow10_int(q as nat) >= pow10_int((k + 1) as nat);
                        assert(v * pow10_int((k + 1) as nat) == acc as int * 10) by (nonlinear_arith)
                            requires acc as int == v * pow10_int(k as nat), pow10_int((k + 1) as nat) == 10 * pow10_int(k as nat);
                    }
                    return None;
                },
            };
            proof {
                assert(v * pow10_int((k + 1) as nat) == v * pow10_int(k as nat) * 10) by (nonlinear_arith)
                    requires pow10_int((k + 1) as nat) == 10 * pow10_int(k as nat);
            }
            k = k + 1;
        }
    } else {
        proof {
            assert(pow10_int(0) == 1);
            assert(v * pow10_int(0) == v);
            assert(whole_value(d.digits@, d.exponent as int) == Some(acc as int));
        }
    }
    Some(acc)
}

/// A whole number written with exponent zero is read back as itself:
/// `to_i(from_i(i)) == Some(i)`. `from_*` encodes the digits of `|i|` with
/// exponent zero and the sign of `i`; `to_*` reads back `integer_of` the
/// parts that a bitstring encodes.
pub proof fn lemma_integer_round_trip(x: int, digits: Seq<u8>)
    requires
        digits_value(digits) == (if x < 0 { -x } else { x }),
    ensures
        integer_of(x < 0, digits, 0) == Some(x),
{
    assert(pow10_int(0) == 1);
}

} // verus!
