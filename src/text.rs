//! The text form: a lexer for decimal literals and the canonical formatter.
use vstd::prelude::*;
use crate::codec::{canonical_digits, strip_leading_zeros, without_leading_zeros, Decimal, Kind};
use crate::integer::{digits_value, lemma_prefix_value_grows};
use crate::error::Error;

verus! {

/// ASCII lower case of a byte.
pub open spec fn lower(c: u8) -> u8 {
    if 65 <= c <= 90 { (c + 32) as u8 } else { c }
}

pub open spec fn is_digit(c: u8) -> bool {
    48 <= c <= 57
}

/// `b[start..]` begins with the lower-case ASCII word `word`, ignoring case.
pub open spec fn has_word_at(b: Seq<u8>, start: int, word: Seq<u8>) -> bool {
    &&& start + word.len() <= b.len()
    &&& forall|i: int| 0 <= i < word.len() ==> lower(#[trigger] b[start + i]) == word[i]
}

fn to_lower(c: u8) -> (r: u8)
    ensures
        r == lower(c),
{
    if c >= 65 && c <= 90 {
        c + 32
    } else {
        c
    }
}

fn word_at(b: &[u8], start: usize, word: &[u8]) -> (r: bool)
    requires
        start <= b@.len(),
    ensures
        r == has_word_at(b@, start as int, word@),
{
    if word.len() > b.len() - start {
        return false;
    }
    let mut i: usize = 0;
    while i < word.len()
        invariant
            start + word@.len() <= b.len(),
            start <= b.len(),
            i <= word@.len(),
            forall|j: int| 0 <= j < i ==> lower(#[trigger] b@[start + j]) == word@[j],
        decreases word@.len() - i,
    {
        if to_lower(b[start + i]) != word[i] {
            return false;
        }
        i = i + 1;
    }
    true
}

/// The end of the run of ASCII digits that starts at `i`.
pub open spec fn run_end(b: Seq<u8>, i: int) -> int
    decreases b.len() - i,
{
    if 0 <= i < b.len() && is_digit(b[i]) {
        run_end(b, i + 1)
    } else {
        i
    }
}

/// The digit values of the ASCII digits `b[start..end]`.
pub open spec fn digit_values(b: Seq<u8>, start: int, end: int) -> Seq<u8> {
    b.subrange(start, end).map_values(|c: u8| (c - 48) as u8)
}

/// The parts of a value that a literal writes: sign, kind, significand or
/// payload digits without leading zeros, and the exponent of the last digit.
pub type LiteralParts = (bool, Kind, Seq<u8>, int);

/// A NaN's optional payload `(digits)`, which ends the literal.
pub open spec fn payload_of(b: Seq<u8>, start: int) -> Result<Seq<u8>, Error> {
    let end = run_end(b, start + 1);
    if start == b.len() {
        Ok(Seq::empty())
    } else if b[start] != 40 || end == start + 1 || end != b.len() - 1 || b[end] != 41 {
        Err(Error::Parse)
    } else {
        Ok(without_leading_zeros(digit_values(b, start + 1, end)))
    }
}

/// A finite literal from `start`: digits, an optional point and fraction
/// digits (at least one digit in all), and an optional exponent `e` or `E`
/// with an optional sign and at least one digit.
pub open spec fn finite_of(b: Seq<u8>, start: int, negative: bool) -> Result<LiteralParts, Error> {
    let int_end = run_end(b, start);
    let has_point = int_end < b.len() && b[int_end] == 46;
    let frac_start = if has_point { int_end + 1 } else { int_end };
    let frac_end = if has_point { run_end(b, int_end + 1) } else { int_end };
    let has_exp = frac_end < b.len();
    let signed = frac_end + 1 < b.len() && (b[frac_end + 1] == 43 || b[frac_end + 1] == 45);
    let exp_start = if signed { frac_end + 2 } else { frac_end + 1 };
    let exp_end = run_end(b, exp_start);
    let exp_value = digits_value(digit_values(b, exp_start, exp_end)) as int;
    let exponent = if !has_exp { 0 } else if signed && b[frac_end + 1] == 45 { -exp_value } else { exp_value };
    if int_end == start && frac_end == frac_start {
        Err(Error::Parse)
    } else if has_exp && ((b[frac_end] != 101 && b[frac_end] != 69) || exp_end == exp_start || exp_end != b.len()) {
        Err(Error::Parse)
    } else if has_exp && exp_value > MAX_TEXT_EXPONENT {
        Err(Error::ExponentOverflow)
    } else if frac_end - frac_start > MAX_TEXT_EXPONENT {
        Err(Error::ExponentOverflow)
    } else {
        Ok((negative, Kind::Finite,
            without_leading_zeros(digit_values(b, start, int_end) + digit_values(b, frac_start, frac_end)),
            exponent - (frac_end - frac_start)))
    }
}

/// What a decimal literal writes, or why it is not one. The grammar is
/// `sign? (number | special)`, with `inf`, `infinity`, `nan` and `snan`
/// read without regard to case, and a payload only after a NaN.
pub open spec fn literal_parts(b: Seq<u8>) -> Result<LiteralParts, Error> {
    let negative = b[0] == 45;
    let start: int = if b[0] == 43 || b[0] == 45 { 1 } else { 0 };
    if b.len() == 0 {
        Err(Error::Parse)
    } else if has_word_at(b, start, seq![105u8, 110, 102]) {
        if b.len() - start == 3 || (b.len() - start == 8 && has_word_at(b, start, seq![105u8, 110, 102, 105, 110, 105, 116, 121])) {
            Ok((negative, Kind::Infinity, Seq::empty(), 0))
        } else {
            Err(Error::Parse)
        }
    } else if has_word_at(b, start, seq![110u8, 97, 110]) {
        match payload_of(b, start + 3) {
            Ok(p) => Ok((negative, Kind::QuietNan, p, 0)),
            Err(e) => Err(e),
        }
    } else if has_word_at(b, start, seq![115u8, 110, 97, 110]) {
        match payload_of(b, start + 4) {
            Ok(p) => Ok((negative, Kind::SignalingNan, p, 0)),
            Err(e) => Err(e),
        }
    } else {
        finite_of(b, start, negative)
    }
}

/// The end of the run of ASCII digits that starts at `start`.
fn digits_end(b: &[u8], start: usize) -> (r: usize)
    requires
        start <= b@.len(),
    ensures
        start <= r <= b@.len(),
        r == run_end(b@, start as int),
        forall|i: int| start <= i < r ==> is_digit(#[trigger] b@[i]),
{
    let mut i = start;
    while i < b.len() && b[i] >= 48 && b[i] <= 57
        invariant
            start <= i <= b@.len(),
            run_end(b@, i as int) == run_end(b@, start as int),
            forall|j: int| start <= j < i ==> is_digit(#[trigger] b@[j]),
        decreases b@.len() - i,
    {
        i = i + 1;
    }
    i
}

/// Appends the digits `b[start..end]` to `out`, as digit values.
fn push_digits(out: &mut Vec<u8>, b: &[u8], start: usize, end: usize)
    requires
        start <= end <= b@.len(),
        forall|i: int| start <= i < end ==> is_digit(#[trigger] b@[i]),
        forall|i: int| 0 <= i < old(out)@.len() ==> #[trigger] old(out)@[i] <= 9,
    ensures
        final(out)@ == old(out)@ + digit_values(b@, start as int, end as int),
        forall|i: int| 0 <= i < final(out)@.len() ==> #[trigger] final(out)@[i] <= 9,
{
    let mut i = start;
    while i < end
        invariant
            start <= i <= end <= b@.len(),
            forall|j: int| start <= j < end ==> is_digit(#[trigger] b@[j]),
            out@ == old(out)@ + digit_values(b@, start as int, i as int),
            forall|j: int| 0 <= j < out@.len() ==> #[trigger] out@[j] <= 9,
        decreases end - i,
    {
        out.push(b[i] - 48);
        assert(digit_values(b@, start as int, i + 1) =~= digit_values(b@, start as int, i as int) + seq![(b@[i as int] - 48) as u8]);
        i = i + 1;
    }
}

/// The largest exponent magnitude that the text form accepts.
pub const MAX_TEXT_EXPONENT: i64 = 2147483647;

/// Reads the exponent digits `b[start..end]`, or `None` past `MAX_TEXT_EXPONENT`.
fn exponent_value(b: &[u8], start: usize, end: usize) -> (r: Option<i64>)
    requires
        start <= end <= b@.len(),
        forall|i: int| start <= i < end ==> is_digit(#[trigger] b@[i]),
    ensures
        r == (if digits_value(digit_values(b@, start as int, end as int)) <= MAX_TEXT_EXPONENT {
            Some(digits_value(digit_values(b@, start as int, end as int)) as i64)
        } else {
            None
        }),
{
    let ghost all = digit_values(b@, start as int, end as int);
    let mut v: i64 = 0;
    let mut i = start;
    assert(digit_values(b@, start as int, start as int) =~= Seq::<u8>::empty());
    while i < end
        invariant
            start <= i <= end <= b@.len(),
            forall|j: int| start <= j < end ==> is_digit(#[trigger] b@[j]),
            all == digit_values(b@, start as int, end as int),
            0 <= v <= MAX_TEXT_EXPONENT,
            v == digits_value(digit_values(b@, start as int, i as int)),
        decreases end - i,
    {
        let ghost next = digit_values(b@, start as int, i + 1);
        assert(next.drop_last() =~= digit_values(b@, start as int, i as int));
        assert(is_digit(b@[i as int]));
        v = v * 10 + (b[i] - 48) as i64;
        assert(all.subrange(0, i + 1 - start) =~= next);
        if v > MAX_TEXT_EXPONENT {
            proof {
                assert(all.subrange(0, all.len() as int) =~= all);
                lemma_prefix_value_grows(all, i + 1 - start, all.len() as int);
            }
            return None;
        }
        i = i + 1;
    }
    Some(v)
}

/// Reads a NaN payload `(digits)` that ends the input, or nothing.
fn payload(b: &[u8], start: usize) -> (r: Result<Vec<u8>, Error>)
    requires
        start <= b@.len(),
    ensures
        r matches Ok(p) ==> canonical_digits(p@) && payload_of(b@, start as int) == Ok::<Seq<u8>, Error>(p@),
        r matches Err(e) ==> payload_of(b@, start as int) == Err::<Seq<u8>, Error>(e),
{
    if start == b.len() {
        return Ok(Vec::new());
    }
    if b[start] != 40 {
        return Err(Error::Parse);
    }
    let end = digits_end(b, start + 1);
    if end == start + 1 || end >= b.len() || end != b.len() - 1 || b[end] != 41 {
        return Err(Error::Parse);
    }
    let mut all: Vec<u8> = Vec::new();
    push_digits(&mut all, b, start + 1, end);
    assert(all@ =~= digit_values(b@, start + 1, end as int));
    Ok(strip_leading_zeros(&all))
}

/// Lexes a finite literal that starts at `start`, exactly as `finite_of` says.
fn parse_finite(b: &[u8], start: usize, negative: bool) -> (r: Result<Decimal, Error>)
    requires
        start <= b@.len(),
    ensures
        r matches Ok(d) ==> d.wf() && finite_of(b@, start as int, negative) == Ok::<LiteralParts, Error>((d.negative, d.kind, d.digits@, d.exponent as int)),
        r matches Err(e) ==> finite_of(b@, start as int, negative) == Err::<LiteralParts, Error>(e),
{
    let int_end = digits_end(b, start);
    let mut frac_start = int_end;
    let mut frac_end = int_end;
    if int_end < b.len() && b[int_end] == 46 {
        frac_start = int_end + 1;
        frac_end = digits_end(b, frac_start);
    }
    if int_end == start && frac_end == frac_start {
        return Err(Error::Parse);
    }
    let mut exponent: i64 = 0;
    if frac_end < b.len() {
        if b[frac_end] != 101 && b[frac_end] != 69 {
            return Err(Error::Parse);
        }
        let mut exp_start = frac_end + 1;
        let mut exp_negative = false;
        if exp_start < b.len() && (b[exp_start] == 43 || b[exp_start] == 45) {
            exp_negative = b[exp_start] == 45;
            exp_start = exp_start + 1;
        }
        let exp_end = digits_end(b, exp_start);
        if exp_end == exp_start || exp_end != b.len() {
            return Err(Error::Parse);
        }
        exponent = match exponent_value(b, exp_start, exp_end) {
            Some(v) => if exp_negative { -v } else { v },
            None => {
                return Err(Error::ExponentOverflow);
            },
        };
    }
    let frac_len = frac_end - frac_start;
    if frac_len > MAX_TEXT_EXPONENT as usize {
        return Err(Error::ExponentOverflow);
    }
    let mut all: Vec<u8> = Vec::new();
    push_digits(&mut all, b, start, int_end);
    push_digits(&mut all, b, frac_start, frac_end);
    let digits = strip_leading_zeros(&all);
    Ok(Decimal { negative, kind: Kind::Finite, digits, exponent: exponent - frac_len as i64 })
}

/// Lexes a decimal literal into the parts of its value, exactly as
/// `literal_parts` says.
///
/// The sign applies to the significand; the exponent of the result is that of
/// the last significand digit, the written exponent less the count of
/// fractional digits. Leading zeros of the significand carry no value and are
/// dropped, trailing ones are kept.
pub fn parse_decimal(b: &[u8]) -> (r: Result<Decimal, Error>)
    ensures
        r matches Ok(d) ==> d.wf() && literal_parts(b@) == Ok::<LiteralParts, Error>((d.negative, d.kind, d.digits@, d.exponent as int)),
        r matches Err(e) ==> literal_parts(b@) == Err::<LiteralParts, Error>(e),
{
    if b.len() == 0 {
        return Err(Error::Parse);
    }
    let negative = b[0] == 45;
    let start: usize = if b[0] == 43 || b[0] == 45 { 1 } else { 0 };
    let inf: [u8; 3] = [105, 110, 102];
    let infinity: [u8; 8] = [105, 110, 102, 105, 110, 105, 116, 121];
    let nan: [u8; 3] = [110, 97, 110];
    let snan: [u8; 4] = [115, 110, 97, 110];
    assert(inf@ =~= seq![105u8, 110, 102]);
    assert(infinity@ =~= seq![105u8, 110, 102, 105, 110, 105, 116, 121]);
    assert(nan@ =~= seq![110u8, 97, 110]);
    assert(snan@ =~= seq![115u8, 110, 97, 110]);
    if word_at(b, start, &inf) {
        if b.len() - start == 3 || (b.len() - start == 8 && word_at(b, start, &infinity)) {
            return Ok(Decimal { negative, kind: Kind::Infinity, digits: Vec::new(), exponent: 0 });
        }
        return Err(Error::Parse);
    }
    if word_at(b, start, &nan) {
        return match payload(b, start + 3) {
            Ok(p) => Ok(Decimal { negative, kind: Kind::QuietNan, digits: p, exponent: 0 }),
            Err(e) => Err(e),
        };
    }
    if word_at(b, start, &snan) {
        return match payload(b, start + 4) {
            Ok(p) => Ok(Decimal { negative, kind: Kind::SignalingNan, digits: p, exponent: 0 }),
            Err(e) => Err(e),
        };
    }
    parse_finite(b, start, negative)
}

/// The ASCII character of a decimal digit.
pub open spec fn digit_char(d: u8) -> char {
    if d == 0 { '0' } else if d == 1 { '1' } else if d == 2 { '2' } else if d == 3 { '3' }
    else if d == 4 { '4' } else if d == 5 { '5' } else if d == 6 { '6' } else if d == 7 { '7' }
    else if d == 8 { '8' } else { '9' }
}

/// Digits written out.
pub open spec fn digits_text(s: Seq<u8>) -> Seq<char> {
    s.map_values(|d: u8| digit_char(d))
}

/// A natural number in decimal, without leading zeros.
pub open spec fn number_text(v: nat) -> Seq<char>
    decreases v,
{
    if v < 10 {
        seq![digit_char(v as u8)]
    } else {
        number_text(v / 10) + seq![digit_char((v % 10) as u8)]
    }
}

fn digit_text(d: u8) -> (r: &'static str)
    requires
        d <= 9,
    ensures
        r@ == seq![digit_char(d)],
{
    match d {
        0 => { proof { reveal_strlit("0"); } "0" },
        1 => { proof { reveal_strlit("1"); } "1" },
        2 => { proof { reveal_strlit("2"); } "2" },
        3 => { proof { reveal_strlit("3"); } "3" },
        4 => { proof { reveal_strlit("4"); } "4" },
        5 => { proof { reveal_strlit("5"); } "5" },
        6 => { proof { reveal_strlit("6"); } "6" },
        7 => { proof { reveal_strlit("7"); } "7" },
        8 => { proof { reveal_strlit("8"); } "8" },
        _ => { proof { reveal_strlit("9"); } "9" },
    }
}

/// Appends the digits `digits[from..to]`.
fn append_digits(out: &mut String, digits: &Vec<u8>, from: usize, to: usize)
    requires
        from <= to <= digits@.len(),
        forall|i: int| 0 <= i < digits@.len() ==> #[trigger] digits@[i] <= 9,
    ensures
        final(out)@ == old(out)@ + digits_text(digits@.subrange(from as int, to as int)),
{
    let mut i = from;
    while i < to
        invariant
            from <= i <= to <= digits@.len(),
            forall|j: int| 0 <= j < digits@.len() ==> #[trigger] digits@[j] <= 9,
            out@ == old(out)@ + digits_text(digits@.subrange(from as int, i as int)),
        decreases to - i,
    {
        out.append(digit_text(digits[i]));
        proof {
            assert(digits_text(digits@.subrange(from as int, i + 1)) =~= digits_text(digits@.subrange(from as int, i as int))
                + seq![digit_char(digits@[i as int])]);
        }
        i = i + 1;
    }
}

/// Appends `n` zeros.
fn append_zeros(out: &mut String, n: u64)
    ensures
        final(out)@ == old(out)@ + Seq::new(n as nat, |i: int| '0'),
{
    let mut i: u64 = 0;
    while i < n
        invariant
            i <= n,
            out@ == old(out)@ + Seq::new(i as nat, |k: int| '0'),
        decreases n - i,
    {
        proof {
            reveal_strlit("0");
        }
        out.append("0");
        proof {
            assert(Seq::new((i + 1) as nat, |k: int| '0') =~= Seq::new(i as nat, |k: int| '0') + seq!['0']);
        }
        i = i + 1;
    }
}

/// Appends the decimal digits of `v`.
pub(crate) fn append_u64(out: &mut String, v: u64)
    ensures
        final(out)@ == old(out)@ + number_text(v as nat),
    decreases v,
{
    if v >= 10 {
        append_u64(out, v / 10);
    }
    out.append(digit_text((v % 10) as u8));
    proof {
        if v < 10 {
            assert(v % 10 == v);
        }
    }
}

/// The canonical text of a finite value's significand and exponent: the
/// digits (a zero as `0`) with the exponent shown by a decimal point where
/// the point falls among or just before the digits, and by `e` and the
/// exponent otherwise.
pub open spec fn finite_text(digits: Seq<u8>, exponent: int) -> Seq<char> {
    let ds = if digits.len() == 0 { seq![0u8] } else { digits };
    let n = ds.len() as int;
    if exponent == 0 {
        digits_text(ds)
    } else if exponent > 0 {
        digits_text(ds) + seq!['e'] + number_text(exponent as nat)
    } else if -exponent < n {
        digits_text(ds.subrange(0, n + exponent)) + seq!['.'] + digits_text(ds.subrange(n + exponent, n))
    } else if -exponent - n < 6 {
        seq!['0', '.'] + Seq::new((-exponent - n) as nat, |i: int| '0') + digits_text(ds)
    } else {
        digits_text(ds) + seq!['e', '-'] + number_text((-exponent) as nat)
    }
}

/// The canonical text of a NaN: `nan` or `snan`, with the payload in
/// parentheses when it is not zero.
pub open spec fn nan_text(signaling: bool, digits: Seq<u8>) -> Seq<char> {
    let head = if signaling { seq!['s', 'n', 'a', 'n'] } else { seq!['n', 'a', 'n'] };
    if digits.len() == 0 {
        head
    } else {
        head + seq!['('] + digits_text(digits) + seq![')']
    }
}

/// The canonical text of a value's parts: an optional `-`, then `inf`, the
/// text of a NaN or that of a finite value.
pub open spec fn text_of(negative: bool, kind: Kind, digits: Seq<u8>, exponent: int) -> Seq<char> {
    let sign = if negative { seq!['-'] } else { Seq::<char>::empty() };
    sign + match kind {
        Kind::Infinity => seq!['i', 'n', 'f'],
        Kind::Finite => finite_text(digits, exponent),
        Kind::QuietNan => nan_text(false, digits),
        Kind::SignalingNan => nan_text(true, digits),
    }
}

/// A zero is written with one digit.
fn shown_digits(d: &Decimal) -> (r: Vec<u8>)
    requires
        d.wf(),
    ensures
        r@.len() >= 1,
        forall|i: int| 0 <= i < r@.len() ==> #[trigger] r@[i] <= 9,
        d.digits@.len() > 0 ==> r@ == d.digits@,
        d.digits@.len() == 0 ==> r@ == seq![0u8],
{
    if d.digits.len() == 0 {
        let mut r: Vec<u8> = Vec::new();
        r.push(0);
        r
    } else {
        d.digits.clone()
    }
}

/// The largest exponent magnitude that the formatter writes.
pub const MAX_FORMAT_EXPONENT: i64 = 4611686018427387904;

fn append_nan(out: &mut String, signaling: bool, digits: &Vec<u8>)
    requires
        forall|i: int| 0 <= i < digits@.len() ==> #[trigger] digits@[i] <= 9,
    ensures
        final(out)@ == old(out)@ + nan_text(signaling, digits@),
{
    proof {
        reveal_strlit("s");
        reveal_strlit("nan");
        reveal_strlit("(");
        reveal_strlit(")");
    }
    if signaling {
        out.append("s");
    }
    out.append("nan");
    if digits.len() > 0 {
        out.append("(");
        append_digits(out, digits, 0, digits.len());
        out.append(")");
        assert(digits@.subrange(0, digits@.len() as int) =~= digits@);
    }
    assert(out@ =~= old(out)@ + nan_text(signaling, digits@));
}

fn append_finite(out: &mut String, d: &Decimal)
    requires
        d.wf(),
        -MAX_FORMAT_EXPONENT <= d.exponent <= MAX_FORMAT_EXPONENT,
    ensures
        final(out)@ == old(out)@ + finite_text(d.digits@, d.exponent as int),
{
    proof {
        reveal_strlit("e");
        reveal_strlit(".");
        reveal_strlit("0.");
        reveal_strlit("e-");
    }
    let digits = shown_digits(d);
    let n = digits.len();
    assert(digits@.subrange(0, n as int) =~= digits@);
    if d.exponent >= 0 {
        append_digits(out, &digits, 0, n);
        if d.exponent > 0 {
            out.append("e");
            append_u64(out, d.exponent as u64);
        }
    } else {
        let m = (-d.exponent) as u64;
        if m < n as u64 {
            let point = n - m as usize;
            append_digits(out, &digits, 0, point);
            out.append(".");
            append_digits(out, &digits, point, n);
        } else if m - (n as u64) < 6 {
            out.append("0.");
            append_zeros(out, m - n as u64);
            append_digits(out, &digits, 0, n);
        } else {
            append_digits(out, &digits, 0, n);
            out.append("e-");
            append_u64(out, m);
        }
    }
    assert(out@ =~= old(out)@ + finite_text(d.digits@, d.exponent as int));
}

/// Writes a value in the canonical text form. Reading the text back gives the
/// same significand digits and exponent: trailing zeros and the exponent of a
/// zero are kept.
pub fn format_decimal(d: &Decimal) -> (r: String)
    requires
        d.wf(),
        -MAX_FORMAT_EXPONENT <= d.exponent <= MAX_FORMAT_EXPONENT,
    ensures
        r@ == text_of(d.negative, d.kind, d.digits@, d.exponent as int),
{
    let mut out = String::new();
    proof {
        reveal_strlit("-");
        reveal_strlit("inf");
    }
    if d.negative {
        out.append("-");
    }
    match d.kind {
        Kind::Infinity => {
            out.append("inf");
        },
        Kind::QuietNan => {
            append_nan(&mut out, false, &d.digits);
        },
        Kind::SignalingNan => {
            append_nan(&mut out, true, &d.digits);
        },
        Kind::Finite => {
            append_finite(&mut out, d);
        },
    }
    assert(out@ =~= text_of(d.negative, d.kind, d.digits@, d.exponent as int));
    out
}

} // verus!
