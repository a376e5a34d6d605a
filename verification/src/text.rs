//! Numbers as text: reading and writing the decimal numbers of a chart text.
//! A number is read with or without an exponent, and written without one.

use crate::fixed::abs;
use vstd::prelude::*;

verus! {

/// The byte `+`.
pub const PLUS: u8 = 43;

/// The byte `-`.
pub const MINUS: u8 = 45;

/// The byte `.`.
pub const DOT: u8 = 46;

/// The byte `0`.
pub const ZERO: u8 = 48;

/// The byte `e`.
pub const SMALL_E: u8 = 101;

/// The byte `E`.
pub const LARGE_E: u8 = 69;

/// The byte is a decimal digit.
pub open spec fn is_digit(c: u8) -> bool {
    48 <= c <= 57
}

/// Every byte is a decimal digit.
pub open spec fn all_digits(s: Seq<u8>) -> bool {
    forall|i: int| 0 <= i < s.len() ==> is_digit(#[trigger] s[i])
}

/// The number that a sequence of digits denotes; 0 for none.
pub open spec fn value_of(s: Seq<u8>) -> int
    decreases s.len(),
{
    if s.len() == 0 {
        0
    } else {
        value_of(s.drop_last()) * 10 + (s.last() - 48)
    }
}

/// The first index from `from` on at which `s` holds `c`; the length of `s`
/// if there is none.
pub open spec fn first_at(s: Seq<u8>, c: u8, from: int) -> int
    decreases s.len() - from,
{
    if from >= s.len() {
        s.len() as int
    } else if s[from] == c {
        from
    } else {
        first_at(s, c, from + 1)
    }
}

/// The text starts with a sign.
pub open spec fn has_sign(s: Seq<u8>) -> bool {
    s.len() > 0 && (s[0] == PLUS || s[0] == MINUS)
}

/// The text starts with a minus sign.
pub open spec fn is_negative(s: Seq<u8>) -> bool {
    s.len() > 0 && s[0] == MINUS
}

/// The text without its sign.
pub open spec fn unsigned_part(s: Seq<u8>) -> Seq<u8> {
    if has_sign(s) {
        s.skip(1)
    } else {
        s
    }
}

/// The digit at place `i` of a fraction; 0 past its end.
pub open spec fn digit_at(s: Seq<u8>, i: int) -> int {
    if i < s.len() {
        s[i] - 48
    } else {
        0
    }
}

/// The thousandths that the digits of a fraction denote: its first three
/// digits count, any further digit is dropped.
pub open spec fn frac_value(frac: Seq<u8>) -> int {
    digit_at(frac, 0) * 100 + digit_at(frac, 1) * 10 + digit_at(frac, 2)
}

/// The digits before the first `.` of an unsigned decimal.
pub open spec fn whole_part(body: Seq<u8>) -> Seq<u8> {
    body.subrange(0, first_at(body, DOT, 0))
}

/// What follows the first `.` of an unsigned decimal; nothing if it has none.
pub open spec fn frac_part(body: Seq<u8>) -> Seq<u8> {
    let dot = first_at(body, DOT, 0);
    if dot < body.len() {
        body.subrange(dot + 1, body.len() as int)
    } else {
        Seq::empty()
    }
}

/// The byte marks the exponent of a number.
pub open spec fn is_mark(c: u8) -> bool {
    c == SMALL_E || c == LARGE_E
}

/// The first index from `from` on at which `s` holds an exponent mark; the
/// length of `s` if there is none.
pub open spec fn mark_at(s: Seq<u8>, from: int) -> int
    decreases s.len() - from,
{
    if from >= s.len() {
        s.len() as int
    } else if is_mark(s[from]) {
        from
    } else {
        mark_at(s, from + 1)
    }
}

/// What stands before the exponent mark of a number.
pub open spec fn mantissa(s: Seq<u8>) -> Seq<u8> {
    s.subrange(0, mark_at(s, 0))
}

/// What follows the exponent mark of a number; nothing if it has none.
pub open spec fn exponent(s: Seq<u8>) -> Seq<u8> {
    let mark = mark_at(s, 0);
    if mark < s.len() {
        s.subrange(mark + 1, s.len() as int)
    } else {
        Seq::empty()
    }
}

/// `n` zeros.
pub open spec fn zeros(n: int) -> Seq<u8> {
    Seq::new(
        if n > 0 {
            n as nat
        } else {
            0
        },
        |i: int| ZERO,
    )
}

/// The first `m` of the digits `d`, with zeros behind them where `d` has
/// fewer: the digits that stand before the point once it has moved behind the
/// `m`-th digit.
pub open spec fn shifted(d: Seq<u8>, m: int) -> Seq<u8> {
    if m <= 0 {
        Seq::empty()
    } else if m <= d.len() {
        d.take(m)
    } else {
        d + zeros(m - d.len())
    }
}

/// The text is a number with an exponent: a decimal number, an `e` or `E`,
/// and a whole number that fits into 32 bits.
pub open spec fn is_scientific(s: Seq<u8>) -> bool {
    mark_at(s, 0) < s.len() && is_decimal(mantissa(s)) && parse_integer(exponent(s)) is Some
}

/// What a number with an exponent denotes, counted in units of one in ten to
/// the power of `places`: the exponent moves the point of the decimal number
/// before the mark, and the digits that then stand more than `places` behind
/// the point are dropped.
pub open spec fn scientific_value(s: Seq<u8>, places: int) -> int {
    let body = unsigned_part(mantissa(s));
    let whole = whole_part(body);
    let magnitude = value_of(
        shifted(whole + frac_part(body), whole.len() + parse_integer(exponent(s))->0 + places),
    );
    if is_negative(mantissa(s)) {
        -magnitude
    } else {
        magnitude
    }
}

/// The text is a decimal number: an optional sign, digits, and optionally a
/// `.` and more digits, with at least one digit in all.
pub open spec fn is_decimal(s: Seq<u8>) -> bool {
    let body = unsigned_part(s);
    all_digits(whole_part(body)) && all_digits(frac_part(body)) && whole_part(body).len()
        + frac_part(body).len() > 0
}

/// The thousandths that a decimal number denotes.
pub open spec fn decimal_value(s: Seq<u8>) -> int {
    let body = unsigned_part(s);
    let magnitude = value_of(whole_part(body)) * 1000 + frac_value(frac_part(body));
    if is_negative(s) {
        -magnitude
    } else {
        magnitude
    }
}

/// The fixed-point number that a text denotes, if it is a decimal number,
/// with or without an exponent, whose thousandths fit into 64 bits.
#[verifier::opaque]
pub open spec fn parse_decimal(s: Seq<u8>) -> Option<i64> {
    if is_decimal(s) {
        if i64::MIN <= decimal_value(s) <= i64::MAX {
            Some(decimal_value(s) as i64)
        } else {
            None
        }
    } else if is_scientific(s) && i64::MIN <= scientific_value(s, 3) <= i64::MAX {
        Some(scientific_value(s, 3) as i64)
    } else {
        None
    }
}

/// The millionths that the fourth, fifth and sixth digit of a fraction
/// denote; any further digit is dropped.
pub open spec fn tail_value(frac: Seq<u8>) -> int {
    digit_at(frac, 3) * 100 + digit_at(frac, 4) * 10 + digit_at(frac, 5)
}

/// The millionths that a decimal number denotes.
pub open spec fn time_value(s: Seq<u8>) -> int {
    let body = unsigned_part(s);
    let magnitude = value_of(whole_part(body)) * 1_000_000 + frac_value(frac_part(body)) * 1000
        + tail_value(frac_part(body));
    if is_negative(s) {
        -magnitude
    } else {
        magnitude
    }
}

/// The time that a text denotes, if it is a decimal number, with or without
/// an exponent, whose millionths fit into 64 bits. A time is written like any
/// other number and read to six decimals.
#[verifier::opaque]
pub open spec fn parse_time(s: Seq<u8>) -> Option<i64> {
    if is_decimal(s) {
        if i64::MIN <= time_value(s) <= i64::MAX {
            Some(time_value(s) as i64)
        } else {
            None
        }
    } else if is_scientific(s) && i64::MIN <= scientific_value(s, 6) <= i64::MAX {
        Some(scientific_value(s, 6) as i64)
    } else {
        None
    }
}

/// The text is a whole number: an optional sign and at least one digit.
pub open spec fn is_integer(s: Seq<u8>) -> bool {
    unsigned_part(s).len() > 0 && all_digits(unsigned_part(s))
}

/// The number that a whole number denotes.
pub open spec fn integer_value(s: Seq<u8>) -> int {
    if is_negative(s) {
        -value_of(unsigned_part(s))
    } else {
        value_of(unsigned_part(s))
    }
}

/// The number that a text denotes, if it is a whole number that fits into 32
/// bits.
#[verifier::opaque]
pub open spec fn parse_integer(s: Seq<u8>) -> Option<i32> {
    if is_integer(s) && i32::MIN <= integer_value(s) <= i32::MAX {
        Some(integer_value(s) as i32)
    } else {
        None
    }
}

/// The digits of a number that is not negative, without leading zeros.
pub open spec fn digits(n: int) -> Seq<u8>
    decreases n,
{
    if n < 10 {
        seq![(48 + n) as u8]
    } else {
        digits(n / 10).push((48 + n % 10) as u8)
    }
}

/// The fraction of a number with `f` thousandths, `0 <= f < 1000`: nothing
/// for none, else a `.` and up to three digits, without trailing zeros.
pub open spec fn frac_digits(f: int) -> Seq<u8> {
    if f == 0 {
        Seq::empty()
    } else if f % 100 == 0 {
        seq![DOT, (48 + f / 100) as u8]
    } else if f % 10 == 0 {
        seq![DOT, (48 + f / 100) as u8, (48 + (f / 10) % 10) as u8]
    } else {
        seq![DOT, (48 + f / 100) as u8, (48 + (f / 10) % 10) as u8, (48 + f % 10) as u8]
    }
}

/// The fraction of a time with `f` millionths, `0 <= f < 1000000`: that of
/// its thousandths if that is all of it, else a `.` and all six digits.
pub open spec fn time_frac_digits(f: int) -> Seq<u8> {
    let hi = f / 1000;
    let lo = f % 1000;
    if lo == 0 {
        frac_digits(hi)
    } else {
        seq![
            DOT,
            (48 + hi / 100) as u8,
            (48 + (hi / 10) % 10) as u8,
            (48 + hi % 10) as u8,
            (48 + lo / 100) as u8,
            (48 + (lo / 10) % 10) as u8,
            (48 + lo % 10) as u8,
        ]
    }
}

/// The sign of a number as text: `-` for a negative number, else nothing.
pub open spec fn sign_of(v: int) -> Seq<u8> {
    if v < 0 {
        seq![MINUS]
    } else {
        Seq::empty()
    }
}

/// A fixed-point number as text.
pub open spec fn format_decimal(v: int) -> Seq<u8> {
    sign_of(v) + digits(abs(v) / 1000) + frac_digits(abs(v) % 1000)
}

/// A time as text.
pub open spec fn format_time(v: int) -> Seq<u8> {
    sign_of(v) + digits(abs(v) / 1_000_000) + time_frac_digits(abs(v) % 1_000_000)
}

/// A whole number as text.
pub open spec fn format_integer(v: int) -> Seq<u8> {
    sign_of(v) + digits(abs(v))
}

/// The digits of a number are digits, at least one, and denote the number.
pub proof fn lemma_digits(n: int)
    requires
        n >= 0,
    ensures
        digits(n).len() >= 1,
        all_digits(digits(n)),
        value_of(digits(n)) == n,
    decreases n,
{
    if n < 10 {
        let s = digits(n);
        assert(s.drop_last() =~= Seq::<u8>::empty());
        assert(value_of(s.drop_last()) == 0);
    } else {
        lemma_digits(n / 10);
        let s = digits(n);
        let rest = digits(n / 10);
        assert(s.drop_last() =~= rest);
        assert(s.last() == (48 + n % 10) as u8);
        assert forall|i: int| 0 <= i < s.len() implies is_digit(#[trigger] s[i]) by {
            if i < rest.len() {
                assert(s[i] == rest[i]);
            }
        }
    }
}

/// Where `s` holds no `c` from `from` up to `at`, and holds one at `at` or
/// ends there, `at` is where `first_at` finds `c`.
pub proof fn lemma_first_at(s: Seq<u8>, c: u8, from: int, at: int)
    requires
        0 <= from <= at <= s.len(),
        forall|k: int| from <= k < at ==> s[k] != c,
        at < s.len() ==> s[at] == c,
    ensures
        first_at(s, c, from) == at,
    decreases at - from,
{
    if from < at {
        lemma_first_at(s, c, from + 1, at);
    }
}

/// What `first_at` finds: nothing before it is `c`, and it is `c` unless it
/// is the end.
pub proof fn lemma_first_at_found(s: Seq<u8>, c: u8, from: int)
    requires
        0 <= from <= s.len(),
    ensures
        from <= first_at(s, c, from) <= s.len(),
        forall|k: int| from <= k < first_at(s, c, from) ==> s[k] != c,
        first_at(s, c, from) < s.len() ==> s[first_at(s, c, from)] == c,
    decreases s.len() - from,
{
    if from < s.len() && s[from] != c {
        lemma_first_at_found(s, c, from + 1);
    }
}

/// Writing a fixed-point number and reading it back gives the number.
#[verifier::rlimit(40)]
pub proof fn lemma_decimal_round_trip(v: int)
    requires
        i64::MIN <= v <= i64::MAX,
    ensures
        parse_decimal(format_decimal(v)) == Some(v as i64),
        forall|i: int|
            0 <= i < format_decimal(v).len() ==> is_digit(#[trigger] format_decimal(v)[i])
                || format_decimal(v)[i] == MINUS || format_decimal(v)[i] == DOT,
        format_decimal(v).len() > 0,
{
    reveal(parse_decimal);
    let m = abs(v);
    let w = m / 1000;
    let f = m % 1000;
    let s = format_decimal(v);
    let sign = sign_of(v);
    let whole = digits(w);
    let frac = frac_digits(f);
    lemma_digits(w);
    let body = whole + frac;
    assert(whole[0] == body[0]);
    assert(is_digit(body[0]));
    if v < 0 {
        assert(s[0] == MINUS);
        assert(unsigned_part(s) =~= body);
    } else {
        assert(sign =~= Seq::<u8>::empty());
        assert(s =~= body);
        assert(unsigned_part(s) =~= body);
    }
    assert forall|k: int| 0 <= k < whole.len() implies body[k] != DOT by {
        assert(body[k] == whole[k]);
        assert(is_digit(whole[k]));
    }
    if f != 0 {
        assert(frac[0] == DOT);
        assert(body[whole.len() as int] == frac[0]);
    }
    lemma_first_at(body, DOT, 0, whole.len() as int);
    assert(whole_part(body) =~= whole);
    let fp = frac_part(body);
    let d0 = f / 100;
    let d1 = (f / 10) % 10;
    let d2 = f % 10;
    assert(f == d0 * 100 + d1 * 10 + d2);
    if f == 0 {
        assert(fp =~= Seq::<u8>::empty());
    } else if f % 100 == 0 {
        assert(fp =~= seq![(48 + d0) as u8]);
    } else if f % 10 == 0 {
        assert(fp =~= seq![(48 + d0) as u8, (48 + d1) as u8]);
    } else {
        assert(fp =~= seq![(48 + d0) as u8, (48 + d1) as u8, (48 + d2) as u8]);
    }
    assert(frac_value(fp) == f);
    assert(all_digits(fp));
    assert(decimal_value(s) == v);
    assert forall|i: int| 0 <= i < s.len() implies is_digit(#[trigger] s[i]) || s[i] == MINUS
        || s[i] == DOT by {
        let off = sign.len() as int;
        if i >= off {
            assert(s[i] == body[i - off]);
            if i - off < whole.len() {
                assert(body[i - off] == whole[i - off]);
            } else {
                assert(body[i - off] == frac[i - off - whole.len()]);
            }
        }
    }
}

/// Three digits, read back, give the number below a thousand that they are
/// the digits of.
pub proof fn lemma_three_digits(g: int)
    requires
        0 <= g < 1000,
    ensures
        g == (g / 100) * 100 + ((g / 10) % 10) * 10 + g % 10,
        0 <= g / 100 <= 9,
{
}

/// The fraction of a time, read back, gives the time's millionths.
pub proof fn lemma_time_frac(f: int)
    requires
        0 <= f < 1_000_000,
    ensures
        f == 0 ==> time_frac_digits(f).len() == 0,
        f != 0 ==> time_frac_digits(f).len() >= 2 && time_frac_digits(f)[0] == DOT,
        forall|i: int|
            1 <= i < time_frac_digits(f).len() ==> is_digit(#[trigger] time_frac_digits(f)[i]),
        frac_value(time_frac_digits(f).skip(1)) * 1000 + tail_value(time_frac_digits(f).skip(1))
            == f || f == 0,
{
    let t = time_frac_digits(f);
    let hi = f / 1000;
    let lo = f % 1000;
    assert(f == hi * 1000 + lo && 0 <= hi < 1000 && 0 <= lo < 1000);
    lemma_three_digits(hi);
    lemma_three_digits(lo);
    let d0 = hi / 100;
    let d1 = (hi / 10) % 10;
    let d2 = hi % 10;
    if lo == 0 {
        lemma_coarse_frac(hi);
    } else {
        let d3 = lo / 100;
        let d4 = (lo / 10) % 10;
        let d5 = lo % 10;
        let r = t.skip(1);
        assert(r =~= seq![
            (48 + d0) as u8,
            (48 + d1) as u8,
            (48 + d2) as u8,
            (48 + d3) as u8,
            (48 + d4) as u8,
            (48 + d5) as u8,
        ]);
        assert(frac_value(r) == hi);
        assert(tail_value(r) == lo);
    }
}

/// The fraction of a number with `g` thousandths, read back, gives `g`.
pub proof fn lemma_coarse_frac(g: int)
    requires
        0 <= g < 1000,
    ensures
        g == 0 ==> frac_digits(g).len() == 0,
        g != 0 ==> frac_digits(g).len() >= 2 && frac_digits(g)[0] == DOT,
        forall|i: int| 1 <= i < frac_digits(g).len() ==> is_digit(#[trigger] frac_digits(g)[i]),
        g != 0 ==> frac_value(frac_digits(g).skip(1)) == g && tail_value(frac_digits(g).skip(1))
            == 0,
{
    lemma_three_digits(g);
    let t = frac_digits(g);
    let d0 = g / 100;
    let d1 = (g / 10) % 10;
    let d2 = g % 10;
    if g == 0 {
    } else if g % 100 == 0 {
        assert(t.skip(1) =~= seq![(48 + d0) as u8]);
    } else if g % 10 == 0 {
        assert(t.skip(1) =~= seq![(48 + d0) as u8, (48 + d1) as u8]);
    } else {
        assert(t.skip(1) =~= seq![(48 + d0) as u8, (48 + d1) as u8, (48 + d2) as u8]);
    }
}

/// Writing a time and reading it back gives the time.
#[verifier::rlimit(40)]
pub proof fn lemma_time_round_trip(v: int)
    requires
        i64::MIN <= v <= i64::MAX,
    ensures
        parse_time(format_time(v)) == Some(v as i64),
        forall|i: int|
            0 <= i < format_time(v).len() ==> is_digit(#[trigger] format_time(v)[i])
                || format_time(v)[i] == MINUS || format_time(v)[i] == DOT,
        format_time(v).len() > 0,
{
    reveal(parse_time);
    let m = abs(v);
    let w = m / 1_000_000;
    let f = m % 1_000_000;
    let s = format_time(v);
    let sign = sign_of(v);
    let whole = digits(w);
    let frac = time_frac_digits(f);
    lemma_digits(w);
    lemma_time_frac(f);
    let body = whole + frac;
    assert(whole[0] == body[0]);
    assert(is_digit(body[0]));
    if v < 0 {
        assert(s[0] == MINUS);
        assert(unsigned_part(s) =~= body);
    } else {
        assert(sign =~= Seq::<u8>::empty());
        assert(s =~= body);
        assert(unsigned_part(s) =~= body);
    }
    assert forall|k: int| 0 <= k < whole.len() implies body[k] != DOT by {
        assert(body[k] == whole[k]);
        assert(is_digit(whole[k]));
    }
    if f != 0 {
        assert(body[whole.len() as int] == frac[0]);
    }
    lemma_first_at(body, DOT, 0, whole.len() as int);
    assert(whole_part(body) =~= whole);
    let fp = frac_part(body);
    if f == 0 {
        assert(fp =~= Seq::<u8>::empty());
    } else {
        assert(fp =~= frac.skip(1));
        assert forall|i: int| 0 <= i < fp.len() implies is_digit(#[trigger] fp[i]) by {
            assert(fp[i] == frac[i + 1]);
        }
    }
    assert(frac_value(fp) * 1000 + tail_value(fp) == f);
    assert(all_digits(fp));
    assert(time_value(s) == v);
    assert forall|i: int| 0 <= i < s.len() implies is_digit(#[trigger] s[i]) || s[i] == MINUS
        || s[i] == DOT by {
        let off = sign.len() as int;
        if i >= off {
            assert(s[i] == body[i - off]);
            if i - off < whole.len() {
                assert(body[i - off] == whole[i - off]);
            } else {
                assert(body[i - off] == frac[i - off - whole.len()]);
            }
        }
    }
}

/// Writing a whole number and reading it back gives the number.
pub proof fn lemma_integer_round_trip(v: int)
    requires
        i32::MIN <= v <= i32::MAX,
    ensures
        parse_integer(format_integer(v)) == Some(v as i32),
        forall|i: int|
            0 <= i < format_integer(v).len() ==> is_digit(#[trigger] format_integer(v)[i])
                || format_integer(v)[i] == MINUS,
        format_integer(v).len() > 0,
{
    reveal(parse_integer);
    let s = format_integer(v);
    let body = digits(abs(v));
    lemma_digits(abs(v));
    assert(is_digit(body[0]));
    if v < 0 {
        assert(s[0] == MINUS);
        assert(unsigned_part(s) =~= body);
    } else {
        assert(s =~= body);
        assert(unsigned_part(s) =~= body);
    }
    assert forall|i: int| 0 <= i < s.len() implies is_digit(#[trigger] s[i]) || s[i] == MINUS by {
        if v < 0 && i >= 1 {
            assert(s[i] == body[i - 1]);
        }
    }
}

/// Whether a byte is a decimal digit.
pub fn digit(c: u8) -> (r: bool)
    ensures
        r == is_digit(c),
{
    48 <= c && c <= 57
}

/// The number that the digits `text[start..end]` denote, or `cap` if that
/// number is `cap` or more; `None` if one of the bytes is no digit.
#[verifier::rlimit(40)]
fn read_digits(text: &[u8], start: usize, end: usize, cap: i128) -> (r: Option<i128>)
    requires
        start <= end <= text@.len(),
        0 <= cap <= 1_000_000_000_000_000_000_000_000,
    ensures
        r is Some <==> all_digits(text@.subrange(start as int, end as int)),
        r is Some ==> r->0 == (if value_of(text@.subrange(start as int, end as int)) < cap {
            value_of(text@.subrange(start as int, end as int))
        } else {
            cap as int
        }),
        r is Some ==> 0 <= r->0 <= cap,
{
    let ghost s = text@.subrange(start as int, end as int);
    let mut acc: i128 = 0;
    let mut i: usize = start;
    assert(s.subrange(0, 0) =~= Seq::<u8>::empty());
    while i < end
        invariant
            start <= i <= end <= text@.len(),
            s == text@.subrange(start as int, end as int),
            0 <= cap <= 1_000_000_000_000_000_000_000_000,
            all_digits(s.subrange(0, i - start)),
            value_of(s.subrange(0, i - start)) >= 0,
            acc == (if value_of(s.subrange(0, i - start)) < cap {
                value_of(s.subrange(0, i - start))
            } else {
                cap as int
            }),
        decreases end - i,
    {
        let c: u8 = text[i];
        assert(c == s[i - start]);
        if !digit(c) {
            return None;
        }
        proof {
            let next = s.subrange(0, i - start + 1);
            assert(next.drop_last() =~= s.subrange(0, i - start));
            assert(next.last() == c);
            assert forall|k: int| 0 <= k < next.len() implies is_digit(#[trigger] next[k]) by {
                if k < i - start {
                    assert(next[k] == s.subrange(0, i - start)[k]);
                }
            }
        }
        let grown: i128 = acc * 10 + (c - 48) as i128;
        acc = if grown < cap {
            grown
        } else {
            cap
        };
        i = i + 1;
    }
    assert(s.subrange(0, end - start) =~= s);
    Some(acc)
}

/// The position of the first `c` in `text[start..end]`, or `end`.
pub fn find_byte(text: &[u8], start: usize, end: usize, c: u8) -> (at: usize)
    requires
        start <= end <= text@.len(),
    ensures
        start <= at <= end,
        at - start == first_at(text@.subrange(start as int, end as int), c, 0),
        forall|k: int| start <= k < at ==> text@[k] != c,
        at < end ==> text@[at as int] == c,
{
    let ghost s = text@.subrange(start as int, end as int);
    let mut i: usize = start;
    while i < end && text[i] != c
        invariant
            start <= i <= end <= text@.len(),
            s == text@.subrange(start as int, end as int),
            forall|k: int| start <= k < i ==> text@[k] != c,
        decreases end - i,
    {
        i = i + 1;
    }
    proof {
        assert forall|k: int| 0 <= k < i - start implies s[k] != c by {
            assert(s[k] == text@[start + k]);
        }
        if i < end {
            assert(s[i - start] == text@[i as int]);
        }
        lemma_first_at(s, c, 0, i - start);
    }
    i
}

/// The thousandths that the fraction digits `text[start..end]` denote;
/// `None` if one of the bytes is no digit.
fn read_fraction(text: &[u8], start: usize, end: usize) -> (r: Option<i128>)
    requires
        start <= end <= text@.len(),
    ensures
        r is Some <==> all_digits(text@.subrange(start as int, end as int)),
        r is Some ==> r->0 == frac_value(text@.subrange(start as int, end as int)),
        r is Some ==> 0 <= r->0 <= 999,
{
    let ghost frac = text@.subrange(start as int, end as int);
    match read_digits(text, start, end, 0) {
        Some(_) => {},
        None => {
            return None;
        },
    }
    let mut thousandths: i128 = 0;
    if end - start > 0 {
        assert(frac[0] == text@[start as int] && is_digit(frac[0]));
        thousandths = thousandths + ((text[start] - 48) as i128) * 100;
    }
    if end - start > 1 {
        assert(frac[1] == text@[start + 1] && is_digit(frac[1]));
        thousandths = thousandths + ((text[start + 1] - 48) as i128) * 10;
    }
    if end - start > 2 {
        assert(frac[2] == text@[start + 2] && is_digit(frac[2]));
        thousandths = thousandths + (text[start + 2] - 48) as i128;
    }
    Some(thousandths)
}

/// The sign that `text[start..end]` starts with: whether it is a minus sign,
/// and where the text goes on after it.
fn read_sign(text: &[u8], start: usize, end: usize) -> (r: (bool, usize))
    requires
        start <= end <= text@.len(),
    ensures
        r.0 == is_negative(text@.subrange(start as int, end as int)),
        start <= r.1 <= end,
        text@.subrange(r.1 as int, end as int) == unsigned_part(
            text@.subrange(start as int, end as int),
        ),
{
    let ghost s = text@.subrange(start as int, end as int);
    if start < end && (text[start] == PLUS || text[start] == MINUS) {
        assert(s[0] == text@[start as int]);
        assert(text@.subrange(start + 1, end as int) =~= s.skip(1));
        (text[start] == MINUS, start + 1)
    } else {
        assert(s.len() > 0 ==> s[0] == text@[start as int]);
        (false, start)
    }
}

/// Where `s` holds no exponent mark from `from` up to `at`, and holds one at
/// `at` or ends there, `at` is where `mark_at` finds the mark.
pub proof fn lemma_mark_at(s: Seq<u8>, from: int, at: int)
    requires
        0 <= from <= at <= s.len(),
        forall|k: int| from <= k < at ==> !is_mark(s[k]),
        at < s.len() ==> is_mark(s[at]),
    ensures
        mark_at(s, from) == at,
    decreases at - from,
{
    if from < at {
        lemma_mark_at(s, from + 1, at);
    }
}

/// A text that holds an exponent mark is no decimal number without exponent.
pub proof fn lemma_mark_is_no_digit(s: Seq<u8>, i: int)
    requires
        0 <= i < s.len(),
        is_mark(s[i]),
    ensures
        !is_decimal(s),
{
    let body = unsigned_part(s);
    let j = if has_sign(s) {
        i - 1
    } else {
        i
    };
    assert(body[j] == s[i]);
    lemma_first_at_found(body, DOT, 0);
    let dot = first_at(body, DOT, 0);
    if j < dot {
        assert(whole_part(body)[j] == body[j]);
    } else {
        assert(j > dot);
        assert(frac_part(body)[j - dot - 1] == body[j]);
    }
}

/// Digits denote a number that is not negative, and more digits behind them
/// make it no smaller.
pub proof fn lemma_value_grows(a: Seq<u8>, b: Seq<u8>)
    requires
        all_digits(a),
        all_digits(b),
    ensures
        0 <= value_of(a) <= value_of(a + b),
        value_of(a) == 0 && b =~= zeros(b.len() as int) ==> value_of(a + b) == 0,
    decreases b.len(),
{
    if b.len() == 0 {
        assert(a + b =~= a);
        lemma_value_grows_empty(a);
    } else {
        let rest = b.drop_last();
        assert forall|i: int| 0 <= i < rest.len() implies is_digit(#[trigger] rest[i]) by {
            assert(rest[i] == b[i]);
        }
        lemma_value_grows(a, rest);
        assert((a + b).drop_last() =~= a + rest);
        assert((a + b).last() == b.last());
        assert(is_digit(b[b.len() - 1]));
        if b =~= zeros(b.len() as int) {
            assert(rest =~= zeros(rest.len() as int));
            assert(b.last() == ZERO);
        }
    }
}

/// Digits denote a number that is not negative.
pub proof fn lemma_value_grows_empty(a: Seq<u8>)
    requires
        all_digits(a),
    ensures
        0 <= value_of(a),
    decreases a.len(),
{
    if a.len() > 0 {
        let rest = a.drop_last();
        assert forall|i: int| 0 <= i < rest.len() implies is_digit(#[trigger] rest[i]) by {
            assert(rest[i] == a[i]);
        }
        lemma_value_grows_empty(rest);
        assert(is_digit(a[a.len() - 1]));
    }
}

/// A number, or `cap` if the number is `cap` or more.
pub open spec fn capped(v: int, cap: int) -> int {
    if v < cap {
        v
    } else {
        cap
    }
}

/// The position of the first exponent mark in `text[start..end]`, or `end`.
pub fn find_mark(text: &[u8], start: usize, end: usize) -> (at: usize)
    requires
        start <= end <= text@.len(),
    ensures
        start <= at <= end,
        at - start == mark_at(text@.subrange(start as int, end as int), 0),
        at < end ==> is_mark(text@[at as int]),
{
    let ghost s = text@.subrange(start as int, end as int);
    let mut i: usize = start;
    while i < end && text[i] != SMALL_E && text[i] != LARGE_E
        invariant
            start <= i <= end <= text@.len(),
            s == text@.subrange(start as int, end as int),
            forall|k: int| start <= k < i ==> !is_mark(text@[k]),
        decreases end - i,
    {
        i = i + 1;
    }
    proof {
        assert forall|k: int| 0 <= k < i - start implies !is_mark(s[k]) by {
            assert(s[k] == text@[start + k]);
        }
        if i < end {
            assert(s[i - start] == text@[i as int]);
        }
        lemma_mark_at(s, 0, i - start);
    }
    i
}

/// The number that the digits `before` and then `text[start..end]` denote,
/// or `cap` if that number is `cap` or more; `acc` is that of `before`.
fn append_digits(
    text: &[u8],
    start: usize,
    end: usize,
    cap: i128,
    acc: i128,
    Ghost(before): Ghost<Seq<u8>>,
) -> (r: i128)
    requires
        start <= end <= text@.len(),
        0 <= cap <= 1_000_000_000_000_000_000_000_000,
        all_digits(before),
        all_digits(text@.subrange(start as int, end as int)),
        acc == capped(value_of(before), cap as int),
    ensures
        r == capped(value_of(before + text@.subrange(start as int, end as int)), cap as int),
        0 <= r <= cap,
{
    let ghost s = text@.subrange(start as int, end as int);
    let mut acc: i128 = acc;
    let mut i: usize = start;
    proof {
        assert(before + s.subrange(0, 0) =~= before);
        lemma_value_grows_empty(before);
    }
    while i < end
        invariant
            start <= i <= end <= text@.len(),
            s == text@.subrange(start as int, end as int),
            0 <= cap <= 1_000_000_000_000_000_000_000_000,
            all_digits(s),
            value_of(before + s.subrange(0, i - start)) >= 0,
            acc == capped(value_of(before + s.subrange(0, i - start)), cap as int),
        decreases end - i,
    {
        let c: u8 = text[i];
        proof {
            assert(c == s[i - start]);
            assert(is_digit(s[i - start]));
            let next = before + s.subrange(0, i - start + 1);
            assert(next.drop_last() =~= before + s.subrange(0, i - start));
            assert(next.last() == c);
        }
        let grown: i128 = acc * 10 + (c - 48) as i128;
        acc = if grown < cap {
            grown
        } else {
            cap
        };
        i = i + 1;
    }
    assert(s.subrange(0, end - start) =~= s);
    acc
}

/// The number that the digits `before` and then `n` zeros denote, or `cap`
/// if that number is `cap` or more; `acc` is that of `before`.
fn append_zeros(acc: i128, n: i128, cap: i128, Ghost(before): Ghost<Seq<u8>>) -> (r: i128)
    requires
        0 <= n,
        1 <= cap <= 1_000_000_000_000_000_000_000_000,
        all_digits(before),
        acc == capped(value_of(before), cap as int),
    ensures
        r == capped(value_of(before + zeros(n as int)), cap as int),
        0 <= r <= cap,
{
    let mut acc: i128 = acc;
    let mut i: i128 = 0;
    proof {
        assert(before + zeros(0) =~= before);
        lemma_value_grows_empty(before);
    }
    while i < n && 0 < acc && acc < cap
        invariant
            0 <= i <= n,
            1 <= cap <= 1_000_000_000_000_000_000_000_000,
            all_digits(before),
            value_of(before + zeros(i as int)) >= 0,
            acc == capped(value_of(before + zeros(i as int)), cap as int),
        decreases n - i,
    {
        proof {
            let next = before + zeros(i + 1);
            assert(next.drop_last() =~= before + zeros(i as int));
            assert(next.last() == ZERO);
        }
        let grown: i128 = acc * 10;
        acc = if grown < cap {
            grown
        } else {
            cap
        };
        i = i + 1;
    }
    proof {
        let so_far = before + zeros(i as int);
        let rest = zeros(n - i);
        assert(so_far + rest =~= before + zeros(n as int));
        assert forall|k: int| 0 <= k < so_far.len() implies is_digit(#[trigger] so_far[k]) by {
            if k < before.len() {
                assert(so_far[k] == before[k]);
            }
        }
        lemma_value_grows(so_far, rest);
        assert(rest =~= zeros(rest.len() as int));
    }
    acc
}

/// Reads the number with an exponent that `text[start..end]` denotes, in
/// units of one in ten to the power of `places`; its first exponent mark
/// stands at `mark`.
#[verifier::rlimit(60)]
fn read_scientific(text: &[u8], start: usize, mark: usize, end: usize, places: i128) -> (r:
    Option<i64>)
    requires
        start <= mark < end <= text@.len(),
        mark - start == mark_at(text@.subrange(start as int, end as int), 0),
        0 <= places <= 6,
    ensures
        r == (if is_scientific(text@.subrange(start as int, end as int)) && i64::MIN
            <= scientific_value(text@.subrange(start as int, end as int), places as int)
            <= i64::MAX {
            Some(scientific_value(text@.subrange(start as int, end as int), places as int) as i64)
        } else {
            None
        }),
{
    let ghost s = text@.subrange(start as int, end as int);
    proof {
        assert(text@.subrange(start as int, mark as int) =~= mantissa(s));
        assert(text@.subrange(mark + 1, end as int) =~= exponent(s));
    }
    let k: i32 = match read_integer(text, mark + 1, end) {
        Some(k) => k,
        None => {
            return None;
        },
    };
    let (negative, from) = read_sign(text, start, mark);
    let ghost body = text@.subrange(from as int, mark as int);
    let dot: usize = find_byte(text, from, mark, DOT);
    let frac_from: usize = if dot < mark {
        dot + 1
    } else {
        mark
    };
    let ghost whole = text@.subrange(from as int, dot as int);
    let ghost frac = text@.subrange(frac_from as int, mark as int);
    proof {
        assert(whole =~= whole_part(body));
        assert(frac =~= frac_part(body));
    }
    let cap: i128 = 10_000_000_000_000_000_000;
    let w: i128 = match read_digits(text, from, dot, cap) {
        Some(w) => w,
        None => {
            return None;
        },
    };
    match read_digits(text, frac_from, mark, 0) {
        Some(_) => {},
        None => {
            return None;
        },
    }
    if dot - from + (mark - frac_from) == 0 {
        return None;
    }
    assert(is_scientific(s));
    let ghost all = whole + frac;
    let count: i128 = (dot - from) as i128 + (mark - frac_from) as i128;
    let m: i128 = (dot - from) as i128 + k as i128 + places;
    proof {
        assert forall|i: int| 0 <= i < all.len() implies is_digit(#[trigger] all[i]) by {
            if i < whole.len() {
                assert(all[i] == whole[i]);
            } else {
                assert(all[i] == frac[i - whole.len()]);
            }
        }
    }
    let magnitude: i128 = if m <= 0 {
        0
    } else if m <= (dot - from) as i128 {
        let upto: usize = from + m as usize;
        proof {
            assert(text@.subrange(from as int, upto as int) =~= all.take(m as int));
            assert forall|i: int| 0 <= i < m implies is_digit(#[trigger] all.take(m as int)[i]) by {
                assert(all.take(m as int)[i] == all[i]);
            }
        }
        match read_digits(text, from, upto, cap) {
            Some(v) => v,
            None => {
                return None;
            },
        }
    } else if m <= count {
        let upto: usize = frac_from + (m - (dot - from) as i128) as usize;
        proof {
            let part = text@.subrange(frac_from as int, upto as int);
            assert(whole + part =~= all.take(m as int));
            assert forall|i: int| 0 <= i < part.len() implies is_digit(#[trigger] part[i]) by {
                assert(part[i] == frac[i]);
            }
        }
        append_digits(text, frac_from, upto, cap, w, Ghost(whole))
    } else {
        let a: i128 = append_digits(text, frac_from, mark, cap, w, Ghost(whole));
        append_zeros(a, m - count, cap, Ghost(all))
    };
    assert(magnitude == capped(value_of(shifted(all, m as int)), cap as int));
    if magnitude >= cap {
        return None;
    }
    let value: i128 = if negative {
        -magnitude
    } else {
        magnitude
    };
    if value < i64::MIN as i128 || value > i64::MAX as i128 {
        return None;
    }
    Some(value as i64)
}

/// Reads the fixed-point number that `text[start..end]` denotes.
#[verifier::rlimit(40)]
pub fn read_decimal(text: &[u8], start: usize, end: usize) -> (r: Option<i64>)
    requires
        start <= end <= text@.len(),
    ensures
        r == parse_decimal(text@.subrange(start as int, end as int)),
{
    proof {
        reveal(parse_decimal);
    }
    let mark: usize = find_mark(text, start, end);
    if mark < end {
        proof {
            let s = text@.subrange(start as int, end as int);
            assert(s[mark - start] == text@[mark as int]);
            lemma_mark_is_no_digit(s, mark - start);
        }
        return read_scientific(text, start, mark, end, 3);
    }
    let (negative, from) = read_sign(text, start, end);
    let ghost body = text@.subrange(from as int, end as int);
    let dot: usize = find_byte(text, from, end, DOT);
    let frac_from: usize = if dot < end {
        dot + 1
    } else {
        end
    };
    proof {
        assert(text@.subrange(from as int, dot as int) =~= whole_part(body));
        assert(text@.subrange(frac_from as int, end as int) =~= frac_part(body));
    }
    let whole: i128 = match read_digits(text, from, dot, 100_000_000_000_000_000) {
        Some(w) => w,
        None => {
            return None;
        },
    };
    let thousandths: i128 = match read_fraction(text, frac_from, end) {
        Some(t) => t,
        None => {
            return None;
        },
    };
    if dot - from + (end - frac_from) == 0 {
        return None;
    }
    let magnitude: i128 = whole * 1000 + thousandths;
    let value: i128 = if negative {
        -magnitude
    } else {
        magnitude
    };
    if value < i64::MIN as i128 || value > i64::MAX as i128 {
        return None;
    }
    Some(value as i64)
}

/// The millionths that the fourth to sixth of the fraction digits
/// `text[start..end]` denote.
fn read_tail(text: &[u8], start: usize, end: usize) -> (r: i128)
    requires
        start <= end <= text@.len(),
        all_digits(text@.subrange(start as int, end as int)),
    ensures
        r == tail_value(text@.subrange(start as int, end as int)),
        0 <= r <= 999,
{
    let ghost frac = text@.subrange(start as int, end as int);
    let mut millionths: i128 = 0;
    if end - start > 3 {
        assert(frac[3] == text@[start + 3] && is_digit(frac[3]));
        millionths = millionths + ((text[start + 3] - 48) as i128) * 100;
    }
    if end - start > 4 {
        assert(frac[4] == text@[start + 4] && is_digit(frac[4]));
        millionths = millionths + ((text[start + 4] - 48) as i128) * 10;
    }
    if end - start > 5 {
        assert(frac[5] == text@[start + 5] && is_digit(frac[5]));
        millionths = millionths + (text[start + 5] - 48) as i128;
    }
    millionths
}

/// Reads the time that `text[start..end]` denotes.
#[verifier::rlimit(40)]
pub fn read_time(text: &[u8], start: usize, end: usize) -> (r: Option<i64>)
    requires
        start <= end <= text@.len(),
    ensures
        r == parse_time(text@.subrange(start as int, end as int)),
{
    proof {
        reveal(parse_time);
    }
    let mark: usize = find_mark(text, start, end);
    if mark < end {
        proof {
            let s = text@.subrange(start as int, end as int);
            assert(s[mark - start] == text@[mark as int]);
            lemma_mark_is_no_digit(s, mark - start);
        }
        return read_scientific(text, start, mark, end, 6);
    }
    let (negative, from) = read_sign(text, start, end);
    let ghost body = text@.subrange(from as int, end as int);
    let dot: usize = find_byte(text, from, end, DOT);
    let frac_from: usize = if dot < end {
        dot + 1
    } else {
        end
    };
    proof {
        assert(text@.subrange(from as int, dot as int) =~= whole_part(body));
        assert(text@.subrange(frac_from as int, end as int) =~= frac_part(body));
    }
    let whole: i128 = match read_digits(text, from, dot, 100_000_000_000_000) {
        Some(w) => w,
        None => {
            return None;
        },
    };
    let thousandths: i128 = match read_fraction(text, frac_from, end) {
        Some(t) => t,
        None => {
            return None;
        },
    };
    let millionths: i128 = read_tail(text, frac_from, end);
    if dot - from + (end - frac_from) == 0 {
        return None;
    }
    let magnitude: i128 = whole * 1_000_000 + thousandths * 1000 + millionths;
    let value: i128 = if negative {
        -magnitude
    } else {
        magnitude
    };
    if value < i64::MIN as i128 || value > i64::MAX as i128 {
        return None;
    }
    Some(value as i64)
}

/// Reads the whole number that `text[start..end]` denotes.
pub fn read_integer(text: &[u8], start: usize, end: usize) -> (r: Option<i32>)
    requires
        start <= end <= text@.len(),
    ensures
        r == parse_integer(text@.subrange(start as int, end as int)),
{
    proof {
        reveal(parse_integer);
    }
    let (negative, from) = read_sign(text, start, end);
    if from == end {
        return None;
    }
    let magnitude: i128 = match read_digits(text, from, end, 10_000_000_000) {
        Some(m) => m,
        None => {
            return None;
        },
    };
    let value: i128 = if negative {
        -magnitude
    } else {
        magnitude
    };
    if value < i32::MIN as i128 || value > i32::MAX as i128 {
        return None;
    }
    Some(value as i32)
}

/// Appends the digits of `n` to `out`.
fn push_digits(out: &mut Vec<u8>, n: u64)
    ensures
        final(out)@ == old(out)@ + digits(n as int),
    decreases n,
{
    if n >= 10 {
        push_digits(out, n / 10);
    }
    out.push(48 + (n % 10) as u8);
    proof {
        if n >= 10 {
            assert(final(out)@ =~= old(out)@ + digits(n as int));
        } else {
            assert(final(out)@ =~= old(out)@ + digits(n as int));
        }
    }
}

/// The magnitude of `v`.
fn magnitude_of(v: i64) -> (m: u64)
    ensures
        m == abs(v as int),
{
    if v < 0 {
        ((-(v + 1)) as u64) + 1
    } else {
        v as u64
    }
}

/// Appends the fixed-point number `v` to `out`.
pub fn push_decimal(out: &mut Vec<u8>, v: i64)
    ensures
        final(out)@ == old(out)@ + format_decimal(v as int),
{
    let ghost before = out@;
    if v < 0 {
        out.push(MINUS);
    }
    let m: u64 = magnitude_of(v);
    push_digits(out, m / 1000);
    let f: u64 = m % 1000;
    if f != 0 {
        out.push(DOT);
        out.push(48 + (f / 100) as u8);
        if f % 100 != 0 {
            out.push(48 + ((f / 10) % 10) as u8);
            if f % 10 != 0 {
                out.push(48 + (f % 10) as u8);
            }
        }
    }
    assert(out@ =~= before + format_decimal(v as int));
}

/// Appends the time `v` to `out`.
pub fn push_time(out: &mut Vec<u8>, v: i64)
    ensures
        final(out)@ == old(out)@ + format_time(v as int),
{
    let ghost before = out@;
    if v < 0 {
        out.push(MINUS);
    }
    let m: u64 = magnitude_of(v);
    push_digits(out, m / 1_000_000);
    let f: u64 = m % 1_000_000;
    let g: u64 = f / 1000;
    let lo: u64 = f % 1000;
    if lo != 0 {
        out.push(DOT);
        out.push(48 + (g / 100) as u8);
        out.push(48 + ((g / 10) % 10) as u8);
        out.push(48 + (g % 10) as u8);
        out.push(48 + (lo / 100) as u8);
        out.push(48 + ((lo / 10) % 10) as u8);
        out.push(48 + (lo % 10) as u8);
    } else {
        if g != 0 {
            out.push(DOT);
            out.push(48 + (g / 100) as u8);
            if g % 100 != 0 {
                out.push(48 + ((g / 10) % 10) as u8);
                if g % 10 != 0 {
                    out.push(48 + (g % 10) as u8);
                }
            }
        }
    }
    assert(out@ =~= before + format_time(v as int));
}

/// Appends the whole number `v` to `out`.
pub fn push_integer(out: &mut Vec<u8>, v: i32)
    ensures
        final(out)@ == old(out)@ + format_integer(v as int),
{
    let ghost before = out@;
    if v < 0 {
        out.push(MINUS);
    }
    push_digits(out, magnitude_of(v as i64));
    assert(out@ =~= before + format_integer(v as int));
}

} // verus!
