//! Numbers written as text, and text read as numbers.

use vstd::arithmetic::power::*;
use vstd::prelude::*;
use vstd::slice::slice_subrange;

use crate::text::{self, chars_of, find_char, lowercased, same_text, string_of};

verus! {

/// The value of the digit `c`, or 16 when `c` is not a digit.
pub open spec fn digit_of(c: char) -> int {
    if '0' <= c <= '9' {
        c as int - '0' as int
    } else if 'a' <= c <= 'f' {
        c as int - 'a' as int + 10
    } else if 'A' <= c <= 'F' {
        c as int - 'A' as int + 10
    } else {
        16
    }
}

/// Whether `s` consists of digits of the base `radix`.
pub open spec fn all_digits(s: Seq<char>, radix: int) -> bool {
    forall|i: int| 0 <= i < s.len() ==> digit_of(#[trigger] s[i]) < radix
}

/// The number that the digits `s` write in the base `radix`.
pub open spec fn number_value(s: Seq<char>, radix: int) -> int
    decreases s.len(),
{
    if s.len() == 0 {
        0
    } else {
        number_value(s.drop_last(), radix) * radix + digit_of(s.last())
    }
}

/// The number, at most `max`, that `s` writes in the base `radix`: one or more
/// digits, after an optional plus sign.
pub open spec fn unsigned_number(s: Seq<char>, radix: int, max: int) -> Option<int> {
    let digits = if s.len() > 0 && s[0] == '+' {
        s.drop_first()
    } else {
        s
    };
    if digits.len() > 0 && all_digits(digits, radix) && number_value(digits, radix) <= max {
        Some(number_value(digits, radix))
    } else {
        None
    }
}

/// The number that `s` writes in the base ten, in the range of `i64`: one or more
/// digits, after an optional sign.
pub open spec fn signed_number(s: Seq<char>) -> Option<int> {
    if s.len() > 0 && s[0] == '-' {
        if s.len() > 1 && s[1] == '+' {
            None
        } else {
            match unsigned_number(s.drop_first(), 10, i64::MAX + 1) {
                Some(n) => Some(-n),
                None => None,
            }
        }
    } else {
        unsigned_number(s, 10, i64::MAX as int)
    }
}

/// The longest start of `s` that consists of decimal digits.
pub open spec fn leading_digits(s: Seq<char>) -> Seq<char>
    decreases s.len(),
{
    if s.len() > 0 && '0' <= s[0] <= '9' {
        seq![s[0]] + leading_digits(s.drop_first())
    } else {
        seq![]
    }
}

/// `s` without one sign at its start.
pub open spec fn without_sign(s: Seq<char>) -> Seq<char> {
    if s.len() > 0 && (s[0] == '+' || s[0] == '-') {
        s.drop_first()
    } else {
        s
    }
}

/// Whether `s` is a decimal fraction: digits with at most one point among them, in
/// front of them or behind them, and at least one digit.
pub open spec fn decimal_fraction(s: Seq<char>) -> bool {
    let point = text::char_index(s, '.');
    if point == s.len() {
        s.len() > 0 && all_digits(s, 10)
    } else {
        s.len() > 1 && all_digits(s.take(point), 10) && all_digits(s.skip(point + 1), 10)
    }
}

/// Whether `s` is an exponent: digits, after an optional sign.
pub open spec fn exponent(s: Seq<char>) -> bool {
    without_sign(s).len() > 0 && all_digits(without_sign(s), 10)
}

/// Whether `s` writes a real number: after an optional sign, a decimal fraction, with an
/// exponent behind an `e` where there is one, or one of the words `inf`, `infinity` and
/// `nan`. Capitals are as good as small letters.
pub open spec fn real_number(s: Seq<char>) -> bool {
    let body = number_body(s);
    infinite(body) || body == "nan"@ || decimal_number(body)
}

/// `s` without its sign, in lower case.
pub open spec fn number_body(s: Seq<char>) -> Seq<char> {
    text::lowercase(without_sign(s))
}

/// Whether `s` begins with a minus sign.
pub open spec fn negative(s: Seq<char>) -> bool {
    s.len() > 0 && s[0] == '-'
}

/// Whether `body` is a word for a number beyond all others.
pub open spec fn infinite(body: Seq<char>) -> bool {
    body == "inf"@ || body == "infinity"@
}

/// The part of `body` in front of its exponent.
pub open spec fn mantissa(body: Seq<char>) -> Seq<char> {
    body.take(text::char_index(body, 'e'))
}

/// Whether `body` is a decimal fraction, with an exponent where there is one.
pub open spec fn decimal_number(body: Seq<char>) -> bool {
    let e = text::char_index(body, 'e');
    decimal_fraction(mantissa(body)) && (e == body.len() || exponent(body.skip(e + 1)))
}

/// The digits of a decimal fraction, without the point.
pub open spec fn fraction_digits(s: Seq<char>) -> Seq<char> {
    let point = text::char_index(s, '.');
    if point == s.len() {
        s
    } else {
        s.take(point) + s.skip(point + 1)
    }
}

/// How many digits of a decimal fraction stand behind the point.
pub open spec fn fraction_places(s: Seq<char>) -> int {
    let point = text::char_index(s, '.');
    if point == s.len() {
        0
    } else {
        s.len() - point - 1
    }
}

/// The value of the exponent of `body`: zero, if it has none.
pub open spec fn exponent_value(body: Seq<char>) -> int {
    let e = text::char_index(body, 'e');
    if e == body.len() {
        0
    } else {
        let power = body.skip(e + 1);
        if negative(power) {
            -number_value(without_sign(power), 10)
        } else {
            number_value(without_sign(power), 10)
        }
    }
}

/// Whether a number without its sign is at most one: its digits, as a whole number, are
/// at most ten to the power of the places behind the point, less the exponent.
pub open spec fn at_most_one(body: Seq<char>) -> bool {
    let m = number_value(fraction_digits(mantissa(body)), 10);
    let k = fraction_places(mantissa(body));
    let x = exponent_value(body);
    m == 0 || (x <= k && m <= pow(10, (k - x) as nat))
}

/// Whether `s` writes a number that is at least zero and at most one.
pub open spec fn in_unit_range(s: Seq<char>) -> bool {
    let body = number_body(s);
    &&& real_number(s)
    &&& !infinite(body)
    &&& body != "nan"@
    &&& at_most_one(body)
    &&& negative(s) ==> number_value(fraction_digits(mantissa(body)), 10) == 0
}

/// The number that `s` writes, held between zero and one: `s` itself, if it is there
/// already, and otherwise the end of the range that it lies beyond.
pub open spec fn unit_fraction(s: Seq<char>) -> Option<Seq<char>> {
    if !real_number(s) || number_body(s) == "nan"@ {
        None
    } else if in_unit_range(s) {
        Some(s)
    } else if negative(s) {
        Some("0"@)
    } else {
        Some("1"@)
    }
}

/// The digit with the value `d`, in lower case.
pub open spec fn digit_char(d: int) -> char {
    if d < 10 {
        (d + 48) as u8 as char
    } else {
        (d + 87) as u8 as char
    }
}

/// The digits of `n` in the base `radix`, without leading zeros.
pub open spec fn digits(n: nat, radix: nat) -> Seq<char>
    decreases n,
    via digits_decreases
{
    if radix < 2 || n < radix {
        seq![digit_char(n as int)]
    } else {
        digits(n / radix, radix).push(digit_char((n % radix) as int))
    }
}

#[via_fn]
proof fn digits_decreases(n: nat, radix: nat) {
    if radix >= 2 && n >= radix {
        lemma_quotient_smaller(n, radix);
    }
}

proof fn lemma_quotient_smaller(n: nat, radix: nat)
    by (nonlinear_arith)
    requires
        2 <= radix <= n,
    ensures
        n / radix < n,
{
}

/// `n` in the base ten.
pub open spec fn decimal(n: nat) -> Seq<char> {
    digits(n, 10)
}

/// `n` in the base ten, with a minus sign when it is negative.
pub open spec fn signed_decimal(n: int) -> Seq<char> {
    if n < 0 {
        seq!['-'] + decimal((-n) as nat)
    } else {
        decimal(n as nat)
    }
}

// ---------------------------------------------------------------------------
// Reading
// ---------------------------------------------------------------------------

/// A number is at least as large as the one that a start of its digits writes.
proof fn lemma_number_value_grows(s: Seq<char>, n: int, radix: int)
    requires
        0 <= n <= s.len(),
        2 <= radix <= 16,
        all_digits(s, radix),
    ensures
        0 <= number_value(s.take(n), radix) <= number_value(s, radix),
    decreases s.len() - n,
{
    lemma_number_value_natural(s.take(n), radix);
    if n == s.len() {
        assert(s.take(n) =~= s);
    } else {
        lemma_number_value_grows(s, n + 1, radix);
        assert(s.take(n + 1).drop_last() =~= s.take(n));
        let low = number_value(s.take(n), radix);
        assert(digit_of(s[n]) >= 0);
        assert(low <= low * radix) by (nonlinear_arith)
            requires
                low >= 0,
                radix >= 2,
        ;
    }
}

proof fn lemma_number_value_natural(s: Seq<char>, radix: int)
    requires
        2 <= radix <= 16,
    ensures
        number_value(s, radix) >= 0,
    decreases s.len(),
{
    if s.len() > 0 {
        lemma_number_value_natural(s.drop_last(), radix);
        let low = number_value(s.drop_last(), radix);
        assert(low * radix >= 0) by (nonlinear_arith)
            requires
                low >= 0,
                radix >= 2,
        ;
    }
}

/// A number read without a minus sign is not negative.
pub proof fn lemma_unsigned_natural(s: Seq<char>, radix: int, max: int)
    requires
        2 <= radix <= 16,
    ensures
        unsigned_number(s, radix, max) matches Some(n) ==> 0 <= n <= max,
{
    lemma_number_value_natural(s, radix);
    if s.len() > 0 {
        lemma_number_value_natural(s.drop_first(), radix);
    }
}

/// The value of the digit `c`, or 16.
fn read_digit(c: char) -> (r: u8)
    ensures
        r == digit_of(c),
{
    if '0' <= c && c <= '9' {
        c as u8 - 48
    } else if 'a' <= c && c <= 'f' {
        c as u8 - 87
    } else if 'A' <= c && c <= 'F' {
        c as u8 - 55
    } else {
        16
    }
}

/// The number, at most `max`, that `s` writes in the base `radix`.
pub(crate) fn parse_unsigned(s: &[char], radix: u8, max: u64) -> (r: Option<u64>)
    requires
        2 <= radix <= 16,
    ensures
        match r {
            Some(n) => unsigned_number(s@, radix as int, max as int) == Some(n as int),
            None => unsigned_number(s@, radix as int, max as int) is None,
        },
{
    let start: usize = if s.len() > 0 && s[0] == '+' {
        1
    } else {
        0
    };
    let digits: &[char] = slice_subrange(s, start, s.len());
    proof {
        if start == 0 {
            assert(digits@ =~= s@);
        } else {
            assert(digits@ =~= s@.drop_first());
        }
    }
    if digits.len() == 0 {
        return None;
    }
    let mut value: u64 = 0;
    let mut i: usize = 0;
    while i < digits.len()
        invariant
            2 <= radix <= 16,
            i <= digits@.len(),
            digits@ == (if s@.len() > 0 && s@[0] == '+' {
                s@.drop_first()
            } else {
                s@
            }),
            all_digits(digits@.take(i as int), radix as int),
            value == number_value(digits@.take(i as int), radix as int),
            value <= max,
        decreases digits@.len() - i,
    {
        let d: u8 = read_digit(digits[i]);
        if d >= radix {
            assert(digit_of(digits@[i as int]) >= radix);
            return None;
        }
        assert(value as int * radix as int <= u64::MAX as int * 16) by (nonlinear_arith)
            requires
                0 <= value <= u64::MAX,
                0 <= radix <= 16,
        ;
        let next: u128 = value as u128 * radix as u128 + d as u128;
        proof {
            assert(digits@.take(i + 1).drop_last() =~= digits@.take(i as int));
            assert(digits@.take(i + 1).last() == digits@[i as int]);
            assert(next == number_value(digits@.take(i + 1), radix as int));
        }
        if next > max as u128 {
            proof {
                if all_digits(digits@, radix as int) {
                    lemma_number_value_grows(digits@, i + 1, radix as int);
                }
            }
            return None;
        }
        value = next as u64;
        i = i + 1;
    }
    assert(digits@.take(i as int) =~= digits@);
    Some(value)
}

/// The number that `s` writes, in the range of `i64`.
pub(crate) fn parse_signed(s: &[char]) -> (r: Option<i64>)
    ensures
        match r {
            Some(n) => signed_number(s@) == Some(n as int),
            None => signed_number(s@) is None,
        },
{
    if s.len() > 0 && s[0] == '-' {
        if s.len() > 1 && s[1] == '+' {
            return None;
        }
        let digits: &[char] = slice_subrange(s, 1, s.len());
        assert(digits@ =~= s@.drop_first());
        match parse_unsigned(digits, 10, 9223372036854775808) {
            Some(n) => if n == 9223372036854775808 {
                Some(i64::MIN)
            } else {
                Some(-(n as i64))
            },
            None => None,
        }
    } else {
        match parse_unsigned(s, 10, 9223372036854775807) {
            Some(n) => Some(n as i64),
            None => None,
        }
    }
}

/// The decimal digits at the start of `s`.
pub(crate) fn take_digits<'a>(s: &'a [char]) -> (r: &'a [char])
    ensures
        r@ == leading_digits(s@),
{
    let mut n: usize = 0;
    assert(s@.skip(0) =~= s@);
    assert(s@.take(0) =~= seq![]);
    while n < s.len() && '0' <= s[n] && s[n] <= '9'
        invariant
            n <= s@.len(),
            leading_digits(s@) =~= s@.take(n as int) + leading_digits(s@.skip(n as int)),
        decreases s@.len() - n,
    {
        assert(s@.skip(n as int).drop_first() =~= s@.skip(n + 1));
        n = n + 1;
    }
    assert(leading_digits(s@) =~= s@.take(n as int));
    let r: &'a [char] = slice_subrange(s, 0, n);
    assert(r@ =~= s@.take(n as int));
    r
}

/// Whether `s` consists of decimal digits.
fn are_digits(s: &[char]) -> (r: bool)
    ensures
        r == all_digits(s@, 10),
{
    let mut i: usize = 0;
    while i < s.len()
        invariant
            i <= s@.len(),
            forall|j: int| 0 <= j < i ==> digit_of(#[trigger] s@[j]) < 10,
        decreases s@.len() - i,
    {
        if read_digit(s[i]) >= 10 {
            assert(digit_of(s@[i as int]) >= 10);
            return false;
        }
        i = i + 1;
    }
    true
}

/// `s` without one sign at its start.
fn strip_sign<'a>(s: &'a [char]) -> (r: &'a [char])
    ensures
        r@ == without_sign(s@),
{
    if s.len() > 0 && (s[0] == '+' || s[0] == '-') {
        let r: &'a [char] = slice_subrange(s, 1, s.len());
        assert(r@ =~= s@.drop_first());
        r
    } else {
        s
    }
}

/// Whether `s` is a decimal fraction.
fn is_decimal_fraction(s: &[char]) -> (r: bool)
    ensures
        r == decimal_fraction(s@),
{
    let point: usize = find_char(s, '.');
    if point == s.len() {
        s.len() > 0 && are_digits(s)
    } else {
        let whole: &[char] = slice_subrange(s, 0, point);
        let part: &[char] = slice_subrange(s, point + 1, s.len());
        assert(whole@ =~= s@.take(point as int));
        assert(part@ =~= s@.skip(point + 1));
        s.len() > 1 && are_digits(whole) && are_digits(part)
    }
}

/// Whether `s` is an exponent.
fn is_exponent(s: &[char]) -> (r: bool)
    ensures
        r == exponent(s@),
{
    let digits: &[char] = strip_sign(s);
    digits.len() > 0 && are_digits(digits)
}

/// Whether `body` is a word for a number beyond all others.
fn is_infinite(body: &[char]) -> (r: bool)
    ensures
        r == infinite(body@),
{
    same_text(body, chars_of("inf").as_slice()) || same_text(body, chars_of("infinity").as_slice())
}

/// Whether `body` is a decimal fraction, with an exponent where there is one.
fn is_decimal_number(body: &[char]) -> (r: bool)
    ensures
        r == decimal_number(body@),
{
    let e: usize = find_char(body, 'e');
    let front: &[char] = slice_subrange(body, 0, e);
    assert(front@ =~= mantissa(body@));
    if !is_decimal_fraction(front) {
        return false;
    }
    if e == body.len() {
        return true;
    }
    let power: &[char] = slice_subrange(body, e + 1, body.len());
    assert(power@ =~= body@.skip(e + 1));
    is_exponent(power)
}

/// Whether `s` writes a real number.
pub(crate) fn is_real_number(s: &[char]) -> (r: bool)
    ensures
        r == real_number(s@),
{
    let lower: Vec<char> = lowercased(strip_sign(s));
    let body: &[char] = lower.as_slice();
    is_infinite(body) || same_text(body, chars_of("nan").as_slice()) || is_decimal_number(body)
}

/// The value of digits, told by the first of them and the others.
proof fn lemma_number_value_first(s: Seq<char>)
    requires
        s.len() > 0,
    ensures
        number_value(s, 10) == digit_of(s[0]) * pow(10, (s.len() - 1) as nat) + number_value(
            s.drop_first(),
            10,
        ),
    decreases s.len(),
{
    reveal(pow);
    let rest = s.drop_first();
    if s.len() == 1 {
        assert(s.drop_last() =~= seq![]);
        assert(rest =~= seq![]);
        lemma_pow0(10);
        assert(digit_of(s[0]) * 1 == digit_of(s[0])) by (nonlinear_arith);
    } else {
        let start = s.drop_last();
        lemma_number_value_first(start);
        assert(start.drop_first() =~= rest.drop_last());
        let d = digit_of(s[0]);
        let p = pow(10, (s.len() - 2) as nat);
        assert(pow(10, (s.len() - 1) as nat) == 10 * p);
        assert((d * p) * 10 == d * (10 * p)) by (nonlinear_arith);
        assert(rest.last() == s.last());
    }
}

/// Digits write less than ten to the power of their number.
proof fn lemma_number_value_below(s: Seq<char>)
    requires
        all_digits(s, 10),
    ensures
        0 <= number_value(s, 10) < pow(10, s.len()),
    decreases s.len(),
{
    reveal(pow);
    lemma_number_value_natural(s, 10);
    if s.len() == 0 {
        lemma_pow0(10);
    } else {
        let start = s.drop_last();
        assert forall|i: int| 0 <= i < start.len() implies digit_of(#[trigger] start[i]) < 10 by {
            assert(start[i] == s[i]);
        }
        lemma_number_value_below(start);
        assert(digit_of(s[s.len() - 1]) < 10);
        assert(pow(10, s.len()) == 10 * pow(10, start.len()));
    }
}

/// Digits write zero when all of them are zeros, and only then.
proof fn lemma_zeros(s: Seq<char>)
    requires
        all_digits(s, 10),
    ensures
        number_value(s, 10) == 0 <==> forall|i: int| 0 <= i < s.len() ==> s[i] == '0',
    decreases s.len(),
{
    if s.len() > 0 {
        let start = s.drop_last();
        assert forall|i: int| 0 <= i < start.len() implies digit_of(#[trigger] start[i]) < 10 by {
            assert(start[i] == s[i]);
        }
        lemma_zeros(start);
        lemma_number_value_natural(start, 10);
        lemma_zero_digit(s[s.len() - 1]);
        if number_value(s, 10) == 0 {
            assert forall|i: int| 0 <= i < s.len() implies s[i] == '0' by {
                if i < start.len() {
                    assert(start[i] == s[i]);
                }
            }
        } else if forall|i: int| 0 <= i < s.len() ==> s[i] == '0' {
            assert forall|i: int| 0 <= i < start.len() implies start[i] == '0' by {
                assert(start[i] == s[i]);
            }
            assert(s[s.len() - 1] == '0');
        }
    }
}

proof fn lemma_zero_digit(c: char)
    requires
        digit_of(c) < 10,
    ensures
        digit_of(c) >= 0,
        digit_of(c) == 0 <==> c == '0',
        digit_of(c) == 1 <==> c == '1',
{
}

/// When digits without leading zeros, `k` of them behind the point, write a number with
/// the exponent `x` that is at most one: the exponent moves all of them behind the point,
/// or all but a one that zeros follow.
proof fn lemma_at_most_one(d: Seq<char>, k: int, x: int)
    requires
        d.len() > 0,
        all_digits(d, 10),
        d[0] != '0',
    ensures
        number_value(d, 10) > 0,
        (x <= k && number_value(d, 10) <= pow(10, (k - x) as nat)) <==> (x < k + 1 - d.len() || (x
            == k + 1 - d.len() && d[0] == '1' && forall|i: int|
            0 <= i < d.drop_first().len() ==> d.drop_first()[i] == '0')),
{
    let n = d.len();
    let m = number_value(d, 10);
    let rest = d.drop_first();
    let high = pow(10, (n - 1) as nat);
    assert(digit_of(d[0]) < 10);
    lemma_zero_digit(d[0]);
    assert forall|i: int| 0 <= i < rest.len() implies digit_of(#[trigger] rest[i]) < 10 by {
        assert(rest[i] == d[i + 1]);
    }
    lemma_number_value_first(d);
    lemma_number_value_below(d);
    lemma_number_value_below(rest);
    lemma_zeros(rest);
    lemma_pow_positive(10, (n - 1) as nat);
    let first = digit_of(d[0]);
    assert(first * high >= high) by (nonlinear_arith)
        requires
            first >= 1,
            high > 0,
    ;
    assert(first > 1 ==> first * high >= 2 * high) by (nonlinear_arith)
        requires
            first >= 1,
            high > 0,
    ;
    assert(first == 1 ==> first * high == high) by (nonlinear_arith);
    if x < k + 1 - n {
        lemma_pow_increases(10, n, (k - x) as nat);
    } else if x > k + 1 - n && x <= k {
        lemma_pow_strictly_increases(10, (k - x) as nat, (n - 1) as nat);
    }
}

/// Whether the number that the exponent of `body` writes is less than `bound`, equal to it
/// or greater: `Some(true)`, `None` or `Some(false)`.
fn exponent_below(body: &[char], bound: i128) -> (r: Option<bool>)
    requires
        decimal_number(body@),
        -(u64::MAX as int) <= bound <= u64::MAX as int,
    ensures
        match r {
            Some(true) => exponent_value(body@) < bound,
            None => exponent_value(body@) == bound,
            Some(false) => exponent_value(body@) > bound,
        },
{
    let e: usize = find_char(body, 'e');
    let value: i128 = if e == body.len() {
        0
    } else {
        let power: &[char] = slice_subrange(body, e + 1, body.len());
        assert(power@ =~= body@.skip(e + 1));
        let below: bool = power.len() > 0 && power[0] == '-';
        let digits: &[char] = strip_sign(power);
        assert(digit_of(digits@[0]) < 10);
        proof {
            lemma_number_value_natural(digits@, 10);
        }
        match parse_unsigned(digits, 10, u64::MAX) {
            Some(n) => if below {
                -(n as i128)
            } else {
                n as i128
            },
            None => {
                return Some(below);
            },
        }
    };
    if value < bound {
        Some(true)
    } else if value == bound {
        None
    } else {
        Some(false)
    }
}

/// The digits of a decimal fraction, without the point.
fn collect_digits(s: &[char]) -> (r: Vec<char>)
    requires
        decimal_fraction(s@),
    ensures
        r@ == fraction_digits(s@),
        all_digits(r@, 10),
{
    let point: usize = find_char(s, '.');
    let mut r: Vec<char> = Vec::new();
    let mut i: usize = 0;
    while i < s.len()
        invariant
            i <= s@.len(),
            point <= s@.len(),
            r@ =~= (if i <= point {
                s@.take(i as int)
            } else {
                s@.take(point as int) + s@.subrange(point + 1, i as int)
            }),
        decreases s@.len() - i,
    {
        if i != point {
            r.push(s[i]);
        }
        i = i + 1;
    }
    assert(r@ =~= fraction_digits(s@));
    proof {
        if point < s@.len() {
            let whole = s@.take(point as int);
            let part = s@.skip(point + 1);
            assert forall|j: int| 0 <= j < r@.len() implies digit_of(#[trigger] r@[j]) < 10 by {
                if j < point {
                    assert(r@[j] == whole[j]);
                } else {
                    assert(r@[j] == part[j - point]);
                }
            }
        }
    }
    r
}

/// Whether `s` consists of zeros.
fn are_zeros(s: &[char]) -> (r: bool)
    ensures
        r == (forall|i: int| 0 <= i < s@.len() ==> s@[i] == '0'),
{
    let mut i: usize = 0;
    while i < s.len()
        invariant
            i <= s@.len(),
            forall|j: int| 0 <= j < i ==> s@[j] == '0',
        decreases s@.len() - i,
    {
        if s[i] != '0' {
            return false;
        }
        i = i + 1;
    }
    true
}

/// How a number without its sign lies to zero and one.
enum Magnitude {
    Zero,
    AtMostOne,
    AboveOne,
}

/// How a number without its sign lies to zero and one.
fn magnitude(body: &[char]) -> (r: Magnitude)
    requires
        decimal_number(body@),
    ensures
        r is Zero <==> number_value(fraction_digits(mantissa(body@)), 10) == 0,
        r is AboveOne <==> !at_most_one(body@),
{
    let e: usize = find_char(body, 'e');
    let front: &[char] = slice_subrange(body, 0, e);
    assert(front@ =~= mantissa(body@));
    let point: usize = find_char(front, '.');
    let places: usize = if point == front.len() {
        0
    } else {
        front.len() - point - 1
    };
    let digits: Vec<char> = collect_digits(front);
    let mut z: usize = 0;
    assert(digits@.skip(0) =~= digits@);
    while z < digits.len() && digits[z] == '0'
        invariant
            z <= digits@.len(),
            number_value(digits@, 10) == number_value(digits@.skip(z as int), 10),
        decreases digits@.len() - z,
    {
        proof {
            let left = digits@.skip(z as int);
            lemma_number_value_first(left);
            assert(left[0] == '0');
            assert(0 * pow(10, (left.len() - 1) as nat) == 0) by (nonlinear_arith);
            assert(left.drop_first() =~= digits@.skip(z + 1));
        }
        z = z + 1;
    }
    if z == digits.len() {
        assert(digits@.skip(z as int) =~= seq![]);
        return Magnitude::Zero;
    }
    let len: usize = digits.len();
    let kept: &[char] = slice_subrange(digits.as_slice(), z, len);
    let rest: &[char] = slice_subrange(digits.as_slice(), z + 1, len);
    proof {
        assert(kept@ =~= digits@.skip(z as int));
        assert(rest@ =~= kept@.drop_first());
        assert forall|i: int| 0 <= i < kept@.len() implies digit_of(#[trigger] kept@[i]) < 10 by {
            assert(kept@[i] == digits@[z + i]);
        }
        lemma_at_most_one(kept@, places as int, exponent_value(body@));
    }
    let bound: i128 = places as i128 + 1 - kept.len() as i128;
    match exponent_below(body, bound) {
        Some(true) => Magnitude::AtMostOne,
        Some(false) => Magnitude::AboveOne,
        None => if kept[0] == '1' && are_zeros(rest) {
            Magnitude::AtMostOne
        } else {
            Magnitude::AboveOne
        },
    }
}

/// Whether `s` writes a number that is at least zero and at most one.
fn is_in_unit_range(s: &[char]) -> (r: bool)
    ensures
        r == in_unit_range(s@),
{
    let lower: Vec<char> = lowercased(strip_sign(s));
    let body: &[char] = lower.as_slice();
    if is_infinite(body) || same_text(body, chars_of("nan").as_slice()) || !is_decimal_number(
        body,
    ) {
        return false;
    }
    match magnitude(body) {
        Magnitude::Zero => true,
        Magnitude::AtMostOne => !(s.len() > 0 && s[0] == '-'),
        Magnitude::AboveOne => false,
    }
}

/// The number that `s` writes, held between zero and one.
pub(crate) fn to_unit_fraction(s: &[char]) -> (r: Option<String>)
    ensures
        match r {
            Some(text) => unit_fraction(s@) == Some(text@),
            None => unit_fraction(s@) is None,
        },
{
    let lower: Vec<char> = lowercased(strip_sign(s));
    if !is_real_number(s) || same_text(lower.as_slice(), chars_of("nan").as_slice()) {
        None
    } else if is_in_unit_range(s) {
        Some(string_of(s))
    } else if s.len() > 0 && s[0] == '-' {
        Some("0".to_owned())
    } else {
        Some("1".to_owned())
    }
}

// ---------------------------------------------------------------------------
// Writing
// ---------------------------------------------------------------------------

/// Appends `n` in the base ten to `out`.
pub(crate) fn push_decimal(out: &mut String, n: u64)
    ensures
        final(out)@ == old(out)@ + decimal(n as nat),
    decreases n,
{
    let last: char = (48 + (n % 10) as u8) as char;
    if n >= 10 {
        push_decimal(out, n / 10);
    }
    let ghost before = out@;
    out.push(last);
    assert(out@ =~= old(out)@ + decimal(n as nat));
}

/// Appends `n` in the base ten to `out`, with its sign when it is negative.
pub(crate) fn push_signed(out: &mut String, n: i64)
    ensures
        final(out)@ == old(out)@ + signed_decimal(n as int),
{
    if n < 0 {
        out.push('-');
        if n == i64::MIN {
            push_decimal(out, 9223372036854775808);
        } else {
            push_decimal(out, (-n) as u64);
        }
    } else {
        push_decimal(out, n as u64);
    }
    assert(out@ =~= old(out)@ + signed_decimal(n as int));
}

// ---------------------------------------------------------------------------
// Reading back what was written
// ---------------------------------------------------------------------------

/// The digits of a number are digits, and they write that number.
pub proof fn digits_write_their_number(n: nat, radix: nat)
    requires
        2 <= radix <= 16,
    ensures
        digits(n, radix).len() > 0,
        all_digits(digits(n, radix), radix as int),
        number_value(digits(n, radix), radix as int) == n,
    decreases n,
{
    if n < radix {
        let s = digits(n, radix);
        assert(s.drop_last() =~= seq![]);
        assert(digit_of(s.last()) == n);
        assert(number_value(s.drop_last(), radix as int) == 0);
    } else {
        lemma_quotient_smaller(n, radix);
        digits_write_their_number(n / radix, radix);
        let s = digits(n, radix);
        let high = digits(n / radix, radix);
        assert(s.drop_last() =~= high);
        assert(n % radix < radix) by (nonlinear_arith)
            requires
                radix >= 2,
        ;
        assert(digit_of(s.last()) == n % radix);
        assert(n == (n / radix) * radix + n % radix) by (nonlinear_arith)
            requires
                radix >= 2,
        ;
        assert forall|i: int| 0 <= i < s.len() implies digit_of(#[trigger] s[i]) < radix by {
            if i < high.len() {
                assert(s[i] == high[i]);
            }
        }
    }
}

/// Reading the digits of a number gives the number back, when it is at most `max`.
pub proof fn digits_read_back(n: nat, radix: nat, max: int)
    requires
        2 <= radix <= 16,
        n <= max,
    ensures
        unsigned_number(digits(n, radix), radix as int, max) == Some(n as int),
{
    digits_write_their_number(n, radix);
    assert(digit_of(digits(n, radix)[0]) < radix);
}

/// Reading the decimal form of an `i64` gives the number back.
pub proof fn signed_decimal_reads_back(n: i64)
    ensures
        signed_number(signed_decimal(n as int)) == Some(n as int),
{
    if n < 0 {
        let m = (-(n as int)) as nat;
        digits_read_back(m, 10, i64::MAX + 1);
        digits_write_their_number(m, 10);
        let s = signed_decimal(n as int);
        assert(s.drop_first() =~= decimal(m));
        assert(digit_of(decimal(m)[0]) < 10);
    } else {
        digits_read_back(n as nat, 10, i64::MAX as int);
        digits_write_their_number(n as nat, 10);
        assert(digit_of(decimal(n as nat)[0]) < 10);
    }
}

proof fn lemma_plain_digit(c: char)
    requires
        digit_of(c) < 10,
    ensures
        text::lower(c) == c,
        c != 'e',
        c != '.',
        c != '+',
        c != '-',
{
}

/// The decimal form of an integer writes a real number.
pub proof fn integer_is_a_real_number(n: int)
    ensures
        real_number(signed_decimal(n)),
{
    let magnitude: nat = if n < 0 {
        (-n) as nat
    } else {
        n as nat
    };
    let digits = decimal(magnitude);
    digits_write_their_number(magnitude, 10);
    assert forall|i: int| 0 <= i < digits.len() implies text::lower(#[trigger] digits[i])
        == digits[i] && digits[i] != 'e' && digits[i] != '.' && digits[i] != '+' && digits[i]
        != '-' by {
        assert(digit_of(digits[i]) < 10);
        lemma_plain_digit(digits[i]);
    }
    assert(without_sign(signed_decimal(n)) =~= digits);
    assert(text::lowercase(digits) =~= digits);
    text::lemma_char_index(digits, 'e', digits.len() as int);
    text::lemma_char_index(digits, '.', digits.len() as int);
    assert(digits.take(digits.len() as int) =~= digits);
}

/// A single decimal digit is in range when it is zero or one.
proof fn lemma_single_digit(s: Seq<char>)
    requires
        s == seq!['0'] || s == seq!['1'],
    ensures
        in_unit_range(s),
{
    reveal_strlit("inf");
    reveal_strlit("infinity");
    reveal_strlit("nan");
    assert(text::lowercase(s) =~= s);
    text::lemma_char_index(s, 'e', 1);
    text::lemma_char_index(s, '.', 1);
    assert(s.take(1) =~= s);
    assert(s.drop_last() =~= seq![]);
    assert(number_value(s.drop_last(), 10) == 0);
    lemma_pow0(10);
}

/// What is held between zero and one lies there, and a number that lies there is kept as
/// it is.
pub proof fn unit_fraction_is_in_unit_range(s: Seq<char>)
    ensures
        unit_fraction(s) matches Some(held) ==> in_unit_range(held),
        in_unit_range(s) ==> unit_fraction(s) == Some(s),
{
    reveal_strlit("0");
    reveal_strlit("1");
    assert("0"@ =~= seq!['0']);
    assert("1"@ =~= seq!['1']);
    lemma_single_digit("0"@);
    lemma_single_digit("1"@);
}

// ---------------------------------------------------------------------------
// What texts write numbers
// ---------------------------------------------------------------------------

/// Whether `s` consists of the characters `0` to `9`.
pub open spec fn plain_digits(s: Seq<char>) -> bool {
    forall|i: int| 0 <= i < s.len() ==> 48 <= (#[trigger] s[i]) as int <= 57
}

/// The digits are `0` to `9`, and the letters up to `f` in either case; no other character
/// is a digit of any base up to sixteen.
pub proof fn digits_are_these(c: char)
    ensures
        48 <= c as int <= 57 ==> digit_of(c) == c as int - 48,
        97 <= c as int <= 102 ==> digit_of(c) == c as int - 87,
        65 <= c as int <= 70 ==> digit_of(c) == c as int - 55,
        !(48 <= c as int <= 57 || 97 <= c as int <= 102 || 65 <= c as int <= 70) ==> digit_of(c)
            >= 16,
{
}

/// The value of digits is that of their places: what stands in front counts as often as
/// the base to the power of the number of digits behind it.
pub proof fn digits_count_by_their_place(a: Seq<char>, b: Seq<char>, radix: int)
    ensures
        number_value(a + b, radix) == number_value(a, radix) * pow(radix, b.len()) + number_value(
            b,
            radix,
        ),
        b.len() == 1 ==> number_value(b, radix) == digit_of(b[0]),
        number_value(seq![], radix) == 0,
    decreases b.len(),
{
    reveal(pow);
    if b.len() == 0 {
        assert(a + b =~= a);
        lemma_pow0(radix);
        assert(number_value(a, radix) * 1 == number_value(a, radix)) by (nonlinear_arith);
    } else {
        let c = b.drop_last();
        assert((a + b).drop_last() =~= a + c);
        assert((a + b).last() == b.last());
        digits_count_by_their_place(a, c, radix);
        let p = pow(radix, c.len());
        assert(pow(radix, b.len()) == radix * p);
        let va = number_value(a, radix);
        let vc = number_value(c, radix);
        assert((va * p + vc) * radix == va * (radix * p) + vc * radix) by (nonlinear_arith);
        if b.len() == 1 {
            assert(c =~= seq![]);
            assert(0 * radix == 0) by (nonlinear_arith);
        }
    }
}

/// Digits with or without a plus sign in front write the number of their value, when that
/// is not too large.
pub proof fn digits_write_an_unsigned_number(d: Seq<char>, radix: int, max: int)
    requires
        d.len() > 0,
        2 <= radix <= 16,
        forall|i: int| 0 <= i < d.len() ==> digit_of(#[trigger] d[i]) < radix,
    ensures
        number_value(d, radix) <= max ==> unsigned_number(d, radix, max) == Some(
            number_value(d, radix),
        ),
        number_value(d, radix) <= max ==> unsigned_number(seq!['+'] + d, radix, max) == Some(
            number_value(d, radix),
        ),
        number_value(d, radix) > max ==> unsigned_number(d, radix, max) is None,
        number_value(d, radix) > max ==> unsigned_number(seq!['+'] + d, radix, max) is None,
{
    assert(digit_of(d[0]) < radix);
    digits_are_these('+');
    assert((seq!['+'] + d).drop_first() =~= d);
}

/// Nothing else writes an unsigned number.
pub proof fn only_digits_write_an_unsigned_number(s: Seq<char>, radix: int, max: int)
    requires
        unsigned_number(s, radix, max) is Some,
    ensures
        s.len() > 0,
        forall|i: int| 0 < i < s.len() ==> digit_of(#[trigger] s[i]) < radix,
        digit_of(s[0]) < radix || (s[0] == '+' && s.len() > 1),
{
    if s[0] == '+' {
        assert forall|i: int| 0 < i < s.len() implies digit_of(#[trigger] s[i]) < radix by {
            assert(s.drop_first()[i - 1] == s[i]);
        }
    }
}

/// Digits, with or without a sign in front, write the number of their value, when it is in
/// the range of `i64`.
pub proof fn digits_write_a_signed_number(d: Seq<char>)
    requires
        d.len() > 0,
        plain_digits(d),
    ensures
        ({
            let value = number_value(d, 10);
            &&& signed_number(d) == (if value <= 0x7fff_ffff_ffff_ffff {
                Some(value)
            } else {
                None
            })
            &&& signed_number(seq!['+'] + d) == signed_number(d)
            &&& signed_number(seq!['-'] + d) == (if value <= 0x8000_0000_0000_0000 {
                Some(-value)
            } else {
                None
            })
        }),
{
    assert forall|i: int| 0 <= i < d.len() implies digit_of(#[trigger] d[i]) < 10 by {
        digits_are_these(d[i]);
    }
    digits_write_an_unsigned_number(d, 10, i64::MAX as int);
    digits_write_an_unsigned_number(d, 10, i64::MAX + 1);
    let minus = seq!['-'] + d;
    assert(minus.drop_first() =~= d);
    assert(minus[1] == d[0]);
    assert(48 <= d[0] as int <= 57);
}

/// Nothing else writes a signed number.
pub proof fn only_digits_write_a_signed_number(s: Seq<char>)
    requires
        signed_number(s) is Some,
    ensures
        s.len() > 0,
        plain_digits(s.drop_first()),
        48 <= s[0] as int <= 57 || ((s[0] == '+' || s[0] == '-') && s.len() > 1),
{
    let t = if s.len() > 0 && s[0] == '-' {
        s.drop_first()
    } else {
        s
    };
    let max = if s.len() > 0 && s[0] == '-' {
        i64::MAX + 1
    } else {
        i64::MAX as int
    };
    only_digits_write_an_unsigned_number(t, 10, max);
    let rest = s.drop_first();
    assert forall|i: int| 0 <= i < rest.len() implies 48 <= (#[trigger] rest[i]) as int <= 57 by {
        digits_are_these(rest[i]);
        if s[0] == '-' {
            assert(rest[i] == t[i]);
            if i == 0 {
                assert(s[1] == t[0]);
            }
        } else {
            assert(rest[i] == t[i + 1]);
        }
    }
    digits_are_these(s[0]);
}

/// The leading digits of a text end where something else begins.
pub proof fn leading_digits_end_before_anything_else(d: Seq<char>, rest: Seq<char>)
    requires
        plain_digits(d),
        rest.len() > 0 ==> !(48 <= rest[0] as int <= 57),
    ensures
        leading_digits(d + rest) == d,
    decreases d.len(),
{
    if d.len() == 0 {
        assert(d + rest =~= rest);
        if rest.len() > 0 {
            digits_are_these(rest[0]);
        }
    } else {
        let others = d.drop_first();
        assert(48 <= d[0] as int <= 57);
        digits_are_these(d[0]);
        assert forall|i: int| 0 <= i < others.len() implies 48 <= (#[trigger] others[i]) as int
            <= 57 by {
            assert(others[i] == d[i + 1]);
        }
        leading_digits_end_before_anything_else(others, rest);
        assert((d + rest).drop_first() =~= others + rest);
        assert(seq![d[0]] + others =~= d);
    }
}

/// The decimal form of a number consists of digits of that value, the first of which is no
/// zero unless the number is.
pub proof fn decimal_form_is_the_shortest(n: nat)
    ensures
        decimal(n).len() > 0,
        plain_digits(decimal(n)),
        number_value(decimal(n), 10) == n,
        n > 0 ==> decimal(n)[0] != '0',
        n == 0 ==> decimal(n) == seq!['0'],
{
    digits_write_their_number(n, 10);
    let s = decimal(n);
    assert forall|i: int| 0 <= i < s.len() implies 48 <= (#[trigger] s[i]) as int <= 57 by {
        assert(digit_of(s[i]) < 10);
        digits_are_these(s[i]);
    }
    lemma_first_digit(n);
    if n == 0 {
        assert(s =~= seq!['0']);
    }
}

proof fn lemma_first_digit(n: nat)
    ensures
        digits(n, 10).len() > 0,
        n > 0 ==> digits(n, 10)[0] != '0',
    decreases n,
{
    if n >= 10 {
        lemma_first_digit(n / 10);
    }
}

/// A negative number is written with a minus sign in front of its decimal form, and any
/// other without a sign.
pub proof fn signed_form_has_a_minus_sign_or_none(n: nat)
    ensures
        signed_decimal(n as int) == decimal(n),
        n > 0 ==> signed_decimal(-(n as int)) == seq!['-'] + decimal(n),
{
}

/// Whether `sign` is a sign, or nothing.
pub open spec fn sign_or_none(sign: Seq<char>) -> bool {
    sign.len() == 0 || sign == seq!['+'] || sign == seq!['-']
}

/// Digits `a` in front of the point and `b` behind it; without a point, if there is none.
pub open spec fn pointed(a: Seq<char>, point: bool, b: Seq<char>) -> Seq<char> {
    if point {
        a + seq!['.'] + b
    } else {
        a
    }
}

/// An exponent with the letter `e`, the sign `sign` and the digits `c`; nothing, if there
/// is no letter.
pub open spec fn raised(e: Option<char>, sign: Seq<char>, c: Seq<char>) -> Seq<char> {
    match e {
        Some(letter) => seq![letter] + sign + c,
        None => seq![],
    }
}

/// A sign, digits with a point anywhere among them, and an exponent after a letter `e` in
/// either case write a real number. It is in the unit range when its value is: when its
/// digits are all zero, or it has no minus sign and its digits, read as a whole number, are
/// at most ten to the power of the places behind the point less the exponent. Otherwise it
/// is held at the end of the range that it lies beyond.
#[verifier::rlimit(40)]
pub proof fn fraction_writes_a_real_number(
    sign: Seq<char>,
    a: Seq<char>,
    point: bool,
    b: Seq<char>,
    e: Option<char>,
    power_sign: Seq<char>,
    c: Seq<char>,
)
    requires
        sign_or_none(sign),
        plain_digits(a),
        plain_digits(b),
        !point ==> b.len() == 0,
        a.len() + b.len() > 0,
        e is Some ==> e == Some('e') || e == Some('E'),
        sign_or_none(power_sign),
        plain_digits(c),
        e is Some ==> c.len() > 0,
    ensures
        ({
            let s = sign + pointed(a, point, b) + raised(e, power_sign, c);
            let m = number_value(a + b, 10);
            let k = b.len();
            let x = if e is None {
                0
            } else if power_sign == seq!['-'] {
                -number_value(c, 10)
            } else {
                number_value(c, 10)
            };
            let inside = m == 0 || (sign != seq!['-'] && x <= k && m <= pow(10, (k - x) as nat));
            &&& real_number(s)
            &&& in_unit_range(s) == inside
            &&& unit_fraction(s) == (if inside {
                Some(s)
            } else if sign == seq!['-'] {
                Some("0"@)
            } else {
                Some("1"@)
            })
        }),
{
    reveal_strlit("inf");
    reveal_strlit("infinity");
    reveal_strlit("nan");
    let front = pointed(a, point, b);
    let s = sign + front + raised(e, power_sign, c);
    let small = if e is Some {
        Some('e')
    } else {
        None
    };
    let body = front + raised(small, power_sign, c);
    lemma_body_of_fraction(sign, a, point, b, e, power_sign, c);
    lemma_front_of_fraction(a, point, b);
    lemma_power_of_fraction(a, point, b, small, power_sign, c);
    assert(body[0] == front[0]);
    lemma_char_of_front(a, point, b, 0);
    assert(body != "inf"@ && body != "infinity"@ && body != "nan"@) by {
        assert(("inf"@)[0] == 'i' && ("infinity"@)[0] == 'i' && ("nan"@)[0] == 'n');
    }
    assert(decimal_number(body));
    assert(real_number(s));
}

/// The sign and the body of a text that writes a fraction.
proof fn lemma_body_of_fraction(
    sign: Seq<char>,
    a: Seq<char>,
    point: bool,
    b: Seq<char>,
    e: Option<char>,
    power_sign: Seq<char>,
    c: Seq<char>,
)
    requires
        sign_or_none(sign),
        plain_digits(a),
        plain_digits(b),
        !point ==> b.len() == 0,
        a.len() + b.len() > 0,
        e is Some ==> e == Some('e') || e == Some('E'),
        sign_or_none(power_sign),
        plain_digits(c),
    ensures
        ({
            let s = sign + pointed(a, point, b) + raised(e, power_sign, c);
            &&& negative(s) == (sign == seq!['-'])
            &&& number_body(s) == pointed(a, point, b) + raised(
                if e is Some {
                    Some('e')
                } else {
                    None
                },
                power_sign,
                c,
            )
        }),
{
    let front = pointed(a, point, b);
    let bare = front + raised(e, power_sign, c);
    let s = sign + front + raised(e, power_sign, c);
    let low = front + raised(
        if e is Some {
            Some('e')
        } else {
            None
        },
        power_sign,
        c,
    );
    assert(s =~= sign + bare);
    assert(bare[0] == front[0]);
    lemma_char_of_front(a, point, b, 0);
    if sign.len() == 0 {
        assert(s =~= bare);
    } else {
        assert(s.drop_first() =~= bare);
        assert(s[0] == sign[0]);
        if sign[0] == '-' {
            assert(sign =~= seq!['-']);
        }
    }
    assert(without_sign(s) == bare);
    let body = text::lowercase(bare);
    assert(body.len() == low.len());
    assert forall|i: int| 0 <= i < bare.len() implies body[i] == low[i] by {
        text::lowercase_moves_only_capitals(bare, i);
        lemma_char_of_fraction(a, point, b, e, power_sign, c, i);
        if i != front.len() {
            assert(bare[i] == low[i]);
        }
    }
    assert(body =~= low);
}

/// The digits and the places of a fraction.
proof fn lemma_front_of_fraction(a: Seq<char>, point: bool, b: Seq<char>)
    requires
        plain_digits(a),
        plain_digits(b),
        !point ==> b.len() == 0,
        a.len() + b.len() > 0,
    ensures
        decimal_fraction(pointed(a, point, b)),
        fraction_digits(pointed(a, point, b)) == a + b,
        fraction_places(pointed(a, point, b)) == b.len(),
{
    let front = pointed(a, point, b);
    let p = a.len() as int;
    assert forall|j: int| 0 <= j < p implies front[j] != '.' by {
        assert(front[j] == a[j]);
    }
    text::lemma_char_index(front, '.', p);
    lemma_plain_are_digits(a);
    lemma_plain_are_digits(b);
    if point {
        assert(front.take(p) =~= a);
        assert(front.skip(p + 1) =~= b);
    } else {
        assert(a + b =~= a);
    }
}

/// The mantissa and the exponent of a body.
proof fn lemma_power_of_fraction(
    a: Seq<char>,
    point: bool,
    b: Seq<char>,
    small: Option<char>,
    power_sign: Seq<char>,
    c: Seq<char>,
)
    requires
        plain_digits(a),
        plain_digits(b),
        small is Some ==> small == Some('e') && c.len() > 0,
        sign_or_none(power_sign),
        plain_digits(c),
        decimal_fraction(pointed(a, point, b)),
    ensures
        ({
            let body = pointed(a, point, b) + raised(small, power_sign, c);
            &&& mantissa(body) == pointed(a, point, b)
            &&& decimal_number(body)
            &&& exponent_value(body) == (if small is None {
                0
            } else if power_sign == seq!['-'] {
                -number_value(c, 10)
            } else {
                number_value(c, 10)
            })
        }),
{
    let front = pointed(a, point, b);
    let body = front + raised(small, power_sign, c);
    let n = front.len() as int;
    assert forall|j: int| 0 <= j < n implies body[j] != 'e' by {
        assert(body[j] == front[j]);
        lemma_char_of_front(a, point, b, j);
    }
    if small is Some {
        assert(body[n] == 'e');
    }
    text::lemma_char_index(body, 'e', n);
    assert(body.take(n) =~= front);
    lemma_plain_are_digits(c);
    if small is Some {
        let power = body.skip(n + 1);
        assert(power =~= power_sign + c);
        if power_sign.len() == 0 {
            assert(power =~= c);
            assert(48 <= c[0] as int <= 57);
        } else {
            assert(power.drop_first() =~= c);
            assert(power[0] == power_sign[0]);
            if power_sign[0] == '-' {
                assert(power_sign =~= seq!['-']);
            }
        }
        assert(without_sign(power) == c);
        assert(exponent(power));
    }
}

proof fn lemma_plain_are_digits(s: Seq<char>)
    requires
        plain_digits(s),
    ensures
        all_digits(s, 10),
{
    assert forall|i: int| 0 <= i < s.len() implies digit_of(#[trigger] s[i]) < 10 by {
        digits_are_these(s[i]);
    }
}

proof fn lemma_char_of_front(a: Seq<char>, point: bool, b: Seq<char>, i: int)
    requires
        plain_digits(a),
        plain_digits(b),
        0 <= i < pointed(a, point, b).len(),
    ensures
        48 <= pointed(a, point, b)[i] as int <= 57 || pointed(a, point, b)[i] == '.',
{
    let front = pointed(a, point, b);
    if i < a.len() {
        assert(front[i] == a[i]);
    } else if i > a.len() {
        assert(front[i] == b[i - a.len() - 1]);
    }
}

proof fn lemma_char_of_fraction(
    a: Seq<char>,
    point: bool,
    b: Seq<char>,
    e: Option<char>,
    power_sign: Seq<char>,
    c: Seq<char>,
    i: int,
)
    requires
        plain_digits(a),
        plain_digits(b),
        plain_digits(c),
        sign_or_none(power_sign),
        e is Some ==> e == Some('e') || e == Some('E'),
        0 <= i < (pointed(a, point, b) + raised(e, power_sign, c)).len(),
    ensures
        ({
            let ch = (pointed(a, point, b) + raised(e, power_sign, c))[i];
            if i == pointed(a, point, b).len() {
                e == Some(ch)
            } else {
                48 <= ch as int <= 57 || ch == '.' || ch == '+' || ch == '-'
            }
        }),
{
    let front = pointed(a, point, b);
    let behind = raised(e, power_sign, c);
    if i < front.len() {
        lemma_char_of_front(a, point, b, i);
        assert((front + behind)[i] == front[i]);
    } else {
        let j = i - front.len();
        assert((front + behind)[i] == behind[j]);
        if j > power_sign.len() {
            assert(behind[j] == c[j - 1 - power_sign.len()]);
        } else if j > 0 {
            assert(behind[j] == power_sign[j - 1]);
        }
    }
}

/// The words for infinity write a real number, in any case and with any sign, and are held
/// at the end of the unit range on their side. So does the word `nan`, which lies on no
/// side.
pub proof fn words_write_real_numbers(sign: Seq<char>, word: Seq<char>)
    requires
        sign_or_none(sign),
        text::lowercase(word) == "inf"@ || text::lowercase(word) == "infinity"@
            || text::lowercase(word) == "nan"@,
    ensures
        real_number(sign + word),
        !in_unit_range(sign + word),
        text::lowercase(word) == "nan"@ ==> unit_fraction(sign + word) is None,
        text::lowercase(word) != "nan"@ ==> unit_fraction(sign + word) == Some(
            if sign == seq!['-'] {
                "0"@
            } else {
                "1"@
            },
        ),
{
    reveal_strlit("inf");
    reveal_strlit("infinity");
    reveal_strlit("nan");
    let s = sign + word;
    assert(word.len() == text::lowercase(word).len());
    text::lowercase_moves_only_capitals(word, 0);
    assert(word[0] != '+' && word[0] != '-');
    if sign.len() == 0 {
        assert(s =~= word);
    } else {
        assert(s.drop_first() =~= word);
        assert(s[0] == sign[0]);
        if sign[0] == '-' {
            assert(sign =~= seq!['-']);
        }
    }
    assert("nan"@.len() != "infinity"@.len());
    assert(("nan"@)[0] != ("inf"@)[0]);
}

/// A character that is no letter in lower case is none at all.
proof fn lemma_lower_of_no_letter(s: Seq<char>, i: int)
    requires
        0 <= i < s.len(),
        !(97 <= text::lowercase(s)[i] as int <= 122),
    ensures
        s[i] == text::lowercase(s)[i],
{
    text::lowercase_moves_only_capitals(s, i);
}

/// Digits are plain ones.
proof fn lemma_digits_are_plain(s: Seq<char>)
    requires
        all_digits(s, 10),
    ensures
        plain_digits(s),
{
    assert forall|i: int| 0 <= i < s.len() implies 48 <= (#[trigger] s[i]) as int <= 57 by {
        assert(digit_of(s[i]) < 10);
        digits_are_these(s[i]);
    }
}

/// A decimal fraction consists of digits with a point among them.
proof fn lemma_fraction_has_parts(s: Seq<char>) -> (r: (Seq<char>, bool, Seq<char>))
    requires
        decimal_fraction(s),
    ensures
        plain_digits(r.0),
        plain_digits(r.2),
        !r.1 ==> r.2.len() == 0,
        r.0.len() + r.2.len() > 0,
        s == pointed(r.0, r.1, r.2),
{
    let p = text::char_index(s, '.');
    text::lemma_char_index_props(s, '.');
    if p == s.len() {
        lemma_digits_are_plain(s);
        (s, false, seq![])
    } else {
        let a = s.take(p);
        let b = s.skip(p + 1);
        lemma_digits_are_plain(a);
        lemma_digits_are_plain(b);
        assert(s =~= pointed(a, true, b));
        (a, true, b)
    }
}

/// An exponent consists of a sign, or none, and digits.
proof fn lemma_exponent_has_parts(s: Seq<char>) -> (r: (Seq<char>, Seq<char>))
    requires
        exponent(s),
    ensures
        sign_or_none(r.0),
        plain_digits(r.1),
        r.1.len() > 0,
        s == r.0 + r.1,
{
    let c = without_sign(s);
    lemma_digits_are_plain(c);
    if c.len() == s.len() {
        assert(s =~= seq![] + s);
        (seq![], s)
    } else {
        let sign = seq![s[0]];
        assert(s =~= sign + c);
        (sign, c)
    }
}

/// The front of a number reads the same in lower case.
proof fn lemma_front_is_in_lower_case(
    bare: Seq<char>,
    e: int,
    a: Seq<char>,
    point: bool,
    b: Seq<char>,
)
    requires
        0 <= e <= bare.len(),
        plain_digits(a),
        plain_digits(b),
        text::lowercase(bare).take(e) == pointed(a, point, b),
    ensures
        bare.take(e) == pointed(a, point, b),
{
    let front = pointed(a, point, b);
    assert forall|j: int| 0 <= j < e implies bare.take(e)[j] == front[j] by {
        assert(text::lowercase(bare).take(e)[j] == text::lowercase(bare)[j]);
        lemma_char_of_front(a, point, b, j);
        lemma_lower_of_no_letter(bare, j);
    }
    assert(bare.take(e) =~= front);
}

/// The exponent of a number reads the same in lower case.
proof fn lemma_power_is_in_lower_case(bare: Seq<char>, e: int, sign: Seq<char>, c: Seq<char>)
    requires
        0 <= e < bare.len(),
        sign_or_none(sign),
        plain_digits(c),
        text::lowercase(bare).skip(e + 1) == sign + c,
    ensures
        bare.skip(e + 1) == sign + c,
{
    let power = sign + c;
    assert forall|j: int| 0 <= j < power.len() implies bare.skip(e + 1)[j] == power[j] by {
        assert(text::lowercase(bare).skip(e + 1)[j] == text::lowercase(bare)[e + 1 + j]);
        if j < sign.len() {
            assert(power[j] == sign[j]);
        } else {
            assert(power[j] == c[j - sign.len()]);
        }
        lemma_lower_of_no_letter(bare, e + 1 + j);
    }
    assert(bare.skip(e + 1) =~= power);
}

/// Nothing else writes a real number: a text that does is one of the words, with or without
/// a sign, or has the parts of a fraction.
#[verifier::rlimit(40)]
pub proof fn only_fractions_and_words_write_real_numbers(s: Seq<char>) -> (r: (
    Seq<char>,
    Seq<char>,
    bool,
    Seq<char>,
    Option<char>,
    Seq<char>,
    Seq<char>,
))
    requires
        real_number(s),
    ensures
        sign_or_none(r.0),
        ({
            let word = text::lowercase(s.skip(r.0.len() as int));
            ||| s.take(r.0.len() as int) == r.0 && (word == "inf"@ || word == "infinity"@ || word
                == "nan"@)
            ||| {
                &&& plain_digits(r.1)
                &&& plain_digits(r.3)
                &&& !r.2 ==> r.3.len() == 0
                &&& r.1.len() + r.3.len() > 0
                &&& r.4 is Some ==> r.4 == Some('e') || r.4 == Some('E')
                &&& sign_or_none(r.5)
                &&& plain_digits(r.6)
                &&& r.4 is Some ==> r.6.len() > 0
                &&& s == r.0 + pointed(r.1, r.2, r.3) + raised(r.4, r.5, r.6)
            }
        }),
{
    let bare = without_sign(s);
    let body = number_body(s);
    let off = s.len() - bare.len();
    let sign = s.take(off);
    assert(sign_or_none(sign)) by {
        if off > 0 {
            assert(sign =~= seq![s[0]]);
        }
    }
    assert(s.skip(off) =~= bare);
    assert(s =~= sign + bare);
    let none: Seq<char> = seq![];
    if infinite(body) || body == "nan"@ {
        (sign, none, false, none, None, none, none)
    } else {
        let e = text::char_index(body, 'e');
        text::lemma_char_index_props(body, 'e');
        let front = mantissa(body);
        let (a, point, b) = lemma_fraction_has_parts(front);
        lemma_front_is_in_lower_case(bare, e, a, point, b);
        if e == body.len() {
            assert(bare =~= front);
            assert(s =~= sign + pointed(a, point, b) + raised(None, none, none));
            (sign, a, point, b, None, none, none)
        } else {
            let power = body.skip(e + 1);
            let (power_sign, c) = lemma_exponent_has_parts(power);
            lemma_power_is_in_lower_case(bare, e, power_sign, c);
            let letter = bare[e];
            text::lowercase_moves_only_capitals(bare, e);
            assert(letter == 'e' || letter == 'E');
            assert(bare =~= front + raised(Some(letter), power_sign, c)) by {
                assert(bare =~= bare.take(e) + seq![letter] + bare.skip(e + 1));
            }
            assert(s =~= sign + pointed(a, point, b) + raised(Some(letter), power_sign, c));
            (sign, a, point, b, Some(letter), power_sign, c)
        }
    }
}

} // verus!
