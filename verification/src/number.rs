//! Decimal numbers in text, and the minutes in a number of hours.
use crate::bignum::Natural;
use crate::binary64;
use crate::shortest;
use crate::text;
use vstd::arithmetic::mul::*;
use vstd::arithmetic::power2::*;
use vstd::prelude::*;
use vstd::slice::slice_subrange;

verus! {

/// `s` without the sign in front, where there is one.
pub open spec fn unsigned(s: Seq<char>) -> Seq<char> {
    if s.len() > 0 && (s[0] == '-' || s[0] == '+') {
        s.drop_first()
    } else {
        s
    }
}

pub open spec fn is_negative(s: Seq<char>) -> bool {
    s.len() > 0 && s[0] == '-'
}

/// The exponent behind the digits of a number: nothing, or `e` and a signed integer.
pub open spec fn exponent(tail: Seq<char>) -> Option<int> {
    if tail.len() == 0 {
        Some(0)
    } else if tail[0] == 'e' || tail[0] == 'E' {
        let digits = unsigned(tail.drop_first());
        if digits.len() > 0 && text::all_digits(digits) {
            let v = text::digits_value(digits) as int;
            Some(if is_negative(tail.drop_first()) { -v } else { v })
        } else {
            None
        }
    } else {
        None
    }
}

/// A decimal number: sign, digits with at most one point, exponent. It is
/// given as whether it is negative, its digits as one integer `d`, and the `x`
/// with which its size is `d * 10^x`.
pub open spec fn decimal_number(s: Seq<char>) -> Option<(bool, nat, int)> {
    let body = unsigned(s);
    let whole = text::leading_digits(body);
    let after = body.skip(whole.len() as int);
    let pointed = after.len() > 0 && after[0] == '.';
    let places = if pointed {
        text::leading_digits(after.drop_first())
    } else {
        Seq::empty()
    };
    let tail = if pointed {
        after.skip(1int + places.len())
    } else {
        after
    };
    if whole.len() + places.len() == 0 {
        None
    } else {
        match exponent(tail) {
            Some(x) => Some(
                (is_negative(s), text::digits_value(whole + places), x - places.len()),
            ),
            None => None,
        }
    }
}

/// What can be read as a double: a decimal number, or infinity or not-a-number
/// in words, with an optional sign.
pub open spec fn is_double_text(s: Seq<char>) -> bool {
    let word = text::ascii_lower(unsigned(s));
    ||| word == "inf"@
    ||| word == "infinity"@
    ||| word == "nan"@
    ||| decimal_number(s) is Some
}

/// The minutes in `d * 10^x` hours in double-precision arithmetic.
pub open spec fn scaled_minutes(neg: bool, d: nat, x: int) -> Option<int> {
    if x >= 0 {
        binary64::double_minutes(neg, d * shortest::pow10(x as nat), 1)
    } else {
        binary64::double_minutes(neg, d, shortest::pow10((-x) as nat))
    }
}

/// The minutes in a number of hours given as text.
pub open spec fn minutes_of_text(s: Seq<char>) -> Option<int> {
    match decimal_number(text::trimmed(s)) {
        Some((neg, d, x)) => scaled_minutes(neg, d, x),
        None => None,
    }
}

/// The number that an unsigned 32-bit integer is written as: an optional plus
/// and digits.
pub open spec fn u32_of_text(s: Seq<char>) -> Option<nat> {
    let digits = if s.len() > 0 && s[0] == '+' {
        s.drop_first()
    } else {
        s
    };
    if digits.len() > 0 && text::all_digits(digits) && text::digits_value(digits) <= u32::MAX {
        Some(text::digits_value(digits))
    } else {
        None
    }
}

pub proof fn lemma_leading_digits(s: Seq<char>, n: int)
    requires
        0 <= n <= s.len(),
        forall|i: int| 0 <= i < n ==> text::is_digit(#[trigger] s[i]),
        n < s.len() ==> !text::is_digit(s[n]),
    ensures
        text::leading_digits(s) == s.take(n),
    decreases n,
{
    if n > 0 {
        let t = s.drop_first();
        assert forall|i: int| 0 <= i < n - 1 implies text::is_digit(#[trigger] t[i]) by {
            assert(text::is_digit(s[i + 1]));
        }
        lemma_leading_digits(t, n - 1);
        assert(seq![s[0]] + t.take(n - 1) == s.take(n));
    } else {
        assert(s.take(0) == Seq::<char>::empty());
    }
}

/// How many digits `s` starts with.
pub fn count_digits(s: &[char]) -> (n: usize)
    ensures
        n <= s.len(),
        text::leading_digits(s@) == s@.take(n as int),
        text::all_digits(s@.take(n as int)),
        n < s.len() ==> !text::is_digit(s@[n as int]),
{
    let mut n: usize = 0;
    while n < s.len() && text::is_digit_char(s[n])
        invariant
            n <= s.len(),
            forall|i: int| 0 <= i < n ==> text::is_digit(#[trigger] s@[i]),
        decreases s.len() - n,
    {
        n += 1;
    }
    proof {
        lemma_leading_digits(s@, n as int);
    }
    n
}

/// Append the digits `s` to the number `d`.
fn append_digits(d: &mut Natural, s: &[char], Ghost(before): Ghost<Seq<char>>)
    requires
        text::all_digits(s@),
        old(d)@ == text::digits_value(before),
    ensures
        final(d)@ == text::digits_value(before + s@),
{
    let mut i: usize = 0;
    assert(before + s@.take(0) == before);
    while i < s.len()
        invariant
            i <= s.len(),
            text::all_digits(s@),
            d@ == text::digits_value(before + s@.take(i as int)),
        decreases s.len() - i,
    {
        let c: char = s[i];
        assert(text::is_digit(s@[i as int]));
        let v: u32 = c as u32 - 48;
        proof {
            let t = before + s@.take(i + 1);
            assert(t.drop_last() == before + s@.take(i as int));
            assert(t.last() == c);
        }
        d.mul_add(10, v);
        i += 1;
    }
    assert(s@.take(i as int) == s@);
}

/// An exponent from here on decides the result whatever else the number holds.
const EXPONENT_CAP: u128 = 0x40_0000_0000_0000_0000;

/// The value of the digits `s`, or the cap where it is larger.
fn capped_value(s: &[char]) -> (r: u128)
    requires
        text::all_digits(s@),
    ensures
        r == (if text::digits_value(s@) < EXPONENT_CAP {
            text::digits_value(s@)
        } else {
            EXPONENT_CAP as nat
        }),
{
    let mut v: u128 = 0;
    let mut i: usize = 0;
    assert(s@.take(0) == Seq::<char>::empty());
    while i < s.len()
        invariant
            i <= s.len(),
            text::all_digits(s@),
            v == (if text::digits_value(s@.take(i as int)) < EXPONENT_CAP {
                text::digits_value(s@.take(i as int))
            } else {
                EXPONENT_CAP as nat
            }),
        decreases s.len() - i,
    {
        let c: char = s[i];
        assert(text::is_digit(s@[i as int]));
        proof {
            let t = s@.take(i + 1);
            assert(t.drop_last() == s@.take(i as int));
            assert(t.last() == c);
        }
        v = v * 10 + (c as u32 - 48) as u128;
        if v > EXPONENT_CAP {
            v = EXPONENT_CAP;
        }
        i += 1;
    }
    assert(s@.take(i as int) == s@);
    v
}

fn all_digit_chars(s: &[char]) -> (r: bool)
    ensures
        r == text::all_digits(s@),
{
    let n: usize = count_digits(s);
    proof {
        if n < s.len() {
            assert(!text::is_digit(s@[n as int]));
        } else {
            assert(s@.take(n as int) == s@);
        }
    }
    n == s.len()
}

/// Parse an unsigned 32-bit integer.
pub fn u32_of_chars(s: &[char]) -> (r: Option<u32>)
    ensures
        match r {
            Some(n) => u32_of_text(s@) == Some(n as nat),
            None => u32_of_text(s@) is None,
        },
{
    let mut digits = s;
    if s.len() > 0 && s[0] == '+' {
        digits = slice_subrange(s, 1, s.len());
        assert(digits@ == s@.drop_first());
    }
    if digits.len() == 0 || !all_digit_chars(digits) {
        return None;
    }
    let v: u128 = capped_value(digits);
    if v <= 0xffff_ffff {
        Some(v as u32)
    } else {
        None
    }
}

fn without_sign(s: &[char]) -> (r: &[char])
    ensures
        r@ == unsigned(s@),
{
    if s.len() > 0 && (s[0] == '-' || s[0] == '+') {
        let r = slice_subrange(s, 1, s.len());
        assert(r@ == s@.drop_first());
        r
    } else {
        s
    }
}

/// The exponent behind the digits of a number, capped on both sides.
fn exponent_of(tail: &[char]) -> (r: Option<i128>)
    ensures
        match r {
            Some(x) => exponent(tail@) matches Some(y) && (if y >= EXPONENT_CAP {
                x == EXPONENT_CAP as int
            } else if y <= -(EXPONENT_CAP as int) {
                x == -(EXPONENT_CAP as int)
            } else {
                x == y
            }),
            None => exponent(tail@) is None,
        },
{
    if tail.len() == 0 {
        return Some(0);
    }
    if tail[0] != 'e' && tail[0] != 'E' {
        return None;
    }
    let signed = slice_subrange(tail, 1, tail.len());
    assert(signed@ == tail@.drop_first());
    let digits = without_sign(signed);
    if digits.len() == 0 || !all_digit_chars(digits) {
        return None;
    }
    let v: i128 = capped_value(digits) as i128;
    if signed.len() > 0 && signed[0] == '-' {
        Some(-v)
    } else {
        Some(v)
    }
}

proof fn lemma_pow10_adds(a: nat, b: nat)
    ensures
        shortest::pow10(a + b) == shortest::pow10(a) * shortest::pow10(b),
    decreases b,
{
    if b > 0 {
        lemma_pow10_adds(a, (b - 1) as nat);
        let p = shortest::pow10(a);
        let q = shortest::pow10((b - 1) as nat);
        assert(10 * (p * q) == p * (10 * q)) by (nonlinear_arith);
        assert(a + b - 1 == a + (b - 1) as nat);
    } else {
        assert(shortest::pow10(a) * 1 == shortest::pow10(a));
    }
}

/// `10^(10 k) >= 2^(33 k)`.
proof fn lemma_pow10_exceeds_pow2(k: nat)
    ensures
        shortest::pow10(10 * k) >= pow2(33 * k),
    decreases k,
{
    lemma2_to64();
    if k > 0 {
        let j = (k - 1) as nat;
        lemma_pow10_exceeds_pow2(j);
        lemma_pow10_adds(10 * j, 10);
        lemma_pow2_adds(33 * j, 33);
        assert(10 * j + 10 == 10 * k && 33 * j + 33 == 33 * k);
        lemma2_to64_rest();
        assert(shortest::pow10(10) == 10_000_000_000) by {
            reveal_with_fuel(shortest::pow10, 11);
        }
        let a = shortest::pow10(10 * j);
        let b = pow2(33 * j);
        assert(a * 10_000_000_000 >= b * 0x2_0000_0000) by (nonlinear_arith)
            requires
                a >= b,
        ;
    }
}

proof fn lemma_digits_bound(s: Seq<char>)
    requires
        text::all_digits(s),
    ensures
        text::digits_value(s) < shortest::pow10(s.len()),
    decreases s.len(),
{
    if s.len() > 0 {
        assert(text::is_digit(s[s.len() - 1]));
        assert forall|i: int| 0 <= i < s.drop_last().len() implies text::is_digit(
            #[trigger] s.drop_last()[i],
        ) by {
            assert(text::is_digit(s[i]));
        }
        lemma_digits_bound(s.drop_last());
    }
}

proof fn lemma_zero_minutes(neg: bool, x: int)
    ensures
        scaled_minutes(neg, 0, x) == Some(0int),
{
    let den: nat = if x >= 0 { 1 } else { shortest::pow10((-x) as nat) };
    let num: nat = if x >= 0 { 0 * shortest::pow10(x as nat) } else { 0 };
    assert(num == 0) by {
        if x >= 0 {
            let p = shortest::pow10(x as nat);
            assert(0 * p == 0);
        }
    }
    if x < 0 {
        shortest::lemma_pow10_pos((-x) as nat);
    }
    assert(num * pow2(1075) == 0) by (nonlinear_arith)
        requires
            num == 0,
    ;
    binary64::lemma_tiny_minutes(neg, num, den);
}

/// Many digits in front of the point make an infinite number.
proof fn lemma_large_exponent(neg: bool, d: nat, x: int)
    requires
        d > 0,
        x >= 340,
    ensures
        scaled_minutes(neg, d, x) is None,
{
    let num = d * shortest::pow10(x as nat);
    lemma_pow10_exceeds_pow2(34);
    shortest::lemma_pow10_monotone(340, x as nat);
    lemma_pow2_strictly_increases(1024, 1122);
    assert(33 * 34 == 1122nat && 10 * 34 == 340nat);
    assert(num >= pow2(1024)) by (nonlinear_arith)
        requires
            d >= 1,
            num == d * shortest::pow10(x as nat),
            shortest::pow10(x as nat) >= pow2(1024),
    ;
    assert(1 * pow2(1024) == pow2(1024));
    binary64::lemma_huge_minutes(neg, num, 1);
}

/// Many places behind the point make a number that rounds to zero.
proof fn lemma_small_exponent(neg: bool, d: nat, digits: nat, x: int)
    requires
        d < shortest::pow10(digits),
        digits + x <= -400,
    ensures
        scaled_minutes(neg, d, x) == Some(0int),
{
    let places = (-x) as nat;
    lemma_pow10_adds(digits, 400);
    shortest::lemma_pow10_monotone(digits + 400, places);
    lemma_pow10_exceeds_pow2(40);
    assert(33 * 40 == 1320nat && 10 * 40 == 400nat);
    lemma_pow2_strictly_increases(1075, 1320);
    let a = shortest::pow10(digits);
    let b = shortest::pow10(400);
    assert(d * pow2(1075) <= a * b) by (nonlinear_arith)
        requires
            d <= a,
            pow2(1075) <= b,
    ;
    shortest::lemma_pow10_pos(places);
    binary64::lemma_tiny_minutes(neg, d, shortest::pow10(places));
}

/// Multiply by `10^k`.
fn scale_up(n: &mut Natural, k: u128)
    ensures
        final(n)@ == old(n)@ * shortest::pow10(k as nat),
{
    let mut i: u128 = 0;
    assert(n@ * shortest::pow10(0) == n@) by (nonlinear_arith)
        requires
            shortest::pow10(0) == 1,
    ;
    while i < k
        invariant
            i <= k,
            n@ == old(n)@ * shortest::pow10(i as nat),
        decreases k - i,
    {
        proof {
            let v = old(n)@;
            let p = shortest::pow10(i as nat);
            assert((v * p) * 10 == v * (10 * p)) by (nonlinear_arith);
        }
        n.mul_add(10, 0);
        i += 1;
    }
}

/// The minutes in a number of hours given as text.
pub fn minutes_of_chars(s: &[char]) -> (r: Option<i64>)
    ensures
        match r {
            Some(m) => minutes_of_text(s@) == Some(m as int),
            None => minutes_of_text(s@) is None,
        },
{
    let t = text::trim_chars(s);
    let neg = t.len() > 0 && t[0] == '-';
    let body = without_sign(t);
    let w: usize = count_digits(body);
    let whole = slice_subrange(body, 0, w);
    let after = slice_subrange(body, w, body.len());
    assert(whole@ == text::leading_digits(body@));
    assert(after@ == body@.skip(w as int));
    let mut d = Natural::from_u32(0);
    append_digits(&mut d, whole, Ghost(Seq::empty()));
    assert(Seq::<char>::empty() + whole@ == whole@);
    let pointed = after.len() > 0 && after[0] == '.';
    let mut p: usize = 0;
    let mut tail = after;
    let ghost mut places: Seq<char> = Seq::empty();
    if pointed {
        let behind = slice_subrange(after, 1, after.len());
        assert(behind@ == after@.drop_first());
        p = count_digits(behind);
        let fraction = slice_subrange(behind, 0, p);
        append_digits(&mut d, fraction, Ghost(whole@));
        tail = slice_subrange(behind, p, behind.len());
        proof {
            places = fraction@;
            assert(tail@ == after@.skip(1 + p));
        }
    } else {
        assert(whole@ + places == whole@);
    }
    if w == 0 && p == 0 {
        return None;
    }
    match exponent_of(tail) {
        None => None,
        Some(capped) => {
            let x: i128 = capped - p as i128;
            let ghost y = exponent(tail@)->0 - p;
            let ghost digits = whole@ + places;
            assert(decimal_number(t@) == Some((neg, text::digits_value(digits), y)));
            proof {
                assert forall|i: int| 0 <= i < digits.len() implies text::is_digit(
                    #[trigger] digits[i],
                ) by {
                    if i < w {
                        assert(text::is_digit(whole@[i]));
                    } else {
                        assert(text::is_digit(places[i - w]));
                    }
                }
                lemma_digits_bound(digits);
            }
            let zero = Natural::from_u32(0);
            if !zero.less(&d) {
                proof {
                    lemma_zero_minutes(neg, y);
                }
                return Some(0);
            }
            if x >= 340 {
                proof {
                    lemma_large_exponent(neg, d@, y);
                }
                return None;
            }
            if w as i128 + p as i128 + x <= -400 {
                proof {
                    lemma_small_exponent(neg, d@, digits.len(), y);
                }
                return Some(0);
            }
            assert(x == y);
            let mut den = Natural::from_u32(1);
            if x >= 0 {
                scale_up(&mut d, x as u128);
            } else {
                scale_up(&mut den, (-x) as u128);
                proof {
                    shortest::lemma_pow10_pos((-x) as nat);
                    let q = shortest::pow10((-x) as nat);
                    assert(1 * q == q);
                }
            }
            binary64::minutes_in_hours(neg, &d, &den)
        },
    }
}

/// Whether the text can be read as a double.
pub fn is_double_chars(s: &[char]) -> (r: bool)
    ensures
        r == is_double_text(s@),
{
    let body = without_sign(s);
    let word = text::string_of(text::lower_chars(body).as_slice());
    if text::same(word.as_str(), "inf") || text::same(word.as_str(), "infinity") || text::same(
        word.as_str(),
        "nan",
    ) {
        return true;
    }
    let w: usize = count_digits(body);
    let after = slice_subrange(body, w, body.len());
    assert(after@ == body@.skip(w as int));
    assert(body@.take(w as int).len() == w);
    let mut p: usize = 0;
    let mut tail = after;
    if after.len() > 0 && after[0] == '.' {
        let behind = slice_subrange(after, 1, after.len());
        assert(behind@ == after@.drop_first());
        p = count_digits(behind);
        assert(behind@.take(p as int).len() == p);
        tail = slice_subrange(behind, p, behind.len());
        assert(tail@ == after@.skip(1 + p));
    }
    (w > 0 || p > 0) && exponent_of(tail).is_some()
}

/// Digits, a point and more digits are read as the digits together, as many places down
/// as there are digits behind the point; with an exponent behind them, moved by it.
pub proof fn law_decimal_numbers(whole: Seq<char>, places: Seq<char>, tail: Seq<char>, x: int)
    requires
        text::all_digits(whole),
        text::all_digits(places),
        whole.len() + places.len() > 0,
        exponent(tail) == Some(x),
    ensures
        decimal_number(whole + "."@ + places + tail) == Some(
            (false, text::digits_value(whole + places), x - places.len()),
        ),
        whole.len() > 0 ==> decimal_number(whole + tail) == Some(
            (false, text::digits_value(whole), x),
        ),
{
    reveal_strlit(".");
    assert(tail.len() > 0 ==> tail[0] == 'e' || tail[0] == 'E');
    let s = whole + "."@ + places + tail;
    let n = whole.len() as int;
    assert(s[n] == '.');
    assert forall|i: int| 0 <= i < n implies text::is_digit(#[trigger] s[i]) by {
        assert(s[i] == whole[i]);
    }
    assert(s[0] != '-' && s[0] != '+') by {
        if n > 0 {
            assert(s[0] == whole[0]);
            assert(text::is_digit(whole[0]));
        }
    }
    lemma_leading_digits(s, n);
    assert(s.take(n) == whole);
    let after = s.skip(n);
    let rest = after.drop_first();
    let m = places.len() as int;
    assert(after[0] == '.');
    assert(rest == places + tail);
    assert forall|i: int| 0 <= i < m implies text::is_digit(#[trigger] rest[i]) by {
        assert(rest[i] == places[i]);
    }
    if m < rest.len() {
        assert(rest[m] == tail[0]);
    }
    lemma_leading_digits(rest, m);
    assert(rest.take(m) == places);
    assert(after.skip(1 + m) == tail);
    if n > 0 {
        let t = whole + tail;
        assert forall|i: int| 0 <= i < n implies text::is_digit(#[trigger] t[i]) by {
            assert(t[i] == whole[i]);
        }
        assert(t[0] == whole[0]);
        assert(text::is_digit(whole[0]));
        if n < t.len() {
            assert(t[n] == tail[0]);
        }
        lemma_leading_digits(t, n);
        assert(t.take(n) == whole);
        assert(t.skip(n) == tail);
        assert(whole + Seq::<char>::empty() == whole);
    }
}

/// A sign in front of a number makes it negative, or leaves it as it is.
pub proof fn law_signs(s: Seq<char>)
    requires
        s.len() > 0,
        s[0] != '-' && s[0] != '+',
    ensures
        decimal_number("+"@ + s) == decimal_number(s),
        decimal_number("-"@ + s) == match decimal_number(s) {
            Some((_, d, x)) => Some((true, d, x)),
            None => None,
        },
{
    reveal_strlit("+");
    reveal_strlit("-");
    assert(("+"@ + s).drop_first() == s);
    assert(("-"@ + s).drop_first() == s);
}

/// An exponent is an `e` with an integer that may have a sign; without one it is zero.
pub proof fn law_exponents(digits: Seq<char>)
    requires
        digits.len() > 0,
        text::all_digits(digits),
    ensures
        exponent(Seq::empty()) == Some(0int),
        exponent("e"@ + digits) == Some(text::digits_value(digits) as int),
        exponent("E"@ + digits) == Some(text::digits_value(digits) as int),
        exponent("e+"@ + digits) == Some(text::digits_value(digits) as int),
        exponent("e-"@ + digits) == Some(-(text::digits_value(digits) as int)),
{
    reveal_strlit("e");
    reveal_strlit("E");
    reveal_strlit("e+");
    reveal_strlit("e-");
    assert(text::is_digit(digits[0]));
    assert(("e"@ + digits).drop_first() == digits);
    assert(("E"@ + digits).drop_first() == digits);
    let p = ("e+"@ + digits).drop_first();
    assert(p[0] == '+' && p.drop_first() == digits);
    let m = ("e-"@ + digits).drop_first();
    assert(m[0] == '-' && m.drop_first() == digits);
}

/// The spelling of a number does not matter: trailing zeros behind the point leave the
/// minutes as they are.
pub proof fn law_trailing_zeros(neg: bool, d: nat, k: nat)
    ensures
        scaled_minutes(neg, 10 * d, -(k as int) - 1) == scaled_minutes(neg, d, -(k as int)),
{
    let p = shortest::pow10(k);
    shortest::lemma_pow10_pos(k);
    assert(shortest::pow10(k + 1) == 10 * p);
    assert(10 * d == d * 10 && 10 * p == p * 10);
    if k == 0 {
        assert(shortest::pow10(0) == 1);
        assert(d * shortest::pow10(0) == d) by (nonlinear_arith)
            requires
                shortest::pow10(0) == 1,
        ;
    }
    binary64::law_minutes_of_a_ratio(neg, d, p, 10);
}

} // verus!
