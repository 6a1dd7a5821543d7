//! Hours as they are shown are read back as the same minutes.
use crate::binary64;
use crate::number;
use crate::order;
use crate::shortest;
use crate::steps;
use crate::text;
use vstd::arithmetic::div_mod::*;
use vstd::arithmetic::mul::*;
use vstd::arithmetic::power2::*;
use vstd::prelude::*;

verus! {

/// An integer is read as what it shows.
proof fn lemma_read_integer(n: nat)
    ensures
        text::trimmed(text::dec(n)) == text::dec(n),
        number::decimal_number(text::dec(n)) == Some((false, n, 0int)),
{
    let s = text::dec(n);
    shortest::lemma_dec(n);
    assert(text::is_digit(s[0]) && text::is_digit(s[s.len() - 1]));
    text::lemma_digit_is_no_space(s[0]);
    text::lemma_digit_is_no_space(s[s.len() - 1]);
    text::lemma_nothing_to_trim(s);
    number::lemma_leading_digits(s, s.len() as int);
    assert(s.take(s.len() as int) == s);
    assert(s.skip(s.len() as int).len() == 0);
    assert(s + Seq::<char>::empty() == s);
}

/// A number with a point is read as what it shows.
proof fn lemma_read_pointed(q: nat, r: nat, s: nat)
    requires
        r < shortest::pow10(s),
        s > 0,
    ensures
        ({
            let t = text::dec(q) + seq!['.'] + shortest::dec_padded(r, s);
            &&& text::trimmed(t) == t
            &&& number::decimal_number(t) == Some(
                (false, q * shortest::pow10(s) + r, -(s as int)),
            )
        }),
{
    let whole = text::dec(q);
    let places = shortest::dec_padded(r, s);
    let t = whole + seq!['.'] + places;
    shortest::lemma_dec(q);
    shortest::lemma_padded(r, s);
    lemma_small_mod(r, shortest::pow10(s));
    shortest::lemma_concat(whole, places);
    let w = whole.len() as int;
    assert(t[0] == whole[0]);
    assert(t.last() == places[s - 1]);
    assert(text::is_digit(whole[0]) && text::is_digit(places[s - 1]));
    text::lemma_digit_is_no_space(t[0]);
    text::lemma_digit_is_no_space(t.last());
    text::lemma_nothing_to_trim(t);
    assert forall|i: int| 0 <= i < w implies text::is_digit(#[trigger] t[i]) by {
        assert(t[i] == whole[i]);
    }
    assert(t[w] == '.');
    number::lemma_leading_digits(t, w);
    assert(t.take(w) == whole);
    let after = t.skip(w);
    assert(after[0] == '.');
    assert(after.drop_first() == places);
    number::lemma_leading_digits(places, s as int);
    assert(places.take(s as int) == places);
    assert(after.skip(1int + places.len()).len() == 0);
}

/// `n / 10^s` as a fraction.
spec fn decimal_ratio(n: nat, s: int) -> (nat, nat) {
    if s <= 0 {
        (n * shortest::pow10((-s) as nat), 1)
    } else {
        (n, shortest::pow10(s as nat))
    }
}

/// A decimal text is read as the number that it shows.
proof fn lemma_read_decimal(n: nat, s: int)
    ensures
        number::minutes_of_text(shortest::decimal_text(n, s)) == ({
            let f = decimal_ratio(n, s);
            binary64::double_minutes(false, f.0, f.1)
        }),
{
    let t = shortest::decimal_text(n, s);
    if s <= 0 {
        let d = n * shortest::pow10((-s) as nat);
        lemma_read_integer(d);
        assert(shortest::pow10(0) == 1);
        assert(d * 1 == d);
    } else {
        let p = shortest::pow10(s as nat);
        shortest::lemma_pow10_pos(s as nat);
        lemma_fundamental_div_mod(n as int, p as int);
        lemma_mul_is_commutative((n / p) as int, p as int);
        lemma_read_pointed(n / p, n % p, s as nat);
    }
}

/// Rounding to the nearest integer, from a bound on the distance.
proof fn lemma_rounds_to(n: nat, d: nat, m: nat)
    requires
        d > 0,
        m % 2 == 0 ==> (2 * m - 1) * d <= 2 * n <= (2 * m + 1) * d,
        m % 2 != 0 ==> (2 * m - 1) * d < 2 * n < (2 * m + 1) * d,
    ensures
        binary64::round_half_even(n, d) == m,
{
    assert((2 * m - 1) * d == 2 * (m * d) - d) by (nonlinear_arith);
    assert((2 * m + 1) * d == 2 * (m * d) + d) by (nonlinear_arith);
    assert((m + 1) * d == m * d + d) by (nonlinear_arith);
    if n >= m * d {
        binary64::lemma_round_half_even(n, d, m);
    } else {
        if m == 0 {
            assert(0 * d == 0);
        }
        let q = (m - 1) as nat;
        assert(q * d == m * d - d) by (nonlinear_arith)
            requires
                q == m - 1,
        ;
        assert((q + 1) * d == m * d);
        binary64::lemma_round_half_even(n, d, q);
    }
}

/// A decimal that reads as a double rounds to it.
proof fn lemma_decimal_rounds_to(m: nat, e: int, n: nat, s: int)
    requires
        0x10_0000_0000_0000 <= m < 0x20_0000_0000_0000,
        -1000 <= e <= -1,
        shortest::reads_as(m, e, n, s),
    ensures
        ({
            let f = decimal_ratio(n, s);
            &&& f.1 > 0
            &&& shortest::normal(binary64::nearest_double(f.0, f.1)) == (m, e)
        }),
{
    let f = decimal_ratio(n, s);
    let (num, den) = f;
    let k = (-e) as nat;
    let p = pow2(k);
    lemma_pow2_pos(k);
    lemma2_to64();
    lemma2_to64_rest();
    lemma_pow2_adds(2, k);
    assert((2 - e) as nat == 2 + k);
    let b = shortest::binary_side(e - 2, s);
    let v = n * shortest::decimal_side(e - 2, s);
    if s >= 0 {
        shortest::lemma_pow10_pos(s as nat);
    } else {
        shortest::lemma_pow10_pos((-s) as nat);
    }
    assert(shortest::pow10(0) == 1);
    assert(b == den && v == 4 * (num * p)) by {
        let four = pow2(2 + k);
        assert(four == 4 * p);
        if s > 0 {
            assert(b == den * 1);
            assert(shortest::decimal_side(e - 2, s) == 1 * four);
            assert(n * (1 * (4 * p)) == 4 * (n * p)) by (nonlinear_arith);
        } else if s == 0 {
            assert(b == 1 * 1);
            assert(shortest::decimal_side(e - 2, s) == 1 * four);
            assert(n * (1 * (4 * p)) == 4 * ((n * 1) * p)) by (nonlinear_arith);
            assert(num == n * 1);
        } else {
            let t = shortest::pow10((-s) as nat);
            assert(b == 1 * 1);
            assert(n * (t * (4 * p)) == 4 * ((n * t) * p)) by (nonlinear_arith);
        }
    }
    let u = num * p;
    assert(binary64::in_units(num, den, e) == (u, den));
    binary64::lemma_below_in_units(num, den, e, 53);
    binary64::lemma_below_in_units(num, den, e, 52);
    assert((4 * m + 2) * den == 4 * (m * den) + 2 * den) by (nonlinear_arith);
    assert(m * den <= 0x1f_ffff_ffff_ffff * den) by (nonlinear_arith)
        requires
            m <= 0x1f_ffff_ffff_ffff,
    ;
    assert(m * den >= 0x10_0000_0000_0000 * den) by (nonlinear_arith)
        requires
            m >= 0x10_0000_0000_0000,
    ;
    assert(u < den * pow2(53)) by {
        assert(den * pow2(53) == 0x20_0000_0000_0000 * den) by (nonlinear_arith)
            requires
                pow2(53) == 0x20_0000_0000_0000,
        ;
        if m == 0x1f_ffff_ffff_ffff {
            assert(4 * u < 4 * (m * den) + 2 * den);
        } else {
            assert(m * den <= 0x1f_ffff_ffff_fffe * den) by (nonlinear_arith)
                requires
                    m <= 0x1f_ffff_ffff_fffe,
            ;
        }
    }
    assert(den * pow2(52) == 0x10_0000_0000_0000 * den) by (nonlinear_arith)
        requires
            pow2(52) == 0x10_0000_0000_0000,
    ;
    if u >= 0x10_0000_0000_0000 * den {
        assert(binary64::is_last_place(num, den, e));
        binary64::lemma_last_place_unique(num, den, e);
        assert((2 * m - 1) * den == 2 * (m * den) - den) by (nonlinear_arith);
        assert((2 * m + 1) * den == 2 * (m * den) + den) by (nonlinear_arith);
        if m == 0x10_0000_0000_0000 {
            assert(m * den == 0x10_0000_0000_0000 * den);
        } else {
            assert((4 * m - 2) * den == 4 * (m * den) - 2 * den) by (nonlinear_arith);
        }
        lemma_rounds_to(u, den, m);
    } else {
        if m > 0x10_0000_0000_0000 {
            assert((4 * m - 2) * den == 4 * (m * den) - 2 * den) by (nonlinear_arith);
            assert(m * den >= 0x10_0000_0000_0001 * den) by (nonlinear_arith)
                requires
                    m >= 0x10_0000_0000_0001,
            ;
        }
        assert(m == 0x10_0000_0000_0000);
        assert((4 * m - 1) * den == 4 * (m * den) - den) by (nonlinear_arith);
        binary64::lemma_below_in_units(num, den, e, 51);
        assert(den * pow2(51) == 0x8_0000_0000_0000 * den) by (nonlinear_arith)
            requires
                pow2(51) == 0x8_0000_0000_0000,
        ;
        assert(binary64::is_last_place(num, den, e - 1));
        binary64::lemma_last_place_unique(num, den, e - 1);
        lemma_pow2_adds(1, k);
        assert((1 - e) as nat == 1 + k);
        assert(num * (2 * p) == 2 * u) by (nonlinear_arith)
            requires
                u == num * p,
        ;
        let w = 0x20_0000_0000_0000nat;
        assert((2 * w - 1) * den == 4 * (m * den) - den) by (nonlinear_arith)
            requires
                w == 2 * m,
        ;
        assert((2 * w + 1) * den == 4 * (m * den) + den) by (nonlinear_arith)
            requires
                w == 2 * m,
        ;
        lemma_rounds_to(2 * u, den, w);
    }
}

/// The distance of a rounded number.
proof fn lemma_round_distance(n: nat, d: nat)
    requires
        d > 0,
    ensures
        2 * n - d <= 2 * (binary64::round_half_even(n, d) * d) <= 2 * n + d,
{
    lemma_fundamental_div_mod(n as int, d as int);
    let q = n / d;
    assert(q * d == d * q) by (nonlinear_arith);
    assert((q + 1) * d == q * d + d) by (nonlinear_arith);
}

/// An integer of at most 53 bits is a double.
proof fn lemma_exact_integer(n: nat)
    requires
        n < 0x20_0000_0000_0000,
    ensures
        ({
            let d = binary64::nearest_double(n, 1);
            let j = (-d.1) as nat;
            &&& d.1 <= 0
            &&& binary64::fraction(d.0, d.1) == (n * pow2(j), pow2(j))
            &&& d.0 == n * pow2(j)
        }),
{
    lemma2_to64();
    lemma2_to64_rest();
    binary64::lemma_last_place(n, 1);
    let e = binary64::last_place(n, 1);
    assert(1 * pow2(53) == pow2(53));
    assert(binary64::below_pow2(n, 1, 53));
    if e > 0 {
        binary64::lemma_below_monotone(n, 1, 53, e + 52);
    }
    let j = (-e) as nat;
    let u = n * pow2(j);
    if e == 0 {
        assert(n * pow2(0) == n);
        assert(1 * pow2(0) == 1);
    }
    assert(binary64::in_units(n, 1, e) == (u, 1nat));
    assert(u / 1 == u);
    assert(binary64::round_half_even(u, 1) == u);
    if e == 0 {
        assert(u * pow2(0) == u);
    }
}

/// The double nearest to `m / 60`.
proof fn lemma_quotient(m: nat)
    requires
        0 < m < 0x8_0000_0000_0000,
    ensures
        ({
            let h = binary64::nearest_double(m, 60);
            let k = (-h.1) as nat;
            &&& -58 <= h.1 <= -7
            &&& 0x10_0000_0000_0000 <= h.0 <= 0x20_0000_0000_0000
            &&& m * pow2(k) - 30 <= 60 * h.0 <= m * pow2(k) + 30
            &&& shortest::sixtieth(m) == shortest::normal(h)
        }),
{
    lemma2_to64();
    lemma2_to64_rest();
    let h = binary64::nearest_double(m, 60);
    binary64::lemma_last_place(m, 60);
    let e = binary64::last_place(m, 60);
    // m / 60 < 2^46
    assert(60 * pow2(46) == 60 * 0x4000_0000_0000nat);
    assert(binary64::below_pow2(m, 60, 46));
    if e > -7 {
        binary64::lemma_below_monotone(m, 60, 46, e + 52);
    }
    // 2^-6 < 1 / 60
    if e < -58 {
        binary64::lemma_below_monotone(m, 60, e + 53, -6);
        assert(m * pow2(6) >= 64);
    }
    let k = (-e) as nat;
    let u = m * pow2(k);
    assert(binary64::in_units(m, 60, e) == (u, 60nat));
    lemma_round_distance(u, 60);
    binary64::lemma_rounded_at_least(m, 60);
    binary64::lemma_below_in_units(m, 60, e, 53);
    assert(u < 60 * 0x20_0000_0000_0000);
    assert(h.0 <= 0x20_0000_0000_0000);
    let d = binary64::nearest_double(m, 1);
    lemma_exact_integer(m);
    let j = (-d.1) as nat;
    let f = binary64::fraction(d.0, d.1);
    lemma_pow2_pos(j);
    binary64::lemma_nearest_scaled(m, 60, pow2(j));
    assert(60 * pow2(j) == f.1 * 60);
}

/// Sixty times the double nearest to `m / 60` rounds to `m`.
proof fn lemma_product(m: nat, h: (nat, int))
    requires
        m < 0x8_0000_0000_0000,
        -58 <= h.1 <= -7,
        m * pow2((-h.1) as nat) - 30 <= 60 * h.0 <= m * pow2((-h.1) as nat) + 30,
    ensures
        binary64::uncapped_minutes(h) == m,
{
    lemma2_to64();
    lemma2_to64_rest();
    let k = (-h.1) as nat;
    let kk = pow2(k);
    lemma_pow2_pos(k);
    assert(kk >= 128) by {
        if k > 7 {
            lemma_pow2_strictly_increases(7, k);
        }
    }
    let n = 60 * h.0;
    assert(binary64::fraction(n, h.1) == (n, kk));
    // The product lies below 2^52.
    assert(n < kk * pow2(52)) by (nonlinear_arith)
        requires
            n <= m * kk + 30,
            m <= 0x7_ffff_ffff_ffff,
            kk >= 128,
            pow2(52) == 0x10_0000_0000_0000,
    ;
    assert(binary64::below_pow2(n, kk, 52));
    binary64::lemma_last_place(n, kk);
    let e = binary64::last_place(n, kk);
    if e >= 0 {
        binary64::lemma_below_monotone(n, kk, 52, e + 52);
    }
    let j = (-e) as nat;
    let q = pow2(j);
    lemma_pow2_pos(j);
    assert(q >= 2) by {
        if j > 1 {
            lemma_pow2_strictly_increases(1, j);
        }
    }
    assert(binary64::in_units(n, kk, e) == (n * q, kk));
    lemma_round_distance(n * q, kk);
    let p = binary64::nearest_double(n, kk).0;
    assert(binary64::fraction(p, e) == (p, q));
    // 2 p lies between (2 m - 1) q and (2 m + 1) q.
    assert(60 * q + kk < q * kk) by (nonlinear_arith)
        requires
            q >= 2,
            kk >= 128,
    ;
    assert(2 * (p * kk) <= 2 * (n * q) + kk);
    assert(2 * (n * q) - kk <= 2 * (p * kk));
    assert(n * q <= (m * kk) * q + 30 * q) by (nonlinear_arith)
        requires
            n <= m * kk + 30,
    ;
    assert((m * kk) * q <= n * q + 30 * q) by (nonlinear_arith)
        requires
            m * kk <= n + 30,
    ;
    assert((m * kk) * q == (m * q) * kk) by (nonlinear_arith);
    assert(2 * p < 2 * (m * q) + q) by (nonlinear_arith)
        requires
            2 * (p * kk) < 2 * ((m * q) * kk) + q * kk,
            kk > 0,
    ;
    assert(2 * (m * q) < 2 * p + q) by (nonlinear_arith)
        requires
            2 * ((m * q) * kk) < 2 * (p * kk) + q * kk,
            kk > 0,
    ;
    let t = 2 * p + q;
    assert(m * (2 * q) == 2 * (m * q)) by (nonlinear_arith);
    assert((m + 1) * (2 * q) == 2 * (m * q) + 2 * q) by (nonlinear_arith);
    lemma_fundamental_div_mod_converse(t as int, (2 * q) as int, m as int, t - m * (2 * q));
}

/// Two ways to write a double give the same minutes.
proof fn lemma_same_double(h: (nat, int))
    requires
        h.1 < -1,
    ensures
        binary64::uncapped_minutes(shortest::normal(h)) == binary64::uncapped_minutes(h),
{
    if h.0 == 0x20_0000_0000_0000 {
        let k = (-h.1 - 1) as nat;
        lemma_pow2_pos(k);
        lemma2_to64();
        lemma_pow2_adds(k, 1);
        let g = shortest::normal(h);
        assert(binary64::fraction(60 * g.0, g.1) == (60 * g.0, pow2(k)));
        assert(binary64::fraction(60 * h.0, h.1) == (60 * h.0, pow2(k + 1)));
        binary64::lemma_nearest_scaled(60 * g.0, pow2(k), 2);
    }
}

/// A double has a shortest decimal, which reads as it.
proof fn lemma_shortest_reads_as(m: nat, e: int)
    requires
        0x10_0000_0000_0000 <= m < 0x20_0000_0000_0000,
        -58 <= e <= 5,
    ensures
        ({
            let s = choose|s: int| shortest::is_shortest(m, e, s);
            shortest::reads_as(m, e, shortest::nearest_decimal(m, e, s), s)
        }),
{
    shortest::lemma_enough_places(m, e);
    assert forall|t: int| t < -18 implies !#[trigger] shortest::has_places(m, e, t) by {
        shortest::lemma_too_few_places(m, e, t);
    }
    let s = lemma_first_place(m, e, -18);
    assert(shortest::is_shortest(m, e, s));
}

proof fn lemma_first_place(m: nat, e: int, from: int) -> (s: int)
    requires
        shortest::has_places(m, e, 19),
        from <= 19,
        forall|t: int| t < from ==> !#[trigger] shortest::has_places(m, e, t),
    ensures
        shortest::is_shortest(m, e, s),
    decreases 19 - from,
{
    if shortest::has_places(m, e, from) {
        from
    } else {
        lemma_first_place(m, e, from + 1)
    }
}

/// The minutes in a full number of hours.
proof fn lemma_full_hours(h: nat)
    requires
        60 * h < 0x8_0000_0000_0000,
    ensures
        binary64::double_minutes(false, h, 1) == Some(60 * h as int),
{
    lemma_exact_integer(h);
    lemma_exact_integer(60 * h);
    let d = binary64::nearest_double(h, 1);
    let j = (-d.1) as nat;
    lemma_pow2_pos(j);
    lemma2_to64();
    let f = binary64::fraction(60 * d.0, d.1);
    assert(60 * (h * pow2(j)) == (60 * h) * pow2(j)) by (nonlinear_arith);
    assert(f.0 == (60 * h) * pow2(j) && f.1 == 1 * pow2(j)) by {
        if d.1 == 0 {
            assert((60 * d.0) * pow2(0) == 60 * d.0);
        }
    }
    binary64::lemma_nearest_scaled(60 * h, 1, pow2(j));
    let p = binary64::nearest_double(60 * h, 1);
    let i = (-p.1) as nat;
    let q = pow2(i);
    lemma_pow2_pos(i);
    let v = (60 * h) * q;
    assert(60 * h * (2 * q) == 2 * v) by (nonlinear_arith)
        requires
            v == (60 * h) * q,
    ;
    assert((60 * h + 1) * (2 * q) == 2 * v + 2 * q) by (nonlinear_arith)
        requires
            v == (60 * h) * q,
    ;
    lemma_fundamental_div_mod_converse(
        (2 * v + q) as int,
        (2 * q) as int,
        (60 * h) as int,
        q as int,
    );
}

/// A step that is shown in hours is read back as the same step, for all steps
/// of fewer than 51 bits.
pub proof fn law_shown_hours_are_read_back(m: int)
    requires
        0 <= m < 0x8_0000_0000_0000,
    ensures
        number::minutes_of_text(steps::hours_text(m)) == Some(m),
{
    if m % 60 == 0 {
        let h = (m / 60) as nat;
        assert(60 * h == m);
        lemma_read_integer(h);
        assert(shortest::pow10(0) == 1);
        assert(h * 1 == h);
        lemma_full_hours(h);
    } else {
        let a = m as nat;
        let h = binary64::nearest_double(a, 60);
        lemma_quotient(a);
        lemma_product(a, h);
        lemma_same_double(h);
        let v = shortest::normal(h);
        lemma_shortest_reads_as(v.0, v.1);
        let s = choose|s: int| shortest::is_shortest(v.0, v.1, s);
        let n = shortest::nearest_decimal(v.0, v.1, s);
        lemma_decimal_rounds_to(v.0, v.1, n, s);
        lemma_read_decimal(n, s);
        let f = decimal_ratio(n, s);
        let g = binary64::nearest_double(f.0, f.1);
        lemma_same_double(g);
    }
}

/// Digits, with a point only in front of a digit.
spec fn is_number_text(s: Seq<char>) -> bool {
    &&& s.len() > 0
    &&& forall|i: int| 0 <= i < s.len() ==> text::is_digit(#[trigger] s[i]) || s[i] == '.'
    &&& forall|i: int|
        0 <= i < s.len() && #[trigger] s[i] == '.' ==> i + 1 < s.len() && text::is_digit(s[i + 1])
}

proof fn lemma_decimal_is_number_text(n: nat, s: int)
    ensures
        is_number_text(shortest::decimal_text(n, s)),
        text::trimmed(shortest::decimal_text(n, s)) == shortest::decimal_text(n, s),
{
    let t = shortest::decimal_text(n, s);
    if s <= 0 {
        let d = n * shortest::pow10((-s) as nat);
        lemma_read_integer(d);
        lemma_integer_is_number_text(d);
    } else {
        let p = shortest::pow10(s as nat);
        shortest::lemma_pow10_pos(s as nat);
        let (q, r) = (n / p, n % p);
        let (whole, places) = (text::dec(q), shortest::dec_padded(r, s as nat));
        shortest::lemma_dec(q);
        shortest::lemma_padded(r, s as nat);
        lemma_read_pointed(q, r, s as nat);
        let w = whole.len() as int;
        assert forall|i: int| 0 <= i < t.len() && i != w implies text::is_digit(
            #[trigger] t[i],
        ) by {
            if i < w {
                assert(t[i] == whole[i]);
            } else {
                assert(t[i] == places[i - w - 1]);
            }
        }
        assert(t[w] == '.');
        assert(text::is_digit(t[w + 1]));
        assert forall|i: int| 0 <= i < t.len() && #[trigger] t[i] == '.' implies i + 1 < t.len()
            && text::is_digit(t[i + 1]) by {
            if i != w {
                assert(text::is_digit(t[i]));
            }
        }
    }
}

proof fn lemma_integer_is_number_text(n: nat)
    ensures
        is_number_text(text::dec(n)),
{
    shortest::lemma_dec(n);
    let t = text::dec(n);
    assert forall|i: int| 0 <= i < t.len() implies text::is_digit(#[trigger] t[i]) by {}
}

proof fn lemma_hours_are_number_text(m: int)
    requires
        0 <= m < 0x8_0000_0000_0000,
    ensures
        is_number_text(steps::hours_text(m)),
        text::trimmed(steps::hours_text(m)) == steps::hours_text(m),
{
    if m % 60 == 0 {
        let h = (m / 60) as nat;
        lemma_read_integer(h);
        lemma_integer_is_number_text(h);
    } else {
        let v = shortest::sixtieth(m as nat);
        let s = choose|s: int| shortest::is_shortest(v.0, v.1, s);
        lemma_decimal_is_number_text(shortest::nearest_decimal(v.0, v.1, s), s);
    }
}

proof fn lemma_never_found(s: Seq<char>, pat: Seq<char>, from: int)
    requires
        forall|i: int| !#[trigger] text::occurs_at(s, pat, i),
    ensures
        text::find_from(s, pat, from) is None,
    decreases s.len() - from + 1,
{
    if !(from < 0 || from + pat.len() > s.len()) {
        lemma_never_found(s, pat, from + 1);
    }
}

/// A shown step is one element of a specification.
proof fn lemma_shown_element(m: int)
    requires
        0 <= m < 0x8_0000_0000_0000,
    ensures
        steps::element_steps(steps::hours_text(m)) == Ok::<Seq<int>, Seq<char>>(seq![m]),
        forall|i: int| 0 <= i < steps::hours_text(m).len() ==> steps::hours_text(m)[i] != ',',
{
    let t = steps::hours_text(m);
    lemma_hours_are_number_text(m);
    law_shown_hours_are_read_back(m);
    reveal_strlit("..");
    assert forall|i: int| !#[trigger] text::occurs_at(t, ".."@, i) by {
        if text::occurs_at(t, ".."@, i) {
            assert(t.subrange(i, i + 2)[0] == t[i]);
            assert(t.subrange(i, i + 2)[1] == t[i + 1]);
            assert(t[i] == '.');
        }
    }
    lemma_never_found(t, ".."@, 0);
    assert forall|i: int| 0 <= i < t.len() implies t[i] != ',' by {
        assert(text::is_digit(t[i]) || t[i] == '.');
    }
}

proof fn lemma_split_appended(a: Seq<char>, b: Seq<char>, sep: char)
    requires
        forall|i: int| 0 <= i < b.len() ==> b[i] != sep,
    ensures
        text::split(a, sep).len() > 0,
        text::split(a + b, sep) == text::split(a, sep).drop_last().push(
            text::split(a, sep).last() + b,
        ),
    decreases b.len(), a.len(),
{
    if b.len() == 0 {
        assert(a + b == a);
        if a.len() > 0 {
            lemma_split_appended(a.drop_last(), b, sep);
        }
        let s = text::split(a, sep);
        assert(s.len() > 0);
        assert(s.last() + b == s.last());
        assert(s == s.drop_last().push(s.last()));
    } else {
        let c = b.drop_last();
        lemma_split_appended(a, c, sep);
        assert((a + b).drop_last() == a + c);
        assert((a + b).last() == b.last());
        let s = text::split(a, sep);
        let t = text::split(a + c, sep);
        assert(t.drop_last() == s.drop_last());
        assert((s.last() + c).push(b.last()) == s.last() + b);
    }
}

/// Joined pieces without the separator in them are split again.
pub proof fn lemma_split_joined(parts: Seq<Seq<char>>, sep: char)
    requires
        parts.len() > 0,
        forall|k: int, i: int|
            0 <= k < parts.len() && 0 <= i < parts[k].len() ==> #[trigger] parts[k][i] != sep,
    ensures
        text::split(text::join(parts, seq![sep]), sep) == parts,
    decreases parts.len(),
{
    let last = parts.last();
    assert forall|i: int| 0 <= i < last.len() implies last[i] != sep by {
        assert(parts[parts.len() - 1][i] != sep);
    }
    if parts.len() == 1 {
        let none = Seq::<char>::empty();
        lemma_split_appended(none, last, sep);
        assert(none + last == last);
        assert(text::split(none, sep) == seq![none]);
        assert(parts == seq![last]);
        assert(seq![none].drop_last().push(none + last) == seq![last]);
    } else {
        let rest = parts.drop_last();
        assert forall|k: int, i: int| 0 <= k < rest.len() && 0 <= i < rest[k].len() implies
            #[trigger] rest[k][i] != sep by {
            assert(parts[k][i] != sep);
        }
        lemma_split_joined(rest, sep);
        let j = text::join(rest, seq![sep]);
        let a = j + seq![sep];
        assert(a.drop_last() == j);
        assert(text::split(a, sep) == rest.push(Seq::empty()));
        lemma_split_appended(a, last, sep);
        assert(Seq::<char>::empty() + last == last);
        assert(rest.push(Seq::empty()).drop_last() == rest);
        assert(parts == rest.push(last));
    }
}

proof fn lemma_shown_elements(v: Seq<i64>)
    requires
        forall|i: int| 0 <= i < v.len() ==> 0 <= #[trigger] v[i] < 0x8_0000_0000_0000,
    ensures
        steps::elements_steps(steps::hours_texts(v)) == Ok::<Seq<int>, Seq<char>>(
            order::values(v),
        ),
    decreases v.len(),
{
    let parts = steps::hours_texts(v);
    if v.len() == 0 {
        assert(order::values(v) == Seq::<int>::empty());
    } else {
        let rest = v.drop_last();
        assert forall|i: int| 0 <= i < rest.len() implies 0 <= #[trigger] rest[i]
            < 0x8_0000_0000_0000 by {
            assert(rest[i] == v[i]);
        }
        lemma_shown_elements(rest);
        assert(0 <= v[v.len() - 1] < 0x8_0000_0000_0000);
        lemma_shown_element(v.last() as int);
        assert(parts.drop_last() == steps::hours_texts(rest));
        assert(order::values(v) == order::values(rest) + seq![v.last() as int]);
    }
}

/// Steps that are listed in hours can be asked for as they are listed: the list
/// is a step specification of these very steps.
pub proof fn law_listed_hours_are_a_specification(v: Seq<i64>)
    requires
        v.len() > 0,
        forall|i: int| 0 <= i < v.len() ==> 0 <= #[trigger] v[i] < 0x8_0000_0000_0000,
    ensures
        steps::listed_steps(text::join(steps::hours_texts(v), ","@)) == Ok::<
            Seq<int>,
            Seq<char>,
        >(order::values(v)),
{
    reveal_strlit(",");
    let parts = steps::hours_texts(v);
    assert(","@ == seq![',']);
    assert forall|k: int, i: int| 0 <= k < parts.len() && 0 <= i < parts[k].len() implies
        #[trigger] parts[k][i] != ',' by {
        assert(0 <= v[k] < 0x8_0000_0000_0000);
        lemma_shown_element(v[k] as int);
        assert(parts[k] == steps::hours_text(v[k] as int));
    }
    lemma_split_joined(parts, ',');
    lemma_shown_elements(v);
}

} // verus!
