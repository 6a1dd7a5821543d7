//! Rounding to the IEEE 754 double-precision numbers, in integers.
//!
//! A non-negative rational is a pair of naturals `num / den`. The double
//! nearest to it is a pair `(m, e)` that stands for `m * 2^e`.
use crate::bignum::Natural;
use vstd::arithmetic::div_mod::*;
use vstd::arithmetic::mul::*;
use vstd::arithmetic::power2::*;
use vstd::prelude::*;

verus! {

/// `num / den < 2^k`.
pub open spec fn below_pow2(num: nat, den: nat, k: int) -> bool {
    if k >= 0 {
        num < den * pow2(k as nat)
    } else {
        num * pow2((-k) as nat) < den
    }
}

/// `num / den` measured in units of `2^e`, as a fraction.
pub open spec fn in_units(num: nat, den: nat, e: int) -> (nat, nat) {
    if e >= 0 {
        (num, den * pow2(e as nat))
    } else {
        (num * pow2((-e) as nat), den)
    }
}

/// `m * 2^e` as a fraction.
pub open spec fn fraction(m: nat, e: int) -> (nat, nat) {
    if e >= 0 {
        (m * pow2(e as nat), 1)
    } else {
        (m, pow2((-e) as nat))
    }
}

/// The integer nearest to `n / d`; of two equally near ones the even one.
pub open spec fn round_half_even(n: nat, d: nat) -> nat {
    let q = n / d;
    let r = n % d;
    if 2 * r < d || (2 * r == d && q % 2 == 0) {
        q
    } else {
        q + 1
    }
}

/// The integer nearest to `n / d`; of two equally near ones the larger one.
pub open spec fn round_half_up(n: nat, d: nat) -> nat {
    (2 * n + d) / (2 * d)
}

/// `2^e` is the place of the last of the 53 significant bits of `num / den`,
/// or the smallest place that a double has.
pub open spec fn is_last_place(num: nat, den: nat, e: int) -> bool {
    &&& e >= -1074
    &&& below_pow2(num, den, e + 53)
    &&& e > -1074 ==> !below_pow2(num, den, e + 52)
}

pub open spec fn last_place(num: nat, den: nat) -> int {
    choose|e: int| is_last_place(num, den, e)
}

/// The double nearest to `num / den`, ties to the even one, as if the exponent had no upper limit.
pub open spec fn nearest_double(num: nat, den: nat) -> (nat, int) {
    let e = last_place(num, den);
    let u = in_units(num, den, e);
    (round_half_even(u.0, u.1), e)
}

/// `m * 2^e` is beyond the largest finite double.
pub open spec fn overflows(v: (nat, int)) -> bool {
    v.1 > 971 || (v.1 == 971 && v.0 >= 0x20_0000_0000_0000)
}

/// The minutes that a double of hours rounds to, before the cap.
pub open spec fn uncapped_minutes(h: (nat, int)) -> nat {
    let product = fraction(60 * h.0, h.1);
    let p = nearest_double(product.0, product.1);
    let v = fraction(p.0, p.1);
    round_half_up(v.0, v.1)
}

/// The minutes in `num / den` hours (negative where `neg`) in double-precision
/// arithmetic: read as a double, multiplied by sixty, rounded half away from
/// zero and capped at the largest `i64`. None for infinite and negative numbers.
pub open spec fn double_minutes(neg: bool, num: nat, den: nat) -> Option<int> {
    let h = nearest_double(num, den);
    if overflows(h) || (neg && h.0 > 0) {
        None
    } else {
        let minutes = uncapped_minutes(h) as int;
        Some(if minutes > i64::MAX { i64::MAX as int } else { minutes })
    }
}

pub proof fn lemma_mul_less(a: nat, b: nat, c: nat)
    by (nonlinear_arith)
    requires
        c > 0,
    ensures
        a < b <==> a * c < b * c,
{
}

proof fn lemma_mul_le(a: nat, b: nat, c: nat)
    by (nonlinear_arith)
    requires
        a <= b,
    ensures
        a * c <= b * c,
{
}

/// A comparison with a power of two can be made in any smaller unit.
pub proof fn lemma_below_in_units(num: nat, den: nat, e: int, j: nat)
    requires
        den > 0,
    ensures
        ({
            let u = in_units(num, den, e);
            &&& u.1 > 0
            &&& below_pow2(num, den, e + j) <==> u.0 < u.1 * pow2(j)
        }),
{
    let u = in_units(num, den, e);
    lemma_pow2_pos(j);
    if e >= 0 {
        lemma_pow2_pos(e as nat);
        lemma_pow2_adds(e as nat, j);
        let p = pow2(e as nat);
        let q = pow2(j);
        assert(den * (p * q) == (den * p) * q) by (nonlinear_arith);
        assert(den * p > 0) by (nonlinear_arith)
            requires
                den > 0,
                p > 0,
        ;
    } else {
        let s = (-e) as nat;
        lemma_pow2_pos(s);
        if e + j >= 0 {
            let k = (e + j) as nat;
            lemma_pow2_adds(k, s);
            assert(k + s == j);
            lemma_mul_less(num, den * pow2(k), pow2(s));
            assert((den * pow2(k)) * pow2(s) == den * (pow2(k) * pow2(s))) by (nonlinear_arith);
        } else {
            let k = (-(e + j)) as nat;
            lemma_pow2_adds(k, j);
            assert(k + j == s);
            lemma_mul_less(num * pow2(k), den, pow2(j));
            assert((num * pow2(k)) * pow2(j) == num * (pow2(k) * pow2(j))) by (nonlinear_arith);
        }
    }
}

pub proof fn lemma_below_monotone(num: nat, den: nat, k: int, l: int)
    requires
        den > 0,
        k <= l,
        below_pow2(num, den, k),
    ensures
        below_pow2(num, den, l),
{
    lemma_below_in_units(num, den, k, 0);
    lemma_below_in_units(num, den, k, (l - k) as nat);
    lemma2_to64();
    lemma_pow2_pos((l - k) as nat);
    let u = in_units(num, den, k);
    let p = pow2((l - k) as nat);
    assert(u.1 * p >= u.1) by (nonlinear_arith)
        requires
            p >= 1,
    ;
}

pub proof fn lemma_last_place_unique(num: nat, den: nat, e: int)
    requires
        den > 0,
        is_last_place(num, den, e),
    ensures
        last_place(num, den) == e,
{
    let f = last_place(num, den);
    assert(is_last_place(num, den, f));
    if f < e {
        lemma_below_monotone(num, den, f + 53, e + 52);
    } else if e < f {
        lemma_below_monotone(num, den, e + 53, f + 52);
    }
}

proof fn lemma_pow2_exceeds(k: nat)
    ensures
        pow2(k) > k,
    decreases k,
{
    lemma2_to64();
    if k > 0 {
        lemma_pow2_exceeds((k - 1) as nat);
        lemma_pow2_adds(1, (k - 1) as nat);
    }
}

proof fn lemma_last_place_search(num: nat, den: nat, e: int) -> (r: int)
    requires
        den > 0,
        e >= -1074,
        e > -1074 ==> !below_pow2(num, den, e + 52),
    ensures
        is_last_place(num, den, r),
    decreases num - e + 2000,
{
    if below_pow2(num, den, e + 53) {
        e
    } else {
        if e + 53 >= 0 {
            let k = (e + 53) as nat;
            lemma_pow2_exceeds(k);
            assert(den * pow2(k) >= pow2(k)) by (nonlinear_arith)
                requires
                    den >= 1,
            ;
        }
        lemma_last_place_search(num, den, e + 1)
    }
}

/// Every rational has a last place.
pub proof fn lemma_last_place(num: nat, den: nat)
    requires
        den > 0,
    ensures
        is_last_place(num, den, last_place(num, den)),
{
    let e = lemma_last_place_search(num, den, -1074);
    lemma_last_place_unique(num, den, e);
}

/// `round_half_even` from a quotient and a remainder.
pub proof fn lemma_round_half_even(n: nat, d: nat, q: nat)
    requires
        q * d <= n < (q + 1) * d,
    ensures
        d > 0,
        n / d == q,
        n % d == n - q * d,
{
    assert(d > 0) by (nonlinear_arith)
        requires
            q * d <= n < (q + 1) * d,
    ;
    assert((q + 1) * d == q * d + d) by (nonlinear_arith);
    lemma_fundamental_div_mod_converse(n as int, d as int, q as int, n - q * d);
}

/// Rounding depends on the ratio alone.
proof fn lemma_round_half_even_scaled(n: nat, d: nat, c: nat)
    requires
        d > 0,
        c > 0,
    ensures
        round_half_even(n * c, d * c) == round_half_even(n, d),
{
    let q = n / d;
    let r = n % d;
    lemma_fundamental_div_mod(n as int, d as int);
    assert(q * d == d * q) by (nonlinear_arith);
    lemma_mul_less(r, d, c);
    assert((q * d) * c == q * (d * c)) by (nonlinear_arith);
    assert((q * d + r) * c == (q * d) * c + r * c) by (nonlinear_arith);
    assert((q + 1) * (d * c) == q * (d * c) + d * c) by (nonlinear_arith);
    lemma_round_half_even(n * c, d * c, q);
    lemma_mul_less(2 * r, d, c);
    lemma_mul_less(d, 2 * r, c);
    assert((2 * r) * c == 2 * (r * c)) by (nonlinear_arith);
}

/// The nearest double depends on the ratio alone.
pub proof fn lemma_nearest_scaled(n: nat, d: nat, c: nat)
    requires
        d > 0,
        c > 0,
    ensures
        nearest_double(n * c, d * c) == nearest_double(n, d),
{
    lemma_last_place(n, d);
    let e = last_place(n, d);
    lemma_below_scaled(n, d, c, e + 53);
    lemma_below_scaled(n, d, c, e + 52);
    lemma_mul_less(0, d, c);
    lemma_last_place_unique(n * c, d * c, e);
    let u = in_units(n, d, e);
    lemma_below_in_units(n, d, e, 0);
    lemma_round_half_even_scaled(u.0, u.1, c);
    if e >= 0 {
        let p = pow2(e as nat);
        assert((d * c) * p == (d * p) * c) by (nonlinear_arith);
    } else {
        let p = pow2((-e) as nat);
        assert((n * c) * p == (n * p) * c) by (nonlinear_arith);
    }
}

proof fn lemma_below_scaled(n: nat, d: nat, c: nat, k: int)
    requires
        c > 0,
    ensures
        below_pow2(n * c, d * c, k) == below_pow2(n, d, k),
{
    if k >= 0 {
        let p = pow2(k as nat);
        lemma_mul_less(n, d * p, c);
        assert((d * c) * p == (d * p) * c) by (nonlinear_arith);
    } else {
        let p = pow2((-k) as nat);
        lemma_mul_less(n * p, d, c);
        assert((n * c) * p == (n * p) * c) by (nonlinear_arith);
    }
}

/// A number from `2^64` up keeps that size when rounded.
proof fn lemma_nearest_large(num: nat, den: nat)
    requires
        den > 0,
        num >= den * pow2(64),
    ensures
        nearest_double(num, den).1 >= 12,
        nearest_double(num, den).0 >= 0x10_0000_0000_0000,
{
    lemma_last_place(num, den);
    let e = last_place(num, den);
    if e <= 11 {
        lemma_below_monotone(num, den, e + 53, 64);
    }
    lemma_rounded_at_least(num, den);
}

/// A normal number keeps its 53 bits when rounded.
pub proof fn lemma_rounded_at_least(num: nat, den: nat)
    requires
        den > 0,
        last_place(num, den) > -1074,
    ensures
        nearest_double(num, den).0 >= 0x10_0000_0000_0000,
{
    lemma_last_place(num, den);
    let e = last_place(num, den);
    let u = in_units(num, den, e);
    lemma_below_in_units(num, den, e, 52);
    lemma2_to64_rest();
    lemma2_to64();
    assert(pow2(52) == 0x10_0000_0000_0000);
    assert(0x10_0000_0000_0000 * u.1 == u.1 * pow2(52)) by (nonlinear_arith)
        requires
            pow2(52) == 0x10_0000_0000_0000,
    ;
    lemma_div_is_ordered(0x10_0000_0000_0000 * u.1 as int, u.0 as int, u.1 as int);
    lemma_div_by_multiple(0x10_0000_0000_0000, u.1 as int);
}

/// A number up to `2^-k` stays up to `2^-k` when rounded.
proof fn lemma_nearest_small(num: nat, den: nat, k: nat)
    requires
        den > 0,
        2 <= k <= 1000,
        num * pow2(k) <= den,
    ensures
        ({
            let h = nearest_double(num, den);
            let v = fraction(h.0, h.1);
            &&& h.1 < 0
            &&& v.0 * pow2(k) <= v.1
        }),
{
    lemma_last_place(num, den);
    let e = last_place(num, den);
    let u = in_units(num, den, e);
    // num / den < 2^(1 - k)
    lemma_pow2_adds(1, (k - 1) as nat);
    lemma2_to64();
    let p = pow2((k - 1) as nat);
    assert(num * (2 * p) == 2 * (num * p)) by (nonlinear_arith);
    assert(below_pow2(num, den, 1 - k));
    if e > -52 - k && e > -1074 {
        lemma_below_monotone(num, den, 1 - k, e + 52);
    }
    assert(e < 0);
    let s = (-e) as nat;
    let t = (s - k) as nat;
    lemma_pow2_adds(t, k);
    let m = nearest_double(num, den).0;
    let big = pow2(t);
    // u.0 / u.1 <= 2^t
    assert(num * pow2(s) == (num * pow2(k)) * big) by (nonlinear_arith)
        requires
            pow2(s) == big * pow2(k),
    ;
    lemma_mul_le(num * pow2(k), den, big);
    assert(u.0 <= den * big);
    let q = u.0 / den;
    let r = u.0 % den;
    lemma_fundamental_div_mod(u.0 as int, den as int);
    assert(q <= big) by (nonlinear_arith)
        requires
            u.0 == den * q + r,
            r >= 0,
            den > 0,
            u.0 <= den * big,
    ;
    if q == big {
        assert(den * q == den * big);
        assert(r == 0);
    }
    assert(m <= big);
    lemma_mul_le(m, big, pow2(k));
}

/// A number rounds to infinity from `(2^54 - 1) * 2^970` on.
proof fn lemma_overflow_threshold(num: nat, den: nat)
    requires
        den > 0,
    ensures
        overflows(nearest_double(num, den)) <==> num >= den * (0x3f_ffff_ffff_ffff * pow2(970)),
{
    lemma2_to64();
    lemma2_to64_rest();
    lemma_last_place(num, den);
    let e = last_place(num, den);
    let u = in_units(num, den, 971);
    let t = 0x3f_ffff_ffff_ffff * pow2(970);
    lemma_pow2_adds(1, 970);
    lemma_pow2_pos(970);
    let d = u.1;
    let p = pow2(970);
    // num >= den * t, measured in units of 2^971
    assert(2 * (den * t) == 0x3f_ffff_ffff_ffff * d) by (nonlinear_arith)
        requires
            d == den * (2 * p),
            t == 0x3f_ffff_ffff_ffff * p,
    ;
    lemma_below_in_units(num, den, 971, 53);
    lemma_below_in_units(num, den, 971, 52);
    assert(pow2(53) == 0x20_0000_0000_0000 && pow2(52) == 0x10_0000_0000_0000);
    if e > 971 {
        lemma_below_in_units(num, den, e, 52);
        if below_pow2(num, den, 1024) {
            lemma_below_monotone(num, den, 1024, e + 52);
        }
        assert(u.0 >= d * 0x20_0000_0000_0000);
        assert(2 * num >= 0x3f_ffff_ffff_ffff * d) by (nonlinear_arith)
            requires
                num >= d * 0x20_0000_0000_0000,
        ;
    } else if e == 971 {
        assert(u.0 < d * 0x20_0000_0000_0000);
        if num >= den * t {
            assert((0x1f_ffff_ffff_ffffnat + 1) * d == d * 0x20_0000_0000_0000) by (nonlinear_arith);
            assert(0x1f_ffff_ffff_ffff * d <= num) by (nonlinear_arith)
                requires
                    2 * num >= 0x3f_ffff_ffff_ffff * d,
            ;
            lemma_round_half_even(num, d, 0x1f_ffff_ffff_ffff);
        } else {
            let q = num / d;
            lemma_fundamental_div_mod(num as int, d as int);
            let r = num % d;
            assert(q <= 0x1f_ffff_ffff_ffff) by (nonlinear_arith)
                requires
                    num == d * q + r,
                    r >= 0,
                    d > 0,
                    num < d * 0x20_0000_0000_0000,
            ;
            if q == 0x1f_ffff_ffff_ffff {
                assert(2 * r < d) by (nonlinear_arith)
                    requires
                        num == d * q + r,
                        q == 0x1f_ffff_ffff_ffff,
                        2 * num < 0x3f_ffff_ffff_ffff * d,
                ;
            }
        }
    } else {
        if num >= den * t {
            lemma_below_monotone(num, den, e + 53, 1023);
            assert(below_pow2(num, den, 971int + 52));
            assert(2 * num < 0x3f_ffff_ffff_ffff * d) by (nonlinear_arith)
                requires
                    num < d * 0x10_0000_0000_0000,
                    d > 0,
            ;
        }
    }
}

/// A number rounds to zero up to `2^-1075`.
proof fn lemma_zero_threshold(num: nat, den: nat)
    requires
        den > 0,
    ensures
        nearest_double(num, den).0 == 0 <==> num * pow2(1075) <= den,
{
    lemma2_to64();
    lemma_last_place(num, den);
    let e = last_place(num, den);
    if e > -1074 {
        lemma_rounded_at_least(num, den);
        lemma_nearest_small_absurd(num, den, e);
    } else {
        let n = num * pow2(1074);
        lemma_pow2_adds(1, 1074);
        let p = pow2(1074);
        assert(num * (2 * p) == 2 * (num * p)) by (nonlinear_arith);
        if 2 * n <= den {
            assert(0 * den == 0 && (0 + 1) * den == den) by (nonlinear_arith);
            if n < den {
                lemma_round_half_even(n, den, 0);
            }
        } else {
            let q = n / den;
            lemma_fundamental_div_mod(n as int, den as int);
            if q == 0 {
                assert(den * q == 0) by (nonlinear_arith)
                    requires
                        q == 0,
                ;
            }
        }
    }
}

proof fn lemma_nearest_small_absurd(num: nat, den: nat, e: int)
    requires
        den > 0,
        e > -1074,
        !below_pow2(num, den, e + 52),
    ensures
        num * pow2(1075) > den,
{
    lemma2_to64();
    if num * pow2(1075) <= den {
        lemma_pow2_adds(1, 1074);
        let p = pow2(1074);
        lemma_pow2_pos(1074);
        assert(num * (2 * p) == 2 * (num * p)) by (nonlinear_arith);
        assert(below_pow2(num, den, -1074));
        lemma_below_monotone(num, den, -1074, e + 52);
    }
}

/// A number that rounds to zero is no minutes, whatever its sign.
pub proof fn lemma_tiny_minutes(neg: bool, num: nat, den: nat)
    requires
        den > 0,
        num * pow2(1075) <= den,
    ensures
        double_minutes(neg, num, den) == Some(0int),
{
    lemma_zero_threshold(num, den);
    lemma_overflow_threshold(num, den);
    lemma2_to64();
    lemma_pow2_pos(1067);
    lemma_pow2_adds(8, 1067);
    let p = pow2(1067);
    assert(num * 256 <= num * (256 * p)) by (nonlinear_arith)
        requires
            p >= 1,
    ;
    lemma_nearest_small(num, den, 8);
    lemma_small_minutes(nearest_double(num, den));
    lemma_pow2_pos(970);
    assert(num < den * (0x3f_ffff_ffff_ffff * pow2(970))) by (nonlinear_arith)
        requires
            num * 256 <= den,
            den > 0,
            pow2(970) >= 1,
    ;
}

/// A number from `2^1024` up is infinite.
pub proof fn lemma_huge_minutes(neg: bool, num: nat, den: nat)
    requires
        den > 0,
        num >= den * pow2(1024),
    ensures
        double_minutes(neg, num, den) is None,
{
    lemma_overflow_threshold(num, den);
    lemma2_to64();
    lemma2_to64_rest();
    lemma_pow2_adds(54, 970);
    lemma_pow2_pos(970);
    let p = pow2(970);
    assert(den * (0x3f_ffff_ffff_ffff * p) <= den * (0x40_0000_0000_0000 * p)) by (nonlinear_arith);
}

/// `num / den` lies in `[2^-8, 2^64)` and `(nn, dd)` is the same ratio in units of `2^e`.
spec fn scaled_pair(num: nat, den: nat, nn: nat, dd: nat, e: int) -> bool {
    &&& den > 0
    &&& -60 <= e <= 11
    &&& nn == num * pow2(60)
    &&& dd == den * pow2((e + 60) as nat)
    &&& !below_pow2(num, den, -8)
    &&& below_pow2(num, den, 64)
}

/// The pair is `in_units` up to a common factor.
proof fn lemma_scaled_pair(num: nat, den: nat, nn: nat, dd: nat, e: int)
    requires
        scaled_pair(num, den, nn, dd, e),
    ensures
        dd > 0,
        round_half_even(nn, dd) == round_half_even(in_units(num, den, e).0, in_units(num, den, e).1),
        forall|j: nat|
            below_pow2(num, den, #[trigger] (e + j)) <==> nn < dd * pow2(j),
{
    let u = in_units(num, den, e);
    lemma_below_in_units(num, den, e, 0);
    let c: nat = if e >= 0 { pow2(60) } else { pow2((60 + e) as nat) };
    if e >= 0 {
        lemma_pow2_pos(60);
        lemma_pow2_adds(e as nat, 60);
        assert((den * pow2(e as nat)) * c == den * (pow2(e as nat) * c)) by (nonlinear_arith);
    } else {
        lemma_pow2_pos((60 + e) as nat);
        lemma_pow2_adds((-e) as nat, (60 + e) as nat);
        assert((num * pow2((-e) as nat)) * c == num * (pow2((-e) as nat) * c)) by (nonlinear_arith);
    }
    assert(nn == u.0 * c);
    assert(dd == u.1 * c);
    lemma_mul_less(0, u.1, c);
    lemma_round_half_even_scaled(u.0, u.1, c);
    assert forall|j: nat| below_pow2(num, den, #[trigger] (e + j)) <==> nn < dd * pow2(j) by {
        lemma_below_in_units(num, den, e, j);
        lemma_mul_less(u.0, u.1 * pow2(j), c);
        assert((u.1 * pow2(j)) * c == (u.1 * c) * pow2(j)) by (nonlinear_arith);
    }
}

proof fn lemma_large_minutes(h: (nat, int))
    requires
        h.1 >= 12,
        h.0 >= 0x10_0000_0000_0000,
    ensures
        uncapped_minutes(h) > i64::MAX,
{
    let product = fraction(60 * h.0, h.1);
    lemma_at_least_pow2_64(60 * h.0, h.1);
    lemma_nearest_large(product.0, product.1);
    let p = nearest_double(product.0, product.1);
    lemma_at_least_pow2_64(p.0, p.1);
    let v = fraction(p.0, p.1);
    lemma2_to64();
    assert((2 * v.0 + 1) / 2 == v.0);
}

proof fn lemma_at_least_pow2_64(m: nat, e: int)
    requires
        e >= 12,
        m >= 0x10_0000_0000_0000,
    ensures
        fraction(m, e).1 == 1,
        fraction(m, e).0 >= pow2(64),
{
    lemma2_to64();
    lemma2_to64_rest();
    lemma_pow2_adds(52, 12);
    if e > 12 {
        lemma_pow2_strictly_increases(12, e as nat);
    }
    assert(pow2(52) == 0x10_0000_0000_0000);
    assert(m * pow2(e as nat) >= pow2(52) * pow2(12)) by (nonlinear_arith)
        requires
            m >= pow2(52),
            pow2(e as nat) >= pow2(12),
    ;
}

proof fn lemma_small_minutes(h: (nat, int))
    requires
        h.1 < 0,
        fraction(h.0, h.1).0 * pow2(8) <= fraction(h.0, h.1).1,
    ensures
        uncapped_minutes(h) == 0,
{
    lemma2_to64();
    let product = fraction(60 * h.0, h.1);
    lemma_pow2_pos((-h.1) as nat);
    assert(product.0 * pow2(2) <= product.1);
    lemma_nearest_small(product.0, product.1, 2);
    let p = nearest_double(product.0, product.1);
    let v = fraction(p.0, p.1);
    lemma_pow2_pos((-p.1) as nat);
    assert((2 * v.0 + v.1) / (2 * v.1) == 0) by (nonlinear_arith)
        requires
            v.0 * 4 <= v.1,
            v.1 > 0,
    ;
}

/// The 53 significant bits of `num / den` and the place of the last of them,
/// for a ratio in `[2^-8, 2^64)`.
fn significand(num: &Natural, den: &Natural) -> (r: (u64, i32))
    requires
        den@ > 0,
        !below_pow2(num@, den@, -8),
        below_pow2(num@, den@, 64),
    ensures
        nearest_double(num@, den@) == (r.0 as nat, r.1 as int),
        -60 <= r.1 <= 11,
        0x10_0000_0000_0000 <= r.0 <= 0x20_0000_0000_0000,
{
    proof {
        lemma2_to64();
        lemma2_to64_rest();
    }
    let mut nn = num.copy();
    nn.shift_up(60);
    let mut dd = den.copy();
    let mut e: i32 = -60;
    assert(dd@ == den@ * pow2((e + 60) as nat)) by (nonlinear_arith)
        requires
            dd@ == den@,
            pow2((e + 60) as nat) == 1,
    ;
    let mut top = dd.copy();
    top.shift_up(53);
    assert(!below_pow2(num@, den@, -60int + 52));
    while !nn.less(&top)
        invariant
            scaled_pair(num@, den@, nn@, dd@, e as int),
            top@ == dd@ * pow2(53),
            !below_pow2(num@, den@, e + 52),
        decreases 11 - e,
    {
        proof {
            lemma_scaled_pair(num@, den@, nn@, dd@, e as int);
            assert(below_pow2(num@, den@, e + 53nat) <==> nn@ < dd@ * pow2(53nat));
            assert(!below_pow2(num@, den@, e + 53));
            if e >= 11 {
                lemma_below_monotone(num@, den@, 64, e + 53);
            }
            lemma2_to64();
            lemma_pow2_adds((e + 60) as nat, 1);
            let p = pow2((e + 60) as nat);
            assert((den@ * p) * 2 == den@ * (p * 2)) by (nonlinear_arith);
        }
        dd.mul_add(2, 0);
        e += 1;
        top = dd.copy();
        top.shift_up(53);
    }
    proof {
        lemma_scaled_pair(num@, den@, nn@, dd@, e as int);
        assert(below_pow2(num@, den@, e + 53nat));
        assert(is_last_place(num@, den@, e as int));
        lemma_last_place_unique(num@, den@, e as int);
        lemma_rounded_at_least(num@, den@);
        lemma2_to64();
        lemma2_to64_rest();
        assert((0 + 0x20_0000_0000_0000) * dd@ == dd@ * pow2(53)) by (nonlinear_arith)
            requires
                pow2(53) == 0x20_0000_0000_0000,
        ;
        assert(0 * dd@ == 0);
    }
    let mut q: u64 = 0;
    let mut width: u64 = 0x20_0000_0000_0000;
    let mut j: u32 = 53;
    while j > 0
        invariant
            j <= 53,
            width as nat == pow2(j as nat),
            q + width <= 0x20_0000_0000_0000,
            q * dd@ <= nn@ < (q + width) * dd@,
        decreases j,
    {
        proof {
            lemma2_to64();
            lemma_pow2_adds((j - 1) as nat, 1);
        }
        let half: u64 = width / 2;
        let mut t = dd.copy();
        t.mul_add(q + half, 0);
        assert(t@ == (q + half) * dd@) by (nonlinear_arith)
            requires
                t@ == dd@ * ((q + half) as nat) + 0,
        ;
        if !nn.less(&t) {
            q = q + half;
        }
        width = half;
        j -= 1;
    }
    proof {
        lemma2_to64();
        lemma_round_half_even(nn@, dd@, q as nat);
    }
    let mut twice = nn.copy();
    twice.mul_add(2, 0);
    let mut odd = dd.copy();
    odd.mul_add(2 * q + 1, 0);
    assert(odd@ == 2 * (q * dd@) + dd@) by (nonlinear_arith)
        requires
            odd@ == dd@ * ((2 * q + 1) as nat) + 0,
    ;
    if twice.less(&odd) {
        (q, e)
    } else if odd.less(&twice) {
        (q + 1, e)
    } else if q % 2 == 0 {
        (q, e)
    } else {
        (q + 1, e)
    }
}

/// The minutes in `m * 2^e` hours, for a double with all its bits.
fn minutes_of_double(m: u64, e: i32) -> (r: i64)
    requires
        0x10_0000_0000_0000 <= m <= 0x20_0000_0000_0000,
        -60 <= e <= 11,
    ensures
        r == (if uncapped_minutes((m as nat, e as int)) > i64::MAX {
            i64::MAX as int
        } else {
            uncapped_minutes((m as nat, e as int)) as int
        }),
{
    let p: u128 = 60 * (m as u128);
    let t: u32 = if p < 0x400_0000_0000_0000 { 5 } else { 6 };
    let unit: u128 = if t == 5 { 32 } else { 64 };
    let q: u128 = p / unit;
    let rem: u128 = p % unit;
    let s: u128 = if 2 * rem < unit || (2 * rem == unit && q % 2 == 0) { q } else { q + 1 };
    let k: i32 = e + t as i32;
    let ghost product = fraction(p as nat, e as int);
    proof {
        lemma2_to64();
        lemma2_to64_rest();
        lemma_product_place(p as nat, e as int, t as nat);
        assert(nearest_double(product.0, product.1) == (s as nat, k as int));
    }
    let v: u128;
    if k >= 0 {
        let scale: u128 = pow2_u128(k as u32);
        proof {
            lemma_pow2_le(k as nat, 17);
            assert(s * scale <= 0x20_0000_0000_0000 * 0x20000) by (nonlinear_arith)
                requires
                    s <= 0x20_0000_0000_0000,
                    scale <= 0x20000,
            ;
        }
        v = s * scale;
        assert((2 * v + 1) / 2 == v);
    } else {
        let scale: u128 = pow2_u128((-k) as u32);
        proof {
            lemma_pow2_le((-k) as nat, 60);
            lemma_pow2_pos((-k) as nat);
        }
        v = (2 * s + scale) / (2 * scale);
    }
    if v > i64::MAX as u128 {
        i64::MAX
    } else {
        v as i64
    }
}

proof fn lemma_pow2_le(k: nat, l: nat)
    requires
        k <= l,
    ensures
        pow2(k) <= pow2(l),
{
    if k < l {
        lemma_pow2_strictly_increases(k, l);
    }
}

/// `2^k`.
pub fn pow2_u128(k: u32) -> (r: u128)
    requires
        k <= 100,
    ensures
        r == pow2(k as nat),
{
    let mut r: u128 = 1;
    let mut i: u32 = 0;
    proof {
        lemma2_to64();
        lemma2_to64_rest();
        lemma_pow2_adds(64, 36);
    }
    while i < k
        invariant
            i <= k <= 100,
            r == pow2(i as nat),
            pow2(100) == 0x1_0000_0000_0000_0000 * 0x10_0000_0000,
        decreases k - i,
    {
        proof {
            lemma2_to64();
            lemma_pow2_adds(1, i as nat);
            lemma_pow2_le((i + 1) as nat, 100);
        }
        r = r * 2;
        i += 1;
    }
    r
}

/// Where the bits of `p * 2^e` end, for `p` of exactly `53 + t` bits.
proof fn lemma_product_place(p: nat, e: int, t: nat)
    requires
        -60 <= e <= 11,
        pow2((52 + t) as nat) <= p < pow2((53 + t) as nat),
        t <= 6,
    ensures
        ({
            let f = fraction(p, e);
            nearest_double(f.0, f.1) == (round_half_even(p, pow2(t)), e + t)
        }),
{
    let f = fraction(p, e);
    lemma2_to64();
    let u = in_units(f.0, f.1, e);
    // in units of 2^e the number is p
    if e >= 0 {
        lemma_pow2_pos(e as nat);
    } else {
        lemma_pow2_pos((-e) as nat);
    }
    lemma_below_in_units(f.0, f.1, e, (53 + t) as nat);
    lemma_below_in_units(f.0, f.1, e, (52 + t) as nat);
    let d = u.1;
    assert(u.0 == p * d) by (nonlinear_arith)
        requires
            e >= 0 ==> u.0 == p * pow2(e as nat) && d == 1 * pow2(e as nat),
            e < 0 ==> u.0 == p * pow2((-e) as nat) && d == pow2((-e) as nat),
    ;
    lemma_mul_less(p, pow2((53 + t) as nat), d);
    lemma_mul_less(p, pow2((52 + t) as nat), d);
    assert(d * pow2((53 + t) as nat) == pow2((53 + t) as nat) * d) by (nonlinear_arith);
    assert(d * pow2((52 + t) as nat) == pow2((52 + t) as nat) * d) by (nonlinear_arith);
    let l = e + t;
    assert(is_last_place(f.0, f.1, l));
    lemma_last_place_unique(f.0, f.1, l);
    let w = in_units(f.0, f.1, l);
    // in units of 2^(e + t) it is p / 2^t, up to a common factor
    lemma_pow2_pos(t);
    if e >= 0 {
        lemma_pow2_adds(e as nat, t);
        let c = pow2(e as nat);
        lemma_round_half_even_scaled(p, pow2(t), c);
        assert(pow2(t) * c == 1 * (c * pow2(t))) by (nonlinear_arith);
    } else if l >= 0 {
        let c = pow2((-e) as nat);
        lemma_pow2_adds((-e) as nat, l as nat);
        // w = (p, c * 2^l)
        assert(w == (p, pow2(t)));
    } else {
        let c = pow2((-l) as nat);
        lemma_pow2_pos((-l) as nat);
        lemma_pow2_adds((-l) as nat, t);
        // w = (p * c, 2^t * c)
        lemma_round_half_even_scaled(p, pow2(t), c);
        assert(pow2(t) * c == c * pow2(t)) by (nonlinear_arith);
    }
}

/// The minutes in `num / den` hours in double-precision arithmetic.
pub fn minutes_in_hours(neg: bool, num: &Natural, den: &Natural) -> (r: Option<i64>)
    requires
        den@ > 0,
    ensures
        match r {
            Some(m) => double_minutes(neg, num@, den@) == Some(m as int),
            None => double_minutes(neg, num@, den@) is None,
        },
{
    let ghost h = nearest_double(num@, den@);
    proof {
        lemma2_to64();
        lemma2_to64_rest();
        lemma_overflow_threshold(num@, den@);
        lemma_zero_threshold(num@, den@);
    }
    let mut limit = den.copy();
    limit.mul_add(0x3f_ffff_ffff_ffff, 0);
    limit.shift_up(970);
    assert((den@ * 0x3f_ffff_ffff_ffff) * pow2(970) == den@ * (0x3f_ffff_ffff_ffff * pow2(970)))
        by (nonlinear_arith);
    if !num.less(&limit) {
        return None;
    }
    if neg {
        let mut tiny = num.copy();
        tiny.shift_up(1075);
        if den.less(&tiny) {
            return None;
        }
    }
    let mut large = den.copy();
    large.shift_up(64);
    if !num.less(&large) {
        proof {
            lemma_nearest_large(num@, den@);
            lemma_large_minutes(h);
            if neg {
                // A negative number of this size has left above.
                lemma_pow2_pos(1075);
                lemma_pow2_pos(64);
                assert(num@ * pow2(1075) > den@) by (nonlinear_arith)
                    requires
                        num@ >= den@ * pow2(64),
                        den@ > 0,
                        pow2(64) > 1,
                        pow2(1075) >= 1,
                ;
            }
        }
        return Some(i64::MAX);
    }
    let mut small = num.copy();
    small.shift_up(8);
    if small.less(den) {
        proof {
            lemma_nearest_small(num@, den@, 8);
            lemma_small_minutes(h);
        }
        return Some(0);
    }
    let (m, e) = significand(num, den);
    Some(minutes_of_double(m, e))
}

/// The minutes depend on the ratio alone.
pub proof fn law_minutes_of_a_ratio(neg: bool, num: nat, den: nat, c: nat)
    requires
        den > 0,
        c > 0,
    ensures
        double_minutes(neg, num * c, den * c) == double_minutes(neg, num, den),
{
    lemma_nearest_scaled(num, den, c);
}

} // verus!
