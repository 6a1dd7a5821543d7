//! The shortest decimal text that reads back as a given double, in integers.
use crate::binary64;
use crate::text;
use vstd::arithmetic::div_mod::*;
use vstd::arithmetic::mul::*;
use vstd::arithmetic::power2::*;
use vstd::prelude::*;

verus! {

pub open spec fn pow10(n: nat) -> nat
    decreases n,
{
    if n == 0 {
        1
    } else {
        10 * pow10((n - 1) as nat)
    }
}

/// What `x * 2^f` is multiplied by when it is compared with `n / 10^s`.
pub open spec fn binary_side(f: int, s: int) -> nat {
    (if s >= 0 { pow10(s as nat) } else { 1 }) * (if f >= 0 { pow2(f as nat) } else { 1 })
}

/// What `n / 10^s` is multiplied by when it is compared with `x * 2^f`.
pub open spec fn decimal_side(f: int, s: int) -> nat {
    (if s >= 0 { 1 } else { pow10((-s) as nat) }) * (if f >= 0 { 1 } else { pow2((-f) as nat) })
}

/// A double with all its bits, `m * 2^e`, and the numbers that round to it:
/// those between the midpoints to its neighbours, in units of `2^(e - 2)`.
pub open spec fn lower_midpoint(m: nat) -> nat {
    (if m == 0x10_0000_0000_0000 { 4 * m - 1 } else { 4 * m - 2 }) as nat
}

pub open spec fn upper_midpoint(m: nat) -> nat {
    4 * m + 2
}

/// `n / 10^s` reads as the double `m * 2^e`; a midpoint does where `m` is even.
pub open spec fn reads_as(m: nat, e: int, n: nat, s: int) -> bool {
    let b = binary_side(e - 2, s);
    let v = n * decimal_side(e - 2, s);
    if m % 2 == 0 {
        lower_midpoint(m) * b <= v <= upper_midpoint(m) * b
    } else {
        lower_midpoint(m) * b < v < upper_midpoint(m) * b
    }
}

/// The largest `n` with `n / 10^s <= m * 2^e`.
pub open spec fn decimal_below(m: nat, e: int, s: int) -> nat {
    (4 * m * binary_side(e - 2, s)) / decimal_side(e - 2, s)
}

/// With `s` decimal places the double `m * 2^e` can be told from its neighbours.
pub open spec fn has_places(m: nat, e: int, s: int) -> bool {
    let n = decimal_below(m, e, s);
    reads_as(m, e, n, s) || reads_as(m, e, n + 1, s)
}

pub open spec fn is_shortest(m: nat, e: int, s: int) -> bool {
    has_places(m, e, s) && forall|t: int| t < s ==> !#[trigger] has_places(m, e, t)
}

/// Of the two neighbouring decimals with `s` places, the one that reads as
/// `m * 2^e` and is nearer to it; the larger of two equally near ones.
pub open spec fn nearest_decimal(m: nat, e: int, s: int) -> nat {
    let n = decimal_below(m, e, s);
    let rest = 4 * m * binary_side(e - 2, s) - n * decimal_side(e - 2, s);
    if reads_as(m, e, n + 1, s) && (!reads_as(m, e, n, s) || 2 * rest >= decimal_side(e - 2, s)) {
        n + 1
    } else {
        n
    }
}

/// The last `width` decimal digits of `n`.
pub open spec fn dec_padded(n: nat, width: nat) -> Seq<char>
    decreases width,
{
    if width == 0 {
        Seq::empty()
    } else {
        dec_padded(n / 10, (width - 1) as nat).push(text::digit_char(n % 10))
    }
}

/// `n / 10^s` in decimal, with `s` places behind the point where `s` is positive.
pub open spec fn decimal_text(n: nat, s: int) -> Seq<char> {
    if s <= 0 {
        text::dec(n * pow10((-s) as nat))
    } else {
        text::dec(n / pow10(s as nat)) + seq!['.'] + dec_padded(n % pow10(s as nat), s as nat)
    }
}

/// The shortest decimal text of a double with all its bits.
pub open spec fn shortest_text(v: (nat, int)) -> Seq<char> {
    let s = choose|s: int| is_shortest(v.0, v.1, s);
    decimal_text(nearest_decimal(v.0, v.1, s), s)
}

/// The same number with `m` below `2^53`.
pub open spec fn normal(v: (nat, int)) -> (nat, int) {
    if v.0 == 0x20_0000_0000_0000 {
        (0x10_0000_0000_0000, v.1 + 1)
    } else {
        v
    }
}

/// `a / 60` in double-precision arithmetic: `a` read as a double, divided and rounded.
pub open spec fn sixtieth(a: nat) -> (nat, int) {
    let d = binary64::nearest_double(a, 1);
    let f = binary64::fraction(d.0, d.1);
    normal(binary64::nearest_double(f.0, f.1 * 60))
}

/// `m / 60` the way a double-precision quotient is printed.
pub open spec fn sixtieth_text(m: int) -> Seq<char> {
    if m < 0 {
        seq!['-'] + shortest_text(sixtieth((-m) as nat))
    } else {
        shortest_text(sixtieth(m as nat))
    }
}

pub proof fn lemma_pow10_pos(n: nat)
    ensures
        pow10(n) > 0,
    decreases n,
{
    if n > 0 {
        lemma_pow10_pos((n - 1) as nat);
    }
}

pub proof fn lemma_pow10_monotone(a: nat, b: nat)
    requires
        a <= b,
    ensures
        pow10(a) <= pow10(b),
    decreases b,
{
    if a < b {
        lemma_pow10_monotone(a, (b - 1) as nat);
        lemma_pow10_pos((b - 1) as nat);
    }
}

proof fn lemma_pow10_values()
    ensures
        pow10(18) == 1_000_000_000_000_000_000,
        pow10(19) == 10_000_000_000_000_000_000,
{
    reveal_with_fuel(pow10, 20);
}

proof fn lemma_sides_positive(f: int, s: int)
    ensures
        binary_side(f, s) > 0,
        decimal_side(f, s) > 0,
{
    let a: nat = if s >= 0 { pow10(s as nat) } else { 1 };
    let b: nat = if f >= 0 { pow2(f as nat) } else { 1 };
    let c: nat = if s >= 0 { 1 } else { pow10((-s) as nat) };
    let d: nat = if f >= 0 { 1 } else { pow2((-f) as nat) };
    if s >= 0 {
        lemma_pow10_pos(s as nat);
    } else {
        lemma_pow10_pos((-s) as nat);
    }
    if f >= 0 {
        lemma_pow2_pos(f as nat);
    } else {
        lemma_pow2_pos((-f) as nat);
    }
    assert(a * b > 0) by (nonlinear_arith)
        requires
            a > 0,
            b > 0,
    ;
    assert(c * d > 0) by (nonlinear_arith)
        requires
            c > 0,
            d > 0,
    ;
}

/// No decimal with fewer places than `-18` reads as a double below `2^58`.
pub proof fn lemma_too_few_places(m: nat, e: int, s: int)
    requires
        0x10_0000_0000_0000 <= m < 0x20_0000_0000_0000,
        -58 <= e <= 5,
        s < -18,
    ensures
        !has_places(m, e, s),
{
    let f = e - 2;
    let b = binary_side(f, s);
    let d = decimal_side(f, s);
    lemma_sides_positive(f, s);
    lemma_pow10_values();
    lemma_pow10_monotone(19, (-s) as nat);
    lemma2_to64();
    let t = pow10((-s) as nat);
    let x = upper_midpoint(m);
    // x * b < d
    assert(x * b < d) by {
        if f >= 0 {
            lemma_pow2_le_3(f as nat);
            assert(x * pow2(f as nat) < t) by (nonlinear_arith)
                requires
                    x <= 0x80_0000_0000_0002,
                    pow2(f as nat) <= 8,
                    t >= 10_000_000_000_000_000_000,
            ;
            assert(1 * pow2(f as nat) == pow2(f as nat) && t * 1 == t);
        } else {
            let w = pow2((-f) as nat);
            lemma_pow2_pos((-f) as nat);
            assert(x * 1 < t * w) by (nonlinear_arith)
                requires
                    x <= 0x80_0000_0000_0002,
                    w >= 1,
                    t >= 10_000_000_000_000_000_000,
            ;
        }
    }
    assert(4 * m * b <= x * b) by (nonlinear_arith)
        requires
            4 * m <= x,
    ;
    lemma_basic_div(4 * m * b as int, d as int);
    assert(decimal_below(m, e, s) == 0);
    assert(lower_midpoint(m) * b > 0) by (nonlinear_arith)
        requires
            lower_midpoint(m) > 0,
            b > 0,
    ;
    assert(0 * d == 0 && (0 + 1) * d == d) by (nonlinear_arith);
}

proof fn lemma_pow2_le_3(k: nat)
    requires
        k <= 3,
    ensures
        pow2(k) <= 8,
{
    lemma2_to64();
    if k < 3 {
        lemma_pow2_strictly_increases(k, 3);
    }
}

proof fn lemma_pow2_le_60(k: nat)
    requires
        k <= 60,
    ensures
        pow2(k) <= 0x1000_0000_0000_0000,
{
    lemma2_to64_rest();
    if k < 60 {
        lemma_pow2_strictly_increases(k, 60);
    }
}

/// Nineteen places are enough for a double from `2^-6` up.
pub proof fn lemma_enough_places(m: nat, e: int)
    requires
        0x10_0000_0000_0000 <= m < 0x20_0000_0000_0000,
        -58 <= e <= 5,
    ensures
        has_places(m, e, 19),
{
    let f = e - 2;
    let b = binary_side(f, 19);
    let d = decimal_side(f, 19);
    lemma_sides_positive(f, 19);
    lemma_pow10_values();
    assert(d <= b) by {
        if f >= 0 {
            lemma_pow2_pos(f as nat);
        } else {
            lemma_pow2_le_60((-f) as nat);
        }
        assert(1 * 1 == 1nat);
    }
    let v = 4 * m * b;
    let n = v / d;
    lemma_fundamental_div_mod(v as int, d as int);
    assert(n * d == d * n) by (nonlinear_arith);
    let lo = lower_midpoint(m);
    assert(lo * b + b <= v) by (nonlinear_arith)
        requires
            lo + 1 <= 4 * m,
            v == 4 * m * b,
    ;
    assert(v < upper_midpoint(m) * b) by (nonlinear_arith)
        requires
            v == 4 * m * b,
            b > 0,
            upper_midpoint(m) == 4 * m + 2,
    ;
    assert(reads_as(m, e, n, 19));
}

proof fn lemma_shortest_unique(m: nat, e: int, s: int)
    requires
        is_shortest(m, e, s),
    ensures
        (choose|t: int| is_shortest(m, e, t)) == s,
{
    let t = choose|t: int| is_shortest(m, e, t);
    assert(is_shortest(m, e, t));
    if t < s {
        assert(has_places(m, e, t));
    } else if s < t {
        assert(has_places(m, e, s));
    }
}

fn pow10_u128(k: u32) -> (r: u128)
    requires
        k <= 19,
    ensures
        r == pow10(k as nat),
        r <= 10_000_000_000_000_000_000,
{
    let mut r: u128 = 1;
    let mut i: u32 = 0;
    proof {
        lemma_pow10_values();
        lemma_pow10_monotone(k as nat, 19);
    }
    while i < k
        invariant
            i <= k <= 19,
            r == pow10(i as nat),
            pow10(19) == 10_000_000_000_000_000_000,
        decreases k - i,
    {
        proof {
            lemma_pow10_monotone((i + 1) as nat, 19);
        }
        r = r * 10;
        i += 1;
    }
    r
}

fn push_padded(out: &mut String, n: u128, width: u32)
    ensures
        final(out)@ == old(out)@ + dec_padded(n as nat, width as nat),
    decreases width,
{
    if width > 0 {
        push_padded(out, n / 10, width - 1);
        let d: u8 = (n % 10) as u8;
        out.push((d + 48) as char);
    }
    assert(out@ == old(out)@ + dec_padded(n as nat, width as nat));
}

/// `a` as a double, which is again an integer.
fn as_double(a: u64) -> (r: u128)
    requires
        1 <= a <= 0x8000_0000_0000_0000,
    ensures
        1 <= r <= 0x8000_0000_0000_0000,
        ({
            let d = binary64::nearest_double(a as nat, 1);
            let f = binary64::fraction(d.0, d.1);
            &&& f.1 > 0
            &&& f.0 == r * f.1
        }),
{
    proof {
        lemma2_to64();
        lemma2_to64_rest();
        binary64::lemma_last_place(a as nat, 1);
    }
    let ghost e = binary64::last_place(a as nat, 1);
    let ghost u = binary64::in_units(a as nat, 1, e);
    if a < 0x20_0000_0000_0000 {
        proof {
            assert(binary64::below_pow2(a as nat, 1, 53));
            if e > 0 {
                binary64::lemma_below_monotone(a as nat, 1, 53, e + 52);
            }
            if e < 0 {
                lemma_pow2_pos((-e) as nat);
            }
            assert(u.1 == 1);
            assert(u.0 / 1 == u.0 && u.0 % 1 == 0);
        }
        return a as u128;
    }
    let x: u128 = a as u128;
    let mut t: u32 = 1;
    let mut unit: u128 = 2;
    while x >= unit * 0x20_0000_0000_0000
        invariant
            1 <= t <= 11,
            x <= 0x8000_0000_0000_0000,
            unit == pow2(t as nat),
            unit <= 2048,
            x >= unit * 0x10_0000_0000_0000,
        decreases 11 - t,
    {
        proof {
            lemma2_to64();
            lemma_pow2_adds(1, t as nat);
            if t == 11 {
                assert(pow2(11) == 2048);
            } else {
                lemma_pow2_le_11((t + 1) as nat);
            }
        }
        unit = unit * 2;
        t += 1;
    }
    let q: u128 = x / unit;
    let rem: u128 = x % unit;
    let m: u128 = if 2 * rem < unit || (2 * rem == unit && q % 2 == 0) { q } else { q + 1 };
    proof {
        lemma2_to64();
        lemma2_to64_rest();
        lemma_pow2_adds(t as nat, 53);
        lemma_pow2_adds(t as nat, 52);
        assert(binary64::is_last_place(a as nat, 1, t as int));
        binary64::lemma_last_place_unique(a as nat, 1, t as int);
        assert(u == (a as nat, 1 * pow2(t as nat)));
        binary64::lemma_rounded_at_least(a as nat, 1);
        assert(e == t);
        assert(m == binary64::round_half_even(a as nat, unit as nat));
        assert(binary64::nearest_double(a as nat, 1) == (m as nat, t as int));
        assert(binary64::fraction(m as nat, t as int) == ((m * unit) as nat, 1nat));
        lemma_fundamental_div_mod(x as int, unit as int);
        lemma_pow2_adds(t as nat, (63 - t) as nat);
        let w = pow2((63 - t) as nat);
        assert(q <= w) by (nonlinear_arith)
            requires
                x == unit * q + rem,
                rem >= 0,
                x <= unit * w,
                unit > 0,
        ;
        if q == w {
            assert(unit * q == unit * w);
            assert(rem == 0);
        }
        assert(m <= w);
        assert(m * unit <= w * unit) by (nonlinear_arith)
            requires
                m <= w,
        ;
        assert(w * unit == unit * w) by (nonlinear_arith);
        assert(m * unit >= 1) by (nonlinear_arith)
            requires
                m >= 1,
                unit >= 1,
        ;
    }
    m * unit
}

proof fn lemma_pow2_le_11(k: nat)
    requires
        k <= 11,
    ensures
        pow2(k) <= 2048,
{
    lemma2_to64();
    if k < 11 {
        lemma_pow2_strictly_increases(k, 11);
    }
}

/// `b / 60` as a double with all its bits.
fn sixtieth_of(a: u64) -> (r: (u128, i32))
    requires
        1 <= a <= 0x8000_0000_0000_0000,
    ensures
        sixtieth(a as nat) == (r.0 as nat, r.1 as int),
        0x10_0000_0000_0000 <= r.0 < 0x20_0000_0000_0000,
        -58 <= r.1 <= 5,
{
    let b: u128 = as_double(a);
    proof {
        let d = binary64::nearest_double(a as nat, 1);
        let f = binary64::fraction(d.0, d.1);
        binary64::lemma_nearest_scaled(b as nat, 60, f.1);
        assert(60 * f.1 == f.1 * 60);
        lemma2_to64();
        lemma2_to64_rest();
        assert(b * pow2(0) == b && 60 * pow2(0) == 60);
    }
    let mut nn: u128 = b;
    let mut dd: u128 = 60;
    let mut e: i32 = 0;
    while nn < dd * 0x10_0000_0000_0000
        invariant
            dd == 60,
            1 <= b,
            -58 <= e <= 0,
            nn == b * pow2((-e) as nat),
            nn < 0x1000_0000_0000_0000 || e == 0,
            e < 0 ==> nn < 60 * 0x20_0000_0000_0000,
        decreases 58 + e,
    {
        proof {
            lemma2_to64();
            lemma2_to64_rest();
            lemma_pow2_adds((-e) as nat, 1);
            let p = pow2((-e) as nat);
            assert((b * p) * 2 == b * (p * 2)) by (nonlinear_arith);
            if e == -58 {
                assert(b * p >= p) by (nonlinear_arith)
                    requires
                        b >= 1,
                ;
            }
        }
        nn = nn * 2;
        e -= 1;
    }
    let ghost e1 = e;
    while nn >= dd * 0x20_0000_0000_0000
        invariant
            -58 <= e <= 5,
            e1 < 0 ==> e == e1 && nn < dd * 0x20_0000_0000_0000,
            e1 <= e,
            e > 0 ==> nn == b,
            e <= 0 ==> nn == b * pow2((-e) as nat),
            e >= 0 ==> dd == 60 * pow2(e as nat),
            e <= 0 ==> dd == 60,
            dd <= 60 * 32,
            nn >= dd * 0x10_0000_0000_0000,
            nn <= 0x8000_0000_0000_0000,
        decreases 5 - e,
    {
        proof {
            lemma2_to64();
            lemma2_to64_rest();
            assert(e >= 0);
            lemma_pow2_adds(e as nat, 1);
            let p = pow2(e as nat);
            assert((60 * p) * 2 == 60 * (p * 2)) by (nonlinear_arith);
            assert(b * pow2(0) == b);
            if e == 5 {
                assert(pow2(5) == 32);
            } else {
                lemma_pow2_le_5((e + 1) as nat);
            }
        }
        dd = dd * 2;
        e += 1;
    }
    let q: u128 = nn / dd;
    let rem: u128 = nn % dd;
    let m: u128 = if 2 * rem < dd || (2 * rem == dd && q % 2 == 0) { q } else { q + 1 };
    proof {
        lemma2_to64();
        lemma2_to64_rest();
        let u = binary64::in_units(b as nat, 60, e as int);
        assert(b * pow2(0) == b && 60 * pow2(0) == 60);
        assert(u == (nn as nat, dd as nat));
        binary64::lemma_below_in_units(b as nat, 60, e as int, 53);
        binary64::lemma_below_in_units(b as nat, 60, e as int, 52);
        assert(binary64::is_last_place(b as nat, 60, e as int));
        binary64::lemma_last_place_unique(b as nat, 60, e as int);
        binary64::lemma_rounded_at_least(b as nat, 60);
        assert(binary64::nearest_double(b as nat, 60) == (m as nat, e as int));
        lemma_fundamental_div_mod(nn as int, dd as int);
        assert(q < 0x20_0000_0000_0000) by (nonlinear_arith)
            requires
                nn == dd * q + rem,
                rem >= 0,
                dd > 0,
                nn < dd * 0x20_0000_0000_0000,
        ;
    }
    if m == 0x20_0000_0000_0000 {
        proof {
            // Below the cap the quotient leaves room for one more place.
            if e == 5 {
                assert(nn <= 0x8000_0000_0000_0000 && dd == 60 * 32);
                assert(q < 0x1f_ffff_ffff_ffff) by (nonlinear_arith)
                    requires
                        nn == dd * q + rem,
                        rem >= 0,
                        dd == 1920,
                        nn <= 0x8000_0000_0000_0000,
                ;
            }
        }
        (0x10_0000_0000_0000, e + 1)
    } else {
        (m, e)
    }
}

proof fn lemma_pow2_le_5(k: nat)
    requires
        k <= 5,
    ensures
        pow2(k) <= 32,
{
    lemma2_to64();
    if k < 5 {
        lemma_pow2_strictly_increases(k, 5);
    }
}

/// The factors by which the two sides of a comparison are multiplied.
fn sides(e: i32, s: i32) -> (r: (u128, u128))
    requires
        -58 <= e <= 5,
        -18 <= s <= 19,
    ensures
        r.0 == binary_side(e - 2, s as int),
        r.1 == decimal_side(e - 2, s as int),
        r.0 > 0,
        r.1 > 0,
        r.0 <= 80_000_000_000_000_000_000,
        r.1 <= 1_000_000_000_000_000_000 * 0x1000_0000_0000_0000,
{
    let f: i32 = e - 2;
    proof {
        lemma_sides_positive(f as int, s as int);
        lemma_pow10_values();
    }
    let mut b: u128 = 1;
    let mut d: u128 = 1;
    if s >= 0 {
        b = pow10_u128(s as u32);
    } else {
        proof {
            lemma_pow10_monotone((-s) as nat, 18);
        }
        d = pow10_u128((-s) as u32);
    }
    if f >= 0 {
        proof {
            lemma_pow2_le_3(f as nat);
        }
        let p: u128 = binary64::pow2_u128(f as u32);
        assert(b * p <= 10_000_000_000_000_000_000 * 8) by (nonlinear_arith)
            requires
                b <= 10_000_000_000_000_000_000,
                p <= 8,
        ;
        b = b * p;
    } else {
        proof {
            lemma_pow2_le_60((-f) as nat);
        }
        let p: u128 = binary64::pow2_u128((-f) as u32);
        assert(d * p <= 1_000_000_000_000_000_000 * 0x1000_0000_0000_0000) by (nonlinear_arith)
            requires
                d <= 1_000_000_000_000_000_000,
                p <= 0x1000_0000_0000_0000,
        ;
        d = d * p;
    }
    (b, d)
}

/// Whether `n / 10^s` reads as `m * 2^e`, where `v` is `n` on its side of the comparison.
fn reads(m: u128, b: u128, v: u128) -> (r: bool)
    requires
        0x10_0000_0000_0000 <= m < 0x20_0000_0000_0000,
        b <= 80_000_000_000_000_000_000,
    ensures
        r == (if m % 2 == 0 {
            lower_midpoint(m as nat) * b <= v <= upper_midpoint(m as nat) * b
        } else {
            lower_midpoint(m as nat) * b < v < upper_midpoint(m as nat) * b
        }),
{
    let low: u128 = if m == 0x10_0000_0000_0000 { 4 * m - 1 } else { 4 * m - 2 };
    let high: u128 = 4 * m + 2;
    assert(low * b <= high * b && high * b <= 0x80_0000_0000_0002 * 80_000_000_000_000_000_000)
        by (nonlinear_arith)
        requires
            low <= high <= 0x80_0000_0000_0002,
            0 <= b <= 80_000_000_000_000_000_000,
    ;
    let from: u128 = low * b;
    let to: u128 = high * b;
    if m % 2 == 0 {
        from <= v && v <= to
    } else {
        from < v && v < to
    }
}

/// Append `n / 10^s` in decimal.
fn push_decimal(out: &mut String, n: u128, s: i32)
    requires
        -18 <= s <= 19,
        s <= 0 ==> n * pow10((-s) as nat) <= u128::MAX,
    ensures
        final(out)@ == old(out)@ + decimal_text(n as nat, s as int),
{
    if s <= 0 {
        let p: u128 = pow10_u128((-s) as u32);
        text::push_dec(out, n * p);
    } else {
        let p: u128 = pow10_u128(s as u32);
        proof {
            lemma_pow10_pos(s as nat);
        }
        text::push_dec(out, n / p);
        out.push('.');
        push_padded(out, n % p, s as u32);
        assert(out@ == old(out)@ + decimal_text(n as nat, s as int));
    }
}

/// Append the shortest decimal text of the double `m * 2^e`.
fn push_shortest(out: &mut String, m: u128, e: i32)
    requires
        0x10_0000_0000_0000 <= m < 0x20_0000_0000_0000,
        -58 <= e <= 5,
    ensures
        final(out)@ == old(out)@ + shortest_text((m as nat, e as int)),
{
    let mut s: i32 = -18;
    proof {
        assert forall|t: int| t < -18 implies !#[trigger] has_places(m as nat, e as int, t) by {
            lemma_too_few_places(m as nat, e as int, t);
        }
        lemma_enough_places(m as nat, e as int);
    }
    while s <= 19
        invariant
            -18 <= s <= 20,
            0x10_0000_0000_0000 <= m < 0x20_0000_0000_0000,
            -58 <= e <= 5,
            has_places(m as nat, e as int, 19),
            out@ == old(out)@,
            forall|t: int| t < s ==> !#[trigger] has_places(m as nat, e as int, t),
        decreases 20 - s,
    {
        let (b, d) = sides(e, s);
        assert(4 * m * b <= 0x80_0000_0000_0000 * 80_000_000_000_000_000_000) by (nonlinear_arith)
            requires
                0 <= m <= 0x20_0000_0000_0000,
                0 <= b <= 80_000_000_000_000_000_000,
        ;
        let v: u128 = 4 * m * b;
        let n: u128 = v / d;
        let rest: u128 = v % d;
        proof {
            lemma_fundamental_div_mod(v as int, d as int);
            assert(n * d == d * n) by (nonlinear_arith);
            assert((n + 1) * d == n * d + d) by (nonlinear_arith);
            assert(n == decimal_below(m as nat, e as int, s as int));
        }
        let low: u128 = v - rest;
        let high: u128 = low + d;
        let low_reads = reads(m, b, low);
        let high_reads = reads(m, b, high);
        assert(low_reads == reads_as(m as nat, e as int, n as nat, s as int));
        assert(high_reads == reads_as(m as nat, e as int, (n + 1) as nat, s as int));
        if low_reads || high_reads {
            let up = high_reads && (!low_reads || 2 * rest >= d);
            let k: u128 = if up { n + 1 } else { n };
            proof {
                lemma_shortest_unique(m as nat, e as int, s as int);
                assert(k == nearest_decimal(m as nat, e as int, s as int));
            }
            proof {
                if s <= 0 {
                    let p = pow10((-s) as nat);
                    let w = decimal_side(e - 2, s as int);
                    assert(w >= p) by {
                        lemma_pow10_pos((-s) as nat);
                        let x: nat = if e >= 2 { 1 } else { pow2((2 - e) as nat) };
                        if e < 2 {
                            lemma_pow2_pos((2 - e) as nat);
                        }
                        if s == 0 {
                            assert(p == 1);
                            assert(1 * x >= 1);
                        } else {
                            assert(p * x >= p) by (nonlinear_arith)
                                requires
                                    x >= 1,
                            ;
                        }
                    }
                    assert(k * p <= k * d) by (nonlinear_arith)
                        requires
                            p <= d,
                    ;
                    assert(k * d <= high);
                }
            }
            push_decimal(out, k, s);
            return ;
        }
        s += 1;
    }
    assert(false);
}

/// Append `m / 60` the way a double-precision quotient is printed.
pub fn push_sixtieth(out: &mut String, m: i64)
    requires
        m != 0,
    ensures
        final(out)@ == old(out)@ + sixtieth_text(m as int),
{
    let a: u64 = if m < 0 { (-(m as i128)) as u64 } else { m as u64 };
    if m < 0 {
        out.push('-');
    }
    let (q, e) = sixtieth_of(a);
    push_shortest(out, q, e);
    assert(out@ == old(out)@ + sixtieth_text(m as int));
}

/// A decimal digit is a digit.
pub proof fn lemma_digit(d: nat)
    requires
        d < 10,
    ensures
        text::is_digit(text::digit_char(d)),
        text::digit_char(d) as int - '0' as int == d,
        !text::is_space(text::digit_char(d)),
        text::digit_char(d) != '-',
        text::digit_char(d) != '+',
{
}

/// A number in decimal stands for itself.
pub proof fn lemma_dec(n: nat)
    ensures
        text::all_digits(text::dec(n)),
        text::digits_value(text::dec(n)) == n,
        text::dec(n).len() > 0,
    decreases n,
{
    let s = text::dec(n);
    if n < 10 {
        lemma_digit(n);
        assert(s.drop_last() == Seq::<char>::empty());
        assert(text::digits_value(s.drop_last()) == 0);
        assert(s.last() == text::digit_char(n));
    } else {
        lemma_dec(n / 10);
        lemma_digit(n % 10);
        assert(s.drop_last() == text::dec(n / 10));
        assert forall|i: int| 0 <= i < s.len() implies text::is_digit(#[trigger] s[i]) by {
            if i < s.len() - 1 {
                assert(s[i] == text::dec(n / 10)[i]);
            }
        }
    }
}

/// The last digits of a number stand for its remainder.
pub proof fn lemma_padded(n: nat, w: nat)
    ensures
        text::all_digits(dec_padded(n, w)),
        dec_padded(n, w).len() == w,
        text::digits_value(dec_padded(n, w)) == n % pow10(w),
    decreases w,
{
    let s = dec_padded(n, w);
    if w > 0 {
        let p = pow10((w - 1) as nat);
        lemma_padded(n / 10, (w - 1) as nat);
        lemma_digit(n % 10);
        lemma_pow10_pos((w - 1) as nat);
        lemma_mod_breakdown(n as int, 10, p as int);
        assert(s.drop_last() == dec_padded(n / 10, (w - 1) as nat));
        assert forall|i: int| 0 <= i < s.len() implies text::is_digit(#[trigger] s[i]) by {
            if i < s.len() - 1 {
                assert(s[i] == s.drop_last()[i]);
            }
        }
    }
}

/// The digits of two numbers, one behind the other.
pub proof fn lemma_concat(a: Seq<char>, b: Seq<char>)
    ensures
        text::digits_value(a + b) == text::digits_value(a) * pow10(b.len())
            + text::digits_value(b),
    decreases b.len(),
{
    if b.len() == 0 {
        assert(a + b == a);
        assert(text::digits_value(a) * 1 == text::digits_value(a));
    } else {
        let c = b.drop_last();
        let p = pow10(c.len());
        lemma_concat(a, c);
        assert((a + b).drop_last() == a + c);
        assert((a + b).last() == b.last());
        let v = text::digits_value(a);
        assert((v * p) * 10 == v * (10 * p)) by (nonlinear_arith);
    }
}

} // verus!
