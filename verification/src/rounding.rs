//! Rounding a quotient to a binary floating-point significand.
//!
//! A non-negative value is written `n / d` units of `2^q`. A format keeps significands below `top`
//! in units no smaller than `2^qmin`: the unit is made as small as that allows, and the quotient
//! is then rounded to the nearest whole number of units, a tie going to the even one.

use vstd::prelude::*;
use vstd::arithmetic::power2::{lemma2_to64, lemma_pow2_pos, lemma_pow2_unfold, pow2};

verus! {

/// More than any whole number that a result can hold.
pub const HUGE: u128 = 0x1_0000_0000_0000_0000;

/// The value `m * 2^q`, rounded towards zero.
pub open spec fn whole_part(m: int, q: int) -> int {
    if q >= 0 {
        m * pow2(q as nat)
    } else {
        m / (pow2((-q) as nat) as int)
    }
}

/// Whether `m * 2^q` is a whole number.
pub open spec fn is_whole(m: int, q: int) -> bool {
    q >= 0 || m % (pow2((-q) as nat) as int) == 0
}

/// `n / d` rounded to the nearest whole number, a tie going to the even one.
pub open spec fn half_even(n: int, d: int) -> int {
    let k = n / d;
    let r = n % d;
    if 2 * r < d || (2 * r == d && k % 2 == 0) {
        k
    } else {
        k + 1
    }
}

/// The significand and the unit's exponent of `n / d * 2^q`, rounded.
///
/// While the quotient has too many digits, or the unit is below the smallest, the unit doubles;
/// while there is room for another digit, it halves; then the quotient is rounded.
pub open spec fn rounded(n: int, d: int, q: int, top: int, qmin: int) -> (int, int)
    decreases
            (if q < qmin { qmin - q } else { 0 }) + (if n >= top * d { n - top * d + 1 } else { 0 }),
            (if q > qmin { q - qmin } else { 0 }),
    when n >= 0 && d > 0 && top > 0
    via rounded_terminates
{
    if n >= top * d || q < qmin {
        rounded(n, 2 * d, q + 1, top, qmin)
    } else if 2 * n < top * d && q > qmin {
        rounded(2 * n, d, q - 1, top, qmin)
    } else {
        (half_even(n, d), q)
    }
}

#[via_fn]
proof fn rounded_terminates(n: int, d: int, q: int, top: int, qmin: int) {
    lemma_product(top, d);
}

proof fn lemma_product(top: int, d: int)
    ensures
        top * (2 * d) == 2 * (top * d),
        top > 0 && d > 0 ==> top * d >= d && top * d >= top,
{
    assert(top * (2 * d) == 2 * (top * d)) by (nonlinear_arith);
    if top > 0 && d > 0 {
        assert(top * d >= d && top * d >= top) by (nonlinear_arith)
            requires
                top > 0,
                d > 0,
        ;
    }
}

/// Doubling the unit `j` times, as long as the quotient stays too long, changes nothing.
pub proof fn lemma_rounded_up(n: int, d: int, q: int, top: int, qmin: int, j: nat)
    requires
        n >= 0,
        d > 0,
        top > 0,
        j > 0 ==> n >= top * (d * pow2((j - 1) as nat)),
    ensures
        rounded(n, d, q, top, qmin) == rounded(n, d * pow2(j), q + j, top, qmin),
    decreases j,
{
    if j == 0 {
        vstd::arithmetic::power2::lemma2_to64();
    } else {
        let h = (j - 1) as nat;
        lemma_pow2_unfold(j);
        vstd::arithmetic::power2::lemma_pow2_pos(h);
        if h > 0 {
            lemma_pow2_unfold(h);
            vstd::arithmetic::power2::lemma_pow2_pos((h - 1) as nat);
            assert(top * (d * pow2(h)) >= top * (d * pow2((h - 1) as nat))) by (nonlinear_arith)
                requires
                    pow2(h) == 2 * pow2((h - 1) as nat),
                    top > 0,
                    d > 0,
                    pow2((h - 1) as nat) > 0,
            ;
        }
        lemma_rounded_up(n, d, q, top, qmin, h);
        assert(d * pow2(h) > 0) by (nonlinear_arith)
            requires
                d > 0,
                pow2(h) > 0,
        ;
        assert(2 * (d * pow2(h)) == d * pow2(j)) by (nonlinear_arith)
            requires
                pow2(j) == 2 * pow2(h),
        ;
    }
}

/// A value under half of a unit that is still below the smallest one rounds to nothing.
pub proof fn lemma_rounded_zero(n: int, d: int, q: int, top: int, qmin: int)
    requires
        0 <= n,
        2 * n < d,
        top > 0,
        q <= qmin,
    ensures
        rounded(n, d, q, top, qmin) == (0int, qmin),
    decreases qmin - q,
{
    assert(top * d >= d) by (nonlinear_arith)
        requires
            top > 0,
            d > 0,
    ;
    if q < qmin {
        lemma_rounded_zero(n, 2 * d, q + 1, top, qmin);
    } else {
        vstd::arithmetic::div_mod::lemma_basic_div(n, d);
        vstd::arithmetic::div_mod::lemma_small_mod(n as nat, d as nat);
    }
}

/// The quotient is rounded to at most `top`, and never to less than half of that unless the unit
/// is the smallest one.
pub proof fn lemma_rounded_range(n: int, d: int, q: int, top: int, qmin: int)
    requires
        n >= 0,
        d > 0,
        top > 0,
        top % 2 == 0,
    ensures
        0 <= rounded(n, d, q, top, qmin).0 <= top,
        rounded(n, d, q, top, qmin).1 >= qmin,
        rounded(n, d, q, top, qmin).1 == qmin || 2 * rounded(n, d, q, top, qmin).0 >= top,
    decreases
            (if q < qmin { qmin - q } else { 0 }) + (if n >= top * d { n - top * d + 1 } else { 0 }),
            (if q > qmin { q - qmin } else { 0 }),
{
    lemma_product(top, d);
    if n >= top * d || q < qmin {
        lemma_rounded_range(n, 2 * d, q + 1, top, qmin);
    } else if 2 * n < top * d && q > qmin {
        lemma_rounded_range(2 * n, d, q - 1, top, qmin);
    } else {
        let k = n / d;
        let half = top / 2;
        vstd::arithmetic::div_mod::lemma_fundamental_div_mod(n, d);
        vstd::arithmetic::div_mod::lemma_mod_bound(n, d);
        assert(0 <= k < top) by (nonlinear_arith)
            requires
                n == d * k + n % d,
                0 <= n % d < d,
                0 <= n < top * d,
                d > 0,
        ;
        if 2 * n >= top * d {
            assert(k >= half) by (nonlinear_arith)
                requires
                    n == d * k + n % d,
                    0 <= n % d < d,
                    2 * n >= top * d,
                    top == 2 * half,
                    d > 0,
            ;
        }
    }
}

/// `n / d * 2^q` rounded: its significand and its unit's exponent.
pub fn round_quotient(n: u128, d: u128, q: i32, top: u128, qmin: i32) -> (r: (u128, i32))
    requires
        d > 0,
        top > 0,
        top % 2 == 0,
        n * top < 0x100_0000_0000_0000_0000_0000_0000_0000,
        top * d < 0x100_0000_0000_0000_0000_0000_0000_0000,
        -2000 <= q <= 2000,
        -2000 <= qmin <= 2000,
    ensures
        (r.0 as int, r.1 as int) == rounded(n as int, d as int, q as int, top as int, qmin as int),
        r.0 <= top,
        r.1 >= qmin,
        r.1 == qmin || 2 * r.0 >= top,
        r.1 <= 3000,
{
    proof {
        lemma_rounded_range(n as int, d as int, q as int, top as int, qmin as int);
    }
    let mut num: u128 = n;
    let mut den: u128 = d;
    let mut exp: i32 = q;
    proof {
        vstd::arithmetic::power2::lemma2_to64();
        lemma_product(top as int, den as int);
        if num > 0 {
            lemma_product(top as int, num as int);
            assert(num * top == top * num) by (nonlinear_arith);
        }
    }
    while num >= top * den || exp < qmin
        invariant
            n == num,
            num * top < 0x100_0000_0000_0000_0000_0000_0000_0000,
            0 < den,
            0 < top,
            den <= top * den < 0x400_0000_0000_0000_0000_0000_0000_0000,
            num < 0x100_0000_0000_0000_0000_0000_0000_0000,
            q <= exp,
            pow2((exp - q) as nat) <= den,
            exp <= q + 130,
            -2000 <= q <= 2000,
            -2000 <= qmin <= 2000,
            rounded(n as int, d as int, q as int, top as int, qmin as int) == rounded(
                num as int,
                den as int,
                exp as int,
                top as int,
                qmin as int,
            ),
        decreases
                (if exp < qmin { qmin - exp } else { 0 }) + (if num >= top * den { num - top * den + 1 } else {
                    0
                }),
    {
        proof {
            lemma_product(top as int, den as int);
        }
        if exp < qmin && den > 2 * num {
            proof {
                lemma_rounded_zero(num as int, den as int, exp as int, top as int, qmin as int);
            }
            return (0, qmin);
        }
        proof {
            if num < top * den {
                assert(top * den <= 2 * (num * top)) by (nonlinear_arith)
                    requires
                        den <= 2 * num,
                        top > 0,
                ;
            }
            lemma_pow2_unfold((exp + 1 - q) as nat);
            lemma_small_power((exp - q) as nat, den as int);
            lemma_product(top as int, 2 * den);
        }
        den = 2 * den;
        exp = exp + 1;
    }
    while 2 * num < top * den && exp > qmin
        invariant
            num < top * den,
            exp >= qmin,
            exp <= 3000,
            0 < den,
            0 < top,
            top * den < 0x400_0000_0000_0000_0000_0000_0000_0000,
            rounded(n as int, d as int, q as int, top as int, qmin as int) == rounded(
                num as int,
                den as int,
                exp as int,
                top as int,
                qmin as int,
            ),
        decreases exp - qmin,
    {
        num = 2 * num;
        exp = exp - 1;
    }
    let k: u128 = num / den;
    let r: u128 = num % den;
    proof {
        vstd::arithmetic::div_mod::lemma_mod_bound(num as int, den as int);
        lemma_product(top as int, den as int);
    }
    if 2 * r < den || (2 * r == den && k % 2 == 0) {
        (k, exp)
    } else {
        (k + 1, exp)
    }
}

proof fn lemma_small_power(j: nat, d: int)
    requires
        pow2(j) <= d,
        d < 0x400_0000_0000_0000_0000_0000_0000_0000,
    ensures
        j < 122,
{
    vstd::arithmetic::power2::lemma2_to64();
    vstd::arithmetic::power2::lemma_pow2_adds(61, 61);
    vstd::arithmetic::power2::lemma2_to64_rest();
    if j > 122 {
        vstd::arithmetic::power2::lemma_pow2_strictly_increases(122, j);
    }
}

/// Halving the unit `j` times, as long as there is room for another digit, changes nothing.
pub proof fn lemma_rounded_down(n: int, d: int, q: int, top: int, qmin: int, j: nat)
    requires
        n >= 0,
        d > 0,
        top > 0,
        n * pow2(j) < top * d,
        q - j >= qmin,
    ensures
        rounded(n, d, q, top, qmin) == rounded(n * pow2(j), d, q - j, top, qmin),
    decreases j,
{
    lemma2_to64();
    if j == 0 {
        assert(n * pow2(0) == n) by (nonlinear_arith)
            requires
                pow2(0) == 1,
        ;
    } else {
        let h = (j - 1) as nat;
        lemma_pow2_unfold(j);
        lemma_pow2_pos(h);
        assert(n * pow2(j) == 2 * (n * pow2(h)) && n * pow2(h) >= 0) by (nonlinear_arith)
            requires
                pow2(j) == 2 * pow2(h),
                n >= 0,
                pow2(h) > 0,
        ;
        lemma_rounded_down(n, d, q, top, qmin, h);
    }
}

/// Where the quotient is not too long to begin with, the unit only shrinks.
pub proof fn lemma_rounded_falls(n: int, d: int, q: int, top: int, qmin: int)
    requires
        0 <= n < top * d,
        d > 0,
        top > 0,
        q >= qmin,
    ensures
        rounded(n, d, q, top, qmin).1 <= q,
    decreases q - qmin,
{
    if 2 * n < top * d && q > qmin {
        lemma_rounded_falls(2 * n, d, q - 1, top, qmin);
    }
}

/// The whole part of `m * 2^q` and whether that is all of it. A part too large for any result
/// is only known to be that large.
pub fn split_whole(m: u128, q: i32) -> (r: (u128, bool))
    requires
        m < HUGE,
        -2000 <= q <= 3000,
    ensures
        r.0 == whole_part(m as int, q as int) || (r.0 >= HUGE && whole_part(m as int, q as int)
            >= HUGE),
        r.1 == is_whole(m as int, q as int),
{
    proof {
        lemma2_to64();
        let p = pow2(0) as int;
        assert(m * p == m && m as int / p == m && m as int % p == 0) by (nonlinear_arith)
            requires
                p == 1,
        ;
    }
    let mut w: u128 = m;
    let mut exact = true;
    if q >= 0 {
        let mut i: i32 = 0;
        while i < q && w < HUGE
            invariant
                0 <= i <= q,
                w == m * pow2(i as nat),
                w < 2 * HUGE,
            decreases q - i,
        {
            proof {
                lemma_pow2_unfold((i + 1) as nat);
                assert(m * pow2((i + 1) as nat) == 2 * (m * pow2(i as nat))) by (nonlinear_arith)
                    requires
                        pow2((i + 1) as nat) == 2 * pow2(i as nat),
                ;
            }
            w = 2 * w;
            i = i + 1;
        }
        proof {
            if i < q {
                vstd::arithmetic::power2::lemma_pow2_strictly_increases(i as nat, q as nat);
                assert(m * pow2(q as nat) >= m * pow2(i as nat)) by (nonlinear_arith)
                    requires
                        pow2(q as nat) >= pow2(i as nat),
                        m >= 0,
                ;
            }
        }
    } else {
        let mut i: i32 = 0;
        while i < -q
            invariant
                0 <= i <= -q,
                -2000 <= q,
                w == m as int / (pow2(i as nat) as int),
                exact == (m as int % (pow2(i as nat) as int) == 0),
            decreases -q - i,
        {
            proof {
                let p = pow2(i as nat) as int;
                lemma_pow2_pos(i as nat);
                lemma_pow2_unfold((i + 1) as nat);
                vstd::arithmetic::div_mod::lemma_div_denominator(m as int, p, 2);
                vstd::arithmetic::div_mod::lemma_mod_breakdown(m as int, p, 2);
                vstd::arithmetic::div_mod::lemma_mod_bound(m as int, p);
                assert(pow2((i + 1) as nat) == p * 2);
                let b = (m as int / p) % 2;
                assert(p * b >= 0 && (p * b == 0 <==> b == 0)) by (nonlinear_arith)
                    requires
                        p > 0,
                        b >= 0,
                ;
            }
            exact = exact && w % 2 == 0;
            w = w / 2;
            i = i + 1;
        }
    }
    (w, exact)
}


/// Doubling both sides of a quotient changes nothing.
proof fn lemma_rounded_ratio(n: int, d: int, q: int, top: int, qmin: int)
    requires
        n >= 0,
        d > 0,
        top > 0,
    ensures
        rounded(2 * n, 2 * d, q, top, qmin) == rounded(n, d, q, top, qmin),
    decreases
            (if q < qmin { qmin - q } else { 0 }) + (if n >= top * d { n - top * d + 1 } else { 0 }),
            (if q > qmin { q - qmin } else { 0 }),
{
    lemma_product(top, d);
    lemma_product(top, 2 * d);
    if n >= top * d || q < qmin {
        lemma_rounded_ratio(n, 2 * d, q + 1, top, qmin);
    } else if 2 * n < top * d && q > qmin {
        lemma_rounded_ratio(2 * n, d, q - 1, top, qmin);
    } else {
        vstd::arithmetic::div_mod::lemma_truncate_middle(n, d, 2);
        vstd::arithmetic::div_mod::lemma_fundamental_div_mod(n, d);
        let (k, r) = (n / d, n % d);
        assert(2 * n == k * (2 * d) + 2 * r) by (nonlinear_arith)
            requires
                n == d * k + r,
        ;
        vstd::arithmetic::div_mod::lemma_fundamental_div_mod_converse(2 * n, 2 * d, k, 2 * r);
    }
}

/// Doubling both sides of a quotient `j` times changes nothing.
pub proof fn lemma_rounded_ratios(n: int, d: int, q: int, top: int, qmin: int, j: nat)
    requires
        n >= 0,
        d > 0,
        top > 0,
    ensures
        rounded(n * pow2(j), d * pow2(j), q, top, qmin) == rounded(n, d, q, top, qmin),
    decreases j,
{
    lemma2_to64();
    if j == 0 {
        assert(n * pow2(0) == n && d * pow2(0) == d) by (nonlinear_arith)
            requires
                pow2(0) == 1,
        ;
    } else {
        let h = (j - 1) as nat;
        lemma_pow2_unfold(j);
        assert(n * pow2(j) == (2 * n) * pow2(h) && d * pow2(j) == (2 * d) * pow2(h))
            by (nonlinear_arith)
            requires
                pow2(j) == 2 * pow2(h),
        ;
        lemma_rounded_ratios(2 * n, 2 * d, q, top, qmin, h);
        lemma_rounded_ratio(n, d, q, top, qmin);
    }
}

/// Rounding to a whole number passes no whole number.
proof fn lemma_half_even_between(n: int, d: int, low: int, high: int)
    requires
        d > 0,
        low * d <= n <= high * d,
    ensures
        low <= half_even(n, d) <= high,
{
    vstd::arithmetic::div_mod::lemma_fundamental_div_mod(n, d);
    let (k, r) = (n / d, n % d);
    assert(low <= k) by (nonlinear_arith)
        requires
            low * d <= n,
            n == d * k + r,
            0 <= r < d,
    ;
    assert(k <= high && (r > 0 ==> k < high)) by (nonlinear_arith)
        requires
            n <= high * d,
            n == d * k + r,
            0 <= r < d,
    ;
}

/// A number of so many digits, rounded to a single's significand, stays between the bounds that every
/// unit it can get divides.
pub proof fn lemma_rounded_between(
    n: int,
    t: nat,
    j: nat,
    q: int,
    qmin: int,
    low: int,
    high: int,
)
    requires
        t <= j,
        q + t >= qmin,
        0x80_0000 * pow2(t) <= n < 0x100_0000 * pow2(j),
        low * pow2(j) <= n <= high * pow2(j),
    ensures
        ({
            let (k, e) = rounded(n, pow2(t) as int, q + t, 0x100_0000, qmin);
            &&& q + t <= e <= q + j
            &&& 0x80_0000 <= k <= 0x100_0000
            &&& low * pow2(j) <= k * pow2((e - q) as nat) <= high * pow2(j)
        }),
    decreases j - t,
{
    lemma_pow2_pos(t);
    let d = pow2(t) as int;
    if n >= 0x100_0000 * d {
        lemma_pow2_unfold(t + 1);
        lemma_rounded_between(n, t + 1, j, q, qmin, low, high);
    } else {
        let h = (j - t) as nat;
        vstd::arithmetic::power2::lemma_pow2_adds(t, h);
        let (c, all) = (pow2(h) as int, pow2(j) as int);
        assert((low * c) * d == low * all && (high * c) * d == high * all) by (nonlinear_arith)
            requires
                d * c == all,
        ;
        lemma_half_even_between(n, d, low * c, high * c);
        lemma_half_even_between(n, d, 0x80_0000, 0x100_0000);
        let k = half_even(n, d);
        assert((low * c) * d <= k * d <= (high * c) * d) by (nonlinear_arith)
            requires
                low * c <= k <= high * c,
                d > 0,
        ;
    }
}

/// A finer unit with as many more of it changes nothing.
pub proof fn lemma_rounded_shift(n: int, d: int, q: int, top: int, qmin: int, j: nat)
    requires
        n >= 0,
        d > 0,
        top > 0,
        q - j >= qmin,
    ensures
        rounded(n * pow2(j), d, q - j, top, qmin) == rounded(n, d, q, top, qmin),
    decreases j,
{
    lemma2_to64();
    if j == 0 {
        assert(n * pow2(0) == n) by (nonlinear_arith)
            requires
                pow2(0) == 1,
        ;
    } else {
        lemma_pow2_unfold(j);
        lemma_product(top, d);
        assert(n * pow2(j) == (2 * n) * pow2((j - 1) as nat)) by (nonlinear_arith)
            requires
                pow2(j) == 2 * pow2((j - 1) as nat),
        ;
        lemma_rounded_shift(2 * n, d, q - 1, top, qmin, (j - 1) as nat);
        if 2 * n >= top * d {
            lemma_rounded_ratio(n, d, q, top, qmin);
        }
    }
}

/// A whole number that fits the significand is kept as it is.
pub proof fn lemma_rounded_exact(n: int, q: int, top: int, qmin: int)
    requires
        0 <= n < top,
        q >= qmin,
    ensures
        ({
            let (k, e) = rounded(n, 1, q, top, qmin);
            qmin <= e <= q && k == n * pow2((q - e) as nat) && k < top
        }),
    decreases q - qmin,
{
    lemma2_to64();
    if 2 * n < top * 1 && q > qmin {
        lemma_rounded_exact(2 * n, q - 1, top, qmin);
        let (k, e) = rounded(2 * n, 1, q - 1, top, qmin);
        lemma_pow2_unfold((q - e) as nat);
        assert((2 * n) * pow2((q - 1 - e) as nat) == n * pow2((q - e) as nat)) by (nonlinear_arith)
            requires
                pow2((q - e) as nat) == 2 * pow2((q - e - 1) as nat),
        ;
    } else {
        assert(n * pow2(0) == n) by (nonlinear_arith)
            requires
                pow2(0) == 1,
        ;
    }
}

/// The unit rises where the quotient is too long, and no further than its length asks for.
pub proof fn lemma_rounded_rises(n: int, d: int, q: int, top: int, qmin: int, j: nat)
    requires
        d > 0,
        top > 0,
        n >= top * d,
        n < top * (d * pow2(j)),
        q >= qmin,
    ensures
        q < rounded(n, d, q, top, qmin).1 <= q + j,
    decreases j,
{
    lemma2_to64();
    lemma_product(top, d);
    if j == 0 {
        assert(d * pow2(0) == d) by (nonlinear_arith)
            requires
                pow2(0) == 1,
        ;
    } else {
        lemma_pow2_unfold(j);
        assert(d * pow2(j) == (2 * d) * pow2((j - 1) as nat)) by (nonlinear_arith)
            requires
                pow2(j) == 2 * pow2((j - 1) as nat),
        ;
        assert(rounded(n, d, q, top, qmin) == rounded(n, 2 * d, q + 1, top, qmin));
        if n >= top * (2 * d) {
            lemma_rounded_rises(n, 2 * d, q + 1, top, qmin, (j - 1) as nat);
        }
    }
}

/// The unit falls no further than the quotient's length asks for.
pub proof fn lemma_rounded_floor(n: int, d: int, q: int, top: int, qmin: int, j: nat)
    requires
        n >= 0,
        d > 0,
        top > 0,
        2 * n * pow2(j) >= top * d,
    ensures
        rounded(n, d, q, top, qmin).1 >= q - j,
    decreases
            (if q < qmin { qmin - q } else { 0 }) + (if n >= top * d { n - top * d + 1 } else { 0 }),
            (if q > qmin { q - qmin } else { 0 }),
{
    lemma2_to64();
    lemma_product(top, d);
    lemma_pow2_pos(j);
    if n >= top * d || q < qmin {
        let e = (j + 1) as nat;
        lemma_pow2_unfold(e);
        assert(2 * n * pow2(e) == 2 * (2 * n * pow2(j))) by (nonlinear_arith)
            requires
                pow2(e) == 2 * pow2(j),
        ;
        lemma_rounded_floor(n, 2 * d, q + 1, top, qmin, e);
    } else if 2 * n < top * d && q > qmin {
        if j == 0 {
            assert(2 * n * pow2(0) == 2 * n) by (nonlinear_arith)
                requires
                    pow2(0) == 1,
            ;
        } else {
            lemma_pow2_unfold(j);
            assert(2 * (2 * n) * pow2((j - 1) as nat) == 2 * n * pow2(j)) by (nonlinear_arith)
                requires
                    pow2(j) == 2 * pow2((j - 1) as nat),
            ;
            lemma_rounded_floor(2 * n, d, q - 1, top, qmin, (j - 1) as nat);
        }
    }
}

/// Nothing is rounded to nothing.
pub proof fn lemma_rounded_nothing(d: int, q: int, top: int, qmin: int)
    requires
        d > 0,
        top > 0,
    ensures
        rounded(0, d, q, top, qmin) == (0int, qmin),
    decreases if q < qmin { qmin - q } else { q - qmin },
{
    lemma_product(top, d);
    if q < qmin {
        lemma_rounded_nothing(2 * d, q + 1, top, qmin);
    } else if q > qmin {
        lemma_rounded_nothing(d, q - 1, top, qmin);
    }
}

/// A factor common to both sides of a quotient changes nothing.
pub proof fn lemma_rounded_common(n: int, d: int, q: int, top: int, qmin: int, c: int)
    requires
        n >= 0,
        d > 0,
        top > 0,
        c > 0,
    ensures
        rounded(n * c, d * c, q, top, qmin) == rounded(n, d, q, top, qmin),
    decreases
            (if q < qmin { qmin - q } else { 0 }) + (if n >= top * d { n - top * d + 1 } else { 0 }),
            (if q > qmin { q - qmin } else { 0 }),
{
    lemma_product(top, d);
    assert(n * c >= 0 && d * c > 0) by (nonlinear_arith)
        requires
            n >= 0,
            d > 0,
            c > 0,
    ;
    let t = top * d;
    assert(top * (d * c) == t * c) by (nonlinear_arith)
        requires
            t == top * d,
    ;
    assert((n * c >= t * c) == (n >= t)) by (nonlinear_arith)
        requires
            c > 0,
    ;
    assert((2 * (n * c) < t * c) == (2 * n < t)) by (nonlinear_arith)
        requires
            c > 0,
    ;
    assert(2 * (d * c) == (2 * d) * c && 2 * (n * c) == (2 * n) * c) by (nonlinear_arith);
    if n >= top * d || q < qmin {
        lemma_rounded_common(n, 2 * d, q + 1, top, qmin, c);
    } else if 2 * n < top * d && q > qmin {
        lemma_rounded_common(2 * n, d, q - 1, top, qmin, c);
    } else {
        vstd::arithmetic::div_mod::lemma_fundamental_div_mod(n, d);
        let (k, r) = (n / d, n % d);
        assert(n * c == k * (d * c) + r * c) by (nonlinear_arith)
            requires
                n == d * k + r,
        ;
        assert(0 <= r * c < d * c) by (nonlinear_arith)
            requires
                0 <= r < d,
                c > 0,
        ;
        vstd::arithmetic::div_mod::lemma_fundamental_div_mod_converse(n * c, d * c, k, r * c);
        assert((2 * (r * c) < d * c) == (2 * r < d) && (2 * (r * c) == d * c) == (2 * r == d))
            by (nonlinear_arith)
            requires
                c > 0,
        ;
    }
}

/// A quotient between two whole numbers is rounded to a number between them.
pub proof fn lemma_rounded_bounds(n: int, d: int, q: int, top: int, qmin: int, low: int, high: int)
    requires
        0 <= n < top * d,
        d > 0,
        top > 0,
        q >= qmin,
        low * d <= n <= high * d,
    ensures
        ({
            let (k, e) = rounded(n, d, q, top, qmin);
            &&& e <= q
            &&& low * pow2((q - e) as nat) <= k <= high * pow2((q - e) as nat)
        }),
    decreases q - qmin,
{
    lemma2_to64();
    if 2 * n < top * d && q > qmin {
        assert((2 * low) * d <= 2 * n <= (2 * high) * d) by (nonlinear_arith)
            requires
                low * d <= n <= high * d,
        ;
        lemma_rounded_bounds(2 * n, d, q - 1, top, qmin, 2 * low, 2 * high);
        let e = rounded(n, d, q, top, qmin).1;
        lemma_pow2_unfold((q - e) as nat);
        let (p, h) = (pow2((q - e) as nat) as int, pow2((q - 1 - e) as nat) as int);
        assert((2 * low) * h == low * p && (2 * high) * h == high * p) by (nonlinear_arith)
            requires
                p == 2 * h,
        ;
    } else {
        lemma_half_even_between(n, d, low, high);
        assert(low * pow2(0) == low && high * pow2(0) == high) by (nonlinear_arith)
            requires
                pow2(0) == 1,
        ;
    }
}

} // verus!
