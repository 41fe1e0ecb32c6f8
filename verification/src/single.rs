//! Single-precision arithmetic on the bits of a number.
//!
//! Weights and forces are computed in single precision, and where a result lands just below a
//! whole number the rounding decides it. So the arithmetic is done here bit for bit: a number is
//! its IEEE 754 encoding, and each operation rounds its exact result to the nearest number, a tie
//! going to the even one.

use crate::rounding::{
    half_even, is_whole, lemma_rounded_between, lemma_rounded_common, lemma_rounded_down,
    lemma_rounded_exact, lemma_rounded_floor, lemma_rounded_nothing, lemma_rounded_range,
    lemma_rounded_ratios, lemma_rounded_rises, lemma_rounded_shift, lemma_rounded_up,
    round_quotient, rounded, split_whole, whole_part, HUGE,
};
use vstd::arithmetic::power2::{lemma2_to64, lemma_pow2_pos, lemma_pow2_unfold, pow2};
use vstd::prelude::*;

verus! {

/// The first significand with one digit too many.
pub const TOP: u32 = 0x100_0000;

/// The exponent of the smallest unit.
pub const LEAST: i32 = -149;

/// The encoding of infinity; the sign is added to it.
pub const INFINITY: u32 = 0x7f80_0000;

/// The encoding of a result that is no number.
pub const NOT_A_NUMBER: u32 = 0x7fc0_0000;

/// The sign bit.
pub const SIGN: u32 = 0x8000_0000;

/// A single-precision number, as its encoding.
#[derive(Debug, Clone, Copy)]
pub struct Single {
    pub bits: u32,
}

/// The encoding of `k` units of `2^q`, with a sign. A significand of exactly [`TOP`] carries into
/// the exponent by itself, and what is too large becomes infinite.
pub open spec fn packed(neg: bool, k: int, q: int) -> Single {
    let raw = (q - LEAST) * 0x80_0000 + k;
    let clipped = if raw > INFINITY { INFINITY as int } else { raw };
    Single { bits: (if neg { clipped + SIGN } else { clipped }) as u32 }
}

/// The number nearest to `n / d * 2^q`, with a sign.
pub open spec fn nearest(neg: bool, n: int, d: int, q: int) -> Single {
    let (k, e) = rounded(n, d, q, TOP as int, LEAST as int);
    packed(neg, k, e)
}

/// `v` held between `low` and `high`.
pub open spec fn clip(v: int, low: int, high: int) -> int {
    if v < low {
        low
    } else if v > high {
        high
    } else {
        v
    }
}

impl Single {
    pub open spec fn neg(self) -> bool {
        self.bits >= SIGN
    }

    /// The exponent field.
    pub open spec fn field(self) -> int {
        (self.bits as int / 0x80_0000) % 256
    }

    /// The fraction field.
    pub open spec fn frac(self) -> int {
        self.bits as int % 0x80_0000
    }

    pub open spec fn is_nan(self) -> bool {
        self.field() == 255 && self.frac() != 0
    }

    pub open spec fn is_inf(self) -> bool {
        self.field() == 255 && self.frac() == 0
    }

    pub open spec fn is_zero(self) -> bool {
        self.field() == 0 && self.frac() == 0
    }

    /// The significand: a finite number is this many units of `2^unit`, with its sign.
    pub open spec fn mant(self) -> int {
        if self.field() == 0 {
            self.frac()
        } else {
            self.frac() + 0x80_0000
        }
    }

    /// The exponent of the unit that [`Single::mant`] counts.
    pub open spec fn unit(self) -> int {
        if self.field() == 0 {
            LEAST as int
        } else {
            self.field() - 150
        }
    }

    /// Infinity with a sign.
    pub open spec fn inf(neg: bool) -> Single {
        packed(neg, INFINITY as int, LEAST as int)
    }

    /// Zero with a sign.
    pub open spec fn zero(neg: bool) -> Single {
        packed(neg, 0, LEAST as int)
    }

    pub open spec fn nan() -> Single {
        Single { bits: NOT_A_NUMBER }
    }

    /// The number nearest to a whole number.
    pub open spec fn of_int(v: int) -> Single {
        nearest(v < 0, if v < 0 { -v } else { v }, 1, 0)
    }

    /// The number with the other sign.
    pub open spec fn opposite(self) -> Single {
        Single { bits: (if self.neg() { self.bits - SIGN } else { self.bits + SIGN }) as u32 }
    }

    /// The product.
    pub open spec fn times(self, o: Single) -> Single {
        let neg = self.neg() != o.neg();
        if self.is_nan() || o.is_nan() || (self.is_inf() && o.is_zero()) || (self.is_zero()
            && o.is_inf()) {
            Single::nan()
        } else if self.is_inf() || o.is_inf() {
            Single::inf(neg)
        } else {
            nearest(neg, self.mant() * o.mant(), 1, self.unit() + o.unit())
        }
    }

    /// The quotient.
    pub open spec fn over(self, o: Single) -> Single {
        let neg = self.neg() != o.neg();
        if self.is_nan() || o.is_nan() || (self.is_inf() && o.is_inf()) || (self.is_zero()
            && o.is_zero()) {
            Single::nan()
        } else if self.is_inf() || o.is_zero() {
            Single::inf(neg)
        } else if o.is_inf() {
            Single::zero(neg)
        } else {
            nearest(neg, self.mant(), o.mant(), self.unit() - o.unit())
        }
    }

    /// The significand with the number's sign, in units of `2^q`, for a `q` no larger than the
    /// number's own unit.
    pub open spec fn scaled(self, q: int) -> int {
        let m = self.mant() * pow2((self.unit() - q) as nat);
        if self.neg() {
            -m
        } else {
            m
        }
    }

    /// The sum.
    pub open spec fn plus(self, o: Single) -> Single {
        if self.is_nan() || o.is_nan() || (self.is_inf() && o.is_inf() && self.neg() != o.neg()) {
            Single::nan()
        } else if self.is_inf() {
            self
        } else if o.is_inf() {
            o
        } else {
            let q = if self.unit() < o.unit() { self.unit() } else { o.unit() };
            let sum = self.scaled(q) + o.scaled(q);
            if sum == 0 {
                Single::zero(self.neg() && o.neg())
            } else {
                nearest(sum < 0, if sum < 0 { -sum } else { sum }, 1, q)
            }
        }
    }

    /// The whole number towards zero, held between two bounds; nothing at all counts as zero.
    pub open spec fn truncated(self, low: int, high: int) -> int {
        self.clipped(whole_part(self.mant(), self.unit()), low, high)
    }

    /// The nearest whole number, a tie going away from zero, held between two bounds.
    pub open spec fn to_nearest(self, low: int, high: int) -> int {
        self.clipped((whole_part(2 * self.mant(), self.unit()) + 1) / 2, low, high)
    }

    /// The least whole number that is no less, held between two bounds.
    pub open spec fn ceiling(self, low: int, high: int) -> int {
        let w = whole_part(self.mant(), self.unit());
        self.clipped(
            if self.neg() || is_whole(self.mant(), self.unit()) { w } else { w + 1 },
            low,
            high,
        )
    }

    /// The greatest whole number that is no more, held between two bounds.
    pub open spec fn floored(self, low: int, high: int) -> int {
        let w = whole_part(self.mant(), self.unit());
        self.clipped(
            if !self.neg() || is_whole(self.mant(), self.unit()) { w } else { w + 1 },
            low,
            high,
        )
    }

    /// Where the number stands among all numbers, the two zeros together.
    pub open spec fn rank(self) -> int {
        if self.neg() {
            SIGN - self.bits
        } else {
            self.bits as int
        }
    }

    /// The lesser of two numbers; where one is none, the other.
    pub open spec fn lesser(self, o: Single) -> Single {
        if o.is_nan() || (!self.is_nan() && self.rank() <= o.rank()) {
            self
        } else {
            o
        }
    }

    /// A magnitude with this number's sign, held between two bounds; what is no number is zero.
    pub open spec fn clipped(self, magnitude: int, low: int, high: int) -> int {
        if self.is_nan() {
            0
        } else if self.is_inf() {
            if self.neg() { low } else { high }
        } else if self.neg() {
            clip(-magnitude, low, high)
        } else {
            clip(magnitude, low, high)
        }
    }

    /// Whether the number is below zero.
    pub open spec fn below_zero(self) -> bool {
        self.neg() && !self.is_nan() && !self.is_zero()
    }

    /// One.
    pub open spec fn unity() -> Single {
        Single { bits: 0x3f80_0000 }
    }

    /// One.
    pub fn one() -> (s: Single)
        ensures
            s == Single::unity(),
    {
        Single { bits: 0x3f80_0000 }
    }

    /// The number with this encoding.
    pub fn from_bits(bits: u32) -> (s: Single)
        ensures
            s.bits == bits,
    {
        Single { bits }
    }

    /// The number's encoding.
    pub fn to_bits(self) -> (bits: u32)
        ensures
            bits == self.bits,
    {
        self.bits
    }

    fn exponent_field(self) -> (f: u32)
        ensures
            f == self.field(),
    {
        (self.bits / 0x80_0000) % 256
    }

    fn fraction_field(self) -> (f: u32)
        ensures
            f == self.frac(),
    {
        self.bits % 0x80_0000
    }

    fn has_sign(self) -> (b: bool)
        ensures
            b == self.neg(),
    {
        self.bits >= SIGN
    }

    fn no_number(self) -> (b: bool)
        ensures
            b == self.is_nan(),
    {
        self.exponent_field() == 255 && self.fraction_field() != 0
    }

    fn infinite(self) -> (b: bool)
        ensures
            b == self.is_inf(),
    {
        self.exponent_field() == 255 && self.fraction_field() == 0
    }

    fn nothing(self) -> (b: bool)
        ensures
            b == self.is_zero(),
            b ==> self.mant() == 0,
            !b ==> self.mant() > 0,
    {
        self.exponent_field() == 0 && self.fraction_field() == 0
    }

    fn significand(self) -> (m: u32)
        ensures
            m == self.mant(),
            m < TOP,
            self.unit() > LEAST ==> m >= 0x80_0000,
    {
        if self.exponent_field() == 0 {
            self.fraction_field()
        } else {
            self.fraction_field() + 0x80_0000
        }
    }

    fn unit_exponent(self) -> (e: i32)
        ensures
            e == self.unit(),
            LEAST <= e <= 105,
    {
        let f: u32 = self.exponent_field();
        if f == 0 {
            LEAST
        } else {
            f as i32 - 150
        }
    }

    /// The encoding of `k` units of `2^q`.
    fn pack(neg: bool, k: u128, q: i32) -> (s: Single)
        requires
            k <= TOP,
            LEAST <= q <= 3000,
        ensures
            s == packed(neg, k as int, q as int),
    {
        let raw: i64 = (q as i64 - LEAST as i64) * 0x80_0000 + k as i64;
        let clipped: u32 = if raw > INFINITY as i64 {
            INFINITY
        } else {
            raw as u32
        };
        if neg {
            Single { bits: clipped + SIGN }
        } else {
            Single { bits: clipped }
        }
    }

    fn round(neg: bool, n: u128, d: u128, q: i32) -> (s: Single)
        requires
            n < 0x1_0000_0000_0000_0000_0000_0000,
            0 < d < 0x1_0000_0000_0000_0000_0000_0000,
            -1000 <= q <= 1000,
        ensures
            s == nearest(neg, n as int, d as int, q as int),
    {
        let (k, e) = round_quotient(n, d, q, TOP as u128, LEAST);
        Single::pack(neg, k, e)
    }

    /// The number nearest to a whole number.
    pub fn from_int(v: i64) -> (s: Single)
        ensures
            s == Single::of_int(v as int),
    {
        let magnitude: u128 = if v < 0 {
            (-(v as i128)) as u128
        } else {
            v as u128
        };
        Single::round(v < 0, magnitude, 1, 0)
    }

    /// The product.
    pub fn multiply(self, o: Single) -> (s: Single)
        ensures
            s == self.times(o),
    {
        let neg = self.has_sign() != o.has_sign();
        if self.no_number() || o.no_number() || (self.infinite() && o.nothing()) || (
        self.nothing() && o.infinite()) {
            Single { bits: NOT_A_NUMBER }
        } else if self.infinite() || o.infinite() {
            Single { bits: if neg { INFINITY + SIGN } else { INFINITY } }
        } else {
            let a: u128 = self.significand() as u128;
            let b: u128 = o.significand() as u128;
            assert(a * b < 0x1_0000_0000_0000) by (nonlinear_arith)
                requires
                    a < 0x100_0000,
                    b < 0x100_0000,
            ;
            Single::round(neg, a * b, 1, self.unit_exponent() + o.unit_exponent())
        }
    }

    /// The quotient.
    pub fn divide(self, o: Single) -> (s: Single)
        ensures
            s == self.over(o),
    {
        let neg = self.has_sign() != o.has_sign();
        if self.no_number() || o.no_number() || (self.infinite() && o.infinite()) || (
        self.nothing() && o.nothing()) {
            Single { bits: NOT_A_NUMBER }
        } else if self.infinite() || o.nothing() {
            Single { bits: if neg { INFINITY + SIGN } else { INFINITY } }
        } else if o.infinite() {
            Single { bits: if neg { SIGN } else { 0 } }
        } else {
            Single::round(
                neg,
                self.significand() as u128,
                o.significand() as u128,
                self.unit_exponent() - o.unit_exponent(),
            )
        }
    }

    /// The number with the other sign.
    pub fn negate(self) -> (s: Single)
        ensures
            s == self.opposite(),
    {
        if self.bits >= SIGN {
            Single { bits: self.bits - SIGN }
        } else {
            Single { bits: self.bits + SIGN }
        }
    }

    /// The number without its sign.
    pub fn magnitude(self) -> (s: Single)
        ensures
            s == if self.neg() { self.opposite() } else { self },
    {
        if self.has_sign() {
            self.negate()
        } else {
            self
        }
    }

    /// Whether the number is below zero.
    pub fn is_below_zero(self) -> (b: bool)
        ensures
            b == self.below_zero(),
    {
        self.has_sign() && !self.no_number() && !self.nothing()
    }

    /// A magnitude with this number's sign, held between two bounds.
    fn settle(self, magnitude: u128, low: i64, high: i64) -> (v: i64)
        requires
            low <= 0 <= high,
        ensures
            v == self.clipped(magnitude as int, low as int, high as int),
            magnitude >= HUGE ==> forall|m: int|
                m >= HUGE ==> v == #[trigger] self.clipped(m, low as int, high as int),
    {
        if self.no_number() {
            0
        } else if self.infinite() {
            if self.has_sign() {
                low
            } else {
                high
            }
        } else if self.has_sign() {
            if magnitude > -(low as i128) as u128 {
                low
            } else {
                (-(magnitude as i128)) as i64
            }
        } else if magnitude > high as u128 {
            high
        } else {
            magnitude as i64
        }
    }

    /// The whole number towards zero.
    pub fn to_i64(self) -> (v: i64)
        ensures
            v == self.truncated(i64::MIN as int, i64::MAX as int),
    {
        let (w, _) = split_whole(self.significand() as u128, self.unit_exponent());
        self.settle(w, i64::MIN, i64::MAX)
    }

    /// The nearest whole number, a tie going away from zero.
    pub fn round_to_i32(self) -> (v: i32)
        ensures
            v == self.to_nearest(i32::MIN as int, i32::MAX as int),
    {
        let (w, _) = split_whole(2 * self.significand() as u128, self.unit_exponent());
        let nearest: u128 = if w >= 2 * HUGE { w } else { (w + 1) / 2 };
        self.settle(nearest, i32::MIN as i64, i32::MAX as i64) as i32
    }

    /// The least whole number that is no less.
    pub fn ceil_to_i32(self) -> (v: i32)
        ensures
            v == self.ceiling(i32::MIN as int, i32::MAX as int),
    {
        let (w, exact) = split_whole(self.significand() as u128, self.unit_exponent());
        let up: u128 = if self.has_sign() || exact || w >= HUGE { w } else { w + 1 };
        self.settle(up, i32::MIN as i64, i32::MAX as i64) as i32
    }

    /// The greatest whole number that is no more.
    pub fn floor_to_i32(self) -> (v: i32)
        ensures
            v == self.floored(i32::MIN as int, i32::MAX as int),
    {
        let (w, exact) = split_whole(self.significand() as u128, self.unit_exponent());
        let down: u128 = if !self.has_sign() || exact || w >= HUGE { w } else { w + 1 };
        self.settle(down, i32::MIN as i64, i32::MAX as i64) as i32
    }

    /// The whole number towards zero.
    pub fn to_i32(self) -> (v: i32)
        ensures
            v == self.truncated(i32::MIN as int, i32::MAX as int),
    {
        let (w, _) = split_whole(self.significand() as u128, self.unit_exponent());
        self.settle(w, i32::MIN as i64, i32::MAX as i64) as i32
    }

    fn place(self) -> (r: i64)
        ensures
            r == self.rank(),
    {
        if self.has_sign() {
            SIGN as i64 - self.bits as i64
        } else {
            self.bits as i64
        }
    }

    /// The lesser of two numbers; where one is none, the other.
    pub fn min(self, o: Single) -> (s: Single)
        ensures
            s == self.lesser(o),
    {
        if o.no_number() || (!self.no_number() && self.place() <= o.place()) {
            self
        } else {
            o
        }
    }

    /// The number nearest to a count.
    pub fn from_count(n: usize) -> (s: Single)
        ensures
            s == Single::of_int(n as int),
    {
        Single::round(false, n as u128, 1, 0)
    }

    /// The sum.
    pub fn add(self, o: Single) -> (s: Single)
        ensures
            s == self.plus(o),
    {
        if self.no_number() || o.no_number() || (self.infinite() && o.infinite() && self.has_sign()
            != o.has_sign()) {
            Single { bits: NOT_A_NUMBER }
        } else if self.infinite() {
            self
        } else if o.infinite() {
            o
        } else if self.unit_exponent() < o.unit_exponent() {
            Single::add_finite(o, self)
        } else {
            Single::add_finite(self, o)
        }
    }

    /// The sum of two finite numbers, the one with the larger unit first.
    fn add_finite(hi: Single, lo: Single) -> (s: Single)
        requires
            hi.unit() >= lo.unit(),
            !hi.is_nan(),
            !lo.is_nan(),
            !hi.is_inf(),
            !lo.is_inf(),
        ensures
            s == hi.plus(lo),
    {
        let q: i32 = lo.unit_exponent();
        let gap: i32 = hi.unit_exponent() - q;
        let m: u32 = hi.significand();
        let n: u32 = lo.significand();
        proof {
            lemma2_to64();
            assert(n * pow2(0) == n) by (nonlinear_arith)
                requires
                    pow2(0) == 1,
            ;
        }
        if gap > 64 {
            proof {
                lemma_swallowed(hi, lo);
            }
            return hi;
        }
        let mut w: i128 = m as i128;
        let mut i: i32 = 0;
        assert(m * pow2(0) == m) by (nonlinear_arith)
            requires
                pow2(0) == 1,
        ;
        assert(pow2(64) == 0x1_0000_0000_0000_0000);
        while i < gap
            invariant
                0 <= i <= gap <= 64,
                m < TOP,
                pow2(64) == 0x1_0000_0000_0000_0000,
                w == m * pow2(i as nat),
            decreases gap - i,
        {
            proof {
                lemma_pow2_unfold((i + 1) as nat);
                assert(m * pow2((i + 1) as nat) == 2 * (m * pow2(i as nat))) by (nonlinear_arith)
                    requires
                        pow2((i + 1) as nat) == 2 * pow2(i as nat),
                ;
                vstd::arithmetic::power2::lemma_pow2_strictly_increases(i as nat, 64);
                assert(m * pow2(i as nat) < 0x100_0000 * 0x1_0000_0000_0000_0000)
                    by (nonlinear_arith)
                    requires
                        m < 0x100_0000,
                        0 <= pow2(i as nat) < 0x1_0000_0000_0000_0000,
                ;
            }
            w = 2 * w;
            i = i + 1;
        }
        proof {
            if gap < 64 {
                vstd::arithmetic::power2::lemma_pow2_strictly_increases(gap as nat, 64);
            }
            assert(m * pow2(gap as nat) < 0x100_0000 * 0x1_0000_0000_0000_0001)
                by (nonlinear_arith)
                requires
                    m < 0x100_0000,
                    0 <= pow2(gap as nat) <= 0x1_0000_0000_0000_0000,
            ;
        }
        let a: i128 = if hi.has_sign() { -w } else { w };
        let b: i128 = if lo.has_sign() { -(n as i128) } else { n as i128 };
        let sum: i128 = a + b;
        if sum == 0 {
            Single { bits: if hi.has_sign() && lo.has_sign() { SIGN } else { 0 } }
        } else {
            let magnitude: u128 = if sum < 0 { (-sum) as u128 } else { sum as u128 };
            Single::round(sum < 0, magnitude, 1, q)
        }
    }

    /// The difference.
    pub fn subtract(self, o: Single) -> (s: Single)
        ensures
            s == self.plus(o.opposite()),
    {
        self.add(o.negate())
    }
}

/// A finite number is its own sign, significand and unit.
pub proof fn lemma_packed(s: Single)
    requires
        !s.is_nan(),
        !s.is_inf(),
    ensures
        packed(s.neg(), s.mant(), s.unit()) == s,
{
}

/// What is more than sixty-four binary digits below a number leaves it as it is.
proof fn lemma_swallowed(hi: Single, lo: Single)
    requires
        !hi.is_nan(),
        !lo.is_nan(),
        !hi.is_inf(),
        !lo.is_inf(),
        hi.unit() - lo.unit() > 64,
    ensures
        hi.plus(lo) == hi,
{
    let g = (hi.unit() - lo.unit()) as nat;
    let p = pow2(g) as int;
    let h = pow2((g - 1) as nat) as int;
    let (m, n, q) = (hi.mant(), lo.mant(), lo.unit());
    let top = TOP as int;
    lemma2_to64();
    lemma_pow2_unfold(g);
    if g - 1 > 64 {
        vstd::arithmetic::power2::lemma_pow2_strictly_increases(64, (g - 1) as nat);
    }
    assert(h >= 0x1_0000_0000_0000_0000);
    assert(n * pow2(0) == n) by (nonlinear_arith)
        requires
            pow2(0) == 1,
    ;
    assert(0x80_0000 <= m < top);
    assert(0x80_0000 * p <= m * p <= (top - 1) * p) by (nonlinear_arith)
        requires
            0x80_0000 <= m <= top - 1,
            p > 0,
    ;
    let sum = hi.scaled(q) + lo.scaled(q);
    let size = if sum < 0 { -sum } else { sum };
    let same = hi.neg() == lo.neg();
    assert(size == if same { m * p + n } else { m * p - n });
    assert((sum < 0) == hi.neg());
    lemma_packed(hi);
    if size >= 0x80_0000 * p {
        assert(top * (1 * h) == 0x80_0000 * p) by (nonlinear_arith)
            requires
                top == 0x100_0000,
                p == 2 * h,
        ;
        lemma_rounded_up(size, 1, q, top, LEAST as int, g);
        assert(1 * p == p);
        assert(size < top * p) by (nonlinear_arith)
            requires
                size <= (top - 1) * p + n,
                n < p,
        ;
        assert(2 * size >= top * p) by (nonlinear_arith)
            requires
                size >= 0x80_0000 * p,
                top == 0x100_0000,
        ;
        if same {
            vstd::arithmetic::div_mod::lemma_fundamental_div_mod_converse(size, p, m, n);
        } else if n == 0 {
            vstd::arithmetic::div_mod::lemma_fundamental_div_mod_converse(size, p, m, 0);
        } else {
            assert(m * p - n == (m - 1) * p + (p - n)) by (nonlinear_arith);
            vstd::arithmetic::div_mod::lemma_fundamental_div_mod_converse(size, p, m - 1, p - n);
        }
        assert(rounded(size, 1, q, top, LEAST as int) == (m, hi.unit()));
    } else {
        assert(!same && n > 0);
        if m > 0x80_0000 {
            assert(m * p >= 0x80_0001 * p) by (nonlinear_arith)
                requires
                    m >= 0x80_0001,
                    p > 0,
            ;
            assert(0x80_0001 * p == 0x80_0000 * p + p) by (nonlinear_arith);
        }
        let k = pow2((g - 2) as nat) as int;
        lemma_pow2_unfold((g - 1) as nat);
        assert(size == top * h - n) by (nonlinear_arith)
            requires
                size == 0x80_0000 * p - n,
                p == 2 * h,
                top == 0x100_0000,
        ;
        assert(top * k >= top) by (nonlinear_arith)
            requires
                top > 0,
                k > 0,
        ;
        assert(top * (1 * k) + n <= top * h) by (nonlinear_arith)
            requires
                h == 2 * k,
                n < top,
                top * k >= top,
        ;
        lemma_rounded_up(size, 1, q, top, LEAST as int, (g - 1) as nat);
        assert(1 * h == h);
        assert(top * h - n == (top - 1) * h + (h - n)) by (nonlinear_arith);
        vstd::arithmetic::div_mod::lemma_fundamental_div_mod_converse(size, h, top - 1, h - n);
        assert(rounded(size, 1, q, top, LEAST as int) == (top, hi.unit() - 1));
    }
}

impl Single {
    /// The number is not below zero: it is positive, zero, or no number at all.
    pub open spec fn unsigned(self) -> bool {
        self.is_nan() || !self.neg()
    }
}

/// What is rounded without a sign has none.
pub proof fn lemma_nearest_unsigned(n: int, d: int, q: int)
    requires
        n >= 0,
        d > 0,
    ensures
        !nearest(false, n, d, q).neg(),
{
    lemma_rounded_range(n, d, q, TOP as int, LEAST as int);
}

/// Arithmetic on numbers that are not below zero stays there.
pub proof fn lemma_unsigned(a: Single, b: Single)
    requires
        a.unsigned(),
        b.unsigned(),
    ensures
        a.times(b).unsigned(),
        a.over(b).unsigned(),
        a.plus(b).unsigned(),
{
    assert(!Single::inf(false).neg() && !Single::zero(false).neg() && !Single::nan().neg());
    assert(Single::nan().is_nan());
    if !a.is_nan() && !b.is_nan() && !a.is_inf() && !b.is_inf() {
        let (m, n) = (a.mant(), b.mant());
        assert(m * n >= 0) by (nonlinear_arith)
            requires
                m >= 0,
                n >= 0,
        ;
        lemma_nearest_unsigned(m * n, 1, a.unit() + b.unit());
        if !b.is_zero() {
            lemma_nearest_unsigned(m, n, a.unit() - b.unit());
        }
        let q = if a.unit() < b.unit() { a.unit() } else { b.unit() };
        let (u, v) = (pow2((a.unit() - q) as nat) as int, pow2((b.unit() - q) as nat) as int);
        assert(m * u >= 0 && n * v >= 0) by (nonlinear_arith)
            requires
                m >= 0,
                n >= 0,
                u >= 0,
                v >= 0,
        ;
        lemma_nearest_unsigned(m * u + n * v, 1, q);
    }
}

/// A whole number that is not below zero gives a number that is not.
pub proof fn lemma_of_int_unsigned(v: int)
    requires
        v >= 0,
    ensures
        Single::of_int(v).unsigned(),
{
    lemma_nearest_unsigned(v, 1, 0);
}

/// A number that is not below zero truncates to a whole number that is not.
pub proof fn lemma_truncated_unsigned(s: Single, low: int, high: int)
    requires
        s.unsigned(),
        low <= 0 <= high,
    ensures
        s.truncated(low, high) >= 0,
{
    let (m, q) = (s.mant(), s.unit());
    if q >= 0 {
        assert(m * pow2(q as nat) >= 0) by (nonlinear_arith)
            requires
                m >= 0,
                pow2(q as nat) >= 0,
        ;
    } else {
        lemma_pow2_pos((-q) as nat);
        vstd::arithmetic::div_mod::lemma_div_pos_is_pos(m, pow2((-q) as nat) as int);
    }
}

/// A length in database units.
pub open spec fn is_length(d: int) -> bool {
    1 <= d < 0x2_0000_0000
}

/// The number nearest to a length: its significand is a long one, and its unit is near one.
proof fn lemma_of_length(d: int)
    requires
        is_length(d),
    ensures
        ({
            let f = Single::of_int(d);
            &&& !f.is_nan() && !f.is_inf() && !f.is_zero() && !f.neg()
            &&& 0x80_0000 <= f.mant() < TOP && -23 <= f.unit() <= 10
            &&& rounded(f.mant(), 1, f.unit(), TOP as int, LEAST as int) == (f.mant(), f.unit())
            &&& d < TOP ==> f.unit() <= 0 && f.mant() == d * pow2((-f.unit()) as nat)
            &&& d >= TOP ==> f.unit() > 0
        }),
{
    let (top, least) = (TOP as int, LEAST as int);
    lemma2_to64();
    lemma_rounded_range(d, 1, 0, top, least);
    lemma_rounded_floor(d, 1, 0, top, least, 23);
    let (k, e) = rounded(d, 1, 0, top, least);
    if d < top {
        lemma_rounded_exact(d, 0, top, least);
    } else {
        lemma_rounded_rises(d, 1, 0, top, least, 9);
    }
    let f = Single::of_int(d);
    assert(f == packed(false, k, e));
}

/// Twice a factor of one.
proof fn lemma_one_times(f: Single)
    requires
        !f.is_nan() && !f.is_inf() && !f.is_zero() && !f.neg(),
        -23 <= f.unit() <= 10,
        rounded(f.mant(), 1, f.unit(), TOP as int, LEAST as int) == (f.mant(), f.unit()),
    ensures
        Single::unity().times(f) == f,
{
    lemma2_to64();
    let u = Single::unity();
    assert(u.mant() == 0x80_0000 && u.unit() == -23 && !u.is_inf() && !u.is_nan());
    assert(u.mant() * f.mant() == f.mant() * pow2(23)) by (nonlinear_arith)
        requires
            u.mant() == pow2(23),
    ;
    lemma_rounded_shift(f.mant(), 1, f.unit(), TOP as int, LEAST as int, 23);
    lemma_packed(f);
}

/// A length of scale one costs the number nearest to it; a whole number gives that number back, and
/// divided by itself it gives one.
pub proof fn lemma_scale_one(d: int)
    requires
        is_length(d),
    ensures
        ({
            let f = Single::of_int(d);
            let cost = Single::unity().times(f).plus(Single::of_int(0));
            let w = cost.truncated(i64::MIN as int, i64::MAX as int);
            &&& cost == f
            &&& Single::of_int(w) == f
            &&& f.over(f) == Single::unity()
            &&& d < TOP ==> w == d
        }),
{
    let (top, least) = (TOP as int, LEAST as int);
    let f = Single::of_int(d);
    let zero = Single::of_int(0);
    lemma2_to64();
    lemma_of_length(d);
    lemma_one_times(f);
    lemma_rounded_down(0, 1, 0, top, least, 149);
    assert(0 * pow2(149) == 0) by (nonlinear_arith);
    assert(rounded(0, 1, least, top, least) == (0int, least));
    assert(zero.is_zero() && zero.unit() == least);
    lemma_swallowed(f, zero);
    let (m, u) = (f.mant(), f.unit());
    // The whole part is the number itself.
    let w = whole_part(m, u);
    if d < top {
        let p = pow2((-u) as nat) as int;
        lemma_pow2_pos((-u) as nat);
        if u < 0 {
            vstd::arithmetic::mul::lemma_mul_is_commutative(d, p);
            vstd::arithmetic::div_mod::lemma_div_multiples_vanish(d, p);
        } else {
            assert(m * pow2(0) == m) by (nonlinear_arith)
                requires
                    pow2(0) == 1,
            ;
            assert(d * pow2(0) == d) by (nonlinear_arith)
                requires
                    pow2(0) == 1,
            ;
        }
        assert(w == d);
    } else {
        lemma_rounded_shift(m, 1, u, top, least, u as nat);
        vstd::arithmetic::power2::lemma_pow2_strictly_increases(u as nat, 11);
        assert(0 < m * pow2(u as nat) <= 0x100_0000 * 0x800) by (nonlinear_arith)
            requires
                0 < m < 0x100_0000,
                0 < pow2(u as nat) <= 0x800,
        ;
        lemma_packed(f);
    }
    // A number divided by itself.
    assert(m * pow2(0) == m) by (nonlinear_arith)
        requires
            pow2(0) == 1,
    ;
    lemma_rounded_shift(m, m, 0, top, least, 23);
    assert(m * pow2(23) == m * 0x80_0000);
    assert(top * m == 2 * (m * 0x80_0000)) by (nonlinear_arith)
        requires
            top == 2 * 0x80_0000,
    ;
    vstd::arithmetic::div_mod::lemma_fundamental_div_mod_converse(m * 0x80_0000, m, 0x80_0000, 0);
    assert(rounded(m * 0x80_0000, m, -23, top, least) == (0x80_0000int, -23int));
}

/// Nothing times a distance is nothing.
pub proof fn lemma_zero_times(zero: Single, d: int)
    requires
        zero.is_zero(),
        d == 0 || is_length(d),
    ensures
        zero.times(Single::of_int(d)).truncated(i64::MIN as int, i64::MAX as int) == 0,
{
    let f = Single::of_int(d);
    if d == 0 {
        lemma_rounded_nothing(1, 0, TOP as int, LEAST as int);
    } else {
        lemma_of_length(d);
    }
    let neg = zero.neg() != f.neg();
    assert(zero.mant() * f.mant() == 0) by (nonlinear_arith)
        requires
            zero.mant() == 0,
    ;
    lemma_rounded_nothing(1, zero.unit() + f.unit(), TOP as int, LEAST as int);
    let p = packed(neg, 0, LEAST as int);
    assert(zero.times(f) == p);
    lemma_pow2_pos(149);
    assert(p.mant() == 0 && p.unit() == LEAST);
    assert(whole_part(0, LEAST as int) == 0) by {
        vstd::arithmetic::div_mod::lemma_basic_div(0, pow2(149) as int);
    }
}

/// How many of the unit that one is counted in a number is, for a number whose unit is no finer.
spec fn fine(s: Single) -> int {
    s.mant() * pow2((s.unit() + 23) as nat)
}

/// A significand in a unit near one, and what it encodes.
proof fn lemma_unpacked(k: int, e: int)
    requires
        0x80_0000 <= k <= 0x100_0000,
        -23 <= e <= 0,
    ensures
        ({
            let s = packed(false, k, e);
            &&& !s.is_nan() && !s.is_inf() && !s.is_zero() && !s.neg()
            &&& -23 <= s.unit() <= 1
            &&& fine(s) == k * pow2((e + 23) as nat)
            &&& k < 0x100_0000 ==> s.mant() == k && s.unit() == e
        }),
{
    let s = packed(false, k, e);
    if k == 0x100_0000 {
        lemma_pow2_unfold((e + 24) as nat);
        assert(0x80_0000 * pow2((e + 24) as nat) == k * pow2((e + 23) as nat)) by (nonlinear_arith)
            requires
                k == 0x100_0000,
                pow2((e + 24) as nat) == 2 * pow2((e + 23) as nat),
        ;
        assert(s.mant() == 0x80_0000 && s.unit() == e + 1);
    } else {
        assert(s.mant() == k && s.unit() == e);
    }
}

/// The whole part of a number whose unit is near one.
proof fn lemma_fine_whole(s: Single)
    requires
        !s.is_nan() && !s.is_inf() && !s.neg(),
        -23 <= s.unit() <= 1,
    ensures
        s.truncated(i64::MIN as int, i64::MAX as int) == fine(s) / 0x80_0000,
{
    lemma2_to64();
    let (m, u) = (s.mant(), s.unit());
    if u == 1 {
        lemma_pow2_unfold(24);
        assert(m * pow2(24) == (m * 2) * 0x80_0000) by (nonlinear_arith)
            requires
                pow2(24) == 2 * 0x80_0000,
        ;
        assert(m * pow2(u as nat) == m * 2) by (nonlinear_arith)
            requires
                pow2(u as nat) == 2,
        ;
    } else {
        lemma_fine_part(s);
    }
}

/// The same, where the unit is no more than one.
proof fn lemma_fine_part(s: Single)
    requires
        !s.is_nan() && !s.is_inf() && !s.neg(),
        -23 <= s.unit() <= 0,
    ensures
        s.truncated(i64::MIN as int, i64::MAX as int) == fine(s) / 0x80_0000,
{
    lemma2_to64();
    let (m, u) = (s.mant(), s.unit());
    let (a, b) = ((-u) as nat, (u + 23) as nat);
    lemma_pow2_pos(a);
    lemma_pow2_pos(b);
    vstd::arithmetic::power2::lemma_pow2_adds(a, b);
    let (p, r) = (pow2(a) as int, pow2(b) as int);
    vstd::arithmetic::div_mod::lemma_fundamental_div_mod(m, p);
    let (k, rest) = (m / p, m % p);
    assert(m * r == k * 0x80_0000 + rest * r) by (nonlinear_arith)
        requires
            m == p * k + rest,
            p * r == 0x80_0000,
    ;
    assert(0 <= rest * r < 0x80_0000) by (nonlinear_arith)
        requires
            0 <= rest < p,
            r > 0,
            p * r == 0x80_0000,
    ;
    vstd::arithmetic::div_mod::lemma_fundamental_div_mod_converse(m * r, 0x80_0000, k, rest * r);
    if u == 0 {
        assert(m / 1 == m);
        assert(m * pow2(0) == m) by (nonlinear_arith)
            requires
                pow2(0) == 1,
        ;
    }
    assert(0 <= k <= m) by (nonlinear_arith)
        requires
            m == p * k + rest,
            0 <= rest < p,
            m >= 0,
    ;
}

/// The quotient of two neighbouring lengths, the longer by the shorter: so many of the unit that one is
/// counted in, within half of one.
proof fn lemma_neighbours(d: int) -> (k: int)
    requires
        1 <= d < 0x80_0000,
    ensures
        0x80_0000 <= k <= 0x100_0000,
        Single::of_int(d + 1).over(Single::of_int(d)) == packed(false, k, -23),
        2 * (d + 1) * 0x80_0000 - d <= 2 * (k * d) <= 2 * (d + 1) * 0x80_0000 + d,
{
    let (top, least) = (TOP as int, LEAST as int);
    lemma2_to64();
    lemma_of_length(d);
    lemma_of_length(d + 1);
    let (f, w) = (Single::of_int(d), Single::of_int(d + 1));
    let (a, b) = ((-f.unit()) as nat, (-w.unit()) as nat);
    // Both significands are whole numbers of the same unit.
    lemma_rounded_shift(d + 1, f.mant(), a as int, top, least, b);
    lemma_rounded_shift(d + 1, f.mant(), a as int, top, least, a);
    lemma_rounded_ratios(d + 1, d, 0, top, least, a);
    lemma_rounded_shift(d + 1, d, 0, top, least, 23);
    let n = (d + 1) * 0x80_0000;
    assert(rounded(w.mant(), f.mant(), w.unit() - f.unit(), top, least) == rounded(
        n,
        d,
        -23,
        top,
        least,
    ));
    if d == 1 {
        assert(rounded(n, 1, -23, top, least) == rounded(n, 2, -22, top, least));
        assert(rounded(n, 2, -22, top, least) == (0x80_0000int, -22int));
        assert(packed(false, 0x80_0000, -22) == packed(false, 0x100_0000, -23));
        0x100_0000
    } else {
        let k = half_even(n, d);
        assert(rounded(n, d, -23, top, least) == (k, -23int));
        vstd::arithmetic::div_mod::lemma_fundamental_div_mod(n, d);
        let (whole, r) = (n / d, n % d);
        assert(d * (whole + 1) == d * whole + d) by (nonlinear_arith);
        vstd::arithmetic::mul::lemma_mul_is_commutative(k, d);
        assert(2 * n - d <= 2 * (k * d) <= 2 * n + d);
        assert(0x80_0000 <= k <= 0x100_0000) by (nonlinear_arith)
            requires
                2 * ((d + 1) * 0x80_0000) - d <= 2 * (k * d) <= 2 * ((d + 1) * 0x80_0000) + d,
                2 <= d < 0x80_0000,
        ;
        k
    }
}

/// A length taken times the quotient of the next length by it, and one more: the next length but one,
/// or just below it.
pub proof fn lemma_grows(d: int)
    requires
        1 <= d < 0x80_0000,
    ensures
        ({
            let f = Single::of_int(d);
            let scale = Single::of_int(d + 1).over(f);
            let w = scale.times(f).plus(Single::of_int(1)).truncated(
                i64::MIN as int,
                i64::MAX as int,
            );
            d + 1 <= w <= d + 2
        }),
{
    let (top, least) = (TOP as int, LEAST as int);
    lemma2_to64();
    lemma_of_length(d);
    let f = Single::of_int(d);
    let k = lemma_neighbours(d);
    let scale = packed(false, k, -23);
    lemma_unpacked(k, -23);
    assert(k * pow2(0) == k) by (nonlinear_arith)
        requires
            pow2(0) == 1,
    ;
    // The product, in the unit that one is counted in.
    let a = (-f.unit()) as nat;
    let j = (scale.unit() + 23) as nat;
    let n = k * d;
    let (m, u, c) = (scale.mant(), scale.unit(), pow2(a) as int);
    assert(m * f.mant() == (m * d) * c) by (nonlinear_arith)
        requires
            f.mant() == d * c,
    ;
    assert(m * d >= 0) by (nonlinear_arith)
        requires
            m >= 0,
            d >= 0,
    ;
    lemma_rounded_shift(m * d, 1, u, top, least, a);
    lemma_rounded_shift(m * d, 1, u, top, least, j);
    assert((m * d) * pow2(j) == n) by (nonlinear_arith)
        requires
            m * pow2(j) == k,
            n == k * d,
    ;
    assert(scale.times(f) == nearest(false, n, 1, -23));
    // Near the longest of these lengths, the quotient is the first number above one.
    let high = if d < 0x7f_fffe {
        2 * d + 3
    } else {
        assert(k == 0x80_0001) by (nonlinear_arith)
            requires
                d == 0x7f_fffe || d == 0x7f_ffff,
                2 * (d + 1) * 0x80_0000 - d <= 2 * (k * d) <= 2 * (d + 1) * 0x80_0000 + d,
        ;
        2 * d + 2
    };
    lemma_rounded_between(n, 0, 22, -23, least, 2 * d + 1, high);
    let (k1, e1) = rounded(n, 1, -23, top, least);
    lemma_unpacked(k1, e1);
    lemma_one_more(packed(false, k1, e1), d, high);
}

/// One more than a number just above a length.
proof fn lemma_one_more(p: Single, d: int, high: int)
    requires
        !p.is_nan() && !p.is_inf() && !p.is_zero() && !p.neg(),
        -23 <= p.unit(),
        1 <= d < 0x80_0000,
        high == if d < 0x7f_fffe {
            2 * d + 3
        } else {
            2 * d + 2
        },
        (2 * d + 1) * 0x40_0000 <= fine(p) <= high * 0x40_0000,
    ensures
        d + 1 <= p.plus(Single::of_int(1)).truncated(i64::MIN as int, i64::MAX as int) <= d + 2,
{
    let (top, least) = (TOP as int, LEAST as int);
    lemma2_to64();
    lemma_of_length(1);
    let one = Single::of_int(1);
    assert(one.unit() == -23 && one.mant() == 0x80_0000) by {
        if one.unit() > -23 {
            vstd::arithmetic::power2::lemma_pow2_strictly_increases((-one.unit()) as nat, 23);
        }
    }
    assert(one.mant() * pow2(0) == 0x80_0000) by (nonlinear_arith)
        requires
            pow2(0) == 1,
            one.mant() == 0x80_0000,
    ;
    let sum = fine(p) + 0x80_0000;
    assert(p.scaled(-23) == fine(p) && one.scaled(-23) == 0x80_0000);
    if sum < 0x100_0000 * 0x40_0000 {
        lemma_rounded_between(sum, 0, 22, -23, least, 2 * d + 3, high + 2);
    } else {
        lemma_rounded_between(sum, 0, 23, -23, least, 0x80_0000, d + 2);
    }
    let (k, e) = rounded(sum, 1, -23, top, least);
    lemma_unpacked(k, e);
    assert(p.plus(one) == packed(false, k, e));
    lemma_fine_whole(packed(false, k, e));
}

/// One more than a short length, added in single precision.
pub proof fn lemma_plus_one(d: int)
    requires
        1 <= d < TOP,
    ensures
        ({
            let sum = Single::unity().times(Single::of_int(d)).plus(Single::of_int(1));
            sum.truncated(i64::MIN as int, i64::MAX as int) == d + 1
        }),
{
    let (top, least) = (TOP as int, LEAST as int);
    let f = Single::of_int(d);
    let one = Single::of_int(1);
    lemma2_to64();
    lemma_of_length(d);
    lemma_of_length(d + 1);
    lemma_of_length(1);
    lemma_one_times(f);
    lemma_scale_one(d + 1);
    let u = one.unit();
    assert(u == -23 && one.mant() == 0x80_0000) by {
        if u > -23 {
            vstd::arithmetic::power2::lemma_pow2_strictly_increases((-u) as nat, 23);
        }
    }
    let j = (f.unit() + 23) as nat;
    vstd::arithmetic::power2::lemma_pow2_adds((-f.unit()) as nat, j);
    let (a, b) = (pow2((-f.unit()) as nat) as int, pow2(j) as int);
    assert(f.mant() * b == d * 0x80_0000) by (nonlinear_arith)
        requires
            f.mant() == d * a,
            a * b == 0x80_0000,
    ;
    assert(one.mant() * pow2(0) == 0x80_0000) by (nonlinear_arith)
        requires
            pow2(0) == 1,
            one.mant() == 0x80_0000,
    ;
    let sum = f.scaled(-23) + one.scaled(-23);
    assert(sum == (d + 1) * pow2(23));
    lemma_rounded_shift(d + 1, 1, 0, top, least, 23);
    assert(f.plus(one) == Single::of_int(d + 1));
    let g = Single::of_int(d + 1);
    lemma_rounded_down(0, 1, 0, top, least, 149);
    assert(Single::unity().times(g).plus(Single::of_int(0)) == g);
    if d + 1 == top {
        // The first length that is too long for the significand: its unit is two.
        assert(rounded(top, 1, 0, top, least) == rounded(top, 2, 1, top, least));
        assert(rounded(top, 2, 1, top, least) == (0x80_0000int, 1int));
        assert(g.unit() == 1 && g.mant() == 0x80_0000);
        let up: int = 1;
        assert(g.mant() * pow2(up as nat) == top) by (nonlinear_arith)
            requires
                g.mant() == 0x80_0000,
                pow2(up as nat) == 2,
                top == 0x100_0000,
        ;
    }
}

/// The number nearest to a machine integer is finite, and zero only for zero.
pub proof fn lemma_of_i32(v: int)
    requires
        i32::MIN <= v <= i32::MAX,
    ensures
        !Single::of_int(v).is_nan(),
        !Single::of_int(v).is_inf(),
        v != 0 ==> !Single::of_int(v).is_zero(),
{
    let (top, least) = (TOP as int, LEAST as int);
    let n = if v < 0 { -v } else { v };
    lemma2_to64();
    lemma_rounded_range(n, 1, 0, top, least);
    if n == 0 {
        lemma_rounded_nothing(1, 0, top, least);
    } else if n < top {
        lemma_rounded_exact(n, 0, top, least);
        lemma_rounded_floor(n, 1, 0, top, least, 23);
    } else {
        lemma_rounded_rises(n, 1, 0, top, least, 9);
    }
}

/// Nothing times a number, divided by another and added to a third, leaves that as it is.
pub proof fn lemma_nothing_added(zero: Single, a: Single, b: Single, c: Single)
    requires
        zero.is_zero(),
        !a.is_nan() && !a.is_inf(),
        !b.is_nan() && !b.is_inf() && !b.is_zero(),
        !c.is_nan() && !c.is_inf(),
        c.unit() >= -84,
    ensures
        c.plus(zero.times(a).over(b)) == c,
{
    let (top, least) = (TOP as int, LEAST as int);
    let product = zero.times(a);
    assert(zero.mant() * a.mant() == 0) by (nonlinear_arith)
        requires
            zero.mant() == 0,
    ;
    lemma_rounded_nothing(1, zero.unit() + a.unit(), top, least);
    assert(product.is_zero());
    lemma_rounded_nothing(b.mant(), product.unit() - b.unit(), top, least);
    let quotient = product.over(b);
    assert(quotient.is_zero() && quotient.unit() == least);
    lemma_swallowed(c, quotient);
}

/// A number above zero is rounded up to one at least.
pub proof fn lemma_ceiling_of_some(s: Single, low: int, high: int)
    requires
        !s.is_nan(),
        !s.is_zero(),
        !s.neg(),
        low <= 1 <= high,
    ensures
        s.ceiling(low, high) >= 1,
{
    let (m, q) = (s.mant(), s.unit());
    assert(m > 0 || s.is_inf());
    if !s.is_inf() {
        if q >= 0 {
            lemma_pow2_pos(q as nat);
            assert(m * pow2(q as nat) >= 1) by (nonlinear_arith)
                requires
                    m >= 1,
                    pow2(q as nat) >= 1,
            ;
        } else {
            let p = pow2((-q) as nat) as int;
            lemma_pow2_pos((-q) as nat);
            vstd::arithmetic::div_mod::lemma_fundamental_div_mod(m, p);
            vstd::arithmetic::div_mod::lemma_div_pos_is_pos(m, p);
            if m / p == 0 {
                assert(p * 0 == 0) by (nonlinear_arith);
                assert(m % p != 0);
            }
        }
    }
}

impl Single {
    /// The number is not above zero: it is negative, zero, or no number at all.
    pub open spec fn nonpositive(self) -> bool {
        self.is_nan() || self.is_zero() || self.neg()
    }
}

/// What is rounded with a sign has it.
proof fn lemma_nearest_signed(n: int, d: int, q: int)
    requires
        n >= 0,
        d > 0,
    ensures
        nearest(true, n, d, q).neg(),
{
    lemma_rounded_range(n, d, q, TOP as int, LEAST as int);
}

/// A whole number that is not above zero gives a number that is not.
pub proof fn lemma_of_int_nonpositive(v: int)
    requires
        v <= 0,
    ensures
        Single::of_int(v).nonpositive(),
{
    if v == 0 {
        lemma_rounded_nothing(1, 0, TOP as int, LEAST as int);
    } else {
        lemma_nearest_signed(-v, 1, 0);
    }
}

/// The opposite of a number that is not below zero is not above it.
pub proof fn lemma_opposite_nonpositive(a: Single)
    requires
        a.unsigned(),
    ensures
        a.opposite().nonpositive(),
{
    if a.is_nan() {
        assert(a.opposite().is_nan());
    }
}

/// A number that is not above zero, times one that is not below it, is not above zero; nor is the sum
/// of two that are not.
pub proof fn lemma_nonpositive(a: Single, b: Single)
    requires
        a.nonpositive(),
    ensures
        b.unsigned() ==> a.times(b).nonpositive(),
        b.nonpositive() ==> a.plus(b).nonpositive(),
{
    assert(Single::nan().is_nan() && Single::inf(true).neg());
    assert(Single::zero(false).is_zero() && Single::zero(true).is_zero());
    if !a.is_nan() && !b.is_nan() && !a.is_inf() && !b.is_inf() {
        let (m, n) = (a.mant(), b.mant());
        let u = a.unit() + b.unit();
        if a.is_zero() || b.is_zero() {
            assert(m * n == 0) by (nonlinear_arith)
                requires
                    m == 0 || n == 0,
            ;
            lemma_rounded_nothing(1, u, TOP as int, LEAST as int);
        } else {
            assert(m * n >= 0) by (nonlinear_arith)
                requires
                    m >= 0,
                    n >= 0,
            ;
            lemma_nearest_signed(m * n, 1, u);
        }
        let q = if a.unit() < b.unit() { a.unit() } else { b.unit() };
        let (x, y) = (pow2((a.unit() - q) as nat) as int, pow2((b.unit() - q) as nat) as int);
        assert(m * x >= 0 && n * y >= 0 && (m == 0 ==> m * x == 0) && (n == 0 ==> n * y == 0))
            by (nonlinear_arith)
            requires
                m >= 0,
                n >= 0,
                x >= 0,
                y >= 0,
        ;
        let sum = a.scaled(q) + b.scaled(q);
        if b.nonpositive() && sum != 0 {
            assert(sum < 0);
            lemma_nearest_signed(-sum, 1, q);
        }
    }
}

/// Nothing, or no number, times or over a number is nothing or no number.
pub proof fn lemma_nothing_scaled(a: Single, b: Single)
    requires
        a.is_zero() || a.is_nan(),
    ensures
        a.times(b).is_zero() || a.times(b).is_nan(),
        a.over(b).is_zero() || a.over(b).is_nan() || b.is_zero(),
{
    assert(Single::nan().is_nan());
    assert(Single::zero(false).is_zero() && Single::zero(true).is_zero());
    if a.is_zero() && !b.is_nan() && !b.is_inf() {
        assert(a.mant() * b.mant() == 0) by (nonlinear_arith)
            requires
                a.mant() == 0,
        ;
        lemma_rounded_nothing(1, a.unit() + b.unit(), TOP as int, LEAST as int);
        if !b.is_zero() {
            lemma_rounded_nothing(b.mant(), a.unit() - b.unit(), TOP as int, LEAST as int);
        }
    }
}

/// A number that is not below zero is rounded up to a whole number that is not; nothing, and what is
/// no number, to zero.
pub proof fn lemma_ceiling_unsigned(s: Single, low: int, high: int)
    requires
        low <= 0,
        1 <= high,
    ensures
        s.unsigned() ==> s.ceiling(low, high) >= 0,
        s.is_zero() || s.is_nan() ==> s.ceiling(low, high) == 0,
{
    if s.is_zero() {
        lemma_pow2_pos(149);
        assert(s.mant() == 0 && s.unit() == LEAST);
        vstd::arithmetic::div_mod::lemma_basic_div(0, pow2(149) as int);
        vstd::arithmetic::div_mod::lemma_small_mod(0, pow2(149));
    } else if s.unsigned() && !s.is_nan() {
        lemma_ceiling_of_some(s, low, high);
    }
}

/// A short whole number, of either sign, as a single: the same significand, the unit no larger than one,
/// and the sign its own.
proof fn lemma_of_short(v: int)
    requires
        -TOP < v < TOP,
        v != 0,
    ensures
        ({
            let f = Single::of_int(v);
            let n = if v < 0 {
                -v
            } else {
                v
            };
            &&& !f.is_nan() && !f.is_inf() && !f.is_zero()
            &&& f.neg() == (v < 0)
            &&& f.mant() == Single::of_int(n).mant() && f.unit() == Single::of_int(n).unit()
            &&& -23 <= f.unit() <= 0 && 0x80_0000 <= f.mant() < TOP
            &&& f.mant() == n * pow2((-f.unit()) as nat)
        }),
{
    let n = if v < 0 {
        -v
    } else {
        v
    };
    lemma_of_length(n);
    lemma_rounded_range(n, 1, 0, TOP as int, LEAST as int);
}

/// What a short whole number is rounded to, each way.
pub proof fn lemma_whole_stays(v: int)
    requires
        -TOP < v < TOP,
    ensures
        Single::of_int(v).to_nearest(i32::MIN as int, i32::MAX as int) == v,
        Single::of_int(v).floored(i32::MIN as int, i32::MAX as int) == v,
        Single::of_int(v).truncated(i32::MIN as int, i32::MAX as int) == v,
        Single::of_int(v).ceiling(i32::MIN as int, i32::MAX as int) == v,
{
    lemma2_to64();
    if v == 0 {
        lemma_rounded_nothing(1, 0, TOP as int, LEAST as int);
        lemma_pow2_pos(149);
        let p = pow2(149) as int;
        vstd::arithmetic::div_mod::lemma_basic_div(0, p);
        vstd::arithmetic::div_mod::lemma_small_mod(0, p as nat);
    } else {
        lemma_of_short(v);
        let f = Single::of_int(v);
        let n = if v < 0 {
            -v
        } else {
            v
        };
        let (m, u) = (f.mant(), f.unit());
        let p = pow2((-u) as nat) as int;
        lemma_pow2_pos((-u) as nat);
        if u < 0 {
            vstd::arithmetic::div_mod::lemma_fundamental_div_mod_converse(m, p, n, 0);
            assert(2 * m == (2 * n) * p + 0) by (nonlinear_arith)
                requires
                    m == n * p,
            ;
            vstd::arithmetic::div_mod::lemma_fundamental_div_mod_converse(2 * m, p, 2 * n, 0);
        } else {
            assert(m * pow2(0) == m && (2 * m) * pow2(0) == 2 * m && n * pow2(0) == n)
                by (nonlinear_arith)
                requires
                    pow2(0) == 1,
            ;
        }
    }
}

/// A short whole number that another divides, divided by it.
pub proof fn lemma_exact_quotient(a: int, b: int)
    requires
        1 <= b < TOP,
        -TOP < a * b < TOP,
    ensures
        Single::of_int(a * b).over(Single::of_int(b)) == Single::of_int(a),
{
    let (top, least) = (TOP as int, LEAST as int);
    lemma2_to64();
    lemma_of_short(b);
    let (f, g) = (Single::of_int(a * b), Single::of_int(b));
    if a == 0 {
        assert(a * b == 0) by (nonlinear_arith)
            requires
                a == 0,
        ;
        lemma_rounded_nothing(1, 0, top, least);
        lemma_rounded_nothing(g.mant(), f.unit() - g.unit(), top, least);
    } else {
        let c = if a < 0 {
            -a
        } else {
            a
        };
        let n = c * b;
        assert((a < 0 ==> a * b == -n) && (a > 0 ==> a * b == n) && n >= c && n > 0)
            by (nonlinear_arith)
            requires
                n == c * b,
                b >= 1,
                c == if a < 0 {
                    -a
                } else {
                    a
                },
                a != 0,
        ;
        lemma_of_short(a * b);
        let (i, j) = ((-f.unit()) as nat, (-g.unit()) as nat);
        // Both significands are whole numbers of the same unit.
        lemma_rounded_shift(n, g.mant(), j as int, top, least, i);
        lemma_rounded_shift(n, g.mant(), j as int, top, least, j);
        lemma_rounded_ratios(n, b, 0, top, least, j);
        assert(1 * b == b) by (nonlinear_arith);
        lemma_rounded_common(c, 1, 0, top, least, b);
        assert(rounded(f.mant(), g.mant(), f.unit() - g.unit(), top, least) == rounded(
            c,
            1,
            0,
            top,
            least,
        ));
    }
}

/// Short whole numbers are ordered as singles as they are.
pub proof fn lemma_lesser_of_short(a: int, b: int)
    requires
        0 <= a < TOP,
        0 <= b < TOP,
    ensures
        Single::of_int(a).lesser(Single::of_int(b)) == Single::of_int(if a <= b {
            a
        } else {
            b
        }),
{
    lemma_rank(a, b);
    lemma_rank(b, a);
}

proof fn lemma_rank(a: int, b: int)
    requires
        0 <= a < TOP,
        0 <= b < TOP,
    ensures
        a <= b ==> Single::of_int(a).rank() <= Single::of_int(b).rank(),
        !Single::of_int(a).is_nan() && !Single::of_int(a).neg(),
        a < b ==> Single::of_int(a).rank() < Single::of_int(b).rank(),
{
    lemma2_to64();
    if a == 0 {
        lemma_rounded_nothing(1, 0, TOP as int, LEAST as int);
    } else {
        lemma_of_short(a);
    }
    if b == 0 {
        lemma_rounded_nothing(1, 0, TOP as int, LEAST as int);
    } else {
        lemma_of_short(b);
    }
    if 0 < a < b {
        let (f, g) = (Single::of_int(a), Single::of_int(b));
        let (i, j) = ((-f.unit()) as nat, (-g.unit()) as nat);
        lemma_pow2_pos(i);
        lemma_pow2_pos(j);
        assert(j <= i) by {
            if j > i {
                vstd::arithmetic::power2::lemma_pow2_strictly_increases(i, j);
                lemma_pow2_unfold(j);
                if i < j - 1 {
                    vstd::arithmetic::power2::lemma_pow2_strictly_increases(i, (j - 1) as nat);
                }
                let (x, y) = (pow2(i) as int, pow2(j) as int);
                assert(b * y >= 2 * (a * x) + 2) by (nonlinear_arith)
                    requires
                        b >= a + 1,
                        y >= 2 * x,
                        x >= 1,
                        a >= 1,
                ;
            }
        }
        assert(f.bits == (f.unit() + 149) * 0x80_0000 + f.mant());
        assert(g.bits == (g.unit() + 149) * 0x80_0000 + g.mant());
        if i == j {
            let x = pow2(i) as int;
            assert(a * x < b * x) by (nonlinear_arith)
                requires
                    a < b,
                    x >= 1,
            ;
        }
    }
}

/// The sum of two short whole numbers, where it is short.
pub proof fn lemma_exact_sum(a: int, b: int)
    requires
        0 <= a,
        0 <= b,
        a + b < TOP,
    ensures
        Single::of_int(a).plus(Single::of_int(b)) == Single::of_int(a + b),
{
    let (top, least) = (TOP as int, LEAST as int);
    let (f, g) = (Single::of_int(a), Single::of_int(b));
    lemma2_to64();
    lemma_rounded_nothing(1, 0, top, least);
    if a > 0 {
        lemma_of_short(a);
    }
    if b > 0 {
        lemma_of_short(b);
    }
    let q = if f.unit() < g.unit() { f.unit() } else { g.unit() };
    let k = (-q) as nat;
    lemma_scaled_short(a, q);
    lemma_scaled_short(b, q);
    let p = pow2(k) as int;
    lemma_pow2_pos(k);
    assert(a * p + b * p == (a + b) * p) by (nonlinear_arith);
    if a + b == 0 {
        assert(a * p + b * p == 0) by (nonlinear_arith)
            requires
                a == 0,
                b == 0,
        ;
    } else {
        assert((a + b) * p > 0) by (nonlinear_arith)
            requires
                a + b > 0,
                p > 0,
        ;
        lemma_rounded_shift(a + b, 1, 0, top, least, k);
    }
}

proof fn lemma_scaled_short(a: int, q: int)
    requires
        0 <= a < TOP,
        LEAST <= q <= Single::of_int(a).unit(),
        q <= 0,
    ensures
        Single::of_int(a).scaled(q) == a * pow2((-q) as nat),
{
    let f = Single::of_int(a);
    lemma_rounded_nothing(1, 0, TOP as int, LEAST as int);
    let e = (f.unit() - q) as nat;
    if a == 0 {
        assert(f.mant() * pow2(e) == 0 && a * pow2((-q) as nat) == 0) by (nonlinear_arith)
            requires
                f.mant() == 0,
                a == 0,
        ;
    } else {
        lemma_of_short(a);
        let i = (-f.unit()) as nat;
        vstd::arithmetic::power2::lemma_pow2_adds(i, e);
        let (x, y) = (pow2(i) as int, pow2(e) as int);
        assert((a * x) * y == a * (x * y)) by (nonlinear_arith);
    }
}

/// One, as a whole number.
pub proof fn lemma_unity()
    ensures
        Single::of_int(1) == Single::unity(),
{
    lemma2_to64();
    lemma_of_short(1);
    let u = Single::of_int(1).unit();
    if u > -23 {
        vstd::arithmetic::power2::lemma_pow2_strictly_increases((-u) as nat, 23);
    }
    assert(u == -23);
}

/// One times a short whole number.
pub proof fn lemma_one_times_short(a: int)
    requires
        0 <= a < TOP,
    ensures
        Single::unity().times(Single::of_int(a)) == Single::of_int(a),
{
    if a == 0 {
        lemma_rounded_nothing(1, 0, TOP as int, LEAST as int);
        let z = Single::of_int(0);
        assert(Single::unity().mant() * z.mant() == 0) by (nonlinear_arith)
            requires
                z.mant() == 0,
        ;
        lemma_rounded_nothing(1, Single::unity().unit() + z.unit(), TOP as int, LEAST as int);
    } else {
        lemma_of_length(a);
        lemma_one_times(Single::of_int(a));
    }
}

/// A short whole number times nothing or one.
pub proof fn lemma_times_switch(a: int, k: int)
    requires
        0 <= a < TOP,
        0 <= k <= 1,
    ensures
        Single::of_int(a).times(Single::of_int(k)) == Single::of_int(
            if k == 0 {
                0
            } else {
                a
            },
        ),
{
    let (f, g) = (Single::of_int(a), Single::of_int(k));
    assert(f.mant() * g.mant() == g.mant() * f.mant()) by (nonlinear_arith);
    lemma_rounded_nothing(1, 0, TOP as int, LEAST as int);
    if a > 0 {
        lemma_of_length(a);
    }
    if k == 0 {
        assert(f.mant() * g.mant() == 0) by (nonlinear_arith)
            requires
                g.mant() == 0,
        ;
        lemma_rounded_nothing(1, f.unit() + g.unit(), TOP as int, LEAST as int);
    } else {
        lemma_unity();
        lemma_one_times_short(a);
    }
}

/// The difference of two short whole numbers, the first no less than the second.
pub proof fn lemma_exact_difference(a: int, b: int)
    requires
        0 <= b <= a < TOP,
    ensures
        Single::of_int(a).plus(Single::of_int(b).opposite()) == Single::of_int(a - b),
{
    let (top, least) = (TOP as int, LEAST as int);
    let (f, g) = (Single::of_int(a), Single::of_int(b));
    let h = g.opposite();
    lemma2_to64();
    lemma_rounded_nothing(1, 0, top, least);
    if a > 0 {
        lemma_of_short(a);
    }
    if b > 0 {
        lemma_of_short(b);
    }
    assert(h.mant() == g.mant() && h.unit() == g.unit() && h.neg() == !g.neg());
    let q = if f.unit() < g.unit() { f.unit() } else { g.unit() };
    let k = (-q) as nat;
    lemma_scaled_short(a, q);
    lemma_scaled_short(b, q);
    let p = pow2(k) as int;
    lemma_pow2_pos(k);
    assert(h.scaled(q) == -g.scaled(q));
    assert(a * p - b * p == (a - b) * p) by (nonlinear_arith);
    if a == b {
        assert(a * p - b * p == 0);
    } else {
        assert((a - b) * p > 0) by (nonlinear_arith)
            requires
                a - b > 0,
                p > 0,
        ;
        lemma_rounded_shift(a - b, 1, 0, top, least, k);
    }
}

/// A number less itself is nothing.
pub proof fn lemma_less_itself(s: Single)
    requires
        !s.is_nan(),
        !s.is_inf(),
    ensures
        s.plus(s.opposite()).is_zero(),
{
    let o = s.opposite();
    assert(o.mant() == s.mant() && o.unit() == s.unit() && o.neg() == !s.neg());
    assert(!o.is_nan() && !o.is_inf());
    assert(o.scaled(s.unit()) == -s.scaled(s.unit()));
}

/// A short whole number is truncated to itself.
pub proof fn lemma_truncates_to_itself(v: int)
    requires
        0 <= v < TOP,
    ensures
        Single::of_int(v).truncated(i64::MIN as int, i64::MAX as int) == v,
{
    if v == 0 {
        lemma2_to64();
        lemma_rounded_nothing(1, 0, TOP as int, LEAST as int);
        lemma_pow2_pos(149);
        vstd::arithmetic::div_mod::lemma_basic_div(0, pow2(149) as int);
    } else {
        lemma_scale_one(v);
    }
}

/// The whole numbers around a number that is a part of one: the number is `v` parts of which `p` make a
/// whole. Rounding down gives the last whole number up to it, rounding up the first from it on, towards
/// zero the nearer to zero of the two, and to the nearest the one no more than half a whole away, a tie
/// going away from zero.
pub proof fn law_whole_numbers_around(f: Single, k: int)
    requires
        !f.is_nan() && !f.is_inf(),
        f.unit() < 0,
        k >= 1,
        f.mant() <= (k - 1) * pow2((-f.unit()) as nat),
    ensures
        ({
            let p = pow2((-f.unit()) as nat) as int;
            let v = if f.neg() {
                -f.mant()
            } else {
                f.mant()
            };
            let (down, up) = (f.floored(-k, k), f.ceiling(-k, k));
            let (off, near) = (f.truncated(-k, k), f.to_nearest(-k, k));
            &&& p > 0
            &&& down * p <= v < (down + 1) * p
            &&& (up - 1) * p < v <= up * p
            &&& off == if f.neg() {
                up
            } else {
                down
            }
            &&& -p <= 2 * (v - near * p) <= p
            &&& 2 * (v - near * p) == p ==> v < 0
            &&& 2 * (near * p - v) == p ==> v > 0
        }),
{
    let (m, u) = (f.mant(), f.unit());
    let p = pow2((-u) as nat) as int;
    lemma_pow2_pos((-u) as nat);
    let (w, r) = (m / p, m % p);
    vstd::arithmetic::div_mod::lemma_fundamental_div_mod(m, p);
    let (w2, r2) = ((2 * m) / p, (2 * m) % p);
    vstd::arithmetic::div_mod::lemma_fundamental_div_mod(2 * m, p);
    let n = (w2 + 1) / 2;
    assert(0 <= w < k) by (nonlinear_arith)
        requires
            m == p * w + r,
            0 <= r < p,
            0 <= m <= (k - 1) * p,
            k >= 1,
    ;
    assert(w2 < 2 * k - 1 && w2 >= 0) by (nonlinear_arith)
        requires
            2 * m == p * w2 + r2,
            0 <= r2 < p,
            0 <= m <= (k - 1) * p,
            k >= 1,
    ;
    assert(w * p == p * w && (w + 1) * p == p * w + p && (w - 1) * p == p * w - p && (-w) * p == -(p * w)
        && (-w - 1) * p == -(p * w) - p && (-w + 1) * p == -(p * w) + p && (-w - 1 + 1) * p == -(p * w)
        && (-w - 1 - 1) * p == -(p * w) - 2 * p) by (nonlinear_arith);
    assert(n * p == p * n && (-n) * p == -(p * n)) by (nonlinear_arith);
    if w2 % 2 == 0 {
        assert(2 * (p * n) == p * w2) by (nonlinear_arith)
            requires
                w2 == 2 * n,
        ;
    } else {
        assert(2 * (p * n) == p * w2 + p) by (nonlinear_arith)
            requires
                w2 + 1 == 2 * n,
        ;
    }
}

/// The lesser of two numbers is one of them, and the other is not less; the same with the two changed
/// over.
pub proof fn law_lesser(a: Single, b: Single)
    requires
        !a.is_nan() && !b.is_nan(),
    ensures
        a.lesser(b) == a || a.lesser(b) == b,
        a.lesser(b).rank() <= a.rank() && a.lesser(b).rank() <= b.rank(),
        a.rank() != b.rank() ==> a.lesser(b) == b.lesser(a),
        a.opposite().opposite() == a && a.opposite() != a,
        a.opposite().rank() == -a.rank(),
{
}

} // verus!
