//! Single-precision arithmetic on bit patterns.
//!
//! Glyph geometry reaches the GPU as IEEE 754 binary32 words. [`F32`] holds such
//! a word and computes on it with integer arithmetic only, so that every result
//! is the correctly rounded one on every machine and can be reasoned about.
//!
//! The model: every finite value is an integer multiple of 2^-149. `magnitude`
//! gives that integer for a sign-less bit pattern, and `rounds_to` says which
//! pattern is the nearest to a given non-negative rational, ties to even.
use vstd::prelude::*;
use vstd::arithmetic::power2::{pow2, lemma_pow2_pos, lemma_pow2_adds, lemma_pow2_unfold, lemma_pow2_strictly_increases, lemma2_to64, lemma2_to64_rest};
use vstd::bits::lemma_u64_shl_is_mul;
use crate::float64::F64;

verus! {

/// An IEEE 754 binary32 value, held as its bit pattern.
///
/// `==` on this type compares patterns; [`F32::eq_value`] is the numeric
/// comparison, in which both zeros are equal and NaN equals nothing.
#[derive(Clone, Copy, Debug, PartialEq, Eq, Structural)]
pub struct F32 {
    pub bits: u32,
}

/// The pattern of positive infinity; magnitudes of non-NaN values end here.
pub const INFINITY_BITS: u32 = 0x7f80_0000;

/// The quiet NaN that the operations below return.
pub const NAN_BITS: u32 = 0x7fc0_0000;

/// Weight of one step of the exponent field in a bit pattern: 2^23.
pub const FRACTION_UNIT: u32 = 0x80_0000;

/// Weight of the sign in a bit pattern: 2^31.
pub const SIGN_UNIT: u32 = 0x8000_0000;

/// The pattern of the largest finite value, a starting point for minima.
pub const MAX_BITS: u32 = 0x7f7f_ffff;

/// The pattern of the smallest finite value, a starting point for maxima.
pub const MIN_BITS: u32 = 0xff7f_ffff;

/// The pattern of 1.0.
pub const ONE_BITS: u32 = 0x3f80_0000;

/// The pattern of 0.5.
pub const HALF_BITS: u32 = 0x3f00_0000;

/// The pattern of 0.25.
pub const QUARTER_BITS: u32 = 0x3e80_0000;

/// The pattern of 2.0.
pub const TWO_BITS: u32 = 0x4000_0000;

/// The pattern of 4.0.
pub const FOUR_BITS: u32 = 0x4080_0000;

/// The value of a sign-less bit pattern as a multiple of 2^-149. Infinity is
/// given the value that the next binade would start with.
pub open spec fn magnitude(b: int) -> int {
    let e = b / 0x80_0000;
    let m = b % 0x80_0000;
    if e == 0 {
        m
    } else {
        (0x80_0000 + m) * pow2((e - 1) as nat)
    }
}

/// `b` is the sign-less bit pattern nearest to `n / d` (in multiples of
/// 2^-149), ties going to the even pattern.
pub open spec fn rounds_to(b: int, n: int, d: int) -> bool {
    &&& 0 <= b <= INFINITY_BITS
    &&& b > 0 ==> {
        let low = (magnitude(b - 1) + magnitude(b)) * d;
        low < 2 * n || (low == 2 * n && b % 2 == 0)
    }
    &&& b < INFINITY_BITS ==> {
        let high = (magnitude(b) + magnitude(b + 1)) * d;
        2 * n < high || (2 * n == high && b % 2 == 0)
    }
}

/// The nearest sign-less bit pattern to `n / d`.
pub open spec fn nearest(n: int, d: int) -> int {
    choose|b: int| rounds_to(b, n, d)
}

/// The nearest sign-less bit pattern to the square root of `x` multiples of
/// 2^-298, that is to `sqrt(x)` multiples of 2^-149.
pub open spec fn roots_to(b: int, x: int) -> bool {
    &&& 0 <= b <= INFINITY_BITS
    &&& b > 0 ==> {
        let low = magnitude(b - 1) + magnitude(b);
        low * low < 4 * x || (low * low == 4 * x && b % 2 == 0)
    }
    &&& b < INFINITY_BITS ==> {
        let high = magnitude(b) + magnitude(b + 1);
        4 * x < high * high || (4 * x == high * high && b % 2 == 0)
    }
}

pub open spec fn nearest_root(x: int) -> int {
    choose|b: int| roots_to(b, x)
}

pub open spec fn abs_int(x: int) -> int {
    if x < 0 { -x } else { x }
}

/// A pattern from a sign and a sign-less pattern.
pub open spec fn signed_pattern(negative: bool, b: int) -> F32 {
    F32 { bits: (if negative { b + 0x8000_0000 } else { b }) as u32 }
}

pub open spec fn nan_value() -> F32 {
    F32 { bits: NAN_BITS }
}

impl F32 {
    pub open spec fn negative(self) -> bool {
        self.bits >= 0x8000_0000
    }

    /// The pattern without its sign.
    pub open spec fn unsigned(self) -> int {
        self.bits as int % 0x8000_0000
    }

    pub open spec fn nan(self) -> bool {
        self.unsigned() > INFINITY_BITS
    }

    pub open spec fn infinite(self) -> bool {
        self.unsigned() == INFINITY_BITS
    }

    pub open spec fn finite(self) -> bool {
        self.unsigned() < INFINITY_BITS
    }

    pub open spec fn zero(self) -> bool {
        self.unsigned() == 0
    }

    /// The value of a finite pattern, in multiples of 2^-149.
    pub open spec fn value(self) -> int {
        if self.negative() { -magnitude(self.unsigned()) } else { magnitude(self.unsigned()) }
    }

    /// Position on the number line among non-NaN patterns: numerically equal
    /// values share it and it grows with the value.
    pub open spec fn order(self) -> int {
        if self.negative() { -self.unsigned() } else { self.unsigned() }
    }
}

/// Addition: exact sum, rounded; a zero sum is negative only when both
/// operands are.
#[verifier::opaque]
pub open spec fn f_add(a: F32, b: F32) -> F32 {
    if a.nan() || b.nan() || (a.infinite() && b.infinite() && a.negative() != b.negative()) {
        nan_value()
    } else if a.infinite() {
        a
    } else if b.infinite() {
        b
    } else {
        let sum = a.value() + b.value();
        if sum == 0 {
            signed_pattern(a.negative() && b.negative(), 0)
        } else {
            signed_pattern(sum < 0, nearest(abs_int(sum), 1))
        }
    }
}

/// The value with its sign flipped.
pub open spec fn f_neg(a: F32) -> F32 {
    signed_pattern(!a.negative(), a.unsigned())
}

#[verifier::opaque]
pub open spec fn f_sub(a: F32, b: F32) -> F32 {
    if b.nan() { nan_value() } else { f_add(a, f_neg(b)) }
}

/// Multiplication: exact product, rounded.
#[verifier::opaque]
pub open spec fn f_mul(a: F32, b: F32) -> F32 {
    let negative = a.negative() != b.negative();
    if a.nan() || b.nan() || (a.infinite() && b.zero()) || (a.zero() && b.infinite()) {
        nan_value()
    } else if a.infinite() || b.infinite() {
        signed_pattern(negative, INFINITY_BITS as int)
    } else {
        signed_pattern(
            negative,
            nearest(magnitude(a.unsigned()) * magnitude(b.unsigned()), pow2(149) as int),
        )
    }
}

/// Division: exact quotient, rounded.
#[verifier::opaque]
pub open spec fn f_div(a: F32, b: F32) -> F32 {
    let negative = a.negative() != b.negative();
    if a.nan() || b.nan() || (a.infinite() && b.infinite()) || (a.zero() && b.zero()) {
        nan_value()
    } else if a.infinite() || b.zero() {
        signed_pattern(negative, INFINITY_BITS as int)
    } else if b.infinite() {
        signed_pattern(negative, 0)
    } else {
        signed_pattern(
            negative,
            nearest(magnitude(a.unsigned()) * pow2(149), magnitude(b.unsigned())),
        )
    }
}

/// Square root: the exact root, rounded; NaN below zero.
#[verifier::opaque]
pub open spec fn f_sqrt(a: F32) -> F32 {
    if a.nan() {
        nan_value()
    } else if a.zero() {
        a
    } else if a.negative() {
        nan_value()
    } else if a.infinite() {
        a
    } else {
        signed_pattern(false, nearest_root(magnitude(a.unsigned()) * pow2(149)))
    }
}

pub open spec fn f_lt(a: F32, b: F32) -> bool {
    !a.nan() && !b.nan() && a.order() < b.order()
}

pub open spec fn f_le(a: F32, b: F32) -> bool {
    !a.nan() && !b.nan() && a.order() <= b.order()
}

pub open spec fn f_eq(a: F32, b: F32) -> bool {
    !a.nan() && !b.nan() && a.order() == b.order()
}

/// The nearest value to an integer.
#[verifier::opaque]
pub open spec fn f_from_int(x: int) -> F32 {
    signed_pattern(x < 0, nearest(abs_int(x) * pow2(149), 1))
}

proof fn lemma_magnitude_step(b: int)
    requires
        0 <= b < INFINITY_BITS,
    ensures
        0 <= magnitude(b) < magnitude(b + 1),
{
    let e = b / 0x80_0000;
    let m = b % 0x80_0000;
    if m == 0x7f_ffff {
        assert((b + 1) / 0x80_0000 == e + 1);
        assert((b + 1) % 0x80_0000 == 0);
        lemma_pow2_pos(e as nat);
        if e > 0 {
            lemma_pow2_unfold(e as nat);
            lemma_pow2_pos((e - 1) as nat);
            let p = pow2((e - 1) as nat) as int;
            assert((0x80_0000 + m) * p < 0x80_0000 * (2 * p)) by (nonlinear_arith)
                requires
                    m == 0x7f_ffff,
                    p > 0,
            ;
            assert(0 <= (0x80_0000 + m) * p) by (nonlinear_arith)
                requires
                    m == 0x7f_ffff,
                    p > 0,
            ;
        } else {
            lemma2_to64();
        }
    } else {
        assert((b + 1) / 0x80_0000 == e);
        assert((b + 1) % 0x80_0000 == m + 1);
        if e > 0 {
            lemma_pow2_pos((e - 1) as nat);
            let p = pow2((e - 1) as nat) as int;
            assert(0 <= (0x80_0000 + m) * p < (0x80_0000 + (m + 1)) * p) by (nonlinear_arith)
                requires
                    m >= 0,
                    p > 0,
            ;
        }
    }
}

/// The value grows with the sign-less pattern.
pub proof fn lemma_magnitude_monotone(b: int, c: int)
    requires
        0 <= b < c <= INFINITY_BITS,
    ensures
        0 <= magnitude(b) < magnitude(c),
    decreases c - b,
{
    lemma_magnitude_step(b);
    if b + 1 < c {
        lemma_magnitude_monotone(b + 1, c);
    }
}

pub proof fn lemma_magnitude_nonneg(b: int)
    requires
        0 <= b <= INFINITY_BITS,
    ensures
        0 <= magnitude(b),
        b > 0 ==> magnitude(b) > 0,
{
    assert(magnitude(0) == 0);
    if b > 0 {
        lemma_magnitude_monotone(0, b);
    }
}

/// At most one pattern is nearest.
pub proof fn lemma_rounds_to_unique(b: int, c: int, n: int, d: int)
    requires
        d > 0,
        rounds_to(b, n, d),
        rounds_to(c, n, d),
    ensures
        b == c,
    decreases (if b < c { 0int } else { 1int }),
{
    if b > c {
        lemma_rounds_to_unique(c, b, n, d);
    } else if b < c {
        lemma_magnitude_step(b);
        lemma_magnitude_step(c - 1);
        let x = magnitude(b) + magnitude(b + 1);
        let y = magnitude(c - 1) + magnitude(c);
        if b + 1 < c {
            lemma_magnitude_monotone(b, c - 1);
            lemma_magnitude_monotone(b + 1, c);
            assert(x < y);
            assert(x * d < y * d) by (nonlinear_arith)
                requires
                    x < y,
                    d > 0,
            ;
        }
    }
}

proof fn lemma_nearest(b: int, n: int, d: int)
    requires
        d > 0,
        rounds_to(b, n, d),
    ensures
        nearest(n, d) == b,
{
    lemma_rounds_to_unique(b, nearest(n, d), n, d);
}

/// The value of the pattern that holds a significand `q` at exponent step `s`.
proof fn lemma_magnitude_of_parts(s: int, q: int)
    requires
        0 <= s <= 253,
        s == 0 ==> 0 <= q,
        s > 0 ==> 0x80_0000 <= q,
        q <= 0x100_0000,
    ensures
        magnitude(s * 0x80_0000 + q) == q * pow2(s as nat),
{
    let b = s * 0x80_0000 + q;
    lemma2_to64();
    if q < 0x80_0000 {
        assert(b / 0x80_0000 == 0);
        assert(b % 0x80_0000 == q);
        let one = pow2(s as nat) as int;
        assert(q * one == q) by (nonlinear_arith)
            requires
                one == 1,
        ;
    } else if q < 0x100_0000 {
        assert(b / 0x80_0000 == s + 1);
        assert(b % 0x80_0000 == q - 0x80_0000);
        assert(0x80_0000 + b % 0x80_0000 == q);
    } else {
        assert(b / 0x80_0000 == s + 2);
        assert(b % 0x80_0000 == 0);
        lemma_pow2_unfold((s + 1) as nat);
        let p = pow2(s as nat) as int;
        assert(q * p == 0x80_0000 * (2 * p)) by (nonlinear_arith)
            requires
                q == 0x100_0000,
        ;
    }
}

/// Rounding against a cut: `cut(c)` is negative, zero or positive as `c` is
/// below, at or above twice the value that is being rounded.
spec fn rounds_by(b: int, cut: spec_fn(int) -> int) -> bool {
    &&& 0 <= b <= INFINITY_BITS
    &&& b > 0 ==> {
        let low = magnitude(b - 1) + magnitude(b);
        cut(low) < 0 || (cut(low) == 0 && b % 2 == 0)
    }
    &&& b < INFINITY_BITS ==> {
        let high = magnitude(b) + magnitude(b + 1);
        cut(high) > 0 || (cut(high) == 0 && b % 2 == 0)
    }
}

spec fn up_scale(e: int) -> int {
    pow2((if e > 0 { e } else { 0 }) as nat) as int
}

spec fn down_scale(e: int) -> int {
    pow2((if e < 0 { -e } else { 0 }) as nat) as int
}

/// The value behind `cut` lies in the unit interval that starts at `m * 2^e`;
/// `sticky` tells whether it lies above its start.
spec fn brackets(cut: spec_fn(int) -> int, m: int, e: int, sticky: bool) -> bool {
    forall|c: int| c >= 0 ==> brackets_at(cut, #[trigger] cut(c), c, m, e, sticky)
}

spec fn brackets_at(cut: spec_fn(int) -> int, v: int, c: int, m: int, e: int, sticky: bool) -> bool {
    let lhs = c * down_scale(e);
    let start = 2 * m * up_scale(e);
    let end = 2 * (m + 1) * up_scale(e);
    &&& lhs < start ==> v < 0
    &&& lhs == start && sticky ==> v < 0
    &&& lhs == start && !sticky ==> v == 0
    &&& lhs > start && !sticky ==> v > 0
    &&& lhs >= end ==> v > 0
}

proof fn lemma_brackets_at(cut: spec_fn(int) -> int, c: int, m: int, e: int, sticky: bool, k: int, t: int, h: int)
    requires
        brackets(cut, m, e, sticky),
        t * down_scale(e) == k * up_scale(e),
        c == h * t,
        c >= 0,
    ensures
        h * k < 2 * m ==> cut(c) < 0,
        h * k == 2 * m && sticky ==> cut(c) < 0,
        h * k == 2 * m && !sticky ==> cut(c) == 0,
        h * k > 2 * m && !sticky ==> cut(c) > 0,
        h * k >= 2 * m + 2 ==> cut(c) > 0,
{
    let p = up_scale(e);
    let r = down_scale(e);
    lemma_pow2_pos((if e > 0 { e } else { 0 }) as nat);
    assert(brackets_at(cut, cut(c), c, m, e, sticky));
    let hk = h * k;
    assert(c * r == hk * p) by (nonlinear_arith)
        requires
            c == h * t,
            t * r == k * p,
            hk == h * k,
    ;
    assert(hk < 2 * m ==> hk * p < 2 * m * p) by (nonlinear_arith)
        requires
            p > 0,
    ;
    assert(hk > 2 * m ==> hk * p > 2 * m * p) by (nonlinear_arith)
        requires
            p > 0,
    ;
    assert(hk == 2 * m ==> hk * p == 2 * m * p) by (nonlinear_arith);
    assert(hk >= 2 * m + 2 ==> hk * p >= 2 * (m + 1) * p) by (nonlinear_arith)
        requires
            p > 0,
    ;
}

proof fn lemma_rounded(
    cut: spec_fn(int) -> int,
    m: int,
    e: int,
    k: int,
    s: int,
    q: int,
    sticky: bool,
)
    requires
        k > 0,
        0 <= s <= 253,
        pow2(s as nat) * down_scale(e) == k * up_scale(e),
        brackets(cut, m, e, sticky),
        0 <= q <= 0x100_0000,
        s > 0 ==> 0x80_0000 <= q,
        s > 0 && q == 0x80_0000 ==> q * k <= m,
        q > 0 ==> (2 * q - 1) * k <= 2 * m,
        q > 0 && (2 * q - 1) * k == 2 * m && !sticky ==> q % 2 == 0,
        sticky ==> (2 * q + 1) * k >= 2 * m + 2,
        !sticky ==> (2 * q + 1) * k >= 2 * m,
        !sticky && (2 * q + 1) * k == 2 * m ==> q % 2 == 0,
    ensures
        rounds_by(s * 0x80_0000 + q, cut),
{
    let t = pow2(s as nat) as int;
    let b = s * 0x80_0000 + q;
    lemma_pow2_pos(s as nat);
    lemma_magnitude_of_parts(s, q);
    assert(b % 2 == q % 2);
    if b > 0 {
        let low = magnitude(b - 1) + magnitude(b);
        lemma_magnitude_nonneg(b - 1);
        lemma_magnitude_nonneg(b);
        if s == 0 || q > 0x80_0000 {
            lemma_magnitude_of_parts(s, q - 1);
            assert(b - 1 == s * 0x80_0000 + (q - 1));
            assert((q - 1) * t + q * t == (2 * q - 1) * t) by (nonlinear_arith);
            lemma_brackets_at(cut, low, m, e, sticky, k, t, 2 * q - 1);
        } else {
            lemma_magnitude_step(b - 1);
            let r = down_scale(e);
            let p = up_scale(e);
            lemma_pow2_pos((if e < 0 { -e } else { 0 }) as nat);
            lemma_pow2_pos((if e > 0 { e } else { 0 }) as nat);
            assert(low < (2 * q) * t) by (nonlinear_arith)
                requires
                    low < 2 * (q * t),
            ;
            assert(brackets_at(cut, cut(low), low, m, e, sticky));
            assert(low * r < 2 * m * p) by (nonlinear_arith)
                requires
                    low < (2 * q) * t,
                    t * r == k * p,
                    q * k <= m,
                    r > 0,
                    p > 0,
            {
                assert(low * r < (2 * q) * t * r) by (nonlinear_arith)
                    requires
                        low < (2 * q) * t,
                        r > 0,
                ;
                assert((2 * q) * t * r == 2 * (q * k) * p) by (nonlinear_arith)
                    requires
                        t * r == k * p,
                ;
                assert(2 * (q * k) * p <= 2 * m * p) by (nonlinear_arith)
                    requires
                        q * k <= m,
                        p > 0,
                ;
            }
        }
    }
    if b < INFINITY_BITS {
        let high = magnitude(b) + magnitude(b + 1);
        lemma_magnitude_nonneg(b + 1);
        lemma_magnitude_nonneg(b);
        if q < 0x100_0000 {
            lemma_magnitude_of_parts(s, q + 1);
            assert(b + 1 == s * 0x80_0000 + (q + 1));
            assert(q * t + (q + 1) * t == (2 * q + 1) * t) by (nonlinear_arith);
            lemma_brackets_at(cut, high, m, e, sticky, k, t, 2 * q + 1);
        } else {
            lemma_magnitude_of_parts(s + 1, 0x80_0001);
            assert(b + 1 == (s + 1) * 0x80_0000 + 0x80_0001);
            lemma_pow2_unfold((s + 1) as nat);
            assert(high == (2 * q + 2) * t) by (nonlinear_arith)
                requires
                    high == q * t + 0x80_0001 * (2 * t),
                    q == 0x100_0000,
            ;
            lemma_brackets_at(cut, high, m, e, sticky, k, t, 2 * q + 2);
            assert((2 * q + 2) * k == (2 * q + 1) * k + k) by (nonlinear_arith);
        }
    }
}

/// 2^k.
fn two_to(k: u32) -> (r: u64)
    requires
        k < 64,
    ensures
        r == pow2(k as nat),
        r > 0,
{
    proof {
        lemma_pow2_pos(k as nat);
        lemma2_to64();
        lemma2_to64_rest();
        if k < 63 {
            lemma_pow2_strictly_increases(k as nat, 63);
        }
        lemma_u64_shl_is_mul(1, k as u64);
    }
    1u64 << (k as u64)
}

/// Rounds the value that `m`, `e` and `sticky` bracket.
fn round_pack(m: u64, e: i32, sticky: bool, Ghost(cut): Ghost<spec_fn(int) -> int>) -> (b: u32)
    requires
        m < 0x4000_0000_0000_0000,
        sticky ==> m >= 0x200_0000,
        -2000 <= e <= 2000,
        brackets(cut, m as int, e as int, sticky),
    ensures
        rounds_by(b as int, cut),
{
    let ghost p = up_scale(e as int);
    let ghost r = down_scale(e as int);
    proof {
        lemma_pow2_pos((if e > 0 { e as int } else { 0 }) as nat);
        lemma_pow2_pos((if e < 0 { -e } else { 0 }) as nat);
        lemma2_to64();
        lemma2_to64_rest();
    }
    if m == 0 {
        proof {
            assert(magnitude(0) == 0);
            assert(magnitude(1) == 1);
            assert(brackets_at(cut, cut(1), 1, 0, e as int, false));
            assert(1 * r > 2 * 0 * p) by (nonlinear_arith)
                requires
                    r > 0,
            ;
        }
        return 0;
    }
    let mut len: u32 = 0;
    let mut top: u64 = 1;
    while top <= m
        invariant
            0 < m < 0x4000_0000_0000_0000,
            len <= 62,
            top == pow2(len as nat),
            len > 0 ==> pow2((len - 1) as nat) <= m,
            top <= 0x4000_0000_0000_0000,
            pow2(62) == 0x4000_0000_0000_0000,
        decreases 62 - len,
    {
        proof {
            if len >= 61 {
                if len == 62 {
                } else {
                    lemma_pow2_unfold(62);
                }
            } else {
                lemma_pow2_strictly_increases((len + 1) as nat, 62);
            }
            lemma_pow2_unfold((len + 1) as nat);
        }
        top = top * 2;
        len = len + 1;
    }
    let fit: i32 = e + len as i32 - 24;
    let s: i32 = if fit > 0 { fit } else { 0 };
    if s >= 254 {
        proof {
            lemma_overflows(cut, m as int, e as int, len as int, sticky);
        }
        return INFINITY_BITS;
    }
    let k: i32 = s - e;
    if k <= 0 {
        let scale: u64 = two_to((-k) as u32);
        proof {
            let j = (-k) as nat;
            lemma_pow2_adds(j, (24 - j) as nat);
            lemma_pow2_adds(len as nat, j);
            lemma_pow2_adds((len - 1) as nat, j);
            if len + j < 24 {
                lemma_pow2_strictly_increases((len + j) as nat, 24);
            }
            let mm = m as int;
            let sc = scale as int;
            assert(mm * sc < pow2(len as nat) * sc) by (nonlinear_arith)
                requires
                    mm < pow2(len as nat),
                    sc > 0,
            ;
            assert(pow2((len - 1) as nat) * sc <= mm * sc) by (nonlinear_arith)
                requires
                    pow2((len - 1) as nat) <= mm,
                    sc > 0,
            ;
            lemma_pow2_adds(s as nat, j);
            let t = pow2(s as nat) as int;
            assert(p == t * sc);
            assert(r == 1);
            let q = mm * sc;
            assert(up_scale(s as int) == t);
            assert(down_scale(s as int) == 1);
            assert(2 * q * t == 2 * mm * p) by (nonlinear_arith)
                requires
                    p == t * sc,
                    q == mm * sc,
            ;
            lemma_pow2_pos(s as nat);
            assert(2 * (q + 1) * t > 2 * q * t) by (nonlinear_arith)
                requires
                    t > 0,
            ;
            assert forall|c: int| c >= 0 implies brackets_at(cut, #[trigger] cut(c), c, q, s as int, false) by {
                assert(brackets_at(cut, cut(c), c, mm, e as int, false));
            }
            assert(t * 1 == 1 * t) by (nonlinear_arith);
            assert(q * 1 == q);
            lemma_rounded(cut, q, s as int, 1, s as int, q, false);
        }
        let q: u64 = m * scale;
        return (s as u32) * FRACTION_UNIT + q as u32;
    }
    proof {
        lemma_pow2_adds(s as nat, (if e < 0 { -e } else { 0 }) as nat);
        lemma_pow2_adds(k as nat, (if e > 0 { e as int } else { 0 }) as nat);
        assert(pow2(s as nat) * r == pow2(k as nat) * p);
    }
    if k >= 63 {
        proof {
            let kk = pow2(k as nat) as int;
            lemma_pow2_unfold(63);
            if k > 63 {
                lemma_pow2_strictly_increases(63, k as nat);
            }
            assert((2 * 0 + 1) * kk == kk) by (nonlinear_arith);
            lemma_rounded(cut, m as int, e as int, kk, s as int, 0, sticky);
        }
        return 0;
    }
    let unit: u64 = two_to(k as u32);
    let q: u64 = m / unit;
    let rem: u64 = m % unit;
    let half: u64 = unit / 2;
    let up: bool = rem > half || (rem == half && (sticky || q % 2 == 1));
    let rounded: u64 = if up { q + 1 } else { q };
    proof {
        lemma_pow2_unfold(k as nat);
        let mm = m as int;
        let u = unit as int;
        assert(u == 2 * half);
        assert(mm == q * u + rem) by (nonlinear_arith)
            requires
                q == mm / u,
                rem == mm % u,
                u > 0,
        ;
        // q < 2^(len - k) and, when normal, 2^23 <= q.
        let lk = if len >= k { (len - k) as nat } else { 0nat };
        if len >= k {
            lemma_pow2_adds(lk, k as nat);
            if lk < 24 {
                lemma_pow2_strictly_increases(lk, 24);
            }
            assert(q < pow2(lk)) by (nonlinear_arith)
                requires
                    q * u + rem < pow2(lk) * u,
                    rem >= 0,
                    u > 0,
            ;
        } else {
            lemma_pow2_strictly_increases(len as nat, k as nat);
            assert(q < 1) by (nonlinear_arith)
                requires
                    q * u + rem < u,
                    rem >= 0,
                    u > 0,
            ;
        }
        assert(q < 0x100_0000);
        if s > 0 {
            assert(k == len - 24);
            lemma_pow2_adds(23, k as nat);
            assert(q >= 0x80_0000) by (nonlinear_arith)
                requires
                    q * u + rem >= 0x80_0000 * u,
                    rem < u,
                    u > 0,
            ;
        }
        let qq = rounded as int;
        let qi = q as int;
        let h = half as int;
        let rm = rem as int;
        if up {
            assert((2 * qq - 1) * u == 2 * (qi * u) + u) by (nonlinear_arith)
                requires
                    qq == qi + 1,
            ;
            assert((2 * qq + 1) * u == 2 * (qi * u) + 3 * u) by (nonlinear_arith)
                requires
                    qq == qi + 1,
            ;
        } else {
            assert((2 * qq - 1) * u == 2 * (qi * u) - u) by (nonlinear_arith)
                requires
                    qq == qi,
            ;
            assert((2 * qq + 1) * u == 2 * (qi * u) + u) by (nonlinear_arith)
                requires
                    qq == qi,
            ;
        }
        lemma_rounded(cut, mm, e as int, u, s as int, qq, sticky);
    }
    (s as u32) * FRACTION_UNIT + rounded as u32
}

proof fn lemma_overflows(cut: spec_fn(int) -> int, m: int, e: int, len: int, sticky: bool)
    requires
        0 < len <= 62,
        m >= pow2((len - 1) as nat),
        e + len - 24 >= 254,
        brackets(cut, m, e, sticky),
    ensures
        rounds_by(INFINITY_BITS as int, cut),
{
    let p = up_scale(e);
    lemma_pow2_adds((len - 1) as nat, e as nat);
    lemma2_to64();
    lemma_pow2_adds(23, 254);
    if len - 1 + e > 277 {
        lemma_pow2_strictly_increases(277, (len - 1 + e) as nat);
    }
    lemma_pow2_pos(e as nat);
    let big = magnitude(INFINITY_BITS as int);
    assert(INFINITY_BITS as int / 0x80_0000 == 255);
    assert(INFINITY_BITS as int % 0x80_0000 == 0);
    assert(big == pow2(277));
    assert(m * p >= big) by (nonlinear_arith)
        requires
            m >= pow2((len - 1) as nat),
            pow2((len - 1) as nat) * p >= big,
            p > 0,
    ;
    lemma_magnitude_step(INFINITY_BITS - 1);
    let low = magnitude(INFINITY_BITS - 1) + big;
    assert(brackets_at(cut, cut(low), low, m, e, sticky));
    assert(2 * m * p == 2 * (m * p)) by (nonlinear_arith);
    assert(low * down_scale(e) == low) by (nonlinear_arith)
        requires
            down_scale(e) == 1,
    ;
}

spec fn ratio_cut(n: int, d: int) -> spec_fn(int) -> int {
    |c: int| c * d - 2 * n
}

spec fn root_cut(x: int) -> spec_fn(int) -> int {
    |c: int| c * c - 4 * x
}

proof fn lemma_ratio_rounded(b: int, n: int, d: int)
    requires
        d > 0,
        rounds_by(b, ratio_cut(n, d)),
    ensures
        nearest(n, d) == b,
        0 <= b <= INFINITY_BITS,
{
    assert(rounds_to(b, n, d));
    lemma_rounds_to_unique(b, nearest(n, d), n, d);
}

proof fn lemma_root_rounded(b: int, x: int)
    requires
        rounds_by(b, root_cut(x)),
    ensures
        nearest_root(x) == b,
        0 <= b <= INFINITY_BITS,
{
    assert(roots_to(b, x));
    lemma_roots_to_unique(b, nearest_root(x), x);
}

/// At most one pattern is nearest to a root.
pub proof fn lemma_roots_to_unique(b: int, c: int, x: int)
    requires
        roots_to(b, x),
        roots_to(c, x),
    ensures
        b == c,
    decreases (if b < c { 0int } else { 1int }),
{
    if b > c {
        lemma_roots_to_unique(c, b, x);
    } else if b < c {
        lemma_magnitude_step(b);
        lemma_magnitude_step(c - 1);
        let u = magnitude(b) + magnitude(b + 1);
        let v = magnitude(c - 1) + magnitude(c);
        if b + 1 < c {
            lemma_magnitude_monotone(b, c - 1);
            lemma_magnitude_monotone(b + 1, c);
            assert(u * u < v * v) by (nonlinear_arith)
                requires
                    0 <= u < v,
            ;
        }
    }
}

proof fn lemma_brackets_ratio(n: int, d: int, m: int, e: int, sticky: bool)
    requires
        d > 0,
        m * up_scale(e) * d <= n * down_scale(e) < (m + 1) * up_scale(e) * d,
        !sticky ==> m * up_scale(e) * d == n * down_scale(e),
        sticky ==> m * up_scale(e) * d < n * down_scale(e),
    ensures
        brackets(ratio_cut(n, d), m, e, sticky),
{
    let cut = ratio_cut(n, d);
    let p = up_scale(e);
    let r = down_scale(e);
    lemma_pow2_pos((if e < 0 { -e } else { 0 }) as nat);
    assert forall|c: int| c >= 0 implies brackets_at(cut, #[trigger] cut(c), c, m, e, sticky) by {
        let v = c * d - 2 * n;
        let lhs = c * r;
        let start = 2 * m * p;
        let end = 2 * (m + 1) * p;
        let nr = n * r;
        assert(v * r == lhs * d - 2 * nr) by (nonlinear_arith)
            requires
                v == c * d - 2 * n,
                lhs == c * r,
                nr == n * r,
        ;
        assert(start * d == 2 * (m * p * d)) by (nonlinear_arith)
            requires
                start == 2 * m * p,
        ;
        assert(end * d == 2 * ((m + 1) * p * d)) by (nonlinear_arith)
            requires
                end == 2 * (m + 1) * p,
        ;
        assert(lhs < start ==> lhs * d < start * d) by (nonlinear_arith)
            requires
                d > 0,
        ;
        assert(lhs > start ==> lhs * d > start * d) by (nonlinear_arith)
            requires
                d > 0,
        ;
        assert(lhs == start ==> lhs * d == start * d);
        assert(lhs >= end ==> lhs * d >= end * d) by (nonlinear_arith)
            requires
                d > 0,
        ;
        assert(v * r < 0 ==> v < 0) by (nonlinear_arith)
            requires
                r > 0,
        ;
        assert(v * r > 0 ==> v > 0) by (nonlinear_arith)
            requires
                r > 0,
        ;
        assert(v * r == 0 ==> v == 0) by (nonlinear_arith)
            requires
                r > 0,
        ;
    }
}

/// An integer multiple of 2^(e - 149) brackets itself.
proof fn lemma_brackets_integer(m: int, e: int)
    requires
        e >= 0,
        m >= 0,
    ensures
        brackets(ratio_cut(m * pow2(e as nat), 1), m, e, false),
{
    lemma_pow2_pos(e as nat);
    lemma2_to64();
    let p = pow2(e as nat) as int;
    assert(up_scale(e) == p);
    assert(down_scale(e) == 1);
    let n = m * p;
    assert(m * p * 1 == n * 1) by (nonlinear_arith)
        requires
            n == m * p,
    ;
    assert((m + 1) * p * 1 > n * 1) by (nonlinear_arith)
        requires
            n == m * p,
            p > 0,
    ;
    lemma_brackets_ratio(n, 1, m, e, false);
}

/// Significand and exponent step of a finite sign-less pattern.
pub(crate) fn parts(b: u32) -> (r: (u64, u32))
    requires
        b < INFINITY_BITS,
    ensures
        magnitude(b as int) == r.0 * pow2(r.1 as nat),
        r.0 < 0x100_0000,
        r.1 <= 253,
        r.1 == (if b / 0x80_0000 == 0 { 0int } else { b / 0x80_0000 - 1 }),
        r.1 > 0 ==> r.0 >= 0x80_0000,
        b > 0 ==> r.0 > 0,
        b == 0 ==> r.0 == 0,
{
    let field: u32 = b / FRACTION_UNIT;
    let fraction: u32 = b % FRACTION_UNIT;
    if field == 0 {
        proof {
            lemma2_to64();
            let one = pow2(0) as int;
            assert(fraction * one == fraction) by (nonlinear_arith)
                requires
                    one == 1,
            ;
        }
        (fraction as u64, 0)
    } else {
        ((FRACTION_UNIT + fraction) as u64, field - 1)
    }
}

fn with_sign(negative: bool, b: u32) -> (r: F32)
    requires
        b <= INFINITY_BITS,
    ensures
        r == signed_pattern(negative, b as int),
        r.negative() == negative,
        r.unsigned() == b,
{
    if negative {
        F32 { bits: b + SIGN_UNIT }
    } else {
        F32 { bits: b }
    }
}

/// Rounds the sum or difference of two finite magnitudes, the first the larger.
fn combine(x: u32, y: u32, subtract: bool) -> (b: u32)
    requires
        y <= x < INFINITY_BITS,
    ensures
        b <= INFINITY_BITS,
        b == nearest(
            if subtract { magnitude(x as int) - magnitude(y as int) } else { magnitude(x as int) + magnitude(y as int) },
            1,
        ),
{
    let (mx, ex) = parts(x);
    let (my, ey) = parts(y);
    let ghost n = if subtract { magnitude(x as int) - magnitude(y as int) } else { magnitude(x as int) + magnitude(y as int) };
    let ghost cut = ratio_cut(n, 1);
    assert(ey <= ex);
    let gap: u32 = ex - ey;
    proof {
        if y < x {
            lemma_magnitude_monotone(y as int, x as int);
        }
        lemma_pow2_pos(ex as nat);
        lemma_pow2_pos(ey as nat);
        lemma2_to64();
        lemma2_to64_rest();
    }
    if gap <= 36 {
        let scale: u64 = two_to(gap);
        proof {
            lemma_pow2_adds(gap as nat, ey as nat);
            if gap < 36 {
                lemma_pow2_strictly_increases(gap as nat, 36);
            }
            let sx = mx * scale;
            let sc = scale as int;
            let py = pow2(ey as nat) as int;
            assert(0 <= sx <= 0x100_0000 * 0x10_0000_0000) by (nonlinear_arith)
                requires
                    0 <= mx < 0x100_0000,
                    0 < sc <= 0x10_0000_0000,
                    sx == mx * sc,
            ;
            assert(magnitude(x as int) == sx * py) by (nonlinear_arith)
                requires
                    magnitude(x as int) == mx * (sc * py),
                    sx == mx * sc,
            ;
            assert(my <= sx) by (nonlinear_arith)
                requires
                    my * py <= sx * py,
                    py > 0,
            ;
            assert(sx * py + my * py == (sx + my) * py) by (nonlinear_arith);
            assert(sx * py - my * py == (sx - my) * py) by (nonlinear_arith);
        }
        let base: u64 = mx * scale;
        let m: u64 = if subtract { base - my } else { base + my };
        proof {
            lemma_brackets_integer(m as int, ey as int);
        }
        let b: u32 = round_pack(m, ey as i32, false, Ghost(cut));
        proof {
            lemma_ratio_rounded(b as int, n, 1);
        }
        b
    } else {
        let base: u64 = mx * 256;
        let e: i32 = ex as i32 - 8;
        let sticky: bool = my != 0;
        let m: u64 = if subtract && sticky { base - 1 } else { base };
        proof {
            let pe = pow2(e as nat) as int;
            lemma_pow2_adds(8, e as nat);
            lemma_pow2_adds(24, ey as nat);
            lemma_pow2_pos(e as nat);
            assert(magnitude(x as int) == base * pe) by (nonlinear_arith)
                requires
                    magnitude(x as int) == mx * (256 * pe),
                    base == mx * 256,
            ;
            let y_value = magnitude(y as int);
            let py = pow2(ey as nat) as int;
            assert(0 <= y_value < 0x100_0000 * py) by (nonlinear_arith)
                requires
                    y_value == my * py,
                    0 <= my < 0x100_0000,
                    py > 0,
            ;
            assert(sticky ==> y_value > 0) by (nonlinear_arith)
                requires
                    y_value == my * py,
                    py > 0,
                    sticky ==> my > 0,
            ;
            if !sticky {
                assert(y_value == 0) by (nonlinear_arith)
                    requires
                        y_value == my * py,
                        my == 0,
                ;
            }
            lemma_pow2_strictly_increases((24 + ey) as nat, e as nat);
            assert(y_value < pe);
            assert(up_scale(e as int) == pe);
            assert(down_scale(e as int) == 1);
            let mm = m as int;
            assert(mm * pe * 1 == mm * pe) by (nonlinear_arith);
            assert((mm + 1) * pe * 1 == mm * pe + pe) by (nonlinear_arith);
            assert((base - 1) * pe == base * pe - pe) by (nonlinear_arith);
            assert(n * 1 == n);
            lemma_brackets_ratio(n, 1, mm, e as int, sticky);
        }
        let b: u32 = round_pack(m, e, sticky, Ghost(cut));
        proof {
            lemma_ratio_rounded(b as int, n, 1);
        }
        b
    }
}

impl F32 {
    /// Positive zero.
    pub fn zero_value() -> (r: F32)
        ensures
            r.bits == 0,
    {
        F32 { bits: 0 }
    }

    pub(crate) fn magnitude_bits(self) -> (b: u32)
        ensures
            b == self.unsigned(),
    {
        self.bits % SIGN_UNIT
    }

    pub(crate) fn sign_bit(self) -> (r: bool)
        ensures
            r == self.negative(),
    {
        self.bits >= SIGN_UNIT
    }

    /// Whether the value is NaN.
    pub fn is_nan(self) -> (r: bool)
        ensures
            r == self.nan(),
    {
        self.magnitude_bits() > INFINITY_BITS
    }

    /// Whether the value is neither infinite nor NaN.
    pub fn is_finite(self) -> (r: bool)
        ensures
            r == self.finite(),
    {
        self.magnitude_bits() < INFINITY_BITS
    }

    /// The value with its sign flipped.
    pub fn negate(self) -> (r: F32)
        ensures
            r == f_neg(self),
    {
        if self.bits >= SIGN_UNIT {
            F32 { bits: self.bits - SIGN_UNIT }
        } else {
            F32 { bits: self.bits + SIGN_UNIT }
        }
    }

    /// `self + other`.
    pub fn plus(self, other: F32) -> (r: F32)
        ensures
            r == f_add(self, other),
    {
        reveal(f_add);
        let x: u32 = self.magnitude_bits();
        let y: u32 = other.magnitude_bits();
        let sx: bool = self.sign_bit();
        let sy: bool = other.sign_bit();
        if x > INFINITY_BITS || y > INFINITY_BITS || (x == INFINITY_BITS && y == INFINITY_BITS && sx != sy) {
            F32 { bits: NAN_BITS }
        } else if x == INFINITY_BITS {
            self
        } else if y == INFINITY_BITS {
            other
        } else {
            proof {
                lemma_magnitude_nonneg(x as int);
                lemma_magnitude_nonneg(y as int);
                if x < y {
                    lemma_magnitude_monotone(x as int, y as int);
                } else if y < x {
                    lemma_magnitude_monotone(y as int, x as int);
                }
            }
            if x == y && sx != sy {
                F32 { bits: 0 }
            } else if x == 0 && y == 0 {
                with_sign(sx && sy, 0)
            } else if x >= y {
                with_sign(sx, combine(x, y, sx != sy))
            } else {
                with_sign(sy, combine(y, x, sx != sy))
            }
        }
    }

    /// `self - other`.
    pub fn minus(self, other: F32) -> (r: F32)
        ensures
            r == f_sub(self, other),
    {
        reveal(f_sub);
        if other.is_nan() {
            F32 { bits: NAN_BITS }
        } else {
            self.plus(other.negate())
        }
    }
}

/// Rounds the product of two finite magnitudes.
fn product(x: u32, y: u32) -> (b: u32)
    requires
        x < INFINITY_BITS,
        y < INFINITY_BITS,
    ensures
        b <= INFINITY_BITS,
        b == nearest(magnitude(x as int) * magnitude(y as int), pow2(149) as int),
{
    let (mx, ex) = parts(x);
    let (my, ey) = parts(y);
    let ghost n = magnitude(x as int) * magnitude(y as int);
    let ghost d = pow2(149) as int;
    let e: i32 = ex as i32 + ey as i32 - 149;
    assert(mx * my < 0x100_0000 * 0x100_0000) by (nonlinear_arith)
        requires
            0 <= mx < 0x100_0000,
            0 <= my < 0x100_0000,
    ;
    let m: u64 = mx * my;
    proof {
        let px = pow2(ex as nat) as int;
        let py = pow2(ey as nat) as int;
        let mm = m as int;
        let p = up_scale(e as int);
        let r = down_scale(e as int);
        lemma_pow2_pos(149);
        lemma_pow2_pos((if e > 0 { e as int } else { 0 }) as nat);
        lemma2_to64();
        lemma_pow2_adds(ex as nat, ey as nat);
        let pxy = pow2((ex + ey) as nat) as int;
        assert(n == mm * pxy) by (nonlinear_arith)
            requires
                n == (mx * px) * (my * py),
                mm == mx * my,
                pxy == px * py,
        ;
        lemma_pow2_adds(149, (if e > 0 { e as int } else { 0 }) as nat);
        lemma_pow2_adds((ex + ey) as nat, (if e < 0 { -e } else { 0 }) as nat);
        let pos = (if e > 0 { e as int } else { 0 }) as nat;
        let neg = (if e < 0 { -e } else { 0 }) as nat;
        assert(149 + pos == (ex + ey) as nat + neg);
        assert(p * d == d * p) by (nonlinear_arith);
        assert(p * d == pxy * r);
        assert(mm * p * d == n * r) by (nonlinear_arith)
            requires
                n == mm * pxy,
                p * d == pxy * r,
        ;
        assert((mm + 1) * p * d > mm * p * d) by (nonlinear_arith)
            requires
                p > 0,
                d > 0,
        ;
        lemma_brackets_ratio(n, d, mm, e as int, false);
    }
    let b: u32 = round_pack(m, e, false, Ghost(ratio_cut(n, d)));
    proof {
        lemma_ratio_rounded(b as int, n, d);
    }
    b
}

/// Scales a non-zero significand up to at least `floor`, a power of two: the
/// scaled value and the number of doublings.
fn normalise(m: u64, limit: u64) -> (r: (u64, u32))
    requires
        0 < m < 0x100_0000,
        0x100_0000 <= limit <= 0x2000_0000_0000_0000,
    ensures
        r.0 == m * pow2(r.1 as nat),
        limit <= r.0 < 2 * limit,
        r.1 <= 61,
{
    let mut scaled: u64 = m;
    let mut shift: u32 = 0;
    proof {
        lemma2_to64();
        lemma2_to64_rest();
        let one = pow2(0) as int;
        assert(m * one == m) by (nonlinear_arith)
            requires
                one == 1,
        ;
    }
    while scaled < limit
        invariant
            0 < m < 0x100_0000,
            0x100_0000 <= limit <= 0x2000_0000_0000_0000,
            scaled == m * pow2(shift as nat),
            scaled < 2 * limit,
            scaled >= 1,
            pow2(61) == 0x2000_0000_0000_0000,
            shift <= 61,
        decreases 2 * limit - scaled,
    {
        proof {
            lemma_pow2_unfold((shift + 1) as nat);
            let p = pow2(shift as nat) as int;
            assert(m * (2 * p) == 2 * (m * p)) by (nonlinear_arith);
            lemma_pow2_pos(shift as nat);
            assert(p <= m * p) by (nonlinear_arith)
                requires
                    m >= 1,
                    p > 0,
            ;
            if shift >= 61 {
                assert(false);
            }
        }
        scaled = scaled * 2;
        shift = shift + 1;
    }
    (scaled, shift)
}

/// Rounds the quotient of two finite magnitudes, neither zero.
fn quotient(x: u32, y: u32) -> (b: u32)
    requires
        0 < x < INFINITY_BITS,
        0 < y < INFINITY_BITS,
    ensures
        b <= INFINITY_BITS,
        b == nearest(magnitude(x as int) * pow2(149), magnitude(y as int)),
{
    let (mx, ex) = parts(x);
    let (my, ey) = parts(y);
    let ghost n = magnitude(x as int) * pow2(149);
    let ghost d = magnitude(y as int);
    let (scaled, shift) = normalise(mx, 0x2000_0000_0000_0000);
    let e: i32 = ex as i32 - ey as i32 + 149 - shift as i32;
    let m: u64 = scaled / my;
    let rest: u64 = scaled % my;
    let sticky: bool = rest != 0;
    proof {
        lemma_magnitude_nonneg(y as int);
        let sc = scaled as int;
        let q = m as int;
        let mv = my as int;
        assert(sc == q * mv + rest) by (nonlinear_arith)
            requires
                q == sc / mv,
                rest == sc % mv,
                mv > 0,
        ;
        assert(q >= 0x200_0000) by (nonlinear_arith)
            requires
                q * mv + rest >= 0x2000_0000_0000_0000,
                0 <= rest < mv,
                0 < mv < 0x100_0000,
        ;
        let p = up_scale(e as int);
        let r = down_scale(e as int);
        lemma2_to64();
        let pxe = pow2(ex as nat) as int;
        let pye = pow2(ey as nat) as int;
        let psh = pow2(shift as nat) as int;
        let w: int;
        if e >= 0 {
            // n == scaled * 2^(ex + 149 - shift), p * d == my * that.
            let j = (ex + 149 - shift) as nat;
            w = pow2(j) as int;
            lemma_pow2_adds(shift as nat, j);
            lemma_pow2_adds(ex as nat, 149);
            lemma_pow2_adds(e as nat, ey as nat);
            assert(n == sc * w) by (nonlinear_arith)
                requires
                    n == (mx * pxe) * pow2(149),
                    sc == mx * psh,
                    psh * w == pxe * pow2(149),
            ;
            assert(n * r == sc * w) by (nonlinear_arith)
                requires
                    n == sc * w,
                    r == 1,
            ;
            assert(p * d == mv * w) by (nonlinear_arith)
                requires
                    d == mv * pye,
                    p * pye == w,
            ;
        } else {
            w = pye;
            lemma_pow2_adds((ex + 149) as nat, (-e) as nat);
            lemma_pow2_adds(ex as nat, 149);
            lemma_pow2_adds(ey as nat, shift as nat);
            assert(n * r == sc * w) by (nonlinear_arith)
                requires
                    n == (mx * pxe) * pow2(149),
                    sc == mx * psh,
                    (pxe * pow2(149)) * r == pye * psh,
                    w == pye,
            ;
            assert(p * d == mv * w) by (nonlinear_arith)
                requires
                    d == mv * pye,
                    p == 1,
                    w == pye,
            ;
        }
        lemma_pow2_pos(ey as nat);
        if e >= 0 {
            lemma_pow2_pos((ex + 149 - shift) as nat);
        }
        assert(q * p * d == (q * mv) * w) by (nonlinear_arith)
            requires
                p * d == mv * w,
        ;
        assert((q + 1) * p * d == (q * mv + mv) * w) by (nonlinear_arith)
            requires
                p * d == mv * w,
        ;
        assert((q * mv) * w <= sc * w) by (nonlinear_arith)
            requires
                q * mv <= sc,
                w > 0,
        ;
        if sticky {
            assert((q * mv) * w < sc * w) by (nonlinear_arith)
                requires
                    q * mv < sc,
                    w > 0,
            ;
        }
        assert(sc * w < (q * mv + mv) * w) by (nonlinear_arith)
            requires
                sc < q * mv + mv,
                w > 0,
        ;
        assert(q < 0x4000_0000_0000_0000) by (nonlinear_arith)
            requires
                q * mv + rest < 0x4000_0000_0000_0000,
                rest >= 0,
                mv >= 1,
                q >= 0,
        ;
        lemma_brackets_ratio(n, d, q, e as int, sticky);
    }
    let b: u32 = round_pack(m, e, sticky, Ghost(ratio_cut(n, d)));
    proof {
        lemma_ratio_rounded(b as int, n, d);
    }
    b
}

/// The integer part of a square root.
fn integer_root(x: u64) -> (r: u64)
    requires
        x < 0x40_0000_0000_0000,
    ensures
        r * r <= x < (r + 1) * (r + 1),
        r < 0x800_0000,
{
    let mut low: u64 = 0;
    let mut high: u64 = 0x800_0000;
    assert(high * high > x) by (nonlinear_arith)
        requires
            high == 0x800_0000,
            x < 0x40_0000_0000_0000,
    ;
    while high - low > 1
        invariant
            low < high <= 0x800_0000,
            low * low <= x < high * high,
        decreases high - low,
    {
        let mid: u64 = low + (high - low) / 2;
        assert(mid * mid <= 0x800_0000 * 0x800_0000) by (nonlinear_arith)
            requires
                0 <= mid <= 0x800_0000,
        ;
        if mid * mid <= x {
            low = mid;
        } else {
            high = mid;
        }
    }
    assert(high == low + 1);
    low
}

/// Rounds the square root of a finite, non-zero magnitude.
fn root(x: u32) -> (b: u32)
    requires
        0 < x < INFINITY_BITS,
    ensures
        b <= INFINITY_BITS,
        b == nearest_root(magnitude(x as int) * pow2(149)),
{
    let (mx, ex) = parts(x);
    let ghost n = magnitude(x as int) * pow2(149);
    let (first, first_shift) = normalise(mx, 0x10_0000_0000_0000);
    let odd: bool = (ex + 149 - first_shift) % 2 == 1;
    let scaled: u64 = if odd { first * 2 } else { first };
    let shift: u32 = if odd { first_shift + 1 } else { first_shift };
    let e: i32 = (ex as i32 + 149 - shift as i32) / 2;
    let m: u64 = integer_root(scaled);
    assert(m * m <= scaled < (m + 1) * (m + 1));
    assert(m * m <= 0x800_0000 * 0x800_0000) by (nonlinear_arith)
        requires
            0 <= m < 0x800_0000,
    ;
    let sticky: bool = m * m != scaled;
    proof {
        let mm = m as int;
        let sc = scaled as int;
        assert(mm >= 0x200_0000) by (nonlinear_arith)
            requires
                (mm + 1) * (mm + 1) > sc,
                sc >= 0x10_0000_0000_0000,
                mm >= 0,
        ;
        lemma_pow2_unfold((first_shift + 1) as nat);
        let psh = pow2(shift as nat) as int;
        assert(sc == mx * psh) by (nonlinear_arith)
            requires
                first == mx * pow2(first_shift as nat),
                odd ==> sc == first * 2 && psh == 2 * pow2(first_shift as nat),
                !odd ==> sc == first && psh == pow2(first_shift as nat),
        ;
        assert(2 * e == ex + 149 - shift);
        lemma2_to64();
        let p = pow2(e as nat) as int;
        lemma_pow2_pos(e as nat);
        lemma_pow2_adds(e as nat, e as nat);
        lemma_pow2_adds(shift as nat, (2 * e) as nat);
        lemma_pow2_adds(ex as nat, 149);
        let pxe = pow2(ex as nat) as int;
        assert(n == sc * (p * p)) by (nonlinear_arith)
            requires
                n == (mx * pxe) * pow2(149),
                sc == mx * psh,
                psh * (p * p) == pxe * pow2(149),
        ;
        assert(up_scale(e as int) == p);
        assert(down_scale(e as int) == 1);
        let pp = p * p;
        assert(pp > 0) by (nonlinear_arith)
            requires
                pp == p * p,
                p > 0,
        ;
        assert((mm * mm) * pp <= sc * pp < ((mm + 1) * (mm + 1)) * pp) by (nonlinear_arith)
            requires
                mm * mm <= sc < (mm + 1) * (mm + 1),
                pp > 0,
        ;
        assert(sticky ==> (mm * mm) * pp < sc * pp) by (nonlinear_arith)
            requires
                sticky ==> mm * mm < sc,
                pp > 0,
        ;
        assert(n * (1 * 1) == n) by (nonlinear_arith);
        lemma_brackets_root(n, mm, e as int, sticky);
    }
    let b: u32 = round_pack(m, e, sticky, Ghost(root_cut(n)));
    proof {
        lemma_root_rounded(b as int, n);
    }
    b
}

proof fn lemma_brackets_root(n: int, m: int, e: int, sticky: bool)
    requires
        m >= 0,
        (m * m) * (up_scale(e) * up_scale(e)) <= n * (down_scale(e) * down_scale(e)) < ((m + 1) * (m + 1)) * (up_scale(e)
            * up_scale(e)),
        sticky == ((m * m) * (up_scale(e) * up_scale(e)) != n * (down_scale(e) * down_scale(e))),
    ensures
        brackets(root_cut(n), m, e, sticky),
{
    let cut = root_cut(n);
    let p = up_scale(e);
    let r = down_scale(e);
    let pp = p * p;
    let rr = r * r;
    lemma_pow2_pos((if e < 0 { -e } else { 0 }) as nat);
    lemma_pow2_pos((if e > 0 { e } else { 0 }) as nat);
    assert(rr > 0) by (nonlinear_arith)
        requires
            rr == r * r,
            r > 0,
    ;
    assert forall|c: int| c >= 0 implies brackets_at(cut, #[trigger] cut(c), c, m, e, sticky) by {
        let start = 2 * m * p;
        let end = 2 * (m + 1) * p;
        let lhs = c * r;
        let v = c * c - 4 * n;
        let nr = n * rr;
        assert(v * rr == lhs * lhs - 4 * nr) by (nonlinear_arith)
            requires
                v == c * c - 4 * n,
                lhs == c * r,
                rr == r * r,
                nr == n * rr,
        ;
        assert(start * start == 4 * ((m * m) * pp)) by (nonlinear_arith)
            requires
                start == 2 * m * p,
                pp == p * p,
        ;
        assert(end * end == 4 * (((m + 1) * (m + 1)) * pp)) by (nonlinear_arith)
            requires
                end == 2 * (m + 1) * p,
                pp == p * p,
        ;
        assert(start >= 0 && end >= 0) by (nonlinear_arith)
            requires
                start == 2 * m * p,
                end == 2 * (m + 1) * p,
                m >= 0,
                p > 0,
        ;
        assert(lhs >= 0) by (nonlinear_arith)
            requires
                lhs == c * r,
                c >= 0,
                r > 0,
        ;
        assert(lhs < start ==> lhs * lhs < start * start) by (nonlinear_arith)
            requires
                lhs >= 0,
                start >= 0,
        ;
        assert(lhs > start ==> lhs * lhs > start * start) by (nonlinear_arith)
            requires
                lhs >= 0,
                start >= 0,
        ;
        assert(lhs == start ==> lhs * lhs == start * start);
        assert(lhs >= end ==> lhs * lhs >= end * end) by (nonlinear_arith)
            requires
                lhs >= 0,
                end >= 0,
        ;
        assert(v * rr < 0 ==> v < 0) by (nonlinear_arith)
            requires
                rr > 0,
        ;
        assert(v * rr > 0 ==> v > 0) by (nonlinear_arith)
            requires
                rr > 0,
        ;
        assert(v * rr == 0 ==> v == 0) by (nonlinear_arith)
            requires
                rr > 0,
        ;
    }
}

impl F32 {
    /// `self * other`.
    pub fn times(self, other: F32) -> (r: F32)
        ensures
            r == f_mul(self, other),
    {
        reveal(f_mul);
        let x: u32 = self.magnitude_bits();
        let y: u32 = other.magnitude_bits();
        let negative: bool = self.sign_bit() != other.sign_bit();
        if x > INFINITY_BITS || y > INFINITY_BITS || (x == INFINITY_BITS && y == 0) || (x == 0 && y
            == INFINITY_BITS) {
            F32 { bits: NAN_BITS }
        } else if x == INFINITY_BITS || y == INFINITY_BITS {
            with_sign(negative, INFINITY_BITS)
        } else {
            with_sign(negative, product(x, y))
        }
    }

    /// `self / other`.
    pub fn over(self, other: F32) -> (r: F32)
        ensures
            r == f_div(self, other),
    {
        reveal(f_div);
        let x: u32 = self.magnitude_bits();
        let y: u32 = other.magnitude_bits();
        let negative: bool = self.sign_bit() != other.sign_bit();
        if x > INFINITY_BITS || y > INFINITY_BITS || (x == INFINITY_BITS && y == INFINITY_BITS) || (x == 0
            && y == 0) {
            F32 { bits: NAN_BITS }
        } else if x == INFINITY_BITS || y == 0 {
            with_sign(negative, INFINITY_BITS)
        } else if y == INFINITY_BITS {
            with_sign(negative, 0)
        } else if x == 0 {
            proof {
                lemma_magnitude_nonneg(y as int);
                let d = magnitude(y as int);
                assert(magnitude(0) == 0);
                assert(magnitude(1) == 1);
                assert(0 * pow2(149) == 0) by (nonlinear_arith);
                assert(rounds_to(0, 0, d)) by {
                    assert((0 + 1) * d > 0) by (nonlinear_arith)
                        requires
                            d > 0,
                    ;
                }
                lemma_nearest(0, 0, d);
            }
            with_sign(negative, 0)
        } else {
            with_sign(negative, quotient(x, y))
        }
    }

    /// The square root.
    pub fn sqrt(self) -> (r: F32)
        ensures
            r == f_sqrt(self),
    {
        reveal(f_sqrt);
        let x: u32 = self.magnitude_bits();
        if x > INFINITY_BITS {
            F32 { bits: NAN_BITS }
        } else if x == 0 {
            self
        } else if self.sign_bit() {
            F32 { bits: NAN_BITS }
        } else if x == INFINITY_BITS {
            self
        } else {
            with_sign(false, root(x))
        }
    }

    /// Position among non-NaN values: grows with the value.
    pub fn order_key(self) -> (k: i64)
        ensures
            k == self.order(),
    {
        if self.sign_bit() {
            -(self.magnitude_bits() as i64)
        } else {
            self.magnitude_bits() as i64
        }
    }

    /// `self < other`.
    pub fn lt(self, other: F32) -> (r: bool)
        ensures
            r == f_lt(self, other),
    {
        !self.is_nan() && !other.is_nan() && self.order_key() < other.order_key()
    }

    /// `self <= other`.
    pub fn le(self, other: F32) -> (r: bool)
        ensures
            r == f_le(self, other),
    {
        !self.is_nan() && !other.is_nan() && self.order_key() <= other.order_key()
    }

    /// Numeric equality.
    pub fn eq_value(self, other: F32) -> (r: bool)
        ensures
            r == f_eq(self, other),
    {
        !self.is_nan() && !other.is_nan() && self.order_key() == other.order_key()
    }
}

/// On finite values the order is that of the values.
pub proof fn lemma_order_is_value_order(a: F32, b: F32)
    requires
        a.finite(),
        b.finite(),
    ensures
        f_lt(a, b) <==> a.value() < b.value(),
        f_le(a, b) <==> a.value() <= b.value(),
        f_eq(a, b) <==> a.value() == b.value(),
{
    let x = a.unsigned();
    let y = b.unsigned();
    lemma_magnitude_nonneg(x);
    lemma_magnitude_nonneg(y);
    if x < y {
        lemma_magnitude_monotone(x, y);
    } else if y < x {
        lemma_magnitude_monotone(y, x);
    }
    assert(magnitude(0) == 0);
}

/// The integer part of a finite value, rounded towards negative infinity.
pub open spec fn floor_int(a: F32) -> int {
    a.value() / (pow2(149) as int)
}

/// The nearest integer to a finite value, halves away from zero.
pub open spec fn round_int(a: F32) -> int {
    let whole = (2 * magnitude(a.unsigned()) + pow2(149)) / (2 * pow2(149) as int);
    if a.negative() { -whole } else { whole }
}

/// The integer part of a finite value, rounded towards zero.
pub open spec fn trunc_int(a: F32) -> int {
    let whole = magnitude(a.unsigned()) / (pow2(149) as int);
    if a.negative() { -whole } else { whole }
}

/// `x` brought into a range.
pub open spec fn clamp_int(x: int, low: int, high: int) -> int {
    if x < low { low } else if x > high { high } else { x }
}

/// A conversion to an integer range: an infinity goes to the end on its side
/// and NaN to zero.
pub open spec fn saturate(a: F32, whole: int, low: int, high: int) -> int {
    if a.nan() {
        0
    } else if a.infinite() {
        if a.negative() { low } else { high }
    } else {
        clamp_int(whole, low, high)
    }
}

/// The nearest integer to the value, halves away from zero, as a value.
#[verifier::opaque]
pub open spec fn f_round(a: F32) -> F32 {
    if a.finite() {
        signed_pattern(a.negative(), nearest(abs_int(round_int(a)) * pow2(149), 1))
    } else {
        a
    }
}

pub open spec fn f_abs(a: F32) -> F32 {
    F32 { bits: a.unsigned() as u32 }
}

/// The smaller operand; a NaN yields to the other operand.
pub open spec fn f_min(a: F32, b: F32) -> F32 {
    if a.nan() || f_lt(b, a) { b } else { a }
}

/// The larger operand; a NaN yields to the other operand.
pub open spec fn f_max(a: F32, b: F32) -> F32 {
    if a.nan() || f_lt(a, b) { b } else { a }
}

/// The cell of `0..count` that a position falls in, positions outside going to
/// the nearest cell and NaN to the first.
#[verifier::opaque]
pub open spec fn cell_of(a: F32, count: int) -> int {
    saturate(a, floor_int(a), 0, count - 1)
}

/// Whole part of a finite magnitude (2^63 when it is at least that), whether
/// the rest is at least one half, and whether there is no rest.
fn whole_and_rest(b: u32) -> (r: (u64, bool, bool))
    requires
        b < INFINITY_BITS,
    ensures
        r.0 == clamp_int(magnitude(b as int) / (pow2(149) as int), 0, 0x8000_0000_0000_0000),
        r.1 == (2 * (magnitude(b as int) % (pow2(149) as int)) >= pow2(149)),
        r.2 == (magnitude(b as int) % (pow2(149) as int) == 0),
{
    let (m, e) = parts(b);
    let ghost u = pow2(149) as int;
    let ghost v = magnitude(b as int);
    let ghost mi = m as int;
    proof {
        lemma_pow2_pos(149);
        lemma2_to64();
        lemma2_to64_rest();
    }
    if e >= 149 {
        let up: u32 = e - 149;
        proof {
            lemma_pow2_adds(149, up as nat);
            let p = pow2(up as nat) as int;
            lemma_pow2_pos(up as nat);
            assert(v == (mi * p) * u) by (nonlinear_arith)
                requires
                    v == mi * (u * p),
            ;
            vstd::arithmetic::div_mod::lemma_fundamental_div_mod_converse(v, u, mi * p, 0);
            if up >= 40 {
                if up > 40 {
                    lemma_pow2_strictly_increases(40, up as nat);
                }
                assert(mi * p >= 0x8000_0000_0000_0000) by (nonlinear_arith)
                    requires
                        mi >= 0x80_0000,
                        p >= 0x100_0000_0000,
                ;
            } else {
                if up < 39 {
                    lemma_pow2_strictly_increases(up as nat, 39);
                }
                assert(mi * p <= 0xff_ffff * 0x80_0000_0000) by (nonlinear_arith)
                    requires
                        0 <= mi <= 0xff_ffff,
                        0 < p <= 0x80_0000_0000,
                ;
                assert(mi * p >= 0) by (nonlinear_arith)
                    requires
                        0 <= mi,
                        0 < p,
                ;
            }
        }
        if up >= 40 {
            (0x8000_0000_0000_0000, false, true)
        } else {
            (m * two_to(up), false, true)
        }
    } else {
        let down: u32 = 149 - e;
        proof {
            lemma_pow2_adds(e as nat, down as nat);
            lemma_pow2_pos(e as nat);
            lemma_pow2_pos(down as nat);
        }
        let ghost p = pow2(e as nat) as int;
        let ghost k = pow2(down as nat) as int;
        if down >= 25 {
            proof {
                if down > 25 {
                    lemma_pow2_strictly_increases(25, down as nat);
                }
                assert(0 <= 2 * v < u) by (nonlinear_arith)
                    requires
                        v == mi * p,
                        u == p * k,
                        k >= 0x200_0000,
                        0 <= mi < 0x100_0000,
                        p > 0,
                ;
                vstd::arithmetic::div_mod::lemma_fundamental_div_mod_converse(v, u, 0, v);
                assert(mi > 0 ==> v > 0) by (nonlinear_arith)
                    requires
                        v == mi * p,
                        p > 0,
                ;
                if m == 0 {
                    assert(v == 0) by (nonlinear_arith)
                        requires
                            v == mi * p,
                            mi == 0,
                    ;
                }
            }
            (0, false, m == 0)
        } else {
            let unit: u64 = two_to(down);
            let whole: u64 = m / unit;
            let rest: u64 = m % unit;
            proof {
                let w = whole as int;
                let t = rest as int;
                assert(mi == w * k + t) by (nonlinear_arith)
                    requires
                        w == mi / k,
                        t == mi % k,
                        k > 0,
                ;
                assert(v == u * w + t * p) by (nonlinear_arith)
                    requires
                        v == mi * p,
                        mi == w * k + t,
                        u == p * k,
                ;
                assert(0 <= t * p < u) by (nonlinear_arith)
                    requires
                        0 <= t < k,
                        p > 0,
                        u == p * k,
                ;
                assert(w * u == u * w) by (nonlinear_arith);
                vstd::arithmetic::div_mod::lemma_fundamental_div_mod_converse(v, u, w, t * p);
                lemma_pow2_unfold(down as nat);
                let h = pow2((down - 1) as nat) as int;
                assert(2 * (t * p) >= u <==> t >= h) by (nonlinear_arith)
                    requires
                        u == p * (2 * h),
                        p > 0,
                ;
                assert(t * p == 0 <==> t == 0) by (nonlinear_arith)
                    requires
                        p > 0,
                        t >= 0,
                ;
                assert(w <= mi) by (nonlinear_arith)
                    requires
                        mi == w * k + t,
                        t >= 0,
                        k >= 1,
                        w >= 0,
                ;
            }
            (whole, rest >= unit / 2, rest == 0)
        }
    }
}

proof fn lemma_round_from_parts(v: int, u: int)
    requires
        u > 0,
        v >= 0,
    ensures
        (2 * v + u) / (2 * u) == v / u + (if 2 * (v % u) >= u { 1int } else { 0int }),
{
    let w = v / u;
    let t = v % u;
    assert(v == w * u + t && 0 <= t < u) by (nonlinear_arith)
        requires
            w == v / u,
            t == v % u,
            u > 0,
    ;
    if 2 * t >= u {
        assert(2 * v + u == (w + 1) * (2 * u) + (2 * t - u)) by (nonlinear_arith)
            requires
                v == w * u + t,
        ;
        vstd::arithmetic::div_mod::lemma_fundamental_div_mod_converse(2 * v + u, 2 * u, w + 1, 2 * t - u);
    } else {
        assert(2 * v + u == w * (2 * u) + (2 * t + u)) by (nonlinear_arith)
            requires
                v == w * u + t,
        ;
        vstd::arithmetic::div_mod::lemma_fundamental_div_mod_converse(2 * v + u, 2 * u, w, 2 * t + u);
    }
}

proof fn lemma_floor_of_negative(v: int, u: int)
    requires
        u > 0,
        v >= 0,
    ensures
        (-v) / u == -(v / u) - (if v % u == 0 { 0int } else { 1int }),
{
    let w = v / u;
    let t = v % u;
    assert(v == w * u + t && 0 <= t < u) by (nonlinear_arith)
        requires
            w == v / u,
            t == v % u,
            u > 0,
    ;
    if t == 0 {
        assert(-v == (-w) * u + 0) by (nonlinear_arith)
            requires
                v == w * u + t,
                t == 0,
        ;
        vstd::arithmetic::div_mod::lemma_fundamental_div_mod_converse(-v, u, -w, 0);
    } else {
        assert(-v == (-w - 1) * u + (u - t)) by (nonlinear_arith)
            requires
                v == w * u + t,
        ;
        vstd::arithmetic::div_mod::lemma_fundamental_div_mod_converse(-v, u, -w - 1, u - t);
    }
}

proof fn lemma_small_product_rounds(b: int)
    requires
        0 <= b < INFINITY_BITS,
    ensures
        nearest(magnitude(b), 1) == b,
{
    lemma_magnitude_step(b);
    if b > 0 {
        lemma_magnitude_step(b - 1);
    }
    assert(rounds_to(b, magnitude(b), 1));
    lemma_nearest(b, magnitude(b), 1);
}

impl F32 {
    /// `self.floor()` as an integer.
    pub fn floor_i64(self) -> (r: i64)
        ensures
            r == saturate(self, floor_int(self), i64::MIN as int, i64::MAX as int),
    {
        let b: u32 = self.magnitude_bits();
        if b > INFINITY_BITS {
            return 0;
        }
        let negative: bool = self.sign_bit();
        if b == INFINITY_BITS {
            return if negative { i64::MIN } else { i64::MAX };
        }
        let (whole, _, exact) = whole_and_rest(b);
        proof {
            lemma_pow2_pos(149);
            lemma_magnitude_nonneg(b as int);
            lemma_floor_of_negative(magnitude(b as int), pow2(149) as int);
            assert(magnitude(b as int) / (pow2(149) as int) >= 0) by (nonlinear_arith)
                requires
                    magnitude(b as int) >= 0,
                    pow2(149) > 0,
            ;
        }
        if negative {
            if whole >= 0x8000_0000_0000_0000 {
                i64::MIN
            } else if exact {
                -(whole as i64)
            } else {
                -(whole as i64) - 1
            }
        } else if whole >= 0x8000_0000_0000_0000 {
            i64::MAX
        } else {
            whole as i64
        }
    }

    /// `self.round()` as an integer.
    pub fn round_i64(self) -> (r: i64)
        ensures
            r == saturate(self, round_int(self), i64::MIN as int, i64::MAX as int),
    {
        let b: u32 = self.magnitude_bits();
        if b > INFINITY_BITS {
            return 0;
        }
        let negative: bool = self.sign_bit();
        if b == INFINITY_BITS {
            return if negative { i64::MIN } else { i64::MAX };
        }
        let (whole, half, _) = whole_and_rest(b);
        proof {
            lemma_pow2_pos(149);
            lemma_magnitude_nonneg(b as int);
            lemma_round_from_parts(magnitude(b as int), pow2(149) as int);
            assert(magnitude(b as int) / (pow2(149) as int) >= 0) by (nonlinear_arith)
                requires
                    magnitude(b as int) >= 0,
                    pow2(149) > 0,
            ;
        }
        let rounded: u64 = if half { whole + 1 } else { whole };
        if negative {
            if rounded >= 0x8000_0000_0000_0000 {
                i64::MIN
            } else {
                -(rounded as i64)
            }
        } else if rounded >= 0x8000_0000_0000_0000 {
            i64::MAX
        } else {
            rounded as i64
        }
    }

    /// `self` as an integer, towards zero.
    pub fn trunc_i64(self) -> (r: i64)
        ensures
            r == saturate(self, trunc_int(self), i64::MIN as int, i64::MAX as int),
    {
        let b: u32 = self.magnitude_bits();
        if b > INFINITY_BITS {
            return 0;
        }
        let negative: bool = self.sign_bit();
        if b == INFINITY_BITS {
            return if negative { i64::MIN } else { i64::MAX };
        }
        let (whole, _, _) = whole_and_rest(b);
        proof {
            lemma_pow2_pos(149);
            lemma_magnitude_nonneg(b as int);
            assert(magnitude(b as int) / (pow2(149) as int) >= 0) by (nonlinear_arith)
                requires
                    magnitude(b as int) >= 0,
                    pow2(149) > 0,
            ;
        }
        if whole >= 0x8000_0000_0000_0000 {
            if negative { i64::MIN } else { i64::MAX }
        } else if negative {
            -(whole as i64)
        } else {
            whole as i64
        }
    }

    /// The nearest value to an integer.
    pub fn from_i64(x: i64) -> (r: F32)
        requires
            -0x4000_0000_0000_0000 < x < 0x4000_0000_0000_0000,
        ensures
            r == f_from_int(x as int),
    {
        reveal(f_from_int);
        let m: u64 = if x < 0 { (-x) as u64 } else { x as u64 };
        proof {
            lemma_brackets_integer(m as int, 149);
        }
        let ghost n = m * pow2(149);
        let b: u32 = round_pack(m, 149, false, Ghost(ratio_cut(n, 1)));
        proof {
            lemma_ratio_rounded(b as int, n, 1);
        }
        with_sign(x < 0, b)
    }

    /// `self.round()`.
    pub fn round(self) -> (r: F32)
        ensures
            r == f_round(self),
    {
        reveal(f_round);
        let b: u32 = self.magnitude_bits();
        if b >= INFINITY_BITS {
            return self;
        }
        let negative: bool = self.sign_bit();
        let (whole, half, exact) = whole_and_rest(b);
        proof {
            lemma_pow2_pos(149);
            lemma_magnitude_nonneg(b as int);
            lemma_round_from_parts(magnitude(b as int), pow2(149) as int);
            assert(magnitude(b as int) / (pow2(149) as int) >= 0) by (nonlinear_arith)
                requires
                    magnitude(b as int) >= 0,
                    pow2(149) > 0,
            ;
        }
        if exact {
            proof {
                let v = magnitude(b as int);
                let u = pow2(149) as int;
                assert(v == (v / u) * u) by (nonlinear_arith)
                    requires
                        v % u == 0,
                        u > 0,
                ;
                lemma_small_product_rounds(b as int);
                assert(abs_int(round_int(self)) == v / u);
            }
            with_sign(negative, b)
        } else {
            proof {
                lemma_inexact_is_small(b);
            }
            let m: u64 = if half { whole + 1 } else { whole };
            proof {
                lemma_brackets_integer(m as int, 149);
            }
            let ghost n = m * pow2(149);
            let c: u32 = round_pack(m, 149, false, Ghost(ratio_cut(n, 1)));
            proof {
                lemma_ratio_rounded(c as int, n, 1);
            }
            with_sign(negative, c)
        }
    }

    /// The magnitude.
    pub fn abs(self) -> (r: F32)
        ensures
            r == f_abs(self),
    {
        F32 { bits: self.magnitude_bits() }
    }

    /// The smaller of two values.
    pub fn min(self, other: F32) -> (r: F32)
        ensures
            r == f_min(self, other),
    {
        if self.is_nan() || other.lt(self) { other } else { self }
    }

    /// The larger of two values.
    pub fn max(self, other: F32) -> (r: F32)
        ensures
            r == f_max(self, other),
    {
        if self.is_nan() || self.lt(other) { other } else { self }
    }

    /// The cell of `0..count` that the position falls in.
    pub fn cell(self, count: u32) -> (r: u32)
        requires
            count > 0,
        ensures
            r == cell_of(self, count as int),
            r < count,
    {
        reveal(cell_of);
        let x: i64 = self.floor_i64();
        if x < 0 {
            0
        } else if x > (count - 1) as i64 {
            count - 1
        } else {
            x as u32
        }
    }
}

/// A value with a fraction is below 2^23.
proof fn lemma_inexact_is_small(b: u32)
    requires
        b < INFINITY_BITS,
        magnitude(b as int) % (pow2(149) as int) != 0,
    ensures
        magnitude(b as int) / (pow2(149) as int) < 0x100_0000,
{
    let u = pow2(149) as int;
    let e = b as int / 0x80_0000;
    let v = magnitude(b as int);
    lemma_pow2_pos(149);
    let m = b as int % 0x80_0000;
    if e == 0 {
        assert(v / u <= v) by (nonlinear_arith)
            requires
                v >= 0,
                u >= 1,
        ;
    } else if e - 1 >= 149 {
        lemma_pow2_adds(149, (e - 1 - 149) as nat);
        let p = pow2((e - 1 - 149) as nat) as int;
        assert(v == ((0x80_0000 + m) * p) * u) by (nonlinear_arith)
            requires
                v == (0x80_0000 + m) * (u * p),
        ;
        vstd::arithmetic::div_mod::lemma_fundamental_div_mod_converse(v, u, (0x80_0000 + m) * p, 0);
    } else {
        lemma_pow2_strictly_increases((e - 1) as nat, 149);
        lemma_pow2_pos((e - 1) as nat);
        let p = pow2((e - 1) as nat) as int;
        assert(v < 0x100_0000 * u) by (nonlinear_arith)
            requires
                v == (0x80_0000 + m) * p,
                m < 0x80_0000,
                0 < p < u,
        ;
        assert(v / u < 0x100_0000) by (nonlinear_arith)
            requires
                v < 0x100_0000 * u,
                u > 0,
        ;
    }
}

/// Zero times a finite value is zero.
pub proof fn lemma_zero_product(a: F32, b: F32)
    requires
        a.zero(),
        b.finite(),
    ensures
        f_mul(a, b) == signed_pattern(a.negative() != b.negative(), 0),
        f_mul(a, b).zero(),
{
    reveal(f_mul);
    lemma_magnitude_nonneg(b.unsigned());
    let d = pow2(149) as int;
    lemma_pow2_pos(149);
    assert(magnitude(0) == 0);
    assert(magnitude(1) == 1);
    assert(0 * magnitude(b.unsigned()) == 0) by (nonlinear_arith);
    assert(rounds_to(0, 0, d)) by {
        assert((0 + 1) * d > 0) by (nonlinear_arith)
            requires
                d > 0,
        ;
    }
    lemma_nearest(0, 0, d);
}

/// Zero rounds to zero.
pub proof fn lemma_zero_rounds(a: F32)
    requires
        a.zero(),
    ensures
        round_int(a) == 0,
{
    lemma_pow2_pos(149);
    lemma_round_from_parts(0, pow2(149) as int);
    assert(magnitude(0) == 0);
    assert(0int / (pow2(149) as int) == 0) by (nonlinear_arith)
        requires
            pow2(149) > 0,
    ;
    assert(0int % (pow2(149) as int) == 0) by (nonlinear_arith)
        requires
            pow2(149) > 0,
    ;
}

/// Distance from the origin: the exact distance, rounded.
#[verifier::opaque]
pub open spec fn f_hypot(a: F32, b: F32) -> F32 {
    if a.infinite() || b.infinite() {
        F32 { bits: INFINITY_BITS }
    } else if a.nan() || b.nan() {
        nan_value()
    } else {
        let x = magnitude(a.unsigned());
        let y = magnitude(b.unsigned());
        signed_pattern(false, nearest_root(x * x + y * y))
    }
}

/// The integer part of a wide square root.
fn wide_integer_root(x: u128) -> (r: u64)
    requires
        x < 0x1000_0000_0000_0000_0000_0000_0000_0000,
    ensures
        r * r <= x < (r + 1) * (r + 1),
        r < 0x4000_0000_0000_0000,
{
    let mut low: u64 = 0;
    let mut high: u64 = 0x4000_0000_0000_0000;
    assert(high * high > x) by (nonlinear_arith)
        requires
            high == 0x4000_0000_0000_0000,
            x < 0x1000_0000_0000_0000_0000_0000_0000_0000,
    ;
    while high - low > 1
        invariant
            low < high <= 0x4000_0000_0000_0000,
            low * low <= x < high * high,
        decreases high - low,
    {
        let mid: u64 = low + (high - low) / 2;
        assert(mid * mid <= 0x4000_0000_0000_0000 * 0x4000_0000_0000_0000) by (nonlinear_arith)
            requires
                0 <= mid <= 0x4000_0000_0000_0000,
        ;
        let square: u128 = mid as u128 * mid as u128;
        if square <= x {
            low = mid;
        } else {
            high = mid;
        }
    }
    assert(high == low + 1);
    low
}

/// Brings a sum of squares up by powers of four until its root has enough
/// digits.
fn normalise_square(x: u128) -> (r: (u128, u32))
    requires
        0 < x < 0x1000_0000_0000_0000_0000_0000_0000_0000,
    ensures
        r.0 == x * (pow2(r.1 as nat) * pow2(r.1 as nat)),
        0x10_0000_0000_0000 <= r.0 < 0x1000_0000_0000_0000_0000_0000_0000_0000,
        r.1 <= 26,
{
    let mut scaled: u128 = x;
    let mut shift: u32 = 0;
    proof {
        lemma2_to64();
        let one = pow2(0) as int;
        assert(x * (one * one) == x) by (nonlinear_arith)
            requires
                one == 1,
        ;
    }
    while scaled < 0x10_0000_0000_0000
        invariant
            0 < x,
            scaled == x * (pow2(shift as nat) * pow2(shift as nat)),
            1 <= scaled < 0x1000_0000_0000_0000_0000_0000_0000_0000,
            shift <= 26,
            pow2(26) == 0x400_0000,
        decreases 26 - shift,
    {
        proof {
            lemma_pow2_unfold((shift + 1) as nat);
            let p = pow2(shift as nat) as int;
            assert(x * ((2 * p) * (2 * p)) == 4 * (x * (p * p))) by (nonlinear_arith);
            lemma_pow2_pos(shift as nat);
            assert(p * p <= x * (p * p)) by (nonlinear_arith)
                requires
                    x >= 1,
                    p > 0,
            ;
            if shift == 26 {
                assert(p * p == 0x400_0000 * 0x400_0000) by (nonlinear_arith)
                    requires
                        p == 0x400_0000,
                ;
                assert(false);
            }
        }
        scaled = scaled * 4;
        shift = shift + 1;
    }
    (scaled, shift)
}

/// Rounds the root of the sum of the squares of two finite magnitudes, the
/// first the larger and not zero.
fn hypotenuse(x: u32, y: u32) -> (b: u32)
    requires
        y <= x,
        0 < x < INFINITY_BITS,
    ensures
        b <= INFINITY_BITS,
        b == nearest_root(
            magnitude(x as int) * magnitude(x as int) + magnitude(y as int) * magnitude(y as int),
        ),
{
    let (mx, ex) = parts(x);
    let (my, ey) = parts(y);
    let ghost vx = magnitude(x as int);
    let ghost vy = magnitude(y as int);
    let ghost n = vx * vx + vy * vy;
    assert(ey <= ex);
    let gap: u32 = ex - ey;
    assert(0 <= mx * mx < 0x1_0000_0000_0000 && 0 <= my * my < 0x1_0000_0000_0000) by (nonlinear_arith)
        requires
            0 <= mx < 0x100_0000,
            0 <= my < 0x100_0000,
    ;
    let sx: u128 = mx as u128 * mx as u128;
    let sy: u128 = my as u128 * my as u128;
    proof {
        lemma2_to64();
        lemma2_to64_rest();
        assert(sx > 0) by (nonlinear_arith)
            requires
                sx == mx * mx,
                mx > 0,
        ;
    }
    if gap <= 37 {
        let scale: u64 = two_to(gap);
        let ghost g = scale as int;
        proof {
            if gap < 37 {
                lemma_pow2_strictly_increases(gap as nat, 37);
            }
            assert(0 < g * g <= 0x20_0000_0000 * 0x20_0000_0000) by (nonlinear_arith)
                requires
                    0 < g <= 0x20_0000_0000,
            ;
            assert(sx * (g * g) <= 0x1_0000_0000_0000 * (0x20_0000_0000 * 0x20_0000_0000)) by (nonlinear_arith)
                requires
                    0 <= sx <= 0x1_0000_0000_0000,
                    0 < g * g <= 0x20_0000_0000 * 0x20_0000_0000,
            ;
            assert(sx <= sx * (g * g)) by (nonlinear_arith)
                requires
                    sx >= 0,
                    g * g >= 1,
            ;
        }
        let squared: u128 = scale as u128 * scale as u128;
        let sum: u128 = sx * squared + sy;
        let (scaled, shift) = normalise_square(sum);
        let e: i32 = ey as i32 - shift as i32;
        let m: u64 = wide_integer_root(scaled);
        assert(m * m <= 0x4000_0000_0000_0000 * 0x4000_0000_0000_0000) by (nonlinear_arith)
            requires
                0 <= m < 0x4000_0000_0000_0000,
        ;
        let sticky: bool = m as u128 * m as u128 != scaled;
        proof {
            let mm = m as int;
            let sc = scaled as int;
            assert(mm >= 0x200_0000) by (nonlinear_arith)
                requires
                    (mm + 1) * (mm + 1) > sc,
                    sc >= 0x10_0000_0000_0000,
                    mm >= 0,
            ;
            // n == sum * 2^(2 ey), scaled == sum * 2^(2 shift).
            let py = pow2(ey as nat) as int;
            let psh = pow2(shift as nat) as int;
            lemma_pow2_adds(gap as nat, ey as nat);
            assert(n == sum * (py * py)) by (nonlinear_arith)
                requires
                    n == vx * vx + vy * vy,
                    vx == mx * (g * py),
                    vy == my * py,
                    sum == (mx * mx) * (g * g) + my * my,
            ;
            let p = up_scale(e as int);
            let r = down_scale(e as int);
            // p * psh == r * py
            let pos = (if e > 0 { e as int } else { 0 }) as nat;
            let neg = (if e < 0 { -e } else { 0 }) as nat;
            lemma_pow2_adds(pos, shift as nat);
            lemma_pow2_adds(neg, ey as nat);
            assert(pos + shift as nat == neg + ey as nat);
            assert(p * psh == r * py);
            lemma_pow2_pos(pos);
            lemma_pow2_pos(neg);
            let pp = p * p;
            assert(n * (r * r) == sc * pp) by (nonlinear_arith)
                requires
                    n == sum * (py * py),
                    sc == sum * (psh * psh),
                    p * psh == r * py,
                    pp == p * p,
            ;
            assert(pp > 0) by (nonlinear_arith)
                requires
                    pp == p * p,
                    p > 0,
            ;
            assert((mm * mm) * pp <= sc * pp < ((mm + 1) * (mm + 1)) * pp) by (nonlinear_arith)
                requires
                    mm * mm <= sc < (mm + 1) * (mm + 1),
                    pp > 0,
            ;
            assert(sticky ==> (mm * mm) * pp < sc * pp) by (nonlinear_arith)
                requires
                    sticky ==> mm * mm < sc,
                    pp > 0,
            ;
            lemma_brackets_root(n, mm, e as int, sticky);
        }
        let b: u32 = round_pack(m, e, sticky, Ghost(root_cut(n)));
        proof {
            lemma_root_rounded(b as int, n);
        }
        b
    } else {
        let m: u64 = mx * 0x4000_0000;
        let e: i32 = ex as i32 - 30;
        let sticky: bool = my != 0;
        proof {
            let mm = m as int;
            let p = pow2(e as nat) as int;
            lemma_pow2_pos(e as nat);
            lemma_pow2_adds(30, e as nat);
            let py = pow2(ey as nat) as int;
            lemma_pow2_pos(ey as nat);
            assert(vx == mm * p) by (nonlinear_arith)
                requires
                    vx == mx * (0x4000_0000 * p),
                    mm == mx * 0x4000_0000,
            ;
            lemma_pow2_adds(24, ey as nat);
            lemma_pow2_adds(8, ey as nat);
            if ey + 8 < e {
                lemma_pow2_strictly_increases((ey + 8) as nat, e as nat);
            }
            // y < 2^24 * 2^ey <= 2^16 * p
            assert(0 <= vy < 0x1_0000 * p) by (nonlinear_arith)
                requires
                    vy == my * py,
                    0 <= my < 0x100_0000,
                    0x100 * py <= p,
                    py > 0,
            ;
            let pp = p * p;
            assert(pp > 0) by (nonlinear_arith)
                requires
                    pp == p * p,
                    p > 0,
            ;
            assert(vy * vy < 0x1_0000_0000 * pp) by (nonlinear_arith)
                requires
                    0 <= vy < 0x1_0000 * p,
                    pp == p * p,
                    p > 0,
            ;
            assert(vx * vx == (mm * mm) * pp) by (nonlinear_arith)
                requires
                    vx == mm * p,
                    pp == p * p,
            ;
            assert(mm >= 0x80_0000 * 0x4000_0000);
            assert(((mm + 1) * (mm + 1)) * pp >= (mm * mm) * pp + 0x1_0000_0000 * pp) by (nonlinear_arith)
                requires
                    mm >= 0x1_0000_0000,
                    pp > 0,
            ;
            assert(0 <= vy * vy) by (nonlinear_arith);
            assert(sticky ==> vy * vy > 0) by (nonlinear_arith)
                requires
                    sticky ==> my > 0,
                    vy == my * py,
                    py > 0,
            ;
            assert(!sticky ==> vy * vy == 0) by (nonlinear_arith)
                requires
                    !sticky ==> my == 0,
                    vy == my * py,
            ;
            assert(up_scale(e as int) == p);
            assert(down_scale(e as int) == 1);
            assert(n * (1 * 1) == n) by (nonlinear_arith);
            lemma_brackets_root(n, mm, e as int, sticky);
        }
        let b: u32 = round_pack(m, e, sticky, Ghost(root_cut(n)));
        proof {
            lemma_root_rounded(b as int, n);
        }
        b
    }
}

impl F32 {
    /// The distance of the point (`self`, `other`) from the origin.
    pub fn hypot(self, other: F32) -> (r: F32)
        ensures
            r == f_hypot(self, other),
    {
        reveal(f_hypot);
        let x: u32 = self.magnitude_bits();
        let y: u32 = other.magnitude_bits();
        if x == INFINITY_BITS || y == INFINITY_BITS {
            F32 { bits: INFINITY_BITS }
        } else if x > INFINITY_BITS || y > INFINITY_BITS {
            F32 { bits: NAN_BITS }
        } else if x == 0 && y == 0 {
            proof {
                assert(magnitude(0) == 0);
                assert(magnitude(1) == 1);
                let z = magnitude(x as int);
                assert(z * z + z * z == 0) by (nonlinear_arith)
                    requires
                        z == 0,
                ;
                assert(roots_to(0, 0));
                lemma_roots_to_unique(0, nearest_root(0), 0);
            }
            with_sign(false, 0)
        } else if x >= y {
            with_sign(false, hypotenuse(x, y))
        } else {
            with_sign(false, hypotenuse(y, x))
        }
    }
}

/// The integer that a finite value does not exceed, rounded towards positive
/// infinity.
pub open spec fn ceil_int(a: F32) -> int {
    -((-a.value()) / (pow2(149) as int))
}

/// The first of `p, 2p, 4p, ...` that reaches `x`.
pub open spec fn doubled_until(p: int, x: int) -> int
    decreases (if p < x { x - p } else { 0 }),
{
    if p <= 0 || p >= x {
        p
    } else {
        doubled_until(2 * p, x)
    }
}

/// The pattern of the smallest power of two that is at least a positive value.
pub open spec fn next_power_pattern(b: int) -> int {
    if b < 0x80_0000 {
        doubled_until(1, b)
    } else if b % 0x80_0000 == 0 {
        b
    } else {
        (b / 0x80_0000 + 1) * 0x80_0000
    }
}

/// The smallest power of two that is at least a value; zero stays zero, and a
/// negative value has none.
pub open spec fn f_next_power(a: F32) -> F32 {
    if a.nan() || (a.negative() && !a.zero()) {
        nan_value()
    } else if a.zero() {
        F32 { bits: 0 }
    } else {
        F32 { bits: next_power_pattern(a.unsigned()) as u32 }
    }
}

proof fn lemma_doubled_until(p: int, x: int, k: nat)
    requires
        p == pow2(k),
        p < x,
        x <= 0x80_0000,
    ensures
        x <= doubled_until(p, x) < 2 * x,
        doubled_until(p, x) <= 0x80_0000,
        exists|j: nat| doubled_until(p, x) == #[trigger] pow2(j),
    decreases x - p,
{
    lemma_pow2_unfold((k + 1) as nat);
    lemma_pow2_pos(k);
    if 2 * p < x {
        lemma_doubled_until(2 * p, x, (k + 1) as nat);
    } else {
        assert(doubled_until(2 * p, x) == 2 * p);
        assert(doubled_until(p, x) == pow2((k + 1) as nat));
        // 2^23 is a power of two, so that doubling does not step over it.
        lemma2_to64();
        if 2 * p > 0x80_0000 {
            if k + 1 > 23 {
                if k > 23 {
                    lemma_pow2_strictly_increases(23, k);
                }
            } else if k + 1 < 23 {
                lemma_pow2_strictly_increases((k + 1) as nat, 23);
            }
            assert(false);
        }
    }
}

/// The next power of two of a positive value is a power of two, at least the
/// value, and less than twice it.
pub proof fn law_next_power_is_least(a: F32)
    requires
        a.finite(),
        !a.negative(),
        !a.zero(),
    ensures
        ({
            let r = magnitude(f_next_power(a).unsigned());
            &&& magnitude(a.unsigned()) <= r < 2 * magnitude(a.unsigned())
            &&& exists|j: nat| r == #[trigger] pow2(j)
        }),
{
    let b = a.unsigned();
    let n = next_power_pattern(b);
    lemma2_to64();
    if b < 0x80_0000 {
        if b == 1 {
            assert(n == 1 == pow2(0));
        } else {
            lemma_doubled_until(1, b, 0);
        }
        assert(magnitude(b) == b);
        if n == 0x80_0000 {
            assert(magnitude(n) == 0x80_0000 * pow2(0));
        } else {
            assert(magnitude(n) == n);
        }
    } else {
        let e = b / 0x80_0000;
        let m = b % 0x80_0000;
        let p = pow2((e - 1) as nat) as int;
        lemma_pow2_pos((e - 1) as nat);
        assert(magnitude(b) == (0x80_0000 + m) * p);
        lemma_pow2_adds(23, (e - 1) as nat);
        if m == 0 {
            assert(magnitude(n) == pow2((23 + (e - 1)) as nat));
            assert(magnitude(b) < 2 * magnitude(b)) by (nonlinear_arith)
                requires
                    magnitude(b) == (0x80_0000 + m) * p,
                    m == 0,
                    p > 0,
            ;
        } else {
            assert(n / 0x80_0000 == e + 1 && n % 0x80_0000 == 0);
            lemma_pow2_unfold(e as nat);
            lemma_pow2_adds(23, e as nat);
            assert(magnitude(n) == pow2((23 + e) as nat));
            assert((0x80_0000 + m) * p <= 0x80_0000 * (2 * p) < 2 * ((0x80_0000 + m) * p)) by (nonlinear_arith)
                requires
                    0 < m < 0x80_0000,
                    p > 0,
            ;
        }
    }
}

impl F32 {
    /// The smallest power of two that is at least the value.
    pub fn next_power_of_two(self) -> (r: F32)
        ensures
            r == f_next_power(self),
    {
        let b: u32 = self.magnitude_bits();
        if b > INFINITY_BITS || (self.sign_bit() && b != 0) {
            F32 { bits: NAN_BITS }
        } else if b == 0 {
            F32 { bits: 0 }
        } else if b < FRACTION_UNIT {
            let mut p: u32 = 1;
            while p < b
                invariant
                    0 < b < FRACTION_UNIT,
                    1 <= p < 0x100_0000,
                    doubled_until(p as int, b as int) == doubled_until(1, b as int),
                decreases 0x100_0000 - p,
            {
                p = p * 2;
            }
            F32 { bits: p }
        } else if b % FRACTION_UNIT == 0 {
            F32 { bits: b }
        } else {
            F32 { bits: (b / FRACTION_UNIT + 1) * FRACTION_UNIT }
        }
    }

    /// `self.ceil()` as an unsigned integer.
    pub fn ceil_u32(self) -> (r: u32)
        ensures
            r == saturate(self, ceil_int(self), 0, u32::MAX as int),
    {
        let b: u32 = self.magnitude_bits();
        if b > INFINITY_BITS {
            return 0;
        }
        let negative: bool = self.sign_bit();
        if b == INFINITY_BITS {
            return if negative { 0 } else { u32::MAX };
        }
        let (whole, _, exact) = whole_and_rest(b);
        proof {
            lemma_pow2_pos(149);
            lemma_magnitude_nonneg(b as int);
            lemma_floor_of_negative(magnitude(b as int), pow2(149) as int);
            assert(magnitude(b as int) / (pow2(149) as int) >= 0) by (nonlinear_arith)
                requires
                    magnitude(b as int) >= 0,
                    pow2(149) > 0,
            ;
        }
        if negative {
            0
        } else if whole >= u32::MAX as u64 {
            u32::MAX
        } else if exact {
            whole as u32
        } else {
            whole as u32 + 1
        }
    }

    /// A double, rounded to a single.
    pub fn from_f64(x: F64) -> (r: F32)
        ensures
            r == f_from_double(x),
    {
        reveal(f_from_double);
        let b: u64 = x.magnitude_bits();
        let negative: bool = x.sign_bit();
        if b > crate::float64::INFINITY_BITS {
            return F32 { bits: NAN_BITS };
        }
        if b == crate::float64::INFINITY_BITS {
            return with_sign(negative, INFINITY_BITS);
        }
        let (m, step) = crate::float64::parts(b);
        let e: i32 = step as i32 - 925;
        let ghost n = crate::float64::magnitude(b as int);
        let ghost d = pow2(925) as int;
        proof {
            let mm = m as int;
            let p = up_scale(e as int);
            let r = down_scale(e as int);
            let ps = pow2(step as nat) as int;
            lemma_pow2_pos(925);
            lemma2_to64();
            let pos = (if e > 0 { e as int } else { 0 }) as nat;
            let neg = (if e < 0 { -e } else { 0 }) as nat;
            lemma_pow2_pos(pos);
            lemma_pow2_adds(pos, 925);
            lemma_pow2_adds(step as nat, neg);
            assert(pos + 925 == step as nat + neg);
            assert(p * d == ps * r);
            assert(mm * p * d == n * r) by (nonlinear_arith)
                requires
                    n == mm * ps,
                    p * d == ps * r,
            ;
            assert((mm + 1) * p * d > mm * p * d) by (nonlinear_arith)
                requires
                    p > 0,
                    d > 0,
            ;
            lemma_brackets_ratio(n, d, mm, e as int, false);
        }
        let c: u32 = round_pack(m as u64, e, false, Ghost(ratio_cut(n, d)));
        proof {
            lemma_ratio_rounded(c as int, n, d);
        }
        with_sign(negative, c)
    }
}

/// A double, rounded to a single.
#[verifier::opaque]
pub open spec fn f_from_double(x: F64) -> F32 {
    if x.nan() {
        nan_value()
    } else if x.infinite() {
        signed_pattern(x.negative(), INFINITY_BITS as int)
    } else {
        signed_pattern(x.negative(), nearest(crate::float64::magnitude(x.unsigned()), pow2(925) as int))
    }
}

/// A pattern is nearest to its own value.
proof fn lemma_exact(b: int, n: int, d: int)
    requires
        0 <= b < INFINITY_BITS,
        d > 0,
        n == magnitude(b) * d,
    ensures
        nearest(n, d) == b,
{
    lemma_magnitude_step(b);
    let m = magnitude(b);
    if b > 0 {
        lemma_magnitude_step(b - 1);
        let low = magnitude(b - 1) + m;
        assert(low * d < 2 * n) by (nonlinear_arith)
            requires
                low < 2 * m,
                n == m * d,
                d > 0,
        ;
    }
    let high = m + magnitude(b + 1);
    assert(2 * n < high * d) by (nonlinear_arith)
        requires
            high > 2 * m,
            n == m * d,
            d > 0,
    ;
    assert(rounds_to(b, n, d));
    lemma_nearest(b, n, d);
}

/// Two exponent steps are a factor of four.
proof fn lemma_two_steps(b: int)
    requires
        0x80_0000 <= b,
        b + 0x100_0000 <= INFINITY_BITS,
    ensures
        magnitude(b + 0x100_0000) == 4 * magnitude(b),
{
    let e = b / 0x80_0000;
    let m = b % 0x80_0000;
    let c = b + 0x100_0000;
    assert(c / 0x80_0000 == e + 2 && c % 0x80_0000 == m);
    lemma_pow2_unfold((e + 1) as nat);
    lemma_pow2_unfold(e as nat);
    let p = pow2((e - 1) as nat) as int;
    assert((0x80_0000 + m) * (2 * (2 * p)) == 4 * ((0x80_0000 + m) * p)) by (nonlinear_arith);
}

proof fn lemma_factor_magnitudes()
    ensures
        magnitude(QUARTER_BITS as int) == pow2(147),
        magnitude(FOUR_BITS as int) == pow2(151),
        pow2(149) == 4 * pow2(147),
        pow2(151) == 4 * pow2(149),
{
    lemma2_to64();
    assert(QUARTER_BITS as int / 0x80_0000 == 125 && QUARTER_BITS as int % 0x80_0000 == 0);
    assert(FOUR_BITS as int / 0x80_0000 == 129 && FOUR_BITS as int % 0x80_0000 == 0);
    lemma_pow2_adds(23, 124);
    lemma_pow2_adds(23, 128);
    lemma_pow2_unfold(149);
    lemma_pow2_unfold(148);
    lemma_pow2_unfold(151);
    lemma_pow2_unfold(150);
}

/// Four times a normal value is exact, up to overflow.
proof fn lemma_times_four(a: F32)
    requires
        0x80_0000 <= a.unsigned(),
        a.unsigned() + 0x100_0000 < INFINITY_BITS,
    ensures
        f_mul(a, F32 { bits: FOUR_BITS }) == signed_pattern(a.negative(), a.unsigned() + 0x100_0000),
{
    reveal(f_mul);
    let b = a.unsigned();
    lemma_factor_magnitudes();
    lemma_two_steps(b);
    lemma_pow2_pos(149);
    let d = pow2(149) as int;
    let m = magnitude(b);
    let n = m * pow2(151);
    assert(n == (4 * m) * d) by (nonlinear_arith)
        requires
            n == m * pow2(151),
            pow2(151) == 4 * d,
    ;
    lemma_exact(b + 0x100_0000, n, d);
}

/// A quarter of a value with room below it is exact.
proof fn lemma_times_quarter(a: F32)
    requires
        0x180_0000 <= a.unsigned() < INFINITY_BITS,
    ensures
        f_mul(a, F32 { bits: QUARTER_BITS }) == signed_pattern(a.negative(), a.unsigned() - 0x100_0000),
{
    reveal(f_mul);
    let b = a.unsigned();
    let c = b - 0x100_0000;
    lemma_factor_magnitudes();
    lemma_two_steps(c);
    lemma_pow2_pos(149);
    let d = pow2(149) as int;
    let n = magnitude(b) * pow2(147);
    let mc = magnitude(c);
    assert(n == mc * d) by (nonlinear_arith)
        requires
            n == (4 * mc) * pow2(147),
            d == 4 * pow2(147),
    ;
    lemma_exact(c, n, d);
}

/// Integers up to 2^24 are values.
proof fn lemma_small_integer(k: int, j: nat)
    requires
        pow2(j) <= k < 2 * pow2(j),
        j <= 23,
    ensures
        ({
            let b = nearest(k * pow2(149), 1);
            &&& 0x3f80_0000 <= b < 0x4b80_0000
            &&& magnitude(b) == k * pow2(149)
        }),
{
    let s = 126 + j as int;
    let up = pow2((23 - j) as nat) as int;
    let q = k * up;
    lemma2_to64();
    lemma_pow2_adds(j, (23 - j) as nat);
    lemma_pow2_pos((23 - j) as nat);
    assert(0x80_0000 <= q < 0x100_0000) by (nonlinear_arith)
        requires
            q == k * up,
            pow2(j) <= k < 2 * pow2(j),
            pow2(j) * up == 0x80_0000,
            up > 0,
    ;
    let b = s * 0x80_0000 + q;
    lemma_magnitude_of_parts(s, q);
    lemma_pow2_adds((23 - j) as nat, s as nat);
    assert(q * pow2(s as nat) == k * pow2(149)) by (nonlinear_arith)
        requires
            q == k * up,
            up * pow2(s as nat) == pow2(149),
    ;
    assert(magnitude(b) * 1 == magnitude(b));
    lemma_exact(b, k * pow2(149), 1);
}

proof fn lemma_integer_binade(k: int, j: nat)
    requires
        1 <= k <= 0x100_0000,
        j <= 24,
        pow2(j) <= k,
    ensures
        exists|i: nat| i <= 24 && #[trigger] pow2(i) <= k < 2 * pow2(i),
    decreases 24 - j,
{
    lemma2_to64();
    if k < 2 * pow2(j) {
        assert(pow2(j) <= k < 2 * pow2(j));
    } else {
        lemma_pow2_unfold((j + 1) as nat);
        if j == 24 {
            assert(false);
        }
        lemma_integer_binade(k, (j + 1) as nat);
    }
}

/// The nearest pattern to an integer of up to 2^24 is exact.
proof fn lemma_nearest_integer(k: int)
    requires
        1 <= k <= 0x100_0000,
    ensures
        ({
            let b = nearest(k * pow2(149), 1);
            &&& 0x3f80_0000 <= b < INFINITY_BITS
            &&& magnitude(b) == k * pow2(149)
        }),
{
    lemma2_to64();
    lemma_integer_binade(k, 0);
    let j = choose|i: nat| i <= 24 && #[trigger] pow2(i) <= k < 2 * pow2(i);
    if j == 24 {
        assert(k == 0x100_0000);
        // 2^24 itself is a power of two.
        let c = 0x4b80_0000int;
        assert(c / 0x80_0000 == 151 && c % 0x80_0000 == 0);
        lemma_pow2_unfold(150);
        assert(magnitude(c) == 0x80_0000 * pow2(150));
        let half_unit = pow2(149) as int;
        assert(k * half_unit == 0x80_0000 * (2 * half_unit)) by (nonlinear_arith)
            requires
                k == 0x100_0000,
        ;
        assert(magnitude(c) * 1 == magnitude(c));
        lemma_exact(c, k * pow2(149), 1);
    } else {
        lemma_small_integer(k, j);
    }
}

/// Every integer of up to 2^24 in either direction is a value, and converting it
/// keeps it.
pub proof fn law_small_integers_are_exact(k: int)
    requires
        -0x100_0000 <= k <= 0x100_0000,
    ensures
        f_from_int(k).finite(),
        f_from_int(k).value() == k * pow2(149),
        trunc_int(f_from_int(k)) == k,
{
    reveal(f_from_int);
    lemma2_to64();
    lemma_pow2_pos(149);
    let u = pow2(149) as int;
    let m = abs_int(k);
    assert(magnitude(0) == 0);
    if k == 0 {
        assert(0 * pow2(149) == 0) by (nonlinear_arith);
        lemma_exact(0, 0, 1);
        assert(0int / u == 0) by (nonlinear_arith)
            requires
                u > 0,
        ;
    } else {
        lemma_nearest_integer(m);
        assert((-m) * u == -(m * u)) by (nonlinear_arith);
        vstd::arithmetic::div_mod::lemma_fundamental_div_mod_converse(m * u, u, m, 0);
    }
}

/// A rounded value has an integer value, namely the rounded one.
pub proof fn lemma_round_value(a: F32)
    requires
        a.finite(),
    ensures
        f_round(a).finite(),
        f_round(a).negative() == a.negative(),
        f_round(a).value() == round_int(a) * pow2(149),
        round_int(a) == 0 ==> f_round(a).zero(),
        round_int(a) != 0 ==> f_round(a).unsigned() >= 0x3f80_0000,
{
    reveal(f_round);
    let b = a.unsigned();
    let v = magnitude(b);
    let u = pow2(149) as int;
    lemma_pow2_pos(149);
    lemma_magnitude_nonneg(b);
    lemma_round_from_parts(v, u);
    let k = abs_int(round_int(a));
    assert(v / u >= 0) by (nonlinear_arith)
        requires
            v >= 0,
            u > 0,
    ;
    assert(k == (2 * v + u) / (2 * u));
    assert(magnitude(0) == 0);
    lemma2_to64();
    if k == 0 {
        assert(0 * pow2(149) == 0) by (nonlinear_arith);
        lemma_exact(0, 0, 1);
        assert(0 * u == 0) by (nonlinear_arith);
    } else {
        if v % u == 0 {
            assert(v == (v / u) * u) by (nonlinear_arith)
                requires
                    v % u == 0,
                    u > 0,
            ;
            assert(k == v / u);
            assert(v * 1 == v);
            lemma_exact(b, v, 1);
            if b < 0x3f80_0000 {
                lemma_magnitude_monotone(b, 0x3f80_0000);
                lemma_one_magnitude();
                assert(v >= u) by (nonlinear_arith)
                    requires
                        v == k * u,
                        k >= 1,
                        u > 0,
                ;
                assert(false);
            }
        } else {
            lemma_inexact_is_small(a.unsigned() as u32);
            assert(k <= 0x100_0000);
            lemma_nearest_integer(k);
        }
        assert((-k) * u == -(k * u)) by (nonlinear_arith);
    }
}

proof fn lemma_one_magnitude()
    ensures
        magnitude(0x3f80_0000) == pow2(149),
{
    lemma2_to64();
    assert(0x3f80_0000int / 0x80_0000 == 127 && 0x3f80_0000int % 0x80_0000 == 0);
    lemma_pow2_adds(23, 126);
}

/// Rounding an integer value changes nothing.
pub proof fn lemma_round_integer(a: F32, k: int)
    requires
        a.finite(),
        a.value() == k * pow2(149),
    ensures
        round_int(a) == k,
        f_round(a) == a,
{
    reveal(f_round);
    let b = a.unsigned();
    let v = magnitude(b);
    let u = pow2(149) as int;
    lemma_pow2_pos(149);
    lemma_magnitude_nonneg(b);
    let c = abs_int(k);
    assert((-k) * u == -(k * u)) by (nonlinear_arith);
    assert(k * u >= 0 ==> k >= 0) by (nonlinear_arith)
        requires
            u > 0,
    ;
    assert(k * u <= 0 ==> k <= 0) by (nonlinear_arith)
        requires
            u > 0,
    ;
    if k == 0 {
        assert(k * u == 0) by (nonlinear_arith)
            requires
                k == 0,
        ;
    }
    assert(v == c * u);
    vstd::arithmetic::div_mod::lemma_fundamental_div_mod_converse(v, u, c, 0);
    lemma_round_from_parts(v, u);
    assert(v * 1 == v);
    lemma_exact(b, v, 1);
    if c == 0 {
        assert(magnitude(0) == 0);
        if b > 0 {
            lemma_magnitude_monotone(0, b);
        }
    }
}

/// Some pattern is nearest; the search starts at `b`, which is not too high.
proof fn lemma_some_pattern_is_nearest(b: int, n: int, d: int)
    requires
        0 <= b <= INFINITY_BITS,
        d > 0,
        b > 0 ==> {
            let low = (magnitude(b - 1) + magnitude(b)) * d;
            low < 2 * n || (low == 2 * n && b % 2 == 0)
        },
    ensures
        exists|c: int| rounds_to(c, n, d),
    decreases INFINITY_BITS - b,
{
    if b == INFINITY_BITS {
        assert(rounds_to(b, n, d));
    } else {
        let high = (magnitude(b) + magnitude(b + 1)) * d;
        if 2 * n < high || (2 * n == high && b % 2 == 0) {
            assert(rounds_to(b, n, d));
        } else {
            lemma_some_pattern_is_nearest(b + 1, n, d);
        }
    }
}

/// Rounding never moves a number past a pattern.
pub proof fn lemma_rounding_passes_no_pattern(n: int, d: int, c: int)
    requires
        d > 0,
        n >= 0,
        0 <= c <= INFINITY_BITS,
    ensures
        0 <= nearest(n, d) <= INFINITY_BITS,
        magnitude(c) * d <= n ==> c <= nearest(n, d),
        n <= magnitude(c) * d ==> nearest(n, d) <= c,
{
    lemma_some_pattern_is_nearest(0, n, d);
    let b = nearest(n, d);
    assert(rounds_to(b, n, d));
    if b < c {
        lemma_magnitude_step(b);
        if b + 1 < c {
            lemma_magnitude_monotone(b + 1, c);
        }
        let x = magnitude(b);
        let y = magnitude(b + 1);
        let z = magnitude(c);
        assert((x + y) * d < 2 * (z * d)) by (nonlinear_arith)
            requires
                x < y,
                y <= z,
                d > 0,
        ;
    }
    if c < b {
        lemma_magnitude_step(b - 1);
        if c < b - 1 {
            lemma_magnitude_monotone(c, b - 1);
        }
        let x = magnitude(b - 1);
        let y = magnitude(b);
        let z = magnitude(c);
        assert((x + y) * d > 2 * (z * d)) by (nonlinear_arith)
            requires
                x < y,
                z <= x,
                d > 0,
        ;
    }
}

/// Addition never moves a sum past a value: where the exact sum is at least (at
/// most) a value, so is the rounded one.
pub proof fn law_sums_keep_order(a: F32, b: F32, c: F32)
    requires
        a.finite(),
        b.finite(),
        c.finite(),
    ensures
        !f_add(a, b).nan(),
        c.value() <= a.value() + b.value() ==> f_le(c, f_add(a, b)),
        a.value() + b.value() <= c.value() ==> f_le(f_add(a, b), c),
{
    reveal(f_add);
    let sum = a.value() + b.value();
    let m = c.unsigned();
    lemma_magnitude_nonneg(m);
    lemma_rounding_passes_no_pattern(abs_int(sum), 1, m);
    lemma_rounding_passes_no_pattern(abs_int(sum), 1, 0);
    assert(magnitude(0) == 0);
    assert(magnitude(m) * 1 == magnitude(m));
}

/// Subtraction keeps order as addition does.
pub proof fn law_differences_keep_order(a: F32, b: F32, c: F32)
    requires
        a.finite(),
        b.finite(),
        c.finite(),
    ensures
        !f_sub(a, b).nan(),
        c.value() <= a.value() - b.value() ==> f_le(c, f_sub(a, b)),
        a.value() - b.value() <= c.value() ==> f_le(f_sub(a, b), c),
{
    reveal(f_sub);
    law_sums_keep_order(a, f_neg(b), c);
}

/// Rounding keeps the order of numbers.
proof fn lemma_rounding_is_monotone(n: int, m: int, d: int)
    requires
        d > 0,
        0 <= n <= m,
    ensures
        nearest(n, d) <= nearest(m, d),
{
    lemma_some_pattern_is_nearest(0, n, d);
    lemma_some_pattern_is_nearest(0, m, d);
    let b = nearest(n, d);
    let c = nearest(m, d);
    assert(rounds_to(b, n, d) && rounds_to(c, m, d));
    if c < b {
        lemma_magnitude_step(b - 1);
        lemma_magnitude_step(c);
        if c < b - 1 {
            lemma_magnitude_monotone(c, b - 1);
            if c + 1 < b {
                lemma_magnitude_monotone(c + 1, b);
            }
        }
        let low = magnitude(b - 1) + magnitude(b);
        let high = magnitude(c) + magnitude(c + 1);
        assert(low * d >= high * d) by (nonlinear_arith)
            requires
                low >= high,
                d > 0,
        ;
        assert(low * d == high * d);
        assert(low == high) by (nonlinear_arith)
            requires
                low * d == high * d,
                d > 0,
        ;
        assert(b == c + 1);
    }
}

/// A larger operand gives a sum that is no smaller.
pub proof fn law_sums_are_monotone(a: F32, b: F32, s: F32)
    requires
        a.finite(),
        b.finite(),
        s.finite(),
        f_le(a, b),
    ensures
        f_le(f_add(a, s), f_add(b, s)),
{
    reveal(f_add);
    lemma_order_is_value_order(a, b);
    let x = a.value() + s.value();
    let y = b.value() + s.value();
    lemma_rounding_passes_no_pattern(abs_int(x), 1, 0);
    lemma_rounding_passes_no_pattern(abs_int(y), 1, 0);
    if 0 <= x {
        lemma_rounding_is_monotone(x, y, 1);
    } else if y < 0 {
        lemma_rounding_is_monotone(-y, -x, 1);
    }
}

/// A larger first operand gives a difference that is no smaller.
pub proof fn law_differences_are_monotone(a: F32, b: F32, s: F32)
    requires
        a.finite(),
        b.finite(),
        s.finite(),
        f_le(a, b),
    ensures
        f_le(f_sub(a, s), f_sub(b, s)),
{
    reveal(f_sub);
    law_sums_are_monotone(a, b, f_neg(s));
}

/// One exponent step is a factor of two.
proof fn lemma_one_step(b: int)
    requires
        0x80_0000 <= b,
        b + 0x80_0000 <= INFINITY_BITS,
    ensures
        magnitude(b + 0x80_0000) == 2 * magnitude(b),
{
    let e = b / 0x80_0000;
    let m = b % 0x80_0000;
    assert((b + 0x80_0000) / 0x80_0000 == e + 1 && (b + 0x80_0000) % 0x80_0000 == m);
    lemma_pow2_unfold(e as nat);
    let p = pow2((e - 1) as nat) as int;
    assert((0x80_0000 + m) * (2 * p) == 2 * ((0x80_0000 + m) * p)) by (nonlinear_arith);
}

proof fn lemma_two_magnitude()
    ensures
        magnitude(TWO_BITS as int) == 2 * pow2(149),
{
    lemma2_to64();
    assert(TWO_BITS as int / 0x80_0000 == 128 && TWO_BITS as int % 0x80_0000 == 0);
    lemma_pow2_adds(23, 127);
    lemma_pow2_unfold(150);
}

/// Twice a positive normal value is exact, or infinite.
pub proof fn lemma_times_two(a: F32)
    requires
        !a.negative(),
        0x80_0000 <= a.unsigned() <= INFINITY_BITS,
    ensures
        f_mul(a, F32 { bits: TWO_BITS }) == (F32 {
            bits: (if a.unsigned() + 0x80_0000 < INFINITY_BITS {
                a.unsigned() + 0x80_0000
            } else {
                INFINITY_BITS as int
            }) as u32,
        }),
{
    reveal(f_mul);
    let b = a.unsigned();
    lemma_two_magnitude();
    lemma_pow2_pos(149);
    if b < INFINITY_BITS {
        let d = pow2(149) as int;
        let m = magnitude(b);
        let n = m * magnitude(TWO_BITS as int);
        assert(n == (2 * m) * d) by (nonlinear_arith)
            requires
                n == m * (2 * d),
        ;
        if b + 0x80_0000 < INFINITY_BITS {
            lemma_one_step(b);
            lemma_exact(b + 0x80_0000, n, d);
        } else {
            let top = INFINITY_BITS as int;
            lemma_one_step(top - 0x80_0000);
            if top - 0x80_0000 < b {
                lemma_magnitude_monotone(top - 0x80_0000, b);
            }
            lemma_magnitude_nonneg(b);
            assert(magnitude(top) * d <= n) by (nonlinear_arith)
                requires
                    n == (2 * m) * d,
                    magnitude(top) <= 2 * m,
                    d > 0,
            ;
            assert(n >= 0) by (nonlinear_arith)
                requires
                    n == (2 * m) * d,
                    m >= 0,
                    d > 0,
            ;
            lemma_rounding_passes_no_pattern(n, d, top);
        }
    }
}

/// Half a positive value with room below it is exact.
pub proof fn lemma_over_two(a: F32)
    requires
        !a.negative(),
        0x100_0000 <= a.unsigned() < INFINITY_BITS,
    ensures
        f_div(a, F32 { bits: TWO_BITS }) == (F32 { bits: (a.unsigned() - 0x80_0000) as u32 }),
{
    reveal(f_div);
    let c = a.unsigned() - 0x80_0000;
    lemma_two_magnitude();
    lemma_pow2_pos(149);
    lemma_one_step(c);
    let u = pow2(149) as int;
    let d = magnitude(TWO_BITS as int);
    let n = magnitude(a.unsigned()) * u;
    let m = magnitude(c);
    assert(n == m * d) by (nonlinear_arith)
        requires
            n == (2 * m) * u,
            d == 2 * u,
    ;
    lemma_exact(c, n, d);
}

/// `j` exponent steps are a factor of `2^j`.
proof fn lemma_many_steps(b: int, j: nat)
    requires
        0x80_0000 <= b,
        b + j * 0x80_0000 <= INFINITY_BITS,
    ensures
        magnitude(b + j * 0x80_0000) == pow2(j) * magnitude(b),
    decreases j,
{
    lemma2_to64();
    if j > 0 {
        let before = b + (j - 1) * 0x80_0000;
        lemma_many_steps(b, (j - 1) as nat);
        lemma_one_step(before);
        lemma_pow2_unfold(j);
        let p = pow2((j - 1) as nat) as int;
        let m = magnitude(b);
        assert((2 * p) * m == 2 * (p * m)) by (nonlinear_arith);
    } else {
        let one = pow2(0) as int;
        let m = magnitude(b);
        assert(one * m == m) by (nonlinear_arith)
            requires
                one == 1,
        ;
    }
}

/// The step from a normal pattern to the next one, and how large the value is in
/// such steps.
proof fn lemma_step_size(b: int)
    requires
        0x80_0000 <= b < INFINITY_BITS,
    ensures
        ({
            let step = pow2((b / 0x80_0000 - 1) as nat) as int;
            &&& magnitude(b + 1) == magnitude(b) + step
            &&& magnitude(b) == (0x80_0000 + b % 0x80_0000) * step
            &&& magnitude(b) < 0x100_0000 * step
            &&& step > 0
        }),
{
    let e = b / 0x80_0000;
    let m = b % 0x80_0000;
    let p = pow2((e - 1) as nat) as int;
    lemma_pow2_pos((e - 1) as nat);
    lemma_pow2_unfold(e as nat);
    assert((0x80_0000 + m) * p < 0x100_0000 * p) by (nonlinear_arith)
        requires
            m < 0x80_0000,
            p > 0,
    ;
    if m + 1 < 0x80_0000 {
        assert((b + 1) / 0x80_0000 == e && (b + 1) % 0x80_0000 == m + 1);
        assert((0x80_0000 + m + 1) * p == (0x80_0000 + m) * p + p) by (nonlinear_arith);
    } else {
        assert((b + 1) / 0x80_0000 == e + 1 && (b + 1) % 0x80_0000 == 0);
        assert(0x80_0000 * (2 * p) == (0x80_0000 + m) * p + p) by (nonlinear_arith)
            requires
                m == 0x7f_ffff,
        ;
    }
}

/// A power of two that is at least a quotient makes up for its rounding: the
/// divisor times the power is at least the dividend.
#[verifier::rlimit(60)]
#[verifier::spinoff_prover]
pub proof fn lemma_power_covers_quotient(r: F32, a: F32, p: F32)
    requires
        r.finite(),
        !r.negative(),
        !a.negative(),
        0x80_0000 <= a.unsigned() < INFINITY_BITS,
        !p.negative(),
        ONE_BITS <= p.unsigned() < INFINITY_BITS,
        p.unsigned() % 0x80_0000 == 0,
        f_le(f_div(r, a), p),
    ensures
        f_le(r, f_mul(p, a)),
{
    reveal(f_mul);
    reveal(f_div);
    let rb = r.unsigned();
    let ab = a.unsigned();
    let pb = p.unsigned();
    let u = pow2(149) as int;
    lemma_pow2_pos(149);
    lemma2_to64();
    lemma_magnitude_nonneg(rb);
    lemma_magnitude_nonneg(ab);
    let j = pb / 0x80_0000 - 127;
    let kb = ab + j * 0x80_0000;
    let s = pow2((pb / 0x80_0000 - 1) as nat) as int;
    let f = pow2(j as nat) as int;
    lemma_pow2_adds(126, j as nat);
    lemma_pow2_adds(23, 126);
    lemma_step_size(pb);
    let w = pow2(126) as int;
    assert(s == w * f);
    assert(u == 0x80_0000 * w);
    let product = magnitude(pb) * magnitude(ab);
    let am = magnitude(ab);
    // magnitude(pb) = 2^23 * w * f = u * f
    assert(magnitude(pb) == u * f) by (nonlinear_arith)
        requires
            magnitude(pb) == 0x80_0000 * s,
            s == w * f,
            u == 0x80_0000 * w,
    ;
    assert(product == (f * am) * u) by (nonlinear_arith)
        requires
            product == magnitude(pb) * am,
            magnitude(pb) == u * f,
    ;
    lemma_pow2_pos(j as nat);
    assert(product >= 0) by (nonlinear_arith)
        requires
            product == (f * am) * u,
            f > 0,
            am >= 0,
            u > 0,
    ;
    if kb >= INFINITY_BITS {
        // The product overflows.
        let top = INFINITY_BITS as int;
        let base = top - j * 0x80_0000;
        lemma_many_steps(base, j as nat);
        if base < ab {
            lemma_magnitude_monotone(base, ab);
        }
        assert(f * magnitude(base) <= f * am) by (nonlinear_arith)
            requires
                magnitude(base) <= am,
                f > 0,
        ;
        assert(magnitude(top) * u <= product) by (nonlinear_arith)
            requires
                magnitude(top) <= f * am,
                product == (f * am) * u,
                u > 0,
        ;
        lemma_rounding_passes_no_pattern(product, u, top);
    } else {
        lemma_many_steps(ab, j as nat);
        lemma_exact(kb, product, u);
        if rb > kb {
            lemma_step_size(kb);
            let step = pow2((kb / 0x80_0000 - 1) as nat) as int;
            let km = magnitude(kb);
            let rm = magnitude(rb);
            if kb + 1 < rb {
                lemma_magnitude_monotone(kb + 1, rb);
            }
            assert(rm >= km + step);
            let n = rm * u;
            assert(n >= 0) by (nonlinear_arith)
                requires
                    n == rm * u,
                    rm >= 0,
                    u > 0,
            ;
            lemma_some_pattern_is_nearest(0, n, am);
            let q = nearest(n, am);
            assert(rounds_to(q, n, am));
            assert(q <= pb);
            lemma_magnitude_step(q);
            if q < pb {
                lemma_magnitude_monotone(q, pb);
                if q + 1 < pb + 1 {
                    lemma_magnitude_monotone(q + 1, pb + 1);
                }
            }
            let high = magnitude(q) + magnitude(q + 1);
            let most = 2 * magnitude(pb) + s;
            assert(high * am <= most * am) by (nonlinear_arith)
                requires
                    high <= most,
                    am >= 0,
            ;
            // 2 * rm * u <= (2 * u * f + w * f) * am, with u = 2^23 * w
            assert(2 * (rm * u) == 0x100_0000 * rm * w) by (nonlinear_arith)
                requires
                    u == 0x80_0000 * w,
            ;
            assert(most * am == 0x100_0001 * km * w) by (nonlinear_arith)
                requires
                    most == 2 * (u * f) + w * f,
                    u == 0x80_0000 * w,
                    km == f * am,
            ;
            assert(0x100_0000 * rm <= 0x100_0001 * km) by (nonlinear_arith)
                requires
                    0x100_0000 * rm * w <= 0x100_0001 * km * w,
                    w > 0,
            ;
            assert(false);
        }
    }
}

/// A quotient by a positive normal value has the sign of its dividend.
pub proof fn lemma_quotient_sign(r: F32, a: F32)
    requires
        !r.nan(),
        !a.negative(),
        0x80_0000 <= a.unsigned() < INFINITY_BITS,
    ensures
        !f_div(r, a).nan(),
        f_div(r, a).negative() == r.negative(),
{
    reveal(f_div);
    if r.finite() {
        lemma_magnitude_nonneg(r.unsigned());
        lemma_magnitude_nonneg(a.unsigned());
        lemma_pow2_pos(149);
        let n = magnitude(r.unsigned()) * pow2(149);
        assert(n >= 0) by (nonlinear_arith)
            requires
                n == magnitude(r.unsigned()) * pow2(149),
                magnitude(r.unsigned()) >= 0,
                pow2(149) > 0,
        ;
        lemma_rounding_passes_no_pattern(n, magnitude(a.unsigned()), 0);
    }
}

/// Dividing by one or more makes no value larger.
pub proof fn lemma_quotient_is_smaller(r: F32, a: F32)
    requires
        r.finite(),
        !r.negative(),
        !a.negative(),
        ONE_BITS <= a.unsigned() < INFINITY_BITS,
    ensures
        !f_div(r, a).negative(),
        f_div(r, a).unsigned() <= r.unsigned(),
{
    lemma_quotient_sign(r, a);
    reveal(f_div);
    lemma_one_magnitude();
    if ONE_BITS < a.unsigned() {
        lemma_magnitude_monotone(ONE_BITS as int, a.unsigned());
    }
    lemma_magnitude_nonneg(r.unsigned());
    lemma_pow2_pos(149);
    let m = magnitude(r.unsigned());
    let d = magnitude(a.unsigned());
    let u = pow2(149) as int;
    assert(m * u <= m * d) by (nonlinear_arith)
        requires
            u <= d,
            m >= 0,
    ;
    assert(m * u >= 0) by (nonlinear_arith)
        requires
            m >= 0,
            u > 0,
    ;
    lemma_rounding_passes_no_pattern(m * u, d, r.unsigned());
}

/// One is neutral for multiplication.
pub proof fn lemma_one_is_neutral(a: F32)
    requires
        a.finite(),
        !a.negative(),
    ensures
        f_mul(a, F32 { bits: ONE_BITS }) == a,
{
    reveal(f_mul);
    lemma_one_magnitude();
    lemma_pow2_pos(149);
    lemma_exact(a.unsigned(), magnitude(a.unsigned()) * pow2(149), pow2(149) as int);
}

/// A product of positive values is not negative.
pub proof fn lemma_product_sign(a: F32, b: F32)
    requires
        a.finite(),
        b.finite(),
        !a.negative(),
        !b.negative(),
    ensures
        !f_mul(a, b).nan(),
        !f_mul(a, b).negative(),
{
    reveal(f_mul);
    lemma_magnitude_nonneg(a.unsigned());
    lemma_magnitude_nonneg(b.unsigned());
    lemma_pow2_pos(149);
    let n = magnitude(a.unsigned()) * magnitude(b.unsigned());
    assert(n >= 0) by (nonlinear_arith)
        requires
            n == magnitude(a.unsigned()) * magnitude(b.unsigned()),
            magnitude(a.unsigned()) >= 0,
            magnitude(b.unsigned()) >= 0,
    ;
    lemma_rounding_passes_no_pattern(n, pow2(149) as int, 0);
}

/// A value differs from itself by zero.
pub proof fn lemma_self_difference(a: F32)
    requires
        a.finite(),
    ensures
        f_sub(a, a).zero(),
{
    reveal(f_sub);
    reveal(f_add);
    assert(f_neg(a).value() == -a.value());
}

/// Different values have a difference.
pub proof fn lemma_distinct_difference(a: F32, b: F32)
    requires
        a.finite(),
        b.finite(),
        !f_eq(a, b),
    ensures
        !f_sub(a, b).zero(),
{
    reveal(f_sub);
    reveal(f_add);
    lemma_order_is_value_order(a, b);
    assert(f_neg(b).value() == -b.value());
    let sum = a.value() - b.value();
    assert(magnitude(1) == 1);
    lemma_rounding_passes_no_pattern(abs_int(sum), 1, 1);
}

/// Adding zero keeps a value, up to the sign of zero.
pub proof fn lemma_zero_is_neutral(a: F32, z: F32)
    requires
        a.finite(),
        z.zero(),
    ensures
        !f_add(a, z).nan(),
        f_add(a, z).order() == a.order(),
{
    reveal(f_add);
    assert(magnitude(0) == 0);
    lemma_magnitude_nonneg(a.unsigned());
    assert(magnitude(a.unsigned()) * 1 == magnitude(a.unsigned()));
    lemma_exact(a.unsigned(), magnitude(a.unsigned()), 1);
}

/// A quotient of a value by a larger one is at most one.
pub proof fn lemma_small_quotient(a: F32, b: F32)
    requires
        a.finite(),
        b.finite(),
        !b.zero(),
        a.unsigned() <= b.unsigned(),
    ensures
        f_div(a, b).finite(),
{
    reveal(f_div);
    lemma_magnitude_nonneg(a.unsigned());
    lemma_magnitude_nonneg(b.unsigned());
    if a.unsigned() < b.unsigned() {
        lemma_magnitude_monotone(a.unsigned(), b.unsigned());
    }
    lemma_pow2_pos(149);
    lemma_one_magnitude();
    let m = magnitude(a.unsigned());
    let d = magnitude(b.unsigned());
    let u = pow2(149) as int;
    assert(0 <= m * u <= u * d) by (nonlinear_arith)
        requires
            0 <= m <= d,
            u > 0,
    ;
    lemma_rounding_passes_no_pattern(m * u, d, ONE_BITS as int);
}

/// A coordinate brought to the quarter-unit grid.
#[verifier::opaque]
pub open spec fn f_quantize(v: F32) -> F32 {
    f_mul(f_round(f_mul(v, F32 { bits: FOUR_BITS })), F32 { bits: QUARTER_BITS })
}

/// A grid coordinate is a quarter of the integer that the coordinate rounds to,
/// and four times it is that integer, both exactly.
pub proof fn lemma_quantized(v: F32)
    requires
        f_mul(v, F32 { bits: FOUR_BITS }).finite(),
    ensures
        ({
            let y = f_mul(v, F32 { bits: FOUR_BITS });
            let q = f_quantize(v);
            &&& q.finite()
            &&& 4 * q.value() == round_int(y) * pow2(149)
            &&& f_mul(q, F32 { bits: FOUR_BITS }) == f_round(y)
            &&& round_int(f_round(y)) == round_int(y)
        }),
{
    reveal(f_quantize);
    let y = f_mul(v, F32 { bits: FOUR_BITS });
    let x = f_round(y);
    let q = f_quantize(v);
    lemma_round_value(y);
    lemma_round_integer(x, round_int(y));
    if round_int(y) == 0 {
        lemma_zero_product(x, F32 { bits: QUARTER_BITS });
        lemma_zero_product(q, F32 { bits: FOUR_BITS });
        reveal(f_mul);
        assert(magnitude(0) == 0);
        assert(q.value() == 0);
        assert(0 * pow2(149) == 0) by (nonlinear_arith);
        assert(q.negative() == x.negative());
        let back = f_mul(q, F32 { bits: FOUR_BITS });
        assert(back.negative() == q.negative());
        assert(back.bits == x.bits);
    } else {
        lemma_times_quarter(x);
        let c = x.unsigned() - 0x100_0000;
        assert(q.negative() == x.negative() && q.unsigned() == c);
        lemma_times_four(q);
        lemma_two_steps(c);
        assert(f_mul(q, F32 { bits: FOUR_BITS }).bits == x.bits);
        assert(4 * q.value() == x.value());
    }
}

/// Quantization is idempotent: a grid coordinate stays where it is.
pub proof fn law_quantization_is_idempotent(v: F32)
    ensures
        f_quantize(f_quantize(v)) == f_quantize(v),
{
    reveal(f_quantize);
    let y = f_mul(v, F32 { bits: FOUR_BITS });
    let x = f_round(y);
    if y.finite() {
        lemma_quantized(v);
        lemma_round_value(y);
        lemma_round_integer(x, round_int(y));
    } else {
        reveal(f_mul);
        reveal(f_round);
        assert(x == y);
    }
}

/// Grid coordinates that round to the same integer are equal.
pub proof fn lemma_same_step(v: F32, w: F32)
    requires
        f_mul(v, F32 { bits: FOUR_BITS }).finite(),
        f_mul(w, F32 { bits: FOUR_BITS }).finite(),
        round_int(f_mul(v, F32 { bits: FOUR_BITS })) == round_int(f_mul(w, F32 { bits: FOUR_BITS })),
    ensures
        f_eq(f_quantize(v), f_quantize(w)),
{
    lemma_quantized(v);
    lemma_quantized(w);
    lemma_order_is_value_order(f_quantize(v), f_quantize(w));
}

impl F32 {
    /// The coordinate on the quarter-unit grid.
    pub fn quantize(self) -> (r: F32)
        ensures
            r == f_quantize(self),
    {
        reveal(f_quantize);
        self.times(F32 { bits: FOUR_BITS }).round().times(F32 { bits: QUARTER_BITS })
    }
}

/// A sum does not depend on the order of its terms.
pub proof fn law_sums_commute(a: F32, b: F32)
    ensures
        f_add(a, b) == f_add(b, a),
{
    reveal(f_add);
    if a.infinite() && b.infinite() && a.negative() == b.negative() {
        assert(a.bits == b.bits);
    }
}

/// A product with a factor that is not negative keeps the order of the other.
pub proof fn law_products_are_monotone(a: F32, b: F32, c: F32)
    requires
        a.finite(),
        b.finite(),
        c.finite(),
        !c.negative(),
        f_le(a, b),
    ensures
        f_le(f_mul(a, c), f_mul(b, c)),
{
    reveal(f_mul);
    lemma_pow2_pos(149);
    let d = pow2(149) as int;
    let m = magnitude(c.unsigned());
    let x = magnitude(a.unsigned());
    let y = magnitude(b.unsigned());
    lemma_magnitude_nonneg(c.unsigned());
    lemma_magnitude_nonneg(a.unsigned());
    lemma_magnitude_nonneg(b.unsigned());
    assert(x * m >= 0 && y * m >= 0) by (nonlinear_arith)
        requires
            x >= 0,
            y >= 0,
            m >= 0,
    ;
    lemma_rounding_passes_no_pattern(x * m, d, 0);
    lemma_rounding_passes_no_pattern(y * m, d, 0);
    if a.negative() {
        if b.negative() {
            if b.unsigned() < a.unsigned() {
                lemma_magnitude_monotone(b.unsigned(), a.unsigned());
            }
            assert(y * m <= x * m) by (nonlinear_arith)
                requires
                    y <= x,
                    m >= 0,
            ;
            lemma_rounding_is_monotone(y * m, x * m, d);
        }
    } else if b.negative() {
        assert(magnitude(0) == 0);
        assert(x * m == 0 && y * m == 0) by (nonlinear_arith)
            requires
                x == 0,
                y == 0,
        ;
        assert(0 * d == 0) by (nonlinear_arith);
        lemma_exact(0, 0, d);
    } else {
        if a.unsigned() < b.unsigned() {
            lemma_magnitude_monotone(a.unsigned(), b.unsigned());
        }
        assert(x * m <= y * m) by (nonlinear_arith)
            requires
                x <= y,
                m >= 0,
        ;
        lemma_rounding_is_monotone(x * m, y * m, d);
    }
}

/// Twice a magnitude below 2^127 is a magnitude.
proof fn lemma_doubled_pattern(b: int) -> (c: int)
    requires
        0 <= b < 0x7f00_0000,
    ensures
        0 <= c < INFINITY_BITS,
        magnitude(c) == 2 * magnitude(b),
        b > 0 <==> c > 0,
{
    if b < 0x80_0000 {
        lemma2_to64();
        if 2 * b >= 0x80_0000 {
            assert((2 * b) / 0x80_0000 == 1 && (2 * b) % 0x80_0000 == 2 * b - 0x80_0000);
            let p = pow2(0) as int;
            assert((2 * b) * p == 2 * b) by (nonlinear_arith)
                requires
                    p == 1,
            ;
        }
        2 * b
    } else {
        lemma_one_step(b);
        b + 0x80_0000
    }
}

/// Half of twice a value is the value.
proof fn lemma_half_of_double(a: F32)
    requires
        a.unsigned() < 0x7f00_0000,
    ensures
        f_add(a, a).finite(),
        f_mul(f_add(a, a), F32 { bits: HALF_BITS }).order() == a.order(),
        !f_mul(f_add(a, a), F32 { bits: HALF_BITS }).nan(),
{
    reveal(f_add);
    reveal(f_mul);
    let b = a.unsigned();
    let c = lemma_doubled_pattern(b);
    lemma_magnitude_nonneg(b);
    assert(magnitude(0) == 0);
    lemma_pow2_pos(149);
    let d = pow2(149) as int;
    let half = magnitude(HALF_BITS as int);
    assert(HALF_BITS as int / 0x80_0000 == 126 && HALF_BITS as int % 0x80_0000 == 0);
    lemma_pow2_adds(23, 125);
    lemma_pow2_unfold(149);
    lemma2_to64();
    assert(2 * half == d);
    if 0 < b {
        lemma_magnitude_monotone(0, b);
    }
    assert(magnitude(c) * 1 == magnitude(c));
    lemma_exact(c, magnitude(c), 1);
    assert(f_add(a, a) == signed_pattern(a.negative(), c));
    let m = magnitude(b);
    let n = magnitude(c) * half;
    assert(n == m * d) by (nonlinear_arith)
        requires
            n == (2 * m) * half,
            2 * half == d,
    ;
    lemma_exact(b, n, d);
}

/// The mean of two values below 2^127 in size lies between them.
pub proof fn law_means_stay_between(a: F32, b: F32)
    requires
        a.unsigned() < 0x7f00_0000,
        b.unsigned() < 0x7f00_0000,
        f_le(a, b),
    ensures
        f_le(a, f_mul(f_add(a, b), F32 { bits: HALF_BITS })),
        f_le(f_mul(f_add(a, b), F32 { bits: HALF_BITS }), b),
        f_mul(f_add(a, b), F32 { bits: HALF_BITS }).unsigned() < 0x7f00_0000,
{
    let half = F32 { bits: HALF_BITS };
    lemma_half_of_double(a);
    lemma_half_of_double(b);
    law_sums_are_monotone(a, b, a);
    law_sums_are_monotone(a, b, b);
    law_sums_commute(a, b);
    let sum = f_add(a, b);
    assert(sum.finite());
    law_products_are_monotone(f_add(a, a), sum, half);
    law_products_are_monotone(sum, f_add(b, b), half);
}

/// Rounding to the nearest integer keeps the order of values.
proof fn lemma_round_int_is_monotone(a: F32, b: F32)
    requires
        a.finite(),
        b.finite(),
        f_le(a, b),
    ensures
        round_int(a) <= round_int(b),
{
    let x = magnitude(a.unsigned());
    let y = magnitude(b.unsigned());
    let u = pow2(149) as int;
    lemma_pow2_pos(149);
    lemma_magnitude_nonneg(a.unsigned());
    lemma_magnitude_nonneg(b.unsigned());
    assert((2 * x + u) / (2 * u) >= 0 && (2 * y + u) / (2 * u) >= 0) by (nonlinear_arith)
        requires
            x >= 0,
            y >= 0,
            u > 0,
    ;
    assert(magnitude(0) == 0);
    assert(u / (2 * u) == 0) by (nonlinear_arith)
        requires
            u > 0,
    ;
    if a.unsigned() < b.unsigned() {
        lemma_magnitude_monotone(a.unsigned(), b.unsigned());
        vstd::arithmetic::div_mod::lemma_div_is_ordered(2 * x + u, 2 * y + u, 2 * u);
    } else if b.unsigned() < a.unsigned() {
        lemma_magnitude_monotone(b.unsigned(), a.unsigned());
        vstd::arithmetic::div_mod::lemma_div_is_ordered(2 * y + u, 2 * x + u, 2 * u);
    }
}

/// Coordinates below 8191.875 in size are on the grid steps that a lane holds,
/// and keep their order there.
pub proof fn lemma_lane_steps(v: F32, w: F32)
    requires
        v.unsigned() < 0x45ff_ff00,
        w.unsigned() < 0x45ff_ff00,
        f_le(v, w),
    ensures
        ({
            let x = f_mul(v, F32 { bits: FOUR_BITS });
            let y = f_mul(w, F32 { bits: FOUR_BITS });
            x.finite() && y.finite() && -0x7fff <= round_int(x) <= round_int(y) <= 0x7fff
        }),
{
    let four = F32 { bits: FOUR_BITS };
    let top = F32 { bits: 0x45ff_feff };
    let bottom = F32 { bits: 0xc5ff_feff };
    let x = f_mul(v, four);
    let y = f_mul(w, four);
    lemma_times_four(top);
    lemma_times_four(bottom);
    law_products_are_monotone(bottom, v, four);
    law_products_are_monotone(v, w, four);
    law_products_are_monotone(w, top, four);
    let high = f_mul(top, four);
    let low = f_mul(bottom, four);
    assert(high.bits == 0x46ff_feff && low.bits == 0xc6ff_feff);
    lemma_round_int_is_monotone(low, x);
    lemma_round_int_is_monotone(x, y);
    lemma_round_int_is_monotone(y, high);
    let p = pow2(140) as int;
    let u = pow2(149) as int;
    lemma2_to64();
    lemma_pow2_adds(9, 140);
    lemma_pow2_pos(140);
    let m = magnitude(0x46ff_feff);
    assert(0x46ff_feffint / 0x80_0000 == 141 && 0x46ff_feffint % 0x80_0000 == 0x7f_feff);
    assert(m == 0xff_feff * p);
    assert(2 * m + u == 32767 * (2 * u) + 1022 * p);
    vstd::arithmetic::div_mod::lemma_fundamental_div_mod_converse(2 * m + u, 2 * u, 32767, 1022 * p);
}

/// How far rounding goes: by at most one part in 2^23, or one step of the smallest
/// values.
proof fn lemma_rounding_error(n: int, d: int)
    requires
        d > 0,
        n >= 0,
        nearest(n, d) < INFINITY_BITS,
    ensures
        ({
            let m = magnitude(nearest(n, d));
            m >= 0 && (m * d - n) * 0x80_0000 <= n + 0x80_0000 * d && (n - m * d) * 0x80_0000 <= n + 0x80_0000 * d
        }),
{
    lemma_some_pattern_is_nearest(0, n, d);
    let b = nearest(n, d);
    assert(rounds_to(b, n, d));
    lemma_magnitude_nonneg(b);
    let m = magnitude(b);
    let above = magnitude(b + 1);
    let below = if b > 0 { magnitude(b - 1) } else { 0 };
    assert(magnitude(0) == 0);
    lemma_neighbours(b);
    if b < 0x80_0000 {
        assert(2 * (n - m * d) <= d && 2 * (m * d - n) <= d) by (nonlinear_arith)
            requires
                2 * n <= (m + above) * d,
                b > 0 ==> (below + m) * d <= 2 * n,
                b == 0 ==> m == 0,
                n >= 0,
                above == m + 1,
                b > 0 ==> m == below + 1,
                b >= 0,
                d > 0,
        ;
    } else {
        let p = above - m;
        assert(2 * (n - m * d) <= p * d && 2 * (m * d - n) <= p * d) by (nonlinear_arith)
            requires
                2 * n <= (m + above) * d,
                (below + m) * d <= 2 * n,
                above == m + p,
                m - below <= p,
                d > 0,
        ;
        assert((p * d) * 0x80_0000 <= m * d) by (nonlinear_arith)
            requires
                p * 0x80_0000 <= m,
                d > 0,
        ;
    }
}

/// The distances from a pattern's value to its neighbours'.
proof fn lemma_neighbours(b: int)
    requires
        0 <= b < INFINITY_BITS,
    ensures
        b < 0x80_0000 ==> magnitude(b + 1) == magnitude(b) + 1,
        0 < b < 0x80_0000 ==> magnitude(b) == magnitude(b - 1) + 1,
        0x80_0000 <= b ==> {
            let p = magnitude(b + 1) - magnitude(b);
            p * 0x80_0000 <= magnitude(b) && magnitude(b) - magnitude(b - 1) <= p
        },
{
    lemma2_to64();
    if b == 0x7f_ffff {
        assert((b + 1) / 0x80_0000 == 1 && (b + 1) % 0x80_0000 == 0);
        assert(magnitude(b + 1) == 0x80_0000 * pow2(0));
    }
    if b >= 0x80_0000 {
        lemma_step_size(b);
        let e = b / 0x80_0000;
        let step = pow2((e - 1) as nat) as int;
        assert(step * 0x80_0000 <= (0x80_0000 + b % 0x80_0000) * step) by (nonlinear_arith)
            requires
                step > 0,
                b % 0x80_0000 >= 0,
        ;
        if b == 0x80_0000 {
            assert(magnitude(b) == 0x80_0000 * pow2(0));
        } else {
            lemma_step_size(b - 1);
            let f = (b - 1) / 0x80_0000;
            if f < e {
                lemma_pow2_strictly_increases((f - 1) as nat, (e - 1) as nat);
            }
        }
    }
}

/// How far a sum is rounded.
pub proof fn lemma_sum_error(a: F32, b: F32)
    requires
        a.finite(),
        b.finite(),
        f_add(a, b).finite(),
    ensures
        ({
            let x = a.value() + b.value();
            let v = f_add(a, b).value();
            (v - x) * 0x80_0000 <= abs_int(x) + 0x80_0000 && (x - v) * 0x80_0000 <= abs_int(x) + 0x80_0000
        }),
{
    reveal(f_add);
    let x = a.value() + b.value();
    assert(magnitude(0) == 0);
    if x != 0 {
        lemma_rounding_passes_no_pattern(abs_int(x), 1, 0);
        lemma_rounding_error(abs_int(x), 1);
    }
}

/// How far a difference is rounded.
pub proof fn lemma_difference_error(a: F32, b: F32)
    requires
        a.finite(),
        b.finite(),
        f_sub(a, b).finite(),
    ensures
        ({
            let x = a.value() - b.value();
            let v = f_sub(a, b).value();
            (v - x) * 0x80_0000 <= abs_int(x) + 0x80_0000 && (x - v) * 0x80_0000 <= abs_int(x) + 0x80_0000
        }),
{
    reveal(f_sub);
    lemma_sum_error(a, f_neg(b));
}

/// A value that is not below zero has no sign, or is zero.
proof fn lemma_zero_is_signless(a: F32)
    requires
        a.finite(),
        a.value() >= 0,
    ensures
        !a.negative() || a.zero(),
        a.zero() ==> a.value() == 0,
        a.value() == magnitude(a.unsigned()),
{
    assert(magnitude(0) == 0);
    if a.unsigned() > 0 {
        lemma_magnitude_monotone(0, a.unsigned());
    }
}

/// How far a product of values that are not negative is rounded.
pub proof fn lemma_product_error(a: F32, b: F32)
    requires
        a.finite(),
        b.finite(),
        a.value() >= 0,
        b.value() >= 0,
        f_mul(a, b).finite(),
    ensures
        ({
            let x = a.value() * b.value();
            let v = f_mul(a, b).value();
            let u = pow2(149) as int;
            &&& v >= 0
            &&& (v * u - x) * 0x80_0000 <= x + 0x80_0000 * u
            &&& (x - v * u) * 0x80_0000 <= x + 0x80_0000 * u
        }),
{
    reveal(f_mul);
    lemma_pow2_pos(149);
    lemma_magnitude_nonneg(a.unsigned());
    lemma_magnitude_nonneg(b.unsigned());
    let x = a.value() * b.value();
    assert(x >= 0) by (nonlinear_arith)
        requires
            x == a.value() * b.value(),
            a.value() >= 0,
            b.value() >= 0,
    ;
    lemma_zero_is_signless(a);
    lemma_zero_is_signless(b);
    lemma_rounding_passes_no_pattern(x, pow2(149) as int, 0);
    lemma_rounding_error(x, pow2(149) as int);
    if a.zero() || b.zero() {
        assert(x == 0) by (nonlinear_arith)
            requires
                x == a.value() * b.value(),
                a.value() == 0 || b.value() == 0,
        ;
        assert(0 * pow2(149) == 0) by (nonlinear_arith);
        lemma_exact(0, 0, pow2(149) as int);
    }
}

/// How far a quotient of values that are not negative is rounded.
pub proof fn lemma_quotient_error(a: F32, b: F32)
    requires
        a.finite(),
        b.finite(),
        a.value() >= 0,
        b.value() > 0,
        f_div(a, b).finite(),
    ensures
        ({
            let x = a.value() * pow2(149);
            let v = f_div(a, b).value();
            let d = b.value();
            &&& v >= 0
            &&& (v * d - x) * 0x80_0000 <= x + 0x80_0000 * d
            &&& (x - v * d) * 0x80_0000 <= x + 0x80_0000 * d
        }),
{
    reveal(f_div);
    lemma_pow2_pos(149);
    lemma_magnitude_nonneg(a.unsigned());
    assert(magnitude(0) == 0);
    let x = a.value() * pow2(149);
    assert(x >= 0) by (nonlinear_arith)
        requires
            x == a.value() * pow2(149),
            a.value() >= 0,
    ;
    lemma_zero_is_signless(a);
    lemma_rounding_passes_no_pattern(x, b.value(), 0);
    lemma_rounding_error(x, b.value());
    if a.zero() {
        assert(x == 0) by (nonlinear_arith)
            requires
                x == a.value() * pow2(149),
                a.value() == 0,
        ;
        assert(0 * b.value() == 0) by (nonlinear_arith);
        lemma_exact(0, 0, b.value());
    }
}

/// A coordinate below 8191.875 in size is at most half a quarter unit from the grid step
/// that it is brought to.
pub proof fn lemma_step_is_nearest(v: F32)
    requires
        v.unsigned() < 0x45ff_ff00,
    ensures
        ({
            let k = round_int(f_mul(v, F32 { bits: FOUR_BITS }));
            let u = pow2(149) as int;
            2 * (4 * v.value() - k * u) <= u && 2 * (k * u - 4 * v.value()) <= u
        }),
{
    let y = f_mul(v, F32 { bits: FOUR_BITS });
    let u = pow2(149) as int;
    let k = round_int(y);
    lemma_pow2_pos(149);
    lemma_lane_steps_of_self(v);
    lemma_magnitude_nonneg(v.unsigned());
    lemma_magnitude_nonneg(y.unsigned());
    let m = magnitude(y.unsigned());
    vstd::arithmetic::div_mod::lemma_fundamental_div_mod(2 * m + u, 2 * u);
    vstd::arithmetic::div_mod::lemma_mod_bound(2 * m + u, 2 * u);
    let whole = (2 * m + u) / (2 * u);
    assert(2 * (m - whole * u) <= u && 2 * (whole * u - m) <= u) by (nonlinear_arith)
        requires
            2 * m + u == (2 * u) * whole + (2 * m + u) % (2 * u),
            0 <= (2 * m + u) % (2 * u) < 2 * u,
    ;
    assert((-whole) * u == -(whole * u)) by (nonlinear_arith);
    if v.unsigned() >= 0x80_0000 {
        lemma_times_four(v);
        lemma_two_steps(v.unsigned());
    } else {
        // Four times a subnormal value is far below a half.
        reveal(f_mul);
        lemma_factor_magnitudes();
        let n = magnitude(v.unsigned()) * magnitude(FOUR_BITS as int);
        lemma2_to64();
        lemma_pow2_adds(2, 149);
        lemma_pow2_strictly_increases(40, 149);
        lemma2_to64_rest();
        assert(magnitude(v.unsigned()) < 0x80_0000);
        assert(magnitude(0x180_0000) == 0x200_0000) by {
            lemma2_to64();
            assert(pow2(2) == 4);
            assert(0x180_0000int / 0x80_0000 == 3 && 0x180_0000int % 0x80_0000 == 0);
        }
        let mv = magnitude(v.unsigned());
        assert(n <= 0x200_0000 * u && n >= 0) by (nonlinear_arith)
            requires
                n == mv * (4 * u),
                0 <= mv < 0x80_0000,
                u > 0,
        ;
        lemma_rounding_passes_no_pattern(n, u, 0x180_0000);
        if y.unsigned() < 0x180_0000 {
            lemma_magnitude_monotone(y.unsigned(), 0x180_0000);
        }
        assert(2 * m < u);
        assert(whole == 0) by (nonlinear_arith)
            requires
                2 * m + u == (2 * u) * whole + (2 * m + u) % (2 * u),
                0 <= (2 * m + u) % (2 * u) < 2 * u,
                0 <= 2 * m < u,
        ;
        assert(0 * u == 0) by (nonlinear_arith);
    }
}

proof fn lemma_lane_steps_of_self(v: F32)
    requires
        v.unsigned() < 0x45ff_ff00,
    ensures
        f_mul(v, F32 { bits: FOUR_BITS }).finite(),
{
    lemma_lane_steps(v, v);
}

/// How far a product is rounded.
pub proof fn lemma_signed_product_error(a: F32, b: F32)
    requires
        a.finite(),
        b.finite(),
        f_mul(a, b).finite(),
    ensures
        ({
            let x = a.value() * b.value();
            let v = f_mul(a, b).value();
            let u = pow2(149) as int;
            &&& (v * u - x) * 0x80_0000 <= abs_int(x) + 0x80_0000 * u
            &&& (x - v * u) * 0x80_0000 <= abs_int(x) + 0x80_0000 * u
        }),
{
    reveal(f_mul);
    lemma_pow2_pos(149);
    lemma_magnitude_nonneg(a.unsigned());
    lemma_magnitude_nonneg(b.unsigned());
    let u = pow2(149) as int;
    let m = magnitude(a.unsigned());
    let n = magnitude(b.unsigned());
    let x = a.value() * b.value();
    assert(m * n >= 0) by (nonlinear_arith)
        requires
            m >= 0,
            n >= 0,
    ;
    assert((-m) * n == -(m * n) && m * (-n) == -(m * n) && (-m) * (-n) == m * n) by (nonlinear_arith);
    lemma_rounding_passes_no_pattern(m * n, u, 0);
    lemma_rounding_error(m * n, u);
    let v = magnitude(nearest(m * n, u));
    assert((-v) * u == -(v * u)) by (nonlinear_arith);
}

/// How far a quotient by a positive value is rounded.
pub proof fn lemma_signed_quotient_error(a: F32, b: F32)
    requires
        a.finite(),
        b.finite(),
        b.value() > 0,
        f_div(a, b).finite(),
    ensures
        ({
            let x = a.value() * pow2(149);
            let v = f_div(a, b).value();
            let d = b.value();
            &&& (v * d - x) * 0x80_0000 <= abs_int(x) + 0x80_0000 * d
            &&& (x - v * d) * 0x80_0000 <= abs_int(x) + 0x80_0000 * d
        }),
{
    reveal(f_div);
    lemma_pow2_pos(149);
    lemma_magnitude_nonneg(a.unsigned());
    assert(magnitude(0) == 0);
    let u = pow2(149) as int;
    let m = magnitude(a.unsigned());
    let d = b.value();
    assert(m * u >= 0) by (nonlinear_arith)
        requires
            m >= 0,
            u > 0,
    ;
    assert((-m) * u == -(m * u)) by (nonlinear_arith);
    lemma_rounding_passes_no_pattern(m * u, d, 0);
    lemma_rounding_error(m * u, d);
    let v = magnitude(nearest(m * u, d));
    assert((-v) * d == -(v * d)) by (nonlinear_arith);
}

/// Four times a normal value with room above it is exact.
pub proof fn lemma_times_four_exactly(a: F32)
    requires
        0x80_0000 <= a.unsigned(),
        a.unsigned() + 0x100_0000 < INFINITY_BITS,
    ensures
        f_mul(a, F32 { bits: FOUR_BITS }).finite(),
        f_mul(a, F32 { bits: FOUR_BITS }).value() == 4 * a.value(),
{
    lemma_times_four(a);
    lemma_two_steps(a.unsigned());
}

/// A quotient of at most 65535 is finite.
pub proof fn lemma_bounded_quotient(a: F32, b: F32)
    requires
        a.finite(),
        b.finite(),
        a.value() >= 0,
        b.value() > 0,
        a.value() <= 0xffff * b.value(),
    ensures
        f_div(a, b).finite(),
{
    reveal(f_div);
    lemma_zero_is_signless(a);
    lemma_pow2_pos(149);
    lemma2_to64();
    lemma_pow2_adds(16, 149);
    lemma_pow2_adds(23, 142);
    assert(0x4780_0000int / 0x80_0000 == 143 && 0x4780_0000int % 0x80_0000 == 0);
    assert(magnitude(0) == 0);
    let u = pow2(149) as int;
    let m = a.value();
    let d = b.value();
    assert(magnitude(0x4780_0000) == 0x1_0000 * u);
    assert(0 <= m * u <= (0x1_0000 * u) * d) by (nonlinear_arith)
        requires
            0 <= m <= 0xffff * d,
            d > 0,
            u > 0,
    ;
    lemma_rounding_passes_no_pattern(m * u, d, 0x4780_0000);
}

/// Some pattern from `b` on is nearest to a root, where `b` is not too far.
proof fn lemma_some_pattern_is_root(b: int, x: int) -> (c: int)
    requires
        0 <= b <= INFINITY_BITS,
        x >= 0,
        b > 0 ==> {
            let low = magnitude(b - 1) + magnitude(b);
            low * low < 4 * x || (low * low == 4 * x && b % 2 == 0)
        },
    ensures
        roots_to(c, x),
    decreases INFINITY_BITS - b,
{
    let high = magnitude(b) + magnitude(b + 1);
    if b == INFINITY_BITS || 4 * x < high * high || (4 * x == high * high && b % 2 == 0) {
        b
    } else {
        lemma_some_pattern_is_root(b + 1, x)
    }
}

/// How far a root is rounded.
pub proof fn lemma_root_error(d: F32)
    requires
        d.finite(),
        d.value() >= 0,
    ensures
        ({
            let x = d.value() * pow2(149);
            let s = f_sqrt(d).value();
            &&& f_sqrt(d).finite()
            &&& s >= 0
            &&& (s * s - x) * 0x40_0000 <= s * s + 0x80_0000 * s + 0x80_0000
            &&& (x - s * s) * 0x40_0000 <= s * s + 0x80_0000 * s + 0x80_0000
        }),
{
    reveal(f_sqrt);
    lemma_pow2_pos(149);
    lemma2_to64();
    assert(magnitude(0) == 0);
    let u = pow2(149) as int;
    if d.zero() {
        assert(0 * u == 0 && 0 * 0 == 0) by (nonlinear_arith);
    } else {
        lemma_magnitude_nonneg(d.unsigned());
        lemma_magnitude_monotone(0, d.unsigned());
        let m = magnitude(d.unsigned());
        let x = m * u;
        assert(x >= 0) by (nonlinear_arith)
            requires
                x == m * u,
                m >= 0,
                u > 0,
        ;
        let c = lemma_some_pattern_is_root(0, x);
        let b = nearest_root(x);
        assert(roots_to(b, x));
        // No root of a finite value is infinite.
        let top = INFINITY_BITS as int - 1;
        lemma_magnitude_monotone(ONE_BITS as int, top);
        lemma_pow2_adds(23, 126);
        assert(ONE_BITS as int / 0x80_0000 == 127 && ONE_BITS as int % 0x80_0000 == 0);
        assert(magnitude(ONE_BITS as int) == u);
        if d.unsigned() < top {
            lemma_magnitude_monotone(d.unsigned(), top);
        }
        if b == INFINITY_BITS {
            lemma_magnitude_step(top);
            let h = magnitude(top);
            let low = h + magnitude(top + 1);
            assert(low * low > 4 * x) by (nonlinear_arith)
                requires
                    low > 2 * h,
                    x == m * u,
                    0 <= m <= h,
                    0 < u < h,
            ;
        }
        let s = magnitude(b);
        lemma_magnitude_nonneg(b);
        lemma_neighbours(b);
        let above = magnitude(b + 1);
        let p = above - s;
        lemma_magnitude_step(b);
        assert(p * 0x80_0000 <= s + 0x80_0000);
        let high = s + above;
        let below = if b > 0 { magnitude(b - 1) } else { 0 };
        let low = below + s;
        assert(4 * x <= high * high);
        if b > 0 {
            assert(s - below <= p);
            assert(low * low <= 4 * x);
            assert(0 <= below) by {
                lemma_magnitude_nonneg(b - 1);
            }
        }
        lemma_root_of_bounds(s, p, x, b > 0, low, high);
    }
}

proof fn lemma_root_of_bounds(s: int, p: int, x: int, some: bool, low: int, high: int)
    requires
        s >= 0,
        p > 0,
        x >= 0,
        p * 0x80_0000 <= s + 0x80_0000,
        high == 2 * s + p,
        4 * x <= high * high,
        some ==> low >= 2 * s - p && low >= 0 && low >= s && low * low <= 4 * x,
        !some ==> s == 0,
    ensures
        (s * s - x) * 0x40_0000 <= s * s + 0x80_0000 * s + 0x80_0000,
        (x - s * s) * 0x40_0000 <= s * s + 0x80_0000 * s + 0x80_0000,
{
    let ss = s * s;
    let sp = s * p;
    let pp = p * p;
    assert(sp * 0x80_0000 <= ss + 0x80_0000 * s) by (nonlinear_arith)
        requires
            sp == s * p,
            ss == s * s,
            p * 0x80_0000 <= s + 0x80_0000,
            s >= 0,
    ;
    assert(pp * 0x80_0000 <= sp + 0x80_0000 * p) by (nonlinear_arith)
        requires
            sp == s * p,
            pp == p * p,
            p * 0x80_0000 <= s + 0x80_0000,
            p > 0,
    ;
    assert(high * high == 4 * ss + 4 * sp + pp) by (nonlinear_arith)
        requires
            high == 2 * s + p,
            ss == s * s,
            sp == s * p,
            pp == p * p,
    ;
    assert(ss >= 0 && sp >= 0) by (nonlinear_arith)
        requires
            ss == s * s,
            sp == s * p,
            s >= 0,
            p > 0,
    ;
    assert(ss >= s) by (nonlinear_arith)
        requires
            ss == s * s,
            s >= 0,
    ;
    if some {
        if 2 * s >= p {
            assert(low * low >= 4 * ss - 4 * sp + pp) by (nonlinear_arith)
                requires
                    low >= 2 * s - p,
                    2 * s - p >= 0,
                    ss == s * s,
                    sp == s * p,
                    pp == p * p,
            ;
        } else {
            assert(s < 1) by (nonlinear_arith)
                requires
                    2 * s < p,
                    p * 0x80_0000 <= s + 0x80_0000,
                    s >= 0,
            ;
            assert(ss == 0) by (nonlinear_arith)
                requires
                    s == 0,
                    ss == s * s,
            ;
        }
    }
}

}
