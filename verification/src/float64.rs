//! Double-precision arithmetic on bit patterns.
//!
//! The same model as for singles, at double width: [`F64`] holds an IEEE 754
//! binary64 word, every finite value is an integer multiple of 2^-1074, and every
//! operation returns the correctly rounded result. Doubles only carry
//! intermediate results, so there are fewer operations.
use vstd::prelude::*;
use vstd::arithmetic::power2::{pow2, lemma_pow2_pos, lemma_pow2_adds, lemma_pow2_unfold, lemma_pow2_strictly_increases, lemma2_to64, lemma2_to64_rest};
use crate::float32::{F32, abs_int, clamp_int};

verus! {

/// An IEEE 754 binary64 value, held as its bit pattern.
///
/// `==` on this type compares patterns.
#[derive(Clone, Copy, Debug, PartialEq, Eq, Structural)]
pub struct F64 {
    pub bits: u64,
}

/// The pattern of positive infinity; magnitudes of non-NaN values end here.
pub const INFINITY_BITS: u64 = 0x7ff0_0000_0000_0000;

/// The quiet NaN that the operations below return.
pub const NAN_BITS: u64 = 0x7ff8_0000_0000_0000;

/// Weight of one step of the exponent field in a bit pattern: 2^52.
pub const FRACTION_UNIT: u64 = 0x10_0000_0000_0000;

/// Weight of the sign in a bit pattern: 2^63.
pub const SIGN_UNIT: u64 = 0x8000_0000_0000_0000;

/// The value of a sign-less bit pattern as a multiple of 2^-1074. Infinity is
/// given the value that the next binade would start with.
pub open spec fn magnitude(b: int) -> int {
    let e = b / 0x10_0000_0000_0000;
    let m = b % 0x10_0000_0000_0000;
    if e == 0 {
        m
    } else {
        (0x10_0000_0000_0000 + m) * pow2((e - 1) as nat)
    }
}

/// `b` is the sign-less bit pattern nearest to `n / d` (in multiples of
/// 2^-1074), ties going to the even pattern.
pub open spec fn rounds_to(b: int, n: int, d: int) -> bool {
    &&& 0 <= b <= INFINITY_BITS
    &&& b > 0 ==> {
        let low = (magnitude(b - 1) + magnitude(b)) * d;
        low < 2 * n || (low == 2 * n && b % 2 == 0)
    }
    &&& b < INFINITY_BITS ==> {
        let high = (magnitude(b) + magnitude(b + 1)) * d;
        2 * n < high || (2 * n == high && b % 2 == 0)
    }
}

/// The nearest sign-less bit pattern to `n / d`.
pub open spec fn nearest(n: int, d: int) -> int {
    choose|b: int| rounds_to(b, n, d)
}


/// A pattern from a sign and a sign-less pattern.
pub open spec fn signed_pattern(negative: bool, b: int) -> F64 {
    F64 { bits: (if negative { b + 0x8000_0000_0000_0000 } else { b }) as u64 }
}

pub open spec fn nan_value() -> F64 {
    F64 { bits: NAN_BITS }
}

impl F64 {
    pub open spec fn negative(self) -> bool {
        self.bits >= 0x8000_0000_0000_0000
    }

    /// The pattern without its sign.
    pub open spec fn unsigned(self) -> int {
        self.bits as int % 0x8000_0000_0000_0000
    }

    pub open spec fn nan(self) -> bool {
        self.unsigned() > INFINITY_BITS
    }

    pub open spec fn infinite(self) -> bool {
        self.unsigned() == INFINITY_BITS
    }

    pub open spec fn finite(self) -> bool {
        self.unsigned() < INFINITY_BITS
    }

    pub open spec fn zero(self) -> bool {
        self.unsigned() == 0
    }

    /// The value of a finite pattern, in multiples of 2^-1074.
    pub open spec fn value(self) -> int {
        if self.negative() { -magnitude(self.unsigned()) } else { magnitude(self.unsigned()) }
    }

    /// Position on the number line among non-NaN patterns: numerically equal
    /// values share it and it grows with the value.
    pub open spec fn order(self) -> int {
        if self.negative() { -self.unsigned() } else { self.unsigned() }
    }
}

/// Addition: exact sum, rounded; a zero sum is negative only when both
/// operands are.
#[verifier::opaque]
pub open spec fn d_add(a: F64, b: F64) -> F64 {
    if a.nan() || b.nan() || (a.infinite() && b.infinite() && a.negative() != b.negative()) {
        nan_value()
    } else if a.infinite() {
        a
    } else if b.infinite() {
        b
    } else {
        let sum = a.value() + b.value();
        if sum == 0 {
            signed_pattern(a.negative() && b.negative(), 0)
        } else {
            signed_pattern(sum < 0, nearest(abs_int(sum), 1))
        }
    }
}

/// The value with its sign flipped.
pub open spec fn d_neg(a: F64) -> F64 {
    signed_pattern(!a.negative(), a.unsigned())
}

#[verifier::opaque]
pub open spec fn d_sub(a: F64, b: F64) -> F64 {
    if b.nan() { nan_value() } else { d_add(a, d_neg(b)) }
}

/// Multiplication: exact product, rounded.
#[verifier::opaque]
pub open spec fn d_mul(a: F64, b: F64) -> F64 {
    let negative = a.negative() != b.negative();
    if a.nan() || b.nan() || (a.infinite() && b.zero()) || (a.zero() && b.infinite()) {
        nan_value()
    } else if a.infinite() || b.infinite() {
        signed_pattern(negative, INFINITY_BITS as int)
    } else {
        signed_pattern(
            negative,
            nearest(magnitude(a.unsigned()) * magnitude(b.unsigned()), pow2(1074) as int),
        )
    }
}

/// Division: exact quotient, rounded.
#[verifier::opaque]
pub open spec fn d_div(a: F64, b: F64) -> F64 {
    let negative = a.negative() != b.negative();
    if a.nan() || b.nan() || (a.infinite() && b.infinite()) || (a.zero() && b.zero()) {
        nan_value()
    } else if a.infinite() || b.zero() {
        signed_pattern(negative, INFINITY_BITS as int)
    } else if b.infinite() {
        signed_pattern(negative, 0)
    } else {
        signed_pattern(
            negative,
            nearest(magnitude(a.unsigned()) * pow2(1074), magnitude(b.unsigned())),
        )
    }
}


pub open spec fn d_lt(a: F64, b: F64) -> bool {
    !a.nan() && !b.nan() && a.order() < b.order()
}

pub open spec fn d_le(a: F64, b: F64) -> bool {
    !a.nan() && !b.nan() && a.order() <= b.order()
}

pub open spec fn d_eq(a: F64, b: F64) -> bool {
    !a.nan() && !b.nan() && a.order() == b.order()
}

/// The nearest value to an integer.
#[verifier::opaque]
pub open spec fn d_from_int(x: int) -> F64 {
    signed_pattern(x < 0, nearest(abs_int(x) * pow2(1074), 1))
}


proof fn lemma_magnitude_step(b: int)
    requires
        0 <= b < INFINITY_BITS,
    ensures
        0 <= magnitude(b) < magnitude(b + 1),
{
    let e = b / 0x10_0000_0000_0000;
    let m = b % 0x10_0000_0000_0000;
    if m == 0xf_ffff_ffff_ffff {
        assert((b + 1) / 0x10_0000_0000_0000 == e + 1);
        assert((b + 1) % 0x10_0000_0000_0000 == 0);
        lemma_pow2_pos(e as nat);
        if e > 0 {
            lemma_pow2_unfold(e as nat);
            lemma_pow2_pos((e - 1) as nat);
            let p = pow2((e - 1) as nat) as int;
            assert((0x10_0000_0000_0000 + m) * p < 0x10_0000_0000_0000 * (2 * p)) by (nonlinear_arith)
                requires
                    m == 0xf_ffff_ffff_ffff,
                    p > 0,
            ;
            assert(0 <= (0x10_0000_0000_0000 + m) * p) by (nonlinear_arith)
                requires
                    m == 0xf_ffff_ffff_ffff,
                    p > 0,
            ;
        } else {
            lemma2_to64();
        }
    } else {
        assert((b + 1) / 0x10_0000_0000_0000 == e);
        assert((b + 1) % 0x10_0000_0000_0000 == m + 1);
        if e > 0 {
            lemma_pow2_pos((e - 1) as nat);
            let p = pow2((e - 1) as nat) as int;
            assert(0 <= (0x10_0000_0000_0000 + m) * p < (0x10_0000_0000_0000 + (m + 1)) * p) by (nonlinear_arith)
                requires
                    m >= 0,
                    p > 0,
            ;
        }
    }
}

/// The value grows with the sign-less pattern.
pub proof fn lemma_magnitude_monotone(b: int, c: int)
    requires
        0 <= b < c <= INFINITY_BITS,
    ensures
        0 <= magnitude(b) < magnitude(c),
    decreases c - b,
{
    lemma_magnitude_step(b);
    if b + 1 < c {
        lemma_magnitude_monotone(b + 1, c);
    }
}

proof fn lemma_magnitude_nonneg(b: int)
    requires
        0 <= b <= INFINITY_BITS,
    ensures
        0 <= magnitude(b),
        b > 0 ==> magnitude(b) > 0,
{
    assert(magnitude(0) == 0);
    if b > 0 {
        lemma_magnitude_monotone(0, b);
    }
}

/// At most one pattern is nearest.
pub proof fn lemma_rounds_to_unique(b: int, c: int, n: int, d: int)
    requires
        d > 0,
        rounds_to(b, n, d),
        rounds_to(c, n, d),
    ensures
        b == c,
    decreases (if b < c { 0int } else { 1int }),
{
    if b > c {
        lemma_rounds_to_unique(c, b, n, d);
    } else if b < c {
        lemma_magnitude_step(b);
        lemma_magnitude_step(c - 1);
        let x = magnitude(b) + magnitude(b + 1);
        let y = magnitude(c - 1) + magnitude(c);
        if b + 1 < c {
            lemma_magnitude_monotone(b, c - 1);
            lemma_magnitude_monotone(b + 1, c);
            assert(x < y);
            assert(x * d < y * d) by (nonlinear_arith)
                requires
                    x < y,
                    d > 0,
            ;
        }
    }
}

proof fn lemma_nearest(b: int, n: int, d: int)
    requires
        d > 0,
        rounds_to(b, n, d),
    ensures
        nearest(n, d) == b,
{
    lemma_rounds_to_unique(b, nearest(n, d), n, d);
}

/// The value of the pattern that holds a significand `q` at exponent step `s`.
proof fn lemma_magnitude_of_parts(s: int, q: int)
    requires
        0 <= s <= 2045,
        s == 0 ==> 0 <= q,
        s > 0 ==> 0x10_0000_0000_0000 <= q,
        q <= 0x20_0000_0000_0000,
    ensures
        magnitude(s * 0x10_0000_0000_0000 + q) == q * pow2(s as nat),
{
    let b = s * 0x10_0000_0000_0000 + q;
    lemma2_to64();
    if q < 0x10_0000_0000_0000 {
        assert(b / 0x10_0000_0000_0000 == 0);
        assert(b % 0x10_0000_0000_0000 == q);
        let one = pow2(s as nat) as int;
        assert(q * one == q) by (nonlinear_arith)
            requires
                one == 1,
        ;
    } else if q < 0x20_0000_0000_0000 {
        assert(b / 0x10_0000_0000_0000 == s + 1);
        assert(b % 0x10_0000_0000_0000 == q - 0x10_0000_0000_0000);
        assert(0x10_0000_0000_0000 + b % 0x10_0000_0000_0000 == q);
    } else {
        assert(b / 0x10_0000_0000_0000 == s + 2);
        assert(b % 0x10_0000_0000_0000 == 0);
        lemma_pow2_unfold((s + 1) as nat);
        let p = pow2(s as nat) as int;
        assert(q * p == 0x10_0000_0000_0000 * (2 * p)) by (nonlinear_arith)
            requires
                q == 0x20_0000_0000_0000,
        ;
    }
}

/// Rounding against a cut: `cut(c)` is negative, zero or positive as `c` is
/// below, at or above twice the value that is being rounded.
spec fn rounds_by(b: int, cut: spec_fn(int) -> int) -> bool {
    &&& 0 <= b <= INFINITY_BITS
    &&& b > 0 ==> {
        let low = magnitude(b - 1) + magnitude(b);
        cut(low) < 0 || (cut(low) == 0 && b % 2 == 0)
    }
    &&& b < INFINITY_BITS ==> {
        let high = magnitude(b) + magnitude(b + 1);
        cut(high) > 0 || (cut(high) == 0 && b % 2 == 0)
    }
}

spec fn up_scale(e: int) -> int {
    pow2((if e > 0 { e } else { 0 }) as nat) as int
}

spec fn down_scale(e: int) -> int {
    pow2((if e < 0 { -e } else { 0 }) as nat) as int
}

/// The value behind `cut` lies in the unit interval that starts at `m * 2^e`;
/// `sticky` tells whether it lies above its start.
spec fn brackets(cut: spec_fn(int) -> int, m: int, e: int, sticky: bool) -> bool {
    forall|c: int| c >= 0 ==> brackets_at(cut, #[trigger] cut(c), c, m, e, sticky)
}

spec fn brackets_at(cut: spec_fn(int) -> int, v: int, c: int, m: int, e: int, sticky: bool) -> bool {
    let lhs = c * down_scale(e);
    let start = 2 * m * up_scale(e);
    let end = 2 * (m + 1) * up_scale(e);
    &&& lhs < start ==> v < 0
    &&& lhs == start && sticky ==> v < 0
    &&& lhs == start && !sticky ==> v == 0
    &&& lhs > start && !sticky ==> v > 0
    &&& lhs >= end ==> v > 0
}

proof fn lemma_brackets_at(cut: spec_fn(int) -> int, c: int, m: int, e: int, sticky: bool, k: int, t: int, h: int)
    requires
        brackets(cut, m, e, sticky),
        t * down_scale(e) == k * up_scale(e),
        c == h * t,
        c >= 0,
    ensures
        h * k < 2 * m ==> cut(c) < 0,
        h * k == 2 * m && sticky ==> cut(c) < 0,
        h * k == 2 * m && !sticky ==> cut(c) == 0,
        h * k > 2 * m && !sticky ==> cut(c) > 0,
        h * k >= 2 * m + 2 ==> cut(c) > 0,
{
    let p = up_scale(e);
    let r = down_scale(e);
    lemma_pow2_pos((if e > 0 { e } else { 0 }) as nat);
    assert(brackets_at(cut, cut(c), c, m, e, sticky));
    let hk = h * k;
    assert(c * r == hk * p) by (nonlinear_arith)
        requires
            c == h * t,
            t * r == k * p,
            hk == h * k,
    ;
    assert(hk < 2 * m ==> hk * p < 2 * m * p) by (nonlinear_arith)
        requires
            p > 0,
    ;
    assert(hk > 2 * m ==> hk * p > 2 * m * p) by (nonlinear_arith)
        requires
            p > 0,
    ;
    assert(hk == 2 * m ==> hk * p == 2 * m * p) by (nonlinear_arith);
    assert(hk >= 2 * m + 2 ==> hk * p >= 2 * (m + 1) * p) by (nonlinear_arith)
        requires
            p > 0,
    ;
}

proof fn lemma_rounded(
    cut: spec_fn(int) -> int,
    m: int,
    e: int,
    k: int,
    s: int,
    q: int,
    sticky: bool,
)
    requires
        k > 0,
        0 <= s <= 2045,
        pow2(s as nat) * down_scale(e) == k * up_scale(e),
        brackets(cut, m, e, sticky),
        0 <= q <= 0x20_0000_0000_0000,
        s > 0 ==> 0x10_0000_0000_0000 <= q,
        s > 0 && q == 0x10_0000_0000_0000 ==> q * k <= m,
        q > 0 ==> (2 * q - 1) * k <= 2 * m,
        q > 0 && (2 * q - 1) * k == 2 * m && !sticky ==> q % 2 == 0,
        sticky ==> (2 * q + 1) * k >= 2 * m + 2,
        !sticky ==> (2 * q + 1) * k >= 2 * m,
        !sticky && (2 * q + 1) * k == 2 * m ==> q % 2 == 0,
    ensures
        rounds_by(s * 0x10_0000_0000_0000 + q, cut),
{
    let t = pow2(s as nat) as int;
    let b = s * 0x10_0000_0000_0000 + q;
    lemma_pow2_pos(s as nat);
    lemma_magnitude_of_parts(s, q);
    assert(b % 2 == q % 2);
    if b > 0 {
        let low = magnitude(b - 1) + magnitude(b);
        lemma_magnitude_nonneg(b - 1);
        lemma_magnitude_nonneg(b);
        if s == 0 || q > 0x10_0000_0000_0000 {
            lemma_magnitude_of_parts(s, q - 1);
            assert(b - 1 == s * 0x10_0000_0000_0000 + (q - 1));
            assert((q - 1) * t + q * t == (2 * q - 1) * t) by (nonlinear_arith);
            lemma_brackets_at(cut, low, m, e, sticky, k, t, 2 * q - 1);
        } else {
            lemma_magnitude_step(b - 1);
            let r = down_scale(e);
            let p = up_scale(e);
            lemma_pow2_pos((if e < 0 { -e } else { 0 }) as nat);
            lemma_pow2_pos((if e > 0 { e } else { 0 }) as nat);
            assert(low < (2 * q) * t) by (nonlinear_arith)
                requires
                    low < 2 * (q * t),
            ;
            assert(brackets_at(cut, cut(low), low, m, e, sticky));
            assert(low * r < 2 * m * p) by (nonlinear_arith)
                requires
                    low < (2 * q) * t,
                    t * r == k * p,
                    q * k <= m,
                    r > 0,
                    p > 0,
            {
                assert(low * r < (2 * q) * t * r) by (nonlinear_arith)
                    requires
                        low < (2 * q) * t,
                        r > 0,
                ;
                assert((2 * q) * t * r == 2 * (q * k) * p) by (nonlinear_arith)
                    requires
                        t * r == k * p,
                ;
                assert(2 * (q * k) * p <= 2 * m * p) by (nonlinear_arith)
                    requires
                        q * k <= m,
                        p > 0,
                ;
            }
        }
    }
    if b < INFINITY_BITS {
        let high = magnitude(b) + magnitude(b + 1);
        lemma_magnitude_nonneg(b + 1);
        lemma_magnitude_nonneg(b);
        if q < 0x20_0000_0000_0000 {
            lemma_magnitude_of_parts(s, q + 1);
            assert(b + 1 == s * 0x10_0000_0000_0000 + (q + 1));
            assert(q * t + (q + 1) * t == (2 * q + 1) * t) by (nonlinear_arith);
            lemma_brackets_at(cut, high, m, e, sticky, k, t, 2 * q + 1);
        } else {
            lemma_magnitude_of_parts(s + 1, 0x10_0000_0000_0001);
            assert(b + 1 == (s + 1) * 0x10_0000_0000_0000 + 0x10_0000_0000_0001);
            lemma_pow2_unfold((s + 1) as nat);
            assert(high == (2 * q + 2) * t) by (nonlinear_arith)
                requires
                    high == q * t + 0x10_0000_0000_0001 * (2 * t),
                    q == 0x20_0000_0000_0000,
            ;
            lemma_brackets_at(cut, high, m, e, sticky, k, t, 2 * q + 2);
            assert((2 * q + 2) * k == (2 * q + 1) * k + k) by (nonlinear_arith);
        }
    }
}

/// Powers beyond 64 bits that bound the significands.
proof fn lemma_wide_powers()
    ensures
        pow2(120) == 0x100_0000_0000_0000_0000_0000_0000_0000,
        pow2(124) == 0x1000_0000_0000_0000_0000_0000_0000_0000,
        pow2(125) == 0x2000_0000_0000_0000_0000_0000_0000_0000,
{
    lemma2_to64();
    lemma2_to64_rest();
    lemma_pow2_adds(60, 60);
    lemma_pow2_adds(62, 62);
    lemma_pow2_unfold(125);
}

/// 2^k.
fn two_to(k: u32) -> (r: u128)
    requires
        k < 125,
    ensures
        r == pow2(k as nat),
        r > 0,
{
    let mut r: u128 = 1;
    let mut i: u32 = 0;
    proof {
        lemma2_to64();
        lemma_wide_powers();
    }
    while i < k
        invariant
            i <= k < 125,
            r == pow2(i as nat),
            r > 0,
            pow2(124) == 0x1000_0000_0000_0000_0000_0000_0000_0000,
        decreases k - i,
    {
        proof {
            lemma_pow2_unfold((i + 1) as nat);
            if i < 124 {
                lemma_pow2_strictly_increases(i as nat, 124);
            }
        }
        r = r * 2;
        i = i + 1;
    }
    r
}

/// Rounds the value that `m`, `e` and `sticky` bracket.
fn round_pack(m: u128, e: i32, sticky: bool, Ghost(cut): Ghost<spec_fn(int) -> int>) -> (b: u64)
    requires
        m < 0x1000_0000_0000_0000_0000_0000_0000_0000,
        sticky ==> m >= 0x40_0000_0000_0000,
        -5000 <= e <= 5000,
        brackets(cut, m as int, e as int, sticky),
    ensures
        rounds_by(b as int, cut),
{
    let ghost p = up_scale(e as int);
    let ghost r = down_scale(e as int);
    proof {
        lemma_pow2_pos((if e > 0 { e as int } else { 0 }) as nat);
        lemma_pow2_pos((if e < 0 { -e } else { 0 }) as nat);
        lemma2_to64();
        lemma2_to64_rest();
        lemma_wide_powers();
    }
    if m == 0 {
        proof {
            assert(magnitude(0) == 0);
            assert(magnitude(1) == 1);
            assert(brackets_at(cut, cut(1), 1, 0, e as int, false));
            assert(1 * r > 2 * 0 * p) by (nonlinear_arith)
                requires
                    r > 0,
            ;
        }
        return 0;
    }
    let mut len: u32 = 0;
    let mut top: u128 = 1;
    while top <= m
        invariant
            0 < m < 0x1000_0000_0000_0000_0000_0000_0000_0000,
            len <= 124,
            top == pow2(len as nat),
            len > 0 ==> pow2((len - 1) as nat) <= m,
            top <= 0x1000_0000_0000_0000_0000_0000_0000_0000,
            pow2(124) == 0x1000_0000_0000_0000_0000_0000_0000_0000,
        decreases 124 - len,
    {
        proof {
            if len == 124 {
            } else if len == 123 {
                lemma_pow2_unfold(124);
            } else {
                lemma_pow2_strictly_increases((len + 1) as nat, 124);
            }
            lemma_pow2_unfold((len + 1) as nat);
        }
        top = top * 2;
        len = len + 1;
    }
    let fit: i32 = e + len as i32 - 53;
    let s: i32 = if fit > 0 { fit } else { 0 };
    if s >= 2046 {
        proof {
            lemma_overflows(cut, m as int, e as int, len as int, sticky);
        }
        return INFINITY_BITS;
    }
    let k: i32 = s - e;
    if k <= 0 {
        let scale: u128 = two_to((-k) as u32);
        proof {
            let j = (-k) as nat;
            lemma_pow2_adds(j, (53 - j) as nat);
            lemma_pow2_adds(len as nat, j);
            lemma_pow2_adds((len - 1) as nat, j);
            if len + j < 53 {
                lemma_pow2_strictly_increases((len + j) as nat, 53);
            }
            let mm = m as int;
            let sc = scale as int;
            assert(mm * sc < pow2(len as nat) * sc) by (nonlinear_arith)
                requires
                    mm < pow2(len as nat),
                    sc > 0,
            ;
            assert(pow2((len - 1) as nat) * sc <= mm * sc) by (nonlinear_arith)
                requires
                    pow2((len - 1) as nat) <= mm,
                    sc > 0,
            ;
            lemma_pow2_adds(s as nat, j);
            let t = pow2(s as nat) as int;
            assert(p == t * sc);
            assert(r == 1);
            let q = mm * sc;
            assert(up_scale(s as int) == t);
            assert(down_scale(s as int) == 1);
            assert(2 * q * t == 2 * mm * p) by (nonlinear_arith)
                requires
                    p == t * sc,
                    q == mm * sc,
            ;
            lemma_pow2_pos(s as nat);
            assert(2 * (q + 1) * t > 2 * q * t) by (nonlinear_arith)
                requires
                    t > 0,
            ;
            assert forall|c: int| c >= 0 implies brackets_at(cut, #[trigger] cut(c), c, q, s as int, false) by {
                assert(brackets_at(cut, cut(c), c, mm, e as int, false));
            }
            assert(t * 1 == 1 * t) by (nonlinear_arith);
            assert(q * 1 == q);
            lemma_rounded(cut, q, s as int, 1, s as int, q, false);
        }
        let q: u128 = m * scale;
        return (s as u64) * FRACTION_UNIT + q as u64;
    }
    proof {
        lemma_pow2_adds(s as nat, (if e < 0 { -e } else { 0 }) as nat);
        lemma_pow2_adds(k as nat, (if e > 0 { e as int } else { 0 }) as nat);
        assert(pow2(s as nat) * r == pow2(k as nat) * p);
    }
    if k >= 125 {
        proof {
            let kk = pow2(k as nat) as int;
            lemma_pow2_unfold(125);
            if k > 125 {
                lemma_pow2_strictly_increases(125, k as nat);
            }
            assert((2 * 0 + 1) * kk == kk) by (nonlinear_arith);
            lemma_rounded(cut, m as int, e as int, kk, s as int, 0, sticky);
        }
        return 0;
    }
    let unit: u128 = two_to(k as u32);
    let q: u128 = m / unit;
    let rem: u128 = m % unit;
    let half: u128 = unit / 2;
    let up: bool = rem > half || (rem == half && (sticky || q % 2 == 1));
    let rounded: u128 = if up { q + 1 } else { q };
    proof {
        lemma_pow2_unfold(k as nat);
        let mm = m as int;
        let u = unit as int;
        assert(u == 2 * half);
        assert(mm == q * u + rem) by (nonlinear_arith)
            requires
                q == mm / u,
                rem == mm % u,
                u > 0,
        ;
        // q < 2^(len - k) and, when normal, 2^52 <= q.
        let lk = if len >= k { (len - k) as nat } else { 0nat };
        if len >= k {
            lemma_pow2_adds(lk, k as nat);
            if lk < 53 {
                lemma_pow2_strictly_increases(lk, 53);
            }
            assert(q < pow2(lk)) by (nonlinear_arith)
                requires
                    q * u + rem < pow2(lk) * u,
                    rem >= 0,
                    u > 0,
            ;
        } else {
            lemma_pow2_strictly_increases(len as nat, k as nat);
            assert(q < 1) by (nonlinear_arith)
                requires
                    q * u + rem < u,
                    rem >= 0,
                    u > 0,
            ;
        }
        assert(q < 0x20_0000_0000_0000);
        if s > 0 {
            assert(k == len - 53);
            lemma_pow2_adds(52, k as nat);
            assert(q >= 0x10_0000_0000_0000) by (nonlinear_arith)
                requires
                    q * u + rem >= 0x10_0000_0000_0000 * u,
                    rem < u,
                    u > 0,
            ;
        }
        let qq = rounded as int;
        let qi = q as int;
        let h = half as int;
        let rm = rem as int;
        if up {
            assert((2 * qq - 1) * u == 2 * (qi * u) + u) by (nonlinear_arith)
                requires
                    qq == qi + 1,
            ;
            assert((2 * qq + 1) * u == 2 * (qi * u) + 3 * u) by (nonlinear_arith)
                requires
                    qq == qi + 1,
            ;
        } else {
            assert((2 * qq - 1) * u == 2 * (qi * u) - u) by (nonlinear_arith)
                requires
                    qq == qi,
            ;
            assert((2 * qq + 1) * u == 2 * (qi * u) + u) by (nonlinear_arith)
                requires
                    qq == qi,
            ;
        }
        lemma_rounded(cut, mm, e as int, u, s as int, qq, sticky);
    }
    (s as u64) * FRACTION_UNIT + rounded as u64
}

proof fn lemma_overflows(cut: spec_fn(int) -> int, m: int, e: int, len: int, sticky: bool)
    requires
        0 < len <= 124,
        m >= pow2((len - 1) as nat),
        e + len - 53 >= 2046,
        brackets(cut, m, e, sticky),
    ensures
        rounds_by(INFINITY_BITS as int, cut),
{
    let p = up_scale(e);
    lemma_pow2_adds((len - 1) as nat, e as nat);
    lemma2_to64();
    lemma2_to64_rest();
    lemma_pow2_adds(52, 2046);
    if len - 1 + e > 2098 {
        lemma_pow2_strictly_increases(2098, (len - 1 + e) as nat);
    }
    lemma_pow2_pos(e as nat);
    let big = magnitude(INFINITY_BITS as int);
    assert(INFINITY_BITS as int / 0x10_0000_0000_0000 == 2047);
    assert(INFINITY_BITS as int % 0x10_0000_0000_0000 == 0);
    assert(big == pow2(2098));
    assert(m * p >= big) by (nonlinear_arith)
        requires
            m >= pow2((len - 1) as nat),
            pow2((len - 1) as nat) * p >= big,
            p > 0,
    ;
    lemma_magnitude_step(INFINITY_BITS - 1);
    let low = magnitude(INFINITY_BITS - 1) + big;
    assert(brackets_at(cut, cut(low), low, m, e, sticky));
    assert(2 * m * p == 2 * (m * p)) by (nonlinear_arith);
    assert(low * down_scale(e) == low) by (nonlinear_arith)
        requires
            down_scale(e) == 1,
    ;
}

spec fn ratio_cut(n: int, d: int) -> spec_fn(int) -> int {
    |c: int| c * d - 2 * n
}


proof fn lemma_ratio_rounded(b: int, n: int, d: int)
    requires
        d > 0,
        rounds_by(b, ratio_cut(n, d)),
    ensures
        nearest(n, d) == b,
        0 <= b <= INFINITY_BITS,
{
    assert(rounds_to(b, n, d));
    lemma_rounds_to_unique(b, nearest(n, d), n, d);
}


proof fn lemma_brackets_ratio(n: int, d: int, m: int, e: int, sticky: bool)
    requires
        d > 0,
        m * up_scale(e) * d <= n * down_scale(e) < (m + 1) * up_scale(e) * d,
        !sticky ==> m * up_scale(e) * d == n * down_scale(e),
        sticky ==> m * up_scale(e) * d < n * down_scale(e),
    ensures
        brackets(ratio_cut(n, d), m, e, sticky),
{
    let cut = ratio_cut(n, d);
    let p = up_scale(e);
    let r = down_scale(e);
    lemma_pow2_pos((if e < 0 { -e } else { 0 }) as nat);
    assert forall|c: int| c >= 0 implies brackets_at(cut, #[trigger] cut(c), c, m, e, sticky) by {
        let v = c * d - 2 * n;
        let lhs = c * r;
        let start = 2 * m * p;
        let end = 2 * (m + 1) * p;
        let nr = n * r;
        assert(v * r == lhs * d - 2 * nr) by (nonlinear_arith)
            requires
                v == c * d - 2 * n,
                lhs == c * r,
                nr == n * r,
        ;
        assert(start * d == 2 * (m * p * d)) by (nonlinear_arith)
            requires
                start == 2 * m * p,
        ;
        assert(end * d == 2 * ((m + 1) * p * d)) by (nonlinear_arith)
            requires
                end == 2 * (m + 1) * p,
        ;
        assert(lhs < start ==> lhs * d < start * d) by (nonlinear_arith)
            requires
                d > 0,
        ;
        assert(lhs > start ==> lhs * d > start * d) by (nonlinear_arith)
            requires
                d > 0,
        ;
        assert(lhs == start ==> lhs * d == start * d);
        assert(lhs >= end ==> lhs * d >= end * d) by (nonlinear_arith)
            requires
                d > 0,
        ;
        assert(v * r < 0 ==> v < 0) by (nonlinear_arith)
            requires
                r > 0,
        ;
        assert(v * r > 0 ==> v > 0) by (nonlinear_arith)
            requires
                r > 0,
        ;
        assert(v * r == 0 ==> v == 0) by (nonlinear_arith)
            requires
                r > 0,
        ;
    }
}

/// An integer multiple of 2^(e - 1074) brackets itself.
proof fn lemma_brackets_integer(m: int, e: int)
    requires
        e >= 0,
        m >= 0,
    ensures
        brackets(ratio_cut(m * pow2(e as nat), 1), m, e, false),
{
    lemma_pow2_pos(e as nat);
    lemma2_to64();
    let p = pow2(e as nat) as int;
    assert(up_scale(e) == p);
    assert(down_scale(e) == 1);
    let n = m * p;
    assert(m * p * 1 == n * 1) by (nonlinear_arith)
        requires
            n == m * p,
    ;
    assert((m + 1) * p * 1 > n * 1) by (nonlinear_arith)
        requires
            n == m * p,
            p > 0,
    ;
    lemma_brackets_ratio(n, 1, m, e, false);
}

/// An integer without its last four bits brackets itself.
proof fn lemma_brackets_sixteenths(m: int)
    requires
        m >= 0,
    ensures
        brackets(ratio_cut(m * pow2(1074), 1), m / 16, 1078, m % 16 != 0),
{
    lemma2_to64();
    lemma_pow2_pos(1074);
    lemma_pow2_adds(4, 1074);
    let q = pow2(1074) as int;
    let p = pow2(1078) as int;
    assert(up_scale(1078) == p);
    assert(down_scale(1078) == 1);
    let h = m / 16;
    let n = m * q;
    assert(h * p * 1 == (16 * h) * q && (h + 1) * p * 1 == (16 * h + 16) * q) by (nonlinear_arith)
        requires
            p == 16 * q,
    ;
    assert((16 * h) * q <= n < (16 * h + 16) * q && ((16 * h) * q == n <==> 16 * h == m)) by (nonlinear_arith)
        requires
            n == m * q,
            16 * h <= m < 16 * h + 16,
            q > 0,
    ;
    lemma_brackets_ratio(n, 1, h, 1078, m % 16 != 0);
}

/// Significand and exponent step of a finite sign-less pattern.
pub(crate) fn parts(b: u64) -> (r: (u128, u32))
    requires
        b < INFINITY_BITS,
    ensures
        magnitude(b as int) == r.0 * pow2(r.1 as nat),
        r.0 < 0x20_0000_0000_0000,
        r.1 <= 2045,
        r.1 == (if b / 0x10_0000_0000_0000 == 0 { 0int } else { b / 0x10_0000_0000_0000 - 1 }),
        r.1 > 0 ==> r.0 >= 0x10_0000_0000_0000,
        b > 0 ==> r.0 > 0,
        b == 0 ==> r.0 == 0,
{
    let field: u64 = b / FRACTION_UNIT;
    let fraction: u64 = b % FRACTION_UNIT;
    if field == 0 {
        proof {
            lemma2_to64();
            let one = pow2(0) as int;
            assert(fraction * one == fraction) by (nonlinear_arith)
                requires
                    one == 1,
            ;
        }
        (fraction as u128, 0)
    } else {
        ((FRACTION_UNIT + fraction) as u128, (field - 1) as u32)
    }
}

fn with_sign(negative: bool, b: u64) -> (r: F64)
    requires
        b <= INFINITY_BITS,
    ensures
        r == signed_pattern(negative, b as int),
        r.negative() == negative,
        r.unsigned() == b,
{
    if negative {
        F64 { bits: b + SIGN_UNIT }
    } else {
        F64 { bits: b }
    }
}

/// Rounds the sum or difference of two finite magnitudes, the first the larger.
fn combine(x: u64, y: u64, subtract: bool) -> (b: u64)
    requires
        y <= x < INFINITY_BITS,
    ensures
        b <= INFINITY_BITS,
        b == nearest(
            if subtract { magnitude(x as int) - magnitude(y as int) } else { magnitude(x as int) + magnitude(y as int) },
            1,
        ),
{
    let (mx, ex) = parts(x);
    let (my, ey) = parts(y);
    let ghost n = if subtract { magnitude(x as int) - magnitude(y as int) } else { magnitude(x as int) + magnitude(y as int) };
    let ghost cut = ratio_cut(n, 1);
    assert(ey <= ex);
    let gap: u32 = ex - ey;
    proof {
        if y < x {
            lemma_magnitude_monotone(y as int, x as int);
        }
        lemma_pow2_pos(ex as nat);
        lemma_pow2_pos(ey as nat);
        lemma2_to64();
        lemma2_to64_rest();
    }
    if gap <= 62 {
        let scale: u128 = two_to(gap);
        proof {
            lemma_pow2_adds(gap as nat, ey as nat);
            if gap < 62 {
                lemma_pow2_strictly_increases(gap as nat, 62);
            }
            let sx = mx * scale;
            let sc = scale as int;
            let py = pow2(ey as nat) as int;
            assert(0 <= sx <= 0x20_0000_0000_0000 * 0x4000_0000_0000_0000) by (nonlinear_arith)
                requires
                    0 <= mx < 0x20_0000_0000_0000,
                    0 < sc <= 0x4000_0000_0000_0000,
                    sx == mx * sc,
            ;
            assert(magnitude(x as int) == sx * py) by (nonlinear_arith)
                requires
                    magnitude(x as int) == mx * (sc * py),
                    sx == mx * sc,
            ;
            assert(my <= sx) by (nonlinear_arith)
                requires
                    my * py <= sx * py,
                    py > 0,
            ;
            assert(sx * py + my * py == (sx + my) * py) by (nonlinear_arith);
            assert(sx * py - my * py == (sx - my) * py) by (nonlinear_arith);
        }
        let base: u128 = mx * scale;
        let m: u128 = if subtract { base - my } else { base + my };
        proof {
            lemma_brackets_integer(m as int, ey as int);
        }
        let b: u64 = round_pack(m, ey as i32, false, Ghost(cut));
        proof {
            lemma_ratio_rounded(b as int, n, 1);
        }
        b
    } else {
        let base: u128 = mx * 256;
        let e: i32 = ex as i32 - 8;
        let sticky: bool = my != 0;
        let m: u128 = if subtract && sticky { base - 1 } else { base };
        proof {
            let pe = pow2(e as nat) as int;
            lemma_pow2_adds(8, e as nat);
            lemma_pow2_adds(53, ey as nat);
            lemma_pow2_pos(e as nat);
            assert(magnitude(x as int) == base * pe) by (nonlinear_arith)
                requires
                    magnitude(x as int) == mx * (256 * pe),
                    base == mx * 256,
            ;
            let y_value = magnitude(y as int);
            let py = pow2(ey as nat) as int;
            assert(0 <= y_value < 0x20_0000_0000_0000 * py) by (nonlinear_arith)
                requires
                    y_value == my * py,
                    0 <= my < 0x20_0000_0000_0000,
                    py > 0,
            ;
            assert(sticky ==> y_value > 0) by (nonlinear_arith)
                requires
                    y_value == my * py,
                    py > 0,
                    sticky ==> my > 0,
            ;
            if !sticky {
                assert(y_value == 0) by (nonlinear_arith)
                    requires
                        y_value == my * py,
                        my == 0,
                ;
            }
            lemma_pow2_strictly_increases((53 + ey) as nat, e as nat);
            assert(y_value < pe);
            assert(up_scale(e as int) == pe);
            assert(down_scale(e as int) == 1);
            let mm = m as int;
            assert(mm * pe * 1 == mm * pe) by (nonlinear_arith);
            assert((mm + 1) * pe * 1 == mm * pe + pe) by (nonlinear_arith);
            assert((base - 1) * pe == base * pe - pe) by (nonlinear_arith);
            assert(n * 1 == n);
            lemma_brackets_ratio(n, 1, mm, e as int, sticky);
        }
        let b: u64 = round_pack(m, e, sticky, Ghost(cut));
        proof {
            lemma_ratio_rounded(b as int, n, 1);
        }
        b
    }
}


impl F64 {
    /// Positive zero.
    pub fn zero_value() -> (r: F64)
        ensures
            r.bits == 0,
    {
        F64 { bits: 0 }
    }

    pub(crate) fn magnitude_bits(self) -> (b: u64)
        ensures
            b == self.unsigned(),
    {
        self.bits % SIGN_UNIT
    }

    pub(crate) fn sign_bit(self) -> (r: bool)
        ensures
            r == self.negative(),
    {
        self.bits >= SIGN_UNIT
    }

    /// Whether the value is NaN.
    pub fn is_nan(self) -> (r: bool)
        ensures
            r == self.nan(),
    {
        self.magnitude_bits() > INFINITY_BITS
    }

    /// Whether the value is neither infinite nor NaN.
    pub fn is_finite(self) -> (r: bool)
        ensures
            r == self.finite(),
    {
        self.magnitude_bits() < INFINITY_BITS
    }

    /// The value with its sign flipped.
    pub fn negate(self) -> (r: F64)
        ensures
            r == d_neg(self),
    {
        if self.bits >= SIGN_UNIT {
            F64 { bits: self.bits - SIGN_UNIT }
        } else {
            F64 { bits: self.bits + SIGN_UNIT }
        }
    }

    /// `self + other`.
    pub fn plus(self, other: F64) -> (r: F64)
        ensures
            r == d_add(self, other),
    {
        reveal(d_add);
        let x: u64 = self.magnitude_bits();
        let y: u64 = other.magnitude_bits();
        let sx: bool = self.sign_bit();
        let sy: bool = other.sign_bit();
        if x > INFINITY_BITS || y > INFINITY_BITS || (x == INFINITY_BITS && y == INFINITY_BITS && sx != sy) {
            F64 { bits: NAN_BITS }
        } else if x == INFINITY_BITS {
            self
        } else if y == INFINITY_BITS {
            other
        } else {
            proof {
                lemma_magnitude_nonneg(x as int);
                lemma_magnitude_nonneg(y as int);
                if x < y {
                    lemma_magnitude_monotone(x as int, y as int);
                } else if y < x {
                    lemma_magnitude_monotone(y as int, x as int);
                }
            }
            if x == y && sx != sy {
                F64 { bits: 0 }
            } else if x == 0 && y == 0 {
                with_sign(sx && sy, 0)
            } else if x >= y {
                with_sign(sx, combine(x, y, sx != sy))
            } else {
                with_sign(sy, combine(y, x, sx != sy))
            }
        }
    }

    /// `self - other`.
    pub fn minus(self, other: F64) -> (r: F64)
        ensures
            r == d_sub(self, other),
    {
        reveal(d_sub);
        if other.is_nan() {
            F64 { bits: NAN_BITS }
        } else {
            self.plus(other.negate())
        }
    }
}

/// Rounds the product of two finite magnitudes.
fn product(x: u64, y: u64) -> (b: u64)
    requires
        x < INFINITY_BITS,
        y < INFINITY_BITS,
    ensures
        b <= INFINITY_BITS,
        b == nearest(magnitude(x as int) * magnitude(y as int), pow2(1074) as int),
{
    let (mx, ex) = parts(x);
    let (my, ey) = parts(y);
    let ghost n = magnitude(x as int) * magnitude(y as int);
    let ghost d = pow2(1074) as int;
    let e: i32 = ex as i32 + ey as i32 - 1074;
    assert(mx * my < 0x20_0000_0000_0000 * 0x20_0000_0000_0000) by (nonlinear_arith)
        requires
            0 <= mx < 0x20_0000_0000_0000,
            0 <= my < 0x20_0000_0000_0000,
    ;
    let m: u128 = mx * my;
    proof {
        let px = pow2(ex as nat) as int;
        let py = pow2(ey as nat) as int;
        let mm = m as int;
        let p = up_scale(e as int);
        let r = down_scale(e as int);
        lemma_pow2_pos(1074);
        lemma_pow2_pos((if e > 0 { e as int } else { 0 }) as nat);
        lemma2_to64();
        lemma_pow2_adds(ex as nat, ey as nat);
        let pxy = pow2((ex + ey) as nat) as int;
        assert(n == mm * pxy) by (nonlinear_arith)
            requires
                n == (mx * px) * (my * py),
                mm == mx * my,
                pxy == px * py,
        ;
        lemma_pow2_adds(1074, (if e > 0 { e as int } else { 0 }) as nat);
        lemma_pow2_adds((ex + ey) as nat, (if e < 0 { -e } else { 0 }) as nat);
        let pos = (if e > 0 { e as int } else { 0 }) as nat;
        let neg = (if e < 0 { -e } else { 0 }) as nat;
        assert(1074 + pos == (ex + ey) as nat + neg);
        assert(p * d == d * p) by (nonlinear_arith);
        assert(p * d == pxy * r);
        assert(mm * p * d == n * r) by (nonlinear_arith)
            requires
                n == mm * pxy,
                p * d == pxy * r,
        ;
        assert((mm + 1) * p * d > mm * p * d) by (nonlinear_arith)
            requires
                p > 0,
                d > 0,
        ;
        lemma_brackets_ratio(n, d, mm, e as int, false);
    }
    let b: u64 = round_pack(m, e, false, Ghost(ratio_cut(n, d)));
    proof {
        lemma_ratio_rounded(b as int, n, d);
    }
    b
}

/// Scales a non-zero significand up to at least `floor`, a power of two: the
/// scaled value and the number of doublings.
fn normalise(m: u128, limit: u128) -> (r: (u128, u32))
    requires
        0 < m < 0x20_0000_0000_0000,
        0x20_0000_0000_0000 <= limit <= 0x100_0000_0000_0000_0000_0000_0000_0000,
    ensures
        r.0 == m * pow2(r.1 as nat),
        limit <= r.0 < 2 * limit,
        r.1 <= 120,
{
    let mut scaled: u128 = m;
    let mut shift: u32 = 0;
    proof {
        lemma2_to64();
        lemma2_to64_rest();
        lemma_wide_powers();
        let one = pow2(0) as int;
        assert(m * one == m) by (nonlinear_arith)
            requires
                one == 1,
        ;
    }
    while scaled < limit
        invariant
            0 < m < 0x20_0000_0000_0000,
            0x20_0000_0000_0000 <= limit <= 0x100_0000_0000_0000_0000_0000_0000_0000,
            scaled == m * pow2(shift as nat),
            scaled < 2 * limit,
            scaled >= 1,
            pow2(120) == 0x100_0000_0000_0000_0000_0000_0000_0000,
            shift <= 120,
        decreases 2 * limit - scaled,
    {
        proof {
            lemma_pow2_unfold((shift + 1) as nat);
            let p = pow2(shift as nat) as int;
            assert(m * (2 * p) == 2 * (m * p)) by (nonlinear_arith);
            lemma_pow2_pos(shift as nat);
            assert(p <= m * p) by (nonlinear_arith)
                requires
                    m >= 1,
                    p > 0,
            ;
            if shift >= 120 {
                assert(false);
            }
        }
        scaled = scaled * 2;
        shift = shift + 1;
    }
    (scaled, shift)
}

/// Rounds the quotient of two finite magnitudes, neither zero.
fn quotient(x: u64, y: u64) -> (b: u64)
    requires
        0 < x < INFINITY_BITS,
        0 < y < INFINITY_BITS,
    ensures
        b <= INFINITY_BITS,
        b == nearest(magnitude(x as int) * pow2(1074), magnitude(y as int)),
{
    let (mx, ex) = parts(x);
    let (my, ey) = parts(y);
    let ghost n = magnitude(x as int) * pow2(1074);
    let ghost d = magnitude(y as int);
    let (scaled, shift) = normalise(mx, 0x100_0000_0000_0000_0000_0000_0000_0000);
    let e: i32 = ex as i32 - ey as i32 + 1074 - shift as i32;
    let m: u128 = scaled / my;
    let rest: u128 = scaled % my;
    let sticky: bool = rest != 0;
    proof {
        lemma_magnitude_nonneg(y as int);
        let sc = scaled as int;
        let q = m as int;
        let mv = my as int;
        assert(sc == q * mv + rest) by (nonlinear_arith)
            requires
                q == sc / mv,
                rest == sc % mv,
                mv > 0,
        ;
        assert(q >= 0x40_0000_0000_0000) by (nonlinear_arith)
            requires
                q * mv + rest >= 0x100_0000_0000_0000_0000_0000_0000_0000,
                0 <= rest < mv,
                0 < mv < 0x20_0000_0000_0000,
        ;
        let p = up_scale(e as int);
        let r = down_scale(e as int);
        lemma2_to64();
        let pxe = pow2(ex as nat) as int;
        let pye = pow2(ey as nat) as int;
        let psh = pow2(shift as nat) as int;
        let w: int;
        if e >= 0 {
            // n == scaled * 2^(ex + 1074 - shift), p * d == my * that.
            let j = (ex + 1074 - shift) as nat;
            w = pow2(j) as int;
            lemma_pow2_adds(shift as nat, j);
            lemma_pow2_adds(ex as nat, 1074);
            lemma_pow2_adds(e as nat, ey as nat);
            assert(n == sc * w) by (nonlinear_arith)
                requires
                    n == (mx * pxe) * pow2(1074),
                    sc == mx * psh,
                    psh * w == pxe * pow2(1074),
            ;
            assert(n * r == sc * w) by (nonlinear_arith)
                requires
                    n == sc * w,
                    r == 1,
            ;
            assert(p * d == mv * w) by (nonlinear_arith)
                requires
                    d == mv * pye,
                    p * pye == w,
            ;
        } else {
            w = pye;
            lemma_pow2_adds((ex + 1074) as nat, (-e) as nat);
            lemma_pow2_adds(ex as nat, 1074);
            lemma_pow2_adds(ey as nat, shift as nat);
            assert(n * r == sc * w) by (nonlinear_arith)
                requires
                    n == (mx * pxe) * pow2(1074),
                    sc == mx * psh,
                    (pxe * pow2(1074)) * r == pye * psh,
                    w == pye,
            ;
            assert(p * d == mv * w) by (nonlinear_arith)
                requires
                    d == mv * pye,
                    p == 1,
                    w == pye,
            ;
        }
        lemma_pow2_pos(ey as nat);
        if e >= 0 {
            lemma_pow2_pos((ex + 1074 - shift) as nat);
        }
        assert(q * p * d == (q * mv) * w) by (nonlinear_arith)
            requires
                p * d == mv * w,
        ;
        assert((q + 1) * p * d == (q * mv + mv) * w) by (nonlinear_arith)
            requires
                p * d == mv * w,
        ;
        assert((q * mv) * w <= sc * w) by (nonlinear_arith)
            requires
                q * mv <= sc,
                w > 0,
        ;
        if sticky {
            assert((q * mv) * w < sc * w) by (nonlinear_arith)
                requires
                    q * mv < sc,
                    w > 0,
            ;
        }
        assert(sc * w < (q * mv + mv) * w) by (nonlinear_arith)
            requires
                sc < q * mv + mv,
                w > 0,
        ;
        assert(q < 0x1000_0000_0000_0000_0000_0000_0000_0000) by (nonlinear_arith)
            requires
                q * mv + rest < 0x1000_0000_0000_0000_0000_0000_0000_0000,
                rest >= 0,
                mv >= 1,
                q >= 0,
        ;
        lemma_brackets_ratio(n, d, q, e as int, sticky);
    }
    let b: u64 = round_pack(m, e, sticky, Ghost(ratio_cut(n, d)));
    proof {
        lemma_ratio_rounded(b as int, n, d);
    }
    b
}


impl F64 {
    /// `self * other`.
    pub fn times(self, other: F64) -> (r: F64)
        ensures
            r == d_mul(self, other),
    {
        reveal(d_mul);
        let x: u64 = self.magnitude_bits();
        let y: u64 = other.magnitude_bits();
        let negative: bool = self.sign_bit() != other.sign_bit();
        if x > INFINITY_BITS || y > INFINITY_BITS || (x == INFINITY_BITS && y == 0) || (x == 0 && y
            == INFINITY_BITS) {
            F64 { bits: NAN_BITS }
        } else if x == INFINITY_BITS || y == INFINITY_BITS {
            with_sign(negative, INFINITY_BITS)
        } else {
            with_sign(negative, product(x, y))
        }
    }

    /// `self / other`.
    pub fn over(self, other: F64) -> (r: F64)
        ensures
            r == d_div(self, other),
    {
        reveal(d_div);
        let x: u64 = self.magnitude_bits();
        let y: u64 = other.magnitude_bits();
        let negative: bool = self.sign_bit() != other.sign_bit();
        if x > INFINITY_BITS || y > INFINITY_BITS || (x == INFINITY_BITS && y == INFINITY_BITS) || (x == 0
            && y == 0) {
            F64 { bits: NAN_BITS }
        } else if x == INFINITY_BITS || y == 0 {
            with_sign(negative, INFINITY_BITS)
        } else if y == INFINITY_BITS {
            with_sign(negative, 0)
        } else if x == 0 {
            proof {
                lemma_magnitude_nonneg(y as int);
                let d = magnitude(y as int);
                assert(magnitude(0) == 0);
                assert(magnitude(1) == 1);
                assert(0 * pow2(1074) == 0) by (nonlinear_arith);
                assert(rounds_to(0, 0, d)) by {
                    assert((0 + 1) * d > 0) by (nonlinear_arith)
                        requires
                            d > 0,
                    ;
                }
                lemma_nearest(0, 0, d);
            }
            with_sign(negative, 0)
        } else {
            with_sign(negative, quotient(x, y))
        }
    }


    /// Position among non-NaN values: grows with the value.
    pub fn order_key(self) -> (k: i64)
        ensures
            k == self.order(),
    {
        if self.sign_bit() {
            -(self.magnitude_bits() as i64)
        } else {
            self.magnitude_bits() as i64
        }
    }

    /// `self < other`.
    pub fn lt(self, other: F64) -> (r: bool)
        ensures
            r == d_lt(self, other),
    {
        !self.is_nan() && !other.is_nan() && self.order_key() < other.order_key()
    }

    /// `self <= other`.
    pub fn le(self, other: F64) -> (r: bool)
        ensures
            r == d_le(self, other),
    {
        !self.is_nan() && !other.is_nan() && self.order_key() <= other.order_key()
    }

    /// Numeric equality.
    pub fn eq_value(self, other: F64) -> (r: bool)
        ensures
            r == d_eq(self, other),
    {
        !self.is_nan() && !other.is_nan() && self.order_key() == other.order_key()
    }
}


/// The integer part of a finite value, rounded towards negative infinity.
pub open spec fn d_floor_int(a: F64) -> int {
    a.value() / (pow2(1074) as int)
}


/// A conversion to an integer range: an infinity goes to the end on its side
/// and NaN to zero.
pub open spec fn d_saturate(a: F64, whole: int, low: int, high: int) -> int {
    if a.nan() {
        0
    } else if a.infinite() {
        if a.negative() { low } else { high }
    } else {
        clamp_int(whole, low, high)
    }
}

pub open spec fn d_abs(a: F64) -> F64 {
    F64 { bits: a.unsigned() as u64 }
}

/// Whole part of a finite magnitude (2^63 when it is at least that), whether
/// the rest is at least one half, and whether there is no rest.
fn whole_and_rest(b: u64) -> (r: (u128, bool, bool))
    requires
        b < INFINITY_BITS,
    ensures
        r.0 == clamp_int(magnitude(b as int) / (pow2(1074) as int), 0, 0x8000_0000_0000_0000),
        r.1 == (2 * (magnitude(b as int) % (pow2(1074) as int)) >= pow2(1074)),
        r.2 == (magnitude(b as int) % (pow2(1074) as int) == 0),
{
    let (m, e) = parts(b);
    let ghost u = pow2(1074) as int;
    let ghost v = magnitude(b as int);
    let ghost mi = m as int;
    proof {
        lemma_pow2_pos(1074);
        lemma2_to64();
        lemma2_to64_rest();
    }
    if e >= 1074 {
        let up: u32 = e - 1074;
        proof {
            lemma_pow2_adds(1074, up as nat);
            let p = pow2(up as nat) as int;
            lemma_pow2_pos(up as nat);
            assert(v == (mi * p) * u) by (nonlinear_arith)
                requires
                    v == mi * (u * p),
            ;
            vstd::arithmetic::div_mod::lemma_fundamental_div_mod_converse(v, u, mi * p, 0);
            if up >= 11 {
                if up > 11 {
                    lemma_pow2_strictly_increases(11, up as nat);
                }
                assert(mi * p >= 0x8000_0000_0000_0000) by (nonlinear_arith)
                    requires
                        mi >= 0x10_0000_0000_0000,
                        p >= 0x800,
                ;
            } else {
                if up < 10 {
                    lemma_pow2_strictly_increases(up as nat, 10);
                }
                assert(mi * p <= 0x1f_ffff_ffff_ffff * 0x400) by (nonlinear_arith)
                    requires
                        0 <= mi <= 0x1f_ffff_ffff_ffff,
                        0 < p <= 0x400,
                ;
                assert(mi * p >= 0) by (nonlinear_arith)
                    requires
                        0 <= mi,
                        0 < p,
                ;
            }
        }
        if up >= 11 {
            (0x8000_0000_0000_0000, false, true)
        } else {
            (m * two_to(up), false, true)
        }
    } else {
        let down: u32 = 1074 - e;
        proof {
            lemma_pow2_adds(e as nat, down as nat);
            lemma_pow2_pos(e as nat);
            lemma_pow2_pos(down as nat);
        }
        let ghost p = pow2(e as nat) as int;
        let ghost k = pow2(down as nat) as int;
        if down >= 54 {
            proof {
                if down > 54 {
                    lemma_pow2_strictly_increases(54, down as nat);
                }
                assert(0 <= 2 * v < u) by (nonlinear_arith)
                    requires
                        v == mi * p,
                        u == p * k,
                        k >= 0x40_0000_0000_0000,
                        0 <= mi < 0x20_0000_0000_0000,
                        p > 0,
                ;
                vstd::arithmetic::div_mod::lemma_fundamental_div_mod_converse(v, u, 0, v);
                assert(mi > 0 ==> v > 0) by (nonlinear_arith)
                    requires
                        v == mi * p,
                        p > 0,
                ;
                if m == 0 {
                    assert(v == 0) by (nonlinear_arith)
                        requires
                            v == mi * p,
                            mi == 0,
                    ;
                }
            }
            (0, false, m == 0)
        } else {
            let unit: u128 = two_to(down);
            let whole: u128 = m / unit;
            let rest: u128 = m % unit;
            proof {
                let w = whole as int;
                let t = rest as int;
                assert(mi == w * k + t) by (nonlinear_arith)
                    requires
                        w == mi / k,
                        t == mi % k,
                        k > 0,
                ;
                assert(v == u * w + t * p) by (nonlinear_arith)
                    requires
                        v == mi * p,
                        mi == w * k + t,
                        u == p * k,
                ;
                assert(0 <= t * p < u) by (nonlinear_arith)
                    requires
                        0 <= t < k,
                        p > 0,
                        u == p * k,
                ;
                assert(w * u == u * w) by (nonlinear_arith);
                vstd::arithmetic::div_mod::lemma_fundamental_div_mod_converse(v, u, w, t * p);
                lemma_pow2_unfold(down as nat);
                let h = pow2((down - 1) as nat) as int;
                assert(2 * (t * p) >= u <==> t >= h) by (nonlinear_arith)
                    requires
                        u == p * (2 * h),
                        p > 0,
                ;
                assert(t * p == 0 <==> t == 0) by (nonlinear_arith)
                    requires
                        p > 0,
                        t >= 0,
                ;
                assert(w <= mi) by (nonlinear_arith)
                    requires
                        mi == w * k + t,
                        t >= 0,
                        k >= 1,
                        w >= 0,
                ;
            }
            (whole, rest >= unit / 2, rest == 0)
        }
    }
}


proof fn lemma_floor_of_negative(v: int, u: int)
    requires
        u > 0,
        v >= 0,
    ensures
        (-v) / u == -(v / u) - (if v % u == 0 { 0int } else { 1int }),
{
    let w = v / u;
    let t = v % u;
    assert(v == w * u + t && 0 <= t < u) by (nonlinear_arith)
        requires
            w == v / u,
            t == v % u,
            u > 0,
    ;
    if t == 0 {
        assert(-v == (-w) * u + 0) by (nonlinear_arith)
            requires
                v == w * u + t,
                t == 0,
        ;
        vstd::arithmetic::div_mod::lemma_fundamental_div_mod_converse(-v, u, -w, 0);
    } else {
        assert(-v == (-w - 1) * u + (u - t)) by (nonlinear_arith)
            requires
                v == w * u + t,
        ;
        vstd::arithmetic::div_mod::lemma_fundamental_div_mod_converse(-v, u, -w - 1, u - t);
    }
}


impl F64 {
    /// `self.floor()` as an integer.
    pub fn floor_i64(self) -> (r: i64)
        ensures
            r == d_saturate(self, d_floor_int(self), i64::MIN as int, i64::MAX as int),
    {
        let b: u64 = self.magnitude_bits();
        if b > INFINITY_BITS {
            return 0;
        }
        let negative: bool = self.sign_bit();
        if b == INFINITY_BITS {
            return if negative { i64::MIN } else { i64::MAX };
        }
        let (whole, _, exact) = whole_and_rest(b);
        proof {
            lemma_pow2_pos(1074);
            lemma_magnitude_nonneg(b as int);
            lemma_floor_of_negative(magnitude(b as int), pow2(1074) as int);
            assert(magnitude(b as int) / (pow2(1074) as int) >= 0) by (nonlinear_arith)
                requires
                    magnitude(b as int) >= 0,
                    pow2(1074) > 0,
            ;
        }
        if negative {
            if whole >= 0x8000_0000_0000_0000 {
                i64::MIN
            } else if exact {
                -(whole as i64)
            } else {
                -(whole as i64) - 1
            }
        } else if whole >= 0x8000_0000_0000_0000 {
            i64::MAX
        } else {
            whole as i64
        }
    }

    /// The nearest value to an integer.
    pub fn from_i128(x: i128) -> (r: F64)
        ensures
            r == d_from_int(x as int),
    {
        reveal(d_from_int);
        let m: u128 = if x < 0 { (-(x + 1)) as u128 + 1 } else { x as u128 };
        let ghost n = m * pow2(1074);
        let b: u64 = if m < 0x1000_0000_0000_0000_0000_0000_0000_0000 {
            proof {
                lemma_brackets_integer(m as int, 1074);
            }
            round_pack(m, 1074, false, Ghost(ratio_cut(n, 1)))
        } else {
            let h: u128 = m / 16;
            let sticky: bool = m % 16 != 0;
            proof {
                lemma_brackets_sixteenths(m as int);
            }
            round_pack(h, 1078, sticky, Ghost(ratio_cut(n, 1)))
        };
        proof {
            lemma_ratio_rounded(b as int, n, 1);
        }
        with_sign(x < 0, b)
    }

    /// The magnitude.
    pub fn abs(self) -> (r: F64)
        ensures
            r == d_abs(self),
    {
        F64 { bits: self.magnitude_bits() }
    }

}

/// A single as a double.
#[verifier::opaque]
pub open spec fn d_from_single(a: F32) -> F64 {
    if a.nan() {
        nan_value()
    } else if a.infinite() {
        signed_pattern(a.negative(), INFINITY_BITS as int)
    } else {
        signed_pattern(a.negative(), nearest(crate::float32::magnitude(a.unsigned()) * pow2(925), 1))
    }
}

/// The integer part of a value, rounded towards negative infinity, as a value.
#[verifier::opaque]
pub open spec fn d_floor(a: F64) -> F64 {
    if !a.finite() || a.value() % (pow2(1074) as int) == 0 {
        a
    } else {
        d_from_int(d_floor_int(a))
    }
}

impl F64 {
    /// A single as a double.
    pub fn from_f32(a: F32) -> (r: F64)
        ensures
            r == d_from_single(a),
    {
        reveal(d_from_single);
        let b: u32 = a.magnitude_bits();
        let negative: bool = a.sign_bit();
        if b > crate::float32::INFINITY_BITS {
            return F64 { bits: NAN_BITS };
        }
        if b == crate::float32::INFINITY_BITS {
            return with_sign(negative, INFINITY_BITS);
        }
        let (m, step) = crate::float32::parts(b);
        let e: i32 = step as i32 + 925;
        let ghost n = crate::float32::magnitude(b as int) * pow2(925);
        proof {
            lemma_pow2_adds(step as nat, 925);
            lemma_brackets_integer(m as int, e as int);
            let ps = pow2(step as nat) as int;
            assert(m * (ps * pow2(925)) == (m * ps) * pow2(925)) by (nonlinear_arith);
        }
        let c: u64 = round_pack(m as u128, e, false, Ghost(ratio_cut(n, 1)));
        proof {
            lemma_ratio_rounded(c as int, n, 1);
        }
        with_sign(negative, c)
    }

    /// `self.floor()`.
    pub fn floor(self) -> (r: F64)
        ensures
            r == d_floor(self),
    {
        reveal(d_floor);
        let b: u64 = self.magnitude_bits();
        if b >= INFINITY_BITS {
            return self;
        }
        let (whole, _, exact) = whole_and_rest(b);
        let negative: bool = self.sign_bit();
        proof {
            lemma_pow2_pos(1074);
            lemma_magnitude_nonneg(b as int);
            lemma_floor_of_negative(magnitude(b as int), pow2(1074) as int);
            let v = magnitude(b as int);
            let u = pow2(1074) as int;
            assert(v / u >= 0) by (nonlinear_arith)
                requires
                    v >= 0,
                    u > 0,
            ;
            lemma_multiple_of_negative(v, u);
            if !exact {
                lemma_inexact_is_small(b);
            }
        }
        if exact {
            self
        } else if negative {
            F64::from_i128(-(whole as i128) - 1)
        } else {
            F64::from_i128(whole as i128)
        }
    }
}

proof fn lemma_multiple_of_negative(v: int, u: int)
    requires
        u > 0,
    ensures
        (-v) % u == 0 <==> v % u == 0,
{
    if v % u == 0 {
        assert(-v == (-(v / u)) * u + 0) by (nonlinear_arith)
            requires
                v % u == 0,
                u > 0,
        ;
        vstd::arithmetic::div_mod::lemma_fundamental_div_mod_converse(-v, u, -(v / u), 0);
    }
    if (-v) % u == 0 {
        let w = -v;
        assert(v == (-(w / u)) * u + 0) by (nonlinear_arith)
            requires
                w % u == 0,
                w == -v,
                u > 0,
        ;
        vstd::arithmetic::div_mod::lemma_fundamental_div_mod_converse(v, u, -(w / u), 0);
    }
}

/// A value with a fraction is below 2^53.
proof fn lemma_inexact_is_small(b: u64)
    requires
        b < INFINITY_BITS,
        magnitude(b as int) % (pow2(1074) as int) != 0,
    ensures
        magnitude(b as int) / (pow2(1074) as int) < 0x20_0000_0000_0000,
{
    let u = pow2(1074) as int;
    let e = b as int / 0x10_0000_0000_0000;
    let v = magnitude(b as int);
    lemma_pow2_pos(1074);
    let m = b as int % 0x10_0000_0000_0000;
    if e == 0 {
        assert(v / u <= v) by (nonlinear_arith)
            requires
                v >= 0,
                u >= 1,
        ;
    } else if e - 1 >= 1074 {
        lemma_pow2_adds(1074, (e - 1 - 1074) as nat);
        let p = pow2((e - 1 - 1074) as nat) as int;
        assert(v == ((0x10_0000_0000_0000 + m) * p) * u) by (nonlinear_arith)
            requires
                v == (0x10_0000_0000_0000 + m) * (u * p),
        ;
        vstd::arithmetic::div_mod::lemma_fundamental_div_mod_converse(v, u, (0x10_0000_0000_0000 + m) * p, 0);
    } else {
        lemma_pow2_strictly_increases((e - 1) as nat, 1074);
        lemma_pow2_pos((e - 1) as nat);
        let p = pow2((e - 1) as nat) as int;
        assert(v < 0x20_0000_0000_0000 * u) by (nonlinear_arith)
            requires
                v == (0x10_0000_0000_0000 + m) * p,
                m < 0x10_0000_0000_0000,
                0 < p < u,
        ;
        assert(v / u < 0x20_0000_0000_0000) by (nonlinear_arith)
            requires
                v < 0x20_0000_0000_0000 * u,
                u > 0,
        ;
    }
}

/// Some pattern is nearest; the search starts at `b`, which is not too high.
proof fn lemma_some_pattern_is_nearest(b: int, n: int, d: int)
    requires
        0 <= b <= INFINITY_BITS,
        d > 0,
        b > 0 ==> {
            let low = (magnitude(b - 1) + magnitude(b)) * d;
            low < 2 * n || (low == 2 * n && b % 2 == 0)
        },
    ensures
        exists|c: int| rounds_to(c, n, d),
    decreases INFINITY_BITS - b,
{
    if b == INFINITY_BITS {
        assert(rounds_to(b, n, d));
    } else {
        let high = (magnitude(b) + magnitude(b + 1)) * d;
        if 2 * n < high || (2 * n == high && b % 2 == 0) {
            assert(rounds_to(b, n, d));
        } else {
            lemma_some_pattern_is_nearest(b + 1, n, d);
        }
    }
}

/// Rounding never moves a number past a pattern.
pub proof fn lemma_rounding_passes_no_pattern(n: int, d: int, c: int)
    requires
        d > 0,
        n >= 0,
        0 <= c <= INFINITY_BITS,
    ensures
        0 <= nearest(n, d) <= INFINITY_BITS,
        magnitude(c) * d <= n ==> c <= nearest(n, d),
        n <= magnitude(c) * d ==> nearest(n, d) <= c,
{
    lemma_some_pattern_is_nearest(0, n, d);
    let b = nearest(n, d);
    assert(rounds_to(b, n, d));
    if b < c {
        lemma_magnitude_step(b);
        if b + 1 < c {
            lemma_magnitude_monotone(b + 1, c);
        }
        let x = magnitude(b);
        let y = magnitude(b + 1);
        let z = magnitude(c);
        assert((x + y) * d < 2 * (z * d)) by (nonlinear_arith)
            requires
                x < y,
                y <= z,
                d > 0,
        ;
    }
    if c < b {
        lemma_magnitude_step(b - 1);
        if c < b - 1 {
            lemma_magnitude_monotone(c, b - 1);
        }
        let x = magnitude(b - 1);
        let y = magnitude(b);
        let z = magnitude(c);
        assert((x + y) * d > 2 * (z * d)) by (nonlinear_arith)
            requires
                x < y,
                z <= x,
                d > 0,
        ;
    }
}

/// A pattern is nearest to its own value.
proof fn lemma_exact(b: int, n: int, d: int)
    requires
        0 <= b < INFINITY_BITS,
        d > 0,
        n == magnitude(b) * d,
    ensures
        nearest(n, d) == b,
{
    lemma_magnitude_step(b);
    let m = magnitude(b);
    if b > 0 {
        lemma_magnitude_step(b - 1);
        let low = magnitude(b - 1) + m;
        assert(low * d < 2 * n) by (nonlinear_arith)
            requires
                low < 2 * m,
                n == m * d,
                d > 0,
        ;
    }
    let high = m + magnitude(b + 1);
    assert(2 * n < high * d) by (nonlinear_arith)
        requires
            high > 2 * m,
            n == m * d,
            d > 0,
    ;
    assert(rounds_to(b, n, d));
    lemma_nearest(b, n, d);
}

/// Integers up to 2^53 are values.
proof fn lemma_small_integer(k: int, j: nat)
    requires
        pow2(j) <= k < 2 * pow2(j),
        j <= 53,
        k <= 0x20_0000_0000_0000,
    ensures
        ({
            let b = nearest(k * pow2(1074), 1);
            &&& 0 < b < INFINITY_BITS
            &&& magnitude(b) == k * pow2(1074)
        }),
{
    lemma2_to64();
    lemma2_to64_rest();
    if j == 53 {
        lemma_magnitude_of_parts(1075, 0x10_0000_0000_0000);
        let c: int = 0x4340_0000_0000_0000;
        lemma_pow2_unfold(1075);
        assert(0x10_0000_0000_0000 * pow2(1075) == k * pow2(1074)) by (nonlinear_arith)
            requires
                pow2(1075) == 2 * pow2(1074),
                k == 0x20_0000_0000_0000,
        ;
        assert(magnitude(c) * 1 == magnitude(c));
        lemma_exact(c, k * pow2(1074), 1);
    } else {
        let s = 1022 + j as int;
        let up = pow2((52 - j) as nat) as int;
        let q = k * up;
        lemma_pow2_adds(j, (52 - j) as nat);
        lemma_pow2_pos((52 - j) as nat);
        assert(0x10_0000_0000_0000 <= q < 0x20_0000_0000_0000) by (nonlinear_arith)
            requires
                q == k * up,
                pow2(j) <= k < 2 * pow2(j),
                pow2(j) * up == 0x10_0000_0000_0000,
                up > 0,
        ;
        let b = s * 0x10_0000_0000_0000 + q;
        lemma_magnitude_of_parts(s, q);
        lemma_pow2_adds((52 - j) as nat, s as nat);
        assert(q * pow2(s as nat) == k * pow2(1074)) by (nonlinear_arith)
            requires
                q == k * up,
                up * pow2(s as nat) == pow2(1074),
        ;
        assert(magnitude(b) * 1 == magnitude(b));
        lemma_exact(b, k * pow2(1074), 1);
    }
}

proof fn lemma_integer_binade(k: int, j: nat)
    requires
        1 <= k <= 0x20_0000_0000_0000,
        j <= 53,
        pow2(j) <= k,
    ensures
        exists|i: nat| i <= 53 && #[trigger] pow2(i) <= k < 2 * pow2(i),
    decreases 53 - j,
{
    lemma2_to64();
    lemma2_to64_rest();
    if k < 2 * pow2(j) {
        assert(pow2(j) <= k < 2 * pow2(j));
    } else {
        lemma_pow2_unfold((j + 1) as nat);
        if j == 53 {
            assert(false);
        }
        lemma_integer_binade(k, (j + 1) as nat);
    }
}

/// Integers up to 2^53 in size are converted exactly.
pub proof fn lemma_from_int_is_exact(k: int)
    requires
        -0x20_0000_0000_0000 <= k <= 0x20_0000_0000_0000,
    ensures
        d_from_int(k).finite(),
        d_from_int(k).value() == k * pow2(1074),
{
    reveal(d_from_int);
    let m = abs_int(k);
    if k == 0 {
        assert(abs_int(0) * pow2(1074) == 0);
        assert(magnitude(0) == 0);
        lemma_exact(0, 0, 1);
    } else {
        lemma2_to64();
        lemma_integer_binade(m, 0);
        let i = choose|i: nat| i <= 53 && #[trigger] pow2(i) <= m < 2 * pow2(i);
        lemma_small_integer(m, i);
        assert(-(m * pow2(1074)) == (-m) * pow2(1074)) by (nonlinear_arith);
    }
}

/// What taking the integer part leaves is at least zero and at most one.
pub proof fn lemma_fraction_range(x: F64)
    requires
        x.finite(),
    ensures
        0 <= d_sub(x, d_floor(x)).order() <= 0x3ff0_0000_0000_0000,
{
    reveal(d_floor);
    reveal(d_sub);
    reveal(d_add);
    let u = pow2(1074) as int;
    lemma_pow2_pos(1074);
    let v = x.value();
    let f = d_floor(x);
    let fraction = d_sub(x, f);
    if v % u == 0 {
        assert(d_neg(x).value() == -v);
    } else {
        let k = d_floor_int(x);
        let m = magnitude(x.unsigned());
        lemma_magnitude_nonneg(x.unsigned());
        if x.negative() {
            lemma_multiple_of_negative(m, u);
        }
        lemma_inexact_is_small(x.unsigned() as u64);
        vstd::arithmetic::div_mod::lemma_fundamental_div_mod(v, u);
        vstd::arithmetic::div_mod::lemma_fundamental_div_mod(m, u);
        vstd::arithmetic::div_mod::lemma_mod_bound(v, u);
        vstd::arithmetic::div_mod::lemma_mod_bound(m, u);
        let q = m / u;
        assert(m < (q + 1) * u && q * u <= m) by (nonlinear_arith)
            requires
                m == u * q + m % u,
                0 <= m % u < u,
        ;
        assert(-0x20_0000_0000_0000 <= k <= 0x20_0000_0000_0000) by (nonlinear_arith)
            requires
                v == u * k + v % u,
                0 < v % u < u,
                v == m || v == -m,
                0 <= q < 0x20_0000_0000_0000,
                m < (q + 1) * u,
                m >= 0,
                u > 0,
        ;
        lemma_from_int_is_exact(k);
        let sum = x.value() + d_neg(f).value();
        assert(d_neg(f).value() == -f.value());
        assert(sum == v % u) by (nonlinear_arith)
            requires
                sum == v - k * u,
                v == u * k + v % u,
        ;
        lemma_magnitude_of_parts(1022, 0x10_0000_0000_0000);
        lemma2_to64_rest();
        lemma_pow2_adds(52, 1022);
        assert(magnitude(0x3ff0_0000_0000_0000) == u);
        lemma_rounding_passes_no_pattern(sum, 1, 0x3ff0_0000_0000_0000);
    }
}

/// The reciprocal of a fraction between 2^-40 and one is between one and 2^40.
pub proof fn lemma_reciprocal_range(fraction: F64)
    requires
        0x3d70_0000_0000_0000 <= fraction.order() <= 0x3ff0_0000_0000_0000,
    ensures
        ({
            let next = d_div(F64 { bits: 0x3ff0_0000_0000_0000 }, fraction);
            next.finite() && 1 <= d_floor_int(next) <= 0x100_0000_0000
        }),
{
    reveal(d_div);
    let one = F64 { bits: 0x3ff0_0000_0000_0000 };
    let u = pow2(1074) as int;
    lemma_pow2_pos(1074);
    lemma2_to64();
    lemma2_to64_rest();
    lemma_magnitude_of_parts(1022, 0x10_0000_0000_0000);
    lemma_pow2_adds(52, 1022);
    assert(magnitude(0x3ff0_0000_0000_0000) == u);
    let b = fraction.unsigned();
    let d = magnitude(b);
    if b < 0x3ff0_0000_0000_0000 {
        lemma_magnitude_monotone(b, 0x3ff0_0000_0000_0000);
    }
    if 0x3d70_0000_0000_0000 < b {
        lemma_magnitude_monotone(0x3d70_0000_0000_0000, b);
    }
    lemma_magnitude_of_parts(982, 0x10_0000_0000_0000);
    lemma_pow2_adds(52, 982);
    lemma_pow2_adds(1034, 40);
    lemma_pow2_pos(1034);
    let low = pow2(1034) as int;
    assert(magnitude(0x3d70_0000_0000_0000) == low);
    assert(low * 0x100_0000_0000 == u);
    lemma_magnitude_of_parts(1062, 0x10_0000_0000_0000);
    lemma_pow2_adds(52, 1062);
    lemma_pow2_adds(1074, 40);
    assert(magnitude(0x4270_0000_0000_0000) == u * 0x100_0000_0000);
    let n = u * u;
    assert(u * d <= n) by (nonlinear_arith)
        requires
            n == u * u,
            0 < d <= u,
    ;
    assert(n <= (u * 0x100_0000_0000) * d) by (nonlinear_arith)
        requires
            n == u * u,
            u == low * 0x100_0000_0000,
            low <= d,
            u > 0,
    ;
    lemma_rounding_passes_no_pattern(n, d, 0x3ff0_0000_0000_0000);
    lemma_rounding_passes_no_pattern(n, d, 0x4270_0000_0000_0000);
    let r = nearest(n, d);
    let w = magnitude(r);
    if 0x3ff0_0000_0000_0000 < r {
        lemma_magnitude_monotone(0x3ff0_0000_0000_0000, r);
    }
    if r < 0x4270_0000_0000_0000 {
        lemma_magnitude_monotone(r, 0x4270_0000_0000_0000);
    }
    let next = d_div(one, fraction);
    assert(next == signed_pattern(false, r));
    vstd::arithmetic::div_mod::lemma_fundamental_div_mod(w, u);
    vstd::arithmetic::div_mod::lemma_mod_bound(w, u);
    let k = w / u;
    assert(1 <= k <= 0x100_0000_0000) by (nonlinear_arith)
        requires
            w == u * k + w % u,
            0 <= w % u < u,
            u <= w <= u * 0x100_0000_0000,
            u > 0,
    ;
}

/// A single at most two in size stays so as a double.
pub proof fn lemma_small_single(a: F32)
    requires
        a.unsigned() <= 0x4000_0000,
    ensures
        d_from_single(a).finite(),
        -2 <= d_floor_int(d_from_single(a)) <= 2,
{
    reveal(d_from_single);
    let u = pow2(1074) as int;
    lemma_pow2_pos(1074);
    lemma_pow2_pos(925);
    lemma2_to64();
    lemma2_to64_rest();
    let b = a.unsigned();
    let m = crate::float32::magnitude(b);
    if b < 0x4000_0000 {
        crate::float32::lemma_magnitude_monotone(b, 0x4000_0000);
    }
    lemma_pow2_adds(23, 127);
    lemma_pow2_adds(150, 925);
    assert(crate::float32::magnitude(0x4000_0000) == pow2(150));
    let p = pow2(925) as int;
    lemma_pow2_unfold(1075);
    assert(m * p <= 2 * u) by (nonlinear_arith)
        requires
            m <= pow2(150),
            pow2(150) * p == 2 * u,
            p > 0,
    ;
    crate::float32::lemma_magnitude_nonneg(b);
    assert(m * p >= 0) by (nonlinear_arith)
        requires
            m >= 0,
            p > 0,
    ;
    lemma_magnitude_of_parts(1023, 0x10_0000_0000_0000);
    lemma_pow2_adds(52, 1023);
    assert(magnitude(0x4000_0000_0000_0000) == 2 * u);
    lemma_rounding_passes_no_pattern(m * p, 1, 0x4000_0000_0000_0000);
    let r = nearest(m * p, 1);
    if r < 0x4000_0000_0000_0000 {
        lemma_magnitude_monotone(r, 0x4000_0000_0000_0000);
    }
    lemma_magnitude_nonneg(r);
    let v = d_from_single(a).value();
    vstd::arithmetic::div_mod::lemma_fundamental_div_mod(v, u);
    vstd::arithmetic::div_mod::lemma_mod_bound(v, u);
    let k = v / u;
    assert(-2 <= k <= 2) by (nonlinear_arith)
        requires
            v == u * k + v % u,
            0 <= v % u < u,
            -2 * u <= v <= 2 * u,
            u > 0,
    ;
}

}
