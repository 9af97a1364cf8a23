//! Exact rational curve parameters.
use vstd::prelude::*;
use crate::float32::{F32, f_from_double};
use crate::float64::{
    F64, d_abs, d_div, d_floor, d_floor_int, d_from_int, d_from_single, d_le, d_lt, d_mul, d_saturate, d_sub,
    lemma_fraction_range, lemma_reciprocal_range, lemma_small_single,
};

verus! {

/// Largest denominator that a parameter is approximated with.
pub const MAX_DEN: i64 = 0x10_0000;

/// Bound on the numerators and denominators that are compared.
pub const RAT_LIMIT: i128 = 0x4000_0000_0000_0000;

/// Bound on the scaled parameters of a sub-span.
pub const SPAN_LIMIT: i64 = 0x4000_0000_0000;

/// 1e-9
pub const CONVERGED_BITS: u64 = 0x3e11_2e0b_e826_d695;

/// 1e-12
pub const FRACTION_EPSILON_BITS: u64 = 0x3d71_9799_812d_ea11;

/// 1.0
pub const DOUBLE_ONE_BITS: u64 = 0x3ff0_0000_0000_0000;

/// The greatest common divisor.
pub open spec fn gcd_of(a: nat, b: nat) -> nat
    decreases b,
{
    if b == 0 {
        a
    } else {
        gcd_of(b, a % b)
    }
}

pub open spec fn abs_nat(x: int) -> nat {
    (if x < 0 { -x } else { x }) as nat
}

/// The greatest common divisor, at least one.
pub fn gcd(a: u128, b: u128) -> (r: u128)
    ensures
        r == (if gcd_of(a as nat, b as nat) == 0 { 1 } else { gcd_of(a as nat, b as nat) }),
{
    let mut a: u128 = a;
    let mut b: u128 = b;
    let ghost g = gcd_of(a as nat, b as nat);
    while b != 0
        invariant
            gcd_of(a as nat, b as nat) == g,
        decreases b,
    {
        let rest: u128 = a % b;
        a = b;
        b = rest;
    }
    if a > 1 {
        a
    } else {
        1
    }
}

/// `k` divides `a`.
pub open spec fn divides(k: int, a: int) -> bool {
    exists|m: int| a == #[trigger] (m * k)
}

proof fn lemma_gcd_divides(a: nat, b: nat)
    ensures
        divides(gcd_of(a, b) as int, a as int),
        divides(gcd_of(a, b) as int, b as int),
        b > 0 ==> gcd_of(a, b) > 0,
    decreases b,
{
    let g = gcd_of(a, b) as int;
    if b == 0 {
        assert(a as int == 1 * g);
        assert(0 == 0 * g);
    } else {
        let r = a % b;
        lemma_gcd_divides(b, r);
        let mb = choose|m: int| b as int == #[trigger] (m * g);
        let mr = choose|m: int| r as int == #[trigger] (m * g);
        let q = a as int / b as int;
        assert(a as int == q * b as int + r as int) by (nonlinear_arith)
            requires
                q == a as int / b as int,
                r as int == a as int % b as int,
                b > 0,
        ;
        assert(a as int == (q * mb + mr) * g) by (nonlinear_arith)
            requires
                a as int == q * b as int + r as int,
                b as int == mb * g,
                r as int == mr * g,
        ;
        if r == 0 {
            assert(gcd_of(b, r) == b);
        }
    }
}

/// The greatest common divisor is a combination of the two numbers.
proof fn lemma_bezout(a: nat, b: nat) -> (r: (int, int))
    ensures
        r.0 * a + r.1 * b == gcd_of(a, b),
    decreases b,
{
    if b == 0 {
        assert(1 * a + 0 * b == a) by (nonlinear_arith);
        (1, 0)
    } else {
        let (x, y) = lemma_bezout(b, a % b);
        let q = a as int / b as int;
        let rest = (a % b) as int;
        assert(a as int == q * b as int + rest) by (nonlinear_arith)
            requires
                q == a as int / b as int,
                rest == a as int % b as int,
                b > 0,
        ;
        assert(y * a as int + (x - y * q) * b as int == x * b as int + y * rest) by (nonlinear_arith)
            requires
                a as int == q * b as int + rest,
        ;
        (y, x - y * q)
    }
}

/// Exact rational parameter, kept exact through cut sorting, window
/// containment, net calculation, and ownership grouping.
#[derive(Clone, Copy, Debug, PartialEq, Eq, Structural)]
pub struct Rat {
    pub n: i128,
    pub d: i128,
}

/// The reduced form of a fraction, with a positive denominator.
pub open spec fn reduced(n: int, d: int) -> (int, int) {
    let g = gcd_of(abs_nat(n), abs_nat(d)) as int;
    let sign: int = if d < 0 { -1 } else { 1 };
    let an = abs_nat(n) as int / g;
    (if n * sign < 0 { -an } else { an }, abs_nat(d) as int / g)
}

/// No number above one divides both.
pub open spec fn coprime(a: int, b: int) -> bool {
    forall|k: int| k > 1 && #[trigger] divides(k, a) ==> !divides(k, b)
}

/// Two fractions can be compared by cross-multiplication in 128 bits.
pub open spec fn comparable(a: Rat, b: Rat) -> bool {
    &&& i128::MIN <= a.n * b.d <= i128::MAX
    &&& i128::MIN <= b.n * a.d <= i128::MAX
}

impl Rat {
    /// Small enough to be compared with any other small one.
    pub open spec fn wf(self) -> bool {
        &&& 0 < self.d <= RAT_LIMIT
        &&& -RAT_LIMIT <= self.n <= RAT_LIMIT
    }

    /// Order of the values.
    pub open spec fn below(self, other: Rat) -> bool {
        self.n * other.d < other.n * self.d
    }

    /// Equality of the values.
    pub open spec fn same(self, other: Rat) -> bool {
        self.n * other.d == other.n * self.d
    }

    /// The fraction `n / d`, reduced.
    pub fn new(n: i128, d: i128) -> (r: Rat)
        requires
            d != 0,
            n > i128::MIN,
            d > i128::MIN,
        ensures
            (r.n as int, r.d as int) == reduced(n as int, d as int),
            r.d > 0,
            r.n * d == n * r.d,
            coprime(r.n as int, r.d as int),
            n == 0 ==> r == (Rat { n: 0, d: 1 }),
            -RAT_LIMIT <= n <= RAT_LIMIT && -RAT_LIMIT <= d <= RAT_LIMIT ==> r.wf(),
    {
        let an: u128 = if n < 0 { (-n) as u128 } else { n as u128 };
        let ad: u128 = if d < 0 { (-d) as u128 } else { d as u128 };
        let g: u128 = gcd(an, ad);
        proof {
            lemma_gcd_divides(an as nat, ad as nat);
            let gi = g as int;
            let mn = choose|m: int| an as int == #[trigger] (m * gi);
            let md = choose|m: int| ad as int == #[trigger] (m * gi);
            vstd::arithmetic::div_mod::lemma_fundamental_div_mod_converse(an as int, gi, mn, 0);
            vstd::arithmetic::div_mod::lemma_fundamental_div_mod_converse(ad as int, gi, md, 0);
            assert(0 <= mn <= an) by (nonlinear_arith)
                requires
                    an as int == mn * gi,
                    gi >= 1,
                    an >= 0,
            ;
            assert(0 < md <= ad) by (nonlinear_arith)
                requires
                    ad as int == md * gi,
                    gi >= 1,
                    ad > 0,
            ;
            assert(mn * ad as int == an as int * md) by (nonlinear_arith)
                requires
                    an as int == mn * gi,
                    ad as int == md * gi,
            ;
            let sign: int = if d < 0 { -1 } else { 1 };
            assert(n * sign == (if d < 0 { -n } else { n as int })) by (nonlinear_arith)
                requires
                    sign == (if d < 0 { -1int } else { 1int }),
            ;
            assert((-mn) * (-(ad as int)) == mn * ad as int) by (nonlinear_arith);
            assert((-mn) * ad as int == -(mn * ad as int)) by (nonlinear_arith);
            assert(mn * (-(ad as int)) == -(mn * ad as int)) by (nonlinear_arith);
            assert((-(an as int)) * md == -(an as int * md)) by (nonlinear_arith);
            law_reduced_forms_are_coprime(n as int, d as int);
            if n == 0 {
                assert(gcd_of(0, ad as nat) == ad) by {
                    reveal_with_fuel(gcd_of, 3);
                    assert(0nat % (ad as nat) == 0) by (nonlinear_arith)
                        requires
                            ad > 0,
                    ;
                }
                vstd::arithmetic::div_mod::lemma_fundamental_div_mod_converse(ad as int, ad as int, 1, 0);
                assert(0int / (ad as int) == 0) by (nonlinear_arith)
                    requires
                        ad > 0,
                ;
            }
        }
        let rn: i128 = (an / g) as i128;
        let rd: i128 = (ad / g) as i128;
        let flip: bool = (n < 0) != (d < 0);
        Rat { n: if flip { -rn } else { rn }, d: rd }
    }

    pub fn zero() -> (r: Rat)
        ensures
            r == (Rat { n: 0, d: 1 }),
            r.wf(),
    {
        Rat { n: 0, d: 1 }
    }

    pub fn one() -> (r: Rat)
        ensures
            r == (Rat { n: 1, d: 1 }),
            r.wf(),
    {
        Rat { n: 1, d: 1 }
    }

    /// Whether the value is below another.
    pub fn lt(self, other: Rat) -> (r: bool)
        requires
            comparable(self, other),
        ensures
            r == self.below(other),
    {
        self.n * other.d < other.n * self.d
    }

    /// The parameter as a single: both parts to double precision, divided, and
    /// rounded again.
    pub fn to_f32(self) -> (r: F32)
        ensures
            r == rat_single(self),
    {
        F32::from_f64(F64::from_i128(self.n).over(F64::from_i128(self.d)))
    }
}

pub open spec fn rat_single(r: Rat) -> F32 {
    f_from_double(d_div(d_from_int(r.n as int), d_from_int(r.d as int)))
}

/// Small fractions can be compared.
pub proof fn lemma_small_are_comparable(a: Rat, b: Rat)
    requires
        a.wf(),
        b.wf(),
    ensures
        comparable(a, b),
        comparable(b, a),
{
    lemma_product_bound(a.n as int, b.d as int);
    lemma_product_bound(b.n as int, a.d as int);
}

proof fn lemma_product_bound(a: int, b: int)
    requires
        -RAT_LIMIT <= a <= RAT_LIMIT,
        -RAT_LIMIT <= b <= RAT_LIMIT,
    ensures
        -0x1000_0000_0000_0000_0000_0000_0000_0000 <= a * b <= 0x1000_0000_0000_0000_0000_0000_0000_0000,
{
    assert(-0x1000_0000_0000_0000_0000_0000_0000_0000 <= a * b <= 0x1000_0000_0000_0000_0000_0000_0000_0000)
        by (nonlinear_arith)
        requires
            -0x4000_0000_0000_0000 <= a <= 0x4000_0000_0000_0000,
            -0x4000_0000_0000_0000 <= b <= 0x4000_0000_0000_0000,
    ;
}

/// A reduced form has no common divisor left.
pub proof fn law_reduced_forms_are_coprime(n: int, d: int)
    requires
        d != 0,
    ensures
        coprime(reduced(n, d).0, reduced(n, d).1),
{
    let (a, b) = reduced(n, d);
    let (x, y, g) = lemma_reduced(n, d);
    assert forall|k: int| k > 1 && #[trigger] divides(k, a) implies !divides(k, b) by {
        if divides(k, b) {
            let ma = choose|m: int| a == #[trigger] (m * k);
            let mb = choose|m: int| b == #[trigger] (m * k);
            assert((x * ma + y * mb) * k == 1) by (nonlinear_arith)
                requires
                    x * a + y * b == 1,
                    a == ma * k,
                    b == mb * k,
            ;
            let t = x * ma + y * mb;
            assert(false) by (nonlinear_arith)
                requires
                    t * k == 1,
                    k > 1,
            ;
        }
    }
}

/// Equal fractions have one reduced form.
pub proof fn law_reduced_form_is_unique(n1: int, d1: int, n2: int, d2: int)
    requires
        d1 != 0,
        d2 != 0,
        n1 * d2 == n2 * d1,
    ensures
        reduced(n1, d1) == reduced(n2, d2),
{
    let (a, b) = reduced(n1, d1);
    let (c, d) = reduced(n2, d2);
    let (x1, y1, g1) = lemma_reduced(n1, d1);
    let (x2, y2, g2) = lemma_reduced(n2, d2);
    // a / b == n1 / d1 == n2 / d2 == c / d
    let s1: int = if d1 < 0 { -g1 } else { g1 };
    let s2: int = if d2 < 0 { -g2 } else { g2 };
    assert(n1 == a * s1 && d1 == b * s1);
    assert(n2 == c * s2 && d2 == d * s2);
    assert(a * d == c * b) by (nonlinear_arith)
        requires
            n1 * d2 == n2 * d1,
            n1 == a * s1,
            d1 == b * s1,
            n2 == c * s2,
            d2 == d * s2,
            s1 != 0,
            s2 != 0,
    {
        assert((a * d) * (s1 * s2) == (c * b) * (s1 * s2)) by (nonlinear_arith)
            requires
                n1 * d2 == n2 * d1,
                n1 == a * s1,
                d1 == b * s1,
                n2 == c * s2,
                d2 == d * s2,
        ;
        let s = s1 * s2;
        assert(s != 0) by (nonlinear_arith)
            requires
                s == s1 * s2,
                s1 != 0,
                s2 != 0,
        ;
        assert(a * d == c * b) by (nonlinear_arith)
            requires
                (a * d) * s == (c * b) * s,
                s != 0,
        ;
    }
    // b divides d and d divides b.
    assert(d == b * (x1 * c + y1 * d)) by (nonlinear_arith)
        requires
            x1 * a + y1 * b == 1,
            a * d == c * b,
    ;
    assert(b == d * (x2 * a + y2 * b)) by (nonlinear_arith)
        requires
            x2 * c + y2 * d == 1,
            a * d == c * b,
    ;
    let k = x1 * c + y1 * d;
    let l = x2 * a + y2 * b;
    assert(d >= b) by (nonlinear_arith)
        requires
            d == b * k,
            b > 0,
            d > 0,
    ;
    assert(b >= d) by (nonlinear_arith)
        requires
            b == d * l,
            b > 0,
            d > 0,
    ;
    assert(a == c) by (nonlinear_arith)
        requires
            a * d == c * b,
            b == d,
            b > 0,
    ;
}

/// A reduced fraction is the fraction without a positive common factor, and its
/// parts combine to one.
proof fn lemma_reduced(n: int, d: int) -> (r: (int, int, int))
    requires
        d != 0,
    ensures
        ({
            let (a, b) = reduced(n, d);
            &&& r.2 > 0
            &&& b > 0
            &&& n == a * (if d < 0 { -r.2 } else { r.2 })
            &&& d == b * (if d < 0 { -r.2 } else { r.2 })
            &&& r.0 * a + r.1 * b == 1
        }),
{
    let an = abs_nat(n);
    let ad = abs_nat(d);
    let g = gcd_of(an, ad) as int;
    lemma_gcd_divides(an, ad);
    let mn = choose|m: int| an as int == #[trigger] (m * g);
    let md = choose|m: int| ad as int == #[trigger] (m * g);
    vstd::arithmetic::div_mod::lemma_fundamental_div_mod_converse(an as int, g, mn, 0);
    vstd::arithmetic::div_mod::lemma_fundamental_div_mod_converse(ad as int, g, md, 0);
    assert(md > 0) by (nonlinear_arith)
        requires
            ad as int == md * g,
            g > 0,
            ad > 0,
    ;
    assert(mn >= 0) by (nonlinear_arith)
        requires
            an as int == mn * g,
            g > 0,
            an >= 0,
    ;
    let (a, b) = reduced(n, d);
    let sign: int = if d < 0 { -1 } else { 1 };
    assert(n * sign == (if d < 0 { -n } else { n })) by (nonlinear_arith)
        requires
            sign == (if d < 0 { -1int } else { 1int }),
    ;
    assert((-mn) * (-g) == mn * g) by (nonlinear_arith);
    assert((-mn) * g == -(mn * g)) by (nonlinear_arith);
    assert(mn * (-g) == -(mn * g)) by (nonlinear_arith);
    assert(md * (-g) == -(md * g)) by (nonlinear_arith);
    let (x, y) = lemma_bezout(an, ad);
    assert(x * mn + y * md == 1) by (nonlinear_arith)
        requires
            x * an + y * ad == g,
            an as int == mn * g,
            ad as int == md * g,
            g > 0,
    {
        assert((x * mn + y * md) * g == 1 * g) by (nonlinear_arith)
            requires
                x * an + y * ad == g,
                an as int == mn * g,
                ad as int == md * g,
        ;
        assert(x * mn + y * md == 1) by (nonlinear_arith)
            requires
                (x * mn + y * md) * g == 1 * g,
                g > 0,
        ;
    }
    if a == mn {
        (x, y, g)
    } else {
        assert(a == -mn);
        assert((-x) * (-mn) == x * mn) by (nonlinear_arith);
        (-x, y, g)
    }
}

/// The convergents of a continued fraction: `p0 / q0` and `p1 / q1` are the last
/// two, `x` the rest that is still to be expanded.
pub open spec fn convergent(target: F64, x: F64, p0: int, q0: int, p1: int, q1: int, fuel: nat) -> Option<(int, int)>
    decreases fuel,
{
    let done = if q1 > 0 { Some((p1, q1)) } else { None };
    let fraction = d_sub(x, d_floor(x));
    if fuel == 0 || d_le(
        d_abs(d_sub(d_mul(d_from_int(q1), target), d_from_int(p1))),
        d_mul(F64 { bits: CONVERGED_BITS }, d_from_int(q1)),
    ) || d_lt(d_abs(fraction), F64 { bits: FRACTION_EPSILON_BITS }) {
        done
    } else {
        let next = d_div(F64 { bits: DOUBLE_ONE_BITS }, fraction);
        let a = d_saturate(next, d_floor_int(next), i64::MIN as int, i64::MAX as int);
        let p2 = a * p1 + p0;
        let q2 = a * q1 + q0;
        if !fits_i64(a * p1) || !fits_i64(p2) || !fits_i64(a * q1) || !fits_i64(q2) {
            None
        } else if q2 > MAX_DEN {
            done
        } else {
            convergent(target, next, p1, q1, p2, q2, (fuel - 1) as nat)
        }
    }
}

pub open spec fn fits_i64(x: int) -> bool {
    i64::MIN <= x <= i64::MAX
}

/// A rational close to a parameter, by at most forty steps of its continued
/// fraction.
#[verifier::opaque]
pub open spec fn rationalized(u: F32) -> Option<(int, int)> {
    let x = d_from_single(u);
    convergent(x, x, 1, 0, d_saturate(x, d_floor_int(x), i64::MIN as int, i64::MAX as int), 1, 40)
}

fn to_i64(x: i128) -> (r: Option<i64>)
    ensures
        r == (if fits_i64(x as int) { Some(x as i64) } else { None }),
{
    if x < i64::MIN as i128 || x > i64::MAX as i128 {
        None
    } else {
        Some(x as i64)
    }
}

fn step(a: i64, x1: i64, x0: i64) -> (r: Option<i64>)
    ensures
        r == (if fits_i64(a * x1) && fits_i64(a * x1 + x0) { Some((a * x1 + x0) as i64) } else { None }),
{
    assert(-0x8000_0000_0000_0000 * 0x8000_0000_0000_0000 <= a * x1 <= 0x8000_0000_0000_0000 * 0x8000_0000_0000_0000)
        by (nonlinear_arith)
        requires
            -0x8000_0000_0000_0000 <= a <= 0x7fff_ffff_ffff_ffff,
            -0x8000_0000_0000_0000 <= x1 <= 0x7fff_ffff_ffff_ffff,
    ;
    let product: i128 = a as i128 * x1 as i128;
    match to_i64(product) {
        None => None,
        Some(p) => to_i64(p as i128 + x0 as i128),
    }
}

/// Every convergent of a number at most two in size has a bounded denominator
/// and is at most three in size.
proof fn lemma_convergents_are_small(target: F64, x: F64, p0: int, q0: int, p1: int, q1: int, fuel: nat)
    requires
        x.finite(),
        1 <= q1 <= MAX_DEN,
        (q0 == 0 && p0 == 1 && q1 == 1 && -2 <= p1 <= 2) || (q0 >= 1 && -3 * q0 <= p0 <= 3 * q0 && -3 * q1 <= p1 <= 3
            * q1),
    ensures
        convergent(target, x, p0, q0, p1, q1, fuel) matches Some(s) ==> 1 <= s.1 <= MAX_DEN && -3 * s.1 <= s.0 <= 3
            * s.1,
    decreases fuel,
{
    let fraction = d_sub(x, d_floor(x));
    lemma_fraction_range(x);
    if fuel > 0 && !d_lt(d_abs(fraction), F64 { bits: FRACTION_EPSILON_BITS }) {
        if fraction.order() >= FRACTION_EPSILON_BITS {
            lemma_reciprocal_range(fraction);
            let next = d_div(F64 { bits: DOUBLE_ONE_BITS }, fraction);
            let a = d_saturate(next, d_floor_int(next), i64::MIN as int, i64::MAX as int);
            let p2 = a * p1 + p0;
            let q2 = a * q1 + q0;
            assert(q2 >= 1 && -3 * q2 <= p2 <= 3 * q2) by (nonlinear_arith)
                requires
                    a >= 1,
                    p2 == a * p1 + p0,
                    q2 == a * q1 + q0,
                    q1 >= 1,
                    (q0 == 0 && p0 == 1 && q1 == 1 && -2 <= p1 <= 2) || (q0 >= 1 && -3 * q0 <= p0 <= 3 * q0 && -3 * q1
                        <= p1 <= 3 * q1),
            ;
            if q2 <= MAX_DEN {
                lemma_convergents_are_small(target, next, p1, q1, p2, q2, (fuel - 1) as nat);
            }
        }
    }
}

/// Two parameters at most two in size, over a common denominator, are in range.
pub proof fn lemma_rationalized_in_range(u0: F32, u1: F32)
    requires
        u0.unsigned() <= 0x4000_0000,
        u1.unsigned() <= 0x4000_0000,
    ensures
        rationalized(u0) matches Some(s0) ==> (rationalized(u1) matches Some(s1) ==> span_in_range(common(s0, s1))
            && s0.1 > 0 && s1.1 > 0),
{
    reveal(rationalized);
    lemma_small_single(u0);
    lemma_small_single(u1);
    let x0 = d_from_single(u0);
    let x1 = d_from_single(u1);
    let a0 = d_saturate(x0, d_floor_int(x0), i64::MIN as int, i64::MAX as int);
    let a1 = d_saturate(x1, d_floor_int(x1), i64::MIN as int, i64::MAX as int);
    lemma_convergents_are_small(x0, x0, 1, 0, a0, 1, 40);
    lemma_convergents_are_small(x1, x1, 1, 0, a1, 1, 40);
    if rationalized(u0) is Some && rationalized(u1) is Some {
        let s0 = rationalized(u0)->0;
        let s1 = rationalized(u1)->0;
        lemma_small_product(s0.0, s1.1);
        lemma_small_product(s1.0, s0.1);
        lemma_small_product(s0.1, s1.1);
        assert(s0.1 * s1.1 > 0) by (nonlinear_arith)
            requires
                s0.1 > 0,
                s1.1 > 0,
        ;
    }
}

proof fn lemma_small_product(a: int, b: int)
    requires
        -3 * MAX_DEN <= a <= 3 * MAX_DEN,
        0 <= b <= MAX_DEN,
    ensures
        -0x400_0000_0000 <= a * b <= 0x400_0000_0000,
{
    assert(-0x400_0000_0000 <= a * b <= 0x400_0000_0000) by (nonlinear_arith)
        requires
            -0x30_0000 <= a <= 0x30_0000,
            0 <= b <= 0x10_0000,
    ;
}

/// Best rational approximation of `u` with a bounded denominator, via continued
/// fractions. Coincidence parameters of exactly matching quantized traces
/// are rationals with small denominators; anything the bound misses only
/// fails verification, which is conservative.
pub fn rationalize(u: F32) -> (r: Option<(i64, i64)>)
    ensures
        r is Some <==> rationalized(u) is Some,
        r is Some ==> rationalized(u) == Some(((r->0).0 as int, (r->0).1 as int)),
        r is Some ==> (r->0).1 > 0,
{
    reveal(rationalized);
    let target: F64 = F64::from_f32(u);
    let mut x: F64 = target;
    let mut p0: i64 = 1;
    let mut q0: i64 = 0;
    let mut p1: i64 = x.floor_i64();
    let mut q1: i64 = 1;
    let mut fuel: u32 = 40;
    let ghost want = rationalized(u);
    while fuel > 0
        invariant
            fuel <= 40,
            want == rationalized(u),
            convergent(target, x, p0 as int, q0 as int, p1 as int, q1 as int, fuel as nat) == want,
        ensures
            want == (if q1 > 0 { Some((p1 as int, q1 as int)) } else { None }),
        decreases fuel,
    {
        let q1_value: F64 = F64::from_i128(q1 as i128);
        let error: F64 = q1_value.times(target).minus(F64::from_i128(p1 as i128)).abs();
        let bound: F64 = F64 { bits: CONVERGED_BITS }.times(q1_value);
        let fraction: F64 = x.minus(x.floor());
        if error.le(bound) || fraction.abs().lt(F64 { bits: FRACTION_EPSILON_BITS }) {
            break;
        }
        let next: F64 = F64 { bits: DOUBLE_ONE_BITS }.over(fraction);
        let a: i64 = next.floor_i64();
        let p2: i64 = match step(a, p1, p0) {
            Some(p2) => p2,
            None => {
                return None;
            },
        };
        let q2: i64 = match step(a, q1, q0) {
            Some(q2) => q2,
            None => {
                return None;
            },
        };
        if q2 > MAX_DEN {
            break;
        }
        x = next;
        p0 = p1;
        q0 = q1;
        p1 = p2;
        q1 = q2;
        fuel = fuel - 1;
    }
    if q1 > 0 {
        Some((p1, q1))
    } else {
        None
    }
}

/// The control points of a curve on the integer grid.
#[derive(Clone, Copy, Debug)]
pub struct GridCurve {
    pub p1: [i64; 2],
    pub p2: [i64; 2],
    pub p3: [i64; 2],
}

/// Largest grid coordinate for which the coincidence tests cannot overflow.
pub const GRID_LIMIT: i64 = 0x2000_0000;

pub open spec fn on_grid(p: [i64; 2]) -> bool {
    -GRID_LIMIT <= p[0] <= GRID_LIMIT && -GRID_LIMIT <= p[1] <= GRID_LIMIT
}

impl GridCurve {
    pub open spec fn wf(self) -> bool {
        on_grid(self.p1) && on_grid(self.p2) && on_grid(self.p3)
    }
}

/// The blossom of a quadratic with coordinates `c0`, `c1`, `c2` at `n / d` and
/// `m / d`, times `d` squared.
pub open spec fn blossom(c0: int, c1: int, c2: int, n: int, m: int, d: int) -> int {
    (d - m) * ((d - n) * c0 + n * c1) + m * ((d - n) * c1 + n * c2)
}

/// `other` is the sub-span of `base` over `[n0 / d, n1 / d]`, along an axis: its
/// control points are the blossom values of `base` there.
pub open spec fn axis_subspan(base: GridCurve, other: GridCurve, n0: int, n1: int, d: int, axis: int) -> bool {
    let c0 = base.p1[axis] as int;
    let c1 = base.p2[axis] as int;
    let c2 = base.p3[axis] as int;
    &&& blossom(c0, c1, c2, n0, n0, d) == other.p1[axis] * (d * d)
    &&& blossom(c0, c1, c2, n0, n1, d) == other.p2[axis] * (d * d)
    &&& blossom(c0, c1, c2, n1, n1, d) == other.p3[axis] * (d * d)
}

pub open spec fn is_subspan(base: GridCurve, other: GridCurve, n0: int, n1: int, d: int) -> bool {
    axis_subspan(base, other, n0, n1, d, 0) && axis_subspan(base, other, n0, n1, d, 1)
}

/// The candidate parameters over a common denominator.
pub open spec fn common(s0: (int, int), s1: (int, int)) -> (int, int, int) {
    (s0.0 * s1.1, s1.0 * s0.1, s0.1 * s1.1)
}

/// The scaled parameters are machine integers.
pub open spec fn span_fits(s: (int, int, int)) -> bool {
    fits_i64(s.0) && fits_i64(s.1) && fits_i64(s.2)
}

/// The scaled parameters are small enough for the test to be exact.
pub open spec fn span_in_range(s: (int, int, int)) -> bool {
    &&& -SPAN_LIMIT <= s.0 <= SPAN_LIMIT
    &&& -SPAN_LIMIT <= s.1 <= SPAN_LIMIT
    &&& 0 < s.2 <= SPAN_LIMIT
}

/// A quadratic's coordinate at `a / b`, times `b` squared.
pub open spec fn quadratic(c0: int, c1: int, c2: int, a: int, b: int) -> int {
    c0 * ((b - a) * (b - a)) + 2 * (c1 * (a * (b - a))) + c2 * (a * a)
}

/// An accepted sub-span is the same trace, point for point: at every parameter
/// `a / b`, the other curve is where the base curve is at the parameter that
/// lies as far between `n0 / d` and `n1 / d`.
pub proof fn law_subspan_traces_coincide(base: GridCurve, other: GridCurve, n0: int, n1: int, d: int, axis: int, a: int, b: int)
    requires
        axis_subspan(base, other, n0, n1, d, axis),
    ensures
        quadratic(other.p1[axis] as int, other.p2[axis] as int, other.p3[axis] as int, a, b) * (d * d) == quadratic(
            base.p1[axis] as int,
            base.p2[axis] as int,
            base.p3[axis] as int,
            n0 * (b - a) + n1 * a,
            d * b,
        ),
{
    let c0 = base.p1[axis] as int;
    let c1 = base.p2[axis] as int;
    let c2 = base.p3[axis] as int;
    let o0 = other.p1[axis] as int;
    let o1 = other.p2[axis] as int;
    let o2 = other.p3[axis] as int;
    let u = b - a;
    lemma_span_point(c0, c1, c2, n0, n1, d - n0, d - n1, u, a);
    let n = n0 * u + n1 * a;
    assert(d * b - n == (d - n0) * u + (d - n1) * a) by (nonlinear_arith)
        requires
            n == n0 * u + n1 * a,
            u == b - a,
    ;
    lemma_commute(a, u);
    lemma_scale_three(o0, o1, o2, u * u, u * a, a * a, d * d);
}

proof fn lemma_commute(x: int, y: int)
    ensures
        x * y == y * x,
{
    assert(x * y == y * x) by (nonlinear_arith);
}

/// A product of two linear forms.
proof fn lemma_forms(x0: int, x1: int, y0: int, y1: int, u: int, a: int)
    ensures
        (x0 * u + x1 * a) * (y0 * u + y1 * a) == (x0 * y0) * (u * u) + (x0 * y1 + x1 * y0) * (u * a) + (x1 * y1) * (a
            * a),
{
    let p = x0 * u;
    let q = x1 * a;
    let r = y0 * u;
    let t = y1 * a;
    assert((p + q) * (r + t) == p * r + p * t + q * r + q * t) by (nonlinear_arith);
    assert((x0 * u) * (y0 * u) == (x0 * y0) * (u * u)) by (nonlinear_arith);
    assert((x0 * u) * (y1 * a) == (x0 * y1) * (u * a)) by (nonlinear_arith);
    assert((x1 * a) * (y0 * u) == (x1 * y0) * (u * a)) by (nonlinear_arith);
    assert((x1 * a) * (y1 * a) == (x1 * y1) * (a * a)) by (nonlinear_arith);
    lemma_distribute(x0 * y1, x1 * y0, u * a);
}

proof fn lemma_distribute(x: int, y: int, z: int)
    ensures
        (x + y) * z == x * z + y * z,
{
    assert((x + y) * z == x * z + y * z) by (nonlinear_arith);
}

proof fn lemma_scale_three(x: int, y: int, z: int, p: int, q: int, r: int, k: int)
    ensures
        (x * p + 2 * (y * q) + z * r) * k == (x * k) * p + 2 * ((y * k) * q) + (z * k) * r,
{
    lemma_distribute(x * p + 2 * (y * q), z * r, k);
    lemma_distribute(x * p, 2 * (y * q), k);
    assert((x * p) * k == (x * k) * p) by (nonlinear_arith);
    assert((2 * (y * q)) * k == 2 * ((y * k) * q)) by (nonlinear_arith);
    assert((z * r) * k == (z * k) * r) by (nonlinear_arith);
}

proof fn lemma_expand(c: int, x: int, y: int, z: int, p: int, q: int, r: int)
    ensures
        c * (x * p + y * q + z * r) == (c * x) * p + (c * y) * q + (c * z) * r,
{
    let i = x * p;
    let j = y * q;
    let k = z * r;
    assert(c * (i + j + k) == c * i + c * j + c * k) by (nonlinear_arith);
    assert(c * (x * p) == (c * x) * p) by (nonlinear_arith);
    assert(c * (y * q) == (c * y) * q) by (nonlinear_arith);
    assert(c * (z * r) == (c * z) * r) by (nonlinear_arith);
}

proof fn lemma_blossom(c0: int, c1: int, c2: int, n: int, m: int, w: int, v: int)
    ensures
        v * (w * c0 + n * c1) + m * (w * c1 + n * c2) == c0 * (w * v) + c1 * (n * v + m * w) + c2 * (n * m),
{
    let p = w * c0;
    let q = n * c1;
    let r = w * c1;
    let t = n * c2;
    assert(v * (p + q) == v * p + v * q) by (nonlinear_arith);
    assert(m * (r + t) == m * r + m * t) by (nonlinear_arith);
    assert(v * (w * c0) == c0 * (w * v)) by (nonlinear_arith);
    assert(v * (n * c1) == c1 * (n * v)) by (nonlinear_arith);
    assert(m * (w * c1) == c1 * (m * w)) by (nonlinear_arith);
    assert(m * (n * c2) == c2 * (n * m)) by (nonlinear_arith);
    let i = n * v;
    let j = m * w;
    assert(c1 * (i + j) == c1 * i + c1 * j) by (nonlinear_arith);
}

/// The point of a quadratic at a weighted mean of two parameters, from the
/// blossom values at those parameters.
proof fn lemma_span_point(c0: int, c1: int, c2: int, n0: int, n1: int, w0: int, w1: int, u: int, a: int)
    ensures
        ({
            let n = n0 * u + n1 * a;
            let w = w0 * u + w1 * a;
            let start = w0 * (w0 * c0 + n0 * c1) + n0 * (w0 * c1 + n0 * c2);
            let control = w1 * (w0 * c0 + n0 * c1) + n1 * (w0 * c1 + n0 * c2);
            let end = w1 * (w1 * c0 + n1 * c1) + n1 * (w1 * c1 + n1 * c2);
            c0 * (w * w) + 2 * (c1 * (n * w)) + c2 * (n * n) == start * (u * u) + 2 * (control * (u * a)) + end * (a
                * a)
        }),
{
    let n = n0 * u + n1 * a;
    let w = w0 * u + w1 * a;
    let uu = u * u;
    let ua = u * a;
    let aa = a * a;
    lemma_forms(w0, w1, w0, w1, u, a);
    lemma_forms(n0, n1, w0, w1, u, a);
    lemma_forms(n0, n1, n0, n1, u, a);
    lemma_commute(w1, w0);
    lemma_commute(n1, n0);
    lemma_commute(n1, w0);
    lemma_expand(c0, w0 * w0, w0 * w1 + w1 * w0, w1 * w1, uu, ua, aa);
    lemma_expand(c1, n0 * w0, n0 * w1 + n1 * w0, n1 * w1, uu, ua, aa);
    lemma_expand(c2, n0 * n0, n0 * n1 + n1 * n0, n1 * n1, uu, ua, aa);
    lemma_blossom(c0, c1, c2, n0, n0, w0, w0);
    lemma_blossom(c0, c1, c2, n0, n1, w0, w1);
    lemma_blossom(c0, c1, c2, n1, n1, w1, w1);
    // Collect the three coefficients.
    let s0 = c0 * (w0 * w0);
    let s1 = c1 * (n0 * w0);
    let s2 = c2 * (n0 * n0);
    let k0 = c0 * (w0 * w1);
    let k1 = c1 * (n0 * w1 + n1 * w0);
    let k2 = c2 * (n0 * n1);
    let e0 = c0 * (w1 * w1);
    let e1 = c1 * (n1 * w1);
    let e2 = c2 * (n1 * n1);
    lemma_double(c0, w0 * w1);
    lemma_double(c1, n0 * w0);
    lemma_double(c1, n1 * w1);
    lemma_double(c2, n0 * n1);
    lemma_sum_three(s0, 2 * s1, s2, uu);
    lemma_sum_three(k0, k1, k2, ua);
    lemma_sum_three(e0, 2 * e1, e2, aa);
    lemma_double_left(s1, uu);
    lemma_double_left(k0, ua);
    lemma_double_left(k2, ua);
    lemma_double_left(e1, aa);
}

proof fn lemma_double(c: int, x: int)
    ensures
        c * (x + x) == 2 * (c * x),
        c * (2 * x) == 2 * (c * x),
{
    assert(c * (x + x) == 2 * (c * x)) by (nonlinear_arith);
    assert(c * (2 * x) == 2 * (c * x)) by (nonlinear_arith);
}

proof fn lemma_double_left(x: int, y: int)
    ensures
        (2 * x) * y == 2 * (x * y),
{
    assert((2 * x) * y == 2 * (x * y)) by (nonlinear_arith);
}

proof fn lemma_sum_three(x: int, y: int, z: int, k: int)
    ensures
        (x + y + z) * k == x * k + y * k + z * k,
{
    assert((x + y + z) * k == x * k + y * k + z * k) by (nonlinear_arith);
}

fn axis_matches(c0: i64, c1: i64, c2: i64, o0: i64, o1: i64, o2: i64, n0: i64, n1: i64, d: i64) -> (r: bool)
    requires
        span_in_range((n0 as int, n1 as int, d as int)),
        -GRID_LIMIT <= c0 <= GRID_LIMIT,
        -GRID_LIMIT <= c1 <= GRID_LIMIT,
        -GRID_LIMIT <= c2 <= GRID_LIMIT,
        -GRID_LIMIT <= o0 <= GRID_LIMIT,
        -GRID_LIMIT <= o1 <= GRID_LIMIT,
        -GRID_LIMIT <= o2 <= GRID_LIMIT,
    ensures
        r == ({
            &&& blossom(c0 as int, c1 as int, c2 as int, n0 as int, n0 as int, d as int) == o0 * (d * d)
            &&& blossom(c0 as int, c1 as int, c2 as int, n0 as int, n1 as int, d as int) == o1 * (d * d)
            &&& blossom(c0 as int, c1 as int, c2 as int, n1 as int, n1 as int, d as int) == o2 * (d * d)
        }),
{
    let dd: i128 = square(d);
    let start: i128 = blossom_value(c0, c1, c2, n0, n0, d);
    let control: i128 = blossom_value(c0, c1, c2, n0, n1, d);
    let end: i128 = blossom_value(c0, c1, c2, n1, n1, d);
    proof {
        lemma_grid_product(o0 as int, dd as int);
        lemma_grid_product(o1 as int, dd as int);
        lemma_grid_product(o2 as int, dd as int);
    }
    start == o0 as i128 * dd && control == o1 as i128 * dd && end == o2 as i128 * dd
}

proof fn lemma_grid_product(a: int, b: int)
    requires
        -GRID_LIMIT <= a <= GRID_LIMIT,
        0 <= b <= 0x1000_0000_0000_0000_0000_0000,
    ensures
        -0x200_0000_0000_0000_0000_0000_0000_0000 <= a * b <= 0x200_0000_0000_0000_0000_0000_0000_0000,
{
    assert(-0x200_0000_0000_0000_0000_0000_0000_0000 <= a * b <= 0x200_0000_0000_0000_0000_0000_0000_0000)
        by (nonlinear_arith)
        requires
            -0x2000_0000 <= a <= 0x2000_0000,
            0 <= b <= 0x1000_0000_0000_0000_0000_0000,
    ;
}

fn square(d: i64) -> (r: i128)
    requires
        0 < d <= SPAN_LIMIT,
    ensures
        r == d * d,
        0 <= r <= 0x1000_0000_0000_0000_0000_0000,
{
    assert(0 <= d * d <= 0x1000_0000_0000_0000_0000_0000) by (nonlinear_arith)
        requires
            0 < d <= 0x4000_0000_0000,
    ;
    d as i128 * d as i128
}

fn blossom_value(c0: i64, c1: i64, c2: i64, n: i64, m: i64, d: i64) -> (r: i128)
    requires
        span_in_range((n as int, m as int, d as int)),
        -GRID_LIMIT <= c0 <= GRID_LIMIT,
        -GRID_LIMIT <= c1 <= GRID_LIMIT,
        -GRID_LIMIT <= c2 <= GRID_LIMIT,
    ensures
        r == blossom(c0 as int, c1 as int, c2 as int, n as int, m as int, d as int),
{
    let w: i128 = d as i128 - n as i128;
    let v: i128 = d as i128 - m as i128;
    proof {
        lemma_scaled(w as int, c0 as int);
        lemma_scaled(n as int, c1 as int);
        lemma_scaled(w as int, c1 as int);
        lemma_scaled(n as int, c2 as int);
    }
    let first: i128 = w * c0 as i128 + n as i128 * c1 as i128;
    let second: i128 = w * c1 as i128 + n as i128 * c2 as i128;
    proof {
        lemma_twice_scaled(v as int, first as int);
        lemma_twice_scaled(m as int, second as int);
    }
    v * first + m as i128 * second
}

proof fn lemma_scaled(a: int, b: int)
    requires
        -0x8000_0000_0000 <= a <= 0x8000_0000_0000,
        -GRID_LIMIT <= b <= GRID_LIMIT,
    ensures
        -0x1000_0000_0000_0000_0000 <= a * b <= 0x1000_0000_0000_0000_0000,
{
    assert(-0x1000_0000_0000_0000_0000 <= a * b <= 0x1000_0000_0000_0000_0000) by (nonlinear_arith)
        requires
            -0x8000_0000_0000 <= a <= 0x8000_0000_0000,
            -0x2000_0000 <= b <= 0x2000_0000,
    ;
}

proof fn lemma_twice_scaled(a: int, b: int)
    requires
        -0x8000_0000_0000 <= a <= 0x8000_0000_0000,
        -0x2000_0000_0000_0000_0000 <= b <= 0x2000_0000_0000_0000_0000,
    ensures
        -0x1000_0000_0000_0000_0000_0000_0000_0000 <= a * b <= 0x1000_0000_0000_0000_0000_0000_0000_0000,
{
    assert(-0x1000_0000_0000_0000_0000_0000_0000_0000 <= a * b <= 0x1000_0000_0000_0000_0000_0000_0000_0000)
        by (nonlinear_arith)
        requires
            -0x8000_0000_0000 <= a <= 0x8000_0000_0000,
            -0x2000_0000_0000_0000_0000 <= b <= 0x2000_0000_0000_0000_0000,
    ;
}

/// Exact verification that `other` equals the sub-span of `base` between two
/// rational parameters, by polynomial identity over the integer grid (the de
/// Casteljau sub-span controls are the blossom values). Only an exact match
/// returns the parameters, as `(n0, n1, den)` over a common denominator, so
/// approximate candidates can never cancel a distinct trace.
pub fn exact_subspan(base: &GridCurve, other: &GridCurve, s0: (i64, i64), s1: (i64, i64)) -> (r: Option<(i64, i64, i64)>)
    requires
        base.wf(),
        other.wf(),
        s0.1 > 0,
        s1.1 > 0,
        ({
            let c = common((s0.0 as int, s0.1 as int), (s1.0 as int, s1.1 as int));
            span_fits(c) ==> span_in_range(c)
        }),
    ensures
        ({
            let c = common((s0.0 as int, s0.1 as int), (s1.0 as int, s1.1 as int));
            &&& r is Some <==> span_fits(c) && is_subspan(*base, *other, c.0, c.1, c.2)
            &&& r is Some ==> (r->0).0 == c.0 && (r->0).1 == c.1 && (r->0).2 == c.2
        }),
{
    let den: i64 = match step(s0.1, s1.1, 0) {
        Some(x) => x,
        None => {
            return None;
        },
    };
    let n0: i64 = match step(s0.0, s1.1, 0) {
        Some(x) => x,
        None => {
            return None;
        },
    };
    let n1: i64 = match step(s1.0, s0.1, 0) {
        Some(x) => x,
        None => {
            return None;
        },
    };
    assert(den > 0) by (nonlinear_arith)
        requires
            den == s0.1 * s1.1,
            s0.1 > 0,
            s1.1 > 0,
    ;
    if !axis_matches(base.p1[0], base.p2[0], base.p3[0], other.p1[0], other.p2[0], other.p3[0], n0, n1, den) {
        return None;
    }
    if !axis_matches(base.p1[1], base.p2[1], base.p3[1], other.p1[1], other.p2[1], other.p3[1], n0, n1, den) {
        return None;
    }
    Some((n0, n1, den))
}

/// The exact affine-inverse endpoints: given `other` as the sub-span of `base`
/// from n0/den to n1/den, `base`'s own endpoints in `other`'s parameterization.
pub fn invert_params(span: (i64, i64, i64)) -> (r: (Rat, Rat))
    requires
        span.0 != span.1,
        span.2 > 0,
    ensures
        r.0.d > 0,
        r.1.d > 0,
        span_in_range((span.0 as int, span.1 as int, span.2 as int)) ==> r.0.wf() && r.1.wf(),
        (r.0.n as int, r.0.d as int) == reduced(-span.0, span.1 - span.0),
        (r.1.n as int, r.1.d as int) == reduced(span.2 - span.0, span.1 - span.0),
        // Mapping them forward gives the base curve's ends back.
        r.0.n * (span.1 - span.0) + span.0 * r.0.d == 0,
        r.1.n * (span.1 - span.0) + span.0 * r.1.d == span.2 * r.1.d,
{
    let n0: i128 = span.0 as i128;
    let n1: i128 = span.1 as i128;
    let den: i128 = span.2 as i128;
    let a: Rat = Rat::new(-n0, n1 - n0);
    let b: Rat = Rat::new(den - n0, n1 - n0);
    proof {
        let an = a.n as int;
        let ad = a.d as int;
        let bn = b.n as int;
        let bd = b.d as int;
        assert((-n0) * ad == -(n0 * ad)) by (nonlinear_arith);
        assert((den - n0) * bd == den * bd - n0 * bd) by (nonlinear_arith);
    }
    (a, b)
}

pub open spec fn min_rat(a: Rat, b: Rat) -> Rat {
    if b.below(a) { b } else { a }
}

pub open spec fn max_rat(a: Rat, b: Rat) -> Rat {
    if b.below(a) { a } else { b }
}

/// The part of `[0, 1]` between two parameters.
pub open spec fn clamped(u0: Rat, u1: Rat) -> (Rat, Rat) {
    (max_rat(min_rat(u0, u1), Rat { n: 0, d: 1 }), min_rat(max_rat(u0, u1), Rat { n: 1, d: 1 }))
}

fn rat_min(a: Rat, b: Rat) -> (r: Rat)
    requires
        comparable(b, a),
    ensures
        r == min_rat(a, b),
{
    if b.lt(a) {
        b
    } else {
        a
    }
}

fn rat_max(a: Rat, b: Rat) -> (r: Rat)
    requires
        comparable(b, a),
    ensures
        r == max_rat(a, b),
{
    if b.lt(a) {
        a
    } else {
        b
    }
}

/// Sub-span of `[0, 1]` covered, with relative orientation - or nothing when
/// the exact span misses the domain.
pub fn clamp_span(u0: Rat, u1: Rat) -> (r: Option<(Rat, Rat, i32)>)
    requires
        comparable(u0, u1),
    ensures
        r is Some <==> clamped(u0, u1).0.below(clamped(u0, u1).1),
        r matches Some(span) ==> {
            &&& span.0 == clamped(u0, u1).0
            &&& span.1 == clamped(u0, u1).1
            &&& span.2 == (if u0.below(u1) { 1int } else { -1 })
            &&& u0.wf() && u1.wf() ==> span.0.wf() && span.1.wf()
            &&& 0 <= span.0.n
            &&& span.1.n <= span.1.d
        },
{
    let lo: Rat = rat_max(rat_min(u0, u1), Rat::zero());
    let hi: Rat = rat_min(rat_max(u0, u1), Rat::one());
    if lo.lt(hi) {
        Some((lo, hi, if u0.lt(u1) { 1 } else { -1 }))
    } else {
        None
    }
}

}
