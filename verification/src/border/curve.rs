//! Quadratic curves in single precision: evaluation, subdivision and winding.
use vstd::prelude::*;
use crate::float32::{
    F32, FOUR_BITS, HALF_BITS, ONE_BITS, TWO_BITS, f_abs, f_add, f_div, f_eq, f_le, f_lt, f_mul, f_neg, f_sqrt,
    f_sub, law_differences_are_monotone, law_means_stay_between, law_sums_commute, lemma_distinct_difference, lemma_self_difference, lemma_small_quotient,
    lemma_zero_is_neutral, lemma_zero_product,
};
use crate::outline::QuadCurve;

verus! {

/// 1e-7: smaller coefficients count as zero.
pub const COEFFICIENT_EPSILON_BITS: u32 = 0x33d6_bf95;

/// A constant by its bit pattern.
pub open spec fn lit(bits: u32) -> F32 {
    F32 { bits }
}

/// A curve's coordinate at a parameter.
#[verifier::opaque]
pub open spec fn eval_axis(c: QuadCurve, t: F32, axis: int) -> F32 {
    let u = f_sub(lit(ONE_BITS), t);
    f_add(
        f_add(f_mul(f_mul(u, u), c.p1[axis]), f_mul(f_mul(f_mul(lit(TWO_BITS), u), t), c.p2[axis])),
        f_mul(f_mul(t, t), c.p3[axis]),
    )
}

/// A curve's point at a parameter.
pub open spec fn eval_at(c: QuadCurve, t: F32) -> [F32; 2] {
    [eval_axis(c, t, 0), eval_axis(c, t, 1)]
}

/// The point halfway between two points.
#[verifier::opaque]
pub open spec fn middle(a: [F32; 2], b: [F32; 2]) -> [F32; 2] {
    [
        f_mul(f_add(a[0], b[0]), lit(HALF_BITS)),
        f_mul(f_add(a[1], b[1]), lit(HALF_BITS)),
    ]
}

/// A curve's two halves.
pub open spec fn halves(c: QuadCurve) -> (QuadCurve, QuadCurve) {
    let a = middle(c.p1, c.p2);
    let b = middle(c.p2, c.p3);
    let m = middle(a, b);
    (QuadCurve { p1: c.p1, p2: a, p3: m }, QuadCurve { p1: m, p2: b, p3: c.p3 })
}

pub open spec fn same_point(a: [F32; 2], b: [F32; 2]) -> bool {
    f_eq(a[0], b[0]) && f_eq(a[1], b[1])
}

/// The trace is a straight segment: the control point lies on an end point.
pub open spec fn is_segment(c: QuadCurve) -> bool {
    same_point(c.p2, c.p1) || same_point(c.p2, c.p3)
}

/// The degenerate quadratic of a segment.
pub open spec fn line(a: [F32; 2], b: [F32; 2]) -> QuadCurve {
    QuadCurve { p1: a, p2: a, p3: b }
}

/// A curve's derivative along an axis.
#[verifier::opaque]
pub open spec fn slope_axis(c: QuadCurve, t: F32, axis: int) -> F32 {
    f_mul(
        lit(TWO_BITS),
        f_add(
            f_mul(f_sub(lit(ONE_BITS), t), f_sub(c.p2[axis], c.p1[axis])),
            f_mul(t, f_sub(c.p3[axis], c.p2[axis])),
        ),
    )
}

/// The control coordinate of the sub-span of a curve over `[lo, hi]`.
#[verifier::opaque]
pub open spec fn sub_control(c: QuadCurve, lo: F32, hi: F32, axis: int) -> F32 {
    f_add(
        eval_axis(c, lo, axis),
        f_mul(f_mul(f_sub(hi, lo), slope_axis(c, lo, axis)), lit(HALF_BITS)),
    )
}

/// The sub-span of a curve over `[lo, hi]`; the whole range is the curve itself.
pub open spec fn sub_span(c: QuadCurve, lo: F32, hi: F32) -> QuadCurve {
    if f_eq(lo, lit(0)) && f_eq(hi, lit(ONE_BITS)) {
        c
    } else {
        QuadCurve {
            p1: eval_at(c, lo),
            p2: [sub_control(c, lo, hi, 0), sub_control(c, lo, hi, 1)],
            p3: eval_at(c, hi),
        }
    }
}

/// The parameters at which a curve's coordinate along an axis takes a value.
#[verifier::opaque]
pub open spec fn axis_roots(c: QuadCurve, axis: int, at: F32) -> Seq<F32> {
    let a = f_add(f_sub(c.p1[axis], f_mul(lit(TWO_BITS), c.p2[axis])), c.p3[axis]);
    let b = f_mul(lit(TWO_BITS), f_sub(c.p2[axis], c.p1[axis]));
    let k = f_sub(c.p1[axis], at);
    if f_lt(f_abs(a), lit(COEFFICIENT_EPSILON_BITS)) {
        if f_le(lit(COEFFICIENT_EPSILON_BITS), f_abs(b)) {
            seq![f_div(f_neg(k), b)]
        } else {
            Seq::empty()
        }
    } else {
        let d = f_sub(f_mul(b, b), f_mul(f_mul(lit(FOUR_BITS), a), k));
        if f_le(lit(0), d) {
            let s = f_sqrt(d);
            let twice = f_mul(lit(TWO_BITS), a);
            seq![f_div(f_sub(f_neg(b), s), twice), f_div(f_add(f_neg(b), s), twice)]
        } else {
            Seq::empty()
        }
    }
}

/// What a crossing at parameter `t` adds to the winding number of `p`: a ray to
/// the right counts upward crossings, and a contour vertex belongs to its
/// outgoing interval only.
#[verifier::opaque]
pub open spec fn root_winding(c: QuadCurve, p: [F32; 2], t: F32) -> int {
    if !f_le(lit(0), t) || !f_le(t, lit(ONE_BITS)) || f_le(eval_axis(c, t, 0), p[0]) {
        0
    } else {
        let dy = slope_axis(c, t, 1);
        if f_lt(lit(0), dy) && f_lt(t, lit(ONE_BITS)) {
            1
        } else if f_lt(dy, lit(0)) && f_lt(lit(0), t) {
            -1
        } else {
            0
        }
    }
}

/// What a segment adds to the winding number of `p`.
#[verifier::opaque]
pub open spec fn segment_winding(a: [F32; 2], b: [F32; 2], p: [F32; 2]) -> int {
    let upward = f_le(a[1], p[1]) && f_lt(p[1], b[1]);
    let downward = f_le(b[1], p[1]) && f_lt(p[1], a[1]);
    let s = f_div(f_sub(p[1], a[1]), f_sub(b[1], a[1]));
    if f_eq(a[1], b[1]) || !(upward || downward) || !f_lt(
        p[0],
        f_add(a[0], f_mul(f_sub(b[0], a[0]), s)),
    ) {
        0
    } else if upward {
        1
    } else {
        -1
    }
}

pub open spec fn roots_winding(c: QuadCurve, p: [F32; 2], roots: Seq<F32>) -> int
    decreases roots.len(),
{
    if roots.len() == 0 {
        0
    } else {
        roots_winding(c, p, roots.drop_last()) + root_winding(c, p, roots.last())
    }
}

/// What a curve adds to the winding number of a point.
pub open spec fn curve_winding(c: QuadCurve, p: [F32; 2]) -> int {
    if is_segment(c) {
        segment_winding(c.p1, c.p3, p)
    } else {
        roots_winding(c, p, axis_roots(c, 1, p[1]))
    }
}

/// The winding number of a point with respect to the first `n` curves.
pub open spec fn winding(curves: Seq<QuadCurve>, p: [F32; 2], n: nat) -> int
    decreases n,
{
    if n == 0 {
        0
    } else {
        winding(curves, p, (n - 1) as nat) + curve_winding(curves[n - 1], p)
    }
}

fn eval_coord(c: &QuadCurve, t: F32, axis: usize) -> (r: F32)
    requires
        axis < 2,
    ensures
        r == eval_axis(*c, t, axis as int),
{
    reveal(eval_axis);
    let u: F32 = F32 { bits: ONE_BITS }.minus(t);
    u.times(u).times(c.p1[axis]).plus(F32 { bits: TWO_BITS }.times(u).times(t).times(c.p2[axis])).plus(
        t.times(t).times(c.p3[axis]),
    )
}

/// A curve's point at a parameter.
pub fn eval(c: &QuadCurve, t: F32) -> (r: [F32; 2])
    ensures
        r == eval_at(*c, t),
{
    [eval_coord(c, t, 0), eval_coord(c, t, 1)]
}

fn midpoint(a: &[F32; 2], b: &[F32; 2]) -> (r: [F32; 2])
    ensures
        r == middle(*a, *b),
{
    reveal(middle);
    let half = F32 { bits: HALF_BITS };
    [a[0].plus(b[0]).times(half), a[1].plus(b[1]).times(half)]
}

/// Splits a curve in half.
pub fn split(c: &QuadCurve) -> (r: (QuadCurve, QuadCurve))
    ensures
        r == halves(*c),
{
    let a: [F32; 2] = midpoint(&c.p1, &c.p2);
    let b: [F32; 2] = midpoint(&c.p2, &c.p3);
    let m: [F32; 2] = midpoint(&a, &b);
    (QuadCurve { p1: c.p1, p2: a, p3: m }, QuadCurve { p1: m, p2: b, p3: c.p3 })
}

fn points_equal(a: &[F32; 2], b: &[F32; 2]) -> (r: bool)
    ensures
        r == same_point(*a, *b),
{
    a[0].eq_value(b[0]) && a[1].eq_value(b[1])
}

/// Endpoints of a curve whose trace is a straight segment.
///
/// Lines are degenerate quadratics with the control point on an end point. Their
/// parameterization is not uniform, so they are classified on the trace.
pub fn as_segment(c: &QuadCurve) -> (r: Option<([F32; 2], [F32; 2])>)
    ensures
        r == (if is_segment(*c) { Some((c.p1, c.p3)) } else { None }),
{
    if points_equal(&c.p2, &c.p1) || points_equal(&c.p2, &c.p3) {
        Some((c.p1, c.p3))
    } else {
        None
    }
}

pub fn line_curve(a: [F32; 2], b: [F32; 2]) -> (r: QuadCurve)
    ensures
        r == line(a, b),
{
    QuadCurve { p1: a, p2: a, p3: b }
}

fn slope_coord(c: &QuadCurve, t: F32, axis: usize) -> (r: F32)
    requires
        axis < 2,
    ensures
        r == slope_axis(*c, t, axis as int),
{
    reveal(slope_axis);
    F32 { bits: TWO_BITS }.times(
        F32 { bits: ONE_BITS }.minus(t).times(c.p2[axis].minus(c.p1[axis])).plus(
            t.times(c.p3[axis].minus(c.p2[axis])),
        ),
    )
}

/// A curve's derivative at a parameter.
pub fn deriv(c: &QuadCurve, t: F32) -> (r: [F32; 2])
    ensures
        r == [slope_axis(*c, t, 0), slope_axis(*c, t, 1)],
{
    [slope_coord(c, t, 0), slope_coord(c, t, 1)]
}

/// The quadratic sub-span of a curve over `[lo, hi]` (de Casteljau).
pub fn subcurve(c: &QuadCurve, lo: F32, hi: F32) -> (r: QuadCurve)
    ensures
        r == sub_span(*c, lo, hi),
{
    if lo.eq_value(F32 { bits: 0 }) && hi.eq_value(F32 { bits: ONE_BITS }) {
        return *c;
    }
    reveal(sub_control);
    let p1: [F32; 2] = eval(c, lo);
    let d: [F32; 2] = deriv(c, lo);
    let half = F32 { bits: HALF_BITS };
    let extent: F32 = hi.minus(lo);
    QuadCurve {
        p1,
        p2: [p1[0].plus(extent.times(d[0]).times(half)), p1[1].plus(extent.times(d[1]).times(half))],
        p3: eval(c, hi),
    }
}

/// The parameters at which a curve's coordinate along an axis takes a value.
pub fn solve_axis(c: &QuadCurve, axis: usize, at: F32) -> (r: Vec<F32>)
    requires
        axis < 2,
    ensures
        r@ == axis_roots(*c, axis as int, at),
        r@.len() <= 2,
{
    reveal(axis_roots);
    let two = F32 { bits: TWO_BITS };
    let epsilon = F32 { bits: COEFFICIENT_EPSILON_BITS };
    let a: F32 = c.p1[axis].minus(two.times(c.p2[axis])).plus(c.p3[axis]);
    let b: F32 = two.times(c.p2[axis].minus(c.p1[axis]));
    let k: F32 = c.p1[axis].minus(at);
    let mut roots: Vec<F32> = Vec::new();
    if a.abs().lt(epsilon) {
        if epsilon.le(b.abs()) {
            roots.push(k.negate().over(b));
        }
    } else {
        let d: F32 = b.times(b).minus(F32 { bits: FOUR_BITS }.times(a).times(k));
        let zero = F32 { bits: 0 };
        if zero.le(d) {
            let s: F32 = d.sqrt();
            let twice: F32 = two.times(a);
            roots.push(b.negate().minus(s).over(twice));
            roots.push(b.negate().plus(s).over(twice));
        }
    }
    assert(roots@ =~= axis_roots(*c, axis as int, at));
    roots
}

fn winding_of_root(c: &QuadCurve, p: &[F32; 2], t: F32) -> (r: i32)
    ensures
        r == root_winding(*c, *p, t),
        -1 <= r <= 1,
{
    reveal(root_winding);
    let zero = F32 { bits: 0 };
    let one = F32 { bits: ONE_BITS };
    if !zero.le(t) || !t.le(one) || eval_coord(c, t, 0).le(p[0]) {
        return 0;
    }
    let dy: F32 = slope_coord(c, t, 1);
    if zero.lt(dy) && t.lt(one) {
        1
    } else if dy.lt(zero) && zero.lt(t) {
        -1
    } else {
        0
    }
}

fn winding_of_segment(a: &[F32; 2], b: &[F32; 2], p: &[F32; 2]) -> (r: i32)
    ensures
        r == segment_winding(*a, *b, *p),
        -1 <= r <= 1,
{
    reveal(segment_winding);
    if a[1].eq_value(b[1]) {
        return 0;
    }
    let upward: bool = a[1].le(p[1]) && p[1].lt(b[1]);
    let downward: bool = b[1].le(p[1]) && p[1].lt(a[1]);
    let s: F32 = p[1].minus(a[1]).over(b[1].minus(a[1]));
    if (upward || downward) && p[0].lt(a[0].plus(b[0].minus(a[0]).times(s))) {
        if upward {
            1
        } else {
            -1
        }
    } else {
        0
    }
}

fn winding_of_curve(c: &QuadCurve, p: &[F32; 2]) -> (r: i32)
    ensures
        r == curve_winding(*c, *p),
        -2 <= r <= 2,
{
    if let Some((a, b)) = as_segment(c) {
        return winding_of_segment(&a, &b, p);
    }
    let roots: Vec<F32> = solve_axis(c, 1, p[1]);
    let mut total: i32 = 0;
    let mut i: usize = 0;
    assert(roots@.take(0) =~= Seq::<F32>::empty());
    while i < roots.len()
        invariant
            i <= roots.len() <= 2,
            total == roots_winding(*c, *p, roots@.take(i as int)),
            -(i as int) <= total <= i,
        decreases roots.len() - i,
    {
        assert(roots@.take(i + 1).drop_last() =~= roots@.take(i as int));
        total = total + winding_of_root(c, p, roots[i]);
        i = i + 1;
    }
    assert(roots@.take(i as int) =~= roots@);
    total
}

/// The winding number of a point.
pub fn winding_at(curves: &[QuadCurve], p: [F32; 2]) -> (r: i32)
    requires
        curves.len() <= 0x3fff_ffff,
    ensures
        r == winding(curves@, p, curves@.len()),
{
    let mut total: i32 = 0;
    let mut i: usize = 0;
    while i < curves.len()
        invariant
            i <= curves.len() <= 0x3fff_ffff,
            total == winding(curves@, p, i as nat),
            -2 * i <= total <= 2 * i,
        decreases curves.len() - i,
    {
        total = total + winding_of_curve(&curves[i], &p);
        i = i + 1;
    }
    total
}

/// What a vertical segment at `x` from `y0` to `y1` adds to the winding number of
/// `p`: its start belongs to it, its end does not.
pub open spec fn vertical_winding(x: F32, y0: F32, y1: F32, p: [F32; 2]) -> int {
    if !f_lt(p[0], x) {
        0
    } else if f_le(y0, p[1]) && f_lt(p[1], y1) {
        1
    } else if f_le(y1, p[1]) && f_lt(p[1], y0) {
        -1
    } else {
        0
    }
}

proof fn lemma_vertical_winding(x: F32, y0: F32, y1: F32, p: [F32; 2])
    requires
        x.finite(),
        y0.finite(),
        y1.finite(),
        p[1].finite(),
        f_sub(y1, y0).finite(),
    ensures
        segment_winding([x, y0], [x, y1], p) == vertical_winding(x, y0, y1, p),
{
    reveal(segment_winding);
    let a = [x, y0];
    let b = [x, y1];
    assert(a[0] == x && a[1] == y0 && b[0] == x && b[1] == y1);
    let up = f_le(y0, p[1]) && f_lt(p[1], y1);
    let down = f_le(y1, p[1]) && f_lt(p[1], y0);
    if up || down {
        let num = f_sub(p[1], y0);
        let den = f_sub(y1, y0);
        let zero = f_sub(y0, y0);
        lemma_self_difference(y0);
        if up {
            law_differences_are_monotone(y0, p[1], y0);
            law_differences_are_monotone(p[1], y1, y0);
        } else {
            law_differences_are_monotone(y1, p[1], y0);
            law_differences_are_monotone(p[1], y0, y0);
        }
        lemma_distinct_difference(y1, y0);
        assert(num.unsigned() <= den.unsigned());
        lemma_small_quotient(num, den);
        let s = f_div(num, den);
        let z = f_sub(x, x);
        lemma_self_difference(x);
        lemma_zero_product(z, s);
        lemma_zero_is_neutral(x, f_mul(z, s));
    }
}

/// A vertical contour that is split anywhere is crossed at every height as often
/// as the whole: a vertex on it counts once.
pub proof fn law_split_segments_wind_alike(x: F32, y0: F32, y1: F32, y2: F32, p: [F32; 2])
    requires
        x.finite(),
        y0.finite(),
        y1.finite(),
        y2.finite(),
        p[1].finite(),
        f_sub(y1, y0).finite(),
        f_sub(y2, y1).finite(),
        f_sub(y2, y0).finite(),
        f_le(y0, y1) && f_le(y1, y2) || f_le(y2, y1) && f_le(y1, y0),
    ensures
        curve_winding(line([x, y0], [x, y2]), p) == curve_winding(line([x, y0], [x, y1]), p) + curve_winding(
            line([x, y1], [x, y2]),
            p,
        ),
{
    lemma_vertical_winding(x, y0, y2, p);
    lemma_vertical_winding(x, y0, y1, p);
    lemma_vertical_winding(x, y1, y2, p);
    lemma_line_is_segment(x, y0, y2);
    lemma_line_is_segment(x, y0, y1);
    lemma_line_is_segment(x, y1, y2);
}

proof fn lemma_line_is_segment(x: F32, y0: F32, y1: F32)
    requires
        x.finite(),
        y0.finite(),
    ensures
        is_segment(line([x, y0], [x, y1])),
{
    let c = line([x, y0], [x, y1]);
    assert(c.p1[0] == x && c.p1[1] == y0);
}

/// The curve traced backwards.
pub open spec fn backwards(c: QuadCurve) -> QuadCurve {
    QuadCurve { p1: c.p3, p2: c.p2, p3: c.p1 }
}

/// The halves of a curve start and end where the curve does, and meet.
pub proof fn law_halves_join(c: QuadCurve)
    ensures
        halves(c).0.p1 == c.p1,
        halves(c).0.p3 == halves(c).1.p1,
        halves(c).1.p3 == c.p3,
{
}

/// Splitting commutes with tracing backwards: the halves of the reversed curve
/// are the reversed halves, in the other order.
pub proof fn law_halves_of_backwards(c: QuadCurve)
    ensures
        halves(backwards(c)) == (backwards(halves(c).1), backwards(halves(c).0)),
{
    lemma_middle_commutes(c.p1, c.p2);
    lemma_middle_commutes(c.p2, c.p3);
    lemma_middle_commutes(middle(c.p1, c.p2), middle(c.p2, c.p3));
}

proof fn lemma_middle_commutes(a: [F32; 2], b: [F32; 2])
    ensures
        middle(a, b) == middle(b, a),
{
    reveal(middle);
    law_sums_commute(a[0], b[0]);
    law_sums_commute(a[1], b[1]);
}

/// Between two values, neither of which is so large that twice it overflows.
spec fn between(low: F32, v: F32, high: F32) -> bool {
    v.unsigned() < 0x7f00_0000 && f_le(low, v) && f_le(v, high)
}

proof fn lemma_middle_between(a: [F32; 2], b: [F32; 2], axis: int, low: F32, high: F32)
    requires
        axis == 0 || axis == 1,
        between(low, a[axis], high),
        between(low, b[axis], high),
    ensures
        between(low, middle(a, b)[axis], high),
{
    reveal(middle);
    let x = a[axis];
    let y = b[axis];
    law_sums_commute(x, y);
    if f_le(x, y) {
        law_means_stay_between(x, y);
    } else {
        law_means_stay_between(y, x);
    }
}

/// The halves of a curve stay within the range of its coordinates, where no
/// coordinate is so large that twice it overflows.
pub proof fn law_halves_stay_inside(c: QuadCurve, axis: int)
    requires
        axis == 0 || axis == 1,
        c.p1[axis].unsigned() < 0x7f00_0000,
        c.p2[axis].unsigned() < 0x7f00_0000,
        c.p3[axis].unsigned() < 0x7f00_0000,
    ensures
        f_le(c.low(axis), halves(c).0.low(axis)),
        f_le(halves(c).0.high(axis), c.high(axis)),
        f_le(c.low(axis), halves(c).1.low(axis)),
        f_le(halves(c).1.high(axis), c.high(axis)),
{
    let low = c.low(axis);
    let high = c.high(axis);
    let a = middle(c.p1, c.p2);
    let b = middle(c.p2, c.p3);
    lemma_middle_between(c.p1, c.p2, axis, low, high);
    lemma_middle_between(c.p2, c.p3, axis, low, high);
    lemma_middle_between(a, b, axis, low, high);
}

}
