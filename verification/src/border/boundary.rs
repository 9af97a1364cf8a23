//! The boundary of the filled set of an outline.
//!
//! Coincident traces are found and netted exactly, on the integer grid that the
//! quantized coordinates lie on; what survives is certified in single precision.
use vstd::prelude::*;
use crate::border::certify::EPSILON_BITS;
use crate::border::curve::{axis_roots, eval, eval_axis, is_segment, lit, same_point, solve_axis};
use crate::border::rational::{
    GRID_LIMIT, GridCurve, axis_subspan, common, exact_subspan, is_subspan, lemma_rationalized_in_range,
    rationalize, rationalized, span_in_range,
};
use crate::float32::{
    F32, FOUR_BITS, MAX_BITS, MIN_BITS, TWO_BITS, f_abs, f_le, f_max, f_min, f_mul, f_quantize, f_sub,
    law_quantization_is_idempotent, lemma_quantized, lemma_same_step, round_int, saturate,
};
use crate::outline::{GlyphOutline, QuadCurve};

verus! {

/// 0.25: screen-space accuracy used when isolating boundary events.
pub const BOUNDARY_ERROR_PX_BITS: u32 = 0x3e80_0000;

/// 0.1: slack with which endpoint parameters are looked for. Generosity is safe:
/// a candidate must pass the exact identity before it can cancel anything.
pub const CANDIDATE_EPS_BITS: u32 = 0x3dcc_cccd;

/// The smallest positive normal single.
pub const MIN_POSITIVE_BITS: u32 = 0x80_0000;

pub open spec fn quantized_point(p: [F32; 2]) -> [F32; 2] {
    [f_quantize(p[0]), f_quantize(p[1])]
}

pub open spec fn quantized_curve(c: QuadCurve) -> QuadCurve {
    QuadCurve { p1: quantized_point(c.p1), p2: quantized_point(c.p2), p3: quantized_point(c.p3) }
}

pub open spec fn quantized_curves(curves: Seq<QuadCurve>) -> Seq<QuadCurve> {
    Seq::new(curves.len(), |i: int| quantized_curve(curves[i]))
}

/// A box grown to hold a point.
pub open spec fn grown(b: [F32; 4], p: [F32; 2]) -> [F32; 4] {
    [f_min(b[0], p[0]), f_min(b[1], p[1]), f_max(b[2], p[0]), f_max(b[3], p[1])]
}

/// The box of the points of the first `n` curves.
pub open spec fn points_box(curves: Seq<QuadCurve>, n: nat) -> [F32; 4]
    decreases n,
{
    if n == 0 {
        [lit(MAX_BITS), lit(MAX_BITS), lit(MIN_BITS), lit(MIN_BITS)]
    } else {
        let c = curves[n - 1];
        grown(grown(grown(points_box(curves, (n - 1) as nat), c.p1), c.p2), c.p3)
    }
}

fn grow(b: [F32; 4], p: &[F32; 2]) -> (r: [F32; 4])
    ensures
        r == grown(b, *p),
{
    [b[0].min(p[0]), b[1].min(p[1]), b[2].max(p[0]), b[3].max(p[1])]
}

fn quantize_curve(c: &QuadCurve) -> (r: QuadCurve)
    ensures
        r == quantized_curve(*c),
{
    QuadCurve {
        p1: [c.p1[0].quantize(), c.p1[1].quantize()],
        p2: [c.p2[0].quantize(), c.p2[1].quantize()],
        p3: [c.p3[0].quantize(), c.p3[1].quantize()],
    }
}

/// The outline on the quarter-unit grid, with the box of its points.
pub fn quantized_outline(outline: &GlyphOutline) -> (r: GlyphOutline)
    ensures
        r.curves@ == quantized_curves(outline.curves@),
        r.bounds == points_box(r.curves@, r.curves@.len()),
{
    let n: usize = outline.curves.len();
    let mut curves: Vec<QuadCurve> = Vec::new();
    let high = F32 { bits: MAX_BITS };
    let low = F32 { bits: MIN_BITS };
    let mut bounds: [F32; 4] = [high, high, low, low];
    let ghost want = quantized_curves(outline.curves@);
    let mut i: usize = 0;
    assert(bounds =~= points_box(want, 0));
    while i < n
        invariant
            i <= n,
            n == outline.curves.len(),
            want == quantized_curves(outline.curves@),
            curves@ == want.take(i as int),
            bounds == points_box(want, i as nat),
        decreases n - i,
    {
        let c: QuadCurve = quantize_curve(&outline.curves[i]);
        bounds = grow(grow(grow(bounds, &c.p1), &c.p2), &c.p3);
        curves.push(c);
        assert(curves@ =~= want.take(i + 1));
        i = i + 1;
    }
    assert(want.take(n as int) =~= want);
    GlyphOutline { curves, bounds }
}

/// Quantizing an outline again changes nothing.
pub proof fn law_quantized_outline_is_stable(curves: Seq<QuadCurve>)
    ensures
        quantized_curves(quantized_curves(curves)) == quantized_curves(curves),
{
    let once = quantized_curves(curves);
    let twice = quantized_curves(once);
    assert forall|i: int| 0 <= i < curves.len() implies twice[i] == #[trigger] once[i] by {
        let c = curves[i];
        let a = once[i];
        let b = twice[i];
        assert(a == quantized_curve(c) && b == quantized_curve(a));
        lemma_point_stable(c.p1);
        lemma_point_stable(c.p2);
        lemma_point_stable(c.p3);
    }
    assert(twice =~= once);
}

proof fn lemma_point_stable(p: [F32; 2])
    ensures
        quantized_point(quantized_point(p)) == quantized_point(p),
{
    law_quantization_is_idempotent(p[0]);
    law_quantization_is_idempotent(p[1]);
    assert(quantized_point(quantized_point(p)) =~= quantized_point(p));
}

/// The coordinate's grid step is far from overflowing the coincidence tests.
pub open spec fn coord_in_range(v: F32) -> bool {
    let y = f_mul(v, lit(FOUR_BITS));
    y.finite() && -GRID_LIMIT <= round_int(y) <= GRID_LIMIT
}

pub open spec fn point_in_range(p: [F32; 2]) -> bool {
    coord_in_range(p[0]) && coord_in_range(p[1])
}

pub open spec fn curve_in_range(c: QuadCurve) -> bool {
    point_in_range(c.p1) && point_in_range(c.p2) && point_in_range(c.p3)
}

/// All coordinates are far from overflowing the coincidence tests; coordinates
/// of fonts are.
pub open spec fn curves_in_range(curves: Seq<QuadCurve>) -> bool {
    forall|i: int| 0 <= i < curves.len() ==> curve_in_range(#[trigger] curves[i])
}

fn is_coord_in_range(v: F32) -> (r: bool)
    ensures
        r == coord_in_range(v),
{
    let y: F32 = v.times(F32 { bits: FOUR_BITS });
    let step: i64 = y.round_i64();
    y.is_finite() && -GRID_LIMIT <= step && step <= GRID_LIMIT
}

fn is_point_in_range(p: &[F32; 2]) -> (r: bool)
    ensures
        r == point_in_range(*p),
{
    is_coord_in_range(p[0]) && is_coord_in_range(p[1])
}

/// Whether all coordinates are far from overflowing the coincidence tests.
pub fn outline_in_range(outline: &GlyphOutline) -> (r: bool)
    ensures
        r == curves_in_range(outline.curves@),
{
    for i in 0..outline.curves.len()
        invariant
            forall|j: int| 0 <= j < i ==> curve_in_range(#[trigger] outline.curves@[j]),
    {
        let c: QuadCurve = outline.curves[i];
        let inside: bool = is_point_in_range(&c.p1) && is_point_in_range(&c.p2) && is_point_in_range(&c.p3);
        assert(inside == curve_in_range(outline.curves@[i as int]));
        if !inside {
            return false;
        }
    }
    true
}

/// Coordinates on the grid and in range.
pub open spec fn point_on_grid(p: [F32; 2]) -> bool {
    &&& point_in_range(p)
    &&& f_quantize(p[0]) == p[0]
    &&& f_quantize(p[1]) == p[1]
}

pub open spec fn curve_on_grid(c: QuadCurve) -> bool {
    point_on_grid(c.p1) && point_on_grid(c.p2) && point_on_grid(c.p3)
}

pub open spec fn curves_on_grid(curves: Seq<QuadCurve>) -> bool {
    forall|i: int| 0 <= i < curves.len() ==> curve_on_grid(#[trigger] curves[i])
}

proof fn lemma_quantized_in_range(v: F32)
    requires
        coord_in_range(v),
    ensures
        coord_in_range(f_quantize(v)),
        f_quantize(f_quantize(v)) == f_quantize(v),
{
    lemma_quantized(v);
    law_quantization_is_idempotent(v);
    crate::float32::lemma_round_value(f_mul(v, lit(FOUR_BITS)));
}

/// Quantizing curves in range puts them on the grid.
pub proof fn lemma_quantized_on_grid(curves: Seq<QuadCurve>)
    requires
        curves_in_range(curves),
    ensures
        curves_on_grid(quantized_curves(curves)),
{
    let q = quantized_curves(curves);
    assert forall|i: int| 0 <= i < q.len() implies curve_on_grid(#[trigger] q[i]) by {
        let c = curves[i];
        assert(curve_in_range(c));
        lemma_quantized_in_range(c.p1[0]);
        lemma_quantized_in_range(c.p1[1]);
        lemma_quantized_in_range(c.p2[0]);
        lemma_quantized_in_range(c.p2[1]);
        lemma_quantized_in_range(c.p3[0]);
        lemma_quantized_in_range(c.p3[1]);
    }
}

/// A quantized coordinate as its grid step.
pub open spec fn grid_coord(v: F32) -> i64 {
    let y = f_mul(v, lit(FOUR_BITS));
    saturate(y, round_int(y), i64::MIN as int, i64::MAX as int) as i64
}

pub open spec fn grid_point(p: [F32; 2]) -> [i64; 2] {
    [grid_coord(p[0]), grid_coord(p[1])]
}

pub open spec fn grid_curve(c: QuadCurve) -> GridCurve {
    GridCurve { p1: grid_point(c.p1), p2: grid_point(c.p2), p3: grid_point(c.p3) }
}

fn qi(v: F32) -> (r: i64)
    ensures
        r == grid_coord(v),
{
    v.times(F32 { bits: FOUR_BITS }).round_i64()
}

pub(crate) fn int_point(p: &[F32; 2]) -> (r: [i64; 2])
    ensures
        r == grid_point(*p),
{
    [qi(p[0]), qi(p[1])]
}

fn int_curve(c: &QuadCurve) -> (r: GridCurve)
    ensures
        r == grid_curve(*c),
{
    GridCurve { p1: int_point(&c.p1), p2: int_point(&c.p2), p3: int_point(&c.p3) }
}

/// Points on the grid with the same grid coordinates are the same.
proof fn lemma_same_grid_point(a: [F32; 2], b: [F32; 2])
    requires
        point_on_grid(a),
        point_on_grid(b),
        grid_point(a)[0] == grid_point(b)[0],
        grid_point(a)[1] == grid_point(b)[1],
    ensures
        same_point(a, b),
{
    lemma_same_step(a[0], b[0]);
    lemma_same_step(a[1], b[1]);
}

/// A parameter of a curve is close enough to a point.
#[verifier::opaque]
pub open spec fn passes(c: QuadCurve, p: [F32; 2], eps: F32, u: F32) -> bool {
    &&& u.finite()
    &&& f_le(lit(0xbf80_0000), u)
    &&& f_le(u, lit(TWO_BITS))
    &&& f_le(f_abs(f_sub(eval_axis(c, u, 0), p[0])), eps)
    &&& f_le(f_abs(f_sub(eval_axis(c, u, 1), p[1])), eps)
}

/// The first parameter of a list that is close enough to a point.
pub open spec fn first_passing(c: QuadCurve, p: [F32; 2], eps: F32, roots: Seq<F32>) -> Option<F32>
    decreases roots.len(),
{
    if roots.len() == 0 {
        None
    } else if passes(c, p, eps, roots[0]) {
        Some(roots[0])
    } else {
        first_passing(c, p, eps, roots.drop_first())
    }
}

/// A parameter at which a curve passes through a point, found along either axis.
pub open spec fn param_at(c: QuadCurve, p: [F32; 2], eps: F32) -> Option<F32> {
    first_passing(c, p, eps, axis_roots(c, 0, p[0]) + axis_roots(c, 1, p[1]))
}

fn does_pass(c: &QuadCurve, p: &[F32; 2], eps: F32, u: F32) -> (r: bool)
    ensures
        r == passes(*c, *p, eps, u),
{
    reveal(passes);
    let low = F32 { bits: 0xbf80_0000 };
    let high = F32 { bits: TWO_BITS };
    if !u.is_finite() || !low.le(u) || !u.le(high) {
        return false;
    }
    let q: [F32; 2] = eval(c, u);
    q[0].minus(p[0]).abs().le(eps) && q[1].minus(p[1]).abs().le(eps)
}

/// Parameter (allowed slightly outside [0, 1]) where a curve passes through
/// `p` within `eps` on both axes, if any.
pub fn param_on(c: &QuadCurve, p: [F32; 2], eps: F32) -> (r: Option<F32>)
    ensures
        r == param_at(*c, p, eps),
{
    let mut roots: Vec<F32> = solve_axis(c, 0, p[0]);
    let mut more: Vec<F32> = solve_axis(c, 1, p[1]);
    roots.append(&mut more);
    let ghost all = axis_roots(*c, 0, p[0]) + axis_roots(*c, 1, p[1]);
    let mut i: usize = 0;
    assert(all.skip(0) =~= all);
    while i < roots.len()
        invariant
            i <= roots.len(),
            roots@ == all,
            all == axis_roots(*c, 0, p[0]) + axis_roots(*c, 1, p[1]),
            first_passing(*c, p, eps, all.skip(i as int)) == first_passing(*c, p, eps, all),
        decreases roots.len() - i,
    {
        assert(all.skip(i as int).drop_first() =~= all.skip(i + 1));
        if does_pass(c, &p, eps, roots[i]) {
            return Some(roots[i]);
        }
        i = i + 1;
    }
    None
}

/// `other`'s endpoints as exact parameters on `base`'s arc over a common
/// denominator, where the curves coincide exactly.
pub open spec fn coincident(base: QuadCurve, other: QuadCurve) -> Option<(int, int, int)> {
    match (
        param_at(base, other.p1, lit(CANDIDATE_EPS_BITS)),
        param_at(base, other.p3, lit(CANDIDATE_EPS_BITS)),
    ) {
        (Some(u0), Some(u1)) => if f_le(f_abs(f_sub(u1, u0)), lit(EPSILON_BITS)) {
            None
        } else {
            match (rationalized(u0), rationalized(u1)) {
                (Some(s0), Some(s1)) => {
                    let c = common(s0, s1);
                    if is_subspan(grid_curve(base), grid_curve(other), c.0, c.1, c.2) {
                        Some(c)
                    } else {
                        None
                    }
                },
                _ => None,
            }
        },
        _ => None,
    }
}

proof fn lemma_grid_curve_wf(c: QuadCurve)
    requires
        curve_on_grid(c),
    ensures
        grid_curve(c).wf(),
{
}

proof fn lemma_first_passing(c: QuadCurve, p: [F32; 2], eps: F32, roots: Seq<F32>)
    ensures
        first_passing(c, p, eps, roots) matches Some(u) ==> u.unsigned() <= 0x4000_0000,
    decreases roots.len(),
{
    if roots.len() > 0 {
        reveal(passes);
        lemma_first_passing(c, p, eps, roots.drop_first());
    }
}

/// The parameters that are tried are between -1 and 2, so their rationals are in
/// range.
proof fn lemma_candidates_in_range(base: QuadCurve, other: QuadCurve)
    ensures
        param_at(base, other.p1, lit(CANDIDATE_EPS_BITS)) matches Some(u0) ==> (param_at(
            base,
            other.p3,
            lit(CANDIDATE_EPS_BITS),
        ) matches Some(u1) ==> (rationalized(u0) matches Some(s0) ==> (rationalized(u1) matches Some(s1) ==> s0.1 > 0
            && s1.1 > 0 && span_in_range(common(s0, s1))))),
{
    let eps = lit(CANDIDATE_EPS_BITS);
    lemma_first_passing(base, other.p1, eps, axis_roots(base, 0, other.p1[0]) + axis_roots(base, 1, other.p1[1]));
    lemma_first_passing(base, other.p3, eps, axis_roots(base, 0, other.p3[0]) + axis_roots(base, 1, other.p3[1]));
    if param_at(base, other.p1, eps) is Some && param_at(base, other.p3, eps) is Some {
        lemma_rationalized_in_range(param_at(base, other.p1, eps)->0, param_at(base, other.p3, eps)->0);
    }
}

/// Coincident curves that are no segments do so over more than a point.
pub proof fn lemma_distinct_params(base: QuadCurve, other: QuadCurve)
    requires
        curve_on_grid(other),
        !is_segment(other),
        coincident(base, other) is Some,
    ensures
        (coincident(base, other)->0).0 != (coincident(base, other)->0).1,
{
    let c = coincident(base, other)->0;
    lemma_candidates_in_range(base, other);
    if c.0 == c.1 {
        let b = grid_curve(base);
        let o = grid_curve(other);
        let d = c.2;
        assert(axis_subspan(b, o, c.0, c.1, d, 0));
        assert(axis_subspan(b, o, c.0, c.1, d, 1));
        let dd = d * d;
        assert(dd > 0) by (nonlinear_arith)
            requires
                dd == d * d,
                d > 0,
        ;
        let x1 = o.p1[0] as int;
        let x2 = o.p2[0] as int;
        let y1 = o.p1[1] as int;
        let y2 = o.p2[1] as int;
        assert(x1 * dd == x2 * dd && y1 * dd == y2 * dd);
        assert(x1 == x2) by (nonlinear_arith)
            requires
                x1 * dd == x2 * dd,
                dd > 0,
        ;
        assert(y1 == y2) by (nonlinear_arith)
            requires
                y1 * dd == y2 * dd,
                dd > 0,
        ;
        lemma_same_grid_point(other.p2, other.p1);
    }
}

/// One direction of exact coincidence discovery. Float arithmetic only
/// generates the candidates; nothing matches without the exact integer identity.
pub fn coincident_params(base: &QuadCurve, other: &QuadCurve) -> (r: Option<(i64, i64, i64)>)
    requires
        curve_on_grid(*base),
        curve_on_grid(*other),
    ensures
        r is Some <==> coincident(*base, *other) is Some,
        r matches Some(s) ==> coincident(*base, *other) == Some((s.0 as int, s.1 as int, s.2 as int)) && span_in_range(
            (s.0 as int, s.1 as int, s.2 as int),
        ),
{
    let eps = F32 { bits: CANDIDATE_EPS_BITS };
    let u0: F32 = match param_on(base, other.p1, eps) {
        Some(u) => u,
        None => {
            return None;
        },
    };
    let u1: F32 = match param_on(base, other.p3, eps) {
        Some(u) => u,
        None => {
            return None;
        },
    };
    if u1.minus(u0).abs().le(F32 { bits: EPSILON_BITS }) {
        return None;
    }
    let s0: (i64, i64) = match rationalize(u0) {
        Some(s) => s,
        None => {
            return None;
        },
    };
    let s1: (i64, i64) = match rationalize(u1) {
        Some(s) => s,
        None => {
            return None;
        },
    };
    proof {
        lemma_grid_curve_wf(*base);
        lemma_grid_curve_wf(*other);
        lemma_candidates_in_range(*base, *other);
    }
    exact_subspan(&int_curve(base), &int_curve(other), s0, s1)
}

}
