//! What certification makes of a curve.
use vstd::prelude::*;
use crate::border::certify::{
    BoundaryPiece, EPSILON_BITS, across, boxes_overlap, certified, chord_length, clear_of, filled, flatness,
    hull_bounds, law_certification_only_appends, mid_param, point_minus, point_plus, separated, verdict,
    MAX_BOUNDARY_PIECES,
};
use crate::border::curve::{eval_at, halves, lit, middle};
use crate::float32::{
    F32, HALF_BITS, f_add, f_le, f_mul, law_differences_keep_order, law_means_stay_between, law_sums_commute,
    law_sums_keep_order,
};
use crate::outline::QuadCurve;
use crate::outline::laws::finite_curve;

verus! {

/// Where nothing is filled nothing bounds the filled set: certification yields no piece.
pub proof fn law_empty_pictures_have_no_boundary(
    all: Seq<QuadCurve>,
    c: QuadCurve,
    source: u32,
    t0: F32,
    t1: F32,
    tol: F32,
    rest: nat,
    excluded: Seq<usize>,
    out: Seq<BoundaryPiece>,
)
    requires
        forall|p: [F32; 2]| !#[trigger] filled(all, p),
    ensures
        certified(all, c, source, t0, t1, tol, rest, excluded, out) matches Some(pieces) ==> pieces == out,
    decreases rest,
{
    if verdict(all, c, source, tol, excluded) is Halve && rest > 0 {
        let h = halves(c);
        let tm = mid_param(t0, t1);
        let less = (rest - 1) as nat;
        law_empty_pictures_have_no_boundary(all, h.0, source, t0, tm, tol, less, excluded, out);
        if let Some(first) = certified(all, h.0, source, t0, tm, tol, less, excluded, out) {
            law_empty_pictures_have_no_boundary(all, h.1, source, tm, t1, tol, less, excluded, first);
        }
    }
}

/// A flat piece that no other curve comes near, with the filled set on one side of its
/// middle and none of it on the other, is kept as it is; with the same on both sides it is
/// left out.
pub proof fn law_pieces_between_filled_and_empty_are_kept(
    all: Seq<QuadCurve>,
    c: QuadCurve,
    source: u32,
    t0: F32,
    t1: F32,
    tol: F32,
    rest: nat,
    excluded: Seq<usize>,
    out: Seq<BoundaryPiece>,
)
    requires
        !f_le(chord_length(c), lit(EPSILON_BITS)),
        f_le(flatness(c), tol),
        separated(all, hull_bounds(c), source, excluded, f_mul(tol, lit(HALF_BITS))),
        out.len() < MAX_BOUNDARY_PIECES,
    ensures
        ({
            let mid = eval_at(c, lit(HALF_BITS));
            let step = across(c, f_mul(tol, lit(HALF_BITS)));
            let left = filled(all, point_plus(mid, step));
            let right = filled(all, point_minus(mid, step));
            let got = certified(all, c, source, t0, t1, tol, rest, excluded, out);
            &&& got is Some
            &&& left != right ==> got->0 == out.push(BoundaryPiece { curve: c, source_curve: source, t0, t1 })
            &&& left == right ==> got->0 == out
        }),
{
}

/// A coordinate is at most a margin outside of two sides.
pub open spec fn within(v: F32, low: F32, high: F32, margin: F32) -> bool {
    low.value() - margin.value() <= v.value() <= high.value() + margin.value()
}

/// A point is at most a margin outside of a box.
pub open spec fn near_box(p: [F32; 2], b: [F32; 4], margin: F32) -> bool {
    within(p[0], b[0], b[2], margin) && within(p[1], b[1], b[3], margin)
}

proof fn lemma_near_boxes_overlap(p: [F32; 2], b: [F32; 4], c: QuadCurve, margin: F32)
    requires
        finite_curve(c),
        p == c.p1 || p == c.p2 || p == c.p3,
        b[0].finite() && b[1].finite() && b[2].finite() && b[3].finite() && margin.finite(),
        near_box(p, b, margin),
    ensures
        boxes_overlap(b, hull_bounds(c), margin),
{
    reveal(boxes_overlap);
    law_sums_keep_order(b[2], margin, p[0]);
    law_sums_keep_order(b[3], margin, p[1]);
    law_differences_keep_order(b[0], margin, p[0]);
    law_differences_keep_order(b[1], margin, p[1]);
    let h = hull_bounds(c);
    assert(f_le(h[0], p[0]) && f_le(p[0], h[2]) && f_le(h[1], p[1]) && f_le(p[1], h[3]));
}

/// A curve that keeps clear of a box neither starts nor ends within the margin of it.
pub proof fn law_clear_curves_end_elsewhere(b: [F32; 4], c: QuadCurve, margin: F32, depth: nat)
    requires
        finite_curve(c),
        c.p1[0].unsigned() < 0x7f00_0000 && c.p1[1].unsigned() < 0x7f00_0000,
        c.p2[0].unsigned() < 0x7f00_0000 && c.p2[1].unsigned() < 0x7f00_0000,
        c.p3[0].unsigned() < 0x7f00_0000 && c.p3[1].unsigned() < 0x7f00_0000,
        b[0].finite() && b[1].finite() && b[2].finite() && b[3].finite() && margin.finite(),
        clear_of(b, c, margin, depth),
    ensures
        !near_box(c.p1, b, margin),
        !near_box(c.p3, b, margin),
    decreases depth,
{
    if !boxes_overlap(b, hull_bounds(c), margin) {
        if near_box(c.p1, b, margin) {
            lemma_near_boxes_overlap(c.p1, b, c, margin);
        }
        if near_box(c.p3, b, margin) {
            lemma_near_boxes_overlap(c.p3, b, c, margin);
        }
    } else {
        let h = halves(c);
        lemma_middle_is_moderate(c.p1, c.p2);
        lemma_middle_is_moderate(c.p2, c.p3);
        lemma_middle_is_moderate(middle(c.p1, c.p2), middle(c.p2, c.p3));
        law_clear_curves_end_elsewhere(b, h.0, margin, (depth - 1) as nat);
        law_clear_curves_end_elsewhere(b, h.1, margin, (depth - 1) as nat);
    }
}

proof fn lemma_middle_is_moderate(p: [F32; 2], q: [F32; 2])
    requires
        p[0].unsigned() < 0x7f00_0000 && p[1].unsigned() < 0x7f00_0000,
        q[0].unsigned() < 0x7f00_0000 && q[1].unsigned() < 0x7f00_0000,
    ensures
        middle(p, q)[0].unsigned() < 0x7f00_0000,
        middle(p, q)[1].unsigned() < 0x7f00_0000,
{
    reveal(middle);
    lemma_mean_is_moderate(p[0], q[0]);
    lemma_mean_is_moderate(p[1], q[1]);
}

proof fn lemma_mean_is_moderate(x: F32, y: F32)
    requires
        x.unsigned() < 0x7f00_0000,
        y.unsigned() < 0x7f00_0000,
    ensures
        f_mul(f_add(x, y), F32 { bits: HALF_BITS }).unsigned() < 0x7f00_0000,
{
    law_sums_commute(x, y);
    if f_le(x, y) {
        law_means_stay_between(x, y);
    } else {
        law_means_stay_between(y, x);
    }
}

/// Parameters between the ends of a range.
pub open spec fn spans(piece: BoundaryPiece, from: F32, to: F32) -> bool {
    f_le(from, piece.t0) && f_le(piece.t0, piece.t1) && f_le(piece.t1, to)
}

/// The pieces of a part of a curve lie in it, in order and without overlap.
pub proof fn law_pieces_follow_one_another(
    all: Seq<QuadCurve>,
    c: QuadCurve,
    source: u32,
    t0: F32,
    t1: F32,
    tol: F32,
    rest: nat,
    excluded: Seq<usize>,
    out: Seq<BoundaryPiece>,
)
    requires
        t0.unsigned() < 0x7f00_0000 && t1.unsigned() < 0x7f00_0000,
        f_le(t0, t1),
        out.len() <= MAX_BOUNDARY_PIECES,
    ensures
        certified(all, c, source, t0, t1, tol, rest, excluded, out) matches Some(pieces) ==> {
            &&& out.len() <= pieces.len()
            &&& forall|i: int| out.len() <= i < pieces.len() ==> spans(#[trigger] pieces[i], t0, t1)
            &&& forall|i: int, j: int|
                out.len() <= i < j < pieces.len() ==> f_le((#[trigger] pieces[i]).t1, (#[trigger] pieces[j]).t0)
        },
    decreases rest,
{
    law_certification_only_appends(all, c, source, t0, t1, tol, rest, excluded, out);
    if verdict(all, c, source, tol, excluded) is Halve && rest > 0 {
        let h = halves(c);
        let tm = mid_param(t0, t1);
        let less = (rest - 1) as nat;
        law_means_stay_between(t0, t1);
        law_certification_only_appends(all, h.0, source, t0, tm, tol, less, excluded, out);
        law_pieces_follow_one_another(all, h.0, source, t0, tm, tol, less, excluded, out);
        if let Some(first) = certified(all, h.0, source, t0, tm, tol, less, excluded, out) {
            law_certification_only_appends(all, h.1, source, tm, t1, tol, less, excluded, first);
            law_pieces_follow_one_another(all, h.1, source, tm, t1, tol, less, excluded, first);
            if let Some(pieces) = certified(all, h.1, source, tm, t1, tol, less, excluded, first) {
                let k = first.len() as int;
                assert forall|i: int| out.len() <= i < k implies #[trigger] pieces[i] == first[i] by {
                    assert(pieces.take(k)[i] == pieces[i]);
                }
                assert forall|i: int| out.len() <= i < pieces.len() implies spans(#[trigger] pieces[i], t0, t1) by {
                    if i < k {
                        assert(spans(first[i], t0, tm));
                    } else {
                        assert(spans(pieces[i], tm, t1));
                    }
                }
                assert forall|i: int, j: int| out.len() <= i < j < pieces.len() implies f_le(
                    (#[trigger] pieces[i]).t1,
                    (#[trigger] pieces[j]).t0,
                ) by {
                    if j < k {
                        assert(f_le(first[i].t1, first[j].t0));
                    } else if i < k {
                        assert(spans(first[i], t0, tm));
                        assert(spans(pieces[j], tm, t1));
                    }
                }
            }
        }
    }
}

}
