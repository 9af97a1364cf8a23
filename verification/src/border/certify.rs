//! Deciding which parts of a glyph's curves bound its filled set.
use vstd::prelude::*;
use crate::border::curve::{
    as_segment, eval, eval_at, halves, is_segment, lit, split, winding, winding_at,
};
use crate::float32::{F32, HALF_BITS, ONE_BITS, f_add, f_div, f_hypot, f_le, f_mul, f_neg, f_sqrt, f_sub};
use crate::outline::QuadCurve;
use crate::types::PrepareError;

verus! {

/// How often a piece is halved before it is given up.
pub const MAX_SUBDIVISION_DEPTH: u32 = 18;

/// How often the other curve is halved in a clearance test.
pub const CLEARANCE_DEPTH: u32 = 6;

/// Hard budget on boundary pieces per glyph. Certification fails conservatively
/// past this, instead of building an atlas-busting blob.
pub const MAX_BOUNDARY_PIECES: usize = 65536;

/// 2^-23, the distance from 1.0 to the next single.
pub const EPSILON_BITS: u32 = 0x3400_0000;

/// 0.0625
pub const SIXTEENTH_BITS: u32 = 0x3d80_0000;

/// A part of a curve that bounds the filled set.
#[derive(Clone, Copy, Debug)]
pub struct BoundaryPiece {
    pub curve: QuadCurve,
    pub source_curve: u32,
    pub t0: F32,
    pub t1: F32,
}

/// The bounding box of a curve's control points.
pub open spec fn hull_bounds(c: QuadCurve) -> [F32; 4] {
    [c.low(0), c.low(1), c.high(0), c.high(1)]
}

/// Two boxes come within a margin of each other.
#[verifier::opaque]
pub open spec fn boxes_overlap(a: [F32; 4], b: [F32; 4], margin: F32) -> bool {
    &&& f_le(b[0], f_add(a[2], margin))
    &&& f_le(f_sub(a[0], margin), b[2])
    &&& f_le(b[1], f_add(a[3], margin))
    &&& f_le(f_sub(a[1], margin), b[3])
}

/// No part of `other`, halved `depth` times where needed, comes within a margin
/// of a box.
pub open spec fn clear_of(bounds: [F32; 4], other: QuadCurve, margin: F32, depth: nat) -> bool
    decreases depth,
{
    if !boxes_overlap(bounds, hull_bounds(other), margin) {
        true
    } else if depth == 0 {
        false
    } else {
        let h = halves(other);
        clear_of(bounds, h.0, margin, (depth - 1) as nat) && clear_of(bounds, h.1, margin, (depth - 1) as nat)
    }
}

pub fn curve_bounds(c: &QuadCurve) -> (r: [F32; 4])
    ensures
        r == hull_bounds(*c),
{
    [c.axis_min(0), c.axis_min(1), c.axis_max(0), c.axis_max(1)]
}

fn bounds_overlap(a: &[F32; 4], b: &[F32; 4], margin: F32) -> (r: bool)
    ensures
        r == boxes_overlap(*a, *b, margin),
{
    reveal(boxes_overlap);
    b[0].le(a[2].plus(margin)) && a[0].minus(margin).le(b[2]) && b[1].le(a[3].plus(margin)) && a[1].minus(margin).le(b[3])
}

/// Conservative clearance test between a piece's bounds and another curve's
/// trace. A whole-curve box is far too coarse, so on overlap the other curve is
/// halved and each half retested; only if some leaf box still overlaps at the
/// depth limit is the pair declared unseparated.
pub fn clear_of_curve(piece_bounds: &[F32; 4], other: &QuadCurve, margin: F32, depth: u32) -> (r: bool)
    ensures
        r == clear_of(*piece_bounds, *other, margin, depth as nat),
    decreases depth,
{
    let other_bounds: [F32; 4] = curve_bounds(other);
    if !bounds_overlap(piece_bounds, &other_bounds, margin) {
        return true;
    }
    if depth == 0 {
        return false;
    }
    let (a, b) = split(other);
    clear_of_curve(piece_bounds, &a, margin, depth - 1) && clear_of_curve(piece_bounds, &b, margin, depth - 1)
}

/// The chord of a piece.
pub open spec fn chord(c: QuadCurve) -> [F32; 2] {
    [f_sub(c.p3[0], c.p1[0]), f_sub(c.p3[1], c.p1[1])]
}

#[verifier::opaque]
pub open spec fn chord_length(c: QuadCurve) -> F32 {
    let t = chord(c);
    f_sqrt(f_add(f_mul(t[0], t[0]), f_mul(t[1], t[1])))
}

/// A step of length `probe` across the chord.
#[verifier::opaque]
pub open spec fn across(c: QuadCurve, probe: F32) -> [F32; 2] {
    let t = chord(c);
    let len = chord_length(c);
    [f_mul(f_div(f_neg(t[1]), len), probe), f_mul(f_div(t[0], len), probe)]
}

/// How far the control point is from the middle of the chord; a segment is flat
/// wherever its control point sits.
#[verifier::opaque]
pub open spec fn flatness(c: QuadCurve) -> F32 {
    if is_segment(c) {
        lit(0)
    } else {
        let dx = f_sub(c.p2[0], f_mul(f_add(c.p1[0], c.p3[0]), lit(HALF_BITS)));
        let dy = f_sub(c.p2[1], f_mul(f_add(c.p1[1], c.p3[1]), lit(HALF_BITS)));
        f_sqrt(f_add(f_mul(dx, dx), f_mul(dy, dy)))
    }
}

/// Diagonal of a box.
#[verifier::opaque]
pub open spec fn diagonal(b: [F32; 4]) -> F32 {
    f_hypot(f_sub(b[2], b[0]), f_sub(b[3], b[1]))
}

pub open spec fn point_plus(p: [F32; 2], v: [F32; 2]) -> [F32; 2] {
    [f_add(p[0], v[0]), f_add(p[1], v[1])]
}

pub open spec fn point_minus(p: [F32; 2], v: [F32; 2]) -> [F32; 2] {
    [f_sub(p[0], v[0]), f_sub(p[1], v[1])]
}

/// A point beside the middle of a piece, a part of the step across it away.
pub open spec fn beside(mid: [F32; 2], v: [F32; 2], scale: u32, side: u32) -> [F32; 2] {
    [
        f_add(mid[0], f_mul(f_mul(v[0], lit(scale)), lit(side))),
        f_add(mid[1], f_mul(f_mul(v[1], lit(scale)), lit(side))),
    ]
}

/// The point lies in the filled set.
pub open spec fn filled(curves: Seq<QuadCurve>, p: [F32; 2]) -> bool {
    winding(curves, p, curves.len()) != 0
}

/// Some point close beside the middle of a piece lies in the filled set.
pub open spec fn witnessed(all: Seq<QuadCurve>, mid: [F32; 2], v: [F32; 2]) -> bool {
    ||| filled(all, beside(mid, v, ONE_BITS, ONE_BITS))
    ||| filled(all, beside(mid, v, ONE_BITS, 0xbf80_0000))
    ||| filled(all, beside(mid, v, 0x3e80_0000, ONE_BITS))
    ||| filled(all, beside(mid, v, 0x3e80_0000, 0xbf80_0000))
    ||| filled(all, beside(mid, v, SIXTEENTH_BITS, ONE_BITS))
    ||| filled(all, beside(mid, v, SIXTEENTH_BITS, 0xbf80_0000))
}

/// Every other curve keeps clear of a piece's box; its own source and the curves
/// known to coincide with it do not count.
pub open spec fn separated(all: Seq<QuadCurve>, bounds: [F32; 4], source: u32, excluded: Seq<usize>, margin: F32) -> bool {
    forall|k: int|
        0 <= k < all.len() ==> k == source || excluded.contains(k as usize) || #[trigger] clear_of(
            bounds,
            all[k],
            margin,
            CLEARANCE_DEPTH as nat,
        )
}

/// A piece is appended as long as the budget lasts.
pub open spec fn pushed(out: Seq<BoundaryPiece>, c: QuadCurve, source: u32, t0: F32, t1: F32) -> Option<
    Seq<BoundaryPiece>,
> {
    if out.len() >= MAX_BOUNDARY_PIECES {
        None
    } else {
        Some(out.push(BoundaryPiece { curve: c, source_curve: source, t0, t1 }))
    }
}

/// What is decided of one piece without halving it.
pub enum Verdict {
    /// It bounds the filled set.
    Keep,
    /// It does not, or it is a point.
    Drop,
    /// It is too small to tell, and nothing filled is near.
    Fail,
    /// It has to be halved.
    Halve,
}

/// The decision on one piece.
///
/// The filled set is probed on both sides of the middle. A flat piece that
/// keeps clear of all other curves is kept when the probes differ and dropped
/// when they agree. One below the tolerance is kept when anything filled is
/// near, since it then lies within the tolerance of the filled set.
pub open spec fn verdict(all: Seq<QuadCurve>, c: QuadCurve, source: u32, tol: F32, excluded: Seq<usize>) -> Verdict {
    let mid = eval_at(c, lit(HALF_BITS));
    let probe = f_mul(tol, lit(HALF_BITS));
    let normal = across(c, probe);
    let bounds = hull_bounds(c);
    if f_le(chord_length(c), lit(EPSILON_BITS)) {
        Verdict::Drop
    } else if f_le(flatness(c), tol) && separated(all, bounds, source, excluded, probe) {
        if filled(all, point_plus(mid, normal)) != filled(all, point_minus(mid, normal)) {
            Verdict::Keep
        } else {
            Verdict::Drop
        }
    } else if f_le(diagonal(bounds), f_mul(tol, lit(HALF_BITS))) {
        if witnessed(all, mid, normal) {
            Verdict::Keep
        } else {
            Verdict::Fail
        }
    } else {
        Verdict::Halve
    }
}

/// The middle of a parameter range.
pub open spec fn mid_param(t0: F32, t1: F32) -> F32 {
    f_mul(f_add(t0, t1), lit(HALF_BITS))
}

/// The boundary pieces of a curve's part, appended to `out`; nothing when
/// certification fails.
pub open spec fn certified(
    all: Seq<QuadCurve>,
    c: QuadCurve,
    source: u32,
    t0: F32,
    t1: F32,
    tol: F32,
    rest: nat,
    excluded: Seq<usize>,
    out: Seq<BoundaryPiece>,
) -> Option<Seq<BoundaryPiece>>
    decreases rest,
{
    match verdict(all, c, source, tol, excluded) {
        Verdict::Keep => pushed(out, c, source, t0, t1),
        Verdict::Drop => Some(out),
        Verdict::Fail => None,
        Verdict::Halve => if rest == 0 {
            None
        } else {
            let h = halves(c);
            let tm = mid_param(t0, t1);
            match certified(all, h.0, source, t0, tm, tol, (rest - 1) as nat, excluded, out) {
                None => None,
                Some(first) => certified(all, h.1, source, tm, t1, tol, (rest - 1) as nat, excluded, first),
            }
        },
    }
}

fn is_excluded(excluded: &Vec<usize>, index: usize) -> (r: bool)
    ensures
        r == excluded@.contains(index),
{
    let mut i: usize = 0;
    while i < excluded.len()
        invariant
            i <= excluded.len(),
            forall|j: int| 0 <= j < i ==> excluded@[j] != index,
        decreases excluded.len() - i,
    {
        if excluded[i] == index {
            assert(excluded@[i as int] == index);
            return true;
        }
        i = i + 1;
    }
    false
}

fn is_separated(all: &Vec<QuadCurve>, bounds: &[F32; 4], source: u32, excluded: &Vec<usize>, margin: F32) -> (r: bool)
    ensures
        r == separated(all@, *bounds, source, excluded@, margin),
{
    let mut k: usize = 0;
    while k < all.len()
        invariant
            k <= all.len(),
            forall|j: int|
                0 <= j < k ==> j == source || excluded@.contains(j as usize) || #[trigger] clear_of(
                    *bounds,
                    all@[j],
                    margin,
                    CLEARANCE_DEPTH as nat,
                ),
        decreases all.len() - k,
    {
        if k != source as usize && !is_excluded(excluded, k) && !clear_of_curve(bounds, &all[k], margin, CLEARANCE_DEPTH) {
            assert(!clear_of(*bounds, all@[k as int], margin, CLEARANCE_DEPTH as nat));
            return false;
        }
        k = k + 1;
    }
    true
}

fn is_filled(all: &Vec<QuadCurve>, p: [F32; 2]) -> (r: bool)
    requires
        all.len() <= 0x3fff_ffff,
    ensures
        r == filled(all@, p),
{
    winding_at(all.as_slice(), p) != 0
}

fn point_beside(mid: &[F32; 2], v: &[F32; 2], scale: u32, side: u32) -> (r: [F32; 2])
    ensures
        r == beside(*mid, *v, scale, side),
{
    let scale = F32 { bits: scale };
    let side = F32 { bits: side };
    [mid[0].plus(v[0].times(scale).times(side)), mid[1].plus(v[1].times(scale).times(side))]
}

fn is_witnessed(all: &Vec<QuadCurve>, mid: &[F32; 2], v: &[F32; 2]) -> (r: bool)
    requires
        all.len() <= 0x3fff_ffff,
    ensures
        r == witnessed(all@, *mid, *v),
{
    is_filled(all, point_beside(mid, v, ONE_BITS, ONE_BITS)) || is_filled(all, point_beside(mid, v, ONE_BITS, 0xbf80_0000))
        || is_filled(all, point_beside(mid, v, 0x3e80_0000, ONE_BITS)) || is_filled(
        all,
        point_beside(mid, v, 0x3e80_0000, 0xbf80_0000),
    ) || is_filled(all, point_beside(mid, v, SIXTEENTH_BITS, ONE_BITS)) || is_filled(
        all,
        point_beside(mid, v, SIXTEENTH_BITS, 0xbf80_0000),
    )
}

fn chord_len(c: &QuadCurve) -> (r: F32)
    ensures
        r == chord_length(*c),
{
    reveal(chord_length);
    let x: F32 = c.p3[0].minus(c.p1[0]);
    let y: F32 = c.p3[1].minus(c.p1[1]);
    x.times(x).plus(y.times(y)).sqrt()
}

fn step_across(c: &QuadCurve, len: F32, probe: F32) -> (r: [F32; 2])
    requires
        len == chord_length(*c),
    ensures
        r == across(*c, probe),
{
    reveal(across);
    let x: F32 = c.p3[0].minus(c.p1[0]);
    let y: F32 = c.p3[1].minus(c.p1[1]);
    [y.negate().over(len).times(probe), x.over(len).times(probe)]
}

fn flat_distance(c: &QuadCurve) -> (r: F32)
    ensures
        r == flatness(*c),
{
    reveal(flatness);
    if as_segment(c).is_some() {
        return F32 { bits: 0 };
    }
    let half = F32 { bits: HALF_BITS };
    let dx: F32 = c.p2[0].minus(c.p1[0].plus(c.p3[0]).times(half));
    let dy: F32 = c.p2[1].minus(c.p1[1].plus(c.p3[1]).times(half));
    dx.times(dx).plus(dy.times(dy)).sqrt()
}

fn box_diagonal(b: &[F32; 4]) -> (r: F32)
    ensures
        r == diagonal(*b),
{
    reveal(diagonal);
    b[2].minus(b[0]).hypot(b[3].minus(b[1]))
}

fn judge(all: &Vec<QuadCurve>, c: &QuadCurve, source: u32, tol: F32, excluded: &Vec<usize>) -> (r: Verdict)
    requires
        all.len() <= 0x3fff_ffff,
    ensures
        r == verdict(all@, *c, source, tol, excluded@),
{
    let half = F32 { bits: HALF_BITS };
    let mid: [F32; 2] = eval(c, half);
    let len: F32 = chord_len(c);
    if len.le(F32 { bits: EPSILON_BITS }) {
        return Verdict::Drop;
    }
    let probe: F32 = tol.times(half);
    let normal: [F32; 2] = step_across(c, len, probe);
    let bounds: [F32; 4] = curve_bounds(c);
    if flat_distance(c).le(tol) && is_separated(all, &bounds, source, excluded, probe) {
        let inside_pos: bool = is_filled(all, [mid[0].plus(normal[0]), mid[1].plus(normal[1])]);
        let inside_neg: bool = is_filled(all, [mid[0].minus(normal[0]), mid[1].minus(normal[1])]);
        if inside_pos != inside_neg {
            Verdict::Keep
        } else {
            Verdict::Drop
        }
    } else if box_diagonal(&bounds).le(tol.times(half)) {
        if is_witnessed(all, &mid, &normal) {
            Verdict::Keep
        } else {
            Verdict::Fail
        }
    } else {
        Verdict::Halve
    }
}

/// Appends a piece, within the budget.
pub fn push_piece(c: QuadCurve, source: u32, t0: F32, t1: F32, out: &mut Vec<BoundaryPiece>) -> (r: Result<(), PrepareError>)
    ensures
        r is Ok <==> pushed(old(out)@, c, source, t0, t1) is Some,
        r is Ok ==> Some(final(out)@) == pushed(old(out)@, c, source, t0, t1),
        r is Err ==> r == Err::<(), PrepareError>(PrepareError::AtlasFull) && final(out)@ == old(out)@,
{
    if out.len() >= MAX_BOUNDARY_PIECES {
        return Err(PrepareError::AtlasFull);
    }
    out.push(BoundaryPiece { curve: c, source_curve: source, t0, t1 });
    Ok(())
}

/// Appends the parts of a curve's part that bound the filled set, halving it
/// until every part is decided. Fails when a part stays undecided, since
/// neither keeping nor dropping it would be sound.
pub fn certify_piece(
    all: &Vec<QuadCurve>,
    c: QuadCurve,
    source: u32,
    t0: F32,
    t1: F32,
    tol: F32,
    depth: u32,
    excluded: &Vec<usize>,
    out: &mut Vec<BoundaryPiece>,
) -> (r: Result<(), PrepareError>)
    requires
        all.len() <= 0x3fff_ffff,
        depth <= MAX_SUBDIVISION_DEPTH,
    ensures
        ({
            let want = certified(
                all@,
                c,
                source,
                t0,
                t1,
                tol,
                (MAX_SUBDIVISION_DEPTH - depth) as nat,
                excluded@,
                old(out)@,
            );
            &&& r is Ok <==> want is Some
            &&& r is Ok ==> Some(final(out)@) == want
            &&& r is Err ==> r == Err::<(), PrepareError>(PrepareError::AtlasFull)
        }),
    decreases MAX_SUBDIVISION_DEPTH - depth,
{
    match judge(all, &c, source, tol, excluded) {
        Verdict::Keep => push_piece(c, source, t0, t1, out),
        Verdict::Drop => Ok(()),
        Verdict::Fail => Err(PrepareError::AtlasFull),
        Verdict::Halve => {
            if depth >= MAX_SUBDIVISION_DEPTH {
                return Err(PrepareError::AtlasFull);
            }
            let (a, b) = split(&c);
            let tm: F32 = t0.plus(t1).times(F32 { bits: HALF_BITS });
            match certify_piece(all, a, source, t0, tm, tol, depth + 1, excluded, out) {
                Err(_) => Err(PrepareError::AtlasFull),
                Ok(_) => certify_piece(all, b, source, tm, t1, tol, depth + 1, excluded, out),
            }
        },
    }
}

/// Certification only appends: earlier pieces are kept as they are, every new
/// piece names its source, and the budget is never exceeded.
pub proof fn law_certification_only_appends(
    all: Seq<QuadCurve>,
    c: QuadCurve,
    source: u32,
    t0: F32,
    t1: F32,
    tol: F32,
    rest: nat,
    excluded: Seq<usize>,
    out: Seq<BoundaryPiece>,
)
    requires
        out.len() <= MAX_BOUNDARY_PIECES,
    ensures
        certified(all, c, source, t0, t1, tol, rest, excluded, out) matches Some(all_pieces) ==> {
            &&& all_pieces.len() >= out.len()
            &&& all_pieces.len() <= MAX_BOUNDARY_PIECES
            &&& all_pieces.take(out.len() as int) == out
            &&& forall|i: int| out.len() <= i < all_pieces.len() ==> (#[trigger] all_pieces[i]).source_curve == source
        },
    decreases rest,
{
    let got = certified(all, c, source, t0, t1, tol, rest, excluded, out);
    match verdict(all, c, source, tol, excluded) {
        Verdict::Keep => {
            if got is Some {
                assert(got->0.take(out.len() as int) =~= out);
            }
        },
        Verdict::Drop => {
            assert(out.take(out.len() as int) =~= out);
        },
        Verdict::Fail => {},
        Verdict::Halve => if rest > 0 {
            let h = halves(c);
            let tm = mid_param(t0, t1);
            law_certification_only_appends(all, h.0, source, t0, tm, tol, (rest - 1) as nat, excluded, out);
            let first = certified(all, h.0, source, t0, tm, tol, (rest - 1) as nat, excluded, out);
            if first is Some {
                law_certification_only_appends(all, h.1, source, tm, t1, tol, (rest - 1) as nat, excluded, first->0);
                if got is Some {
                    let a = got->0;
                    assert(a.take(out.len() as int) =~= a.take(first->0.len() as int).take(out.len() as int));
                    assert forall|i: int| out.len() <= i < a.len() implies (#[trigger] a[i]).source_curve == source by {
                        if i < first->0.len() {
                            assert(a[i] == a.take(first->0.len() as int)[i]);
                        }
                    }
                }
            }
        },
    }
}

}
