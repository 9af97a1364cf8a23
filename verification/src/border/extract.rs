//! Netting coincident traces, and extracting what is left of the boundary.
use vstd::prelude::*;
use crate::border::boundary::{
    BOUNDARY_ERROR_PX_BITS, MIN_POSITIVE_BITS, coincident, coincident_params, curve_on_grid, curves_in_range,
    curves_on_grid, grid_point, int_point, lemma_distinct_params, lemma_quantized_on_grid, quantized_curves,
    quantized_outline,
};
use crate::border::certify::{
    BoundaryPiece, MAX_BOUNDARY_PIECES, MAX_SUBDIVISION_DEPTH, certified, certify_piece,
    law_certification_only_appends,
};
use crate::border::curve::{as_segment, is_segment, line, line_curve, lit, sub_span, subcurve};
use crate::border::rational::{GRID_LIMIT, Rat, clamp_span, clamped, invert_params, rat_single, reduced, lemma_small_are_comparable};
use crate::float32::{F32, f_add, f_div, f_from_int, f_max, f_mul, f_sub};
use crate::outline::{GlyphOutline, QuadCurve};
use crate::types::PrepareError;

verus! {

/// The part of a curve's arc that another curve covers.
#[derive(Clone, Copy, Debug)]
pub struct ArcSpan {
    pub lo: Rat,
    pub hi: Rat,
    /// 1 when the other curve runs the same way, -1 when it runs against it.
    pub orientation: i32,
    pub other: usize,
}

/// The part of a segment's line that another segment covers, in units in which
/// the segment itself reaches from 0 to the square of its length.
#[derive(Clone, Copy, Debug)]
pub struct Cover {
    pub lo: i64,
    pub hi: i64,
    pub orientation: i32,
    pub other: usize,
}

pub open spec fn rat_of(n: int, d: int) -> Rat {
    Rat { n: reduced(n, d).0 as i128, d: reduced(n, d).1 as i128 }
}

/// The ends of each of two curves in the parameter of the other, where they
/// coincide: the second curve's ends on the first, and the first's on the second.
pub open spec fn pair_spans(a: QuadCurve, b: QuadCurve) -> Option<((Rat, Rat), (Rat, Rat))> {
    if is_segment(a) || is_segment(b) {
        None
    } else {
        match coincident(a, b) {
            Some(f) => Some(
                (
                    (rat_of(f.0, f.2), rat_of(f.1, f.2)),
                    (rat_of(-f.0, f.1 - f.0), rat_of(f.2 - f.0, f.1 - f.0)),
                ),
            ),
            None => match coincident(b, a) {
                Some(r) => Some(
                    (
                        (rat_of(-r.0, r.1 - r.0), rat_of(r.2 - r.0, r.1 - r.0)),
                        (rat_of(r.0, r.2), rat_of(r.1, r.2)),
                    ),
                ),
                None => None,
            },
        }
    }
}

/// The span between two parameters, clipped to the arc.
pub open spec fn clipped(s: (Rat, Rat), other: int) -> Option<ArcSpan> {
    let c = clamped(s.0, s.1);
    if c.0.below(c.1) {
        Some(
            ArcSpan {
                lo: c.0,
                hi: c.1,
                orientation: (if s.0.below(s.1) { 1int } else { -1 }) as i32,
                other: other as usize,
            },
        )
    } else {
        None
    }
}

/// What curve `m` covers of curve `k`. A pair is looked at once, the curve with
/// the smaller index first, so that both sides see the same match.
pub open spec fn arc_span(curves: Seq<QuadCurve>, k: int, m: int) -> Option<ArcSpan> {
    if k == m {
        None
    } else if k < m {
        match pair_spans(curves[k], curves[m]) {
            Some(s) => clipped(s.0, m),
            None => None,
        }
    } else {
        match pair_spans(curves[m], curves[k]) {
            Some(s) => clipped(s.1, m),
            None => None,
        }
    }
}

/// What the first `n` curves cover of curve `k`.
pub open spec fn arc_spans(curves: Seq<QuadCurve>, k: int, n: nat) -> Seq<ArcSpan>
    decreases n,
{
    if n == 0 {
        Seq::empty()
    } else {
        let before = arc_spans(curves, k, (n - 1) as nat);
        match arc_span(curves, k, n - 1) {
            Some(s) => before.push(s),
            None => before,
        }
    }
}

pub open spec fn spans_wf(spans: Seq<ArcSpan>, n: int) -> bool {
    &&& spans.len() <= n
    &&& forall|i: int|
        0 <= i < spans.len() ==> (#[trigger] spans[i]).lo.wf() && spans[i].hi.wf() && -1 <= spans[i].orientation <= 1
}

fn rat(n: i64, d: i64) -> (r: Rat)
    requires
        -0x4000_0000_0000 <= n <= 0x4000_0000_0000,
        0 < d <= 0x4000_0000_0000,
    ensures
        r == rat_of(n as int, d as int),
        r.wf(),
{
    Rat::new(n as i128, d as i128)
}

/// The spans of a pair of curves on each other.
fn match_pair(a: &QuadCurve, b: &QuadCurve) -> (r: Option<((Rat, Rat), (Rat, Rat))>)
    requires
        curve_on_grid(*a),
        curve_on_grid(*b),
    ensures
        r == pair_spans(*a, *b),
        r matches Some(s) ==> s.0.0.wf() && s.0.1.wf() && s.1.0.wf() && s.1.1.wf(),
{
    if as_segment(a).is_some() || as_segment(b).is_some() {
        return None;
    }
    if let Some(f) = coincident_params(a, b) {
        proof {
            lemma_distinct_params(*a, *b);
        }
        let forward: (Rat, Rat) = (rat(f.0, f.2), rat(f.1, f.2));
        let back: (Rat, Rat) = invert_params(f);
        return Some((forward, back));
    }
    if let Some(f) = coincident_params(b, a) {
        proof {
            lemma_distinct_params(*b, *a);
        }
        let forward: (Rat, Rat) = (rat(f.0, f.2), rat(f.1, f.2));
        let back: (Rat, Rat) = invert_params(f);
        return Some((back, forward));
    }
    None
}

fn clip(s: (Rat, Rat), other: usize) -> (r: Option<ArcSpan>)
    requires
        s.0.wf(),
        s.1.wf(),
    ensures
        r == clipped(s, other as int),
        r matches Some(span) ==> span.lo.wf() && span.hi.wf() && -1 <= span.orientation <= 1,
{
    proof {
        lemma_small_are_comparable(s.0, s.1);
    }
    match clamp_span(s.0, s.1) {
        Some((lo, hi, orientation)) => Some(ArcSpan { lo, hi, orientation, other }),
        None => None,
    }
}

/// What every curve is covered by.
pub fn find_arcs(curves: &Vec<QuadCurve>) -> (r: Vec<Vec<ArcSpan>>)
    requires
        curves_on_grid(curves@),
    ensures
        r@.len() == curves@.len(),
        forall|k: int|
            0 <= k < curves@.len() ==> (#[trigger] r@[k])@ == arc_spans(curves@, k, curves@.len()) && spans_wf(
                r@[k]@,
                curves@.len() as int,
            ),
{
    let n: usize = curves.len();
    let mut arcs: Vec<Vec<ArcSpan>> = Vec::new();
    let mut i: usize = 0;
    while i < n
        invariant
            i <= n,
            arcs@.len() == i,
            forall|k: int| 0 <= k < i ==> (#[trigger] arcs@[k])@ == Seq::<ArcSpan>::empty(),
        decreases n - i,
    {
        arcs.push(Vec::new());
        i = i + 1;
    }
    let mut i: usize = 0;
    while i < n
        invariant
            i <= n,
            n == curves@.len(),
            curves_on_grid(curves@),
            arcs@.len() == n,
            forall|k: int|
                0 <= k < n ==> (#[trigger] arcs@[k])@ == arc_spans(curves@, k, if k < i { n as nat } else { i as nat })
                    && spans_wf(arcs@[k]@, if k < i { n as int } else { i as int }),
        decreases n - i,
    {
        let mut j: usize = i + 1;
        assert forall|k: int| 0 <= k < n implies (#[trigger] arcs@[k])@ == arc_spans(
            curves@,
            k,
            covered_upto(k, i as int, j as int, n as int),
        ) && spans_wf(arcs@[k]@, covered_upto(k, i as int, j as int, n as int) as int) by {
            if k == i {
                assert(arc_span(curves@, i as int, i as int) is None);
            }
        }
        while j < n
            invariant
                i < j <= n,
                n == curves@.len(),
                curves_on_grid(curves@),
                arcs@.len() == n,
                forall|k: int|
                    0 <= k < n ==> (#[trigger] arcs@[k])@ == arc_spans(
                        curves@,
                        k,
                        covered_upto(k, i as int, j as int, n as int),
                    ) && spans_wf(arcs@[k]@, covered_upto(k, i as int, j as int, n as int) as int),
            decreases n - j,
        {
            assert(curve_on_grid(curves@[i as int]) && curve_on_grid(curves@[j as int]));
            let ghost before = arcs@;
            let pair: Option<((Rat, Rat), (Rat, Rat))> = match_pair(&curves[i], &curves[j]);
            let mut first: Option<ArcSpan> = None;
            let mut second: Option<ArcSpan> = None;
            if let Some((on_i, on_j)) = pair {
                first = clip(on_i, j);
                second = clip(on_j, i);
            }
            assert(first == arc_span(curves@, i as int, j as int));
            assert(second == arc_span(curves@, j as int, i as int));
            if let Some(s) = first {
                push_span(&mut arcs, i, s);
            }
            if let Some(s) = second {
                push_span(&mut arcs, j, s);
            }
            proof {
                assert forall|k: int| 0 <= k < n implies (#[trigger] arcs@[k])@ == arc_spans(
                    curves@,
                    k,
                    covered_upto(k, i as int, j + 1, n as int),
                ) && spans_wf(arcs@[k]@, covered_upto(k, i as int, j + 1, n as int) as int) by {
                    assert(before[k]@ == arc_spans(curves@, k, covered_upto(k, i as int, j as int, n as int)));
                    if k == i {
                        assert(arcs@[k]@ =~= (match first {
                            Some(s) => before[k]@.push(s),
                            None => before[k]@,
                        }));
                    } else if k == j {
                        assert(arcs@[k]@ =~= (match second {
                            Some(s) => before[k]@.push(s),
                            None => before[k]@,
                        }));
                    } else {
                        assert(arcs@[k]@ == before[k]@);
                    }
                }
            }
            j = j + 1;
        }
        proof {
            assert forall|k: int| 0 <= k < n implies (#[trigger] arcs@[k])@ == arc_spans(
                curves@,
                k,
                if k < i + 1 { n as nat } else { (i + 1) as nat },
            ) && spans_wf(arcs@[k]@, if k < i + 1 { n as int } else { i + 1 }) by {
            }
        }
        i = i + 1;
    }
    arcs
}

/// How many curves a table row has been matched with when pair `(i, j)` is next.
spec fn covered_upto(k: int, i: int, j: int, n: int) -> nat {
    (if k < i {
        n
    } else if k == i {
        j
    } else if k < j {
        i + 1
    } else {
        i
    }) as nat
}

fn push_span(arcs: &mut Vec<Vec<ArcSpan>>, at: usize, s: ArcSpan)
    requires
        at < old(arcs)@.len(),
    ensures
        final(arcs)@.len() == old(arcs)@.len(),
        final(arcs)@[at as int]@ == old(arcs)@[at as int]@.push(s),
        forall|k: int|
            0 <= k < old(arcs)@.len() && k != at ==> (#[trigger] final(arcs)@[k])@ == old(arcs)@[k]@,
{
    let mut row: Vec<ArcSpan> = Vec::new();
    std::mem::swap(&mut row, &mut arcs[at]);
    row.push(s);
    std::mem::swap(&mut row, &mut arcs[at]);
}

/// Whether a pair of curves was matched is seen by both of them: spans come in
/// pairs, up to what lies outside an arc.
pub proof fn law_matching_is_symmetric(curves: Seq<QuadCurve>, i: int, j: int)
    requires
        0 <= i < j < curves.len(),
        curves.len() <= usize::MAX,
    ensures
        arc_span(curves, i, j) is Some ==> pair_spans(curves[i], curves[j]) is Some,
        arc_span(curves, j, i) is Some ==> pair_spans(curves[i], curves[j]) is Some,
        pair_spans(curves[i], curves[j]) matches Some(s) ==> arc_span(curves, i, j) == clipped(s.0, j) && arc_span(
            curves,
            j,
            i,
        ) == clipped(s.1, i),
{
}

/// A sorted list of cuts with one more cut; a cut that is there stays once.
pub open spec fn with_rat(cuts: Seq<Rat>, u: Rat) -> Seq<Rat>
    decreases cuts.len(),
{
    if cuts.len() == 0 {
        seq![u]
    } else if cuts.last().below(u) {
        cuts.push(u)
    } else if !u.below(cuts.last()) {
        cuts
    } else {
        with_rat(cuts.drop_last(), u).push(cuts.last())
    }
}

/// A sorted list of cuts with one more cut; a cut that is there stays once.
pub open spec fn with_cut(cuts: Seq<i64>, s: i64) -> Seq<i64>
    decreases cuts.len(),
{
    if cuts.len() == 0 {
        seq![s]
    } else if cuts.last() < s {
        cuts.push(s)
    } else if cuts.last() == s {
        cuts
    } else {
        with_cut(cuts.drop_last(), s).push(cuts.last())
    }
}

pub open spec fn rat_zero() -> Rat {
    Rat { n: 0, d: 1 }
}

pub open spec fn rat_one() -> Rat {
    Rat { n: 1, d: 1 }
}

pub open spec fn with_inner_rat(cuts: Seq<Rat>, u: Rat) -> Seq<Rat> {
    if rat_zero().below(u) && u.below(rat_one()) {
        with_rat(cuts, u)
    } else {
        cuts
    }
}

/// An arc's ends and the ends of its first `n` spans, in order.
pub open spec fn arc_cuts(spans: Seq<ArcSpan>, n: nat) -> Seq<Rat>
    decreases n,
{
    if n == 0 {
        seq![rat_zero(), rat_one()]
    } else {
        with_inner_rat(with_inner_rat(arc_cuts(spans, (n - 1) as nat), spans[n - 1].lo), spans[n - 1].hi)
    }
}

pub open spec fn with_inner_cut(cuts: Seq<i64>, s: i64, end: i64) -> Seq<i64> {
    if 0 < s < end {
        with_cut(cuts, s)
    } else {
        cuts
    }
}

/// A segment's ends and the ends of its first `n` covers, in order.
pub open spec fn segment_cuts(covers: Seq<Cover>, end: i64, n: nat) -> Seq<i64>
    decreases n,
{
    if n == 0 {
        seq![0i64, end]
    } else {
        with_inner_cut(
            with_inner_cut(segment_cuts(covers, end, (n - 1) as nat), covers[n - 1].lo, end),
            covers[n - 1].hi,
            end,
        )
    }
}

/// How the curves over one window add up.
pub ghost struct Tally {
    /// Traversals of the trace, with their orientation.
    pub net: int,
    /// The smallest index among the coincident curves.
    pub owner: int,
    pub others: Seq<usize>,
}

/// The curve over one of its windows, with what its first `n` spans add.
pub open spec fn arc_tally(spans: Seq<ArcSpan>, i: int, lo: Rat, hi: Rat, n: nat) -> Tally
    decreases n,
{
    if n == 0 {
        Tally { net: 1, owner: i, others: Seq::empty() }
    } else {
        let t = arc_tally(spans, i, lo, hi, (n - 1) as nat);
        let s = spans[n - 1];
        if !lo.below(s.lo) && !s.hi.below(hi) {
            Tally {
                net: t.net + s.orientation,
                owner: if s.other < t.owner { s.other as int } else { t.owner },
                others: t.others.push(s.other),
            }
        } else {
            t
        }
    }
}

/// The segment over one of its windows, with what its first `n` covers add.
pub open spec fn segment_tally(covers: Seq<Cover>, i: int, lo: i64, hi: i64, n: nat) -> Tally
    decreases n,
{
    if n == 0 {
        Tally { net: 1, owner: i, others: Seq::empty() }
    } else {
        let t = segment_tally(covers, i, lo, hi, (n - 1) as nat);
        let s = covers[n - 1];
        if 2 * s.lo <= lo + hi && lo + hi <= 2 * s.hi {
            Tally {
                net: t.net + s.orientation,
                owner: if s.other < t.owner { s.other as int } else { t.owner },
                others: t.others.push(s.other),
            }
        } else {
            t
        }
    }
}

/// What a window of an arc leaves: nothing when its traversals cancel or when a
/// curve with a smaller index owns it, else its certified pieces.
pub open spec fn arc_window(
    all: Seq<QuadCurve>,
    i: int,
    spans: Seq<ArcSpan>,
    lo: Rat,
    hi: Rat,
    tol: F32,
    out: Seq<BoundaryPiece>,
) -> Option<Seq<BoundaryPiece>> {
    let t = arc_tally(spans, i, lo, hi, spans.len());
    if t.owner == i && t.net != 0 {
        let from = rat_single(lo);
        let to = rat_single(hi);
        certified(
            all,
            sub_span(all[i], from, to),
            i as u32,
            from,
            to,
            tol,
            MAX_SUBDIVISION_DEPTH as nat,
            t.others,
            out,
        )
    } else {
        Some(out)
    }
}

/// The first `k` windows of an arc.
pub open spec fn arc_windows(
    all: Seq<QuadCurve>,
    i: int,
    spans: Seq<ArcSpan>,
    cuts: Seq<Rat>,
    tol: F32,
    k: nat,
    out: Seq<BoundaryPiece>,
) -> Option<Seq<BoundaryPiece>>
    decreases k,
{
    if k == 0 {
        Some(out)
    } else {
        match arc_windows(all, i, spans, cuts, tol, (k - 1) as nat, out) {
            None => None,
            Some(o) => arc_window(all, i, spans, cuts[k - 1], cuts[k as int], tol, o),
        }
    }
}

/// A point of a segment, by its fraction.
pub open spec fn lerp(a: [F32; 2], b: [F32; 2], f: F32) -> [F32; 2] {
    [f_add(a[0], f_mul(f_sub(b[0], a[0]), f)), f_add(a[1], f_mul(f_sub(b[1], a[1]), f))]
}

/// A position on a segment as a fraction.
pub open spec fn fraction(s: i64, end: i64) -> F32 {
    f_div(f_from_int(s as int), f_from_int(end as int))
}

/// What a window of a segment leaves.
pub open spec fn segment_window(
    all: Seq<QuadCurve>,
    i: int,
    covers: Seq<Cover>,
    end: i64,
    lo: i64,
    hi: i64,
    tol: F32,
    out: Seq<BoundaryPiece>,
) -> Option<Seq<BoundaryPiece>> {
    let t = segment_tally(covers, i, lo, hi, covers.len());
    if t.owner == i && t.net != 0 {
        let a = all[i].p1;
        let b = all[i].p3;
        let from = fraction(lo, end);
        let to = fraction(hi, end);
        certified(
            all,
            line(lerp(a, b, from), lerp(a, b, to)),
            i as u32,
            from,
            to,
            tol,
            MAX_SUBDIVISION_DEPTH as nat,
            t.others,
            out,
        )
    } else {
        Some(out)
    }
}

/// The first `k` windows of a segment.
pub open spec fn segment_windows(
    all: Seq<QuadCurve>,
    i: int,
    covers: Seq<Cover>,
    end: i64,
    cuts: Seq<i64>,
    tol: F32,
    k: nat,
    out: Seq<BoundaryPiece>,
) -> Option<Seq<BoundaryPiece>>
    decreases k,
{
    if k == 0 {
        Some(out)
    } else {
        match segment_windows(all, i, covers, end, cuts, tol, (k - 1) as nat, out) {
            None => None,
            Some(o) => segment_window(all, i, covers, end, cuts[k - 1], cuts[k as int], tol, o),
        }
    }
}

/// The square of a segment's length on the grid.
pub open spec fn length_squared(a: [i64; 2], b: [i64; 2]) -> int {
    (b[0] - a[0]) * (b[0] - a[0]) + (b[1] - a[1]) * (b[1] - a[1])
}

/// How far off the line from `a` to `b` a point is.
pub open spec fn off_line(a: [i64; 2], b: [i64; 2], p: [i64; 2]) -> int {
    (b[0] - a[0]) * (p[1] - a[1]) - (b[1] - a[1]) * (p[0] - a[0])
}

/// How far along the line from `a` to `b` a point is.
pub open spec fn along(a: [i64; 2], b: [i64; 2], p: [i64; 2]) -> int {
    (p[0] - a[0]) * (b[0] - a[0]) + (p[1] - a[1]) * (b[1] - a[1])
}

/// What segment `j` covers of segment `i`: nothing unless it lies on the same
/// line exactly.
pub open spec fn cover_of(all: Seq<QuadCurve>, i: int, j: int) -> Option<Cover> {
    let a = grid_point(all[i].p1);
    let b = grid_point(all[i].p3);
    let p = grid_point(all[j].p1);
    let q = grid_point(all[j].p3);
    if i == j || !is_segment(all[j]) || off_line(a, b, p) != 0 || off_line(a, b, q) != 0 || along(a, b, p) == along(
        a,
        b,
        q,
    ) {
        None
    } else {
        let s0 = along(a, b, p) as i64;
        let s1 = along(a, b, q) as i64;
        Some(
            Cover {
                lo: if s0 < s1 { s0 } else { s1 },
                hi: if s0 < s1 { s1 } else { s0 },
                orientation: (if s0 < s1 { 1int } else { -1 }) as i32,
                other: j as usize,
            },
        )
    }
}

/// What the first `n` curves cover of segment `i`.
pub open spec fn covers_of(all: Seq<QuadCurve>, i: int, n: nat) -> Seq<Cover>
    decreases n,
{
    if n == 0 {
        Seq::empty()
    } else {
        let before = covers_of(all, i, (n - 1) as nat);
        match cover_of(all, i, n - 1) {
            Some(c) => before.push(c),
            None => before,
        }
    }
}

/// What one curve leaves of the boundary.
pub open spec fn curve_boundary(all: Seq<QuadCurve>, i: int, tol: F32, out: Seq<BoundaryPiece>) -> Option<
    Seq<BoundaryPiece>,
> {
    if is_segment(all[i]) {
        let end = length_squared(grid_point(all[i].p1), grid_point(all[i].p3)) as i64;
        if end == 0 {
            Some(out)
        } else {
            let covers = covers_of(all, i, all.len());
            let cuts = segment_cuts(covers, end, covers.len());
            segment_windows(all, i, covers, end, cuts, tol, (cuts.len() - 1) as nat, out)
        }
    } else {
        let spans = arc_spans(all, i, all.len());
        let cuts = arc_cuts(spans, spans.len());
        arc_windows(all, i, spans, cuts, tol, (cuts.len() - 1) as nat, out)
    }
}

/// What the first `n` curves leave of the boundary.
pub open spec fn boundary_of(all: Seq<QuadCurve>, tol: F32, n: nat) -> Option<Seq<BoundaryPiece>>
    decreases n,
{
    if n == 0 {
        Some(Seq::empty())
    } else {
        match boundary_of(all, tol, (n - 1) as nat) {
            None => None,
            Some(out) => curve_boundary(all, n - 1, tol, out),
        }
    }
}

/// The tolerance in font units for a size in pixels.
pub open spec fn tolerance(max_ppem: F32, units_per_em: F32) -> F32 {
    f_div(f_mul(lit(BOUNDARY_ERROR_PX_BITS), units_per_em), f_max(max_ppem, lit(MIN_POSITIVE_BITS)))
}

/// The boundary of an outline's filled set.
pub open spec fn extracted(curves: Seq<QuadCurve>, max_ppem: F32, units_per_em: F32) -> Option<Seq<BoundaryPiece>> {
    boundary_of(quantized_curves(curves), tolerance(max_ppem, units_per_em), curves.len())
}

/// Whether one small parameter is below another.
fn earlier(a: Rat, b: Rat) -> (r: bool)
    requires
        a.wf(),
        b.wf(),
    ensures
        r == a.below(b),
{
    proof {
        lemma_small_are_comparable(a, b);
    }
    a.lt(b)
}

/// Inserts a cut into a sorted list.
fn insert_rat(cuts: &mut Vec<Rat>, u: Rat)
    requires
        u.wf(),
        forall|i: int| 0 <= i < old(cuts)@.len() ==> (#[trigger] old(cuts)@[i]).wf(),
    ensures
        final(cuts)@ == with_rat(old(cuts)@, u),
        forall|i: int| 0 <= i < final(cuts)@.len() ==> (#[trigger] final(cuts)@[i]).wf(),
        final(cuts)@.len() >= old(cuts)@.len(),
{
    let ghost all = cuts@;
    let mut at: usize = cuts.len();
    assert(all.take(all.len() as int) =~= all);
    assert(all.skip(all.len() as int) =~= Seq::<Rat>::empty());
    assert(with_rat(all, u) + Seq::<Rat>::empty() =~= with_rat(all, u));
    while at > 0 && earlier(u, cuts[at - 1])
        invariant
            at <= cuts.len(),
            cuts@ == all,
            u.wf(),
            forall|i: int| 0 <= i < all.len() ==> (#[trigger] all[i]).wf(),
            with_rat(all, u) == with_rat(all.take(at as int), u) + all.skip(at as int),
        decreases at,
    {
        proof {
            let t = all.take(at as int);
            let last = all[at - 1];
            assert(t.last() == last);
            assert(t.drop_last() =~= all.take(at - 1));
            lemma_order_excludes(u, last);
            assert(with_rat(t, u) == with_rat(all.take(at - 1), u).push(last));
            assert(with_rat(all.take(at - 1), u).push(last) + all.skip(at as int) =~= with_rat(all.take(at - 1), u)
                + all.skip(at - 1));
        }
        at = at - 1;
    }
    if at == 0 || earlier(cuts[at - 1], u) {
        cuts.insert(at, u);
        proof {
            let t = all.take(at as int);
            if at == 0 {
                assert(t =~= Seq::<Rat>::empty());
            } else {
                assert(t.last() == all[at - 1]);
            }
            assert(cuts@ =~= with_rat(all, u));
            assert forall|i: int| 0 <= i < cuts@.len() implies (#[trigger] cuts@[i]).wf() by {
                if i < at {
                    assert(cuts@[i] == all[i]);
                } else if i > at {
                    assert(cuts@[i] == all[i - 1]);
                }
            }
        }
    } else {
        proof {
            let t = all.take(at as int);
            assert(t.last() == all[at - 1]);
            assert(t + all.skip(at as int) =~= all);
        }
    }
}

proof fn lemma_order_excludes(a: Rat, b: Rat)
    requires
        a.below(b),
    ensures
        !b.below(a),
{
}

/// Inserts a cut into a sorted list.
fn insert_cut(cuts: &mut Vec<i64>, s: i64)
    ensures
        final(cuts)@ == with_cut(old(cuts)@, s),
        final(cuts)@.len() >= old(cuts)@.len(),
{
    let ghost all = cuts@;
    let mut at: usize = cuts.len();
    assert(all.take(all.len() as int) =~= all);
    assert(with_cut(all, s) + all.skip(all.len() as int) =~= with_cut(all, s));
    while at > 0 && s < cuts[at - 1]
        invariant
            at <= cuts.len(),
            cuts@ == all,
            with_cut(all, s) == with_cut(all.take(at as int), s) + all.skip(at as int),
        decreases at,
    {
        proof {
            let t = all.take(at as int);
            let last = all[at - 1];
            assert(t.last() == last);
            assert(t.drop_last() =~= all.take(at - 1));
            assert(with_cut(t, s) == with_cut(all.take(at - 1), s).push(last));
            assert(with_cut(all.take(at - 1), s).push(last) + all.skip(at as int) =~= with_cut(all.take(at - 1), s)
                + all.skip(at - 1));
        }
        at = at - 1;
    }
    if at == 0 || cuts[at - 1] < s {
        cuts.insert(at, s);
        proof {
            let t = all.take(at as int);
            if at == 0 {
                assert(t =~= Seq::<i64>::empty());
            } else {
                assert(t.last() == all[at - 1]);
            }
            assert(cuts@ =~= with_cut(all, s));
        }
    } else {
        proof {
            let t = all.take(at as int);
            assert(t.last() == all[at - 1]);
            assert(t + all.skip(at as int) =~= all);
        }
    }
}

/// An arc's cuts.
fn cut_arc(spans: &Vec<ArcSpan>, Ghost(n): Ghost<int>) -> (r: Vec<Rat>)
    requires
        spans_wf(spans@, n),
    ensures
        r@ == arc_cuts(spans@, spans@.len()),
        r@.len() >= 2,
        forall|i: int| 0 <= i < r@.len() ==> (#[trigger] r@[i]).wf(),
{
    let zero: Rat = Rat::zero();
    let one: Rat = Rat::one();
    let mut cuts: Vec<Rat> = Vec::new();
    cuts.push(zero);
    cuts.push(one);
    assert(cuts@ =~= arc_cuts(spans@, 0));
    let mut i: usize = 0;
    while i < spans.len()
        invariant
            i <= spans.len(),
            spans_wf(spans@, n),
            zero == rat_zero() && zero.wf(),
            one == rat_one() && one.wf(),
            cuts@ == arc_cuts(spans@, i as nat),
            cuts@.len() >= 2,
            forall|j: int| 0 <= j < cuts@.len() ==> (#[trigger] cuts@[j]).wf(),
        decreases spans.len() - i,
    {
        let s: ArcSpan = spans[i];
        assert(spans@[i as int].lo.wf() && spans@[i as int].hi.wf());
        if zero.lt(s.lo) && s.lo.lt(one) {
            insert_rat(&mut cuts, s.lo);
        }
        if zero.lt(s.hi) && s.hi.lt(one) {
            insert_rat(&mut cuts, s.hi);
        }
        i = i + 1;
    }
    cuts
}

/// How the curves over a window of an arc add up: the net traversals, whether the
/// curve owns the window, and the others.
fn tally_arc(spans: &Vec<ArcSpan>, i: usize, lo: Rat, hi: Rat, Ghost(n): Ghost<int>) -> (r: (i32, usize, Vec<usize>))
    requires
        spans_wf(spans@, n),
        n <= 0x3fff_ffff,
        lo.wf(),
        hi.wf(),
    ensures
        ({
            let t = arc_tally(spans@, i as int, lo, hi, spans@.len());
            r.0 == t.net && r.1 == t.owner && r.2@ == t.others
        }),
{
    let mut net: i32 = 1;
    let mut owner: usize = i;
    let mut others: Vec<usize> = Vec::new();
    let mut k: usize = 0;
    while k < spans.len()
        invariant
            k <= spans.len(),
            spans_wf(spans@, n),
            n <= 0x3fff_ffff,
            lo.wf(),
            hi.wf(),
            net == arc_tally(spans@, i as int, lo, hi, k as nat).net,
            owner == arc_tally(spans@, i as int, lo, hi, k as nat).owner,
            others@ == arc_tally(spans@, i as int, lo, hi, k as nat).others,
            -k <= net <= 1 + k,
        decreases spans.len() - k,
    {
        let s: ArcSpan = spans[k];
        assert(spans@[k as int].lo.wf() && spans@[k as int].hi.wf() && -1 <= spans@[k as int].orientation <= 1);
        if !earlier(lo, s.lo) && !earlier(s.hi, hi) {
            net = net + s.orientation;
            if s.other < owner {
                owner = s.other;
            }
            others.push(s.other);
        }
        k = k + 1;
    }
    (net, owner, others)
}

/// Appends what an arc leaves of the boundary.
fn extract_arc(all: &Vec<QuadCurve>, i: usize, spans: &Vec<ArcSpan>, tol: F32, out: &mut Vec<BoundaryPiece>) -> (r: Result<
    (),
    PrepareError,
>)
    requires
        all.len() <= 0x3fff_ffff,
        i < all.len(),
        spans_wf(spans@, all@.len() as int),
    ensures
        ({
            let cuts = arc_cuts(spans@, spans@.len());
            let want = arc_windows(all@, i as int, spans@, cuts, tol, (cuts.len() - 1) as nat, old(out)@);
            &&& r is Ok <==> want is Some
            &&& r is Ok ==> Some(final(out)@) == want
            &&& r is Err ==> r == Err::<(), PrepareError>(PrepareError::AtlasFull)
        }),
{
    let ghost start = out@;
    let cuts: Vec<Rat> = cut_arc(spans, Ghost(all@.len() as int));
    let mut k: usize = 0;
    while k + 1 < cuts.len()
        invariant
            all.len() <= 0x3fff_ffff,
            i < all.len(),
            spans_wf(spans@, all@.len() as int),
            start == old(out)@,
            cuts@ == arc_cuts(spans@, spans@.len()),
            cuts@.len() >= 2,
            forall|j: int| 0 <= j < cuts@.len() ==> (#[trigger] cuts@[j]).wf(),
            k + 1 <= cuts.len(),
            arc_windows(all@, i as int, spans@, cuts@, tol, k as nat, start) == Some(out@),
        decreases cuts.len() - k,
    {
        let lo: Rat = cuts[k];
        let hi: Rat = cuts[k + 1];
        let (net, owner, others) = tally_arc(spans, i, lo, hi, Ghost(all@.len() as int));
        if owner == i && net != 0 {
            let from: F32 = lo.to_f32();
            let to: F32 = hi.to_f32();
            match certify_piece(all, subcurve(&all[i], from, to), i as u32, from, to, tol, 0, &others, out) {
                Ok(_) => {},
                Err(_) => {
                    proof {
                        assert(arc_windows(all@, i as int, spans@, cuts@, tol, (k + 1) as nat, start) is None);
                        lemma_arc_windows_fail(all@, i as int, spans@, cuts@, tol, (k + 1) as nat, (cuts@.len() - 1) as nat, start);
                    }
                    return Err(PrepareError::AtlasFull);
                },
            }
        }
        k = k + 1;
    }
    Ok(())
}

proof fn lemma_arc_windows_fail(
    all: Seq<QuadCurve>,
    i: int,
    spans: Seq<ArcSpan>,
    cuts: Seq<Rat>,
    tol: F32,
    k: nat,
    n: nat,
    out: Seq<BoundaryPiece>,
)
    requires
        k <= n,
        arc_windows(all, i, spans, cuts, tol, k, out) is None,
    ensures
        arc_windows(all, i, spans, cuts, tol, n, out) is None,
    decreases n - k,
{
    if k < n {
        lemma_arc_windows_fail(all, i, spans, cuts, tol, k, (n - 1) as nat, out);
    }
}

proof fn lemma_segment_windows_fail(
    all: Seq<QuadCurve>,
    i: int,
    covers: Seq<Cover>,
    end: i64,
    cuts: Seq<i64>,
    tol: F32,
    k: nat,
    n: nat,
    out: Seq<BoundaryPiece>,
)
    requires
        k <= n,
        segment_windows(all, i, covers, end, cuts, tol, k, out) is None,
    ensures
        segment_windows(all, i, covers, end, cuts, tol, n, out) is None,
    decreases n - k,
{
    if k < n {
        lemma_segment_windows_fail(all, i, covers, end, cuts, tol, k, (n - 1) as nat, out);
    }
}

proof fn lemma_grid_products(a: int, b: int)
    requires
        -0x4000_0000 <= a <= 0x4000_0000,
        -0x4000_0000 <= b <= 0x4000_0000,
    ensures
        -0x1000_0000_0000_0000 <= a * b <= 0x1000_0000_0000_0000,
{
    assert(-0x1000_0000_0000_0000 <= a * b <= 0x1000_0000_0000_0000) by (nonlinear_arith)
        requires
            -0x4000_0000 <= a <= 0x4000_0000,
            -0x4000_0000 <= b <= 0x4000_0000,
    ;
}

pub open spec fn in_grid(p: [i64; 2]) -> bool {
    -GRID_LIMIT <= p[0] <= GRID_LIMIT && -GRID_LIMIT <= p[1] <= GRID_LIMIT
}

/// How far off and how far along the line from `a` to `b` a point is.
fn line_position(a: &[i64; 2], b: &[i64; 2], p: &[i64; 2]) -> (r: (i64, i64))
    requires
        in_grid(*a),
        in_grid(*b),
        in_grid(*p),
    ensures
        r.0 == off_line(*a, *b, *p),
        r.1 == along(*a, *b, *p),
        -0x2000_0000_0000_0000 <= r.1 <= 0x2000_0000_0000_0000,
{
    let dx: i64 = b[0] - a[0];
    let dy: i64 = b[1] - a[1];
    let px: i64 = p[0] - a[0];
    let py: i64 = p[1] - a[1];
    proof {
        lemma_grid_products(dx as int, py as int);
        lemma_grid_products(dy as int, px as int);
        lemma_grid_products(px as int, dx as int);
        lemma_grid_products(py as int, dy as int);
    }
    (dx * py - dy * px, px * dx + py * dy)
}

spec fn covers_bounded(covers: Seq<Cover>, n: int) -> bool {
    &&& covers.len() <= n
    &&& forall|k: int|
        0 <= k < covers.len() ==> -0x2000_0000_0000_0000 <= (#[trigger] covers[k]).lo <= 0x2000_0000_0000_0000
            && -0x2000_0000_0000_0000 <= covers[k].hi <= 0x2000_0000_0000_0000 && -1 <= covers[k].orientation <= 1
}

/// What the other segments cover of a segment.
fn find_covers(all: &Vec<QuadCurve>, i: usize, a: &[i64; 2], b: &[i64; 2]) -> (r: Vec<Cover>)
    requires
        curves_on_grid(all@),
        i < all.len(),
        *a == grid_point(all@[i as int].p1),
        *b == grid_point(all@[i as int].p3),
    ensures
        r@ == covers_of(all@, i as int, all@.len()),
        covers_bounded(r@, all@.len() as int),
{
    let mut covers: Vec<Cover> = Vec::new();
    let mut j: usize = 0;
    proof {
        assert(curve_on_grid(all@[i as int]));
    }
    while j < all.len()
        invariant
            j <= all.len(),
            i < all.len(),
            curves_on_grid(all@),
            *a == grid_point(all@[i as int].p1),
            *b == grid_point(all@[i as int].p3),
            in_grid(*a),
            in_grid(*b),
            covers@ == covers_of(all@, i as int, j as nat),
            covers_bounded(covers@, j as int),
        decreases all.len() - j,
    {
        assert(curve_on_grid(all@[j as int]));
        if j != i {
            if let Some((p, q)) = as_segment(&all[j]) {
                let (off0, s0) = line_position(a, b, &int_point(&p));
                let (off1, s1) = line_position(a, b, &int_point(&q));
                if off0 == 0 && off1 == 0 && s0 != s1 {
                    covers.push(
                        Cover {
                            lo: if s0 < s1 { s0 } else { s1 },
                            hi: if s0 < s1 { s1 } else { s0 },
                            orientation: if s0 < s1 { 1 } else { -1 },
                            other: j,
                        },
                    );
                }
            }
        }
        j = j + 1;
    }
    covers
}

spec fn cuts_bounded(cuts: Seq<i64>) -> bool {
    forall|k: int| 0 <= k < cuts.len() ==> 0 <= #[trigger] cuts[k] <= 0x2000_0000_0000_0000
}

proof fn lemma_with_cut_bounded(cuts: Seq<i64>, s: i64)
    requires
        cuts_bounded(cuts),
        0 <= s <= 0x2000_0000_0000_0000,
    ensures
        cuts_bounded(with_cut(cuts, s)),
    decreases cuts.len(),
{
    if cuts.len() > 0 && cuts.last() > s {
        let rest = cuts.drop_last();
        assert forall|k: int| 0 <= k < rest.len() implies 0 <= #[trigger] rest[k] <= 0x2000_0000_0000_0000 by {
            assert(rest[k] == cuts[k]);
        }
        lemma_with_cut_bounded(rest, s);
        let w = with_cut(rest, s);
        let all = w.push(cuts.last());
        assert(0 <= cuts[cuts.len() - 1] <= 0x2000_0000_0000_0000);
        assert forall|k: int| 0 <= k < all.len() implies 0 <= #[trigger] all[k] <= 0x2000_0000_0000_0000 by {
            if k < w.len() {
                assert(all[k] == w[k]);
            }
        }
    }
}

/// A segment's cuts.
fn cut_segment(covers: &Vec<Cover>, end: i64) -> (r: Vec<i64>)
    requires
        0 < end <= 0x2000_0000_0000_0000,
    ensures
        r@ == segment_cuts(covers@, end, covers@.len()),
        r@.len() >= 2,
        cuts_bounded(r@),
{
    let mut cuts: Vec<i64> = Vec::new();
    cuts.push(0);
    cuts.push(end);
    assert(cuts@ =~= segment_cuts(covers@, end, 0));
    let mut i: usize = 0;
    while i < covers.len()
        invariant
            i <= covers.len(),
            0 < end <= 0x2000_0000_0000_0000,
            cuts@ == segment_cuts(covers@, end, i as nat),
            cuts@.len() >= 2,
            cuts_bounded(cuts@),
        decreases covers.len() - i,
    {
        let c: Cover = covers[i];
        if 0 < c.lo && c.lo < end {
            proof {
                lemma_with_cut_bounded(cuts@, c.lo);
            }
            insert_cut(&mut cuts, c.lo);
        }
        if 0 < c.hi && c.hi < end {
            proof {
                lemma_with_cut_bounded(cuts@, c.hi);
            }
            insert_cut(&mut cuts, c.hi);
        }
        i = i + 1;
    }
    cuts
}

/// How the segments over a window of a segment add up.
fn tally_segment(covers: &Vec<Cover>, i: usize, lo: i64, hi: i64, Ghost(n): Ghost<int>) -> (r: (i32, usize, Vec<usize>))
    requires
        covers_bounded(covers@, n),
        n <= 0x3fff_ffff,
        0 <= lo <= 0x2000_0000_0000_0000,
        0 <= hi <= 0x2000_0000_0000_0000,
    ensures
        ({
            let t = segment_tally(covers@, i as int, lo, hi, covers@.len());
            r.0 == t.net && r.1 == t.owner && r.2@ == t.others
        }),
{
    let mut net: i32 = 1;
    let mut owner: usize = i;
    let mut others: Vec<usize> = Vec::new();
    let middle: i64 = lo + hi;
    let mut k: usize = 0;
    while k < covers.len()
        invariant
            k <= covers.len(),
            covers_bounded(covers@, n),
            n <= 0x3fff_ffff,
            middle == lo + hi,
            net == segment_tally(covers@, i as int, lo, hi, k as nat).net,
            owner == segment_tally(covers@, i as int, lo, hi, k as nat).owner,
            others@ == segment_tally(covers@, i as int, lo, hi, k as nat).others,
            -k <= net <= 1 + k,
        decreases covers.len() - k,
    {
        let s: Cover = covers[k];
        assert(-0x2000_0000_0000_0000 <= covers@[k as int].lo <= 0x2000_0000_0000_0000);
        if 2 * s.lo <= middle && middle <= 2 * s.hi {
            net = net + s.orientation;
            if s.other < owner {
                owner = s.other;
            }
            others.push(s.other);
        }
        k = k + 1;
    }
    (net, owner, others)
}

fn lerp_point(a: &[F32; 2], b: &[F32; 2], f: F32) -> (r: [F32; 2])
    ensures
        r == lerp(*a, *b, f),
{
    [a[0].plus(b[0].minus(a[0]).times(f)), a[1].plus(b[1].minus(a[1]).times(f))]
}

/// Appends what a segment leaves of the boundary.
///
/// All coincidence decisions run in exact integer arithmetic on the grid:
/// collinearity is an exact cross product, and coincident spans live on the
/// shared line as integers. Distinct quantized traces therefore never cancel;
/// only identical ones do.
fn extract_segment(all: &Vec<QuadCurve>, i: usize, tol: F32, out: &mut Vec<BoundaryPiece>) -> (r: Result<(), PrepareError>)
    requires
        all.len() <= 0x3fff_ffff,
        i < all.len(),
        curves_on_grid(all@),
        is_segment(all@[i as int]),
    ensures
        ({
            let want = curve_boundary(all@, i as int, tol, old(out)@);
            &&& r is Ok <==> want is Some
            &&& r is Ok ==> Some(final(out)@) == want
            &&& r is Err ==> r == Err::<(), PrepareError>(PrepareError::AtlasFull)
        }),
{
    let ghost start = out@;
    assert(curve_on_grid(all@[i as int]));
    let a: [i64; 2] = int_point(&all[i].p1);
    let b: [i64; 2] = int_point(&all[i].p3);
    let (_, end) = line_position(&a, &b, &b);
    proof {
        let dx = b[0] - a[0];
        let dy = b[1] - a[1];
        assert(dx * dx >= 0 && dy * dy >= 0) by (nonlinear_arith);
        assert(end == length_squared(a, b));
    }
    if end == 0 {
        return Ok(());
    }
    let covers: Vec<Cover> = find_covers(all, i, &a, &b);
    let cuts: Vec<i64> = cut_segment(&covers, end);
    let mut k: usize = 0;
    while k + 1 < cuts.len()
        invariant
            all.len() <= 0x3fff_ffff,
            i < all.len(),
            0 < end <= 0x2000_0000_0000_0000,
            covers_bounded(covers@, all@.len() as int),
            start == old(out)@,
            cuts@.len() >= 2,
            cuts_bounded(cuts@),
            k + 1 <= cuts.len(),
            curve_boundary(all@, i as int, tol, start) == segment_windows(
                all@,
                i as int,
                covers@,
                end,
                cuts@,
                tol,
                (cuts@.len() - 1) as nat,
                start,
            ),
            segment_windows(all@, i as int, covers@, end, cuts@, tol, k as nat, start) == Some(out@),
        decreases cuts.len() - k,
    {
        let lo: i64 = cuts[k];
        let hi: i64 = cuts[k + 1];
        assert(0 <= cuts@[k as int] && 0 <= cuts@[k + 1]);
        let (net, owner, others) = tally_segment(&covers, i, lo, hi, Ghost(all@.len() as int));
        if owner == i && net != 0 {
            let from: F32 = F32::from_i64(lo).over(F32::from_i64(end));
            let to: F32 = F32::from_i64(hi).over(F32::from_i64(end));
            // Cuts are linear positions along the trace, but a degenerate
            // quadratic parameterizes its chord as t^2, so the ends of a window
            // are interpolated, not evaluated.
            let p0: [F32; 2] = lerp_point(&all[i].p1, &all[i].p3, from);
            let p1: [F32; 2] = lerp_point(&all[i].p1, &all[i].p3, to);
            match certify_piece(all, line_curve(p0, p1), i as u32, from, to, tol, 0, &others, out) {
                Ok(_) => {},
                Err(_) => {
                    proof {
                        assert(segment_windows(all@, i as int, covers@, end, cuts@, tol, (k + 1) as nat, start) is None);
                        lemma_segment_windows_fail(
                            all@,
                            i as int,
                            covers@,
                            end,
                            cuts@,
                            tol,
                            (k + 1) as nat,
                            (cuts@.len() - 1) as nat,
                            start,
                        );
                    }
                    return Err(PrepareError::AtlasFull);
                },
            }
        }
        k = k + 1;
    }
    Ok(())
}

proof fn lemma_boundary_fails(all: Seq<QuadCurve>, tol: F32, k: nat, n: nat)
    requires
        k <= n,
        boundary_of(all, tol, k) is None,
    ensures
        boundary_of(all, tol, n) is None,
    decreases n - k,
{
    if k < n {
        lemma_boundary_fails(all, tol, k, (n - 1) as nat);
    }
}

/// Extract the boundary of the nonzero-filled set from the exact quantized
/// curves consumed by the shader. Fails (conservatively, never silently
/// dropping certified-unknown geometry) when certification exhausts its
/// subdivision depth or the piece budget.
pub fn extract_boundary(outline: &GlyphOutline, max_ppem: F32, units_per_em: F32) -> (r: Result<
    Vec<BoundaryPiece>,
    PrepareError,
>)
    requires
        outline.curves@.len() <= 0x3fff_ffff,
        curves_in_range(outline.curves@),
    ensures
        r is Ok <==> extracted(outline.curves@, max_ppem, units_per_em) is Some,
        r matches Ok(pieces) ==> Some(pieces@) == extracted(outline.curves@, max_ppem, units_per_em) && pieces@.len()
            <= MAX_BOUNDARY_PIECES,
        r is Err ==> r == Err::<Vec<BoundaryPiece>, PrepareError>(PrepareError::AtlasFull),
{
    let quantized: GlyphOutline = quantized_outline(outline);
    let tol: F32 = F32 { bits: BOUNDARY_ERROR_PX_BITS }.times(units_per_em).over(
        max_ppem.max(F32 { bits: MIN_POSITIVE_BITS }),
    );
    proof {
        lemma_quantized_on_grid(outline.curves@);
    }
    let arcs: Vec<Vec<ArcSpan>> = find_arcs(&quantized.curves);
    let n: usize = quantized.curves.len();
    let ghost all = quantized.curves@;
    let mut out: Vec<BoundaryPiece> = Vec::new();
    let mut i: usize = 0;
    assert(boundary_of(all, tol, 0) == Some(out@)) by {
        assert(out@ =~= Seq::<BoundaryPiece>::empty());
    }
    while i < n
        invariant
            i <= n,
            n == all.len(),
            all == quantized.curves@,
            n <= 0x3fff_ffff,
            curves_on_grid(all),
            arcs@.len() == n,
            forall|k: int|
                0 <= k < n ==> (#[trigger] arcs@[k])@ == arc_spans(all, k, n as nat) && spans_wf(arcs@[k]@, n as int),
            extracted(outline.curves@, max_ppem, units_per_em) == boundary_of(all, tol, n as nat),
            boundary_of(all, tol, i as nat) == Some(out@),
        decreases n - i,
    {
        assert(arcs@[i as int]@ == arc_spans(all, i as int, n as nat));
        let r: Result<(), PrepareError> = if as_segment(&quantized.curves[i]).is_some() {
            extract_segment(&quantized.curves, i, tol, &mut out)
        } else {
            extract_arc(&quantized.curves, i, &arcs[i], tol, &mut out)
        };
        match r {
            Ok(_) => {},
            Err(_) => {
                proof {
                    assert(boundary_of(all, tol, (i + 1) as nat) is None);
                    lemma_boundary_fails(all, tol, (i + 1) as nat, n as nat);
                }
                return Err(PrepareError::AtlasFull);
            },
        }
        i = i + 1;
    }
    proof {
        law_boundary_is_bounded(all, tol, n as nat);
    }
    Ok(out)
}

/// The boundary never exceeds its budget, and every piece comes from one of the
/// outline's curves.
pub proof fn law_boundary_is_bounded(all: Seq<QuadCurve>, tol: F32, n: nat)
    requires
        n <= u32::MAX,
    ensures
        boundary_of(all, tol, n) matches Some(pieces) ==> pieces.len() <= MAX_BOUNDARY_PIECES && forall|i: int|
            0 <= i < pieces.len() ==> (#[trigger] pieces[i]).source_curve < n,
    decreases n,
{
    if n > 0 {
        law_boundary_is_bounded(all, tol, (n - 1) as nat);
        if let Some(before) = boundary_of(all, tol, (n - 1) as nat) {
            let i = n - 1;
            if is_segment(all[i]) {
                let end = length_squared(grid_point(all[i].p1), grid_point(all[i].p3)) as i64;
                if end != 0 {
                    let covers = covers_of(all, i, all.len());
                    let cuts = segment_cuts(covers, end, covers.len());
                    lemma_segment_windows_append(all, i, covers, end, cuts, tol, (cuts.len() - 1) as nat, before);
                }
            } else {
                let spans = arc_spans(all, i, all.len());
                let cuts = arc_cuts(spans, spans.len());
                lemma_arc_windows_append(all, i, spans, cuts, tol, (cuts.len() - 1) as nat, before);
            }
            if let Some(pieces) = boundary_of(all, tol, n) {
                assert forall|k: int| 0 <= k < pieces.len() implies (#[trigger] pieces[k]).source_curve < n by {
                    if k < before.len() {
                        assert(pieces[k] == pieces.take(before.len() as int)[k]);
                    }
                }
            }
        }
    }
}

/// `after` extends `before` by pieces of curve `i`.
pub open spec fn extends(before: Seq<BoundaryPiece>, after: Seq<BoundaryPiece>, i: int) -> bool {
    &&& before.len() <= after.len() <= MAX_BOUNDARY_PIECES
    &&& after.take(before.len() as int) == before
    &&& forall|k: int| before.len() <= k < after.len() ==> (#[trigger] after[k]).source_curve == i as u32
}

proof fn lemma_extends_trans(a: Seq<BoundaryPiece>, b: Seq<BoundaryPiece>, c: Seq<BoundaryPiece>, i: int)
    requires
        extends(a, b, i),
        extends(b, c, i),
    ensures
        extends(a, c, i),
{
    assert(c.take(a.len() as int) =~= c.take(b.len() as int).take(a.len() as int));
    assert forall|k: int| a.len() <= k < c.len() implies (#[trigger] c[k]).source_curve == i as u32 by {
        if k < b.len() {
            assert(c[k] == c.take(b.len() as int)[k]);
        }
    }
}

proof fn lemma_arc_windows_append(
    all: Seq<QuadCurve>,
    i: int,
    spans: Seq<ArcSpan>,
    cuts: Seq<Rat>,
    tol: F32,
    k: nat,
    out: Seq<BoundaryPiece>,
)
    requires
        out.len() <= MAX_BOUNDARY_PIECES,
    ensures
        arc_windows(all, i, spans, cuts, tol, k, out) matches Some(after) ==> extends(out, after, i),
    decreases k,
{
    if k == 0 {
        assert(out.take(out.len() as int) =~= out);
    } else {
        lemma_arc_windows_append(all, i, spans, cuts, tol, (k - 1) as nat, out);
        if let Some(mid) = arc_windows(all, i, spans, cuts, tol, (k - 1) as nat, out) {
            let lo = cuts[k - 1];
            let hi = cuts[k as int];
            let t = arc_tally(spans, i, lo, hi, spans.len());
            let from = rat_single(lo);
            let to = rat_single(hi);
            law_certification_only_appends(
                all,
                sub_span(all[i], from, to),
                i as u32,
                from,
                to,
                tol,
                MAX_SUBDIVISION_DEPTH as nat,
                t.others,
                mid,
            );
            assert(mid.take(mid.len() as int) =~= mid);
            if let Some(after) = arc_windows(all, i, spans, cuts, tol, k, out) {
                assert(extends(mid, after, i));
                lemma_extends_trans(out, mid, after, i);
            }
        }
    }
}

proof fn lemma_segment_windows_append(
    all: Seq<QuadCurve>,
    i: int,
    covers: Seq<Cover>,
    end: i64,
    cuts: Seq<i64>,
    tol: F32,
    k: nat,
    out: Seq<BoundaryPiece>,
)
    requires
        out.len() <= MAX_BOUNDARY_PIECES,
    ensures
        segment_windows(all, i, covers, end, cuts, tol, k, out) matches Some(after) ==> extends(out, after, i),
    decreases k,
{
    if k == 0 {
        assert(out.take(out.len() as int) =~= out);
    } else {
        lemma_segment_windows_append(all, i, covers, end, cuts, tol, (k - 1) as nat, out);
        if let Some(mid) = segment_windows(all, i, covers, end, cuts, tol, (k - 1) as nat, out) {
            let lo = cuts[k - 1];
            let hi = cuts[k as int];
            let t = segment_tally(covers, i, lo, hi, covers.len());
            let a = all[i].p1;
            let b = all[i].p3;
            let from = fraction(lo, end);
            let to = fraction(hi, end);
            law_certification_only_appends(
                all,
                line(lerp(a, b, from), lerp(a, b, to)),
                i as u32,
                from,
                to,
                tol,
                MAX_SUBDIVISION_DEPTH as nat,
                t.others,
                mid,
            );
            assert(mid.take(mid.len() as int) =~= mid);
            if let Some(after) = segment_windows(all, i, covers, end, cuts, tol, k, out) {
                assert(extends(mid, after, i));
                lemma_extends_trans(out, mid, after, i);
            }
        }
    }
}

}
