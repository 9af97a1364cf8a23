//! Cancellation of straight contours that run both ways.
use vstd::prelude::*;
use crate::border::boundary::{curve_on_grid, curves_on_grid, grid_point};
use crate::border::certify::BoundaryPiece;
use crate::border::curve::is_segment;
use crate::border::extract::{
    Cover, along, boundary_of, cover_of, covers_of, curve_boundary, in_grid, length_squared, off_line, segment_cuts,
    segment_tally, segment_windows, with_cut, with_inner_cut,
};
use crate::float32::F32;
use crate::outline::QuadCurve;

verus! {

/// The second half of the curves is the first half, segment by segment, in the
/// opposite direction.
pub open spec fn runs_both_ways(all: Seq<QuadCurve>, n: int) -> bool {
    &&& all.len() == 2 * n
    &&& forall|k: int|
        0 <= k < n ==> {
            &&& is_segment(#[trigger] all[k])
            &&& is_segment(all[n + k])
            &&& all[n + k].p1 == all[k].p3
            &&& all[n + k].p3 == all[k].p1
        }
}

/// What curve `j` adds to the count over a window of segment `i`.
spec fn share(all: Seq<QuadCurve>, i: int, lo: i64, hi: i64, j: int) -> int {
    match cover_of(all, i, j) {
        Some(c) => if 2 * c.lo <= lo + hi && lo + hi <= 2 * c.hi { c.orientation as int } else { 0 },
        None => 0,
    }
}

/// What the first `n` curves add.
spec fn shares(all: Seq<QuadCurve>, i: int, lo: i64, hi: i64, n: int) -> int
    decreases n,
{
    if n <= 0 {
        0
    } else {
        shares(all, i, lo, hi, n - 1) + share(all, i, lo, hi, n - 1)
    }
}

proof fn lemma_tally_of_prefix(a: Seq<Cover>, b: Seq<Cover>, i: int, lo: i64, hi: i64, n: nat)
    requires
        n <= a.len(),
        n <= b.len(),
        forall|k: int| 0 <= k < n ==> a[k] == #[trigger] b[k],
    ensures
        segment_tally(a, i, lo, hi, n) == segment_tally(b, i, lo, hi, n),
    decreases n,
{
    if n > 0 {
        lemma_tally_of_prefix(a, b, i, lo, hi, (n - 1) as nat);
        assert(a[n - 1] == b[n - 1]);
    }
}

proof fn lemma_tally_adds_shares(all: Seq<QuadCurve>, i: int, lo: i64, hi: i64, n: nat)
    ensures
        segment_tally(covers_of(all, i, n), i, lo, hi, covers_of(all, i, n).len()).net == 1 + shares(
            all,
            i,
            lo,
            hi,
            n as int,
        ),
    decreases n,
{
    if n > 0 {
        lemma_tally_adds_shares(all, i, lo, hi, (n - 1) as nat);
        let before = covers_of(all, i, (n - 1) as nat);
        let after = covers_of(all, i, n);
        lemma_tally_of_prefix(before, after, i, lo, hi, before.len());
    }
}

/// Positions along a segment on the grid fit 62 bits.
proof fn lemma_along_is_bounded(a: [i64; 2], b: [i64; 2], p: [i64; 2])
    requires
        in_grid(a),
        in_grid(b),
        in_grid(p),
    ensures
        -0x2000_0000_0000_0000 <= along(a, b, p) <= 0x2000_0000_0000_0000,
{
    let x = p[0] - a[0];
    let y = p[1] - a[1];
    let dx = b[0] - a[0];
    let dy = b[1] - a[1];
    assert(-0x1000_0000_0000_0000 <= x * dx <= 0x1000_0000_0000_0000) by (nonlinear_arith)
        requires
            -0x4000_0000 <= x <= 0x4000_0000,
            -0x4000_0000 <= dx <= 0x4000_0000,
    ;
    assert(-0x1000_0000_0000_0000 <= y * dy <= 0x1000_0000_0000_0000) by (nonlinear_arith)
        requires
            -0x4000_0000 <= y <= 0x4000_0000,
            -0x4000_0000 <= dy <= 0x4000_0000,
    ;
}

/// The two directions of a segment cancel over any window of another segment, and
/// take one off over a window of their own.
proof fn lemma_directions_cancel(all: Seq<QuadCurve>, n: int, i: int, lo: i64, hi: i64, j: int)
    requires
        runs_both_ways(all, n),
        curves_on_grid(all),
        0 <= i < 2 * n,
        0 <= j < n,
        length_squared(grid_point(all[i].p1), grid_point(all[i].p3)) > 0,
        0 <= lo + hi <= 2 * length_squared(grid_point(all[i].p1), grid_point(all[i].p3)),
    ensures
        share(all, i, lo, hi, j) + share(all, i, lo, hi, n + j) == if i == j || i == n + j { -1int } else { 0 },
{
    let a = grid_point(all[i].p1);
    let b = grid_point(all[i].p3);
    let p = grid_point(all[j].p1);
    let q = grid_point(all[j].p3);
    assert(curve_on_grid(all[i]) && curve_on_grid(all[j]) && curve_on_grid(all[n + j]));
    assert(is_segment(all[j]));
    lemma_along_is_bounded(a, b, p);
    lemma_along_is_bounded(a, b, q);
    assert(along(a, b, a) == 0) by {
        assert(0 * (b[0] - a[0]) == 0 && 0 * (b[1] - a[1]) == 0) by (nonlinear_arith);
    }
    assert(off_line(a, b, a) == 0) by {
        assert((b[0] - a[0]) * 0 == 0 && (b[1] - a[1]) * 0 == 0) by (nonlinear_arith);
    }
    assert(along(a, b, b) == length_squared(a, b));
    assert(off_line(a, b, b) == 0) by {
        let x = b[0] - a[0];
        let y = b[1] - a[1];
        assert(x * y - y * x == 0) by (nonlinear_arith);
    }
}

#[verifier::rlimit(60)]
#[verifier::spinoff_prover]
proof fn lemma_shares_cancel(all: Seq<QuadCurve>, n: int, i: int, lo: i64, hi: i64, k: int)
    requires
        runs_both_ways(all, n),
        curves_on_grid(all),
        0 <= i < 2 * n,
        0 <= k <= n,
        length_squared(grid_point(all[i].p1), grid_point(all[i].p3)) > 0,
        0 <= lo + hi <= 2 * length_squared(grid_point(all[i].p1), grid_point(all[i].p3)),
    ensures
        shares(all, i, lo, hi, k) + shares(all, i, lo, hi, n + k) - shares(all, i, lo, hi, n) == if k > i || (i >= n && k > i
            - n) {
            -1int
        } else {
            0
        },
    decreases k,
{
    if k > 0 {
        lemma_shares_cancel(all, n, i, lo, hi, k - 1);
        lemma_directions_cancel(all, n, i, lo, hi, k - 1);
    }
}

proof fn lemma_with_cut_in_range(cuts: Seq<i64>, s: i64, end: i64)
    requires
        forall|k: int| 0 <= k < cuts.len() ==> 0 <= #[trigger] cuts[k] <= end,
        0 <= s <= end,
    ensures
        forall|k: int| 0 <= k < with_cut(cuts, s).len() ==> 0 <= #[trigger] with_cut(cuts, s)[k] <= end,
    decreases cuts.len(),
{
    if cuts.len() > 0 && cuts.last() > s {
        let rest = cuts.drop_last();
        assert forall|k: int| 0 <= k < rest.len() implies 0 <= #[trigger] rest[k] <= end by {
            assert(rest[k] == cuts[k]);
        }
        lemma_with_cut_in_range(rest, s, end);
        assert(0 <= cuts[cuts.len() - 1] <= end);
        let w = with_cut(rest, s);
        let all = w.push(cuts.last());
        assert forall|k: int| 0 <= k < all.len() implies 0 <= #[trigger] all[k] <= end by {
            if k < w.len() {
                assert(all[k] == w[k]);
            }
        }
    }
}

proof fn lemma_cuts_in_range(covers: Seq<Cover>, end: i64, n: nat)
    requires
        0 < end,
    ensures
        forall|k: int| 0 <= k < segment_cuts(covers, end, n).len() ==> 0 <= #[trigger] segment_cuts(covers, end, n)[k] <= end,
    decreases n,
{
    if n > 0 {
        lemma_cuts_in_range(covers, end, (n - 1) as nat);
        let before = segment_cuts(covers, end, (n - 1) as nat);
        let c = covers[n - 1];
        if 0 < c.lo < end {
            lemma_with_cut_in_range(before, c.lo, end);
        }
        let middle = with_inner_cut(before, c.lo, end);
        if 0 < c.hi < end {
            lemma_with_cut_in_range(middle, c.hi, end);
        }
    }
}

proof fn lemma_windows_leave_nothing(
    all: Seq<QuadCurve>,
    n: int,
    i: int,
    end: i64,
    cuts: Seq<i64>,
    tol: F32,
    k: nat,
    out: Seq<BoundaryPiece>,
)
    requires
        runs_both_ways(all, n),
        curves_on_grid(all),
        0 <= i < 2 * n,
        end == length_squared(grid_point(all[i].p1), grid_point(all[i].p3)),
        0 < end,
        k < cuts.len(),
        forall|m: int| 0 <= m < cuts.len() ==> 0 <= #[trigger] cuts[m] <= end,
    ensures
        segment_windows(all, i, covers_of(all, i, all.len()), end, cuts, tol, k, out) == Some(out),
    decreases k,
{
    if k > 0 {
        lemma_windows_leave_nothing(all, n, i, end, cuts, tol, (k - 1) as nat, out);
        let lo = cuts[k - 1];
        let hi = cuts[k as int];
        lemma_tally_adds_shares(all, i, lo, hi, all.len());
        lemma_shares_cancel(all, n, i, lo, hi, n);
    }
}

/// Straight contours that run both ways leave no boundary, however they are split
/// into segments and whatever else they overlap.
pub proof fn law_opposite_contours_cancel(all: Seq<QuadCurve>, n: int, tol: F32, k: nat)
    requires
        runs_both_ways(all, n),
        curves_on_grid(all),
        k <= all.len(),
    ensures
        boundary_of(all, tol, k) == Some(Seq::<BoundaryPiece>::empty()),
    decreases k,
{
    if k > 0 {
        law_opposite_contours_cancel(all, n, tol, (k - 1) as nat);
        let i = k - 1;
        let a = grid_point(all[i].p1);
        let b = grid_point(all[i].p3);
        assert(curve_on_grid(all[i]));
        if i < n {
            assert(is_segment(all[i]));
        } else {
            assert(is_segment(all[i - n]) && all[n + (i - n)] == all[i]);
        }
        lemma_along_is_bounded(a, b, b);
        assert(along(a, b, b) == length_squared(a, b));
        let end = length_squared(a, b) as i64;
        assert(length_squared(a, b) >= 0) by {
            let x = b[0] - a[0];
            let y = b[1] - a[1];
            assert(x * x >= 0 && y * y >= 0) by (nonlinear_arith);
        }
        if end != 0 {
            let covers = covers_of(all, i, all.len());
            let cuts = segment_cuts(covers, end, covers.len());
            lemma_cuts_in_range(covers, end, covers.len());
            lemma_cuts_are_there(covers, end, covers.len());
            lemma_windows_leave_nothing(all, n, i, end, cuts, tol, (cuts.len() - 1) as nat, Seq::empty());
        }
        assert(curve_boundary(all, i, tol, Seq::empty()) == Some(Seq::<BoundaryPiece>::empty()));
    }
}

proof fn lemma_with_cut_len(cuts: Seq<i64>, s: i64)
    ensures
        with_cut(cuts, s).len() >= cuts.len(),
    decreases cuts.len(),
{
    if cuts.len() > 0 && cuts.last() > s {
        lemma_with_cut_len(cuts.drop_last(), s);
    }
}

proof fn lemma_cuts_are_there(covers: Seq<Cover>, end: i64, n: nat)
    ensures
        segment_cuts(covers, end, n).len() >= 2,
    decreases n,
{
    if n > 0 {
        lemma_cuts_are_there(covers, end, (n - 1) as nat);
        let before = segment_cuts(covers, end, (n - 1) as nat);
        let c = covers[n - 1];
        lemma_with_cut_len(before, c.lo);
        lemma_with_cut_len(with_inner_cut(before, c.lo, end), c.hi);
    }
}

/// A segment that lies on another one, from end to end, whichever way it runs.
pub open spec fn same_trace(c: QuadCurve, d: QuadCurve) -> bool {
    ||| c.p1 == d.p1 && c.p3 == d.p3
    ||| c.p1 == d.p3 && c.p3 == d.p1
}

proof fn lemma_twin_covers(all: Seq<QuadCurve>, i: int, j: int, lo: i64, hi: i64)
    requires
        0 <= i < j < all.len() <= usize::MAX,
        is_segment(all[i]),
        is_segment(all[j]),
        same_trace(all[i], all[j]),
        curves_on_grid(all),
        length_squared(grid_point(all[j].p1), grid_point(all[j].p3)) > 0,
        0 <= lo + hi <= 2 * length_squared(grid_point(all[j].p1), grid_point(all[j].p3)),
    ensures
        cover_of(all, j, i) matches Some(c) && 2 * c.lo <= lo + hi && lo + hi <= 2 * c.hi && c.other == i,
{
    let a = grid_point(all[j].p1);
    let b = grid_point(all[j].p3);
    assert(curve_on_grid(all[j]) && curve_on_grid(all[i]));
    lemma_along_is_bounded(a, b, a);
    lemma_along_is_bounded(a, b, b);
    assert(along(a, b, a) == 0) by {
        assert(0 * (b[0] - a[0]) == 0 && 0 * (b[1] - a[1]) == 0) by (nonlinear_arith);
    }
    assert(off_line(a, b, a) == 0) by {
        assert((b[0] - a[0]) * 0 == 0 && (b[1] - a[1]) * 0 == 0) by (nonlinear_arith);
    }
    assert(along(a, b, b) == length_squared(a, b));
    assert(off_line(a, b, b) == 0) by {
        let x = b[0] - a[0];
        let y = b[1] - a[1];
        assert(x * y - y * x == 0) by (nonlinear_arith);
    }
}

proof fn lemma_twin_owns(all: Seq<QuadCurve>, i: int, j: int, lo: i64, hi: i64, n: nat)
    requires
        0 <= i < j < all.len() <= usize::MAX,
        is_segment(all[i]),
        is_segment(all[j]),
        same_trace(all[i], all[j]),
        curves_on_grid(all),
        length_squared(grid_point(all[j].p1), grid_point(all[j].p3)) > 0,
        0 <= lo + hi <= 2 * length_squared(grid_point(all[j].p1), grid_point(all[j].p3)),
        i < n <= all.len(),
    ensures
        segment_tally(covers_of(all, j, n), j, lo, hi, covers_of(all, j, n).len()).owner <= i,
    decreases n,
{
    let before = covers_of(all, j, (n - 1) as nat);
    let after = covers_of(all, j, n);
    lemma_tally_of_prefix(before, after, j, lo, hi, before.len());
    if n - 1 == i {
        lemma_twin_covers(all, i, j, lo, hi);
    } else {
        lemma_twin_owns(all, i, j, lo, hi, (n - 1) as nat);
    }
}

proof fn lemma_twin_windows(
    all: Seq<QuadCurve>,
    i: int,
    j: int,
    end: i64,
    cuts: Seq<i64>,
    tol: F32,
    k: nat,
    out: Seq<BoundaryPiece>,
)
    requires
        0 <= i < j < all.len() <= usize::MAX,
        is_segment(all[i]),
        is_segment(all[j]),
        same_trace(all[i], all[j]),
        curves_on_grid(all),
        end == length_squared(grid_point(all[j].p1), grid_point(all[j].p3)),
        0 < end,
        k < cuts.len(),
        forall|m: int| 0 <= m < cuts.len() ==> 0 <= #[trigger] cuts[m] <= end,
    ensures
        segment_windows(all, j, covers_of(all, j, all.len()), end, cuts, tol, k, out) == Some(out),
    decreases k,
{
    if k > 0 {
        lemma_twin_windows(all, i, j, end, cuts, tol, (k - 1) as nat, out);
        lemma_twin_owns(all, i, j, cuts[k - 1], cuts[k as int], all.len());
    }
}

/// What is traced more than once bounds once: a segment that lies on an earlier one leaves
/// nothing of its own.
pub proof fn law_repeated_segments_bound_once(all: Seq<QuadCurve>, i: int, j: int, tol: F32, out: Seq<BoundaryPiece>)
    requires
        0 <= i < j < all.len() <= usize::MAX,
        is_segment(all[i]),
        is_segment(all[j]),
        same_trace(all[i], all[j]),
        curves_on_grid(all),
    ensures
        curve_boundary(all, j, tol, out) == Some(out),
{
    let a = grid_point(all[j].p1);
    let b = grid_point(all[j].p3);
    assert(curve_on_grid(all[j]));
    lemma_along_is_bounded(a, b, b);
    assert(along(a, b, b) == length_squared(a, b));
    let end = length_squared(a, b) as i64;
    assert(length_squared(a, b) >= 0) by {
        let x = b[0] - a[0];
        let y = b[1] - a[1];
        assert(x * x >= 0 && y * y >= 0) by (nonlinear_arith);
    }
    if end != 0 {
        let covers = covers_of(all, j, all.len());
        let cuts = segment_cuts(covers, end, covers.len());
        lemma_cuts_in_range(covers, end, covers.len());
        lemma_cuts_are_there(covers, end, covers.len());
        lemma_twin_windows(all, i, j, end, cuts, tol, (cuts.len() - 1) as nat, out);
    }
}

}
