//! The distance grid of a border: which boundary pieces may be near a cell.
use vstd::prelude::*;
use vstd::slice::slice_subrange;
use crate::border::boundary::BOUNDARY_ERROR_PX_BITS;
use crate::border::certify::{
    BoundaryPiece, EPSILON_BITS, MAX_BOUNDARY_PIECES, curve_bounds, hull_bounds, push_piece, pushed,
};
use crate::border::curve::{halves, lit, split};
use crate::border::rational::quadratic;
use crate::float32::{
    F32, HALF_BITS, INFINITY_BITS, ONE_BITS, QUARTER_BITS, TWO_BITS, cell_of, f_add, f_div, f_from_int, f_hypot,
    f_le, f_lt, f_max, f_mul, f_next_power, f_sqrt, f_sub, round_int, saturate, lemma_one_is_neutral,
    lemma_power_covers_quotient, lemma_product_sign, lemma_quotient_is_smaller, lemma_quotient_sign,
    law_differences_are_monotone, law_differences_keep_order, law_sums_are_monotone, law_sums_keep_order,
    lemma_order_is_value_order,
};
use crate::outline::QuadCurve;
use crate::types::PrepareError;

verus! {

/// 1.0: wider borders, in ems, use the shader's all-boundary path.
pub const MAX_GRID_RADIUS_EM_BITS: u32 = 0x3f80_0000;

/// 8.0
pub const EIGHT_BITS: u32 = 0x4100_0000;

/// 64.0
pub const SIXTY_FOUR_BITS: u32 = 0x4280_0000;

/// 1024.0: a curve's second difference over its distance from sixteen chords.
pub const CHORD_FACTOR_BITS: u32 = 0x4480_0000;

/// How often a piece is halved before its refinement is given up.
pub const MAX_REFINEMENT_DEPTH: u32 = 256;

/// A grid over a glyph's box with the boundary pieces near each cell.
pub struct DistanceGrid {
    pub bounds: [F32; 4],
    pub columns: u16,
    pub rows: u16,
    pub radius: F32,
    /// Where each cell's candidates start, and where the last cell's end.
    pub offsets: Vec<u32>,
    pub candidates: Vec<u32>,
    /// The grid excludes nothing, so that every piece has to be looked at.
    pub brute_force: bool,
}

/// The pieces that may be near a point.
pub enum GridCandidates<'a> {
    Slice(&'a [u32]),
    All(std::ops::Range<u32>),
}

/// The deviation, in pixels, of a curve from its sixteen equal-parameter chords.
#[verifier::opaque]
pub open spec fn chord_error(c: QuadCurve, ppem_ceiling: F32, units_per_em: F32) -> F32 {
    let x = f_add(f_sub(c.p1[0], f_mul(lit(TWO_BITS), c.p2[0])), c.p3[0]);
    let y = f_add(f_sub(c.p1[1], f_mul(lit(TWO_BITS), c.p2[1])), c.p3[1]);
    f_div(f_div(f_mul(f_hypot(x, y), ppem_ceiling), units_per_em), lit(CHORD_FACTOR_BITS))
}

/// A piece halved until its chords are accurate enough, appended to `out`.
pub open spec fn refined(
    piece: BoundaryPiece,
    ppem_ceiling: F32,
    units_per_em: F32,
    rest: nat,
    out: Seq<BoundaryPiece>,
) -> Option<Seq<BoundaryPiece>>
    decreases rest,
{
    if f_le(chord_error(piece.curve, ppem_ceiling, units_per_em), lit(BOUNDARY_ERROR_PX_BITS)) {
        pushed(out, piece.curve, piece.source_curve, piece.t0, piece.t1)
    } else if rest == 0 {
        None
    } else {
        let h = halves(piece.curve);
        let tm = f_mul(f_add(piece.t0, piece.t1), lit(HALF_BITS));
        match refined(
            BoundaryPiece { curve: h.0, t1: tm, ..piece },
            ppem_ceiling,
            units_per_em,
            (rest - 1) as nat,
            out,
        ) {
            None => None,
            Some(first) => refined(
                BoundaryPiece { curve: h.1, t0: tm, ..piece },
                ppem_ceiling,
                units_per_em,
                (rest - 1) as nat,
                first,
            ),
        }
    }
}

/// The first `n` pieces, refined.
pub open spec fn all_refined(pieces: Seq<BoundaryPiece>, ppem_ceiling: F32, units_per_em: F32, n: nat) -> Option<
    Seq<BoundaryPiece>,
>
    decreases n,
{
    if n == 0 {
        Some(Seq::empty())
    } else {
        match all_refined(pieces, ppem_ceiling, units_per_em, (n - 1) as nat) {
            None => None,
            Some(out) => refined(pieces[n - 1], ppem_ceiling, units_per_em, MAX_REFINEMENT_DEPTH as nat, out),
        }
    }
}

fn error_of(c: &QuadCurve, ppem_ceiling: F32, units_per_em: F32) -> (r: F32)
    ensures
        r == chord_error(*c, ppem_ceiling, units_per_em),
{
    reveal(chord_error);
    let two = F32 { bits: TWO_BITS };
    let x: F32 = c.p1[0].minus(two.times(c.p2[0])).plus(c.p3[0]);
    let y: F32 = c.p1[1].minus(two.times(c.p2[1])).plus(c.p3[1]);
    x.hypot(y).times(ppem_ceiling).over(units_per_em).over(F32 { bits: CHORD_FACTOR_BITS })
}

/// Appends a piece, halved until its chords are accurate enough. Fails when the
/// piece budget is exhausted, or when halving does not help.
pub fn refine_for_distance(
    piece: BoundaryPiece,
    ppem_ceiling: F32,
    units_per_em: F32,
    rest: u32,
    out: &mut Vec<BoundaryPiece>,
) -> (r: Result<(), PrepareError>)
    ensures
        r is Ok <==> refined(piece, ppem_ceiling, units_per_em, rest as nat, old(out)@) is Some,
        r is Ok ==> Some(final(out)@) == refined(piece, ppem_ceiling, units_per_em, rest as nat, old(out)@),
        r is Err ==> r == Err::<(), PrepareError>(PrepareError::AtlasFull),
    decreases rest,
{
    let error: F32 = error_of(&piece.curve, ppem_ceiling, units_per_em);
    if error.le(F32 { bits: BOUNDARY_ERROR_PX_BITS }) {
        return push_piece(piece.curve, piece.source_curve, piece.t0, piece.t1, out);
    }
    if rest == 0 {
        return Err(PrepareError::AtlasFull);
    }
    let (a, b) = split(&piece.curve);
    let tm: F32 = piece.t0.plus(piece.t1).times(F32 { bits: HALF_BITS });
    match refine_for_distance(
        BoundaryPiece { curve: a, t1: tm, ..piece },
        ppem_ceiling,
        units_per_em,
        rest - 1,
        out,
    ) {
        Err(_) => Err(PrepareError::AtlasFull),
        Ok(_) => refine_for_distance(
            BoundaryPiece { curve: b, t0: tm, ..piece },
            ppem_ceiling,
            units_per_em,
            rest - 1,
            out,
        ),
    }
}

proof fn lemma_refined_bounded(piece: BoundaryPiece, ppem_ceiling: F32, units_per_em: F32, rest: nat, out: Seq<BoundaryPiece>)
    requires
        out.len() <= MAX_BOUNDARY_PIECES,
    ensures
        refined(piece, ppem_ceiling, units_per_em, rest, out) matches Some(after) ==> after.len() <= MAX_BOUNDARY_PIECES,
    decreases rest,
{
    if !f_le(chord_error(piece.curve, ppem_ceiling, units_per_em), lit(BOUNDARY_ERROR_PX_BITS)) && rest > 0 {
        let h = halves(piece.curve);
        let tm = f_mul(f_add(piece.t0, piece.t1), lit(HALF_BITS));
        let p = BoundaryPiece { curve: h.0, t1: tm, ..piece };
        lemma_refined_bounded(p, ppem_ceiling, units_per_em, (rest - 1) as nat, out);
        if let Some(first) = refined(p, ppem_ceiling, units_per_em, (rest - 1) as nat, out) {
            lemma_refined_bounded(
                BoundaryPiece { curve: h.1, t0: tm, ..piece },
                ppem_ceiling,
                units_per_em,
                (rest - 1) as nat,
                first,
            );
        }
    }
}

/// The piece budget covers the refined pieces too.
pub proof fn law_refinement_is_bounded(pieces: Seq<BoundaryPiece>, ppem_ceiling: F32, units_per_em: F32, n: nat)
    ensures
        all_refined(pieces, ppem_ceiling, units_per_em, n) matches Some(after) ==> after.len() <= MAX_BOUNDARY_PIECES,
    decreases n,
{
    if n > 0 {
        law_refinement_is_bounded(pieces, ppem_ceiling, units_per_em, (n - 1) as nat);
        if let Some(out) = all_refined(pieces, ppem_ceiling, units_per_em, (n - 1) as nat) {
            lemma_refined_bounded(pieces[n - 1], ppem_ceiling, units_per_em, MAX_REFINEMENT_DEPTH as nat, out);
        }
    }
}

proof fn lemma_all_refined_fails(pieces: Seq<BoundaryPiece>, ppem_ceiling: F32, units_per_em: F32, k: nat, n: nat)
    requires
        k <= n,
        all_refined(pieces, ppem_ceiling, units_per_em, k) is None,
    ensures
        all_refined(pieces, ppem_ceiling, units_per_em, n) is None,
    decreases n - k,
{
    if k < n {
        lemma_all_refined_fails(pieces, ppem_ceiling, units_per_em, k, (n - 1) as nat);
    }
}

/// Refines all pieces of a boundary.
pub fn refine_boundary(pieces: &Vec<BoundaryPiece>, ppem_ceiling: F32, units_per_em: F32) -> (r: Result<
    Vec<BoundaryPiece>,
    PrepareError,
>)
    ensures
        r is Ok <==> all_refined(pieces@, ppem_ceiling, units_per_em, pieces@.len()) is Some,
        r matches Ok(out) ==> Some(out@) == all_refined(pieces@, ppem_ceiling, units_per_em, pieces@.len())
            && out@.len() <= MAX_BOUNDARY_PIECES,
        r is Err ==> r == Err::<Vec<BoundaryPiece>, PrepareError>(PrepareError::AtlasFull),
{
    let mut out: Vec<BoundaryPiece> = Vec::new();
    let mut i: usize = 0;
    assert(out@ =~= Seq::<BoundaryPiece>::empty());
    while i < pieces.len()
        invariant
            i <= pieces.len(),
            all_refined(pieces@, ppem_ceiling, units_per_em, i as nat) == Some(out@),
        decreases pieces.len() - i,
    {
        match refine_for_distance(pieces[i], ppem_ceiling, units_per_em, MAX_REFINEMENT_DEPTH, &mut out) {
            Ok(_) => {},
            Err(_) => {
                proof {
                    lemma_all_refined_fails(pieces@, ppem_ceiling, units_per_em, (i + 1) as nat, pieces@.len());
                }
                return Err(PrepareError::AtlasFull);
            },
        }
        i = i + 1;
    }
    proof {
        law_refinement_is_bounded(pieces@, ppem_ceiling, units_per_em, pieces@.len());
    }
    Ok(out)
}

/// The grid radius for a query radius: a power of two of 1/64 em (of a quarter
/// unit at least); none when the radius exceeds an em.
pub open spec fn bucket_of(radius_units: F32, units_per_em: F32) -> Option<F32> {
    if f_lt(f_mul(units_per_em, lit(MAX_GRID_RADIUS_EM_BITS)), radius_units) {
        None
    } else {
        let quantum = f_max(f_div(units_per_em, lit(SIXTY_FOUR_BITS)), lit(QUARTER_BITS));
        Some(f_mul(f_next_power(f_max(f_div(radius_units, quantum), lit(ONE_BITS))), quantum))
    }
}

pub fn radius_bucket(radius_units: F32, units_per_em: F32) -> (r: Option<F32>)
    ensures
        r == bucket_of(radius_units, units_per_em),
{
    if units_per_em.times(F32 { bits: MAX_GRID_RADIUS_EM_BITS }).lt(radius_units) {
        return None;
    }
    let quantum: F32 = units_per_em.over(F32 { bits: SIXTY_FOUR_BITS }).max(F32 { bits: QUARTER_BITS });
    Some(radius_units.over(quantum).max(F32 { bits: ONE_BITS }).next_power_of_two().times(quantum))
}

/// Extent of a box along an axis.
pub open spec fn box_extent(bounds: [F32; 4], axis: int) -> F32 {
    f_sub(bounds[axis + 2], bounds[axis])
}

/// Width over height of a box, square-rooted; small extents count as one unit.
#[verifier::opaque]
pub open spec fn box_aspect(bounds: [F32; 4]) -> F32 {
    f_sqrt(f_div(f_max(box_extent(bounds, 0), lit(ONE_BITS)), f_max(box_extent(bounds, 1), lit(ONE_BITS))))
}

/// A count of cells from 1 to 32.
pub open spec fn cell_count(x: F32) -> u16 {
    saturate(x, round_int(x), 1, 32) as u16
}

pub open spec fn grid_columns(bounds: [F32; 4]) -> u16 {
    cell_count(f_mul(lit(EIGHT_BITS), box_aspect(bounds)))
}

pub open spec fn grid_rows(bounds: [F32; 4]) -> u16 {
    cell_count(f_div(lit(EIGHT_BITS), box_aspect(bounds)))
}

/// The size of a cell along an axis.
pub open spec fn cell_size(bounds: [F32; 4], axis: int, count: u16) -> F32 {
    f_div(f_max(box_extent(bounds, axis), lit(EPSILON_BITS)), f_from_int(count as int))
}

/// The edge of a column or row.
#[verifier::opaque]
pub open spec fn cell_edge(bounds: [F32; 4], axis: int, count: u16, k: int) -> F32 {
    f_add(bounds[axis], f_mul(f_from_int(k), cell_size(bounds, axis, count)))
}

/// The box of a cell.
pub open spec fn cell_box(bounds: [F32; 4], columns: u16, rows: u16, x: int, y: int) -> [F32; 4] {
    [
        cell_edge(bounds, 0, columns, x),
        cell_edge(bounds, 1, rows, y),
        cell_edge(bounds, 0, columns, x + 1),
        cell_edge(bounds, 1, rows, y + 1),
    ]
}

/// A piece's box comes within the radius of a cell.
#[verifier::opaque]
pub open spec fn near_cell(piece: BoundaryPiece, cell: [F32; 4], radius: F32) -> bool {
    let b = hull_bounds(piece.curve);
    &&& f_le(f_sub(cell[0], radius), b[2])
    &&& f_le(b[0], f_add(cell[2], radius))
    &&& f_le(f_sub(cell[1], radius), b[3])
    &&& f_le(b[1], f_add(cell[3], radius))
}

/// Those of the first `n` pieces that come near a cell, in order.
pub open spec fn cell_members(pieces: Seq<BoundaryPiece>, cell: [F32; 4], radius: F32, n: nat) -> Seq<u32>
    decreases n,
{
    if n == 0 {
        Seq::empty()
    } else {
        let before = cell_members(pieces, cell, radius, (n - 1) as nat);
        if near_cell(pieces[n - 1], cell, radius) {
            before.push((n - 1) as u32)
        } else {
            before
        }
    }
}

/// The members of the `k`-th cell, row by row.
pub open spec fn members_of(pieces: Seq<BoundaryPiece>, bounds: [F32; 4], columns: u16, rows: u16, radius: F32, k: int) -> Seq<
    u32,
> {
    cell_members(
        pieces,
        cell_box(bounds, columns, rows, k % columns as int, k / columns as int),
        radius,
        pieces.len(),
    )
}

/// The members of the first `cells` cells, one after another.
pub open spec fn grid_candidates(
    pieces: Seq<BoundaryPiece>,
    bounds: [F32; 4],
    columns: u16,
    rows: u16,
    radius: F32,
    cells: nat,
) -> Seq<u32>
    decreases cells,
{
    if cells == 0 {
        Seq::empty()
    } else {
        grid_candidates(pieces, bounds, columns, rows, radius, (cells - 1) as nat) + members_of(
            pieces,
            bounds,
            columns,
            rows,
            radius,
            cells - 1,
        )
    }
}

/// Every cell has all the pieces.
pub open spec fn excludes_nothing(
    pieces: Seq<BoundaryPiece>,
    bounds: [F32; 4],
    columns: u16,
    rows: u16,
    radius: F32,
    cells: int,
) -> bool {
    forall|k: int|
        0 <= k < cells ==> (#[trigger] members_of(pieces, bounds, columns, rows, radius, k)).len() == pieces.len()
}

/// A grid is the one for these pieces.
#[verifier::opaque]
pub open spec fn is_grid_for(
    grid: DistanceGrid,
    pieces: Seq<BoundaryPiece>,
    bounds: [F32; 4],
    radius: F32,
    units_per_em: F32,
) -> bool {
    match bucket_of(radius, units_per_em) {
        None => {
            &&& grid.bounds == bounds
            &&& grid.columns == 1
            &&& grid.rows == 1
            &&& grid.radius == radius
            &&& grid.offsets@ == seq![0u32, 0u32]
            &&& grid.candidates@ == Seq::<u32>::empty()
            &&& grid.brute_force
        },
        Some(bucket) => {
            let columns = grid_columns(bounds);
            let rows = grid_rows(bounds);
            let cells = columns * rows;
            &&& grid.bounds == bounds
            &&& grid.columns == columns
            &&& grid.rows == rows
            &&& grid.radius == bucket
            &&& grid.candidates@ == grid_candidates(pieces, bounds, columns, rows, bucket, cells as nat)
            &&& grid.offsets@.len() == cells + 1
            &&& forall|k: int|
                0 <= k <= cells ==> #[trigger] grid.offsets@[k] == grid_candidates(
                    pieces,
                    bounds,
                    columns,
                    rows,
                    bucket,
                    k as nat,
                ).len()
            &&& grid.brute_force == excludes_nothing(pieces, bounds, columns, rows, bucket, cells)
        },
    }
}

proof fn lemma_members_len(pieces: Seq<BoundaryPiece>, cell: [F32; 4], radius: F32, n: nat)
    ensures
        cell_members(pieces, cell, radius, n).len() <= n,
    decreases n,
{
    if n > 0 {
        lemma_members_len(pieces, cell, radius, (n - 1) as nat);
    }
}

fn extent_of(bounds: &[F32; 4], axis: usize) -> (r: F32)
    requires
        axis < 2,
    ensures
        r == box_extent(*bounds, axis as int),
{
    bounds[axis + 2].minus(bounds[axis])
}

fn aspect_of(bounds: &[F32; 4]) -> (r: F32)
    ensures
        r == box_aspect(*bounds),
{
    reveal(box_aspect);
    let one = F32 { bits: ONE_BITS };
    extent_of(bounds, 0).max(one).over(extent_of(bounds, 1).max(one)).sqrt()
}

fn count_of(x: F32) -> (r: u16)
    ensures
        r == cell_count(x),
        r <= 32,
{
    let whole: i64 = x.round_i64();
    if x.is_nan() {
        0
    } else if whole < 1 {
        1
    } else if whole > 32 {
        32
    } else {
        whole as u16
    }
}

fn edge_of(bounds: &[F32; 4], axis: usize, size: F32, k: u32, Ghost(count): Ghost<u16>) -> (r: F32)
    requires
        axis < 2,
        size == cell_size(*bounds, axis as int, count),
    ensures
        r == cell_edge(*bounds, axis as int, count, k as int),
{
    reveal(cell_edge);
    bounds[axis].plus(F32::from_i64(k as i64).times(size))
}

fn size_of_cell(bounds: &[F32; 4], axis: usize, count: u16) -> (r: F32)
    requires
        axis < 2,
    ensures
        r == cell_size(*bounds, axis as int, count),
{
    extent_of(bounds, axis).max(F32 { bits: EPSILON_BITS }).over(F32::from_i64(count as i64))
}

fn is_near(piece: &BoundaryPiece, cell: &[F32; 4], radius: F32) -> (r: bool)
    ensures
        r == near_cell(*piece, *cell, radius),
{
    reveal(near_cell);
    let b: [F32; 4] = curve_bounds(&piece.curve);
    cell[0].minus(radius).le(b[2]) && b[0].le(cell[2].plus(radius)) && cell[1].minus(radius).le(b[3]) && b[1].le(
        cell[3].plus(radius),
    )
}

/// Appends the pieces near a cell; tells how many.
fn fill_cell(pieces: &[BoundaryPiece], cell: &[F32; 4], radius: F32, out: &mut Vec<u32>) -> (added: u32)
    requires
        pieces.len() <= 0x3f_ffff,
    ensures
        final(out)@ == old(out)@ + cell_members(pieces@, *cell, radius, pieces@.len()),
        added == cell_members(pieces@, *cell, radius, pieces@.len()).len(),
{
    let ghost before = out@;
    let mut i: usize = 0;
    let mut added: u32 = 0;
    assert(before + cell_members(pieces@, *cell, radius, 0) =~= before);
    while i < pieces.len()
        invariant
            i <= pieces.len() <= 0x3f_ffff,
            out@ == before + cell_members(pieces@, *cell, radius, i as nat),
            added == cell_members(pieces@, *cell, radius, i as nat).len(),
            added <= i,
        decreases pieces.len() - i,
    {
        if is_near(&pieces[i], cell, radius) {
            out.push(i as u32);
            added = added + 1;
            assert(out@ =~= before + cell_members(pieces@, *cell, radius, (i + 1) as nat));
        }
        i = i + 1;
    }
    added
}

/// Sorts boundary pieces into a grid over the glyph's box, each into all the
/// cells that it may come within the radius of.
pub fn build_distance_grid(pieces: &[BoundaryPiece], bounds: [F32; 4], radius: F32, units_per_em: F32) -> (r: DistanceGrid)
    requires
        pieces.len() <= 0x3f_ffff,
    ensures
        is_grid_for(r, pieces@, bounds, radius, units_per_em),
        r.offsets@.len() <= 1025,
        r.candidates@.len() <= 1024 * pieces@.len(),
{
    reveal(is_grid_for);
    let radius: F32 = match radius_bucket(radius, units_per_em) {
        Some(bucket) => bucket,
        None => {
            let mut offsets: Vec<u32> = Vec::new();
            offsets.push(0);
            offsets.push(0);
            assert(offsets@ =~= seq![0u32, 0u32]);
            let candidates: Vec<u32> = Vec::new();
            assert(candidates@ =~= Seq::<u32>::empty());
            return DistanceGrid { bounds, columns: 1, rows: 1, radius, offsets, candidates, brute_force: true };
        },
    };
    let aspect: F32 = aspect_of(&bounds);
    let eight = F32 { bits: EIGHT_BITS };
    let columns: u16 = count_of(eight.times(aspect));
    let rows: u16 = count_of(eight.over(aspect));
    let cw: F32 = size_of_cell(&bounds, 0, columns);
    let ch: F32 = size_of_cell(&bounds, 1, rows);
    assert(columns * rows <= 1024) by (nonlinear_arith)
        requires
            0 <= columns <= 32,
            0 <= rows <= 32,
    ;
    let cells: u32 = columns as u32 * rows as u32;
    let mut offsets: Vec<u32> = Vec::new();
    let mut candidates: Vec<u32> = Vec::new();
    let mut brute_force: bool = true;
    offsets.push(0);
    let mut k: u32 = 0;
    assert(candidates@ =~= grid_candidates(pieces@, bounds, columns, rows, radius, 0));
    assert(0 * pieces@.len() == 0) by (nonlinear_arith);
    while k < cells
        invariant
            k <= cells <= 1024,
            cells == columns * rows,
            columns <= 32,
            pieces.len() <= 0x3f_ffff,
            cw == cell_size(bounds, 0, columns),
            ch == cell_size(bounds, 1, rows),
            candidates@ == grid_candidates(pieces@, bounds, columns, rows, radius, k as nat),
            candidates@.len() <= k * pieces@.len(),
            offsets@.len() == k + 1,
            forall|j: int|
                0 <= j <= k ==> #[trigger] offsets@[j] == grid_candidates(
                    pieces@,
                    bounds,
                    columns,
                    rows,
                    radius,
                    j as nat,
                ).len(),
            brute_force == excludes_nothing(pieces@, bounds, columns, rows, radius, k as int),
        decreases cells - k,
    {
        assert(columns > 0) by (nonlinear_arith)
            requires
                columns * rows > 0,
                columns >= 0,
        ;
        let x: u32 = k % columns as u32;
        let y: u32 = k / columns as u32;
        let cell: [F32; 4] = [
            edge_of(&bounds, 0, cw, x, Ghost(columns)),
            edge_of(&bounds, 1, ch, y, Ghost(rows)),
            edge_of(&bounds, 0, cw, x + 1, Ghost(columns)),
            edge_of(&bounds, 1, ch, y + 1, Ghost(rows)),
        ];
        let added: u32 = fill_cell(pieces, &cell, radius, &mut candidates);
        proof {
            let m = members_of(pieces@, bounds, columns, rows, radius, k as int);
            lemma_members_len(pieces@, cell, radius, pieces@.len());
            assert(m.len() == added);
            let n = pieces@.len() as int;
            assert(k * n + n == (k + 1) * n) by (nonlinear_arith);
            assert((k + 1) * n <= 1024 * 0x3f_ffff) by (nonlinear_arith)
                requires
                    0 <= k < 1024,
                    0 <= n <= 0x3f_ffff,
            ;
            assert(candidates@ == grid_candidates(pieces@, bounds, columns, rows, radius, (k + 1) as nat));
            assert(brute_force && added == pieces@.len() <==> excludes_nothing(
                pieces@,
                bounds,
                columns,
                rows,
                radius,
                k + 1,
            ));
        }
        brute_force = brute_force && added as usize == pieces.len();
        offsets.push(candidates.len() as u32);
        k = k + 1;
    }
    assert(k * pieces@.len() <= 1024 * pieces@.len()) by (nonlinear_arith)
        requires
            k <= 1024,
            pieces@.len() >= 0,
    ;
    DistanceGrid { bounds, columns, rows, radius, offsets, candidates, brute_force }
}

impl DistanceGrid {
    /// The cells are laid out one after another, and there is at least one.
    pub open spec fn wf(self) -> bool {
        &&& self.columns > 0
        &&& self.rows > 0
        &&& self.offsets@.len() == self.columns * self.rows + 1
        &&& forall|i: int, j: int| 0 <= i <= j < self.offsets@.len() ==> self.offsets@[i] <= self.offsets@[j]
        &&& forall|i: int| 0 <= i < self.offsets@.len() ==> #[trigger] self.offsets@[i] <= self.candidates@.len()
    }

    /// The point lies outside the grid's box, or the grid excludes nothing.
    pub open spec fn needs_all(self, p: [F32; 2]) -> bool {
        ||| self.brute_force
        ||| f_lt(p[0], self.bounds[0])
        ||| f_lt(p[1], self.bounds[1])
        ||| f_lt(self.bounds[2], p[0])
        ||| f_lt(self.bounds[3], p[1])
    }

    /// The column or row that a coordinate falls in.
    pub open spec fn cell_along(self, axis: int, v: F32, count: u16) -> int {
        let extent = f_max(box_extent(self.bounds, axis), lit(EPSILON_BITS));
        cell_of(f_mul(f_div(f_sub(v, self.bounds[axis]), extent), f_from_int(count as int)), count as int)
    }

    /// The cell that a point falls in.
    pub open spec fn cell_at(self, p: [F32; 2]) -> int {
        self.cell_along(1, p[1], self.rows) * self.columns + self.cell_along(0, p[0], self.columns)
    }

    /// The box of the cell that a point falls in.
    pub open spec fn box_at(self, p: [F32; 2]) -> [F32; 4] {
        cell_box(
            self.bounds,
            self.columns,
            self.rows,
            self.cell_along(0, p[0], self.columns),
            self.cell_along(1, p[1], self.rows),
        )
    }

    fn locate(&self, axis: usize, v: F32, count: u16) -> (r: u32)
        requires
            axis < 2,
            count > 0,
        ensures
            r == self.cell_along(axis as int, v, count),
            r < count,
    {
        let extent: F32 = extent_of(&self.bounds, axis).max(F32 { bits: EPSILON_BITS });
        v.minus(self.bounds[axis]).over(extent).times(F32::from_i64(count as i64)).cell(count as u32)
    }

    /// Outside the represented domain the shader must use every boundary
    /// piece. Inside it, this returns the conservative cell candidate list.
    pub fn candidates_at(&self, point: [F32; 2], piece_count: usize) -> (r: GridCandidates<'_>)
        requires
            self.brute_force || self.wf(),
            piece_count <= u32::MAX,
        ensures
            match r {
                GridCandidates::All(range) => self.needs_all(point) && range.start == 0 && range.end == piece_count,
                GridCandidates::Slice(s) => {
                    let cell = self.cell_at(point);
                    &&& !self.needs_all(point)
                    &&& 0 <= cell < self.offsets@.len() - 1
                    &&& s@ == self.candidates@.subrange(self.offsets@[cell] as int, self.offsets@[cell + 1] as int)
                },
            },
    {
        if self.brute_force || point[0].lt(self.bounds[0]) || point[1].lt(self.bounds[1]) || self.bounds[2].lt(
            point[0],
        ) || self.bounds[3].lt(point[1]) {
            return GridCandidates::All(0..piece_count as u32);
        }
        let x: u32 = self.locate(0, point[0], self.columns);
        let y: u32 = self.locate(1, point[1], self.rows);
        proof {
            let c = self.columns as int;
            let rows = self.rows as int;
            assert(y * c + x < rows * c) by (nonlinear_arith)
                requires
                    0 <= x < c,
                    0 <= y < rows,
            ;
            assert(rows * c == c * rows) by (nonlinear_arith);
            assert(c * rows <= 0xffff * 0xffff) by (nonlinear_arith)
                requires
                    0 <= c <= 0xffff,
                    0 <= rows <= 0xffff,
            ;
            assert(0 <= y * c) by (nonlinear_arith)
                requires
                    0 <= y,
                    0 <= c,
            ;
        }
        let cell: usize = y as usize * self.columns as usize + x as usize;
        let start: usize = self.offsets[cell] as usize;
        let end: usize = self.offsets[cell + 1] as usize;
        GridCandidates::Slice(slice_subrange(self.candidates.as_slice(), start, end))
    }
}

proof fn lemma_candidates_grow(
    pieces: Seq<BoundaryPiece>,
    bounds: [F32; 4],
    columns: u16,
    rows: u16,
    radius: F32,
    a: nat,
    b: nat,
)
    requires
        a <= b,
    ensures
        grid_candidates(pieces, bounds, columns, rows, radius, a).len() <= grid_candidates(
            pieces,
            bounds,
            columns,
            rows,
            radius,
            b,
        ).len(),
        grid_candidates(pieces, bounds, columns, rows, radius, b).take(
            grid_candidates(pieces, bounds, columns, rows, radius, a).len() as int,
        ) == grid_candidates(pieces, bounds, columns, rows, radius, a),
    decreases b - a,
{
    let small = grid_candidates(pieces, bounds, columns, rows, radius, a);
    let large = grid_candidates(pieces, bounds, columns, rows, radius, b);
    if a < b {
        lemma_candidates_grow(pieces, bounds, columns, rows, radius, a, (b - 1) as nat);
        let mid = grid_candidates(pieces, bounds, columns, rows, radius, (b - 1) as nat);
        assert(large.take(small.len() as int) =~= mid.take(small.len() as int));
    } else {
        assert(large.take(small.len() as int) =~= small);
    }
}

/// A grid with cells is well formed, and the candidates between a cell's
/// offsets are exactly the pieces that come near the cell.
pub proof fn law_cells_hold_their_members(
    grid: DistanceGrid,
    pieces: Seq<BoundaryPiece>,
    bounds: [F32; 4],
    radius: F32,
    units_per_em: F32,
    k: int,
)
    requires
        is_grid_for(grid, pieces, bounds, radius, units_per_em),
        bucket_of(radius, units_per_em) is Some,
        0 <= k < grid.columns * grid.rows,
    ensures
        grid.wf(),
        grid.candidates@.subrange(grid.offsets@[k] as int, grid.offsets@[k + 1] as int) == members_of(
            pieces,
            bounds,
            grid.columns,
            grid.rows,
            grid.radius,
            k,
        ),
{
    reveal(is_grid_for);
    let c = grid.columns;
    let r = grid.rows;
    let cells = c * r;
    assert(c > 0 && r > 0) by (nonlinear_arith)
        requires
            c * r > 0,
            c >= 0,
            r >= 0,
    ;
    assert forall|i: int, j: int| 0 <= i <= j < grid.offsets@.len() implies grid.offsets@[i] <= grid.offsets@[j] by {
        lemma_candidates_grow(pieces, bounds, c, r, grid.radius, i as nat, j as nat);
    }
    assert forall|i: int| 0 <= i < grid.offsets@.len() implies #[trigger] grid.offsets@[i] <= grid.candidates@.len() by {
        lemma_candidates_grow(pieces, bounds, c, r, grid.radius, i as nat, cells as nat);
    }
    lemma_candidates_grow(pieces, bounds, c, r, grid.radius, (k + 1) as nat, cells as nat);
    let before = grid_candidates(pieces, bounds, c, r, grid.radius, k as nat);
    let m = members_of(pieces, bounds, c, r, grid.radius, k);
    let upto = grid_candidates(pieces, bounds, c, r, grid.radius, (k + 1) as nat);
    assert(upto == before + m);
    assert(grid.candidates@.subrange(before.len() as int, upto.len() as int) =~= upto.subrange(
        before.len() as int,
        upto.len() as int,
    ));
    assert(upto.subrange(before.len() as int, upto.len() as int) =~= m);
}

proof fn lemma_quantum(units_per_em: F32)
    requires
        units_per_em.finite(),
        !units_per_em.negative(),
    ensures
        ({
            let quantum = f_max(f_div(units_per_em, lit(SIXTY_FOUR_BITS)), lit(QUARTER_BITS));
            &&& !quantum.negative()
            &&& QUARTER_BITS <= quantum.unsigned() < INFINITY_BITS
        }),
{
    lemma_quotient_is_smaller(units_per_em, lit(SIXTY_FOUR_BITS));
}

/// A radius falls into a bucket that is at least as large.
pub proof fn law_buckets_hold_their_radii(radius: F32, units_per_em: F32)
    requires
        !radius.nan(),
        units_per_em.finite(),
        !units_per_em.negative(),
    ensures
        bucket_of(radius, units_per_em) matches Some(bucket) ==> f_le(radius, bucket),
{
    let quantum = f_max(f_div(units_per_em, lit(SIXTY_FOUR_BITS)), lit(QUARTER_BITS));
    lemma_quantum(units_per_em);
    if bucket_of(radius, units_per_em) is Some {
        lemma_one_is_neutral(units_per_em);
        let q = f_div(radius, quantum);
        let t = f_max(q, lit(ONE_BITS));
        lemma_quotient_sign(radius, quantum);
        assert(!t.nan() && !t.negative() && t.unsigned() >= ONE_BITS);
        let p = f_next_power(t);
        assert(!p.negative() && p.unsigned() % 0x80_0000 == 0 && t.unsigned() <= p.unsigned() <= INFINITY_BITS);
        if p.unsigned() == INFINITY_BITS {
            reveal(f_mul);
        } else if !radius.negative() {
            assert(f_le(q, p));
            lemma_power_covers_quotient(radius, quantum, p);
        } else {
            lemma_product_sign(p, quantum);
        }
    }
}

/// A grid that is not for every radius is for the radius that it was asked for.
pub proof fn law_grids_hold_their_radii(
    grid: DistanceGrid,
    pieces: Seq<BoundaryPiece>,
    bounds: [F32; 4],
    radius: F32,
    units_per_em: F32,
)
    requires
        is_grid_for(grid, pieces, bounds, radius, units_per_em),
        !radius.nan(),
        units_per_em.finite(),
        !units_per_em.negative(),
    ensures
        !grid.brute_force ==> f_le(radius, grid.radius),
{
    reveal(is_grid_for);
    law_buckets_hold_their_radii(radius, units_per_em);
}

/// A point lies in a cell's box.
pub open spec fn in_box(p: [F32; 2], cell: [F32; 4]) -> bool {
    f_le(cell[0], p[0]) && f_le(p[0], cell[2]) && f_le(cell[1], p[1]) && f_le(p[1], cell[3])
}

/// A piece's box comes within the radius of a point along both axes.
pub open spec fn near_point(piece: BoundaryPiece, p: [F32; 2], radius: F32) -> bool {
    let b = hull_bounds(piece.curve);
    &&& f_le(f_sub(p[0], radius), b[2])
    &&& f_le(b[0], f_add(p[0], radius))
    &&& f_le(f_sub(p[1], radius), b[3])
    &&& f_le(b[1], f_add(p[1], radius))
}

proof fn lemma_lower_edge(edge: F32, v: F32, radius: F32, high: F32)
    requires
        v.finite(),
        radius.finite(),
        f_le(edge, v),
        f_le(f_sub(v, radius), high),
    ensures
        f_le(f_sub(edge, radius), high),
{
    if edge.finite() {
        law_differences_are_monotone(edge, v, radius);
    } else {
        reveal(f_sub);
        reveal(f_add);
    }
}

proof fn lemma_upper_edge(edge: F32, v: F32, radius: F32, low: F32)
    requires
        v.finite(),
        radius.finite(),
        f_le(v, edge),
        f_le(low, f_add(v, radius)),
    ensures
        f_le(low, f_add(edge, radius)),
{
    if edge.finite() {
        law_sums_are_monotone(v, edge, radius);
    } else {
        reveal(f_add);
    }
}

/// The candidates of a cell are conservative: whatever piece comes within the
/// radius of some point of the cell's box is among them.
pub proof fn law_candidates_are_conservative(
    pieces: Seq<BoundaryPiece>,
    bounds: [F32; 4],
    columns: u16,
    rows: u16,
    radius: F32,
    k: int,
    p: [F32; 2],
    i: int,
)
    requires
        0 <= i < pieces.len() <= u32::MAX,
        radius.finite(),
        p[0].finite(),
        p[1].finite(),
        in_box(p, cell_box(bounds, columns, rows, k % columns as int, k / columns as int)),
        near_point(pieces[i], p, radius),
    ensures
        members_of(pieces, bounds, columns, rows, radius, k).contains(i as u32),
{
    reveal(near_cell);
    let cell = cell_box(bounds, columns, rows, k % columns as int, k / columns as int);
    let b = hull_bounds(pieces[i].curve);
    lemma_lower_edge(cell[0], p[0], radius, b[2]);
    lemma_upper_edge(cell[2], p[0], radius, b[0]);
    lemma_lower_edge(cell[1], p[1], radius, b[3]);
    lemma_upper_edge(cell[3], p[1], radius, b[1]);
    assert(near_cell(pieces[i], cell, radius));
    lemma_near_pieces_are_members(pieces, cell, radius, pieces.len(), i);
}

pub open spec fn finite_curve(c: QuadCurve) -> bool {
    &&& c.p1[0].finite() && c.p2[0].finite() && c.p3[0].finite()
    &&& c.p1[1].finite() && c.p2[1].finite() && c.p3[1].finite()
}

/// The curve's point at the parameter `a / b` is no farther than `radius` from a
/// coordinate along an axis, exactly. All terms carry a factor of `b` squared.
pub open spec fn within(c: QuadCurve, axis: int, a: int, b: int, v: F32, radius: F32) -> bool {
    let q = quadratic(c.p1[axis].value(), c.p2[axis].value(), c.p3[axis].value(), a, b);
    let w = b * b;
    (v.value() - radius.value()) * w <= q <= (v.value() + radius.value()) * w
}

/// A quadratic between its ends stays between the least and the greatest of its
/// control values.
proof fn lemma_quadratic_between(x: int, y: int, z: int, a: int, b: int, low: int, high: int)
    requires
        0 <= a <= b,
        low <= x <= high,
        low <= y <= high,
        low <= z <= high,
    ensures
        low * (b * b) <= quadratic(x, y, z, a, b) <= high * (b * b),
{
    let u = b - a;
    let p = u * u;
    let q = a * u;
    let r = a * a;
    assert(p >= 0 && q >= 0 && r >= 0 && b * b == p + 2 * q + r) by (nonlinear_arith)
        requires
            u == b - a,
            p == u * u,
            q == a * u,
            r == a * a,
            0 <= a,
            0 <= u,
    ;
    assert(low * p <= x * p <= high * p) by (nonlinear_arith)
        requires
            low <= x <= high,
            p >= 0,
    ;
    assert(low * q <= y * q <= high * q) by (nonlinear_arith)
        requires
            low <= y <= high,
            q >= 0,
    ;
    assert(low * r <= z * r <= high * r) by (nonlinear_arith)
        requires
            low <= z <= high,
            r >= 0,
    ;
    assert(low * (p + 2 * q + r) == low * p + 2 * (low * q) + low * r) by (nonlinear_arith);
    assert(high * (p + 2 * q + r) == high * p + 2 * (high * q) + high * r) by (nonlinear_arith);
}

proof fn lemma_axis_near(c: QuadCurve, axis: int, a: int, b: int, v: F32, radius: F32)
    requires
        axis == 0 || axis == 1,
        c.p1[axis].finite(),
        c.p2[axis].finite(),
        c.p3[axis].finite(),
        v.finite(),
        radius.finite(),
        0 <= a <= b,
        b > 0,
        within(c, axis, a, b, v, radius),
    ensures
        f_le(f_sub(v, radius), c.high(axis)),
        f_le(c.low(axis), f_add(v, radius)),
{
    let x = c.p1[axis];
    let y = c.p2[axis];
    let z = c.p3[axis];
    let low = c.low(axis);
    let high = c.high(axis);
    lemma_order_is_value_order(x, y);
    lemma_order_is_value_order(y, z);
    lemma_order_is_value_order(x, z);
    lemma_quadratic_between(x.value(), y.value(), z.value(), a, b, low.value(), high.value());
    let q = quadratic(x.value(), y.value(), z.value(), a, b);
    let w = b * b;
    let near = v.value() - radius.value();
    let far = v.value() + radius.value();
    assert(w > 0) by (nonlinear_arith)
        requires
            w == b * b,
            b > 0,
    ;
    let top = high.value();
    let bottom = low.value();
    assert(near <= top) by (nonlinear_arith)
        requires
            near * w <= q,
            q <= top * w,
            w > 0,
    ;
    assert(bottom <= far) by (nonlinear_arith)
        requires
            bottom * w <= q,
            q <= far * w,
            w > 0,
    ;
    law_differences_keep_order(v, radius, high);
    law_sums_keep_order(v, radius, low);
}

/// What a lookup leaves out is too far away. Where the grid does not answer with
/// every piece, a piece with any point within the grid's radius, along both axes, of
/// any point `q` of the box of the cell that `p` is looked up in is among the
/// candidates.
pub proof fn law_pieces_near_the_cell_are_candidates(
    grid: DistanceGrid,
    pieces: Seq<BoundaryPiece>,
    bounds: [F32; 4],
    radius: F32,
    units_per_em: F32,
    p: [F32; 2],
    q: [F32; 2],
    i: int,
    a: int,
    b: int,
)
    requires
        is_grid_for(grid, pieces, bounds, radius, units_per_em),
        !grid.needs_all(p),
        0 <= i < pieces.len() <= u32::MAX,
        finite_curve(pieces[i].curve),
        q[0].finite(),
        q[1].finite(),
        grid.radius.finite(),
        in_box(q, grid.box_at(p)),
        0 <= a <= b,
        b > 0,
        within(pieces[i].curve, 0, a, b, q[0], grid.radius),
        within(pieces[i].curve, 1, a, b, q[1], grid.radius),
    ensures
        ({
            let cell = grid.cell_at(p);
            &&& 0 <= cell < grid.offsets@.len() - 1
            &&& grid.candidates@.subrange(grid.offsets@[cell] as int, grid.offsets@[cell + 1] as int).contains(i as u32)
        }),
{
    reveal(is_grid_for);
    let x = grid.cell_along(0, p[0], grid.columns);
    let y = grid.cell_along(1, p[1], grid.rows);
    let cell = grid.cell_at(p);
    let c = grid.columns as int;
    let rows = grid.rows as int;
    assert(0 <= x < c && 0 <= y < rows) by {
        reveal(cell_of);
    }
    assert(0 <= y * c && y * c + x < c * rows) by (nonlinear_arith)
        requires
            0 <= x < c,
            0 <= y < rows,
    ;
    assert(cell % c == x && cell / c == y) by {
        vstd::arithmetic::div_mod::lemma_fundamental_div_mod_converse(cell, c, y, x);
    }
    lemma_axis_near(pieces[i].curve, 0, a, b, q[0], grid.radius);
    lemma_axis_near(pieces[i].curve, 1, a, b, q[1], grid.radius);
    law_candidates_are_conservative(pieces, bounds, grid.columns, grid.rows, grid.radius, cell, q, i);
    law_cells_hold_their_members(grid, pieces, bounds, radius, units_per_em, cell);
}

/// A lookup is conservative: where the grid does not answer with every piece, each
/// piece with a point within the grid's radius of the point, along both axes, is among
/// the candidates, and so is each within that distance. Rounding can put a point on a
/// cell's edge into the cell beside it, from which the radius is not quite kept; such
/// points are left out here (see [`crate::border::lookup`]).
pub proof fn law_nearby_pieces_are_candidates(
    grid: DistanceGrid,
    pieces: Seq<BoundaryPiece>,
    bounds: [F32; 4],
    radius: F32,
    units_per_em: F32,
    p: [F32; 2],
    i: int,
    a: int,
    b: int,
)
    requires
        is_grid_for(grid, pieces, bounds, radius, units_per_em),
        !grid.needs_all(p),
        0 <= i < pieces.len() <= u32::MAX,
        finite_curve(pieces[i].curve),
        p[0].finite(),
        p[1].finite(),
        grid.radius.finite(),
        in_box(p, grid.box_at(p)),
        0 <= a <= b,
        b > 0,
        within(pieces[i].curve, 0, a, b, p[0], grid.radius),
        within(pieces[i].curve, 1, a, b, p[1], grid.radius),
    ensures
        ({
            let cell = grid.cell_at(p);
            &&& 0 <= cell < grid.offsets@.len() - 1
            &&& grid.candidates@.subrange(grid.offsets@[cell] as int, grid.offsets@[cell + 1] as int).contains(i as u32)
        }),
{
    law_pieces_near_the_cell_are_candidates(grid, pieces, bounds, radius, units_per_em, p, p, i, a, b);
}

proof fn lemma_near_pieces_are_members(pieces: Seq<BoundaryPiece>, cell: [F32; 4], radius: F32, n: nat, i: int)
    requires
        0 <= i < n <= pieces.len() <= u32::MAX,
        near_cell(pieces[i], cell, radius),
    ensures
        cell_members(pieces, cell, radius, n).contains(i as u32),
    decreases n,
{
    let before = cell_members(pieces, cell, radius, (n - 1) as nat);
    let all = cell_members(pieces, cell, radius, n);
    if i == n - 1 {
        assert(all[before.len() as int] == i as u32);
    } else {
        lemma_near_pieces_are_members(pieces, cell, radius, (n - 1) as nat, i);
        let at = choose|at: int| 0 <= at < before.len() && before[at] == i as u32;
        assert(all[at] == i as u32);
    }
}

}
