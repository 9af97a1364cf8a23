//! How far rounding takes a point from the cell that it is looked up in.
use vstd::prelude::*;
use vstd::arithmetic::power2::{lemma2_to64, lemma_pow2_adds, lemma_pow2_strictly_increases, pow2};
use crate::border::certify::{BoundaryPiece, EPSILON_BITS};
use crate::border::curve::lit;
use crate::border::grid::{
    DistanceGrid, box_extent, cell_edge, cell_size, finite_curve, grid_columns, grid_rows, is_grid_for,
    law_pieces_near_the_cell_are_candidates, within,
};
use crate::border::rational::quadratic;
use crate::float32::{
    F32, ONE_BITS, abs_int, cell_of, f_add, f_div, f_from_int, f_le, f_lt, f_max, f_mul, f_sub, floor_int,
    law_differences_are_monotone, law_products_are_monotone, law_small_integers_are_exact, law_sums_are_monotone,
    law_sums_commute, lemma_difference_error, lemma_magnitude_nonneg, lemma_order_is_value_order, lemma_product_error,
    lemma_quotient_error, lemma_rounding_passes_no_pattern, lemma_sum_error, magnitude,
};
use crate::outline::QuadCurve;

verus! {

proof fn lemma_sum_below(acu: int, cdu: int, wqc: int, wku: int, wu: int, cw: int, cu: int, w: int, u: int)
    requires
        wqc * 0x7f_ffff <= wku * 0x80_0000 + 0x80_0000 * w,
        cdu * 0x7f_ffff <= wqc * 0x80_0000 + 0x80_0000 * cw,
        acu * 0x7f_ffff <= cdu * 0x80_0000 + 0x80_0000 * cu,
        0 <= cw <= 32 * w,
        0 <= cu <= 32 * u,
        wu >= 0x1_0000_0000_0000_0000 * w,
        wu >= 0x1_0000_0000_0000_0000 * u,
        w >= 0,
        u >= 0,
    ensures
        acu * 0x1f_ffff_4000_017f_ffff <= wku * 0x20_0000_0000_0000_0000 + wu * 0x4000_0000_0000,
{
    assert(cdu * 0x3fff_ff00_0001 <= wku * 0x4000_0000_0000 + 0x4000_0000_0000 * w + 0x3fff_ff80_0000 * cw);
    assert(cdu * 0x3fff_ff00_0001 <= wku * 0x4000_0000_0000 + 0x8_4000_0000_0000 * w);
    assert(acu * 0x1f_ffff_4000_017f_ffff <= 0x80_0000 * (cdu * 0x3fff_ff00_0001) + 0x1f_ffff_8000_0080_0000 * cu);
    assert(0x1f_ffff_8000_0080_0000 * cu <= 0x400_0000_0000_0000_0000 * u);
}

proof fn lemma_sum_above(acu: int, cdu: int, wqc: int, wku: int, wu: int, cw: int, cu: int, w: int, u: int)
    requires
        wku * 0x80_0000 <= wqc * 0x80_0001 + 0x80_0000 * w,
        wqc * 0x80_0000 <= cdu * 0x80_0001 + 0x80_0000 * cw,
        cdu * 0x80_0000 <= acu * 0x80_0001 + 0x80_0000 * cu,
        cw <= 32 * w,
        cu <= 32 * u,
        wu >= 0x1_0000_0000_0000_0000 * w,
        wu >= 0x1_0000_0000_0000_0000 * u,
        w >= 0,
        u >= 0,
    ensures
        wku * 0x20_0000_0000_0000_0000 <= acu * 0x20_0000_c000_0180_0001 + wu * 0x4000_0000_0000,
{
    assert(wku * 0x4000_0000_0000 <= cdu * 0x4000_0100_0001 + 0x4000_0080_0000 * cw + 0x4000_0000_0000 * w);
    assert(wku * 0x4000_0000_0000 <= cdu * 0x4000_0100_0001 + 0x8_8000_0000_0000 * w);
    assert((cdu * 0x4000_0100_0001) * 0x80_0000 <= acu * 0x20_0000_c000_0180_0001 + 0x20_0000_8000_0080_0000 * cu);
    assert(0x20_0000_8000_0080_0000 * cu <= 0x420_0000_0000_0000_0000 * u);
}

/// A quotient times a count is at most `k`: so is the dividend, but for what
/// rounding adds.
proof fn lemma_position_below(a: int, d: int, q: int, t: int, u: int, w: int, count: int, k: int)
    requires
        a * 0x7f_ffff <= d * 0x80_0000 + 0x80_0000,
        (d * u) * 0x7f_ffff <= (q * w) * 0x80_0000 + 0x80_0000 * w,
        (q * count) * 0x7f_ffff <= t * 0x80_0000 + 0x80_0000,
        t <= k * u,
        1 <= count <= 32,
        0 <= q,
        0x1_0000_0000_0000_0000 <= u,
        0x1_0000_0000_0000_0000 <= w,
    ensures
        (a * count) * 0x1f_ffff_4000_017f_ffff <= (w * k) * 0x20_0000_0000_0000_0000 + w * 0x4000_0000_0000,
{
    let qc = q * count;
    let ku = k * u;
    let wqc = w * qc;
    let wku = w * ku;
    let du = d * u;
    let qw = q * w;
    let cdu = count * du;
    let cw = count * w;
    let cu = count * u;
    let acu = a * cu;
    let wu = w * u;
    assert(qc * 0x7f_ffff <= ku * 0x80_0000 + 0x80_0000);
    assert(wqc * 0x7f_ffff <= wku * 0x80_0000 + 0x80_0000 * w) by (nonlinear_arith)
        requires
            qc * 0x7f_ffff <= ku * 0x80_0000 + 0x80_0000,
            wqc == w * qc,
            wku == w * ku,
            w >= 0,
    ;
    assert(cdu * 0x7f_ffff <= (count * qw) * 0x80_0000 + 0x80_0000 * cw) by (nonlinear_arith)
        requires
            du * 0x7f_ffff <= qw * 0x80_0000 + 0x80_0000 * w,
            cdu == count * du,
            cw == count * w,
            count >= 0,
    ;
    assert(count * (q * w) == w * (q * count)) by (nonlinear_arith);
    assert(cw <= 32 * w) by (nonlinear_arith)
        requires
            cw == count * w,
            count <= 32,
            w >= 0,
    ;
    assert(cu <= 32 * u && cu >= 0) by (nonlinear_arith)
        requires
            cu == count * u,
            1 <= count <= 32,
            u >= 0,
    ;
    assert(acu * 0x7f_ffff <= (d * cu) * 0x80_0000 + 0x80_0000 * cu) by (nonlinear_arith)
        requires
            a * 0x7f_ffff <= d * 0x80_0000 + 0x80_0000,
            acu == a * cu,
            cu >= 0,
    ;
    assert(d * (count * u) == count * (d * u)) by (nonlinear_arith);
    assert(wu >= 0x1_0000_0000_0000_0000 * w && wu >= 0x1_0000_0000_0000_0000 * u) by (nonlinear_arith)
        requires
            wu == w * u,
            0x1_0000_0000_0000_0000 <= u,
            0x1_0000_0000_0000_0000 <= w,
    ;
    let ac = a * count;
    let wk = w * k;
    assert(acu == u * ac) by (nonlinear_arith)
        requires
            acu == a * (count * u),
            ac == a * count,
    ;
    assert(wku == u * wk) by (nonlinear_arith)
        requires
            wku == w * (k * u),
            wk == w * k,
    ;
    assert(wu == u * w) by (nonlinear_arith)
        requires
            wu == w * u,
    ;
    let x = ac * 0x1f_ffff_4000_017f_ffff;
    let y = wk * 0x20_0000_0000_0000_0000 + w * 0x4000_0000_0000;
    assert(d * cu == cdu);
    assert(count * qw == wqc);
    assert(cw >= 0) by (nonlinear_arith)
        requires
            cw == count * w,
            count >= 0,
            w >= 0,
    ;
    lemma_sum_below(acu, cdu, wqc, wku, wu, cw, cu, w, u);
    assert(acu * 0x1f_ffff_4000_017f_ffff <= wku * 0x20_0000_0000_0000_0000 + wu * 0x4000_0000_0000);
    assert(u * x <= u * y) by (nonlinear_arith)
        requires
            (u * ac) * 0x1f_ffff_4000_017f_ffff <= (u * wk) * 0x20_0000_0000_0000_0000 + (u * w) * 0x4000_0000_0000,
            x == ac * 0x1f_ffff_4000_017f_ffff,
            y == wk * 0x20_0000_0000_0000_0000 + w * 0x4000_0000_0000,
    ;
    assert(x <= y) by (nonlinear_arith)
        requires
            u * x <= u * y,
            u > 0,
    ;
}

/// A quotient times a count is at least `k`: so is the dividend, but for what
/// rounding takes off.
proof fn lemma_position_above(a: int, d: int, q: int, t: int, u: int, w: int, count: int, k: int)
    requires
        d * 0x80_0000 <= a * 0x80_0001 + 0x80_0000,
        (q * w) * 0x80_0000 <= (d * u) * 0x80_0001 + 0x80_0000 * w,
        t * 0x80_0000 <= (q * count) * 0x80_0001 + 0x80_0000,
        k * u <= t,
        1 <= count <= 32,
        0x1_0000_0000_0000_0000 <= u,
        0x1_0000_0000_0000_0000 <= w,
    ensures
        (w * k) * 0x20_0000_0000_0000_0000 <= (a * count) * 0x20_0000_c000_0180_0001 + w * 0x4000_0000_0000,
{
    let qc = q * count;
    let ku = k * u;
    let wqc = w * qc;
    let wku = w * ku;
    let du = d * u;
    let qw = q * w;
    let cdu = count * du;
    let cw = count * w;
    let cu = count * u;
    let acu = a * cu;
    let wu = w * u;
    assert(ku * 0x80_0000 <= qc * 0x80_0001 + 0x80_0000);
    assert(wku * 0x80_0000 <= wqc * 0x80_0001 + 0x80_0000 * w) by (nonlinear_arith)
        requires
            ku * 0x80_0000 <= qc * 0x80_0001 + 0x80_0000,
            wqc == w * qc,
            wku == w * ku,
            w >= 0,
    ;
    assert((count * qw) * 0x80_0000 <= cdu * 0x80_0001 + 0x80_0000 * cw) by (nonlinear_arith)
        requires
            qw * 0x80_0000 <= du * 0x80_0001 + 0x80_0000 * w,
            cdu == count * du,
            cw == count * w,
            count >= 0,
    ;
    assert(count * (q * w) == w * (q * count)) by (nonlinear_arith);
    assert(cw <= 32 * w) by (nonlinear_arith)
        requires
            cw == count * w,
            count <= 32,
            w >= 0,
    ;
    assert(cu <= 32 * u && cu >= 0) by (nonlinear_arith)
        requires
            cu == count * u,
            1 <= count <= 32,
            u >= 0,
    ;
    assert((d * cu) * 0x80_0000 <= acu * 0x80_0001 + 0x80_0000 * cu) by (nonlinear_arith)
        requires
            d * 0x80_0000 <= a * 0x80_0001 + 0x80_0000,
            acu == a * cu,
            cu >= 0,
    ;
    assert(d * (count * u) == count * (d * u)) by (nonlinear_arith);
    assert(wu >= 0x1_0000_0000_0000_0000 * w && wu >= 0x1_0000_0000_0000_0000 * u) by (nonlinear_arith)
        requires
            wu == w * u,
            0x1_0000_0000_0000_0000 <= u,
            0x1_0000_0000_0000_0000 <= w,
    ;
    let ac = a * count;
    let wk = w * k;
    assert(acu == u * ac) by (nonlinear_arith)
        requires
            acu == a * (count * u),
            ac == a * count,
    ;
    assert(wku == u * wk) by (nonlinear_arith)
        requires
            wku == w * (k * u),
            wk == w * k,
    ;
    assert(wu == u * w) by (nonlinear_arith)
        requires
            wu == w * u,
    ;
    let x = wk * 0x20_0000_0000_0000_0000;
    let y = ac * 0x20_0000_c000_0180_0001 + w * 0x4000_0000_0000;
    assert(d * cu == cdu);
    assert(count * qw == wqc);
    lemma_sum_above(acu, cdu, wqc, wku, wu, cw, cu, w, u);
    assert(wku * 0x20_0000_0000_0000_0000 <= acu * 0x20_0000_c000_0180_0001 + wu * 0x4000_0000_0000);
    assert(u * x <= u * y) by (nonlinear_arith)
        requires
            (u * wk) * 0x20_0000_0000_0000_0000 <= (u * ac) * 0x20_0000_c000_0180_0001 + (u * w) * 0x4000_0000_0000,
            x == wk * 0x20_0000_0000_0000_0000,
            y == ac * 0x20_0000_c000_0180_0001 + w * 0x4000_0000_0000,
    ;
    assert(x <= y) by (nonlinear_arith)
        requires
            u * x <= u * y,
            u > 0,
    ;
}

/// An edge is no farther from the start than its position, but for what rounding
/// adds.
proof fn lemma_edge_above(a: int, w: int, count: int, k: int, s: int, g: int)
    requires
        (a * count) * 0x1f_ffff_4000_017f_ffff <= (w * k) * 0x20_0000_0000_0000_0000 + w * 0x4000_0000_0000,
        w * 0x7f_ffff <= (s * count) * 0x80_0000 + 0x80_0000 * count,
        (k * s) * 0x7f_ffff <= g * 0x80_0000 + 0x80_0000,
        1 <= k <= 32,
        1 <= count <= 32,
        0x1_0000_0000_0000_0000 <= w,
        a >= 0,
    ensures
        a * 0x80_0000 <= g * 0x80_0000 + 5 * a + 2 * w,
{
    let ac = a * count;
    let wk = w * k;
    let ks = k * s;
    let sc = s * count;
    let kc = k * count;
    let cks = count * ks;
    let cg = count * g;
    assert(wk * 0x7f_ffff <= cks * 0x80_0000 + 0x80_0000 * kc) by (nonlinear_arith)
        requires
            w * 0x7f_ffff <= sc * 0x80_0000 + 0x80_0000 * count,
            wk == w * k,
            sc == s * count,
            cks == count * (k * s),
            kc == k * count,
            k >= 0,
    ;
    assert(cks * 0x7f_ffff <= cg * 0x80_0000 + 0x80_0000 * count) by (nonlinear_arith)
        requires
            ks * 0x7f_ffff <= g * 0x80_0000 + 0x80_0000,
            cks == count * ks,
            cg == count * g,
            count >= 0,
    ;
    assert(0 <= kc <= 32 * count) by (nonlinear_arith)
        requires
            kc == k * count,
            0 <= k <= 32,
            count >= 0,
    ;
    assert(wk * 0x3fff_ff00_0001 <= 0x80_0000 * (cks * 0x7f_ffff) + 0x3fff_ff80_0000 * kc);
    assert(wk * 0x3fff_ff00_0001 <= cg * 0x4000_0000_0000 + count * 0x8_4000_0000_0000);
    assert(ac >= 0) by (nonlinear_arith)
        requires
            ac == a * count,
            a >= 0,
            count >= 0,
    ;
    assert(ac * 0x7_ffff_b000_013f_fffd_8000_027f_ffff <= 0x20_0000_0000_0000_0000 * (wk * 0x3fff_ff00_0001) + w * 0xfff_ffc0_0000_4000_0000_0000);
    assert(ac * 0x7_ffff_b000_013f_fffd_8000_027f_ffff >= ac * 0x7_ffff_b000_0000_0000_0000_0000_0000);
    let cw = count * w;
    assert(cw >= w) by (nonlinear_arith)
        requires
            cw == count * w,
            count >= 1,
            w >= 0,
    ;
    assert(ac * 0x7_ffff_b000_0000_0000_0000_0000_0000 <= cg * 0x8_0000_0000_0000_0000_0000_0000_0000 + count * 0x108_0000_0000_0000_0000_0000_0000_0000 + cw * 0x1000_0000_0000_0000_0000_0000);
    let x = a * 0x7_ffff_b000_0000_0000_0000_0000_0000;
    let y = g * 0x8_0000_0000_0000_0000_0000_0000_0000 + 0x108_0000_0000_0000_0000_0000_0000_0000 + w * 0x1000_0000_0000_0000_0000_0000;
    assert(count * x <= count * y) by (nonlinear_arith)
        requires
            ac * 0x7_ffff_b000_0000_0000_0000_0000_0000 <= cg * 0x8_0000_0000_0000_0000_0000_0000_0000 + count * 0x108_0000_0000_0000_0000_0000_0000_0000 + cw * 0x1000_0000_0000_0000_0000_0000,
            ac == a * count,
            cg == count * g,
            cw == count * w,
            x == a * 0x7_ffff_b000_0000_0000_0000_0000_0000,
            y == g * 0x8_0000_0000_0000_0000_0000_0000_0000 + 0x108_0000_0000_0000_0000_0000_0000_0000 + w * 0x1000_0000_0000_0000_0000_0000,
    ;
    assert(x <= y) by (nonlinear_arith)
        requires
            count * x <= count * y,
            count > 0,
    ;
}

/// An edge is no nearer to the start than its position, but for what rounding takes
/// off.
proof fn lemma_edge_below(a: int, w: int, count: int, k: int, s: int, g: int)
    requires
        (w * k) * 0x20_0000_0000_0000_0000 <= (a * count) * 0x20_0000_c000_0180_0001 + w * 0x4000_0000_0000,
        (s * count) * 0x80_0000 <= w * 0x80_0001 + 0x80_0000 * count,
        g * 0x80_0000 <= (k * s) * 0x80_0001 + 0x80_0000,
        0 <= k <= 32,
        1 <= count <= 32,
        0x1_0000_0000_0000_0000 <= w,
        a >= 0,
    ensures
        g * 0x80_0000 <= a * 0x80_0000 + 6 * a + 3 * w,
{
    let ac = a * count;
    let wk = w * k;
    let ks = k * s;
    let sc = s * count;
    let kc = k * count;
    let cks = count * ks;
    let cg = count * g;
    assert(cks * 0x80_0000 <= wk * 0x80_0001 + 0x80_0000 * kc) by (nonlinear_arith)
        requires
            sc * 0x80_0000 <= w * 0x80_0001 + 0x80_0000 * count,
            wk == w * k,
            sc == s * count,
            cks == count * (k * s),
            kc == k * count,
            k >= 0,
    ;
    assert(cg * 0x80_0000 <= cks * 0x80_0001 + 0x80_0000 * count) by (nonlinear_arith)
        requires
            g * 0x80_0000 <= ks * 0x80_0001 + 0x80_0000,
            cks == count * ks,
            cg == count * g,
            count >= 0,
    ;
    assert(0 <= kc <= 32 * count) by (nonlinear_arith)
        requires
            kc == k * count,
            0 <= k <= 32,
            count >= 0,
    ;
    assert(cg * 0x4000_0000_0000 <= 0x80_0001 * (cks * 0x80_0000) + 0x4000_0000_0000 * count);
    assert(cg * 0x4000_0000_0000 <= wk * 0x4000_0100_0001 + count * 0x8_8000_0000_0000);
    assert(ac >= 0) by (nonlinear_arith)
        requires
            ac == a * count,
            a >= 0,
            count >= 0,
    ;
    assert(cg * 0x8_0000_0000_0000_0000_0000_0000_0000 <= 0x4000_0100_0001 * (wk * 0x20_0000_0000_0000_0000) + count * 0x110_0000_0000_0000_0000_0000_0000_0000);
    assert(0x4000_0100_0001 * (wk * 0x20_0000_0000_0000_0000) <= ac * 0x8_0000_5000_0140_0002_8000_0280_0001 + w * 0x1000_0040_0000_4000_0000_0000);
    assert(ac * 0x8_0000_5000_0140_0002_8000_0280_0001 <= ac * 0x8_0000_6000_0000_0000_0000_0000_0000);
    let cw = count * w;
    assert(cw >= w) by (nonlinear_arith)
        requires
            cw == count * w,
            count >= 1,
            w >= 0,
    ;
    assert(cg * 0x8_0000_0000_0000_0000_0000_0000_0000 <= ac * 0x8_0000_6000_0000_0000_0000_0000_0000 + cw * 0x2000_0000_0000_0000_0000_0000 + count * 0x110_0000_0000_0000_0000_0000_0000_0000);
    let x = g * 0x8_0000_0000_0000_0000_0000_0000_0000;
    let y = a * 0x8_0000_6000_0000_0000_0000_0000_0000 + w * 0x2000_0000_0000_0000_0000_0000 + 0x110_0000_0000_0000_0000_0000_0000_0000;
    assert(count * x <= count * y) by (nonlinear_arith)
        requires
            cg * 0x8_0000_0000_0000_0000_0000_0000_0000 <= ac * 0x8_0000_6000_0000_0000_0000_0000_0000 + cw * 0x2000_0000_0000_0000_0000_0000 + count * 0x110_0000_0000_0000_0000_0000_0000_0000,
            ac == a * count,
            cg == count * g,
            cw == count * w,
            x == g * 0x8_0000_0000_0000_0000_0000_0000_0000,
            y == a * 0x8_0000_6000_0000_0000_0000_0000_0000 + w * 0x2000_0000_0000_0000_0000_0000 + 0x110_0000_0000_0000_0000_0000_0000_0000,
    ;
    assert(x <= y) by (nonlinear_arith)
        requires
            count * x <= count * y,
            count > 0,
    ;
}

/// The steps up to an edge are not much longer than all of them.
proof fn lemma_edge_bounded(w: int, count: int, k: int, s: int, g: int)
    requires
        (s * count) * 0x80_0000 <= w * 0x80_0001 + 0x80_0000 * count,
        g * 0x80_0000 <= (k * s) * 0x80_0001 + 0x80_0000,
        0 <= k <= count <= 32,
        0x1_0000_0000_0000_0000 <= w,
        s >= 0,
    ensures
        g <= 4 * w,
{
    assert(k * s <= s * count) by (nonlinear_arith)
        requires
            k <= count,
            s >= 0,
    ;
}

/// The extent that the cells along an axis divide.
pub open spec fn divided_extent(bounds: [F32; 4], axis: int) -> F32 {
    f_max(box_extent(bounds, axis), lit(EPSILON_BITS))
}

/// What rounding can make of the bounds along an axis, times 2^20: their sizes and the
/// extent between them.
pub open spec fn rounding_reach(bounds: [F32; 4], axis: int) -> int {
    abs_int(bounds[axis].value()) + abs_int(bounds[axis + 2].value()) + divided_extent(bounds, axis).value()
}

/// The column or row that a coordinate falls in.
pub open spec fn cell_index(bounds: [F32; 4], axis: int, v: F32, count: u16) -> int {
    cell_of(
        f_mul(f_div(f_sub(v, bounds[axis]), divided_extent(bounds, axis)), f_from_int(count as int)),
        count as int,
    )
}

/// A coordinate between the bounds along an axis.
pub open spec fn between_bounds(bounds: [F32; 4], axis: int, v: F32) -> bool {
    &&& bounds[axis].finite()
    &&& bounds[axis + 2].finite()
    &&& v.finite()
    &&& f_le(bounds[axis], v)
    &&& f_le(v, bounds[axis + 2])
    &&& box_extent(bounds, axis).finite()
}

proof fn lemma_unit() -> (u: int)
    ensures
        u == pow2(149),
        0x1_0000_0000_0000_0000 <= u,
        magnitude(ONE_BITS as int) == u,
        magnitude(0x4200_0000) == 32 * u,
        magnitude(EPSILON_BITS as int) >= 0x1_0000_0000_0000_0000,
{
    lemma2_to64();
    lemma_pow2_strictly_increases(63, 126);
    lemma_pow2_strictly_increases(63, 149);
    lemma_pow2_strictly_increases(64, 126);
    lemma_pow2_strictly_increases(64, 149);
    lemma_pow2_adds(23, 126);
    lemma_pow2_adds(23, 131);
    lemma_pow2_adds(5, 149);
    lemma_pow2_adds(23, 103);
    lemma_pow2_adds(1, 63);
    assert(ONE_BITS as int / 0x80_0000 == 127 && ONE_BITS as int % 0x80_0000 == 0);
    assert(0x4200_0000int / 0x80_0000 == 132 && 0x4200_0000int % 0x80_0000 == 0);
    assert(EPSILON_BITS as int / 0x80_0000 == 104 && EPSILON_BITS as int % 0x80_0000 == 0);
    pow2(149) as int
}

/// The extent that cells divide is positive and not below the distance between the
/// bounds, but for what rounding takes off.
proof fn lemma_divided_extent(bounds: [F32; 4], axis: int, v: F32)
    requires
        axis == 0 || axis == 1,
        between_bounds(bounds, axis, v),
    ensures
        ({
            let w = divided_extent(bounds, axis);
            let a = v.value() - bounds[axis].value();
            &&& w.finite() && !w.negative() && w.value() >= 0x1_0000_0000_0000_0000
            &&& 0 <= a
            &&& a <= abs_int(bounds[axis].value()) + abs_int(bounds[axis + 2].value())
            &&& a * 0x7f_ffff <= w.value() * 0x80_0000 + 0x80_0000
            &&& f_le(f_sub(v, bounds[axis]), w)
            &&& f_sub(v, bounds[axis]).finite()
        }),
{
    let u = lemma_unit();
    let b0 = bounds[axis];
    let b2 = bounds[axis + 2];
    let extent = box_extent(bounds, axis);
    let w = divided_extent(bounds, axis);
    let eps = lit(EPSILON_BITS);
    lemma_order_is_value_order(b0, v);
    lemma_order_is_value_order(v, b2);
    lemma_order_is_value_order(extent, eps);
    lemma_order_is_value_order(extent, w);
    lemma_order_is_value_order(eps, w);
    law_differences_are_monotone(v, b2, b0);
    law_differences_are_monotone(b0, v, b0);
    lemma_difference_error(b2, b0);
    crate::float32::lemma_self_difference(b0);
    lemma_magnitude_nonneg(w.unsigned());
    assert(magnitude(0) == 0);
    if w.negative() {
        assert(w.value() <= 0);
    }
}

proof fn lemma_size(x: F32)
    requires
        x.finite(),
        x.value() >= 0,
    ensures
        x.value() == magnitude(x.unsigned()),
{
    assert(magnitude(0) == 0);
    lemma_magnitude_nonneg(x.unsigned());
}

/// The rounded position of a coordinate in cells: each step with its error.
proof fn lemma_position(bounds: [F32; 4], axis: int, v: F32, count: u16)
    requires
        axis == 0 || axis == 1,
        1 <= count <= 32,
        between_bounds(bounds, axis, v),
    ensures
        ({
            let w = divided_extent(bounds, axis);
            let d = f_sub(v, bounds[axis]);
            let q = f_div(d, w);
            let t = f_mul(q, f_from_int(count as int));
            let a = v.value() - bounds[axis].value();
            let u = pow2(149) as int;
            &&& d.finite() && d.value() >= 0
            &&& q.finite() && q.value() >= 0
            &&& t.finite() && t.value() >= 0
            &&& (d.value() - a) * 0x80_0000 <= a + 0x80_0000
            &&& (a - d.value()) * 0x80_0000 <= a + 0x80_0000
            &&& (q.value() * w.value() - d.value() * u) * 0x80_0000 <= d.value() * u + 0x80_0000 * w.value()
            &&& (d.value() * u - q.value() * w.value()) * 0x80_0000 <= d.value() * u + 0x80_0000 * w.value()
            &&& (t.value() - q.value() * count) * 0x80_0000 <= q.value() * count + 0x80_0000
            &&& (q.value() * count - t.value()) * 0x80_0000 <= q.value() * count + 0x80_0000
        }),
{
    let u = lemma_unit();
    let b0 = bounds[axis];
    let w = divided_extent(bounds, axis);
    let d = f_sub(v, b0);
    let q = f_div(d, w);
    let c = f_from_int(count as int);
    let t = f_mul(q, c);
    lemma_divided_extent(bounds, axis, v);
    lemma_difference_error(v, b0);
    law_differences_are_monotone(b0, v, b0);
    crate::float32::lemma_self_difference(b0);
    lemma_order_is_value_order(f_sub(b0, b0), d);
    lemma_order_is_value_order(d, w);
    assert(magnitude(0) == 0);
    law_small_integers_are_exact(count as int);
    lemma_magnitude_nonneg(d.unsigned());
    lemma_magnitude_nonneg(c.unsigned());
    let dv = d.value();
    let wv = w.value();
    assert(dv == magnitude(d.unsigned())) by {
        lemma_size(d);
    }
    // The quotient is at most one.
    assert(dv * u <= u * wv && dv * u >= 0) by (nonlinear_arith)
        requires
            0 <= dv <= wv,
            u > 0,
    ;
    assert(q.finite() && q.unsigned() <= ONE_BITS) by {
        reveal(f_div);
        lemma_rounding_passes_no_pattern(magnitude(d.unsigned()) * pow2(149), wv, ONE_BITS as int);
        lemma_rounding_passes_no_pattern(magnitude(d.unsigned()) * pow2(149), wv, 0);
    }
    lemma_quotient_error(d, w);
    if q.unsigned() < ONE_BITS {
        crate::float32::lemma_magnitude_monotone(q.unsigned(), ONE_BITS as int);
    }
    lemma_magnitude_nonneg(q.unsigned());
    lemma_size(q);
    let qv = q.value();
    let cv = c.value();
    assert(cv == count * u);
    assert(cv > 0) by (nonlinear_arith)
        requires
            cv == count * u,
            count >= 1,
            u > 0,
    ;
    assert(0 <= qv * cv <= (32 * u) * u) by (nonlinear_arith)
        requires
            0 <= qv <= u,
            cv == count * u,
            0 <= count <= 32,
            u > 0,
    ;
    assert(t.finite()) by {
        reveal(f_mul);
        lemma_rounding_passes_no_pattern(magnitude(q.unsigned()) * magnitude(c.unsigned()), u, 0x4200_0000);
    }
    lemma_product_error(q, c);
    let qc = qv * count;
    assert(qv * cv == qc * u) by (nonlinear_arith)
        requires
            cv == count * u,
            qc == qv * count,
    ;
    let tv = t.value();
    assert((tv - qc) * 0x80_0000 <= qc + 0x80_0000) by (nonlinear_arith)
        requires
            (tv * u - qc * u) * 0x80_0000 <= qc * u + 0x80_0000 * u,
            u > 0,
    ;
    assert((qc - tv) * 0x80_0000 <= qc + 0x80_0000) by (nonlinear_arith)
        requires
            (qc * u - tv * u) * 0x80_0000 <= qc * u + 0x80_0000 * u,
            u > 0,
    ;
}

/// The steps to a cell's edge: the size of a cell and the distance from the lower
/// bound, with their errors.
proof fn lemma_edge_steps(bounds: [F32; 4], axis: int, v: F32, count: u16, k: int) -> (r: (int, int))
    requires
        axis == 0 || axis == 1,
        1 <= count <= 32,
        0 <= k <= count,
        between_bounds(bounds, axis, v),
        cell_edge(bounds, axis, count, k).finite(),
    ensures
        ({
            let (s, g) = r;
            let w = divided_extent(bounds, axis).value();
            let x = bounds[axis].value() + g;
            let e = cell_edge(bounds, axis, count, k).value();
            &&& s >= 0
            &&& g >= 0
            &&& (s * count) * 0x80_0000 <= w * 0x80_0001 + 0x80_0000 * count
            &&& w * 0x7f_ffff <= (s * count) * 0x80_0000 + 0x80_0000 * count
            &&& g * 0x80_0000 <= (k * s) * 0x80_0001 + 0x80_0000
            &&& (k * s) * 0x7f_ffff <= g * 0x80_0000 + 0x80_0000
            &&& (e - x) * 0x80_0000 <= abs_int(x) + 0x80_0000
            &&& (x - e) * 0x80_0000 <= abs_int(x) + 0x80_0000
        }),
{
    reveal(cell_edge);
    let u = lemma_unit();
    lemma_divided_extent(bounds, axis, v);
    let w = divided_extent(bounds, axis);
    let c = f_from_int(count as int);
    let kk = f_from_int(k);
    let size = cell_size(bounds, axis, count);
    let offset = f_mul(kk, size);
    law_small_integers_are_exact(count as int);
    law_small_integers_are_exact(k);
    let wv = w.value();
    let cv = c.value();
    let kv = kk.value();
    assert(cv >= u) by (nonlinear_arith)
        requires
            cv == count * u,
            count >= 1,
            u > 0,
    ;
    assert(kv >= 0) by (nonlinear_arith)
        requires
            kv == k * u,
            k >= 0,
            u > 0,
    ;
    lemma_size(w);
    lemma_size(c);
    assert(wv * u <= wv * cv && wv * u >= 0) by (nonlinear_arith)
        requires
            u <= cv,
            wv >= 0,
            u > 0,
    ;
    assert(size.finite()) by {
        reveal(f_div);
        lemma_rounding_passes_no_pattern(wv * pow2(149), cv, w.unsigned());
        assert(magnitude(0) == 0);
    }
    lemma_quotient_error(w, c);
    let s = size.value();
    let sc = s * count;
    assert(s * cv == sc * u) by (nonlinear_arith)
        requires
            cv == count * u,
            sc == s * count,
    ;
    assert((sc - wv) * 0x80_0000 <= wv + 0x80_0000 * count) by (nonlinear_arith)
        requires
            (sc * u - wv * u) * 0x80_0000 <= wv * u + 0x80_0000 * (count * u),
            u > 0,
    ;
    assert((wv - sc) * 0x80_0000 <= wv + 0x80_0000 * count) by (nonlinear_arith)
        requires
            (wv * u - sc * u) * 0x80_0000 <= wv * u + 0x80_0000 * (count * u),
            u > 0,
    ;
    assert(offset.finite()) by {
        reveal(f_add);
    }
    lemma_product_error(kk, size);
    let g = offset.value();
    let ks = k * s;
    assert(kv * s == ks * u) by (nonlinear_arith)
        requires
            kv == k * u,
            ks == k * s,
    ;
    assert((g - ks) * 0x80_0000 <= ks + 0x80_0000) by (nonlinear_arith)
        requires
            (g * u - ks * u) * 0x80_0000 <= ks * u + 0x80_0000 * u,
            u > 0,
    ;
    assert((ks - g) * 0x80_0000 <= ks + 0x80_0000) by (nonlinear_arith)
        requires
            (ks * u - g * u) * 0x80_0000 <= ks * u + 0x80_0000 * u,
            u > 0,
    ;
    lemma_sum_error(bounds[axis], offset);
    (s, g)
}

/// The edges of the cell that a coordinate is looked up in are in order, and the
/// coordinate lies between them but for what rounding can make of the bounds.
proof fn lemma_lookup_along(bounds: [F32; 4], axis: int, v: F32, count: u16)
    requires
        axis == 0 || axis == 1,
        1 <= count <= 32,
        between_bounds(bounds, axis, v),
        cell_edge(bounds, axis, count, cell_index(bounds, axis, v, count)).finite(),
        cell_edge(bounds, axis, count, cell_index(bounds, axis, v, count) + 1).finite(),
    ensures
        ({
            let k = cell_index(bounds, axis, v, count);
            let low = cell_edge(bounds, axis, count, k);
            let high = cell_edge(bounds, axis, count, k + 1);
            let reach = rounding_reach(bounds, axis);
            &&& 0 <= k < count
            &&& f_le(low, high)
            &&& (low.value() - v.value()) * 0x10_0000 <= reach
            &&& (v.value() - high.value()) * 0x10_0000 <= reach
        }),
{
    let u = lemma_unit();
    let w = divided_extent(bounds, axis);
    let d = f_sub(v, bounds[axis]);
    let q = f_div(d, w);
    let t = f_mul(q, f_from_int(count as int));
    let k = cell_index(bounds, axis, v, count);
    let a = v.value() - bounds[axis].value();
    let wv = w.value();
    let c = count as int;
    lemma_divided_extent(bounds, axis, v);
    lemma_position(bounds, axis, v, count);
    let tv = t.value();
    reveal(cell_of);
    vstd::arithmetic::div_mod::lemma_fundamental_div_mod(tv, u);
    vstd::arithmetic::div_mod::lemma_mod_bound(tv, u);
    let whole = tv / u;
    assert(whole >= 0) by (nonlinear_arith)
        requires
            whole == tv / u,
            tv >= 0,
            u > 0,
    ;
    assert(floor_int(t) == whole);
    assert(0 <= k < c && (k == whole || (k == c - 1 && k <= whole)));
    assert(k * u <= tv) by (nonlinear_arith)
        requires
            tv == u * whole + tv % u,
            tv % u >= 0,
            k <= whole,
            u > 0,
    ;
    lemma_position_above(a, d.value(), q.value(), tv, u, wv, c, k);
    let (s0, g0) = lemma_edge_steps(bounds, axis, v, count, k);
    lemma_edge_below(a, wv, c, k, s0, g0);
    lemma_edge_bounded(wv, c, k, s0, g0);
    let (s1, g1) = lemma_edge_steps(bounds, axis, v, count, k + 1);
    if k == c - 1 {
        // The coordinate is not above the upper bound.
        lemma_last_cell(a, wv, c);
    } else {
        assert(tv <= (k + 1) * u) by (nonlinear_arith)
            requires
                tv == u * whole + tv % u,
                tv % u < u,
                k == whole,
        ;
        lemma_position_below(a, d.value(), q.value(), tv, u, wv, c, k + 1);
    }
    lemma_edge_above(a, wv, c, k + 1, s1, g1);
    lemma_edge_bounded(wv, c, k + 1, s1, g1);
    lemma_edges_in_order(bounds, axis, v, count, k);
}

proof fn lemma_last_cell(a: int, w: int, count: int)
    requires
        a * 0x7f_ffff <= w * 0x80_0000 + 0x80_0000,
        0x1_0000_0000_0000_0000 <= w,
        1 <= count <= 32,
    ensures
        (a * count) * 0x1f_ffff_4000_017f_ffff <= (w * count) * 0x20_0000_0000_0000_0000 + w * 0x4000_0000_0000,
{
    let ac = a * count;
    let wc = w * count;
    assert(ac * 0x7f_ffff <= wc * 0x80_0000 + 0x80_0000 * count) by (nonlinear_arith)
        requires
            a * 0x7f_ffff <= w * 0x80_0000 + 0x80_0000,
            ac == a * count,
            wc == w * count,
            count >= 0,
    ;
    assert(wc >= 0) by (nonlinear_arith)
        requires
            wc == w * count,
            w >= 0,
            count >= 0,
    ;
    assert(ac * 0x1f_ffff_4000_017f_ffff <= wc * 0x1f_ffff_8000_0080_0000 + 0x1f_ffff_8000_0080_0000 * count);
}

proof fn lemma_cell_size(bounds: [F32; 4], axis: int, v: F32, count: u16)
    requires
        axis == 0 || axis == 1,
        1 <= count <= 32,
        between_bounds(bounds, axis, v),
    ensures
        cell_size(bounds, axis, count).finite(),
        !cell_size(bounds, axis, count).negative(),
{
    reveal(f_div);
    let u = lemma_unit();
    lemma_divided_extent(bounds, axis, v);
    let w = divided_extent(bounds, axis);
    let c = f_from_int(count as int);
    law_small_integers_are_exact(count as int);
    let wv = w.value();
    let cv = c.value();
    assert(cv >= u) by (nonlinear_arith)
        requires
            cv == count * u,
            count >= 1,
            u > 0,
    ;
    lemma_size(c);
    lemma_size(w);
    assert(magnitude(0) == 0);
    lemma_magnitude_nonneg(c.unsigned());
    assert(wv * u <= wv * cv && wv * u >= 0) by (nonlinear_arith)
        requires
            u <= cv,
            wv >= 0,
            u > 0,
    ;
    lemma_rounding_passes_no_pattern(wv * pow2(149), cv, w.unsigned());
}

proof fn lemma_edges_in_order(bounds: [F32; 4], axis: int, v: F32, count: u16, k: int)
    requires
        axis == 0 || axis == 1,
        1 <= count <= 32,
        0 <= k < count,
        between_bounds(bounds, axis, v),
        cell_edge(bounds, axis, count, k).finite(),
        cell_edge(bounds, axis, count, k + 1).finite(),
    ensures
        f_le(cell_edge(bounds, axis, count, k), cell_edge(bounds, axis, count, k + 1)),
{
    reveal(cell_edge);
    lemma_cell_size(bounds, axis, v, count);
    let size = cell_size(bounds, axis, count);
    let b0 = bounds[axis];
    let i = f_from_int(k);
    let j = f_from_int(k + 1);
    let u = pow2(149) as int;
    law_small_integers_are_exact(k);
    law_small_integers_are_exact(k + 1);
    assert(k * u <= (k + 1) * u) by (nonlinear_arith)
        requires
            u >= 0,
    ;
    lemma_order_is_value_order(i, j);
    let x = f_mul(i, size);
    let y = f_mul(j, size);
    lemma_finite_term(b0, x);
    lemma_finite_term(b0, y);
    law_products_are_monotone(i, j, size);
    law_sums_are_monotone(x, y, b0);
    law_sums_commute(x, b0);
    law_sums_commute(y, b0);
}

proof fn lemma_finite_term(a: F32, b: F32)
    requires
        a.finite(),
        f_add(a, b).finite(),
    ensures
        b.finite(),
{
    reveal(f_add);
}

/// The piece has a point no farther than the radius, less what rounding can make of the
/// bounds, from a coordinate along an axis. All terms carry a factor of `b` squared
/// and of 2^20.
pub open spec fn safely_within(bounds: [F32; 4], c: QuadCurve, axis: int, a: int, b: int, v: F32, radius: F32) -> bool {
    let q = quadratic(c.p1[axis].value(), c.p2[axis].value(), c.p3[axis].value(), a, b);
    let w = b * b;
    let reach = rounding_reach(bounds, axis);
    &&& ((v.value() - radius.value()) * 0x10_0000 + reach) * w <= q * 0x10_0000
    &&& q * 0x10_0000 <= ((v.value() + radius.value()) * 0x10_0000 - reach) * w
}

/// A coordinate brought between two.
spec fn brought(v: F32, low: F32, high: F32) -> F32 {
    if f_lt(v, low) { low } else if f_lt(high, v) { high } else { v }
}

proof fn lemma_brought_within(bounds: [F32; 4], c: QuadCurve, axis: int, a: int, b: int, v: F32, radius: F32, count: u16)
    requires
        axis == 0 || axis == 1,
        1 <= count <= 32,
        between_bounds(bounds, axis, v),
        cell_edge(bounds, axis, count, cell_index(bounds, axis, v, count)).finite(),
        cell_edge(bounds, axis, count, cell_index(bounds, axis, v, count) + 1).finite(),
        safely_within(bounds, c, axis, a, b, v, radius),
    ensures
        ({
            let k = cell_index(bounds, axis, v, count);
            let low = cell_edge(bounds, axis, count, k);
            let high = cell_edge(bounds, axis, count, k + 1);
            let z = brought(v, low, high);
            &&& z.finite()
            &&& f_le(low, z)
            &&& f_le(z, high)
            &&& within(c, axis, a, b, z, radius)
        }),
{
    let k = cell_index(bounds, axis, v, count);
    let low = cell_edge(bounds, axis, count, k);
    let high = cell_edge(bounds, axis, count, k + 1);
    let z = brought(v, low, high);
    lemma_lookup_along(bounds, axis, v, count);
    lemma_divided_extent(bounds, axis, v);
    lemma_order_is_value_order(v, low);
    lemma_order_is_value_order(high, v);
    let reach = rounding_reach(bounds, axis);
    let zv = z.value();
    let vv = v.value();
    let r = radius.value();
    assert((zv - vv) * 0x10_0000 <= reach && (vv - zv) * 0x10_0000 <= reach);
    let q = quadratic(c.p1[axis].value(), c.p2[axis].value(), c.p3[axis].value(), a, b);
    let w = b * b;
    assert(w >= 0) by (nonlinear_arith)
        requires
            w == b * b,
    ;
    assert((zv - r) * w <= q) by (nonlinear_arith)
        requires
            ((vv - r) * 0x10_0000 + reach) * w <= q * 0x10_0000,
            (zv - vv) * 0x10_0000 <= reach,
            w >= 0,
    ;
    assert(q <= (zv + r) * w) by (nonlinear_arith)
        requires
            q * 0x10_0000 <= ((vv + r) * 0x10_0000 - reach) * w,
            (vv - zv) * 0x10_0000 <= reach,
            w >= 0,
    ;
}

/// A lookup is conservative wherever it is made, but for rounding: a piece with a
/// point within the grid's radius of the point along both axes, less a millionth part
/// (2^-20) of the bounds and their extent, is among the candidates. This holds of every
/// point that the grid does not answer with all pieces for, also of one that rounding
/// puts into a neighbouring cell, as long as the extents and the cell's edges do not
/// overflow.
pub proof fn law_lookups_err_by_rounding_only(
    grid: DistanceGrid,
    pieces: Seq<BoundaryPiece>,
    bounds: [F32; 4],
    radius: F32,
    units_per_em: F32,
    p: [F32; 2],
    i: int,
    a: int,
    b: int,
)
    requires
        is_grid_for(grid, pieces, bounds, radius, units_per_em),
        !grid.needs_all(p),
        0 <= i < pieces.len() <= u32::MAX,
        finite_curve(pieces[i].curve),
        bounds[0].finite() && bounds[1].finite() && bounds[2].finite() && bounds[3].finite(),
        p[0].finite(),
        p[1].finite(),
        grid.radius.finite(),
        box_extent(bounds, 0).finite(),
        box_extent(bounds, 1).finite(),
        ({
            let cell = grid.box_at(p);
            cell[0].finite() && cell[1].finite() && cell[2].finite() && cell[3].finite()
        }),
        0 <= a <= b,
        b > 0,
        safely_within(bounds, pieces[i].curve, 0, a, b, p[0], grid.radius),
        safely_within(bounds, pieces[i].curve, 1, a, b, p[1], grid.radius),
    ensures
        ({
            let cell = grid.cell_at(p);
            &&& 0 <= cell < grid.offsets@.len() - 1
            &&& grid.candidates@.subrange(grid.offsets@[cell] as int, grid.offsets@[cell + 1] as int).contains(i as u32)
        }),
{
    assert(grid.bounds == bounds && !grid.brute_force && grid.columns == grid_columns(bounds) && grid.rows == grid_rows(
        bounds,
    )) by {
        reveal(is_grid_for);
    }
    lemma_some_cells(bounds, 0, p[0], grid.columns);
    lemma_some_cells(bounds, 1, p[1], grid.rows);
    let c = pieces[i].curve;
    lemma_brought_within(bounds, c, 0, a, b, p[0], grid.radius, grid.columns);
    lemma_brought_within(bounds, c, 1, a, b, p[1], grid.radius, grid.rows);
    let cell = grid.box_at(p);
    let q = [brought(p[0], cell[0], cell[2]), brought(p[1], cell[1], cell[3])];
    law_pieces_near_the_cell_are_candidates(grid, pieces, bounds, radius, units_per_em, p, q, i, a, b);
}

/// Without a cell along an axis there are no finite edges.
proof fn lemma_some_cells(bounds: [F32; 4], axis: int, v: F32, count: u16)
    requires
        axis == 0 || axis == 1,
        between_bounds(bounds, axis, v),
        cell_edge(bounds, axis, count, cell_index(bounds, axis, v, count)).finite(),
    ensures
        count > 0,
{
    if count == 0 {
        reveal(cell_edge);
        reveal(f_add);
        reveal(f_mul);
        reveal(f_div);
        law_small_integers_are_exact(0);
        lemma_divided_extent(bounds, axis, v);
        lemma_unit();
        assert(magnitude(0) == 0);
        let z = f_from_int(0);
        if !z.zero() {
            crate::float32::lemma_magnitude_monotone(0, z.unsigned());
        }
    }
}

}
