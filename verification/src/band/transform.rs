//! What the transform of a glyph's bands does.
use vstd::prelude::*;
use vstd::arithmetic::power2::{
    lemma2_to64, lemma2_to64_rest, lemma_pow2_adds, lemma_pow2_pos, lemma_pow2_strictly_increases, pow2,
};
use crate::band::laws::transformed;
use crate::band::{BandAxis, BandData, CurveLocation, MIN_EXTENT_BITS, bands_of, safe_extent};
use crate::float32::{
    F32, abs_int, f_add, f_div, f_from_int, f_le, f_mul, f_neg, f_sub, law_small_integers_are_exact,
    lemma_difference_error, lemma_magnitude_monotone, lemma_order_is_value_order, lemma_quotient_error,
    lemma_signed_product_error, lemma_sum_error,
};
use crate::outline::GlyphOutline;
use crate::prep::{PreparedMono, is_mono_of, outline_transform};

verus! {

/// A scale that is a count over an extent, against the exact extent.
proof fn lemma_scale_against_extent(s: int, f: int, e: int, cuu: int, u: int)
    requires
        (s * f - cuu) * 0x80_0000 <= cuu + 0x80_0000 * f,
        (cuu - s * f) * 0x80_0000 <= cuu + 0x80_0000 * f,
        (f - e) * 0x80_0000 <= e + 0x80_0000,
        (e - f) * 0x80_0000 <= e + 0x80_0000,
        e >= 0,
        f >= 0x1_0000_0000_0000_0000,
        s >= 0,
        u > 0,
        cuu >= 0x1_0000_0000_0000 * f,
    ensures
        (s * e - cuu) * 0x80_0000 <= 4 * cuu,
        (cuu - s * e) * 0x80_0000 <= 4 * cuu,
{
    let sf = s * f;
    let se = s * e;
    // The extents differ by little.
    assert((sf - se) * 0x80_0000 <= se + 0x80_0000 * s && (se - sf) * 0x80_0000 <= se + 0x80_0000 * s) by (nonlinear_arith)
        requires
            (f - e) * 0x80_0000 <= e + 0x80_0000,
            (e - f) * 0x80_0000 <= e + 0x80_0000,
            sf == s * f,
            se == s * e,
            s >= 0,
    ;
    assert(s * 0x1_0000_0000_0000_0000 <= sf) by (nonlinear_arith)
        requires
            sf == s * f,
            f >= 0x1_0000_0000_0000_0000,
            s >= 0,
    ;
    assert(se >= 0) by (nonlinear_arith)
        requires
            se == s * e,
            s >= 0,
            e >= 0,
    ;
}

/// A position against the exact one.
proof fn lemma_position_error(p: int, a: int, o: int, v: int, b: int, s: int, e: int, cu: int, u: int)
    requires
        (a * u - v * s) * 0x80_0000 <= abs_int(v * s) + 0x80_0000 * u,
        (v * s - a * u) * 0x80_0000 <= abs_int(v * s) + 0x80_0000 * u,
        (o * u + b * s) * 0x80_0000 <= abs_int(b * s) + 0x80_0000 * u,
        (-(b * s) - o * u) * 0x80_0000 <= abs_int(b * s) + 0x80_0000 * u,
        (p - (a + o)) * 0x80_0000 <= abs_int(a + o) + 0x80_0000,
        ((a + o) - p) * 0x80_0000 <= abs_int(a + o) + 0x80_0000,
        (s * e - cu * u) * 0x80_0000 <= 4 * (cu * u),
        (cu * u - s * e) * 0x80_0000 <= 4 * (cu * u),
        s >= 0,
        e >= 0,
        u > 0,
        cu >= 0,
    ensures
        ({
            let slack = (abs_int(v) + abs_int(b)) * cu + 0x80_0000 * e;
            let exact = (v - b) * cu;
            (p * e - exact) * 0x8_0000 <= slack && (exact - p * e) * 0x8_0000 <= slack
        }),
{
    let vs = v * s;
    let bs = b * s;
    let au = a * u;
    let ou = o * u;
    let c = abs_int(v) + abs_int(b);
    let cs = c * s;
    assert(abs_int(vs) + abs_int(bs) == cs) by (nonlinear_arith)
        requires
            vs == v * s,
            bs == b * s,
            cs == c * s,
            c == abs_int(v) + abs_int(b),
            s >= 0,
    ;
    let pu = p * u;
    let sum = a + o;
    assert(sum * u == au + ou) by (nonlinear_arith)
        requires
            sum == a + o,
            au == a * u,
            ou == o * u,
    ;
    let su = sum * u;
    assert(abs_int(sum) * u == abs_int(su)) by (nonlinear_arith)
        requires
            su == sum * u,
            u > 0,
    ;
    assert((pu - su) * 0x80_0000 <= abs_int(sum) * u + 0x80_0000 * u && (su - pu) * 0x80_0000 <= abs_int(sum) * u + 0x80_0000
        * u) by (nonlinear_arith)
        requires
            (p - sum) * 0x80_0000 <= abs_int(sum) + 0x80_0000,
            (sum - p) * 0x80_0000 <= abs_int(sum) + 0x80_0000,
            pu == p * u,
            su == sum * u,
            u > 0,
    ;
    let d = vs - bs;
    let y = 3 * cs + 0x200_0000 * u;
    assert((pu - d) * 0x80_0000 <= y && (d - pu) * 0x80_0000 <= y);
    // Times the extent.
    let de = d * e;
    let pue = pu * e;
    let cse = cs * e;
    let ue = u * e;
    assert((pue - de) * 0x80_0000 <= 3 * cse + 0x200_0000 * ue && (de - pue) * 0x80_0000 <= 3 * cse + 0x200_0000 * ue)
        by (nonlinear_arith)
        requires
            (pu - d) * 0x80_0000 <= 3 * cs + 0x200_0000 * u,
            (d - pu) * 0x80_0000 <= 3 * cs + 0x200_0000 * u,
            pue == pu * e,
            de == d * e,
            cse == cs * e,
            ue == u * e,
            e >= 0,
    ;
    let w = v - b;
    let se = s * e;
    let cuu = cu * u;
    assert(de == w * se) by (nonlinear_arith)
        requires
            de == d * e,
            d == v * s - b * s,
            w == v - b,
            se == s * e,
    ;
    assert(cse == c * se) by (nonlinear_arith)
        requires
            cse == (c * s) * e,
            se == s * e,
    ;
    let cc = c * cuu;
    let wc = w * cuu;
    assert((de - wc) * 0x80_0000 <= 4 * cc && (wc - de) * 0x80_0000 <= 4 * cc) by (nonlinear_arith)
        requires
            (se - cuu) * 0x80_0000 <= 4 * cuu,
            (cuu - se) * 0x80_0000 <= 4 * cuu,
            de == w * se,
            wc == w * cuu,
            cc == c * cuu,
            -c <= w <= c,
            cuu >= 0,
    ;
    assert(cuu >= 0) by (nonlinear_arith)
        requires
            cuu == cu * u,
            cu >= 0,
            u > 0,
    ;
    assert(cse <= 2 * cc) by (nonlinear_arith)
        requires
            (se - cuu) * 0x80_0000 <= 4 * cuu,
            cse == c * se,
            cc == c * cuu,
            c >= 0,
            cuu >= 0,
    ;
    // All of it is a multiple of the unit.
    let pe = p * e;
    let wcu = w * cu;
    let ccu = c * cu;
    assert(pue == u * pe && wc == u * wcu && cc == u * ccu && ue == u * e) by (nonlinear_arith)
        requires
            pue == (p * u) * e,
            pe == p * e,
            wc == w * (cu * u),
            wcu == w * cu,
            cc == c * (cu * u),
            ccu == c * cu,
            ue == u * e,
    ;
    let x = (pe - wcu) * 0x80_0000;
    let z = 10 * ccu + 0x200_0000 * e;
    assert(u * x <= u * z && u * (-x) <= u * z) by (nonlinear_arith)
        requires
            (u * pe - u * wcu) * 0x80_0000 <= 10 * (u * ccu) + 0x200_0000 * (u * e),
            (u * wcu - u * pe) * 0x80_0000 <= 10 * (u * ccu) + 0x200_0000 * (u * e),
            x == (pe - wcu) * 0x80_0000,
            z == 10 * ccu + 0x200_0000 * e,
    ;
    assert(x <= z && -x <= z) by (nonlinear_arith)
        requires
            u * x <= u * z,
            u * (-x) <= u * z,
            u > 0,
    ;
    assert(ccu >= 0) by (nonlinear_arith)
        requires
            ccu == c * cu,
            c >= 0,
            cu >= 0,
    ;
}

/// The extent of a box along an axis is worth dividing, and not huge.
pub open spec fn divisible(low: F32, high: F32) -> bool {
    &&& low.unsigned() <= 0x5d80_0000 && high.unsigned() <= 0x5d80_0000
    &&& f_le(F32 { bits: MIN_EXTENT_BITS }, f_sub(high, low))
}

proof fn lemma_extent_facts(low: F32, high: F32)
    requires
        divisible(low, high),
    ensures
        ({
            let extent = f_sub(high, low);
            let u = pow2(149) as int;
            let e = high.value() - low.value();
            let f = extent.value();
            &&& extent.finite()
            &&& safe_extent(low, high) == extent
            &&& f >= 0x1_0000_0000_0000_0000
            &&& e >= 0
            &&& 0x1_0000_0000_0000 * f <= u * u
            &&& (f - e) * 0x80_0000 <= e + 0x80_0000
            &&& (e - f) * 0x80_0000 <= e + 0x80_0000
        }),
{
    let u = pow2(149) as int;
    let extent = f_sub(high, low);
    lemma2_to64();
    lemma2_to64_rest();
    lemma_pow2_adds(60, 149);
    lemma_pow2_adds(23, 186);
    lemma_pow2_adds(23, 106);
    lemma_pow2_adds(64, 65);
    lemma_pow2_strictly_increases(65, 129);
    lemma_pow2_pos(65);
    assert(0x5d80_0000int / 0x80_0000 == 187 && 0x5d80_0000int % 0x80_0000 == 0);
    if low.unsigned() < 0x5d80_0000 {
        lemma_magnitude_monotone(low.unsigned(), 0x5d80_0000);
    }
    if high.unsigned() < 0x5d80_0000 {
        lemma_magnitude_monotone(high.unsigned(), 0x5d80_0000);
    }
    crate::float32::lemma_magnitude_nonneg(low.unsigned());
    crate::float32::lemma_magnitude_nonneg(high.unsigned());
    // No overflow.
    assert(extent.finite()) by {
        let top = F32 { bits: 0x5f80_0000 };
        let bottom = F32 { bits: 0xdf80_0000 };
        lemma_pow2_adds(23, 190);
        lemma_pow2_adds(64, 149);
        assert(0x5f80_0000int / 0x80_0000 == 191 && 0x5f80_0000int % 0x80_0000 == 0);
        crate::float32::law_differences_keep_order(high, low, top);
        crate::float32::law_differences_keep_order(high, low, bottom);
    }
    lemma_difference_error(high, low);
    let least = F32 { bits: MIN_EXTENT_BITS };
    lemma_order_is_value_order(least, extent);
    assert(least.value() >= 0x1_0000_0000_0000_0000) by {
        assert(MIN_EXTENT_BITS as int / 0x80_0000 == 107);
        let p = pow2(106) as int;
        let m = MIN_EXTENT_BITS as int % 0x80_0000;
        assert((0x80_0000 + m) * p >= 0x80_0000 * p) by (nonlinear_arith)
            requires
                m >= 0,
                p >= 0,
        ;
    }
    let f = extent.value();
    assert(u >= 0x1_0000_0000_0000_0000_0000_0000_0000) by {
        lemma_pow2_adds(48, 64);
        lemma_pow2_strictly_increases(112, 149);
    }
    assert(f <= 0x4000_0000_0000_0000 * u);
    assert(0x1_0000_0000_0000 * f <= u * u) by (nonlinear_arith)
        requires
            f <= 0x4000_0000_0000_0000 * u,
            u >= 0x1_0000_0000_0000_0000_0000_0000_0000,
    ;
}

/// The scale of an axis, against the exact extent.
proof fn lemma_scale_value(low: F32, high: F32, count: u32)
    requires
        divisible(low, high),
        1 <= count <= 0x100_0000,
        f_div(f_from_int(count as int), f_sub(high, low)).finite(),
    ensures
        ({
            let s = f_div(f_from_int(count as int), f_sub(high, low)).value();
            let e = high.value() - low.value();
            let u = pow2(149) as int;
            let cu = count * u;
            &&& s >= 0
            &&& e >= 0
            &&& cu >= 0
            &&& (s * e - cu * u) * 0x80_0000 <= 4 * (cu * u)
            &&& (cu * u - s * e) * 0x80_0000 <= 4 * (cu * u)
        }),
{
    let u = pow2(149) as int;
    lemma_pow2_pos(149);
    let extent = f_sub(high, low);
    let c = f_from_int(count as int);
    lemma_extent_facts(low, high);
    law_small_integers_are_exact(count as int);
    let cu = count * u;
    assert(cu >= u) by (nonlinear_arith)
        requires
            cu == count * u,
            count >= 1,
            u > 0,
    ;
    lemma_quotient_error(c, extent);
    let f = extent.value();
    let e = high.value() - low.value();
    let s = f_div(c, extent).value();
    let cuu = cu * u;
    assert(cuu >= u * u) by (nonlinear_arith)
        requires
            cuu == cu * u,
            cu >= u,
            u > 0,
    ;
    lemma_scale_against_extent(s, f, e, cuu, u);
}

proof fn lemma_finite_parts(v: F32, w: F32, scale: F32)
    requires
        f_add(f_mul(v, scale), f_mul(w, scale)).finite(),
    ensures
        f_mul(v, scale).finite(),
        f_mul(w, scale).finite(),
        scale.finite(),
        v.finite(),
        w.finite(),
{
    reveal(f_add);
    reveal(f_mul);
}

proof fn lemma_linear(low: F32, high: F32, count: u32, v: F32)
    requires
        divisible(low, high),
        1 <= count <= 0x100_0000,
        ({
            let scale = f_div(f_from_int(count as int), safe_extent(low, high));
            f_add(f_mul(v, scale), f_mul(f_neg(low), scale)).finite()
        }),
    ensures
        ({
            let scale = f_div(f_from_int(count as int), safe_extent(low, high));
            let p = f_add(f_mul(v, scale), f_mul(f_neg(low), scale)).value();
            let e = high.value() - low.value();
            let cu = count * pow2(149);
            let slack = (abs_int(v.value()) + abs_int(low.value())) * cu + 0x80_0000 * e;
            let exact = (v.value() - low.value()) * cu;
            (p * e - exact) * 0x8_0000 <= slack && (exact - p * e) * 0x8_0000 <= slack
        }),
{
    let u = pow2(149) as int;
    lemma_pow2_pos(149);
    let extent = f_sub(high, low);
    let c = f_from_int(count as int);
    lemma_extent_facts(low, high);
    let scale = f_div(c, extent);
    let back = f_neg(low);
    let x = f_mul(v, scale);
    let o = f_mul(back, scale);
    lemma_finite_parts(v, back, scale);
    lemma_scale_value(low, high, count);
    lemma_signed_product_error(v, scale);
    lemma_signed_product_error(back, scale);
    lemma_sum_error(x, o);
    let s = scale.value();
    let b = low.value();
    assert(back.value() == -b);
    assert((-b) * s == -(b * s)) by (nonlinear_arith);
    lemma_position_error(
        f_add(x, o).value(),
        x.value(),
        o.value(),
        v.value(),
        b,
        s,
        high.value() - b,
        count * u,
        u,
    );
}

/// The transform takes the lower bound of an axis to zero, the upper bound to the number
/// of its bands, and what lies between to where it lies between, up to rounding: a
/// position times the extent is the distance from the lower bound times the number of
/// bands.
pub open spec fn spreads_evenly(transform: Seq<F32>, bounds: [F32; 4], axis: int, count: u32, v: F32) -> bool {
    let p = transformed(transform, axis, v).value();
    let low = bounds[axis].value();
    let e = bounds[axis + 2].value() - low;
    let cu = count * pow2(149);
    let slack = (abs_int(v.value()) + abs_int(low)) * cu + 0x80_0000 * e;
    let exact = (v.value() - low) * cu;
    (p * e - exact) * 0x8_0000 <= slack && (exact - p * e) * 0x8_0000 <= slack
}

/// Built bands carry the transform that spreads the box of their glyph evenly over the
/// bands of each axis.
pub proof fn law_built_transform_spreads_evenly(
    outline: GlyphOutline,
    locations: Seq<CurveLocation>,
    data: BandData,
    band_count_x: u32,
    band_count_y: u32,
    upper: bool,
    axis: int,
    v: F32,
)
    requires
        bands_of(outline, locations, data, band_count_x, band_count_y, upper),
        axis == 0 || axis == 1,
        1 <= band_count_x <= 0x100_0000,
        1 <= band_count_y <= 0x100_0000,
        divisible(outline.bounds[axis], outline.bounds[axis + 2]),
        transformed(data.band_transform@, axis, v).finite(),
    ensures
        spreads_evenly(
            data.band_transform@,
            outline.bounds,
            axis,
            if axis == 0 { band_count_x } else { band_count_y },
            v,
        ),
{
    let count = if axis == 0 { band_count_x } else { band_count_y };
    let lay = BandAxis::of(outline.bounds, axis, count, upper);
    assert(data.band_transform@[axis] == lay.scale && data.band_transform@[2 + axis] == lay.offset);
    lemma_linear(outline.bounds[axis], outline.bounds[axis + 2], count, v);
}

/// The transform that is stored with a glyph spreads the glyph's box evenly over the
/// bands of each axis.
pub proof fn law_stored_transform_spreads_evenly(
    outline: GlyphOutline,
    band_count_x: u32,
    band_count_y: u32,
    units_per_em: F32,
    p: PreparedMono,
    axis: int,
    v: F32,
)
    requires
        is_mono_of(p, outline, band_count_x, band_count_y, units_per_em),
        axis == 0 || axis == 1,
        1 <= band_count_x <= 0x100_0000,
        1 <= band_count_y <= 0x100_0000,
        divisible(p.bounds[axis], p.bounds[axis + 2]),
        transformed(p.band_transform@, axis, v).finite(),
    ensures
        spreads_evenly(
            p.band_transform@,
            p.bounds,
            axis,
            if axis == 0 { p.band_count_x } else { p.band_count_y },
            v,
        ),
{
    reveal(outline_transform);
    let count = if axis == 0 { band_count_x } else { band_count_y };
    lemma_linear(p.bounds[axis], p.bounds[axis + 2], count, v);
}

}
