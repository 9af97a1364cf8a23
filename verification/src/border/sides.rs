//! What is filled, and which way is across a piece.
use vstd::prelude::*;
use crate::border::certify::{across, chord, chord_length, filled};
use crate::border::winding::{
    all_mirrored, law_mirrored_pictures_wind_oppositely, law_winding_adds_up, mirrored, off_ends, upside_down,
};
use crate::float32::{F32, f_add, f_div, f_le, f_mul, f_neg, f_sqrt, law_sums_commute};
use crate::outline::QuadCurve;
use crate::symmetry::{
    lemma_differences_match, lemma_negation_is_opposite, lemma_products_match, lemma_quotients_match, lemma_roots_match,
    lemma_sums_match, matches_up_to_sign,
};

verus! {

/// What is filled does not depend on which way contours run: seen upside down, where they
/// run the other way, the same points are filled.
pub proof fn law_filling_is_blind_to_orientation(curves: Seq<QuadCurve>, p: [F32; 2])
    requires
        forall|i: int|
            0 <= i < curves.len() ==> (#[trigger] curves[i]).p1[1].finite() && curves[i].p3[1].finite() && off_ends(
                curves[i],
                p,
            ),
    ensures
        filled(all_mirrored(curves), upside_down(p)) == filled(curves, p),
{
    law_mirrored_pictures_wind_oppositely(curves, p, curves.len());
}

/// Where contours overlap, the overlap is filled: tracing a picture twice fills the same
/// points.
pub proof fn law_overlaps_are_filled(curves: Seq<QuadCurve>, p: [F32; 2])
    ensures
        filled(curves + curves, p) == filled(curves, p),
{
    law_winding_adds_up(curves, curves, p, curves.len());
}

/// Nothing is filled without curves.
pub proof fn law_nothing_fills_nothing(p: [F32; 2])
    ensures
        !filled(Seq::empty(), p),
{
}

/// A point turned by a quarter.
pub open spec fn turned(p: [F32; 2]) -> [F32; 2] {
    [f_neg(p[1]), p[0]]
}

/// A curve turned by a quarter.
pub open spec fn turned_curve(c: QuadCurve) -> QuadCurve {
    QuadCurve { p1: turned(c.p1), p2: turned(c.p2), p3: turned(c.p3) }
}

/// The length of a chord depends on the sizes of its parts alone.
proof fn lemma_lengths_match(x: F32, y: F32, z: F32, w: F32, first: bool, second: bool)
    requires
        matches_up_to_sign(x, z, first),
        matches_up_to_sign(y, w, second),
    ensures
        ({
            let a = f_add(f_mul(x, x), f_mul(y, y));
            let b = f_add(f_mul(z, z), f_mul(w, w));
            f_le(F32 { bits: 0 }, a) ==> matches_up_to_sign(f_sqrt(a), f_sqrt(b), false)
        }),
        matches_up_to_sign(f_add(f_mul(x, x), f_mul(y, y)), f_add(f_mul(z, z), f_mul(w, w)), false),
{
    lemma_products_match(x, x, z, z, first, first);
    lemma_products_match(y, y, w, w, second, second);
    lemma_sums_match(f_mul(x, x), f_mul(y, y), f_mul(z, z), f_mul(w, w), false);
    let a = f_add(f_mul(x, x), f_mul(y, y));
    let b = f_add(f_mul(z, z), f_mul(w, w));
    if f_le(F32 { bits: 0 }, a) {
        lemma_roots_match(a, b);
    }
}

/// A chord that is some way long.
pub open spec fn has_length(c: QuadCurve) -> bool {
    let t = chord(c);
    let a = f_add(f_mul(t[0], t[0]), f_mul(t[1], t[1]));
    f_le(F32 { bits: 0 }, a) && !f_sqrt(a).zero()
}

proof fn lemma_step(x: F32, len: F32, probe: F32, y: F32, other: F32, opposite: bool)
    requires
        matches_up_to_sign(x, y, opposite),
        matches_up_to_sign(len, other, false),
        !len.zero(),
    ensures
        matches_up_to_sign(f_mul(f_div(x, len), probe), f_mul(f_div(y, other), probe), opposite),
{
    lemma_quotients_match(x, len, y, other, opposite, false);
    lemma_negation_is_opposite(probe);
    lemma_products_match(f_div(x, len), probe, f_div(y, other), probe, opposite, false);
}

/// The way across a piece turns with the piece.
pub proof fn law_across_turns_with_the_piece(c: QuadCurve, probe: F32)
    requires
        has_length(c),
    ensures
        ({
            let n = across(c, probe);
            let m = across(turned_curve(c), probe);
            matches_up_to_sign(m[0], n[1], true) && matches_up_to_sign(m[1], n[0], false)
        }),
{
    reveal(across);
    reveal(chord_length);
    let d = turned_curve(c);
    let t = chord(c);
    let s = chord(d);
    assert(d.p1[0] == f_neg(c.p1[1]) && d.p1[1] == c.p1[0] && d.p3[0] == f_neg(c.p3[1]) && d.p3[1] == c.p3[0]);
    lemma_negation_is_opposite(c.p1[1]);
    lemma_negation_is_opposite(c.p3[1]);
    lemma_differences_match(d.p3[0], d.p1[0], c.p3[1], c.p1[1], true);
    assert(matches_up_to_sign(s[0], t[1], true));
    assert(s[1] == t[0]);
    lemma_negation_is_opposite(t[0]);
    lemma_negation_is_opposite(t[1]);
    lemma_negation_is_opposite(s[0]);
    lemma_negation_is_opposite(s[1]);
    law_sums_commute(f_mul(t[1], t[1]), f_mul(t[0], t[0]));
    lemma_lengths_match(t[1], t[0], s[0], s[1], true, false);
    let len = chord_length(c);
    let other = chord_length(d);
    assert(matches_up_to_sign(len, other, false));
    assert(!other.zero());
    // across(d) = (-s1, s0), across(c) = (-t1, t0), over the length.
    assert(matches_up_to_sign(f_neg(s[1]), t[0], true));
    lemma_step(f_neg(s[1]), other, probe, t[0], len, true);
    assert(matches_up_to_sign(s[0], f_neg(t[1]), false));
    lemma_step(s[0], other, probe, f_neg(t[1]), len, false);
}

/// The way across a piece is across: seen upside down, where a piece that goes up goes
/// down, its left is its right. The way across keeps its height and changes its side.
pub proof fn law_across_is_not_along(c: QuadCurve, probe: F32)
    requires
        has_length(c),
    ensures
        ({
            let n = across(c, probe);
            let m = across(mirrored(c), probe);
            matches_up_to_sign(m[0], n[0], true) && matches_up_to_sign(m[1], n[1], false)
        }),
{
    reveal(across);
    reveal(chord_length);
    let d = mirrored(c);
    let t = chord(c);
    let s = chord(d);
    assert(d.p1[1] == f_neg(c.p1[1]) && d.p1[0] == c.p1[0] && d.p3[1] == f_neg(c.p3[1]) && d.p3[0] == c.p3[0]);
    lemma_negation_is_opposite(c.p1[1]);
    lemma_negation_is_opposite(c.p3[1]);
    lemma_differences_match(d.p3[1], d.p1[1], c.p3[1], c.p1[1], true);
    assert(s[0] == t[0]);
    assert(matches_up_to_sign(s[1], t[1], true));
    lemma_negation_is_opposite(t[0]);
    lemma_negation_is_opposite(t[1]);
    lemma_negation_is_opposite(s[1]);
    lemma_lengths_match(t[0], t[1], s[0], s[1], false, true);
    let len = chord_length(c);
    let other = chord_length(d);
    assert(matches_up_to_sign(other, len, false));
    assert(!other.zero());
    assert(matches_up_to_sign(f_neg(s[1]), f_neg(t[1]), true));
    lemma_step(f_neg(s[1]), other, probe, f_neg(t[1]), len, true);
    lemma_step(s[0], other, probe, t[0], len, false);
}

}
