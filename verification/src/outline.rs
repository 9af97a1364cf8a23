//! Glyph outlines as the renderer consumes them.
pub mod laws;
use vstd::prelude::*;
use crate::float32::{F32, f_add, f_max, f_min, f_mul, f_sub, HALF_BITS, MAX_BITS, MIN_BITS, QUARTER_BITS};

verus! {

/// One quadratic Bezier segment: start, control and end point.
#[derive(Clone, Copy, Debug)]
pub struct QuadCurve {
    pub p1: [F32; 2],
    pub p2: [F32; 2],
    pub p3: [F32; 2],
}

/// The closed contours of a glyph and their bounding box
/// (left, bottom, right, top), in font units.
pub struct GlyphOutline {
    pub curves: Vec<QuadCurve>,
    pub bounds: [F32; 4],
}

impl QuadCurve {
    /// Smallest coordinate of the three points along an axis.
    pub open spec fn low(self, axis: int) -> F32 {
        f_min(f_min(self.p1[axis], self.p2[axis]), self.p3[axis])
    }

    /// Largest coordinate of the three points along an axis.
    pub open spec fn high(self, axis: int) -> F32 {
        f_max(f_max(self.p1[axis], self.p2[axis]), self.p3[axis])
    }

    pub fn axis_min(&self, axis: usize) -> (r: F32)
        requires
            axis < 2,
        ensures
            r == self.low(axis as int),
    {
        self.p1[axis].min(self.p2[axis]).min(self.p3[axis])
    }

    pub fn axis_max(&self, axis: usize) -> (r: F32)
        requires
            axis < 2,
        ensures
            r == self.high(axis as int),
    {
        self.p1[axis].max(self.p2[axis]).max(self.p3[axis])
    }
}

/// Opcode of a command that fills a sub-glyph with one color.
pub const CMD_DRAW_SOLID: i32 = 1;

/// Opcode of a command that fills a sub-glyph with a gradient.
pub const CMD_DRAW_GRADIENT: i32 = 2;

/// One layer of a layered color glyph, as its font describes it.
pub struct ColorLayer {
    /// Nothing where the layer's glyph has no outline.
    pub outline: Option<GlyphOutline>,
    pub color: [F32; 4],
    pub use_foreground: bool,
}

/// A color glyph as a sequence of drawing commands.
///
/// A draw command names an outline by its index in `sub_glyphs`, in its second
/// word.
pub struct ColorV1Data {
    pub commands: Vec<[i32; 4]>,
    pub sub_glyphs: Vec<GlyphOutline>,
}

/// What a font has for a glyph.
pub enum GlyphSource {
    /// Nothing that can be drawn from vectors.
    Missing,
    /// An outline.
    Outline(GlyphOutline),
    /// Color layers.
    V0Layers(Vec<ColorLayer>),
    /// Color commands.
    V1(ColorV1Data),
}

/// What a glyph is drawn from: its color data if the font has any, else its outline,
/// else nothing.
pub fn choose_source(color: Option<GlyphSource>, outline: Option<GlyphOutline>) -> (r: GlyphSource)
    ensures
        r == match color {
            Some(source) => source,
            None => match outline {
                Some(o) => GlyphSource::Outline(o),
                None => GlyphSource::Missing,
            },
        },
{
    match color {
        Some(source) => source,
        None => match outline {
            Some(o) => GlyphSource::Outline(o),
            None => GlyphSource::Missing,
        },
    }
}

/// Pattern of the slant of synthetic italics, 0.2493: 14 degrees.
pub const SHEAR_BITS: u32 = 0x3e7f_4880;

/// The pattern of 3.0.
pub const THREE_BITS: u32 = 0x4040_0000;

/// A point slanted to the right.
pub open spec fn sheared_point(p: [F32; 2]) -> [F32; 2] {
    [f_add(p@[0], f_mul(p@[1], F32 { bits: SHEAR_BITS })), p@[1]]
}

/// A curve slanted to the right.
pub open spec fn sheared(c: QuadCurve) -> QuadCurve {
    QuadCurve { p1: sheared_point(c.p1), p2: sheared_point(c.p2), p3: sheared_point(c.p3) }
}

/// The bounding box (left, bottom, right, top) of the control points of the first
/// `n` curves.
pub open spec fn control_box(curves: Seq<QuadCurve>, n: int) -> [F32; 4]
    decreases n,
{
    if n <= 0 {
        [F32 { bits: MAX_BITS }, F32 { bits: MAX_BITS }, F32 { bits: MIN_BITS }, F32 { bits: MIN_BITS }]
    } else {
        let b = control_box(curves, n - 1);
        let c = curves[n - 1];
        [f_min(b@[0], c.low(0)), f_min(b@[1], c.low(1)), f_max(b@[2], c.high(0)), f_max(b@[3], c.high(1))]
    }
}

fn control_bounds(curves: &Vec<QuadCurve>) -> (r: [F32; 4])
    ensures
        r == control_box(curves@, curves@.len() as int),
{
    let most: F32 = F32 { bits: MAX_BITS };
    let least: F32 = F32 { bits: MIN_BITS };
    let mut b: [F32; 4] = [most, most, least, least];
    for i in 0..curves.len()
        invariant
            b == control_box(curves@, i as int),
    {
        let c: QuadCurve = curves[i];
        b = [
            b[0].min(c.axis_min(0)),
            b[1].min(c.axis_min(1)),
            b[2].max(c.axis_max(0)),
            b[3].max(c.axis_max(1)),
        ];
    }
    b
}

fn shear_point(p: &[F32; 2]) -> (r: [F32; 2])
    ensures
        r == sheared_point(*p),
{
    let slant: F32 = F32 { bits: SHEAR_BITS };
    [p[0].plus(p[1].times(slant)), p[1]]
}

/// Slants an outline to the right, for fonts without an italic face.
pub fn apply_italic_shear(outline: &mut GlyphOutline)
    ensures
        final(outline).curves@ == old(outline).curves@.map_values(|c: QuadCurve| sheared(c)),
        final(outline).bounds == control_box(final(outline).curves@, final(outline).curves@.len() as int),
{
    let mut curves: Vec<QuadCurve> = Vec::new();
    for i in 0..outline.curves.len()
        invariant
            curves@.len() == i,
            forall|j: int| 0 <= j < i ==> #[trigger] curves@[j] == sheared(outline.curves@[j]),
    {
        let c: QuadCurve = outline.curves[i];
        curves.push(QuadCurve { p1: shear_point(&c.p1), p2: shear_point(&c.p2), p3: shear_point(&c.p3) });
    }
    assert(curves@ =~= outline.curves@.map_values(|c: QuadCurve| sheared(c)));
    outline.bounds = control_bounds(&curves);
    outline.curves = curves;
}

/// The point halfway between two.
pub open spec fn halfway(a: [F32; 2], b: [F32; 2]) -> [F32; 2] {
    let half = F32 { bits: HALF_BITS };
    [f_mul(f_add(a@[0], b@[0]), half), f_mul(f_add(a@[1], b@[1]), half)]
}

/// One coordinate of the control point of the quadratic that stands for a cubic.
pub open spec fn quad_control(a: F32, b: F32, c: F32, d: F32) -> F32 {
    f_mul(f_sub(f_mul(F32 { bits: THREE_BITS }, f_add(b, c)), f_add(a, d)), F32 { bits: QUARTER_BITS })
}

/// The quadratic curves that stand for a cubic one: it is halved `depth` times,
/// and each piece is replaced.
pub open spec fn quads_for(a: [F32; 2], b: [F32; 2], c: [F32; 2], d: [F32; 2], depth: nat) -> Seq<QuadCurve>
    decreases depth,
{
    if depth == 0 {
        seq![
            QuadCurve {
                p1: a,
                p2: [
                    quad_control(a@[0], b@[0], c@[0], d@[0]),
                    quad_control(a@[1], b@[1], c@[1], d@[1]),
                ],
                p3: d,
            },
        ]
    } else {
        let ab = halfway(a, b);
        let bc = halfway(b, c);
        let cd = halfway(c, d);
        let abc = halfway(ab, bc);
        let bcd = halfway(bc, cd);
        let middle = halfway(abc, bcd);
        quads_for(a, ab, abc, middle, (depth - 1) as nat) + quads_for(middle, bcd, cd, d, (depth - 1) as nat)
    }
}

fn half_point(a: &[F32; 2], b: &[F32; 2]) -> (r: [F32; 2])
    ensures
        r == halfway(*a, *b),
{
    let half: F32 = F32 { bits: HALF_BITS };
    [a[0].plus(b[0]).times(half), a[1].plus(b[1]).times(half)]
}

fn control_coord(a: F32, b: F32, c: F32, d: F32) -> (r: F32)
    ensures
        r == quad_control(a, b, c, d),
{
    let three: F32 = F32 { bits: THREE_BITS };
    let quarter: F32 = F32 { bits: QUARTER_BITS };
    three.times(b.plus(c)).minus(a.plus(d)).times(quarter)
}

fn push_quads(curves: &mut Vec<QuadCurve>, a: [F32; 2], b: [F32; 2], c: [F32; 2], d: [F32; 2], depth: u32)
    ensures
        final(curves)@ == old(curves)@ + quads_for(a, b, c, d, depth as nat),
    decreases depth,
{
    let ghost before = curves@;
    if depth == 0 {
        let p2: [F32; 2] = [control_coord(a[0], b[0], c[0], d[0]), control_coord(a[1], b[1], c[1], d[1])];
        curves.push(QuadCurve { p1: a, p2, p3: d });
        assert(curves@ =~= before + quads_for(a, b, c, d, 0));
        return;
    }
    let ab: [F32; 2] = half_point(&a, &b);
    let bc: [F32; 2] = half_point(&b, &c);
    let cd: [F32; 2] = half_point(&c, &d);
    let abc: [F32; 2] = half_point(&ab, &bc);
    let bcd: [F32; 2] = half_point(&bc, &cd);
    let middle: [F32; 2] = half_point(&abc, &bcd);
    push_quads(curves, a, ab, abc, middle, depth - 1);
    push_quads(curves, middle, bcd, cd, d, depth - 1);
    assert(curves@ =~= before + quads_for(a, b, c, d, depth as nat));
}

/// How often a cubic curve is halved.
pub const CUBIC_DEPTH: u32 = 2;

/// Collects the path of a glyph as quadratic curves.
pub struct OutlineBuilder {
    pub curves: Vec<QuadCurve>,
    pub start: [F32; 2],
    pub current: [F32; 2],
}

impl OutlineBuilder {
    /// An empty path.
    pub fn new() -> (r: OutlineBuilder)
        ensures
            r.curves@.len() == 0,
            r.start == [F32 { bits: 0 }, F32 { bits: 0 }],
            r.current == [F32 { bits: 0 }, F32 { bits: 0 }],
    {
        let zero: F32 = F32 { bits: 0 };
        OutlineBuilder { curves: Vec::new(), start: [zero, zero], current: [zero, zero] }
    }

    /// Starts a contour.
    pub fn move_to(&mut self, p: [F32; 2])
        ensures
            final(self).curves@ == old(self).curves@,
            final(self).start == p,
            final(self).current == p,
    {
        self.start = p;
        self.current = p;
    }

    /// A straight line, as a curve whose control point is its start.
    pub fn line_to(&mut self, p: [F32; 2])
        ensures
            final(self).curves@ == old(self).curves@.push(
                QuadCurve { p1: old(self).current, p2: old(self).current, p3: p },
            ),
            final(self).start == old(self).start,
            final(self).current == p,
    {
        self.curves.push(QuadCurve { p1: self.current, p2: self.current, p3: p });
        self.current = p;
    }

    /// A quadratic curve.
    pub fn quad_to(&mut self, c: [F32; 2], p: [F32; 2])
        ensures
            final(self).curves@ == old(self).curves@.push(QuadCurve { p1: old(self).current, p2: c, p3: p }),
            final(self).start == old(self).start,
            final(self).current == p,
    {
        self.curves.push(QuadCurve { p1: self.current, p2: c, p3: p });
        self.current = p;
    }

    /// A cubic curve, as several quadratic ones.
    pub fn curve_to(&mut self, c1: [F32; 2], c2: [F32; 2], p: [F32; 2])
        ensures
            final(self).curves@ == old(self).curves@ + quads_for(
                old(self).current,
                c1,
                c2,
                p,
                CUBIC_DEPTH as nat,
            ),
            final(self).start == old(self).start,
            final(self).current == p,
    {
        push_quads(&mut self.curves, self.current, c1, c2, p, CUBIC_DEPTH);
        self.current = p;
    }

    /// Ends a contour where it started, by a line if need be.
    pub fn close(&mut self)
        ensures
            final(self).curves@ == if old(self).current == old(self).start {
                old(self).curves@
            } else {
                old(self).curves@.push(
                    QuadCurve { p1: old(self).current, p2: old(self).current, p3: old(self).start },
                )
            },
            final(self).start == old(self).start,
            final(self).current == old(self).start,
    {
        let there: bool = self.current[0] == self.start[0] && self.current[1] == self.start[1];
        proof {
            if there {
                assert(self.current@ =~= self.start@);
                assert(self.current =~= self.start);
            }
        }
        if !there {
            let start: [F32; 2] = self.start;
            self.line_to(start);
        }
    }

    /// The outline, or `None` for an empty path.
    pub fn finish(self) -> (r: Option<GlyphOutline>)
        ensures
            r.is_some() <==> self.curves@.len() > 0,
            r is Some ==> {
                &&& (r->0).curves@ == self.curves@
                &&& (r->0).bounds == control_box(self.curves@, self.curves@.len() as int)
            },
    {
        if self.curves.len() == 0 {
            return None;
        }
        let bounds: [F32; 4] = control_bounds(&self.curves);
        Some(GlyphOutline { curves: self.curves, bounds })
    }
}

}
