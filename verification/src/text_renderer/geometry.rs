//! Placement and visibility of glyph quads.
use vstd::prelude::*;
use vstd::arithmetic::power2::{pow2, lemma2_to64, lemma2_to64_rest, lemma_pow2_pos, lemma_pow2_strictly_increases, lemma_pow2_unfold};
use crate::float32::{F32, doubled_until, f_add, f_sub, f_mul, f_le, f_eq, f_from_int, ONE_BITS};
use crate::text_renderer::layout::LayoutRun;
use crate::types::{DecorationExtents, Resolution, TextBounds};

verus! {

/// What one instance of a vector glyph quad reads.
#[derive(Clone, Copy, Debug)]
pub struct GlyphInstance {
    /// Origin and size of the quad, unscrolled.
    pub screen_rect: [F32; 4],
    pub color: [F32; 4],
    /// Where the glyph's data starts in the atlas.
    pub glyph_offset: u32,
    /// Length of the glyph's commands in texels, or zero for a plain glyph.
    pub cmd_texel_count: u32,
    pub depth: F32,
    pub ppem: F32,
}

/// How a cached area relates to a requested placement.
#[derive(Clone, Copy, Debug, PartialEq, Eq, Structural)]
pub enum PlacementClass {
    /// Nothing moved.
    Direct,
    /// The cached candidates can be shifted and culled again.
    ReCull,
    /// The area has to be laid out again.
    Miss,
}

/// A text area's bounds within the target: left, top, right, bottom. The target's
/// size is read as a signed number.
pub open spec fn clipped(bounds: TextBounds, resolution: Resolution) -> [i32; 4] {
    let width = resolution.width as i32;
    let height = resolution.height as i32;
    [
        if bounds.left < 0 { 0i32 } else { bounds.left },
        if bounds.top < 0 { 0i32 } else { bounds.top },
        if width < bounds.right { width } else { bounds.right },
        if height < bounds.bottom { height } else { bounds.bottom },
    ]
}

/// A run's box, widened by what its decorations reach above and below, meets the
/// bounds.
pub open spec fn run_meets(
    top: F32,
    scale: F32,
    scroll_y: F32,
    line_top: F32,
    line_height: F32,
    min_y: i32,
    max_y: i32,
    extents: DecorationExtents,
) -> bool {
    let start = f_add(f_add(top, f_mul(line_top, scale)), scroll_y);
    let end = f_add(start, f_mul(line_height, scale));
    f_le(f_sub(start, extents.top), f_from_int(max_y as int)) && f_le(
        f_from_int(min_y as int),
        f_add(end, extents.bottom),
    )
}

/// A quad, widened by one pixel and by what its decorations reach on each side,
/// meets the bounds.
pub open spec fn rect_meets(rect: Seq<F32>, scroll: Seq<F32>, bounds: Seq<i32>, extents: DecorationExtents) -> bool {
    let one = F32 { bits: ONE_BITS };
    let x = f_add(rect[0], scroll[0]);
    let y = f_add(rect[1], scroll[1]);
    &&& f_le(f_from_int(bounds[0] as int), f_add(f_add(f_add(x, rect[2]), extents.right), one))
    &&& f_le(f_sub(f_sub(x, extents.left), one), f_from_int(bounds[2] as int))
    &&& f_le(f_from_int(bounds[1] as int), f_add(f_add(f_add(y, rect[3]), extents.bottom), one))
    &&& f_le(f_sub(f_sub(y, extents.top), one), f_from_int(bounds[3] as int))
}

/// The class of a placement. A shift needs glyph images placed anew, so an area
/// with raster candidates can only be culled again in place.
pub open spec fn placement_class(dx: F32, dy: F32, scroll_matches: bool, complete: bool, raster: bool) -> PlacementClass {
    let zero = F32 { bits: 0 };
    let still = f_eq(dx, zero) && f_eq(dy, zero);
    if still && scroll_matches {
        PlacementClass::Direct
    } else if complete && (!raster || still) {
        PlacementClass::ReCull
    } else {
        PlacementClass::Miss
    }
}

/// An instance moved on screen.
pub open spec fn shifted(instance: GlyphInstance, dx: F32, dy: F32) -> GlyphInstance {
    let r = instance.screen_rect;
    GlyphInstance { screen_rect: [f_add(r@[0], dx), f_add(r@[1], dy), r@[2], r@[3]], ..instance }
}

/// Where instances are moved to and what they are culled against.
pub struct Placement {
    pub dx: F32,
    pub dy: F32,
    pub scroll: Seq<F32>,
    pub bounds: Seq<i32>,
    pub extents: DecorationExtents,
}

impl Placement {
    /// The instance is visible once moved.
    pub open spec fn keeps(self, instance: GlyphInstance) -> bool {
        rect_meets(shifted(instance, self.dx, self.dy).screen_rect@, self.scroll, self.bounds, self.extents)
    }
}

/// The first `n` instances, moved, without those that are not visible.
pub open spec fn kept_instances(instances: Seq<GlyphInstance>, p: Placement, n: int) -> Seq<GlyphInstance>
    decreases n,
{
    if n <= 0 {
        Seq::empty()
    } else {
        let rest = kept_instances(instances, p, n - 1);
        if p.keeps(instances[n - 1]) { rest.push(shifted(instances[n - 1], p.dx, p.dy)) } else { rest }
    }
}

/// The flags that go with [`kept_instances`]. A flag that is missing counts as
/// unset.
pub open spec fn kept_flags(instances: Seq<GlyphInstance>, flags: Seq<bool>, p: Placement, n: int) -> Seq<bool>
    decreases n,
{
    if n <= 0 {
        Seq::empty()
    } else {
        let rest = kept_flags(instances, flags, p, n - 1);
        if p.keeps(instances[n - 1]) { rest.push(n - 1 < flags.len() && flags[n - 1]) } else { rest }
    }
}

/// All instances are visible once moved.
pub open spec fn all_kept(instances: Seq<GlyphInstance>, p: Placement) -> bool {
    forall|i: int| 0 <= i < instances.len() ==> p.keeps(#[trigger] instances[i])
}

/// The depth of glyphs for which the caller gives none.
pub fn zero_depth(_metadata: usize) -> (r: F32)
    ensures
        r == (F32 { bits: 0 }),
{
    F32 { bits: 0 }
}

/// A text area's bounds within the target.
#[verifier::truncate]
pub fn clipped_bounds(bounds: TextBounds, resolution: Resolution) -> (r: [i32; 4])
    ensures
        r == clipped(bounds, resolution),
{
    let width: i32 = resolution.width as i32;
    let height: i32 = resolution.height as i32;
    [
        if bounds.left < 0 { 0 } else { bounds.left },
        if bounds.top < 0 { 0 } else { bounds.top },
        if width < bounds.right { width } else { bounds.right },
        if height < bounds.bottom { height } else { bounds.bottom },
    ]
}

/// Whether a run, with what its decorations reach above and below, meets the
/// bounds. The two reaches act independently: a shadow below a run does not bring
/// back a run that lies below the bounds.
pub fn run_is_visible(
    top: F32,
    scale: F32,
    scroll_y: F32,
    run: &LayoutRun,
    bounds_min_y: i32,
    bounds_max_y: i32,
    extents: DecorationExtents,
) -> (r: bool)
    ensures
        r == run_meets(
            top,
            scale,
            scroll_y,
            run.line_top,
            run.line_height,
            bounds_min_y,
            bounds_max_y,
            extents,
        ),
{
    let start: F32 = top.plus(run.line_top.times(scale)).plus(scroll_y);
    let end: F32 = start.plus(run.line_height.times(scale));
    let low: F32 = F32::from_i64(bounds_min_y as i64);
    let high: F32 = F32::from_i64(bounds_max_y as i64);
    start.minus(extents.top).le(high) && low.le(end.plus(extents.bottom))
}

/// Whether a quad, with one pixel of slack and what its decorations reach on each
/// side, meets the bounds.
pub fn vector_rect_visible(screen_rect: [F32; 4], scroll: [F32; 2], bounds: [i32; 4], extents: DecorationExtents) -> (r: bool)
    ensures
        r == rect_meets(screen_rect@, scroll@, bounds@, extents),
{
    let one: F32 = F32 { bits: ONE_BITS };
    let x: F32 = screen_rect[0].plus(scroll[0]);
    let y: F32 = screen_rect[1].plus(scroll[1]);
    let left: F32 = F32::from_i64(bounds[0] as i64);
    let top: F32 = F32::from_i64(bounds[1] as i64);
    let right: F32 = F32::from_i64(bounds[2] as i64);
    let bottom: F32 = F32::from_i64(bounds[3] as i64);
    left.le(x.plus(screen_rect[2]).plus(extents.right).plus(one)) && x.minus(extents.left).minus(one).le(right)
        && top.le(y.plus(screen_rect[3]).plus(extents.bottom).plus(one)) && y.minus(extents.top).minus(one).le(bottom)
}

/// Classifies a placement of a cached area.
pub fn classify_placement(dx: F32, dy: F32, scroll_matches: bool, complete: bool, has_raster_candidates: bool) -> (r: PlacementClass)
    ensures
        r == placement_class(dx, dy, scroll_matches, complete, has_raster_candidates),
{
    let zero: F32 = F32 { bits: 0 };
    let still: bool = dx.eq_value(zero) && dy.eq_value(zero);
    if still && scroll_matches {
        return PlacementClass::Direct;
    }
    if complete && (!has_raster_candidates || still) {
        return PlacementClass::ReCull;
    }
    PlacementClass::Miss
}

/// Moves cached instances and culls them again. The flags are filtered in step
/// with them. The result is complete if the input was and nothing was culled.
pub fn re_cull_vector_instances(
    instances: &[GlyphInstance],
    decorated: &[bool],
    complete: bool,
    dx: F32,
    dy: F32,
    scroll: [F32; 2],
    bounds: [i32; 4],
    extents: DecorationExtents,
) -> (r: (Vec<GlyphInstance>, Vec<bool>, bool))
    ensures
        ({
            let p = Placement { dx, dy, scroll: scroll@, bounds: bounds@, extents };
            &&& r.0@ == kept_instances(instances@, p, instances@.len() as int)
            &&& r.1@ == kept_flags(instances@, decorated@, p, instances@.len() as int)
            &&& r.2 == (complete && all_kept(instances@, p))
        }),
{
    let ghost p = Placement { dx, dy, scroll: scroll@, bounds: bounds@, extents };
    let mut visible: Vec<GlyphInstance> = Vec::new();
    let mut flags: Vec<bool> = Vec::new();
    let mut whole: bool = complete;
    for i in 0..instances.len()
        invariant
            p == (Placement { dx, dy, scroll: scroll@, bounds: bounds@, extents }),
            visible@ == kept_instances(instances@, p, i as int),
            flags@ == kept_flags(instances@, decorated@, p, i as int),
            whole == (complete && forall|j: int| 0 <= j < i ==> p.keeps(#[trigger] instances@[j])),
    {
        let instance: GlyphInstance = instances[i];
        let moved: GlyphInstance = GlyphInstance {
            screen_rect: [
                instance.screen_rect[0].plus(dx),
                instance.screen_rect[1].plus(dy),
                instance.screen_rect[2],
                instance.screen_rect[3],
            ],
            ..instance
        };
        assert(moved == shifted(instances@[i as int], dx, dy));
        if vector_rect_visible(moved.screen_rect, scroll, bounds, extents) {
            assert(p.keeps(instances@[i as int]));
            visible.push(moved);
            flags.push(i < decorated.len() && decorated[i]);
        } else {
            assert(!p.keeps(instances@[i as int]));
            whole = false;
        }
    }
    (visible, flags, whole)
}

fn same_quad(a: &[F32; 4], b: &[F32; 4]) -> (r: bool)
    ensures
        r == (*a == *b),
{
    let r: bool = a[0] == b[0] && a[1] == b[1] && a[2] == b[2] && a[3] == b[3];
    proof {
        if r {
            assert(a@ =~= b@);
            assert(*a =~= *b);
        }
    }
    r
}

/// Whether two instance streams hold the same words.
pub fn instance_stream_unchanged(current: &[GlyphInstance], previous: &[GlyphInstance]) -> (r: bool)
    ensures
        r == (current@ == previous@),
{
    if current.len() != previous.len() {
        return false;
    }
    for i in 0..current.len()
        invariant
            current@.len() == previous@.len(),
            forall|j: int| 0 <= j < i ==> current@[j] == #[trigger] previous@[j],
    {
        let a: GlyphInstance = current[i];
        let b: GlyphInstance = previous[i];
        let same: bool = same_quad(&a.screen_rect, &b.screen_rect) && same_quad(&a.color, &b.color) && a.glyph_offset
            == b.glyph_offset && a.cmd_texel_count == b.cmd_texel_count && a.depth == b.depth && a.ppem == b.ppem;
        assert(same == (current@[i as int] == previous@[i as int]));
        if !same {
            return false;
        }
    }
    assert(current@ =~= previous@);
    true
}

/// The first of `start, 2 * start, 4 * start, ...` that reaches `size`, where
/// `start` is `2^e`.
fn doubled(start: u64, size: u64, Ghost(e): Ghost<nat>) -> (r: u64)
    requires
        start == pow2(e),
        e <= 63,
        size <= 0x8000_0000_0000_0000,
    ensures
        r == doubled_until(start as int, size as int),
{
    let mut r: u64 = start;
    let ghost mut k = e;
    proof {
        lemma2_to64_rest();
        lemma_pow2_pos(e);
    }
    while r < size
        invariant
            0 < r,
            r == pow2(k),
            k <= 63,
            pow2(63) == 0x8000_0000_0000_0000,
            size <= 0x8000_0000_0000_0000,
            doubled_until(r as int, size as int) == doubled_until(start as int, size as int),
        decreases 64 - k,
    {
        proof {
            if k == 63 {
                assert(false);
            }
            k = k + 1;
            lemma_pow2_unfold(k);
            if k < 63 {
                lemma_pow2_strictly_increases(k, 63);
            }
        }
        r = r * 2;
    }
    r
}

/// The size of a vertex buffer for `size` bytes: a power of two that is a
/// multiple of the copy alignment.
pub fn next_copy_buffer_size(size: u64) -> (r: u64)
    requires
        size <= 0x8000_0000_0000_0000,
    ensures
        r == doubled_until(4, size as int),
{
    proof {
        lemma2_to64();
    }
    doubled(4, size, Ghost(2))
}

/// The size of a raster vertex buffer for `size` bytes.
pub fn raster_buffer_size(size: u64) -> (r: u64)
    requires
        size <= 0x8000_0000_0000_0000,
    ensures
        r == doubled_until(4096, size as int),
{
    proof {
        lemma2_to64();
    }
    doubled(4096, size, Ghost(12))
}

/// The distance between two blocks of 32 bytes whose offsets are multiples of a
/// device's alignment.
pub open spec fn stride_for(alignment: u32) -> int {
    let a = if alignment == 0 { 1 } else { alignment as int };
    (32 + a - 1) / a * a
}

/// The distance between two decoration uniforms.
pub fn uniform_stride(alignment: u32) -> (r: u64)
    ensures
        r == stride_for(alignment),
{
    let a: u64 = if alignment == 0 { 1 } else { alignment as u64 };
    let n: u64 = (32 + a - 1) / a;
    proof {
        assert(n * a <= 31 + a) by (nonlinear_arith)
            requires
                n == (31 + a) / (a as int),
                a > 0,
        ;
    }
    n * a
}

/// A stride holds a block and is a multiple of the alignment, and no smaller one
/// is.
pub proof fn law_stride_is_least(alignment: u32, k: int)
    requires
        alignment > 0,
        k * alignment >= 32,
    ensures
        stride_for(alignment) >= 32,
        stride_for(alignment) % alignment as int == 0,
        stride_for(alignment) <= k * alignment,
{
    let a = alignment as int;
    let n = (31 + a) / a;
    vstd::arithmetic::div_mod::lemma_fundamental_div_mod(31 + a, a);
    vstd::arithmetic::div_mod::lemma_mod_multiples_basic(n, a);
    assert(n * a == a * n) by (nonlinear_arith);
    assert(n <= k) by (nonlinear_arith)
        requires
            k * a >= 32,
            n * a <= 31 + a,
            a > 0,
    ;
    assert(n * a <= k * a) by (nonlinear_arith)
        requires
            n <= k,
            a > 0,
    ;
}

/// Culling again keeps the flags in step with the instances, and a complete
/// result holds every instance.
pub proof fn law_flags_stay_in_step(instances: Seq<GlyphInstance>, flags: Seq<bool>, p: Placement, n: int)
    requires
        0 <= n <= instances.len(),
    ensures
        kept_flags(instances, flags, p, n).len() == kept_instances(instances, p, n).len(),
        kept_instances(instances, p, n).len() <= n,
        all_kept(instances, p) ==> {
            &&& kept_instances(instances, p, n).len() == n
            &&& forall|i: int|
                0 <= i < n ==> #[trigger] kept_instances(instances, p, n)[i] == shifted(instances[i], p.dx, p.dy)
            &&& forall|i: int|
                0 <= i < n ==> #[trigger] kept_flags(instances, flags, p, n)[i] == (i < flags.len() && flags[i])
        },
    decreases n,
{
    if n > 0 {
        law_flags_stay_in_step(instances, flags, p, n - 1);
        assert(all_kept(instances, p) ==> p.keeps(instances[n - 1]));
    }
}

}
