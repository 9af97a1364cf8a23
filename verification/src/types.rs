//! Values that cross the library's boundary.
use vstd::prelude::*;
use crate::float32::{F32, f_add, f_sub, f_mul, f_div, f_max, f_lt, f_eq, f_from_int, ceil_int, saturate, FOUR_BITS};

verus! {

/// Why text could not be prepared.
#[derive(Clone, Copy, Debug, PartialEq, Eq, Structural)]
pub enum PrepareError {
    /// The glyph data does not fit the atlas.
    AtlasFull,
    /// The decorations of an area cannot be drawn as asked.
    InvalidDecorations(DecorationError),
}

/// Why text could not be rendered.
#[derive(Clone, Copy, Debug, PartialEq, Eq, Structural)]
pub enum RenderError {
    /// The prepared data belongs to another atlas or to an earlier layout of it.
    RemovedFromAtlas,
}

/// The size of a render target in pixels.
#[derive(Clone, Copy, Debug, PartialEq, Eq, Structural)]
pub struct Resolution {
    pub width: u32,
    pub height: u32,
}

/// A visible rectangle in pixels.
#[derive(Clone, Copy, Debug, PartialEq, Eq, Structural)]
pub struct TextBounds {
    pub left: i32,
    pub top: i32,
    pub right: i32,
    pub bottom: i32,
}

/// How colors are blended.
#[derive(Clone, Copy, Debug, PartialEq, Eq, Structural)]
pub enum ColorMode {
    /// Linear blending with conversion to the target's encoding.
    Accurate,
    /// Blending of encoded values, as web browsers do.
    Web,
}

/// How a decoration relates to the fill of its glyphs.
#[derive(Clone, Copy, Debug, PartialEq, Eq, Structural)]
pub enum DecorationMode {
    /// Painted beneath a fill that is drawn separately.
    Solid,
    /// Painted together with the fill.
    Ring,
}

/// Why a list of decorations cannot be drawn.
#[derive(Clone, Copy, Debug, PartialEq, Eq, Structural)]
pub enum DecorationError {
    /// A ring supplies the fill, so only the topmost decoration can be one.
    RingNotFirst,
    /// A ring is drawn analytically and cannot be blurred.
    BlurredRing,
    /// A blurred shadow is made from the undilated glyphs.
    BlurWithSpread,
}

/// A decoration of a text area, in logical pixels. A list of them is ordered
/// like CSS `text-shadow`: the first entry is painted on top.
#[derive(Clone, Copy, Debug)]
pub struct TextDecoration {
    /// `0xAARRGGBB`.
    pub color: u32,
    /// Dilation of the glyphs.
    pub spread: F32,
    /// Displacement.
    pub offset: [F32; 2],
    /// Standard deviation of the blur, or zero for a hard edge.
    pub blur: F32,
    pub mode: DecorationMode,
}

/// A decoration in physical pixels.
#[derive(Clone, Copy, Debug)]
pub struct PhysicalDecoration {
    pub color: [F32; 4],
    pub spread: F32,
    pub mode: DecorationMode,
    pub offset: [F32; 2],
    pub blur: F32,
}

/// One byte of a color as a fraction of 255.
pub open spec fn channel(byte: int) -> F32 {
    f_div(f_from_int(byte), f_from_int(255))
}

/// Red, green, blue and alpha of an `0xAARRGGBB` color as fractions.
pub open spec fn channels(c: u32) -> [F32; 4] {
    [
        channel(c as int / 0x1_0000 % 0x100),
        channel(c as int / 0x100 % 0x100),
        channel(c as int % 0x100),
        channel(c as int / 0x100_0000),
    ]
}

/// Whether a blur of this deviation does anything.
pub open spec fn blurs(blur: F32) -> bool {
    f_lt(F32 { bits: 0 }, blur)
}

/// How far the kernel of a blur reaches: four deviations, in whole pixels.
pub open spec fn support_of(blur: F32) -> F32 {
    let reach = f_mul(F32 { bits: FOUR_BITS }, blur);
    f_from_int(saturate(reach, ceil_int(reach), 0, u32::MAX as int))
}

/// What is wrong with entry `i` of a list of decorations, if anything.
pub open spec fn fault(list: Seq<TextDecoration>, i: int) -> Option<DecorationError> {
    let d = list[i];
    if d.mode == DecorationMode::Ring && i != 0 {
        Some(DecorationError::RingNotFirst)
    } else if d.mode == DecorationMode::Ring && blurs(d.blur) {
        Some(DecorationError::BlurredRing)
    } else if blurs(d.blur) && !f_eq(d.spread, F32 { bits: 0 }) {
        Some(DecorationError::BlurWithSpread)
    } else {
        None
    }
}

/// `e` is what is wrong with the first faulty entry.
pub open spec fn first_fault(list: Seq<TextDecoration>, e: DecorationError) -> bool {
    exists|i: int| #[trigger] fault_at(list, i, e)
}

pub open spec fn fault_at(list: Seq<TextDecoration>, i: int, e: DecorationError) -> bool {
    &&& 0 <= i < list.len()
    &&& fault(list, i) == Some(e)
    &&& forall|j: int| 0 <= j < i ==> (#[trigger] fault(list, j)).is_none()
}

/// Every entry can be drawn as asked.
pub open spec fn drawable(list: Seq<TextDecoration>) -> bool {
    forall|i: int| 0 <= i < list.len() ==> (#[trigger] fault(list, i)).is_none()
}

/// A decoration in physical pixels.
pub open spec fn physical_of(d: TextDecoration, scale: F32) -> PhysicalDecoration {
    PhysicalDecoration {
        color: channels(d.color),
        spread: f_mul(d.spread, scale),
        mode: d.mode,
        offset: [f_mul(d.offset@[0], scale), f_mul(d.offset@[1], scale)],
        blur: f_mul(d.blur, scale),
    }
}

/// Red, green, blue and alpha of an `0xAARRGGBB` color as fractions.
pub fn color_to_f32(c: u32) -> (r: [F32; 4])
    ensures
        r == channels(c),
{
    let full: F32 = F32::from_i64(255);
    [
        F32::from_i64((c / 0x1_0000 % 0x100) as i64).over(full),
        F32::from_i64((c / 0x100 % 0x100) as i64).over(full),
        F32::from_i64((c % 0x100) as i64).over(full),
        F32::from_i64((c / 0x100_0000) as i64).over(full),
    ]
}

/// How far the kernel of a blur reaches, in pixels.
pub fn blur_support(blur: F32) -> (r: F32)
    ensures
        r == support_of(blur),
{
    let four: F32 = F32 { bits: FOUR_BITS };
    F32::from_i64(four.times(blur).ceil_u32() as i64)
}

impl TextDecoration {
    /// A hard outline of the given width.
    pub fn outline(color: u32, width: F32) -> (r: TextDecoration)
        ensures
            r == (TextDecoration {
                color,
                spread: width,
                offset: [F32 { bits: 0 }, F32 { bits: 0 }],
                blur: F32 { bits: 0 },
                mode: DecorationMode::Solid,
            }),
    {
        let zero: F32 = F32 { bits: 0 };
        TextDecoration { color, spread: width, offset: [zero, zero], blur: zero, mode: DecorationMode::Solid }
    }

    /// A hard shadow displaced by `(dx, dy)`.
    pub fn shadow(color: u32, dx: F32, dy: F32) -> (r: TextDecoration)
        ensures
            r == (TextDecoration {
                color,
                spread: F32 { bits: 0 },
                offset: [dx, dy],
                blur: F32 { bits: 0 },
                mode: DecorationMode::Solid,
            }),
    {
        let zero: F32 = F32 { bits: 0 };
        TextDecoration { color, spread: zero, offset: [dx, dy], blur: zero, mode: DecorationMode::Solid }
    }

    fn physical(&self, scale: F32) -> (r: PhysicalDecoration)
        ensures
            r == physical_of(*self, scale),
    {
        PhysicalDecoration {
            color: color_to_f32(self.color),
            spread: self.spread.times(scale),
            mode: self.mode,
            offset: [self.offset[0].times(scale), self.offset[1].times(scale)],
            blur: self.blur.times(scale),
        }
    }
}

impl PhysicalDecoration {
    /// Whether the decoration is drawn from a blurred mask.
    pub fn is_filtered(&self) -> (r: bool)
        ensures
            r == blurs(self.blur),
    {
        let zero: F32 = F32 { bits: 0 };
        zero.lt(self.blur)
    }
}

/// Reports the first decoration that cannot be drawn as asked.
pub fn validate_decorations(list: &[TextDecoration]) -> (r: Result<(), DecorationError>)
    ensures
        r.is_ok() <==> drawable(list@),
        r is Err ==> first_fault(list@, r->Err_0),
{
    let zero: F32 = F32 { bits: 0 };
    for i in 0..list.len()
        invariant
            zero == (F32 { bits: 0 }),
            forall|j: int| 0 <= j < i ==> (#[trigger] fault(list@, j)).is_none(),
    {
        let d = list[i];
        let filtered: bool = zero.lt(d.blur);
        let ring: bool = d.mode == DecorationMode::Ring;
        let flat: bool = d.spread.eq_value(zero);
        let error: Option<DecorationError> = if ring && i != 0 {
            Some(DecorationError::RingNotFirst)
        } else if ring && filtered {
            Some(DecorationError::BlurredRing)
        } else if filtered && !flat {
            Some(DecorationError::BlurWithSpread)
        } else {
            None
        };
        assert(error == fault(list@, i as int));
        if let Some(e) = error {
            assert(fault_at(list@, i as int, e));
            return Err(e);
        }
    }
    Ok(())
}

/// How far the decorations of an area reach past its glyphs, per side, in
/// physical pixels.
#[derive(Clone, Copy, Debug)]
pub struct DecorationExtents {
    pub left: F32,
    pub top: F32,
    pub right: F32,
    pub bottom: F32,
}

/// The reach of one decoration before its displacement.
pub open spec fn reach_of(d: PhysicalDecoration, aa: F32) -> F32 {
    let dilated = f_add(d.spread, aa);
    if blurs(d.blur) { f_add(dilated, support_of(d.blur)) } else { dilated }
}

/// The reach of a list of decorations, folded from the front.
pub open spec fn extents_of(list: Seq<PhysicalDecoration>, aa: F32) -> DecorationExtents
    decreases list.len(),
{
    if list.len() == 0 {
        no_extents()
    } else {
        let e = extents_of(list.drop_last(), aa);
        let d = list.last();
        let reach = reach_of(d, aa);
        DecorationExtents {
            left: f_max(e.left, f_sub(reach, d.offset@[0])),
            top: f_max(e.top, f_sub(reach, d.offset@[1])),
            right: f_max(e.right, f_add(reach, d.offset@[0])),
            bottom: f_max(e.bottom, f_add(reach, d.offset@[1])),
        }
    }
}

/// No reach on any side.
pub open spec fn no_extents() -> DecorationExtents {
    let zero = F32 { bits: 0 };
    DecorationExtents { left: zero, top: zero, right: zero, bottom: zero }
}

/// Numeric equality side by side.
pub open spec fn same_extents(a: DecorationExtents, b: DecorationExtents) -> bool {
    f_eq(a.left, b.left) && f_eq(a.top, b.top) && f_eq(a.right, b.right) && f_eq(a.bottom, b.bottom)
}

impl Default for DecorationExtents {
    fn default() -> (r: DecorationExtents)
        ensures
            r == no_extents(),
    {
        let zero: F32 = F32 { bits: 0 };
        DecorationExtents { left: zero, top: zero, right: zero, bottom: zero }
    }
}

impl DecorationExtents {
    /// The reach of `list`, with `aa` pixels of antialiasing around each entry.
    pub fn of(list: &[PhysicalDecoration], aa: F32) -> (r: DecorationExtents)
        ensures
            r == extents_of(list@, aa),
    {
        let zero: F32 = F32 { bits: 0 };
        let mut r = DecorationExtents { left: zero, top: zero, right: zero, bottom: zero };
        assert(list@.take(0) =~= Seq::empty());
        for i in 0..list.len()
            invariant
                r == extents_of(list@.take(i as int), aa),
        {
            let d = list[i];
            let dilated: F32 = d.spread.plus(aa);
            let reach: F32 = if d.is_filtered() { dilated.plus(blur_support(d.blur)) } else { dilated };
            proof {
                assert(list@.take(i + 1).drop_last() =~= list@.take(i as int));
                assert(list@.take(i + 1).last() == d);
            }
            r = DecorationExtents {
                left: r.left.max(reach.minus(d.offset[0])),
                top: r.top.max(reach.minus(d.offset[1])),
                right: r.right.max(reach.plus(d.offset[0])),
                bottom: r.bottom.max(reach.plus(d.offset[1])),
            };
        }
        assert(list@.take(list@.len() as int) =~= list@);
        r
    }

    /// Numeric equality side by side.
    pub fn same(&self, other: &DecorationExtents) -> (r: bool)
        ensures
            r == same_extents(*self, *other),
    {
        self.left.eq_value(other.left) && self.top.eq_value(other.top) && self.right.eq_value(other.right)
            && self.bottom.eq_value(other.bottom)
    }
}

/// A placed text buffer.
#[derive(Debug)]
pub struct TextArea {
    /// Identity of the buffer that holds the text. Areas that show the same
    /// buffer share it.
    pub buffer: u64,
    /// Whether the buffer changed since it was last drawn.
    pub redraw: bool,
    pub left: F32,
    pub top: F32,
    pub scale: F32,
    pub bounds: TextBounds,
    /// `0xAARRGGBB`.
    pub default_color: u32,
    pub decorations: Vec<TextDecoration>,
}

/// The decorations of an area in physical pixels.
pub open spec fn physical_list(area: TextArea) -> Seq<PhysicalDecoration> {
    Seq::new(area.decorations@.len(), |i: int| physical_of(area.decorations@[i], area.scale))
}

impl TextArea {
    /// The decorations in physical pixels, or why they cannot be drawn.
    pub fn physical_decorations(&self) -> (r: Result<Vec<PhysicalDecoration>, PrepareError>)
        ensures
            r.is_ok() <==> drawable(self.decorations@),
            r is Ok ==> r->Ok_0@ == physical_list(*self),
            r is Err ==> r->Err_0 is InvalidDecorations && first_fault(
                self.decorations@,
                r->Err_0->InvalidDecorations_0,
            ),
    {
        if let Err(e) = validate_decorations(self.decorations.as_slice()) {
            return Err(PrepareError::InvalidDecorations(e));
        }
        let mut list: Vec<PhysicalDecoration> = Vec::new();
        for i in 0..self.decorations.len()
            invariant
                list@ == physical_list(*self).take(i as int),
        {
            list.push(self.decorations[i].physical(self.scale));
            assert(list@ =~= physical_list(*self).take(i + 1));
        }
        assert(list@ =~= physical_list(*self));
        Ok(list)
    }
}

}
