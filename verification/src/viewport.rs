//! The uniform block that every text draw reads: target size, scroll and flags.
use vstd::prelude::*;
use crate::float32::{F32, f_eq, f_from_int, saturate, trunc_int, law_small_integers_are_exact};
use crate::types::{ColorMode, Resolution};

verus! {

/// Supersampled coverage and stem darkening.
pub const FLAG_MSAA: u32 = 1;

/// Vertex colors are converted to linear before blending.
pub const FLAG_WEB: u32 = 2;

/// The words of the uniform block.
#[derive(Clone, Copy, Debug)]
pub struct Params {
    pub screen_size: [F32; 2],
    pub scroll_offset: [F32; 2],
    pub flags: u32,
}

/// The current uniform block. Each setter says whether the block changed and
/// has to be uploaded again.
#[derive(Debug)]
pub struct Viewport {
    params: Params,
}

/// Numeric equality of two pairs.
pub open spec fn same_pair(a: Seq<F32>, b: Seq<F32>) -> bool {
    f_eq(a[0], b[0]) && f_eq(a[1], b[1])
}

/// The size of a target as the shader sees it.
pub open spec fn size_of_target(resolution: Resolution) -> Seq<F32> {
    seq![f_from_int(resolution.width as int), f_from_int(resolution.height as int)]
}

/// A float as an unsigned integer, towards zero and kept in range.
pub open spec fn whole_pixels(a: F32) -> int {
    saturate(a, trunc_int(a), 0, u32::MAX as int)
}

/// The flags after the color mode is set.
pub open spec fn with_color_mode(flags: u32, mode: ColorMode) -> u32 {
    match mode {
        ColorMode::Accurate => flags & !FLAG_WEB,
        ColorMode::Web => flags | FLAG_WEB,
    }
}

/// The flags after supersampling is switched.
pub open spec fn with_msaa_hint(flags: u32, enabled: bool) -> u32 {
    if enabled { flags | FLAG_MSAA } else { flags & !FLAG_MSAA }
}

fn same_values(a: &[F32; 2], b: &[F32; 2]) -> (r: bool)
    ensures
        r == same_pair(a@, b@),
{
    a[0].eq_value(b[0]) && a[1].eq_value(b[1])
}

/// A float as an unsigned integer, towards zero and kept in range.
fn to_pixels(a: F32) -> (r: u32)
    ensures
        r == whole_pixels(a),
{
    let whole: i64 = a.trunc_i64();
    if whole < 0 {
        0
    } else if whole > 0xffff_ffff {
        u32::MAX
    } else {
        whole as u32
    }
}

impl Viewport {
    /// The block as it would be uploaded.
    pub closed spec fn block(&self) -> Params {
        self.params
    }

    /// An empty target, no scroll, supersampling on.
    pub fn new() -> (r: Viewport)
        ensures
            r.block().screen_size@ == seq![F32 { bits: 0 }, F32 { bits: 0 }],
            r.block().scroll_offset@ == seq![F32 { bits: 0 }, F32 { bits: 0 }],
            r.block().flags == FLAG_MSAA,
    {
        let zero: F32 = F32 { bits: 0 };
        let r = Viewport {
            params: Params { screen_size: [zero, zero], scroll_offset: [zero, zero], flags: FLAG_MSAA },
        };
        assert(r.params.screen_size@ =~= seq![zero, zero]);
        assert(r.params.scroll_offset@ =~= seq![zero, zero]);
        r
    }

    /// The block as it would be uploaded.
    pub fn params(&self) -> (r: Params)
        ensures
            r == self.block(),
    {
        self.params
    }

    /// Sets the target size.
    pub fn update(&mut self, resolution: Resolution) -> (changed: bool)
        ensures
            changed == !same_pair(old(self).block().screen_size@, size_of_target(resolution)),
            !changed ==> *final(self) == *old(self),
            changed ==> {
                &&& final(self).block().screen_size@ == size_of_target(resolution)
                &&& final(self).block().scroll_offset == old(self).block().scroll_offset
                &&& final(self).block().flags == old(self).block().flags
            },
    {
        let size: [F32; 2] = [
            F32::from_i64(resolution.width as i64),
            F32::from_i64(resolution.height as i64),
        ];
        assert(size@ =~= size_of_target(resolution));
        if same_values(&self.params.screen_size, &size) {
            return false;
        }
        self.params.screen_size = size;
        true
    }

    /// Sets the color mode. In `Web` mode the shader converts vertex colors to
    /// linear before it blends.
    pub fn set_color_mode(&mut self, mode: ColorMode) -> (changed: bool)
        ensures
            final(self).block() == (Params {
                flags: with_color_mode(old(self).block().flags, mode),
                ..old(self).block()
            }),
            changed == (final(self).block().flags != old(self).block().flags),
    {
        let flags: u32 = match mode {
            ColorMode::Accurate => self.params.flags & !FLAG_WEB,
            ColorMode::Web => self.params.flags | FLAG_WEB,
        };
        if self.params.flags == flags {
            return false;
        }
        self.params.flags = flags;
        true
    }

    /// The flags, so that an offscreen pass can be encoded like the screen's.
    pub fn flags(&self) -> (r: u32)
        ensures
            r == self.block().flags,
    {
        self.params.flags
    }

    /// The target size in whole pixels.
    pub fn resolution(&self) -> (r: Resolution)
        ensures
            r.width == whole_pixels(self.block().screen_size@[0]),
            r.height == whole_pixels(self.block().screen_size@[1]),
    {
        Resolution {
            width: to_pixels(self.params.screen_size[0]),
            height: to_pixels(self.params.screen_size[1]),
        }
    }

    /// The scroll that the vertex shader adds, in pixels.
    pub fn scroll_offset(&self) -> (r: [F32; 2])
        ensures
            r == self.block().scroll_offset,
    {
        self.params.scroll_offset
    }

    /// Sets the scroll that the vertex shader adds, in pixels.
    pub fn set_scroll_offset(&mut self, offset: [F32; 2]) -> (changed: bool)
        ensures
            changed == !same_pair(old(self).block().scroll_offset@, offset@),
            !changed ==> *final(self) == *old(self),
            changed ==> final(self).block() == (Params {
                scroll_offset: offset,
                ..old(self).block()
            }),
    {
        if same_values(&self.params.scroll_offset, &offset) {
            return false;
        }
        self.params.scroll_offset = offset;
        true
    }

    /// Switches supersampling and stem darkening.
    pub fn set_msaa_hint(&mut self, enabled: bool) -> (changed: bool)
        ensures
            final(self).block() == (Params {
                flags: with_msaa_hint(old(self).block().flags, enabled),
                ..old(self).block()
            }),
            changed == (final(self).block().flags != old(self).block().flags),
    {
        let flags: u32 = if enabled { self.params.flags | FLAG_MSAA } else { self.params.flags & !FLAG_MSAA };
        if self.params.flags == flags {
            return false;
        }
        self.params.flags = flags;
        true
    }
}

/// Each flag setter leaves the other flag as it was and decides its own.
pub proof fn law_flags_are_independent(flags: u32, mode: ColorMode, enabled: bool)
    ensures
        with_color_mode(flags, mode) & FLAG_MSAA == flags & FLAG_MSAA,
        with_msaa_hint(flags, enabled) & FLAG_WEB == flags & FLAG_WEB,
        (with_color_mode(flags, mode) & FLAG_WEB != 0) <==> mode is Web,
        (with_msaa_hint(flags, enabled) & FLAG_MSAA != 0) <==> enabled,
        with_msaa_hint(with_color_mode(flags, mode), enabled) == with_color_mode(
            with_msaa_hint(flags, enabled),
            mode,
        ),
{
    assert((flags | 2) & 1 == flags & 1 && (flags & !2u32) & 1 == flags & 1) by (bit_vector);
    assert((flags | 1) & 2 == flags & 2 && (flags & !1u32) & 2 == flags & 2) by (bit_vector);
    assert((flags | 2) & 2 == 2 && (flags & !2u32) & 2 == 0) by (bit_vector);
    assert((flags | 1) & 1 == 1 && (flags & !1u32) & 1 == 0) by (bit_vector);
    assert((flags | 2) | 1 == (flags | 1) | 2 && (flags | 2) & !1u32 == (flags & !1u32) | 2) by (bit_vector);
    assert((flags & !2u32) | 1 == (flags | 1) & !2u32 && (flags & !2u32) & !1u32 == (flags & !1u32) & !2u32)
        by (bit_vector);
}

/// Setting a flag twice is setting it once, so the second call reports no
/// change.
pub proof fn law_flag_setters_are_idempotent(flags: u32, mode: ColorMode, enabled: bool)
    ensures
        with_color_mode(with_color_mode(flags, mode), mode) == with_color_mode(flags, mode),
        with_msaa_hint(with_msaa_hint(flags, enabled), enabled) == with_msaa_hint(flags, enabled),
{
    assert((flags | 2) | 2 == flags | 2 && (flags & !2u32) & !2u32 == flags & !2u32) by (bit_vector);
    assert((flags | 1) | 1 == flags | 1 && (flags & !1u32) & !1u32 == flags & !1u32) by (bit_vector);
}

/// A target of up to 2^24 pixels a side is reported as it was set.
pub proof fn law_resolution_round_trip(resolution: Resolution)
    requires
        resolution.width <= 0x100_0000,
        resolution.height <= 0x100_0000,
    ensures
        whole_pixels(size_of_target(resolution)[0]) == resolution.width,
        whole_pixels(size_of_target(resolution)[1]) == resolution.height,
{
    law_small_integers_are_exact(resolution.width as int);
    law_small_integers_are_exact(resolution.height as int);
}

}
