//! Prepared areas, kept from frame to frame.
use vstd::prelude::*;
use crate::float32::{F32, f_mul};
use crate::glyph_cache::{GlyphKey, is_monochrome, monochrome};
use crate::raster_text::NonVectorGlyph;
use crate::text_atlas::{AtlasState, TextAtlas, border_start};
use crate::text_renderer::capacity::{BorderUse, bordered_key, bordered_key_for};
use crate::text_renderer::emit::WorkItem;
use crate::text_renderer::geometry::GlyphInstance;
use crate::types::{DecorationExtents, PhysicalDecoration, TextBounds};

verus! {

/// The prepared output of an area, reusable while its text, its style and the
/// atlas stay.
#[derive(Debug)]
pub struct CachedTextArea {
    pub left: F32,
    pub top: F32,
    pub scroll: [F32; 2],
    pub scale: F32,
    pub bounds: TextBounds,
    pub default_color: u32,
    pub decorations: Vec<PhysicalDecoration>,
    /// What the instances were culled against.
    pub extents: DecorationExtents,
    /// Per instance: whether it is an outline in one color, the only kind that a
    /// decoration covers. This is the kind of the glyph and does not depend on
    /// whether the area has decorations.
    pub decorated: Vec<bool>,
    pub atlas_generation: u32,
    pub instances: Vec<GlyphInstance>,
    pub border_instances: Vec<GlyphInstance>,
    pub distinct_keys: Vec<GlyphKey>,
    pub non_vector_glyphs: Vec<NonVectorGlyph>,
    /// Whether the instances are those of the whole area, so that they can be
    /// culled again after a move.
    pub complete: bool,
}

/// The content of a prepared area.
pub ghost struct AreaModel {
    pub left: F32,
    pub top: F32,
    pub scroll: [F32; 2],
    pub scale: F32,
    pub bounds: TextBounds,
    pub default_color: u32,
    pub decorations: Seq<PhysicalDecoration>,
    pub extents: DecorationExtents,
    pub decorated: Seq<bool>,
    pub generation: u32,
    pub instances: Seq<GlyphInstance>,
    pub border: Seq<GlyphInstance>,
    pub keys: Seq<GlyphKey>,
    pub raster: Seq<NonVectorGlyph>,
    pub complete: bool,
}

impl CachedTextArea {
    pub open spec fn model(&self) -> AreaModel {
        AreaModel {
            left: self.left,
            top: self.top,
            scroll: self.scroll,
            scale: self.scale,
            bounds: self.bounds,
            default_color: self.default_color,
            decorations: self.decorations@,
            extents: self.extents,
            decorated: self.decorated@,
            generation: self.atlas_generation,
            instances: self.instances@,
            border: self.border_instances@,
            keys: self.distinct_keys@,
            raster: self.non_vector_glyphs@,
            complete: self.complete,
        }
    }
}

/// The first `n` instances that decorations cover, with their border data.
pub open spec fn border_stream(instances: Seq<GlyphInstance>, keys: Seq<GlyphKey>, atlas: AtlasState, n: int) -> Seq<GlyphInstance>
    decreases n,
{
    if n <= 0 {
        Seq::empty()
    } else {
        let rest = border_stream(instances, keys, atlas, n - 1);
        match bordered_key(atlas, keys, instances[n - 1].glyph_offset, 0) {
            Some(found) => rest.push(
                GlyphInstance { glyph_offset: border_start(atlas, found.0.id())->0, ..instances[n - 1] },
            ),
            None => rest,
        }
    }
}

/// The atlas holds the border data of an instance that decorations cover.
pub open spec fn instance_ready(instance: GlyphInstance, keys: Seq<GlyphKey>, atlas: AtlasState) -> bool {
    match bordered_key(atlas, keys, instance.glyph_offset, 0) {
        Some(found) => border_start(atlas, found.0.id()).is_some(),
        None => true,
    }
}

/// The atlas holds the border data of every instance that decorations cover.
pub open spec fn instances_ready(instances: Seq<GlyphInstance>, keys: Seq<GlyphKey>, atlas: AtlasState) -> bool {
    forall|i: int| 0 <= i < instances.len() ==> instance_ready(#[trigger] instances[i], keys, atlas)
}

/// Rebuilds the border stream of an area from its instances.
pub fn border_instances_of(instances: &Vec<GlyphInstance>, keys: &Vec<GlyphKey>, atlas: &TextAtlas) -> (r: Vec<GlyphInstance>)
    requires
        instances_ready(instances@, keys@, atlas@),
    ensures
        r@ == border_stream(instances@, keys@, atlas@, instances@.len() as int),
{
    let mut r: Vec<GlyphInstance> = Vec::new();
    for i in 0..instances.len()
        invariant
            instances_ready(instances@, keys@, atlas@),
            r@ == border_stream(instances@, keys@, atlas@, i as int),
    {
        let instance: GlyphInstance = instances[i];
        assert(instance_ready(instances@[i as int], keys@, atlas@));
        if let Some((key, _)) = bordered_key_for(atlas, keys.as_slice(), instance.glyph_offset) {
            if let Some(start) = atlas.border_descriptor(&key) {
                r.push(GlyphInstance { glyph_offset: start, ..instance });
            }
        }
    }
    r
}

/// The decorated uses among the first `n` instances of a prepared area.
pub open spec fn uses_of_instances(
    instances: Seq<GlyphInstance>,
    keys: Seq<GlyphKey>,
    atlas: AtlasState,
    radius_px: F32,
    n: int,
) -> Seq<BorderUse>
    decreases n,
{
    if n <= 0 {
        Seq::empty()
    } else {
        let rest = uses_of_instances(instances, keys, atlas, radius_px, n - 1);
        match bordered_key(atlas, keys, instances[n - 1].glyph_offset, 0) {
            Some(found) => rest.push(
                BorderUse { key: found.0, ppem: instances[n - 1].ppem, radius_px, units_per_em: found.1 },
            ),
            None => rest,
        }
    }
}

/// The decorated uses among the first `n` glyphs of a laid-out area.
pub open spec fn uses_of_work(work: Seq<WorkItem>, scale: F32, atlas: AtlasState, radius_px: F32, n: int) -> Seq<BorderUse>
    decreases n,
{
    if n <= 0 {
        Seq::empty()
    } else {
        let rest = uses_of_work(work, scale, atlas, radius_px, n - 1);
        let glyph = work[n - 1].glyph;
        let entry = atlas.glyphs[glyph.key.id()];
        if atlas.glyphs.contains_key(glyph.key.id()) && monochrome(entry) {
            rest.push(
                BorderUse {
                    key: glyph.key,
                    ppem: f_mul(glyph.font_size, scale),
                    radius_px,
                    units_per_em: entry.units_per_em,
                },
            )
        } else {
            rest
        }
    }
}

/// Appends the decorated uses of a prepared area.
pub fn append_uses_of_instances(
    uses: &mut Vec<BorderUse>,
    instances: &Vec<GlyphInstance>,
    keys: &Vec<GlyphKey>,
    atlas: &TextAtlas,
    radius_px: F32,
)
    ensures
        final(uses)@ == old(uses)@ + uses_of_instances(
            instances@,
            keys@,
            atlas@,
            radius_px,
            instances@.len() as int,
        ),
{
    let ghost before = uses@;
    for i in 0..instances.len()
        invariant
            uses@ =~= before + uses_of_instances(instances@, keys@, atlas@, radius_px, i as int),
    {
        let instance: GlyphInstance = instances[i];
        if let Some((key, units_per_em)) = bordered_key_for(atlas, keys.as_slice(), instance.glyph_offset) {
            uses.push(BorderUse { key, ppem: instance.ppem, radius_px, units_per_em });
        }
    }
}

/// Appends the decorated uses of a laid-out area.
pub fn append_uses_of_work(uses: &mut Vec<BorderUse>, work: &Vec<WorkItem>, scale: F32, atlas: &TextAtlas, radius_px: F32)
    ensures
        final(uses)@ == old(uses)@ + uses_of_work(work@, scale, atlas@, radius_px, work@.len() as int),
{
    let ghost before = uses@;
    for i in 0..work.len()
        invariant
            uses@ =~= before + uses_of_work(work@, scale, atlas@, radius_px, i as int),
    {
        let glyph = work[i].glyph;
        if let Some(entry) = atlas.glyph(&glyph.key) {
            if is_monochrome(&entry) {
                uses.push(
                    BorderUse {
                        key: glyph.key,
                        ppem: glyph.font_size.times(scale),
                        radius_px,
                        units_per_em: entry.units_per_em,
                    },
                );
            }
        }
    }
}

}
