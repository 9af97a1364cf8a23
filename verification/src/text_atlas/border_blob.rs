//! Border data of glyphs in the atlas.
use vstd::prelude::*;
use crate::blob_cache::{ResidentBlob, ResidentBorderBlob};
use crate::border::boundary::curves_in_range;
use crate::border::prepare::{
    PreparedBorder, ceiling_for, law_ceiling_covers_its_size, law_ceilings_never_shrink, law_grid_covers_its_radius,
    border_fits, is_border_of, prepare_border,
};
use crate::float32::{F32, TWO_BITS, f_div, f_le, f_max};
use crate::fx::{map_get, map_insert, map_remove};
use crate::glyph_cache::{GlyphEntry, GlyphKey};
use crate::lists::append_words;
use crate::outline::GlyphOutline;
use crate::text_atlas::{AtlasState, TextAtlas, border_start};
use crate::types::PrepareError;

verus! {

/// The border of a resident glyph.
pub open spec fn resident_border(s: AtlasState, id: u128) -> Option<ResidentBorderBlob> {
    if s.residents.contains_key(id) {
        s.residents[id].border
    } else {
        None
    }
}

/// A border serves a size and a query radius.
pub open spec fn serves(border: ResidentBorderBlob, ppem: F32, radius_units: F32) -> bool {
    f_le(ppem, border.ppem_ceiling) && f_le(radius_units, border.grid_radius_units)
}

/// The size to rebuild a border for. A rebuild triggered by one capacity must
/// not shrink the other below what the existing border promised; a border serves
/// twice the size that it was built for, so half of its ceiling reproduces it.
pub open spec fn wanted_ppem(border: Option<ResidentBorderBlob>, ppem: F32) -> F32 {
    match border {
        Some(b) => f_max(ppem, f_div(b.ppem_ceiling, F32 { bits: TWO_BITS })),
        None => ppem,
    }
}

/// The query radius to rebuild a border for. An unlimited border's radius says
/// nothing of what was asked for.
pub open spec fn wanted_radius(border: Option<ResidentBorderBlob>, radius_units: F32) -> F32 {
    match border {
        Some(b) => if b.grid_radius_units.finite() {
            f_max(radius_units, b.grid_radius_units)
        } else {
            radius_units
        },
        None => radius_units,
    }
}

/// A border has been appended in place of an earlier one.
pub open spec fn border_appended(before: AtlasState, after: AtlasState, id: u128, b: PreparedBorder) -> bool {
    let r = before.residents[id];
    &&& after == (AtlasState {
        cursor: (before.cursor + b.texel_len) as u32,
        words: before.words + b.data@,
        residents: before.residents.insert(
            id,
            ResidentBlob {
                border: Some(
                    ResidentBorderBlob {
                        start_texel: before.cursor,
                        texel_len: b.texel_len,
                        ppem_ceiling: b.descriptor.ppem_ceiling,
                        grid_radius_units: b.descriptor.grid_radius_units,
                    },
                ),
                ..r
            },
        ),
        reclaimable: match r.border {
            Some(old) => before.reclaimable.push((old.start_texel, old.texel_len)),
            None => before.reclaimable,
        },
        ..before
    })
}

/// What resolving a border gives when a new one has to be built.
pub open spec fn border_resolved(
    before: AtlasState,
    after: AtlasState,
    id: u128,
    outline: GlyphOutline,
    ppem: F32,
    radius_units: F32,
    b: PreparedBorder,
    r: Result<u32, PrepareError>,
) -> bool {
    let entry = before.glyphs[id];
    let border = resident_border(before, id);
    &&& is_border_of(
        b,
        outline,
        entry.glyph_offset,
        entry.units_per_em,
        wanted_ppem(border, ppem),
        wanted_radius(border, radius_units),
    )
    &&& if before.cursor + b.texel_len > before.max {
        r is Err && after == before
    } else if !before.residents.contains_key(id) {
        r is Err && after == (AtlasState {
            cursor: (before.cursor + b.texel_len) as u32,
            words: before.words + b.data@,
            ..before
        })
    } else {
        r == Ok::<u32, PrepareError>(before.cursor) && border_appended(before, after, id, b)
    }
}

/// Appending words nobody owns keeps the atlas well formed.
proof fn lemma_extended(before: AtlasState, after: AtlasState)
    requires
        before.wf(),
        after.buffer_wf(),
        before.cursor <= after.cursor,
        after.residents == before.residents,
        after.glyphs == before.glyphs,
        after.layers == before.layers,
        after.commands == before.commands,
        after.cached == before.cached,
    ensures
        after.wf(),
{
    assert forall|k: u128| #[trigger] after.residents.contains_key(k) implies after.residents[k].inside(
        after.cursor as int,
    ) && after.installed(k) by {
        assert(before.residents.contains_key(k));
        assert(before.residents[k].inside(before.cursor as int));
        assert(before.installed(k));
    }
    assert(after.residents_wf());
    assert(after.cached_wf());
}

/// Appending a border keeps the atlas well formed.
proof fn lemma_border_appended(before: AtlasState, after: AtlasState, id: u128, b: PreparedBorder)
    requires
        before.wf(),
        after.buffer_wf(),
        before.residents.contains_key(id),
        border_appended(before, after, id, b),
        b.texel_len > 0,
        before.cursor + b.texel_len <= before.max,
    ensures
        after.wf(),
{
    let r = before.residents[id];
    assert(r.inside(before.cursor as int));
    assert forall|k: u128| #[trigger] after.residents.contains_key(k) implies after.residents[k].inside(
        after.cursor as int,
    ) && after.installed(k) by {
        assert(before.residents.contains_key(k));
        assert(before.residents[k].inside(before.cursor as int));
        assert(before.installed(k));
    }
    assert forall|x: u128, y: u128|
        #![trigger after.residents.contains_key(x), after.residents.contains_key(y)]
        after.residents.contains_key(x) && after.residents.contains_key(y) && x != y implies after.residents[x].apart(
        after.residents[y],
    ) by {
        assert(before.residents.contains_key(x) && before.residents.contains_key(y));
        assert(before.residents[x].apart(before.residents[y]));
        assert(before.residents[x].inside(before.cursor as int));
        assert(before.residents[y].inside(before.cursor as int));
    }
    assert(after.residents.dom() =~= before.residents.dom());
    assert(after.residents_wf());
    assert(after.cached_wf());
}

impl TextAtlas {
    /// Lazily append or grow a glyph's border descriptor and payload.
    /// The returned offset addresses the border descriptor, not the fill blob.
    pub fn resolve_border_blob(&mut self, key: GlyphKey, outline: &GlyphOutline, ppem: F32, radius_units: F32) -> (r: Result<
        u32,
        PrepareError,
    >)
        requires
            old(self).wf(),
            curves_in_range(outline.curves@),
        ensures
            final(self).wf(),
            r is Err ==> r == Err::<u32, PrepareError>(PrepareError::AtlasFull),
            !old(self)@.glyphs.contains_key(key.id()) ==> r is Err && final(self)@ == old(self)@,
            old(self)@.glyphs.contains_key(key.id()) && resident_border(old(self)@, key.id()) is Some && serves(
                resident_border(old(self)@, key.id())->0,
                ppem,
                radius_units,
            ) ==> r == Ok::<u32, PrepareError>(resident_border(old(self)@, key.id())->0.start_texel) && final(self)@
                == old(self)@,
            old(self)@.glyphs.contains_key(key.id()) && !(resident_border(old(self)@, key.id()) is Some && serves(
                resident_border(old(self)@, key.id())->0,
                ppem,
                radius_units,
            )) ==> if border_fits(
                *outline,
                old(self)@.glyphs[key.id()].units_per_em,
                wanted_ppem(resident_border(old(self)@, key.id()), ppem),
            ) {
                exists|b: PreparedBorder| #[trigger]
                    border_resolved(old(self)@, final(self)@, key.id(), *outline, ppem, radius_units, b, r)
            } else {
                r is Err && final(self)@ == old(self)@
            },
    {
        let ghost before = self@;
        let id: u128 = key.packed();
        let entry: GlyphEntry = match self.glyphs.find(id) {
            Some(entry) => entry,
            None => {
                return Err(PrepareError::AtlasFull);
            },
        };
        // The two capacities are independent: the size bounds the boundary
        // approximation's error, the radius the distance query.
        let mut ppem_now: F32 = ppem;
        let mut radius_now: F32 = radius_units;
        if let Some(blob) = map_get(&self.resident_blobs, id) {
            if let Some(border) = &blob.border {
                if ppem.le(border.ppem_ceiling) && radius_units.le(border.grid_radius_units) {
                    return Ok(border.start_texel);
                }
                ppem_now = ppem.max(border.ppem_ceiling.over(F32 { bits: TWO_BITS }));
                if border.grid_radius_units.is_finite() {
                    radius_now = radius_units.max(border.grid_radius_units);
                }
            }
        }
        assert(ppem_now == wanted_ppem(resident_border(before, id), ppem));
        assert(radius_now == wanted_radius(resident_border(before, id), radius_units));
        let prepared: PreparedBorder = match prepare_border(
            outline,
            entry.glyph_offset,
            entry.units_per_em,
            ppem_now,
            radius_now,
        ) {
            Ok(prepared) => prepared,
            Err(_) => {
                return Err(PrepareError::AtlasFull);
            },
        };
        let start: u32 = self.buffer_cursor;
        let end: u32 = match self.checked_buffer_end(prepared.texel_len) {
            Ok(end) => end,
            Err(_) => {
                assert(border_resolved(
                    before,
                    self@,
                    id,
                    *outline,
                    ppem,
                    radius_units,
                    prepared,
                    Err::<u32, PrepareError>(PrepareError::AtlasFull),
                ));
                return Err(PrepareError::AtlasFull);
            },
        };
        self.buffer_cursor = end;
        append_words(&mut self.buffer_data, &prepared.data, 0, prepared.data.len());
        assert(prepared.data@.subrange(0, prepared.data@.len() as int) =~= prepared.data@);
        let ghost grown = self@;
        assert(grown.buffer_wf());
        match map_remove(&mut self.resident_blobs, id) {
            None => {
                proof {
                    assert(self@.residents =~= before.residents);
                    lemma_extended(before, self@);
                    assert(border_resolved(
                        before,
                        self@,
                        id,
                        *outline,
                        ppem,
                        radius_units,
                        prepared,
                        Err::<u32, PrepareError>(PrepareError::AtlasFull),
                    ));
                }
                Err(PrepareError::AtlasFull)
            },
            Some(blob) => {
                if let Some(old_border) = &blob.border {
                    self.reclaimable_border_spans.push((old_border.start_texel, old_border.texel_len));
                }
                let border = ResidentBorderBlob {
                    start_texel: start,
                    texel_len: prepared.texel_len,
                    ppem_ceiling: prepared.descriptor.ppem_ceiling,
                    grid_radius_units: prepared.descriptor.grid_radius_units,
                };
                let moved = ResidentBlob {
                    start_texel: blob.start_texel,
                    texel_len: blob.texel_len,
                    kind: blob.kind,
                    border: Some(border),
                };
                map_insert(&mut self.resident_blobs, id, moved);
                proof {
                    let after = self@;
                    assert(before.residents.remove(id).insert(id, moved) =~= before.residents.insert(id, moved));
                    assert(border_appended(before, after, id, prepared));
                    assert(border_resolved(
                        before,
                        after,
                        id,
                        *outline,
                        ppem,
                        radius_units,
                        prepared,
                        Ok::<u32, PrepareError>(start),
                    ));
                    lemma_border_appended(before, after, id, prepared);
                }
                Ok(start)
            },
        }
    }
}

/// A border that was built serves what it was asked for.
pub proof fn law_built_borders_serve(
    before: AtlasState,
    after: AtlasState,
    id: u128,
    outline: GlyphOutline,
    ppem: F32,
    radius_units: F32,
    b: PreparedBorder,
    r: Result<u32, PrepareError>,
)
    requires
        border_resolved(before, after, id, outline, ppem, radius_units, b, r),
        r is Ok,
        !ppem.nan(),
        !radius_units.nan(),
        before.glyphs[id].units_per_em.finite(),
        !before.glyphs[id].units_per_em.negative(),
    ensures
        resident_border(after, id) is Some,
        serves(resident_border(after, id)->0, ppem, radius_units),
{
    let border = resident_border(before, id);
    let size = wanted_ppem(border, ppem);
    let radius = wanted_radius(border, radius_units);
    let entry = before.glyphs[id];
    law_ceiling_covers_its_size(size);
    law_grid_covers_its_radius(b, outline, entry.glyph_offset, entry.units_per_em, size, radius);
}

/// Building a border again for one capacity keeps the other: what the earlier
/// border served, the new one serves, as far as its radius was limited at all.
pub proof fn law_rebuilding_never_shrinks(
    before: AtlasState,
    after: AtlasState,
    id: u128,
    outline: GlyphOutline,
    ppem: F32,
    radius_units: F32,
    b: PreparedBorder,
    r: Result<u32, PrepareError>,
    built: F32,
    p: F32,
    q: F32,
)
    requires
        border_resolved(before, after, id, outline, ppem, radius_units, b, r),
        r is Ok,
        resident_border(before, id) is Some,
        resident_border(before, id)->0.ppem_ceiling == ceiling_for(built),
        ceiling_for(built).finite(),
        resident_border(before, id)->0.grid_radius_units.finite(),
        before.glyphs[id].units_per_em.finite(),
        !before.glyphs[id].units_per_em.negative(),
        serves(resident_border(before, id)->0, p, q),
    ensures
        serves(resident_border(after, id)->0, p, q),
{
    let border = resident_border(before, id);
    let entry = before.glyphs[id];
    law_ceilings_never_shrink(built, ppem);
    let size = wanted_ppem(border, ppem);
    let radius = wanted_radius(border, radius_units);
    law_grid_covers_its_radius(b, outline, entry.glyph_offset, entry.units_per_em, size, radius);
}

/// Building a border changes no glyph and no other glyph's border.
pub proof fn law_other_borders_stay(
    before: AtlasState,
    after: AtlasState,
    id: u128,
    outline: GlyphOutline,
    ppem: F32,
    radius_units: F32,
    b: PreparedBorder,
    r: Result<u32, PrepareError>,
    other: u128,
)
    requires
        border_resolved(before, after, id, outline, ppem, radius_units, b, r),
        r is Ok,
        other != id,
    ensures
        after.glyphs == before.glyphs,
        border_start(after, id) == Some(r->Ok_0),
        border_start(after, other) == border_start(before, other),
{
}

}
