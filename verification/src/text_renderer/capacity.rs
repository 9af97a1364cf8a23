//! What the border data of a glyph has to serve in a frame.
//!
//! One border blob per glyph serves every decoration of every area. The accuracy
//! of its boundary follows from the largest size that the glyph is drawn at, and
//! its reach from the largest distance in font units. The two are tracked apart:
//! the reach in font units is `radius_px * units_per_em / ppem`, so it is the
//! smallest size that asks for the largest reach.
use vstd::prelude::*;
use rustc_hash::FxHashMap;
use crate::float32::{F32, f_add, f_div, f_le, f_max, f_mul, HALF_BITS};
use crate::fx::{map_drain, map_get, map_insert, map_new};
use crate::glyph_cache::{GlyphKey, is_monochrome, law_ids_are_distinct, monochrome};
use crate::text_atlas::{AtlasState, TextAtlas};
use crate::types::PhysicalDecoration;

verus! {

/// The pattern of the smallest normal value.
pub const MIN_POSITIVE_BITS: u32 = 0x80_0000;

/// Requirements that border data has to meet.
#[derive(Clone, Copy, Debug)]
pub struct BorderCapacity {
    /// The largest size that the glyph is drawn at.
    pub ppem: F32,
    /// The largest distance that is asked for, in font units.
    pub radius_units: F32,
}

/// One use of a glyph under decorations.
#[derive(Clone, Copy, Debug)]
pub struct BorderUse {
    pub key: GlyphKey,
    pub ppem: F32,
    pub radius_px: F32,
    pub units_per_em: F32,
}

/// No requirement.
pub open spec fn no_capacity() -> BorderCapacity {
    BorderCapacity { ppem: F32 { bits: 0 }, radius_units: F32 { bits: 0 } }
}

/// The requirements with one more use.
pub open spec fn extended(c: BorderCapacity, ppem: F32, radius_px: F32, units_per_em: F32) -> BorderCapacity {
    BorderCapacity {
        ppem: f_max(c.ppem, ppem),
        radius_units: f_max(
            c.radius_units,
            f_div(f_mul(radius_px, units_per_em), f_max(ppem, F32 { bits: MIN_POSITIVE_BITS })),
        ),
    }
}

impl Default for BorderCapacity {
    fn default() -> (r: BorderCapacity)
        ensures
            r == no_capacity(),
    {
        BorderCapacity { ppem: F32 { bits: 0 }, radius_units: F32 { bits: 0 } }
    }
}

impl BorderCapacity {
    /// Folds in one use of the glyph: `radius_px` pixels at `ppem`.
    pub fn extend(&mut self, ppem: F32, radius_px: F32, units_per_em: F32)
        ensures
            *final(self) == extended(*old(self), ppem, radius_px, units_per_em),
    {
        let least: F32 = F32 { bits: MIN_POSITIVE_BITS };
        self.ppem = self.ppem.max(ppem);
        let units: F32 = radius_px.times(units_per_em).over(ppem.max(least));
        self.radius_units = self.radius_units.max(units);
    }
}

/// The widest spread of the first `n` decorations, with the antialiasing around
/// it. Offsets do not count: they move the quad and not the nearest boundary.
pub open spec fn widest(list: Seq<PhysicalDecoration>, n: int) -> Option<F32>
    decreases n,
{
    if n <= 0 {
        None
    } else {
        let reach = f_add(list[n - 1].spread, F32 { bits: HALF_BITS });
        match widest(list, n - 1) {
            None => Some(reach),
            Some(w) => Some(f_max(w, reach)),
        }
    }
}

/// The largest distance that any of the decorations asks for, or `None` where
/// there is nothing to draw.
pub fn widest_spread(decorations: &[PhysicalDecoration]) -> (r: Option<F32>)
    ensures
        r == widest(decorations@, decorations@.len() as int),
{
    let half: F32 = F32 { bits: HALF_BITS };
    let mut r: Option<F32> = None;
    for i in 0..decorations.len()
        invariant
            half == (F32 { bits: HALF_BITS }),
            r == widest(decorations@, i as int),
    {
        let reach: F32 = decorations[i].spread.plus(half);
        r = Some(
            match r {
                None => reach,
                Some(w) => w.max(reach),
            },
        );
    }
    r
}

/// A key is that of a monochrome glyph whose data starts at `offset`.
pub open spec fn starts_at(atlas: AtlasState, key: GlyphKey, offset: u32) -> bool {
    &&& atlas.glyphs.contains_key(key.id())
    &&& monochrome(atlas.glyphs[key.id()])
    &&& atlas.glyphs[key.id()].glyph_offset == offset
}

/// The first of the keys from `i` on whose glyph's data starts at `offset`, with
/// the glyph's units per em.
pub open spec fn bordered_key(atlas: AtlasState, keys: Seq<GlyphKey>, offset: u32, i: int) -> Option<(GlyphKey, F32)>
    decreases keys.len() - i,
{
    if i < 0 || i >= keys.len() {
        None
    } else if starts_at(atlas, keys[i], offset) {
        Some((keys[i], atlas.glyphs[keys[i].id()].units_per_em))
    } else {
        bordered_key(atlas, keys, offset, i + 1)
    }
}

/// The glyph behind an emitted instance, with its units per em, if decorations
/// cover it. Layers of a color glyph look like ordinary instances, so the kind is
/// looked up in the atlas.
pub fn bordered_key_for(atlas: &TextAtlas, distinct_keys: &[GlyphKey], glyph_offset: u32) -> (r: Option<(GlyphKey, F32)>)
    ensures
        r == bordered_key(atlas@, distinct_keys@, glyph_offset, 0),
{
    for i in 0..distinct_keys.len()
        invariant
            bordered_key(atlas@, distinct_keys@, glyph_offset, 0) == bordered_key(
                atlas@,
                distinct_keys@,
                glyph_offset,
                i as int,
            ),
    {
        let key: GlyphKey = distinct_keys[i];
        if let Some(entry) = atlas.glyph(&key) {
            if is_monochrome(&entry) && entry.glyph_offset == glyph_offset {
                return Some((key, entry.units_per_em));
            }
        }
    }
    None
}

/// What the first `n` uses ask of a glyph, or `None` where none of them is of it.
pub open spec fn required(uses: Seq<BorderUse>, id: u128, n: int) -> Option<BorderCapacity>
    decreases n,
{
    if n <= 0 {
        None
    } else {
        let u = uses[n - 1];
        let rest = required(uses, id, n - 1);
        if u.key.id() != id {
            rest
        } else {
            let c = match rest {
                None => no_capacity(),
                Some(c) => c,
            };
            Some(extended(c, u.ppem, u.radius_px, u.units_per_em))
        }
    }
}

/// `list` holds what the uses ask of each glyph, each glyph once, in some order.
pub open spec fn requirements_of(uses: Seq<BorderUse>, list: Seq<(GlyphKey, BorderCapacity)>) -> bool {
    &&& forall|i: int|
        0 <= i < list.len() ==> required(uses, (#[trigger] list[i]).0.id(), uses.len() as int) == Some(list[i].1)
    &&& forall|i: int, j: int| 0 <= i < j < list.len() ==> (#[trigger] list[i]).0 != (#[trigger] list[j]).0
    &&& forall|k: int|
        0 <= k < uses.len() ==> exists|i: int| 0 <= i < list.len() && (#[trigger] list[i]).0 == (#[trigger] uses[k]).key
}

/// The map holds what the first `n` uses ask of each glyph.
spec fn gathers(m: Map<u128, (GlyphKey, BorderCapacity)>, uses: Seq<BorderUse>, n: int) -> bool {
    &&& forall|id: u128| #[trigger] m.contains_key(id) <==> required(uses, id, n).is_some()
    &&& forall|id: u128| #[trigger] m.contains_key(id) ==> m[id].0.id() == id && required(uses, id, n) == Some(m[id].1)
    &&& forall|k: int| 0 <= k < n ==> m.contains_key((#[trigger] uses[k]).key.id())
}

/// What a frame's uses ask of each glyph. All of them are folded before any data
/// is built, so no instance names data that a later use supersedes. Nothing is
/// promised of the order.
pub fn border_capacities(uses: &Vec<BorderUse>) -> (list: Vec<(GlyphKey, BorderCapacity)>)
    ensures
        requirements_of(uses@, list@),
{
    let mut m: FxHashMap<u128, (GlyphKey, BorderCapacity)> = map_new();
    for n in 0..uses.len()
        invariant
            gathers(m@, uses@, n as int),
    {
        let u: BorderUse = uses[n];
        let id: u128 = u.key.packed();
        let mut capacity: BorderCapacity = match map_get(&m, id) {
            Some(pair) => pair.1,
            None => BorderCapacity { ppem: F32 { bits: 0 }, radius_units: F32 { bits: 0 } },
        };
        capacity.extend(u.ppem, u.radius_px, u.units_per_em);
        map_insert(&mut m, id, (u.key, capacity));
    }
    let ghost all = m@;
    let entries: Vec<(u128, (GlyphKey, BorderCapacity))> = map_drain(&mut m);
    let mut list: Vec<(GlyphKey, BorderCapacity)> = Vec::new();
    for i in 0..entries.len()
        invariant
            list@.len() == i,
            forall|j: int| 0 <= j < i ==> #[trigger] list@[j] == entries@[j].1,
    {
        list.push(entries[i].1);
    }
    proof {
        assert forall|i: int| 0 <= i < list@.len() implies required(
            uses@,
            (#[trigger] list@[i]).0.id(),
            uses@.len() as int,
        ) == Some(list@[i].1) by {
            assert(all.contains_key(entries@[i].0));
        }
        assert forall|i: int, j: int| 0 <= i < j < list@.len() implies (#[trigger] list@[i]).0 != (#[trigger] list@[j]).0 by {
            assert(all.contains_key(entries@[i].0));
            assert(all.contains_key(entries@[j].0));
            assert(entries@[i].0 != entries@[j].0);
        }
        assert forall|k: int| 0 <= k < uses@.len() implies exists|i: int|
            0 <= i < list@.len() && (#[trigger] list@[i]).0 == (#[trigger] uses@[k]).key by {
            let id = uses@[k].key.id();
            assert(all.contains_key(id));
            let i = choose|i: int| 0 <= i < entries@.len() && (#[trigger] entries@[i]).0 == id;
            assert(all[entries@[i].0] == entries@[i].1);
            law_ids_are_distinct(list@[i].0, uses@[k].key);
        }
    }
    list
}

/// The distance that a use asks for, in font units.
pub open spec fn units_of(u: BorderUse) -> F32 {
    f_div(f_mul(u.radius_px, u.units_per_em), f_max(u.ppem, F32 { bits: MIN_POSITIVE_BITS }))
}

/// What is asked of a glyph serves every one of its uses, whatever sizes and
/// widths they combine.
pub proof fn law_capacity_serves_every_use(uses: Seq<BorderUse>, n: int, k: int)
    requires
        0 <= k < n <= uses.len(),
    ensures
        ({
            let c = required(uses, uses[k].key.id(), n);
            &&& c is Some
            &&& !uses[k].ppem.nan() ==> f_le(uses[k].ppem, c->0.ppem)
            &&& !units_of(uses[k]).nan() ==> f_le(units_of(uses[k]), c->0.radius_units)
        }),
    decreases n,
{
    if k < n - 1 {
        law_capacity_serves_every_use(uses, n - 1, k);
    }
}

}
