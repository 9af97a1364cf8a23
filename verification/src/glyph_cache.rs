//! Which glyphs are known, where their data is, and when they were last used.
use vstd::prelude::*;
use vstd::set_lib::{lemma_len_subset};
use rustc_hash::FxHashMap;
use crate::float32::F32;
use crate::fx::{lists_keys, map_get, map_insert, map_keys, map_len, map_new, map_remove, no_entries};

verus! {

/// Identity of a glyph as it is drawn.
#[derive(Clone, Copy, Debug, PartialEq, Eq, Hash, Structural)]
pub struct GlyphKey {
    /// Identifies the font within its font system.
    pub font_id: u64,
    pub glyph_id: u16,
    pub font_weight: u16,
    /// Synthetic style bits, see [`FAKE_ITALIC`].
    pub cache_key_flags: u32,
}

/// The flag bit of a glyph that is drawn slanted.
pub const FAKE_ITALIC: u32 = 1;

/// Offset that marks a glyph without vector data.
pub const NON_VECTOR_OFFSET: u32 = 0xffff_ffff;

/// Offset that marks a layered color glyph.
pub const COLOR_VECTOR_OFFSET: u32 = 0xffff_fffe;

/// Offset that marks a color glyph drawn by commands.
pub const COLOR_V1_VECTOR_OFFSET: u32 = 0xffff_fffd;

impl GlyphKey {
    /// The key as one integer.
    pub open spec fn id(self) -> u128 {
        (self.font_id + 0x1_0000_0000_0000_0000 * (self.glyph_id + 0x1_0000 * (self.font_weight + 0x1_0000
            * self.cache_key_flags))) as u128
    }

    /// The key as one integer.
    pub fn packed(self) -> (r: u128)
        ensures
            r == self.id(),
    {
        self.font_id as u128 + 0x1_0000_0000_0000_0000 * (self.glyph_id as u128 + 0x1_0000 * (
        self.font_weight as u128 + 0x1_0000 * self.cache_key_flags as u128))
    }

    /// Whether the glyph is drawn slanted.
    pub fn is_fake_italic(self) -> (r: bool)
        ensures
            r == (self.cache_key_flags % 2 == 1),
    {
        self.cache_key_flags % 2 == FAKE_ITALIC
    }
}

/// Different keys have different ids.
pub proof fn law_ids_are_distinct(a: GlyphKey, b: GlyphKey)
    ensures
        a.id() == b.id() <==> a == b,
{
}

/// A known glyph.
#[derive(Clone, Copy, Debug)]
pub struct GlyphEntry {
    /// Start of the glyph's data in texels, or one of the marker offsets.
    pub glyph_offset: u32,
    pub bounds: [F32; 4],
    pub units_per_em: F32,
    /// The frame in which the glyph was last used.
    pub last_used_epoch: u64,
}

/// The entry of a glyph without vector data.
pub open spec fn marker(entry: GlyphEntry, offset: u32) -> bool {
    &&& entry.glyph_offset == offset
    &&& entry.bounds@ == seq![F32 { bits: 0 }, F32 { bits: 0 }, F32 { bits: 0 }, F32 { bits: 0 }]
    &&& entry.units_per_em == (F32 { bits: 0 })
    &&& entry.last_used_epoch == 0
}

impl GlyphEntry {
    pub fn new(glyph_offset: u32, bounds: [F32; 4], units_per_em: F32) -> (r: GlyphEntry)
        ensures
            r == (GlyphEntry { glyph_offset, bounds, units_per_em, last_used_epoch: 0 }),
    {
        GlyphEntry { glyph_offset, bounds, units_per_em, last_used_epoch: 0 }
    }

    fn marked(glyph_offset: u32) -> (r: GlyphEntry)
        ensures
            marker(r, glyph_offset),
    {
        let z = F32 { bits: 0 };
        let bounds: [F32; 4] = [z, z, z, z];
        assert(bounds@ =~= seq![z, z, z, z]);
        GlyphEntry { glyph_offset, bounds, units_per_em: z, last_used_epoch: 0 }
    }

    /// The entry of a glyph without vector data.
    pub fn non_vector() -> (r: GlyphEntry)
        ensures
            marker(r, NON_VECTOR_OFFSET),
    {
        GlyphEntry::marked(NON_VECTOR_OFFSET)
    }

    /// The entry of a layered color glyph.
    pub fn color_vector() -> (r: GlyphEntry)
        ensures
            marker(r, COLOR_VECTOR_OFFSET),
    {
        GlyphEntry::marked(COLOR_VECTOR_OFFSET)
    }

    /// The entry of a color glyph drawn by commands.
    pub fn color_v1_vector() -> (r: GlyphEntry)
        ensures
            marker(r, COLOR_V1_VECTOR_OFFSET),
    {
        GlyphEntry::marked(COLOR_V1_VECTOR_OFFSET)
    }

    pub fn is_non_vector(&self) -> (r: bool)
        ensures
            r == (self.glyph_offset == NON_VECTOR_OFFSET),
    {
        self.glyph_offset == NON_VECTOR_OFFSET
    }

    pub fn is_color_vector(&self) -> (r: bool)
        ensures
            r == (self.glyph_offset == COLOR_VECTOR_OFFSET),
    {
        self.glyph_offset == COLOR_VECTOR_OFFSET
    }

    pub fn is_color_v1_vector(&self) -> (r: bool)
        ensures
            r == (self.glyph_offset == COLOR_V1_VECTOR_OFFSET),
    {
        self.glyph_offset == COLOR_V1_VECTOR_OFFSET
    }

    /// The entry as last used in a given frame.
    pub open spec fn used_in(self, epoch: u64) -> GlyphEntry {
        GlyphEntry { last_used_epoch: epoch, ..self }
    }
}

/// The entry of an outline in one color, the only kind that decorations cover.
pub open spec fn monochrome(entry: GlyphEntry) -> bool {
    entry.glyph_offset != NON_VECTOR_OFFSET && entry.glyph_offset != COLOR_VECTOR_OFFSET && entry.glyph_offset
        != COLOR_V1_VECTOR_OFFSET
}

/// Whether an entry is that of an outline in one color.
pub fn is_monochrome(entry: &GlyphEntry) -> (r: bool)
    ensures
        r == monochrome(*entry),
{
    !entry.is_non_vector() && !entry.is_color_vector() && !entry.is_color_v1_vector()
}

/// One layer of a layered color glyph.
#[derive(Clone, Copy, Debug)]
pub struct ColorGlyphLayer {
    pub entry: GlyphEntry,
    pub color: [F32; 4],
    pub use_foreground: bool,
}

/// The installed layers of a color glyph.
pub struct ColorGlyphEntry {
    pub layers: Vec<ColorGlyphLayer>,
    pub units_per_em: F32,
}

/// The installed command sequence of a color glyph.
#[derive(Clone, Copy, Debug)]
pub struct ColorV1GlyphEntry {
    pub glyph_offset: u32,
    pub cmd_texel_count: u32,
    pub bounds: [F32; 4],
    pub units_per_em: F32,
}

/// The known glyphs, by key.
pub struct GlyphMap {
    entries: FxHashMap<u128, GlyphEntry>,
    epoch: u64,
}

impl View for GlyphMap {
    type V = Map<u128, GlyphEntry>;

    closed spec fn view(&self) -> Map<u128, GlyphEntry> {
        self.entries@
    }
}

impl GlyphMap {
    /// The current frame.
    pub closed spec fn frame(self) -> u64 {
        self.epoch
    }

    pub closed spec fn wf(self) -> bool {
        &&& self.entries@.dom().finite()
        &&& self.epoch > 0
        &&& forall|id: u128| #[trigger]
            self.entries@.contains_key(id) ==> self.entries@[id].last_used_epoch <= self.epoch
    }

    /// The glyph was used in the current frame.
    pub open spec fn current(self, id: u128) -> bool {
        self@.contains_key(id) && self@[id].last_used_epoch == self.frame()
    }

    /// The glyphs used in the current frame.
    pub open spec fn in_use(self) -> Set<u128> {
        self@.dom().filter(|id: u128| self@[id].last_used_epoch == self.frame())
    }

    pub fn new() -> (r: GlyphMap)
        ensures
            r.wf(),
            r@ == no_entries::<GlyphEntry>(),
            r.frame() == 1,
    {
        GlyphMap { entries: map_new(), epoch: 1 }
    }

    /// The number of the current frame.
    pub fn current_frame(&self) -> (r: u64)
        ensures
            r == self.frame(),
    {
        self.epoch
    }

    pub fn len(&self) -> (r: usize)
        ensures
            r == self@.len(),
    {
        map_len(&self.entries)
    }

    pub fn contains_key(&self, key: &GlyphKey) -> (r: bool)
        ensures
            r == self@.contains_key(key.id()),
    {
        map_get(&self.entries, key.packed()).is_some()
    }

    /// Looks a glyph up.
    pub fn get(&self, key: &GlyphKey) -> (r: Option<GlyphEntry>)
        ensures
            r == (if self@.contains_key(key.id()) { Some(self@[key.id()]) } else { None }),
    {
        self.find(key.packed())
    }

    pub(crate) fn find(&self, id: u128) -> (r: Option<GlyphEntry>)
        ensures
            r == (if self@.contains_key(id) { Some(self@[id]) } else { None }),
    {
        match map_get(&self.entries, id) {
            Some(entry) => Some(*entry),
            None => None,
        }
    }

    /// Looks a glyph up and marks it used in the current frame.
    pub fn get_and_mark_used(&mut self, key: &GlyphKey) -> (r: Option<GlyphEntry>)
        requires
            old(self).wf(),
        ensures
            final(self).wf(),
            final(self).frame() == old(self).frame(),
            !old(self)@.contains_key(key.id()) ==> r is None && final(self)@ == old(self)@,
            old(self)@.contains_key(key.id()) ==> r == Some(
                old(self)@[key.id()].used_in(old(self).frame()),
            ) && final(self)@ == old(self)@.insert(
                key.id(),
                old(self)@[key.id()].used_in(old(self).frame()),
            ),
    {
        let id: u128 = key.packed();
        match self.find(id) {
            Some(entry) => {
                let marked = GlyphEntry { last_used_epoch: self.epoch, ..entry };
                map_insert(&mut self.entries, id, marked);
                Some(marked)
            },
            None => None,
        }
    }

    /// Stores a glyph, marked used in the current frame.
    pub fn insert_and_mark_used(&mut self, key: GlyphKey, entry: GlyphEntry) -> (r: GlyphEntry)
        requires
            old(self).wf(),
        ensures
            final(self).wf(),
            final(self).frame() == old(self).frame(),
            r == entry.used_in(old(self).frame()),
            final(self)@ == old(self)@.insert(key.id(), r),
    {
        let marked = GlyphEntry { last_used_epoch: self.epoch, ..entry };
        map_insert(&mut self.entries, key.packed(), marked);
        marked
    }

    /// Takes a glyph out.
    pub fn remove(&mut self, key: &GlyphKey)
        requires
            old(self).wf(),
        ensures
            final(self).wf(),
            final(self).frame() == old(self).frame(),
            final(self)@ == old(self)@.remove(key.id()),
    {
        self.forget(key.packed());
    }

    pub(crate) fn forget(&mut self, id: u128)
        requires
            old(self).wf(),
        ensures
            final(self).wf(),
            final(self).frame() == old(self).frame(),
            final(self)@ == old(self)@.remove(id),
    {
        let _ = map_remove(&mut self.entries, id);
    }

    /// Moves a glyph's data; an unknown glyph is left unknown.
    pub fn replace_offset(&mut self, key: &GlyphKey, glyph_offset: u32)
        requires
            old(self).wf(),
        ensures
            final(self).wf(),
            final(self).frame() == old(self).frame(),
            !old(self)@.contains_key(key.id()) ==> final(self)@ == old(self)@,
            old(self)@.contains_key(key.id()) ==> final(self)@ == old(self)@.insert(
                key.id(),
                GlyphEntry { glyph_offset, ..old(self)@[key.id()] },
            ),
    {
        self.relocate(key.packed(), glyph_offset);
    }

    pub(crate) fn relocate(&mut self, id: u128, glyph_offset: u32)
        requires
            old(self).wf(),
        ensures
            final(self).wf(),
            final(self).frame() == old(self).frame(),
            !old(self)@.contains_key(id) ==> final(self)@ == old(self)@,
            old(self)@.contains_key(id) ==> final(self)@ == old(self)@.insert(
                id,
                GlyphEntry { glyph_offset, ..old(self)@[id] },
            ),
    {
        match self.find(id) {
            Some(entry) => {
                map_insert(&mut self.entries, id, GlyphEntry { glyph_offset, ..entry });
            },
            None => {},
        }
    }

    /// The frame in which a glyph was last used.
    pub fn last_used_epoch(&self, key: &GlyphKey) -> (r: Option<u64>)
        ensures
            r == (if self@.contains_key(key.id()) { Some(self@[key.id()].last_used_epoch) } else { None }),
    {
        match self.find(key.packed()) {
            Some(entry) => Some(entry.last_used_epoch),
            None => None,
        }
    }

    /// Whether a glyph was used in the current frame.
    pub fn is_current_frame(&self, key: &GlyphKey) -> (r: bool)
        ensures
            r == self.current(key.id()),
    {
        self.is_current(key.packed())
    }

    pub(crate) fn is_current(&self, id: u128) -> (r: bool)
        ensures
            r == self.current(id),
    {
        match self.find(id) {
            Some(entry) => entry.last_used_epoch == self.epoch,
            None => false,
        }
    }

    /// The ids of all known glyphs, in no particular order.
    pub(crate) fn ids(&self) -> (r: Vec<u128>)
        ensures
            lists_keys(self@, r@),
    {
        map_keys(&self.entries)
    }

    /// Forgets every glyph.
    pub fn clear(&mut self)
        requires
            old(self).wf(),
        ensures
            final(self).wf(),
            final(self)@ == no_entries::<GlyphEntry>(),
            final(self).frame() == old(self).frame(),
    {
        self.entries = map_new();
    }

    /// Starts the next frame; no glyph has been used in it yet.
    pub fn next_frame(&mut self)
        requires
            old(self).wf(),
            old(self).frame() < u64::MAX,
        ensures
            final(self).wf(),
            final(self)@ == old(self)@,
            final(self).frame() == old(self).frame() + 1,
            final(self).in_use() == Set::<u128>::empty(),
    {
        self.epoch = self.epoch + 1;
        assert(self.in_use() =~= Set::<u128>::empty());
    }

    /// Number of glyphs used in the current frame.
    pub fn in_use_count(&self) -> (r: usize)
        requires
            self.wf(),
        ensures
            r == self.in_use().len(),
            r <= self@.len(),
    {
        let keys: Vec<u128> = map_keys(&self.entries);
        let ghost ids = keys@;
        let ghost used = |id: u128| self@[id].last_used_epoch == self.frame();
        let mut count: usize = 0;
        let mut i: usize = 0;
        assert(ids.take(0).to_set().filter(used) =~= Set::<u128>::empty());
        while i < keys.len()
            invariant
                i <= keys.len(),
                ids == keys@,
                lists_keys(self@, ids),
                used == (|id: u128| self@[id].last_used_epoch == self.frame()),
                ids.take(i as int).to_set().filter(used).finite(),
                count == ids.take(i as int).to_set().filter(used).len(),
                count <= i,
            decreases keys.len() - i,
        {
            let id: u128 = keys[i];
            proof {
                let before = ids.take(i as int).to_set().filter(used);
                let after = ids.take(i + 1).to_set().filter(used);
                assert(!ids.take(i as int).contains(id)) by {
                    if ids.take(i as int).contains(id) {
                        let j = choose|j: int| 0 <= j < i && ids.take(i as int)[j] == id;
                        assert(ids[j] == ids[i as int]);
                    }
                }
                assert(ids.take(i + 1) =~= ids.take(i as int).push(id));
                assert(after =~= if used(id) { before.insert(id) } else { before }) by {
                    assert forall|x: u128| ids.take(i + 1).contains(x) <==> (ids.take(i as int).contains(x) || x == id) by {
                        if ids.take(i as int).contains(x) {
                            let j = choose|j: int| 0 <= j < i && ids.take(i as int)[j] == x;
                            assert(ids.take(i + 1)[j] == x);
                        }
                        assert(ids.take(i + 1)[i as int] == id);
                    }
                }
            }
            if self.is_current(id) {
                count = count + 1;
            }
            i = i + 1;
        }
        proof {
            assert(ids.take(keys.len() as int) =~= ids);
            assert(ids.to_set().filter(used) =~= self.in_use());
            assert(self.in_use().subset_of(self@.dom()));
            lemma_len_subset(self.in_use(), self@.dom());
        }
        count
    }
}

}
