//! Glyph keys, entries and their map.
use std::collections::HashMap;
use std::hash::{DefaultHasher, Hash, Hasher};

use sluggrs_skylines::float32::F32;
use sluggrs_skylines::glyph_cache::{GlyphEntry, GlyphKey, GlyphMap};

fn float(x: f32) -> F32 {
    F32 { bits: x.to_bits() }
}

fn hash_of(key: &GlyphKey) -> u64 {
    let mut hasher = DefaultHasher::new();
    key.hash(&mut hasher);
    hasher.finish()
}

fn make_key(font_id: u64, glyph_id: u16, font_weight: u16, cache_key_flags: u32) -> GlyphKey {
    GlyphKey { font_id, glyph_id, font_weight, cache_key_flags }
}

fn make_dummy_entry(glyph_offset: u32) -> GlyphEntry {
    GlyphEntry::new(glyph_offset, [0.0, 0.0, 100.0, 100.0].map(float), float(1000.0))
}

#[test]
fn glyph_key_equality_same_values() {
    let a = make_key(0, 42, 400, 0);
    let b = make_key(0, 42, 400, 0);
    assert_eq!(a, b, "Identical GlyphKeys should be equal");
}

#[test]
fn glyph_key_inequality_different_glyph_id() {
    let a = make_key(0, 42, 400, 0);
    let b = make_key(0, 99, 400, 0);
    assert_ne!(
        a, b,
        "GlyphKeys with different glyph_id should not be equal"
    );
}

#[test]
fn glyph_key_inequality_different_weight() {
    let a = make_key(0, 42, 400, 0);
    let b = make_key(0, 42, 700, 0);
    assert_ne!(
        a, b,
        "GlyphKeys with different font_weight should not be equal"
    );
}

#[test]
fn glyph_key_inequality_different_flags() {
    let a = make_key(0, 42, 400, 0);
    let b = make_key(0, 42, 400, 1);
    assert_ne!(
        a, b,
        "GlyphKeys with different cache_key_flags should not be equal"
    );
}

#[test]
fn glyph_key_hashing_no_collisions() {
    let keys = [
        make_key(0, 1, 400, 0),
        make_key(0, 2, 400, 0),
        make_key(0, 1, 700, 0),
        make_key(0, 1, 400, 1),
        make_key(0, 100, 300, 0),
    ];

    let mut seen = HashMap::new();
    for (i, key) in keys.iter().enumerate() {
        let h = hash_of(key);
        if let Some(&prev_idx) = seen.get(&h) {
            assert_ne!(
                keys[prev_idx], *key,
                "Hash collision between distinct GlyphKeys at indices {prev_idx} and {i}"
            );
        }
        seen.insert(h, i);
    }
    assert_eq!(
        seen.len(),
        keys.len(),
        "All distinct GlyphKeys should produce distinct hashes"
    );
}

#[test]
fn glyph_key_consistent_hashing() {
    let key = make_key(0, 42, 400, 0);
    let h1 = hash_of(&key);
    let h2 = hash_of(&key);
    assert_eq!(h1, h2, "Same GlyphKey must produce consistent hash");
}

#[test]
fn glyph_key_equal_implies_same_hash() {
    let a = make_key(0, 42, 400, 0);
    let b = make_key(0, 42, 400, 0);
    assert_eq!(a, b);
    assert_eq!(
        hash_of(&a),
        hash_of(&b),
        "Equal GlyphKeys must have equal hashes"
    );
}

#[test]
fn non_vector_glyph_sentinel_is_non_vector() {
    assert!(
        GlyphEntry::non_vector().is_non_vector(),
        "NON_VECTOR_GLYPH sentinel should report is_non_vector() == true"
    );
}

#[test]
fn normal_glyph_entry_is_not_non_vector() {
    let entry = make_dummy_entry(0);
    assert!(
        !entry.is_non_vector(),
        "A normal GlyphEntry (glyph_offset != u32::MAX) should not be non-vector"
    );
}

#[test]
fn edge_case_max_minus_one_not_sentinel() {
    let entry = make_dummy_entry(u32::MAX - 1);
    assert!(
        !entry.is_non_vector(),
        "glyph_offset = u32::MAX - 1 should not be treated as non-vector"
    );
}

#[test]
fn glyph_map_insert_and_get() {
    let mut map = GlyphMap::new();
    let key = make_key(0, 42, 400, 0);
    let entry = make_dummy_entry(100);

    map.insert_and_mark_used(key, entry);

    assert!(map.contains_key(&key));
    let got = map
        .get_and_mark_used(&key)
        .expect("Should find inserted key");
    assert_eq!(got.glyph_offset, 100);
}

#[test]
fn glyph_map_len() {
    let mut map = GlyphMap::new();
    assert_eq!(map.len(), 0);

    map.insert_and_mark_used(make_key(0, 1, 400, 0), make_dummy_entry(0));
    assert_eq!(map.len(), 1);

    map.insert_and_mark_used(make_key(0, 2, 400, 0), make_dummy_entry(1));
    assert_eq!(map.len(), 2);

    // Re-insert same key should overwrite, not increase length
    map.insert_and_mark_used(make_key(0, 1, 400, 0), make_dummy_entry(99));
    assert_eq!(map.len(), 2);
}

#[test]
fn glyph_map_clear() {
    let mut map = GlyphMap::new();
    map.insert_and_mark_used(make_key(0, 1, 400, 0), make_dummy_entry(0));
    map.insert_and_mark_used(make_key(0, 2, 400, 0), make_dummy_entry(1));
    assert_eq!(map.len(), 2);

    map.clear();
    assert_eq!(map.len(), 0);
    assert!(!map.contains_key(&make_key(0, 1, 400, 0)));
}

#[test]
fn glyph_map_get_missing_key_returns_none() {
    let mut map = GlyphMap::new();
    assert!(map.get_and_mark_used(&make_key(0, 999, 400, 0)).is_none());
}

#[test]
fn glyph_map_usage_tracking_basic() {
    let mut map = GlyphMap::new();
    let k1 = make_key(0, 1, 400, 0);
    let k2 = make_key(0, 2, 400, 0);
    map.insert_and_mark_used(k1, make_dummy_entry(0));
    map.insert_and_mark_used(k2, make_dummy_entry(1));

    // Start a new frame so usage counts reset
    map.next_frame();
    assert_eq!(map.in_use_count(), 0);

    map.get_and_mark_used(&k1);
    assert_eq!(map.in_use_count(), 1);

    map.get_and_mark_used(&k2);
    assert_eq!(map.in_use_count(), 2);

    // Marking same key again doesn't increase count
    map.get_and_mark_used(&k1);
    assert_eq!(map.in_use_count(), 2);
}

#[test]
fn glyph_map_next_frame_resets_in_use() {
    let mut map = GlyphMap::new();
    let k1 = make_key(0, 1, 400, 0);
    map.insert_and_mark_used(k1, make_dummy_entry(0));
    assert_eq!(map.in_use_count(), 1);

    map.next_frame();
    assert_eq!(map.in_use_count(), 0);
    // Glyph is still cached
    assert!(map.contains_key(&k1));
}

#[test]
fn glyph_map_clear_resets_both_map_and_usage() {
    let mut map = GlyphMap::new();
    let k1 = make_key(0, 1, 400, 0);
    map.insert_and_mark_used(k1, make_dummy_entry(0));

    map.clear();
    assert_eq!(map.len(), 0);
    assert_eq!(map.in_use_count(), 0);
}

#[test]
fn non_vector_glyph_can_be_marked_in_use() {
    let mut map = GlyphMap::new();
    let k1 = make_key(0, 1, 400, 0);
    map.insert_and_mark_used(k1, GlyphEntry::non_vector());

    // Start a new frame so we can test mark-used via get_and_mark_used
    map.next_frame();
    map.get_and_mark_used(&k1);
    assert_eq!(map.in_use_count(), 1);

    // Non-vector and vector glyphs both count toward in_use
    let k2 = make_key(0, 2, 400, 0);
    map.insert_and_mark_used(k2, make_dummy_entry(42));
    assert_eq!(map.in_use_count(), 2);
}

#[test]
fn non_vector_glyph_tracked_in_glyph_map() {
    let mut map = GlyphMap::new();

    // Create a synthetic key representing a glyph that has no vector outline
    // (e.g., an emoji or bitmap-only glyph).
    let key = GlyphKey {
        font_id: 0,
        glyph_id: 9999,
        font_weight: 400,
        cache_key_flags: 0,
    };

    // Mark it as non-vector (this is the pattern used in the rendering pipeline
    // when outline extraction fails or returns no curves).
    map.insert_and_mark_used(key, GlyphEntry::non_vector());

    // Verify the atlas records it and reports it as non-vector.
    let entry = map
        .get_and_mark_used(&key)
        .expect("GlyphMap should contain the non-vector entry after insert");
    assert!(
        entry.is_non_vector(),
        "Entry inserted with NON_VECTOR_GLYPH sentinel should report is_non_vector() == true"
    );

    // Verify contains_key returns true so we skip re-extraction on subsequent frames.
    assert!(
        map.contains_key(&key),
        "contains_key should return true for a tracked non-vector glyph, \
         preventing redundant outline extraction attempts"
    );
}

#[test]
fn non_vector_entry_does_not_shadow_real_entries() {
    let mut map = GlyphMap::new();

    let non_vector_key = GlyphKey {
        font_id: 0,
        glyph_id: 1,
        font_weight: 400,
        cache_key_flags: 0,
    };

    let real_key = GlyphKey {
        font_id: 0,
        glyph_id: 2,
        font_weight: 400,
        cache_key_flags: 0,
    };

    let real_entry = GlyphEntry::new(42, [0.0, 0.0, 100.0, 100.0].map(float), float(1000.0));

    map.insert_and_mark_used(non_vector_key, GlyphEntry::non_vector());
    map.insert_and_mark_used(real_key, real_entry);

    // Non-vector entry is still non-vector.
    assert!(
        map.get_and_mark_used(&non_vector_key)
            .expect("should have non_vector entry")
            .is_non_vector()
    );

    // Real entry is NOT non-vector.
    let got = map
        .get_and_mark_used(&real_key)
        .expect("should have real entry");
    assert!(
        !got.is_non_vector(),
        "A real glyph entry should not be flagged as non-vector"
    );
    assert_eq!(got.glyph_offset, 42);
}

#[test]
fn packed_keys_are_distinct() {
    let keys = [
        make_key(0, 0, 0, 0),
        make_key(1, 0, 0, 0),
        make_key(0, 1, 0, 0),
        make_key(0, 0, 1, 0),
        make_key(0, 0, 0, 1),
        make_key(u64::MAX, u16::MAX, u16::MAX, u32::MAX),
    ];
    for (i, a) in keys.iter().enumerate() {
        for (j, b) in keys.iter().enumerate() {
            assert_eq!(a.packed() == b.packed(), i == j);
        }
    }
    assert_eq!(make_key(5, 3, 2, 1).packed(), 5 | 3 << 64 | 2 << 80 | 1 << 96);
    assert!(make_key(0, 0, 0, 1).is_fake_italic());
    assert!(!make_key(0, 0, 0, 2).is_fake_italic());
}

#[test]
fn markers_are_told_apart() {
    assert!(GlyphEntry::color_vector().is_color_vector());
    assert!(!GlyphEntry::color_vector().is_non_vector());
    assert!(GlyphEntry::color_v1_vector().is_color_v1_vector());
    assert!(!GlyphEntry::color_v1_vector().is_color_vector());
}

#[test]
fn a_removed_glyph_is_gone_and_a_moved_one_keeps_its_use() {
    let mut map = GlyphMap::new();
    let (a, b) = (make_key(0, 1, 400, 0), make_key(0, 2, 400, 0));
    map.insert_and_mark_used(a, make_dummy_entry(10));
    map.insert_and_mark_used(b, make_dummy_entry(20));
    map.replace_offset(&b, 5);
    map.remove(&a);
    assert!(map.get(&a).is_none());
    assert_eq!(map.get(&b).map(|e| e.glyph_offset), Some(5));
    assert!(map.is_current_frame(&b));
    assert_eq!(map.in_use_count(), 1);
    map.next_frame();
    assert!(!map.is_current_frame(&b));
    assert_eq!(map.last_used_epoch(&b), Some(map.last_used_epoch(&b).unwrap()));
}
