//! What is read of font files.
use sluggrs_skylines::float32::F32;
use sluggrs_skylines::font::FaceInfo;

fn native(x: F32) -> f32 {
    f32::from_bits(x.bits)
}

fn be16(out: &mut Vec<u8>, x: u16) {
    out.extend_from_slice(&x.to_be_bytes());
}

fn be32(out: &mut Vec<u8>, x: u32) {
    out.extend_from_slice(&x.to_be_bytes());
}

/// A font file with the given tables and nothing else.
fn font(tables: &[(&[u8; 4], Vec<u8>)]) -> Vec<u8> {
    let mut out = Vec::new();
    be32(&mut out, 0x0001_0000);
    be16(&mut out, tables.len() as u16);
    for _ in 0..3 {
        be16(&mut out, 0);
    }
    let mut offset = 12 + 16 * tables.len();
    for (tag, data) in tables {
        out.extend_from_slice(*tag);
        be32(&mut out, 0);
        be32(&mut out, offset as u32);
        be32(&mut out, data.len() as u32);
        offset += data.len();
    }
    for (_, data) in tables {
        out.extend_from_slice(data);
    }
    out
}

fn head(units_per_em: u16) -> Vec<u8> {
    let mut out = Vec::new();
    be32(&mut out, 0x0001_0000);
    be32(&mut out, 0);
    be32(&mut out, 0);
    be32(&mut out, 0x5f0f_3cf5);
    be16(&mut out, 0);
    be16(&mut out, units_per_em);
    out.resize(54, 0);
    out
}

fn colr() -> Vec<u8> {
    vec![0; 14]
}

#[test]
fn units_per_em_come_from_the_head_table() {
    let info = FaceInfo::read(&font(&[(b"head", head(2048))]), 0);
    assert_eq!(native(info.units_per_em), 2048.0);
    assert!(!info.has_colr);
}

#[test]
fn color_tables_are_found() {
    let info = FaceInfo::read(&font(&[(b"COLR", colr()), (b"head", head(1024))]), 0);
    assert_eq!(native(info.units_per_em), 1024.0);
    assert!(info.has_colr);
}

/// A collection of two faces with their own `head` tables.
fn collection(first: u16, second: u16) -> Vec<u8> {
    let mut out = b"ttcf".to_vec();
    be32(&mut out, 0x0001_0000);
    be32(&mut out, 2);
    let faces = [20u32, 48];
    let heads = [76u32, 132];
    for face in faces {
        be32(&mut out, face);
    }
    for head_offset in heads {
        be32(&mut out, 0x0001_0000);
        be16(&mut out, 1);
        for _ in 0..3 {
            be16(&mut out, 0);
        }
        out.extend_from_slice(b"head");
        be32(&mut out, 0);
        be32(&mut out, head_offset);
        be32(&mut out, 54);
    }
    for units in [first, second] {
        let mut table = head(units);
        table.resize(56, 0);
        out.extend_from_slice(&table);
    }
    out
}

#[test]
fn each_face_of_a_collection_has_its_units() {
    let data = collection(1024, 2048);
    assert_eq!(native(FaceInfo::read(&data, 0).units_per_em), 1024.0);
    assert_eq!(native(FaceInfo::read(&data, 1).units_per_em), 2048.0);
    assert_eq!(native(FaceInfo::read(&data, 2).units_per_em), 1000.0);
}

#[test]
fn unreadable_fonts_fall_back() {
    let plain = font(&[(b"head", head(2048))]);
    for (data, index) in [(Vec::new(), 0), (vec![1, 2, 3], 0), (plain, 1), (font(&[]), 0)] {
        let info = FaceInfo::read(&data, index);
        assert_eq!(native(info.units_per_em), 1000.0);
        assert!(!info.has_colr);
    }
}

#[test]
fn tables_lead_to_face_info() {
    let info = FaceInfo::from_tables(Some(256), true);
    assert_eq!((native(info.units_per_em), info.has_colr), (256.0, true));
    assert_eq!(native(FaceInfo::from_tables(None, false).units_per_em), 1000.0);
}
