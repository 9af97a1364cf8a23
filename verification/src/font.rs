//! What the renderer needs to know of a font file.
use vstd::prelude::*;
use skrifa::raw::TableProvider;
use skrifa::FontRef;
use crate::float32::{F32, f_from_int};

verus! {

/// The units per em that the `head` table of a face gives, or `None` where the
/// bytes hold no such face or the face no such table.
pub uninterp spec fn head_units_per_em(data: Seq<u8>, index: u32) -> Option<u16>;

/// Whether the bytes hold the face and the face has a `COLR` table.
pub uninterp spec fn has_colr_table(data: Seq<u8>, index: u32) -> bool;

/// Units per em of a face that gives none.
pub const DEFAULT_UNITS_PER_EM: u16 = 1000;

/// What glyph extraction needs to know of a face.
#[derive(Clone, Copy, Debug, PartialEq, Eq, Structural)]
pub struct FaceInfo {
    pub units_per_em: F32,
    /// Whether the face can have color glyphs.
    pub has_colr: bool,
}

/// The face info that a font's tables lead to.
pub open spec fn face_info(units: Option<u16>, colr: bool) -> FaceInfo {
    FaceInfo {
        units_per_em: f_from_int(
            match units {
                Some(units) => units as int,
                None => DEFAULT_UNITS_PER_EM as int,
            },
        ),
        has_colr: colr,
    }
}

/// `skrifa::FontRef::from_index`, then `head` and `units_per_em`: reads the units
/// per em of a face. The result depends on the bytes and the index alone; which
/// bytes hold a face is left unsaid.
#[verifier::external_body]
fn read_units_per_em(data: &[u8], index: u32) -> (r: Option<u16>)
    ensures
        r == head_units_per_em(data@, index),
{
    let font = match FontRef::from_index(data, index) {
        Ok(font) => font,
        Err(_) => return None,
    };
    match font.head() {
        Ok(head) => Some(head.units_per_em()),
        Err(_) => None,
    }
}

/// `skrifa::FontRef::from_index`, then `colr`: finds out whether a face has a
/// `COLR` table. The result depends on the bytes and the index alone; which bytes
/// hold a face is left unsaid.
#[verifier::external_body]
fn read_has_colr(data: &[u8], index: u32) -> (r: bool)
    ensures
        r == has_colr_table(data@, index),
{
    match FontRef::from_index(data, index) {
        Ok(font) => font.colr().is_ok(),
        Err(_) => false,
    }
}

impl FaceInfo {
    /// The face info that a font's tables lead to.
    pub fn from_tables(units: Option<u16>, colr: bool) -> (r: FaceInfo)
        ensures
            r == face_info(units, colr),
    {
        let units: u16 = match units {
            Some(units) => units,
            None => DEFAULT_UNITS_PER_EM,
        };
        FaceInfo { units_per_em: F32::from_i64(units as i64), has_colr: colr }
    }

    /// Reads what is needed of a face in a font file.
    pub fn read(data: &[u8], index: u32) -> (r: FaceInfo)
        ensures
            r == face_info(head_units_per_em(data@, index), has_colr_table(data@, index)),
    {
        FaceInfo::from_tables(read_units_per_em(data, index), read_has_colr(data, index))
    }
}

}
