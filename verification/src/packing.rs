//! Packing of 16-bit lanes into the 32-bit words of the glyph buffer.
use vstd::prelude::*;

verus! {

/// The 16-bit two's complement value congruent to `x`.
pub open spec fn wrap16(x: int) -> int {
    (x + 0x8000) % 0x1_0000 - 0x8000
}

/// The 32-bit two's complement value congruent to `x`.
pub open spec fn wrap32(x: int) -> int {
    (x + 0x8000_0000) % 0x1_0000_0000 - 0x8000_0000
}

/// The low lane of a packed word.
pub open spec fn low_lane(word: i32) -> i16 {
    wrap16(word as int) as i16
}

/// The high lane of a packed word.
pub open spec fn high_lane(word: i32) -> i16 {
    wrap16(word as int / 0x1_0000) as i16
}

/// Keeps the low 16 bits of an integer, read as a signed value.
pub fn wrap_i16(x: i64) -> (r: i16)
    requires
        -0x100_0000_0000 <= x <= 0x100_0000_0000,
    ensures
        r == wrap16(x as int),
{
    let low: i64 = (x + 0x100_0000_8000) % 0x1_0000;
    (low - 0x8000) as i16
}

/// Keeps the low 32 bits of an integer, read as a signed value.
pub fn wrap_i32(x: i64) -> (r: i32)
    requires
        -0x100_0000_0000 <= x <= 0x100_0000_0000,
    ensures
        r == wrap32(x as int),
{
    let low: i64 = (x + 0x100_8000_0000) % 0x1_0000_0000;
    (low - 0x8000_0000) as i32
}

/// Packs two lanes into one word, the first in the low half.
pub fn pack_i16_pair(low: i16, high: i16) -> (r: i32)
    ensures
        r == pair_word(low, high),
        low_lane(r) == low,
        high_lane(r) == high,
{
    let unsigned: i64 = (low as i64 + 0x1_0000) % 0x1_0000;
    wrap_i32(unsigned + high as i64 * 0x1_0000)
}

/// Splits a word into its low and high lanes.
pub fn unpack_i16_pair(word: i32) -> (r: (i16, i16))
    ensures
        r.0 == low_lane(word),
        r.1 == high_lane(word),
{
    let low: i16 = wrap_i16(word as i64);
    let rest: i64 = word as i64 - low as i64;
    let shifted: i64 = (rest + 0x1_0000_0000) / 0x1_0000 - 0x1_0000;
    proof {
        let w = word as int;
        let l = low as int;
        // The difference between `rest` and `word` is a lane, so that the two
        // quotients differ by at most one; the borrow goes into the low lane.
        assert(w - l == 0x1_0000 * ((w + 0x8000) / 0x1_0000));
    }
    let low_negative: bool = low < 0;
    (low, wrap_i16(if low_negative { shifted - 1 } else { shifted }))
}

/// The word that holds two lanes.
pub open spec fn pair_word(low: i16, high: i16) -> i32 {
    wrap32(low as int % 0x1_0000 + high * 0x1_0000) as i32
}

/// Lanes packed two to a word.
pub open spec fn packed_words(lanes: Seq<i16>) -> Seq<i32> {
    Seq::new(lanes.len() / 2, |i: int| pair_word(lanes[2 * i], lanes[2 * i + 1]))
}

/// Appends lanes, packed two to a word.
pub fn append_packed(out: &mut Vec<i32>, lanes: &Vec<i16>)
    requires
        lanes.len() % 2 == 0,
    ensures
        final(out)@ == old(out)@ + packed_words(lanes@),
{
    let ghost before = out@;
    let n: usize = lanes.len() / 2;
    let mut i: usize = 0;
    assert(before + packed_words(lanes@).take(0) =~= before);
    while i < n
        invariant
            n == lanes.len() / 2,
            i <= n,
            out@ == before + packed_words(lanes@).take(i as int),
        decreases n - i,
    {
        out.push(pack_i16_pair(lanes[2 * i], lanes[2 * i + 1]));
        assert(out@ =~= before + packed_words(lanes@).take(i + 1));
        i = i + 1;
    }
    assert(packed_words(lanes@).take(n as int) =~= packed_words(lanes@));
}

/// Unpacking returns the packed lanes, and packing a word's lanes returns the
/// word.
pub proof fn law_pack_round_trip(word: i32)
    ensures
        word == pair_word(low_lane(word), high_lane(word)),
{
    let w = word as int;
    let l = low_lane(word) as int;
    let h = high_lane(word) as int;
    assert(h == w / 0x1_0000);
    assert(l % 0x1_0000 == w % 0x1_0000);
}

}
