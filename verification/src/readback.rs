//! Reading blobs as the shaders do: by texels of two words, each word as unsigned bits
//! or as two lanes of sixteen bits, the first in the low half.
use vstd::prelude::*;
use vstd::arithmetic::power2::pow2;
use crate::band::laws::{entries_list, lane_at, unsigned_lane};
use crate::band::{grid_step, lane, split_lane};
use crate::float32::{F32, lemma_lane_steps, lemma_step_is_nearest};
use crate::outline::QuadCurve;
use crate::packing::{packed_words, pair_word};
use crate::text_atlas::bits_word;

verus! {

/// A word's bits.
pub open spec fn word_at(words: Seq<i32>, i: int) -> int {
    words[i] as int % 0x1_0000_0000
}

/// The bits of lane `l` of a texel, from 0 to 3.
pub open spec fn lane_bits(words: Seq<i32>, texel: int, l: int) -> int {
    let w = word_at(words, 2 * texel + l / 2);
    if l % 2 == 0 { w % 0x1_0000 } else { w / 0x1_0000 }
}

/// Sixteen bits as a signed number.
pub open spec fn signed16(bits: int) -> int {
    if bits >= 0x8000 { bits - 0x1_0000 } else { bits }
}

pub proof fn lemma_bits_word(x: u32)
    ensures
        bits_word(x) as int % 0x1_0000_0000 == x,
{
}

pub proof fn lemma_pair_word(low: i16, high: i16)
    ensures
        ({
            let w = pair_word(low, high) as int % 0x1_0000_0000;
            w % 0x1_0000 == low as int % 0x1_0000 && w / 0x1_0000 == high as int % 0x1_0000
        }),
{
    let l = low as int % 0x1_0000;
    let h = high as int % 0x1_0000;
    assert((low as int % 0x1_0000 + high * 0x1_0000) % 0x1_0000_0000 == l + h * 0x1_0000);
}

/// Lanes stand in a blob from a texel on.
pub open spec fn lanes_stand_at(words: Seq<i32>, texel: int, lanes: Seq<i16>) -> bool {
    forall|j: int|
        0 <= j < lanes.len() ==> lane_bits(words, texel + j / 4, j % 4) == (#[trigger] lanes[j]) as int % 0x1_0000
}

/// Packed lanes stand where they were put.
pub proof fn lemma_packed_lanes_stand(words: Seq<i32>, texel: int, lanes: Seq<i16>)
    requires
        0 <= texel,
        lanes.len() % 4 == 0,
        2 * texel + lanes.len() / 2 <= words.len(),
        words.subrange(2 * texel, 2 * texel + lanes.len() as int / 2) == packed_words(lanes),
    ensures
        lanes_stand_at(words, texel, lanes),
{
    let packed = packed_words(lanes);
    assert forall|j: int| 0 <= j < lanes.len() implies lane_bits(words, texel + j / 4, j % 4) == (
    #[trigger] lanes[j]) as int % 0x1_0000 by {
        let i = j / 2;
        assert(2 * (texel + j / 4) + (j % 4) / 2 == 2 * texel + i);
        assert(words[2 * texel + i] == packed[i]);
        assert(packed[i] == pair_word(lanes[2 * i], lanes[2 * i + 1]));
        lemma_pair_word(lanes[2 * i], lanes[2 * i + 1]);
        assert((j % 4) % 2 == j % 2);
    }
}

/// A band's list in a band region that starts at texel `base` of a blob, given by which
/// header lane names its start. The headers of the rows come before those of the columns.
pub open spec fn region_list(
    words: Seq<i32>,
    base: int,
    rows: int,
    horizontal: bool,
    band: int,
    start_lane: int,
    lane: int,
) -> Seq<int> {
    let at = base + if horizontal { band } else { rows + band };
    let count = lane_bits(words, at, 0);
    let start = lane_bits(words, at, start_lane);
    Seq::new(count as nat, |k: int| lane_bits(words, base + start + k, lane))
}

proof fn lemma_standing_lane(words: Seq<i32>, base: int, e: Seq<i16>, texel: int, l: int)
    requires
        lanes_stand_at(words, base, e),
        0 <= texel,
        0 <= l < 4,
        4 * texel + l < e.len(),
    ensures
        lane_bits(words, base + texel, l) == unsigned_lane(lane_at(e, texel, l)),
{
    let j = 4 * texel + l;
    assert(e[j] == lane_at(e, texel, l));
    assert(j / 4 == texel && j % 4 == l);
}

/// A list that is read from words is the list that was packed.
pub proof fn lemma_region_list(
    words: Seq<i32>,
    base: int,
    e: Seq<i16>,
    rows: int,
    horizontal: bool,
    band: int,
    start_lane: int,
    name: i16,
)
    requires
        lanes_stand_at(words, base, e),
        0 <= rows,
        0 <= band,
        start_lane == 1 || start_lane == 2,
        ({
            let at = if horizontal { band } else { rows + band };
            &&& 4 * at + 4 <= e.len()
            &&& 4 * (unsigned_lane(lane_at(e, at, start_lane)) + unsigned_lane(lane_at(e, at, 0))) <= e.len()
        }),
    ensures
        region_list(words, base, rows, horizontal, band, start_lane, 0).to_multiset().count(unsigned_lane(name))
            == entries_list(e, rows, horizontal, band, start_lane, 0).to_multiset().count(name),
{
    let at = if horizontal { band } else { rows + band };
    lemma_standing_lane(words, base, e, at, 0);
    lemma_standing_lane(words, base, e, at, start_lane);
    let list = entries_list(e, rows, horizontal, band, start_lane, 0);
    let f = |x: i16| unsigned_lane(x);
    let start = unsigned_lane(lane_at(e, at, start_lane));
    let read = region_list(words, base, rows, horizontal, band, start_lane, 0);
    assert forall|k: int| 0 <= k < list.len() implies read[k] == list.map_values(f)[k] by {
        lemma_standing_lane(words, base, e, start + k, 0);
    }
    assert(read =~= list.map_values(f));
    lemma_bits_count(list, name);
}

proof fn lemma_bits_count(list: Seq<i16>, x: i16)
    ensures
        list.map_values(|y: i16| unsigned_lane(y)).to_multiset().count(unsigned_lane(x)) == list.to_multiset().count(x),
    decreases list.len(),
{
    let f = |y: i16| unsigned_lane(y);
    let values = list.map_values(f);
    list.to_multiset_ensures();
    values.to_multiset_ensures();
    if list.len() > 0 {
        let rest = list.drop_last();
        lemma_bits_count(rest, x);
        rest.to_multiset_ensures();
        rest.map_values(f).to_multiset_ensures();
        assert(list =~= rest.push(list.last()));
        assert(values =~= rest.map_values(f).push(f(list.last())));
    }
}

/// Sixteen bits that hold a coordinate to the nearest quarter unit.
pub open spec fn holds_coordinate(bits: int, v: F32) -> bool {
    let u = pow2(149) as int;
    let steps = signed16(bits) * u;
    2 * (4 * v.value() - steps) <= u && 2 * (steps - 4 * v.value()) <= u
}

/// The points of a curve stand at a texel: start and control point in it, the end in the
/// next.
pub open spec fn reads_curve(words: Seq<i32>, texel: int, c: QuadCurve) -> bool {
    &&& holds_coordinate(lane_bits(words, texel, 0), c.p1[0])
    &&& holds_coordinate(lane_bits(words, texel, 1), c.p1[1])
    &&& holds_coordinate(lane_bits(words, texel, 2), c.p2[0])
    &&& holds_coordinate(lane_bits(words, texel, 3), c.p2[1])
    &&& holds_coordinate(lane_bits(words, texel + 1, 0), c.p3[0])
    &&& holds_coordinate(lane_bits(words, texel + 1, 1), c.p3[1])
}

/// A lane holds the coordinate that it was made from.
pub proof fn lemma_lane_holds(v: F32)
    requires
        v.unsigned() < 0x45ff_ff00,
    ensures
        holds_coordinate(unsigned_lane(lane(v)), v),
        holds_coordinate(unsigned_lane(split_lane(v)), v),
{
    reveal(lane);
    reveal(split_lane);
    reveal(grid_step);
    lemma_lane_steps(v, v);
    lemma_step_is_nearest(v);
}

}
