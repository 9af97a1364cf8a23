//! Partition of a shadow's mask by depth.
//!
//! A composite quad carries one depth, so a blurred shadow is built once for each
//! depth among its glyphs. Depths are compared by bit pattern.
use vstd::prelude::*;
use crate::float32::{F32, f_add, f_lt, f_sub, f_min, f_max, HALF_BITS};
use crate::text_renderer::geometry::GlyphInstance;

verus! {

/// The depths of the first `n` instances, each once, in order of appearance.
pub open spec fn depths_seen(instances: Seq<GlyphInstance>, n: int) -> Seq<F32>
    decreases n,
{
    if n <= 0 {
        Seq::empty()
    } else {
        let seen = depths_seen(instances, n - 1);
        if seen.contains(instances[n - 1].depth) { seen } else { seen.push(instances[n - 1].depth) }
    }
}

/// A list of depths with one more: it goes before the depths at the end that it is
/// farther than. Depths that do not compare, a NaN among them, keep their order.
pub open spec fn with_depth(list: Seq<F32>, depth: F32) -> Seq<F32>
    decreases list.len(),
{
    if list.len() > 0 && f_lt(list.last(), depth) {
        with_depth(list.drop_last(), depth).push(list.last())
    } else {
        list.push(depth)
    }
}

/// The first `n` depths with the largest first.
pub open spec fn first_sorted(depths: Seq<F32>, n: nat) -> Seq<F32>
    decreases n,
{
    if n == 0 {
        Seq::empty()
    } else {
        with_depth(first_sorted(depths, (n - 1) as nat), depths[n - 1])
    }
}

/// The depths with the largest first, in their order of appearance where that
/// decides nothing.
pub open spec fn far_first(depths: Seq<F32>) -> Seq<F32> {
    first_sorted(depths, depths.len())
}

/// The quad of an instance, scrolled, with the half pixel around it that the mask
/// is rasterized over, as edges.
pub open spec fn mask_rect(instance: GlyphInstance, scroll: Seq<F32>) -> [F32; 4] {
    let half = F32 { bits: HALF_BITS };
    let r = instance.screen_rect;
    let x = f_add(r@[0], scroll[0]);
    let y = f_add(r@[1], scroll[1]);
    [f_sub(x, half), f_sub(y, half), f_add(f_add(x, r@[2]), half), f_add(f_add(y, r@[3]), half)]
}

/// The smallest rectangle around two.
pub open spec fn hull(a: [F32; 4], b: [F32; 4]) -> [F32; 4] {
    [f_min(a@[0], b@[0]), f_min(a@[1], b@[1]), f_max(a@[2], b@[2]), f_max(a@[3], b@[3])]
}

/// The hull of the instances at a depth among the first `n`.
pub open spec fn bounds_at(instances: Seq<GlyphInstance>, scroll: Seq<F32>, depth: F32, n: int) -> Option<[F32; 4]>
    decreases n,
{
    if n <= 0 {
        None
    } else {
        let rest = bounds_at(instances, scroll, depth, n - 1);
        let instance = instances[n - 1];
        if instance.depth != depth {
            rest
        } else {
            match rest {
                None => Some(mask_rect(instance, scroll)),
                Some(b) => Some(hull(b, mask_rect(instance, scroll))),
            }
        }
    }
}

/// The instances at a depth among the first `n`.
pub open spec fn at_depth(instances: Seq<GlyphInstance>, depth: F32, n: int) -> Seq<GlyphInstance>
    decreases n,
{
    if n <= 0 {
        Seq::empty()
    } else {
        let rest = at_depth(instances, depth, n - 1);
        if instances[n - 1].depth == depth { rest.push(instances[n - 1]) } else { rest }
    }
}

/// The distinct depths of some instances, the farthest first.
pub fn distinct_depths(instances: &[GlyphInstance]) -> (r: Vec<F32>)
    ensures
        r@ == far_first(depths_seen(instances@, instances@.len() as int)),
{
    let mut seen: Vec<F32> = Vec::new();
    for i in 0..instances.len()
        invariant
            seen@ == depths_seen(instances@, i as int),
    {
        let depth: F32 = instances[i].depth;
        let mut known: bool = false;
        for j in 0..seen.len()
            invariant
                known == exists|k: int| 0 <= k < j && #[trigger] seen@[k] == depth,
        {
            if seen[j] == depth {
                known = true;
            }
        }
        assert(known == seen@.contains(depth));
        if !known {
            seen.push(depth);
        }
    }
    let mut r: Vec<F32> = Vec::new();
    for i in 0..seen.len()
        invariant
            r@ == first_sorted(seen@, i as nat),
    {
        let depth: F32 = seen[i];
        let mut at: usize = r.len();
        while at > 0 && r[at - 1].lt(depth)
            invariant
                at <= r@.len(),
                forall|k: int| at <= k < r@.len() ==> f_lt(#[trigger] r@[k], depth),
            decreases at,
        {
            at = at - 1;
        }
        proof {
            lemma_with_depth(r@, depth, at as int);
        }
        r.insert(at, depth);
    }
    r
}

proof fn lemma_with_depth(list: Seq<F32>, depth: F32, at: int)
    requires
        0 <= at <= list.len(),
        forall|k: int| at <= k < list.len() ==> f_lt(#[trigger] list[k], depth),
        at > 0 ==> !f_lt(list[at - 1], depth),
    ensures
        with_depth(list, depth) == list.insert(at, depth),
    decreases list.len(),
{
    if at < list.len() {
        let rest = list.drop_last();
        assert forall|k: int| at <= k < rest.len() implies f_lt(#[trigger] rest[k], depth) by {
            assert(rest[k] == list[k]);
        }
        lemma_with_depth(rest, depth, at);
        assert(f_lt(list[list.len() - 1], depth));
        assert(rest.insert(at, depth).push(list.last()) =~= list.insert(at, depth));
    } else {
        assert(list.insert(at, depth) =~= list.push(depth));
    }
}

/// The hull of the quads of the instances at a depth, in scrolled screen space,
/// or `None` where there are none.
pub fn instance_bounds_at_depth(instances: &[GlyphInstance], scroll: [F32; 2], depth: F32) -> (r: Option<[F32; 4]>)
    ensures
        r == bounds_at(instances@, scroll@, depth, instances@.len() as int),
{
    let half: F32 = F32 { bits: HALF_BITS };
    let mut bounds: Option<[F32; 4]> = None;
    for i in 0..instances.len()
        invariant
            half == (F32 { bits: HALF_BITS }),
            bounds == bounds_at(instances@, scroll@, depth, i as int),
    {
        let instance: GlyphInstance = instances[i];
        if instance.depth == depth {
            let x: F32 = instance.screen_rect[0].plus(scroll[0]);
            let y: F32 = instance.screen_rect[1].plus(scroll[1]);
            let rect: [F32; 4] = [
                x.minus(half),
                y.minus(half),
                x.plus(instance.screen_rect[2]).plus(half),
                y.plus(instance.screen_rect[3]).plus(half),
            ];
            assert(rect == mask_rect(instance, scroll@));
            bounds = Some(
                match bounds {
                    None => rect,
                    Some(b) => [b[0].min(rect[0]), b[1].min(rect[1]), b[2].max(rect[2]), b[3].max(rect[3])],
                },
            );
        }
    }
    bounds
}

/// The instances at a depth: what a mask at that depth is rendered from.
pub fn instances_at_depth(instances: &[GlyphInstance], depth: F32) -> (r: Vec<GlyphInstance>)
    ensures
        r@ == at_depth(instances@, depth, instances@.len() as int),
{
    let mut r: Vec<GlyphInstance> = Vec::new();
    for i in 0..instances.len()
        invariant
            r@ == at_depth(instances@, depth, i as int),
    {
        if instances[i].depth == depth {
            r.push(instances[i]);
        }
    }
    r
}

proof fn lemma_depths_seen(instances: Seq<GlyphInstance>, n: int)
    requires
        0 <= n <= instances.len(),
    ensures
        depths_seen(instances, n).no_duplicates(),
        depths_seen(instances, n).len() <= n,
        forall|i: int| 0 <= i < n ==> depths_seen(instances, n).contains(#[trigger] instances[i].depth),
        forall|k: int|
            0 <= k < depths_seen(instances, n).len() ==> exists|i: int|
                0 <= i < n && #[trigger] instances[i].depth == #[trigger] depths_seen(instances, n)[k],
    decreases n,
{
    if n > 0 {
        lemma_depths_seen(instances, n - 1);
        let seen = depths_seen(instances, n - 1);
        let all = depths_seen(instances, n);
        let depth = instances[n - 1].depth;
        if !seen.contains(depth) {
            assert(all[seen.len() as int] == depth);
            assert forall|i: int| 0 <= i < n implies all.contains(#[trigger] instances[i].depth) by {
                if i < n - 1 {
                    assert(seen.contains(instances[i].depth));
                    let k = choose|k: int| 0 <= k < seen.len() && seen[k] == instances[i].depth;
                    assert(all[k] == instances[i].depth);
                }
            }
            assert forall|k: int| 0 <= k < all.len() implies exists|i: int|
                0 <= i < n && #[trigger] instances[i].depth == #[trigger] all[k] by {
                if k < seen.len() {
                    assert(all[k] == seen[k]);
                }
            }
        }
    }
}

/// Farthest first, as far as depths compare.
pub open spec fn falls(list: Seq<F32>) -> bool {
    forall|j: int, k: int| 0 <= j < k < list.len() ==> !f_lt(#[trigger] list[j], #[trigger] list[k])
}

proof fn lemma_inserted_depth(list: Seq<F32>, depth: F32)
    ensures
        with_depth(list, depth).to_multiset() == list.to_multiset().insert(depth),
        with_depth(list, depth).len() == list.len() + 1,
        falls(list) && !depth.nan() && (forall|k: int| 0 <= k < list.len() ==> !(#[trigger] list[k]).nan()) ==> falls(
            with_depth(list, depth),
        ),
        (forall|k: int| 0 <= k < list.len() ==> !f_lt(#[trigger] list[k], depth)) ==> with_depth(list, depth)
            == list.push(depth),
    decreases list.len(),
{
    list.to_multiset_ensures();
    if list.len() > 0 && f_lt(list.last(), depth) {
        let rest = list.drop_last();
        let before = with_depth(rest, depth);
        let x = list.last();
        lemma_inserted_depth(rest, depth);
        before.to_multiset_ensures();
        rest.to_multiset_ensures();
        assert(list =~= rest.push(x));
        assert(with_depth(list, depth).to_multiset() =~= list.to_multiset().insert(depth));
        if falls(list) && !depth.nan() && (forall|k: int| 0 <= k < list.len() ==> !(#[trigger] list[k]).nan()) {
            assert forall|j: int, k: int| 0 <= j < k < rest.len() implies !f_lt(#[trigger] rest[j], #[trigger] rest[k]) by {
                assert(!f_lt(list[j], list[k]));
            }
            assert forall|k: int| 0 <= k < rest.len() implies !(#[trigger] rest[k]).nan() by {
                assert(!list[k].nan());
            }
            assert forall|j: int| 0 <= j < before.len() implies !f_lt(#[trigger] before[j], x) by {
                assert(before.contains(before[j]));
                assert(before.to_multiset().count(before[j]) > 0);
                if before[j] != depth {
                    assert(rest.contains(before[j]));
                    let i = choose|i: int| 0 <= i < rest.len() && rest[i] == before[j];
                    assert(!f_lt(list[i], list[list.len() - 1]));
                }
            }
        }
        assert(f_lt(list[list.len() - 1], depth));
    } else if list.len() > 0 {
        if falls(list) && !depth.nan() && (forall|k: int| 0 <= k < list.len() ==> !(#[trigger] list[k]).nan()) {
            let all = list.push(depth);
            assert forall|j: int, k: int| 0 <= j < k < all.len() implies !f_lt(#[trigger] all[j], #[trigger] all[k]) by {
                if k == list.len() {
                    assert(!list[j].nan() && !list[list.len() - 1].nan());
                    if j < list.len() - 1 {
                        assert(!f_lt(list[j], list[list.len() - 1]));
                    }
                } else {
                    assert(!f_lt(list[j], list[k]));
                }
            }
        }
    }
}

proof fn lemma_first_sorted(depths: Seq<F32>, n: nat)
    requires
        n <= depths.len(),
    ensures
        first_sorted(depths, n).to_multiset() == depths.take(n as int).to_multiset(),
        first_sorted(depths, n).len() == n,
        (forall|k: int| 0 <= k < depths.len() ==> !(#[trigger] depths[k]).nan()) ==> falls(first_sorted(depths, n)),
        falls(depths) ==> first_sorted(depths, n) == depths.take(n as int),
    decreases n,
{
    if n > 0 {
        let before = first_sorted(depths, (n - 1) as nat);
        let some = depths.take(n - 1);
        lemma_first_sorted(depths, (n - 1) as nat);
        lemma_inserted_depth(before, depths[n - 1]);
        some.to_multiset_ensures();
        before.to_multiset_ensures();
        assert(depths.take(n as int) =~= some.push(depths[n - 1]));
        if forall|k: int| 0 <= k < depths.len() ==> !(#[trigger] depths[k]).nan() {
            assert forall|k: int| 0 <= k < before.len() implies !(#[trigger] before[k]).nan() by {
                assert(before.contains(before[k]));
                assert(before.to_multiset().count(before[k]) > 0);
                assert(some.contains(before[k]));
                let i = choose|i: int| 0 <= i < some.len() && some[i] == before[k];
                assert(!depths[i].nan());
            }
        }
        if falls(depths) {
            assert forall|k: int| 0 <= k < before.len() implies !f_lt(#[trigger] before[k], depths[n - 1]) by {
                assert(before[k] == depths[k]);
            }
        }
    } else {
        assert(depths.take(0) =~= first_sorted(depths, 0));
    }
}

/// The distinct depths are what their name says: each depth of an instance, once. If
/// none is a NaN, no depth comes before a farther one. Depths of which none is farther
/// than one before it, because they fall already or do not compare, stay in their order
/// of appearance.
pub proof fn law_depths_are_distinct_and_far_first(instances: Seq<GlyphInstance>)
    ensures
        ({
            let seen = depths_seen(instances, instances.len() as int);
            let r = far_first(seen);
            &&& r.no_duplicates()
            &&& forall|i: int| 0 <= i < instances.len() ==> r.contains(#[trigger] instances[i].depth)
            &&& forall|k: int|
                0 <= k < r.len() ==> exists|i: int|
                    0 <= i < instances.len() && #[trigger] instances[i].depth == #[trigger] r[k]
            &&& (forall|i: int| 0 <= i < instances.len() ==> !(#[trigger] instances[i]).depth.nan()) ==> falls(r)
            &&& falls(seen) ==> r == seen
        }),
{
    let n = instances.len() as int;
    let d = depths_seen(instances, n);
    let r = far_first(d);
    lemma_depths_seen(instances, n);
    lemma_first_sorted(d, d.len());
    assert(d.take(d.len() as int) =~= d);
    lemma_same_items(d, r);
    assert forall|i: int| 0 <= i < instances.len() implies r.contains(#[trigger] instances[i].depth) by {
        assert(d.contains(instances[i].depth));
        let k = choose|k: int| 0 <= k < d.len() && d[k] == instances[i].depth;
        assert(r.contains(d[k]));
    }
    assert forall|k: int| 0 <= k < r.len() implies exists|i: int|
        0 <= i < instances.len() && #[trigger] instances[i].depth == #[trigger] r[k] by {
        d.to_multiset_ensures();
        r.to_multiset_ensures();
        assert(r.contains(r[k]));
        assert(r.to_multiset().count(r[k]) > 0);
        assert(d.contains(r[k]));
        let j = choose|j: int| 0 <= j < d.len() && d[j] == r[k];
        assert(d[j] == r[k]);
    }
    if forall|i: int| 0 <= i < instances.len() ==> !(#[trigger] instances[i]).depth.nan() {
        assert forall|k: int| 0 <= k < d.len() implies !(#[trigger] d[k]).nan() by {
            let i = choose|i: int| 0 <= i < n && #[trigger] instances[i].depth == d[k];
            assert(!instances[i].depth.nan());
        }
    }
}

proof fn lemma_same_items(list: Seq<F32>, order: Seq<F32>)
    requires
        list.no_duplicates(),
        order.to_multiset() == list.to_multiset(),
    ensures
        order.no_duplicates(),
        forall|k: int| 0 <= k < list.len() ==> order.contains(#[trigger] list[k]),
{
    list.to_multiset_ensures();
    order.to_multiset_ensures();
    list.lemma_multiset_has_no_duplicates();
    order.lemma_multiset_has_no_duplicates_conv();
    assert forall|k: int| 0 <= k < list.len() implies order.contains(#[trigger] list[k]) by {
        assert(list.contains(list[k]));
        assert(list.to_multiset().count(list[k]) > 0);
    }
}

/// Masks partition the instances by depth: the mask at a depth holds exactly the
/// instances there, and it has bounds exactly if it holds any.
pub proof fn law_masks_partition_the_instances(instances: Seq<GlyphInstance>, scroll: Seq<F32>, depth: F32, n: int)
    requires
        0 <= n <= instances.len(),
    ensures
        forall|i: int| 0 <= i < n && instances[i].depth == depth ==> at_depth(instances, depth, n).contains(#[trigger] instances[i]),
        forall|k: int| 0 <= k < at_depth(instances, depth, n).len() ==> (#[trigger] at_depth(instances, depth, n)[k]).depth == depth,
        forall|k: int| 0 <= k < at_depth(instances, depth, n).len() ==> instances.contains(#[trigger] at_depth(instances, depth, n)[k]),
        bounds_at(instances, scroll, depth, n).is_some() <==> at_depth(instances, depth, n).len() > 0,
    decreases n,
{
    if n > 0 {
        law_masks_partition_the_instances(instances, scroll, depth, n - 1);
        let rest = at_depth(instances, depth, n - 1);
        let all = at_depth(instances, depth, n);
        if instances[n - 1].depth == depth {
            assert(all[rest.len() as int] == instances[n - 1]);
            assert forall|i: int| 0 <= i < n && instances[i].depth == depth implies all.contains(#[trigger] instances[i]) by {
                if i < n - 1 {
                    assert(rest.contains(instances[i]));
                    let k = choose|k: int| 0 <= k < rest.len() && rest[k] == instances[i];
                    assert(all[k] == instances[i]);
                }
            }
        }
    }
}

}
