//! Sorted lists of glyph keys without repetition.
use vstd::prelude::*;
use crate::glyph_cache::GlyphKey;

verus! {

/// The order of keys: by font, then glyph, then weight, then style.
pub open spec fn rank(key: GlyphKey) -> int {
    key.cache_key_flags + 0x1_0000_0000 * (key.font_weight + 0x1_0000 * (key.glyph_id + 0x1_0000 * key.font_id))
}

/// Each key comes before the next, so none occurs twice.
pub open spec fn ascending(keys: Seq<GlyphKey>) -> bool {
    forall|i: int, j: int| 0 <= i < j < keys.len() ==> rank(#[trigger] keys[i]) < rank(#[trigger] keys[j])
}

/// `keys` holds the keys of `all`, each once and in order.
pub open spec fn sorted_set(keys: Seq<GlyphKey>, all: Seq<GlyphKey>) -> bool {
    &&& ascending(keys)
    &&& forall|i: int| 0 <= i < all.len() ==> keys.contains(#[trigger] all[i])
    &&& forall|i: int| 0 <= i < keys.len() ==> all.contains(#[trigger] keys[i])
}

fn rank_of(key: &GlyphKey) -> (r: u128)
    ensures
        r == rank(*key),
{
    key.cache_key_flags as u128 + 0x1_0000_0000 * (key.font_weight as u128 + 0x1_0000 * (key.glyph_id as u128 + 0x1_0000
        * key.font_id as u128))
}

/// The keys of a list, each once and in order.
pub fn sorted_keys(all: &Vec<GlyphKey>) -> (keys: Vec<GlyphKey>)
    ensures
        sorted_set(keys@, all@),
{
    let mut keys: Vec<GlyphKey> = Vec::new();
    for n in 0..all.len()
        invariant
            ascending(keys@),
            forall|i: int| 0 <= i < n ==> keys@.contains(#[trigger] all@[i]),
            forall|i: int| 0 <= i < keys@.len() ==> all@.contains(#[trigger] keys@[i]),
    {
        let key: GlyphKey = all[n];
        let wanted: u128 = rank_of(&key);
        let mut low: usize = 0;
        let mut high: usize = keys.len();
        while low < high
            invariant
                wanted == rank(key),
                ascending(keys@),
                low <= high <= keys@.len(),
                forall|i: int| 0 <= i < low ==> rank(#[trigger] keys@[i]) < wanted,
                forall|i: int| high <= i < keys@.len() ==> rank(#[trigger] keys@[i]) >= wanted,
            decreases high - low,
        {
            let middle: usize = low + (high - low) / 2;
            if rank_of(&keys[middle]) < wanted {
                low = middle + 1;
            } else {
                high = middle;
            }
        }
        let ghost before = keys@;
        if low == keys.len() || rank_of(&keys[low]) != wanted {
            keys.insert(low, key);
            proof {
                assert(keys@[low as int] == key);
                assert forall|i: int| 0 <= i < n implies keys@.contains(#[trigger] all@[i]) by {
                    assert(before.contains(all@[i]));
                    let k = choose|k: int| 0 <= k < before.len() && before[k] == all@[i];
                    assert(keys@[if k < low { k } else { k + 1 }] == all@[i]);
                }
                assert forall|i: int| 0 <= i < keys@.len() implies all@.contains(#[trigger] keys@[i]) by {
                    if i < low {
                        assert(keys@[i] == before[i]);
                    } else if i > low {
                        assert(keys@[i] == before[i - 1]);
                    } else {
                        assert(all@[n as int] == key);
                    }
                }
            }
        } else {
            assert(keys@[low as int] == key);
        }
    }
    keys
}

/// A list has one sorted form.
pub proof fn law_sorted_form_is_unique(a: Seq<GlyphKey>, b: Seq<GlyphKey>, all: Seq<GlyphKey>)
    requires
        sorted_set(a, all),
        sorted_set(b, all),
    ensures
        a == b,
{
    assert forall|i: int| 0 <= i < a.len() implies i < b.len() && #[trigger] a[i] == b[i] by {
        lemma_same_prefix(a, b, all, i);
    }
    assert forall|i: int| 0 <= i < b.len() implies i < a.len() && a[i] == #[trigger] b[i] by {
        lemma_same_prefix(b, a, all, i);
    }
    if a.len() > b.len() {
        lemma_same_prefix(a, b, all, b.len() as int);
    } else if b.len() > a.len() {
        lemma_same_prefix(b, a, all, a.len() as int);
    }
    assert(a =~= b);
}

proof fn lemma_same_prefix(a: Seq<GlyphKey>, b: Seq<GlyphKey>, all: Seq<GlyphKey>, i: int)
    requires
        sorted_set(a, all),
        sorted_set(b, all),
        0 <= i < a.len(),
    ensures
        i < b.len(),
        a[i] == b[i],
    decreases i,
{
    if i > 0 {
        lemma_same_prefix(a, b, all, i - 1);
        assert forall|j: int| 0 <= j < i implies j < b.len() && #[trigger] a[j] == b[j] by {
            lemma_same_prefix(a, b, all, j);
        }
    }
    assert(all.contains(a[i]));
    let p = choose|p: int| 0 <= p < all.len() && all[p] == a[i];
    assert(b.contains(all[p]));
    let k = choose|k: int| 0 <= k < b.len() && b[k] == a[i];
    if k < i {
        assert(a[k] == b[k]);
        assert(rank(a[k]) < rank(a[i]));
    } else if k > i {
        assert(all.contains(b[i]));
        let q = choose|q: int| 0 <= q < all.len() && all[q] == b[i];
        assert(a.contains(all[q]));
        let m = choose|m: int| 0 <= m < a.len() && a[m] == b[i];
        assert(rank(b[i]) < rank(b[k]));
        if m < i {
            assert(a[m] == b[m]);
            assert(rank(b[m]) < rank(b[i]));
        } else if m > i {
            assert(rank(a[i]) < rank(a[m]));
        }
    }
}

/// How many keys of an ascending list come before a rank.
spec fn keys_before(keys: Seq<GlyphKey>, wanted: int, n: nat) -> nat
    decreases n,
{
    if n == 0 {
        0
    } else if rank(keys[n - 1]) < wanted {
        n
    } else {
        keys_before(keys, wanted, (n - 1) as nat)
    }
}

proof fn lemma_keys_before(keys: Seq<GlyphKey>, wanted: int, n: nat)
    requires
        ascending(keys),
        n <= keys.len(),
    ensures
        keys_before(keys, wanted, n) <= n,
        forall|i: int| 0 <= i < keys_before(keys, wanted, n) ==> rank(#[trigger] keys[i]) < wanted,
        forall|i: int| keys_before(keys, wanted, n) <= i < n ==> rank(#[trigger] keys[i]) >= wanted,
    decreases n,
{
    if n > 0 {
        if rank(keys[n - 1]) < wanted {
            assert forall|i: int| 0 <= i < n implies rank(#[trigger] keys[i]) < wanted by {
                if i < n - 1 {
                    assert(rank(keys[i]) < rank(keys[n - 1]));
                }
            }
        } else {
            lemma_keys_before(keys, wanted, (n - 1) as nat);
        }
    }
}

proof fn lemma_ranks_tell_keys_apart(a: GlyphKey, b: GlyphKey)
    requires
        rank(a) == rank(b),
    ensures
        a == b,
{
}

/// A key put at its place keeps a list ascending.
proof fn lemma_insertion_ascends(before: Seq<GlyphKey>, x: GlyphKey, low: int)
    requires
        ascending(before),
        !before.contains(x),
        0 <= low <= before.len(),
        forall|i: int| 0 <= i < low ==> rank(#[trigger] before[i]) < rank(x),
        forall|i: int| low <= i < before.len() ==> rank(#[trigger] before[i]) >= rank(x),
    ensures
        ascending(before.insert(low, x)),
{
    let keys = before.insert(low, x);
    assert forall|i: int, j: int| 0 <= i < j < keys.len() implies rank(#[trigger] keys[i]) < rank(#[trigger] keys[j]) by {
        let a = if i < low { i } else { i - 1 };
        let b = if j < low { j } else { j - 1 };
        if i != low && j != low {
            assert(rank(before[a]) < rank(before[b]));
        } else if i == low {
            if rank(before[b]) == rank(x) {
                lemma_ranks_tell_keys_apart(before[b], x);
                assert(before.contains(before[b]));
            }
        }
    }
}

/// A key put anywhere leaves the others in the list.
proof fn lemma_insertion_lists(before: Seq<GlyphKey>, all: Seq<GlyphKey>, low: int)
    requires
        all.len() > 0,
        0 <= low <= before.len(),
        forall|i: int| 0 <= i < all.len() - 1 ==> before.contains(#[trigger] all[i]),
        forall|i: int| 0 <= i < before.len() ==> all.contains(#[trigger] before[i]),
    ensures
        forall|i: int| 0 <= i < all.len() ==> before.insert(low, all.last()).contains(#[trigger] all[i]),
        forall|i: int| 0 <= i < before.len() + 1 ==> all.contains(#[trigger] before.insert(low, all.last())[i]),
{
    let x = all.last();
    let keys = before.insert(low, x);
    assert(keys[low] == x);
    assert forall|i: int| 0 <= i < all.len() implies keys.contains(#[trigger] all[i]) by {
        if i < all.len() - 1 {
            assert(before.contains(all[i]));
            let k = choose|k: int| 0 <= k < before.len() && before[k] == all[i];
            assert(keys[if k < low { k } else { k + 1 }] == all[i]);
        }
    }
    assert forall|i: int| 0 <= i < keys.len() implies all.contains(#[trigger] keys[i]) by {
        if i < low {
            assert(all.contains(before[i]));
        } else if i > low {
            assert(all.contains(before[i - 1]));
        } else {
            assert(all[all.len() - 1] == x);
        }
    }
}

/// Every list has a sorted form.
pub proof fn law_sorted_form_exists(all: Seq<GlyphKey>)
    ensures
        exists|keys: Seq<GlyphKey>| sorted_set(keys, all),
    decreases all.len(),
{
    if all.len() == 0 {
        assert(sorted_set(Seq::<GlyphKey>::empty(), all));
    } else {
        let rest = all.drop_last();
        let x = all.last();
        law_sorted_form_exists(rest);
        let before = choose|keys: Seq<GlyphKey>| sorted_set(keys, rest);
        assert forall|i: int| 0 <= i < before.len() implies all.contains(#[trigger] before[i]) by {
            lemma_still_listed(all, before[i]);
        }
        assert forall|i: int| 0 <= i < all.len() - 1 implies before.contains(#[trigger] all[i]) by {
            assert(before.contains(rest[i]));
        }
        if before.contains(x) {
            assert(sorted_set(before, all));
        } else {
            let low = keys_before(before, rank(x), before.len()) as int;
            lemma_keys_before(before, rank(x), before.len());
            lemma_insertion_ascends(before, x, low);
            lemma_insertion_lists(before, all, low);
            assert(sorted_set(before.insert(low, x), all));
        }
    }
}

proof fn lemma_still_listed(all: Seq<GlyphKey>, x: GlyphKey)
    requires
        all.len() > 0,
        all.drop_last().contains(x),
    ensures
        all.contains(x),
{
    let rest = all.drop_last();
    let k = choose|k: int| 0 <= k < rest.len() && rest[k] == x;
    assert(all[k] == x);
}

}
