//! Sorting of index lists by integer keys.
use vstd::prelude::*;
use vstd::relations::{sorted_by, total_ordering};

verus! {

/// Index `a` comes no later than index `b`: smaller key first, and on equal
/// keys the smaller index.
pub open spec fn precedes(keys: Seq<i128>, a: usize, b: usize) -> bool {
    keys[a as int] < keys[b as int] || (keys[a as int] == keys[b as int] && a <= b)
}

pub open spec fn by_key(keys: Seq<i128>) -> spec_fn(usize, usize) -> bool {
    |a: usize, b: usize| precedes(keys, a, b)
}

/// An index list in the order of its keys.
pub open spec fn ordered(keys: Seq<i128>, list: Seq<usize>) -> Seq<usize> {
    list.sort_by(by_key(keys))
}

proof fn lemma_by_key_total(keys: Seq<i128>)
    ensures
        total_ordering(by_key(keys)),
{
}

/// The ordered list holds the same indices, and its neighbours are in order.
pub proof fn lemma_ordered(keys: Seq<i128>, list: Seq<usize>)
    ensures
        ordered(keys, list).to_multiset() == list.to_multiset(),
        ordered(keys, list).len() == list.len(),
        forall|i: int, j: int|
            0 <= i < j < list.len() ==> precedes(
                keys,
                #[trigger] ordered(keys, list)[i],
                #[trigger] ordered(keys, list)[j],
            ),
        forall|i: int|
            0 <= i < list.len() ==> list.contains(#[trigger] ordered(keys, list)[i]),
{
    lemma_by_key_total(keys);
    list.lemma_sort_by_ensures(by_key(keys));
    let out = ordered(keys, list);
    list.to_multiset_ensures();
    out.to_multiset_ensures();
    assert forall|i: int, j: int| 0 <= i < j < list.len() implies precedes(
        keys,
        #[trigger] out[i],
        #[trigger] out[j],
    ) by {
        assert(by_key(keys)(out[i], out[j]));
    }
    assert forall|i: int| 0 <= i < list.len() implies list.contains(#[trigger] out[i]) by {
        assert(out.contains(out[i]));
    }
}

/// Sorts an index list by key, equal keys by index.
pub fn sort_by_key(keys: &Vec<i128>, list: &Vec<usize>) -> (r: Vec<usize>)
    requires
        forall|i: int| 0 <= i < list.len() ==> #[trigger] list[i] < keys.len(),
    ensures
        r@ == ordered(keys@, list@),
        r.len() == list.len(),
        forall|i: int| 0 <= i < r.len() ==> #[trigger] r[i] < keys.len(),
{
    let mut out: Vec<usize> = Vec::new();
    let ghost leq = by_key(keys@);
    let n: usize = list.len();
    let mut i: usize = 0;
    proof {
        assert(list@.take(0) =~= Seq::<usize>::empty());
    }
    while i < n
        invariant
            n == list.len(),
            i <= n,
            leq == by_key(keys@),
            forall|i: int| 0 <= i < list.len() ==> #[trigger] list[i] < keys.len(),
            out.len() == i,
            forall|i: int| 0 <= i < out.len() ==> #[trigger] out[i] < keys.len(),
            out@.to_multiset() == list@.take(i as int).to_multiset(),
            sorted_by(out@, leq),
        decreases n - i,
    {
        let x: usize = list[i];
        let mut at: usize = out.len();
        while at > 0 && (keys[x] < keys[out[at - 1]] || (keys[x] == keys[out[at - 1]] && x < out[at
            - 1]))
            invariant
                x < keys.len(),
                at <= out.len(),
                leq == by_key(keys@),
                forall|i: int| 0 <= i < out.len() ==> #[trigger] out[i] < keys.len(),
                sorted_by(out@, leq),
                forall|j: int| at <= j < out.len() ==> precedes(keys@, x, #[trigger] out[j]),
            decreases at,
        {
            at = at - 1;
        }
        let ghost before = out@;
        out.insert(at, x);
        proof {
            assert(list@.take(i + 1) =~= list@.take(i as int).push(x));
            list@.take(i as int).to_multiset_ensures();
            vstd::seq_lib::to_multiset_insert(before, at as int, x);
            assert forall|a: int, b: int| 0 <= a < b < out.len() implies #[trigger] leq(out@[a], out@[b]) by {
                let aa = if a < at { a } else { a - 1 };
                let bb = if b < at { b } else { b - 1 };
                if a != at && b != at {
                    assert(leq(before[aa], before[bb]));
                } else if a == at {
                    assert(precedes(keys@, x, before[bb]));
                } else {
                    assert(out@[a] == before[a]);
                    if a < at - 1 {
                        assert(leq(before[a], before[at - 1]));
                    }
                }
            }
        }
        i = i + 1;
    }
    proof {
        assert(list@.take(n as int) =~= list@);
        lemma_by_key_total(keys@);
        list@.lemma_sort_by_ensures(leq);
        vstd::seq_lib::lemma_sorted_unique(out@, list@.sort_by(leq), leq);
    }
    out
}

}
