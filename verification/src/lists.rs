//! Vector helpers.
use vstd::prelude::*;

verus! {

/// The items in the opposite order.
pub fn reversed<T>(items: Vec<T>) -> (r: Vec<T>)
    ensures
        r@ == items@.reverse(),
{
    let ghost all = items@;
    let mut rest: Vec<T> = items;
    let mut out: Vec<T> = Vec::new();
    while rest.len() > 0
        invariant
            rest@ == all.take(rest@.len() as int),
            rest@.len() <= all.len(),
            out@ == all.skip(rest@.len() as int).reverse(),
        decreases rest.len(),
    {
        let ghost n = rest@.len();
        let item = rest.pop().unwrap();
        out.push(item);
        proof {
            assert(rest@ =~= all.take(n - 1));
            assert(out@ =~= all.skip(n - 1).reverse());
        }
    }
    proof {
        assert(all.skip(0) =~= all);
    }
    out
}

/// Appends a copy of a run of words.
pub fn append_words(out: &mut Vec<i32>, from: &Vec<i32>, start: usize, end: usize)
    requires
        start <= end <= from.len(),
    ensures
        final(out)@ == old(out)@ + from@.subrange(start as int, end as int),
{
    let ghost before = out@;
    let mut i: usize = start;
    assert(from@.subrange(start as int, start as int) =~= Seq::<i32>::empty());
    assert(before + Seq::<i32>::empty() =~= before);
    while i < end
        invariant
            start <= i <= end <= from.len(),
            out@ == before + from@.subrange(start as int, i as int),
        decreases end - i,
    {
        out.push(from[i]);
        proof {
            assert(from@.subrange(start as int, i + 1) =~= from@.subrange(start as int, i as int).push(from@[i as int]));
            assert(out@ =~= before + from@.subrange(start as int, i + 1));
        }
        i = i + 1;
    }
}

/// Appends a copy of all items.
pub fn append_all<T: Copy>(out: &mut Vec<T>, from: &Vec<T>)
    ensures
        final(out)@ == old(out)@ + from@,
{
    let ghost before = out@;
    for i in 0..from.len()
        invariant
            out@ =~= before + from@.take(i as int),
    {
        out.push(from[i]);
    }
    assert(from@.take(from@.len() as int) =~= from@);
}

/// A copy of a list.
pub fn copied<T: Copy>(from: &Vec<T>) -> (r: Vec<T>)
    ensures
        r@ == from@,
{
    let mut r: Vec<T> = Vec::new();
    append_all(&mut r, from);
    assert(r@ =~= from@);
    r
}

}
