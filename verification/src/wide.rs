//! Exact products of many small factors, as lists of 32-bit limbs from the
//! least significant one up.
use vstd::prelude::*;
use vstd::arithmetic::power::{pow, lemma_pow0};

verus! {

/// The weight of limb `i`.
pub open spec fn weight(i: nat) -> int
    decreases i,
{
    if i == 0 {
        1
    } else {
        0x1_0000_0000 * weight((i - 1) as nat)
    }
}

/// The number that a list of limbs holds.
pub open spec fn wide(limbs: Seq<u32>) -> int
    decreases limbs.len(),
{
    if limbs.len() == 0 {
        0
    } else {
        wide(limbs.drop_last()) + limbs.last() * weight((limbs.len() - 1) as nat)
    }
}

/// `k` times a number, one limb longer.
fn scaled(limbs: &Vec<u32>, k: u32) -> (r: Vec<u32>)
    ensures
        wide(r@) == k * wide(limbs@),
        r@.len() == limbs@.len() + 1,
{
    let mut r: Vec<u32> = Vec::new();
    let mut carry: u64 = 0;
    proof {
        assert(limbs@.take(0) =~= Seq::empty());
        assert(k * 0 == 0) by (nonlinear_arith);
    }
    for i in 0..limbs.len()
        invariant
            r@.len() == i,
            carry <= 0xffff_ffff,
            wide(r@) + carry * weight(i as nat) == k * wide(limbs@.take(i as int)),
    {
        let ghost before = r@;
        let ghost low = carry;
        proof {
            let x = limbs@[i as int] as int;
            assert(k * x + carry <= 0xffff_ffff * 0xffff_ffff + 0xffff_ffff) by (nonlinear_arith)
                requires
                    0 <= k <= 0xffff_ffff,
                    0 <= x <= 0xffff_ffff,
                    carry <= 0xffff_ffff,
            ;
            assert(0 <= k * x) by (nonlinear_arith)
                requires
                    0 <= k,
                    0 <= x,
            ;
        }
        let t: u64 = (k as u64) * (limbs[i] as u64) + carry;
        r.push((t % 0x1_0000_0000) as u32);
        carry = t / 0x1_0000_0000;
        proof {
            let x = limbs@[i as int] as int;
            let w = weight(i as nat);
            let rest = wide(limbs@.take(i as int));
            assert(limbs@.take(i + 1).drop_last() =~= limbs@.take(i as int));
            assert(r@.drop_last() =~= before);
            assert(weight((i + 1) as nat) == 0x1_0000_0000 * w);
            let d = (t % 0x1_0000_0000) as int;
            let c = carry as int;
            assert(d * w + c * (0x1_0000_0000 * w) == (k * x) * w + low * w) by (nonlinear_arith)
                requires
                    d + 0x1_0000_0000 * c == k * x + low,
            ;
            assert(k * (rest + x * w) == k * rest + (k * x) * w) by (nonlinear_arith);
        }
    }
    let ghost before = r@;
    r.push(carry as u32);
    proof {
        assert(limbs@.take(limbs@.len() as int) =~= limbs@);
        assert(r@.drop_last() =~= before);
    }
    r
}

/// `start * k^n`, `n` limbs longer.
pub fn scaled_by_power(start: Vec<u32>, k: u32, n: u32) -> (r: Vec<u32>)
    ensures
        wide(r@) == wide(start@) * pow(k as int, n as nat),
        r@.len() == start@.len() + n,
{
    let ghost first = wide(start@);
    let ghost length = start@.len();
    let mut r: Vec<u32> = start;
    proof {
        lemma_pow0(k as int);
        assert(first * 1 == first);
    }
    for i in 0..n
        invariant
            wide(r@) == first * pow(k as int, i as nat),
            r@.len() == length + i,
    {
        proof {
            reveal(pow);
            let p = pow(k as int, i as nat);
            assert(pow(k as int, (i + 1) as nat) == k * p);
            assert(k * (first * p) == first * (k * p)) by (nonlinear_arith);
        }
        r = scaled(&r, k);
    }
    r
}

proof fn lemma_wide_bound(limbs: Seq<u32>)
    ensures
        0 <= wide(limbs) < weight(limbs.len()),
    decreases limbs.len(),
{
    if limbs.len() > 0 {
        lemma_wide_bound(limbs.drop_last());
        let w = weight((limbs.len() - 1) as nat);
        let x = limbs.last() as int;
        assert(0 <= x * w && x * w + w <= 0x1_0000_0000 * w) by (nonlinear_arith)
            requires
                0 <= x <= 0xffff_ffff,
                w > 0,
        ;
    }
}

/// `a <= b` for numbers of the same length.
pub fn at_most(a: &Vec<u32>, b: &Vec<u32>) -> (r: bool)
    requires
        a@.len() == b@.len(),
    ensures
        r == (wide(a@) <= wide(b@)),
{
    let mut i: usize = a.len();
    proof {
        assert(a@.take(a@.len() as int) =~= a@);
        assert(b@.take(b@.len() as int) =~= b@);
    }
    while i > 0
        invariant
            i <= a@.len(),
            a@.len() == b@.len(),
            wide(a@) - wide(b@) == wide(a@.take(i as int)) - wide(b@.take(i as int)),
        decreases i,
    {
        let x: u32 = a[i - 1];
        let y: u32 = b[i - 1];
        proof {
            let p = a@.take(i as int);
            let q = b@.take(i as int);
            assert(p.drop_last() =~= a@.take(i - 1));
            assert(q.drop_last() =~= b@.take(i - 1));
            lemma_wide_bound(p.drop_last());
            lemma_wide_bound(q.drop_last());
            let w = weight((i - 1) as nat);
            if x < y {
                assert(x * w + w <= y * w) by (nonlinear_arith)
                    requires
                        x < y,
                        w > 0,
                ;
            } else if y < x {
                assert(y * w + w <= x * w) by (nonlinear_arith)
                    requires
                        y < x,
                        w > 0,
                ;
            }
        }
        if x != y {
            return x < y;
        }
        i = i - 1;
    }
    true
}

}
