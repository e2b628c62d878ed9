//! Natural numbers of any size, for comparing exact products.

use vstd::arithmetic::power::*;
use vstd::arithmetic::power2::*;
use vstd::prelude::*;

verus! {

/// The number with the given limbs in base `2^32`, least significant first.
pub open spec fn value(s: Seq<u32>) -> nat
    decreases s.len(),
{
    if s.len() == 0 {
        0
    } else {
        value(s.drop_last()) + s.last() as nat * pow2((32 * (s.len() - 1)) as nat)
    }
}

proof fn lemma_push(s: Seq<u32>, x: u32)
    ensures
        value(s.push(x)) == value(s) + x as nat * pow2(32 * s.len()),
{
    assert(s.push(x).drop_last() =~= s);
}

proof fn lemma_weight(i: nat)
    ensures
        pow2(32 * (i + 1)) == 0x1_0000_0000 * pow2(32 * i),
        pow2(32 * i) > 0,
{
    lemma2_to64();
    lemma_pow2_adds(32, 32 * i);
    lemma_pow2_pos(32 * i);
}

proof fn lemma_bound(s: Seq<u32>)
    ensures
        value(s) < pow2(32 * s.len()),
    decreases s.len(),
{
    lemma2_to64();
    if s.len() > 0 {
        let i = (s.len() - 1) as nat;
        lemma_bound(s.drop_last());
        lemma_weight(i);
        let w = pow2(32 * i);
        let x = s.last() as nat;
        assert(x * w + w <= 0x1_0000_0000 * w) by (nonlinear_arith)
            requires
                x < 0x1_0000_0000,
                w > 0,
        ;
    }
}

/// Where the highest limbs agree, the first that differs decides.
proof fn lemma_order(a: Seq<u32>, b: Seq<u32>, i: int)
    requires
        a.len() == b.len(),
        0 <= i < a.len(),
        a[i] < b[i],
        forall|j: int| i < j < a.len() ==> a[j] == b[j],
    ensures
        value(a) < value(b),
    decreases a.len(),
{
    let top = (a.len() - 1) as nat;
    let w = pow2(32 * top);
    if i == top {
        lemma_bound(a.drop_last());
        let x = a.last() as nat;
        let y = b.last() as nat;
        assert(x * w + w <= y * w) by (nonlinear_arith)
            requires
                x < y,
                w >= 0,
        ;
    } else {
        assert(a.last() == b.last());
        lemma_order(a.drop_last(), b.drop_last(), i);
    }
}

/// `v * m + a`.
pub(crate) fn times_plus(v: &Vec<u32>, m: u32, a: u32) -> (r: Vec<u32>)
    ensures
        value(r@) == value(v@) * m + a,
{
    let mut r: Vec<u32> = Vec::new();
    let mut carry: u32 = a;
    let mut i: usize = 0;
    proof {
        lemma2_to64();
        assert(v@.take(0) =~= Seq::<u32>::empty());
        assert(pow2(32 * i as nat) == 1);
        assert(value(v@.take(0)) * m == 0) by (nonlinear_arith)
            requires
                value(v@.take(0)) == 0,
        ;
    }
    while i < v.len()
        invariant
            i <= v.len(),
            r.len() == i,
            value(r@) + carry * pow2(32 * i as nat) == value(v@.take(i as int)) * m + a,
        decreases v.len() - i,
    {
        let x: u32 = v[i];
        proof {
            assert(x * m <= 0xffff_ffff * 0xffff_ffff) by (nonlinear_arith)
                requires
                    x <= 0xffff_ffff,
                    m <= 0xffff_ffff,
            ;
        }
        let t: u64 = x as u64 * m as u64 + carry as u64;
        let low: u32 = (t % 0x1_0000_0000) as u32;
        let next: u32 = (t / 0x1_0000_0000) as u32;
        proof {
            let w = pow2(32 * i as nat);
            lemma_push(r@, low);
            lemma_weight(i as nat);
            assert(v@.take(i + 1) =~= v@.take(i as int).push(x));
            lemma_push(v@.take(i as int), x);
            let before = value(v@.take(i as int));
            assert(low * w + next * (0x1_0000_0000 * w) == (x * m + carry) * w) by (nonlinear_arith)
                requires
                    x * m + carry == next * 0x1_0000_0000 + low,
            ;
            assert((x * m + carry) * w == (x * w) * m + carry * w) by (nonlinear_arith);
            assert((before + x * w) * m == before * m + (x * w) * m) by (nonlinear_arith);
        }
        r.push(low);
        carry = next;
        i = i + 1;
    }
    proof {
        assert(v@.take(v@.len() as int) =~= v@);
        lemma_push(r@, carry);
        assert(0 * pow2(32 * i as nat) == 0);
    }
    if carry != 0 {
        r.push(carry);
    }
    r
}

/// `v * 10^j`.
pub(crate) fn times_ten(v: Vec<u32>, j: u128) -> (r: Vec<u32>)
    ensures
        value(r@) == value(v@) * pow(10, j as nat),
{
    let ghost start = value(v@);
    let mut r = v;
    let mut i: u128 = 0;
    proof {
        lemma_pow0(10);
        assert(start * 1 == start);
    }
    while i < j
        invariant
            i <= j,
            value(r@) == start * pow(10, i as nat),
        decreases j - i,
    {
        let next = times_plus(&r, 10, 0);
        proof {
            reveal(pow);
            let p = pow(10, i as nat);
            assert(pow(10, (i + 1) as nat) == 10 * p);
            assert(start * p * 10 == start * (10 * p)) by (nonlinear_arith);
        }
        r = next;
        i = i + 1;
    }
    r
}

/// `v * 2^j`.
pub(crate) fn times_two(v: Vec<u32>, j: u32) -> (r: Vec<u32>)
    ensures
        value(r@) == value(v@) * pow2(j as nat),
{
    let ghost start = value(v@);
    let mut r = v;
    let mut i: u32 = 0;
    proof {
        lemma2_to64();
        assert(start * 1 == start);
    }
    while i < j
        invariant
            i <= j,
            value(r@) == start * pow2(i as nat),
        decreases j - i,
    {
        let left: u32 = j - i;
        let (step, factor): (u32, u32) = if left >= 16 {
            (16, 0x1_0000)
        } else {
            (1, 2)
        };
        let next = times_plus(&r, factor, 0);
        proof {
            lemma2_to64();
            lemma_pow2_adds(i as nat, step as nat);
            let p = pow2(i as nat);
            assert(start * p * factor == start * (p * factor)) by (nonlinear_arith);
        }
        r = next;
        i = i + step;
    }
    r
}

fn padded(v: &Vec<u32>, n: usize) -> (r: Vec<u32>)
    requires
        v.len() <= n,
    ensures
        r.len() == n,
        value(r@) == value(v@),
{
    let mut r: Vec<u32> = Vec::new();
    let mut i: usize = 0;
    while i < v.len()
        invariant
            i <= v.len(),
            r@ == v@.take(i as int),
        decreases v.len() - i,
    {
        r.push(v[i]);
        i = i + 1;
        proof {
            assert(v@.take(i as int) =~= v@.take(i - 1).push(v@[i - 1]));
        }
    }
    proof {
        assert(v@.take(i as int) =~= v@);
    }
    while r.len() < n
        invariant
            r.len() <= n,
            value(r@) == value(v@),
        decreases n - r.len(),
    {
        proof {
            lemma_push(r@, 0);
            assert(0 * pow2(32 * r@.len()) == 0);
        }
        r.push(0);
    }
    r
}

/// How two numbers compare.
#[derive(Clone, Copy, Debug, PartialEq, Eq, Structural)]
pub enum Side {
    Below,
    Same,
    Above,
}

/// On which side of `b` the number `a` lies.
pub(crate) fn side(a: &Vec<u32>, b: &Vec<u32>) -> (r: Side)
    ensures
        r == Side::Below <==> value(a@) < value(b@),
        r == Side::Same <==> value(a@) == value(b@),
        r == Side::Above <==> value(a@) > value(b@),
{
    let n: usize = if a.len() < b.len() {
        b.len()
    } else {
        a.len()
    };
    let p = padded(a, n);
    let q = padded(b, n);
    let mut i: usize = n;
    while i > 0
        invariant
            i <= n,
            p.len() == n,
            q.len() == n,
            value(p@) == value(a@),
            value(q@) == value(b@),
            forall|j: int| i <= j < n ==> p@[j] == q@[j],
        decreases i,
    {
        i = i - 1;
        if p[i] < q[i] {
            proof {
                lemma_order(p@, q@, i as int);
            }
            return Side::Below;
        }
        if p[i] > q[i] {
            proof {
                lemma_order(q@, p@, i as int);
            }
            return Side::Above;
        }
    }
    proof {
        assert(p@ =~= q@);
    }
    Side::Same
}

} // verus!
