//! Order statistics of samples.

use crate::ieee::single::Single;
use vstd::prelude::*;

verus! {

/// How many samples lie at or below the place `r` in the order of values.
pub open spec fn count_to(s: Seq<Single>, r: int) -> nat
    decreases s.len(),
{
    if s.len() == 0 {
        0
    } else {
        count_to(s.drop_last(), r) + if s.last().rank() <= r {
            1nat
        } else {
            0nat
        }
    }
}

/// How many samples lie at the place `r`.
pub open spec fn count_at(s: Seq<Single>, r: int) -> nat {
    (count_to(s, r) - count_to(s, r - 1)) as nat
}

/// Sorted without moving equal samples past one another, the `i`-th sample comes
/// to stand at place `k`.
pub open spec fn sorts_to(s: Seq<Single>, i: int, k: nat) -> bool {
    &&& 0 <= i < s.len()
    &&& k == count_to(s, s[i].rank() - 1) + count_at(s.take(i), s[i].rank())
}

/// The sample at place `k` of the sorted samples.
pub open spec fn kth(s: Seq<Single>, k: nat) -> Single {
    s[choose|i: int| #[trigger] sorts_to(s, i, k)]
}

/// No sample is a NaN.
pub open spec fn all_numbers(s: Seq<Single>) -> bool {
    forall|i: int| 0 <= i < s.len() ==> !(#[trigger] s[i]).nan()
}

proof fn lemma_count_bounds(s: Seq<Single>, q: int, r: int)
    requires
        q <= r,
    ensures
        count_to(s, q) <= count_to(s, r) <= s.len(),
    decreases s.len(),
{
    if s.len() > 0 {
        lemma_count_bounds(s.drop_last(), q, r);
    }
}

proof fn lemma_count_step(s: Seq<Single>, i: int, r: int)
    requires
        0 <= i < s.len(),
    ensures
        count_to(s.take(i + 1), r) == count_to(s.take(i), r) + if s[i].rank() <= r {
            1nat
        } else {
            0nat
        },
        count_at(s.take(i + 1), r) == count_at(s.take(i), r) + if s[i].rank() == r {
            1nat
        } else {
            0nat
        },
{
    assert(s.take(i + 1).drop_last() =~= s.take(i));
    lemma_count_bounds(s.take(i), r - 1, r);
}

proof fn lemma_count_ends(s: Seq<Single>)
    requires
        all_numbers(s),
    ensures
        count_to(s, -0x7f80_0001) == 0,
        count_to(s, 0x7f80_0000) == s.len(),
    decreases s.len(),
{
    if s.len() > 0 {
        let t = s.drop_last();
        assert forall|i: int| 0 <= i < t.len() implies !(#[trigger] t[i]).nan() by {
            assert(t[i] == s[i]);
        }
        lemma_count_ends(t);
        assert(!s[s.len() - 1].nan());
    }
}

proof fn lemma_count_grows(s: Seq<Single>, i: int, j: int, r: int)
    requires
        0 <= i <= j <= s.len(),
    ensures
        count_at(s.take(i), r) <= count_at(s.take(j), r),
    decreases j,
{
    if i < j {
        lemma_count_step(s, j - 1, r);
        lemma_count_grows(s, i, j - 1, r);
    }
}

/// No two samples come to stand at one place.
proof fn lemma_place_unique(s: Seq<Single>, i: int, j: int, k: nat)
    requires
        sorts_to(s, i, k),
        sorts_to(s, j, k),
    ensures
        i == j,
{
    if i != j {
        let (a, b) = if s[i].rank() < s[j].rank() || (s[i].rank() == s[j].rank() && i < j) {
            (i, j)
        } else {
            (j, i)
        };
        if s[a].rank() < s[b].rank() {
            lemma_places_follow_order(s, a, b);
        } else {
            lemma_count_step(s, a, s[a].rank());
            lemma_count_grows(s, a + 1, b, s[a].rank());
        }
    }
}

/// A lower sample stands at an earlier place.
pub proof fn lemma_places_follow_order(s: Seq<Single>, i: int, j: int)
    requires
        0 <= i < s.len(),
        0 <= j < s.len(),
        s[i].rank() < s[j].rank(),
    ensures
        count_to(s, s[i].rank() - 1) + count_at(s.take(i), s[i].rank()) < count_to(
            s,
            s[j].rank() - 1,
        ) + count_at(s.take(j), s[j].rank()),
{
    let r = s[i].rank();
    assert(s.take(s.len() as int) =~= s);
    lemma_count_step(s, i, r);
    lemma_count_grows(s, i + 1, s.len() as int, r);
    lemma_count_bounds(s, r - 1, r);
    lemma_count_bounds(s, r, s[j].rank() - 1);
}

/// Every place is taken by some sample.
pub proof fn lemma_place_exists(s: Seq<Single>, k: nat)
    requires
        all_numbers(s),
        k < s.len(),
    ensures
        exists|i: int| #[trigger] sorts_to(s, i, k),
{
    lemma_count_ends(s);
    let r = lemma_rank_of_place(s, k, -0x7f80_0001, 0x7f80_0000);
    assert(s.take(0) =~= Seq::empty());
    assert(s.take(s.len() as int) =~= s);
    lemma_count_bounds(s, r - 1, r);
    lemma_sample_of_rank(s, (k - count_to(s, r - 1)) as nat, r, s.len() as int);
    let i = choose|i: int|
        0 <= i < s.len() && s[i].rank() == r && #[trigger] count_at(s.take(i), r) == k - count_to(
            s,
            r - 1,
        );
    assert(sorts_to(s, i, k));
}

/// Where a sample comes to stand, against how many are below it and up to it.
pub(crate) proof fn lemma_place_counted(s: Seq<Single>, i: int, k: nat)
    requires
        sorts_to(s, i, k),
    ensures
        count_to(s, s[i].rank() - 1) <= k < count_to(s, s[i].rank()),
        s[i] == kth(s, k),
{
    let r = s[i].rank();
    assert(s.take(s.len() as int) =~= s);
    lemma_count_step(s, i, r);
    lemma_count_grows(s, i + 1, s.len() as int, r);
    lemma_count_bounds(s, r - 1, r);
    let j = choose|j: int| #[trigger] sorts_to(s, j, k);
    lemma_place_unique(s, i, j, k);
}

proof fn lemma_rank_of_place(s: Seq<Single>, k: nat, low: int, high: int) -> (r: int)
    requires
        low < high,
        count_to(s, low) <= k < count_to(s, high),
    ensures
        count_to(s, r - 1) <= k < count_to(s, r),
    decreases high - low,
{
    if count_to(s, high - 1) <= k {
        high
    } else {
        lemma_rank_of_place(s, k, low, high - 1)
    }
}

proof fn lemma_sample_of_rank(s: Seq<Single>, t: nat, r: int, n: int)
    requires
        0 <= n <= s.len(),
        t < count_at(s.take(n), r),
    ensures
        exists|i: int|
            0 <= i < n && s[i].rank() == r && #[trigger] count_at(s.take(i), r) == t,
    decreases n,
{
    if n == 0 {
        assert(s.take(0) =~= Seq::empty());
    } else {
        lemma_count_step(s, n - 1, r);
        if t < count_at(s.take(n - 1), r) {
            lemma_sample_of_rank(s, t, r, n - 1);
        } else {
            assert(s[n - 1].rank() == r && count_at(s.take(n - 1), r) == t);
        }
    }
}

fn count_up_to(s: &[Single], from: usize, to: usize, r: i64) -> (n: usize)
    requires
        from <= to <= s@.len(),
    ensures
        n == count_to(s@.subrange(from as int, to as int), r as int),
        n <= to - from,
{
    let mut n: usize = 0;
    let mut i: usize = from;
    while i < to
        invariant
            from <= i <= to <= s@.len(),
            n <= i - from,
            n == count_to(s@.subrange(from as int, i as int), r as int),
        decreases to - i,
    {
        if s[i].order() <= r {
            n = n + 1;
        }
        i = i + 1;
        proof {
            assert(s@.subrange(from as int, i as int).drop_last() =~= s@.subrange(
                from as int,
                i - 1,
            ));
        }
    }
    n
}

/// [`kth`] of the samples `from..to`.
pub fn kth_of(s: &[Single], from: usize, to: usize, k: usize) -> (r: Single)
    requires
        from <= to <= s@.len(),
        k < to - from,
        all_numbers(s@.subrange(from as int, to as int)),
    ensures
        r == kth(s@.subrange(from as int, to as int), k as nat),
{
    let ghost part = s@.subrange(from as int, to as int);
    let mut low: i64 = -0x7f80_0001;
    let mut high: i64 = 0x7f80_0000;
    proof {
        lemma_count_ends(part);
    }
    while high - low > 1
        invariant
            from <= to <= s@.len(),
            part == s@.subrange(from as int, to as int),
            -0x7f80_0001 <= low < high <= 0x7f80_0000,
            count_to(part, low as int) <= k < count_to(part, high as int),
        decreases high - low,
    {
        let middle: i64 = low + (high - low) / 2;
        if count_up_to(s, from, to, middle) <= k {
            low = middle;
        } else {
            high = middle;
        }
    }
    let mut left: usize = k - count_up_to(s, from, to, low);
    let mut i: usize = from;
    proof {
        assert(part.take(0) =~= Seq::empty());
        assert(part.take(part.len() as int) =~= part);
    }
    while i < to
        invariant
            from <= i <= to <= s@.len(),
            part == s@.subrange(from as int, to as int),
            low == high - 1,
            left == k - count_to(part, low as int) - count_at(part.take(i - from), high as int),
            count_at(part.take(i - from), high as int) <= k - count_to(part, low as int),
            k < count_to(part, high as int),
        decreases to - i,
    {
        let v = s[i];
        proof {
            lemma_count_step(part, i - from, high as int);
        }
        if v.order() == high {
            if left == 0 {
                proof {
                    let j = i - from;
                    assert(part[j] == v);
                    assert(sorts_to(part, j, k as nat));
                    lemma_place_unique(part, j, choose|c: int| #[trigger] sorts_to(part, c, k as nat), k as nat);
                }
                return v;
            }
            left = left - 1;
        }
        i = i + 1;
    }
    proof {
        assert(part.take(i - from) =~= part);
        lemma_count_bounds(part, low as int, high as int);
    }
    Single::zero()
}

/// The middle sample of the sorted samples, the upper one of two; 0 for none.
pub open spec fn median(s: Seq<Single>) -> Single {
    if s.len() == 0 {
        Single::zero()
    } else {
        kth(s, (s.len() / 2) as nat)
    }
}

/// [`median`] of the samples `from..to`.
pub fn median_of(s: &[Single], from: usize, to: usize) -> (r: Single)
    requires
        from <= to <= s@.len(),
        all_numbers(s@.subrange(from as int, to as int)),
    ensures
        r == median(s@.subrange(from as int, to as int)),
{
    if from == to {
        Single::zero()
    } else {
        kth_of(s, from, to, (to - from) / 2)
    }
}

} // verus!
