//! Sums and means of samples.

use crate::ieee::single::Single;
use vstd::prelude::*;

verus! {

/// Bits of -0.0, from which a sum starts: adding any value to it gives that
/// value.
pub const NOTHING: u32 = 0x8000_0000;

/// Bits of a full turn in radians.
pub const TURN: u32 = 0x40c9_0fdb;

/// The sum of some samples, added up from the first to the last.
pub open spec fn total(s: Seq<Single>) -> Single
    decreases s.len(),
{
    if s.len() == 0 {
        Single { bits: NOTHING }
    } else {
        total(s.drop_last()).plus(s.last())
    }
}

/// The mean of some samples.
pub open spec fn mean(s: Seq<Single>) -> Single {
    total(s).over(Single::from_u64(s.len() as u64))
}

/// The mean of some samples, added up from 0.
pub open spec fn mean_from_zero(s: Seq<Single>) -> Single {
    sum_from_zero(s).over(Single::from_u64(s.len() as u64))
}

/// The sum of some samples, added up from 0.
pub open spec fn sum_from_zero(s: Seq<Single>) -> Single
    decreases s.len(),
{
    if s.len() == 0 {
        Single::zero()
    } else {
        sum_from_zero(s.drop_last()).plus(s.last())
    }
}

/// [`total`] of the samples `from..to`.
pub fn total_of(s: &[Single], from: usize, to: usize) -> (r: Single)
    requires
        from <= to <= s@.len(),
    ensures
        r == total(s@.subrange(from as int, to as int)),
{
    let mut r = Single { bits: NOTHING };
    let mut i: usize = from;
    while i < to
        invariant
            from <= i <= to <= s@.len(),
            r == total(s@.subrange(from as int, i as int)),
        decreases to - i,
    {
        r = r.plus(s[i]);
        i = i + 1;
        proof {
            assert(s@.subrange(from as int, i as int).drop_last() =~= s@.subrange(
                from as int,
                i - 1,
            ));
        }
    }
    r
}

/// [`mean`] of the samples `from..to`.
pub fn mean_of(s: &[Single], from: usize, to: usize) -> (r: Single)
    requires
        from <= to <= s@.len(),
    ensures
        r == mean(s@.subrange(from as int, to as int)),
{
    total_of(s, from, to).over(Single::from_u64((to - from) as u64))
}

/// The greatest of some samples and 0; a NaN is passed over.
pub open spec fn peak(s: Seq<Single>) -> Single
    decreases s.len(),
{
    if s.len() == 0 {
        Single::zero()
    } else {
        peak(s.drop_last()).greater_of(s.last())
    }
}

/// [`peak`], computed.
pub fn peak_of(s: &[Single]) -> (r: Single)
    ensures
        r == peak(s@),
{
    let mut r = Single::zero();
    let mut i: usize = 0;
    proof {
        assert(s@.take(0) =~= Seq::empty());
    }
    while i < s.len()
        invariant
            i <= s@.len(),
            r == peak(s@.take(i as int)),
        decreases s@.len() - i,
    {
        r = r.greater_of(s[i]);
        i = i + 1;
        proof {
            assert(s@.take(i as int).drop_last() =~= s@.take(i - 1));
        }
    }
    proof {
        assert(s@.take(i as int) =~= s@);
    }
    r
}

} // verus!
