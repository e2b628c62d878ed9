//! Single-precision values.

use crate::ieee::grid::Format;
use crate::ieee::number;
use crate::ieee::number::Number;
use crate::ieee::root;
use crate::ieee::double::Double;
use vstd::prelude::*;

verus! {

/// A `binary32` value, held as its bit pattern.
#[derive(Clone, Copy, Debug)]
pub struct Single {
    pub bits: u32,
}

impl Single {
    /// Sign and magnitude.
    pub open spec fn number(self) -> Number {
        Number { negative: self.bits >= 0x8000_0000, index: (self.bits % 0x8000_0000) as u64 }
    }

    /// The value with the given sign and magnitude.
    pub open spec fn of(n: Number) -> Single {
        Single {
            bits: (if n.negative {
                0x8000_0000int
            } else {
                0int
            } + n.index) as u32,
        }
    }

    /// 0.0
    #[verifier::allow_in_spec]
    pub fn zero() -> Single
        returns
            (Single { bits: 0 }),
    {
        Single { bits: 0 }
    }

    /// 1.0
    #[verifier::allow_in_spec]
    pub fn one() -> Single
        returns
            (Single { bits: 0x3f80_0000 }),
    {
        Single { bits: 0x3f80_0000 }
    }

    pub open spec fn nan(self) -> bool {
        number::is_nan(Format::Single, self.number())
    }

    /// Place in the order of values; both zeros share one place.
    pub open spec fn rank(self) -> int {
        number::rank(self.number())
    }

    /// [`rank`](Single::rank), computed.
    pub fn order(self) -> (r: i64)
        ensures
            r == self.rank(),
    {
        let n = self.to_number();
        if n.negative {
            -(n.index as i64)
        } else {
            n.index as i64
        }
    }

    fn to_number(self) -> (n: Number)
        ensures
            n == self.number(),
    {
        Number { negative: self.bits >= 0x8000_0000, index: (self.bits % 0x8000_0000) as u64 }
    }

    pub(crate) fn from_number(n: Number) -> (r: Single)
        requires
            n.index < 0x8000_0000,
        ensures
            r == Single::of(n),
            r.number() == n,
    {
        let sign: u32 = if n.negative {
            0x8000_0000
        } else {
            0
        };
        Single { bits: sign + n.index as u32 }
    }

    /// Whether the value is a NaN.
    #[verifier::when_used_as_spec(nan)]
    pub fn is_nan(self) -> (b: bool)
        ensures
            b == self.nan(),
    {
        self.to_number().index > Format::Single.infinity_index()
    }

    pub open spec fn spec_plus(self, other: Single) -> Single {
        Single::of(number::sum(Format::Single, self.number(), other.number()))
    }

    /// `self + other`.
    #[verifier::when_used_as_spec(spec_plus)]
    pub fn plus(self, other: Single) -> (r: Single)
        ensures
            r == self.spec_plus(other),
    {
        let n = number::add_numbers(Format::Single, self.to_number(), other.to_number());
        Single::from_number(n)
    }

    pub open spec fn spec_opposite(self) -> Single {
        Single::of(number::negated(self.number()))
    }

    /// `-self`.
    #[verifier::when_used_as_spec(spec_opposite)]
    pub fn opposite(self) -> (r: Single)
        ensures
            r == self.spec_opposite(),
    {
        let n = self.to_number();
        Single::from_number(Number { negative: !n.negative, index: n.index })
    }

    pub open spec fn spec_minus(self, other: Single) -> Single {
        Single::of(number::sum(Format::Single, self.number(), number::negated(other.number())))
    }

    /// `self - other`.
    #[verifier::when_used_as_spec(spec_minus)]
    pub fn minus(self, other: Single) -> (r: Single)
        ensures
            r == self.spec_minus(other),
    {
        let o = other.to_number();
        let o = Number { negative: !o.negative, index: o.index };
        let n = number::add_numbers(Format::Single, self.to_number(), o);
        Single::from_number(n)
    }

    pub open spec fn spec_times(self, other: Single) -> Single {
        Single::of(number::product(Format::Single, self.number(), other.number()))
    }

    /// `self * other`.
    #[verifier::when_used_as_spec(spec_times)]
    pub fn times(self, other: Single) -> (r: Single)
        ensures
            r == self.spec_times(other),
    {
        let n = number::multiply_numbers(Format::Single, self.to_number(), other.to_number());
        Single::from_number(n)
    }

    pub open spec fn spec_over(self, other: Single) -> Single {
        Single::of(number::quotient(Format::Single, self.number(), other.number()))
    }

    /// `self / other`.
    #[verifier::when_used_as_spec(spec_over)]
    pub fn over(self, other: Single) -> (r: Single)
        ensures
            r == self.spec_over(other),
    {
        let n = number::divide_numbers(Format::Single, self.to_number(), other.to_number());
        Single::from_number(n)
    }

    pub open spec fn spec_sqrt(self) -> Single {
        Single::of(root::root(Format::Single, self.number()))
    }

    /// The square root.
    #[verifier::when_used_as_spec(spec_sqrt)]
    pub fn sqrt(self) -> (r: Single)
        ensures
            r == self.spec_sqrt(),
    {
        let n = root::root_number(Format::Single, self.to_number());
        Single::from_number(n)
    }

    pub open spec fn spec_less(self, other: Single) -> bool {
        !self.nan() && !other.nan() && self.rank() < other.rank()
    }

    /// `self < other`.
    #[verifier::when_used_as_spec(spec_less)]
    pub fn less(self, other: Single) -> (b: bool)
        ensures
            b == self.spec_less(other),
    {
        let a = self.to_number();
        let b = other.to_number();
        let top = Format::Single.infinity_index();
        if a.index > top || b.index > top {
            false
        } else if a.negative {
            if b.negative {
                b.index < a.index
            } else {
                a.index > 0 || b.index > 0
            }
        } else {
            !b.negative && a.index < b.index
        }
    }

    pub open spec fn spec_at_most(self, other: Single) -> bool {
        !self.nan() && !other.nan() && self.rank() <= other.rank()
    }

    /// `self <= other`.
    #[verifier::when_used_as_spec(spec_at_most)]
    pub fn at_most(self, other: Single) -> (b: bool)
        ensures
            b == self.spec_at_most(other),
    {
        !self.is_nan() && !other.is_nan() && !other.less(self)
    }

    pub open spec fn spec_equals(self, other: Single) -> bool {
        !self.nan() && !other.nan() && self.rank() == other.rank()
    }

    /// `self == other`: both zeros are equal, and no NaN equals anything.
    #[verifier::when_used_as_spec(spec_equals)]
    pub fn equals(self, other: Single) -> (b: bool)
        ensures
            b == self.spec_equals(other),
    {
        self.at_most(other) && other.at_most(self)
    }

    pub open spec fn spec_greater_of(self, other: Single) -> Single {
        if self.nan() || self.spec_less(other) {
            other
        } else {
            self
        }
    }

    /// The larger of the two; a NaN gives way to the other value.
    #[verifier::when_used_as_spec(spec_greater_of)]
    pub fn greater_of(self, other: Single) -> (r: Single)
        ensures
            r == self.spec_greater_of(other),
    {
        if self.is_nan() || self.less(other) {
            other
        } else {
            self
        }
    }

    pub open spec fn spec_lesser_of(self, other: Single) -> Single {
        if self.nan() || other.spec_less(self) {
            other
        } else {
            self
        }
    }

    /// The smaller of the two; a NaN gives way to the other value.
    #[verifier::when_used_as_spec(spec_lesser_of)]
    pub fn lesser_of(self, other: Single) -> (r: Single)
        ensures
            r == self.spec_lesser_of(other),
    {
        if self.is_nan() || other.less(self) {
            other
        } else {
            self
        }
    }

    pub open spec fn spec_clamped(self, low: Single, high: Single) -> Single {
        let raised = if self.spec_less(low) {
            low
        } else {
            self
        };
        if high.spec_less(raised) {
            high
        } else {
            raised
        }
    }

    /// The value held between `low` and `high`; a NaN stays a NaN.
    #[verifier::when_used_as_spec(spec_clamped)]
    pub fn clamped(self, low: Single, high: Single) -> (r: Single)
        ensures
            r == self.spec_clamped(low, high),
    {
        let raised = if self.less(low) {
            low
        } else {
            self
        };
        if high.less(raised) {
            high
        } else {
            raised
        }
    }

    pub open spec fn spec_magnitude(self) -> Single {
        Single { bits: self.bits % 0x8000_0000 }
    }

    /// The absolute value.
    #[verifier::when_used_as_spec(spec_magnitude)]
    pub fn magnitude(self) -> (r: Single)
        ensures
            r == self.spec_magnitude(),
    {
        Single { bits: self.bits % 0x8000_0000 }
    }

    pub open spec fn spec_from_u64(v: u64) -> Single {
        Single::of(number::of_integer(Format::Single, false, v as nat))
    }

    /// The nearest value to an unsigned integer.
    #[verifier::when_used_as_spec(spec_from_u64)]
    pub fn from_u64(v: u64) -> (r: Single)
        ensures
            r == Single::spec_from_u64(v),
    {
        let n = number::integer_number(Format::Single, false, v);
        Single::from_number(n)
    }

    pub open spec fn spec_from_i64(v: i64) -> Single {
        Single::of(
            number::of_integer(
                Format::Single,
                v < 0,
                if v < 0 {
                    (-v) as nat
                } else {
                    v as nat
                },
            ),
        )
    }

    /// The nearest value to a signed integer.
    #[verifier::when_used_as_spec(spec_from_i64)]
    pub fn from_i64(v: i64) -> (r: Single)
        ensures
            r == Single::spec_from_i64(v),
    {
        let m: u64 = if v >= 0 {
            v as u64
        } else {
            (-(v as i128)) as u64
        };
        let n = number::integer_number(Format::Single, v < 0, m);
        Single::from_number(n)
    }

    pub open spec fn spec_to_double(self) -> Double {
        Double::of(number::converted(Format::Single, Format::Double, self.number()))
    }

    /// The value in the other format.
    #[verifier::when_used_as_spec(spec_to_double)]
    pub fn to_double(self) -> (r: Double)
        ensures
            r == self.spec_to_double(),
    {
        let n = number::convert_number(Format::Single, Format::Double, self.to_number());
        Double::from_number(n)
    }

    /// The value as an unsigned integer, the fraction dropped: 0 for a NaN or a
    /// negative value, the largest integer for one that is too large.
    pub open spec fn spec_trunc_u64(self) -> u64 {
        if self.nan() || self.number().negative {
            0
        } else {
            number::capped(number::whole(Format::Single, self.number()))
        }
    }

    #[verifier::when_used_as_spec(spec_trunc_u64)]
    pub fn trunc_u64(self) -> (r: u64)
        ensures
            r == self.spec_trunc_u64(),
    {
        let n = self.to_number();
        if self.is_nan() || n.negative {
            0
        } else {
            number::whole_below(Format::Single, n)
        }
    }

    /// The smallest unsigned integer not below the value, cut to the range.
    pub open spec fn spec_ceil_u64(self) -> u64 {
        if self.nan() || self.number().negative {
            0
        } else {
            number::capped(number::whole_up(Format::Single, self.number()))
        }
    }

    #[verifier::when_used_as_spec(spec_ceil_u64)]
    pub fn ceil_u64(self) -> (r: u64)
        ensures
            r == self.spec_ceil_u64(),
    {
        let n = self.to_number();
        if self.is_nan() || n.negative {
            0
        } else {
            number::whole_above(Format::Single, n)
        }
    }

    /// The nearest integer, halves away from zero, cut to the range of `i64`; 0
    /// for a NaN.
    pub open spec fn spec_round_i64(self) -> i64 {
        let w = number::capped(number::whole_nearest(Format::Single, self.number()));
        if self.nan() {
            0
        } else if self.number().negative {
            if w >= 0x8000_0000_0000_0000 {
                i64::MIN
            } else {
                (-w) as i64
            }
        } else if w > i64::MAX {
            i64::MAX
        } else {
            w as i64
        }
    }

    #[verifier::when_used_as_spec(spec_round_i64)]
    pub fn round_i64(self) -> (r: i64)
        ensures
            r == self.spec_round_i64(),
    {
        if self.is_nan() {
            return 0;
        }
        let n = self.to_number();
        let w = number::whole_at_nearest(Format::Single, n);
        if n.negative {
            if w >= 0x8000_0000_0000_0000 {
                i64::MIN
            } else {
                -(w as i64)
            }
        } else if w > 0x7fff_ffff_ffff_ffff {
            i64::MAX
        } else {
            w as i64
        }
    }
}

impl PartialEq for Single {
    /// Equality of values: both zeros are equal, and no NaN equals anything.
    fn eq(&self, other: &Single) -> (b: bool) {
        self.equals(*other)
    }
}

impl vstd::std_specs::cmp::PartialEqSpecImpl for Single {
    open spec fn obeys_eq_spec() -> bool {
        true
    }

    open spec fn eq_spec(&self, other: &Single) -> bool {
        self.equals(*other)
    }
}

} // verus!
