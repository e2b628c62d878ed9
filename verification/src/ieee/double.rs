//! Double-precision values.

use crate::ieee::grid::Format;
use crate::ieee::number;
use crate::ieee::number::Number;
use crate::ieee::root;
use crate::ieee::single::Single;
use vstd::prelude::*;

verus! {

/// A `binary64` value, held as its bit pattern.
#[derive(Clone, Copy, Debug)]
pub struct Double {
    pub bits: u64,
}

impl Double {
    /// Sign and magnitude.
    pub open spec fn number(self) -> Number {
        Number { negative: self.bits >= 0x8000_0000_0000_0000, index: (self.bits % 0x8000_0000_0000_0000) as u64 }
    }

    /// The value with the given sign and magnitude.
    pub open spec fn of(n: Number) -> Double {
        Double {
            bits: (if n.negative {
                0x8000_0000_0000_0000int
            } else {
                0int
            } + n.index) as u64,
        }
    }

    /// 0.0
    #[verifier::allow_in_spec]
    pub fn zero() -> Double
        returns
            (Double { bits: 0 }),
    {
        Double { bits: 0 }
    }

    pub open spec fn nan(self) -> bool {
        number::is_nan(Format::Double, self.number())
    }

    /// Place in the order of values; both zeros share one place.
    pub open spec fn rank(self) -> int {
        number::rank(self.number())
    }

    /// [`rank`](Double::rank), computed.
    pub fn order(self) -> (r: i64)
        ensures
            r == self.rank(),
    {
        let n = self.to_number();
        if n.negative {
            -(n.index as i64)
        } else {
            n.index as i64
        }
    }

    fn to_number(self) -> (n: Number)
        ensures
            n == self.number(),
    {
        Number { negative: self.bits >= 0x8000_0000_0000_0000, index: (self.bits % 0x8000_0000_0000_0000) as u64 }
    }

    pub(crate) fn from_number(n: Number) -> (r: Double)
        requires
            n.index < 0x8000_0000_0000_0000,
        ensures
            r == Double::of(n),
            r.number() == n,
    {
        let sign: u64 = if n.negative {
            0x8000_0000_0000_0000
        } else {
            0
        };
        Double { bits: sign + n.index as u64 }
    }

    /// Whether the value is a NaN.
    #[verifier::when_used_as_spec(nan)]
    pub fn is_nan(self) -> (b: bool)
        ensures
            b == self.nan(),
    {
        self.to_number().index > Format::Double.infinity_index()
    }

    pub open spec fn spec_plus(self, other: Double) -> Double {
        Double::of(number::sum(Format::Double, self.number(), other.number()))
    }

    /// `self + other`.
    #[verifier::when_used_as_spec(spec_plus)]
    pub fn plus(self, other: Double) -> (r: Double)
        ensures
            r == self.spec_plus(other),
    {
        let n = number::add_numbers(Format::Double, self.to_number(), other.to_number());
        Double::from_number(n)
    }

    pub open spec fn spec_opposite(self) -> Double {
        Double::of(number::negated(self.number()))
    }

    /// `-self`.
    #[verifier::when_used_as_spec(spec_opposite)]
    pub fn opposite(self) -> (r: Double)
        ensures
            r == self.spec_opposite(),
    {
        let n = self.to_number();
        Double::from_number(Number { negative: !n.negative, index: n.index })
    }

    pub open spec fn spec_minus(self, other: Double) -> Double {
        Double::of(number::sum(Format::Double, self.number(), number::negated(other.number())))
    }

    /// `self - other`.
    #[verifier::when_used_as_spec(spec_minus)]
    pub fn minus(self, other: Double) -> (r: Double)
        ensures
            r == self.spec_minus(other),
    {
        let o = other.to_number();
        let o = Number { negative: !o.negative, index: o.index };
        let n = number::add_numbers(Format::Double, self.to_number(), o);
        Double::from_number(n)
    }

    pub open spec fn spec_times(self, other: Double) -> Double {
        Double::of(number::product(Format::Double, self.number(), other.number()))
    }

    /// `self * other`.
    #[verifier::when_used_as_spec(spec_times)]
    pub fn times(self, other: Double) -> (r: Double)
        ensures
            r == self.spec_times(other),
    {
        let n = number::multiply_numbers(Format::Double, self.to_number(), other.to_number());
        Double::from_number(n)
    }

    pub open spec fn spec_over(self, other: Double) -> Double {
        Double::of(number::quotient(Format::Double, self.number(), other.number()))
    }

    /// `self / other`.
    #[verifier::when_used_as_spec(spec_over)]
    pub fn over(self, other: Double) -> (r: Double)
        ensures
            r == self.spec_over(other),
    {
        let n = number::divide_numbers(Format::Double, self.to_number(), other.to_number());
        Double::from_number(n)
    }

    pub open spec fn spec_sqrt(self) -> Double {
        Double::of(root::root(Format::Double, self.number()))
    }

    /// The square root.
    #[verifier::when_used_as_spec(spec_sqrt)]
    pub fn sqrt(self) -> (r: Double)
        ensures
            r == self.spec_sqrt(),
    {
        let n = root::root_number(Format::Double, self.to_number());
        Double::from_number(n)
    }

    pub open spec fn spec_less(self, other: Double) -> bool {
        !self.nan() && !other.nan() && self.rank() < other.rank()
    }

    /// `self < other`.
    #[verifier::when_used_as_spec(spec_less)]
    pub fn less(self, other: Double) -> (b: bool)
        ensures
            b == self.spec_less(other),
    {
        let a = self.to_number();
        let b = other.to_number();
        let top = Format::Double.infinity_index();
        if a.index > top || b.index > top {
            false
        } else if a.negative {
            if b.negative {
                b.index < a.index
            } else {
                a.index > 0 || b.index > 0
            }
        } else {
            !b.negative && a.index < b.index
        }
    }

    pub open spec fn spec_at_most(self, other: Double) -> bool {
        !self.nan() && !other.nan() && self.rank() <= other.rank()
    }

    /// `self <= other`.
    #[verifier::when_used_as_spec(spec_at_most)]
    pub fn at_most(self, other: Double) -> (b: bool)
        ensures
            b == self.spec_at_most(other),
    {
        !self.is_nan() && !other.is_nan() && !other.less(self)
    }

    pub open spec fn spec_equals(self, other: Double) -> bool {
        !self.nan() && !other.nan() && self.rank() == other.rank()
    }

    /// `self == other`: both zeros are equal, and no NaN equals anything.
    #[verifier::when_used_as_spec(spec_equals)]
    pub fn equals(self, other: Double) -> (b: bool)
        ensures
            b == self.spec_equals(other),
    {
        self.at_most(other) && other.at_most(self)
    }

    pub open spec fn spec_greater_of(self, other: Double) -> Double {
        if self.nan() || self.spec_less(other) {
            other
        } else {
            self
        }
    }

    /// The larger of the two; a NaN gives way to the other value.
    #[verifier::when_used_as_spec(spec_greater_of)]
    pub fn greater_of(self, other: Double) -> (r: Double)
        ensures
            r == self.spec_greater_of(other),
    {
        if self.is_nan() || self.less(other) {
            other
        } else {
            self
        }
    }

    pub open spec fn spec_lesser_of(self, other: Double) -> Double {
        if self.nan() || other.spec_less(self) {
            other
        } else {
            self
        }
    }

    /// The smaller of the two; a NaN gives way to the other value.
    #[verifier::when_used_as_spec(spec_lesser_of)]
    pub fn lesser_of(self, other: Double) -> (r: Double)
        ensures
            r == self.spec_lesser_of(other),
    {
        if self.is_nan() || other.less(self) {
            other
        } else {
            self
        }
    }

    pub open spec fn spec_clamped(self, low: Double, high: Double) -> Double {
        let raised = if self.spec_less(low) {
            low
        } else {
            self
        };
        if high.spec_less(raised) {
            high
        } else {
            raised
        }
    }

    /// The value held between `low` and `high`; a NaN stays a NaN.
    #[verifier::when_used_as_spec(spec_clamped)]
    pub fn clamped(self, low: Double, high: Double) -> (r: Double)
        ensures
            r == self.spec_clamped(low, high),
    {
        let raised = if self.less(low) {
            low
        } else {
            self
        };
        if high.less(raised) {
            high
        } else {
            raised
        }
    }

    pub open spec fn spec_magnitude(self) -> Double {
        Double { bits: self.bits % 0x8000_0000_0000_0000 }
    }

    /// The absolute value.
    #[verifier::when_used_as_spec(spec_magnitude)]
    pub fn magnitude(self) -> (r: Double)
        ensures
            r == self.spec_magnitude(),
    {
        Double { bits: self.bits % 0x8000_0000_0000_0000 }
    }

    pub open spec fn spec_from_u64(v: u64) -> Double {
        Double::of(number::of_integer(Format::Double, false, v as nat))
    }

    /// The nearest value to an unsigned integer.
    #[verifier::when_used_as_spec(spec_from_u64)]
    pub fn from_u64(v: u64) -> (r: Double)
        ensures
            r == Double::spec_from_u64(v),
    {
        let n = number::integer_number(Format::Double, false, v);
        Double::from_number(n)
    }

    pub open spec fn spec_from_i64(v: i64) -> Double {
        Double::of(
            number::of_integer(
                Format::Double,
                v < 0,
                if v < 0 {
                    (-v) as nat
                } else {
                    v as nat
                },
            ),
        )
    }

    /// The nearest value to a signed integer.
    #[verifier::when_used_as_spec(spec_from_i64)]
    pub fn from_i64(v: i64) -> (r: Double)
        ensures
            r == Double::spec_from_i64(v),
    {
        let m: u64 = if v >= 0 {
            v as u64
        } else {
            (-(v as i128)) as u64
        };
        let n = number::integer_number(Format::Double, v < 0, m);
        Double::from_number(n)
    }

    pub open spec fn spec_to_single(self) -> Single {
        Single::of(number::converted(Format::Double, Format::Single, self.number()))
    }

    /// The value in the other format.
    #[verifier::when_used_as_spec(spec_to_single)]
    pub fn to_single(self) -> (r: Single)
        ensures
            r == self.spec_to_single(),
    {
        let n = number::convert_number(Format::Double, Format::Single, self.to_number());
        Single::from_number(n)
    }

    /// The value as an unsigned integer, the fraction dropped: 0 for a NaN or a
    /// negative value, the largest integer for one that is too large.
    pub open spec fn spec_trunc_u64(self) -> u64 {
        if self.nan() || self.number().negative {
            0
        } else {
            number::capped(number::whole(Format::Double, self.number()))
        }
    }

    #[verifier::when_used_as_spec(spec_trunc_u64)]
    pub fn trunc_u64(self) -> (r: u64)
        ensures
            r == self.spec_trunc_u64(),
    {
        let n = self.to_number();
        if self.is_nan() || n.negative {
            0
        } else {
            number::whole_below(Format::Double, n)
        }
    }

    /// The smallest unsigned integer not below the value, cut to the range.
    pub open spec fn spec_ceil_u64(self) -> u64 {
        if self.nan() || self.number().negative {
            0
        } else {
            number::capped(number::whole_up(Format::Double, self.number()))
        }
    }

    #[verifier::when_used_as_spec(spec_ceil_u64)]
    pub fn ceil_u64(self) -> (r: u64)
        ensures
            r == self.spec_ceil_u64(),
    {
        let n = self.to_number();
        if self.is_nan() || n.negative {
            0
        } else {
            number::whole_above(Format::Double, n)
        }
    }

    /// The nearest integer, halves away from zero, cut to the range of `i64`; 0
    /// for a NaN.
    pub open spec fn spec_round_i64(self) -> i64 {
        let w = number::capped(number::whole_nearest(Format::Double, self.number()));
        if self.nan() {
            0
        } else if self.number().negative {
            if w >= 0x8000_0000_0000_0000 {
                i64::MIN
            } else {
                (-w) as i64
            }
        } else if w > i64::MAX {
            i64::MAX
        } else {
            w as i64
        }
    }

    #[verifier::when_used_as_spec(spec_round_i64)]
    pub fn round_i64(self) -> (r: i64)
        ensures
            r == self.spec_round_i64(),
    {
        if self.is_nan() {
            return 0;
        }
        let n = self.to_number();
        let w = number::whole_at_nearest(Format::Double, n);
        if n.negative {
            if w >= 0x8000_0000_0000_0000 {
                i64::MIN
            } else {
                -(w as i64)
            }
        } else if w > 0x7fff_ffff_ffff_ffff {
            i64::MAX
        } else {
            w as i64
        }
    }
}

impl PartialEq for Double {
    /// Equality of values: both zeros are equal, and no NaN equals anything.
    fn eq(&self, other: &Double) -> (b: bool) {
        self.equals(*other)
    }
}

impl vstd::std_specs::cmp::PartialEqSpecImpl for Double {
    open spec fn obeys_eq_spec() -> bool {
        true
    }

    open spec fn eq_spec(&self, other: &Double) -> bool {
        self.equals(*other)
    }
}

} // verus!
