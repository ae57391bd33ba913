//! Single- and double-precision numbers as bit patterns.
use crate::ieee::datum::{
    from_whole, less, less_than, nan, of_whole, over, plus, product, quotient, sum, times, Datum,
};
use crate::ieee::round::{double, double_spec, single, single_spec};
use vstd::prelude::*;

verus! {

/// A single-precision number, as its bit pattern.
#[derive(Clone, Copy, Debug, PartialEq, Eq, Structural)]
pub struct Single {
    /// Sign, exponent and fraction, from the highest bit down.
    pub bits: u32,
}

impl Single {
    /// The sign and the magnitude.
    pub open spec fn datum(self) -> Datum {
        Datum {
            negative: self.bits >= 0x8000_0000,
            mag: if self.bits >= 0x8000_0000 {
                (self.bits - 0x8000_0000) as u64
            } else {
                self.bits as u64
            },
        }
    }

    /// The pattern of a sign and a magnitude.
    pub open spec fn of_datum(datum: Datum) -> Single {
        Single {
            bits: if datum.negative {
                (datum.mag + 0x8000_0000) as u32
            } else {
                datum.mag as u32
            },
        }
    }

    /// The number, counted in the least positive one.
    pub open spec fn value(self) -> int {
        self.datum().value(single_spec())
    }

    /// The number is neither infinite nor a NaN.
    pub open spec fn finite(self) -> bool {
        self.datum().is_finite(single_spec())
    }

    /// The pattern stands for no number.
    pub open spec fn nan(self) -> bool {
        self.datum().is_nan(single_spec())
    }

    /// The order of two numbers; no NaN has a place in it.
    pub open spec fn below(self, other: Single) -> bool {
        less(single_spec(), self.datum(), other.datum())
    }

    /// Takes the pattern apart.
    pub(crate) fn to_datum(self) -> (datum: Datum)
        ensures
            datum == self.datum(),
    {
        if self.bits >= 0x8000_0000 {
            Datum { negative: true, mag: (self.bits - 0x8000_0000) as u64 }
        } else {
            Datum { negative: false, mag: self.bits as u64 }
        }
    }

    /// Puts the pattern together.
    pub(crate) fn from_datum(datum: Datum) -> (number: Single)
        requires
            datum.mag < 0x8000_0000,
        ensures
            number == Single::of_datum(datum),
            number.datum() == datum,
    {
        if datum.negative {
            Single { bits: datum.mag as u32 + 0x8000_0000 }
        } else {
            Single { bits: datum.mag as u32 }
        }
    }

    /// Whether this is a number at all and not infinite.
    pub fn is_finite(self) -> (r: bool)
        ensures
            r == self.finite(),
    {
        self.to_datum().mag < single().top()
    }

    /// Whether this is below `other`.
    pub fn less_than(self, other: Single) -> (r: bool)
        ensures
            r == self.below(other),
    {
        less_than(single(), self.to_datum(), other.to_datum())
    }

    /// The exact sum, rounded to nearest with ties to even.
    pub open spec fn sum_spec(self, other: Single) -> Single {
        Single::of_datum(sum(single_spec(), self.datum(), other.datum()))
    }

    /// Adds.
    pub fn plus(self, other: Single) -> (r: Single)
        ensures
            r == self.sum_spec(other),
            r.datum() == sum(single_spec(), self.datum(), other.datum()),
    {
        let datum: Datum = plus(single(), self.to_datum(), other.to_datum());
        proof {
            lemma_bounds();
        }
        Single::from_datum(datum)
    }

    /// The number with the other sign.
    pub open spec fn negated(self) -> Single {
        Single::of_datum(Datum { negative: !self.datum().negative, mag: self.datum().mag })
    }

    /// The exact difference, rounded to nearest with ties to even.
    pub open spec fn difference_spec(self, other: Single) -> Single {
        self.sum_spec(other.negated())
    }

    /// Subtracts.
    pub fn minus(self, other: Single) -> (r: Single)
        ensures
            r == self.difference_spec(other),
            r.datum() == sum(single_spec(), self.datum(), other.negated().datum()),
    {
        let datum: Datum = other.to_datum();
        let negated: Single = Single::from_datum(
            Datum { negative: !datum.negative, mag: datum.mag },
        );
        self.plus(negated)
    }

    /// The exact product, rounded to nearest with ties to even.
    pub open spec fn product_spec(self, other: Single) -> Single {
        Single::of_datum(product(single_spec(), self.datum(), other.datum()))
    }

    /// Multiplies.
    pub fn times(self, other: Single) -> (r: Single)
        ensures
            r == self.product_spec(other),
            r.datum() == product(single_spec(), self.datum(), other.datum()),
    {
        let datum: Datum = times(single(), self.to_datum(), other.to_datum());
        proof {
            lemma_bounds();
        }
        Single::from_datum(datum)
    }

    /// The exact quotient, rounded to nearest with ties to even.
    pub open spec fn quotient_spec(self, other: Single) -> Single {
        Single::of_datum(quotient(single_spec(), self.datum(), other.datum()))
    }

    /// Divides.
    pub fn over(self, other: Single) -> (r: Single)
        ensures
            r == self.quotient_spec(other),
            r.datum() == quotient(single_spec(), self.datum(), other.datum()),
    {
        let datum: Datum = over(single(), self.to_datum(), other.to_datum());
        proof {
            lemma_bounds();
        }
        Single::from_datum(datum)
    }

    /// The number nearest to a whole one.
    pub open spec fn whole_spec(value: u64) -> Single {
        Single::of_datum(from_whole(single_spec(), value))
    }

    /// Converts a whole number.
    pub fn from_whole(value: u64) -> (r: Single)
        ensures
            r == Single::whole_spec(value),
            r.datum() == from_whole(single_spec(), value),
    {
        let datum: Datum = of_whole(single(), value);
        proof {
            lemma_bounds();
        }
        Single::from_datum(datum)
    }
}

/// A double-precision number, as its bit pattern.
#[derive(Clone, Copy, Debug, PartialEq, Eq, Structural)]
pub struct Double {
    /// Sign, exponent and fraction, from the highest bit down.
    pub bits: u64,
}

impl Double {
    /// The sign and the magnitude.
    pub open spec fn datum(self) -> Datum {
        Datum {
            negative: self.bits >= 0x8000_0000_0000_0000,
            mag: if self.bits >= 0x8000_0000_0000_0000 {
                (self.bits - 0x8000_0000_0000_0000) as u64
            } else {
                self.bits as u64
            },
        }
    }

    /// The pattern of a sign and a magnitude.
    pub open spec fn of_datum(datum: Datum) -> Double {
        Double {
            bits: if datum.negative {
                (datum.mag + 0x8000_0000_0000_0000) as u64
            } else {
                datum.mag as u64
            },
        }
    }

    /// The number, counted in the least positive one.
    pub open spec fn value(self) -> int {
        self.datum().value(double_spec())
    }

    /// The number is neither infinite nor a NaN.
    pub open spec fn finite(self) -> bool {
        self.datum().is_finite(double_spec())
    }

    /// The pattern stands for no number.
    pub open spec fn nan(self) -> bool {
        self.datum().is_nan(double_spec())
    }

    /// The order of two numbers; no NaN has a place in it.
    pub open spec fn below(self, other: Double) -> bool {
        less(double_spec(), self.datum(), other.datum())
    }

    /// Takes the pattern apart.
    pub(crate) fn to_datum(self) -> (datum: Datum)
        ensures
            datum == self.datum(),
    {
        if self.bits >= 0x8000_0000_0000_0000 {
            Datum { negative: true, mag: (self.bits - 0x8000_0000_0000_0000) as u64 }
        } else {
            Datum { negative: false, mag: self.bits as u64 }
        }
    }

    /// Puts the pattern together.
    pub(crate) fn from_datum(datum: Datum) -> (number: Double)
        requires
            datum.mag < 0x8000_0000_0000_0000,
        ensures
            number == Double::of_datum(datum),
            number.datum() == datum,
    {
        if datum.negative {
            Double { bits: datum.mag as u64 + 0x8000_0000_0000_0000 }
        } else {
            Double { bits: datum.mag as u64 }
        }
    }

    /// Whether this is a number at all and not infinite.
    pub fn is_finite(self) -> (r: bool)
        ensures
            r == self.finite(),
    {
        self.to_datum().mag < double().top()
    }

    /// Whether this is below `other`.
    pub fn less_than(self, other: Double) -> (r: bool)
        ensures
            r == self.below(other),
    {
        less_than(double(), self.to_datum(), other.to_datum())
    }

    /// The exact sum, rounded to nearest with ties to even.
    pub open spec fn sum_spec(self, other: Double) -> Double {
        Double::of_datum(sum(double_spec(), self.datum(), other.datum()))
    }

    /// Adds.
    pub fn plus(self, other: Double) -> (r: Double)
        ensures
            r == self.sum_spec(other),
            r.datum() == sum(double_spec(), self.datum(), other.datum()),
    {
        let datum: Datum = plus(double(), self.to_datum(), other.to_datum());
        proof {
            lemma_bounds();
        }
        Double::from_datum(datum)
    }

    /// The number with the other sign.
    pub open spec fn negated(self) -> Double {
        Double::of_datum(Datum { negative: !self.datum().negative, mag: self.datum().mag })
    }

    /// The exact difference, rounded to nearest with ties to even.
    pub open spec fn difference_spec(self, other: Double) -> Double {
        self.sum_spec(other.negated())
    }

    /// Subtracts.
    pub fn minus(self, other: Double) -> (r: Double)
        ensures
            r == self.difference_spec(other),
            r.datum() == sum(double_spec(), self.datum(), other.negated().datum()),
    {
        let datum: Datum = other.to_datum();
        let negated: Double = Double::from_datum(
            Datum { negative: !datum.negative, mag: datum.mag },
        );
        self.plus(negated)
    }

    /// The exact product, rounded to nearest with ties to even.
    pub open spec fn product_spec(self, other: Double) -> Double {
        Double::of_datum(product(double_spec(), self.datum(), other.datum()))
    }

    /// Multiplies.
    pub fn times(self, other: Double) -> (r: Double)
        ensures
            r == self.product_spec(other),
            r.datum() == product(double_spec(), self.datum(), other.datum()),
    {
        let datum: Datum = times(double(), self.to_datum(), other.to_datum());
        proof {
            lemma_bounds();
        }
        Double::from_datum(datum)
    }

    /// The exact quotient, rounded to nearest with ties to even.
    pub open spec fn quotient_spec(self, other: Double) -> Double {
        Double::of_datum(quotient(double_spec(), self.datum(), other.datum()))
    }

    /// Divides.
    pub fn over(self, other: Double) -> (r: Double)
        ensures
            r == self.quotient_spec(other),
            r.datum() == quotient(double_spec(), self.datum(), other.datum()),
    {
        let datum: Datum = over(double(), self.to_datum(), other.to_datum());
        proof {
            lemma_bounds();
        }
        Double::from_datum(datum)
    }

    /// The number nearest to a whole one.
    pub open spec fn whole_spec(value: u64) -> Double {
        Double::of_datum(from_whole(double_spec(), value))
    }

    /// Converts a whole number.
    pub fn from_whole(value: u64) -> (r: Double)
        ensures
            r == Double::whole_spec(value),
            r.datum() == from_whole(double_spec(), value),
    {
        let datum: Datum = of_whole(double(), value);
        proof {
            lemma_bounds();
        }
        Double::from_datum(datum)
    }
}

/// The magnitudes of the infinities, and those of the NaNs, fit below the sign.
pub proof fn lemma_bounds()
    ensures
        single_spec().top_spec() == 0x7f80_0000,
        double_spec().top_spec() == 0x7ff0_0000_0000_0000,
        nan(single_spec()).mag == 0x7fc0_0000,
        nan(double_spec()).mag == 0x7ff8_0000_0000_0000,
{
    vstd::arithmetic::power2::lemma2_to64();
    vstd::arithmetic::power2::lemma2_to64_rest();
}

} // verus!
