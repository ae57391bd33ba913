//! Signed data of a format, infinities and NaN with them, and the arithmetic on them.
use crate::ieee::format::{
    lemma_nearest, lemma_round_exact, lemma_units_increase, lemma_units_zero, nearest, units,
};
use crate::ieee::magnitude::{decrease, divide, increase, multiply, whole};
use crate::ieee::round::Format;
use vstd::arithmetic::power2::{lemma_pow2_pos, pow2};
use vstd::prelude::*;

verus! {

/// A datum of a format, as its sign and its magnitude.
#[derive(Clone, Copy, Debug, PartialEq, Eq, Structural)]
pub struct Datum {
    /// Whether the sign bit is set.
    pub negative: bool,
    /// The bits below the sign.
    pub mag: u64,
}

impl Datum {
    /// Beyond infinity there is no number.
    pub open spec fn is_nan(self, format: Format) -> bool {
        self.mag > format.top_spec()
    }

    /// The datum is an infinity.
    pub open spec fn is_infinite(self, format: Format) -> bool {
        self.mag == format.top_spec()
    }

    /// The datum is a number.
    pub open spec fn is_finite(self, format: Format) -> bool {
        self.mag < format.top_spec()
    }

    /// The datum is a zero of either sign.
    pub open spec fn is_zero(self) -> bool {
        self.mag == 0
    }

    /// The number, counted in the format's least positive value. An infinity counts
    /// as the number that would follow the largest.
    pub open spec fn value(self, format: Format) -> int {
        if self.negative {
            -(units(format.frac as nat, self.mag as nat) as int)
        } else {
            units(format.frac as nat, self.mag as nat) as int
        }
    }
}

/// The NaN that an operation without a result gives.
pub open spec fn nan(format: Format) -> Datum {
    Datum {
        negative: false,
        mag: (format.top_spec() + pow2((format.frac - 1) as nat)) as u64,
    }
}

/// The magnitude nearest to `num / den` least positive values.
pub open spec fn rounded(format: Format, num: nat, den: nat) -> u64 {
    nearest(format.frac as nat, format.top_spec(), num, den) as u64
}

/// The exact product of two numbers, rounded; infinity times zero is no number.
pub open spec fn product(format: Format, a: Datum, b: Datum) -> Datum {
    if a.is_nan(format) || b.is_nan(format) || (a.is_infinite(format) && b.is_zero()) || (
    a.is_zero() && b.is_infinite(format)) {
        nan(format)
    } else {
        Datum {
            negative: a.negative != b.negative,
            mag: if a.is_infinite(format) || b.is_infinite(format) {
                format.top_spec() as u64
            } else {
                rounded(
                    format,
                    units(format.frac as nat, a.mag as nat) * units(
                        format.frac as nat,
                        b.mag as nat,
                    ),
                    pow2(format.unit as nat),
                )
            },
        }
    }
}

/// The exact sum of two numbers, rounded; a zero sum is negative only where both are.
pub open spec fn sum(format: Format, a: Datum, b: Datum) -> Datum {
    if a.is_nan(format) || b.is_nan(format) {
        nan(format)
    } else if a.is_infinite(format) && b.is_infinite(format) && a.negative != b.negative {
        nan(format)
    } else if a.is_infinite(format) {
        a
    } else if b.is_infinite(format) {
        b
    } else {
        let exact = a.value(format) + b.value(format);
        if exact == 0 {
            Datum { negative: a.negative && b.negative, mag: 0 }
        } else if exact < 0 {
            Datum { negative: true, mag: rounded(format, (-exact) as nat, 1) }
        } else {
            Datum { negative: false, mag: rounded(format, exact as nat, 1) }
        }
    }
}

/// The exact quotient of two numbers, rounded.
pub open spec fn quotient(format: Format, a: Datum, b: Datum) -> Datum {
    if a.is_nan(format) || b.is_nan(format) || (a.is_infinite(format) && b.is_infinite(format)) || (
    a.is_zero() && b.is_zero()) {
        nan(format)
    } else {
        Datum {
            negative: a.negative != b.negative,
            mag: if a.is_infinite(format) || b.is_zero() {
                format.top_spec() as u64
            } else if b.is_infinite(format) {
                0
            } else {
                rounded(
                    format,
                    units(format.frac as nat, a.mag as nat) * pow2(format.unit as nat),
                    units(format.frac as nat, b.mag as nat),
                )
            },
        }
    }
}

/// Whether `a` is a number below the number `b`.
pub open spec fn less(format: Format, a: Datum, b: Datum) -> bool {
    !a.is_nan(format) && !b.is_nan(format) && a.value(format) < b.value(format)
}

/// The NaN that an operation without a result gives.
pub(crate) fn no_number(format: Format) -> (datum: Datum)
    requires
        format.wf(),
    ensures
        datum == nan(format),
        datum.is_nan(format),
{
    proof {
        vstd::arithmetic::power2::lemma2_to64();
        vstd::arithmetic::power2::lemma2_to64_rest();
        assert(format.frac == 23 ==> format.top_spec() == 255 * 0x80_0000);
        assert(format.frac == 52 ==> format.top_spec() == 2047 * 0x10_0000_0000_0000);
    }
    let mag: u64 = format.top() + format.hidden() / 2;
    Datum { negative: false, mag }
}

/// Multiplies two data.
pub(crate) fn times(format: Format, a: Datum, b: Datum) -> (r: Datum)
    requires
        format.wf(),
    ensures
        r == product(format, a, b),
        r.mag <= format.top_spec() || r == nan(format),
{
    let top: u64 = format.top();
    if a.mag > top || b.mag > top || (a.mag == top && b.mag == 0) || (a.mag == 0 && b.mag == top) {
        return no_number(format);
    }
    let negative: bool = a.negative != b.negative;
    if a.mag == top || b.mag == top {
        return Datum { negative, mag: top };
    }
    let mag: u64 = multiply(format, a.mag, b.mag);
    proof {
        lemma_pow2_pos(format.unit as nat);
        lemma_nearest(
            format.frac as nat,
            format.top_spec(),
            mag as nat,
            units(format.frac as nat, a.mag as nat) * units(format.frac as nat, b.mag as nat),
            pow2(format.unit as nat),
        );
    }
    Datum { negative, mag }
}

/// Adds two data.
pub(crate) fn plus(format: Format, a: Datum, b: Datum) -> (r: Datum)
    requires
        format.wf(),
    ensures
        r == sum(format, a, b),
        r.mag <= format.top_spec() || r == nan(format),
{
    let top: u64 = format.top();
    let ghost frac = format.frac as nat;
    if a.mag > top || b.mag > top {
        return no_number(format);
    }
    if a.mag == top && b.mag == top && a.negative != b.negative {
        return no_number(format);
    }
    if a.mag == top {
        return a;
    }
    if b.mag == top {
        return b;
    }
    proof {
        lemma_units_zero(frac);
        if a.mag > 0 {
            lemma_units_increase(frac, 0, a.mag as nat);
        }
        if b.mag > 0 {
            lemma_units_increase(frac, 0, b.mag as nat);
        }
        if a.mag < b.mag {
            lemma_units_increase(frac, a.mag as nat, b.mag as nat);
        }
        if b.mag < a.mag {
            lemma_units_increase(frac, b.mag as nat, a.mag as nat);
        }
    }
    let ghost x = units(frac, a.mag as nat);
    let ghost y = units(frac, b.mag as nat);
    if a.negative == b.negative {
        let mag: u64 = if a.mag >= b.mag {
            increase(format, a.mag, b.mag)
        } else {
            increase(format, b.mag, a.mag)
        };
        proof {
            lemma_nearest(frac, format.top_spec(), mag as nat, x + y, 1);
            if a.mag == 0 && b.mag == 0 {
                lemma_round_exact(frac, format.top_spec(), 0, 0, 1);
                lemma_nearest(frac, format.top_spec(), 0, 0, 1);
            }
        }
        return Datum { negative: a.negative, mag };
    }
    if a.mag == b.mag {
        return Datum { negative: false, mag: 0 };
    }
    if a.mag > b.mag {
        let mag: u64 = decrease(format, a.mag, b.mag);
        proof {
            lemma_nearest(frac, format.top_spec(), mag as nat, (x - y) as nat, 1);
        }
        Datum { negative: a.negative, mag }
    } else {
        let mag: u64 = decrease(format, b.mag, a.mag);
        proof {
            lemma_nearest(frac, format.top_spec(), mag as nat, (y - x) as nat, 1);
        }
        Datum { negative: b.negative, mag }
    }
}

/// Divides two data.
pub(crate) fn over(format: Format, a: Datum, b: Datum) -> (r: Datum)
    requires
        format.wf(),
    ensures
        r == quotient(format, a, b),
        r.mag <= format.top_spec() || r == nan(format),
{
    let top: u64 = format.top();
    if a.mag > top || b.mag > top || (a.mag == top && b.mag == top) || (a.mag == 0 && b.mag == 0) {
        return no_number(format);
    }
    let negative: bool = a.negative != b.negative;
    if a.mag == top || b.mag == 0 {
        return Datum { negative, mag: top };
    }
    if b.mag == top {
        return Datum { negative, mag: 0 };
    }
    let mag: u64 = divide(format, a.mag, b.mag);
    proof {
        let frac = format.frac as nat;
        lemma_units_zero(frac);
        lemma_units_increase(frac, 0, b.mag as nat);
        lemma_nearest(
            frac,
            format.top_spec(),
            mag as nat,
            units(frac, a.mag as nat) * pow2(format.unit as nat),
            units(frac, b.mag as nat),
        );
    }
    Datum { negative, mag }
}

/// Orders two data.
pub(crate) fn less_than(format: Format, a: Datum, b: Datum) -> (r: bool)
    requires
        format.wf(),
    ensures
        r == less(format, a, b),
{
    let top: u64 = format.top();
    if a.mag > top || b.mag > top {
        return false;
    }
    proof {
        let frac = format.frac as nat;
        lemma_units_zero(frac);
        if a.mag > 0 {
            lemma_units_increase(frac, 0, a.mag as nat);
        }
        if b.mag > 0 {
            lemma_units_increase(frac, 0, b.mag as nat);
        }
        if a.mag < b.mag {
            lemma_units_increase(frac, a.mag as nat, b.mag as nat);
        }
        if b.mag < a.mag {
            lemma_units_increase(frac, b.mag as nat, a.mag as nat);
        }
    }
    if a.negative {
        if b.negative {
            b.mag < a.mag
        } else {
            a.mag > 0 || b.mag > 0
        }
    } else if b.negative {
        false
    } else {
        a.mag < b.mag
    }
}

/// A whole number, as a datum.
pub open spec fn from_whole(format: Format, value: u64) -> Datum {
    Datum {
        negative: false,
        mag: rounded(format, value as nat * pow2(format.unit as nat), 1),
    }
}

/// Converts a whole number, rounding where it has more digits than the format.
pub(crate) fn of_whole(format: Format, value: u64) -> (r: Datum)
    requires
        format.wf(),
    ensures
        r == from_whole(format, value),
        value < 2 * pow2(format.frac as nat) && r.mag < format.top_spec() ==> units(
            format.frac as nat,
            r.mag as nat,
        ) == value * pow2(format.unit as nat),
        r.mag <= format.top_spec(),
{
    let mag: u64 = whole(format, value);
    proof {
        lemma_nearest(
            format.frac as nat,
            format.top_spec(),
            mag as nat,
            value as nat * pow2(format.unit as nat),
            1,
        );
    }
    Datum { negative: false, mag }
}

} // verus!
