//! Changes of precision, and the part of a number behind the point.
use crate::ieee::datum::{nan, no_number, rounded, Datum};
use crate::ieee::format::{lemma_compose, lemma_nearest, lemma_units_zero, rounds_to, units};
use crate::ieee::magnitude::split;
use crate::ieee::number::{lemma_bounds, Double, Single};
use crate::ieee::round::{
    double, double_spec, power_of_two, round_scaled, single, single_spec, Format,
};
use vstd::arithmetic::power2::{
    lemma2_to64, lemma2_to64_rest, lemma_pow2_adds, lemma_pow2_pos, lemma_pow2_strictly_increases,
    lemma_pow2_unfold, pow2,
};
use vstd::prelude::*;

verus! {

/// What lies below half of the first value out of range does not overflow.
pub proof fn lemma_below_top(format: Format, mag: nat, num: nat, den: nat)
    requires
        format.wf(),
        den > 0,
        rounds_to(format.frac as nat, format.top_spec(), mag, num, den),
        2 * num <= units(format.frac as nat, format.top_spec()) * den,
    ensures
        mag < format.top_spec(),
{
    let frac = format.frac as nat;
    let top = format.top_spec();
    lemma2_to64();
    lemma2_to64_rest();
    if mag == top {
        lemma_units_zero(frac);
        crate::ieee::format::lemma_units_increase(frac, 0, (top - 1) as nat);
        let a = units(frac, (top - 1) as nat);
        let b = units(frac, top);
        assert((a + b) * den > b * den) by (nonlinear_arith)
            requires
                a > 0,
                den > 0,
        ;
    }
}

/// The value that would follow the largest one of a format.
pub proof fn lemma_units_top(format: Format)
    requires
        format.wf(),
    ensures
        units(format.frac as nat, format.top_spec()) == pow2(
            (format.frac + format.steps - 1) as nat,
        ),
{
    let frac = format.frac as nat;
    let p = pow2(frac);
    let s = format.steps as nat;
    lemma_pow2_pos(frac);
    lemma_compose(frac, (s - 1) as nat, p);
    assert((s - 1) as nat * p + p == s * p) by (nonlinear_arith)
        requires
            s > 0,
    ;
    lemma_pow2_adds(frac, (s - 1) as nat);
}

/// The same number in double precision.
pub open spec fn widened(x: Single) -> Double {
    Double::of_datum(
        if x.nan() {
            nan(double_spec())
        } else if !x.finite() {
            Datum { negative: x.datum().negative, mag: double_spec().top_spec() as u64 }
        } else {
            Datum {
                negative: x.datum().negative,
                mag: rounded(
                    double_spec(),
                    units(23, x.datum().mag as nat) * pow2(925),
                    1,
                ),
            }
        },
    )
}

/// The nearest number in single precision.
pub open spec fn narrowed(x: Double) -> Single {
    Single::of_datum(
        if x.nan() {
            nan(single_spec())
        } else if !x.finite() {
            Datum { negative: x.datum().negative, mag: single_spec().top_spec() as u64 }
        } else {
            Datum {
                negative: x.datum().negative,
                mag: rounded(single_spec(), units(52, x.datum().mag as nat), pow2(925)),
            }
        },
    )
}

/// What is left of a number without its whole part. Nothing left is a positive zero.
pub open spec fn fraction(x: Double) -> Double {
    Double::of_datum(
        if !x.finite() {
            nan(double_spec())
        } else if units(52, x.datum().mag as nat) % pow2(1074) == 0 {
            Datum { negative: false, mag: 0 }
        } else {
            Datum {
                negative: x.datum().negative,
                mag: rounded(double_spec(), units(52, x.datum().mag as nat) % pow2(1074), 1),
            }
        },
    )
}

/// A significand times a power of two has the bits of both.
pub proof fn lemma_product_below(sig: nat, bits: nat, step: nat, high: nat)
    requires
        sig < pow2(bits),
        bits + step <= high,
    ensures
        sig * pow2(step) < pow2(high),
{
    lemma_pow2_pos(step);
    lemma_pow2_adds(bits, step);
    let p = pow2(step);
    let q = pow2(bits);
    assert(sig * p < q * p) by (nonlinear_arith)
        requires
            sig < q,
            p > 0,
    ;
    if bits + step < high {
        lemma_pow2_strictly_increases(bits + step, high);
    }
}

impl Single {
    /// Converts to double precision; nothing is lost.
    pub fn widen(self) -> (r: Double)
        ensures
            r == widened(self),
            self.nan() ==> r.nan(),
            self.finite() ==> r.finite(),
            self.finite() ==> r.value() == self.value() * pow2(925),
            r.datum().negative == (self.datum().negative && !self.nan()),
    {
        let datum: Datum = self.to_datum();
        proof {
            lemma_bounds();
        }
        if datum.mag > single().top() {
            return Double::from_datum(no_number(double()));
        }
        if datum.mag == single().top() {
            return Double::from_datum(
                Datum { negative: datum.negative, mag: double().top() },
            );
        }
        let parts: (u64, u32) = split(single(), datum.mag);
        let ghost num = units(23, datum.mag as nat) * pow2(925);
        proof {
            let s = parts.0 as nat;
            let q = parts.1 as nat;
            lemma_pow2_adds(q, 925);
            lemma_pow2_pos(q + 925);
            let a = pow2(q);
            let b = pow2(925);
            assert((s * a) * b == s * (a * b)) by (nonlinear_arith);
            let c = pow2(q + 925);
            assert((s + 1) * (c * 1) > s * (c * 1)) by (nonlinear_arith)
                requires
                    c > 0,
            ;
            lemma2_to64();
            lemma2_to64_rest();
            lemma_pow2_strictly_increases(64, 127);
            assert(pow2(0) == 1);
            lemma_product_below(s, 24, q + 925, 1300);
            lemma_pow2_strictly_increases(1301, 2098);
            lemma_pow2_unfold(1301);
            lemma_units_top(double_spec());
        }
        let mag: u64 = round_scaled(
            double(),
            parts.0 as u128,
            parts.1 + 925,
            0,
            false,
            Ghost(num),
            Ghost(1),
        );
        proof {
            lemma_nearest(52, double_spec().top_spec(), mag as nat, num, 1);
            lemma_below_top(double_spec(), mag as nat, num, 1);
            let u = units(23, datum.mag as nat) as int;
            let w = pow2(925) as int;
            assert((-u) * w == -(u * w)) by (nonlinear_arith);
        }
        Double::from_datum(Datum { negative: datum.negative, mag })
    }
}

impl Double {
    /// Converts to single precision, to nearest with ties to even.
    pub fn narrow(self) -> (r: Single)
        ensures
            r == narrowed(self),
            r.nan() == self.nan(),
            r.datum().negative == (self.datum().negative && !self.nan()),
    {
        let datum: Datum = self.to_datum();
        proof {
            lemma_bounds();
        }
        if datum.mag > double().top() {
            return Single::from_datum(no_number(single()));
        }
        if datum.mag == double().top() {
            return Single::from_datum(
                Datum { negative: datum.negative, mag: single().top() },
            );
        }
        let parts: (u64, u32) = split(double(), datum.mag);
        let ghost num = units(52, datum.mag as nat);
        let ghost den = pow2(925);
        proof {
            let s = parts.0 as nat;
            let a = pow2(parts.1 as nat);
            lemma_pow2_pos(parts.1 as nat);
            lemma_pow2_pos(925);
            assert(s * (a * den) == (s * a) * den) by (nonlinear_arith);
            assert((s + 1) * (a * den) > s * (a * den)) by (nonlinear_arith)
                requires
                    a > 0,
                    den > 0,
            ;
            lemma2_to64();
            lemma_pow2_strictly_increases(64, 127);
        }
        let mag: u64 = round_scaled(
            single(),
            parts.0 as u128,
            parts.1,
            925,
            false,
            Ghost(num),
            Ghost(den),
        );
        proof {
            lemma_nearest(23, single_spec().top_spec(), mag as nat, num, den);
        }
        Single::from_datum(Datum { negative: datum.negative, mag })
    }

    /// The number without its whole part.
    pub fn fract(self) -> (r: Double)
        ensures
            r == fraction(self),
            self.finite() ==> r.finite(),
            self.finite() && !self.datum().negative ==> r.value() == self.value() % (pow2(
                1074,
            ) as int),
    {
        let datum: Datum = self.to_datum();
        proof {
            lemma_bounds();
            lemma_units_zero(52);
            lemma_pow2_pos(1074);
        }
        if datum.mag >= double().top() {
            return Double::from_datum(no_number(double()));
        }
        let parts: (u64, u32) = split(double(), datum.mag);
        let ghost whole = units(52, datum.mag as nat);
        let ghost one = pow2(1074);
        if parts.1 >= 1074 {
            proof {
                let rest = (parts.1 - 1074) as nat;
                lemma_pow2_adds(rest, 1074);
                let k = parts.0 as int * pow2(rest) as int;
                let a = pow2(rest) as int;
                let b = one as int;
                let s = parts.0 as int;
                assert(s * (a * b) == (s * a) * b) by (nonlinear_arith);
                vstd::arithmetic::div_mod::lemma_mod_multiples_basic(k, b);
            }
            return Double::from_datum(Datum { negative: false, mag: 0 });
        }
        let below: u32 = 1074 - parts.1;
        let rest: u64 = if below >= 54 {
            proof {
                lemma2_to64_rest();
                if below > 54 {
                    lemma_pow2_strictly_increases(54, below as nat);
                }
            }
            parts.0
        } else {
            proof {
                lemma_pow2_pos(below as nat);
            }
            let unit: u128 = power_of_two(below);
            let rest: u128 = parts.0 as u128 % unit;
            assert(rest <= parts.0) by {
                vstd::arithmetic::div_mod::lemma_mod_decreases(parts.0 as nat, unit as nat);
            }
            rest as u64
        };
        let ghost num = rest as nat * pow2(parts.1 as nat);
        proof {
            let s = parts.0 as int;
            let m = pow2(below as nat) as int;
            let a = pow2(parts.1 as nat) as int;
            lemma_pow2_pos(below as nat);
            lemma_pow2_pos(parts.1 as nat);
            lemma_pow2_adds(below as nat, parts.1 as nat);
            assert(rest == s % m) by {
                if below >= 54 {
                    vstd::arithmetic::div_mod::lemma_small_mod(s as nat, m as nat);
                }
            }
            vstd::arithmetic::div_mod::lemma_truncate_middle(s, a, m);
            assert(a * s == s * a) by (nonlinear_arith);
            assert(a * m == m * a) by (nonlinear_arith);
            assert(a * (s % m) == (s % m) * a) by (nonlinear_arith);
            assert(whole % one == num);
        }
        if rest == 0 {
            proof {
                let a = pow2(parts.1 as nat);
                assert(num == 0) by (nonlinear_arith)
                    requires
                        rest == 0,
                        num == rest as nat * a,
                ;
            }
            return Double::from_datum(Datum { negative: false, mag: 0 });
        }
        proof {
            let s = rest as nat;
            let a = pow2(parts.1 as nat);
            assert((s + 1) * (a * 1) > s * (a * 1)) by (nonlinear_arith)
                requires
                    a > 0,
            ;
            assert(s * a > 0) by (nonlinear_arith)
                requires
                    s > 0,
                    a > 0,
            ;
            lemma2_to64();
            lemma2_to64_rest();
            lemma_pow2_strictly_increases(64, 127);
            assert(pow2(0) == 1);
            assert(rest <= parts.0) by {
                if below < 54 {
                    vstd::arithmetic::div_mod::lemma_mod_decreases(
                        parts.0 as nat,
                        pow2(below as nat),
                    );
                }
            }
            vstd::arithmetic::div_mod::lemma_mod_bound(whole as int, one as int);
            lemma_pow2_unfold(1075);
            lemma_pow2_strictly_increases(1075, 2098);
            lemma_units_top(double_spec());
        }
        let mag: u64 = round_scaled(
            double(),
            rest as u128,
            parts.1,
            0,
            false,
            Ghost(num),
            Ghost(1),
        );
        proof {
            lemma_nearest(52, double_spec().top_spec(), mag as nat, num, 1);
            lemma_below_top(double_spec(), mag as nat, num, 1);
        }
        Double::from_datum(Datum { negative: datum.negative, mag })
    }
}

} // verus!
