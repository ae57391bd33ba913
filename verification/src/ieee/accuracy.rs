//! How close each operation comes to the exact result.
use crate::ieee::bounds::{
    lemma_rounded_between, lemma_rounded_exact, lemma_rounding_error_of, lemma_rounds_to_nearest,
    lemma_whole, lemma_widened,
};
use crate::ieee::convert::{narrowed, widened};
use crate::ieee::datum::rounded;
use crate::ieee::format::{
    lemma_next, lemma_units_increase, lemma_units_zero, rounds_above, rounds_to, units,
};
use crate::ieee::number::{lemma_bounds, Double, Single};
use crate::ieee::round::{double_spec, single_spec, Format};
use vstd::arithmetic::power2::{lemma2_to64, lemma2_to64_rest, lemma_pow2_pos, pow2};
use vstd::math::abs;
use vstd::prelude::*;

verus! {

/// Whether `x` is the exact value `num / den`, but for half a unit in the last of so many
/// bits, or for one of the least positive values.
pub open spec fn is_rounded(x: int, num: int, den: int, bits: nat) -> bool {
    den > 0 && pow2(bits) * abs(x * den - num) <= (abs(x) + pow2(bits)) * den
}

/// A rounded magnitude with a sign.
proof fn lemma_is_rounded(format: Format, num: nat, den: nat, negative: bool)
    requires
        format.wf(),
        den > 0,
        rounded(format, num, den) < format.top_spec(),
    ensures
        ({
            let got = units(format.frac as nat, rounded(format, num, den) as nat) as int;
            if negative {
                is_rounded(-got, -(num as int), den as int, (format.frac + 1) as nat)
            } else {
                is_rounded(got, num as int, den as int, (format.frac + 1) as nat)
            }
        }),
{
    let got = units(format.frac as nat, rounded(format, num, den) as nat) as int;
    lemma_rounding_error_of(format, num, den);
    assert((-got) * den == -(got * den)) by (nonlinear_arith);
}

/// The sign of a product.
proof fn lemma_signs(a: int, b: int)
    ensures
        (-a) * b == -(a * b),
        a * (-b) == -(a * b),
        (-a) * (-b) == a * b,
{
    assert((-a) * b == -(a * b)) by (nonlinear_arith);
    assert(a * (-b) == -(a * b)) by (nonlinear_arith);
    assert((-a) * (-b) == a * b) by (nonlinear_arith);
}

/// The product of two numbers is the exact one, but for rounding.
pub proof fn products_are_accurate(a: Double, b: Double)
    requires
        a.finite(),
        b.finite(),
        a.product_spec(b).finite(),
    ensures
        is_rounded(
            a.product_spec(b).value(),
            a.value() * b.value(),
            pow2(1074) as int,
            53,
        ),
{
    lemma_bounds();
    lemma_pow2_pos(1074);
    let m = units(52, a.datum().mag as nat);
    let n = units(52, b.datum().mag as nat);
    lemma_signs(m as int, n as int);
    lemma_rounded_between(double_spec(), m * n, pow2(1074), 0);
    lemma_is_rounded(double_spec(), m * n, pow2(1074), a.datum().negative != b.datum().negative);
}

/// The product of two numbers in single precision is the exact one, but for rounding.
pub proof fn single_products_are_accurate(a: Single, b: Single)
    requires
        a.finite(),
        b.finite(),
        a.product_spec(b).finite(),
    ensures
        is_rounded(a.product_spec(b).value(), a.value() * b.value(), pow2(149) as int, 24),
{
    lemma_bounds();
    lemma_pow2_pos(149);
    let m = units(23, a.datum().mag as nat);
    let n = units(23, b.datum().mag as nat);
    lemma_signs(m as int, n as int);
    lemma_rounded_between(single_spec(), m * n, pow2(149), 0);
    lemma_is_rounded(single_spec(), m * n, pow2(149), a.datum().negative != b.datum().negative);
}

/// The quotient by a positive number is the exact one, but for rounding.
pub proof fn quotients_are_accurate(a: Double, b: Double)
    requires
        a.finite(),
        b.finite(),
        b.value() > 0,
        a.quotient_spec(b).finite(),
    ensures
        is_rounded(a.quotient_spec(b).value(), a.value() * pow2(1074), b.value(), 53),
{
    lemma_bounds();
    lemma_units_zero(52);
    let m = units(52, a.datum().mag as nat);
    lemma_signs(m as int, pow2(1074) as int);
    lemma_rounded_between(double_spec(), m * pow2(1074), b.value() as nat, 0);
    lemma_is_rounded(
        double_spec(),
        m * pow2(1074),
        b.value() as nat,
        a.datum().negative != b.datum().negative,
    );
}

/// The quotient by a positive number in single precision is the exact one, but for
/// rounding.
pub proof fn single_quotients_are_accurate(a: Single, b: Single)
    requires
        a.finite(),
        b.finite(),
        b.value() > 0,
        a.quotient_spec(b).finite(),
    ensures
        is_rounded(a.quotient_spec(b).value(), a.value() * pow2(149), b.value(), 24),
{
    lemma_bounds();
    lemma_units_zero(23);
    let m = units(23, a.datum().mag as nat);
    lemma_signs(m as int, pow2(149) as int);
    lemma_rounded_between(single_spec(), m * pow2(149), b.value() as nat, 0);
    lemma_is_rounded(
        single_spec(),
        m * pow2(149),
        b.value() as nat,
        a.datum().negative != b.datum().negative,
    );
}

/// The sum of two numbers is the exact one, but for rounding.
pub proof fn sums_are_accurate(a: Double, b: Double)
    requires
        a.finite(),
        b.finite(),
        a.sum_spec(b).finite(),
    ensures
        is_rounded(a.sum_spec(b).value(), a.value() + b.value(), 1, 53),
{
    lemma_bounds();
    lemma_units_zero(52);
    let exact = a.value() + b.value();
    if exact == 0 {
        assert(a.sum_spec(b).value() == 0);
        assert(pow2(53) * 0 == 0);
    } else {
        lemma_rounded_between(double_spec(), abs(exact), 1, 0);
        lemma_is_rounded(double_spec(), abs(exact), 1, exact < 0);
    }
}

/// The sum of two numbers in single precision is the exact one, but for rounding.
pub proof fn single_sums_are_accurate(a: Single, b: Single)
    requires
        a.finite(),
        b.finite(),
        a.sum_spec(b).finite(),
    ensures
        is_rounded(a.sum_spec(b).value(), a.value() + b.value(), 1, 24),
{
    lemma_bounds();
    lemma_units_zero(23);
    let exact = a.value() + b.value();
    if exact == 0 {
        assert(a.sum_spec(b).value() == 0);
        assert(pow2(24) * 0 == 0);
    } else {
        lemma_rounded_between(single_spec(), abs(exact), 1, 0);
        lemma_is_rounded(single_spec(), abs(exact), 1, exact < 0);
    }
}

/// The difference of two numbers in single precision is the exact one, but for rounding.
pub proof fn single_differences_are_accurate(a: Single, b: Single)
    requires
        a.finite(),
        b.finite(),
        a.difference_spec(b).finite(),
    ensures
        is_rounded(a.difference_spec(b).value(), a.value() - b.value(), 1, 24),
{
    lemma_bounds();
    single_sums_are_accurate(a, b.negated());
}

/// A whole number is itself, but for rounding, and exactly so below `2^53`.
pub proof fn wholes_are_accurate(value: u64)
    ensures
        Double::whole_spec(value).finite(),
        is_rounded(Double::whole_spec(value).value(), value * pow2(1074), 1, 53),
        value < 0x20_0000_0000_0000 ==> Double::whole_spec(value).value() == value * pow2(1074),
{
    lemma_bounds();
    lemma2_to64();
    lemma2_to64_rest();
    lemma_whole(value);
    lemma_rounded_between(double_spec(), value as nat * pow2(1074), 1, 0);
    lemma_is_rounded(double_spec(), value as nat * pow2(1074), 1, false);
    if value < 0x20_0000_0000_0000 {
        lemma_rounded_exact(value as nat, 1074);
    }
}

/// A number in single precision is the same one in double precision.
pub proof fn widening_keeps_the_number(x: Single)
    requires
        x.finite(),
    ensures
        widened(x).finite(),
        widened(x).value() == x.value() * pow2(925),
{
    lemma_widened(x);
}

/// A number brought to single precision is the same one, but for rounding.
pub proof fn narrowing_is_accurate(x: Double)
    requires
        x.finite(),
        narrowed(x).finite(),
    ensures
        is_rounded(narrowed(x).value(), x.value(), pow2(925) as int, 24),
{
    lemma_bounds();
    lemma_pow2_pos(925);
    lemma_rounded_between(single_spec(), units(52, x.datum().mag as nat), pow2(925), 0);
    lemma_is_rounded(
        single_spec(),
        units(52, x.datum().mag as nat),
        pow2(925),
        x.datum().negative,
    );
}

/// Rounding finds the nearest number: no other number of the format is nearer to the exact
/// value, and of two that are as near, it is the one with an even significand.
pub proof fn no_number_is_nearer(format: Format, num: nat, den: nat, other: nat)
    requires
        format.wf(),
        den > 0,
        rounded(format, num, den) < format.top_spec(),
        other < format.top_spec(),
    ensures
        ({
            let frac = format.frac as nat;
            let got = rounded(format, num, den) as nat;
            let here = abs(units(frac, got) * den - num);
            let there = abs(units(frac, other) * den - num);
            &&& here <= there
            &&& here == there && other != got ==> got % 2 == 0
        }),
{
    let frac = format.frac as nat;
    let top = format.top_spec();
    let got = rounded(format, num, den) as nat;
    lemma_bounds();
    assert(top <= 0x7ff0_0000_0000_0000) by {
        assert(format == single_spec() || format == double_spec());
    }
    lemma_rounds_to_nearest(frac, top, num, den);
    assert(rounds_to(frac, top, got, num, den));
    let u = units(frac, got);
    let v = units(frac, other);
    let n = num as int;
    if other > got {
        lemma_next(frac, got);
        let up = units(frac, got + 1);
        if got + 1 < other {
            lemma_units_increase(frac, got + 1, other);
        }
        assert((u + up) * den == u * den + up * den) by (nonlinear_arith);
        assert(up * den <= v * den) by (nonlinear_arith)
            requires
                up <= v,
                den > 0,
        ;
        assert(u * den < up * den) by (nonlinear_arith)
            requires
                u < up,
                den > 0,
        ;
    } else if other < got {
        let down = units(frac, (got - 1) as nat);
        lemma_next(frac, (got - 1) as nat);
        if other + 1 < got {
            lemma_units_increase(frac, other, (got - 1) as nat);
        }
        assert(rounds_above(frac, (got - 1) as nat, num, den));
        assert((down + u) * den == down * den + u * den) by (nonlinear_arith);
        assert(v * den <= down * den) by (nonlinear_arith)
            requires
                v <= down,
                den > 0,
        ;
        assert(down * den < u * den) by (nonlinear_arith)
            requires
                down < u,
                den > 0,
        ;
    }
}

/// Numbers are ordered by what they are worth.
pub proof fn order_is_by_value(a: Double, b: Double, x: Single, y: Single)
    requires
        a.finite() && b.finite(),
        x.finite() && y.finite(),
    ensures
        a.below(b) <==> a.value() < b.value(),
        x.below(y) <==> x.value() < y.value(),
{
}

} // verus!
