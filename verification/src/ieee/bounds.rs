//! How large a rounded value can be.
use crate::ieee::convert::widened;
use crate::ieee::datum::rounded;
use crate::ieee::format::{
    lemma_compose, lemma_decompose, lemma_nearest, lemma_next, lemma_round_exact,
    lemma_rounding_monotone, lemma_rounds_above_down, lemma_units_increase, lemma_units_zero,
    nearest, rounds_above,
    rounds_to, significand_of, step_of, units,
};
use crate::ieee::number::{lemma_bounds, Double, Single};
use crate::ieee::round::{double_spec, single_spec, Format};
use vstd::arithmetic::power2::{
    lemma2_to64, lemma2_to64_rest, lemma_pow2_adds, lemma_pow2_pos, lemma_pow2_unfold, pow2,
};
use vstd::prelude::*;

verus! {

/// From `low` on there is a magnitude that the value rounds to.
proof fn lemma_rounding_from(frac: nat, top: nat, low: nat, num: nat, den: nat)
    requires
        low <= top,
        low > 0 ==> rounds_above(frac, (low - 1) as nat, num, den),
    ensures
        exists|mag: nat| rounds_to(frac, top, mag, num, den),
    decreases top - low,
{
    if low < top && rounds_above(frac, low, num, den) {
        lemma_rounding_from(frac, top, low + 1, num, den);
    } else {
        assert(rounds_to(frac, top, low, num, den));
    }
}

/// Every value rounds to its nearest magnitude.
pub proof fn lemma_rounds_to_nearest(frac: nat, top: nat, num: nat, den: nat)
    ensures
        rounds_to(frac, top, nearest(frac, top, num, den), num, den),
{
    lemma_rounding_from(frac, top, 0, num, den);
}

/// The magnitude of a power of two.
pub open spec fn power_magnitude(exponent: nat) -> nat {
    (exponent - 51) as nat * pow2(52)
}

/// A power of two is a number of double precision.
pub proof fn lemma_power_magnitude(exponent: nat)
    requires
        52 <= exponent < 2098,
    ensures
        power_magnitude(exponent) < double_spec().top_spec(),
        units(52, power_magnitude(exponent)) == pow2(exponent),
{
    let step = (exponent - 52) as nat;
    let mag = power_magnitude(exponent);
    let p = pow2(52);
    let top = double_spec().top_spec();
    lemma_bounds();
    lemma2_to64();
    lemma2_to64_rest();
    lemma_compose(52, step, p);
    lemma_pow2_adds(52, step);
    assert(step * p + p == (step + 1) as nat * p) by (nonlinear_arith);
    assert(mag == step * p + p);
    assert(mag < top) by (nonlinear_arith)
        requires
            mag == step * p + p,
            step <= 2045,
            top == 2047 * p,
            p > 0,
    ;
}

/// What is at most a power of two still is once it is rounded.
pub proof fn lemma_rounded_at_most(num: nat, den: nat, exponent: nat)
    requires
        den > 0,
        52 <= exponent < 2098,
        num <= pow2(exponent) * den,
    ensures
        rounded(double_spec(), num, den) < double_spec().top_spec(),
        units(52, rounded(double_spec(), num, den) as nat) <= pow2(exponent),
{
    let top = double_spec().top_spec();
    let mag = power_magnitude(exponent);
    lemma_bounds();
    lemma_power_magnitude(exponent);
    lemma_round_exact(52, top, mag, pow2(exponent) * den, den);
    lemma_rounds_to_nearest(52, top, num, den);
    let got = nearest(52, top, num, den);
    lemma_rounding_monotone(52, top, got, num, mag, pow2(exponent) * den, den);
    if got < mag {
        lemma_units_increase(52, got, mag);
    }
}

/// A whole number of 64 bits is finite, at most two to that power, and above zero where
/// the number is.
pub proof fn lemma_whole(value: u64)
    ensures
        Double::whole_spec(value).finite(),
        !Double::whole_spec(value).datum().negative,
        Double::whole_spec(value).value() <= pow2(1138),
        Double::whole_spec(value).value() >= 0,
        value > 0 ==> Double::whole_spec(value).value() >= pow2(1074),
        value == 0 ==> Double::whole_spec(value).value() == 0,
{
    let u = pow2(1074);
    let num = value as nat * u;
    lemma_bounds();
    lemma2_to64();
    lemma2_to64_rest();
    lemma_pow2_pos(1074);
    lemma_pow2_adds(64, 1074);
    assert(value * u <= 0x1_0000_0000_0000_0000 * u) by (nonlinear_arith)
        requires
            value <= 0xffff_ffff_ffff_ffff,
    ;
    assert(pow2(64) == 0x1_0000_0000_0000_0000);
    lemma_rounded_at_most(num, 1, 1138);
    let top = double_spec().top_spec();
    lemma_rounds_to_nearest(52, top, num, 1);
    let mag = nearest(52, top, num, 1);
    assert(mag <= top);
    if value > 0 {
        crate::ieee::constants::lemma_ones();
        lemma_round_exact(52, top, 0x3ff0_0000_0000_0000, u, 1);
        assert(u <= num) by (nonlinear_arith)
            requires
                num == value * u,
                value >= 1,
        ;
        lemma_rounding_monotone(52, top, 0x3ff0_0000_0000_0000, u, mag, num, 1);
        if 0x3ff0_0000_0000_0000 < mag {
            lemma_units_increase(52, 0x3ff0_0000_0000_0000, mag);
        }
    } else {
        lemma_units_zero(52);
        assert(num == 0) by (nonlinear_arith)
            requires
                num == value * u,
                value == 0,
        ;
        lemma_round_exact(52, top, 0, 0, 1);
        lemma_nearest(52, top, 0, 0, 1);
    }
}

/// A significand at any step is the value of some magnitude.
proof fn lemma_representable(sig: nat, step: nat)
    requires
        sig < 2 * pow2(52),
        step <= 2045,
    ensures
        exists|mag: nat| mag < double_spec().top_spec() && units(52, mag) == sig * pow2(step),
    decreases step,
{
    let p = pow2(52);
    lemma_bounds();
    lemma2_to64();
    lemma2_to64_rest();
    if step == 0 || sig >= p {
        let mag = step * p + sig;
        lemma_compose(52, step, sig);
        assert(mag < 2047 * p) by (nonlinear_arith)
            requires
                mag == step * p + sig,
                step <= 2045,
                sig < 2 * p,
        ;
        assert(units(52, mag) == sig * pow2(step));
    } else {
        lemma_representable(2 * sig, (step - 1) as nat);
        lemma_pow2_unfold(step);
        let h = pow2((step - 1) as nat);
        assert((2 * sig) * h == sig * (2 * h)) by (nonlinear_arith);
    }
}

/// A value that is representable is not changed by rounding.
pub proof fn lemma_rounded_exact(sig: nat, step: nat)
    requires
        sig < 2 * pow2(52),
        step <= 2045,
    ensures
        rounded(double_spec(), sig * pow2(step), 1) < double_spec().top_spec(),
        units(52, rounded(double_spec(), sig * pow2(step), 1) as nat) == sig * pow2(step),
{
    lemma_representable(sig, step);
    let num = sig * pow2(step);
    let top = double_spec().top_spec();
    let mag = choose|mag: nat| mag < double_spec().top_spec() && units(52, mag) == num;
    lemma_bounds();
    lemma_round_exact(52, top, mag, num, 1);
    lemma_nearest(52, top, mag, num, 1);
}

/// The part of a finite number behind the point is a number of the same precision.
pub proof fn lemma_fraction_exact(mag: nat)
    requires
        mag < double_spec().top_spec(),
    ensures
        rounded(double_spec(), units(52, mag) % pow2(1074), 1) < double_spec().top_spec(),
        units(52, rounded(double_spec(), units(52, mag) % pow2(1074), 1) as nat) == units(52, mag)
            % pow2(1074),
{
    let step = step_of(52, mag);
    let sig = significand_of(52, mag);
    let one = pow2(1074);
    lemma_decompose(52, mag);
    lemma_bounds();
    lemma2_to64();
    lemma2_to64_rest();
    lemma_pow2_pos(1074);
    let a = pow2(step) as int;
    let s = sig as int;
    if step >= 1074 {
        let rest = (step - 1074) as nat;
        lemma_pow2_adds(rest, 1074);
        let b = pow2(rest) as int;
        assert(s * (b * one) == (s * b) * one) by (nonlinear_arith);
        vstd::arithmetic::div_mod::lemma_mod_multiples_basic(s * b, one as int);
        assert(0 * pow2(0) == 0);
        lemma_rounded_exact(0, 0);
    } else {
        let below = (1074 - step) as nat;
        lemma_pow2_pos(below);
        lemma_pow2_pos(step);
        lemma_pow2_adds(below, step);
        let m = pow2(below) as int;
        vstd::arithmetic::div_mod::lemma_truncate_middle(s, a, m);
        assert(a * s == s * a) by (nonlinear_arith);
        assert(a * m == m * a) by (nonlinear_arith);
        assert(a * (s % m) == (s % m) * a) by (nonlinear_arith);
        vstd::arithmetic::div_mod::lemma_mod_decreases(sig, pow2(below));
        lemma_rounded_exact((s % m) as nat, step);
    }
}

/// Double precision holds every number of single precision.
pub proof fn lemma_widened(x: Single)
    requires
        x.finite(),
    ensures
        widened(x).finite(),
        widened(x).value() == x.value() * pow2(925),
        widened(x).datum().negative == x.datum().negative,
{
    let mag = x.datum().mag as nat;
    let step = step_of(23, mag);
    let sig = significand_of(23, mag);
    lemma_bounds();
    lemma2_to64();
    lemma2_to64_rest();
    lemma_decompose(23, mag);
    assert(step <= 254) by (nonlinear_arith)
        requires
            mag == step * pow2(23) + sig,
            mag < 0x7f80_0000,
            pow2(23) == 0x80_0000,
            sig >= 0,
    ;
    lemma_pow2_adds(step, 925);
    let a = pow2(step);
    let b = pow2(925);
    assert((sig * a) * b == sig * (a * b)) by (nonlinear_arith);
    lemma_rounded_exact(sig, step + 925);
    let u = units(23, mag) as int;
    let w = b as int;
    assert((-u) * w == -(u * w)) by (nonlinear_arith);
}

/// Rounding does not go beyond a number of the format.
pub proof fn lemma_rounded_between(format: Format, num: nat, den: nat, mag: nat)
    requires
        format.wf(),
        den > 0,
        mag < format.top_spec(),
    ensures
        num <= units(format.frac as nat, mag) * den ==> rounded(format, num, den) <= mag,
        units(format.frac as nat, mag) * den <= num ==> mag <= rounded(format, num, den),
        rounded(format, num, den) <= format.top_spec(),
{
    let frac = format.frac as nat;
    let top = format.top_spec();
    let limit = units(frac, mag) * den;
    lemma_bounds();
    lemma2_to64();
    lemma2_to64_rest();
    assert(top <= 0x7ff0_0000_0000_0000) by {
        assert(format == single_spec() || format == double_spec());
    }
    lemma_round_exact(frac, top, mag, limit, den);
    lemma_rounds_to_nearest(frac, top, num, den);
    let got = nearest(frac, top, num, den);
    if num <= limit {
        lemma_rounding_monotone(frac, top, got, num, mag, limit, den);
    }
    if limit <= num {
        lemma_rounding_monotone(frac, top, mag, limit, got, num, den);
    }
}

/// A number of the format is its own nearest one.
pub proof fn lemma_rounded_same(format: Format, mag: nat, num: nat, den: nat)
    requires
        format.wf(),
        den > 0,
        mag < format.top_spec(),
        num == units(format.frac as nat, mag) * den,
    ensures
        rounded(format, num, den) == mag,
{
    lemma_rounded_between(format, num, den, mag);
}

/// A significand at any step is the value of some magnitude of single precision.
pub proof fn lemma_single_representable(sig: nat, step: nat)
    requires
        sig < 2 * pow2(23),
        step <= 253,
    ensures
        exists|mag: nat| mag < single_spec().top_spec() && units(23, mag) == sig * pow2(step),
    decreases step,
{
    let p = pow2(23);
    lemma_bounds();
    lemma2_to64();
    lemma2_to64_rest();
    if step == 0 || sig >= p {
        let mag = step * p + sig;
        lemma_compose(23, step, sig);
        assert(mag < 255 * p) by (nonlinear_arith)
            requires
                mag == step * p + sig,
                step <= 253,
                sig < 2 * p,
        ;
        assert(units(23, mag) == sig * pow2(step));
    } else {
        lemma_single_representable(2 * sig, (step - 1) as nat);
        lemma_pow2_unfold(step);
        let h = pow2((step - 1) as nat);
        assert((2 * sig) * h == sig * (2 * h)) by (nonlinear_arith);
    }
}

/// A value that single precision holds is not passed by rounding.
pub proof fn lemma_single_rounding_stops(num: nat, den: nat, sig: nat, step: nat)
    requires
        den > 0,
        sig < 2 * pow2(23),
        step <= 253,
    ensures
        num <= sig * pow2(step) * den ==> units(
            23,
            rounded(single_spec(), num, den) as nat,
        ) <= sig * pow2(step) && rounded(single_spec(), num, den) < single_spec().top_spec(),
        sig * pow2(step) * den <= num ==> sig * pow2(step) <= units(
            23,
            rounded(single_spec(), num, den) as nat,
        ),
{
    lemma_single_representable(sig, step);
    let mag = choose|mag: nat|
        mag < single_spec().top_spec() && units(23, mag) == sig * pow2(step);
    lemma_bounds();
    lemma_rounded_between(single_spec(), num, den, mag);
    let got = rounded(single_spec(), num, den) as nat;
    if got < mag {
        lemma_units_increase(23, got, mag);
    }
    if mag < got {
        lemma_units_increase(23, mag, got);
    }
}

/// A rounded value is off by at most half a unit in its last place: never more than its
/// share by the bits of the format and one of the least positive values.
pub proof fn lemma_rounding_error_of(format: Format, num: nat, den: nat)
    requires
        format.wf(),
        rounded(format, num, den) < format.top_spec(),
    ensures
        ({
            let frac = format.frac as nat;
            let got = units(frac, rounded(format, num, den) as nat);
            &&& pow2(frac + 1) * (got * den - num) <= (got + pow2(frac + 1)) * den
            &&& pow2(frac + 1) * (num - got * den) <= (got + pow2(frac + 1)) * den
        }),
{
    let frac = format.frac as nat;
    let top = format.top_spec();
    let mag = nearest(frac, top, num, den);
    lemma_bounds();
    lemma2_to64();
    lemma2_to64_rest();
    assert(top <= 0x7ff0_0000_0000_0000) by {
        assert(format == single_spec() || format == double_spec());
    }
    lemma_rounds_to_nearest(frac, top, num, den);
    assert(mag <= top);
    assert(rounded(format, num, den) == mag);
    let u = units(frac, mag);
    let step = pow2(step_of(frac, mag));
    let p = pow2(frac);
    lemma_decompose(frac, mag);
    lemma_next(frac, mag);
    let sig = significand_of(frac, mag);
    assert(p * step <= u + p) by (nonlinear_arith)
        requires
            u == sig * step,
            p <= sig || step == 1,
            p >= 0,
            step >= 0,
            sig >= 0,
    ;
    // Above, the middle is half a unit away.
    assert((u + (u + step)) * den == 2 * (u * den) + step * den) by (nonlinear_arith);
    assert(2 * num <= 2 * (u * den) + step * den);
    // Below, it is no further.
    if mag > 0 {
        let less = (mag - 1) as nat;
        lemma_next(frac, less);
        lemma_decompose(frac, less);
        assert(step_of(frac, less) <= step_of(frac, mag)) by {
            vstd::arithmetic::div_mod::lemma_div_is_ordered(less as int, mag as int, p as int);
        }
        let short = pow2(step_of(frac, less));
        if step_of(frac, less) < step_of(frac, mag) {
            vstd::arithmetic::power2::lemma_pow2_strictly_increases(
                step_of(frac, less),
                step_of(frac, mag),
            );
        }
        assert(short <= step);
        assert((u - short + u) * den >= 2 * (u * den) - step * den) by (nonlinear_arith)
            requires
                short <= step,
                den >= 0,
        ;
        assert(2 * num >= 2 * (u * den) - step * den);
    } else {
        lemma_units_zero(frac);
        assert(u * den == 0) by (nonlinear_arith)
            requires
                u == 0,
        ;
        assert(step * den >= 0) by (nonlinear_arith);
    }
    let off = u * den - num;
    assert(pow2(frac + 1) == 2 * p) by {
        lemma_pow2_unfold(frac + 1);
    }
    assert((p * step) * den <= (u + p) * den) by (nonlinear_arith)
        requires
            p * step <= u + p,
            den >= 0,
    ;
    assert((2 * p) * off <= (p * step) * den) by (nonlinear_arith)
        requires
            2 * off <= step * den,
            p >= 0,
    ;
    assert((2 * p) * (-off) <= (p * step) * den) by (nonlinear_arith)
        requires
            2 * (-off) <= step * den,
            p >= 0,
    ;
    assert((u + p) * den <= (u + 2 * p) * den) by (nonlinear_arith)
        requires
            den >= 0,
            p >= 0,
    ;
}

/// A rounded value is off by at most half a unit in its last place: never more than its
/// `2^53`rd part and one of the least positive values.
pub proof fn lemma_rounding_error(num: nat, den: nat)
    requires
        rounded(double_spec(), num, den) < double_spec().top_spec(),
    ensures
        ({
            let got = units(52, rounded(double_spec(), num, den) as nat);
            &&& pow2(53) * (got * den - num) <= (got + pow2(53)) * den
            &&& pow2(53) * (num - got * den) <= (got + pow2(53)) * den
        }),
{
    lemma_rounding_error_of(double_spec(), num, den);
}

/// Rounding depends on the ratio alone.
pub proof fn lemma_rounded_ratio(format: Format, num: nat, den: nat, common: nat)
    requires
        format.wf(),
        den > 0,
        common > 0,
    ensures
        rounded(format, num * common, den * common) == rounded(format, num, den),
{
    let frac = format.frac as nat;
    let top = format.top_spec();
    let mag = nearest(frac, top, num, den);
    lemma_rounds_to_nearest(frac, top, num, den);
    assert forall|at: nat|
        rounds_above(frac, at, num * common, den * common) == #[trigger] rounds_above(
            frac,
            at,
            num,
            den,
        ) by {
        let sum = units(frac, at) + units(frac, at + 1);
        let g = common;
        assert(sum * (den * g) == (sum * den) * g) by (nonlinear_arith);
        assert(2 * (num * g) == (2 * num) * g) by (nonlinear_arith);
        let (a, b) = (2 * num, sum * den);
        assert((a * g > b * g) == (a > b)) by (nonlinear_arith)
            requires
                g > 0,
        ;
        assert((a * g == b * g) == (a == b)) by (nonlinear_arith)
            requires
                g > 0,
        ;
    }
    if mag > 0 {
        assert(rounds_above(frac, (mag - 1) as nat, num, den));
    }
    if mag < top {
        assert(!rounds_above(frac, mag, num, den));
    }
    assert(den * common > 0) by (nonlinear_arith)
        requires
            den > 0,
            common > 0,
    ;
    lemma_nearest(frac, top, mag, num * common, den * common);
}

/// Twice the value rounds to twice the number, above the least normal number.
pub proof fn lemma_rounded_twice(num: nat, den: nat)
    requires
        den > 0,
        pow2(53) * den <= num,
        rounded(double_spec(), 2 * num, den) < double_spec().top_spec(),
    ensures
        rounded(double_spec(), num, den) < double_spec().top_spec(),
        units(52, rounded(double_spec(), 2 * num, den) as nat) == 2 * units(
            52,
            rounded(double_spec(), num, den) as nat,
        ),
{
    let top = double_spec().top_spec();
    let p = pow2(52);
    let mag = nearest(52, top, num, den);
    let got = nearest(52, top, 2 * num, den);
    lemma_bounds();
    lemma2_to64();
    lemma2_to64_rest();
    lemma_pow2_unfold(53);
    lemma_rounds_to_nearest(52, top, num, den);
    lemma_rounds_to_nearest(52, top, 2 * num, den);
    lemma_rounding_monotone(52, top, mag, num, got, 2 * num, den);
    // Above the least normal number.
    lemma_compose(52, 0, p + 1);
    assert(pow2(0) == 1);
    assert(0 * p + (p + 1) == p + 1);
    assert(units(52, p + 1) * den <= num) by (nonlinear_arith)
        requires
            units(52, p + 1) == p + 1,
            p + 1 <= 2 * p,
            (2 * p) * den <= num,
    ;
    lemma_rounded_between(double_spec(), num, den, p + 1);
    assert(mag >= p + 1);
    let up = mag + p;
    lemma_twice(mag);
    lemma_twice((mag - 1) as nat);
    lemma_twice(mag + 1);
    assert(up % 2 == mag % 2);
    assert((up - 1) as nat % 2 == (mag - 1) as nat % 2);
    assert forall|at: nat| at >= p implies #[trigger] rounds_above(52, at, num, den)
        == rounds_above(52, at + p, 2 * num, den) by {
        lemma_twice(at);
        lemma_twice(at + 1);
        assert(at + 1 + p == at + p + 1);
        let sum = units(52, at) + units(52, at + 1);
        assert((2 * sum) * den == 2 * (sum * den)) by (nonlinear_arith);
    }
    assert(rounds_above(52, (mag - 1) as nat, num, den));
    assert((mag - 1) as nat + p == (up - 1) as nat);
    assert(rounds_above(52, (up - 1) as nat, 2 * num, den));
    if up <= top {
        if up < top {
            assert(!rounds_above(52, mag, num, den));
        }
        lemma_nearest(52, top, up, 2 * num, den);
    } else {
        lemma_rounds_above_down(52, got, (up - 1) as nat, 2 * num, den);
        assert(false);
    }
}

/// A magnitude one step further is worth twice as much.
proof fn lemma_twice(mag: nat)
    requires
        mag >= pow2(52),
    ensures
        units(52, mag + pow2(52)) == 2 * units(52, mag),
        (mag + pow2(52)) % 2 == mag % 2,
{
    let p = pow2(52);
    lemma2_to64();
    lemma2_to64_rest();
    lemma_decompose(52, mag);
    let step = step_of(52, mag);
    let sig = significand_of(52, mag);
    assert(p <= sig) by {
        if step == 0 {
            assert(0 * p == 0);
        }
    }
    assert((step + 1) * p + sig == mag + p) by (nonlinear_arith)
        requires
            mag == step * p + sig,
    ;
    lemma_compose(52, step + 1, sig);
    lemma_pow2_unfold(step + 1);
    let h = pow2(step);
    assert(sig * (2 * h) == 2 * (sig * h)) by (nonlinear_arith);
}

} // verus!
