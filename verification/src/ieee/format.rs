//! What a bit pattern is worth, and which one an exact value rounds to.
//!
//! A format is given by the width of its fraction field. Its magnitudes, read as
//! integers, are in the order of the values that they stand for, and every finite
//! value is a whole number of the least positive one: those two facts carry all
//! that follows.
use vstd::arithmetic::div_mod::lemma_fundamental_div_mod_converse;
use vstd::arithmetic::power2::{lemma_pow2_pos, lemma_pow2_unfold, pow2};
use vstd::prelude::*;

verus! {

/// The exponent step of a magnitude: its unit in the last place is two to this power.
pub open spec fn step_of(frac: nat, mag: nat) -> nat {
    if mag / pow2(frac) == 0 {
        0
    } else {
        (mag / pow2(frac) - 1) as nat
    }
}

/// The significand of a magnitude, with its leading bit where it has one.
pub open spec fn significand_of(frac: nat, mag: nat) -> nat {
    (mag - step_of(frac, mag) * pow2(frac)) as nat
}

/// The value of a magnitude, counted in the format's least positive value.
pub open spec fn units(frac: nat, mag: nat) -> nat {
    significand_of(frac, mag) * pow2(step_of(frac, mag))
}

/// Whether the exact value `num / den` lies above the middle between `mag` and its
/// successor, or on it where `mag` is odd: it then rounds to something above `mag`.
pub open spec fn rounds_above(frac: nat, mag: nat, num: nat, den: nat) -> bool {
    let middle = (units(frac, mag) + units(frac, mag + 1)) * den;
    2 * num > middle || (2 * num == middle && mag % 2 == 1)
}

/// Round to nearest, ties to even: `mag` is the magnitude for the exact value
/// `num / den`, both counted in the least positive value. `top` is infinity, which
/// takes everything from the middle of its last gap on.
pub open spec fn rounds_to(frac: nat, top: nat, mag: nat, num: nat, den: nat) -> bool {
    &&& mag <= top
    &&& mag > 0 ==> rounds_above(frac, (mag - 1) as nat, num, den)
    &&& mag < top ==> !rounds_above(frac, mag, num, den)
}

/// The magnitude that `num / den` rounds to.
pub open spec fn nearest(frac: nat, top: nat, num: nat, den: nat) -> nat {
    choose|mag: nat| rounds_to(frac, top, mag, num, den)
}

/// A significand and a step make up the magnitude that has them.
pub proof fn lemma_compose(frac: nat, step: nat, sig: nat)
    requires
        step == 0 || pow2(frac) <= sig,
        sig <= 2 * pow2(frac),
    ensures
        units(frac, step * pow2(frac) + sig) == sig * pow2(step),
        sig < 2 * pow2(frac) ==> step_of(frac, step * pow2(frac) + sig) == step,
        sig < 2 * pow2(frac) ==> significand_of(frac, step * pow2(frac) + sig) == sig,
{
    let p = pow2(frac);
    lemma_pow2_pos(frac);
    let mag: nat = step * p + sig;
    if sig < p {
        lemma_fundamental_div_mod_converse(mag as int, p as int, 0, sig as int);
    } else if sig < 2 * p {
        assert((step + 1) * p + (sig - p) == mag) by (nonlinear_arith)
            requires
                mag == step * p + sig,
        ;
        lemma_fundamental_div_mod_converse(mag as int, p as int, step as int + 1, sig - p);
    } else {
        assert((step + 2) * p == mag) by (nonlinear_arith)
            requires
                mag == step * p + sig,
                sig == 2 * p,
        ;
        lemma_fundamental_div_mod_converse(mag as int, p as int, step as int + 2, 0);
        lemma_pow2_unfold(step + 1);
        let up = pow2(step + 1);
        let low = pow2(step);
        assert(mag - (step + 1) * p == p) by (nonlinear_arith)
            requires
                mag == step * p + sig,
                sig == 2 * p,
        ;
        assert(p * up == sig * low) by (nonlinear_arith)
            requires
                up == 2 * low,
                sig == 2 * p,
        ;
    }
}

/// Every magnitude is made up of its significand and its step.
pub proof fn lemma_decompose(frac: nat, mag: nat)
    ensures
        mag == step_of(frac, mag) * pow2(frac) + significand_of(frac, mag),
        significand_of(frac, mag) < 2 * pow2(frac),
        step_of(frac, mag) == 0 || pow2(frac) <= significand_of(frac, mag),
{
    let p = pow2(frac);
    lemma_pow2_pos(frac);
    let e = mag / p;
    vstd::arithmetic::div_mod::lemma_fundamental_div_mod(mag as int, p as int);
    assert(p * e == e * p) by (nonlinear_arith);
    if e > 0 {
        assert((e - 1) * p + p == e * p) by (nonlinear_arith);
    }
}

/// The gap above a magnitude is one unit in its last place.
pub proof fn lemma_next(frac: nat, mag: nat)
    ensures
        units(frac, mag + 1) == units(frac, mag) + pow2(step_of(frac, mag)),
        units(frac, mag) < units(frac, mag + 1),
{
    lemma_decompose(frac, mag);
    let q = step_of(frac, mag);
    let s = significand_of(frac, mag);
    lemma_compose(frac, q, s + 1);
    assert(mag + 1 == q * pow2(frac) + (s + 1));
    let low = pow2(q);
    assert((s + 1) * low == s * low + low) by (nonlinear_arith);
    lemma_pow2_pos(q);
}

/// Magnitudes are in the order of their values.
pub proof fn lemma_units_increase(frac: nat, a: nat, b: nat)
    requires
        a < b,
    ensures
        units(frac, a) < units(frac, b),
    decreases b - a,
{
    lemma_next(frac, a);
    if a + 1 < b {
        lemma_units_increase(frac, a + 1, b);
    }
}

/// Zero is worth nothing.
pub proof fn lemma_units_zero(frac: nat)
    ensures
        units(frac, 0) == 0,
{
    lemma_pow2_pos(frac);
    lemma_compose(frac, 0, 0);
    assert(0 * pow2(frac) == 0) by (nonlinear_arith);
    assert(0 * pow2(0) == 0) by (nonlinear_arith);
}

/// A value between two neighbours rounds to the one that the middle assigns it to.
pub proof fn lemma_round_between(frac: nat, top: nat, low: nat, num: nat, den: nat)
    requires
        den > 0,
        units(frac, low) * den <= num,
        num < units(frac, low + 1) * den,
    ensures
        low >= top ==> rounds_to(frac, top, top, num, den),
        low < top && rounds_above(frac, low, num, den) ==> rounds_to(
            frac,
            top,
            low + 1,
            num,
            den,
        ),
        low < top && !rounds_above(frac, low, num, den) ==> rounds_to(frac, top, low, num, den),
{
    // Every middle below `low` lies below the value.
    assert forall|m: nat| m < low implies rounds_above(frac, m, num, den) by {
        lemma_next(frac, m);
        if m + 1 < low {
            lemma_units_increase(frac, m + 1, low);
        }
        let a = units(frac, m);
        let b = units(frac, m + 1);
        let c = units(frac, low);
        assert(2 * num > (a + b) * den) by (nonlinear_arith)
            requires
                a < b,
                b <= c,
                c * den <= num,
                den > 0,
        ;
    }
    // The middle above `low + 1` lies above it.
    lemma_next(frac, low + 1);
    let a = units(frac, low + 1);
    let b = units(frac, low + 2);
    assert(2 * num < (a + b) * den) by (nonlinear_arith)
        requires
            a < b,
            num < a * den,
            den > 0,
    ;
}

/// A value that a magnitude has exactly rounds to it.
pub proof fn lemma_round_exact(frac: nat, top: nat, mag: nat, num: nat, den: nat)
    requires
        den > 0,
        mag <= top,
        units(frac, mag) * den == num,
    ensures
        rounds_to(frac, top, mag, num, den),
{
    lemma_next(frac, mag);
    let a = units(frac, mag);
    let b = units(frac, mag + 1);
    assert(num < b * den) by (nonlinear_arith)
        requires
            a < b,
            a * den == num,
            den > 0,
    ;
    lemma_round_between(frac, top, mag, num, den);
    assert(!rounds_above(frac, mag, num, den)) by {
        assert(2 * num < (a + b) * den) by (nonlinear_arith)
            requires
                a < b,
                a * den == num,
                den > 0,
        ;
    }
}

/// What lies above a middle lies above every middle below it.
pub proof fn lemma_rounds_above_down(frac: nat, low: nat, high: nat, num: nat, den: nat)
    requires
        low < high,
        den > 0,
        rounds_above(frac, high, num, den),
    ensures
        rounds_above(frac, low, num, den),
{
    lemma_units_increase(frac, low, high);
    lemma_next(frac, high);
    lemma_units_increase(frac, low + 1, high + 1);
    let a = units(frac, low) + units(frac, low + 1);
    let b = units(frac, high) + units(frac, high + 1);
    assert(a * den < b * den) by (nonlinear_arith)
        requires
            a < b,
            den > 0,
    ;
}

/// No value rounds to two magnitudes.
pub proof fn lemma_rounds_to_unique(frac: nat, top: nat, a: nat, b: nat, num: nat, den: nat)
    requires
        den > 0,
        rounds_to(frac, top, a, num, den),
        rounds_to(frac, top, b, num, den),
    ensures
        a == b,
{
    if a < b {
        if a + 1 < b {
            lemma_rounds_above_down(frac, a, (b - 1) as nat, num, den);
        }
    } else if b < a {
        if b + 1 < a {
            lemma_rounds_above_down(frac, b, (a - 1) as nat, num, den);
        }
    }
}

/// The magnitude that a value rounds to is its nearest one.
pub proof fn lemma_nearest(frac: nat, top: nat, mag: nat, num: nat, den: nat)
    requires
        den > 0,
        rounds_to(frac, top, mag, num, den),
    ensures
        nearest(frac, top, num, den) == mag,
{
    lemma_rounds_to_unique(frac, top, mag, nearest(frac, top, num, den), num, den);
}

/// A larger value never rounds to less.
pub proof fn lemma_rounding_monotone(
    frac: nat,
    top: nat,
    a: nat,
    num_a: nat,
    b: nat,
    num_b: nat,
    den: nat,
)
    requires
        den > 0,
        num_a <= num_b,
        rounds_to(frac, top, a, num_a, den),
        rounds_to(frac, top, b, num_b, den),
    ensures
        a <= b,
{
    if b < a {
        assert(rounds_above(frac, (a - 1) as nat, num_b, den));
        if b + 1 < a {
            lemma_rounds_above_down(frac, b, (a - 1) as nat, num_b, den);
        }
    }
}

} // verus!
