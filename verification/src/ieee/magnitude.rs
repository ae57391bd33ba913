//! Arithmetic on finite magnitudes: each result is the magnitude nearest to the
//! exact one.
use crate::ieee::format::{
    lemma_decompose, lemma_units_increase, rounds_to, significand_of, step_of, units,
};
use crate::ieee::round::{bit_length, power_of_two, round_scaled, Format};
use vstd::arithmetic::power2::{
    lemma2_to64, lemma2_to64_rest, lemma_pow2_adds, lemma_pow2_pos, lemma_pow2_strictly_increases,
    lemma_pow2_unfold, pow2,
};
use vstd::prelude::*;

verus! {

/// Splits a magnitude into its significand and its step.
pub(crate) fn split(format: Format, mag: u64) -> (parts: (u64, u32))
    requires
        format.wf(),
        mag < format.top_spec(),
    ensures
        parts.0 == significand_of(format.frac as nat, mag as nat),
        parts.1 == step_of(format.frac as nat, mag as nat),
        parts.0 < 2 * pow2(format.frac as nat),
        parts.0 < 0x20_0000_0000_0000,
        parts.1 < format.steps,
        parts.1 > 0 ==> parts.0 >= pow2(format.frac as nat),
        units(format.frac as nat, mag as nat) == parts.0 * pow2(parts.1 as nat),
{
    let hidden: u64 = format.hidden();
    let field: u64 = mag / hidden;
    proof {
        lemma_decompose(format.frac as nat, mag as nat);
        let h = hidden as int;
        let m = mag as int;
        let s = format.steps as int;
        assert(m / h < s) by (nonlinear_arith)
            requires
                m < s * h,
                h > 0,
                m >= 0,
        ;
    }
    let step: u64 = if field == 0 {
        0
    } else {
        field - 1
    };
    proof {
        assert(step * hidden <= mag) by (nonlinear_arith)
            requires
                step <= field,
                field == mag / hidden,
                hidden > 0,
        ;
    }
    (mag - step * hidden, step as u32)
}

/// A larger magnitude has no smaller step.
proof fn lemma_step_monotone(frac: nat, a: nat, b: nat)
    requires
        a <= b,
    ensures
        step_of(frac, a) <= step_of(frac, b),
{
    lemma_pow2_pos(frac);
    vstd::arithmetic::div_mod::lemma_div_is_ordered(a as int, b as int, pow2(frac) as int);
}

/// The product of two finite magnitudes.
pub(crate) fn multiply(format: Format, a: u64, b: u64) -> (mag: u64)
    requires
        format.wf(),
        a < format.top_spec(),
        b < format.top_spec(),
    ensures
        rounds_to(
            format.frac as nat,
            format.top_spec(),
            mag as nat,
            units(format.frac as nat, a as nat) * units(format.frac as nat, b as nat),
            pow2(format.unit as nat),
        ),
{
    let (sig_a, step_a) = split(format, a);
    let (sig_b, step_b) = split(format, b);
    let ghost x = units(format.frac as nat, a as nat);
    let ghost y = units(format.frac as nat, b as nat);
    proof {
        lemma_pow2_106();
        assert(sig_a as int * sig_b as int <= 0x20_0000_0000_0000 * 0x20_0000_0000_0000)
            by (nonlinear_arith)
            requires
                sig_a < 0x20_0000_0000_0000,
                sig_b < 0x20_0000_0000_0000,
        ;
    }
    let sig: u128 = sig_a as u128 * sig_b as u128;
    proof {
        lemma_pow2_adds(step_a as nat, step_b as nat);
        lemma_pow2_pos(format.unit as nat);
        lemma_pow2_pos(step_a as nat);
        lemma_pow2_pos(step_b as nat);
        let p = pow2(step_a as nat);
        let q = pow2(step_b as nat);
        let u = pow2(format.unit as nat);
        let s = sig_a as int;
        let t = sig_b as int;
        assert((s * t) * ((p * q) * u) == (s * p) * (t * q) * u) by (nonlinear_arith);
        let k = (p * q) * u;
        assert(k > 0) by (nonlinear_arith)
            requires
                k == (p * q) * u,
                p > 0,
                q > 0,
                u > 0,
        ;
        assert((s * t + 1) * k == (s * t) * k + k) by (nonlinear_arith);
    }
    round_scaled(
        format,
        sig,
        step_a + step_b,
        format.unit,
        false,
        Ghost(x * y),
        Ghost(pow2(format.unit as nat)),
    )
}

/// Powers of two beyond a machine word, as far as significands reach.
proof fn lemma_pow2_106()
    ensures
        pow2(53) == 0x20_0000_0000_0000,
        pow2(106) == 0x20_0000_0000_0000 * 0x20_0000_0000_0000,
        pow2(106) < pow2(117) < pow2(118) < pow2(126) < pow2(127),
        pow2(127) == 0x8000_0000_0000_0000_0000_0000_0000_0000,
{
    lemma2_to64();
    lemma2_to64_rest();
    lemma_pow2_adds(53, 53);
    lemma_pow2_adds(64, 63);
    lemma_pow2_strictly_increases(106, 117);
    lemma_pow2_strictly_increases(117, 118);
    lemma_pow2_strictly_increases(118, 126);
    lemma_pow2_strictly_increases(126, 127);
}

/// The quotient of two finite magnitudes, the second not zero.
pub(crate) fn divide(format: Format, a: u64, b: u64) -> (mag: u64)
    requires
        format.wf(),
        a < format.top_spec(),
        0 < b < format.top_spec(),
    ensures
        rounds_to(
            format.frac as nat,
            format.top_spec(),
            mag as nat,
            units(format.frac as nat, a as nat) * pow2(format.unit as nat),
            units(format.frac as nat, b as nat),
        ),
{
    let ghost frac = format.frac as nat;
    let (sig_a, step_a) = split(format, a);
    let (sig_b, step_b) = split(format, b);
    let ghost x = units(frac, a as nat);
    let ghost y = units(frac, b as nat);
    proof {
        crate::ieee::format::lemma_units_zero(frac);
        lemma_units_increase(frac, 0, b as nat);
        lemma_pow2_106();
        lemma2_to64();
        lemma2_to64_rest();
        assert(sig_b > 0) by (nonlinear_arith)
            requires
                sig_b * pow2(step_b as nat) > 0,
        ;
    }
    if sig_a == 0 {
        proof {
            assert(x == 0) by (nonlinear_arith)
                requires
                    x == 0 * pow2(step_a as nat),
            ;
            let u = pow2(format.unit as nat);
            assert(x * u == 0) by (nonlinear_arith)
                requires
                    x == 0,
            ;
            assert(units(frac, 0) * y == 0) by (nonlinear_arith)
                requires
                    units(frac, 0) == 0,
            ;
            crate::ieee::format::lemma_round_exact(frac, format.top_spec(), 0, x * u, y);
        }
        return 0;
    }
    let length: u32 = bit_length(sig_a as u128);
    proof {
        if length > 53 {
            if length > 54 {
                lemma_pow2_strictly_increases(53, (length - 1) as nat);
            }
        }
    }
    let shift: u32 = 118 - length;
    let power: u128 = power_of_two(shift);
    proof {
        lemma_pow2_adds(length as nat, shift as nat);
        lemma_pow2_adds((length - 1) as nat, shift as nat);
        lemma_pow2_pos(shift as nat);
        let w = power as int;
        let hi = pow2(length as nat);
        let lo = pow2((length - 1) as nat);
        let s = sig_a as int;
        assert(s * w < hi * w) by (nonlinear_arith)
            requires
                s < hi,
                w > 0,
        ;
        assert(lo * w <= s * w) by (nonlinear_arith)
            requires
                lo <= s,
                w > 0,
        ;
    }
    let dividend: u128 = sig_a as u128 * power;
    let sig: u128 = dividend / sig_b as u128;
    let rem: u128 = dividend % sig_b as u128;
    let sticky: bool = rem != 0;
    let ghost u = pow2(format.unit as nat);
    let ghost num = x * u;
    proof {
        vstd::arithmetic::div_mod::lemma_fundamental_div_mod(dividend as int, sig_b as int);
        lemma_pow2_pos(format.unit as nat);
        lemma_pow2_pos(step_a as nat);
        lemma_pow2_pos(step_b as nat);
        lemma_pow2_adds(step_a as nat, format.unit as nat);
        lemma_pow2_adds(step_b as nat, shift as nat);
        let p = pow2(step_a as nat);
        let q = pow2(step_b as nat);
        let w = power as int;
        let s = sig_a as int;
        let t = sig_b as int;
        let z = sig as int;
        let r = rem as int;
        let weight = p * u * q;
        assert(weight > 0) by (nonlinear_arith)
            requires
                weight == p * u * q,
                p > 0,
                u > 0,
                q > 0,
        ;
        // The exact value, the quotient and its successor, all over one weight.
        assert(((s * p) * u) * (q * w) == (s * w) * weight) by (nonlinear_arith)
            requires
                weight == p * u * q,
        ;
        assert(z * ((p * u) * (t * q)) == (z * t) * weight) by (nonlinear_arith)
            requires
                weight == p * u * q,
        ;
        assert((z + 1) * ((p * u) * (t * q)) == (z * t + t) * weight) by (nonlinear_arith)
            requires
                weight == p * u * q,
        ;
        assert(t * z == z * t) by (nonlinear_arith);
        assert((z * t) * weight <= (s * w) * weight) by (nonlinear_arith)
            requires
                s * w == z * t + r,
                r >= 0,
                weight > 0,
        ;
        assert((s * w) * weight < (z * t + t) * weight) by (nonlinear_arith)
            requires
                s * w == z * t + r,
                r < t,
                weight > 0,
        ;
        if r > 0 {
            assert((z * t) * weight < (s * w) * weight) by (nonlinear_arith)
                requires
                    s * w == z * t + r,
                    r > 0,
                    weight > 0,
            ;
        }
        assert(z <= z * t) by (nonlinear_arith)
            requires
                z >= 0,
                t >= 1,
        ;
        // The quotient is long enough to round.
        lemma_pow2_adds(64, 53);
        assert(z >= 0x1_0000_0000_0000_0000) by (nonlinear_arith)
            requires
                z * t + t > 0x1_0000_0000_0000_0000 * 0x20_0000_0000_0000,
                t <= 0x20_0000_0000_0000,
                t > 0,
        ;
        assert(2 * pow2(frac) <= 0x20_0000_0000_0000);
    }
    round_scaled(
        format,
        sig,
        step_a + format.unit,
        step_b + shift,
        sticky,
        Ghost(num),
        Ghost(y),
    )
}

/// The sum of two finite magnitudes.
pub(crate) fn increase(format: Format, a: u64, b: u64) -> (mag: u64)
    requires
        format.wf(),
        b <= a < format.top_spec(),
    ensures
        rounds_to(
            format.frac as nat,
            format.top_spec(),
            mag as nat,
            units(format.frac as nat, a as nat) + units(format.frac as nat, b as nat),
            1,
        ),
{
    let ghost frac = format.frac as nat;
    let (sig_a, step_a) = split(format, a);
    let (sig_b, step_b) = split(format, b);
    let ghost x = units(frac, a as nat);
    let ghost y = units(frac, b as nat);
    let ghost p = pow2(step_a as nat);
    let ghost q = pow2(step_b as nat);
    proof {
        lemma_step_monotone(frac, b as nat, a as nat);
        lemma_pow2_106();
        lemma2_to64();
        lemma2_to64_rest();
        lemma_pow2_pos(step_a as nat);
        lemma_pow2_pos(step_b as nat);
    }
    let apart: u32 = step_a - step_b;
    if apart <= 72 {
        let power: u128 = power_of_two(apart);
        proof {
            lemma_pow2_adds(apart as nat, step_b as nat);
            lemma_pow2_adds(53, 72);
            lemma_pow2_unfold(126);
            if apart < 72 {
                lemma_pow2_strictly_increases(apart as nat, 72);
            }
            let w = power as int;
            let s = sig_a as int;
            let t = sig_b as int;
            assert(s * w <= 0x20_0000_0000_0000 * pow2(72)) by (nonlinear_arith)
                requires
                    0 <= s <= 0x20_0000_0000_0000,
                    0 <= w <= pow2(72),
            ;
            assert((s * w + t) * q == s * (w * q) + t * q) by (nonlinear_arith);
            lemma_pow2_strictly_increases(53, 125);
        }
        let sig: u128 = sig_a as u128 * power + sig_b as u128;
        proof {
            assert(sig * (q * 1) == (x + y) * 1);
            assert((sig + 1) * (q * 1) > (x + y) * 1) by (nonlinear_arith)
                requires
                    sig * (q * 1) == (x + y) * 1,
                    q > 0,
            ;
        }
        return round_scaled(format, sig, step_b, 0, false, Ghost(x + y), Ghost(1));
    }
    if sig_b == 0 {
        proof {
            assert(y == 0) by (nonlinear_arith)
                requires
                    y == 0 * q,
            ;
            assert(sig_a * (p * 1) == (x + y) * 1);
            assert((sig_a + 1) * (p * 1) > (x + y) * 1) by (nonlinear_arith)
                requires
                    sig_a * (p * 1) == (x + y) * 1,
                    p > 0,
            ;
            lemma_pow2_strictly_increases(53, 127);
        }
        return round_scaled(format, sig_a as u128, step_a, 0, false, Ghost(x + y), Ghost(1));
    }
    let sig: u128 = sig_a as u128 * 0x10_0000;
    proof {
        lemma_far_apart(sig_a as int, step_a as nat, sig_b as int, step_b as nat);
        let v = pow2((step_a - 20) as nat);
        let s = sig_a as int;
        assert((s * 0x10_0000) * (v * 1) == x) by (nonlinear_arith)
            requires
                x == s * (0x10_0000 * v),
        ;
        assert((s * 0x10_0000 + 1) * (v * 1) == x + v) by (nonlinear_arith)
            requires
                x == s * (0x10_0000 * v),
        ;
        lemma_pow2_unfold(frac + 1);
    }
    round_scaled(format, sig, step_a - 20, 0, true, Ghost(x + y), Ghost(1))
}

/// Digits that are far apart do not meet: the lower ones stay below one unit of the
/// higher ones' twentieth digit further down.
proof fn lemma_far_apart(sig_a: int, step_a: nat, sig_b: int, step_b: nat)
    requires
        step_a >= step_b + 73,
        0 < sig_b < 0x20_0000_0000_0000,
    ensures
        0 < sig_b * pow2(step_b) < pow2((step_a - 20) as nat),
        pow2(step_a) == 0x10_0000 * pow2((step_a - 20) as nat),
{
    lemma2_to64();
    lemma_pow2_106();
    lemma_pow2_adds(20, (step_a - 20) as nat);
    lemma_pow2_adds(53, step_b);
    lemma_pow2_pos(step_b);
    let q = pow2(step_b);
    assert(0 < sig_b * q < 0x20_0000_0000_0000 * q) by (nonlinear_arith)
        requires
            0 < sig_b < 0x20_0000_0000_0000,
            q > 0,
    ;
    if step_b + 53 < step_a - 20 {
        lemma_pow2_strictly_increases(step_b + 53, (step_a - 20) as nat);
    }
}

/// The difference of two finite magnitudes, the second no larger.
pub(crate) fn decrease(format: Format, a: u64, b: u64) -> (mag: u64)
    requires
        format.wf(),
        b <= a < format.top_spec(),
    ensures
        rounds_to(
            format.frac as nat,
            format.top_spec(),
            mag as nat,
            (units(format.frac as nat, a as nat) - units(format.frac as nat, b as nat)) as nat,
            1,
        ),
{
    let ghost frac = format.frac as nat;
    let (sig_a, step_a) = split(format, a);
    let (sig_b, step_b) = split(format, b);
    let ghost x = units(frac, a as nat);
    let ghost y = units(frac, b as nat);
    let ghost p = pow2(step_a as nat);
    let ghost q = pow2(step_b as nat);
    let ghost num = (x - y) as nat;
    proof {
        if b < a {
            lemma_units_increase(frac, b as nat, a as nat);
        }
        lemma_step_monotone(frac, b as nat, a as nat);
        lemma_pow2_106();
        lemma2_to64();
        lemma2_to64_rest();
        lemma_pow2_pos(step_a as nat);
        lemma_pow2_pos(step_b as nat);
    }
    let apart: u32 = step_a - step_b;
    if apart <= 72 {
        let power: u128 = power_of_two(apart);
        proof {
            lemma_pow2_adds(apart as nat, step_b as nat);
            lemma_pow2_adds(53, 72);
            lemma_pow2_unfold(126);
            if apart < 72 {
                lemma_pow2_strictly_increases(apart as nat, 72);
            }
            let w = power as int;
            let s = sig_a as int;
            let t = sig_b as int;
            assert(s * w <= 0x20_0000_0000_0000 * pow2(72)) by (nonlinear_arith)
                requires
                    0 <= s <= 0x20_0000_0000_0000,
                    0 <= w <= pow2(72),
            ;
            assert((s * w - t) * q == s * (w * q) - t * q) by (nonlinear_arith);
            assert(s * w >= t) by (nonlinear_arith)
                requires
                    (s * w - t) * q >= 0,
                    q > 0,
            ;
        }
        let sig: u128 = sig_a as u128 * power - sig_b as u128;
        proof {
            assert(sig * (q * 1) == num * 1);
            assert((sig + 1) * (q * 1) > num * 1) by (nonlinear_arith)
                requires
                    sig * (q * 1) == num * 1,
                    q > 0,
            ;
        }
        return round_scaled(format, sig, step_b, 0, false, Ghost(num), Ghost(1));
    }
    if sig_b == 0 {
        proof {
            assert(y == 0) by (nonlinear_arith)
                requires
                    y == 0 * q,
            ;
            assert(sig_a * (p * 1) == num * 1);
            assert((sig_a + 1) * (p * 1) > num * 1) by (nonlinear_arith)
                requires
                    sig_a * (p * 1) == num * 1,
                    p > 0,
            ;
            lemma_pow2_strictly_increases(53, 127);
        }
        return round_scaled(format, sig_a as u128, step_a, 0, false, Ghost(num), Ghost(1));
    }
    let sig: u128 = sig_a as u128 * 0x10_0000 - 1;
    proof {
        lemma_far_apart(sig_a as int, step_a as nat, sig_b as int, step_b as nat);
        let v = pow2((step_a - 20) as nat);
        let s = sig_a as int;
        assert((s * 0x10_0000 - 1) * (v * 1) == x - v) by (nonlinear_arith)
            requires
                x == s * (0x10_0000 * v),
        ;
        assert((s * 0x10_0000 - 1 + 1) * (v * 1) == x) by (nonlinear_arith)
            requires
                x == s * (0x10_0000 * v),
        ;
        lemma_pow2_unfold(frac + 1);
    }
    round_scaled(format, sig, step_a - 20, 0, true, Ghost(num), Ghost(1))
}

/// The magnitude of a whole number.
pub(crate) fn whole(format: Format, value: u64) -> (mag: u64)
    requires
        format.wf(),
    ensures
        rounds_to(
            format.frac as nat,
            format.top_spec(),
            mag as nat,
            value as nat * pow2(format.unit as nat),
            1,
        ),
        value < 2 * pow2(format.frac as nat) && mag < format.top_spec() ==> units(
            format.frac as nat,
            mag as nat,
        ) == value * pow2(format.unit as nat),
{
    let ghost u = pow2(format.unit as nat);
    proof {
        lemma_pow2_pos(format.unit as nat);
        lemma_pow2_106();
        lemma2_to64();
        lemma_pow2_strictly_increases(64, 127);
        assert((value + 1) * (u * 1) > value * (u * 1)) by (nonlinear_arith)
            requires
                u > 0,
        ;
        assert(pow2(0) == 1);
    }
    round_scaled(
        format,
        value as u128,
        format.unit,
        0,
        false,
        Ghost(value as nat * u),
        Ghost(1),
    )
}

} // verus!
