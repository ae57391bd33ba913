//! Rounding an integer significand to a format.
use crate::ieee::format::{
    lemma_compose, lemma_decompose, lemma_round_between, lemma_round_exact, lemma_units_zero,
    rounds_above, rounds_to, step_of, units,
};
use vstd::arithmetic::power2::{
    lemma2_to64, lemma2_to64_rest, lemma_pow2_adds, lemma_pow2_pos, lemma_pow2_strictly_increases,
    lemma_pow2_unfold, pow2,
};
use vstd::prelude::*;

verus! {

/// The parameters of a binary interchange format.
#[derive(Clone, Copy, Debug, PartialEq, Eq, Structural)]
pub struct Format {
    /// The width of the fraction field.
    pub frac: u32,
    /// The exponent field of infinity.
    pub steps: u32,
    /// One is two to this power times the least positive value.
    pub unit: u32,
}

impl Format {
    /// The format is single or double precision.
    pub open spec fn wf(self) -> bool {
        ||| self.frac == 23 && self.steps == 255 && self.unit == 149
        ||| self.frac == 52 && self.steps == 2047 && self.unit == 1074
    }

    /// The magnitude of infinity.
    pub open spec fn top_spec(self) -> nat {
        self.steps as nat * pow2(self.frac as nat)
    }

    /// The magnitude of infinity.
    pub fn top(self) -> (top: u64)
        requires
            self.wf(),
        ensures
            top == self.top_spec(),
    {
        proof {
            lemma2_to64();
            lemma2_to64_rest();
        }
        if self.frac == 23 {
            0x7f80_0000
        } else {
            0x7ff0_0000_0000_0000
        }
    }

    /// The weight of the fraction field's overflow.
    pub fn hidden(self) -> (bit: u64)
        requires
            self.wf(),
        ensures
            bit == pow2(self.frac as nat),
            bit == 0x80_0000 || bit == 0x10_0000_0000_0000,
    {
        proof {
            lemma2_to64();
            lemma2_to64_rest();
        }
        if self.frac == 23 {
            0x80_0000
        } else {
            0x10_0000_0000_0000
        }
    }
}

/// Single precision.
pub open spec fn single_spec() -> Format {
    Format { frac: 23, steps: 255, unit: 149 }
}

/// Single precision.
pub fn single() -> (format: Format)
    ensures
        format == single_spec(),
        format.wf(),
{
    Format { frac: 23, steps: 255, unit: 149 }
}

/// Double precision.
pub open spec fn double_spec() -> Format {
    Format { frac: 52, steps: 2047, unit: 1074 }
}

/// Double precision.
pub fn double() -> (format: Format)
    ensures
        format == double_spec(),
        format.wf(),
{
    Format { frac: 52, steps: 2047, unit: 1074 }
}

/// Two to the power `exponent`.
pub fn power_of_two(exponent: u32) -> (power: u128)
    requires
        exponent < 128,
    ensures
        power == pow2(exponent as nat),
{
    proof {
        lemma2_to64();
    }
    if exponent < 64 {
        proof {
            vstd::bits::lemma_u64_pow2_no_overflow(exponent as nat);
            vstd::bits::lemma_u64_shl_is_mul(1, exponent as u64);
        }
        (1u64 << exponent as u64) as u128
    } else {
        let rest: u32 = exponent - 64;
        proof {
            vstd::bits::lemma_u64_pow2_no_overflow(rest as nat);
            vstd::bits::lemma_u64_shl_is_mul(1, rest as u64);
            lemma_pow2_adds(64, rest as nat);
            lemma_pow2_pos(rest as nat);
        }
        let high: u128 = (1u64 << rest as u64) as u128;
        assert(high * 0x1_0000_0000_0000_0000 <= u128::MAX) by (nonlinear_arith)
            requires
                high <= 0xffff_ffff_ffff_ffff,
        ;
        high * 0x1_0000_0000_0000_0000
    }
}

/// The number of binary digits of `value`.
pub fn bit_length(value: u128) -> (length: u32)
    ensures
        length <= 128,
        value == 0 ==> length == 0,
        value > 0 ==> length >= 1 && pow2((length - 1) as nat) <= value,
        value < pow2(length as nat),
{
    proof {
        lemma2_to64();
        lemma_pow2_adds(64, 64);
    }
    if value == 0 {
        return 0;
    }
    let mut rest: u128 = value;
    let mut below: u32 = 0;
    let mut width: u32 = 64;
    proof {
        assert(rest * pow2(0) == value) by (nonlinear_arith)
            requires
                pow2(0) == 1,
                rest == value,
        ;
    }
    while width > 0
        invariant
            width == 64 || width == 32 || width == 16 || width == 8 || width == 4 || width == 2
                || width == 1 || width == 0,
            width > 0 ==> rest < pow2((2 * width) as nat) && below + 2 * width <= 128,
            width == 0 ==> rest < 2,
            below <= 127,
            rest > 0,
            rest * pow2(below as nat) <= value,
            value < (rest + 1) * pow2(below as nat),
        decreases width,
    {
        let power: u128 = power_of_two(width);
        proof {
            lemma_pow2_adds(width as nat, width as nat);
            lemma2_to64();
        }
        if rest >= power {
            let quotient: u128 = rest / power;
            proof {
                vstd::arithmetic::div_mod::lemma_fundamental_div_mod(rest as int, power as int);
                lemma_pow2_adds(width as nat, below as nat);
                lemma_pow2_pos(below as nat);
                let w = pow2(width as nat);
                let b = pow2(below as nat);
                let r = rest as int;
                let q = quotient as int;
                let m = (rest % power) as int;
                assert(q * (w * b) <= r * b) by (nonlinear_arith)
                    requires
                        r == w * q + m,
                        0 <= m,
                        b > 0,
                ;
                assert((r + 1) * b <= (q + 1) * (w * b)) by (nonlinear_arith)
                    requires
                        r == w * q + m,
                        m < w,
                        b > 0,
                ;
                assert(q < w) by (nonlinear_arith)
                    requires
                        r == w * q + m,
                        0 <= m,
                        r < w * w,
                        w > 0,
                ;
                assert(q >= 1) by (nonlinear_arith)
                    requires
                        r == w * q + m,
                        m < w,
                        r >= w,
                        w > 0,
                ;
            }
            rest = quotient;
            below = below + width;
        }
        width = width / 2;
    }
    proof {
        let b = pow2(below as nat);
        assert(rest == 1);
        assert(1 * b == b);
        assert((1 + 1) * b == 2 * b);
        lemma_pow2_unfold((below + 1) as nat);
    }
    below + 1
}

/// The steps of the comparison that decides a rounding, over plain integers: `sig`
/// weighs `k`, the rounded significand weighs `q`, and dropping digits divides by `p`.
proof fn lemma_drop(sig: int, quot: int, rem: int, p: int, k: int, q: int, d: int, num: int)
    requires
        sig == quot * p + rem,
        0 <= rem < p,
        p * k == q * d,
        d > 0,
        k > 0,
        sig * k <= num * d < (sig + 1) * k,
    ensures
        quot * q <= num,
        num < (quot + 1) * q,
        2 * rem > p ==> 2 * num > (2 * quot + 1) * q,
        2 * rem < p && p % 2 == 0 ==> 2 * num < (2 * quot + 1) * q,
        2 * rem == p ==> 2 * num >= (2 * quot + 1) * q,
        2 * rem == p && sig * k == num * d ==> 2 * num == (2 * quot + 1) * q,
        2 * rem == p && sig * k < num * d ==> 2 * num > (2 * quot + 1) * q,
{
    assert(quot * q * d == quot * p * k) by (nonlinear_arith)
        requires
            p * k == q * d,
    ;
    assert((quot + 1) * q * d == (quot + 1) * p * k) by (nonlinear_arith)
        requires
            p * k == q * d,
    ;
    assert((2 * quot + 1) * q * d == (2 * quot + 1) * p * k) by (nonlinear_arith)
        requires
            p * k == q * d,
    ;
    assert(quot * p * k <= sig * k) by (nonlinear_arith)
        requires
            sig == quot * p + rem,
            0 <= rem,
            k > 0,
    ;
    assert((sig + 1) * k <= (quot + 1) * p * k) by (nonlinear_arith)
        requires
            sig == quot * p + rem,
            rem < p,
            k > 0,
    ;
    assert(quot * q <= num) by (nonlinear_arith)
        requires
            quot * q * d <= num * d,
            d > 0,
    ;
    assert(num < (quot + 1) * q) by (nonlinear_arith)
        requires
            num * d < (quot + 1) * q * d,
            d > 0,
    ;
    let m = (2 * quot + 1) * q;
    let mid = (2 * quot + 1) * p;
    assert(2 * sig == mid + (2 * rem - p)) by (nonlinear_arith)
        requires
            mid == (2 * quot + 1) * p,
            sig == quot * p + rem,
    ;
    assert(2 * (num * d) == (2 * num) * d) by (nonlinear_arith);
    if 2 * rem > p {
        assert(mid * k < 2 * (sig * k)) by (nonlinear_arith)
            requires
                mid < 2 * sig,
                k > 0,
        ;
        assert(2 * num > m) by (nonlinear_arith)
            requires
                m * d < (2 * num) * d,
                d > 0,
        ;
    } else if 2 * rem < p {
        if p % 2 == 0 {
            assert(2 * (sig + 1) <= mid);
            assert(2 * ((sig + 1) * k) <= mid * k) by (nonlinear_arith)
                requires
                    2 * (sig + 1) <= mid,
                    k > 0,
            ;
            assert(2 * num < m) by (nonlinear_arith)
                requires
                    m * d > (2 * num) * d,
                    d > 0,
            ;
        }
    } else {
        assert(mid * k == 2 * (sig * k)) by (nonlinear_arith)
            requires
                mid == 2 * sig,
        ;
        assert(2 * num >= m) by (nonlinear_arith)
            requires
                m * d <= (2 * num) * d,
                d > 0,
        ;
        if sig * k == num * d {
            assert(2 * num == m) by (nonlinear_arith)
                requires
                    m * d == (2 * num) * d,
                    d > 0,
            ;
        } else {
            assert(2 * num > m) by (nonlinear_arith)
                requires
                    m * d < (2 * num) * d,
                    d > 0,
            ;
        }
    }
}

/// Infinity is a machine integer.
proof fn lemma_top_fits(format: Format)
    requires
        format.wf(),
    ensures
        format.top_spec() <= 0x7ff0_0000_0000_0000,
{
    lemma2_to64();
    lemma2_to64_rest();
    if format.frac == 23 {
        assert(format.top_spec() == 255 * 0x80_0000);
    } else {
        assert(format.top_spec() == 2047 * 0x10_0000_0000_0000);
    }
}

/// What weighs as much as infinity rounds to infinity.
proof fn lemma_round_top(format: Format, num: nat, den: nat)
    requires
        format.wf(),
        den > 0,
        pow2((format.frac + format.steps - 1) as nat) * den <= num,
    ensures
        rounds_to(format.frac as nat, format.top_spec(), format.top_spec(), num, den),
{
    let frac = format.frac as nat;
    let steps = format.steps as nat;
    let top = format.top_spec();
    lemma_pow2_pos(frac);
    lemma_compose(frac, (steps - 1) as nat, pow2(frac));
    assert((steps - 1) * pow2(frac) + pow2(frac) == steps * pow2(frac)) by (nonlinear_arith);
    lemma_pow2_adds(frac, (steps - 1) as nat);
    assert(top >= 1) by (nonlinear_arith)
        requires
            top == steps * pow2(frac),
            steps >= 1,
            pow2(frac) >= 1,
    ;
    let below = (top - 1) as nat;
    crate::ieee::format::lemma_next(frac, below);
    let a = units(frac, below);
    let b = units(frac, top);
    assert(2 * num > (a + b) * den) by (nonlinear_arith)
        requires
            a < b,
            b * den <= num,
            den > 0,
    ;
}

/// The case of [`round_scaled`] in which `drop` digits of the significand go.
fn round_dropping(
    format: Format,
    sig: u128,
    length: u32,
    step: u32,
    drop: u32,
    sticky: bool,
    Ghost(k): Ghost<nat>,
    Ghost(d): Ghost<nat>,
    Ghost(num): Ghost<nat>,
    Ghost(den): Ghost<nat>,
) -> (mag: u64)
    requires
        format.wf(),
        den > 0,
        k > 0,
        d > 0,
        sig < pow2(127),
        sig * k <= num * d,
        num * d < (sig + 1) * k,
        !sticky ==> sig * k == num * d,
        sticky ==> sig * k < num * d,
        0 < length <= 128,
        pow2((length - 1) as nat) <= sig < pow2(length as nat),
        step + 2 <= format.steps,
        drop >= 1,
        length <= format.frac + 1 + drop,
        step > 0 ==> length == format.frac + 1 + drop,
        pow2(drop as nat) * k == (pow2(step as nat) * den) * d,
    ensures
        rounds_to(format.frac as nat, format.top_spec(), mag as nat, num, den),
{
    let ghost frac = format.frac as nat;
    let ghost top = format.top_spec();
    let hidden: u64 = format.hidden();
    let ghost p = pow2(drop as nat);
    let ghost q = pow2(step as nat) * den;
    proof {
        lemma_pow2_unfold(frac + 1);
        lemma_pow2_pos(drop as nat);
        lemma_pow2_unfold(drop as nat);
        lemma_pow2_pos(step as nat);
        assert(step as nat * pow2(frac) + 2 * pow2(frac) <= top) by (nonlinear_arith)
            requires
                step + 2 <= format.steps,
                top == format.steps as nat * pow2(frac),
        ;
        lemma_top_fits(format);
        assert(step * hidden <= u64::MAX) by {
            assert(step as nat * pow2(frac) <= top);
        }
    }
    if drop >= 128 {
        proof {
            assert(step == 0);
            if drop > 128 {
                lemma_pow2_strictly_increases(128, drop as nat);
            }
            lemma_pow2_unfold(128);
            let s = sig as int;
            lemma_drop(s, 0, s, p as int, k as int, q as int, d as int, num as int);
            lemma_units_zero(frac);
            lemma_compose(frac, 0, 0);
            crate::ieee::format::lemma_next(frac, 0);
            assert(step_of(frac, 0) == 0) by {
                lemma_decompose(frac, 0);
                assert(0 * pow2(frac) == 0) by (nonlinear_arith);
            }
            lemma2_to64();
            assert(q == den) by (nonlinear_arith)
                requires
                    q == 1 * den,
            ;
            assert(units(frac, 0) * den == 0) by (nonlinear_arith)
                requires
                    units(frac, 0) == 0,
            ;
            lemma_round_between(frac, top, 0, num, den);
            assert(top > 0);
        }
        return 0;
    }
    let power: u128 = power_of_two(drop);
    let quot: u128 = sig / power;
    let rem: u128 = sig % power;
    proof {
        vstd::arithmetic::div_mod::lemma_fundamental_div_mod(sig as int, power as int);
        let w = power as int;
        let quo = quot as int;
        assert(w * quo == quo * w) by (nonlinear_arith);
        // The quotient keeps `frac + 1` digits, or fewer where the value is small.
        let kept = (length - drop) as int;
        assert(quo < 2 * pow2(frac)) by {
            if kept < 0 {
                lemma_pow2_strictly_increases(length as nat, drop as nat);
            } else {
                lemma_pow2_adds(kept as nat, drop as nat);
                if kept < frac + 1 {
                    lemma_pow2_strictly_increases(kept as nat, frac + 1);
                }
            }
            let hi = if kept < 0 { 1int } else { pow2(kept as nat) as int };
            lemma_pow2_pos(frac + 1);
            assert(quo < hi) by (nonlinear_arith)
                requires
                    quo * w <= sig,
                    sig < hi * w,
                    w > 0,
            ;
        }
        assert(step > 0 ==> quo >= pow2(frac)) by {
            if step > 0 {
                assert(length - 1 - drop == frac);
                lemma_pow2_adds(frac, drop as nat);
                let f = pow2(frac) as int;
                assert((quo + 1) * w == quo * w + w) by (nonlinear_arith);
                assert(quo >= f) by (nonlinear_arith)
                    requires
                        f * w <= sig,
                        sig < (quo + 1) * w,
                        w > 0,
                ;
            }
        }
        lemma_drop(sig as int, quo, rem as int, w, k as int, q as int, d as int, num as int);
    }
    let round_up: bool = if rem > power - rem {
        true
    } else if rem < power - rem {
        false
    } else {
        sticky || quot % 2 == 1
    };
    let low: u64 = step as u64 * hidden + quot as u64;
    proof {
        let quo = quot as nat;
        let t = pow2(step as nat);
        lemma_compose(frac, step as nat, quo);
        lemma_compose(frac, step as nat, quo + 1);
        assert(step as nat * pow2(frac) + (quo + 1) == low + 1);
        assert(quo * t * den == quo * q) by (nonlinear_arith)
            requires
                q == t * den,
        ;
        assert((quo + 1) * t * den == (quo + 1) * q) by (nonlinear_arith)
            requires
                q == t * den,
        ;
        assert((quo * t + (quo + 1) * t) * den == (2 * quo + 1) * q) by (nonlinear_arith)
            requires
                q == t * den,
        ;
        assert(low % 2 == quot % 2) by {
            assert(step as u64 * hidden == 2 * (step as u64 * (hidden / 2))) by (nonlinear_arith)
                requires
                    hidden == 2 * (hidden / 2),
            ;
        }
        lemma_round_between(frac, top, low as nat, num, den);
        assert(round_up == rounds_above(frac, low as nat, num, den));
    }
    if round_up {
        low + 1
    } else {
        low
    }
}

/// Rounds `sig * 2^up / 2^down`, counted in the format's least positive value, to the
/// nearest magnitude. With `sticky` the exact value lies strictly between `sig` and
/// its successor. `num / den` is that exact value.
pub(crate) fn round_scaled(
    format: Format,
    sig: u128,
    up: u32,
    down: u32,
    sticky: bool,
    Ghost(num): Ghost<nat>,
    Ghost(den): Ghost<nat>,
) -> (mag: u64)
    requires
        format.wf(),
        den > 0,
        sig < pow2(127),
        up <= 10_000,
        down <= 10_000,
        sig * (pow2(up as nat) * den) <= num * pow2(down as nat),
        num * pow2(down as nat) < (sig + 1) * (pow2(up as nat) * den),
        !sticky ==> sig * (pow2(up as nat) * den) == num * pow2(down as nat),
        sticky ==> sig * (pow2(up as nat) * den) < num * pow2(down as nat),
        sticky ==> sig >= 2 * pow2(format.frac as nat),
    ensures
        rounds_to(format.frac as nat, format.top_spec(), mag as nat, num, den),
        !sticky && down == 0 && sig < 2 * pow2(format.frac as nat) && mag
            < format.top_spec() ==> units(format.frac as nat, mag as nat) * den == num,
{
    let ghost frac = format.frac as nat;
    let ghost top = format.top_spec();
    let hidden: u64 = format.hidden();
    let ghost k = pow2(up as nat) * den;
    let ghost d = pow2(down as nat);
    proof {
        lemma_pow2_pos(up as nat);
        lemma_pow2_pos(down as nat);
        assert(k > 0) by (nonlinear_arith)
            requires
                k == pow2(up as nat) * den,
                pow2(up as nat) > 0,
                den > 0,
        ;
        lemma_pow2_unfold(frac + 1);
    }
    if sig == 0 {
        proof {
            assert(num == 0) by (nonlinear_arith)
                requires
                    0 * k == num * d,
                    d > 0,
            ;
            lemma_units_zero(frac);
            assert(0 * den == 0) by (nonlinear_arith);
            lemma_round_exact(frac, top, 0, num, den);
        }
        return 0;
    }
    let length: u32 = bit_length(sig);
    let have: u32 = length + up;
    let keep: u32 = down + format.frac + 1;
    let step: u32 = if have > keep {
        have - keep
    } else {
        0
    };
    if step >= format.steps - 1 {
        proof {
            // `sig` has its leading digit at `length - 1`, so the value reaches infinity.
            let lead = pow2((length - 1) as nat);
            let reach = pow2((format.frac + format.steps - 1) as nat);
            let spare = (length - 1 + up - (format.frac + format.steps - 1) - down) as nat;
            lemma_pow2_adds((length - 1) as nat, up as nat);
            lemma_pow2_adds((format.frac + format.steps - 1) as nat, down as nat);
            lemma_pow2_adds((format.frac + format.steps - 1 + down) as nat, spare);
            lemma_pow2_pos(spare);
            let u = pow2(up as nat);
            let sp = pow2(spare);
            assert(reach * d <= lead * u) by (nonlinear_arith)
                requires
                    lead * u == (reach * d) * sp,
                    sp >= 1,
                    reach * d >= 0,
            ;
            assert(reach * den <= num) by (nonlinear_arith)
                requires
                    reach * d <= lead * u,
                    lead <= sig,
                    sig * (u * den) <= num * d,
                    d > 0,
                    u > 0,
                    den > 0,
            ;
            lemma_round_top(format, num, den);
        }
        return format.top();
    }
    let ghost q = pow2(step as nat) * den;
    proof {
        lemma_pow2_pos(step as nat);
        assert(step as nat * pow2(frac) + 2 * pow2(frac) <= top) by (nonlinear_arith)
            requires
                step + 2 <= format.steps,
                top == format.steps as nat * pow2(frac),
        ;
        lemma_top_fits(format);
        assert(step * hidden <= u64::MAX) by {
            assert(step as nat * pow2(frac) <= top);
        }
    }
    if step + down <= up {
        let shift: u32 = up - step - down;
        let power: u128 = power_of_two(shift);
        proof {
            lemma_pow2_adds(length as nat, shift as nat);
            lemma_pow2_adds((length - 1) as nat, shift as nat);
            let a = (length + shift) as nat;
            if a < frac + 1 {
                lemma_pow2_strictly_increases(a, frac + 1);
            }
            let hi = pow2(length as nat);
            let lo = pow2((length - 1) as nat);
            let w = power as int;
            lemma_pow2_pos(shift as nat);
            assert(sig * w < hi * w) by (nonlinear_arith)
                requires
                    sig < hi,
                    w > 0,
            ;
            assert(lo * w <= sig * w) by (nonlinear_arith)
                requires
                    lo <= sig,
                    w > 0,
            ;
            assert(2 * pow2(frac) <= 0x20_0000_0000_0000);
            assert(sig <= sig * w) by (nonlinear_arith)
                requires
                    w >= 1,
            ;
            assert(!sticky);
        }
        let sig_out: u64 = (sig * power) as u64;
        let mag: u64 = step as u64 * hidden + sig_out;
        proof {
            assert(sig_out as nat == sig * power);
            assert(step > 0 ==> sig_out >= pow2(frac));
            lemma_compose(frac, step as nat, sig_out as nat);
            lemma_pow2_adds(shift as nat, step as nat);
            lemma_pow2_adds((shift + step) as nat, down as nat);
            let u = pow2(up as nat);
            let w = power as int;
            let t = pow2(step as nat);
            assert(u == w * t * d);
            assert((sig * w) * t * den == num) by (nonlinear_arith)
                requires
                    sig * (u * den) == num * d,
                    u == w * t * d,
                    d > 0,
            ;
            lemma_round_exact(frac, top, mag as nat, num, den);
        }
        return mag;
    }
    let drop: u32 = step + down - up;
    let ghost p = pow2(drop as nat);
    proof {
        lemma_pow2_adds(drop as nat, up as nat);
        lemma_pow2_adds(step as nat, down as nat);
        lemma_pow2_pos(drop as nat);
        lemma_pow2_unfold(drop as nat);
        let u = pow2(up as nat);
        let t = pow2(step as nat);
        assert(p * k == q * d) by (nonlinear_arith)
            requires
                p * u == t * d,
                k == u * den,
                q == t * den,
        ;
    }
    proof {
        if sig < 2 * pow2(frac) && length > frac + 1 {
            if length > frac + 2 {
                lemma_pow2_strictly_increases(frac + 1, (length - 1) as nat);
            }
        }
    }
    round_dropping(
        format,
        sig,
        length,
        step,
        drop,
        sticky,
        Ghost(k),
        Ghost(d),
        Ghost(num),
        Ghost(den),
    )
}

} // verus!
