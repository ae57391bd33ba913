//! Writing numbers with a fixed count of decimals.
use crate::ieee::format::units;
use crate::ieee::magnitude::split;
use crate::ieee::natural::Natural;
use crate::ieee::number::{lemma_bounds, Single};
use crate::ieee::round::{power_of_two, single};
use crate::text::{decimal, decimal_text, digit, digit_char};
use vstd::arithmetic::power::{lemma_pow_adds, pow};
use vstd::arithmetic::power2::{
    lemma2_to64, lemma2_to64_rest, lemma_pow2_adds, lemma_pow2_pos, lemma_pow2_strictly_increases,
    pow2,
};
use vstd::prelude::*;

verus! {

/// The whole number nearest to `num / den`; of two equally near ones the even one.
pub open spec fn half_even(num: nat, den: nat) -> nat {
    let quotient = num / den;
    let rest = num % den;
    if 2 * rest > den || (2 * rest == den && quotient % 2 == 1) {
        quotient + 1
    } else {
        quotient
    }
}

/// The lowest `places` decimal digits of a number, leading zeros with them.
pub open spec fn padded(value: nat, places: nat) -> Seq<char>
    decreases places,
{
    if places == 0 {
        Seq::empty()
    } else {
        padded(value / 10, (places - 1) as nat).push(digit(value % 10))
    }
}

/// A number with so many decimals: rounded to nearest, ties to even.
pub open spec fn fixed(x: Single, places: nat) -> Seq<char> {
    if x.nan() {
        "NaN"@
    } else {
        let sign = if x.datum().negative {
            "-"@
        } else {
            ""@
        };
        if !x.finite() {
            sign + "inf"@
        } else {
            let scale = pow(10, places) as nat;
            let scaled = half_even(units(23, x.datum().mag as nat) * scale, pow2(149));
            sign + decimal(scaled / scale) + "."@ + padded(scaled % scale, places)
        }
    }
}

/// Writes the lowest decimal digits of a number.
fn padded_text(value: u64, places: u32) -> (text: String)
    ensures
        text@ == padded(value as nat, places as nat),
    decreases places,
{
    if places == 0 {
        let text: String = String::new();
        assert(text@ =~= Seq::empty());
        text
    } else {
        let mut text: String = padded_text(value / 10, places - 1);
        text.push(digit_char(value % 10));
        text
    }
}

/// Writes a number of any size in decimal.
fn natural_text(number: Natural) -> (text: String)
    ensures
        text@ == decimal(number@),
    decreases number@,
{
    let mut rest: Natural = number;
    let ghost value = rest@;
    let last: u32 = rest.divide_ten();
    let (_, small) = rest.order(&Natural::small(0));
    if small {
        let mut text: String = String::new();
        text.push(digit_char(last as u64));
        assert(text@ =~= seq![digit(value)]);
        text
    } else {
        let mut text: String = natural_text(rest);
        text.push(digit_char(last as u64));
        text
    }
}

/// Ten to a small power.
fn power_of_ten(exponent: u32) -> (power: u64)
    requires
        exponent <= 6,
    ensures
        power == pow(10, exponent as nat),
        1 <= power <= 1_000_000,
{
    let mut power: u64 = 1;
    let mut done: u32 = 0;
    proof {
        vstd::arithmetic::power::lemma_pow0(10);
    }
    while done < exponent
        invariant
            done <= exponent <= 6,
            power == pow(10, done as nat),
            done == 0 ==> power == 1,
            done == 1 ==> power == 10,
            done == 2 ==> power == 100,
            done == 3 ==> power == 1_000,
            done == 4 ==> power == 10_000,
            done == 5 ==> power == 100_000,
            done == 6 ==> power == 1_000_000,
        decreases exponent - done,
    {
        proof {
            lemma_pow_adds(10, done as nat, 1);
            vstd::arithmetic::power::lemma_pow1(10);
        }
        power = power * 10;
        done += 1;
    }
    power
}

/// Rounds `value / 2^down` to a whole number.
fn round_down(value: u64, down: u32) -> (r: u64)
    requires
        value < 0x1000_0000_0000,
        1 <= down <= 149,
    ensures
        r == half_even(value as nat, pow2(down as nat)),
        r <= value + 1,
{
    proof {
        lemma_pow2_pos(down as nat);
        lemma2_to64();
        lemma2_to64_rest();
    }
    if down >= 60 {
        proof {
            lemma_pow2_strictly_increases(45, down as nat);
            vstd::arithmetic::div_mod::lemma_basic_div(value as int, pow2(down as nat) as int);
            vstd::arithmetic::div_mod::lemma_small_mod(value as nat, pow2(down as nat));
        }
        return 0;
    }
    let unit: u128 = power_of_two(down);
    let quotient: u128 = value as u128 / unit;
    let rest: u128 = value as u128 % unit;
    assert(quotient <= value) by (nonlinear_arith)
        requires
            quotient == value as int / unit as int,
            unit >= 1,
            value >= 0,
    ;
    assert(unit < 0x1000_0000_0000_0000) by {
        if down < 60 {
            lemma_pow2_strictly_increases(down as nat, 60);
        }
    }
    if 2 * rest > unit || (2 * rest == unit && quotient % 2 == 1) {
        quotient as u64 + 1
    } else {
        quotient as u64
    }
}

/// Writes a number with a fixed count of decimals.
pub fn fixed_text(x: Single, places: u32) -> (text: String)
    requires
        places <= 6,
    ensures
        text@ == fixed(x, places as nat),
{
    let datum: crate::ieee::datum::Datum = x.to_datum();
    proof {
        lemma_bounds();
    }
    if datum.mag > single().top() {
        return "NaN".to_owned();
    }
    let sign: String = if datum.negative {
        "-".to_owned()
    } else {
        "".to_owned()
    };
    if datum.mag == single().top() {
        return sign.concat("inf");
    }
    let scale: u64 = power_of_ten(places);
    let (sig, step): (u64, u32) = split(single(), datum.mag);
    let ghost value = units(23, datum.mag as nat);
    proof {
        lemma2_to64();
        lemma2_to64_rest();
        assert(sig * scale <= 0x100_0000 * 1_000_000) by (nonlinear_arith)
            requires
                sig < 0x100_0000,
                scale <= 1_000_000,
        ;
    }
    if step < 149 {
        let down: u32 = 149 - step;
        let scaled: u64 = round_down(sig * scale, down);
        proof {
            lemma_pow2_adds(step as nat, down as nat);
            lemma_pow2_pos(step as nat);
            lemma_pow2_pos(down as nat);
            lemma_half_even_scaled((sig * scale) as nat, pow2(down as nat), pow2(step as nat));
            let s = sig as int;
            let t = scale as int;
            let p = pow2(step as nat) as int;
            assert((s * p) * t == (s * t) * p) by (nonlinear_arith);
            let d = pow2(down as nat) as int;
            assert(d * p == p * d) by (nonlinear_arith);
        }
        sign.concat(decimal_text(scaled / scale).as_str()).concat(".").concat(
            padded_text(scaled % scale, places).as_str(),
        )
    } else {
        let mut whole: Natural = Natural::wide(sig);
        whole.shift(step - 149);
        proof {
            let k = (step - 149) as nat;
            lemma_pow2_adds(k, 149);
            lemma_pow2_pos(149);
            let s = sig as int;
            let t = scale as int;
            let a = pow2(k) as int;
            let b = pow2(149) as int;
            assert((s * (a * b)) * t == ((s * a) * t) * b) by (nonlinear_arith);
            let n = (s * a) * t;
            assert(n >= 0) by (nonlinear_arith)
                requires
                    n == (s * a) * t,
                    s >= 0,
                    a >= 0,
                    t >= 0,
            ;
            vstd::arithmetic::div_mod::lemma_div_multiples_vanish(n, b);
            vstd::arithmetic::div_mod::lemma_mod_multiples_basic(n, b);
            assert(n * b == b * n) by (nonlinear_arith);
            assert(half_even((n * b) as nat, b as nat) == n);
            vstd::arithmetic::div_mod::lemma_div_multiples_vanish(s * a, t);
            vstd::arithmetic::div_mod::lemma_mod_multiples_basic(s * a, t);
            assert((s * a) * t == t * (s * a)) by (nonlinear_arith);
        }
        sign.concat(natural_text(whole).as_str()).concat(".").concat(
            padded_text(0, places).as_str(),
        )
    }
}

/// Rounding does not depend on how a ratio is written.
proof fn lemma_half_even_scaled(num: nat, den: nat, factor: nat)
    requires
        den > 0,
        factor > 0,
    ensures
        half_even(num * factor, den * factor) == half_even(num, den),
{
    let n = num as int;
    let d = den as int;
    let f = factor as int;
    vstd::arithmetic::div_mod::lemma_fundamental_div_mod(n, d);
    vstd::arithmetic::div_mod::lemma_mod_bound(n, d);
    let q = n / d;
    let r = n % d;
    assert(n * f == q * (d * f) + r * f) by (nonlinear_arith)
        requires
            n == d * q + r,
    ;
    assert(0 <= r * f < d * f) by (nonlinear_arith)
        requires
            0 <= r < d,
            f > 0,
    ;
    vstd::arithmetic::div_mod::lemma_fundamental_div_mod_converse(n * f, d * f, q, r * f);
    assert((2 * r > d) == (2 * (r * f) > d * f)) by (nonlinear_arith)
        requires
            f > 0,
    ;
    assert((2 * r == d) == (2 * (r * f) == d * f)) by (nonlinear_arith)
        requires
            f > 0,
    ;
}

} // verus!
