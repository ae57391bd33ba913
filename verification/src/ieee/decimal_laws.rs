//! What numbers in decimal digits say.
use crate::ieee::accuracy::is_rounded;
use crate::ieee::bounds::{lemma_rounded_at_most, lemma_rounded_between, lemma_rounding_error_of};
use crate::ieee::datum::rounded;
use crate::ieee::decimal::{
    decimal_magnitude, decimal_parts, digit_value, digits_end, digits_number, fraction_end,
    has_minus, is_digit, parsed, point_end, sign_end,
};
use crate::ieee::fixed::{fixed, half_even, padded};
use crate::ieee::format::units;
use crate::ieee::number::{lemma_bounds, Single};
use crate::ieee::round::double_spec;
use crate::text::{decimal, digit};
use vstd::arithmetic::power::{lemma_pow_positive, pow};
use vstd::arithmetic::power2::{lemma_pow2_adds, lemma_pow2_pos, pow2};
use vstd::math::abs;
use vstd::prelude::*;

verus! {

/// What a decimal digit counts.
pub open spec fn counts(c: char) -> nat {
    (c as u32 - 48) as nat
}

/// Whether a text is made of decimal digits.
pub open spec fn all_digits(text: Seq<char>) -> bool {
    forall|i: int| 0 <= i < text.len() ==> '0' <= #[trigger] text[i] <= '9'
}

/// The number that some digits say, each ten times what the next one is worth.
pub open spec fn said(text: Seq<char>) -> nat
    decreases text.len(),
{
    if text.len() == 0 {
        0
    } else {
        said(text.drop_last()) * 10 + counts(text.last())
    }
}

/// A digit says its value.
proof fn lemma_digit(value: nat)
    requires
        value < 10,
    ensures
        '0' <= digit(value) <= '9',
        counts(digit(value)) == value,
        digit(value) == '0' <==> value == 0,
{
}

/// A number in decimal says that number, in digits, without a zero before them.
pub proof fn a_decimal_says_its_number(value: nat)
    ensures
        decimal(value).len() > 0,
        all_digits(decimal(value)),
        said(decimal(value)) == value,
        value > 0 ==> decimal(value)[0] != '0',
        value == 0 ==> decimal(value) == seq!['0'],
    decreases value,
{
    let text = decimal(value);
    lemma_digit(value % 10);
    if value < 10 {
        reveal_with_fuel(said, 2);
        assert(text.drop_last() =~= Seq::empty());
    } else {
        a_decimal_says_its_number(value / 10);
        assert(text.drop_last() =~= decimal(value / 10));
        assert(text[0] == decimal(value / 10)[0]);
    }
}

/// Some digits of a number, with zeros before them, say its last digits.
proof fn lemma_padded(value: nat, places: nat)
    ensures
        padded(value, places).len() == places,
        all_digits(padded(value, places)),
        said(padded(value, places)) == value as int % pow(10, places),
    decreases places,
{
    let text = padded(value, places);
    if places == 0 {
        vstd::arithmetic::power::lemma_pow0(10);
    } else {
        let less = (places - 1) as nat;
        lemma_padded(value / 10, less);
        lemma_digit(value % 10);
        assert(text.drop_last() =~= padded(value / 10, less));
        lemma_pow_positive(10, less);
        assert(pow(10, places) == 10 * pow(10, less)) by {
            reveal(pow);
        }
        vstd::arithmetic::div_mod::lemma_breakdown(value as int, 10, pow(10, less));
    }
}

/// A number with a fixed number of digits behind the point is the nearest such number: a
/// minus where it is negative, digits, a point, and so many digits, off by at most half of
/// the last, and an even one where two are as near.
pub proof fn a_fixed_number_is_the_nearest_one(x: Single, places: nat)
    requires
        x.finite(),
    ensures
        exists|whole: Seq<char>, part: Seq<char>|
            #![trigger all_digits(whole), all_digits(part)]
            all_digits(whole) && all_digits(part) && whole.len() > 0 && part.len() == places
                && fixed(x, places) == (if x.datum().negative {
                "-"@
            } else {
                ""@
            }) + whole + "."@ + part && 2 * abs(
                (said(whole) * pow(10, places) + said(part)) * pow2(149) - abs(x.value()) * pow(
                    10,
                    places,
                ),
            ) <= pow2(149) && (2 * abs(
                (said(whole) * pow(10, places) + said(part)) * pow2(149) - abs(x.value()) * pow(
                    10,
                    places,
                ),
            ) == pow2(149) ==> (said(whole) * pow(10, places) + said(part)) % 2 == 0),
{
    let scale = pow(10, places) as nat;
    let u = pow2(149);
    let size = units(23, x.datum().mag as nat);
    let num = size * scale;
    let scaled = half_even(num, u);
    let whole = decimal(scaled / scale);
    let part = padded(scaled % scale, places);
    lemma_pow2_pos(149);
    lemma_pow_positive(10, places);
    lemma_bounds();
    a_decimal_says_its_number(scaled / scale);
    lemma_padded(scaled % scale, places);
    vstd::arithmetic::div_mod::lemma_mod_bound(scaled as int, scale as int);
    vstd::arithmetic::div_mod::lemma_small_mod(scaled % scale, scale);
    vstd::arithmetic::div_mod::lemma_fundamental_div_mod(scaled as int, scale as int);
    let n = scaled as int;
    assert(said(whole) * scale + said(part) == n) by {
        let (a, b) = (scale as int, (scaled / scale) as int);
        assert(a * b == b * a) by (nonlinear_arith);
    }
    // The nearest of the multiples.
    vstd::arithmetic::div_mod::lemma_fundamental_div_mod(num as int, u as int);
    vstd::arithmetic::div_mod::lemma_mod_bound(num as int, u as int);
    let q = (num / u) as int;
    let r = (num % u) as int;
    let v = u as int;
    assert(v * q == q * v) by (nonlinear_arith);
    assert((q + 1) * v == q * v + v) by (nonlinear_arith);
    assert(2 * abs(n * v - num) <= v);
    assert(abs(x.value()) == size);
    assert(all_digits(whole) && all_digits(part));
}

/// Digits end where they end.
proof fn lemma_digits_end(text: Seq<char>, from: nat, to: nat)
    requires
        from <= to <= text.len(),
        forall|i: int| from <= i < to ==> is_digit(#[trigger] text[i]),
        to < text.len() ==> !is_digit(text[to as int]),
    ensures
        digits_end(text, from) == to,
    decreases to - from,
{
    if from < to {
        assert(is_digit(text[from as int]));
        lemma_digits_end(text, from + 1, to);
    }
}

/// What digits in a text say.
proof fn lemma_digits_number(text: Seq<char>, from: nat, to: nat)
    requires
        from <= to <= text.len(),
        forall|i: int| from <= i < to ==> is_digit(#[trigger] text[i]),
    ensures
        digits_number(text, from, to) == said(text.subrange(from as int, to as int)),
    decreases to - from,
{
    let part = text.subrange(from as int, to as int);
    if from < to {
        lemma_digits_number(text, from, (to - 1) as nat);
        assert(part.drop_last() =~= text.subrange(from as int, to - 1));
        assert(part.last() == text[to - 1]);
        assert(is_digit(text[to - 1]));
        assert(counts(text[to - 1]) == digit_value(text[to - 1]));
    }
}

/// The sign of a number.
pub enum Sign {
    /// None is written.
    Bare,
    /// `+`
    Plus,
    /// `-`
    Minus,
}

/// How a sign is written.
pub open spec fn sign_text(sign: Sign) -> Seq<char> {
    match sign {
        Sign::Bare => Seq::empty(),
        Sign::Plus => seq!['+'],
        Sign::Minus => seq!['-'],
    }
}

/// A number in decimal.
pub struct Numeral {
    /// Its sign.
    pub sign: Sign,
    /// The digits before the point.
    pub whole: Seq<char>,
    /// The digits behind the point, where there is one.
    pub part: Option<Seq<char>>,
    /// The sign and the digits of the power of ten, where there is one, behind a small or a
    /// capital letter.
    pub power: Option<(bool, Sign, Seq<char>)>,
}

impl Numeral {
    /// The digits behind the point.
    pub open spec fn behind(self) -> Seq<char> {
        match self.part {
            Some(part) => part,
            None => Seq::empty(),
        }
    }

    /// The point and what is behind it.
    pub open spec fn part_text(self) -> Seq<char> {
        match self.part {
            Some(part) => seq!['.'] + part,
            None => Seq::empty(),
        }
    }

    /// The power of ten, as it is written.
    pub open spec fn power_text(self) -> Seq<char> {
        match self.power {
            Some((capital, sign, digits)) => seq![
                if capital {
                    'E'
                } else {
                    'e'
                },
            ] + sign_text(sign) + digits,
            None => Seq::empty(),
        }
    }

    /// The number, as it is written.
    pub open spec fn text(self) -> Seq<char> {
        sign_text(self.sign) + self.whole + self.part_text() + self.power_text()
    }

    /// There is a digit before or behind the point, and one in the power of ten.
    pub open spec fn wf(self) -> bool {
        &&& all_digits(self.whole)
        &&& all_digits(self.behind())
        &&& self.whole.len() + self.behind().len() > 0
        &&& self.power matches Some((_, _, digits)) ==> all_digits(digits) && digits.len() > 0
    }

    /// All of its digits, as one number.
    pub open spec fn digits(self) -> nat {
        said(self.whole) * pow(10, self.behind().len()) as nat + said(self.behind())
    }

    /// The power of ten that they are multiplied by.
    pub open spec fn scale(self) -> int {
        (match self.power {
            None => 0int,
            Some((_, Sign::Minus, digits)) => -(said(digits) as int),
            Some((_, _, digits)) => said(digits) as int,
        }) - self.behind().len()
    }
}

/// What stands where in a number in decimal.
proof fn lemma_numeral_layout(number: Numeral)
    requires
        number.wf(),
    ensures
        ({
            let text = number.text();
            let a = sign_text(number.sign).len();
            let b = a + number.whole.len();
            let c = b + number.part_text().len();
            &&& text.len() == c + number.power_text().len()
            &&& c > a
            &&& forall|i: int| 0 <= i < a ==> #[trigger] text[i] == sign_text(number.sign)[i]
            &&& text.subrange(a as int, b as int) == number.whole
            &&& text.subrange(b as int, c as int) == number.part_text()
            &&& text.subrange(c as int, text.len() as int) == number.power_text()
        }),
{
    let text = number.text();
    let a = sign_text(number.sign).len();
    let b = a + number.whole.len();
    let c = b + number.part_text().len();
    assert(text.subrange(a as int, b as int) =~= number.whole);
    assert(text.subrange(b as int, c as int) =~= number.part_text());
    assert(text.subrange(c as int, text.len() as int) =~= number.power_text());
}

/// The sign and the digits before the point.
proof fn lemma_numeral_whole(number: Numeral)
    requires
        number.wf(),
    ensures
        ({
            let text = number.text();
            let a = sign_text(number.sign).len();
            let b = a + number.whole.len();
            &&& sign_end(text, 0) == a
            &&& has_minus(text, 0) == (number.sign is Minus)
            &&& digits_end(text, a) == b
            &&& digits_number(text, a, b) == said(number.whole)
        }),
{
    let text = number.text();
    let a = sign_text(number.sign).len();
    let b = a + number.whole.len();
    let c = b + number.part_text().len();
    lemma_numeral_layout(number);
    assert forall|i: int| a <= i < b implies is_digit(#[trigger] text[i]) by {
        assert(text.subrange(a as int, b as int)[i - a] == text[i]);
        assert('0' <= number.whole[i - a] <= '9');
    }
    if b < c {
        assert(text.subrange(b as int, c as int)[0] == text[b as int]);
        assert(text[b as int] == '.');
    } else if b < text.len() {
        assert(text.subrange(c as int, text.len() as int)[0] == text[b as int]);
        assert(text[b as int] == 'e' || text[b as int] == 'E');
    }
    if a == 0 {
        if number.whole.len() > 0 {
            assert(is_digit(text[0]));
        } else {
            assert(text[0] == '.');
        }
    } else {
        assert(text[0] == sign_text(number.sign)[0]);
    }
    lemma_digits_end(text, a, b);
    lemma_digits_number(text, a, b);
}

/// The digits behind the point.
proof fn lemma_numeral_part(number: Numeral)
    requires
        number.wf(),
    ensures
        ({
            let text = number.text();
            let b = sign_text(number.sign).len() + number.whole.len();
            let c = b + number.part_text().len();
            let start = point_end(text, b);
            &&& fraction_end(text, b) == c
            &&& start + number.behind().len() == c
            &&& digits_number(text, start, c) == said(number.behind())
            &&& c < text.len() ==> text[c as int] == 'e' || text[c as int] == 'E'
            &&& (c < text.len()) == number.power.is_some()
        }),
{
    let text = number.text();
    let b = sign_text(number.sign).len() + number.whole.len();
    let c = b + number.part_text().len();
    let behind = number.behind();
    let start = (c - behind.len()) as nat;
    lemma_numeral_layout(number);
    if c < text.len() {
        assert(text.subrange(c as int, text.len() as int)[0] == text[c as int]);
    }
    if number.part.is_some() {
        assert(text.subrange(b as int, c as int)[0] == text[b as int]);
        assert(start == b + 1);
    }
    assert forall|i: int| start <= i < c implies #[trigger] text[i] == behind[i - start] by {
        assert(text.subrange(b as int, c as int)[i - b] == text[i]);
    }
    assert forall|i: int| start <= i < c implies is_digit(#[trigger] text[i]) by {
        assert('0' <= behind[i - start] <= '9');
    }
    lemma_digits_end(text, start, c);
    lemma_digits_number(text, start, c);
    assert(text.subrange(start as int, c as int) =~= behind);
}

/// The power of ten.
proof fn lemma_numeral_power(number: Numeral)
    requires
        number.wf(),
        number.power.is_some(),
    ensures
        ({
            let text = number.text();
            let c = sign_text(number.sign).len() + number.whole.len() + number.part_text().len();
            let (_, sign, digits) = number.power.unwrap();
            let start = sign_end(text, c + 1);
            &&& start == c + 1 + sign_text(sign).len()
            &&& start < text.len()
            &&& has_minus(text, c + 1) == (sign is Minus)
            &&& digits_end(text, start) == text.len()
            &&& digits_number(text, start, text.len()) == said(digits)
        }),
{
    let text = number.text();
    let c = sign_text(number.sign).len() + number.whole.len() + number.part_text().len();
    let (_, sign, digits) = number.power.unwrap();
    let power = number.power_text();
    let s = sign_text(sign).len();
    let d = c + 1 + s;
    lemma_numeral_layout(number);
    assert(power.len() == 1 + s + digits.len());
    assert forall|i: int| c <= i < text.len() implies #[trigger] text[i] == power[i - c] by {
        assert(text.subrange(c as int, text.len() as int)[i - c] == text[i]);
    }
    assert forall|i: int| d <= i < text.len() implies #[trigger] text[i] == digits[i - d] by {
        assert(power[i - c] == digits[i - d]);
    }
    assert forall|i: int| d <= i < text.len() implies is_digit(#[trigger] text[i]) by {
        assert('0' <= digits[i - d] <= '9');
    }
    if s > 0 {
        assert(text[c as int + 1] == sign_text(sign)[0]);
    } else {
        assert(is_digit(text[d as int]));
    }
    lemma_digits_end(text, d, text.len());
    lemma_digits_number(text, d, text.len());
    assert(text.subrange(d as int, text.len() as int) =~= digits);
}

/// The parts of a number in decimal are found.
proof fn lemma_numeral_parts(number: Numeral)
    requires
        number.wf(),
    ensures
        sign_end(number.text(), 0) == sign_text(number.sign).len(),
        has_minus(number.text(), 0) == (number.sign is Minus),
        decimal_parts(number.text(), sign_text(number.sign).len()) == Some(
            (number.digits(), number.scale()),
        ),
{
    lemma_numeral_whole(number);
    lemma_numeral_part(number);
    if number.power.is_some() {
        lemma_numeral_power(number);
    } else {
        lemma_numeral_layout(number);
    }
}

/// A number in decimal is read as the number that it says, rounded once: its digits times
/// the power of ten, with its sign. It is finite at least up to `2^1000`.
pub proof fn a_number_is_read_as_it_says(number: Numeral)
    requires
        number.wf(),
    ensures
        parsed(number.text()) matches Some(x) && {
            let up = if number.scale() >= 0 {
                pow(10, number.scale() as nat)
            } else {
                1
            };
            let down = if number.scale() >= 0 {
                1
            } else {
                pow(10, (-number.scale()) as nat)
            };
            &&& x.datum().negative == (number.sign is Minus)
            &&& number.digits() * up <= pow2(1000) * down ==> x.finite()
            &&& x.finite() ==> is_rounded(
                abs(x.value()) as int,
                number.digits() * up * pow2(1074),
                down,
                53,
            )
        },
{
    let text = number.text();
    let digits = number.digits();
    let scale = number.scale();
    lemma_bounds();
    lemma_pow2_pos(1074);
    lemma_numeral_parts(number);
    let up = if scale >= 0 {
        pow(10, scale as nat)
    } else {
        1
    };
    let down = if scale >= 0 {
        1
    } else {
        pow(10, (-scale) as nat)
    };
    if scale >= 0 {
        lemma_pow_positive(10, scale as nat);
    } else {
        lemma_pow_positive(10, (-scale) as nat);
    }
    let num = (digits * up) as nat * pow2(1074);
    let mag = decimal_magnitude(digits, scale);
    assert(digits * 1 == digits);
    assert(digits * up >= 0) by (nonlinear_arith)
        requires
            digits >= 0,
            up >= 0,
    ;
    assert(mag == rounded(double_spec(), num, down as nat));
    lemma_rounded_between(double_spec(), num, down as nat, 0);
    let x = parsed(text).unwrap();
    assert(x.datum().mag == mag);
    if digits * up <= pow2(1000) * down {
        lemma_pow2_adds(1000, 1074);
        let (a, b, c, d) = (digits * up, pow2(1000) as int, pow2(1074) as int, down);
        assert(a * c <= (b * c) * d) by (nonlinear_arith)
            requires
                a <= b * d,
                c >= 0,
        ;
        lemma_rounded_at_most(num, down as nat, 2074);
    }
    if x.finite() {
        lemma_rounding_error_of(double_spec(), num, down as nat);
    }
}

} // verus!
