//! Reading decimal numbers, rounded to nearest with ties to even.
use crate::ieee::convert::lemma_units_top;
use crate::ieee::datum::{nan, no_number, rounded, Datum};
use crate::ieee::format::{
    lemma_decompose, lemma_nearest, lemma_next, lemma_round_exact, lemma_units_zero, rounds_above,
    rounds_to, step_of, units,
};
use crate::ieee::magnitude::split;
use crate::ieee::natural::Natural;
use crate::ieee::number::{lemma_bounds, Double};
use crate::ieee::round::{double, double_spec};
use crate::text::characters;
use vstd::arithmetic::power::{lemma_pow_adds, lemma_pow_positive, pow};
use vstd::arithmetic::power2::{
    lemma2_to64, lemma2_to64_rest, lemma_pow2_adds, lemma_pow2_pos, lemma_pow2_strictly_increases,
    lemma_pow2_unfold, pow2,
};
use vstd::prelude::*;

verus! {

/// The magnitude nearest to `digits * 10^scale`.
pub open spec fn decimal_magnitude(digits: nat, scale: int) -> u64 {
    if scale >= 0 {
        rounded(double_spec(), digits * pow(10, scale as nat) as nat * pow2(1074), 1)
    } else {
        rounded(double_spec(), digits * pow2(1074), pow(10, (-scale) as nat) as nat)
    }
}

/// A power of ten is at least the third power of two as often.
proof fn lemma_pow_ten(exponent: nat)
    ensures
        pow(10, exponent) >= pow2(3 * exponent),
        pow(10, exponent) > 0,
    decreases exponent,
{
    lemma_pow_positive(10, exponent);
    if exponent == 0 {
        lemma2_to64();
        vstd::arithmetic::power::lemma_pow0(10);
    } else {
        let below = (exponent - 1) as nat;
        lemma_pow_ten(below);
        lemma_pow_adds(10, 1, below);
        vstd::arithmetic::power::lemma_pow1(10);
        lemma2_to64();
        lemma_pow2_adds(3, 3 * below);
        assert(3 + 3 * below == 3 * exponent);
    }
}

/// What is as large as the first value out of range rounds to infinity.
proof fn lemma_rounds_to_top(num: nat)
    requires
        num >= pow2(2098),
    ensures
        rounds_to(52, double_spec().top_spec(), double_spec().top_spec(), num, 1),
{
    let top = double_spec().top_spec();
    lemma_units_top(double_spec());
    lemma_bounds();
    lemma_next(52, (top - 1) as nat);
}

/// A number with too large an exponent overflows.
proof fn lemma_too_large(digits: nat, scale: nat)
    requires
        digits > 0,
        scale >= 400,
    ensures
        rounds_to(
            52,
            double_spec().top_spec(),
            double_spec().top_spec(),
            digits * pow(10, scale) as nat * pow2(1074),
            1,
        ),
{
    lemma_pow_ten(scale);
    lemma_pow2_strictly_increases(1024, 3 * scale);
    lemma_pow2_adds(1024, 1074);
    lemma_pow2_pos(1074);
    let t = pow(10, scale) as nat;
    let p = pow2(1024);
    let q = pow2(1074);
    assert(digits * t * q >= p * q) by (nonlinear_arith)
        requires
            digits >= 1,
            t >= p,
    ;
    lemma_rounds_to_top(digits * t * q);
}

/// A number with too small an exponent rounds to zero.
proof fn lemma_too_small(digits: nat, count: nat, scale: nat)
    requires
        digits < pow(10, count),
        scale >= count + 400,
    ensures
        rounds_to(
            52,
            double_spec().top_spec(),
            0,
            digits * pow2(1074),
            pow(10, scale) as nat,
        ),
{
    let rest = (scale - count) as nat;
    lemma_pow_adds(10, count, rest);
    lemma_pow_ten(rest);
    lemma_pow_ten(count);
    lemma_pow2_strictly_increases(1075, 3 * rest);
    lemma_pow2_unfold(1075);
    lemma_pow2_pos(1074);
    lemma_bounds();
    lemma_units_zero(52);
    lemma_next(52, 0);
    lemma_decompose(52, 0);
    lemma2_to64();
    lemma2_to64_rest();
    assert(step_of(52, 0) == 0) by {
        vstd::arithmetic::div_mod::lemma_basic_div(0, pow2(52) as int);
    }
    assert(units(52, 1) == 1);
    let d = digits as int;
    let c = pow(10, count);
    let r = pow(10, rest);
    let p = pow2(1074) as int;
    assert(2 * (d * p) < c * r) by (nonlinear_arith)
        requires
            d < c,
            0 <= d,
            r >= 2 * p,
            p > 0,
    ;
    assert((units(52, 0) + units(52, 1)) * (c * r) == c * r) by (nonlinear_arith)
        requires
            units(52, 0) == 0,
            units(52, 1) == 1,
    ;
}

/// Whether the value `twice / (2 * 10^tens)` rounds above a magnitude.
fn above(
    mag: u64,
    twice: &Natural,
    tens: u128,
    Ghost(num): Ghost<nat>,
    Ghost(den): Ghost<nat>,
) -> (r: bool)
    requires
        mag < double_spec().top_spec(),
        twice@ == 2 * num,
        den == pow(10, tens as nat),
    ensures
        r == rounds_above(52, mag as nat, num, den),
{
    let parts: (u64, u32) = split(double(), mag);
    let mut middle: Natural = Natural::wide(2 * parts.0 + 1);
    middle.shift(parts.1);
    middle.scale_ten(tens);
    proof {
        lemma_next(52, mag as nat);
        let s = parts.0 as nat;
        let p = pow2(parts.1 as nat);
        assert(s * p + (s * p + p) == (2 * s + 1) * p) by (nonlinear_arith);
        lemma_pow_positive(10, tens as nat);
    }
    let (below, same) = middle.order(twice);
    below || (same && mag % 2 == 1)
}

/// Finds the magnitude nearest to `digits * 10^scale`, where `count` decimal digits are
/// enough for `digits`.
fn nearest_magnitude(digits: &Natural, count: u64, scale: i128) -> (mag: u64)
    requires
        digits@ < pow(10, count as nat),
        -0x1000_0000_0000_0000_0000_0000 < scale < 0x1000_0000_0000_0000_0000_0000,
    ensures
        mag == decimal_magnitude(digits@, scale as int),
        mag <= double_spec().top_spec(),
{
    let ghost top = double_spec().top_spec();
    let ghost num = if scale >= 0 {
        digits@ * pow(10, scale as nat) as nat * pow2(1074)
    } else {
        digits@ * pow2(1074)
    };
    let ghost den = if scale >= 0 {
        1
    } else {
        pow(10, (-scale) as nat) as nat
    };
    proof {
        lemma_bounds();
        lemma_pow_ten((-scale) as nat);
        lemma_units_zero(52);
    }
    let (_, zero) = digits.order(&Natural::small(0));
    if zero {
        proof {
            let t = pow(10, scale as nat) as nat;
            let p = pow2(1074);
            let d = digits@;
            assert(d * t * p == 0) by (nonlinear_arith)
                requires
                    d == 0,
            ;
            assert(d * p == 0) by (nonlinear_arith)
                requires
                    d == 0,
            ;
            assert(units(52, 0) * den == 0) by (nonlinear_arith)
                requires
                    units(52, 0) == 0,
            ;
            lemma_round_exact(52, top, 0, num, den);
            lemma_nearest(52, top, 0, num, den);
        }
        return 0;
    }
    if scale >= 400 {
        proof {
            lemma_too_large(digits@, scale as nat);
            lemma_nearest(52, top, top, num, 1);
        }
        return double().top();
    }
    if -scale >= count as i128 + 400 {
        proof {
            lemma_too_small(digits@, count as nat, (-scale) as nat);
            lemma_nearest(52, top, 0, num, den);
        }
        return 0;
    }
    let mut twice: Natural = digits.copy();
    let tens: u128;
    if scale >= 0 {
        twice.scale_ten(scale as u128);
        tens = 0;
    } else {
        tens = (-scale) as u128;
    }
    twice.shift(1074);
    twice.scale(2, 0);
    proof {
        vstd::arithmetic::power::lemma_pow0(10);
        if scale >= 0 {
            lemma_pow_ten(scale as nat);
        }
        assert(twice@ == 2 * num);
    }
    let mut low: u64 = 0;
    let mut high: u64 = double().top();
    while low < high
        invariant
            low <= high <= top,
            top == double_spec().top_spec(),
            top == 0x7ff0_0000_0000_0000,
            twice@ == 2 * num,
            den == pow(10, tens as nat),
            low > 0 ==> rounds_above(52, (low - 1) as nat, num, den),
            high < top ==> !rounds_above(52, high as nat, num, den),
        decreases high - low,
    {
        let mid: u64 = low + (high - low) / 2;
        if above(mid, &twice, tens, Ghost(num), Ghost(den)) {
            low = mid + 1;
        } else {
            high = mid;
        }
    }
    proof {
        lemma_pow_positive(10, tens as nat);
        lemma_nearest(52, top, low as nat, num, den);
    }
    low
}

/// Whether a character is a decimal digit.
pub open spec fn is_digit(c: char) -> bool {
    '0' <= c <= '9'
}

/// What a decimal digit counts.
pub open spec fn digit_value(c: char) -> nat {
    (c as u32 - '0' as u32) as nat
}

/// Where the digits from `from` on end.
pub open spec fn digits_end(text: Seq<char>, from: nat) -> nat
    decreases text.len() - from,
{
    if from < text.len() && is_digit(text[from as int]) {
        digits_end(text, from + 1)
    } else {
        from
    }
}

/// The number that a run of digits writes.
pub open spec fn digits_number(text: Seq<char>, from: nat, to: nat) -> nat
    decreases to,
{
    if to <= from {
        0
    } else {
        digits_number(text, from, (to - 1) as nat) * 10 + digit_value(text[to - 1])
    }
}

/// Where a sign ends, if there is one.
pub open spec fn sign_end(text: Seq<char>, from: nat) -> nat {
    if from < text.len() && (text[from as int] == '+' || text[from as int] == '-') {
        from + 1
    } else {
        from
    }
}

/// Whether there is a minus sign.
pub open spec fn has_minus(text: Seq<char>, from: nat) -> bool {
    from < text.len() && text[from as int] == '-'
}

/// Where the digits behind a point begin, if there is a point.
pub open spec fn point_end(text: Seq<char>, from: nat) -> nat {
    if from < text.len() && text[from as int] == '.' {
        from + 1
    } else {
        from
    }
}

/// Where the digits behind a point end, if there is a point.
pub open spec fn fraction_end(text: Seq<char>, from: nat) -> nat {
    if from < text.len() && text[from as int] == '.' {
        digits_end(text, from + 1)
    } else {
        from
    }
}

/// An unsigned decimal number: digits with at most one point among them, then
/// optionally `e`, a sign and digits. It is the first number times ten to the power
/// of the second.
pub open spec fn decimal_parts(text: Seq<char>, from: nat) -> Option<(nat, int)> {
    let whole_end = digits_end(text, from);
    let fraction = point_end(text, whole_end);
    let end = fraction_end(text, whole_end);
    let places = end - fraction;
    let digits = digits_number(text, from, whole_end) * pow(10, places as nat) as nat
        + digits_number(text, fraction, end);
    if whole_end == from && places == 0 {
        None
    } else if end == text.len() {
        Some((digits, -places))
    } else if text[end as int] != 'e' && text[end as int] != 'E' {
        None
    } else {
        let start = sign_end(text, end + 1);
        let stop = digits_end(text, start);
        if stop == start || stop != text.len() {
            None
        } else if has_minus(text, end + 1) {
            Some((digits, -(digits_number(text, start, stop) as int) - places))
        } else {
            Some((digits, digits_number(text, start, stop) - places))
        }
    }
}

/// The small letter of a capital of the alphabet; any other character stays.
pub open spec fn small_letter(c: char) -> char {
    if 'A' <= c <= 'Z' {
        ((c as u32 + 32) as u8) as char
    } else {
        c
    }
}

/// Whether the text from `from` on is this word, in capitals or not.
pub open spec fn is_word(text: Seq<char>, from: nat, word: Seq<char>) -> bool {
    text.len() - from == word.len() && forall|i: int|
        0 <= i < word.len() ==> small_letter(#[trigger] text[from + i]) == word[i]
}

/// What a text says as a number: an optional sign, then a decimal number, `inf`,
/// `infinity` or `nan`.
pub open spec fn parsed(text: Seq<char>) -> Option<Double> {
    let from = sign_end(text, 0);
    let negative = has_minus(text, 0);
    match decimal_parts(text, from) {
        Some((digits, scale)) => Some(
            Double::of_datum(Datum { negative, mag: decimal_magnitude(digits, scale) }),
        ),
        None => if is_word(text, from, "inf"@) || is_word(text, from, "infinity"@) {
            Some(Double::of_datum(Datum { negative, mag: double_spec().top_spec() as u64 }))
        } else if is_word(text, from, "nan"@) {
            Some(Double::of_datum(Datum { negative, mag: nan(double_spec()).mag }))
        } else {
            None
        },
    }
}

/// A run of digits writes a number of so many digits.
proof fn lemma_digits_bound(text: Seq<char>, from: nat, to: nat)
    requires
        from <= to <= text.len(),
        forall|i: int| from <= i < to ==> is_digit(#[trigger] text[i]),
    ensures
        digits_number(text, from, to) < pow(10, (to - from) as nat),
    decreases to,
{
    if to > from {
        lemma_digits_bound(text, from, (to - 1) as nat);
        lemma_pow_adds(10, (to - 1 - from) as nat, 1);
        vstd::arithmetic::power::lemma_pow1(10);
        assert(is_digit(text[to - 1]));
    } else {
        vstd::arithmetic::power::lemma_pow0(10);
    }
}

/// What a decimal digit counts.
fn digit_of(c: char) -> (value: u32)
    requires
        is_digit(c),
    ensures
        value == digit_value(c),
        value <= 9,
{
    c as u32 - '0' as u32
}

/// Adds the digits from `from` on to a number and says where they end.
fn read_digits(chars: &Vec<char>, from: usize, number: &mut Natural) -> (end: usize)
    requires
        from <= chars@.len(),
    ensures
        end == digits_end(chars@, from as nat),
        from <= end <= chars@.len(),
        forall|i: int| from <= i < end ==> is_digit(#[trigger] chars@[i]),
        final(number)@ == old(number)@ * pow(10, (end - from) as nat) + digits_number(
            chars@,
            from as nat,
            end as nat,
        ),
{
    let ghost before = number@;
    let mut end: usize = from;
    proof {
        vstd::arithmetic::power::lemma_pow0(10);
        assert(before * pow(10, 0) == before) by (nonlinear_arith)
            requires
                pow(10, 0) == 1,
        ;
    }
    while end < chars.len() && '0' <= chars[end] && chars[end] <= '9'
        invariant
            from <= end <= chars@.len(),
            digits_end(chars@, from as nat) == digits_end(chars@, end as nat),
            forall|i: int| from <= i < end ==> is_digit(#[trigger] chars@[i]),
            number@ == before * pow(10, (end - from) as nat) + digits_number(
                chars@,
                from as nat,
                end as nat,
            ),
        decreases chars@.len() - end,
    {
        number.scale(10, digit_of(chars[end]));
        proof {
            let k = (end - from) as nat;
            lemma_pow_adds(10, k, 1);
            vstd::arithmetic::power::lemma_pow1(10);
            let p = pow(10, k);
            let d = digits_number(chars@, from as nat, end as nat) as int;
            let b = before as int;
            assert((b * p + d) * 10 == b * (p * 10) + d * 10) by (nonlinear_arith);
        }
        end += 1;
    }
    end
}

/// Adds up the digits of an exponent; what is beyond any use is only known to be large.
fn read_exponent(chars: &Vec<char>, from: usize) -> (r: (u128, usize))
    requires
        from <= chars@.len(),
    ensures
        r.1 == digits_end(chars@, from as nat),
        from <= r.1 <= chars@.len(),
        r.0 < 0x100_0000_0000_0000_0000_0000,
        r.0 < 0x10_0000_0000_0000_0000_0000 ==> r.0 == digits_number(
            chars@,
            from as nat,
            r.1 as nat,
        ),
        r.0 <= digits_number(chars@, from as nat, r.1 as nat),
{
    let mut value: u128 = 0;
    let mut end: usize = from;
    while end < chars.len() && '0' <= chars[end] && chars[end] <= '9'
        invariant
            from <= end <= chars@.len(),
            digits_end(chars@, from as nat) == digits_end(chars@, end as nat),
            value < 0x100_0000_0000_0000_0000_0000,
            value < 0x10_0000_0000_0000_0000_0000 ==> value == digits_number(
                chars@,
                from as nat,
                end as nat,
            ),
            value <= digits_number(chars@, from as nat, end as nat),
        decreases chars@.len() - end,
    {
        if value < 0x10_0000_0000_0000_0000_0000 {
            value = value * 10 + digit_of(chars[end]) as u128;
        }
        end += 1;
    }
    (value, end)
}

/// Too large a number stays too large, and too small a one too small.
proof fn lemma_far_out(digits: nat, count: nat, scale: int, other: int)
    requires
        digits < pow(10, count),
        (scale >= 400 && other >= 400) || (-scale >= count + 400 && -other >= count + 400),
    ensures
        decimal_magnitude(digits, scale) == decimal_magnitude(digits, other),
{
    let top = double_spec().top_spec();
    lemma_bounds();
    if scale >= 400 {
        if digits == 0 {
            lemma_units_zero(52);
            let t = pow(10, scale as nat) as nat;
            let u = pow(10, other as nat) as nat;
            let p = pow2(1074);
            assert(digits * t * p == 0 && digits * u * p == 0) by (nonlinear_arith)
                requires
                    digits == 0,
            ;
        } else {
            lemma_too_large(digits, scale as nat);
            lemma_too_large(digits, other as nat);
            lemma_nearest(52, top, top, digits * pow(10, scale as nat) as nat * pow2(1074), 1);
            lemma_nearest(52, top, top, digits * pow(10, other as nat) as nat * pow2(1074), 1);
        }
    } else {
        lemma_pow_ten((-scale) as nat);
        lemma_pow_ten((-other) as nat);
        lemma_too_small(digits, count, (-scale) as nat);
        lemma_too_small(digits, count, (-other) as nat);
        lemma_nearest(52, top, 0, digits * pow2(1074), pow(10, (-scale) as nat) as nat);
        lemma_nearest(52, top, 0, digits * pow2(1074), pow(10, (-other) as nat) as nat);
    }
}

/// Digits end where the run ends.
proof fn lemma_digits_end(text: Seq<char>, from: nat)
    requires
        from <= text.len(),
    ensures
        from <= digits_end(text, from) <= text.len(),
        forall|i: int| from <= i < digits_end(text, from) ==> is_digit(#[trigger] text[i]),
    decreases text.len() - from,
{
    if from < text.len() && is_digit(text[from as int]) {
        lemma_digits_end(text, from + 1);
    }
}

/// Reads an unsigned decimal number.
#[verifier::rlimit(40)]
fn parse_magnitude(chars: &Vec<char>, from: usize) -> (r: Option<u64>)
    requires
        from <= chars@.len(),
    ensures
        r.is_some() == decimal_parts(chars@, from as nat).is_some(),
        r matches Some(mag) ==> {
            let (digits, scale) = decimal_parts(chars@, from as nat).unwrap();
            mag == decimal_magnitude(digits, scale) && mag <= double_spec().top_spec()
        },
{
    let ghost text = chars@;
    let mut number: Natural = Natural::small(0);
    let whole_end: usize = read_digits(chars, from, &mut number);
    proof {
        assert(0 * pow(10, (whole_end - from) as nat) == 0) by (nonlinear_arith);
    }
    let fraction: usize;
    let end: usize;
    if whole_end < chars.len() && chars[whole_end] == '.' {
        fraction = whole_end + 1;
        end = read_digits(chars, fraction, &mut number);
    } else {
        fraction = whole_end;
        end = whole_end;
        proof {
            vstd::arithmetic::power::lemma_pow0(10);
            let n = number@ as int;
            assert(n * pow(10, 0) == n) by (nonlinear_arith)
                requires
                    pow(10, 0) == 1,
            ;
        }
    }
    let places: usize = end - fraction;
    let count: u64 = (whole_end - from) as u64 + places as u64;
    proof {
        lemma_digits_bound(text, from as nat, whole_end as nat);
        lemma_digits_bound(text, fraction as nat, end as nat);
        lemma_pow_adds(10, (whole_end - from) as nat, places as nat);
        lemma_pow_positive(10, places as nat);
        let w = digits_number(text, from as nat, whole_end as nat) as int;
        let f = digits_number(text, fraction as nat, end as nat) as int;
        let a = pow(10, (whole_end - from) as nat);
        let b = pow(10, places as nat);
        assert(w * b + f < a * b) by (nonlinear_arith)
            requires
                w + 1 <= a,
                f < b,
                b > 0,
        ;
        assert(number@ < pow(10, count as nat));
    }
    if whole_end == from && places == 0 {
        return None;
    }
    if end == chars.len() {
        return Some(nearest_magnitude(&number, count, -(places as i128)));
    }
    if chars[end] != 'e' && chars[end] != 'E' {
        return None;
    }
    let signed: bool = end + 1 < chars.len() && (chars[end + 1] == '+' || chars[end + 1] == '-');
    let minus: bool = end + 1 < chars.len() && chars[end + 1] == '-';
    let start: usize = if signed {
        end + 2
    } else {
        end + 1
    };
    let (exponent, stop): (u128, usize) = read_exponent(chars, start);
    if stop == start || stop != chars.len() {
        return None;
    }
    let scale: i128 = if minus {
        -(exponent as i128) - places as i128
    } else {
        exponent as i128 - places as i128
    };
    proof {
        let exact = digits_number(text, start as nat, stop as nat) as int;
        let far = if minus {
            -exact - places
        } else {
            exact - places
        };
        if exponent >= 0x10_0000_0000_0000_0000_0000 {
            lemma_far_out(number@, count as nat, scale as int, far);
        }
    }
    Some(nearest_magnitude(&number, count, scale))
}

/// The small letter of a capital.
fn to_small(c: char) -> (r: char)
    ensures
        r == small_letter(c),
{
    if 'A' <= c && c <= 'Z' {
        ((c as u32 + 32) as u8) as char
    } else {
        c
    }
}

/// Whether the text from `from` on is this word, in capitals or not.
fn matches_word(chars: &Vec<char>, from: usize, word: &str) -> (r: bool)
    requires
        from <= chars@.len(),
    ensures
        r == is_word(chars@, from as nat, word@),
{
    let letters: Vec<char> = characters(word);
    if chars.len() - from != letters.len() {
        return false;
    }
    let mut i: usize = 0;
    while i < letters.len()
        invariant
            i <= letters@.len(),
            letters@ == word@,
            chars@.len() <= usize::MAX,
            from + letters@.len() == chars@.len(),
            forall|j: int| 0 <= j < i ==> small_letter(#[trigger] chars@[from + j]) == word@[j],
        decreases letters@.len() - i,
    {
        if to_small(chars[from + i]) != letters[i] {
            assert(small_letter(chars@[from + i as int]) != word@[i as int]);
            return false;
        }
        i += 1;
    }
    true
}

/// Reads a number.
pub fn parse_double(text: &str) -> (r: Option<Double>)
    ensures
        r == parsed(text@),
{
    let chars: Vec<char> = characters(text);
    let signed: bool = chars.len() > 0 && (chars[0] == '+' || chars[0] == '-');
    let negative: bool = chars.len() > 0 && chars[0] == '-';
    let from: usize = if signed {
        1
    } else {
        0
    };
    proof {
        lemma_bounds();
    }
    match parse_magnitude(&chars, from) {
        Some(mag) => Some(Double::from_datum(Datum { negative, mag })),
        None => {
            if matches_word(&chars, from, "inf") || matches_word(&chars, from, "infinity") {
                Some(Double::from_datum(Datum { negative, mag: double().top() }))
            } else if matches_word(&chars, from, "nan") {
                Some(Double::from_datum(Datum { negative, mag: no_number(double()).mag }))
            } else {
                None
            }
        },
    }
}

} // verus!
