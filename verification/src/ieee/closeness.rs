//! How errors add up over several operations.
use crate::ieee::accuracy::is_rounded;
use vstd::arithmetic::mul::lemma_mul_inequality_converse;
use vstd::arithmetic::power2::{lemma_pow2_adds, lemma_pow2_pos, pow2};
use vstd::math::abs;
use vstd::prelude::*;

verus! {

/// Whether `x` is `num / den`, but for a relative error of `rel` in the last of so many
/// bits and an absolute one of `off` of the least positive values.
pub open spec fn is_near(x: int, num: int, den: int, bits: nat, rel: nat, off: nat) -> bool {
    den > 0 && pow2(bits) * abs(x * den - num) <= rel * abs(num) + off * (pow2(bits) * den)
}

/// The size of a product is the product of the sizes.
pub proof fn lemma_abs_product(a: int, b: int)
    ensures
        abs(a * b) == abs(a) * abs(b),
{
    assert((-a) * b == -(a * b)) by (nonlinear_arith);
    assert(a * (-b) == -(a * b)) by (nonlinear_arith);
    assert((-a) * (-b) == a * b) by (nonlinear_arith);
    if a >= 0 && b >= 0 {
        assert(a * b >= 0) by (nonlinear_arith)
            requires
                a >= 0,
                b >= 0,
        ;
    } else if a < 0 && b < 0 {
        assert((-a) * (-b) >= 0) by (nonlinear_arith)
            requires
                a < 0,
                b < 0,
        ;
    } else if a < 0 {
        assert((-a) * b >= 0) by (nonlinear_arith)
            requires
                a < 0,
                b >= 0,
        ;
    } else {
        assert(a * (-b) >= 0) by (nonlinear_arith)
            requires
                a >= 0,
                b < 0,
        ;
    }
}

/// One rounding.
pub proof fn lemma_near_rounded(x: int, num: int, den: int, bits: nat)
    requires
        is_rounded(x, num, den, bits),
        pow2(bits) >= 4,
    ensures
        is_near(x, num, den, bits, 2, 2),
        abs(x) >= pow2(bits) ==> is_near(x, num, den, bits, 4, 0),
{
    let w = pow2(bits) as int;
    let e = abs(x * den - num) as int;
    let n = abs(num) as int;
    let a = abs(x) as int;
    lemma_abs_product(x, den);
    assert(a * den <= n + e);
    assert((a + w) * den == a * den + w * den) by (nonlinear_arith);
    assert(w * e <= 2 * n + 2 * (w * den)) by (nonlinear_arith)
        requires
            w * e <= a * den + w * den,
            a * den <= n + e,
            w >= 4,
            e >= 0,
            n >= 0,
            den > 0,
    ;
    if a >= w {
        assert(w * e <= 4 * n) by (nonlinear_arith)
            requires
                w * e <= a * den + w * den,
                a * den <= n + e,
                a >= w,
                w >= 4,
                e >= 0,
                n >= 0,
                den > 0,
        ;
    }
}

/// One more operation, a rounded product of what was near before with `b`.
pub proof fn lemma_near_step(
    x: int,
    num: int,
    den: int,
    rel: nat,
    off: nat,
    p: int,
    b: int,
    u: int,
    rel_step: nat,
    off_step: nat,
    carried: nat,
    bits: nat,
)
    requires
        is_near(x, num, den, bits, rel, off),
        is_near(p, x * b, u, bits, rel_step, off_step),
        rel <= pow2(bits),
        rel_step <= pow2(bits),
        off * abs(b) <= carried * u,
    ensures
        is_near(p, num * b, den * u, bits, rel + 2 * rel_step, off_step + 2 * carried),
{
    let w = pow2(bits) as int;
    lemma_pow2_pos(bits);
    let e1 = x * den - num;
    let e2 = p * u - x * b;
    let e = p * (den * u) - num * b;
    let (k1, k2, f1, f2, f3) = (
        rel as int,
        rel_step as int,
        off as int,
        off_step as int,
        carried as int,
    );
    let n = abs(num) as int;
    let c = abs(b) as int;
    let a = abs(x) as int;
    assert(den * u > 0) by (nonlinear_arith)
        requires
            den > 0,
            u > 0,
    ;
    assert(e == e2 * den + b * e1) by {
        assert((p * u - x * b) * den == p * (den * u) - (x * b) * den) by (nonlinear_arith);
        assert(b * (x * den - num) == (x * b) * den - num * b) by (nonlinear_arith);
    }
    lemma_abs_product(e2, den);
    lemma_abs_product(b, e1);
    lemma_abs_product(x, b);
    lemma_abs_product(num, b);
    lemma_abs_product(x, den);
    let s1 = abs(e1) as int;
    let s2 = abs(e2) as int;
    assert(abs(e) <= s2 * den + c * s1);
    // What was near is not much larger than what it is near to.
    assert(a * den <= 2 * n + f1 * den) by {
        assert(a * den <= n + s1);
        assert(s1 <= n + f1 * den) by (nonlinear_arith)
            requires
                w * s1 <= k1 * n + f1 * (w * den),
                k1 <= w,
                w > 0,
                n >= 0,
                f1 >= 0,
                den > 0,
        ;
    }
    let part2 = k2 * (c * (2 * n + f1 * den)) + f2 * (w * (den * u));
    assert(w * (s2 * den) <= part2) by {
        assert(w * (s2 * den) == (w * s2) * den) by (nonlinear_arith);
        assert((w * s2) * den <= (k2 * (a * c) + f2 * (w * u)) * den) by (nonlinear_arith)
            requires
                w * s2 <= k2 * (a * c) + f2 * (w * u),
                den > 0,
        ;
        let (m1, m2) = (k2 * (a * c), f2 * (w * u));
        assert((m1 + m2) * den == m1 * den + m2 * den) by (nonlinear_arith);
        assert((k2 * (a * c)) * den == (k2 * c) * (a * den)) by (nonlinear_arith);
        assert((f2 * (w * u)) * den == f2 * (w * (den * u))) by (nonlinear_arith);
        assert((k2 * c) * (a * den) <= (k2 * c) * (2 * n + f1 * den)) by (nonlinear_arith)
            requires
                a * den <= 2 * n + f1 * den,
                k2 >= 0,
                c >= 0,
        ;
        assert((k2 * c) * (2 * n + f1 * den) == k2 * (c * (2 * n + f1 * den))) by (nonlinear_arith);
    }
    let part1 = k1 * (n * c) + (f1 * c) * (w * den);
    assert(w * (c * s1) <= part1) by {
        assert(w * (c * s1) == c * (w * s1)) by (nonlinear_arith);
        assert(c * (w * s1) <= c * (k1 * n + f1 * (w * den))) by (nonlinear_arith)
            requires
                w * s1 <= k1 * n + f1 * (w * den),
                c >= 0,
        ;
        assert(c * (k1 * n + f1 * (w * den)) == part1) by (nonlinear_arith)
            requires
                part1 == k1 * (n * c) + (f1 * c) * (w * den),
        ;
    }
    assert(k2 * (c * (2 * n + f1 * den)) == 2 * k2 * (n * c) + (k2 * (f1 * c)) * den)
        by (nonlinear_arith);
    let carry = (f1 * c) * (w * den);
    assert((k2 * (f1 * c)) * den <= carry) by (nonlinear_arith)
        requires
            carry == (f1 * c) * (w * den),
            k2 <= w,
            f1 >= 0,
            c >= 0,
            den > 0,
    ;
    assert(carry <= f3 * (w * (den * u))) by (nonlinear_arith)
        requires
            carry == (f1 * c) * (w * den),
            f1 * c <= f3 * u,
            w > 0,
            den > 0,
    ;
    let unit = w * (den * u);
    assert(w * abs(e) <= part2 + part1) by (nonlinear_arith)
        requires
            abs(e) <= s2 * den + c * s1,
            w * (s2 * den) <= part2,
            w * (c * s1) <= part1,
            w > 0,
    ;
    assert((k1 + 2 * k2) * (n * c) == k1 * (n * c) + 2 * k2 * (n * c)) by (nonlinear_arith);
    assert((f2 + 2 * f3) * unit == f2 * unit + 2 * (f3 * unit)) by (nonlinear_arith);
}

/// What is common to both sides of a fraction does not matter.
pub proof fn lemma_near_cancel(
    x: int,
    num: int,
    den: int,
    common: int,
    bits: nat,
    rel: nat,
    off: nat,
)
    requires
        is_near(x, num * common, den * common, bits, rel, off),
        common > 0,
        den > 0,
    ensures
        is_near(x, num, den, bits, rel, off),
{
    let w = pow2(bits) as int;
    let (k, f, g) = (rel as int, off as int, common);
    assert(x * (den * g) - num * g == (x * den - num) * g) by (nonlinear_arith);
    lemma_abs_product(x * den - num, g);
    lemma_abs_product(num, g);
    let e = abs(x * den - num) as int;
    let n = abs(num) as int;
    assert((w * e) * g == w * (e * g)) by (nonlinear_arith);
    let (m1, m2) = (k * n, f * (w * den));
    assert((m1 + m2) * g == m1 * g + m2 * g) by (nonlinear_arith);
    assert((k * n) * g == k * (n * g)) by (nonlinear_arith);
    assert((f * (w * den)) * g == f * (w * (den * g))) by (nonlinear_arith);
    lemma_mul_inequality_converse(w * e, k * n + f * (w * den), g);
}

/// A larger bound.
pub proof fn lemma_near_weaker(
    x: int,
    num: int,
    den: int,
    bits: nat,
    rel: nat,
    off: nat,
    more_rel: nat,
    more_off: nat,
)
    requires
        is_near(x, num, den, bits, rel, off),
        rel <= more_rel,
        off <= more_off,
    ensures
        is_near(x, num, den, bits, more_rel, more_off),
{
    let w = pow2(bits) as int;
    let n = abs(num) as int;
    let (a, b, c, d) = (rel as int, more_rel as int, off as int, more_off as int);
    lemma_pow2_pos(bits);
    assert(a * n <= b * n) by (nonlinear_arith)
        requires
            a <= b,
            n >= 0,
    ;
    assert(c * (w * den) <= d * (w * den)) by (nonlinear_arith)
        requires
            c <= d,
            w > 0,
            den > 0,
    ;
}

/// Whether `x` is `num / den` to so many bits, or to eight of the least positive values.
pub open spec fn agrees(x: int, num: int, den: int, bits: nat) -> bool {
    is_near(x, num, den, bits, 1, 8)
}

/// Fewer bits.
pub proof fn lemma_agrees(x: int, num: int, den: int, bits: nat, fewer: nat, rel: nat, off: nat)
    requires
        is_near(x, num, den, bits + fewer, rel, off),
        rel <= pow2(fewer),
        off <= 8,
    ensures
        agrees(x, num, den, bits),
{
    let w = pow2(bits) as int;
    let g = pow2(fewer) as int;
    lemma_pow2_pos(fewer);
    lemma_pow2_pos(bits);
    lemma_pow2_adds(bits, fewer);
    lemma_near_weaker(x, num, den, bits + fewer, rel, off, g as nat, 8);
    let e = abs(x * den - num) as int;
    let n = abs(num) as int;
    assert((w * e) * g == (w * g) * e) by (nonlinear_arith);
    assert((1 * n + 8 * (w * den)) * g == g * n + 8 * ((w * g) * den)) by (nonlinear_arith);
    lemma_mul_inequality_converse(w * e, 1 * n + 8 * (w * den), g);
}

} // verus!
