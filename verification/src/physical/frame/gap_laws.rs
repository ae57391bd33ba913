//! How close a low-pass filter that jumps over a gap comes to one that walks through it.
use crate::ieee::bounds::{
    lemma_rounded_between, lemma_rounded_same, lemma_rounding_error, lemma_rounds_to_nearest,
    lemma_widened,
};
use crate::ieee::closeness::lemma_abs_product;
use crate::ieee::convert::widened;
use crate::ieee::datum::rounded;
use crate::ieee::format::{lemma_units_increase, lemma_units_zero, units};
use crate::ieee::number::{lemma_bounds, Double, Single};
use crate::ieee::round::double_spec;
use crate::physical::frame::filter_laws::{
    dense_state, filled, from_state, lemma_dense_append, silence,
};
use crate::physical::frame::low_pass_filter::{filtered_state, Filtering};
use vstd::arithmetic::mul::lemma_mul_inequality_converse;
use vstd::arithmetic::power::{lemma_pow_positive, pow};
use vstd::arithmetic::power2::{lemma_pow2_pos, pow2};
use vstd::math::abs;
use vstd::prelude::*;

verus! {

/// One, counted in the least positive value.
pub open spec fn one() -> int {
    pow2(1074) as int
}

/// A factor from zero to one.
pub open spec fn is_factor(d: Double) -> bool {
    d.finite() && 0 <= d.value() <= one()
}

/// A factor makes no number larger, and rounding takes the product off by little.
pub(crate) proof fn lemma_times_factor(d: Double, x: Double)
    requires
        is_factor(d),
        x.finite(),
    ensures
        ({
            let p = d.product_spec(x);
            &&& p.finite()
            &&& abs(p.value()) <= abs(x.value())
            &&& pow2(53) * abs(p.value() * one() - d.value() * x.value()) <= (abs(x.value())
                + pow2(53)) * one()
        }),
{
    let u = pow2(1074);
    let w = pow2(53);
    let a = units(52, d.datum().mag as nat);
    let b = units(52, x.datum().mag as nat);
    let num = a * b;
    lemma_bounds();
    lemma_pow2_pos(1074);
    lemma_pow2_pos(53);
    lemma_units_zero(52);
    assert(a * b <= b * u) by (nonlinear_arith)
        requires
            a <= u,
            b >= 0,
    ;
    lemma_rounded_between(double_spec(), num, u, x.datum().mag as nat);
    let mag = rounded(double_spec(), num, u) as nat;
    if mag < x.datum().mag {
        lemma_units_increase(52, mag, x.datum().mag as nat);
    }
    lemma_rounding_error(num, u);
    let got = units(52, mag);
    assert(got <= b);
    let off = got * u - num;
    assert((got + w) * u <= (b + w) * u) by (nonlinear_arith)
        requires
            got <= b,
            u >= 0,
    ;
    let p = d.product_spec(x);
    assert(p.datum().mag == mag);
    if d.datum().negative {
        assert(a == 0);
        assert(num == 0) by (nonlinear_arith)
            requires
                num == a * b,
                a == 0,
        ;
        assert(0 == units(52, 0) * u) by (nonlinear_arith)
            requires
                units(52, 0) == 0,
        ;
        lemma_rounded_same(double_spec(), 0, num, u);
        assert(got == 0);
        assert(0 * u == 0) by (nonlinear_arith);
    }
    let v = x.value();
    assert((-(got as int)) * u == -(got * u)) by (nonlinear_arith);
    assert(a * (-(b as int)) == -(a * b)) by (nonlinear_arith);
    assert(p.value() * one() - d.value() * v == off || p.value() * one() - d.value() * v == -off);
    assert(w * abs(off) <= (b + w) * u);
}

/// Silence adds nothing to a number.
proof fn lemma_plus_silence(alpha: Double, x: Double)
    requires
        alpha.finite(),
        x.finite(),
    ensures
        ({
            let sum = x.sum_spec(alpha.product_spec(widened(Single { bits: 0 })));
            sum.finite() && sum.value() == x.value()
        }),
{
    let quiet = widened(Single { bits: 0 });
    lemma_bounds();
    lemma_pow2_pos(1074);
    lemma_units_zero(52);
    lemma_units_zero(23);
    lemma_widened(Single { bits: 0 });
    let num = units(52, alpha.datum().mag as nat) * units(52, quiet.datum().mag as nat);
    assert(num == 0) by (nonlinear_arith)
        requires
            num == units(52, alpha.datum().mag as nat) * units(52, quiet.datum().mag as nat),
            units(52, quiet.datum().mag as nat) == 0,
    ;
    assert(0 == units(52, 0) * pow2(1074)) by (nonlinear_arith)
        requires
            units(52, 0) == 0,
    ;
    lemma_rounded_same(double_spec(), 0, 0, pow2(1074));
    assert(alpha.product_spec(quiet).value() == 0);
    let mag = x.datum().mag as nat;
    lemma_rounded_same(double_spec(), mag, units(52, mag), 1);
}

/// Walking through silence leaves of the state what the power of the decay leaves, but for
/// one rounding a step.
proof fn lemma_walk(run: Filtering, count: nat)
    requires
        is_factor(run.decay),
        run.alpha.finite(),
        run.state.finite(),
    ensures
        ({
            let z = dense_state(run, silence(count));
            let v = run.state.value();
            &&& z.finite()
            &&& abs(z.value()) <= abs(v)
            &&& pow2(53) * abs(z.value() * pow(one(), count) - v * pow(run.decay.value(), count))
                <= count * ((abs(v) + pow2(53)) * pow(one(), count))
        }),
    decreases count,
{
    let v = run.state.value();
    let d = run.decay.value();
    let u = one();
    let w = pow2(53) as int;
    lemma_pow2_pos(1074);
    lemma_pow2_pos(53);
    reveal(pow);
    if count == 0 {
        assert(silence(0) =~= Seq::empty());
        assert(pow(u, 0) == 1 && pow(d, 0) == 1);
        let z = dense_state(run, silence(0));
        assert(z.value() * pow(u, 0) - v * pow(d, 0) == 0);
        assert(w * 0 == 0);
        let bound = (abs(v) + pow2(53)) * pow(u, 0);
        assert(0 * bound == 0);
    } else {
        let less = (count - 1) as nat;
        lemma_walk(run, less);
        let all = silence(count);
        assert(all.drop_last() =~= silence(less));
        let before = dense_state(run, silence(less));
        let step = run.decay.product_spec(before);
        lemma_times_factor(run.decay, before);
        lemma_plus_silence(run.alpha, step);
        let x = before.value();
        let y = step.value();
        assert(dense_state(run, all).value() == y);
        lemma_walked_step(v, d, x, y, less);
    }
}

/// One more step of a walk.
proof fn lemma_walked_step(v: int, d: int, x: int, y: int, less: nat)
    requires
        0 <= d <= one(),
        abs(x) <= abs(v),
        pow2(53) * abs(x * pow(one(), less) - v * pow(d, less)) <= less * ((abs(v) + pow2(53))
            * pow(one(), less)),
        pow2(53) * abs(y * one() - d * x) <= (abs(x) + pow2(53)) * one(),
    ensures
        pow2(53) * abs(y * pow(one(), less + 1) - v * pow(d, less + 1)) <= (less + 1) * ((abs(v)
            + pow2(53)) * pow(one(), less + 1)),
{
    let u = one();
    let w = pow2(53) as int;
    let b = abs(v) as int;
    let ul = pow(u, less);
    let dl = pow(d, less);
    let n = less as int;
    lemma_pow2_pos(1074);
    lemma_pow2_pos(53);
    lemma_pow_positive(u, less);
    assert(pow(u, less + 1) == u * ul && pow(d, less + 1) == d * dl) by {
        reveal(pow);
    }
    let first = y * u - d * x;
    let old_off = x * ul - v * dl;
    let off = y * (u * ul) - v * (d * dl);
    assert((y * u - d * x) * ul == (y * u) * ul - (d * x) * ul) by (nonlinear_arith);
    assert(d * (x * ul - v * dl) == d * (x * ul) - d * (v * dl)) by (nonlinear_arith);
    assert((y * u) * ul == y * (u * ul)) by (nonlinear_arith);
    assert((d * x) * ul == d * (x * ul)) by (nonlinear_arith);
    assert(d * (v * dl) == v * (d * dl)) by (nonlinear_arith);
    assert(off == first * ul + d * old_off);
    lemma_abs_product(first, ul);
    lemma_abs_product(d, old_off);
    let one_more = (b + w) * (u * ul);
    assert(w * (abs(first) * ul) <= one_more) by (nonlinear_arith)
        requires
            w * abs(first) <= (abs(x) + w) * u,
            abs(x) <= b,
            one_more == (b + w) * (u * ul),
            u > 0,
            ul > 0,
            w > 0,
    ;
    assert(w * (d * abs(old_off)) <= n * one_more) by (nonlinear_arith)
        requires
            w * abs(old_off) <= n * ((b + w) * ul),
            0 <= d <= u,
            abs(old_off) >= 0,
            one_more == (b + w) * (u * ul),
            u > 0,
            ul > 0,
            w > 0,
            n >= 0,
            b >= 0,
    ;
    assert(w * abs(off) <= w * (abs(first) * ul) + w * (d * abs(old_off))) by (nonlinear_arith)
        requires
            abs(off) <= abs(first) * ul + d * abs(old_off),
            w > 0,
    ;
    assert((n + 1) * one_more == n * one_more + one_more) by (nonlinear_arith);
}

/// One step behind silence is one more step of silence.
proof fn lemma_step_behind_silence(run: Filtering, count: nat)
    requires
        is_factor(run.decay),
        run.alpha.finite(),
        run.state.finite(),
    ensures
        ({
            let step = run.decay.product_spec(dense_state(run, silence(count)));
            step.finite() && step.value() == dense_state(run, silence(count + 1)).value()
        }),
{
    lemma_walk(run, count);
    let before = dense_state(run, silence(count));
    assert(silence(count + 1).drop_last() =~= silence(count));
    lemma_times_factor(run.decay, before);
    lemma_plus_silence(run.alpha, run.decay.product_spec(before));
}

/// A rounded sum is off by little.
proof fn lemma_sum_off(x: Double, y: Double)
    requires
        x.finite(),
        x.sum_spec(y).finite(),
    ensures
        y.finite(),
        pow2(53) * abs(x.sum_spec(y).value() - (x.value() + y.value())) <= abs(
            x.sum_spec(y).value(),
        ) + pow2(53),
{
    lemma_bounds();
    lemma_units_zero(52);
    let w = pow2(53);
    let sum = x.sum_spec(y);
    assert(y.finite());
    let exact = x.value() + y.value();
    if exact == 0 {
        assert(sum.value() == 0);
        assert(w * 0 == 0);
    } else {
        let size = abs(exact);
        let mag = rounded(double_spec(), size, 1);
        lemma_rounds_to_nearest(52, double_spec().top_spec(), size, 1);
        assert(sum.datum().mag == mag);
        lemma_rounding_error(size, 1);
        let got = units(52, mag as nat);
        assert(got * 1 == got);
        assert((got + w) * 1 == got + w);
    }
}

/// The whole of a power is no larger than that of one.
proof fn lemma_power_of_factor(d: int, count: nat)
    requires
        0 <= d <= one(),
    ensures
        0 <= pow(d, count) <= pow(one(), count),
    decreases count,
{
    reveal(pow);
    if count > 0 {
        let less = (count - 1) as nat;
        lemma_power_of_factor(d, less);
        let a = pow(d, less);
        let b = pow(one(), less);
        let u = one();
        assert(0 <= d * a <= u * b) by (nonlinear_arith)
            requires
                0 <= d <= u,
                0 <= a <= b,
        ;
    }
}

/// A jump by a power from one state and a walk from another end about as far apart as they
/// start.
proof fn lemma_jump(
    s: int,
    t: int,
    p: int,
    d: int,
    r: int,
    y: int,
    count: nat,
    slack: nat,
    limit: nat,
)
    requires
        count >= 1,
        0 <= d <= one(),
        abs(s) <= limit,
        abs(t) <= limit,
        abs(p * pow(one(), (count - 1) as nat) - pow(d, count)) <= slack * pow(
            one(),
            (count - 1) as nat,
        ),
        pow2(53) * abs(r * one() - p * s) <= (abs(s) + pow2(53)) * one(),
        pow2(53) * abs(y * pow(one(), count) - t * pow(d, count)) <= count * ((abs(t) + pow2(53))
            * pow(one(), count)),
    ensures
        pow2(53) * (abs(r - y) * one()) <= (count + 1) * ((limit + pow2(53)) * one()) + pow2(53) * (
        slack * limit) + pow2(53) * (abs(s - t) * one()),
{
    let u = one();
    let w = pow2(53) as int;
    let b = limit as int;
    let less = (count - 1) as nat;
    let ul = pow(u, less);
    let uk = pow(u, count);
    let dk = pow(d, count);
    let k = count as int;
    let g = slack as int;
    lemma_pow2_pos(1074);
    lemma_pow2_pos(53);
    lemma_pow_positive(u, less);
    lemma_power_of_factor(d, count);
    assert(uk == u * ul) by {
        reveal(pow);
    }
    let e1 = r * u - p * s;
    let e2 = p * ul - dk;
    let e3 = s - t;
    let e4 = y * uk - t * dk;
    // The difference, in four parts.
    assert((r - y) * uk == e1 * ul + e2 * s + dk * e3 - e4) by {
        assert((r - y) * (u * ul) == (r * u) * ul - y * (u * ul)) by (nonlinear_arith);
        assert((r * u - p * s) * ul == (r * u) * ul - (p * s) * ul) by (nonlinear_arith);
        assert((p * ul - dk) * s == (p * s) * ul - dk * s) by (nonlinear_arith);
        assert(dk * (s - t) == dk * s - t * dk) by (nonlinear_arith);
    }
    lemma_abs_product(r - y, uk);
    lemma_abs_product(e1, ul);
    lemma_abs_product(e2, s);
    lemma_abs_product(dk, e3);
    assert(uk > 0) by (nonlinear_arith)
        requires
            uk == u * ul,
            u > 0,
            ul > 0,
    ;
    let part1 = ((b + w) * u) * ul;
    let part2 = (w * (g * b)) * ul;
    let part3 = (w * (abs(e3) * u)) * ul;
    let part4 = (k * ((b + w) * u)) * ul;
    assert(w * (abs(e1) * ul) <= part1) by (nonlinear_arith)
        requires
            w * abs(e1) <= (abs(s) + w) * u,
            abs(s) <= b,
            part1 == ((b + w) * u) * ul,
            u > 0,
            ul > 0,
    ;
    assert(w * (abs(e2) * abs(s)) <= part2) by {
        assert(abs(e2) * abs(s) <= (g * ul) * b) by (nonlinear_arith)
            requires
                abs(e2) <= g * ul,
                0 <= abs(s) <= b,
                abs(e2) >= 0,
        ;
        assert(w * (abs(e2) * abs(s)) <= w * ((g * ul) * b)) by (nonlinear_arith)
            requires
                abs(e2) * abs(s) <= (g * ul) * b,
                w > 0,
        ;
        assert(w * ((g * ul) * b) == part2) by (nonlinear_arith)
            requires
                part2 == (w * (g * b)) * ul,
        ;
    }
    assert(w * (dk * abs(e3)) <= part3) by {
        assert(dk * abs(e3) <= uk * abs(e3)) by (nonlinear_arith)
            requires
                dk <= uk,
                abs(e3) >= 0,
        ;
        assert(w * (dk * abs(e3)) <= w * (uk * abs(e3))) by (nonlinear_arith)
            requires
                dk * abs(e3) <= uk * abs(e3),
                w > 0,
        ;
        assert(w * ((u * ul) * abs(e3)) == part3) by (nonlinear_arith)
            requires
                part3 == (w * (abs(e3) * u)) * ul,
        ;
    }
    assert(w * abs(e4) <= part4) by {
        assert(k * ((abs(t) + w) * uk) <= k * ((b + w) * uk)) by (nonlinear_arith)
            requires
                abs(t) <= b,
                uk > 0,
                k >= 1,
        ;
        assert(k * ((b + w) * (u * ul)) == part4) by (nonlinear_arith)
            requires
                part4 == (k * ((b + w) * u)) * ul,
        ;
    }
    let sum1 = abs(e1) * ul;
    let sum2 = abs(e2) * abs(s);
    let sum3 = dk * abs(e3);
    let sum4 = abs(e4) as int;
    assert(abs(r - y) * uk <= sum1 + sum2 + sum3 + sum4);
    let left = w * (abs(r - y) * u);
    let right = (k + 1) * ((b + w) * u) + w * (g * b) + w * (abs(e3) * u);
    assert(left * ul == w * (abs(r - y) * uk)) by (nonlinear_arith)
        requires
            left == w * (abs(r - y) * u),
            uk == u * ul,
    ;
    assert(w * (abs(r - y) * uk) <= w * sum1 + w * sum2 + w * sum3 + w * sum4) by (nonlinear_arith)
        requires
            abs(r - y) * uk <= sum1 + sum2 + sum3 + sum4,
            w > 0,
    ;
    assert(right * ul == part1 + part2 + part3 + part4) by {
        let x = (b + w) * u;
        let a = w * (g * b);
        let c = w * (abs(e3) * u);
        assert(((k + 1) * x + a + c) * ul == x * ul + a * ul + c * ul + (k * x) * ul)
            by (nonlinear_arith);
    }
    lemma_mul_inequality_converse(left, right, ul);
}

/// Whether a number is a power of a factor, give or take some of the least positive
/// values.
pub open spec fn near_power(decay: Double, power: Double, count: nat, slack: nat) -> bool {
    let less = pow(one(), (count - 1) as nat);
    is_factor(power) && abs(power.value() * less - pow(decay.value(), count)) <= slack * less
}

/// What is left of the state before a row is taken in, jumped and walked to.
proof fn lemma_retained(
    run: Filtering,
    jumped: Double,
    walked: Double,
    retained: Double,
    count: nat,
    slack: nat,
    limit: nat,
)
    requires
        count >= 1,
        is_factor(run.decay),
        run.alpha.finite(),
        near_power(run.decay, retained, count, slack),
        jumped.finite() && abs(jumped.value()) <= limit,
        walked.finite() && abs(walked.value()) <= limit,
    ensures
        ({
            let jump = retained.product_spec(jumped);
            let walk = run.decay.product_spec(
                dense_state(from_state(run, walked), silence((count - 1) as nat)),
            );
            &&& jump.finite()
            &&& walk.finite()
            &&& pow2(53) * (abs(jump.value() - walk.value()) * one()) <= (count + 1) * ((limit
                + pow2(53)) * one()) + pow2(53) * (slack * limit) + pow2(53) * (abs(
                jumped.value() - walked.value(),
            ) * one())
        }),
{
    let from = from_state(run, walked);
    let less = (count - 1) as nat;
    let jump = retained.product_spec(jumped);
    let walk = run.decay.product_spec(dense_state(from, silence(less)));
    lemma_times_factor(retained, jumped);
    lemma_step_behind_silence(from, less);
    lemma_walk(from, count);
    lemma_jump(
        jumped.value(),
        walked.value(),
        retained.value(),
        run.decay.value(),
        jump.value(),
        walk.value(),
        count,
        slack,
        limit,
    );
}

/// How far apart two states can be after so many rows at so many frames, times `2^53` and
/// times one: three roundings of a state a row and one a frame, and for each row as much as
/// its power can be off.
pub open spec fn drift(rows: nat, frames: nat, slack: nat, limit: nat) -> int {
    (frames + 3 * rows) * ((limit + pow2(53)) * one()) + rows * (pow2(53) * (slack * limit))
}

/// One more row lets two states drift apart by its share.
proof fn lemma_drift(
    rows: nat,
    frames: nat,
    count: nat,
    slack: nat,
    limit: nat,
    before: nat,
    between: nat,
    after: nat,
)
    requires
        pow2(53) * (before * one()) <= drift(rows, frames, slack, limit),
        pow2(53) * (between * one()) <= (count + 1) * ((limit + pow2(53)) * one()) + pow2(53) * (
        slack * limit) + pow2(53) * (before * one()),
        pow2(53) * after <= pow2(53) * between + 2 * (limit + pow2(53)),
    ensures
        pow2(53) * (after * one()) <= drift(rows + 1, frames + count, slack, limit),
{
    let u = one();
    let w = pow2(53) as int;
    let x = (limit + w) * u;
    let a = w * (slack * limit);
    let n = rows as int;
    let m = frames as int;
    let k = count as int;
    lemma_pow2_pos(1074);
    let (e, f) = (between as int, after as int);
    assert(w * (f * u) <= w * (e * u) + 2 * x) by (nonlinear_arith)
        requires
            w * f <= w * e + 2 * (limit + w),
            u > 0,
            x == (limit + w) * u,
    ;
    assert((m + 3 * n) * x + (k + 3) * x == (m + k + 3 * (n + 1)) * x) by (nonlinear_arith);
    assert((k + 1) * x + 2 * x == (k + 3) * x) by (nonlinear_arith);
    assert(n * a + a == (n + 1) * a) by (nonlinear_arith);
}

/// Whether a number is finite and no larger than a limit, counted in the least positive
/// value.
pub open spec fn is_within(x: Double, limit: nat) -> bool {
    x.finite() && abs(x.value()) <= limit
}

/// A gap is a run of silent rows, up to rounding: where the decay is a factor from zero to
/// one and the powers handed in for the gaps are its powers, give or take `slack`, the
/// state after rows with gaps and that after the same rows with silence at every missing
/// frame drift apart by no more than a few roundings of a state a row and one a frame, and
/// what the powers are off, as long as neither goes beyond `limit`.
pub proof fn a_gap_is_silence_up_to_rounding(
    run: Filtering,
    samples: Seq<Single>,
    elapsed: Seq<u64>,
    powers: Seq<Double>,
    count: nat,
    slack: nat,
    limit: nat,
)
    requires
        samples.len() == elapsed.len() == powers.len(),
        count <= samples.len(),
        is_factor(run.decay),
        run.alpha.finite(),
        forall|i: int| 0 <= i < elapsed.len() ==> #[trigger] elapsed[i] >= 1,
        forall|i: int|
            0 <= i < elapsed.len() && #[trigger] elapsed[i] != 1 ==> near_power(
                run.decay,
                powers[i],
                elapsed[i] as nat,
                slack,
            ),
        forall|c: nat|
            c <= count ==> is_within(
                #[trigger] filtered_state(run, samples, elapsed, powers, c),
                limit,
            ),
        forall|c: nat|
            c <= count ==> is_within(
                dense_state(run, #[trigger] filled(samples, elapsed, c)),
                limit,
            ),
    ensures
        ({
            let jumped = filtered_state(run, samples, elapsed, powers, count);
            let dense = filled(samples, elapsed, count);
            pow2(53) * (abs(jumped.value() - dense_state(run, dense).value()) * one()) <= drift(
                count,
                dense.len(),
                slack,
                limit,
            )
        }),
    decreases count,
{
    let jumped = filtered_state(run, samples, elapsed, powers, count);
    let all = filled(samples, elapsed, count);
    let walked = dense_state(run, all);
    assert(is_within(jumped, limit) && is_within(walked, limit));
    if count == 0 {
        assert(jumped.value() - walked.value() == 0);
        let x = (limit + pow2(53)) * one();
        let a = pow2(53) * (slack * limit);
        assert(all.len() == 0);
        assert((0 + 3 * 0) * x + 0 * a == 0) by (nonlinear_arith);
        assert(0 * one() == 0) by (nonlinear_arith);
        assert(pow2(53) * 0 == 0);
    } else {
        let less = (count - 1) as nat;
        let row = count - 1;
        a_gap_is_silence_up_to_rounding(run, samples, elapsed, powers, less, slack, limit);
        let s = filtered_state(run, samples, elapsed, powers, less);
        let short = filled(samples, elapsed, less);
        let t = dense_state(run, short);
        assert(is_within(s, limit) && is_within(t, limit));
        let k = elapsed[row] as nat;
        let gap = silence((k - 1) as nat);
        let retained = if elapsed[row] == 1 {
            run.decay
        } else {
            powers[row]
        };
        assert(near_power(run.decay, retained, k, slack)) by {
            if k == 1 {
                reveal(pow);
                let d = run.decay.value();
                assert(pow(one(), 0) == 1);
                assert(pow(d, 1) == d * pow(d, 0));
                assert(d * 1 - d * 1 == 0);
                assert(slack * 1 >= 0);
            }
        }
        lemma_retained(run, s, t, retained, k, slack, limit);
        let jump = retained.product_spec(s);
        let walk = run.decay.product_spec(dense_state(from_state(run, t), gap));
        let taken = run.alpha.product_spec(widened(samples[row]));
        lemma_dense_append(run, short, gap);
        assert(all.drop_last() =~= short + gap);
        assert(all.last() == samples[row]);
        assert(jumped == jump.sum_spec(taken));
        assert(walked == walk.sum_spec(taken));
        lemma_sum_off(jump, taken);
        lemma_sum_off(walk, taken);
        let between = abs(jump.value() - walk.value());
        let after = abs(jumped.value() - walked.value());
        let off1 = abs(jumped.value() - (jump.value() + taken.value()));
        let off2 = abs(walked.value() - (walk.value() + taken.value()));
        let w = pow2(53);
        assert(after <= between + off1 + off2);
        assert(w * after <= w * between + w * off1 + w * off2) by (nonlinear_arith)
            requires
                after <= between + off1 + off2,
                w >= 0,
        ;
        assert(all.len() == short.len() + k);
        lemma_drift(
            less,
            short.len(),
            k,
            slack,
            limit,
            abs(s.value() - t.value()),
            between,
            after,
        );
    }
}

} // verus!
