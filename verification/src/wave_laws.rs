//! What the waves and the filter are in terms of time and frequency.
use crate::dsp::{full_turn, sine_phase, square_phase, square_sample};
use crate::ieee::accuracy::{
    products_are_accurate, quotients_are_accurate, wholes_are_accurate,
};
use crate::ieee::bounds::{
    lemma_fraction_exact, lemma_power_magnitude, lemma_rounded_at_most, lemma_rounded_between,
    lemma_rounded_ratio, lemma_rounded_twice, lemma_rounds_to_nearest, lemma_whole,
    power_magnitude,
};
use crate::ieee::closeness::{
    agrees, is_near, lemma_agrees, lemma_near_cancel, lemma_near_rounded,
    lemma_near_step,
};
use crate::ieee::constants::lemma_ones;
use crate::ieee::datum::rounded;
use crate::ieee::format::{
    lemma_compose, lemma_rounding_monotone, lemma_units_increase, lemma_units_zero, nearest, units,
};
use crate::ieee::number::{lemma_bounds, Double};
use crate::ieee::round::double_spec;
use crate::physical::frame::low_pass_filter::decay_exponent;
use vstd::arithmetic::power2::{
    lemma2_to64, lemma2_to64_rest, lemma_pow2_adds, lemma_pow2_pos, pow2,
};
use vstd::math::abs;
use vstd::prelude::*;

verus! {

/// What a full turn is worth, and that this is twice pi to sixteen digits.
proof fn lemma_turn()
    ensures
        units(52, 0x4019_21fb_5444_2d18) == 7074237752028440 * pow2(1024),
        units(52, 0x4019_21fb_5444_2d18) <= pow2(1077),
        units(52, 0x4019_21fb_5444_2d18) >= pow2(1074),
        is_near(
            units(52, 0x4019_21fb_5444_2d18) as int,
            6283185307179586 * (pow2(1074) as int),
            1_000_000_000_000_000,
            53,
            1,
            0,
        ),
{
    lemma2_to64();
    lemma2_to64_rest();
    lemma_compose(52, 1024, 7074237752028440);
    lemma_pow2_adds(1024, 50);
    lemma_pow2_adds(1024, 53);
    lemma_pow2_pos(1024);
    assert(1024 * pow2(52) + 7074237752028440 == 0x4019_21fb_5444_2d18);
}

/// A frequency below half of a sample rate is far below what can be counted.
pub(crate) proof fn lemma_frequency_bound(frequency_hz: Double, sample_rate_hz: u32)
    requires
        2 * frequency_hz.value() < sample_rate_hz * pow2(1074),
    ensures
        frequency_hz.value() <= pow2(1106),
{
    let u = pow2(1074);
    lemma2_to64();
    lemma2_to64_rest();
    lemma_pow2_pos(1074);
    lemma_pow2_adds(32, 1074);
    assert(frequency_hz.value() <= pow2(1106)) by (nonlinear_arith)
        requires
            2 * frequency_hz.value() < sample_rate_hz * u,
            sample_rate_hz <= 0xffff_ffff,
            pow2(1106) == 0x1_0000_0000 * u,
            u > 0,
    ;
}

/// A product with a frequency over a sample rate.
proof fn lemma_over_rate(a: Double, f: Double, rate: u32)
    requires
        rate > 0,
        a.finite(),
        abs(a.value()) <= pow2(1142),
        f.finite(),
        0 <= f.value() <= pow2(1106),
    ensures
        ({
            let q = a.product_spec(f).quotient_spec(Double::whole_spec(rate as u64));
            &&& q.finite()
            &&& is_near(q.value(), a.value() * f.value(), rate * pow2(1074), 53, 6, 6)
            &&& a.value() >= 0 ==> q.value() >= 0
            &&& a.value() <= 0 ==> q.value() <= 0
        }),
{
    let u = pow2(1074);
    let c = Double::whole_spec(rate as u64);
    let p = a.product_spec(f);
    let q = p.quotient_spec(c);
    lemma_bounds();
    lemma2_to64();
    lemma2_to64_rest();
    lemma_pow2_pos(1074);
    lemma_units_zero(52);
    wholes_are_accurate(rate as u64);
    lemma_whole(rate as u64);
    let m = units(52, a.datum().mag as nat);
    let n = units(52, f.datum().mag as nat);
    lemma_pow2_adds(1142, 1106);
    lemma_pow2_adds(1174, 1074);
    assert(m * n <= pow2(1142) * pow2(1106)) by (nonlinear_arith)
        requires
            m <= pow2(1142),
            n <= pow2(1106),
    ;
    lemma_rounded_at_most(m * n, u, 1174);
    assert(p.finite());
    let t = units(52, p.datum().mag as nat);
    let d = units(52, c.datum().mag as nat);
    assert(t * u <= pow2(1174) * d) by (nonlinear_arith)
        requires
            t <= pow2(1174),
            u <= d,
    ;
    assert(c.datum().mag != 0);
    lemma_rounded_at_most(t * u, d, 1174);
    assert(q.finite());
    products_are_accurate(a, f);
    quotients_are_accurate(p, c);
    lemma_near_rounded(p.value(), a.value() * f.value(), u as int, 53);
    lemma_near_rounded(q.value(), p.value() * u, c.value(), 53);
    assert(2 * abs(u as int) <= 2 * (rate * u)) by (nonlinear_arith)
        requires
            abs(u as int) == u,
            rate >= 1,
    ;
    lemma_near_step(
        p.value(),
        a.value() * f.value(),
        u as int,
        2,
        2,
        q.value(),
        u as int,
        c.value(),
        2,
        2,
        2,
        53,
    );
    assert(u * c.value() == c.value() * u) by (nonlinear_arith);
    lemma_near_cancel(q.value(), a.value() * f.value(), c.value(), u as int, 53, 6, 6);
    // A product with nothing is nothing, whatever its sign.
    if a.value() == 0 || f.value() == 0 {
        assert(m * n == 0) by (nonlinear_arith)
            requires
                m == 0 || n == 0,
        ;
        lemma_rounded_nothing(u);
        assert(0 * u == 0);
        lemma_rounded_nothing(d);
        assert(q.value() == 0);
    }
}

/// Nothing rounds to nothing.
proof fn lemma_rounded_nothing(den: nat)
    requires
        den > 0,
    ensures
        rounded(double_spec(), 0, den) == 0,
{
    lemma_bounds();
    lemma_units_zero(52);
    assert(units(52, 0) * den == 0) by (nonlinear_arith)
        requires
            units(52, 0) == 0,
    ;
    lemma_rounded_between(double_spec(), 0, den, 0);
}

/// The number of a frame.
proof fn lemma_frame(frame: u64)
    ensures
        ({
            let at = Double::whole_spec(frame);
            &&& at.finite()
            &&& 0 <= at.value() <= pow2(1138)
            &&& is_near(at.value(), frame * pow2(1074), 1, 53, 4, 0)
            &&& frame > 0 ==> at.value() >= pow2(1074)
            &&& frame == 0 ==> at.value() == 0
        }),
{
    let at = Double::whole_spec(frame);
    lemma2_to64();
    lemma2_to64_rest();
    lemma_whole(frame);
    wholes_are_accurate(frame);
    lemma_near_rounded(at.value(), frame * pow2(1074), 1, 53);
    if frame == 0 {
        assert(0 * pow2(1074) == 0);
        assert(pow2(53) * 0 == 0);
    } else {
        lemma_pow2_adds(53, 1021);
        lemma_pow2_pos(1021);
        assert(pow2(53) <= pow2(1074)) by (nonlinear_arith)
            requires
                pow2(1074) == pow2(53) * pow2(1021),
                pow2(1021) >= 1,
        ;
    }
}

/// The turns of a sine wave up to a frame, times the frequency.
proof fn lemma_turned(frame: u64)
    ensures
        ({
            let turned = full_turn().product_spec(Double::whole_spec(frame));
            &&& turned.finite()
            &&& 0 <= turned.value() <= pow2(1142)
            &&& frame > 0 ==> turned.value() >= pow2(1074)
            &&& is_near(
                turned.value(),
                units(52, 0x4019_21fb_5444_2d18) * frame,
                1,
                53,
                12,
                0,
            )
        }),
{
    let u = pow2(1074);
    let at = Double::whole_spec(frame);
    let turn = full_turn();
    let turned = turn.product_spec(at);
    let t = units(52, 0x4019_21fb_5444_2d18);
    lemma_bounds();
    lemma2_to64();
    lemma2_to64_rest();
    lemma_pow2_pos(1074);
    lemma_units_zero(52);
    lemma_turn();
    lemma_frame(frame);
    let n = units(52, at.datum().mag as nat);
    lemma_pow2_adds(1077, 1138);
    lemma_pow2_adds(1141, 1074);
    vstd::arithmetic::power2::lemma_pow2_strictly_increases(1141, 1142);
    assert(t * n <= pow2(1077) * pow2(1138)) by (nonlinear_arith)
        requires
            t <= pow2(1077),
            n <= pow2(1138),
    ;
    lemma_whole(frame);
    assert(n == at.value());
    lemma_rounded_at_most(t * n, u, 1141);
    products_are_accurate(turn, at);
    assert(turn.value() * at.value() == at.value() * turn.value()) by (nonlinear_arith);
    lemma_near_rounded(turned.value(), at.value() * turn.value(), u as int, 53);
    if frame == 0 {
        assert(t * n == 0) by (nonlinear_arith)
            requires
                n == 0,
        ;
        lemma_rounded_nothing(u);
        assert(turned.value() == 0);
        assert(t * frame == 0) by (nonlinear_arith)
            requires
                frame == 0,
        ;
        assert(pow2(53) * 0 == 0);
    } else {
        // At least one, and so no rounding below the least positive value.
        lemma_ones();
        assert(units(52, 0x3ff0_0000_0000_0000) * u <= t * n) by (nonlinear_arith)
            requires
                units(52, 0x3ff0_0000_0000_0000) == u,
                u <= t,
                u <= n,
        ;
        lemma_rounded_between(double_spec(), t * n, u, 0x3ff0_0000_0000_0000);
        let got = turned.datum().mag as nat;
        if 0x3ff0_0000_0000_0000 < got {
            lemma_units_increase(52, 0x3ff0_0000_0000_0000, got);
        }
        lemma_pow2_adds(53, 1021);
        lemma_pow2_pos(1021);
        assert(pow2(53) <= u) by (nonlinear_arith)
            requires
                u == pow2(53) * pow2(1021),
                pow2(1021) >= 1,
        ;
        assert(0 * abs(turn.value()) <= 0 * (u as int));
        lemma_near_step(
            at.value(),
            frame * u,
            1,
            4,
            0,
            turned.value(),
            turn.value(),
            u as int,
            4,
            0,
            0,
            53,
        );
        assert((frame * u) * turn.value() == (t * frame) * u) by (nonlinear_arith)
            requires
                turn.value() == t,
        ;
        lemma_near_cancel(turned.value(), t * frame, 1, u as int, 53, 12, 0);
    }
}

/// The angle of a sine wave at a frame is twice pi times the periods up to there, which are
/// the seconds, `frame / sample_rate_hz`, times the frequency: to 47 bits.
pub proof fn sine_phase_is_the_angle(frame: u64, sample_rate_hz: u32, frequency_hz: Double)
    requires
        sample_rate_hz > 0,
        frequency_hz.finite(),
        0 <= frequency_hz.value() <= pow2(1106),
    ensures
        sine_phase(frame, sample_rate_hz, frequency_hz).finite(),
        sine_phase(frame, sample_rate_hz, frequency_hz).value() >= 0,
        agrees(
            sine_phase(frame, sample_rate_hz, frequency_hz).value(),
            6283185307179586 * (frame * frequency_hz.value()),
            1_000_000_000_000_000 * sample_rate_hz,
            47,
        ),
{
    let u = pow2(1074) as int;
    let t = units(52, 0x4019_21fb_5444_2d18) as int;
    let f = frequency_hz.value();
    let n = frame as int;
    let r = sample_rate_hz as int;
    let turned = full_turn().product_spec(Double::whole_spec(frame));
    let phase = sine_phase(frame, sample_rate_hz, frequency_hz);
    lemma2_to64();
    lemma2_to64_rest();
    lemma_pow2_pos(1074);
    lemma_turn();
    lemma_turned(frame);
    lemma_over_rate(turned, frequency_hz, sample_rate_hz);
    assert(0 * abs(f) <= 0 * (r * u)) by (nonlinear_arith);
    lemma_near_step(turned.value(), t * n, 1, 12, 0, phase.value(), f, r * u, 6, 6, 0, 53);
    assert((t * n) * f == t * (n * f)) by (nonlinear_arith);
    assert(1 * (r * u) == r * u);
    assert(0 * abs(n * f) <= 0 * (r * u)) by (nonlinear_arith);
    lemma_near_step(
        t,
        6283185307179586 * u,
        1_000_000_000_000_000,
        1,
        0,
        phase.value(),
        n * f,
        r * u,
        24,
        6,
        0,
        53,
    );
    assert((6283185307179586 * u) * (n * f) == (6283185307179586 * (n * f)) * u)
        by (nonlinear_arith);
    assert(1_000_000_000_000_000 * (r * u) == (1_000_000_000_000_000 * r) * u) by (nonlinear_arith);
    lemma_near_cancel(
        phase.value(),
        6283185307179586 * (n * f),
        1_000_000_000_000_000 * r,
        u,
        53,
        49,
        6,
    );
    lemma_agrees(
        phase.value(),
        6283185307179586 * (n * f),
        1_000_000_000_000_000 * r,
        47,
        6,
        49,
        6,
    );
}

/// The logarithm of what one frame leaves of a filter's state is minus twice pi times the
/// cutoff over the sample rate: to 47 bits.
pub proof fn decay_exponent_is_the_cutoff_per_frame(cutoff_hz: Double, sample_rate_hz: u32)
    requires
        sample_rate_hz > 0,
        cutoff_hz.finite(),
        0 <= cutoff_hz.value() <= pow2(1106),
    ensures
        decay_exponent(cutoff_hz, sample_rate_hz).finite(),
        decay_exponent(cutoff_hz, sample_rate_hz).value() <= 0,
        agrees(
            decay_exponent(cutoff_hz, sample_rate_hz).value(),
            6283185307179586 * (-cutoff_hz.value()),
            1_000_000_000_000_000 * sample_rate_hz,
            47,
        ),
{
    let u = pow2(1074) as int;
    let t = units(52, 0x4019_21fb_5444_2d18) as int;
    let c = cutoff_hz.value();
    let r = sample_rate_hz as int;
    let turn = Double { bits: 0xc019_21fb_5444_2d18 };
    let exponent = decay_exponent(cutoff_hz, sample_rate_hz);
    lemma_bounds();
    lemma2_to64();
    lemma2_to64_rest();
    lemma_pow2_pos(1074);
    lemma_turn();
    lemma_pow2_adds(1077, 65);
    lemma_pow2_pos(65);
    assert(pow2(1077) <= pow2(1142)) by (nonlinear_arith)
        requires
            pow2(1142) == pow2(1077) * pow2(65),
            pow2(65) >= 1,
    ;
    assert(turn.value() == -t);
    lemma_over_rate(turn, cutoff_hz, sample_rate_hz);
    assert((-t) * c == t * (-c)) by (nonlinear_arith);
    assert(0 * abs(-c) <= 0 * (r * u)) by (nonlinear_arith);
    lemma_near_step(
        t,
        6283185307179586 * u,
        1_000_000_000_000_000,
        1,
        0,
        exponent.value(),
        -c,
        r * u,
        6,
        6,
        0,
        53,
    );
    assert((6283185307179586 * u) * (-c) == (6283185307179586 * (-c)) * u) by (nonlinear_arith);
    assert(1_000_000_000_000_000 * (r * u) == (1_000_000_000_000_000 * r) * u) by (nonlinear_arith);
    lemma_near_cancel(
        exponent.value(),
        6283185307179586 * (-c),
        1_000_000_000_000_000 * r,
        u,
        53,
        13,
        6,
    );
    lemma_agrees(
        exponent.value(),
        6283185307179586 * (-c),
        1_000_000_000_000_000 * r,
        47,
        6,
        13,
        6,
    );
}

/// A square wave has gone through the seconds, `frame / sample_rate_hz`, times the
/// frequency, to 49 bits: what is behind the whole periods is the phase, and the wave is
/// up as long as that is below the pulse width.
pub proof fn square_wave_is_up_for_its_pulse_width(
    frame: u64,
    sample_rate_hz: u32,
    frequency_hz: Double,
    pulse_width: Double,
)
    requires
        sample_rate_hz > 0,
        frequency_hz.finite(),
        0 <= frequency_hz.value() <= pow2(1106),
        pulse_width.finite(),
    ensures
        exists|periods: int| #[trigger]
            agrees(periods, frame * frequency_hz.value(), sample_rate_hz as int, 49) && periods >= 0
                && square_phase(frame, sample_rate_hz, frequency_hz).value() == periods % (pow2(
                1074,
            ) as int) && square_sample(
                frame,
                sample_rate_hz,
                frequency_hz,
                pulse_width,
            ).bits == if periods % (pow2(1074) as int) < pulse_width.value() {
                0x3f80_0000u32
            } else {
                0xbf80_0000u32
            },
{
    let u = pow2(1074) as int;
    let f = frequency_hz.value();
    let n = frame as int;
    let r = sample_rate_hz as int;
    let at = Double::whole_spec(frame);
    let q = at.product_spec(frequency_hz).quotient_spec(Double::whole_spec(sample_rate_hz as u64));
    lemma_bounds();
    lemma2_to64();
    lemma2_to64_rest();
    lemma_pow2_pos(1074);
    lemma_units_zero(52);
    lemma_frame(frame);
    lemma_pow2_adds(1138, 4);
    assert(pow2(1138) <= pow2(1142)) by (nonlinear_arith)
        requires
            pow2(1142) == pow2(1138) * pow2(4),
            pow2(4) == 16,
    ;
    lemma_over_rate(at, frequency_hz, sample_rate_hz);
    assert(0 * abs(f) <= 0 * (r * u)) by (nonlinear_arith);
    lemma_near_step(at.value(), n * u, 1, 4, 0, q.value(), f, r * u, 6, 6, 0, 53);
    assert((n * u) * f == (n * f) * u) by (nonlinear_arith);
    lemma_near_cancel(q.value(), n * f, r, u, 53, 16, 6);
    lemma_agrees(q.value(), n * f, r, 49, 4, 16, 6);
    let whole = units(52, q.datum().mag as nat);
    assert(whole == q.value()) by {
        if q.datum().negative {
            assert(q.value() == 0);
        }
    }
    if whole == 0 {
        vstd::arithmetic::div_mod::lemma_small_mod(0, u as nat);
    }
    vstd::arithmetic::div_mod::lemma_mod_bound(whole as int, u);
    if whole as int % u != 0 {
        lemma_fraction_exact(q.datum().mag as nat);
        assert(!q.datum().negative);
    }
    let phase = square_phase(frame, sample_rate_hz, frequency_hz);
    assert(phase.value() == whole as int % u);
    assert(phase.finite());
}

/// A product with a frequency and with its double.
proof fn lemma_twice_the_frequency(a: Double, f: Double, g: Double)
    requires
        a.finite(),
        pow2(1074) <= abs(a.value()) <= pow2(1142),
        f.finite(),
        g.finite(),
        pow2(174) <= f.value(),
        g.value() == 2 * f.value(),
        g.value() <= pow2(1106),
    ensures
        a.product_spec(f).finite(),
        a.product_spec(g).finite(),
        a.product_spec(g).value() == 2 * a.product_spec(f).value(),
        abs(a.product_spec(f).value()) >= pow2(174),
        abs(a.product_spec(g).value()) <= pow2(1174),
        a.product_spec(f).datum().negative == a.datum().negative,
        a.product_spec(g).datum().negative == a.datum().negative,
{
    let u = pow2(1074);
    let m = units(52, a.datum().mag as nat);
    let n = units(52, f.datum().mag as nat);
    lemma_bounds();
    lemma2_to64();
    lemma2_to64_rest();
    lemma_pow2_pos(1074);
    lemma_units_zero(52);
    lemma_pow2_pos(174);
    lemma_pow2_adds(53, 121);
    lemma_pow2_pos(121);
    assert(pow2(53) <= pow2(174)) by (nonlinear_arith)
        requires
            pow2(174) == pow2(53) * pow2(121),
            pow2(121) >= 1,
    ;
    lemma_pow2_adds(1142, 1106);
    lemma_pow2_adds(1174, 1074);
    let twice = units(52, g.datum().mag as nat);
    assert(m * twice <= pow2(1142) * pow2(1106)) by (nonlinear_arith)
        requires
            m <= pow2(1142),
            twice <= pow2(1106),
    ;
    lemma_rounded_at_most(m * twice, u, 1174);
    assert(m * twice == 2 * (m * n)) by (nonlinear_arith)
        requires
            twice == 2 * n,
    ;
    assert(pow2(174) * u <= m * n) by (nonlinear_arith)
        requires
            pow2(174) <= n,
            u <= m,
    ;
    assert(pow2(53) * u <= m * n) by (nonlinear_arith)
        requires
            pow2(174) * u <= m * n,
            pow2(53) <= pow2(174),
    ;
    lemma_rounded_twice(m * n, u);
    lemma_power_magnitude(174);
    lemma_rounded_between(double_spec(), m * n, u, power_magnitude(174));
    let got = rounded(double_spec(), m * n, u) as nat;
    if power_magnitude(174) < got {
        lemma_units_increase(52, power_magnitude(174), got);
    }
}

/// Twice the frequency is twice the angle.
pub proof fn twice_the_frequency_is_twice_the_angle(
    frame: u64,
    sample_rate_hz: u32,
    frequency_hz: Double,
    twice_hz: Double,
)
    requires
        sample_rate_hz > 0,
        frequency_hz.finite(),
        twice_hz.finite(),
        pow2(174) <= frequency_hz.value(),
        twice_hz.value() == 2 * frequency_hz.value(),
        twice_hz.value() <= pow2(1106),
    ensures
        sine_phase(frame, sample_rate_hz, twice_hz).value() == 2 * sine_phase(
            frame,
            sample_rate_hz,
            frequency_hz,
        ).value(),
{
    let turned = full_turn().product_spec(Double::whole_spec(frame));
    lemma_turned(frame);
    lemma_pow2_pos(174);
    lemma_over_rate(turned, frequency_hz, sample_rate_hz);
    lemma_over_rate(turned, twice_hz, sample_rate_hz);
    if frame > 0 {
        let c = Double::whole_spec(sample_rate_hz as u64);
        let u = pow2(1074);
        lemma_bounds();
        lemma2_to64();
        lemma2_to64_rest();
        lemma_pow2_pos(1074);
        lemma_units_zero(52);
        lemma_twice_the_frequency(turned, frequency_hz, twice_hz);
        lemma_whole(sample_rate_hz as u64);
        wholes_are_accurate(sample_rate_hz as u64);
        let p = turned.product_spec(frequency_hz);
        let q = turned.product_spec(twice_hz);
        let t = units(52, p.datum().mag as nat);
        let d = units(52, c.datum().mag as nat);
        assert(d != 0 && c.datum().mag != 0);
        assert(units(52, q.datum().mag as nat) == 2 * t);
        assert((2 * t) * u == 2 * (t * u)) by (nonlinear_arith);
        lemma_pow2_adds(53, 32);
        lemma_pow2_adds(85, 89);
        lemma_pow2_pos(89);
        assert(pow2(53) * d <= t * u) by (nonlinear_arith)
            requires
                d == sample_rate_hz * u,
                sample_rate_hz <= pow2(32),
                pow2(85) == pow2(53) * pow2(32),
                pow2(174) == pow2(85) * pow2(89),
                pow2(89) >= 1,
                pow2(174) <= t,
                pow2(53) >= 0,
        ;
        lemma_rounded_between(double_spec(), 2 * (t * u), d, 0);
        lemma_rounded_twice(t * u, d);
    } else {
        assert(turned.value() == 0) by {
            lemma_turned_nowhere();
        }
    }
}

/// At the first frame nothing has turned.
proof fn lemma_turned_nowhere()
    ensures
        full_turn().product_spec(Double::whole_spec(0)).value() == 0,
{
    lemma_turned(0);
    let turned = full_turn().product_spec(Double::whole_spec(0));
    assert(units(52, 0x4019_21fb_5444_2d18) * 0 == 0);
    assert(abs(turned.value() * 1 - 0) == abs(turned.value()));
    lemma_pow2_pos(53);
    let (w, x) = (pow2(53) as int, abs(turned.value()) as int);
    assert(12 * 0 == 0);
    assert(w * x <= 0);
    assert(x == 0) by (nonlinear_arith)
        requires
            w * x <= 0,
            w > 0,
            x >= 0,
    ;
}

/// What one frame leaves of a filter's state depends on the cutoff per sample rate: twice
/// the cutoff at twice the sample rate leaves the same.
pub proof fn twice_the_cutoff_at_twice_the_rate_is_the_same(
    cutoff_hz: Double,
    twice_hz: Double,
    sample_rate_hz: u32,
)
    requires
        0 < sample_rate_hz <= 0x7fff_ffff,
        cutoff_hz.finite(),
        twice_hz.finite(),
        pow2(174) <= cutoff_hz.value(),
        twice_hz.value() == 2 * cutoff_hz.value(),
        twice_hz.value() <= pow2(1106),
    ensures
        decay_exponent(twice_hz, (2 * sample_rate_hz) as u32) == decay_exponent(
            cutoff_hz,
            sample_rate_hz,
        ),
{
    let turn = Double { bits: 0xc019_21fb_5444_2d18 };
    let u = pow2(1074);
    lemma_bounds();
    lemma2_to64();
    lemma2_to64_rest();
    lemma_pow2_pos(1074);
    lemma_units_zero(52);
    lemma_turn();
    lemma_pow2_adds(1077, 65);
    lemma_pow2_pos(65);
    assert(pow2(1077) <= pow2(1142)) by (nonlinear_arith)
        requires
            pow2(1142) == pow2(1077) * pow2(65),
            pow2(65) >= 1,
    ;
    lemma_twice_the_frequency(turn, cutoff_hz, twice_hz);
    let twice_rate = (2 * sample_rate_hz) as u32;
    let c = Double::whole_spec(sample_rate_hz as u64);
    let e = Double::whole_spec(twice_rate as u64);
    lemma_whole(sample_rate_hz as u64);
    wholes_are_accurate(sample_rate_hz as u64);
    lemma_whole(twice_rate as u64);
    wholes_are_accurate(twice_rate as u64);
    let p = turn.product_spec(cutoff_hz);
    let q = turn.product_spec(twice_hz);
    let t = units(52, p.datum().mag as nat);
    let d = units(52, c.datum().mag as nat);
    assert(units(52, q.datum().mag as nat) == 2 * t);
    assert(d > 0 && c.datum().mag != 0 && e.datum().mag != 0);
    assert(units(52, e.datum().mag as nat) == d * 2) by (nonlinear_arith)
        requires
            units(52, e.datum().mag as nat) == twice_rate * u,
            d == sample_rate_hz * u,
            twice_rate == 2 * sample_rate_hz,
    ;
    assert((2 * t) * u == (t * u) * 2) by (nonlinear_arith);
    lemma_rounded_ratio(double_spec(), t * u, d, 2);
}

/// The larger of two magnitudes is worth no less.
proof fn lemma_units_order(a: nat, b: nat)
    requires
        a <= b,
    ensures
        units(52, a) <= units(52, b),
{
    if a < b {
        lemma_units_increase(52, a, b);
    }
}

/// A larger value rounds to no less.
proof fn lemma_rounded_order(a: nat, b: nat, den: nat)
    requires
        a <= b,
        den > 0,
        rounded(double_spec(), b, den) < double_spec().top_spec(),
    ensures
        units(52, rounded(double_spec(), a, den) as nat) <= units(
            52,
            rounded(double_spec(), b, den) as nat,
        ),
{
    let top = double_spec().top_spec();
    lemma_bounds();
    lemma_rounds_to_nearest(52, top, a, den);
    lemma_rounds_to_nearest(52, top, b, den);
    lemma_rounding_monotone(
        52,
        top,
        nearest(52, top, a, den),
        a,
        nearest(52, top, b, den),
        b,
        den,
    );
    lemma_units_order(nearest(52, top, a, den), nearest(52, top, b, den));
}

/// A higher frequency never turns less far.
pub proof fn a_higher_frequency_turns_as_far(
    frame: u64,
    sample_rate_hz: u32,
    low_hz: Double,
    high_hz: Double,
)
    requires
        sample_rate_hz > 0,
        low_hz.finite(),
        high_hz.finite(),
        0 <= low_hz.value() <= high_hz.value() <= pow2(1106),
    ensures
        sine_phase(frame, sample_rate_hz, low_hz).value() <= sine_phase(
            frame,
            sample_rate_hz,
            high_hz,
        ).value(),
{
    let turned = full_turn().product_spec(Double::whole_spec(frame));
    lemma_turned(frame);
    lemma_over_rate_order(turned, low_hz, high_hz, sample_rate_hz);
}

/// Order is kept.
proof fn lemma_over_rate_order(a: Double, low: Double, high: Double, rate: u32)
    requires
        rate > 0,
        a.finite(),
        abs(a.value()) <= pow2(1142),
        low.finite(),
        high.finite(),
        0 <= low.value() <= high.value() <= pow2(1106),
    ensures
        ({
            let c = Double::whole_spec(rate as u64);
            abs(a.product_spec(low).quotient_spec(c).value()) <= abs(
                a.product_spec(high).quotient_spec(c).value(),
            )
        }),
        ({
            let c = Double::whole_spec(rate as u64);
            a.value() >= 0 ==> a.product_spec(low).quotient_spec(c).value() <= a.product_spec(
                high,
            ).quotient_spec(c).value()
        }),
{
    let u = pow2(1074);
    let c = Double::whole_spec(rate as u64);
    lemma_bounds();
    lemma_pow2_pos(1074);
    lemma_units_zero(52);
    lemma_over_rate(a, low, rate);
    lemma_over_rate(a, high, rate);
    lemma_whole(rate as u64);
    let m = units(52, a.datum().mag as nat);
    let x = units(52, low.datum().mag as nat);
    let y = units(52, high.datum().mag as nat);
    assert(m * x <= m * y) by (nonlinear_arith)
        requires
            x <= y,
    ;
    lemma_pow2_adds(1142, 1106);
    lemma_pow2_adds(1174, 1074);
    assert(m * y <= pow2(1142) * pow2(1106)) by (nonlinear_arith)
        requires
            m <= pow2(1142),
            y <= pow2(1106),
    ;
    lemma_rounded_at_most(m * y, u, 1174);
    lemma_rounded_at_most(m * x, u, 1174);
    lemma_rounded_order(m * x, m * y, u);
    let s = a.product_spec(low);
    let t = a.product_spec(high);
    let (i, j) = (units(52, s.datum().mag as nat), units(52, t.datum().mag as nat));
    let d = units(52, c.datum().mag as nat);
    assert(i * u <= j * u) by (nonlinear_arith)
        requires
            i <= j,
    ;
    assert(c.datum().mag != 0 && d > 0);
    lemma_rounded_between(double_spec(), j * u, d, 0);
    lemma_rounded_between(double_spec(), i * u, d, 0);
    lemma_rounded_order(i * u, j * u, d);
}

/// At a higher sample rate one frame leaves no less of a filter's state, and with a lower
/// cutoff too: the logarithm is no further from zero.
pub proof fn a_shorter_frame_leaves_as_much(
    low_hz: Double,
    high_hz: Double,
    low_rate_hz: u32,
    high_rate_hz: u32,
)
    requires
        0 < low_rate_hz <= high_rate_hz,
        low_hz.finite(),
        high_hz.finite(),
        0 <= low_hz.value() <= high_hz.value() <= pow2(1106),
    ensures
        decay_exponent(high_hz, low_rate_hz).value() <= decay_exponent(
            low_hz,
            high_rate_hz,
        ).value() <= 0,
{
    let turn = Double { bits: 0xc019_21fb_5444_2d18 };
    let u = pow2(1074);
    lemma_bounds();
    lemma2_to64();
    lemma2_to64_rest();
    lemma_pow2_pos(1074);
    lemma_units_zero(52);
    lemma_turn();
    lemma_pow2_adds(1077, 65);
    lemma_pow2_pos(65);
    assert(pow2(1077) <= pow2(1142)) by (nonlinear_arith)
        requires
            pow2(1142) == pow2(1077) * pow2(65),
            pow2(65) >= 1,
    ;
    lemma_over_rate(turn, high_hz, low_rate_hz);
    lemma_over_rate(turn, high_hz, high_rate_hz);
    lemma_over_rate(turn, low_hz, high_rate_hz);
    lemma_over_rate_order(turn, low_hz, high_hz, high_rate_hz);
    let c = Double::whole_spec(low_rate_hz as u64);
    let e = Double::whole_spec(high_rate_hz as u64);
    lemma_whole(low_rate_hz as u64);
    wholes_are_accurate(low_rate_hz as u64);
    lemma_whole(high_rate_hz as u64);
    wholes_are_accurate(high_rate_hz as u64);
    let p = turn.product_spec(high_hz);
    let t = units(52, p.datum().mag as nat);
    let d = units(52, c.datum().mag as nat);
    let f = units(52, e.datum().mag as nat);
    assert(d <= f) by (nonlinear_arith)
        requires
            d == low_rate_hz * u,
            f == high_rate_hz * u,
            low_rate_hz <= high_rate_hz,
    ;
    assert(d > 0 && c.datum().mag != 0 && e.datum().mag != 0);
    lemma_rounded_ratio(double_spec(), t * u, d, f);
    lemma_rounded_ratio(double_spec(), t * u, f, d);
    assert(d * f == f * d) by (nonlinear_arith);
    assert((t * u) * d <= (t * u) * f) by (nonlinear_arith)
        requires
            d <= f,
            t * u >= 0,
    ;
    assert(d * f > 0) by (nonlinear_arith)
        requires
            d > 0,
            f > 0,
    ;
    lemma_rounded_between(double_spec(), t * u, d, 0);
    assert(p.finite()) by {
        let m = units(52, turn.datum().mag as nat);
        let n = units(52, high_hz.datum().mag as nat);
        lemma_pow2_adds(1142, 1106);
        lemma_pow2_adds(1174, 1074);
        assert(m * n <= pow2(1142) * pow2(1106)) by (nonlinear_arith)
            requires
                m <= pow2(1142),
                n <= pow2(1106),
        ;
        lemma_rounded_at_most(m * n, u, 1174);
    }
    lemma_rounded_order((t * u) * d, (t * u) * f, d * f);
    lemma_rounded_between(double_spec(), t * u, f, 0);
    let near = p.quotient_spec(c);
    let far = p.quotient_spec(e);
    assert(near == decay_exponent(high_hz, low_rate_hz));
    assert(near.datum().mag == rounded(double_spec(), t * u, d));
    assert(far.datum().mag == rounded(double_spec(), t * u, f));
    assert(abs(far.value()) <= abs(near.value()));
}

} // verus!
