//! The few numbers that the engine's rules name.
use crate::ieee::convert::{lemma_below_top, lemma_product_below, lemma_units_top};
use crate::ieee::datum::Datum;
use crate::ieee::format::{lemma_compose, lemma_units_zero, units};
use crate::ieee::number::{lemma_bounds, Double, Single};
use crate::ieee::round::{double, double_spec, round_scaled};
use vstd::arithmetic::power2::{
    lemma2_to64, lemma2_to64_rest, lemma_pow2_adds, lemma_pow2_pos, lemma_pow2_strictly_increases,
    lemma_pow2_unfold, pow2,
};
use vstd::prelude::*;

verus! {

/// What one is worth, counted in the least positive number of each precision.
pub proof fn lemma_ones()
    ensures
        units(23, 0x3f80_0000) == pow2(149),
        units(52, 0x3ff0_0000_0000_0000) == pow2(1074),
{
    lemma2_to64();
    lemma2_to64_rest();
    lemma_compose(23, 126, pow2(23));
    lemma_pow2_adds(23, 126);
    lemma_compose(52, 1022, pow2(52));
    lemma_pow2_adds(52, 1022);
}

/// Zero.
pub fn zero() -> (r: Double)
    ensures
        r.finite(),
        r.value() == 0,
        r.bits == 0,
{
    proof {
        lemma_bounds();
        lemma_units_zero(52);
    }
    Double { bits: 0 }
}

/// One.
pub fn one() -> (r: Double)
    ensures
        r.finite(),
        r.value() == pow2(1074),
        r.bits == 0x3ff0_0000_0000_0000,
{
    proof {
        lemma_bounds();
        lemma_ones();
    }
    Double { bits: 0x3ff0_0000_0000_0000 }
}

/// One, in single precision.
pub fn single_one() -> (r: Single)
    ensures
        r.finite(),
        r.value() == pow2(149),
        r.bits == 0x3f80_0000,
{
    proof {
        lemma_bounds();
        lemma_ones();
    }
    Single { bits: 0x3f80_0000 }
}

/// Minus one, in single precision.
pub fn single_minus_one() -> (r: Single)
    ensures
        r.finite(),
        r.value() == -(pow2(149) as int),
        r.bits == 0xbf80_0000,
{
    proof {
        lemma_bounds();
        lemma_ones();
    }
    Single { bits: 0xbf80_0000 }
}

/// Half of a sample rate, exactly.
pub fn nyquist(sample_rate_hz: u32) -> (r: Double)
    ensures
        r.finite(),
        2 * r.value() == sample_rate_hz * pow2(1074),
        !r.datum().negative,
{
    let ghost u = pow2(1073);
    let ghost num = sample_rate_hz as nat * u;
    proof {
        lemma_bounds();
        let s = sample_rate_hz as nat;
        lemma_pow2_pos(1073);
        lemma_pow2_unfold(1074);
        lemma2_to64();
        lemma2_to64_rest();
        lemma_pow2_strictly_increases(32, 127);
        assert((s + 1) * (u * 1) > s * (u * 1)) by (nonlinear_arith)
            requires
                u > 0,
        ;
        lemma_product_below(s, 32, 1073, 1200);
        lemma_pow2_unfold(1201);
        lemma_pow2_strictly_increases(1201, 2098);
        lemma_units_top(double_spec());
        let v = pow2(1074);
        assert(2 * (s * u) == s * v) by (nonlinear_arith)
            requires
                v == 2 * u,
        ;
        assert(pow2(0) == 1);
    }
    let mag: u64 = round_scaled(
        double(),
        sample_rate_hz as u128,
        1073,
        0,
        false,
        Ghost(num),
        Ghost(1),
    );
    proof {
        lemma_below_top(double_spec(), mag as nat, num, 1);
    }
    Double::from_datum(Datum { negative: false, mag })
}

} // verus!
