//! Natural numbers of any size, as far as reading decimals needs them.
use vstd::arithmetic::power::{lemma_pow_adds, lemma_pow_positive, pow};
use vstd::arithmetic::power2::{lemma2_to64, lemma_pow2_adds, lemma_pow2_unfold, pow2};
use vstd::prelude::*;

verus! {

/// The limb at a place; beyond the last one there are only zeros.
pub open spec fn limb(limbs: Seq<u32>, place: nat) -> nat {
    if place < limbs.len() {
        limbs[place as int] as nat
    } else {
        0
    }
}

/// The number that the lowest `count` limbs stand for.
pub open spec fn low(limbs: Seq<u32>, count: nat) -> nat
    decreases count,
{
    if count == 0 {
        0
    } else {
        low(limbs, (count - 1) as nat) + limb(limbs, (count - 1) as nat) * pow2(
            32 * (count - 1) as nat,
        )
    }
}

/// A natural number.
pub struct Natural {
    limbs: Vec<u32>,
}

impl View for Natural {
    type V = nat;

    closed spec fn view(&self) -> nat {
        low(self.limbs@, self.limbs@.len())
    }
}

/// Zeros above the last limb add nothing.
proof fn lemma_low_beyond(limbs: Seq<u32>, count: nat)
    requires
        count >= limbs.len(),
    ensures
        low(limbs, count) == low(limbs, limbs.len()),
    decreases count,
{
    if count > limbs.len() {
        lemma_low_beyond(limbs, (count - 1) as nat);
        assert(limb(limbs, (count - 1) as nat) * pow2(32 * (count - 1) as nat) == 0)
            by (nonlinear_arith)
            requires
                limb(limbs, (count - 1) as nat) == 0,
        ;
    }
}

/// Low limbs do not depend on those above.
proof fn lemma_low_same(a: Seq<u32>, b: Seq<u32>, count: nat)
    requires
        forall|i: nat| i < count ==> #[trigger] limb(a, i) == limb(b, i),
    ensures
        low(a, count) == low(b, count),
    decreases count,
{
    if count > 0 {
        lemma_low_same(a, b, (count - 1) as nat);
    }
}

/// Limbs stay below the next place.
proof fn lemma_low_bound(limbs: Seq<u32>, count: nat)
    ensures
        low(limbs, count) < pow2(32 * count),
    decreases count,
{
    lemma2_to64();
    if count > 0 {
        let below = (count - 1) as nat;
        lemma_low_bound(limbs, below);
        lemma_pow2_adds(32, 32 * below);
        let p = pow2(32 * below);
        let x = limb(limbs, below);
        assert(pow2(32 * count) == 0x1_0000_0000 * p);
        assert(x * p + p <= 0x1_0000_0000 * p) by (nonlinear_arith)
            requires
                x < 0x1_0000_0000,
        ;
    }
}

impl Natural {
    /// Makes a number of one limb.
    pub(crate) fn small(value: u32) -> (r: Natural)
        ensures
            r@ == value,
    {
        let limbs: Vec<u32> = vec![value];
        proof {
            reveal_with_fuel(low, 2);
            lemma2_to64();
            assert(limb(limbs@, 0) * pow2(0) == value) by (nonlinear_arith)
                requires
                    limb(limbs@, 0) == value,
                    pow2(0) == 1,
            ;
            assert(32 * 0nat == 0);
            assert(low(limbs@, 1) == value);
        }
        Natural { limbs }
    }

    /// Makes a number of two limbs.
    pub(crate) fn wide(value: u64) -> (r: Natural)
        ensures
            r@ == value,
    {
        let mut r: Natural = Natural::small((value / 0x1_0000_0000) as u32);
        r.shift(32);
        r.scale(1, (value % 0x1_0000_0000) as u32);
        proof {
            lemma2_to64();
        }
        r
    }

    /// A number of its own that is the same.
    pub(crate) fn copy(&self) -> (r: Natural)
        ensures
            r@ == self@,
    {
        let mut limbs: Vec<u32> = Vec::new();
        let mut i: usize = 0;
        while i < self.limbs.len()
            invariant
                i <= self.limbs@.len(),
                limbs@ == self.limbs@.take(i as int),
            decreases self.limbs@.len() - i,
        {
            limbs.push(self.limbs[i]);
            assert(limbs@ =~= self.limbs@.take(i + 1));
            i += 1;
        }
        assert(limbs@ =~= self.limbs@);
        Natural { limbs }
    }

    /// Multiplies by a small number and adds another.
    pub(crate) fn scale(&mut self, factor: u32, addend: u32)
        ensures
            final(self)@ == old(self)@ * factor + addend,
    {
        let ghost before = self.limbs@;
        let ghost n = before.len();
        let mut carry: u64 = addend as u64;
        let mut i: usize = 0;
        proof {
            lemma2_to64();
            assert(carry * pow2(0) == addend) by (nonlinear_arith)
                requires
                    carry == addend,
                    pow2(0) == 1,
            ;
            assert(low(before, 0) * factor == 0) by (nonlinear_arith)
                requires
                    low(before, 0) == 0,
            ;
        }
        while i < self.limbs.len()
            invariant
                i <= n,
                self.limbs@.len() == n == before.len(),
                forall|j: int| i <= j < n ==> self.limbs@[j] == before[j],
                carry <= 0xffff_ffff,
                low(self.limbs@, i as nat) + carry * pow2(32 * i as nat) == low(before, i as nat)
                    * factor + addend,
            decreases n - i,
        {
            let x: u32 = self.limbs[i];
            assert(x * factor + carry <= 0xffff_ffff_ffff_ffff) by (nonlinear_arith)
                requires
                    x <= 0xffff_ffff,
                    factor <= 0xffff_ffff,
                    carry <= 0xffff_ffff,
            ;
            let wide: u64 = x as u64 * factor as u64 + carry;
            let digit: u32 = (wide % 0x1_0000_0000) as u32;
            let next: u64 = wide / 0x1_0000_0000;
            let ghost old_limbs = self.limbs@;
            self.limbs.set(i, digit);
            proof {
                lemma_low_same(old_limbs, self.limbs@, i as nat);
                lemma2_to64();
                lemma_pow2_adds(32, 32 * i as nat);
                assert(32 * (i + 1) as nat == 32 + 32 * i as nat);
                let p = pow2(32 * i as nat) as int;
                let a = low(old_limbs, i as nat) as int;
                let b = low(before, i as nat) as int;
                let w = wide as int;
                let d = digit as int;
                let c = next as int;
                let xi = x as int;
                let f = factor as int;
                let k = carry as int;
                let e = addend as int;
                assert(d * p + c * (0x1_0000_0000 * p) == w * p) by (nonlinear_arith)
                    requires
                        w == c * 0x1_0000_0000 + d,
                ;
                assert((b + xi * p) * f + e == a + w * p) by (nonlinear_arith)
                    requires
                        a + k * p == b * f + e,
                        w == xi * f + k,
                ;
                assert(limb(before, i as nat) == xi);
                assert(limb(self.limbs@, i as nat) == d);
                assert(low(self.limbs@, (i + 1) as nat) == low(self.limbs@, i as nat) + d * p);
                assert(low(before, (i + 1) as nat) == b + xi * p);
                assert(next <= 0xffff_ffff);
            }
            carry = next;
            i += 1;
        }
        if carry > 0 {
            let ghost old_limbs = self.limbs@;
            self.limbs.push(carry as u32);
            proof {
                lemma_low_same(old_limbs, self.limbs@, n);
                assert(limb(self.limbs@, n) == carry);
            }
        } else {
            proof {
                assert(carry * pow2(32 * n) == 0) by (nonlinear_arith)
                    requires
                        carry == 0,
                ;
            }
        }
    }

    /// Multiplies by a power of two.
    pub(crate) fn shift(&mut self, places: u32)
        ensures
            final(self)@ == old(self)@ * pow2(places as nat),
    {
        let ghost start = self@;
        let mut left: u32 = places;
        proof {
            lemma2_to64();
            assert(start * pow2(0) == start) by (nonlinear_arith)
                requires
                    pow2(0) == 1,
            ;
        }
        while left >= 16
            invariant
                left <= places,
                self@ == start * pow2((places - left) as nat),
            decreases left,
        {
            self.scale(0x1_0000, 0);
            proof {
                lemma2_to64();
                let done = (places - left) as nat;
                lemma_pow2_adds(done, 16);
                let p = pow2(done);
                assert(start * p * 0x1_0000 == start * (p * 0x1_0000)) by (nonlinear_arith);
            }
            left -= 16;
        }
        while left > 0
            invariant
                left <= places,
                self@ == start * pow2((places - left) as nat),
            decreases left,
        {
            self.scale(2, 0);
            proof {
                let done = (places - left) as nat;
                lemma_pow2_unfold(done + 1);
                let p = pow2(done);
                assert(start * p * 2 == start * (2 * p)) by (nonlinear_arith);
            }
            left -= 1;
        }
    }

    /// Multiplies by a power of ten.
    pub(crate) fn scale_ten(&mut self, times: u128)
        ensures
            final(self)@ == old(self)@ * pow(10, times as nat),
    {
        let ghost start = self@;
        let mut done: u128 = 0;
        proof {
            vstd::arithmetic::power::lemma_pow0(10);
        }
        while done < times
            invariant
                done <= times,
                self@ == start * pow(10, done as nat),
            decreases times - done,
        {
            self.scale(10, 0);
            proof {
                lemma_pow_positive(10, done as nat);
                lemma_pow_adds(10, done as nat, 1);
                vstd::arithmetic::power::lemma_pow1(10);
                let p = pow(10, done as nat);
                assert(start * p * 10 == start * (p * 10)) by (nonlinear_arith);
            }
            done += 1;
        }
    }

    /// Whether this is below `other`, and whether the two are the same.
    pub(crate) fn order(&self, other: &Natural) -> (r: (bool, bool))
        ensures
            r.0 == (self@ < other@),
            r.1 == (self@ == other@),
    {
        let ghost a = self.limbs@;
        let ghost b = other.limbs@;
        let mut i: usize = if self.limbs.len() < other.limbs.len() {
            other.limbs.len()
        } else {
            self.limbs.len()
        };
        proof {
            lemma_low_beyond(a, i as nat);
            lemma_low_beyond(b, i as nat);
        }
        while i > 0
            invariant
                a == self.limbs@,
                b == other.limbs@,
                self@ - low(a, i as nat) == other@ - low(b, i as nat),
            decreases i,
        {
            let place: usize = i - 1;
            let x: u32 = if place < self.limbs.len() {
                self.limbs[place]
            } else {
                0
            };
            let y: u32 = if place < other.limbs.len() {
                other.limbs[place]
            } else {
                0
            };
            proof {
                lemma_low_bound(a, place as nat);
                lemma_low_bound(b, place as nat);
                let p = pow2(32 * place as nat) as int;
                let u = x as int;
                let v = y as int;
                assert(limb(a, place as nat) == x);
                assert(limb(b, place as nat) == y);
                if u < v {
                    assert(v * p >= u * p + p) by (nonlinear_arith)
                        requires
                            u + 1 <= v,
                            p >= 0,
                    ;
                } else if v < u {
                    assert(u * p >= v * p + p) by (nonlinear_arith)
                        requires
                            v + 1 <= u,
                            p >= 0,
                    ;
                }
            }
            if x < y {
                return (true, false);
            }
            if y < x {
                return (false, false);
            }
            i = place;
        }
        (false, true)
    }

    /// Divides by ten and gives the remainder.
    pub(crate) fn divide_ten(&mut self) -> (remainder: u32)
        ensures
            final(self)@ == old(self)@ / 10,
            remainder == old(self)@ % 10,
    {
        let ghost before = self.limbs@;
        let ghost n = before.len();
        let mut remainder: u32 = 0;
        let mut i: usize = self.limbs.len();
        proof {
            assert(0 * pow2(32 * n) == 0) by (nonlinear_arith);
        }
        while i > 0
            invariant
                i <= n,
                self.limbs@.len() == n == before.len(),
                forall|j: int| 0 <= j < i ==> self.limbs@[j] == before[j],
                remainder < 10,
                low(before, n) - low(before, i as nat) == 10 * (low(self.limbs@, n) - low(
                    self.limbs@,
                    i as nat,
                )) + remainder * pow2(32 * i as nat),
            decreases i,
        {
            let place: usize = i - 1;
            let x: u32 = self.limbs[place];
            let wide: u64 = remainder as u64 * 0x1_0000_0000 + x as u64;
            let digit: u32 = (wide / 10) as u32;
            let rest: u32 = (wide % 10) as u32;
            let ghost old_limbs = self.limbs@;
            self.limbs.set(place, digit);
            proof {
                lemma_high_same(old_limbs, self.limbs@, i as nat, n);
                lemma_low_same(old_limbs, self.limbs@, place as nat);
                lemma2_to64();
                lemma_pow2_adds(32, 32 * place as nat);
                assert(32 * i as nat == 32 + 32 * place as nat);
                let p = pow2(32 * place as nat) as int;
                let w = wide as int;
                let d = digit as int;
                let r = rest as int;
                let k = remainder as int;
                let xi = x as int;
                assert(k * (0x1_0000_0000 * p) + xi * p == 10 * (d * p) + r * p)
                    by (nonlinear_arith)
                    requires
                        k * 0x1_0000_0000 + xi == 10 * d + r,
                ;
                assert(limb(before, place as nat) == xi);
                assert(limb(self.limbs@, place as nat) == d);
                assert(low(before, i as nat) == low(before, place as nat) + xi * p);
                assert(low(self.limbs@, i as nat) == low(self.limbs@, place as nat) + d * p);
            }
            remainder = rest;
            i = place;
        }
        proof {
            lemma2_to64();
            let r = remainder as int;
            assert(r * pow2(0) == r) by (nonlinear_arith)
                requires
                    pow2(0) == 1,
            ;
            let v = low(before, n) as int;
            let q = low(self.limbs@, n) as int;
            assert(v == 10 * q + r);
        }
        remainder
    }
}

/// The worth of high limbs does not depend on those below.
proof fn lemma_high_same(a: Seq<u32>, b: Seq<u32>, from: nat, to: nat)
    requires
        from <= to,
        forall|i: nat| from <= i < to ==> #[trigger] limb(a, i) == limb(b, i),
    ensures
        low(a, to) - low(a, from) == low(b, to) - low(b, from),
    decreases to,
{
    if from < to {
        lemma_high_same(a, b, from, (to - 1) as nat);
    }
}

} // verus!
