//! The integer parts of the cardinality estimate.
//!
//! With `m` registers `r_0 .. r_{m-1}`, the raw estimate is
//! `E = 2 * alpha(m) * m^2 / sum_j 2^(-r_j)`. A register holds a count of
//! leading zero bits, one less than the position of the first one bit that
//! the harmonic-mean estimator is stated over, so each `2^(-r_j)` is twice
//! that estimator's term; the factor 2 restores it. Scaling the sum by `2^64`
//! makes it an integer, `S = sum_j 2^(64 - r_j)`, and `alpha(m)` is the
//! fraction `a / b`, so `E = 2 * a * m^2 * 2^64 / (b * S)` exactly. The
//! estimate is `E` when `E > 2.5 m`; below that it is linear counting,
//! `m * ln(m / z)` with `z` the number of zero registers, unless no register
//! is zero.
use vstd::arithmetic::power2::{
    lemma2_to64, lemma2_to64_rest, lemma_pow2_strictly_increases, lemma_pow2_unfold, pow2,
};
use vstd::bits::{lemma_u64_pow2_no_overflow, lemma_u64_shl_is_mul};
use vstd::prelude::*;

use crate::registers::{
    absorb_all, lemma_repeat_absorbs_nothing, valid_registers, zeros, HyperLogLog, MAX_REGISTERS,
};

verus! {

/// `2^64`, the scale of the harmonic sum.
pub open spec fn scale() -> int {
    0x1_0000_0000_0000_0000
}

/// Which formula the estimate takes.
#[derive(Debug, PartialEq, Eq, Structural)]
pub enum Regime {
    /// The bias-corrected harmonic-mean estimate, unmodified.
    Raw,
    /// Linear counting over the given number of zero registers.
    LinearCounting(usize),
}

/// The number of registers that are zero.
pub open spec fn zero_total(regs: Seq<u32>) -> nat
    decreases regs.len(),
{
    if regs.len() == 0 {
        0
    } else {
        zero_total(regs.drop_last()) + if regs.last() == 0 {
            1nat
        } else {
            0nat
        }
    }
}

/// `sum_j 2^(64 - r_j)`: the harmonic sum `sum_j 2^(-r_j)` scaled by `2^64`.
pub open spec fn harmonic_numerator(regs: Seq<u32>) -> nat
    decreases regs.len(),
{
    if regs.len() == 0 {
        0
    } else {
        harmonic_numerator(regs.drop_last()) + pow2((64 - regs.last()) as nat)
    }
}

/// The numerator of the bias constant `alpha(m)`.
pub open spec fn alpha_num(m: nat) -> nat {
    if m == 16 {
        673
    } else if m == 32 {
        697
    } else if m == 64 {
        709
    } else {
        7213 * m
    }
}

/// The denominator of the bias constant `alpha(m)`: with `alpha_num` it gives
/// 0.673, 0.697 and 0.709 for 16, 32 and 64 registers, and
/// `0.7213 / (1 + 1.079 / m)` = `7213 m / (10000 m + 10790)` otherwise.
pub open spec fn alpha_den(m: nat) -> nat {
    if m == 16 || m == 32 || m == 64 {
        1000
    } else {
        10000 * m + 10790
    }
}

/// Whether the raw estimate `2 * a * m^2 * 2^64 / (b * S)` exceeds `5 m / 2`.
pub open spec fn raw_exceeds(regs: Seq<u32>) -> bool {
    let m = regs.len();
    4 * alpha_num(m) * m * scale() > 5 * alpha_den(m) * harmonic_numerator(regs)
}

/// The formula the estimate takes for the given registers.
pub open spec fn regime_of(regs: Seq<u32>) -> Regime {
    if raw_exceeds(regs) || zero_total(regs) == 0 {
        Regime::Raw
    } else {
        Regime::LinearCounting(zero_total(regs) as usize)
    }
}

proof fn lemma_zero_total_bound(regs: Seq<u32>)
    ensures
        zero_total(regs) <= regs.len(),
    decreases regs.len(),
{
    if regs.len() > 0 {
        lemma_zero_total_bound(regs.drop_last());
    }
}

proof fn lemma_harmonic_numerator_bound(regs: Seq<u32>)
    requires
        forall|j: int| 0 <= j < regs.len() ==> regs[j] <= 64,
    ensures
        regs.len() <= harmonic_numerator(regs) <= regs.len() * scale(),
    decreases regs.len(),
{
    if regs.len() > 0 {
        let prefix = regs.drop_last();
        lemma_harmonic_numerator_bound(prefix);
        let e = (64 - regs.last()) as nat;
        lemma2_to64();
        if e < 64 {
            lemma_pow2_strictly_increases(e, 64);
        }
        vstd::arithmetic::power2::lemma_pow2_pos(e);
        assert(regs.len() * scale() == prefix.len() * scale() + scale()) by (nonlinear_arith)
            requires
                regs.len() == prefix.len() + 1,
        ;
    }
}

proof fn lemma_zeros_totals(m: nat)
    ensures
        zero_total(zeros(m)) == m,
        harmonic_numerator(zeros(m)) == m * scale(),
    decreases m,
{
    if m > 0 {
        assert(zeros(m).drop_last() =~= zeros((m - 1) as nat));
        lemma_zeros_totals((m - 1) as nat);
        lemma2_to64_rest();
        assert(m * scale() == (m - 1) * scale() + scale()) by (nonlinear_arith);
    }
}

/// A fresh estimator's estimate is linear counting over all `m` registers,
/// so it is `m * ln(m / m) = 0`.
pub proof fn lemma_fresh_estimate_is_zero(m: nat)
    requires
        1 <= m <= MAX_REGISTERS,
    ensures
        regime_of(zeros(m)) == Regime::LinearCounting(m as usize),
{
    lemma_zeros_totals(m);
    let a = alpha_num(m);
    let b = alpha_den(m);
    assert(4 * a < 5 * b);
    assert(4 * a * m * scale() <= 5 * b * (m * scale())) by (nonlinear_arith)
        requires
            4 * a < 5 * b,
            m >= 1,
    ;
}

/// The estimate is a function of the registers alone: two estimators with
/// the same registers take the same regime over the same sums, so querying
/// twice with no update in between gives the same answer.
pub proof fn lemma_query_is_repeatable(x: HyperLogLog, y: HyperLogLog)
    requires
        x@ == y@,
    ensures
        regime_of(x@) == regime_of(y@),
        harmonic_numerator(x@) == harmonic_numerator(y@),
        zero_total(x@) == zero_total(y@),
{
}

/// Absorbing a sequence of hashes a second time leaves the regime and both
/// sums of the estimate unchanged.
pub proof fn lemma_repeats_leave_estimate(regs: Seq<u32>, hs: Seq<u64>)
    requires
        regs.len() >= 1,
    ensures
        regime_of(absorb_all(regs, hs + hs)) == regime_of(absorb_all(regs, hs)),
        harmonic_numerator(absorb_all(regs, hs + hs)) == harmonic_numerator(absorb_all(regs, hs)),
        zero_total(absorb_all(regs, hs + hs)) == zero_total(absorb_all(regs, hs)),
{
    lemma_repeat_absorbs_nothing(regs, hs);
}

/// `2^(64 - r)` for a register value `r`.
fn term(r: u32) -> (t: u128)
    requires
        r <= 64,
    ensures
        t == pow2((64 - r) as nat),
{
    if r == 64 {
        proof {
            lemma2_to64();
        }
        1
    } else {
        let e: u64 = (63 - r) as u64;
        proof {
            lemma_u64_pow2_no_overflow(e as nat);
            lemma_u64_shl_is_mul(1, e);
            lemma_pow2_unfold((64 - r) as nat);
        }
        let x: u64 = 1u64 << e;
        (x as u128) * 2
    }
}

/// Decides `4 a m 2^64 > 5 b s` without overflow, by splitting `s` at `2^64`.
fn exceeds_threshold(m: usize, a: u128, b: u128, s: u128) -> (r: bool)
    requires
        1 <= m <= MAX_REGISTERS,
        a <= 7213 * m,
        1 <= b <= 10000 * m + 10790,
        s <= m * scale(),
    ensures
        r == (4 * a * m * scale() > 5 * b * s),
{
    let k: u128 = 0x1_0000_0000_0000_0000;
    let sh: u128 = s / k;
    let sl: u128 = s % k;
    let mm: u128 = m as u128;
    assert(sh <= m) by (nonlinear_arith)
        requires
            s <= m * k,
            sh == s / k,
            k > 0,
    ;
    assert(4 * a * m <= 4 * 7213 * 0xFFFF_FFFF * 0xFFFF_FFFF) by (nonlinear_arith)
        requires
            a <= 7213 * m,
            m <= 0xFFFF_FFFF,
    ;
    assert(5 * b * sh <= 5 * (10000 * 0xFFFF_FFFF + 10790) * 0xFFFF_FFFF) by (nonlinear_arith)
        requires
            b <= 10000 * m + 10790,
            m <= 0xFFFF_FFFF,
            sh <= m,
    ;
    let p: u128 = 4 * a * mm;
    let q: u128 = 5 * b * sh;
    assert(s == sh * k + sl);
    assert(5 * b * s == q * k + 5 * b * sl) by (nonlinear_arith)
        requires
            s == sh * k + sl,
            q == 5 * b * sh,
    ;
    assert(4 * a * m * k == p * k);
    if p <= q {
        assert(p * k <= q * k) by (nonlinear_arith)
            requires
                p <= q,
                k > 0,
        ;
        return false;
    }
    let d: u128 = p - q;
    let fb: u128 = 5 * b;
    if d >= fb {
        assert(fb * sl < d * k) by (nonlinear_arith)
            requires
                sl < k,
                fb <= d,
                fb > 0,
        ;
        return true;
    }
    assert(d * k < 0x1_0000_0000_0000 * k) by (nonlinear_arith)
        requires
            d < fb,
            fb <= 5 * (10000 * 0xFFFF_FFFF + 10790),
            k > 0,
    ;
    assert(fb * sl < 0x1_0000_0000_0000 * k) by (nonlinear_arith)
        requires
            sl < k,
            fb <= 5 * (10000 * 0xFFFF_FFFF + 10790),
    ;
    d * k > fb * sl
}

impl HyperLogLog {
    /// The number of registers that are zero.
    pub fn zero_count(&self) -> (r: usize)
        ensures
            r == zero_total(self@),
    {
        let regs = self.registers();
        let mut count: usize = 0;
        let mut i: usize = 0;
        while i < regs.len()
            invariant
                regs@ == self@,
                i <= regs@.len(),
                count == zero_total(regs@.take(i as int)),
            decreases regs@.len() - i,
        {
            assert(regs@.take(i + 1).drop_last() =~= regs@.take(i as int));
            proof {
                lemma_zero_total_bound(regs@.take(i as int));
            }
            if regs[i] == 0 {
                count = count + 1;
            }
            i = i + 1;
        }
        assert(regs@.take(i as int) =~= regs@);
        count
    }

    /// The harmonic sum of the registers scaled by `2^64`:
    /// `sum_j 2^(64 - r_j)`.
    pub fn register_sum(&self) -> (r: u128)
        requires
            self.wf(),
        ensures
            r == harmonic_numerator(self@),
    {
        let regs = self.registers();
        let mut sum: u128 = 0;
        let mut i: usize = 0;
        while i < regs.len()
            invariant
                regs@ == self@,
                valid_registers(regs@),
                i <= regs@.len(),
                sum == harmonic_numerator(regs@.take(i as int)),
            decreases regs@.len() - i,
        {
            let ghost next = regs@.take(i + 1);
            assert(next.drop_last() =~= regs@.take(i as int));
            proof {
                lemma_harmonic_numerator_bound(next);
                assert(next.len() * scale() <= 0xFFFF_FFFF * scale()) by (nonlinear_arith)
                    requires
                        next.len() <= 0xFFFF_FFFF,
                ;
            }
            sum = sum + term(regs[i]);
            i = i + 1;
        }
        assert(regs@.take(i as int) =~= regs@);
        sum
    }

    /// The bias constant `alpha(m)` as the fraction `(numerator, denominator)`:
    /// 673/1000, 697/1000 and 709/1000 for 16, 32 and 64 registers, and
    /// `7213 m / (10000 m + 10790)` otherwise.
    pub fn alpha(m: usize) -> (r: (u128, u128))
        ensures
            r.0 == alpha_num(m as nat),
            r.1 == alpha_den(m as nat),
    {
        if m == 16 {
            (673, 1000)
        } else if m == 32 {
            (697, 1000)
        } else if m == 64 {
            (709, 1000)
        } else {
            let mm: u128 = m as u128;
            (7213 * mm, 10000 * mm + 10790)
        }
    }

    /// Which formula the estimate takes: the raw estimate when it exceeds
    /// `2.5 m` or when no register is zero, linear counting over the zero
    /// registers otherwise.
    pub fn regime(&self) -> (r: Regime)
        requires
            self.wf(),
        ensures
            r == regime_of(self@),
    {
        let m = self.len();
        let (a, b) = HyperLogLog::alpha(m);
        let s = self.register_sum();
        proof {
            lemma_harmonic_numerator_bound(self@);
        }
        if exceeds_threshold(m, a, b, s) {
            return Regime::Raw;
        }
        let z = self.zero_count();
        if z == 0 {
            Regime::Raw
        } else {
            Regime::LinearCounting(z)
        }
    }
}

} // verus!
