//! Non-negative integers of up to 256 bits, as four 64-bit limbs: enough to
//! scale a 64-bit sample count by the powers of two that `f32` values carry.

use vstd::prelude::*;

use vstd::arithmetic::div_mod::{lemma_fundamental_div_mod, lemma_fundamental_div_mod_converse, lemma_mod_bound};
use vstd::arithmetic::power2::{lemma2_to64_rest, lemma_pow2_adds, pow2};

verus! {

/// `2^64`.
pub open spec fn base() -> int {
    0x1_0000_0000_0000_0000
}

/// A 256-bit number; `l3` is the most significant limb.
#[derive(Clone, Copy)]
pub struct Wide {
    pub l3: u64,
    pub l2: u64,
    pub l1: u64,
    pub l0: u64,
}

/// The value of `w`.
pub open spec fn wide_val(w: Wide) -> int {
    ((w.l3 * base() + w.l2) * base() + w.l1) * base() + w.l0
}

/// One step of long division by `f`: `rem * 2^64 + limb == q * f + r`.
fn div_step(rem: u64, limb: u64, f: u64) -> (qr: (u64, u64))
    requires
        f >= 1,
        rem < f,
    ensures
        rem * base() + limb == qr.0 * f + qr.1,
        qr.1 < f,
{
    assert(rem * base() + limb < 0x1_0000_0000_0000_0000_0000_0000_0000_0000) by (nonlinear_arith)
        requires
            rem < 0x1_0000_0000_0000_0000,
            limb < 0x1_0000_0000_0000_0000,
    ;
    let x: u128 = rem as u128 * 0x1_0000_0000_0000_0000u128 + limb as u128;
    let fw = f as u128;
    let q = x / fw;
    let r = x % fw;
    proof {
        lemma_fundamental_div_mod(x as int, fw as int);
        lemma_mod_bound(x as int, fw as int);
        vstd::arithmetic::mul::lemma_mul_is_commutative(fw as int, q as int);
        assert(q < base()) by (nonlinear_arith)
            requires
                x == rem * base() + limb,
                x == fw * q + r,
                r >= 0,
                rem + 1 <= fw,
                limb < base(),
                fw >= 1,
        ;
    }
    (q as u64, r as u64)
}

/// `floor(w / f)`.
pub fn wide_div(w: Wide, f: u64) -> (r: Wide)
    requires
        f >= 1,
    ensures
        wide_val(r) == wide_val(w) / (f as int),
{
    let (q3, r3) = div_step(0, w.l3, f);
    let (q2, r2) = div_step(r3, w.l2, f);
    let (q1, r1) = div_step(r2, w.l1, f);
    let (q0, r0) = div_step(r1, w.l0, f);
    let r = Wide { l3: q3, l2: q2, l1: q1, l0: q0 };
    proof {
        let b = base();
        let a1 = q3 * b + q2;
        let a2 = a1 * b + q1;
        let a3 = a2 * b + q0;
        assert(w.l3 * b + w.l2 == f * a1 + r2) by (nonlinear_arith)
            requires
                w.l3 == q3 * f + r3,
                r3 * b + w.l2 == q2 * f + r2,
                a1 == q3 * b + q2,
        ;
        assert((w.l3 * b + w.l2) * b + w.l1 == f * a2 + r1) by (nonlinear_arith)
            requires
                w.l3 * b + w.l2 == f * a1 + r2,
                r2 * b + w.l1 == q1 * f + r1,
                a2 == a1 * b + q1,
        ;
        assert(((w.l3 * b + w.l2) * b + w.l1) * b + w.l0 == f * a3 + r0) by (nonlinear_arith)
            requires
                (w.l3 * b + w.l2) * b + w.l1 == f * a2 + r1,
                r1 * b + w.l0 == q0 * f + r0,
                a3 == a2 * b + q0,
        ;
        assert(wide_val(r) == a3);
        vstd::arithmetic::mul::lemma_mul_is_commutative(f as int, a3);
        lemma_fundamental_div_mod_converse(wide_val(w), f as int, wide_val(r), r0 as int);
    }
    r
}

/// Whether `w` is at least `m`.
pub fn wide_ge(w: Wide, m: u64) -> (r: bool)
    ensures
        r == (wide_val(w) >= m),
{
    proof {
        assert(wide_val(w) >= w.l0);
        assert((w.l3 != 0 || w.l2 != 0 || w.l1 != 0) ==> wide_val(w) >= base()) by (nonlinear_arith)
            requires
                wide_val(w) == ((w.l3 * base() + w.l2) * base() + w.l1) * base() + w.l0,
                w.l3 >= 0,
                w.l2 >= 0,
                w.l1 >= 0,
                w.l0 >= 0,
        ;
    }
    w.l3 != 0 || w.l2 != 0 || w.l1 != 0 || w.l0 >= m
}

/// `v * 2^s`.
pub fn wide_shifted(v: u64, s: u32) -> (r: Wide)
    requires
        s < 192,
    ensures
        wide_val(r) == v * pow2(s as nat),
{
    let q = s / 64;
    let rest = s % 64;
    proof {
        vstd::bits::lemma_u64_pow2_no_overflow(rest as nat);
        vstd::bits::lemma_u64_shl_is_mul(1, rest as u64);
    }
    let p: u64 = 1u64 << (rest as u64);
    assert(v * p < 0x1_0000_0000_0000_0000_0000_0000_0000_0000) by (nonlinear_arith)
        requires
            v < 0x1_0000_0000_0000_0000,
            p < 0x1_0000_0000_0000_0000,
    ;
    let x: u128 = v as u128 * p as u128;
    let hi = (x / 0x1_0000_0000_0000_0000u128) as u64;
    let lo = (x % 0x1_0000_0000_0000_0000u128) as u64;
    proof {
        lemma_fundamental_div_mod(x as int, base());
        lemma2_to64_rest();
        lemma_pow2_adds(64, 64);
        lemma_pow2_adds(128, rest as nat);
        lemma_pow2_adds(64, rest as nat);
        assert(x == hi * base() + lo);
        assert(s == 64 * q + rest);
    }
    if q == 0 {
        Wide { l3: 0, l2: 0, l1: hi, l0: lo }
    } else if q == 1 {
        proof {
            assert(v * pow2(s as nat) == (v * pow2(rest as nat)) * base()) by (nonlinear_arith)
                requires
                    pow2(s as nat) == pow2(64) * pow2(rest as nat),
                    pow2(64) == base(),
            ;
        }
        Wide { l3: 0, l2: hi, l1: lo, l0: 0 }
    } else {
        proof {
            assert(pow2(128) == base() * base());
            assert(v * pow2(s as nat) == (v * pow2(rest as nat)) * base() * base()) by (nonlinear_arith)
                requires
                    pow2(s as nat) == pow2(128) * pow2(rest as nat),
                    pow2(128) == base() * base(),
            ;
        }
        Wide { l3: hi, l2: lo, l1: 0, l0: 0 }
    }
}

} // verus!
