//! Fixed-point scalar arithmetic.
//!
//! Network parameters and activations are real numbers held as `i64` values
//! scaled by `FX_ONE` (so `FX_ONE` stands for 1.0).  Every operation clips its
//! result to `[-FX_LIM, FX_LIM]`, which keeps all intermediate products inside
//! `i64` and makes every operation total.
use vstd::prelude::*;
use vstd::arithmetic::div_mod::{
    lemma_div_is_ordered, lemma_div_is_ordered_by_denominator, lemma_div_multiples_vanish,
    lemma_div_nonincreasing, lemma_div_pos_is_pos,
};

verus! {

/// The fixed-point scale: this value stands for 1.0.
pub const FX_ONE: i64 = 65536;

/// Magnitude bound on every stored scalar (2^31, i.e. 32768.0).
pub const FX_LIM: i64 = 0x8000_0000;

/// 1/e in fixed point, rounded to the nearest unit.
pub const EINV: i64 = 24112;

/// Whether a value lies in the representable scalar range.
pub open spec fn fx_in_range(x: int) -> bool {
    -(FX_LIM as int) <= x <= FX_LIM as int
}

/// Clip a value into the representable scalar range.
pub open spec fn fx_clip(x: int) -> int {
    if x > FX_LIM as int {
        FX_LIM as int
    } else if x < -(FX_LIM as int) {
        -(FX_LIM as int)
    } else {
        x
    }
}

/// Division truncating toward zero, as the machine performs it.
pub open spec fn tdiv(a: int, b: int) -> int {
    if a >= 0 {
        a / b
    } else {
        -((-a) / b)
    }
}

/// Fixed-point addition, clipped.
pub open spec fn fx_add(a: int, b: int) -> int {
    fx_clip(a + b)
}

/// Fixed-point subtraction, clipped.
pub open spec fn fx_sub(a: int, b: int) -> int {
    fx_clip(a - b)
}

/// Fixed-point multiplication: scale the product back down, then clip.
pub open spec fn fx_mul(a: int, b: int) -> int {
    fx_clip(tdiv(a * b, FX_ONE as int))
}

pub fn clip(x: i64) -> (r: i64)
    ensures
        r as int == fx_clip(x as int),
        fx_in_range(r as int),
{
    if x > FX_LIM {
        FX_LIM
    } else if x < -FX_LIM {
        -FX_LIM
    } else {
        x
    }
}

pub fn add_fx(a: i64, b: i64) -> (r: i64)
    requires
        fx_in_range(a as int),
        fx_in_range(b as int),
    ensures
        r as int == fx_add(a as int, b as int),
        fx_in_range(r as int),
{
    clip(a + b)
}

pub fn sub_fx(a: i64, b: i64) -> (r: i64)
    requires
        fx_in_range(a as int),
        fx_in_range(b as int),
    ensures
        r as int == fx_sub(a as int, b as int),
        fx_in_range(r as int),
{
    clip(a - b)
}

pub fn mul_fx(a: i64, b: i64) -> (r: i64)
    requires
        fx_in_range(a as int),
        fx_in_range(b as int),
    ensures
        r as int == fx_mul(a as int, b as int),
        fx_in_range(r as int),
{
    proof {
        assert(-0x4000_0000_0000_0000 <= a as int * b as int <= 0x4000_0000_0000_0000)
            by (nonlinear_arith)
            requires
                -0x8000_0000 <= a as int <= 0x8000_0000,
                -0x8000_0000 <= b as int <= 0x8000_0000,
        ;
    }
    let p: i64 = a * b;
    clip(p / FX_ONE)
}

/// One Horner step of the truncated alternating series for e^-f.
pub open spec fn estep(f: int, acc: int, k: int) -> int {
    FX_ONE as int - f * acc / (FX_ONE as int) / k
}

/// e^-f for f in [0, FX_ONE], by a degree-7 truncated series.
pub open spec fn exp_frac(f: int) -> int {
    estep(f, estep(f, estep(f, estep(f, estep(f, estep(f, estep(f, FX_ONE as int, 7), 6), 5), 4), 3), 2), 1)
}

/// e, raised through n successive fixed-point multiplications by 1/e.
pub open spec fn epow(e: int, n: nat) -> int
    decreases n,
{
    if n == 0 {
        e
    } else {
        epow(e, (n - 1) as nat) * (EINV as int) / (FX_ONE as int)
    }
}

/// e^-x for x >= 0 in fixed point; zero once the result would underflow.
pub open spec fn exp_neg(x: int) -> int
    recommends
        x >= 0,
{
    let n = x / (FX_ONE as int);
    let f = x % (FX_ONE as int);
    if n >= 17 {
        0
    } else {
        epow(exp_frac(f), n as nat)
    }
}

/// The logistic function 1/(1+e^-x) in fixed point, held strictly inside
/// (0, FX_ONE).
pub open spec fn sig(x: int) -> int
    decreases (if x < 0 { 1int } else { 0int }),
{
    if x >= 0 {
        let s = (FX_ONE as int) * (FX_ONE as int) / ((FX_ONE as int) + exp_neg(x));
        if s >= FX_ONE as int {
            FX_ONE as int - 1
        } else {
            s
        }
    } else {
        FX_ONE as int - sig(-x)
    }
}

proof fn lemma_estep_bounds(f: int, acc: int, k: int)
    requires
        0 <= f <= FX_ONE as int,
        0 <= acc <= FX_ONE as int,
        1 <= k,
    ensures
        0 <= estep(f, acc, k) <= FX_ONE as int,
        0 <= f * acc <= 0x1_0000_0000,
{
    assert(0 <= f * acc <= 0x1_0000_0000) by (nonlinear_arith)
        requires
            0 <= f <= 65536,
            0 <= acc <= 65536,
    ;
    lemma_div_is_ordered(f * acc, 0x1_0000_0000, 65536);
    lemma_div_multiples_vanish(65536, 65536);
    lemma_div_pos_is_pos(f * acc, 65536);
    let q = f * acc / 65536;
    lemma_div_nonincreasing(q, k);
    lemma_div_pos_is_pos(q, k);
}

proof fn lemma_epow_bounds(e: int, n: nat)
    requires
        0 <= e <= FX_ONE as int,
    ensures
        0 <= epow(e, n) <= FX_ONE as int,
    decreases n,
{
    if n != 0 {
        lemma_epow_bounds(e, (n - 1) as nat);
        let prev = epow(e, (n - 1) as nat);
        assert(0 <= prev * 24112 <= 65536 * 24112) by (nonlinear_arith)
            requires
                0 <= prev <= 65536,
        ;
        lemma_div_is_ordered(prev * 24112, 65536int * 24112, 65536);
        lemma_div_multiples_vanish(24112, 65536);
        lemma_div_pos_is_pos(prev * 24112, 65536);
    }
}

fn estep_fx(f: i64, acc: i64, k: i64) -> (r: i64)
    requires
        0 <= f <= FX_ONE as int,
        0 <= acc <= FX_ONE as int,
        1 <= k <= 7,
    ensures
        r as int == estep(f as int, acc as int, k as int),
        0 <= r <= FX_ONE as int,
{
    proof {
        lemma_estep_bounds(f as int, acc as int, k as int);
    }
    let p: i64 = f * acc;
    let q: i64 = p / FX_ONE;
    let t: i64 = q / k;
    FX_ONE - t
}

fn exp_frac_fx(f: i64) -> (r: i64)
    requires
        0 <= f <= FX_ONE as int,
    ensures
        r as int == exp_frac(f as int),
        0 <= r <= FX_ONE as int,
{
    let mut acc: i64 = FX_ONE;
    acc = estep_fx(f, acc, 7);
    acc = estep_fx(f, acc, 6);
    acc = estep_fx(f, acc, 5);
    acc = estep_fx(f, acc, 4);
    acc = estep_fx(f, acc, 3);
    acc = estep_fx(f, acc, 2);
    acc = estep_fx(f, acc, 1);
    acc
}

fn exp_neg_fx(x: i64) -> (r: i64)
    requires
        0 <= x <= FX_LIM as int,
    ensures
        r as int == exp_neg(x as int),
        0 <= r <= FX_ONE as int,
{
    let n: i64 = x / FX_ONE;
    let f: i64 = x % FX_ONE;
    if n >= 17 {
        return 0;
    }
    let mut e: i64 = exp_frac_fx(f);
    let ghost e0 = e as int;
    let mut i: i64 = 0;
    while i < n
        invariant
            0 <= i <= n,
            0 <= n < 17,
            0 <= e0 <= FX_ONE as int,
            e as int == epow(e0, i as nat),
            0 <= e as int <= FX_ONE as int,
        decreases n - i,
    {
        proof {
            lemma_epow_bounds(e0, (i + 1) as nat);
            assert(0 <= e as int * 24112 <= 65536 * 24112) by (nonlinear_arith)
                requires
                    0 <= e as int <= 65536,
            ;
        }
        e = (e * EINV) / FX_ONE;
        i = i + 1;
    }
    e
}

pub fn sig_fx(x: i64) -> (r: i64)
    requires
        fx_in_range(x as int),
    ensures
        r as int == sig(x as int),
        0 < r < FX_ONE as int,
{
    let m: i64 = if x >= 0 {
        x
    } else {
        -x
    };
    let en: i64 = exp_neg_fx(m);
    let denom: i64 = FX_ONE + en;
    let s0: i64 = (FX_ONE * FX_ONE) / denom;
    proof {
        lemma_div_is_ordered_by_denominator(0x1_0000_0000, denom as int, 131072);
        lemma_div_multiples_vanish(32768, 131072);
    }
    let s: i64 = if s0 >= FX_ONE {
        FX_ONE - 1
    } else {
        s0
    };
    proof {
        reveal_with_fuel(sig, 2);
    }
    if x >= 0 {
        s
    } else {
        FX_ONE - s
    }
}

} // verus!
