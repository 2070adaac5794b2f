//! Base-2 logarithms in fixed point, with 32 fractional bits: the weights
//! that the route search adds up in place of natural logarithms. Exact
//! logarithms of both bases rank routes alike; these weights are truncated,
//! so two routes whose scores differ by less than the truncation can rank
//! otherwise than with natural logarithms in floating point.
use vstd::prelude::*;

verus! {

/// One unit of the integer part of a weight: 2^32.
pub const ONE: u64 = 0x1_0000_0000;

/// 2^62, the fixed-point 1 of the mantissa.
pub const M_ONE: u128 = 0x4000_0000_0000_0000;

/// 2^63, the fixed-point 2 of the mantissa.
pub const M_TWO: u128 = 0x8000_0000_0000_0000;

/// The number of fractional bits of a weight.
pub const FRAC_BITS: u64 = 32;

/// The integer part of the base-2 logarithm of `x` (0 for `x <= 1`).
pub open spec fn log2_floor(x: nat) -> nat
    decreases x,
{
    if x <= 1 {
        0
    } else {
        1 + log2_floor(x / 2)
    }
}

/// `y` brought into `[2^62, 2^63)` by doubling or halving: the mantissa of a
/// fixed-point number whose 1 is 2^62.
pub open spec fn mantissa(y: nat) -> nat
    decreases (if 0 < y < M_ONE { M_ONE - y } else { 0 }),
{
    if y == 0 {
        0
    } else if y >= M_TWO {
        y / 2
    } else if y < M_ONE {
        mantissa(2 * y)
    } else {
        y
    }
}

/// The next `k` bits of the base-2 logarithm of the mantissa `y`, found by
/// squaring, appended to `acc`.
pub open spec fn frac_bits(y: nat, k: nat, acc: nat) -> nat
    decreases k,
{
    if k == 0 {
        acc
    } else {
        let z = y * y / (M_ONE as nat);
        if z >= M_TWO {
            frac_bits(z / 2, (k - 1) as nat, 2 * acc + 1)
        } else {
            frac_bits(z, (k - 1) as nat, 2 * acc)
        }
    }
}

/// The weight of `x`: the integer part of its base-2 logarithm times 2^32,
/// plus 32 fraction bits found by repeated squaring of a 62-bit mantissa,
/// each square truncated; so close to, but not always equal to, 2^32 times
/// the logarithm rounded down. 0 for `x == 0`.
pub open spec fn log_weight(x: nat) -> int {
    if x == 0 {
        0
    } else {
        (log2_floor(x) * ONE + frac_bits(mantissa(x), FRAC_BITS as nat, 0)) as int
    }
}

proof fn lemma_log2_floor_bound(x: nat)
    requires
        x < 0x1_0000_0000_0000_0000,
    ensures
        log2_floor(x) < 64,
    decreases x,
{
    if x > 1 {
        vstd::arithmetic::power2::lemma2_to64();
        lemma_log2_floor_bound_aux(x, 64);
    }
}

proof fn lemma_log2_floor_bound_aux(x: nat, n: nat)
    requires
        x < vstd::arithmetic::power2::pow2(n),
    ensures
        log2_floor(x) < n || x <= 1,
        x <= 1 ==> log2_floor(x) == 0,
    decreases x,
{
    if x > 1 {
        if n == 0 {
            vstd::arithmetic::power2::lemma2_to64();
        } else {
            vstd::arithmetic::power2::lemma2_to64();
            vstd::arithmetic::power2::lemma_pow2_unfold(n);
            assert(x / 2 < vstd::arithmetic::power2::pow2((n - 1) as nat));
            lemma_log2_floor_bound_aux(x / 2, (n - 1) as nat);
        }
    }
}

proof fn lemma_frac_bits_bound(y: nat, k: nat, acc: nat)
    ensures
        frac_bits(y, k, acc) < (acc + 1) * vstd::arithmetic::power2::pow2(k),
    decreases k,
{
    if k == 0 {
        vstd::arithmetic::power2::lemma2_to64();
    } else {
        vstd::arithmetic::power2::lemma_pow2_unfold(k);
        let z = y * y / (M_ONE as nat);
        let p = vstd::arithmetic::power2::pow2((k - 1) as nat);
        if z >= M_TWO {
            lemma_frac_bits_bound(z / 2, (k - 1) as nat, 2 * acc + 1);
            assert((2 * acc + 2) * p == (acc + 1) * (2 * p)) by (nonlinear_arith);
        } else {
            lemma_frac_bits_bound(z, (k - 1) as nat, 2 * acc);
            assert((2 * acc + 1) * p <= (acc + 1) * (2 * p)) by (nonlinear_arith)
                requires p >= 0;
        }
    }
}

/// The weight of `x`, as `log_weight` states it.
pub fn log_weight_of(x: usize) -> (r: i64)
    ensures
        r == log_weight(x as nat),
        0 <= r < 64 * ONE,
{
    if x == 0 {
        return 0;
    }
    let mut t = x;
    let mut n: u64 = 0;
    proof { lemma_log2_floor_bound(x as nat); }
    while t > 1
        invariant
            1 <= t <= x,
            n + log2_floor(t as nat) == log2_floor(x as nat),
            log2_floor(x as nat) < 64,
        decreases t,
    {
        t = t / 2;
        n = n + 1;
    }
    let mut y: u128 = x as u128;
    if y >= M_TWO {
        y = y / 2;
    }
    while y < M_ONE
        invariant
            0 < y < M_TWO,
            mantissa(y as nat) == mantissa(x as nat),
        decreases M_TWO - y,
    {
        y = y * 2;
    }
    assert(mantissa(y as nat) == y);
    let mut acc: u64 = 0;
    let mut k: u64 = FRAC_BITS;
    proof { lemma_frac_bits_bound(y as nat, k as nat, 0); vstd::arithmetic::power2::lemma2_to64(); }
    while k > 0
        invariant
            M_ONE <= y < M_TWO,
            k <= FRAC_BITS,
            frac_bits(y as nat, k as nat, acc as nat) == frac_bits(mantissa(x as nat), FRAC_BITS as nat, 0),
            acc < vstd::arithmetic::power2::pow2((FRAC_BITS - k) as nat),
            vstd::arithmetic::power2::pow2(32) == ONE,
        decreases k,
    {
        proof {
            assert(y * y >= M_ONE * M_ONE) by (nonlinear_arith)
                requires y >= M_ONE;
            assert(y * y < M_TWO * M_TWO) by (nonlinear_arith)
                requires y < M_TWO, y >= 0;
            vstd::arithmetic::power2::lemma_pow2_unfold((FRAC_BITS - k + 1) as nat);
            if FRAC_BITS - k < 32 {
                vstd::arithmetic::power2::lemma_pow2_strictly_increases((FRAC_BITS - k) as nat, 32);
            }
        }
        let z: u128 = y * y / M_ONE;
        if z >= M_TWO {
            y = z / 2;
            acc = 2 * acc + 1;
        } else {
            y = z;
            acc = 2 * acc;
        }
        k = k - 1;
    }
    proof {
        lemma_frac_bits_bound(mantissa(x as nat), FRAC_BITS as nat, 0);
    }
    (n * ONE + acc) as i64
}

} // verus!
