//! The law of counts that pass through a 32-bit float.

use vstd::arithmetic::power2::{
    lemma2_to64, lemma_pow2_adds, lemma_pow2_pos, lemma_pow2_unfold, pow2,
};
use vstd::prelude::*;

use crate::roi::{float_nearest, float_step, through_float};

verus! {

/// The count is a 32-bit float: less than `2^24` times a power of two.
pub open spec fn is_float(v: int) -> bool {
    exists|m: nat, e: nat| m < 0x100_0000 && v == #[trigger] product_of(m, e)
}

/// `m` times two to the power `e`.
pub open spec fn product_of(m: nat, e: nat) -> int {
    (m * pow2(e)) as int
}

/// The distance of two counts.
pub open spec fn apart(a: int, b: int) -> int {
    if a >= b {
        a - b
    } else {
        b - a
    }
}

/// The distance between floats at a count is a power of two that keeps 24 bits.
proof fn lemma_step_keeps_bits(n: nat) -> (k: nat)
    ensures
        float_step(n) == pow2(k),
        n < 0x100_0000 * pow2(k),
        k > 0 ==> 0x80_0000 * pow2(k) <= n,
    decreases n,
{
    if n < 0x100_0000 {
        lemma2_to64();
        0
    } else {
        let j = lemma_step_keeps_bits(n / 2);
        lemma_pow2_unfold(j + 1);
        let (p, q) = (pow2(j) as int, pow2(j + 1) as int);
        assert(q == 2 * p);
        assert(0x100_0000 * q == 2 * (0x100_0000 * p)) by (nonlinear_arith)
            requires
                q == 2 * p,
        ;
        assert(0x80_0000 * q == 2 * (0x80_0000 * p)) by (nonlinear_arith)
            requires
                q == 2 * p,
        ;
        if j == 0 {
            lemma2_to64();
        }
        (j + 1) as nat
    }
}

/// A count that passes through a 32-bit float comes out as a float, and no float is nearer
/// to it. Of two that are equally near it is the one that is an even multiple of their
/// distance.
pub proof fn law_floats_are_the_nearest(n: nat, v: int)
    requires
        is_float(v),
    ensures
        is_float(float_nearest(n) as int),
        apart(float_nearest(n) as int, n as int) <= apart(v, n as int),
        ({
            let f = float_nearest(n) as int;
            v != f && apart(f, n as int) == apart(v, n as int) ==> (f / apart(v, f)) % 2 == 0
        }),
{
    let k = lemma_step_keeps_bits(n);
    let step = pow2(k) as int;
    lemma_pow2_pos(k);
    let (q, r) = (n as int / step, n as int % step);
    vstd::arithmetic::div_mod::lemma_fundamental_div_mod(n as int, step);
    assert(step * q == q * step) by (nonlinear_arith);
    assert((q + 1) * step == q * step + step) by (nonlinear_arith);
    vstd::arithmetic::div_mod::lemma_multiply_divide_lt(n as int, step, 0x100_0000);
    assert(0 <= q) by {
        vstd::arithmetic::div_mod::lemma_div_pos_is_pos(n as int, step);
    }
    lemma_multiple_is_float(q as nat, k);
    lemma_multiple_is_float((q + 1) as nat, k);
    let (m, e) = choose|m: nat, e: nat| m < 0x100_0000 && v == #[trigger] product_of(m, e);
    if e >= k {
        let d = pow2((e - k) as nat) as int;
        lemma_pow2_adds((e - k) as nat, k);
        let c = m * d;
        assert(v == c * step) by (nonlinear_arith)
            requires
                v == m * (d * step),
                c == m * d,
        ;
        vstd::arithmetic::div_mod::lemma_div_by_multiple(q, step);
        vstd::arithmetic::div_mod::lemma_div_by_multiple(q + 1, step);
        if c < q {
            assert(c * step <= q * step - step) by (nonlinear_arith)
                requires
                    c <= q - 1,
                    step > 0,
            ;
        } else if c > q + 1 {
            assert(c * step >= (q + 1) * step + step) by (nonlinear_arith)
                requires
                    c >= q + 2,
                    step > 0,
            ;
        }
    } else {
        vstd::arithmetic::power2::lemma_pow2_strictly_increases(e, k);
        lemma_pow2_unfold(k);
        let half = pow2((k - 1) as nat) as int;
        let p = pow2(e) as int;
        if e < k - 1 {
            vstd::arithmetic::power2::lemma_pow2_strictly_increases(e, (k - 1) as nat);
        }
        lemma_pow2_pos(e);
        assert(m * p < 0x100_0000 * half) by (nonlinear_arith)
            requires
                0 <= m < 0x100_0000,
                0 < p <= half,
        ;
        assert(0x100_0000 * half == 0x80_0000 * step) by (nonlinear_arith)
            requires
                step == 2 * half,
        ;
        assert(0x80_0000 <= q) by {
            assert(0x80_0000 * step <= n);
            vstd::arithmetic::div_mod::lemma_div_is_ordered(0x80_0000 * step, n as int, step);
            vstd::arithmetic::div_mod::lemma_div_by_multiple(0x80_0000, step);
        }
        assert(0x80_0000 * step <= q * step) by (nonlinear_arith)
            requires
                0x80_0000 <= q,
                step > 0,
        ;
    }
}

/// Up to `2^24` times a power of two is a float.
proof fn lemma_multiple_is_float(q: nat, k: nat)
    requires
        q <= 0x100_0000,
    ensures
        is_float((q * pow2(k)) as int),
{
    if q < 0x100_0000 {
        assert(product_of(q, k) == (q * pow2(k)) as int);
    } else {
        lemma_pow2_unfold(k + 1);
        assert(product_of(0x80_0000, k + 1) == (q * pow2(k)) as int);
    }
}

/// The nearest float of a count, or the largest count where that is larger.
pub proof fn law_counts_round_to_the_nearest_float(n: usize, r: usize, v: int)
    requires
        call_ensures(through_float, (n,), r),
        is_float(v),
    ensures
        r < usize::MAX ==> is_float(r as int) && apart(r as int, n as int) <= apart(v, n as int),
        n <= 0x100_0000 ==> r == n,
{
    law_floats_are_the_nearest(n as nat, v);
    if n <= 0x100_0000 {
        crate::roi::lemma_float_nearest_small(n as nat);
    }
}

} // verus!
