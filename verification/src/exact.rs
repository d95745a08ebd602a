//! The transforms in exact arithmetic: laws of the formulas, stated for any reading
//! of bit patterns as real numbers under which sums and products do not round.

use vstd::prelude::*;

use crate::axes::lemma_position4;
use crate::fourier::{
    forward_steps, inverse_steps, is_idft_h, is_irfft2, is_rfft2, line_h, line_w, real_steps,
    transforms_h, transforms_w, Basis, ForwardSteps, InverseSteps, RealSteps,
};
use crate::tensor::{
    difference_outcome, dot_outcome, inside4, is_difference, is_neg, is_sum, negated, row, sum_outcome,
    tensor_val, TensorVal,
};

verus! {

/// The sum of `f` over `0..n`.
pub open spec fn sum(n: int, f: spec_fn(int) -> real) -> real
    decreases n,
{
    if n <= 0 {
        0real
    } else {
        sum(n - 1, f) + f(n - 1)
    }
}

/// Sums of equal terms are equal.
pub proof fn lemma_sum_same(n: int, f: spec_fn(int) -> real, g: spec_fn(int) -> real)
    requires
        forall|i: int| 0 <= i < n ==> #[trigger] f(i) == g(i),
    ensures
        sum(n, f) == sum(n, g),
    decreases n,
{
    if n > 0 {
        lemma_sum_same(n - 1, f, g);
    }
}

/// A sum of sums, term by term.
pub proof fn lemma_sum_plus(
    n: int,
    f: spec_fn(int) -> real,
    g: spec_fn(int) -> real,
    h: spec_fn(int) -> real,
)
    requires
        forall|i: int| 0 <= i < n ==> #[trigger] h(i) == f(i) + g(i),
    ensures
        sum(n, h) == sum(n, f) + sum(n, g),
    decreases n,
{
    if n > 0 {
        lemma_sum_plus(n - 1, f, g, h);
    }
}

/// A multiple of a sum, term by term.
pub proof fn lemma_sum_times(n: int, a: real, f: spec_fn(int) -> real, g: spec_fn(int) -> real)
    requires
        forall|i: int| 0 <= i < n ==> #[trigger] g(i) == a * f(i),
    ensures
        sum(n, g) == a * sum(n, f),
    decreases n,
{
    if n > 0 {
        lemma_sum_times(n - 1, a, f, g);
        let (u, v) = (sum(n - 1, f), f(n - 1));
        assert(a * (u + v) == a * u + a * v) by (nonlinear_arith);
    } else {
        assert(a * 0real == 0real) by (nonlinear_arith);
    }
}

/// A sum with one term that may differ from zero.
proof fn lemma_sum_pick(n: int, f: spec_fn(int) -> real, k: int)
    requires
        forall|i: int| 0 <= i < n && i != k ==> #[trigger] f(i) == 0real,
    ensures
        sum(n, f) == if 0 <= k < n {
            f(k)
        } else {
            0real
        },
    decreases n,
{
    if n > 0 {
        lemma_sum_pick(n - 1, f, k);
    }
}

/// The order of two sums does not matter.
proof fn lemma_sum_swap(n: int, m: int, f: spec_fn(int, int) -> real)
    ensures
        sum(n, |i: int| sum(m, |j: int| f(i, j))) == sum(m, |j: int| sum(n, |i: int| f(i, j))),
    decreases n,
{
    let rows = |i: int| sum(m, |j: int| f(i, j));
    if n > 0 {
        lemma_sum_swap(n - 1, m, f);
        let before = |j: int| sum(n - 1, |i: int| f(i, j));
        let last = |j: int| f(n - 1, j);
        let all = |j: int| sum(n, |i: int| f(i, j));
        assert forall|j: int| 0 <= j < m implies #[trigger] all(j) == before(j) + last(j) by {
            lemma_sum_same(n - 1, |i: int| f(i, j), |i: int| f(i, j));
        }
        lemma_sum_plus(m, before, last, all);
        lemma_sum_same(m, |j: int| f(n - 1, j), last);
    } else {
        let zero = |j: int| sum(n, |i: int| f(i, j));
        lemma_sum_pick(m, zero, -1);
    }
}

/// A sum over `1..=n`.
proof fn lemma_sum_shift(n: int, f: spec_fn(int) -> real)
    requires
        n >= 0,
    ensures
        sum(n, |i: int| f(i + 1)) == sum(n, f) - f(0) + f(n),
    decreases n,
{
    let next = |i: int| f(i + 1);
    if n > 0 {
        lemma_sum_shift(n - 1, f);
        lemma_sum_same(n - 1, |i: int| f(i + 1), next);
    }
}

/// The sum of `n` ones.
proof fn lemma_sum_ones(n: int, f: spec_fn(int) -> real)
    requires
        n >= 0,
        forall|i: int| 0 <= i < n ==> #[trigger] f(i) == 1real,
    ensures
        sum(n, f) == n as real,
    decreases n,
{
    if n > 0 {
        lemma_sum_ones(n - 1, f);
    }
}

/// The formulas for the cosine and the sine of a sum of two angles.
pub open spec fn adds_angles(c: spec_fn(int) -> real, s: spec_fn(int) -> real, a: int, b: int) -> bool {
    &&& c(a + b) == c(a) * c(b) - s(a) * s(b)
    &&& s(a + b) == s(a) * c(b) + c(a) * s(b)
}

/// The cosine is even and the sine odd.
pub open spec fn turns_back(c: spec_fn(int) -> real, s: spec_fn(int) -> real, a: int) -> bool {
    c(-a) == c(a) && s(-a) == -s(a)
}

/// `c(a)` and `s(a)` are the cosine and the sine of `a` steps of which `n` make one
/// turn, as far as the transforms need them.
pub open spec fn turns(c: spec_fn(int) -> real, s: spec_fn(int) -> real, n: int) -> bool {
    &&& n >= 1
    &&& c(0) == 1real
    &&& s(0) == 0real
    &&& c(n) == 1real
    &&& s(n) == 0real
    &&& forall|d: int| 0 < d < n ==> #[trigger] c(d) != 1real
    &&& forall|a: int, b: int| #[trigger] adds_angles(c, s, a, b)
    &&& forall|a: int| #[trigger] turns_back(c, s, a)
}

/// Whole turns lead back to the start.
proof fn lemma_whole_turns(c: spec_fn(int) -> real, s: spec_fn(int) -> real, n: int, d: int)
    requires
        turns(c, s, n),
    ensures
        c(n * d) == 1real,
        s(n * d) == 0real,
    decreases
            (if d >= 0 {
                d
            } else {
                1 - d
            }),
{
    if d > 0 {
        lemma_whole_turns(c, s, n, d - 1);
        assert(adds_angles(c, s, n * (d - 1), n));
        assert(n * (d - 1) + n == n * d) by (nonlinear_arith);
        assert(1real * 1real == 1real && 0real * 0real == 0real && 0real * 1real == 0real && 1real
            * 0real == 0real) by (nonlinear_arith);
    } else if d < 0 {
        lemma_whole_turns(c, s, n, -d);
        assert(turns_back(c, s, n * (-d)));
        assert(-(n * (-d)) == n * d) by (nonlinear_arith);
    } else {
        assert(n * 0 == 0) by (nonlinear_arith);
    }
}

/// The steps `0, d, 2 d, ..` of one turn cancel out.
proof fn lemma_turn_cancels(c: spec_fn(int) -> real, s: spec_fn(int) -> real, n: int, d: int)
    requires
        turns(c, s, n),
        -n < d < n,
    ensures
        d != 0 ==> sum(n, |k: int| c(k * d)) == 0real,
        sum(n, |k: int| s(k * d)) == 0real,
{
    let cd = |k: int| c(k * d);
    let sd = |k: int| s(k * d);
    let (a, b) = (sum(n, cd), sum(n, sd));
    if d == 0 {
        assert forall|k: int| 0 <= k < n implies #[trigger] sd(k) == 0real by {
            assert(k * 0 == 0) by (nonlinear_arith);
        }
        lemma_sum_pick(n, sd, -1);
    } else {
        lemma_whole_turns(c, s, n, d);
        assert(0 * d == 0) by (nonlinear_arith);
        lemma_sum_shift(n, cd);
        lemma_sum_shift(n, sd);
        let (p, q) = (c(d), s(d));
        let c1 = |k: int| cd(k + 1);
        let s1 = |k: int| sd(k + 1);
        let (cp, sq) = (|k: int| p * cd(k), |k: int| (-q) * sd(k));
        let (sp, cq) = (|k: int| p * sd(k), |k: int| q * cd(k));
        assert forall|k: int| 0 <= k < n implies #[trigger] c1(k) == cp(k) + sq(k) by {
            assert(adds_angles(c, s, k * d, d));
            assert(k * d + d == (k + 1) * d) by (nonlinear_arith);
            let (u, v) = (cd(k), sd(k));
            assert(u * p - v * q == p * u + (-q) * v) by (nonlinear_arith);
        }
        assert forall|k: int| 0 <= k < n implies #[trigger] s1(k) == sp(k) + cq(k) by {
            assert(adds_angles(c, s, k * d, d));
            assert(k * d + d == (k + 1) * d) by (nonlinear_arith);
            let (u, v) = (cd(k), sd(k));
            assert(v * p + u * q == p * v + q * u) by (nonlinear_arith);
        }
        lemma_sum_plus(n, cp, sq, c1);
        lemma_sum_plus(n, sp, cq, s1);
        lemma_sum_times(n, p, cd, cp);
        lemma_sum_times(n, -q, sd, sq);
        lemma_sum_times(n, p, sd, sp);
        lemma_sum_times(n, q, cd, cq);
        lemma_sum_same(n, |k: int| cd(k + 1), c1);
        lemma_sum_same(n, |k: int| sd(k + 1), s1);
        assert(a == p * a + (-q) * b);
        assert(b == p * b + q * a);
        assert(p != 1real) by {
            assert(turns_back(c, s, d));
            assert(0 < d < n || 0 < -d < n);
            assert(c(-d) == c(d));
        }
        lemma_rotation(a, b, p, q);
    }
    lemma_sum_same(n, |k: int| c(k * d), cd);
    lemma_sum_same(n, |k: int| s(k * d), sd);
}

/// A rotation that moves anything keeps only the origin.
proof fn lemma_rotation(a: real, b: real, p: real, q: real)
    requires
        a == p * a + (-q) * b,
        b == p * b + q * a,
        p != 1real,
    ensures
        a == 0real,
        b == 0real,
{
    let e = p - 1real;
    assert(e * a == q * b) by (nonlinear_arith)
        requires
            a == p * a + (-q) * b,
            e == p - 1real,
    ;
    assert(e * b == -(q * a)) by (nonlinear_arith)
        requires
            b == p * b + q * a,
            e == p - 1real,
    ;
    let z = e * e + q * q;
    assert(z * a == 0real) by (nonlinear_arith)
        requires
            z == e * e + q * q,
            e * a == q * b,
            e * b == -(q * a),
    ;
    assert(z * b == 0real) by (nonlinear_arith)
        requires
            z == e * e + q * q,
            e * a == q * b,
            e * b == -(q * a),
    ;
    assert(z > 0real) by (nonlinear_arith)
        requires
            z == e * e + q * q,
            e != 0real,
    ;
    assert(a == 0real && b == 0real) by (nonlinear_arith)
        requires
            z * a == 0real,
            z * b == 0real,
            z > 0real,
    ;
}

/// A product can be regrouped and exchanged.
pub proof fn lemma_product_order(a: real, b: real, c: real)
    ensures
        a * b == b * a,
        a * (b * c) == (a * b) * c,
{
    assert(a * b == b * a) by (nonlinear_arith);
    assert(a * (b * c) == (a * b) * c) by (nonlinear_arith);
}

/// A product with a sum is the sum of the products.
pub proof fn lemma_product_sum(a: real, b: real, c: real)
    ensures
        a * (b + c) == a * b + a * c,
{
    assert(a * (b + c) == a * b + a * c) by (nonlinear_arith);
}

/// The sign of a factor is the sign of the product.
pub proof fn lemma_product_sign(a: real, b: real)
    ensures
        a * (-b) == -(a * b),
        (-a) * b == -(a * b),
{
    assert(a * (-b) == -(a * b)) by (nonlinear_arith);
    assert((-a) * b == -(a * b)) by (nonlinear_arith);
}

/// The factor of two scaled numbers comes out of their product.
proof fn lemma_scaled_product(r: real, a: real, b: real)
    ensures
        (r * a) * (r * b) == (r * r) * (a * b),
{
    lemma_product_order(r * a, r, b);
    lemma_product_order(r, a, r);
    lemma_product_order(r, r, a);
    lemma_product_order(r * r, a, b);
    lemma_product_order(r * a, r, r);
}

/// The exact cosines and sines of a transform of length `n`: `cos(k, j)` and
/// `sin(k, j)` are `r` times those of `k * j` steps of which `n` make one turn.
pub struct Wave {
    pub c: spec_fn(int) -> real,
    pub s: spec_fn(int) -> real,
    pub r: real,
    pub n: int,
}

impl Wave {
    /// The scaled cosine for bin `k` and place `j`.
    pub open spec fn cos(self, k: int, j: int) -> real {
        self.r * (self.c)(k * j)
    }

    /// The scaled sine for bin `k` and place `j`.
    pub open spec fn sin(self, k: int, j: int) -> real {
        self.r * (self.s)(k * j)
    }

    /// The steps make one turn, and the scale makes the matrices orthonormal.
    pub open spec fn ok(self) -> bool {
        &&& turns(self.c, self.s, self.n)
        &&& self.r * self.r * (self.n as real) == 1real
    }
}

/// One on the diagonal and zero elsewhere.
pub open spec fn unit(a: int, b: int) -> real {
    if a == b {
        1real
    } else {
        0real
    }
}

/// Bin and place of a wave can be exchanged.
proof fn lemma_wave_symmetric(w: Wave, k: int, j: int)
    ensures
        w.cos(k, j) == w.cos(j, k),
        w.sin(k, j) == w.sin(j, k),
{
    assert(k * j == j * k) by (nonlinear_arith);
}

/// The columns of the cosine and sine matrices are orthonormal, and a cosine
/// column and a sine column cancel out.
proof fn lemma_orthonormal(w: Wave, a: int, b: int)
    requires
        w.ok(),
        0 <= a < w.n,
        0 <= b < w.n,
    ensures
        sum(w.n, |k: int| w.cos(k, a) * w.cos(b, k) + w.sin(k, a) * w.sin(b, k)) == unit(a, b),
        sum(w.n, |k: int| w.cos(k, a) * w.sin(b, k) + w.sin(k, a) * (-w.cos(b, k))) == 0real,
{
    let (c, s, r, n) = (w.c, w.s, w.r, w.n);
    let d = a - b;
    let cd = |k: int| c(k * d);
    let sd = |k: int| s(k * d);
    let f = |k: int| w.cos(k, a) * w.cos(b, k) + w.sin(k, a) * w.sin(b, k);
    let g = |k: int| w.cos(k, a) * w.sin(b, k) + w.sin(k, a) * (-w.cos(b, k));
    let q = r * r;
    assert forall|k: int| 0 <= k < n implies #[trigger] f(k) == q * cd(k) by {
        lemma_angle_difference(w, k, a, b);
        let (ca, sa, cb, sb) = (c(k * a), s(k * a), c(k * b), s(k * b));
        lemma_scaled_product(r, ca, cb);
        lemma_scaled_product(r, sa, sb);
        lemma_product_sum(q, ca * cb, sa * sb);
        lemma_wave_symmetric(w, b, k);
    }
    assert forall|k: int| 0 <= k < n implies #[trigger] g(k) == (-q) * sd(k) by {
        lemma_angle_difference(w, k, a, b);
        let (ca, sa, cb, sb) = (c(k * a), s(k * a), c(k * b), s(k * b));
        lemma_scaled_product(r, ca, sb);
        lemma_scaled_product(r, sa, cb);
        lemma_product_sign(r * sa, r * cb);
        lemma_product_sign(q, ca * sb);
        lemma_product_sum(q, sa * cb, -(ca * sb));
        lemma_product_sign(q, sa * cb - ca * sb);
        lemma_wave_symmetric(w, b, k);
    }
    lemma_sum_times(n, q, cd, f);
    lemma_sum_times(n, -q, sd, g);
    lemma_turn_cancels(c, s, n, d);
    lemma_sum_same(n, |k: int| c(k * d), cd);
    lemma_sum_same(n, |k: int| s(k * d), sd);
    assert(q * 0real == 0real && (-q) * 0real == 0real) by (nonlinear_arith);
    if d == 0 {
        assert forall|k: int| 0 <= k < n implies #[trigger] cd(k) == 1real by {
            assert(k * 0 == 0) by (nonlinear_arith);
        }
        lemma_sum_ones(n, cd);
    }
    lemma_sum_same(
        n,
        |k: int| w.cos(k, a) * w.cos(b, k) + w.sin(k, a) * w.sin(b, k),
        f,
    );
    lemma_sum_same(
        n,
        |k: int| w.cos(k, a) * w.sin(b, k) + w.sin(k, a) * (-w.cos(b, k)),
        g,
    );
}

/// The cosine and the sine of a difference.
proof fn lemma_angle_difference(w: Wave, k: int, a: int, b: int)
    requires
        w.ok(),
    ensures
        (w.c)(k * (a - b)) == (w.c)(k * a) * (w.c)(k * b) + (w.s)(k * a) * (w.s)(k * b),
        (w.s)(k * (a - b)) == (w.s)(k * a) * (w.c)(k * b) - (w.c)(k * a) * (w.s)(k * b),
{
    assert(adds_angles(w.c, w.s, k * a, -(k * b)));
    assert(turns_back(w.c, w.s, k * b));
    assert(k * a + -(k * b) == k * (a - b)) by (nonlinear_arith);
    let (ca, sa, sb) = ((w.c)(k * a), (w.s)(k * a), (w.s)(k * b));
    lemma_product_sign(sa, sb);
    lemma_product_sign(ca, sb);
}

/// Bins past the middle mirror those before it.
proof fn lemma_wave_mirror(w: Wave, u: int, l: int)
    requires
        w.ok(),
    ensures
        w.cos(w.n - u, l) == w.cos(u, l),
        w.sin(w.n - u, l) == -w.sin(u, l),
{
    let (c, s, r, n) = (w.c, w.s, w.r, w.n);
    lemma_whole_turns(c, s, n, l);
    assert(adds_angles(c, s, n * l, -(u * l)));
    assert(turns_back(c, s, u * l));
    assert(n * l + -(u * l) == (n - u) * l) by (nonlinear_arith);
    let (cu, su) = (c(u * l), s(u * l));
    lemma_product_sign(r, su);
}

/// A sum against a line, times a factor, plus another, as one sum.
pub proof fn lemma_regroup_line(
    n: int,
    x: spec_fn(int) -> real,
    u: spec_fn(int) -> real,
    v: spec_fn(int) -> real,
    a: real,
    b: real,
    line: spec_fn(int) -> real,
)
    requires
        forall|t: int| 0 <= t < n ==> #[trigger] line(t) == x(t) * (u(t) * a + v(t) * b),
    ensures
        sum(n, line) == sum(n, |t: int| x(t) * u(t)) * a + sum(n, |t: int| x(t) * v(t)) * b,
    decreases n,
{
    let (xu, xv) = (|t: int| x(t) * u(t), |t: int| x(t) * v(t));
    if n > 0 {
        lemma_regroup_line(n - 1, x, u, v, a, b, line);
        lemma_sum_same(n - 1, |t: int| x(t) * u(t), xu);
        lemma_sum_same(n - 1, |t: int| x(t) * v(t), xv);
        let (xt, ut, vt) = (x(n - 1), u(n - 1), v(n - 1));
        let (p, q) = (sum(n - 1, xu), sum(n - 1, xv));
        lemma_product_sum(xt, ut * a, vt * b);
        lemma_product_order(xt, ut, a);
        lemma_product_order(xt, vt, b);
        lemma_product_sum(a, p, xt * ut);
        lemma_product_sum(b, q, xt * vt);
        lemma_product_order(a, p, a);
        lemma_product_order(b, q, b);
        lemma_product_order(a, xt * ut, a);
        lemma_product_order(b, xt * vt, b);
        lemma_product_order(a, p + xt * ut, a);
        lemma_product_order(b, q + xt * vt, b);
    } else {
        assert(0real * a == 0real && 0real * b == 0real) by (nonlinear_arith);
    }
}

/// Two sums against a line, each against its own factors, are one sum of the line
/// against what the factors sum up to.
proof fn lemma_regroup(
    nt: int,
    nk: int,
    x: spec_fn(int) -> real,
    a1: spec_fn(int, int) -> real,
    b1: spec_fn(int) -> real,
    a2: spec_fn(int, int) -> real,
    b2: spec_fn(int) -> real,
    total: spec_fn(int) -> real,
    g: spec_fn(int) -> real,
)
    requires
        forall|k: int|
            0 <= k < nk ==> #[trigger] total(k) == sum(nt, |t: int| x(t) * a1(k, t)) * b1(k) + sum(
                nt,
                |t: int| x(t) * a2(k, t),
            ) * b2(k),
        forall|t: int|
            0 <= t < nt ==> #[trigger] g(t) == sum(
                nk,
                |k: int| a1(k, t) * b1(k) + a2(k, t) * b2(k),
            ),
    ensures
        sum(nk, total) == sum(nt, |t: int| x(t) * g(t)),
{
    let both = |k: int, t: int| x(t) * (a1(k, t) * b1(k) + a2(k, t) * b2(k));
    let by_k = |k: int| sum(nt, |t: int| both(k, t));
    let by_t = |t: int| sum(nk, |k: int| both(k, t));
    assert forall|k: int| 0 <= k < nk implies #[trigger] total(k) == by_k(k) by {
        let (u, v) = (|t: int| a1(k, t), |t: int| a2(k, t));
        let line = |t: int| both(k, t);
        lemma_regroup_line(nt, x, u, v, b1(k), b2(k), line);
        lemma_sum_same(nt, |t: int| x(t) * a1(k, t), |t: int| x(t) * u(t));
        lemma_sum_same(nt, |t: int| x(t) * a2(k, t), |t: int| x(t) * v(t));
        lemma_sum_same(nt, |t: int| both(k, t), line);
    }
    lemma_sum_same(nk, total, by_k);
    lemma_sum_swap(nk, nt, both);
    lemma_sum_same(nk, |k: int| sum(nt, |t: int| both(k, t)), by_k);
    lemma_sum_same(nt, |t: int| sum(nk, |k: int| both(k, t)), by_t);
    let pieces = |t: int| x(t) * g(t);
    assert forall|t: int| 0 <= t < nt implies #[trigger] by_t(t) == pieces(t) by {
        let inner = |k: int| a1(k, t) * b1(k) + a2(k, t) * b2(k);
        let outer = |k: int| both(k, t);
        lemma_sum_times(nk, x(t), inner, outer);
        lemma_sum_same(nk, |k: int| a1(k, t) * b1(k) + a2(k, t) * b2(k), inner);
        lemma_sum_same(nk, |k: int| both(k, t), outer);
    }
    lemma_sum_same(nt, by_t, pieces);
    lemma_sum_same(nt, |t: int| x(t) * g(t), pieces);
}

/// The cosine transform of a line.
pub open spec fn cos_of(w: Wave, x: spec_fn(int) -> real, k: int) -> real {
    sum(w.n, |t: int| x(t) * w.cos(k, t))
}

/// The sine transform of a line.
pub open spec fn sin_of(w: Wave, x: spec_fn(int) -> real, k: int) -> real {
    sum(w.n, |t: int| x(t) * w.sin(k, t))
}

/// A line comes back from its cosine and sine transforms.
proof fn lemma_line_back(w: Wave, x: spec_fn(int) -> real, v: int, total: spec_fn(int) -> real)
    requires
        w.ok(),
        0 <= v < w.n,
        forall|k: int|
            0 <= k < w.n ==> #[trigger] total(k) == cos_of(w, x, k) * w.cos(v, k) + sin_of(w, x, k)
                * w.sin(v, k),
    ensures
        sum(w.n, total) == x(v),
{
    let n = w.n;
    let (a1, a2) = (|k: int, t: int| w.cos(k, t), |k: int, t: int| w.sin(k, t));
    let (b1, b2) = (|k: int| w.cos(v, k), |k: int| w.sin(v, k));
    let g = |t: int| unit(t, v);
    assert forall|k: int| 0 <= k < n implies #[trigger] total(k) == sum(
        n,
        |t: int| x(t) * a1(k, t),
    ) * b1(k) + sum(n, |t: int| x(t) * a2(k, t)) * b2(k) by {
        lemma_sum_same(n, |t: int| x(t) * a1(k, t), |t: int| x(t) * w.cos(k, t));
        lemma_sum_same(n, |t: int| x(t) * a2(k, t), |t: int| x(t) * w.sin(k, t));
    }
    assert forall|t: int| 0 <= t < n implies #[trigger] g(t) == sum(
        n,
        |k: int| a1(k, t) * b1(k) + a2(k, t) * b2(k),
    ) by {
        lemma_orthonormal(w, t, v);
        lemma_sum_same(
            n,
            |k: int| a1(k, t) * b1(k) + a2(k, t) * b2(k),
            |k: int| w.cos(k, t) * w.cos(v, k) + w.sin(k, t) * w.sin(v, k),
        );
    }
    lemma_regroup(n, n, x, a1, b1, a2, b2, total, g);
    let xg = |t: int| x(t) * g(t);
    assert forall|t: int| 0 <= t < n && t != v implies #[trigger] xg(t) == 0real by {
        lemma_product_zero(x(t));
    }
    lemma_sum_pick(n, xg, v);
    lemma_sum_same(n, |t: int| x(t) * g(t), xg);
    lemma_product_zero(x(v));
}

/// The cosine and sine transforms of a line cancel out against each other.
proof fn lemma_line_cancels(w: Wave, x: spec_fn(int) -> real, v: int, total: spec_fn(int) -> real)
    requires
        w.ok(),
        0 <= v < w.n,
        forall|k: int|
            0 <= k < w.n ==> #[trigger] total(k) == cos_of(w, x, k) * w.sin(v, k) + sin_of(w, x, k)
                * (-w.cos(v, k)),
    ensures
        sum(w.n, total) == 0real,
{
    let n = w.n;
    let (a1, a2) = (|k: int, t: int| w.cos(k, t), |k: int, t: int| w.sin(k, t));
    let (b1, b2) = (|k: int| w.sin(v, k), |k: int| -w.cos(v, k));
    let g = |t: int| 0real;
    assert forall|k: int| 0 <= k < n implies #[trigger] total(k) == sum(
        n,
        |t: int| x(t) * a1(k, t),
    ) * b1(k) + sum(n, |t: int| x(t) * a2(k, t)) * b2(k) by {
        lemma_sum_same(n, |t: int| x(t) * a1(k, t), |t: int| x(t) * w.cos(k, t));
        lemma_sum_same(n, |t: int| x(t) * a2(k, t), |t: int| x(t) * w.sin(k, t));
    }
    assert forall|t: int| 0 <= t < n implies #[trigger] g(t) == sum(
        n,
        |k: int| a1(k, t) * b1(k) + a2(k, t) * b2(k),
    ) by {
        lemma_orthonormal(w, t, v);
        lemma_sum_same(
            n,
            |k: int| a1(k, t) * b1(k) + a2(k, t) * b2(k),
            |k: int| w.cos(k, t) * w.sin(v, k) + w.sin(k, t) * (-w.cos(v, k)),
        );
    }
    lemma_regroup(n, n, x, a1, b1, a2, b2, total, g);
    let xg = |t: int| x(t) * g(t);
    assert forall|t: int| 0 <= t < n && t != -1 implies #[trigger] xg(t) == 0real by {
        lemma_product_zero(x(t));
    }
    lemma_sum_pick(n, xg, -1);
    lemma_sum_same(n, |t: int| x(t) * g(t), xg);
}

/// Products with zero and with one.
pub proof fn lemma_product_zero(a: real)
    ensures
        a * 0real == 0real,
        0real * a == 0real,
        a * 1real == a,
{
    assert(a * 0real == 0real) by (nonlinear_arith);
    assert(0real * a == 0real) by (nonlinear_arith);
    assert(a * 1real == a) by (nonlinear_arith);
}

/// Column `l` of an image.
pub open spec fn column_of(x: spec_fn(int, int) -> real, l: int) -> spec_fn(int) -> real {
    |t: int| x(t, l)
}

/// Row `n` of an image.
pub open spec fn row_of(x: spec_fn(int, int) -> real, n: int) -> spec_fn(int) -> real {
    |l: int| x(n, l)
}

/// The sum over the columns of factors `f` and the cosine transforms along them.
pub open spec fn cos_fold(
    w: Wave,
    x: spec_fn(int, int) -> real,
    width: int,
    f: spec_fn(int) -> real,
    k: int,
) -> real {
    sum(width, |l: int| f(l) * cos_of(w, column_of(x, l), k))
}

/// The same for the sine transforms.
pub open spec fn sin_fold(
    w: Wave,
    x: spec_fn(int, int) -> real,
    width: int,
    f: spec_fn(int) -> real,
    k: int,
) -> real {
    sum(width, |l: int| f(l) * sin_of(w, column_of(x, l), k))
}

/// Folded transforms along the columns come back to a row.
proof fn lemma_fold_back(
    w: Wave,
    x: spec_fn(int, int) -> real,
    width: int,
    f: spec_fn(int) -> real,
    n: int,
    total: spec_fn(int) -> real,
)
    requires
        w.ok(),
        0 <= n < w.n,
        forall|k: int|
            0 <= k < w.n ==> #[trigger] total(k) == cos_fold(w, x, width, f, k) * w.cos(n, k)
                + sin_fold(w, x, width, f, k) * w.sin(n, k),
    ensures
        sum(w.n, total) == sum(width, |l: int| f(l) * x(n, l)),
{
    let (a1, a2) = (
        |k: int, l: int| cos_of(w, column_of(x, l), k),
        |k: int, l: int| sin_of(w, column_of(x, l), k),
    );
    let (b1, b2) = (|k: int| w.cos(n, k), |k: int| w.sin(n, k));
    let g = |l: int| x(n, l);
    assert forall|k: int| 0 <= k < w.n implies #[trigger] total(k) == sum(
        width,
        |l: int| f(l) * a1(k, l),
    ) * b1(k) + sum(width, |l: int| f(l) * a2(k, l)) * b2(k) by {
        lemma_sum_same(
            width,
            |l: int| f(l) * a1(k, l),
            |l: int| f(l) * cos_of(w, column_of(x, l), k),
        );
        lemma_sum_same(
            width,
            |l: int| f(l) * a2(k, l),
            |l: int| f(l) * sin_of(w, column_of(x, l), k),
        );
    }
    assert forall|l: int| 0 <= l < width implies #[trigger] g(l) == sum(
        w.n,
        |k: int| a1(k, l) * b1(k) + a2(k, l) * b2(k),
    ) by {
        lemma_line_back(
            w,
            column_of(x, l),
            n,
            |k: int| a1(k, l) * b1(k) + a2(k, l) * b2(k),
        );
    }
    lemma_regroup(width, w.n, f, a1, b1, a2, b2, total, g);
    lemma_sum_same(width, |l: int| f(l) * g(l), |l: int| f(l) * x(n, l));
}

/// Folded transforms along the columns cancel out against each other.
proof fn lemma_fold_cancels(
    w: Wave,
    x: spec_fn(int, int) -> real,
    width: int,
    f: spec_fn(int) -> real,
    n: int,
    total: spec_fn(int) -> real,
)
    requires
        w.ok(),
        0 <= n < w.n,
        forall|k: int|
            0 <= k < w.n ==> #[trigger] total(k) == cos_fold(w, x, width, f, k) * w.sin(n, k)
                + sin_fold(w, x, width, f, k) * (-w.cos(n, k)),
    ensures
        sum(w.n, total) == 0real,
{
    let (a1, a2) = (
        |k: int, l: int| cos_of(w, column_of(x, l), k),
        |k: int, l: int| sin_of(w, column_of(x, l), k),
    );
    let (b1, b2) = (|k: int| w.sin(n, k), |k: int| -w.cos(n, k));
    let g = |l: int| 0real;
    assert forall|k: int| 0 <= k < w.n implies #[trigger] total(k) == sum(
        width,
        |l: int| f(l) * a1(k, l),
    ) * b1(k) + sum(width, |l: int| f(l) * a2(k, l)) * b2(k) by {
        lemma_sum_same(
            width,
            |l: int| f(l) * a1(k, l),
            |l: int| f(l) * cos_of(w, column_of(x, l), k),
        );
        lemma_sum_same(
            width,
            |l: int| f(l) * a2(k, l),
            |l: int| f(l) * sin_of(w, column_of(x, l), k),
        );
    }
    assert forall|l: int| 0 <= l < width implies #[trigger] g(l) == sum(
        w.n,
        |k: int| a1(k, l) * b1(k) + a2(k, l) * b2(k),
    ) by {
        lemma_line_cancels(
            w,
            column_of(x, l),
            n,
            |k: int| a1(k, l) * b1(k) + a2(k, l) * b2(k),
        );
    }
    lemma_regroup(width, w.n, f, a1, b1, a2, b2, total, g);
    let fg = |l: int| f(l) * g(l);
    assert forall|l: int| 0 <= l < width && l != -1 implies #[trigger] fg(l) == 0real by {
        lemma_product_zero(f(l));
    }
    lemma_sum_pick(width, fg, -1);
    lemma_sum_same(width, |l: int| f(l) * g(l), fg);
}

/// The cosines of one bin.
pub open spec fn cos_row(w: Wave, u: int) -> spec_fn(int) -> real {
    |l: int| w.cos(u, l)
}

/// The sines of one bin.
pub open spec fn sin_row(w: Wave, u: int) -> spec_fn(int) -> real {
    |l: int| w.sin(u, l)
}

/// A complex number turned back, written out.
proof fn lemma_turned(a: real, b: real, d: real, e: real, c: real, s: real)
    ensures
        (a - b) * c - (-(d + e)) * s == (a * c + d * s) + (e * s + b * (-c)),
        (-(d + e)) * c + (a - b) * s == (a * s + d * (-c)) - (e * c + b * s),
{
    assert((a - b) * c == a * c - b * c) by (nonlinear_arith);
    assert((a - b) * s == a * s - b * s) by (nonlinear_arith);
    assert((-(d + e)) * c == -(d * c) - e * c) by (nonlinear_arith);
    assert((-(d + e)) * s == -(d * s) - e * s) by (nonlinear_arith);
    lemma_product_sign(b, c);
    lemma_product_sign(d, c);
}

/// The inverse along the columns of a forward transform along both axes is the
/// forward transform along the rows.
pub proof fn lemma_row_spectrum(
    wh: Wave,
    ww: Wave,
    x: spec_fn(int, int) -> real,
    u: int,
    n: int,
    re: spec_fn(int) -> real,
    im: spec_fn(int) -> real,
)
    requires
        wh.ok(),
        0 <= n < wh.n,
        forall|k: int|
            0 <= k < wh.n ==> #[trigger] re(k) == cos_fold(wh, x, ww.n, cos_row(ww, u), k)
                - sin_fold(wh, x, ww.n, sin_row(ww, u), k),
        forall|k: int|
            0 <= k < wh.n ==> #[trigger] im(k) == -(sin_fold(wh, x, ww.n, cos_row(ww, u), k)
                + cos_fold(wh, x, ww.n, sin_row(ww, u), k)),
    ensures
        sum(wh.n, |k: int| re(k) * wh.cos(n, k)) - sum(wh.n, |k: int| im(k) * wh.sin(n, k))
            == cos_of(ww, row_of(x, n), u),
        sum(wh.n, |k: int| im(k) * wh.cos(n, k)) + sum(wh.n, |k: int| re(k) * wh.sin(n, k))
            == -sin_of(ww, row_of(x, n), u),
{
    let (h, w) = (wh.n, ww.n);
    let (fc, fs) = (cos_row(ww, u), sin_row(ww, u));
    let a = |k: int| cos_fold(wh, x, w, fc, k);
    let b = |k: int| sin_fold(wh, x, w, fs, k);
    let d = |k: int| sin_fold(wh, x, w, fc, k);
    let e = |k: int| cos_fold(wh, x, w, fs, k);
    let t1 = |k: int| a(k) * wh.cos(n, k) + d(k) * wh.sin(n, k);
    let t2 = |k: int| e(k) * wh.sin(n, k) + b(k) * (-wh.cos(n, k));
    let t3 = |k: int| a(k) * wh.sin(n, k) + d(k) * (-wh.cos(n, k));
    let t4 = |k: int| e(k) * wh.cos(n, k) + b(k) * wh.sin(n, k);
    lemma_fold_back(wh, x, w, fc, n, t1);
    lemma_fold_cancels(wh, x, w, fs, n, t2);
    lemma_fold_cancels(wh, x, w, fc, n, t3);
    lemma_fold_back(wh, x, w, fs, n, t4);
    let rc = |k: int| re(k) * wh.cos(n, k);
    let is = |k: int| im(k) * wh.sin(n, k);
    let ic = |k: int| im(k) * wh.cos(n, k);
    let rs = |k: int| re(k) * wh.sin(n, k);
    let first = |k: int| t1(k) + t2(k);
    let second = |k: int| ic(k) + rs(k);
    assert forall|k: int| 0 <= k < h implies #[trigger] rc(k) == first(k) + is(k) by {
        lemma_turned(a(k), b(k), d(k), e(k), wh.cos(n, k), wh.sin(n, k));
        assert(re(k) == a(k) - b(k) && im(k) == -(d(k) + e(k)));
    }
    assert forall|k: int| 0 <= k < h implies #[trigger] t3(k) == second(k) + t4(k) by {
        lemma_turned(a(k), b(k), d(k), e(k), wh.cos(n, k), wh.sin(n, k));
        assert(re(k) == a(k) - b(k) && im(k) == -(d(k) + e(k)));
    }
    lemma_sum_plus(h, t1, t2, first);
    lemma_sum_plus(h, first, is, rc);
    lemma_sum_plus(h, ic, rs, second);
    lemma_sum_plus(h, second, t4, t3);
    lemma_sum_same(h, |k: int| re(k) * wh.cos(n, k), rc);
    lemma_sum_same(h, |k: int| im(k) * wh.sin(n, k), is);
    lemma_sum_same(h, |k: int| im(k) * wh.cos(n, k), ic);
    lemma_sum_same(h, |k: int| re(k) * wh.sin(n, k), rs);
    let row = row_of(x, n);
    let (gc, gs) = (|l: int| fc(l) * x(n, l), |l: int| fs(l) * x(n, l));
    let (yc, ys) = (|t: int| row(t) * ww.cos(u, t), |t: int| row(t) * ww.sin(u, t));
    assert forall|l: int| 0 <= l < w implies #[trigger] gc(l) == yc(l) by {
        lemma_product_order(x(n, l), ww.cos(u, l), 0real);
    }
    assert forall|l: int| 0 <= l < w implies #[trigger] gs(l) == ys(l) by {
        lemma_product_order(x(n, l), ww.sin(u, l), 0real);
    }
    lemma_sum_same(w, gc, yc);
    lemma_sum_same(w, gs, ys);
    lemma_sum_same(w, |l: int| fc(l) * x(n, l), gc);
    lemma_sum_same(w, |l: int| fs(l) * x(n, l), gs);
    lemma_sum_same(w, |t: int| row(t) * ww.cos(u, t), yc);
    lemma_sum_same(w, |t: int| row(t) * ww.sin(u, t), ys);
}

/// A line comes back from its spectrum of every bin, `fr` and `fi` being the real
/// and the imaginary part.
pub proof fn lemma_line_inverse(
    w: Wave,
    x: spec_fn(int) -> real,
    v: int,
    fr: spec_fn(int) -> real,
    fi: spec_fn(int) -> real,
)
    requires
        w.ok(),
        0 <= v < w.n,
        forall|u: int| 0 <= u < w.n ==> #[trigger] fr(u) == cos_of(w, x, u),
        forall|u: int| 0 <= u < w.n ==> #[trigger] fi(u) == -sin_of(w, x, u),
    ensures
        sum(w.n, |u: int| fr(u) * w.cos(v, u)) - sum(w.n, |u: int| fi(u) * w.sin(v, u)) == x(v),
{
    let (rc, is) = (|u: int| fr(u) * w.cos(v, u), |u: int| fi(u) * w.sin(v, u));
    let total = |u: int| cos_of(w, x, u) * w.cos(v, u) + sin_of(w, x, u) * w.sin(v, u);
    assert forall|u: int| 0 <= u < w.n implies #[trigger] rc(u) == total(u) + is(u) by {
        lemma_product_sign(sin_of(w, x, u), w.sin(v, u));
        assert(fr(u) == cos_of(w, x, u) && fi(u) == -sin_of(w, x, u));
    }
    lemma_line_back(w, x, v, total);
    lemma_sum_plus(w.n, total, is, rc);
    lemma_sum_same(w.n, |u: int| fr(u) * w.cos(v, u), rc);
    lemma_sum_same(w.n, |u: int| fi(u) * w.sin(v, u), is);
}

/// The bins of a line past the middle mirror those before it, and where a real line
/// has no imaginary part there is none.
pub proof fn lemma_line_mirror(w: Wave, x: spec_fn(int) -> real, u: int)
    requires
        w.ok(),
    ensures
        cos_of(w, x, w.n - u) == cos_of(w, x, u),
        sin_of(w, x, w.n - u) == -sin_of(w, x, u),
        u == 0 || 2 * u == w.n ==> sin_of(w, x, u) == 0real,
{
    let n = w.n;
    let (c1, c2) = (|t: int| x(t) * w.cos(n - u, t), |t: int| x(t) * w.cos(u, t));
    let (s1, s2) = (|t: int| x(t) * w.sin(n - u, t), |t: int| x(t) * w.sin(u, t));
    assert forall|t: int| 0 <= t < n implies #[trigger] c1(t) == c2(t) by {
        lemma_wave_mirror(w, u, t);
    }
    assert forall|t: int| 0 <= t < n implies #[trigger] s1(t) == (-1real) * s2(t) by {
        lemma_wave_mirror(w, u, t);
        lemma_product_sign(x(t), w.sin(u, t));
        lemma_product_sign(1real, s2(t));
        lemma_product_zero(s2(t));
        lemma_product_order(s2(t), 1real, 1real);
    }
    lemma_sum_same(n, c1, c2);
    lemma_sum_times(n, -1real, s2, s1);
    lemma_sum_same(n, |t: int| x(t) * w.cos(n - u, t), c1);
    lemma_sum_same(n, |t: int| x(t) * w.cos(u, t), c2);
    lemma_sum_same(n, |t: int| x(t) * w.sin(n - u, t), s1);
    lemma_sum_same(n, |t: int| x(t) * w.sin(u, t), s2);
    let z = sum(n, s2);
    lemma_product_sign(1real, z);
    lemma_product_order(z, 1real, 1real);
    lemma_product_zero(z);
    if u == 0 {
        assert forall|t: int| 0 <= t < n && t != -1 implies #[trigger] s2(t) == 0real by {
            assert(0 * t == 0) by (nonlinear_arith);
            lemma_product_zero(w.r);
            lemma_product_zero(x(t));
        }
        lemma_sum_pick(n, s2, -1);
    }
}

/// Under the reading `val` of bit patterns, sums, differences and products of
/// matrices come out exactly.
pub open spec fn exact(val: spec_fn(u64) -> real) -> bool {
    &&& forall|a: Seq<u64>, b: Seq<u64>, r: u64| #[trigger]
        dot_outcome(a, b, r) && a.len() == b.len() ==> val(r) == sum(
            a.len() as int,
            |t: int| val(a[t]) * val(b[t]),
        )
    &&& forall|a: u64, b: u64, r: u64| #[trigger] sum_outcome(a, b, r) ==> val(r) == val(a) + val(b)
    &&& forall|a: u64, b: u64, r: u64| #[trigger]
        difference_outcome(a, b, r) ==> val(r) == val(a) - val(b)
    &&& forall|a: u64| val(#[trigger] negated(a)) == -val(a)
    &&& val(0) == 0real
}

/// The matrices hold the exact cosines and sines of the first `rows` bins.
pub open spec fn holds_wave(val: spec_fn(u64) -> real, b: Basis, rows: int, w: Wave) -> bool {
    let (c, s) = (tensor_val(b.c), tensor_val(b.s));
    &&& 0 <= rows <= w.n
    &&& c.dims == seq![rows as nat, w.n as nat]
    &&& s.dims == seq![rows as nat, w.n as nat]
    &&& forall|k: int, j: int|
        0 <= k < rows && 0 <= j < w.n ==> val(#[trigger] c.at2(k, j)) == w.cos(k, j)
    &&& forall|k: int, j: int|
        0 <= k < rows && 0 <= j < w.n ==> val(#[trigger] s.at2(k, j)) == w.sin(k, j)
}

/// One channel of one image as real numbers.
pub open spec fn plane(val: spec_fn(u64) -> real, t: TensorVal, i: int, j: int) -> spec_fn(
    int,
    int,
) -> real {
    |k: int, l: int| val(t.at4(i, j, k, l))
}

/// The rows of the matrices of a transform are orthonormal: the products of two rows,
/// over cosines and sines, sum up to one for a row with itself and to zero for two
/// rows.
pub proof fn law_waves_are_orthonormal(
    val: spec_fn(u64) -> real,
    b: Basis,
    rows: int,
    w: Wave,
    k: int,
    l: int,
)
    requires
        w.ok(),
        holds_wave(val, b, rows, w),
        0 <= k < rows,
        0 <= l < rows,
    ensures
        sum(
            w.n,
            |j: int|
                val(tensor_val(b.c).at2(k, j)) * val(tensor_val(b.c).at2(l, j)) + val(
                    tensor_val(b.s).at2(k, j),
                ) * val(tensor_val(b.s).at2(l, j)),
        ) == unit(k, l),
{
    let (c, s) = (tensor_val(b.c), tensor_val(b.s));
    let f = |j: int|
        val(c.at2(k, j)) * val(c.at2(l, j)) + val(s.at2(k, j)) * val(s.at2(l, j));
    let g = |j: int| w.cos(j, k) * w.cos(l, j) + w.sin(j, k) * w.sin(l, j);
    assert forall|j: int| 0 <= j < w.n implies #[trigger] f(j) == g(j) by {
        lemma_wave_symmetric(w, k, j);
    }
    lemma_orthonormal(w, k, l);
    lemma_sum_same(w.n, f, g);
    lemma_sum_same(w.n, |j: int| w.cos(j, k) * w.cos(l, j) + w.sin(j, k) * w.sin(l, j), g);
    lemma_sum_same(
        w.n,
        |j: int|
            val(tensor_val(b.c).at2(k, j)) * val(tensor_val(b.c).at2(l, j)) + val(
                tensor_val(b.s).at2(k, j),
            ) * val(tensor_val(b.s).at2(l, j)),
        f,
    );
}

/// A contraction along the third axis in exact arithmetic.
pub proof fn lemma_exact_h(
    val: spec_fn(u64) -> real,
    x: TensorVal,
    m: TensorVal,
    y: TensorVal,
    i: int,
    j: int,
    k: int,
    l: int,
    f: spec_fn(int) -> real,
)
    requires
        exact(val),
        transforms_h(x, m, y),
        inside4(y.dims, i, j, k, l),
        forall|t: int|
            0 <= t < x.dims[2] ==> #[trigger] f(t) == val(x.at4(i, j, t, l)) * val(m.at2(k, t)),
    ensures
        val(y.at4(i, j, k, l)) == sum(x.dims[2] as int, f),
{
    let (a, b) = (line_h(x, i, j, l), row(m, k));
    assert(dot_outcome(a, b, y.at4(i, j, k, l)));
    lemma_sum_same(x.dims[2] as int, |t: int| val(a[t]) * val(b[t]), f);
}

/// A contraction along the last axis in exact arithmetic.
pub proof fn lemma_exact_w(
    val: spec_fn(u64) -> real,
    x: TensorVal,
    m: TensorVal,
    y: TensorVal,
    i: int,
    j: int,
    k: int,
    l: int,
    f: spec_fn(int) -> real,
)
    requires
        exact(val),
        transforms_w(x, m, y),
        inside4(y.dims, i, j, k, l),
        forall|t: int|
            0 <= t < x.dims[3] ==> #[trigger] f(t) == val(x.at4(i, j, k, t)) * val(m.at2(l, t)),
    ensures
        val(y.at4(i, j, k, l)) == sum(x.dims[3] as int, f),
{
    let (a, b) = (line_w(x, i, j, k), row(m, l));
    assert(dot_outcome(a, b, y.at4(i, j, k, l)));
    lemma_sum_same(x.dims[3] as int, |t: int| val(a[t]) * val(b[t]), f);
}

/// Elementwise sums, differences and signs in exact arithmetic.
pub proof fn lemma_exact_elements(
    val: spec_fn(u64) -> real,
    a: TensorVal,
    b: TensorVal,
    r: TensorVal,
    i: int,
    j: int,
    k: int,
    l: int,
)
    requires
        exact(val),
        r.dims.len() == 4,
        r.wf(),
        inside4(r.dims, i, j, k, l),
    ensures
        is_sum(a, b, r) ==> val(r.at4(i, j, k, l)) == val(a.at4(i, j, k, l)) + val(
            b.at4(i, j, k, l),
        ),
        is_difference(a, b, r) ==> val(r.at4(i, j, k, l)) == val(a.at4(i, j, k, l)) - val(
            b.at4(i, j, k, l),
        ),
        is_neg(a, r) ==> val(r.at4(i, j, k, l)) == -val(a.at4(i, j, k, l)),
{
    lemma_position4(r.dims, i, j, k, l);
    let p = ((i * r.dims[1] + j) * r.dims[2] + k) * r.dims[3] + l;
    if is_sum(a, b, r) {
        assert(sum_outcome(a.elems[p], b.elems[p], r.elems[p]));
    }
    if is_difference(a, b, r) {
        assert(difference_outcome(a.elems[p], b.elems[p], r.elems[p]));
    }
    if is_neg(a, r) {
        assert(r.elems[p] == negated(a.elems[p]));
    }
}

/// A transform along the columns in exact arithmetic.
proof fn lemma_columns(
    val: spec_fn(u64) -> real,
    x: TensorVal,
    bh: Basis,
    wh: Wave,
    p: TensorVal,
    q: TensorVal,
    i: int,
    j: int,
    k: int,
    l: int,
)
    requires
        exact(val),
        x.dims.len() == 4,
        x.dims[2] == wh.n,
        holds_wave(val, bh, wh.n, wh),
        transforms_h(x, tensor_val(bh.c), p),
        transforms_h(x, tensor_val(bh.s), q),
        inside4(x.dims, i, j, k, l),
    ensures
        val(p.at4(i, j, k, l)) == cos_of(wh, column_of(plane(val, x, i, j), l), k),
        val(q.at4(i, j, k, l)) == sin_of(wh, column_of(plane(val, x, i, j), l), k),
{
    let col = column_of(plane(val, x, i, j), l);
    let (f, g) = (|t: int| col(t) * wh.cos(k, t), |t: int| col(t) * wh.sin(k, t));
    assert forall|t: int| 0 <= t < x.dims[2] implies #[trigger] f(t) == val(x.at4(i, j, t, l)) * val(
        tensor_val(bh.c).at2(k, t),
    ) by {
        assert(val(tensor_val(bh.c).at2(k, t)) == wh.cos(k, t));
    }
    assert forall|t: int| 0 <= t < x.dims[2] implies #[trigger] g(t) == val(x.at4(i, j, t, l)) * val(
        tensor_val(bh.s).at2(k, t),
    ) by {
        assert(val(tensor_val(bh.s).at2(k, t)) == wh.sin(k, t));
    }
    lemma_exact_h(val, x, tensor_val(bh.c), p, i, j, k, l, f);
    lemma_exact_h(val, x, tensor_val(bh.s), q, i, j, k, l, g);
    lemma_sum_same(wh.n, |t: int| col(t) * wh.cos(k, t), f);
    lemma_sum_same(wh.n, |t: int| col(t) * wh.sin(k, t), g);
}

/// A transform along the rows behind one along the columns, in exact arithmetic.
proof fn lemma_rows_fold(
    val: spec_fn(u64) -> real,
    x: TensorVal,
    bh: Basis,
    wh: Wave,
    p: TensorVal,
    q: TensorVal,
    m: TensorVal,
    f: spec_fn(int) -> real,
    pm: TensorVal,
    qm: TensorVal,
    i: int,
    j: int,
    k: int,
    u: int,
)
    requires
        exact(val),
        x.dims.len() == 4,
        x.dims[2] == wh.n,
        holds_wave(val, bh, wh.n, wh),
        transforms_h(x, tensor_val(bh.c), p),
        transforms_h(x, tensor_val(bh.s), q),
        transforms_w(p, m, pm),
        transforms_w(q, m, qm),
        0 <= i < x.dims[0],
        0 <= j < x.dims[1],
        0 <= k < x.dims[2],
        0 <= u < m.dims[0],
        forall|l: int| 0 <= l < x.dims[3] ==> #[trigger] f(l) == val(m.at2(u, l)),
    ensures
        val(pm.at4(i, j, k, u)) == cos_fold(wh, plane(val, x, i, j), x.dims[3] as int, f, k),
        val(qm.at4(i, j, k, u)) == sin_fold(wh, plane(val, x, i, j), x.dims[3] as int, f, k),
{
    let w = x.dims[3] as int;
    let im = plane(val, x, i, j);
    let (a, b) = (
        |l: int| f(l) * cos_of(wh, column_of(im, l), k),
        |l: int| f(l) * sin_of(wh, column_of(im, l), k),
    );
    assert forall|l: int| 0 <= l < p.dims[3] implies #[trigger] a(l) == val(p.at4(i, j, k, l)) * val(
        m.at2(u, l),
    ) by {
        lemma_columns(val, x, bh, wh, p, q, i, j, k, l);
        lemma_product_order(f(l), cos_of(wh, column_of(im, l), k), 0real);
    }
    assert forall|l: int| 0 <= l < q.dims[3] implies #[trigger] b(l) == val(q.at4(i, j, k, l)) * val(
        m.at2(u, l),
    ) by {
        lemma_columns(val, x, bh, wh, p, q, i, j, k, l);
        lemma_product_order(f(l), sin_of(wh, column_of(im, l), k), 0real);
    }
    lemma_exact_w(val, p, m, pm, i, j, k, u, a);
    lemma_exact_w(val, q, m, qm, i, j, k, u, b);
    lemma_sum_same(w, |l: int| f(l) * cos_of(wh, column_of(im, l), k), a);
    lemma_sum_same(w, |l: int| f(l) * sin_of(wh, column_of(im, l), k), b);
}

/// The forward transform in exact arithmetic.
pub proof fn lemma_forward(
    val: spec_fn(u64) -> real,
    x: TensorVal,
    bh: Basis,
    bw: Basis,
    wh: Wave,
    ww: Wave,
    bins: int,
    t: ForwardSteps,
    re: TensorVal,
    im: TensorVal,
    i: int,
    j: int,
    k: int,
    u: int,
)
    requires
        exact(val),
        x.dims.len() == 4,
        x.dims[2] == wh.n,
        x.dims[3] == ww.n,
        holds_wave(val, bh, wh.n, wh),
        holds_wave(val, bw, bins, ww),
        forward_steps(x, bh, bw, t, re, im),
        0 <= i < x.dims[0],
        0 <= j < x.dims[1],
        0 <= k < wh.n,
        0 <= u < bins,
    ensures
        val(re.at4(i, j, k, u)) == cos_fold(wh, plane(val, x, i, j), ww.n, cos_row(ww, u), k)
            - sin_fold(wh, plane(val, x, i, j), ww.n, sin_row(ww, u), k),
        val(im.at4(i, j, k, u)) == -(sin_fold(wh, plane(val, x, i, j), ww.n, cos_row(ww, u), k)
            + cos_fold(wh, plane(val, x, i, j), ww.n, sin_row(ww, u), k)),
{
    let (fc, fs) = (cos_row(ww, u), sin_row(ww, u));
    let (c, s) = (tensor_val(bw.c), tensor_val(bw.s));
    assert forall|l: int| 0 <= l < x.dims[3] implies #[trigger] fc(l) == val(c.at2(u, l)) by {
        assert(val(c.at2(u, l)) == ww.cos(u, l));
    }
    assert forall|l: int| 0 <= l < x.dims[3] implies #[trigger] fs(l) == val(s.at2(u, l)) by {
        assert(val(s.at2(u, l)) == ww.sin(u, l));
    }
    lemma_rows_fold(val, x, bh, wh, t.p, t.q, c, fc, t.pcw, t.qcw, i, j, k, u);
    lemma_rows_fold(val, x, bh, wh, t.p, t.q, s, fs, t.psw, t.qsw, i, j, k, u);
    lemma_exact_elements(val, t.pcw, t.qsw, re, i, j, k, u);
    lemma_exact_elements(val, t.qcw, t.psw, t.sum, i, j, k, u);
    lemma_exact_elements(val, t.sum, t.sum, im, i, j, k, u);
}

/// The inverse along the columns of the forward transform, in exact arithmetic.
proof fn lemma_columns_back(
    val: spec_fn(u64) -> real,
    x: TensorVal,
    bh: Basis,
    bw: Basis,
    wh: Wave,
    ww: Wave,
    bins: int,
    t: ForwardSteps,
    re: TensorVal,
    im: TensorVal,
    v: InverseSteps,
    hr: TensorVal,
    hi: TensorVal,
    i: int,
    j: int,
    n: int,
    u: int,
)
    requires
        exact(val),
        wh.ok(),
        x.dims.len() == 4,
        x.dims[2] == wh.n,
        x.dims[3] == ww.n,
        holds_wave(val, bh, wh.n, wh),
        holds_wave(val, bw, bins, ww),
        forward_steps(x, bh, bw, t, re, im),
        inverse_steps(re, im, bh, v, hr, hi),
        0 <= i < x.dims[0],
        0 <= j < x.dims[1],
        0 <= n < wh.n,
        0 <= u < bins,
    ensures
        val(hr.at4(i, j, n, u)) == cos_of(ww, row_of(plane(val, x, i, j), n), u),
        val(hi.at4(i, j, n, u)) == -sin_of(ww, row_of(plane(val, x, i, j), n), u),
{
    let h = wh.n;
    let pl = plane(val, x, i, j);
    let (fr, fi) = (|k: int| val(re.at4(i, j, k, u)), |k: int| val(im.at4(i, j, k, u)));
    assert forall|k: int| 0 <= k < h implies #[trigger] fr(k) == cos_fold(
        wh,
        pl,
        ww.n,
        cos_row(ww, u),
        k,
    ) - sin_fold(wh, pl, ww.n, sin_row(ww, u), k) by {
        lemma_forward(val, x, bh, bw, wh, ww, bins, t, re, im, i, j, k, u);
    }
    assert forall|k: int| 0 <= k < h implies #[trigger] fi(k) == -(sin_fold(
        wh,
        pl,
        ww.n,
        cos_row(ww, u),
        k,
    ) + cos_fold(wh, pl, ww.n, sin_row(ww, u), k)) by {
        lemma_forward(val, x, bh, bw, wh, ww, bins, t, re, im, i, j, k, u);
    }
    lemma_row_spectrum(wh, ww, pl, u, n, fr, fi);
    let (c, s) = (tensor_val(bh.c), tensor_val(bh.s));
    let (rc, rs) = (|k: int| fr(k) * wh.cos(n, k), |k: int| fr(k) * wh.sin(n, k));
    let (ic, is) = (|k: int| fi(k) * wh.cos(n, k), |k: int| fi(k) * wh.sin(n, k));
    assert(re.dims[2] == h && im.dims[2] == h);
    assert forall|k: int| 0 <= k < h implies #[trigger] rc(k) == val(re.at4(i, j, k, u)) * val(
        c.at2(n, k),
    ) by {
        assert(val(c.at2(n, k)) == wh.cos(n, k));
    }
    assert forall|k: int| 0 <= k < h implies #[trigger] ic(k) == val(im.at4(i, j, k, u)) * val(
        c.at2(n, k),
    ) by {
        assert(val(c.at2(n, k)) == wh.cos(n, k));
    }
    assert forall|k: int| 0 <= k < h implies #[trigger] rs(k) == val(re.at4(i, j, k, u)) * val(
        s.at2(n, k),
    ) by {
        assert(val(s.at2(n, k)) == wh.sin(n, k));
    }
    assert forall|k: int| 0 <= k < h implies #[trigger] is(k) == val(im.at4(i, j, k, u)) * val(
        s.at2(n, k),
    ) by {
        assert(val(s.at2(n, k)) == wh.sin(n, k));
    }
    lemma_exact_h(val, re, c, v.rc, i, j, n, u, rc);
    lemma_exact_h(val, re, s, v.rs, i, j, n, u, rs);
    lemma_exact_h(val, im, c, v.ic, i, j, n, u, ic);
    lemma_exact_h(val, im, s, v.is, i, j, n, u, is);
    lemma_exact_elements(val, v.rc, v.is, hr, i, j, n, u);
    lemma_exact_elements(val, v.ic, v.rs, hi, i, j, n, u);
    lemma_sum_same(h, |k: int| fr(k) * wh.cos(n, k), rc);
    lemma_sum_same(h, |k: int| fr(k) * wh.sin(n, k), rs);
    lemma_sum_same(h, |k: int| fi(k) * wh.cos(n, k), ic);
    lemma_sum_same(h, |k: int| fi(k) * wh.sin(n, k), is);
}

/// The inverse transform undoes the forward transform: in exact arithmetic, with the
/// exact cosines and sines, what comes back is the image that went in.
pub proof fn law_irfft2_undoes_rfft2(
    val: spec_fn(u64) -> real,
    x: TensorVal,
    bh: Basis,
    bw: Basis,
    bwf: Basis,
    wh: Wave,
    ww: Wave,
    re: TensorVal,
    im: TensorVal,
    y: TensorVal,
    i: int,
    j: int,
    k: int,
    l: int,
)
    requires
        exact(val),
        wh.ok(),
        ww.ok(),
        x.dims.len() == 4,
        x.dims[2] == wh.n,
        x.dims[3] == ww.n,
        holds_wave(val, bh, wh.n, wh),
        holds_wave(val, bw, ww.n / 2 + 1, ww),
        holds_wave(val, bwf, ww.n, ww),
        is_rfft2(x, bh, bw, re, im),
        is_irfft2(re, im, bwf, bh, x.dims[3], y),
        inside4(x.dims, i, j, k, l),
    ensures
        val(y.at4(i, j, k, l)) == val(x.at4(i, j, k, l)),
{
    let w = ww.n;
    let bins = w / 2 + 1;
    let t = choose|t: ForwardSteps| #[trigger] forward_steps(x, bh, bw, t, re, im);
    let v = choose|v: RealSteps| #[trigger] real_steps(re, im, bwf, bh, x.dims[3], v, y);
    let z = choose|z: InverseSteps| #[trigger] inverse_steps(re, im, bh, z, v.hr, v.hi);
    assert(forward_steps(x, bh, bw, t, re, im));
    assert(real_steps(re, im, bwf, bh, x.dims[3], v, y));
    assert(is_idft_h(re, im, bh, v.hr, v.hi));
    assert(inverse_steps(re, im, bh, z, v.hr, v.hi));
    let row = row_of(plane(val, x, i, j), k);
    let (fr, fi) = (|u: int| val(v.fr.at4(i, j, k, u)), |u: int| val(v.fi.at4(i, j, k, u)));
    assert forall|u: int| 0 <= u < w implies #[trigger] fr(u) == cos_of(ww, row, u) by {
        if u < bins {
            lemma_columns_back(val, x, bh, bw, wh, ww, bins, t, re, im, z, v.hr, v.hi, i, j, k, u);
        } else {
            lemma_columns_back(
                val,
                x,
                bh,
                bw,
                wh,
                ww,
                bins,
                t,
                re,
                im,
                z,
                v.hr,
                v.hi,
                i,
                j,
                k,
                w - u,
            );
            lemma_line_mirror(ww, row, u);
        }
    }
    assert forall|u: int| 0 <= u < w implies #[trigger] fi(u) == -sin_of(ww, row, u) by {
        lemma_line_mirror(ww, row, u);
        if u == 0 || 2 * u == w {
            assert(v.fi.at4(i, j, k, u) == 0);
        } else if u < bins {
            lemma_columns_back(val, x, bh, bw, wh, ww, bins, t, re, im, z, v.hr, v.hi, i, j, k, u);
            assert(v.fi.at4(i, j, k, u) == v.hi.at4(i, j, k, u));
        } else {
            lemma_columns_back(
                val,
                x,
                bh,
                bw,
                wh,
                ww,
                bins,
                t,
                re,
                im,
                z,
                v.hr,
                v.hi,
                i,
                j,
                k,
                w - u,
            );
            assert(v.fi.at4(i, j, k, u) == negated(v.hi.at4(i, j, k, w - u)));
        }
    }
    lemma_line_inverse(ww, row, l, fr, fi);
    let (c, s) = (tensor_val(bwf.c), tensor_val(bwf.s));
    let (rc, is) = (|u: int| fr(u) * ww.cos(l, u), |u: int| fi(u) * ww.sin(l, u));
    assert forall|u: int| 0 <= u < w implies #[trigger] rc(u) == val(v.fr.at4(i, j, k, u)) * val(
        c.at2(l, u),
    ) by {
        assert(val(c.at2(l, u)) == ww.cos(l, u));
    }
    assert forall|u: int| 0 <= u < w implies #[trigger] is(u) == val(v.fi.at4(i, j, k, u)) * val(
        s.at2(l, u),
    ) by {
        assert(val(s.at2(l, u)) == ww.sin(l, u));
    }
    lemma_exact_w(val, v.fr, c, v.frc, i, j, k, l, rc);
    lemma_exact_w(val, v.fi, s, v.fis, i, j, k, l, is);
    lemma_exact_elements(val, v.frc, v.fis, y, i, j, k, l);
    lemma_sum_same(w, |u: int| fr(u) * ww.cos(l, u), rc);
    lemma_sum_same(w, |u: int| fi(u) * ww.sin(l, u), is);
}

} // verus!
