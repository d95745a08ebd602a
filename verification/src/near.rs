//! The transforms up to rounding: how far the round trip through the spectrum can
//! drift when every operation comes near its exact result.

use vstd::prelude::*;

use crate::axes::lemma_position4;
use crate::exact::{
    column_of, cos_fold, cos_of, cos_row, lemma_line_inverse, lemma_line_mirror,
    lemma_product_order, lemma_product_sign, lemma_product_sum, lemma_product_zero,
    lemma_row_spectrum, lemma_sum_same, plane, row_of, sin_fold, sin_of, sin_row, sum,
    adds_angles, turns_back, Wave,
};
use crate::fourier::{
    forward_steps, inverse_steps, is_idft_h, is_irfft2, is_rfft2, line_h, line_w, real_steps,
    transforms_h, transforms_w, Basis, ForwardSteps, InverseSteps, RealSteps,
};
use crate::tensor::{
    difference_outcome, dot_outcome, inside4, is_difference, is_neg, is_sum, negated, row,
    sum_outcome, tensor_val, TensorVal,
};

verus! {

/// The size of a number.
pub open spec fn size(a: real) -> real {
    if a >= 0real {
        a
    } else {
        -a
    }
}

/// Two numbers are at most `d` apart.
pub open spec fn near(a: real, b: real, d: real) -> bool {
    size(a - b) <= d
}

/// A product with a factor of at most one is no larger than the other factor.
proof fn lemma_small_product(a: real, w: real, b: real)
    requires
        size(a) <= b,
        size(w) <= 1real,
    ensures
        size(a * w) <= b,
{
    assert(-b <= a * w <= b) by (nonlinear_arith)
        requires
            -b <= a <= b,
            -1real <= w <= 1real,
            b >= 0real,
    ;
}

/// The sum of `n` numbers is no larger than `n` times the largest.
proof fn lemma_sum_size(n: int, f: spec_fn(int) -> real, b: real)
    requires
        n >= 0,
        b >= 0real,
        forall|i: int| 0 <= i < n ==> size(#[trigger] f(i)) <= b,
    ensures
        size(sum(n, f)) <= (n as real) * b,
    decreases n,
{
    if n > 0 {
        lemma_sum_size(n - 1, f, b);
        let m = (n - 1) as real;
        assert((m + 1real) * b == m * b + b) by (nonlinear_arith);
        assert(n as real == m + 1real);
    } else {
        lemma_product_zero(b);
    }
}

/// Sums of numbers that are near are near.
proof fn lemma_sum_near(n: int, f: spec_fn(int) -> real, g: spec_fn(int) -> real, d: real)
    requires
        n >= 0,
        d >= 0real,
        forall|i: int| 0 <= i < n ==> near(#[trigger] f(i), g(i), d),
    ensures
        near(sum(n, f), sum(n, g), (n as real) * d),
    decreases n,
{
    if n > 0 {
        lemma_sum_near(n - 1, f, g, d);
        let m = (n - 1) as real;
        assert((m + 1real) * d == m * d + d) by (nonlinear_arith);
        assert(n as real == m + 1real);
    } else {
        lemma_product_zero(d);
    }
}

/// A larger count makes a product with a number from zero up no smaller.
proof fn lemma_count(a: real, b: real, d: real)
    requires
        a <= b,
        d >= 0real,
    ensures
        a * d <= b * d,
{
    assert(a * d <= b * d) by (nonlinear_arith)
        requires
            a <= b,
            d >= 0real,
    ;
}

/// Scaled cosines and sines are at most one.
proof fn lemma_wave_size(w: Wave, k: int, j: int)
    requires
        w.ok(),
    ensures
        size(w.cos(k, j)) <= 1real,
        size(w.sin(k, j)) <= 1real,
{
    let a = k * j;
    let (c, s, r) = ((w.c)(a), (w.s)(a), w.r);
    assert(adds_angles(w.c, w.s, a, -a));
    assert(turns_back(w.c, w.s, a));
    assert(a + -a == 0);
    lemma_product_sign(s, s);
    let (cc, ss, rr) = (c * c, s * s, r * r);
    assert(cc + ss == 1real);
    assert(cc >= 0real) by (nonlinear_arith)
        requires
            cc == c * c,
    ;
    assert(ss >= 0real) by (nonlinear_arith)
        requires
            ss == s * s,
    ;
    assert(rr >= 0real) by (nonlinear_arith)
        requires
            rr == r * r,
    ;
    let n = w.n as real;
    assert(rr <= 1real) by (nonlinear_arith)
        requires
            rr * n == 1real,
            n >= 1real,
            rr >= 0real,
    ;
    lemma_unit_factor(r, c);
    lemma_unit_factor(r, s);
}

/// A product of numbers whose squares are at most one is at most one.
proof fn lemma_unit_factor(r: real, c: real)
    requires
        r * r <= 1real,
        c * c <= 1real,
    ensures
        size(r * c) <= 1real,
{
    assert(-1real <= r <= 1real) by (nonlinear_arith)
        requires
            r * r <= 1real,
    ;
    assert(-1real <= c <= 1real) by (nonlinear_arith)
        requires
            c * c <= 1real,
    ;
    lemma_small_product(r, c, 1real);
}

/// Every entry of a line is at most `top`.
pub open spec fn line_within(val: spec_fn(u64) -> real, a: Seq<u64>, top: real) -> bool {
    forall|t: int| 0 <= t < a.len() ==> size(val(#[trigger] a[t])) <= top
}

/// For lines with entries up to `top`, every contraction against a row of the
/// matrices comes within `e` of the one against the exact cosines or sines.
pub open spec fn comes_near(
    val: spec_fn(u64) -> real,
    top: real,
    e: real,
    b: Basis,
    rows: int,
    w: Wave,
) -> bool {
    let (c, s) = (tensor_val(b.c), tensor_val(b.s));
    &&& 0 <= rows <= w.n
    &&& c.dims == seq![rows as nat, w.n as nat]
    &&& s.dims == seq![rows as nat, w.n as nat]
    &&& forall|a: Seq<u64>, k: int, r: u64|
        0 <= k < rows && a.len() == w.n && line_within(val, a, top) && #[trigger] dot_outcome(
            a,
            row(c, k),
            r,
        ) ==> near(val(r), sum(w.n, |t: int| val(a[t]) * w.cos(k, t)), e)
    &&& forall|a: Seq<u64>, k: int, r: u64|
        0 <= k < rows && a.len() == w.n && line_within(val, a, top) && #[trigger] dot_outcome(
            a,
            row(s, k),
            r,
        ) ==> near(val(r), sum(w.n, |t: int| val(a[t]) * w.sin(k, t)), e)
}

/// Sums and differences of numbers up to `top` come within `e`; a turned sign and
/// zero are exact.
pub open spec fn sums_near(val: spec_fn(u64) -> real, top: real, e: real) -> bool {
    &&& forall|a: u64, b: u64, r: u64| #[trigger]
        sum_outcome(a, b, r) && size(val(a)) <= top && size(val(b)) <= top ==> near(
            val(r),
            val(a) + val(b),
            e,
        )
    &&& forall|a: u64, b: u64, r: u64| #[trigger]
        difference_outcome(a, b, r) && size(val(a)) <= top && size(val(b)) <= top ==> near(
            val(r),
            val(a) - val(b),
            e,
        )
    &&& forall|a: u64| val(#[trigger] negated(a)) == -val(a)
    &&& val(0) == 0real
}

/// How far a sum over `n` numbers drifts whose terms drift by `d`.
pub open spec fn folded(n: real, e: real, d: real) -> real {
    e + n * d
}

/// How far a sum of two numbers drifts that drift by `d`.
pub open spec fn paired(e: real, d: real) -> real {
    e + d + d
}

/// How far the round trip drifts over at most `n` lines, each operation coming
/// within `e`.
pub open spec fn drift(n: real, e: real) -> real {
    paired(e, folded(n, e, paired(e, folded(n, e, paired(e, folded(n, e, e))))))
}

/// How large the numbers on the way get for samples up to `x`.
pub open spec fn reach(n: real, x: real) -> real {
    n * (n * (n * x) + n * (n * x))
}

/// Drift and reach only grow on the way.
proof fn lemma_growth(n: real, e: real, x: real)
    requires
        n >= 1real,
        e >= 0real,
        x >= 0real,
    ensures
        ({
            let e2 = folded(n, e, e);
            let e3 = paired(e, e2);
            let e4 = folded(n, e, e3);
            let e5 = paired(e, e4);
            let e6 = folded(n, e, e5);
            &&& 0real <= e <= e2 <= e3 <= e4 <= e5 <= e6 <= drift(n, e)
            &&& drift(n, e) == paired(e, e6)
        }),
        0real <= x <= n * x <= n * (n * x) <= n * (n * x) + n * (n * x) <= reach(n, x),
{
    let e2 = folded(n, e, e);
    lemma_count(1real, n, e);
    lemma_product_zero(e);
    lemma_product_order(e, 1real, 1real);
    let e3 = paired(e, e2);
    lemma_count(1real, n, e3);
    lemma_product_zero(e3);
    lemma_product_order(e3, 1real, 1real);
    let e4 = folded(n, e, e3);
    let e5 = paired(e, e4);
    lemma_count(1real, n, e5);
    lemma_product_zero(e5);
    lemma_product_order(e5, 1real, 1real);
    lemma_count(1real, n, x);
    lemma_product_zero(x);
    lemma_product_order(x, 1real, 1real);
    let m1 = n * x;
    lemma_count(1real, n, m1);
    lemma_product_zero(m1);
    lemma_product_order(m1, 1real, 1real);
    let m3 = n * m1 + n * m1;
    lemma_count(1real, n, m3);
    lemma_product_zero(m3);
    lemma_product_order(m3, 1real, 1real);
}

/// The cosine or the sine of a wave.
spec fn turn(w: Wave, sine: bool, k: int, t: int) -> real {
    if sine {
        w.sin(k, t)
    } else {
        w.cos(k, t)
    }
}

/// A matrix of a basis.
spec fn matrix(b: Basis, sine: bool) -> TensorVal {
    if sine {
        tensor_val(b.s)
    } else {
        tensor_val(b.c)
    }
}

/// A contraction of a line that is near another against a row of a matrix.
proof fn lemma_near_dot(
    val: spec_fn(u64) -> real,
    top: real,
    e: real,
    b: Basis,
    rows: int,
    w: Wave,
    n: real,
    sine: bool,
    line: Seq<u64>,
    k: int,
    r: u64,
    f: spec_fn(int) -> real,
    d: real,
    g: real,
    total: spec_fn(int) -> real,
)
    requires
        comes_near(val, top, e, b, rows, w),
        w.ok(),
        w.n as real <= n,
        0 <= k < rows,
        line.len() == w.n,
        dot_outcome(line, row(matrix(b, sine), k), r),
        d >= 0real,
        g >= 0real,
        g + d <= top,
        forall|t: int| 0 <= t < w.n ==> near(val(#[trigger] line[t]), f(t), d),
        forall|t: int| 0 <= t < w.n ==> size(#[trigger] f(t)) <= g,
        forall|t: int| 0 <= t < w.n ==> #[trigger] total(t) == f(t) * turn(w, sine, k, t),
    ensures
        near(val(r), sum(w.n, total), folded(n, e, d)),
        size(sum(w.n, total)) <= n * g,
{
    assert(line_within(val, line, top)) by {
        assert forall|t: int| 0 <= t < line.len() implies size(val(#[trigger] line[t])) <= top by {
            assert(near(val(line[t]), f(t), d) && size(f(t)) <= g);
        }
    }
    let product = |t: int| val(line[t]) * turn(w, sine, k, t);
    assert forall|t: int| 0 <= t < w.n implies near(#[trigger] product(t), total(t), d) by {
        let (a, c, z) = (val(line[t]), f(t), turn(w, sine, k, t));
        lemma_wave_size(w, k, t);
        assert(near(val(line[t]), f(t), d));
        lemma_small_product(a - c, z, d);
        lemma_product_order(z, a, 0real);
        lemma_product_order(z, c, 0real);
        lemma_product_order(z, a - c, 0real);
        lemma_product_sum(z, a, -c);
        lemma_product_sign(z, c);
        assert(total(t) == f(t) * turn(w, sine, k, t));
    }
    lemma_sum_near(w.n, product, total, d);
    lemma_count(w.n as real, n, d);
    assert forall|t: int| 0 <= t < w.n implies size(#[trigger] total(t)) <= g by {
        lemma_wave_size(w, k, t);
        assert(size(f(t)) <= g);
        lemma_small_product(f(t), turn(w, sine, k, t), g);
    }
    lemma_sum_size(w.n, total, g);
    lemma_count(w.n as real, n, g);
    if sine {
        lemma_sum_same(w.n, |t: int| val(line[t]) * w.sin(k, t), product);
    } else {
        lemma_sum_same(w.n, |t: int| val(line[t]) * w.cos(k, t), product);
    }
}

/// Elementwise sums, differences and signs of numbers that are near others.
proof fn lemma_near_elements(
    val: spec_fn(u64) -> real,
    top: real,
    e: real,
    a: TensorVal,
    b: TensorVal,
    r: TensorVal,
    i: int,
    j: int,
    k: int,
    l: int,
    x: real,
    y: real,
    d: real,
)
    requires
        sums_near(val, top, e),
        r.dims.len() == 4,
        r.wf(),
        inside4(r.dims, i, j, k, l),
        near(val(a.at4(i, j, k, l)), x, d),
        near(val(b.at4(i, j, k, l)), y, d),
        size(x) + d <= top,
        size(y) + d <= top,
    ensures
        is_sum(a, b, r) ==> near(val(r.at4(i, j, k, l)), x + y, paired(e, d)),
        is_difference(a, b, r) ==> near(val(r.at4(i, j, k, l)), x - y, paired(e, d)),
        is_neg(a, r) ==> near(val(r.at4(i, j, k, l)), -x, d),
{
    lemma_position4(r.dims, i, j, k, l);
    let p = ((i * r.dims[1] + j) * r.dims[2] + k) * r.dims[3] + l;
    if is_sum(a, b, r) {
        assert(sum_outcome(a.elems[p], b.elems[p], r.elems[p]));
    }
    if is_difference(a, b, r) {
        assert(difference_outcome(a.elems[p], b.elems[p], r.elems[p]));
    }
    if is_neg(a, r) {
        assert(r.elems[p] == negated(a.elems[p]));
    }
}

/// What the operations of a round trip keep to: at most `n` lines, samples up to `x`,
/// numbers on the way up to `top`, and each result within `e`.
pub struct Room {
    pub n: real,
    pub x: real,
    pub top: real,
    pub e: real,
}

impl Room {
    /// The numbers on the way stay within bounds.
    pub open spec fn ok(self) -> bool {
        &&& self.n >= 1real
        &&& self.x >= 0real
        &&& self.e >= 0real
        &&& reach(self.n, self.x) + drift(self.n, self.e) <= self.top
    }
}

/// A transform along the columns of an image.
proof fn lemma_near_columns(
    val: spec_fn(u64) -> real,
    g: Room,
    x: TensorVal,
    bh: Basis,
    wh: Wave,
    p: TensorVal,
    q: TensorVal,
    i: int,
    j: int,
    k: int,
    l: int,
)
    requires
        g.ok(),
        wh.ok(),
        wh.n as real <= g.n,
        comes_near(val, g.top, g.e, bh, wh.n, wh),
        x.dims.len() == 4,
        x.dims[2] == wh.n,
        transforms_h(x, tensor_val(bh.c), p),
        transforms_h(x, tensor_val(bh.s), q),
        inside4(x.dims, i, j, k, l),
        forall|t: int| 0 <= t < wh.n ==> size(val(#[trigger] x.at4(i, j, t, l))) <= g.x,
    ensures
        near(val(p.at4(i, j, k, l)), cos_of(wh, column_of(plane(val, x, i, j), l), k), g.e),
        near(val(q.at4(i, j, k, l)), sin_of(wh, column_of(plane(val, x, i, j), l), k), g.e),
        size(cos_of(wh, column_of(plane(val, x, i, j), l), k)) <= g.n * g.x,
        size(sin_of(wh, column_of(plane(val, x, i, j), l), k)) <= g.n * g.x,
{
    lemma_growth(g.n, g.e, g.x);
    let col = column_of(plane(val, x, i, j), l);
    let line = line_h(x, i, j, l);
    let (f, h) = (|t: int| col(t) * wh.cos(k, t), |t: int| col(t) * wh.sin(k, t));
    assert forall|t: int| 0 <= t < wh.n implies near(val(#[trigger] line[t]), col(t), 0real) by {}
    assert forall|t: int| 0 <= t < wh.n implies size(#[trigger] col(t)) <= g.x by {
        assert(size(val(x.at4(i, j, t, l))) <= g.x);
    }
    lemma_product_zero(g.n);
    let (pv, qv) = (p.at4(i, j, k, l), q.at4(i, j, k, l));
    lemma_near_dot(
        val,
        g.top,
        g.e,
        bh,
        wh.n,
        wh,
        g.n,
        false,
        line,
        k,
        pv,
        col,
        0real,
        g.x,
        f,
    );
    lemma_near_dot(val, g.top, g.e, bh, wh.n, wh, g.n, true, line, k, qv, col, 0real, g.x, h);
    lemma_sum_same(wh.n, |t: int| col(t) * wh.cos(k, t), f);
    lemma_sum_same(wh.n, |t: int| col(t) * wh.sin(k, t), h);
}

/// The factors of one bin along the rows.
spec fn turn_row(w: Wave, sine: bool, u: int) -> spec_fn(int) -> real {
    if sine {
        sin_row(w, u)
    } else {
        cos_row(w, u)
    }
}

/// A transform along the rows behind one along the columns.
proof fn lemma_near_fold(
    val: spec_fn(u64) -> real,
    g: Room,
    x: TensorVal,
    bh: Basis,
    wh: Wave,
    bw: Basis,
    bins: int,
    ww: Wave,
    sine: bool,
    p: TensorVal,
    q: TensorVal,
    pm: TensorVal,
    qm: TensorVal,
    i: int,
    j: int,
    k: int,
    u: int,
)
    requires
        g.ok(),
        wh.ok(),
        ww.ok(),
        wh.n as real <= g.n,
        ww.n as real <= g.n,
        comes_near(val, g.top, g.e, bh, wh.n, wh),
        comes_near(val, g.top, g.e, bw, bins, ww),
        x.dims.len() == 4,
        x.dims[2] == wh.n,
        x.dims[3] == ww.n,
        transforms_h(x, tensor_val(bh.c), p),
        transforms_h(x, tensor_val(bh.s), q),
        transforms_w(p, matrix(bw, sine), pm),
        transforms_w(q, matrix(bw, sine), qm),
        0 <= i < x.dims[0],
        0 <= j < x.dims[1],
        0 <= k < wh.n,
        0 <= u < bins,
        forall|t: int, l: int|
            0 <= t < wh.n && 0 <= l < ww.n ==> size(val(#[trigger] x.at4(i, j, t, l))) <= g.x,
    ensures
        ({
            let im = plane(val, x, i, j);
            let f = turn_row(ww, sine, u);
            let d = folded(g.n, g.e, g.e);
            &&& near(val(pm.at4(i, j, k, u)), cos_fold(wh, im, ww.n, f, k), d)
            &&& near(val(qm.at4(i, j, k, u)), sin_fold(wh, im, ww.n, f, k), d)
            &&& size(cos_fold(wh, im, ww.n, f, k)) <= g.n * (g.n * g.x)
            &&& size(sin_fold(wh, im, ww.n, f, k)) <= g.n * (g.n * g.x)
        }),
{
    lemma_growth(g.n, g.e, g.x);
    let im = plane(val, x, i, j);
    let f = turn_row(ww, sine, u);
    let (cl, sl) = (
        |l: int| cos_of(wh, column_of(im, l), k),
        |l: int| sin_of(wh, column_of(im, l), k),
    );
    let (pl, ql) = (line_w(p, i, j, k), line_w(q, i, j, k));
    assert forall|l: int| 0 <= l < ww.n implies near(val(#[trigger] pl[l]), cl(l), g.e) && size(
        cl(l),
    ) <= g.n * g.x by {
        lemma_near_columns(val, g, x, bh, wh, p, q, i, j, k, l);
    }
    assert forall|l: int| 0 <= l < ww.n implies near(val(#[trigger] ql[l]), sl(l), g.e) && size(
        sl(l),
    ) <= g.n * g.x by {
        lemma_near_columns(val, g, x, bh, wh, p, q, i, j, k, l);
    }
    assert forall|l: int| 0 <= l < ww.n implies size(#[trigger] cl(l)) <= g.n * g.x by {
        assert(near(val(pl[l]), cl(l), g.e));
    }
    assert forall|l: int| 0 <= l < ww.n implies size(#[trigger] sl(l)) <= g.n * g.x by {
        assert(near(val(ql[l]), sl(l), g.e));
    }
    let (a, b) = (
        |l: int| cl(l) * turn(ww, sine, u, l),
        |l: int| sl(l) * turn(ww, sine, u, l),
    );
    let m = g.n * g.x;
    let (pv, qv) = (pm.at4(i, j, k, u), qm.at4(i, j, k, u));
    lemma_near_dot(val, g.top, g.e, bw, bins, ww, g.n, sine, pl, u, pv, cl, g.e, m, a);
    lemma_near_dot(val, g.top, g.e, bw, bins, ww, g.n, sine, ql, u, qv, sl, g.e, m, b);
    let (fa, fb) = (
        |l: int| f(l) * cos_of(wh, column_of(im, l), k),
        |l: int| f(l) * sin_of(wh, column_of(im, l), k),
    );
    assert forall|l: int| 0 <= l < ww.n implies #[trigger] fa(l) == a(l) by {
        lemma_product_order(f(l), cl(l), 0real);
    }
    assert forall|l: int| 0 <= l < ww.n implies #[trigger] fb(l) == b(l) by {
        lemma_product_order(f(l), sl(l), 0real);
    }
    lemma_sum_same(ww.n, fa, a);
    lemma_sum_same(ww.n, fb, b);
    lemma_sum_same(ww.n, |l: int| f(l) * cos_of(wh, column_of(im, l), k), fa);
    lemma_sum_same(ww.n, |l: int| f(l) * sin_of(wh, column_of(im, l), k), fb);
}

/// The exact real part of a spectrum.
pub open spec fn re_of(wh: Wave, ww: Wave, x: spec_fn(int, int) -> real, k: int, u: int) -> real {
    cos_fold(wh, x, ww.n, cos_row(ww, u), k) - sin_fold(wh, x, ww.n, sin_row(ww, u), k)
}

/// The exact imaginary part of a spectrum.
pub open spec fn im_of(wh: Wave, ww: Wave, x: spec_fn(int, int) -> real, k: int, u: int) -> real {
    -(sin_fold(wh, x, ww.n, cos_row(ww, u), k) + cos_fold(wh, x, ww.n, sin_row(ww, u), k))
}

/// The forward transform comes near the exact one.
proof fn lemma_near_forward(
    val: spec_fn(u64) -> real,
    g: Room,
    x: TensorVal,
    bh: Basis,
    bw: Basis,
    wh: Wave,
    ww: Wave,
    bins: int,
    t: ForwardSteps,
    re: TensorVal,
    im: TensorVal,
    i: int,
    j: int,
    k: int,
    u: int,
)
    requires
        g.ok(),
        wh.ok(),
        ww.ok(),
        wh.n as real <= g.n,
        ww.n as real <= g.n,
        sums_near(val, g.top, g.e),
        comes_near(val, g.top, g.e, bh, wh.n, wh),
        comes_near(val, g.top, g.e, bw, bins, ww),
        x.dims.len() == 4,
        x.dims[2] == wh.n,
        x.dims[3] == ww.n,
        forward_steps(x, bh, bw, t, re, im),
        0 <= i < x.dims[0],
        0 <= j < x.dims[1],
        0 <= k < wh.n,
        0 <= u < bins,
        forall|t: int, l: int|
            0 <= t < wh.n && 0 <= l < ww.n ==> size(val(#[trigger] x.at4(i, j, t, l))) <= g.x,
    ensures
        ({
            let pl = plane(val, x, i, j);
            let d = paired(g.e, folded(g.n, g.e, g.e));
            let m = g.n * (g.n * g.x) + g.n * (g.n * g.x);
            &&& near(val(re.at4(i, j, k, u)), re_of(wh, ww, pl, k, u), d)
            &&& near(val(im.at4(i, j, k, u)), im_of(wh, ww, pl, k, u), d)
            &&& size(re_of(wh, ww, pl, k, u)) <= m
            &&& size(im_of(wh, ww, pl, k, u)) <= m
        }),
{
    lemma_growth(g.n, g.e, g.x);
    let pl = plane(val, x, i, j);
    let d = folded(g.n, g.e, g.e);
    lemma_near_fold(
        val,
        g,
        x,
        bh,
        wh,
        bw,
        bins,
        ww,
        false,
        t.p,
        t.q,
        t.pcw,
        t.qcw,
        i,
        j,
        k,
        u,
    );
    lemma_near_fold(
        val,
        g,
        x,
        bh,
        wh,
        bw,
        bins,
        ww,
        true,
        t.p,
        t.q,
        t.psw,
        t.qsw,
        i,
        j,
        k,
        u,
    );
    let (fc, fs) = (cos_row(ww, u), sin_row(ww, u));
    let a = cos_fold(wh, pl, ww.n, fc, k);
    let b = sin_fold(wh, pl, ww.n, fs, k);
    let c = sin_fold(wh, pl, ww.n, fc, k);
    let s = cos_fold(wh, pl, ww.n, fs, k);
    lemma_near_elements(val, g.top, g.e, t.pcw, t.qsw, re, i, j, k, u, a, b, d);
    lemma_near_elements(val, g.top, g.e, t.qcw, t.psw, t.sum, i, j, k, u, c, s, d);
    lemma_near_elements(
        val,
        g.top,
        g.e,
        t.sum,
        t.sum,
        im,
        i,
        j,
        k,
        u,
        c + s,
        c + s,
        paired(g.e, d),
    );
}

/// The inverse along the columns of the forward transform comes near the transform
/// along the rows.
proof fn lemma_near_columns_back(
    val: spec_fn(u64) -> real,
    g: Room,
    x: TensorVal,
    bh: Basis,
    bw: Basis,
    wh: Wave,
    ww: Wave,
    bins: int,
    t: ForwardSteps,
    re: TensorVal,
    im: TensorVal,
    v: InverseSteps,
    hr: TensorVal,
    hi: TensorVal,
    i: int,
    j: int,
    n: int,
    u: int,
)
    requires
        g.ok(),
        wh.ok(),
        ww.ok(),
        wh.n as real <= g.n,
        ww.n as real <= g.n,
        sums_near(val, g.top, g.e),
        comes_near(val, g.top, g.e, bh, wh.n, wh),
        comes_near(val, g.top, g.e, bw, bins, ww),
        x.dims.len() == 4,
        x.dims[2] == wh.n,
        x.dims[3] == ww.n,
        forward_steps(x, bh, bw, t, re, im),
        0 <= i < x.dims[0],
        0 <= j < x.dims[1],
        0 <= n < wh.n,
        0 <= u < bins,
        inverse_steps(re, im, bh, v, hr, hi),
        forall|t: int, l: int|
            0 <= t < wh.n && 0 <= l < ww.n ==> size(val(#[trigger] x.at4(i, j, t, l))) <= g.x,
    ensures
        ({
            let row = row_of(plane(val, x, i, j), n);
            let d = paired(g.e, folded(g.n, g.e, paired(g.e, folded(g.n, g.e, g.e))));
            &&& near(val(hr.at4(i, j, n, u)), cos_of(ww, row, u), d)
            &&& near(val(hi.at4(i, j, n, u)), -sin_of(ww, row, u), d)
        }),
{
    lemma_growth(g.n, g.e, g.x);
    let h = wh.n;
    let pl = plane(val, x, i, j);
    let d = paired(g.e, folded(g.n, g.e, g.e));
    let m = g.n * (g.n * g.x) + g.n * (g.n * g.x);
    let (fr, fi) = (|k: int| re_of(wh, ww, pl, k, u), |k: int| im_of(wh, ww, pl, k, u));
    let (rl, il) = (line_h(re, i, j, u), line_h(im, i, j, u));
    assert(re.dims[2] == h && im.dims[2] == h);
    assert forall|k: int| 0 <= k < h implies near(val(#[trigger] rl[k]), fr(k), d) by {
        lemma_near_forward(val, g, x, bh, bw, wh, ww, bins, t, re, im, i, j, k, u);
    }
    assert forall|k: int| 0 <= k < h implies near(val(#[trigger] il[k]), fi(k), d) by {
        lemma_near_forward(val, g, x, bh, bw, wh, ww, bins, t, re, im, i, j, k, u);
    }
    assert forall|k: int| 0 <= k < h implies size(#[trigger] fr(k)) <= m by {
        lemma_near_forward(val, g, x, bh, bw, wh, ww, bins, t, re, im, i, j, k, u);
    }
    assert forall|k: int| 0 <= k < h implies size(#[trigger] fi(k)) <= m by {
        lemma_near_forward(val, g, x, bh, bw, wh, ww, bins, t, re, im, i, j, k, u);
    }
    let (rc, rs) = (|k: int| fr(k) * wh.cos(n, k), |k: int| fr(k) * wh.sin(n, k));
    let (ic, is) = (|k: int| fi(k) * wh.cos(n, k), |k: int| fi(k) * wh.sin(n, k));
    let (top, e) = (g.top, g.e);
    let (vrc, vrs) = (v.rc.at4(i, j, n, u), v.rs.at4(i, j, n, u));
    let (vic, vis) = (v.ic.at4(i, j, n, u), v.is.at4(i, j, n, u));
    lemma_near_dot(val, top, e, bh, h, wh, g.n, false, rl, n, vrc, fr, d, m, rc);
    lemma_near_dot(val, top, e, bh, h, wh, g.n, true, rl, n, vrs, fr, d, m, rs);
    lemma_near_dot(val, top, e, bh, h, wh, g.n, false, il, n, vic, fi, d, m, ic);
    lemma_near_dot(val, top, e, bh, h, wh, g.n, true, il, n, vis, fi, d, m, is);
    let q = folded(g.n, e, d);
    let (a, b) = (sum(h, rc), sum(h, is));
    let (c, s) = (sum(h, ic), sum(h, rs));
    lemma_near_elements(val, top, e, v.rc, v.is, hr, i, j, n, u, a, b, q);
    lemma_near_elements(val, top, e, v.ic, v.rs, hi, i, j, n, u, c, s, q);
    lemma_row_spectrum(wh, ww, pl, u, n, fr, fi);
    lemma_sum_same(h, |k: int| fr(k) * wh.cos(n, k), rc);
    lemma_sum_same(h, |k: int| fr(k) * wh.sin(n, k), rs);
    lemma_sum_same(h, |k: int| fi(k) * wh.cos(n, k), ic);
    lemma_sum_same(h, |k: int| fi(k) * wh.sin(n, k), is);
}

/// The transform of a line of samples up to `b` is at most `n` times as large.
proof fn lemma_line_size(w: Wave, x: spec_fn(int) -> real, u: int, n: real, b: real)
    requires
        w.ok(),
        w.n as real <= n,
        b >= 0real,
        forall|l: int| 0 <= l < w.n ==> size(#[trigger] x(l)) <= b,
    ensures
        size(cos_of(w, x, u)) <= n * b,
        size(sin_of(w, x, u)) <= n * b,
{
    let (c, s) = (|t: int| x(t) * w.cos(u, t), |t: int| x(t) * w.sin(u, t));
    assert forall|t: int| 0 <= t < w.n implies size(#[trigger] c(t)) <= b by {
        lemma_wave_size(w, u, t);
        lemma_small_product(x(t), w.cos(u, t), b);
    }
    assert forall|t: int| 0 <= t < w.n implies size(#[trigger] s(t)) <= b by {
        lemma_wave_size(w, u, t);
        lemma_small_product(x(t), w.sin(u, t), b);
    }
    lemma_sum_size(w.n, c, b);
    lemma_sum_size(w.n, s, b);
    lemma_count(w.n as real, n, b);
    lemma_sum_same(w.n, |t: int| x(t) * w.cos(u, t), c);
    lemma_sum_same(w.n, |t: int| x(t) * w.sin(u, t), s);
}

/// The inverse transform undoes the forward transform up to rounding: where every
/// contraction against the matrices comes within `e` of the one against the exact
/// cosines and sines, and every sum within `e`, each sample comes back within
/// `drift(n, e)` of what went in.
pub proof fn law_irfft2_undoes_rfft2_up_to_rounding(
    val: spec_fn(u64) -> real,
    g: Room,
    x: TensorVal,
    bh: Basis,
    bw: Basis,
    bwf: Basis,
    wh: Wave,
    ww: Wave,
    re: TensorVal,
    im: TensorVal,
    y: TensorVal,
    i: int,
    j: int,
    k: int,
    l: int,
)
    requires
        g.ok(),
        wh.ok(),
        ww.ok(),
        wh.n as real <= g.n,
        ww.n as real <= g.n,
        sums_near(val, g.top, g.e),
        comes_near(val, g.top, g.e, bh, wh.n, wh),
        comes_near(val, g.top, g.e, bw, ww.n / 2 + 1, ww),
        comes_near(val, g.top, g.e, bwf, ww.n, ww),
        x.dims.len() == 4,
        x.dims[2] == wh.n,
        x.dims[3] == ww.n,
        forall|a: int, b: int, c: int, d: int|
            inside4(x.dims, a, b, c, d) ==> size(val(#[trigger] x.at4(a, b, c, d))) <= g.x,
        is_rfft2(x, bh, bw, re, im),
        is_irfft2(re, im, bwf, bh, x.dims[3], y),
        inside4(x.dims, i, j, k, l),
    ensures
        near(val(y.at4(i, j, k, l)), val(x.at4(i, j, k, l)), drift(g.n, g.e)),
{
    lemma_growth(g.n, g.e, g.x);
    let w = ww.n;
    let bins = w / 2 + 1;
    let t = choose|t: ForwardSteps| #[trigger] forward_steps(x, bh, bw, t, re, im);
    let v = choose|v: RealSteps| #[trigger] real_steps(re, im, bwf, bh, x.dims[3], v, y);
    assert(forward_steps(x, bh, bw, t, re, im));
    assert(real_steps(re, im, bwf, bh, x.dims[3], v, y));
    assert(is_idft_h(re, im, bh, v.hr, v.hi));
    let z = choose|z: InverseSteps| #[trigger] inverse_steps(re, im, bh, z, v.hr, v.hi);
    assert(inverse_steps(re, im, bh, z, v.hr, v.hi));
    let row = row_of(plane(val, x, i, j), k);
    assert forall|c: int| 0 <= c < w implies size(#[trigger] row(c)) <= g.x by {
        assert(size(val(x.at4(i, j, k, c))) <= g.x);
    }
    let d = paired(g.e, folded(g.n, g.e, paired(g.e, folded(g.n, g.e, g.e))));
    let (fr, fi) = (|u: int| cos_of(ww, row, u), |u: int| -sin_of(ww, row, u));
    let (rl, il) = (line_w(v.fr, i, j, k), line_w(v.fi, i, j, k));
    assert forall|u: int| 0 <= u < w implies near(val(#[trigger] rl[u]), fr(u), d) by {
        let s = if u < bins {
            u
        } else {
            w - u
        };
        lemma_near_columns_back(
            val,
            g,
            x,
            bh,
            bw,
            wh,
            ww,
            bins,
            t,
            re,
            im,
            z,
            v.hr,
            v.hi,
            i,
            j,
            k,
            s,
        );
        lemma_line_mirror(ww, row, u);
        assert(v.fr.at4(i, j, k, u) == v.hr.at4(i, j, k, s));
    }
    assert forall|u: int| 0 <= u < w implies near(val(#[trigger] il[u]), fi(u), d) by {
        lemma_line_mirror(ww, row, u);
        let s = if u < bins {
            u
        } else {
            w - u
        };
        lemma_near_columns_back(
            val,
            g,
            x,
            bh,
            bw,
            wh,
            ww,
            bins,
            t,
            re,
            im,
            z,
            v.hr,
            v.hi,
            i,
            j,
            k,
            s,
        );
        if u == 0 || 2 * u == w {
            assert(v.fi.at4(i, j, k, u) == 0);
        } else if u < bins {
            assert(v.fi.at4(i, j, k, u) == v.hi.at4(i, j, k, u));
        } else {
            assert(v.fi.at4(i, j, k, u) == negated(v.hi.at4(i, j, k, w - u)));
        }
    }
    let m = g.n * g.x;
    assert forall|u: int| 0 <= u < w implies size(#[trigger] fr(u)) <= m by {
        lemma_line_size(ww, row, u, g.n, g.x);
    }
    assert forall|u: int| 0 <= u < w implies size(#[trigger] fi(u)) <= m by {
        lemma_line_size(ww, row, u, g.n, g.x);
    }
    let (rc, is) = (|u: int| fr(u) * ww.cos(l, u), |u: int| fi(u) * ww.sin(l, u));
    let (top, e) = (g.top, g.e);
    let (vrc, vis) = (v.frc.at4(i, j, k, l), v.fis.at4(i, j, k, l));
    lemma_near_dot(val, top, e, bwf, w, ww, g.n, false, rl, l, vrc, fr, d, m, rc);
    lemma_near_dot(val, top, e, bwf, w, ww, g.n, true, il, l, vis, fi, d, m, is);
    let q = folded(g.n, e, d);
    let (a, b) = (sum(w, rc), sum(w, is));
    lemma_near_elements(val, top, e, v.frc, v.fis, y, i, j, k, l, a, b, q);
    lemma_line_inverse(ww, row, l, fr, fi);
    lemma_sum_same(w, |u: int| fr(u) * ww.cos(l, u), rc);
    lemma_sum_same(w, |u: int| fi(u) * ww.sin(l, u), is);
}

} // verus!
