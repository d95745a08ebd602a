//! Laws of the transforms: in exact arithmetic they are the discrete Fourier transform of
//! a real picture and its inverse.

use vstd::prelude::*;

use crate::blocks::SizeBases;
use crate::exact::{
    column_of, cos_fold, cos_of, cos_row, exact, holds_wave, lemma_exact_elements, lemma_exact_h,
    lemma_exact_w, lemma_forward, lemma_product_order, lemma_product_sign, lemma_regroup_line,
    lemma_sum_plus, lemma_sum_same, lemma_sum_times, plane, sin_fold, sin_of, sin_row, sum, Wave,
};
use crate::fourier::{
    contracts_h, forward_steps, inverse_steps, is_irfft2, is_rfft2, real_steps, transforms_last,
    Basis, ForwardSteps, InverseSteps, RealSteps,
};
use crate::tensor::{dot_outcome, inside4, product, row, tensor_val, TensorVal};

verus! {

/// The bases for a picture of `h` rows and `w` columns hold the waves of those lengths:
/// all bins of the rows, the bins up to the middle one of the columns for the way there,
/// and all of them for the way back.
pub proof fn law_bases_hold_the_waves_of_a_size<T: Fn(usize, usize, usize) -> (u32, u32)>(
    b: SizeBases,
    wave: T,
    h: usize,
    w: usize,
    k: usize,
    j: usize,
)
    requires
        b.made_for(wave, h, w),
    ensures
        tensor_val(b.bh.c).dims == seq![h as nat, h as nat],
        tensor_val(b.bh.s).dims == seq![h as nat, h as nat],
        tensor_val(b.bw.c).dims == seq![(w / 2 + 1) as nat, w as nat],
        tensor_val(b.bw.s).dims == seq![(w / 2 + 1) as nat, w as nat],
        tensor_val(b.bwf.c).dims == seq![w as nat, w as nat],
        tensor_val(b.bwf.s).dims == seq![w as nat, w as nat],
        k < h && j < h ==> holds_wave_at(b.bh, wave, k, j, h),
        k <= w / 2 && j < w ==> holds_wave_at(b.bw, wave, k, j, w),
        k < w && j < w ==> holds_wave_at(b.bwf, wave, k, j, w),
{
    let (k2, j2) = (k as int, j as int);
    if k < h && j < h {
        assert(crate::fourier::wave_gives(
            wave,
            (k, j, h),
            tensor_val(b.bh.c).at2(k2, j2),
            tensor_val(b.bh.s).at2(k2, j2),
        ));
    }
    if k <= w / 2 && j < w {
        assert(crate::fourier::wave_gives(
            wave,
            (k, j, w),
            tensor_val(b.bw.c).at2(k2, j2),
            tensor_val(b.bw.s).at2(k2, j2),
        ));
    }
    if k < w && j < w {
        assert(crate::fourier::wave_gives(
            wave,
            (k, j, w),
            tensor_val(b.bwf.c).at2(k2, j2),
            tensor_val(b.bwf.s).at2(k2, j2),
        ));
    }
}

/// Row `k`, column `j` of a basis over `n` places holds what the wave function gives for
/// them: its cosine in the one matrix and its sine in the other.
pub open spec fn holds_wave_at<T: Fn(usize, usize, usize) -> (u32, u32)>(
    b: Basis,
    wave: T,
    k: usize,
    j: usize,
    n: usize,
) -> bool {
    exists|c: u32, s: u32| #[trigger]
        call_ensures(wave, (k, j, n), (c, s)) && tensor_val(b.c).elems[k * n + j] == c
            && tensor_val(b.s).elems[k * n + j] == s
}

/// In exact arithmetic a contraction of the last axis by a matrix is a matrix product:
/// every element is the sum, over the axis, of the elements times those of a row of the
/// matrix.
pub proof fn law_last_axis_is_multiplied(
    val: spec_fn(u64) -> real,
    x: TensorVal,
    m: TensorVal,
    y: TensorVal,
    r: int,
    l: int,
)
    requires
        exact(val),
        transforms_last(x, m, y),
        m.dims.len() == 2,
        x.dims.len() >= 1,
        0 <= r < product(x.dims.drop_last()),
        0 <= l < m.dims[0],
    ensures
        y.dims == x.dims.update(x.dims.len() - 1, m.dims[0]),
        val(y.elems[r * m.dims[0] + l]) == sum(
            x.dims.last() as int,
            |t: int| val(x.elems[r * x.dims.last() + t]) * val(m.elems[l * m.dims[1] + t]),
        ),
{
    let a = crate::fourier::flat_line(x, r);
    let b = row(m, l);
    assert(dot_outcome(a, b, y.elems[r * m.dims[0] + l]));
    lemma_sum_same(
        x.dims.last() as int,
        |t: int| val(a[t]) * val(b[t]),
        |t: int| val(x.elems[r * x.dims.last() + t]) * val(m.elems[l * m.dims[1] + t]),
    );
}

/// The same for the third of four axes: the matrix stands with its columns as waves.
pub proof fn law_third_axis_is_multiplied(
    val: spec_fn(u64) -> real,
    x: TensorVal,
    mt: TensorVal,
    y: TensorVal,
    i: int,
    j: int,
    k: int,
    l: int,
)
    requires
        exact(val),
        contracts_h(x, mt, y),
        mt.dims.len() == 2,
        x.dims.len() == 4,
        0 <= i < x.dims[0],
        0 <= j < x.dims[1],
        0 <= k < mt.dims[1],
        0 <= l < x.dims[3],
    ensures
        y.dims == seq![x.dims[0], x.dims[1], mt.dims[1], x.dims[3]],
        val(y.at4(i, j, k, l)) == sum(
            x.dims[2] as int,
            |t: int| val(x.at4(i, j, t, l)) * val(mt.at2(t, k)),
        ),
{
    let a = crate::fourier::line_h(x, i, j, l);
    let b = crate::tensor::column(mt, k);
    assert(inside4(y.dims, i, j, k, l));
    assert(dot_outcome(a, b, y.at4(i, j, k, l)));
    lemma_sum_same(
        x.dims[2] as int,
        |t: int| val(a[t]) * val(b[t]),
        |t: int| val(x.at4(i, j, t, l)) * val(mt.at2(t, k)),
    );
}

/// In exact arithmetic the transform is the discrete Fourier transform: bin `k`, `u` is
/// the sum over the picture of the sample at row `t`, column `l` times the cosine, and
/// times minus the sine, of the sum of the two angles.
pub proof fn law_rfft2_is_the_fourier_transform(
    val: spec_fn(u64) -> real,
    x: TensorVal,
    bh: Basis,
    bw: Basis,
    wh: Wave,
    ww: Wave,
    bins: int,
    re: TensorVal,
    im: TensorVal,
    i: int,
    j: int,
    k: int,
    u: int,
)
    requires
        exact(val),
        x.dims.len() == 4,
        x.dims[2] == wh.n,
        x.dims[3] == ww.n,
        holds_wave(val, bh, wh.n, wh),
        holds_wave(val, bw, bins, ww),
        is_rfft2(x, bh, bw, re, im),
        0 <= i < x.dims[0],
        0 <= j < x.dims[1],
        0 <= k < wh.n,
        0 <= u < bins,
    ensures
        val(re.at4(i, j, k, u)) == sum(
            ww.n,
            |l: int|
                sum(
                    wh.n,
                    |t: int|
                        val(x.at4(i, j, t, l)) * (wh.cos(k, t) * ww.cos(u, l) - wh.sin(k, t)
                            * ww.sin(u, l)),
                ),
        ),
        val(im.at4(i, j, k, u)) == -sum(
            ww.n,
            |l: int|
                sum(
                    wh.n,
                    |t: int|
                        val(x.at4(i, j, t, l)) * (wh.sin(k, t) * ww.cos(u, l) + wh.cos(k, t)
                            * ww.sin(u, l)),
                ),
        ),
{
    let t = choose|t: ForwardSteps| #[trigger] forward_steps(x, bh, bw, t, re, im);
    assert(forward_steps(x, bh, bw, t, re, im));
    lemma_forward(val, x, bh, bw, wh, ww, bins, t, re, im, i, j, k, u);
    let p = plane(val, x, i, j);
    let (c, s) = (cos_row(ww, u), sin_row(ww, u));
    let a = |l: int| c(l) * cos_of(wh, column_of(p, l), k);
    let b = |l: int| s(l) * sin_of(wh, column_of(p, l), k);
    let d = |l: int| c(l) * sin_of(wh, column_of(p, l), k);
    let e = |l: int| s(l) * cos_of(wh, column_of(p, l), k);
    let minus = |l: int| -1real * b(l);
    let real_line = |l: int|
        sum(
            wh.n,
            |t: int|
                val(x.at4(i, j, t, l)) * (wh.cos(k, t) * ww.cos(u, l) - wh.sin(k, t) * ww.sin(
                    u,
                    l,
                )),
        );
    let imag_line = |l: int|
        sum(
            wh.n,
            |t: int|
                val(x.at4(i, j, t, l)) * (wh.sin(k, t) * ww.cos(u, l) + wh.cos(k, t) * ww.sin(
                    u,
                    l,
                )),
        );
    assert forall|l: int| 0 <= l < ww.n implies #[trigger] real_line(l) == a(l) + minus(l) by {
        lemma_bin_line(wh, column_of(p, l), k, ww.cos(u, l), ww.sin(u, l));
        lemma_sum_same(
            wh.n,
            |t: int|
                val(x.at4(i, j, t, l)) * (wh.cos(k, t) * ww.cos(u, l) - wh.sin(k, t) * ww.sin(
                    u,
                    l,
                )),
            |t: int|
                column_of(p, l)(t) * (wh.cos(k, t) * ww.cos(u, l) - wh.sin(k, t) * ww.sin(u, l)),
        );
    }
    assert forall|l: int| 0 <= l < ww.n implies #[trigger] imag_line(l) == d(l) + e(l) by {
        lemma_bin_line(wh, column_of(p, l), k, ww.cos(u, l), ww.sin(u, l));
        lemma_sum_same(
            wh.n,
            |t: int|
                val(x.at4(i, j, t, l)) * (wh.sin(k, t) * ww.cos(u, l) + wh.cos(k, t) * ww.sin(
                    u,
                    l,
                )),
            |t: int|
                column_of(p, l)(t) * (wh.sin(k, t) * ww.cos(u, l) + wh.cos(k, t) * ww.sin(u, l)),
        );
    }
    lemma_sum_plus(ww.n, a, minus, real_line);
    lemma_sum_times(ww.n, -1real, b, minus);
    lemma_sum_plus(ww.n, d, e, imag_line);
    assert(cos_fold(wh, p, ww.n, c, k) == sum(ww.n, a));
    assert(sin_fold(wh, p, ww.n, s, k) == sum(ww.n, b));
    assert(sin_fold(wh, p, ww.n, c, k) == sum(ww.n, d));
    assert(cos_fold(wh, p, ww.n, s, k) == sum(ww.n, e));
}

/// One column's share of a bin.
proof fn lemma_bin_line(w: Wave, x: spec_fn(int) -> real, k: int, c: real, s: real)
    ensures
        sum(w.n, |t: int| x(t) * (w.cos(k, t) * c - w.sin(k, t) * s)) == c * cos_of(w, x, k) + -1real
            * (s * sin_of(w, x, k)),
        sum(w.n, |t: int| x(t) * (w.sin(k, t) * c + w.cos(k, t) * s)) == c * sin_of(w, x, k) + s
            * cos_of(w, x, k),
{
    let u = |t: int| w.cos(k, t);
    let v = |t: int| w.sin(k, t);
    let one = |t: int| x(t) * (w.cos(k, t) * c - w.sin(k, t) * s);
    let two = |t: int| x(t) * (w.sin(k, t) * c + w.cos(k, t) * s);
    assert forall|t: int| 0 <= t < w.n implies #[trigger] one(t) == x(t) * (u(t) * c + v(t)
        * (-s)) by {
        lemma_product_sign(v(t), s);
    }
    assert forall|t: int| 0 <= t < w.n implies #[trigger] two(t) == x(t) * (v(t) * c + u(t)
        * s) by {}
    lemma_regroup_line(w.n, x, u, v, c, -s, one);
    lemma_regroup_line(w.n, x, v, u, c, s, two);
    lemma_sum_same(w.n, |t: int| x(t) * u(t), |t: int| x(t) * w.cos(k, t));
    lemma_sum_same(w.n, |t: int| x(t) * v(t), |t: int| x(t) * w.sin(k, t));
    let (p, q) = (cos_of(w, x, k), sin_of(w, x, k));
    lemma_product_order(p, c, 0real);
    lemma_product_order(q, c, 0real);
    lemma_product_order(p, s, 0real);
    lemma_product_order(q, s, 0real);
    lemma_product_sign(q, s);
}

/// Row `n` of column `u` of a spectrum, transformed back along the rows: its real part.
pub open spec fn column_real(
    val: spec_fn(u64) -> real,
    re: TensorVal,
    im: TensorVal,
    wh: Wave,
    i: int,
    j: int,
    n: int,
    u: int,
) -> real {
    sum(wh.n, |k: int| val(re.at4(i, j, k, u)) * wh.cos(n, k)) - sum(
        wh.n,
        |k: int| val(im.at4(i, j, k, u)) * wh.sin(n, k),
    )
}

/// Its imaginary part.
pub open spec fn column_imag(
    val: spec_fn(u64) -> real,
    re: TensorVal,
    im: TensorVal,
    wh: Wave,
    i: int,
    j: int,
    n: int,
    u: int,
) -> real {
    sum(wh.n, |k: int| val(im.at4(i, j, k, u)) * wh.cos(n, k)) + sum(
        wh.n,
        |k: int| val(re.at4(i, j, k, u)) * wh.sin(n, k),
    )
}

/// In exact arithmetic the inverse is that of a real picture, for every spectrum: along
/// the columns every bin past the middle is the conjugate of its counterpart, and of the
/// first bin and the middle one only the real part counts.
pub proof fn law_irfft2_is_the_real_inverse(
    val: spec_fn(u64) -> real,
    re: TensorVal,
    im: TensorVal,
    bwf: Basis,
    bh: Basis,
    wh: Wave,
    ww: Wave,
    y: TensorVal,
    i: int,
    j: int,
    n: int,
    v: int,
)
    requires
        exact(val),
        re.dims.len() == 4,
        im.dims == re.dims,
        re.dims[2] == wh.n,
        re.dims[3] == ww.n / 2 + 1,
        ww.n >= 1,
        holds_wave(val, bh, wh.n, wh),
        holds_wave(val, bwf, ww.n, ww),
        is_irfft2(re, im, bwf, bh, ww.n as nat, y),
        0 <= i < re.dims[0],
        0 <= j < re.dims[1],
        0 <= n < wh.n,
        0 <= v < ww.n,
    ensures
        y.dims == seq![re.dims[0], re.dims[1], wh.n as nat, ww.n as nat],
        val(y.at4(i, j, n, v)) == sum(
            ww.n,
            |u: int|
                (if 2 * u <= ww.n {
                    column_real(val, re, im, wh, i, j, n, u)
                } else {
                    column_real(val, re, im, wh, i, j, n, ww.n - u)
                }) * ww.cos(v, u),
        ) - sum(
            ww.n,
            |u: int|
                (if u == 0 || 2 * u == ww.n {
                    0real
                } else if 2 * u < ww.n {
                    column_imag(val, re, im, wh, i, j, n, u)
                } else {
                    -column_imag(val, re, im, wh, i, j, n, ww.n - u)
                }) * ww.sin(v, u),
        ),
{
    let w = ww.n as nat;
    let t = choose|t: RealSteps| #[trigger] real_steps(re, im, bwf, bh, w, t, y);
    assert(real_steps(re, im, bwf, bh, w, t, y));
    let s = choose|s: InverseSteps| #[trigger] inverse_steps(re, im, bh, s, t.hr, t.hi);
    assert(inverse_steps(re, im, bh, s, t.hr, t.hi));
    let f = |u: int|
        (if 2 * u <= ww.n {
            column_real(val, re, im, wh, i, j, n, u)
        } else {
            column_real(val, re, im, wh, i, j, n, ww.n - u)
        }) * ww.cos(v, u);
    let g = |u: int|
        (if u == 0 || 2 * u == ww.n {
            0real
        } else if 2 * u < ww.n {
            column_imag(val, re, im, wh, i, j, n, u)
        } else {
            -column_imag(val, re, im, wh, i, j, n, ww.n - u)
        }) * ww.sin(v, u);
    assert forall|u: int|
        #![trigger t.hr.at4(i, j, n, u)]
        #![trigger t.hi.at4(i, j, n, u)]
        0 <= u <= ww.n / 2 implies val(t.hr.at4(i, j, n, u))
        == column_real(val, re, im, wh, i, j, n, u) && val(t.hi.at4(i, j, n, u)) == column_imag(
        val,
        re,
        im,
        wh,
        i,
        j,
        n,
        u,
    ) by {
        lemma_column_back(val, re, im, bh, wh, s, t.hr, t.hi, i, j, n, u);
    }
    assert forall|u: int| 0 <= u < ww.n implies #[trigger] f(u) == val(t.fr.at4(i, j, n, u)) * val(
        tensor_val(bwf.c).at2(v, u),
    ) by {
        assert(inside4(t.fr.dims, i, j, n, u));
    }
    assert forall|u: int| 0 <= u < ww.n implies #[trigger] g(u) == val(t.fi.at4(i, j, n, u)) * val(
        tensor_val(bwf.s).at2(v, u),
    ) by {
        assert(inside4(t.fi.dims, i, j, n, u));
    }
    assert(inside4(t.frc.dims, i, j, n, v));
    lemma_exact_w(val, t.fr, tensor_val(bwf.c), t.frc, i, j, n, v, f);
    lemma_exact_w(val, t.fi, tensor_val(bwf.s), t.fis, i, j, n, v, g);
    lemma_exact_elements(val, t.frc, t.fis, y, i, j, n, v);
}

/// One column transformed back along the rows.
pub proof fn lemma_column_back(
    val: spec_fn(u64) -> real,
    re: TensorVal,
    im: TensorVal,
    bh: Basis,
    wh: Wave,
    s: InverseSteps,
    hr: TensorVal,
    hi: TensorVal,
    i: int,
    j: int,
    n: int,
    u: int,
)
    requires
        exact(val),
        re.dims.len() == 4,
        im.dims == re.dims,
        re.dims[2] == wh.n,
        holds_wave(val, bh, wh.n, wh),
        inverse_steps(re, im, bh, s, hr, hi),
        0 <= i < re.dims[0],
        0 <= j < re.dims[1],
        0 <= n < wh.n,
        0 <= u < re.dims[3],
    ensures
        val(hr.at4(i, j, n, u)) == column_real(val, re, im, wh, i, j, n, u),
        val(hi.at4(i, j, n, u)) == column_imag(val, re, im, wh, i, j, n, u),
{
    let (c, z) = (tensor_val(bh.c), tensor_val(bh.s));
    assert(inside4(s.rc.dims, i, j, n, u));
    lemma_exact_h(val, re, c, s.rc, i, j, n, u, |k: int| val(re.at4(i, j, k, u)) * wh.cos(n, k));
    lemma_exact_h(val, re, z, s.rs, i, j, n, u, |k: int| val(re.at4(i, j, k, u)) * wh.sin(n, k));
    lemma_exact_h(val, im, c, s.ic, i, j, n, u, |k: int| val(im.at4(i, j, k, u)) * wh.cos(n, k));
    lemma_exact_h(val, im, z, s.is, i, j, n, u, |k: int| val(im.at4(i, j, k, u)) * wh.sin(n, k));
    lemma_exact_elements(val, s.rc, s.is, hr, i, j, n, u);
    lemma_exact_elements(val, s.ic, s.rs, hi, i, j, n, u);
}

} // verus!
