//! Two runs of the generator agree: where every tensor operation gives one result for
//! its operands, the generator gives one result for an image and its mask.

use candle_nn::BatchNorm;
use vstd::prelude::*;

use crate::axes::{lemma_joined4, lemma_position4, lemma_product2, lemma_product4};
use crate::blocks::{
    activated, activates, activates_over, adds, contributes, is_reflect_padded, option_good,
    ActSteps, BlockSteps, FfcBlock, FfcBnAct, FourierUnit, RefPadConv, ResSteps, ResnetBlock,
    SpectralSteps, SpectralTransform, UnitSteps,
};
use crate::fourier::{
    forward_steps, inverse_steps, is_idft_h, is_irfft2, is_packed, is_rfft2, is_unpacked, line_h,
    line_w, mirrors_even, mirrors_odd, real_steps, transforms_h, transforms_w, wave_gives, Basis,
    ForwardSteps, InverseSteps, RealSteps,
};
use crate::layers::{
    conv_outcome, conv_val, is_conv, is_normed, is_spread, norm_outcome,
    norm_val, pool_outcome, spread_outcome, transposed_conv_val, ConvVal, NormVal,
};
use crate::network::{
    downs_over, downs_run, empty_batch, enters, enters_over, is_blank, res_over, res_run, up_over,
    up_run, ups_over, ups_run, BlankSteps, CandleInpainter, EntrySteps, ExitSteps, PassSteps, UpLayer,
};
use crate::same::lemma_place;
use crate::tensor::{
    affine_outcome, difference_outcome, dot_outcome, exp_outcome, inside4, is_affine, is_broadcast,
    is_difference, is_exp, is_joined, is_neg, is_recip, is_relu, is_scaled, is_sum, lemma_at4,
    negated, pinned, product, recip_outcome, relu_outcome, row, scaled_outcome, sum_outcome,
    tensor_val, TensorVal, ONE,
};

verus! {

/// Operations on single elements give one result.
pub open spec fn one_element_each() -> bool {
    &&& forall|a: u64, r: u64, s: u64| #[trigger]
        exp_outcome(a, r) && #[trigger] exp_outcome(a, s) ==> r == s
    &&& forall|a: u64, r: u64, s: u64| #[trigger]
        recip_outcome(a, r) && #[trigger] recip_outcome(a, s) ==> r == s
    &&& forall|a: u64, r: u64, s: u64| #[trigger]
        relu_outcome(a, r) && #[trigger] relu_outcome(a, s) ==> r == s
    &&& forall|a: u64, b: u64, r: u64, s: u64| #[trigger]
        sum_outcome(a, b, r) && #[trigger] sum_outcome(a, b, s) ==> r == s
    &&& forall|a: u64, b: u64, r: u64, s: u64| #[trigger]
        difference_outcome(a, b, r) && #[trigger] difference_outcome(a, b, s) ==> r == s
    &&& forall|a: u64, b: u64, r: u64, s: u64| #[trigger]
        scaled_outcome(a, b, r) && #[trigger] scaled_outcome(a, b, s) ==> r == s
    &&& forall|a: u64, m: u8, d: u8, r: u64, s: u64| #[trigger]
        affine_outcome(a, m, d, r) && #[trigger] affine_outcome(a, m, d, s) ==> r == s
}

/// Operations on lines and windows of elements give one result.
pub open spec fn one_line_each() -> bool {
    &&& forall|a: Seq<u64>, b: Seq<u64>, r: u64, s: u64| #[trigger]
        dot_outcome(a, b, r) && #[trigger] dot_outcome(a, b, s) ==> r == s
    &&& forall|a: Seq<u64>, k: Seq<u64>, b: Option<u64>, r: u64, s: u64| #[trigger]
        conv_outcome(a, k, b, r) && #[trigger] conv_outcome(a, k, b, s) ==> r == s
    &&& forall|a: Seq<Option<u64>>, k: Seq<u64>, b: Option<u64>, r: u64, s: u64| #[trigger]
        spread_outcome(a, k, b, r) && #[trigger] spread_outcome(a, k, b, s) ==> r == s
    &&& forall|a: u64, m: u64, v: u64, w: u64, b: u64, r: u64, s: u64| #[trigger]
        norm_outcome(a, m, v, w, b, r) && #[trigger] norm_outcome(a, m, v, w, b, s) ==> r == s
    &&& forall|a: u64, b: u64, c: u64, d: u64, r: u64, s: u64| #[trigger]
        pool_outcome(a, b, c, d, r) && #[trigger] pool_outcome(a, b, c, d, s) ==> r == s
}

/// Every tensor operation of the generator gives one result for its operands.
pub open spec fn one_result_each() -> bool {
    one_element_each() && one_line_each()
}

/// The wave function gives one result for its arguments.
pub open spec fn one_wave<T: Fn(usize, usize, usize) -> (u32, u32)>(wave: T) -> bool {
    forall|at: (usize, usize, usize), a: (u32, u32), b: (u32, u32)|
        #![trigger call_ensures(wave, at, a), call_ensures(wave, at, b)]
        call_ensures(wave, at, a) && call_ensures(wave, at, b) ==> a == b
}

/// Tensors of four axes are equal where every index reads the same.
pub proof fn lemma_equal4(a: TensorVal, b: TensorVal)
    requires
        a.dims.len() == 4,
        a.dims == b.dims,
        a.elems.len() == product(a.dims),
        b.elems.len() == product(b.dims),
        forall|i: int, j: int, k: int, l: int|
            inside4(a.dims, i, j, k, l) ==> #[trigger] a.at4(i, j, k, l) == b.at4(i, j, k, l),
        a.single == b.single,
        a.packed == b.packed,
        a.cpu == b.cpu,
    ensures
        a == b,
{
    let d = a.dims;
    lemma_product4(d);
    let (n, c, h, w) = (d[0] as int, d[1] as int, d[2] as int, d[3] as int);
    assert forall|p: int| 0 <= p < a.elems.len() implies a.elems[p] == b.elems[p] by {
        assert(c > 0 && h > 0 && w > 0) by (nonlinear_arith)
            requires
                0 <= p < n * c * h * w,
                n >= 0,
                c >= 0,
                h >= 0,
                w >= 0,
        ;
        lemma_place(p, n * c * h, w);
        lemma_place(p / w, n * c, h);
        lemma_place(p / w / h, n, c);
        let (l, k, j, i) = (p % w, (p / w) % h, (p / w / h) % c, p / w / h / c);
        vstd::arithmetic::div_mod::lemma_fundamental_div_mod(p, w);
        vstd::arithmetic::div_mod::lemma_fundamental_div_mod(p / w, h);
        vstd::arithmetic::div_mod::lemma_fundamental_div_mod(p / w / h, c);
        assert(i * c + j == p / w / h) by (nonlinear_arith)
            requires
                p / w / h == c * i + j,
        ;
        assert((i * c + j) * h + k == p / w) by (nonlinear_arith)
            requires
                p / w == h * (p / w / h) + k,
                i * c + j == p / w / h,
        ;
        assert(((i * c + j) * h + k) * w + l == p) by (nonlinear_arith)
            requires
                p == w * (p / w) + l,
                (i * c + j) * h + k == p / w,
        ;
        assert(inside4(d, i, j, k, l));
        assert(a.at4(i, j, k, l) == b.at4(i, j, k, l));
    }
    assert(a.elems =~= b.elems);
    assert(a =~= b);
}

/// Matrices have equal elements where every index reads the same.
proof fn lemma_equal2(a: TensorVal, b: TensorVal)
    requires
        a.dims.len() == 2,
        a.dims == b.dims,
        a.elems.len() == product(a.dims),
        b.elems.len() == product(b.dims),
        forall|i: int, j: int|
            0 <= i < a.dims[0] && 0 <= j < a.dims[1] ==> #[trigger] a.at2(i, j) == b.at2(i, j),
    ensures
        a.elems == b.elems,
{
    let d = a.dims;
    lemma_product2(d);
    let (n, w) = (d[0] as int, d[1] as int);
    assert forall|p: int| 0 <= p < a.elems.len() implies a.elems[p] == b.elems[p] by {
        assert(w > 0) by (nonlinear_arith)
            requires
                0 <= p < n * w,
                n >= 0,
                w >= 0,
        ;
        lemma_place(p, n, w);
        vstd::arithmetic::div_mod::lemma_fundamental_div_mod(p, w);
        let (i, j) = (p / w, p % w);
        assert(i * w + j == p) by (nonlinear_arith)
            requires
                p == w * i + j,
        ;
        assert(a.at2(i, j) == b.at2(i, j));
    }
    assert(a.elems =~= b.elems);
}

/// Elementwise operations give one result.
proof fn lemma_one_elementwise(a: TensorVal, b: TensorVal, r: TensorVal, s: TensorVal, m: u8, d: u8)
    requires
        one_result_each(),
    ensures
        is_neg(a, r) && is_neg(a, s) ==> r == s,
        is_exp(a, r) && is_exp(a, s) ==> r == s,
        is_recip(a, r) && is_recip(a, s) ==> r == s,
        is_relu(a, r) && is_relu(a, s) ==> r == s,
        is_affine(a, m, d, r) && is_affine(a, m, d, s) ==> r == s,
        is_sum(a, b, r) && is_sum(a, b, s) ==> r == s,
        is_difference(a, b, r) && is_difference(a, b, s) ==> r == s,
        is_scaled(a, b, r) && is_scaled(a, b, s) ==> r == s,
{
    if is_neg(a, r) && is_neg(a, s) {
        assert(r =~= s);
    }
    if is_exp(a, r) && is_exp(a, s) {
        assert(r.elems =~= s.elems);
        assert(r =~= s);
    }
    if is_recip(a, r) && is_recip(a, s) {
        assert(r.elems =~= s.elems);
        assert(r =~= s);
    }
    if is_relu(a, r) && is_relu(a, s) {
        assert(r.elems =~= s.elems);
        assert(r =~= s);
    }
    if is_affine(a, m, d, r) && is_affine(a, m, d, s) {
        assert(r.elems =~= s.elems);
        assert(r =~= s);
    }
    if is_sum(a, b, r) && is_sum(a, b, s) {
        assert(r.elems =~= s.elems);
        assert(r =~= s);
    }
    if is_difference(a, b, r) && is_difference(a, b, s) {
        assert(r.elems =~= s.elems);
        assert(r =~= s);
    }
    if is_scaled(a, b, r) && is_scaled(a, b, s) {
        assert(r.elems =~= s.elems);
        assert(r =~= s);
    }
}

/// A convolution, plain or transposed, gives one result.
proof fn lemma_one_conv(c: ConvVal, x: TensorVal, r: TensorVal, s: TensorVal)
    requires
        one_result_each(),
        x.dims.len() == 4,
    ensures
        is_conv(c, x, r) && is_conv(c, x, s) ==> r == s,
        is_spread(c, x, r) && is_spread(c, x, s) ==> r == s,
{
    if is_conv(c, x, r) && is_conv(c, x, s) {
        lemma_equal4(r, s);
    }
    if is_spread(c, x, r) && is_spread(c, x, s) {
        lemma_equal4(r, s);
    }
}

/// Normalisation gives one result.
proof fn lemma_one_norm(n: NormVal, x: TensorVal, r: TensorVal, s: TensorVal)
    requires
        one_result_each(),
        x.dims.len() == 4,
        x.good(),
        is_normed(n, x, r),
        is_normed(n, x, s),
    ensures
        r == s,
{
    lemma_equal4(r, s);
}

/// Moves of elements give one result.
proof fn lemma_one_move(a: TensorVal, b: TensorVal, p: int, w: nat, r: TensorVal, s: TensorVal)
    requires
        a.dims.len() == 4,
        a.good(),
    ensures
        is_reflect_padded(a, p, r) && is_reflect_padded(a, p, s) ==> r == s,
        is_joined(a, b, 1, r) && is_joined(a, b, 1, s) ==> r == s,
        mirrors_even(a, w, r) && mirrors_even(a, w, s) ==> r == s,
        mirrors_odd(a, w, r) && mirrors_odd(a, w, s) ==> r == s,
        is_packed(a, b, r) && is_packed(a, b, s) ==> r == s,
{
    if is_reflect_padded(a, p, r) && is_reflect_padded(a, p, s) {
        lemma_equal4(r, s);
    }
    if is_joined(a, b, 1, r) && is_joined(a, b, 1, s) {
        lemma_joined4(a, b, 1, r);
        lemma_joined4(a, b, 1, s);
        lemma_equal4(r, s);
    }
    if mirrors_even(a, w, r) && mirrors_even(a, w, s) {
        lemma_equal4(r, s);
    }
    if mirrors_odd(a, w, r) && mirrors_odd(a, w, s) {
        assert forall|i: int, j: int, k: int, l: int| inside4(r.dims, i, j, k, l) implies #[trigger] r.at4(
            i,
            j,
            k,
            l,
        ) == s.at4(i, j, k, l) by {}
        lemma_equal4(r, s);
    }
    if is_packed(a, b, r) && is_packed(a, b, s) {
        assert forall|i: int, j: int, k: int, l: int| inside4(r.dims, i, j, k, l) implies #[trigger] r.at4(
            i,
            j,
            k,
            l,
        ) == s.at4(i, j, k, l) by {
            let c = j / 2;
            assert(inside4(a.dims, i, c, k, l));
            if j % 2 == 0 {
                assert(j == 2 * c);
                assert(r.at4(i, 2 * c, k, l) == a.at4(i, c, k, l));
            } else {
                assert(j == 2 * c + 1);
                assert(r.at4(i, 2 * c + 1, k, l) == b.at4(i, c, k, l));
            }
        }
        lemma_equal4(r, s);
    }
}

/// A packed tensor is taken apart in one way.
proof fn lemma_one_unpack(x: TensorVal, r: TensorVal, i: TensorVal, s: TensorVal, j: TensorVal)
    requires
        x.good(),
        is_unpacked(x, r, i),
        is_unpacked(x, s, j),
    ensures
        r == s,
        i == j,
{
    lemma_equal4(r, s);
    lemma_equal4(i, j);
}

/// Both matrices of two bases have the same lengths and elements.
pub open spec fn same_basis(a: Basis, b: Basis) -> bool {
    &&& tensor_val(a.c).dims == tensor_val(b.c).dims
    &&& tensor_val(a.c).elems == tensor_val(b.c).elems
    &&& tensor_val(a.s).dims == tensor_val(b.s).dims
    &&& tensor_val(a.s).elems == tensor_val(b.s).elems
}

/// The matrices of a transform hold one thing.
proof fn lemma_one_basis<T: Fn(usize, usize, usize) -> (u32, u32)>(wave: T, a: Basis, b: Basis, rows: usize, n: usize)
    requires
        one_wave(wave),
        a.made_by(wave, rows, n),
        b.made_by(wave, rows, n),
    ensures
        same_basis(a, b),
{
    let (ac, as_, bc, bs) = (tensor_val(a.c), tensor_val(a.s), tensor_val(b.c), tensor_val(b.s));
    assert forall|i: int, j: int| 0 <= i < rows && 0 <= j < n implies #[trigger] ac.at2(i, j)
        == bc.at2(i, j) && as_.at2(i, j) == bs.at2(i, j) by {
        let (p, q) = (i as usize, j as usize);
        assert(wave_gives(wave, (p, q, n), ac.at2(p as int, q as int), as_.at2(p as int, q as int)));
        assert(wave_gives(wave, (p, q, n), bc.at2(p as int, q as int), bs.at2(p as int, q as int)));
    }
    assert forall|i: int, j: int| 0 <= i < rows && 0 <= j < n implies #[trigger] as_.at2(i, j)
        == bs.at2(i, j) by {
        assert(ac.at2(i, j) == bc.at2(i, j));
    }
    lemma_equal2(ac, bc);
    lemma_equal2(as_, bs);
}

/// Contractions along an axis against matrices that hold the same give one result.
proof fn lemma_one_contraction(x: TensorVal, m: TensorVal, n: TensorVal, r: TensorVal, s: TensorVal)
    requires
        one_result_each(),
        x.dims.len() == 4,
        m.dims == n.dims,
        m.elems == n.elems,
    ensures
        transforms_h(x, m, r) && transforms_h(x, n, s) ==> r == s,
        transforms_w(x, m, r) && transforms_w(x, n, s) ==> r == s,
{
    assert forall|k: int| #[trigger] row(m, k) == row(n, k) by {
        assert(row(m, k) =~= row(n, k));
    }
    if transforms_h(x, m, r) && transforms_h(x, n, s) {
        assert forall|i: int, j: int, k: int, l: int| inside4(r.dims, i, j, k, l) implies #[trigger] r.at4(
            i,
            j,
            k,
            l,
        ) == s.at4(i, j, k, l) by {
            assert(dot_outcome(line_h(x, i, j, l), row(m, k), r.at4(i, j, k, l)));
            assert(dot_outcome(line_h(x, i, j, l), row(n, k), s.at4(i, j, k, l)));
        }
        lemma_equal4(r, s);
    }
    if transforms_w(x, m, r) && transforms_w(x, n, s) {
        assert forall|i: int, j: int, k: int, l: int| inside4(r.dims, i, j, k, l) implies #[trigger] r.at4(
            i,
            j,
            k,
            l,
        ) == s.at4(i, j, k, l) by {
            assert(dot_outcome(line_w(x, i, j, k), row(m, l), r.at4(i, j, k, l)));
            assert(dot_outcome(line_w(x, i, j, k), row(n, l), s.at4(i, j, k, l)));
        }
        lemma_equal4(r, s);
    }
}

/// The forward transform gives one result.
proof fn lemma_one_rfft2(
    x: TensorVal,
    h1: Basis,
    w1: Basis,
    h2: Basis,
    w2: Basis,
    re1: TensorVal,
    im1: TensorVal,
    re2: TensorVal,
    im2: TensorVal,
)
    requires
        one_result_each(),
        x.dims.len() == 4,
        same_basis(h1, h2),
        same_basis(w1, w2),
        is_rfft2(x, h1, w1, re1, im1),
        is_rfft2(x, h2, w2, re2, im2),
    ensures
        re1 == re2,
        im1 == im2,
        re1.dims.len() == 4,
        im1.dims == re1.dims,
        re1.good(),
        im1.good(),
{
    let t = choose|t: ForwardSteps| #[trigger] forward_steps(x, h1, w1, t, re1, im1);
    let u = choose|u: ForwardSteps| #[trigger] forward_steps(x, h2, w2, u, re2, im2);
    assert(forward_steps(x, h1, w1, t, re1, im1) && forward_steps(x, h2, w2, u, re2, im2));
    let (hc1, hs1, hc2, hs2) = (
        tensor_val(h1.c),
        tensor_val(h1.s),
        tensor_val(h2.c),
        tensor_val(h2.s),
    );
    let (wc1, ws1, wc2, ws2) = (
        tensor_val(w1.c),
        tensor_val(w1.s),
        tensor_val(w2.c),
        tensor_val(w2.s),
    );
    lemma_one_contraction(x, hc1, hc2, t.p, u.p);
    lemma_one_contraction(x, hs1, hs2, t.q, u.q);
    lemma_one_contraction(t.p, wc1, wc2, t.pcw, u.pcw);
    lemma_one_contraction(t.p, ws1, ws2, t.psw, u.psw);
    lemma_one_contraction(t.q, wc1, wc2, t.qcw, u.qcw);
    lemma_one_contraction(t.q, ws1, ws2, t.qsw, u.qsw);
    lemma_one_elementwise(t.pcw, t.qsw, re1, re2, 0, 0);
    lemma_one_elementwise(t.qcw, t.psw, t.sum, u.sum, 0, 0);
    lemma_one_elementwise(t.sum, t.sum, im1, im2, 0, 0);
}

/// The inverse transform gives one result.
proof fn lemma_one_irfft2(
    re: TensorVal,
    im: TensorVal,
    w1: Basis,
    h1: Basis,
    w2: Basis,
    h2: Basis,
    w: nat,
    y: TensorVal,
    z: TensorVal,
)
    requires
        one_result_each(),
        re.dims.len() == 4,
        im.dims.len() == 4,
        same_basis(h1, h2),
        same_basis(w1, w2),
        is_irfft2(re, im, w1, h1, w, y),
        is_irfft2(re, im, w2, h2, w, z),
    ensures
        y == z,
        y.dims.len() == 4,
        y.good(),
{
    let t = choose|t: RealSteps| #[trigger] real_steps(re, im, w1, h1, w, t, y);
    let u = choose|u: RealSteps| #[trigger] real_steps(re, im, w2, h2, w, u, z);
    assert(real_steps(re, im, w1, h1, w, t, y) && real_steps(re, im, w2, h2, w, u, z));
    assert(is_idft_h(re, im, h1, t.hr, t.hi) && is_idft_h(re, im, h2, u.hr, u.hi));
    let a = choose|a: InverseSteps| #[trigger] inverse_steps(re, im, h1, a, t.hr, t.hi);
    let b = choose|b: InverseSteps| #[trigger] inverse_steps(re, im, h2, b, u.hr, u.hi);
    assert(inverse_steps(re, im, h1, a, t.hr, t.hi) && inverse_steps(re, im, h2, b, u.hr, u.hi));
    let (hc1, hs1, hc2, hs2) = (
        tensor_val(h1.c),
        tensor_val(h1.s),
        tensor_val(h2.c),
        tensor_val(h2.s),
    );
    lemma_one_contraction(re, hc1, hc2, a.rc, b.rc);
    lemma_one_contraction(re, hs1, hs2, a.rs, b.rs);
    lemma_one_contraction(im, hc1, hc2, a.ic, b.ic);
    lemma_one_contraction(im, hs1, hs2, a.is, b.is);
    lemma_one_elementwise(a.rc, a.is, t.hr, u.hr, 0, 0);
    lemma_one_elementwise(a.ic, a.rs, t.hi, u.hi, 0, 0);
    lemma_one_move(t.hr, t.hr, 0, w, t.fr, u.fr);
    lemma_one_move(t.hi, t.hi, 0, w, t.fi, u.fi);
    lemma_one_contraction(t.fr, tensor_val(w1.c), tensor_val(w2.c), t.frc, u.frc);
    lemma_one_contraction(t.fi, tensor_val(w1.s), tensor_val(w2.s), t.fis, u.fis);
    lemma_one_elementwise(t.frc, t.fis, y, z, 0, 0);
}

/// A Fourier unit gives one result.
proof fn lemma_one_unit<T: Fn(usize, usize, usize) -> (u32, u32)>(u: FourierUnit, wave: T, x: TensorVal, y: TensorVal, z: TensorVal)
    requires
        one_result_each(),
        one_wave(wave),
        x.dims.len() == 4,
        u.runs(wave, x, y),
        u.runs(wave, x, z),
    ensures
        y == z,
        y.dims.len() == 4,
        y.good(),
{
    let s = choose|s: UnitSteps| #[trigger] u.runs_over(wave, x, s, y);
    let t = choose|t: UnitSteps| #[trigger] u.runs_over(wave, x, t, z);
    assert(u.runs_over(wave, x, s, y) && u.runs_over(wave, x, t, z));
    let (h, w) = (x.dims[2] as usize, x.dims[3] as usize);
    lemma_one_basis(wave, s.bases.bh, t.bases.bh, h, h);
    lemma_one_basis(wave, s.bases.bw, t.bases.bw, (w / 2 + 1) as usize, w);
    lemma_one_basis(wave, s.bases.bwf, t.bases.bwf, w, w);
    lemma_one_rfft2(
        x,
        s.bases.bh,
        s.bases.bw,
        t.bases.bh,
        t.bases.bw,
        s.re,
        s.im,
        t.re,
        t.im,
    );
    lemma_one_move(s.re, s.im, 0, 0, s.packed, t.packed);
    let (c, n) = (conv_val(u.conv.conv), norm_val(u.bn));
    lemma_one_conv(c, s.packed, s.mixed, t.mixed);
    lemma_one_norm(n, s.mixed, s.normed, t.normed);
    lemma_one_elementwise(s.normed, s.normed, s.active, t.active, 0, 0);
    lemma_one_unpack(s.active, s.yr, s.yi, t.yr, t.yi);
    lemma_one_irfft2(
        s.yr,
        s.yi,
        s.bases.bwf,
        s.bases.bh,
        t.bases.bwf,
        t.bases.bh,
        x.dims[3],
        y,
        z,
    );
}

/// A spectral transform gives one result.
proof fn lemma_one_spectral<T: Fn(usize, usize, usize) -> (u32, u32)>(
    st: SpectralTransform,
    wave: T,
    x: TensorVal,
    y: TensorVal,
    z: TensorVal,
)
    requires
        one_result_each(),
        one_wave(wave),
        x.dims.len() == 4,
        st.runs(wave, x, y),
        st.runs(wave, x, z),
    ensures
        y == z,
        y.dims.len() == 4,
        y.good(),
{
    let s = choose|s: SpectralSteps| #[trigger] st.runs_over(wave, x, s, y);
    let t = choose|t: SpectralSteps| #[trigger] st.runs_over(wave, x, t, z);
    assert(st.runs_over(wave, x, s, y) && st.runs_over(wave, x, t, z));
    let (c1, c2, n) = (conv_val(st.conv1.conv), conv_val(st.conv2.conv), norm_val(st.bn1));
    if st.avgpool {
        lemma_equal4(s.pooled, t.pooled);
    }
    lemma_one_conv(c1, s.pooled, s.narrowed, t.narrowed);
    lemma_one_norm(n, s.narrowed, s.normed, t.normed);
    lemma_one_elementwise(s.normed, s.normed, s.active, t.active, 0, 0);
    lemma_one_unit(st.fu, wave, s.active, s.unit, t.unit);
    lemma_one_elementwise(s.active, s.unit, s.sum, t.sum, 0, 0);
    lemma_one_conv(c2, s.sum, y, z);
}

/// A padded convolution gives one result.
proof fn lemma_one_padded(c: RefPadConv, x: TensorVal, y: TensorVal, z: TensorVal)
    requires
        one_result_each(),
        x.dims.len() == 4,
        x.good(),
        c.runs(x, y),
        c.runs(x, z),
    ensures
        y == z,
        y.dims.len() == 4,
        y.good(),
{
    let s = choose|s: TensorVal| #[trigger] c.runs_over(x, s, y);
    let t = choose|t: TensorVal| #[trigger] c.runs_over(x, t, z);
    assert(c.runs_over(x, s, y) && c.runs_over(x, t, z));
    lemma_one_move(x, x, c.pad as int, 0, s, t);
    lemma_one_conv(conv_val(c.layer.conv), s, y, z);
}

/// Contributions add up to one thing.
proof fn lemma_one_sum(
    a: Option<TensorVal>,
    b: Option<TensorVal>,
    r: Option<TensorVal>,
    s: Option<TensorVal>,
)
    requires
        one_result_each(),
        option_good(a),
        option_good(b),
        adds(a, b, r),
        adds(a, b, s),
    ensures
        r == s,
        option_good(r),
{
    if a is Some && b is Some {
        lemma_one_elementwise(a->0, b->0, r->0, s->0, 0, 0);
    }
}

/// The contribution of a convolution is one thing.
proof fn lemma_one_contribution(
    c: Option<RefPadConv>,
    x: Option<TensorVal>,
    r: Option<TensorVal>,
    s: Option<TensorVal>,
)
    requires
        one_result_each(),
        option_good(x),
        contributes(c, x, r),
        contributes(c, x, s),
    ensures
        r == s,
        option_good(r),
{
    if c is Some && x is Some {
        lemma_one_padded(c->0, x->0, r->0, s->0);
    }
}

/// A block gives one result.
proof fn lemma_one_block<T: Fn(usize, usize, usize) -> (u32, u32)>(
    b: FfcBlock,
    wave: T,
    xl: TensorVal,
    xg: Option<TensorVal>,
    l1: Option<TensorVal>,
    g1: Option<TensorVal>,
    l2: Option<TensorVal>,
    g2: Option<TensorVal>,
)
    requires
        one_result_each(),
        one_wave(wave),
        option_good(Some(xl)),
        option_good(xg),
        b.runs(wave, xl, xg, l1, g1),
        b.runs(wave, xl, xg, l2, g2),
    ensures
        l1 == l2,
        g1 == g2,
        option_good(l1),
        option_good(g1),
{
    let s = choose|s: BlockSteps| #[trigger] b.runs_over(wave, xl, xg, s, l1, g1);
    let t = choose|t: BlockSteps| #[trigger] b.runs_over(wave, xl, xg, t, l2, g2);
    assert(b.runs_over(wave, xl, xg, s, l1, g1) && b.runs_over(wave, xl, xg, t, l2, g2));
    if !b.has_gout || b.l2l is Some || b.g2l is Some {
        lemma_one_contribution(b.l2l, Some(xl), s.ll, t.ll);
        lemma_one_contribution(b.g2l, xg, s.gl, t.gl);
        lemma_one_sum(s.ll, s.gl, l1, l2);
    }
    if b.has_gout {
        lemma_one_contribution(b.l2g, Some(xl), s.lg, t.lg);
        if b.g2g is Some && xg is Some {
            lemma_one_spectral(b.g2g->0, wave, xg->0, s.gg->0, t.gg->0);
        }
        lemma_one_sum(s.lg, s.gg, g1, g2);
    }
}

/// Normalisation and activation give one result.
proof fn lemma_one_activation(
    bn: Option<BatchNorm>,
    x: Option<TensorVal>,
    r: Option<TensorVal>,
    s: Option<TensorVal>,
)
    requires
        one_result_each(),
        option_good(x),
        activates(bn, x, r),
        activates(bn, x, s),
    ensures
        r == s,
        option_good(r),
{
    if x is Some {
        let v = x->0;
        assert(activated(bn, v, r->0) && activated(bn, v, s->0));
        let m = choose|m: TensorVal| #[trigger] activates_over(bn, v, m, r->0);
        let n = choose|n: TensorVal| #[trigger] activates_over(bn, v, n, s->0);
        assert(activates_over(bn, v, m, r->0) && activates_over(bn, v, n, s->0));
        if bn is Some {
            lemma_one_norm(norm_val(bn->0), v, m, n);
        }
        lemma_one_elementwise(m, m, r->0, s->0, 0, 0);
    }
}

/// A block with normalisation and activation gives one result.
proof fn lemma_one_active<T: Fn(usize, usize, usize) -> (u32, u32)>(
    b: FfcBnAct,
    wave: T,
    xl: TensorVal,
    xg: Option<TensorVal>,
    l1: Option<TensorVal>,
    g1: Option<TensorVal>,
    l2: Option<TensorVal>,
    g2: Option<TensorVal>,
)
    requires
        one_result_each(),
        one_wave(wave),
        option_good(Some(xl)),
        option_good(xg),
        b.runs(wave, xl, xg, l1, g1),
        b.runs(wave, xl, xg, l2, g2),
    ensures
        l1 == l2,
        g1 == g2,
        option_good(l1),
        option_good(g1),
{
    let s = choose|s: ActSteps| #[trigger] b.runs_over(wave, xl, xg, s, l1, g1);
    let t = choose|t: ActSteps| #[trigger] b.runs_over(wave, xl, xg, t, l2, g2);
    assert(b.runs_over(wave, xl, xg, s, l1, g1) && b.runs_over(wave, xl, xg, t, l2, g2));
    lemma_one_block(b.ffc, wave, xl, xg, s.ol, s.og, t.ol, t.og);
    lemma_one_activation(b.bn_l, s.ol, l1, l2);
    lemma_one_activation(b.bn_g, s.og, g1, g2);
}

/// A residual block gives one result.
proof fn lemma_one_residual<T: Fn(usize, usize, usize) -> (u32, u32)>(
    b: ResnetBlock,
    wave: T,
    xl: TensorVal,
    xg: TensorVal,
    l1: TensorVal,
    g1: TensorVal,
    l2: TensorVal,
    g2: TensorVal,
)
    requires
        one_result_each(),
        one_wave(wave),
        option_good(Some(xl)),
        option_good(Some(xg)),
        b.runs(wave, xl, xg, l1, g1),
        b.runs(wave, xl, xg, l2, g2),
    ensures
        l1 == l2,
        g1 == g2,
        option_good(Some(l1)),
        option_good(Some(g1)),
{
    let s = choose|s: ResSteps| #[trigger] b.runs_over(wave, xl, xg, s, l1, g1);
    let t = choose|t: ResSteps| #[trigger] b.runs_over(wave, xl, xg, t, l2, g2);
    assert(b.runs_over(wave, xl, xg, s, l1, g1) && b.runs_over(wave, xl, xg, t, l2, g2));
    lemma_one_active(
        b.conv1,
        wave,
        xl,
        Some(xg),
        Some(s.l1),
        Some(s.g1),
        Some(t.l1),
        Some(t.g1),
    );
    lemma_one_active(
        b.conv2,
        wave,
        s.l1,
        Some(s.g1),
        Some(s.l2),
        Some(s.g2),
        Some(t.l2),
        Some(t.g2),
    );
    lemma_one_elementwise(xl, s.l2, l1, l2, 0, 0);
    lemma_one_elementwise(xg, s.g2, g1, g2, 0, 0);
}

/// Blocks that run one after the other give one result at each step.
proof fn lemma_one_down_step<T: Fn(usize, usize, usize) -> (u32, u32)>(
    downs: Seq<FfcBnAct>,
    wave: T,
    l1: Seq<TensorVal>,
    g1: Seq<Option<TensorVal>>,
    l2: Seq<TensorVal>,
    g2: Seq<Option<TensorVal>>,
    i: int,
)
    requires
        one_result_each(),
        one_wave(wave),
        downs_over(wave, downs, l1, g1),
        downs_over(wave, downs, l2, g2),
        l1[0] == l2[0],
        g1[0] == g2[0],
        option_good(Some(l1[0])),
        option_good(g1[0]),
        0 <= i <= downs.len(),
    ensures
        l1[i] == l2[i],
        g1[i] == g2[i],
        option_good(Some(l1[i])),
        option_good(g1[i]),
    decreases i,
{
    if i > 0 {
        lemma_one_down_step(downs, wave, l1, g1, l2, g2, i - 1);
        let b = downs[i - 1];
        lemma_one_active(
            b,
            wave,
            l1[i - 1],
            g1[i - 1],
            Some(l1[i]),
            g1[i],
            Some(l2[i]),
            g2[i],
        );
    }
}

/// Residual blocks that run one after the other give one result at each step.
proof fn lemma_one_res_step<T: Fn(usize, usize, usize) -> (u32, u32)>(
    res: Seq<ResnetBlock>,
    wave: T,
    l1: Seq<TensorVal>,
    g1: Seq<TensorVal>,
    l2: Seq<TensorVal>,
    g2: Seq<TensorVal>,
    i: int,
)
    requires
        one_result_each(),
        one_wave(wave),
        res_over(wave, res, l1, g1),
        res_over(wave, res, l2, g2),
        l1[0] == l2[0],
        g1[0] == g2[0],
        option_good(Some(l1[0])),
        option_good(Some(g1[0])),
        0 <= i <= res.len(),
    ensures
        l1[i] == l2[i],
        g1[i] == g2[i],
        option_good(Some(l1[i])),
        option_good(Some(g1[i])),
    decreases i,
{
    if i > 0 {
        lemma_one_res_step(res, wave, l1, g1, l2, g2, i - 1);
        lemma_one_residual(
            res[i - 1],
            wave,
            l1[i - 1],
            g1[i - 1],
            l1[i],
            g1[i],
            l2[i],
            g2[i],
        );
    }
}

/// Upsampling steps give one result each.
proof fn lemma_one_up_step(
    convs: Seq<UpLayer>,
    norms: Seq<BatchNorm>,
    x1: Seq<TensorVal>,
    x2: Seq<TensorVal>,
    i: int,
)
    requires
        one_result_each(),
        ups_over(convs, norms, x1),
        ups_over(convs, norms, x2),
        x1[0] == x2[0],
        option_good(Some(x1[0])),
        0 <= i <= convs.len(),
    ensures
        x1[i] == x2[i],
        option_good(Some(x1[i])),
    decreases i,
{
    if i > 0 {
        lemma_one_up_step(convs, norms, x1, x2, i - 1);
        let (u, bn) = (convs[i - 1], norms[i - 1]);
        let x = x1[i - 1];
        assert(up_run(u, bn, x, x1[i]) && up_run(u, bn, x, x2[i]));
        let (w1, n1) = choose|w: TensorVal, n: TensorVal| #[trigger] up_over(u, bn, x, w, n, x1[i]);
        let (w2, n2) = choose|w: TensorVal, n: TensorVal| #[trigger] up_over(u, bn, x, w, n, x2[i]);
        assert(up_over(u, bn, x, w1, n1, x1[i]) && up_over(u, bn, x, w2, n2, x2[i]));
        let c = transposed_conv_val(u.conv);
        lemma_one_conv(c, x, w1, w2);
        lemma_one_norm(norm_val(bn), w1, n1, n2);
        lemma_one_elementwise(n1, n1, x1[i], x2[i], 0, 0);
    }
}

/// The last layers give one result.
proof fn lemma_one_exit(m: CandleInpainter, x: TensorVal, y: TensorVal, z: TensorVal)
    requires
        one_result_each(),
        option_good(Some(x)),
        m.exits(x, y),
        m.exits(x, z),
    ensures
        y == z,
{
    let s = choose|s: ExitSteps| #[trigger] m.exits_over(x, s, y);
    let t = choose|t: ExitSteps| #[trigger] m.exits_over(x, t, z);
    assert(m.exits_over(x, s, y) && m.exits_over(x, t, z));
    lemma_one_move(x, x, 3, 0, s.padded, t.padded);
    lemma_one_conv(conv_val(m.final_conv.conv), s.padded, s.mixed, t.mixed);
    lemma_one_elementwise(s.mixed, s.mixed, s.turned, t.turned, 0, 0);
    lemma_one_elementwise(s.turned, s.turned, s.power, t.power, 0, 0);
    lemma_one_elementwise(s.power, s.power, s.below, t.below, 1, 1);
    lemma_one_elementwise(s.below, s.below, s.level, t.level, 0, 0);
    lemma_one_elementwise(s.level, s.level, y, z, 255, 0);
}

/// `y` may come out of the generator where `x` enters the first block.
pub open spec fn passes_on<T: Fn(usize, usize, usize) -> (u32, u32)>(m: CandleInpainter, wave: T, t: PassSteps, y: TensorVal) -> bool {
    &&& m.init.runs(wave, t.x, None, Some(t.il), t.ig)
    &&& downs_run(wave, m.downs@, t.il, t.ig, t.dl, Some(t.dg))
    &&& res_run(wave, m.res@, t.dl, t.dg, t.rl, t.rg)
    &&& is_joined(t.rl, t.rg, 1, t.joined)
    &&& ups_run(m.up_conv@, m.up_bn@, t.joined, t.up)
    &&& m.exits(t.up, y)
}

/// What enters the first block settles what comes out of the generator.
proof fn lemma_one_pass<T: Fn(usize, usize, usize) -> (u32, u32)>(
    m: CandleInpainter,
    wave: T,
    s: PassSteps,
    y: TensorVal,
    t: PassSteps,
    z: TensorVal,
)
    requires
        one_result_each(),
        one_wave(wave),
        s.x == t.x,
        option_good(Some(s.x)),
        passes_on(m, wave, s, y),
        passes_on(m, wave, t, z),
    ensures
        y == z,
{
    lemma_one_active(m.init, wave, s.x, None, Some(s.il), s.ig, Some(t.il), t.ig);
    let (l1, g1) = choose|ls: Seq<TensorVal>, gs: Seq<Option<TensorVal>>|
        {
            &&& #[trigger] downs_over(wave, m.downs@, ls, gs)
            &&& (ls.first(), gs.first()) == (s.il, s.ig)
            &&& (ls.last(), gs.last()) == (s.dl, Some(s.dg))
        };
    let (l2, g2) = choose|ls: Seq<TensorVal>, gs: Seq<Option<TensorVal>>|
        {
            &&& #[trigger] downs_over(wave, m.downs@, ls, gs)
            &&& (ls.first(), gs.first()) == (t.il, t.ig)
            &&& (ls.last(), gs.last()) == (t.dl, Some(t.dg))
        };
    lemma_one_down_step(m.downs@, wave, l1, g1, l2, g2, m.downs@.len() as int);
    let (r1, h1) = choose|ls: Seq<TensorVal>, gs: Seq<TensorVal>|
        {
            &&& #[trigger] res_over(wave, m.res@, ls, gs)
            &&& (ls.first(), gs.first()) == (s.dl, s.dg)
            &&& (ls.last(), gs.last()) == (s.rl, s.rg)
        };
    let (r2, h2) = choose|ls: Seq<TensorVal>, gs: Seq<TensorVal>|
        {
            &&& #[trigger] res_over(wave, m.res@, ls, gs)
            &&& (ls.first(), gs.first()) == (t.dl, t.dg)
            &&& (ls.last(), gs.last()) == (t.rl, t.rg)
        };
    lemma_one_res_step(m.res@, wave, r1, h1, r2, h2, m.res@.len() as int);
    lemma_one_move(s.rl, s.rg, 0, 0, s.joined, t.joined);
    let x1 = choose|xs: Seq<TensorVal>|
        {
            &&& #[trigger] ups_over(m.up_conv@, m.up_bn@, xs)
            &&& xs.first() == s.joined
            &&& xs.last() == s.up
        };
    let x2 = choose|xs: Seq<TensorVal>|
        {
            &&& #[trigger] ups_over(m.up_conv@, m.up_bn@, xs)
            &&& xs.first() == t.joined
            &&& xs.last() == t.up
        };
    lemma_one_up_step(m.up_conv@, m.up_bn@, x1, x2, m.up_conv@.len() as int);
    lemma_one_exit(m, s.up, y, z);
}

/// A repeated tensor reads the same at every index.
pub proof fn lemma_repeated4(x: TensorVal, to: Seq<nat>, r: TensorVal, i: int, j: int, k: int, l: int)
    requires
        x.dims.len() == 4,
        to.len() == 4,
        is_broadcast(x, to, r),
        inside4(to, i, j, k, l),
    ensures
        r.at4(i, j, k, l) == x.at(pinned(x.dims, seq![i, j, k, l])),
{
    lemma_at4(r, i, j, k, l);
}

/// An image and its mask enter the first block as one thing.
proof fn lemma_one_entry(image: TensorVal, mask: TensorVal, x: TensorVal, y: TensorVal)
    requires
        one_result_each(),
        option_good(Some(image)),
        option_good(Some(mask)),
        enters(image, mask, x),
        enters(image, mask, y),
    ensures
        x == y,
        option_good(Some(x)),
{
    let s = choose|s: EntrySteps| #[trigger] enters_over(image, mask, s, x);
    let t = choose|t: EntrySteps| #[trigger] enters_over(image, mask, t, y);
    assert(enters_over(image, mask, s, x) && enters_over(image, mask, t, y));
    lemma_one_elementwise(mask, mask, s.turned, t.turned, 0, 0);
    lemma_one_elementwise(s.turned, s.turned, s.outside, t.outside, 1, 1);
    assert forall|i: int, j: int, k: int, l: int| inside4(s.wide.dims, i, j, k, l) implies #[trigger] s.wide.at4(
        i,
        j,
        k,
        l,
    ) == t.wide.at4(i, j, k, l) by {
        lemma_repeated4(s.outside, image.dims, s.wide, i, j, k, l);
        lemma_repeated4(s.outside, image.dims, t.wide, i, j, k, l);
    }
    lemma_equal4(s.wide, t.wide);
    lemma_one_elementwise(image, s.wide, s.masked, t.masked, 0, 0);
    lemma_one_move(s.masked, mask, 0, 0, s.joined, t.joined);
    lemma_one_move(s.joined, s.joined, 3, 0, x, y);
}

/// Blank images are one thing.
proof fn lemma_one_blank(x: TensorVal, a: TensorVal, b: TensorVal)
    requires
        is_blank(x, a),
        is_blank(x, b),
    ensures
        a == b,
{
    assert(a.elems =~= b.elems);
    assert(a =~= b);
}

/// Two runs of the generator on one image and mask agree, whatever ran before or
/// between them.
pub proof fn law_two_runs_agree<T: Fn(usize, usize, usize) -> (u32, u32)>(
    m: CandleInpainter,
    wave: T,
    image: TensorVal,
    mask: TensorVal,
    y: TensorVal,
    z: TensorVal,
)
    requires
        one_result_each(),
        one_wave(wave),
        m.gives(wave, image, mask, y),
        m.gives(wave, image, mask, z),
    ensures
        y == z,
{
    if empty_batch(image) && empty_batch(mask) {
        let s = choose|s: BlankSteps| #[trigger] m.runs_empty(wave, image, mask, s, y);
        let t = choose|t: BlankSteps| #[trigger] m.runs_empty(wave, image, mask, t, z);
        assert(m.runs_empty(wave, image, mask, s, y) && m.runs_empty(wave, image, mask, t, z));
        lemma_one_blank(image, s.image, t.image);
        lemma_one_blank(mask, s.mask, t.mask);
        lemma_one_run(m, wave, s.image, s.mask, s.one, t.one);
        assert(y.elems =~= z.elems);
        assert(y =~= z);
    } else {
        lemma_one_run(m, wave, image, mask, y, z);
    }
}

/// The generator gives one result for an image and its mask.
proof fn lemma_one_run<T: Fn(usize, usize, usize) -> (u32, u32)>(
    m: CandleInpainter,
    wave: T,
    image: TensorVal,
    mask: TensorVal,
    y: TensorVal,
    z: TensorVal,
)
    requires
        one_result_each(),
        one_wave(wave),
        option_good(Some(image)),
        option_good(Some(mask)),
        m.runs(wave, image, mask, y),
        m.runs(wave, image, mask, z),
    ensures
        y == z,
{
    let s = choose|s: PassSteps| #[trigger] m.runs_over(wave, image, mask, s, y);
    let t = choose|t: PassSteps| #[trigger] m.runs_over(wave, image, mask, t, z);
    assert(m.runs_over(wave, image, mask, s, y) && m.runs_over(wave, image, mask, t, z));
    lemma_one_entry(image, mask, s.x, t.x);
    assert(passes_on(m, wave, s, y) && passes_on(m, wave, t, z));
    lemma_one_pass(m, wave, s, y, t, z);
}

/// The mask of an image is zero or one everywhere.
pub open spec fn is_mask_for(image: TensorVal, mask: TensorVal) -> bool {
    &&& mask.dims == image.dims.update(1, 1)
    &&& forall|i: int|
        0 <= i < mask.elems.len() ==> #[trigger] mask.elems[i] == 0 || mask.elems[i] == ONE
}

/// Every sample of an image lies between zero and one.
pub open spec fn is_unit_image(image: TensorVal) -> bool {
    &&& image.good()
    &&& image.dims.len() == 4
    &&& forall|i: int| 0 <= i < image.elems.len() ==> #[trigger] image.elems[i] <= ONE
}

/// Two images agree wherever the mask is zero.
pub open spec fn agree_outside(a: TensorVal, b: TensorVal, mask: TensorVal) -> bool {
    &&& a.dims == b.dims
    &&& a.cpu == b.cpu
    &&& forall|i: int, j: int, k: int, l: int|
        inside4(a.dims, i, j, k, l) && mask.at4(i, 0, k, l) == 0 ==> #[trigger] a.at4(i, j, k, l)
            == b.at4(i, j, k, l)
}

/// A masked sample is zero, and every other one is as it was.
proof fn lemma_masked_value(
    image: TensorVal,
    mask: TensorVal,
    t: EntrySteps,
    x: TensorVal,
    i: int,
    j: int,
    k: int,
    l: int,
)
    requires
        is_unit_image(image),
        mask.good(),
        is_mask_for(image, mask),
        enters_over(image, mask, t, x),
        inside4(image.dims, i, j, k, l),
    ensures
        t.masked.at4(i, j, k, l) == if mask.at4(i, 0, k, l) == 0 {
            image.at4(i, j, k, l)
        } else {
            0
        },
{
    let idx = seq![i, j, k, l];
    let at = seq![i, 0, k, l];
    lemma_repeated4(t.outside, image.dims, t.wide, i, j, k, l);
    assert(pinned(t.outside.dims, idx) =~= at);
    lemma_at4(t.outside, i, 0, k, l);
    lemma_position4(mask.dims, i, 0, k, l);
    let p = ((i * mask.dims[1] + 0) * mask.dims[2] + k) * mask.dims[3] + l;
    assert(mask.at4(i, 0, k, l) == mask.elems[p]);
    assert(t.turned.elems[p] == negated(mask.elems[p]));
    assert(t.outside.at4(i, 0, k, l) == t.outside.elems[p]);
    assert(t.outside.elems[p] == if mask.elems[p] == 0 {
        ONE
    } else {
        0
    });
    lemma_position4(image.dims, i, j, k, l);
    let q = ((i * image.dims[1] + j) * image.dims[2] + k) * image.dims[3] + l;
    assert(t.wide.elems[q] == t.outside.elems[p]);
    assert(image.elems[q] <= ONE);
    assert(t.masked.elems[q] == t.masked.at4(i, j, k, l));
}

/// Samples under the mask do not reach the generator: two images that agree outside
/// the mask enter the first block as one thing.
pub proof fn law_masked_samples_do_not_enter(
    a: TensorVal,
    b: TensorVal,
    mask: TensorVal,
    x: TensorVal,
    y: TensorVal,
)
    requires
        is_unit_image(a),
        is_unit_image(b),
        mask.good(),
        is_mask_for(a, mask),
        agree_outside(a, b, mask),
        enters(a, mask, x),
        enters(b, mask, y),
    ensures
        x == y,
{
    let s = choose|s: EntrySteps| #[trigger] enters_over(a, mask, s, x);
    let t = choose|t: EntrySteps| #[trigger] enters_over(b, mask, t, y);
    assert(enters_over(a, mask, s, x) && enters_over(b, mask, t, y));
    assert forall|i: int, j: int, k: int, l: int| inside4(s.masked.dims, i, j, k, l) implies #[trigger] s.masked.at4(
        i,
        j,
        k,
        l,
    ) == t.masked.at4(i, j, k, l) by {
        lemma_masked_value(a, mask, s, x, i, j, k, l);
        lemma_masked_value(b, mask, t, y, i, j, k, l);
        assert(a.at4(i, j, k, l) == b.at4(i, j, k, l) || mask.at4(i, 0, k, l) != 0);
    }
    lemma_equal4(s.masked, t.masked);
    lemma_one_move(s.masked, mask, 0, 0, s.joined, t.joined);
    lemma_one_move(s.joined, s.joined, 3, 0, x, y);
}

/// Samples under the mask never influence the result: the generator gives two images
/// that agree outside the mask one result.
pub proof fn law_masked_samples_do_not_count<T: Fn(usize, usize, usize) -> (u32, u32)>(
    m: CandleInpainter,
    wave: T,
    a: TensorVal,
    b: TensorVal,
    mask: TensorVal,
    y: TensorVal,
    z: TensorVal,
)
    requires
        one_result_each(),
        one_wave(wave),
        is_unit_image(a),
        is_unit_image(b),
        mask.good(),
        is_mask_for(a, mask),
        agree_outside(a, b, mask),
        m.gives(wave, a, mask, y),
        m.gives(wave, b, mask, z),
    ensures
        y == z,
{
    assert(a.dims[0] >= 1 && b.dims[0] >= 1);
    let s = choose|s: PassSteps| #[trigger] m.runs_over(wave, a, mask, s, y);
    let t = choose|t: PassSteps| #[trigger] m.runs_over(wave, b, mask, t, z);
    assert(m.runs_over(wave, a, mask, s, y) && m.runs_over(wave, b, mask, t, z));
    law_masked_samples_do_not_enter(a, b, mask, s.x, t.x);
    lemma_one_entry(a, mask, s.x, s.x);
    assert(passes_on(m, wave, s, y) && passes_on(m, wave, t, z));
    lemma_one_pass(m, wave, s, y, t, z);
}

} // verus!
