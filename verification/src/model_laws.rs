//! Laws of a run of the generator: what its blocks do and how they follow one another.

use candle_nn::BatchNorm;
use vstd::prelude::*;

use crate::axes::{lemma_joined4, lemma_position4};
use crate::blocks::{
    activates, activates_over, is_reflect_padded, ActSteps, BlockSteps, FfcBlock, FfcBnAct,
    FourierUnit, RefPadConv, ResSteps, ResnetBlock, SizeBases, SpectralSteps, SpectralTransform,
    UnitSteps,
};
use crate::exact::exact;
use crate::fourier::{forward_steps, is_irfft2, is_packed, is_rfft2, ForwardSteps};
use crate::laws::law_mirror_keeps_inner_positions;
use crate::layers::{
    conv_val, is_conv, is_normed, is_pooled, is_spread, norm_val, transposed_conv_val,
};
use crate::network::{
    downs_over, enters, enters_over, res_over, up_over, ups_over, CandleInpainter, EntrySteps,
    ExitSteps, PassSteps, UpLayer,
};
use crate::once::lemma_repeated4;
use crate::step_laws::{
    holds_positive_parts, law_rectified_is_nowhere_negative, law_reflecting_mirrors_at_borders,
    nowhere_negative,
};
use crate::tensor::{
    affine_outcome, exp_outcome, inside4, is_joined, lemma_at4, negated, pinned, recip_outcome,
    scaled_outcome, sum_outcome, words, TensorVal,
};

verus! {

/// `r` holds the elementwise sums of `a` and `b`.
pub open spec fn holds_sums(a: TensorVal, b: TensorVal, r: TensorVal) -> bool {
    &&& (a.dims, b.dims) == (r.dims, r.dims)
    &&& (a.elems.len(), b.elems.len()) == (r.elems.len(), r.elems.len())
    &&& forall|i: int|
        0 <= i < r.elems.len() ==> sum_outcome(a.elems[i], b.elems[i], #[trigger] r.elems[i])
}

/// One upsampling step: its transposed convolution, its normalisation, and of that the
/// positive parts.
pub open spec fn upsamples(u: UpLayer, bn: BatchNorm, x: TensorVal, y: TensorVal) -> bool {
    exists|wide: TensorVal, normed: TensorVal|
        {
            &&& #[trigger] is_spread(transposed_conv_val(u.conv), x, wide)
            &&& #[trigger] is_normed(norm_val(bn), wide, normed)
            &&& holds_positive_parts(normed, y)
        }
}

/// What comes out of an upsampling step is nowhere negative: it is the normalised
/// transposed convolution where that is positive, and zero where it is negative.
pub proof fn law_upsampling_keeps_positive_parts(
    convs: Seq<UpLayer>,
    norms: Seq<BatchNorm>,
    xs: Seq<TensorVal>,
    i: int,
)
    requires
        ups_over(convs, norms, xs),
        0 <= i < convs.len(),
    ensures
        xs.len() == convs.len() + 1,
        upsamples(convs[i], norms[i], xs[i], xs[i + 1]),
        nowhere_negative(xs[i + 1]),
{
    let (wide, normed) = choose|wide: TensorVal, normed: TensorVal| #[trigger]
        up_over(convs[i], norms[i], xs[i], wide, normed, xs[i + 1]);
    assert(up_over(convs[i], norms[i], xs[i], wide, normed, xs[i + 1]));
    law_rectified_is_nowhere_negative(normed, xs[i + 1]);
    assert(is_spread(transposed_conv_val(convs[i].conv), xs[i], wide));
}

/// The tensors of a run, in order: `x` enters, `ls` and `gs` stand between the
/// downsampling blocks, `rl` and `rg` between the residual blocks, `us` between the
/// upsampling steps.
pub open spec fn passes_every_layer<T: Fn(usize, usize, usize) -> (u32, u32)>(
    m: CandleInpainter,
    wave: T,
    image: TensorVal,
    mask: TensorVal,
    x: TensorVal,
    ls: Seq<TensorVal>,
    gs: Seq<Option<TensorVal>>,
    rl: Seq<TensorVal>,
    rg: Seq<TensorVal>,
    us: Seq<TensorVal>,
    y: TensorVal,
) -> bool {
    let (nd, nr, nu) = (m.downs@.len() as int, m.res@.len() as int, m.up_conv@.len() as int);
    &&& ls.len() == nd + 1 && gs.len() == nd + 1
    &&& rl.len() == nr + 1 && rg.len() == nr + 1
    &&& us.len() == nu + 1
    &&& enters(image, mask, x)
    &&& m.init.runs(wave, x, None, Some(ls[0]), gs[0])
    &&& forall|i: int|
        0 <= i < nd ==> (#[trigger] m.downs@[i]).runs(
            wave,
            ls[i],
            gs[i],
            Some(ls[i + 1]),
            gs[i + 1],
        )
    &&& (Some(ls[nd]), gs[nd]) == (Some(rl[0]), Some(rg[0]))
    &&& forall|i: int|
        0 <= i < nr ==> (#[trigger] m.res@[i]).runs(wave, rl[i], rg[i], rl[i + 1], rg[i + 1])
    &&& is_joined(rl[nr], rg[nr], 1, us[0])
    &&& nr >= 1 ==> us[0].dims.len() == 4 && us[0].dims[1] == rl[nr].dims[1] + rg[nr].dims[1]
    &&& nr >= 1 ==> forall|i: int, j: int, k: int, l: int|
        inside4(us[0].dims, i, j, k, l) ==> #[trigger] us[0].at4(i, j, k, l) == if j
            < rl[nr].dims[1] {
            rl[nr].at4(i, j, k, l)
        } else {
            rg[nr].at4(i, j - rl[nr].dims[1], k, l)
        }
    &&& forall|i: int|
        0 <= i < nu ==> upsamples(#[trigger] m.up_conv@[i], m.up_bn@[i], us[i], us[i + 1])
            && nowhere_negative(us[i + 1])
    &&& m.exits(us[nu], y)
}

/// The results of the two paths into one branch add up; where only one path has a
/// result, it is the branch.
pub open spec fn add_up(a: Option<TensorVal>, b: Option<TensorVal>, r: Option<TensorVal>) -> bool {
    &&& a is Some && b is Some ==> r is Some && holds_sums(a->0, b->0, r->0)
    &&& a is Some && b is None ==> r == a
    &&& a is None && b is Some ==> r == b
    &&& a is None && b is None ==> r is None
}

/// The local branch of a block is the sum of what its local and its global input
/// contribute to it, each through its own convolution.
pub proof fn law_local_branch_sums_both_paths<T: Fn(usize, usize, usize) -> (u32, u32)>(
    b: FfcBlock,
    wave: T,
    xl: TensorVal,
    xg: Option<TensorVal>,
    ol: Option<TensorVal>,
    og: Option<TensorVal>,
)
    requires
        b.runs(wave, xl, xg, ol, og),
    ensures
        b.l2l is Some || b.g2l is Some || !b.has_gout ==> exists|
            ll: Option<TensorVal>,
            gl: Option<TensorVal>,
        |
            {
                &&& #[trigger] add_up(ll, gl, ol)
                &&& (ll is Some) == (b.l2l is Some)
                &&& (gl is Some) == (b.g2l is Some && xg is Some)
                &&& ll is Some ==> b.l2l->0.runs(xl, ll->0)
                &&& gl is Some ==> b.g2l->0.runs(xg->0, gl->0)
            },
        b.l2l is None && b.g2l is None ==> ol is None,
{
    let t = choose|t: BlockSteps| #[trigger] b.runs_over(wave, xl, xg, t, ol, og);
    assert(b.runs_over(wave, xl, xg, t, ol, og));
    if b.l2l is Some || b.g2l is Some || !b.has_gout {
        assert(add_up(t.ll, t.gl, ol));
    }
}

/// The global branch of a block is the sum of what its local input contributes through
/// a convolution and its global input through the spectral transform.
pub proof fn law_global_branch_sums_both_paths<T: Fn(usize, usize, usize) -> (u32, u32)>(
    b: FfcBlock,
    wave: T,
    xl: TensorVal,
    xg: Option<TensorVal>,
    ol: Option<TensorVal>,
    og: Option<TensorVal>,
)
    requires
        b.runs(wave, xl, xg, ol, og),
    ensures
        b.has_gout ==> exists|lg: Option<TensorVal>, gg: Option<TensorVal>|
            {
                &&& #[trigger] add_up(lg, gg, og)
                &&& (lg is Some) == (b.l2g is Some)
                &&& (gg is Some) == (b.g2g is Some && xg is Some)
                &&& lg is Some ==> b.l2g->0.runs(xl, lg->0)
                &&& gg is Some ==> b.g2g->0.runs(wave, xg->0, gg->0)
            },
        !b.has_gout ==> og is None,
{
    let t = choose|t: BlockSteps| #[trigger] b.runs_over(wave, xl, xg, t, ol, og);
    assert(b.runs_over(wave, xl, xg, t, ol, og));
    if b.has_gout {
        assert(add_up(t.lg, t.gg, og));
    }
}

/// A branch is normalised by its own statistics, where it has some, and rectified.
pub open spec fn normalises_and_rectifies(
    bn: Option<BatchNorm>,
    x: Option<TensorVal>,
    y: Option<TensorVal>,
) -> bool {
    &&& (y is Some) == (x is Some)
    &&& x is Some ==> nowhere_negative(y->0)
    &&& x is Some && bn is None ==> holds_positive_parts(x->0, y->0)
    &&& x is Some && bn is Some ==> exists|mid: TensorVal| #[trigger]
        is_normed(norm_val(bn->0), x->0, mid) && holds_positive_parts(mid, y->0)
}

/// An activated block runs its convolutions, normalises each branch by its own
/// statistics and leaves nothing negative.
pub proof fn law_activated_block_is_nowhere_negative<T: Fn(usize, usize, usize) -> (u32, u32)>(
    b: FfcBnAct,
    wave: T,
    xl: TensorVal,
    xg: Option<TensorVal>,
    yl: Option<TensorVal>,
    yg: Option<TensorVal>,
)
    requires
        b.runs(wave, xl, xg, yl, yg),
    ensures
        exists|ol: Option<TensorVal>, og: Option<TensorVal>|
            {
                &&& #[trigger] b.ffc.runs(wave, xl, xg, ol, og)
                &&& normalises_and_rectifies(b.bn_l, ol, yl)
                &&& normalises_and_rectifies(b.bn_g, og, yg)
            },
{
    let a = choose|a: ActSteps| #[trigger] b.runs_over(wave, xl, xg, a, yl, yg);
    assert(b.runs_over(wave, xl, xg, a, yl, yg));
    lemma_activation(b.bn_l, a.ol, yl);
    lemma_activation(b.bn_g, a.og, yg);
}

proof fn lemma_activation(bn: Option<BatchNorm>, x: Option<TensorVal>, y: Option<TensorVal>)
    requires
        activates(bn, x, y),
    ensures
        normalises_and_rectifies(bn, x, y),
{
    if x is Some {
        let (v, z) = (x->0, y->0);
        let mid = choose|mid: TensorVal| #[trigger] activates_over(bn, v, mid, z);
        assert(activates_over(bn, v, mid, z));
        law_rectified_is_nowhere_negative(mid, z);
        if bn is Some {
            assert(is_normed(norm_val(bn->0), v, mid));
        }
    }
}

/// A residual block runs two activated blocks, the second on what the first gave, and
/// adds the result to its own input, branch by branch.
pub proof fn law_residual_block_adds_its_input<T: Fn(usize, usize, usize) -> (u32, u32)>(
    b: ResnetBlock,
    wave: T,
    xl: TensorVal,
    xg: TensorVal,
    ol: TensorVal,
    og: TensorVal,
)
    requires
        b.runs(wave, xl, xg, ol, og),
    ensures
        exists|l1: TensorVal, g1: TensorVal, l2: TensorVal, g2: TensorVal|
            {
                &&& #[trigger] b.conv1.runs(wave, xl, Some(xg), Some(l1), Some(g1))
                &&& #[trigger] b.conv2.runs(wave, l1, Some(g1), Some(l2), Some(g2))
                &&& nowhere_negative(l2)
                &&& nowhere_negative(g2)
                &&& holds_sums(xl, l2, ol)
                &&& holds_sums(xg, g2, og)
            },
{
    let t = choose|t: ResSteps| #[trigger] b.runs_over(wave, xl, xg, t, ol, og);
    assert(b.runs_over(wave, xl, xg, t, ol, og));
    law_activated_block_is_nowhere_negative(
        b.conv2,
        wave,
        t.l1,
        Some(t.g1),
        Some(t.l2),
        Some(t.g2),
    );
    assert(b.conv1.runs(wave, xl, Some(xg), Some(t.l1), Some(t.g1)));
}

/// In exact arithmetic a residual block never lowers an element: it adds what is
/// nowhere negative.
pub proof fn law_residual_block_never_lowers<T: Fn(usize, usize, usize) -> (u32, u32)>(
    val: spec_fn(u64) -> real,
    b: ResnetBlock,
    wave: T,
    xl: TensorVal,
    xg: TensorVal,
    ol: TensorVal,
    og: TensorVal,
    i: int,
)
    requires
        exact(val),
        forall|a: u64| a <= 0x7f80_0000 || a == 0x8000_0000 ==> #[trigger] val(a) >= 0real,
        b.runs(wave, xl, xg, ol, og),
    ensures
        ol.dims == xl.dims,
        og.dims == xg.dims,
        0 <= i < xl.elems.len() ==> val(ol.elems[i]) >= val(xl.elems[i]),
        0 <= i < xg.elems.len() ==> val(og.elems[i]) >= val(xg.elems[i]),
{
    law_residual_block_adds_its_input(b, wave, xl, xg, ol, og);
    let (l1, g1, l2, g2) = choose|l1: TensorVal, g1: TensorVal, l2: TensorVal, g2: TensorVal|
        {
            &&& #[trigger] b.conv1.runs(wave, xl, Some(xg), Some(l1), Some(g1))
            &&& #[trigger] b.conv2.runs(wave, l1, Some(g1), Some(l2), Some(g2))
            &&& nowhere_negative(l2)
            &&& nowhere_negative(g2)
            &&& holds_sums(xl, l2, ol)
            &&& holds_sums(xg, g2, og)
        };
    if 0 <= i < xl.elems.len() {
        assert(sum_outcome(xl.elems[i], l2.elems[i], ol.elems[i]));
        assert(val(l2.elems[i]) >= 0real);
    }
    if 0 <= i < xg.elems.len() {
        assert(sum_outcome(xg.elems[i], g2.elems[i], og.elems[i]));
        assert(val(g2.elems[i]) >= 0real);
    }
}

/// What a padded convolution gives has four axes.
proof fn lemma_padded_axes(c: RefPadConv, x: TensorVal, y: TensorVal)
    requires
        c.runs(x, y),
    ensures
        y.dims.len() == 4,
{
    let mid = choose|mid: TensorVal| #[trigger] c.runs_over(x, mid, y);
    assert(c.runs_over(x, mid, y));
}

/// The local branch that a block gives has four axes.
proof fn lemma_local_axes<T: Fn(usize, usize, usize) -> (u32, u32)>(
    b: FfcBlock,
    wave: T,
    xl: TensorVal,
    xg: Option<TensorVal>,
    ol: Option<TensorVal>,
    og: Option<TensorVal>,
)
    requires
        b.runs(wave, xl, xg, ol, og),
        ol is Some,
    ensures
        ol->0.dims.len() == 4,
{
    law_local_branch_sums_both_paths(b, wave, xl, xg, ol, og);
    let (ll, gl) = choose|ll: Option<TensorVal>, gl: Option<TensorVal>|
        {
            &&& #[trigger] add_up(ll, gl, ol)
            &&& (ll is Some) == (b.l2l is Some)
            &&& (gl is Some) == (b.g2l is Some && xg is Some)
            &&& ll is Some ==> b.l2l->0.runs(xl, ll->0)
            &&& gl is Some ==> b.g2l->0.runs(xg->0, gl->0)
        };
    assert(add_up(ll, gl, ol));
    if ll is Some {
        lemma_padded_axes(b.l2l->0, xl, ll->0);
    }
    if gl is Some {
        lemma_padded_axes(b.g2l->0, xg->0, gl->0);
    }
}

/// What a residual block gives has four axes.
proof fn lemma_residual_axes<T: Fn(usize, usize, usize) -> (u32, u32)>(
    b: ResnetBlock,
    wave: T,
    xl: TensorVal,
    xg: TensorVal,
    ol: TensorVal,
    og: TensorVal,
)
    requires
        b.runs(wave, xl, xg, ol, og),
    ensures
        ol.dims.len() == 4,
{
    let t = choose|t: ResSteps| #[trigger] b.runs_over(wave, xl, xg, t, ol, og);
    assert(b.runs_over(wave, xl, xg, t, ol, og));
    let (yl, yg) = (Some(t.l2), Some(t.g2));
    law_activated_block_is_nowhere_negative(b.conv2, wave, t.l1, Some(t.g1), yl, yg);
    let (vl, vg) = choose|vl: Option<TensorVal>, vg: Option<TensorVal>|
        {
            &&& #[trigger] b.conv2.ffc.runs(wave, t.l1, Some(t.g1), vl, vg)
            &&& normalises_and_rectifies(b.conv2.bn_l, vl, yl)
            &&& normalises_and_rectifies(b.conv2.bn_g, vg, yg)
        };
    lemma_local_axes(b.conv2.ffc, wave, t.l1, Some(t.g1), vl, vg);
    if b.conv2.bn_l is Some {
        let mid = choose|mid: TensorVal| #[trigger]
            is_normed(norm_val(b.conv2.bn_l->0), vl->0, mid) && holds_positive_parts(mid, yl->0);
        assert(mid.dims == vl->0.dims);
    }
}

/// A spectral transform halves the picture where it pools, narrows it by a convolution,
/// normalises and rectifies it, adds to that what the Fourier unit makes of it, and
/// widens the sum by a convolution.
pub proof fn law_spectral_transform_adds_its_spectrum<T: Fn(usize, usize, usize) -> (u32, u32)>(
    s: SpectralTransform,
    wave: T,
    x: TensorVal,
    y: TensorVal,
)
    requires
        s.runs(wave, x, y),
    ensures
        exists|
            pooled: TensorVal,
            narrowed: TensorVal,
            normed: TensorVal,
            active: TensorVal,
            unit: TensorVal,
            sum: TensorVal,
        |
            {
                &&& s.avgpool ==> is_pooled(x, pooled)
                &&& !s.avgpool ==> pooled == x
                &&& #[trigger] is_conv(conv_val(s.conv1.conv), pooled, narrowed)
                &&& #[trigger] is_normed(norm_val(s.bn1), narrowed, normed)
                &&& holds_positive_parts(normed, active)
                &&& nowhere_negative(active)
                &&& #[trigger] s.fu.runs(wave, active, unit)
                &&& holds_sums(active, unit, sum)
                &&& #[trigger] is_conv(conv_val(s.conv2.conv), sum, y)
            },
{
    let t = choose|t: SpectralSteps| #[trigger] s.runs_over(wave, x, t, y);
    assert(s.runs_over(wave, x, t, y));
    law_rectified_is_nowhere_negative(t.normed, t.active);
    assert(is_conv(conv_val(s.conv1.conv), t.pooled, t.narrowed));
    assert(is_normed(norm_val(s.bn1), t.narrowed, t.normed));
    assert(s.fu.runs(wave, t.active, t.unit));
    assert(is_conv(conv_val(s.conv2.conv), t.sum, y));
}

/// A run passes every layer once, in order: the entry, the first block, the
/// downsampling blocks, the residual blocks, the local channels followed by the global
/// ones, the upsampling steps, each with nothing negative left, and the exit.
pub proof fn law_a_run_passes_every_layer<T: Fn(usize, usize, usize) -> (u32, u32)>(
    m: CandleInpainter,
    wave: T,
    image: TensorVal,
    mask: TensorVal,
    y: TensorVal,
)
    requires
        m.runs(wave, image, mask, y),
    ensures
        exists|
            x: TensorVal,
            ls: Seq<TensorVal>,
            gs: Seq<Option<TensorVal>>,
            rl: Seq<TensorVal>,
            rg: Seq<TensorVal>,
            us: Seq<TensorVal>,
        | #[trigger]
            passes_every_layer(m, wave, image, mask, x, ls, gs, rl, rg, us, y),
{
    let t = choose|t: PassSteps| #[trigger] m.runs_over(wave, image, mask, t, y);
    assert(m.runs_over(wave, image, mask, t, y));
    let (ls, gs) = choose|ls: Seq<TensorVal>, gs: Seq<Option<TensorVal>>|
        {
            &&& #[trigger] downs_over(wave, m.downs@, ls, gs)
            &&& (ls.first(), gs.first()) == (t.il, t.ig)
            &&& (ls.last(), gs.last()) == (t.dl, Some(t.dg))
        };
    assert(downs_over(wave, m.downs@, ls, gs));
    let (rl, rg) = choose|rl: Seq<TensorVal>, rg: Seq<TensorVal>|
        {
            &&& #[trigger] res_over(wave, m.res@, rl, rg)
            &&& (rl.first(), rg.first()) == (t.dl, t.dg)
            &&& (rl.last(), rg.last()) == (t.rl, t.rg)
        };
    assert(res_over(wave, m.res@, rl, rg));
    let us = choose|us: Seq<TensorVal>|
        {
            &&& #[trigger] ups_over(m.up_conv@, m.up_bn@, us)
            &&& us.first() == t.joined
            &&& us.last() == t.up
        };
    assert(ups_over(m.up_conv@, m.up_bn@, us));
    assert forall|i: int| 0 <= i < m.up_conv@.len() implies upsamples(
        #[trigger] m.up_conv@[i],
        m.up_bn@[i],
        us[i],
        us[i + 1],
    ) && nowhere_negative(us[i + 1]) by {
        law_upsampling_keeps_positive_parts(m.up_conv@, m.up_bn@, us, i);
    }
    let nr = m.res@.len() as int;
    if nr >= 1 {
        let b = m.res@[nr - 1];
        assert(b.runs(wave, rl[nr - 1], rg[nr - 1], rl[nr], rg[nr]));
        lemma_residual_axes(b, wave, rl[nr - 1], rg[nr - 1], rl[nr], rg[nr]);
        lemma_joined4(rl[nr], rg[nr], 1, us[0]);
    }
    assert(passes_every_layer(m, wave, image, mask, t.x, ls, gs, rl, rg, us, y));
}

/// `r` is the positive part of the 32-bit float `a`: itself from zero to infinity, and
/// zero where it is negative or no number.
pub open spec fn takes_positive_part(a: u64, r: u64) -> bool {
    &&& a <= 0x7f80_0000 ==> r == a
    &&& a > 0x7f80_0000 ==> r == 0 || (a == 0x8000_0000 && r == a)
}

/// The spectrum `re`, `im` that a Fourier unit makes of the spectrum of its input, as
/// the parts of `normed`: channel `2 * j` holds the real part of channel `j`, and the
/// next one the imaginary part. Of each only the positive part is handed on.
pub open spec fn hands_on_positive_parts(normed: TensorVal, yr: TensorVal, yi: TensorVal) -> bool {
    &&& normed.dims.len() == 4
    &&& yr.dims == seq![normed.dims[0], normed.dims[1] / 2, normed.dims[2], normed.dims[3]]
    &&& yi.dims == yr.dims
    &&& forall|i: int, j: int, k: int, l: int|
        #![trigger yr.at4(i, j, k, l)]
        #![trigger yi.at4(i, j, k, l)]
        inside4(yr.dims, i, j, k, l) ==> takes_positive_part(
            normed.at4(i, 2 * j, k, l),
            yr.at4(i, j, k, l),
        ) && takes_positive_part(normed.at4(i, 2 * j + 1, k, l), yi.at4(i, j, k, l))
}

/// A Fourier unit transforms its input, mixes and normalises the spectrum with the real
/// and the imaginary part of each channel side by side, and transforms back what is
/// left when every negative part, real or imaginary, is set to zero.
pub proof fn law_fourier_unit_hands_on_positive_parts<
    T: Fn(usize, usize, usize) -> (u32, u32),
>(u: FourierUnit, wave: T, x: TensorVal, y: TensorVal)
    requires
        u.runs(wave, x, y),
    ensures
        exists|
            bases: SizeBases,
            re: TensorVal,
            im: TensorVal,
            packed: TensorVal,
            mixed: TensorVal,
            normed: TensorVal,
            yr: TensorVal,
            yi: TensorVal,
        |
            {
                &&& bases.made_for(wave, x.dims[2] as usize, x.dims[3] as usize)
                &&& is_rfft2(x, bases.bh, bases.bw, re, im)
                &&& #[trigger] is_packed(re, im, packed)
                &&& #[trigger] is_conv(conv_val(u.conv.conv), packed, mixed)
                &&& #[trigger] is_normed(norm_val(u.bn), mixed, normed)
                &&& hands_on_positive_parts(normed, yr, yi)
                &&& #[trigger] is_irfft2(yr, yi, bases.bwf, bases.bh, x.dims[3], y)
            },
{
    let t = choose|t: UnitSteps| #[trigger] u.runs_over(wave, x, t, y);
    assert(u.runs_over(wave, x, t, y));
    assert forall|i: int, j: int, k: int, l: int|
        #![trigger t.yr.at4(i, j, k, l)]
        #![trigger t.yi.at4(i, j, k, l)]
        inside4(t.yr.dims, i, j, k, l) implies takes_positive_part(
        t.normed.at4(i, 2 * j, k, l),
        t.yr.at4(i, j, k, l),
    ) && takes_positive_part(t.normed.at4(i, 2 * j + 1, k, l), t.yi.at4(i, j, k, l)) by {
        let d = t.mixed.dims;
        assert(t.yr.at4(i, j, k, l) == t.active.at4(i, 2 * j, k, l));
        assert(t.yi.at4(i, j, k, l) == t.active.at4(i, 2 * j + 1, k, l));
        lemma_position4(d, i, 2 * j, k, l);
        lemma_position4(d, i, 2 * j + 1, k, l);
    }
    assert(is_packed(t.re, t.im, t.packed));
    assert(is_conv(conv_val(u.conv.conv), t.packed, t.mixed));
    assert(is_normed(norm_val(u.bn), t.mixed, t.normed));
    assert(is_irfft2(t.yr, t.yi, t.bases.bwf, t.bases.bh, x.dims[3], y));
}

/// A Fourier unit whose convolution and normalisation change nothing gives the inverse
/// transform of the spectrum of its input with every negative bin set to zero.
pub proof fn law_identity_unit_drops_negative_bins<T: Fn(usize, usize, usize) -> (u32, u32)>(
    u: FourierUnit,
    wave: T,
    x: TensorVal,
    y: TensorVal,
)
    requires
        forall|a: TensorVal, b: TensorVal| #[trigger]
            is_conv(conv_val(u.conv.conv), a, b) ==> b.elems == a.elems && b.dims == a.dims,
        forall|a: TensorVal, b: TensorVal| #[trigger]
            is_normed(norm_val(u.bn), a, b) ==> b.elems == a.elems && b.dims == a.dims,
        u.runs(wave, x, y),
    ensures
        exists|
            bases: SizeBases,
            re: TensorVal,
            im: TensorVal,
            yr: TensorVal,
            yi: TensorVal,
        |
            {
                &&& bases.made_for(wave, x.dims[2] as usize, x.dims[3] as usize)
                &&& #[trigger] is_rfft2(x, bases.bh, bases.bw, re, im)
                &&& (yr.dims, yi.dims) == (re.dims, im.dims)
                &&& forall|i: int, j: int, k: int, l: int|
                    #![trigger yr.at4(i, j, k, l)]
                    #![trigger yi.at4(i, j, k, l)]
                    inside4(yr.dims, i, j, k, l) ==> takes_positive_part(
                        re.at4(i, j, k, l),
                        yr.at4(i, j, k, l),
                    ) && takes_positive_part(im.at4(i, j, k, l), yi.at4(i, j, k, l))
                &&& #[trigger] is_irfft2(yr, yi, bases.bwf, bases.bh, x.dims[3], y)
            },
{
    law_fourier_unit_hands_on_positive_parts(u, wave, x, y);
    let (bases, re, im, packed, mixed, normed, yr, yi) = choose|
        bases: SizeBases,
        re: TensorVal,
        im: TensorVal,
        packed: TensorVal,
        mixed: TensorVal,
        normed: TensorVal,
        yr: TensorVal,
        yi: TensorVal,
    |
        {
            &&& bases.made_for(wave, x.dims[2] as usize, x.dims[3] as usize)
            &&& is_rfft2(x, bases.bh, bases.bw, re, im)
            &&& #[trigger] is_packed(re, im, packed)
            &&& #[trigger] is_conv(conv_val(u.conv.conv), packed, mixed)
            &&& #[trigger] is_normed(norm_val(u.bn), mixed, normed)
            &&& hands_on_positive_parts(normed, yr, yi)
            &&& #[trigger] is_irfft2(yr, yi, bases.bwf, bases.bh, x.dims[3], y)
        };
    let t = choose|t: ForwardSteps| #[trigger] forward_steps(x, bases.bh, bases.bw, t, re, im);
    assert(forward_steps(x, bases.bh, bases.bw, t, re, im));
    assert(re.dims.len() == 4);
    assert(yr.dims =~= re.dims);
    assert(im.dims =~= re.dims);
    assert forall|i: int, j: int, k: int, l: int|
        #![trigger yr.at4(i, j, k, l)]
        #![trigger yi.at4(i, j, k, l)]
        inside4(yr.dims, i, j, k, l) implies takes_positive_part(
        re.at4(i, j, k, l),
        yr.at4(i, j, k, l),
    ) && takes_positive_part(im.at4(i, j, k, l), yi.at4(i, j, k, l)) by {
        assert(re.at4(i, j, k, l) == packed.at4(i, 2 * j, k, l));
        assert(im.at4(i, j, k, l) == packed.at4(i, 2 * j + 1, k, l));
        assert(takes_positive_part(normed.at4(i, 2 * j, k, l), yr.at4(i, j, k, l)));
    }
}

/// The picture that enters: at its place within a margin of three, each channel shows
/// the image where the mask is zero and zero where the mask is one; otherwise the image
/// times one minus the mask. The mask follows as one more channel.
pub proof fn law_entry_blanks_what_is_masked(
    image: TensorVal,
    mask: TensorVal,
    x: TensorVal,
    i: int,
    j: int,
    k: int,
    l: int,
)
    requires
        enters(image, mask, x),
        image.good(),
        mask.good(),
        image.dims.len() == 4,
        mask.dims == seq![image.dims[0], 1, image.dims[2], image.dims[3]],
        0 <= i < image.dims[0],
        0 <= j < image.dims[1],
        0 <= k < image.dims[2],
        0 <= l < image.dims[3],
    ensures
        x.dims == seq![
            image.dims[0],
            image.dims[1] + 1,
            image.dims[2] + 6,
            image.dims[3] + 6,
        ],
        x.at4(i, image.dims[1] as int, k + 3, l + 3) == mask.at4(i, 0, k, l),
        exists|n: u64, o: u64|
            {
                &&& n == mask.at4(i, 0, k, l) + 0x8000_0000 || mask.at4(i, 0, k, l) == n
                    + 0x8000_0000
                &&& #[trigger] affine_outcome(n, 1, 1, o)
                &&& scaled_outcome(image.at4(i, j, k, l), o, x.at4(i, j, k + 3, l + 3))
            },
        mask.at4(i, 0, k, l) == 0 && image.at4(i, j, k, l) <= 0x7f80_0000 ==> x.at4(
            i,
            j,
            k + 3,
            l + 3,
        ) == image.at4(i, j, k, l),
        mask.at4(i, 0, k, l) == 0x3f80_0000 && image.at4(i, j, k, l) < 0x7f80_0000 ==> x.at4(
            i,
            j,
            k + 3,
            l + 3,
        ) == 0,
{
    let t = choose|t: EntrySteps| #[trigger] enters_over(image, mask, t, x);
    assert(enters_over(image, mask, t, x));
    let c = image.dims[1] as int;
    lemma_joined4(t.masked, mask, 1, t.joined);
    assert(t.joined.dims =~= seq![
        image.dims[0],
        image.dims[1] + 1,
        image.dims[2],
        image.dims[3],
    ]);
    law_mirror_keeps_inner_positions(k, image.dims[2] as int);
    law_mirror_keeps_inner_positions(l, image.dims[3] as int);
    assert(inside4(x.dims, i, j, k + 3, l + 3));
    assert(inside4(x.dims, i, c, k + 3, l + 3));
    assert(x.at4(i, j, k + 3, l + 3) == t.joined.at4(i, j, k, l));
    assert(x.at4(i, c, k + 3, l + 3) == t.joined.at4(i, c, k, l));
    assert(inside4(t.joined.dims, i, j, k, l));
    assert(inside4(t.joined.dims, i, c, k, l));
    assert(t.joined.at4(i, c, k, l) == mask.at4(i, 0, k, l));
    lemma_repeated4(t.outside, image.dims, t.wide, i, j, k, l);
    assert(pinned(t.outside.dims, seq![i, j, k, l]) =~= seq![i, 0, k, l]);
    lemma_at4(t.outside, i, 0, k, l);
    lemma_position4(mask.dims, i, 0, k, l);
    let p = ((i * mask.dims[1] + 0) * mask.dims[2] + k) * mask.dims[3] + l;
    assert(mask.at4(i, 0, k, l) == mask.elems[p]);
    assert(t.turned.elems[p] == negated(mask.elems[p]));
    assert(affine_outcome(t.turned.elems[p], 1, 1, t.outside.elems[p]));
    assert(mask.elems[p] <= u32::MAX) by {
        reveal(words);
    }
    lemma_position4(image.dims, i, j, k, l);
    let q = ((i * image.dims[1] + j) * image.dims[2] + k) * image.dims[3] + l;
    assert(t.wide.elems[q] == t.outside.elems[p]);
    assert(t.masked.elems[q] == t.masked.at4(i, j, k, l));
    assert(scaled_outcome(image.elems[q], t.wide.elems[q], t.masked.elems[q]));
}

/// The margin of the picture that enters is its own reflection.
pub proof fn law_entry_reflects_its_margin(
    image: TensorVal,
    mask: TensorVal,
    x: TensorVal,
    i: int,
    j: int,
    k: int,
    l: int,
    d: int,
)
    requires
        enters(image, mask, x),
        image.good(),
        image.dims.len() == 4,
        mask.dims == seq![image.dims[0], 1, image.dims[2], image.dims[3]],
        image.dims[2] >= 4,
        image.dims[3] >= 4,
        0 <= i < image.dims[0],
        0 <= j <= image.dims[1],
        0 <= k < image.dims[2] + 6,
        0 <= l < image.dims[3] + 6,
        0 <= d <= 3,
    ensures
        x.at4(i, j, 3 - d, l) == x.at4(i, j, 3 + d, l),
        x.at4(i, j, image.dims[2] + 2 + d, l) == x.at4(i, j, image.dims[2] + 2 - d, l),
        x.at4(i, j, k, 3 - d) == x.at4(i, j, k, 3 + d),
        x.at4(i, j, k, image.dims[3] + 2 + d) == x.at4(i, j, k, image.dims[3] + 2 - d),
{
    let t = choose|t: EntrySteps| #[trigger] enters_over(image, mask, t, x);
    assert(enters_over(image, mask, t, x));
    law_reflecting_mirrors_at_borders(t.joined, 3, x, i, j, k, l, d);
}

/// The picture that comes out: a convolution of the last picture with its margin of
/// three reflected, and of each element `v` of that 255 times the reciprocal of one
/// plus the exponential of minus `v`.
pub proof fn law_exit_squashes_its_convolution(
    m: CandleInpainter,
    x: TensorVal,
    y: TensorVal,
)
    requires
        m.exits(x, y),
    ensures
        exists|padded: TensorVal, mixed: TensorVal|
            {
                &&& #[trigger] is_reflect_padded(x, 3, padded)
                &&& #[trigger] is_conv(conv_val(m.final_conv.conv), padded, mixed)
                &&& y.dims == mixed.dims
                &&& y.elems.len() == mixed.elems.len()
                &&& forall|i: int|
                    0 <= i < mixed.elems.len() ==> squashed(#[trigger] mixed.elems[i], y.elems[i])
            },
{
    let t = choose|t: ExitSteps| #[trigger] m.exits_over(x, t, y);
    assert(m.exits_over(x, t, y));
    assert(is_reflect_padded(x, 3, t.padded));
    assert(is_conv(conv_val(m.final_conv.conv), t.padded, t.mixed));
    assert forall|i: int| 0 <= i < t.mixed.elems.len() implies squashed(
        #[trigger] t.mixed.elems[i],
        y.elems[i],
    ) by {
        assert(t.mixed.elems[i] <= u32::MAX) by {
            reveal(words);
        }
        assert(t.turned.elems[i] == negated(t.mixed.elems[i]));
        assert(exp_outcome(t.turned.elems[i], t.power.elems[i]));
        assert(affine_outcome(t.power.elems[i], 1, 1, t.below.elems[i]));
        assert(recip_outcome(t.below.elems[i], t.level.elems[i]));
        assert(affine_outcome(t.level.elems[i], 255, 0, y.elems[i]));
    }
}

/// `y` may be 255 times the reciprocal of one plus the exponential of minus `v`.
pub open spec fn squashed(v: u64, y: u64) -> bool {
    exists|n: u64, e: u64, b: u64, r: u64|
        {
            &&& n == v + 0x8000_0000 || v == n + 0x8000_0000
            &&& #[trigger] exp_outcome(n, e)
            &&& #[trigger] affine_outcome(e, 1, 1, b)
            &&& #[trigger] recip_outcome(b, r)
            &&& affine_outcome(r, 255, 0, y)
        }
}

/// The logistic function of one element.
proof fn lemma_logistic(
    val: spec_fn(u64) -> real,
    power: spec_fn(real) -> real,
    v: u64,
    y: u64,
)
    requires
        squashed(v, y),
        v <= u32::MAX,
        forall|a: u64, b: u64| a == b + 0x8000_0000 ==> #[trigger] val(a) == -#[trigger] val(b),
        forall|a: u64, r: u64| #[trigger] exp_outcome(a, r) ==> val(r) == power(val(a)),
        forall|a: u64, p: u8, q: u8, r: u64| #[trigger]
            affine_outcome(a, p, q, r) ==> val(r) == (p as real) * val(a) + (q as real),
        forall|a: u64, r: u64| #[trigger] recip_outcome(a, r) ==> val(r) * val(a) == 1real,
        forall|a: real| #[trigger] power(a) > 0real,
    ensures
        val(y) * (1real + power(-val(v))) == 255real,
        0real < val(y) < 255real,
{
    let (n, e, b, r) = choose|n: u64, e: u64, b: u64, r: u64|
        {
            &&& n == v + 0x8000_0000 || v == n + 0x8000_0000
            &&& #[trigger] exp_outcome(n, e)
            &&& #[trigger] affine_outcome(e, 1, 1, b)
            &&& #[trigger] recip_outcome(b, r)
            &&& affine_outcome(r, 255, 0, y)
        };
    assert(val(n) == -val(v));
    let (p, q, z) = (power(-val(v)), val(r), val(y));
    assert(val(e) == p);
    assert(val(b) == (1u8 as real) * p + (1u8 as real));
    assert((1u8 as real) * p == p) by (nonlinear_arith)
        requires
            1u8 as real == 1real,
    ;
    assert(val(b) == 1real + p);
    assert(q * (1real + p) == 1real);
    assert(z == 255real * q);
    assert(z * (1real + p) == 255real) by (nonlinear_arith)
        requires
            z == 255real * q,
            q * (1real + p) == 1real,
    ;
    assert(0real < z < 255real) by (nonlinear_arith)
        requires
            z * (1real + p) == 255real,
            p > 0real,
    ;
}

/// In exact arithmetic the exit is 255 times the logistic function: with `power` for
/// the exponential, every element times one plus `power` of minus its convolution is
/// 255, and it lies between zero and 255.
pub proof fn law_exit_is_logistic(
    val: spec_fn(u64) -> real,
    power: spec_fn(real) -> real,
    m: CandleInpainter,
    x: TensorVal,
    y: TensorVal,
)
    requires
        m.exits(x, y),
        forall|a: u64, b: u64| a == b + 0x8000_0000 ==> #[trigger] val(a) == -#[trigger] val(b),
        forall|a: u64, r: u64| #[trigger] exp_outcome(a, r) ==> val(r) == power(val(a)),
        forall|a: u64, p: u8, q: u8, r: u64| #[trigger]
            affine_outcome(a, p, q, r) ==> val(r) == (p as real) * val(a) + (q as real),
        forall|a: u64, r: u64| #[trigger] recip_outcome(a, r) ==> val(r) * val(a) == 1real,
        forall|a: real| #[trigger] power(a) > 0real,
    ensures
        exists|padded: TensorVal, mixed: TensorVal|
            {
                &&& #[trigger] is_reflect_padded(x, 3, padded)
                &&& #[trigger] is_conv(conv_val(m.final_conv.conv), padded, mixed)
                &&& y.dims == mixed.dims
                &&& forall|i: int|
                    0 <= i < mixed.elems.len() ==> {
                        &&& val(y.elems[i]) * (1real + power(-val(#[trigger] mixed.elems[i])))
                            == 255real
                        &&& 0real < val(y.elems[i]) < 255real
                    }
            },
{
    law_exit_squashes_its_convolution(m, x, y);
    let (padded, mixed) = choose|padded: TensorVal, mixed: TensorVal|
        {
            &&& #[trigger] is_reflect_padded(x, 3, padded)
            &&& #[trigger] is_conv(conv_val(m.final_conv.conv), padded, mixed)
            &&& y.dims == mixed.dims
            &&& y.elems.len() == mixed.elems.len()
            &&& forall|i: int|
                0 <= i < mixed.elems.len() ==> squashed(#[trigger] mixed.elems[i], y.elems[i])
        };
    assert forall|i: int| 0 <= i < mixed.elems.len() implies {
        &&& val(y.elems[i]) * (1real + power(-val(#[trigger] mixed.elems[i]))) == 255real
        &&& 0real < val(y.elems[i]) < 255real
    } by {
        assert(mixed.elems[i] <= u32::MAX) by {
            reveal(words);
        }
        lemma_logistic(val, power, mixed.elems[i], y.elems[i]);
    }
}

} // verus!
