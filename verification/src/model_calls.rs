//! Laws of the calls on the generator and its parts: what a call's result is, for every
//! input it takes.

use candle_core::{Device, Tensor};
use vstd::prelude::*;

use crate::blocks::{
    add_opt, option_val, ref_val, reflect_pad2d, BlockShape, ConvLayer, FfcBlock, FfcBnAct,
    FourierUnit, RefPadConv, ResnetBlock, SizeBases, SpectralTransform,
};
use crate::error::WorkerError;
use crate::exact::{exact, holds_wave, law_irfft2_undoes_rfft2, sum, Wave};
use crate::fourier::{
    contract_h, idft_h, inverse_steps, irfft2, is_irfft2, is_packed, is_rfft2, mm_last, pack, rfft2,
    unpack, wave_gives, Basis, InverseSteps,
};
use crate::grid::{image_shape, ImageGrid, MaskGrid};
use crate::layers::{
    conv_val, is_conv, is_normed, is_pooled, is_spread, norm_val, transposed_conv_val,
};
use crate::layout::{chw_tensor_to_hwc, hwc_to_chw_tensor, is_tensor_image, mask_to_chw_tensor};
use crate::model_laws::{
    add_up, hands_on_positive_parts, holds_sums, law_a_run_passes_every_layer,
    law_activated_block_is_nowhere_negative, law_fourier_unit_hands_on_positive_parts,
    law_global_branch_sums_both_paths, law_identity_unit_drops_negative_bins,
    law_local_branch_sums_both_paths, law_residual_block_adds_its_input,
    law_spectral_transform_adds_its_spectrum, normalises_and_rectifies, passes_every_layer,
    takes_positive_part,
};
use crate::name_laws::{
    law_block_stands_under_its_path, law_digits_read_as_the_number, law_downsampling_blocks_follow,
    law_first_block_is_model_one, law_last_convolution_is_model_thirty_four,
    law_residual_blocks_follow, law_residual_weights_have_their_names, law_upsampling_steps_follow,
    number_of, stands_as_block, stands_as_conv, stands_as_norm, stands_as_spectral,
};
use crate::native::load_generator;
use crate::network::{CandleInpainter, UpLayer};
use crate::picture_laws::{law_tensors_hold_images_in_place, law_tensors_hold_masks_in_place};
use crate::spectrum_laws::{
    column_imag, column_real, holds_wave_at, law_bases_hold_the_waves_of_a_size,
    law_irfft2_is_the_real_inverse, law_last_axis_is_multiplied, law_rfft2_is_the_fourier_transform,
    law_third_axis_is_multiplied, lemma_column_back,
};
use crate::step_laws::{
    holds_positive_parts, law_packing_interleaves, law_padded_convolution_reflects_its_input,
    law_reflecting_mirrors_at_borders, nowhere_negative,
};
use crate::tensor::{converts_to_single, inside4, product, tensor_val, TensorVal};
use crate::weights::{decimal, digits, stored, weights_bytes, weights_path, Weights};

verus! {

/// A run of the generator passes every layer once, in order, and nothing negative comes out
/// of an upsampling step.
pub proof fn law_inpaint_passes_every_layer<T: Fn(usize, usize, usize) -> (u32, u32)>(
    m: CandleInpainter,
    image: Tensor,
    mask: Tensor,
    wave: T,
    y: Tensor,
)
    requires
        call_ensures(
            CandleInpainter::inpaint::<T>,
            (&m, &image, &mask, &wave),
            Ok::<Tensor, WorkerError>(y),
        ),
        tensor_val(image).dims[0] > 0,
    ensures
        exists|
            x: TensorVal,
            ls: Seq<TensorVal>,
            gs: Seq<Option<TensorVal>>,
            rl: Seq<TensorVal>,
            rg: Seq<TensorVal>,
            us: Seq<TensorVal>,
        | #[trigger]
            passes_every_layer(
                m,
                wave,
                tensor_val(image),
                tensor_val(mask),
                x,
                ls,
                gs,
                rl,
                rg,
                us,
                tensor_val(y),
            ),
{
    law_a_run_passes_every_layer(m, wave, tensor_val(image), tensor_val(mask), tensor_val(y));
}

/// What a loaded generator makes of pictures of `h` by `w` pixels has as many channels and
/// sides rounded up to multiples of eight, with elements from zero to 255.
pub proof fn law_inpaint_rounds_sides_up<T: Fn(usize, usize, usize) -> (u32, u32)>(
    m: CandleInpainter,
    bytes: Seq<u8>,
    image: Tensor,
    mask: Tensor,
    wave: T,
    y: Tensor,
    n: nat,
    h: nat,
    w: nat,
)
    requires
        call_ensures(
            CandleInpainter::inpaint::<T>,
            (&m, &image, &mask, &wave),
            Ok::<Tensor, WorkerError>(y),
        ),
        m.loaded(bytes),
        tensor_val(image).dims == seq![n, 3, h, w],
        tensor_val(mask).dims == seq![n, 1, h, w],
        h > 8,
        w > 16,
    ensures
        tensor_val(y).dims.len() == 4,
        tensor_val(y).dims[0] == n,
        tensor_val(y).dims[1] == 3,
        tensor_val(y).dims[2] % 8 == 0,
        h <= tensor_val(y).dims[2] < h + 8,
        tensor_val(y).dims[3] % 8 == 0,
        w <= tensor_val(y).dims[3] < w + 8,
        forall|i: int|
            0 <= i < tensor_val(y).elems.len() ==> {
                let e = #[trigger] tensor_val(y).elems[i];
                e <= 0x437f_0000 || e % 0x8000_0000 > 0x7f80_0000
            },
{
    assert(m.standard());
    assert(tensor_val(mask).dims =~= tensor_val(image).dims.update(1, 1));
    assert forall|i: int| 0 <= i < tensor_val(y).elems.len() implies {
        let e = #[trigger] tensor_val(y).elems[i];
        e <= 0x437f_0000 || e % 0x8000_0000 > 0x7f80_0000
    } by {
        assert(crate::tensor::within(tensor_val(y).elems[i], 0, crate::tensor::WHITE));
    }
}

/// A picture of no batch gives one of no batch.
pub proof fn law_inpaint_of_nothing_is_nothing<T: Fn(usize, usize, usize) -> (u32, u32)>(
    m: CandleInpainter,
    image: Tensor,
    mask: Tensor,
    wave: T,
    y: Tensor,
)
    requires
        call_ensures(
            CandleInpainter::inpaint::<T>,
            (&m, &image, &mask, &wave),
            Ok::<Tensor, WorkerError>(y),
        ),
        tensor_val(image).dims.len() == 4,
        tensor_val(image).dims[0] == 0,
    ensures
        tensor_val(mask).dims.len() == 4,
        tensor_val(mask).dims[0] == 0,
        tensor_val(y).dims.len() == 4,
        tensor_val(y).dims[0] == 0,
        tensor_val(y).elems.len() == 0,
{
    let (i, k) = (tensor_val(image), tensor_val(mask));
    if crate::network::empty_batch(i) && crate::network::empty_batch(k) {
        let t = choose|t: crate::network::BlankSteps| #[trigger]
            m.runs_empty(wave, i, k, t, tensor_val(y));
        assert(m.runs_empty(wave, i, k, t, tensor_val(y)));
    } else {
        assert(i.good());
        assert(1 <= i.dims[0]);
    }
}

/// A loaded generator has every tensor from the file, under its own name: the first block
/// under "model.1", the three that halve the sides under the numbers from 2 on, the
/// eighteen residual blocks under those from 5 on, the upsampling steps under 24, 27 and 30,
/// each with its normalisation under the next number, and the last convolution under 34.
pub proof fn law_generator_is_loaded_by_name(
    bytes: Vec<u8>,
    device: Device,
    m: CandleInpainter,
    i: int,
    j: int,
)
    requires
        call_ensures(
            CandleInpainter::from_safetensors,
            (bytes, &device),
            Ok::<CandleInpainter, WorkerError>(m),
        ),
        0 <= i < 18,
        0 <= j < 3,
    ensures
        stands_as_block(bytes@, seq!["model"@, decimal(1)], m.init, 4, 0, 64, 0, 7, 1, 0),
        m.downs@.len() == 3,
        stands_as_block(bytes@, seq!["model"@, decimal(2)], m.downs@[0], 64, 0, 128, 0, 3, 2, 1),
        stands_as_block(bytes@, seq!["model"@, decimal(3)], m.downs@[1], 128, 0, 256, 0, 3, 2, 1),
        stands_as_block(
            bytes@,
            seq!["model"@, decimal(4)],
            m.downs@[2],
            256,
            0,
            128,
            384,
            3,
            2,
            1,
        ),
        m.res@.len() == 18,
        stands_as_block(
            bytes@,
            seq!["model"@, decimal((5 + i) as nat), "conv1"@],
            m.res@[i].conv1,
            128,
            384,
            128,
            384,
            3,
            1,
            1,
        ),
        stands_as_block(
            bytes@,
            seq!["model"@, decimal((5 + i) as nat), "conv2"@],
            m.res@[i].conv2,
            128,
            384,
            128,
            384,
            3,
            1,
            1,
        ),
        number_of(decimal((5 + i) as nat)) == 5 + i,
        stored(
            bytes@,
            seq![
                "model"@,
                decimal((5 + i) as nat),
                "conv1"@,
                "ffc"@,
                "convl2l"@,
                "weight"@,
            ],
            conv_val(m.res@[i].conv1.ffc.l2l->0.layer.conv).weight.elems,
        ),
        m.up_conv@.len() == 3,
        m.up_bn@.len() == 3,
        ({
            let c = transposed_conv_val(m.up_conv@[j].conv);
            let at = decimal((24 + 3 * j) as nat);
            &&& stored(bytes@, seq!["model"@, at, "weight"@], c.weight.elems)
            &&& stored(bytes@, seq!["model"@, at, "bias"@], c.bias->0)
            &&& (c.stride, c.padding, c.output_padding) == (2nat, 1nat, 1nat)
            &&& j == 0 ==> c.weight.dims == seq![512nat, 256nat, 3nat, 3nat]
            &&& j == 1 ==> c.weight.dims == seq![256nat, 128nat, 3nat, 3nat]
            &&& j == 2 ==> c.weight.dims == seq![128nat, 64nat, 3nat, 3nat]
            &&& stands_as_norm(
                bytes@,
                seq!["model"@, decimal((25 + 3 * j) as nat)],
                m.up_bn@[j],
                c.weight.dims[1],
            )
        }),
        ({
            let c = conv_val(m.final_conv.conv);
            &&& stored(bytes@, seq!["model"@, decimal(34), "weight"@], c.weight.elems)
            &&& stored(bytes@, seq!["model"@, decimal(34), "bias"@], c.bias->0)
            &&& c.weight.dims == seq![3nat, 64nat, 7nat, 7nat]
            &&& (c.stride, c.padding, c.dilation, c.groups) == (1nat, 0nat, 1nat, 1nat)
        }),
{
    law_first_block_is_model_one(m, bytes@);
    law_downsampling_blocks_follow(m, bytes@);
    law_residual_blocks_follow(m, bytes@, i);
    law_residual_weights_have_their_names(m, bytes@, i);
    law_upsampling_steps_follow(m, bytes@, j);
    law_last_convolution_is_model_thirty_four(m, bytes@);
}

/// The generator that the worker loads is the one of its file.
pub proof fn law_worker_loads_the_same_generator(
    bytes: Vec<u8>,
    r: (CandleInpainter, Device),
    i: int,
)
    requires
        call_ensures(
            load_generator,
            (bytes,),
            Ok::<(CandleInpainter, Device), WorkerError>(r),
        ),
        0 <= i < 18,
    ensures
        r.0.res@.len() == 18,
        stands_as_block(
            bytes@,
            seq!["model"@, decimal((5 + i) as nat), "conv1"@],
            r.0.res@[i].conv1,
            128,
            384,
            128,
            384,
            3,
            1,
            1,
        ),
        stored(
            bytes@,
            seq!["model"@, decimal(34), "weight"@],
            conv_val(r.0.final_conv.conv).weight.elems,
        ),
{
    law_residual_blocks_follow(r.0, bytes@, i);
    law_last_convolution_is_model_thirty_four(r.0, bytes@);
}

/// The digits of a number read as the number, and begin with a zero for zero alone.
pub proof fn law_digits_are_decimal(n: usize, r: String)
    requires
        call_ensures(digits, (n,), r),
    ensures
        number_of(r@) == n,
        r@.len() >= 1,
        forall|i: int| 0 <= i < r@.len() ==> '0' <= #[trigger] r@[i] <= '9',
        n > 0 ==> r@[0] != '0',
{
    law_digits_read_as_the_number(n as nat);
}

/// A block is loaded from the tensors under its path. Of the channels in and out, `gin` and
/// `gout` quarters are global.
pub proof fn law_blocks_are_loaded_from_their_path(
    w: Weights,
    s: BlockShape,
    b: FfcBnAct,
)
    requires
        call_ensures(FfcBnAct::load, (w, s), Ok::<FfcBnAct, WorkerError>(b)),
        s.ok(),
    ensures
        stands_as_block(
            weights_bytes(w),
            weights_path(w),
            b,
            (s.in_ch - (s.in_ch * s.gin) / 4) as nat,
            ((s.in_ch * s.gin) / 4) as nat,
            (s.out_ch - (s.out_ch * s.gout) / 4) as nat,
            ((s.out_ch * s.gout) / 4) as nat,
            s.kernel as nat,
            s.stride as nat,
            s.pad as nat,
        ),
        b.ffc.has_gout == (s.gout > 0),
{
    law_block_stands_under_its_path(b, weights_bytes(w), weights_path(w), s);
}

/// The channels of a block split into local and global ones, `gin` and `gout` quarters of
/// them being global.
pub proof fn law_channels_split_by_quarters(s: BlockShape, r: (usize, usize, usize, usize))
    requires
        call_ensures(BlockShape::split, (&s,), r),
    ensures
        r.0 + r.1 == s.in_ch,
        r.2 + r.3 == s.out_ch,
        4 * r.1 <= s.in_ch * s.gin < 4 * r.1 + 4,
        4 * r.3 <= s.out_ch * s.gout < 4 * r.3 + 4,
{
    let (a, b) = ((s.in_ch * s.gin) as int, (s.out_ch * s.gout) as int);
    assert(0 <= a) by (nonlinear_arith)
        requires
            a == s.in_ch * s.gin,
    ;
    assert(0 <= b) by (nonlinear_arith)
        requires
            b == s.out_ch * s.gout,
    ;
}

/// Reflecting padding adds as much on each side, keeps the tensor at its place and shows
/// beyond a border what lies as far before it. More than the tensor can reflect is refused.
pub proof fn law_reflect_pad_mirrors_at_borders(
    x: Tensor,
    p: usize,
    r: Result<Tensor, WorkerError>,
    i: int,
    j: int,
    k: int,
    l: int,
    d: int,
)
    requires
        call_ensures(reflect_pad2d, (&x, p), r),
        tensor_val(x).dims.len() == 4,
        0 <= i < tensor_val(x).dims[0],
        0 <= j < tensor_val(x).dims[1],
        0 <= d <= p,
    ensures
        p >= tensor_val(x).dims[2] || p >= tensor_val(x).dims[3] ==> r is Err
            && r->Err_0 is PadTooLarge,
        r is Err && r->Err_0 is PadTooLarge ==> p >= tensor_val(x).dims[2] || p >= tensor_val(
            x,
        ).dims[3],
        r is Ok ==> {
            let (a, y) = (tensor_val(x), tensor_val(r->Ok_0));
            let (h, w) = (a.dims[2] as int, a.dims[3] as int);
            &&& y.dims == seq![
                a.dims[0],
                a.dims[1],
                a.dims[2] + 2 * p as nat,
                a.dims[3] + 2 * p as nat,
            ]
            &&& 0 <= k < h && 0 <= l < w ==> y.at4(i, j, k + p, l + p) == a.at4(i, j, k, l)
            &&& 0 <= l < y.dims[3] ==> y.at4(i, j, p - d, l) == y.at4(i, j, p + d, l)
            &&& 0 <= l < y.dims[3] ==> y.at4(i, j, p + h - 1 + d, l) == y.at4(
                i,
                j,
                p + h - 1 - d,
                l,
            )
            &&& 0 <= k < y.dims[2] ==> y.at4(i, j, k, p - d) == y.at4(i, j, k, p + d)
            &&& 0 <= k < y.dims[2] ==> y.at4(i, j, k, p + w - 1 + d) == y.at4(
                i,
                j,
                k,
                p + w - 1 - d,
            )
        },
{
    if r is Ok {
        law_reflecting_mirrors_at_borders(
            tensor_val(x),
            p as int,
            tensor_val(r->Ok_0),
            i,
            j,
            k,
            l,
            d,
        );
    }
}

/// A padded convolution convolves its input with the margin reflected, or the input itself
/// where it has no margin; a transposed one spreads its input.
pub proof fn law_layers_convolve(
    c: RefPadConv,
    x: Tensor,
    y: Tensor,
    u: UpLayer,
    v: Tensor,
    z: Tensor,
)
    requires
        call_ensures(RefPadConv::forward, (&c, &x), Ok::<Tensor, WorkerError>(y)),
        call_ensures(UpLayer::forward, (&u, &v), Ok::<Tensor, WorkerError>(z)),
    ensures
        exists|mid: TensorVal| #[trigger]
            is_conv(conv_val(c.layer.conv), mid, tensor_val(y)) && (c.pad == 0 ==> mid
                == tensor_val(x)) && (c.pad > 0 ==> crate::blocks::is_reflect_padded(
                tensor_val(x),
                c.pad as int,
                mid,
            )),
        is_spread(transposed_conv_val(u.conv), tensor_val(v), tensor_val(z)),
{
    law_padded_convolution_reflects_its_input(c, tensor_val(x), tensor_val(y));
}

/// A Fourier unit hands to the inverse transform nothing negative: of the mixed and
/// normalised spectrum the positive parts, real and imaginary.
pub proof fn law_unit_forward_hands_on_positive_parts<T: Fn(usize, usize, usize) -> (u32, u32)>(
    u: FourierUnit,
    x: Tensor,
    wave: T,
    y: Tensor,
)
    requires
        call_ensures(FourierUnit::forward::<T>, (&u, &x, &wave), Ok::<Tensor, WorkerError>(y)),
    ensures
        tensor_val(y).dims == tensor_val(x).dims,
        exists|
            bases: SizeBases,
            re: TensorVal,
            im: TensorVal,
            packed: TensorVal,
            mixed: TensorVal,
            normed: TensorVal,
            yr: TensorVal,
            yi: TensorVal,
        |
            {
                &&& bases.made_for(
                    wave,
                    tensor_val(x).dims[2] as usize,
                    tensor_val(x).dims[3] as usize,
                )
                &&& is_rfft2(tensor_val(x), bases.bh, bases.bw, re, im)
                &&& #[trigger] is_packed(re, im, packed)
                &&& #[trigger] is_conv(conv_val(u.conv.conv), packed, mixed)
                &&& #[trigger] is_normed(norm_val(u.bn), mixed, normed)
                &&& hands_on_positive_parts(normed, yr, yi)
                &&& #[trigger] is_irfft2(
                    yr,
                    yi,
                    bases.bwf,
                    bases.bh,
                    tensor_val(x).dims[3],
                    tensor_val(y),
                )
            },
{
    law_fourier_unit_hands_on_positive_parts(u, wave, tensor_val(x), tensor_val(y));
}

/// A Fourier unit whose convolution and normalisation change nothing gives the inverse
/// transform of the spectrum of its input with every negative bin set to zero.
pub proof fn law_identity_unit_forward_drops_negative_bins<
    T: Fn(usize, usize, usize) -> (u32, u32),
>(u: FourierUnit, x: Tensor, wave: T, y: Tensor)
    requires
        forall|a: TensorVal, b: TensorVal| #[trigger]
            is_conv(conv_val(u.conv.conv), a, b) ==> b.elems == a.elems && b.dims == a.dims,
        forall|a: TensorVal, b: TensorVal| #[trigger]
            is_normed(norm_val(u.bn), a, b) ==> b.elems == a.elems && b.dims == a.dims,
        call_ensures(FourierUnit::forward::<T>, (&u, &x, &wave), Ok::<Tensor, WorkerError>(y)),
    ensures
        exists|
            bases: SizeBases,
            re: TensorVal,
            im: TensorVal,
            yr: TensorVal,
            yi: TensorVal,
        |
            {
                &&& bases.made_for(
                    wave,
                    tensor_val(x).dims[2] as usize,
                    tensor_val(x).dims[3] as usize,
                )
                &&& #[trigger] is_rfft2(tensor_val(x), bases.bh, bases.bw, re, im)
                &&& (yr.dims, yi.dims) == (re.dims, im.dims)
                &&& forall|i: int, j: int, k: int, l: int|
                    #![trigger yr.at4(i, j, k, l)]
                    #![trigger yi.at4(i, j, k, l)]
                    inside4(yr.dims, i, j, k, l) ==> takes_positive_part(
                        re.at4(i, j, k, l),
                        yr.at4(i, j, k, l),
                    ) && takes_positive_part(im.at4(i, j, k, l), yi.at4(i, j, k, l))
                &&& #[trigger] is_irfft2(
                    yr,
                    yi,
                    bases.bwf,
                    bases.bh,
                    tensor_val(x).dims[3],
                    tensor_val(y),
                )
            },
{
    law_identity_unit_drops_negative_bins(u, wave, tensor_val(x), tensor_val(y));
}

/// A spectral transform adds to its narrowed and rectified input what the Fourier unit makes
/// of it, and widens the sum.
pub proof fn law_spectral_forward_adds_its_spectrum<T: Fn(usize, usize, usize) -> (u32, u32)>(
    s: SpectralTransform,
    x: Tensor,
    wave: T,
    y: Tensor,
)
    requires
        call_ensures(
            SpectralTransform::forward::<T>,
            (&s, &x, &wave),
            Ok::<Tensor, WorkerError>(y),
        ),
    ensures
        exists|
            pooled: TensorVal,
            narrowed: TensorVal,
            normed: TensorVal,
            active: TensorVal,
            unit: TensorVal,
            total: TensorVal,
        |
            {
                &&& s.avgpool ==> is_pooled(tensor_val(x), pooled)
                &&& !s.avgpool ==> pooled == tensor_val(x)
                &&& #[trigger] is_conv(conv_val(s.conv1.conv), pooled, narrowed)
                &&& #[trigger] is_normed(norm_val(s.bn1), narrowed, normed)
                &&& holds_positive_parts(normed, active)
                &&& nowhere_negative(active)
                &&& #[trigger] s.fu.runs(wave, active, unit)
                &&& holds_sums(active, unit, total)
                &&& #[trigger] is_conv(conv_val(s.conv2.conv), total, tensor_val(y))
            },
{
    law_spectral_transform_adds_its_spectrum(s, wave, tensor_val(x), tensor_val(y));
}

/// The branches of a block: the local one sums what the local and the global input
/// contribute to it through their convolutions, the global one what the local input
/// contributes through a convolution and the global one through the spectral transform.
pub proof fn law_block_forward_sums_both_paths<T: Fn(usize, usize, usize) -> (u32, u32)>(
    b: FfcBlock,
    xl: Tensor,
    xg: Option<&Tensor>,
    wave: T,
    r: (Option<Tensor>, Option<Tensor>),
)
    requires
        call_ensures(
            FfcBlock::forward::<T>,
            (&b, &xl, xg, &wave),
            Ok::<(Option<Tensor>, Option<Tensor>), WorkerError>(r),
        ),
    ensures
        b.l2l is Some || b.g2l is Some || !b.has_gout ==> exists|
            ll: Option<TensorVal>,
            gl: Option<TensorVal>,
        |
            {
                &&& #[trigger] add_up(ll, gl, option_val(r.0))
                &&& (ll is Some) == (b.l2l is Some)
                &&& (gl is Some) == (b.g2l is Some && xg is Some)
                &&& ll is Some ==> b.l2l->0.runs(tensor_val(xl), ll->0)
                &&& gl is Some ==> b.g2l->0.runs(tensor_val(*xg->0), gl->0)
            },
        b.l2l is None && b.g2l is None ==> r.0 is None,
        b.has_gout ==> exists|lg: Option<TensorVal>, gg: Option<TensorVal>|
            {
                &&& #[trigger] add_up(lg, gg, option_val(r.1))
                &&& (lg is Some) == (b.l2g is Some)
                &&& (gg is Some) == (b.g2g is Some && xg is Some)
                &&& lg is Some ==> b.l2g->0.runs(tensor_val(xl), lg->0)
                &&& gg is Some ==> b.g2g->0.runs(wave, tensor_val(*xg->0), gg->0)
            },
        !b.has_gout ==> r.1 is None,
{
    let (l, g) = (option_val(r.0), option_val(r.1));
    law_local_branch_sums_both_paths(b, wave, tensor_val(xl), ref_val(xg), l, g);
    law_global_branch_sums_both_paths(b, wave, tensor_val(xl), ref_val(xg), l, g);
}

/// An activated block runs its convolutions, normalises each branch by its own statistics
/// and leaves nothing negative.
pub proof fn law_active_forward_is_nowhere_negative<T: Fn(usize, usize, usize) -> (u32, u32)>(
    b: FfcBnAct,
    xl: Tensor,
    xg: Option<&Tensor>,
    wave: T,
    r: (Option<Tensor>, Option<Tensor>),
)
    requires
        call_ensures(
            FfcBnAct::forward::<T>,
            (&b, &xl, xg, &wave),
            Ok::<(Option<Tensor>, Option<Tensor>), WorkerError>(r),
        ),
    ensures
        exists|ol: Option<TensorVal>, og: Option<TensorVal>|
            {
                &&& #[trigger] b.ffc.runs(wave, tensor_val(xl), ref_val(xg), ol, og)
                &&& normalises_and_rectifies(b.bn_l, ol, option_val(r.0))
                &&& normalises_and_rectifies(b.bn_g, og, option_val(r.1))
            },
        r.0 is Some ==> nowhere_negative(tensor_val(r.0->0)),
        r.1 is Some ==> nowhere_negative(tensor_val(r.1->0)),
{
    law_activated_block_is_nowhere_negative(
        b,
        wave,
        tensor_val(xl),
        ref_val(xg),
        option_val(r.0),
        option_val(r.1),
    );
}

/// A residual block adds to its input what its two halves make of it, branch by branch.
pub proof fn law_residual_forward_adds_its_input<T: Fn(usize, usize, usize) -> (u32, u32)>(
    b: ResnetBlock,
    xl: Tensor,
    xg: Tensor,
    wave: T,
    r: (Tensor, Tensor),
)
    requires
        call_ensures(
            ResnetBlock::forward::<T>,
            (&b, &xl, &xg, &wave),
            Ok::<(Tensor, Tensor), WorkerError>(r),
        ),
    ensures
        exists|l1: TensorVal, g1: TensorVal, l2: TensorVal, g2: TensorVal|
            {
                &&& #[trigger] b.conv1.runs(
                    wave,
                    tensor_val(xl),
                    Some(tensor_val(xg)),
                    Some(l1),
                    Some(g1),
                )
                &&& #[trigger] b.conv2.runs(wave, l1, Some(g1), Some(l2), Some(g2))
                &&& nowhere_negative(l2)
                &&& nowhere_negative(g2)
                &&& holds_sums(tensor_val(xl), l2, tensor_val(r.0))
                &&& holds_sums(tensor_val(xg), g2, tensor_val(r.1))
            },
{
    law_residual_block_adds_its_input(
        b,
        wave,
        tensor_val(xl),
        tensor_val(xg),
        tensor_val(r.0),
        tensor_val(r.1),
    );
}

/// The bases for a picture of `h` rows and `w` columns hold the waves of those lengths.
pub proof fn law_bases_are_made_for_their_size<T: Fn(usize, usize, usize) -> (u32, u32)>(
    h: usize,
    w: usize,
    wave: T,
    device: Device,
    b: SizeBases,
    k: usize,
    j: usize,
)
    requires
        call_ensures(
            FourierUnit::bases_for::<T>,
            (h, w, &wave, &device),
            Ok::<SizeBases, WorkerError>(b),
        ),
    ensures
        tensor_val(b.bh.c).dims == seq![h as nat, h as nat],
        tensor_val(b.bw.c).dims == seq![(w / 2 + 1) as nat, w as nat],
        tensor_val(b.bwf.c).dims == seq![w as nat, w as nat],
        k < h && j < h ==> holds_wave_at(b.bh, wave, k, j, h),
        k <= w / 2 && j < w ==> holds_wave_at(b.bw, wave, k, j, w),
        k < w && j < w ==> holds_wave_at(b.bwf, wave, k, j, w),
{
    law_bases_hold_the_waves_of_a_size(b, wave, h, w, k, j);
}

/// A basis holds what the wave function gives for its row, its column and its length; the
/// full one has as many rows as columns, the one-sided one the rows up to the middle.
pub proof fn law_bases_hold_their_waves<T: Fn(usize, usize, usize) -> (u32, u32)>(
    rows: usize,
    n: usize,
    wave: T,
    device: Device,
    any: Basis,
    full: Basis,
    half: Basis,
    k: usize,
    j: usize,
)
    requires
        call_ensures(Basis::build::<T>, (rows, n, &wave, &device), Ok::<Basis, WorkerError>(any)),
        call_ensures(Basis::full::<T>, (n, &wave, &device), Ok::<Basis, WorkerError>(full)),
        call_ensures(Basis::onesided::<T>, (n, &wave, &device), Ok::<Basis, WorkerError>(half)),
        j < n,
    ensures
        tensor_val(any.c).dims == seq![rows as nat, n as nat],
        tensor_val(any.s).dims == seq![rows as nat, n as nat],
        tensor_val(full.c).dims == seq![n as nat, n as nat],
        tensor_val(half.c).dims == seq![(n / 2 + 1) as nat, n as nat],
        k < rows ==> holds_wave_at(any, wave, k, j, n),
        k < n ==> holds_wave_at(full, wave, k, j, n),
        k <= n / 2 ==> holds_wave_at(half, wave, k, j, n),
{
    let (k2, j2) = (k as int, j as int);
    if k < rows {
        assert(wave_gives(
            wave,
            (k, j, n),
            tensor_val(any.c).at2(k2, j2),
            tensor_val(any.s).at2(k2, j2),
        ));
    }
    if k < n {
        assert(wave_gives(
            wave,
            (k, j, n),
            tensor_val(full.c).at2(k2, j2),
            tensor_val(full.s).at2(k2, j2),
        ));
    }
    if k <= n / 2 {
        assert(wave_gives(
            wave,
            (k, j, n),
            tensor_val(half.c).at2(k2, j2),
            tensor_val(half.s).at2(k2, j2),
        ));
    }
}

/// In exact arithmetic the two products are matrix products along the last and along the
/// third axis.
pub proof fn law_products_contract_their_axis(
    val: spec_fn(u64) -> real,
    x: Tensor,
    m: Tensor,
    y: Tensor,
    z: Tensor,
    r: int,
    i: int,
    j: int,
    k: int,
    l: int,
)
    requires
        exact(val),
        call_ensures(mm_last, (&x, &m), Ok::<Tensor, WorkerError>(y)),
        call_ensures(contract_h, (&x, &m), Ok::<Tensor, WorkerError>(z)),
        tensor_val(m).dims.len() == 2,
        0 <= r < product(tensor_val(x).dims.drop_last()),
        0 <= k < tensor_val(m).dims[0],
        0 <= i < tensor_val(x).dims[0],
        0 <= j < tensor_val(x).dims[1],
        0 <= l < tensor_val(x).dims[3],
    ensures
        ({
            let (a, b) = (tensor_val(x), tensor_val(m));
            &&& val(tensor_val(y).elems[r * b.dims[0] + k]) == sum(
                a.dims[3] as int,
                |t: int| val(a.elems[r * a.dims[3] + t]) * val(b.elems[k * b.dims[1] + t]),
            )
            &&& k < b.dims[1] ==> val(tensor_val(z).at4(i, j, k, l)) == sum(
                a.dims[2] as int,
                |t: int| val(a.at4(i, j, t, l)) * val(b.at2(t, k)),
            )
        }),
{
    law_last_axis_is_multiplied(val, tensor_val(x), tensor_val(m), tensor_val(y), r, k);
    if k < tensor_val(m).dims[1] {
        law_third_axis_is_multiplied(
            val,
            tensor_val(x),
            tensor_val(m),
            tensor_val(z),
            i,
            j,
            k,
            l,
        );
    }
}

/// In exact arithmetic the transform is the discrete Fourier transform.
pub proof fn law_rfft2_transforms(
    val: spec_fn(u64) -> real,
    x: Tensor,
    bh: Basis,
    bw: Basis,
    wh: Wave,
    ww: Wave,
    r: (Tensor, Tensor),
    bins: int,
    i: int,
    j: int,
    k: int,
    u: int,
)
    requires
        exact(val),
        call_ensures(rfft2, (&x, &bh, &bw), Ok::<(Tensor, Tensor), WorkerError>(r)),
        holds_wave(val, bh, wh.n, wh),
        holds_wave(val, bw, bins, ww),
        0 <= i < tensor_val(x).dims[0],
        0 <= j < tensor_val(x).dims[1],
        0 <= k < wh.n,
        0 <= u < bins,
    ensures
        val(tensor_val(r.0).at4(i, j, k, u)) == sum(
            ww.n,
            |l: int|
                sum(
                    wh.n,
                    |t: int|
                        val(tensor_val(x).at4(i, j, t, l)) * (wh.cos(k, t) * ww.cos(u, l) - wh.sin(
                            k,
                            t,
                        ) * ww.sin(u, l)),
                ),
        ),
        val(tensor_val(r.1).at4(i, j, k, u)) == -sum(
            ww.n,
            |l: int|
                sum(
                    wh.n,
                    |t: int|
                        val(tensor_val(x).at4(i, j, t, l)) * (wh.sin(k, t) * ww.cos(u, l) + wh.cos(
                            k,
                            t,
                        ) * ww.sin(u, l)),
                ),
        ),
{
    law_rfft2_is_the_fourier_transform(
        val,
        tensor_val(x),
        bh,
        bw,
        wh,
        ww,
        bins,
        tensor_val(r.0),
        tensor_val(r.1),
        i,
        j,
        k,
        u,
    );
}

/// In exact arithmetic the inverse is that of a real picture, for every spectrum.
pub proof fn law_irfft2_transforms_back(
    val: spec_fn(u64) -> real,
    re: Tensor,
    im: Tensor,
    bwf: Basis,
    bh: Basis,
    w: usize,
    wh: Wave,
    ww: Wave,
    y: Tensor,
    i: int,
    j: int,
    n: int,
    v: int,
)
    requires
        exact(val),
        call_ensures(irfft2, (&re, &im, &bwf, &bh, w), Ok::<Tensor, WorkerError>(y)),
        tensor_val(re).dims.len() == 4,
        tensor_val(im).dims == tensor_val(re).dims,
        tensor_val(re).dims[2] == wh.n,
        tensor_val(re).dims[3] == w / 2 + 1,
        w == ww.n,
        holds_wave(val, bh, wh.n, wh),
        holds_wave(val, bwf, ww.n, ww),
        0 <= i < tensor_val(re).dims[0],
        0 <= j < tensor_val(re).dims[1],
        0 <= n < wh.n,
        0 <= v < ww.n,
    ensures
        val(tensor_val(y).at4(i, j, n, v)) == sum(
            ww.n,
            |u: int|
                (if 2 * u <= ww.n {
                    column_real(val, tensor_val(re), tensor_val(im), wh, i, j, n, u)
                } else {
                    column_real(val, tensor_val(re), tensor_val(im), wh, i, j, n, ww.n - u)
                }) * ww.cos(v, u),
        ) - sum(
            ww.n,
            |u: int|
                (if u == 0 || 2 * u == ww.n {
                    0real
                } else if 2 * u < ww.n {
                    column_imag(val, tensor_val(re), tensor_val(im), wh, i, j, n, u)
                } else {
                    -column_imag(val, tensor_val(re), tensor_val(im), wh, i, j, n, ww.n - u)
                }) * ww.sin(v, u),
        ),
{
    law_irfft2_is_the_real_inverse(
        val,
        tensor_val(re),
        tensor_val(im),
        bwf,
        bh,
        wh,
        ww,
        tensor_val(y),
        i,
        j,
        n,
        v,
    );
}

/// In exact arithmetic the inverse of the transform of a picture is the picture.
pub proof fn law_irfft2_after_rfft2_gives_back(
    val: spec_fn(u64) -> real,
    x: Tensor,
    bh: Basis,
    bw: Basis,
    bwf: Basis,
    w: usize,
    wh: Wave,
    ww: Wave,
    r: (Tensor, Tensor),
    y: Tensor,
    i: int,
    j: int,
    k: int,
    l: int,
)
    requires
        exact(val),
        wh.ok(),
        ww.ok(),
        call_ensures(rfft2, (&x, &bh, &bw), Ok::<(Tensor, Tensor), WorkerError>(r)),
        call_ensures(irfft2, (&r.0, &r.1, &bwf, &bh, w), Ok::<Tensor, WorkerError>(y)),
        w == ww.n,
        holds_wave(val, bh, wh.n, wh),
        holds_wave(val, bw, ww.n / 2 + 1, ww),
        holds_wave(val, bwf, ww.n, ww),
        0 <= i < tensor_val(x).dims[0],
        0 <= j < tensor_val(x).dims[1],
        0 <= k < tensor_val(x).dims[2],
        0 <= l < tensor_val(x).dims[3],
    ensures
        val(tensor_val(y).at4(i, j, k, l)) == val(tensor_val(x).at4(i, j, k, l)),
{
    law_irfft2_undoes_rfft2(
        val,
        tensor_val(x),
        bh,
        bw,
        bwf,
        wh,
        ww,
        tensor_val(r.0),
        tensor_val(r.1),
        tensor_val(y),
        i,
        j,
        k,
        l,
    );
}

/// Packing puts the real part of channel `j` at channel `2 * j` and the imaginary part after
/// it, and unpacking reads them from there.
pub proof fn law_pack_interleaves_and_unpack_parts(
    re: Tensor,
    im: Tensor,
    packed: Tensor,
    r: (Tensor, Tensor),
    i: int,
    j: int,
    k: int,
    l: int,
)
    requires
        call_ensures(pack, (&re, &im), Ok::<Tensor, WorkerError>(packed)),
        call_ensures(unpack, (&packed,), Ok::<(Tensor, Tensor), WorkerError>(r)),
        0 <= i < tensor_val(re).dims[0],
        0 <= j < tensor_val(re).dims[1],
        0 <= k < tensor_val(re).dims[2],
        0 <= l < tensor_val(re).dims[3],
    ensures
        tensor_val(packed).dims == seq![
            tensor_val(re).dims[0],
            2 * tensor_val(re).dims[1],
            tensor_val(re).dims[2],
            tensor_val(re).dims[3],
        ],
        tensor_val(packed).at4(i, 2 * j, k, l) == tensor_val(re).at4(i, j, k, l),
        tensor_val(packed).at4(i, 2 * j + 1, k, l) == tensor_val(im).at4(i, j, k, l),
        tensor_val(r.0).at4(i, j, k, l) == tensor_val(re).at4(i, j, k, l),
        tensor_val(r.1).at4(i, j, k, l) == tensor_val(im).at4(i, j, k, l),
{
    let p = tensor_val(packed);
    law_packing_interleaves(
        tensor_val(re),
        tensor_val(im),
        p,
        p,
        tensor_val(r.0),
        tensor_val(r.1),
        i,
        j,
        k,
        l,
    );
}

/// A picture and a mask go into tensors and a picture comes out of one with row and column
/// as the last two axes: the sample of channel `c` stands at `(c * h + y) * w + x`, a flag
/// as one or zero at `y * w + x`.
pub proof fn law_tensors_keep_places<U: Fn(u32) -> u32>(
    g: ImageGrid,
    m: MaskGrid,
    v: Tensor,
    unscale: U,
    device: Device,
    t: Tensor,
    f: Tensor,
    r: ImageGrid,
    y: usize,
    x: usize,
    c: usize,
)
    requires
        call_ensures(hwc_to_chw_tensor, (&g, &device), Ok::<Tensor, WorkerError>(t)),
        call_ensures(mask_to_chw_tensor, (&m, &device), Ok::<Tensor, WorkerError>(f)),
        call_ensures(
            chw_tensor_to_hwc::<U>,
            (&v, &unscale),
            Ok::<ImageGrid, WorkerError>(r),
        ),
        tensor_val(v).single,
    ensures
        tensor_val(t).dims == seq![1, g.c(), g.h(), g.w()],
        y < g.h() && x < g.w() && c < g.c() ==> tensor_val(t).elems[(c * g.h() + y) * g.w() + x]
            == g.at(y as int, x as int, c as int),
        tensor_val(f).dims == seq![1, 1, m.h(), m.w()],
        m.holds(y as int, x as int) && m.at(y as int, x as int) ==> tensor_val(f).elems[y * m.w()
            + x] == 0x3f80_0000,
        m.holds(y as int, x as int) && !m.at(y as int, x as int) ==> tensor_val(f).elems[y * m.w()
            + x] == 0,
        ({
            let d = tensor_val(v).dims;
            &&& d.len() == 4 && d[0] == 1 && d[1] == 3
            &&& image_shape(r) == (d[2], d[3], 3nat)
            &&& y < d[2] && x < d[3] && c < 3 ==> call_ensures(
                unscale,
                (tensor_val(v).at4(0, c as int, y as int, x as int) as u32,),
                r.at(y as int, x as int, c as int),
            )
        }),
{
    let d = tensor_val(v).dims;
    if y < g.h() && x < g.w() && c < g.c() {
        assert(g.holds(y as int, x as int, c as int));
        assert(tensor_val(t).at4(0, c as int, y as int, x as int) == g.at(
            y as int,
            x as int,
            c as int,
        ));
    }
    if m.holds(y as int, x as int) {
        law_tensors_hold_masks_in_place(m, tensor_val(f), y as int, x as int);
    }
    if y < d[2] && x < d[3] && c < 3 {
        let s = choose|s: TensorVal| #[trigger]
            converts_to_single(tensor_val(v), s) && is_tensor_image(unscale, s, r);
        law_tensors_hold_images_in_place(unscale, g, tensor_val(t), s, r, y, x, c);
    }
}

/// Layers are loaded from the tensors under their path, with the shape that was asked for:
/// a convolution without and one with a bias, a padded one and a transposed one.
pub proof fn law_layers_are_loaded_from_their_path(
    n_in: usize,
    n_out: usize,
    kernel: usize,
    stride: usize,
    pad: usize,
    wider: usize,
    w: Weights,
    a: ConvLayer,
    b: ConvLayer,
    c: RefPadConv,
    u: UpLayer,
)
    requires
        call_ensures(
            ConvLayer::load,
            (n_in, n_out, kernel, stride, w),
            Ok::<ConvLayer, WorkerError>(a),
        ),
        call_ensures(
            ConvLayer::load_biased,
            (n_in, n_out, kernel, w),
            Ok::<ConvLayer, WorkerError>(b),
        ),
        call_ensures(
            RefPadConv::load,
            (pad, n_in, n_out, kernel, stride, w),
            Ok::<RefPadConv, WorkerError>(c),
        ),
        call_ensures(
            UpLayer::load,
            (n_in, n_out, kernel, stride, pad, wider, w),
            Ok::<UpLayer, WorkerError>(u),
        ),
    ensures
        ({
            let (file, at) = (weights_bytes(w), weights_path(w));
            let (i, o, k, s) = (n_in as nat, n_out as nat, kernel as nat, stride as nat);
            let (v, t) = (conv_val(b.conv), transposed_conv_val(u.conv));
            &&& stands_as_conv(file, at, a.conv, i, o, k, s)
            &&& c.pad == pad
            &&& stands_as_conv(file, at, c.layer.conv, i, o, k, s)
            &&& stored(file, at.push("weight"@), v.weight.elems)
            &&& stored(file, at.push("bias"@), v.bias->0)
            &&& v.weight.dims == seq![o, i, k, k]
            &&& (v.stride, v.padding, v.dilation, v.groups) == (1nat, 0nat, 1nat, 1nat)
            &&& stored(file, at.push("weight"@), t.weight.elems)
            &&& stored(file, at.push("bias"@), t.bias->0)
            &&& t.weight.dims == seq![i, o, k, k]
            &&& (t.stride, t.padding, t.output_padding) == (s, pad as nat, wider as nat)
        }),
{
}

/// A Fourier unit, a spectral transform and a residual block are loaded from the tensors
/// under their path.
pub proof fn law_units_are_loaded_from_their_path(
    w: Weights,
    ch: usize,
    n_in: usize,
    n_out: usize,
    stride: usize,
    dim: usize,
    gin: usize,
    gout: usize,
    u: FourierUnit,
    t: SpectralTransform,
    b: ResnetBlock,
)
    requires
        call_ensures(FourierUnit::load, (w, ch), Ok::<FourierUnit, WorkerError>(u)),
        call_ensures(
            SpectralTransform::load,
            (w, n_in, n_out, stride),
            Ok::<SpectralTransform, WorkerError>(t),
        ),
        call_ensures(
            ResnetBlock::load,
            (w, dim, gin, gout),
            Ok::<ResnetBlock, WorkerError>(b),
        ),
        ResnetBlock::shape(dim, gin, gout).ok(),
    ensures
        ({
            let (file, at) = (weights_bytes(w), weights_path(w));
            let c = 2 * ch as nat;
            let ig = ((dim * gin) / 4) as nat;
            let og = ((dim * gout) / 4) as nat;
            let (il, ol) = ((dim - ig) as nat, (dim - og) as nat);
            &&& stands_as_conv(file, at.push("conv_layer"@), u.conv.conv, c, c, 1, 1)
            &&& stands_as_norm(file, at.push("bn"@), u.bn, c)
            &&& stands_as_spectral(file, at, t, n_in as nat, n_out as nat, stride as nat)
            &&& stands_as_block(file, at.push("conv1"@), b.conv1, il, ig, ol, og, 3, 1, 1)
            &&& stands_as_block(file, at.push("conv2"@), b.conv2, il, ig, ol, og, 3, 1, 1)
        }),
{
    let (file, at) = (weights_bytes(w), weights_path(w));
    let shape = ResnetBlock::shape(dim, gin, gout);
    law_block_stands_under_its_path(b.conv1, file, at.push("conv1"@), shape);
    law_block_stands_under_its_path(b.conv2, file, at.push("conv2"@), shape);
}

/// Two branches that are there add up; one alone is passed on.
pub proof fn law_branches_add_up(a: Option<Tensor>, b: Option<Tensor>, r: Option<Tensor>)
    requires
        call_ensures(add_opt, (a, b), Ok::<Option<Tensor>, WorkerError>(r)),
    ensures
        add_up(option_val(a), option_val(b), option_val(r)),
        a is Some && b is Some ==> r is Some && holds_sums(
            tensor_val(a->0),
            tensor_val(b->0),
            tensor_val(r->0),
        ),
{
}

/// A convolution layer convolves its input.
pub proof fn law_convolution_layers_convolve(c: ConvLayer, x: Tensor, y: Tensor)
    requires
        call_ensures(ConvLayer::forward, (&c, &x), Ok::<Tensor, WorkerError>(y)),
    ensures
        is_conv(conv_val(c.conv), tensor_val(x), tensor_val(y)),
        c.kernel <= tensor_val(x).dims[2],
        c.kernel <= tensor_val(x).dims[3],
{
}

/// In exact arithmetic the transform back along the rows turns each column of a spectrum
/// back: its real part from the real cosines less the imaginary sines, its imaginary part
/// from the imaginary cosines and the real sines.
pub proof fn law_idft_h_turns_columns_back(
    val: spec_fn(u64) -> real,
    re: Tensor,
    im: Tensor,
    b: Basis,
    w: Wave,
    r: (Tensor, Tensor),
    i: int,
    j: int,
    n: int,
    u: int,
)
    requires
        exact(val),
        call_ensures(idft_h, (&re, &im, &b), Ok::<(Tensor, Tensor), WorkerError>(r)),
        tensor_val(re).dims.len() == 4,
        tensor_val(im).dims == tensor_val(re).dims,
        tensor_val(re).dims[2] == w.n,
        holds_wave(val, b, w.n, w),
        0 <= i < tensor_val(re).dims[0],
        0 <= j < tensor_val(re).dims[1],
        0 <= n < w.n,
        0 <= u < tensor_val(re).dims[3],
    ensures
        val(tensor_val(r.0).at4(i, j, n, u)) == column_real(
            val,
            tensor_val(re),
            tensor_val(im),
            w,
            i,
            j,
            n,
            u,
        ),
        val(tensor_val(r.1).at4(i, j, n, u)) == column_imag(
            val,
            tensor_val(re),
            tensor_val(im),
            w,
            i,
            j,
            n,
            u,
        ),
{
    let (a, c, hr, hi) = (tensor_val(re), tensor_val(im), tensor_val(r.0), tensor_val(r.1));
    let s = choose|s: InverseSteps| #[trigger] inverse_steps(a, c, b, s, hr, hi);
    assert(inverse_steps(a, c, b, s, hr, hi));
    lemma_column_back(val, a, c, b, w, s, hr, hi, i, j, n, u);
}

} // verus!
