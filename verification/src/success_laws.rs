//! Laws of success: on which inputs a call gives a result, and which error it gives on the
//! others.

use candle_core::{Device, Tensor};
use vstd::prelude::*;

use crate::blocks::{reflect_pad2d, FourierUnit, RefPadConv};
use crate::error::WorkerError;
use crate::fourier::{irfft2, pack, rfft2, unpack, Basis};
use crate::grid::ImageGrid;
use crate::layers::{conv_val, norm_val};
use crate::layout::{chw_tensor_to_hwc, hwc_to_chw_tensor};
use crate::native::{load_generator, plan_region, run_candle_inpaint, PadPlan};
use crate::network::CandleInpainter;
use crate::resize::Sampler;
use crate::roi::RoiInfo;
use crate::session::{check_session, paste_output, SessionOutput};
use crate::tensor::{
    count_fits, elem_count, inside4, is_cpu, join, shape2, shape4, sum_held, tensor_val,
};
use crate::weights::{decimal, held, readable, weights_bytes, weights_path, Weights};

verus! {

/// A loaded generator on the CPU fills every region on it, as long as the scaling keeps the
/// sides at 1024 or less.
pub proof fn law_native_runs_succeed<
    S: Fn(usize, usize, usize) -> i64,
    W: Fn(usize, usize, usize, usize) -> u32,
    B: Fn(u32, u32, u32, u32, u32, u32) -> u32,
    F: Fn(usize, usize) -> usize,
    U: Fn(u32) -> u32,
    T: Fn(usize, usize, usize) -> (u32, u32),
>(
    bytes: Vec<u8>,
    model: CandleInpainter,
    device: Device,
    image: ImageGrid,
    roi: RoiInfo,
    sampler: Sampler<S, W, B>,
    scaled: F,
    unscale: U,
    wave: T,
    r: Result<ImageGrid, WorkerError>,
)
    requires
        call_ensures(
            run_candle_inpaint::<S, W, B, F, U, T>,
            (&model, &device, &image, &roi, &sampler, &scaled, &unscale, &wave),
            r,
        ),
        call_ensures(
            load_generator,
            (bytes,),
            Ok::<(CandleInpainter, Device), WorkerError>((model, device)),
        ),
        forall|n: usize, longest: usize, raw: usize| #[trigger]
            call_ensures(scaled, (n, longest), raw) && n <= longest && longest > 1024 ==> raw
                <= 1024,
    ensures
        r is Ok,
{
    assert(model.standard());
}

/// A loaded generator on the CPU takes every picture on it of more than 8 by 16 pixels that
/// memory can hold in 64 channels with its sides rounded up and a margin of three.
pub proof fn law_inpaint_succeeds<T: Fn(usize, usize, usize) -> (u32, u32)>(
    bytes: Vec<u8>,
    device: Device,
    m: CandleInpainter,
    image: Tensor,
    mask: Tensor,
    wave: T,
    r: Result<Tensor, WorkerError>,
    n: nat,
    h: nat,
    w: nat,
    hh: nat,
    ww: nat,
)
    requires
        call_ensures(CandleInpainter::inpaint::<T>, (&m, &image, &mask, &wave), r),
        call_ensures(
            CandleInpainter::from_safetensors,
            (bytes, &device),
            Ok::<CandleInpainter, WorkerError>(m),
        ),
        is_cpu(device),
        tensor_val(image).good(),
        tensor_val(mask).good(),
        tensor_val(image).cpu,
        tensor_val(mask).cpu,
        tensor_val(image).dims == seq![n, 3, h, w],
        tensor_val(mask).dims == seq![n, 1, h, w],
        h > 8,
        w > 16,
        hh % 8 == 0,
        ww % 8 == 0,
        h <= hh < h + 8,
        w <= ww < w + 8,
        4 * (64 * n * (hh + 6) * (ww + 6)) <= isize::MAX,
        4 * (hh * hh) <= isize::MAX,
        4 * (ww * ww) <= isize::MAX,
    ensures
        r is Ok,
{
    assert(m.standard());
    assert(tensor_val(mask).dims =~= tensor_val(image).dims.update(1, 1));
    assert(1 <= tensor_val(image).dims[0]);
    assert(8 * crate::network::eighth(h) == hh);
    assert(8 * crate::network::eighth(w) == ww);
}

/// Tensors that are no pictures of 32-bit floats along four axes are refused.
pub proof fn law_inpaint_refuses_other_tensors<T: Fn(usize, usize, usize) -> (u32, u32)>(
    m: CandleInpainter,
    image: Tensor,
    mask: Tensor,
    wave: T,
    r: Result<Tensor, WorkerError>,
)
    requires
        call_ensures(CandleInpainter::inpaint::<T>, (&m, &image, &mask, &wave), r),
    ensures
        tensor_val(image).dims.len() != 4 ==> r is Err && r->Err_0 is Rank,
        tensor_val(image).dims.len() == 4 && !tensor_val(image).single ==> r is Err
            && r->Err_0 is NotAnImage,
        tensor_val(image).good() && tensor_val(image).dims.len() == 4 && tensor_val(
            mask,
        ).dims.len() != 4 ==> r is Err && r->Err_0 is Rank,
        tensor_val(image).good() && tensor_val(image).dims.len() == 4 && tensor_val(
            mask,
        ).dims.len() == 4 && !tensor_val(mask).single ==> r is Err && r->Err_0 is NotAnImage,
{
    if tensor_val(image).good() && tensor_val(image).dims.len() == 4 {
        assert(1 <= tensor_val(image).dims[0]);
    }
}

/// The file holds the weight of a convolution under the path.
pub open spec fn holds_conv(
    bytes: Seq<u8>,
    at: Seq<Seq<char>>,
    n_in: nat,
    n_out: nat,
    kernel: nat,
) -> bool {
    held(bytes, at.push("weight"@), seq![n_out, n_in, kernel, kernel])
}

/// The file holds the tensors of a normalisation under the path.
pub open spec fn holds_norm(bytes: Seq<u8>, at: Seq<Seq<char>>, n: nat) -> bool {
    &&& held(bytes, at.push("running_mean"@), seq![n])
    &&& held(bytes, at.push("running_var"@), seq![n])
    &&& held(bytes, at.push("weight"@), seq![n])
    &&& held(bytes, at.push("bias"@), seq![n])
}

/// The file holds the tensors of one half of a residual block under the path.
pub open spec fn holds_half(bytes: Seq<u8>, at: Seq<Seq<char>>) -> bool {
    let ffc = at.push("ffc"@);
    let g2g = ffc.push("convg2g"@);
    &&& holds_conv(bytes, ffc.push("convl2l"@), 128, 128, 3)
    &&& holds_conv(bytes, ffc.push("convl2g"@), 128, 384, 3)
    &&& holds_conv(bytes, ffc.push("convg2l"@), 384, 128, 3)
    &&& holds_conv(bytes, g2g.push("conv1"@).push("0"@), 384, 192, 1)
    &&& holds_norm(bytes, g2g.push("conv1"@).push("1"@), 192)
    &&& holds_conv(bytes, g2g.push("fu"@).push("conv_layer"@), 384, 384, 1)
    &&& holds_norm(bytes, g2g.push("fu"@).push("bn"@), 384)
    &&& holds_conv(bytes, g2g.push("conv2"@), 192, 384, 1)
    &&& holds_norm(bytes, at.push("bn_l"@), 128)
    &&& holds_norm(bytes, at.push("bn_g"@), 384)
}

/// The file holds residual block `i`.
pub open spec fn holds_residual(bytes: Seq<u8>, i: int) -> bool {
    let at = seq!["model"@].push(decimal((5 + i) as nat));
    holds_half(bytes, at.push("conv1"@)) && holds_half(bytes, at.push("conv2"@))
}

/// The file holds an upsampling step, its convolution from `n` channels under `at` and its
/// normalisation under `next`.
pub open spec fn holds_upsampling(bytes: Seq<u8>, at: nat, next: nat, n: nat) -> bool {
    let path = seq!["model"@].push(decimal(at));
    &&& held(bytes, path.push("weight"@), seq![n, n / 2, 3nat, 3nat])
    &&& held(bytes, path.push("bias"@), seq![n / 2])
    &&& holds_norm(bytes, seq!["model"@].push(decimal(next)), n / 2)
}

/// On the CPU a generator is loaded exactly where the bytes are a safetensors file that
/// holds each of its tensors under its name and in its shape.
pub proof fn law_generator_needs_every_tensor(
    bytes: Vec<u8>,
    device: Device,
    r: Result<CandleInpainter, WorkerError>,
)
    requires
        call_ensures(CandleInpainter::from_safetensors, (bytes, &device), r),
        is_cpu(device),
    ensures
        ({
            let model = seq!["model"@];
            let one = model.push(decimal(1));
            let two = model.push(decimal(2));
            let three = model.push(decimal(3));
            let four = model.push(decimal(4));
            let last = model.push(decimal(34));
            r is Ok <==> {
                &&& readable(bytes@)
                &&& holds_conv(bytes@, one.push("ffc"@).push("convl2l"@), 4, 64, 7)
                &&& holds_norm(bytes@, one.push("bn_l"@), 64)
                &&& holds_conv(bytes@, two.push("ffc"@).push("convl2l"@), 64, 128, 3)
                &&& holds_norm(bytes@, two.push("bn_l"@), 128)
                &&& holds_conv(bytes@, three.push("ffc"@).push("convl2l"@), 128, 256, 3)
                &&& holds_norm(bytes@, three.push("bn_l"@), 256)
                &&& holds_conv(bytes@, four.push("ffc"@).push("convl2l"@), 256, 128, 3)
                &&& holds_conv(bytes@, four.push("ffc"@).push("convl2g"@), 256, 384, 3)
                &&& holds_norm(bytes@, four.push("bn_l"@), 128)
                &&& holds_norm(bytes@, four.push("bn_g"@), 384)
                &&& forall|i: int| 0 <= i < 18 ==> #[trigger] holds_residual(bytes@, i)
                &&& holds_upsampling(bytes@, 24, 25, 512)
                &&& holds_upsampling(bytes@, 27, 28, 256)
                &&& holds_upsampling(bytes@, 30, 31, 128)
                &&& holds_conv(bytes@, last, 64, 3, 7)
                &&& held(bytes@, last.push("bias"@), seq![3nat])
            }
        }),
{
    let b = bytes@;
    assert forall|i: int| 0 <= i < 18 implies crate::network::res_held(b, i) == #[trigger] holds_residual(
        b,
        i,
    ) by {
        let path = crate::network::layer_path((i + 5) as nat);
        assert(path =~= seq!["model"@].push(decimal((5 + i) as nat)));
    }
    assert(crate::network::layer_path(1) =~= seq!["model"@].push(decimal(1)));
    assert(crate::network::layer_path(2) =~= seq!["model"@].push(decimal(2)));
    assert(crate::network::layer_path(3) =~= seq!["model"@].push(decimal(3)));
    assert(crate::network::layer_path(4) =~= seq!["model"@].push(decimal(4)));
    assert(crate::network::layer_path(24) =~= seq!["model"@].push(decimal(24)));
    assert(crate::network::layer_path(25) =~= seq!["model"@].push(decimal(25)));
    assert(crate::network::layer_path(27) =~= seq!["model"@].push(decimal(27)));
    assert(crate::network::layer_path(28) =~= seq!["model"@].push(decimal(28)));
    assert(crate::network::layer_path(30) =~= seq!["model"@].push(decimal(30)));
    assert(crate::network::layer_path(31) =~= seq!["model"@].push(decimal(31)));
    assert(crate::network::layer_path(34) =~= seq!["model"@].push(decimal(34)));
    lemma_downs_held(b);
    lemma_ups_held(b);
    if crate::network::complete(b) {
        assert forall|i: int| 0 <= i < 18 implies #[trigger] holds_residual(b, i) by {
            assert(crate::network::res_held(b, i));
        }
    }
    if forall|i: int| 0 <= i < 18 ==> #[trigger] holds_residual(b, i) {
        assert forall|i: int| 0 <= i < 18 implies #[trigger] crate::network::res_held(b, i) by {
            assert(holds_residual(b, i));
        }
    }
}

proof fn lemma_downs_held(b: Seq<u8>)
    ensures
        (forall|i: int| 0 <= i < 3 ==> #[trigger] crate::network::down_held(b, i)) == (
        crate::network::down_held(b, 0) && crate::network::down_held(b, 1)
            && crate::network::down_held(b, 2)),
{
}

proof fn lemma_ups_held(b: Seq<u8>)
    ensures
        (forall|i: int| 0 <= i < 3 ==> #[trigger] crate::network::up_held(b, i)) == (
        crate::network::up_held(b, 0) && crate::network::up_held(b, 1) && crate::network::up_held(
            b,
            2,
        )),
{
}

/// Reflecting padding succeeds on the CPU exactly where the margin is narrower than both
/// sides and memory can hold the result.
pub proof fn law_reflect_pad_succeeds(x: Tensor, p: usize, r: Result<Tensor, WorkerError>)
    requires
        call_ensures(reflect_pad2d, (&x, p), r),
        tensor_val(x).dims.len() == 4,
        tensor_val(x).cpu,
    ensures
        ({
            let d = tensor_val(x).dims;
            &&& p < d[2] && p < d[3] && 4 * (d[0] * d[1] * (d[2] + 2 * p) * (d[3] + 2 * p))
                <= isize::MAX ==> r is Ok
            &&& p >= d[2] || p >= d[3] ==> r is Err && r->Err_0 is PadTooLarge
            &&& r is Err ==> r->Err_0 is PadTooLarge || r->Err_0 is TooLarge
        }),
{
}

/// A padded convolution succeeds on the CPU where the channels agree, the margin is narrower
/// than the picture, the kernel no larger than both together, and memory can hold the
/// padded picture and the result.
pub proof fn law_padded_convolution_succeeds(
    c: RefPadConv,
    x: Tensor,
    r: Result<Tensor, WorkerError>,
    h: nat,
    w: nat,
)
    requires
        call_ensures(RefPadConv::forward, (&c, &x), r),
        conv_val(c.layer.conv).cpu,
        tensor_val(x).cpu,
        tensor_val(x).dims.len() == 4,
        tensor_val(x).dims[1] == c.layer.n_in,
        c.layer.stride >= 1,
        c.pad == 0 || (c.pad < tensor_val(x).dims[2] && c.pad < tensor_val(x).dims[3]),
        h == tensor_val(x).dims[2] + 2 * c.pad,
        w == tensor_val(x).dims[3] + 2 * c.pad,
        c.layer.kernel <= h,
        c.layer.kernel <= w,
        4 * (tensor_val(x).dims[0] * tensor_val(x).dims[1] * h * w) <= isize::MAX,
        4 * (tensor_val(x).dims[0] * c.layer.n_out * ((h - c.layer.kernel)
            / c.layer.stride as int + 1) * ((w - c.layer.kernel) / c.layer.stride as int + 1))
            <= isize::MAX,
        c.layer.kernel == 1 || 4 * (512 * c.layer.n_in * c.layer.kernel * c.layer.kernel)
            <= isize::MAX,
    ensures
        r is Ok,
{
    let d = c.padded_dims(tensor_val(x).dims);
    crate::axes::lemma_product4(d);
}

/// A Fourier unit succeeds on the CPU where the channels agree, the picture has three columns
/// or more and memory can hold the waves and the spectrum; narrower pictures are refused.
pub proof fn law_fourier_unit_succeeds<T: Fn(usize, usize, usize) -> (u32, u32)>(
    u: FourierUnit,
    x: Tensor,
    wave: T,
    r: Result<Tensor, WorkerError>,
)
    requires
        call_ensures(FourierUnit::forward::<T>, (&u, &x, &wave), r),
        conv_val(u.conv.conv).cpu,
        norm_val(u.bn).cpu,
        tensor_val(x).cpu,
        tensor_val(x).dims.len() == 4,
        2 * tensor_val(x).dims[1] == u.conv.n_in,
        ({
            let d = tensor_val(x).dims;
            &&& 4 * (d[2] * d[2]) <= isize::MAX
            &&& 4 * (d[3] * d[3]) <= isize::MAX
            &&& 4 * (2 * d[0] * d[1] * d[2] * d[3]) <= isize::MAX
            &&& 4 * (d[0] * u.conv.n_out * d[2] * d[3]) <= isize::MAX
        }),
    ensures
        tensor_val(x).dims[3] >= 3 <==> r is Ok,
        r is Err ==> r->Err_0 is DegenerateWidth,
{
}

/// The spectral calls refuse what they cannot take: an inverse of fewer than three columns,
/// an odd number of channels to part, and tensors of other than four axes.
pub proof fn law_spectral_calls_refuse(
    re: Tensor,
    im: Tensor,
    bw: Basis,
    bh: Basis,
    w: usize,
    x: Tensor,
    a: Result<Tensor, WorkerError>,
    b: Result<(Tensor, Tensor), WorkerError>,
    c: Result<Tensor, WorkerError>,
    d: Result<(Tensor, Tensor), WorkerError>,
)
    requires
        call_ensures(irfft2, (&re, &im, &bw, &bh, w), a),
        call_ensures(unpack, (&x,), b),
        call_ensures(pack, (&re, &im), c),
        call_ensures(rfft2, (&x, &bh, &bw), d),
    ensures
        w < 3 <==> a is Err && a->Err_0 is DegenerateWidth,
        tensor_val(x).dims.len() == 4 ==> (tensor_val(x).dims[1] % 2 == 1 <==> b is Err
            && b->Err_0 is OddChannels),
        tensor_val(x).dims.len() != 4 ==> b is Err && b->Err_0 is Rank && d is Err
            && d->Err_0 is Rank,
        tensor_val(re).dims.len() != 4 ==> c is Err && c->Err_0 is Rank,
        tensor_val(x).dims.len() == 4 && tensor_val(x).dims[1] % 2 == 0 && tensor_val(
            x,
        ).single && tensor_val(x).cpu ==> b is Ok,
{
}

/// Two tensors are joined along an axis, the first before the second.
pub proof fn law_join_puts_one_after_the_other(
    a: Tensor,
    b: Tensor,
    y: Tensor,
    i: int,
    j: int,
    k: int,
    l: int,
)
    requires
        call_ensures(join, (&a, &b, 1usize), Ok::<Tensor, WorkerError>(y)),
        tensor_val(a).dims.len() == 4,
        0 <= i < tensor_val(a).dims[0],
        0 <= k < tensor_val(a).dims[2],
        0 <= l < tensor_val(a).dims[3],
    ensures
        tensor_val(y).dims[1] == tensor_val(a).dims[1] + tensor_val(b).dims[1],
        0 <= j < tensor_val(a).dims[1] ==> tensor_val(y).at4(i, j, k, l) == tensor_val(a).at4(
            i,
            j,
            k,
            l,
        ),
        0 <= j < tensor_val(b).dims[1] ==> tensor_val(y).at4(
            i,
            tensor_val(a).dims[1] + j,
            k,
            l,
        ) == tensor_val(b).at4(i, j, k, l),
{
    crate::axes::lemma_joined4(tensor_val(a), tensor_val(b), 1, tensor_val(y));
    let d = tensor_val(y).dims;
    if 0 <= j < tensor_val(a).dims[1] {
        assert(inside4(d, i, j, k, l));
    }
    if 0 <= j < tensor_val(b).dims[1] {
        assert(inside4(d, i, tensor_val(a).dims[1] + j, k, l));
    }
}

/// On the CPU every picture becomes a tensor, and every tensor of one picture of three
/// channels that memory can hold becomes a picture; other shapes are refused.
pub proof fn law_conversions_succeed<U: Fn(u32) -> u32>(
    g: ImageGrid,
    device: Device,
    t: Result<Tensor, WorkerError>,
    v: Tensor,
    unscale: U,
    r: Result<ImageGrid, WorkerError>,
)
    requires
        call_ensures(hwc_to_chw_tensor, (&g, &device), t),
        call_ensures(chw_tensor_to_hwc::<U>, (&v, &unscale), r),
        is_cpu(device),
        tensor_val(v).cpu,
        tensor_val(v).single,
    ensures
        t is Ok,
        tensor_val(v).dims.len() != 4 ==> r is Err && r->Err_0 is Rank,
        tensor_val(v).dims.len() == 4 && (tensor_val(v).dims[0] != 1 || tensor_val(v).dims[1] != 3)
            ==> r is Err && r->Err_0 is TensorShape,
        tensor_val(v).dims.len() == 4 && tensor_val(v).dims[0] == 1 && tensor_val(v).dims[1] == 3
            && crate::grid::fits(tensor_val(v).dims[2], tensor_val(v).dims[3], 3, 4) ==> r is Ok,
{
}

/// A session is used exactly where it takes two inputs and gives an output. Its output is
/// used exactly where it is one picture of three planes, not empty, that memory can hold.
pub proof fn law_sessions_are_screened<
    S: Fn(usize, usize, usize) -> i64,
    W: Fn(usize, usize, usize, usize) -> u32,
    B: Fn(u32, u32, u32, u32, u32, u32) -> u32,
    U: Fn(u32) -> u32,
>(
    inputs: usize,
    outputs: usize,
    c: Result<(), WorkerError>,
    out: SessionOutput,
    image: ImageGrid,
    roi: RoiInfo,
    sampler: Sampler<S, W, B>,
    unscale: U,
    r: Result<ImageGrid, WorkerError>,
)
    requires
        call_ensures(check_session, (inputs, outputs), c),
        call_ensures(paste_output::<S, W, B, U>, (&out, &image, &roi, &sampler, &unscale), r),
    ensures
        c is Ok <==> inputs == 2 && outputs >= 1,
        inputs != 2 ==> c == Err::<(), WorkerError>(WorkerError::InputCount(inputs)),
        inputs == 2 && outputs == 0 ==> c == Err::<(), WorkerError>(WorkerError::NoOutputs),
        ({
            let d = out.shape@;
            let picture = d.len() == 4 && d[0] == 1 && d[1] == 3 && out.data@.len() == 3 * d[2]
                * d[3];
            let held = crate::grid::fits(d[2] as nat, d[3] as nat, 3, 4);
            &&& r is Ok <==> picture && d[2] >= 1 && d[3] >= 1 && held
            &&& !picture ==> r->Err_0 is OutputShape && r->Err_0->OutputShape_0@ == d
            &&& picture && !held ==> r->Err_0 is TooLarge
        }),
{
}

/// A region is planned wherever its scaled sides stay at 1024 or less.
pub proof fn law_plans_succeed<F: Fn(usize, usize) -> usize>(
    rh: usize,
    rw: usize,
    scaled: F,
    r: Result<PadPlan, WorkerError>,
)
    requires
        call_ensures(plan_region::<F>, (rh, rw, &scaled), r),
        rh >= 1,
        rw >= 1,
        forall|n: usize, longest: usize, raw: usize| #[trigger]
            call_ensures(scaled, (n, longest), raw) && n <= longest && longest > 1024 ==> raw
                <= 1024,
    ensures
        r is Ok,
{
    if r is Err {
        let (sh, sw) = choose|sh: usize, sw: usize| #[trigger]
            crate::native::scales_to(scaled, rh, rw, sh, sw) && !crate::grid::fits(
                crate::native::padded_side(sh as int) as nat,
                crate::native::padded_side(sw as int) as nat,
                3,
                4,
            );
        assert(crate::native::scales_to(scaled, rh, rw, sh, sw));
        let (a, b) = (crate::native::padded_side(sh as int), crate::native::padded_side(sw as int));
        assert(a <= 1024 && b <= 1024);
        crate::native::lemma_fits_smaller(a as nat, b as nat, 3, 4, 1024, 1024);
    }
}

/// The transforms succeed on the CPU where the bases have the lengths of the picture and
/// memory can hold the results.
pub proof fn law_transforms_succeed(
    x: Tensor,
    bh: Basis,
    bw: Basis,
    r: Result<(Tensor, Tensor), WorkerError>,
    re: Tensor,
    im: Tensor,
    bwf: Basis,
    w: usize,
    y: Result<Tensor, WorkerError>,
    n: nat,
    c: nat,
    h: nat,
    k: nat,
)
    requires
        call_ensures(rfft2, (&x, &bh, &bw), r),
        call_ensures(irfft2, (&re, &im, &bwf, &bh, w), y),
        tensor_val(x).cpu && tensor_val(re).cpu && tensor_val(im).cpu,
        tensor_val(bh.c).cpu && tensor_val(bh.s).cpu,
        tensor_val(bw.c).cpu && tensor_val(bw.s).cpu,
        tensor_val(bwf.c).cpu && tensor_val(bwf.s).cpu,
        tensor_val(bh.c).dims == seq![h, h],
        tensor_val(bw.c).dims == seq![k, w as nat],
        tensor_val(bwf.c).dims == seq![w as nat, w as nat],
        tensor_val(x).dims == seq![n, c, h, w as nat],
        tensor_val(re).dims == seq![n, c, h, k],
        tensor_val(im).dims == seq![n, c, h, k],
        w >= 3,
        k <= w,
        4 * (n * w as nat * c * h) <= isize::MAX,
        4 * (n * c * h * w as nat) <= isize::MAX,
        4 * (n * k * c * h) <= isize::MAX,
        4 * (n * c * h * k) <= isize::MAX,
    ensures
        r is Ok,
        y is Ok,
{
}

/// Counting: the elements of a tensor, the product of leading lengths, and whether memory
/// can hold four bytes for each of a product, or two tensors together.
pub proof fn law_counts_are_products(
    x: Tensor,
    y: Tensor,
    n: usize,
    a: usize,
    b: usize,
    c: usize,
    d: usize,
    f: bool,
    t: bool,
)
    requires
        call_ensures(elem_count, (&x,), n),
        call_ensures(count_fits, (a, b, c, d), f),
        call_ensures(sum_held, (&x, &y), t),
        tensor_val(x).wf(),
        tensor_val(y).wf(),
    ensures
        n == tensor_val(x).elems.len(),
        f <==> 4 * (a * b * c * d) <= isize::MAX,
        tensor_val(x).single ==> (t <==> 4 * (tensor_val(x).elems.len() + tensor_val(
            y,
        ).elems.len()) <= isize::MAX),
        !tensor_val(x).single ==> (t <==> 8 * (tensor_val(x).elems.len() + tensor_val(
            y,
        ).elems.len()) <= isize::MAX),
{
}

/// The lengths of a tensor are given exactly where it has as many axes; the error for
/// another number names both.
pub proof fn law_shapes_are_given_for_their_rank(
    x: Tensor,
    r: Result<(usize, usize, usize, usize), WorkerError>,
    q: Result<(usize, usize), WorkerError>,
)
    requires
        call_ensures(shape4, (&x,), r),
        call_ensures(shape2, (&x,), q),
    ensures
        ({
            let d = tensor_val(x).dims;
            &&& r is Ok <==> d.len() == 4
            &&& r is Ok ==> {
                let s = r->Ok_0;
                d[0] == s.0 && d[1] == s.1 && d[2] == s.2 && d[3] == s.3
            }
            &&& r is Err ==> r->Err_0 is Rank && r->Err_0->expected == 4
                && r->Err_0->Rank_shape@.len() == d.len()
            &&& q is Ok <==> d.len() == 2
            &&& q is Ok ==> d[0] == q->Ok_0.0 && d[1] == q->Ok_0.1
            &&& q is Err ==> q->Err_0 is Rank && q->Err_0->expected == 2
                && q->Err_0->Rank_shape@.len() == d.len()
        }),
{
}

/// Weights are read exactly from safetensors files, and a part of them lies one name deeper
/// in the same file.
pub proof fn law_weights_are_parted_by_name(
    bytes: Vec<u8>,
    device: Device,
    r: Result<Weights, WorkerError>,
    w: Weights,
    name: &str,
    part: Weights,
)
    requires
        call_ensures(Weights::read, (bytes, &device), r),
        call_ensures(Weights::part, (&w, name), part),
    ensures
        r is Ok <==> readable(bytes@),
        r is Ok ==> weights_bytes(r->Ok_0) == bytes@ && weights_path(r->Ok_0).len() == 0,
        weights_bytes(part) == weights_bytes(w),
        weights_path(part).len() == weights_path(w).len() + 1,
        weights_path(part).last() == name@,
        weights_path(part).drop_last() == weights_path(w),
{
    assert(weights_path(w).push(name@).drop_last() =~= weights_path(w));
}

} // verus!
