//! Laws of loading: under which name of the file each tensor of the generator stands,
//! and with which shape.

use candle_nn::{BatchNorm, Conv2d};
use vstd::prelude::*;

use crate::blocks::{BlockShape, FfcBnAct, ResnetBlock, SpectralTransform};
use crate::layers::{conv_val, norm_val, transposed_conv_val};
use crate::network::{layer_at, layer_path, CandleInpainter};
use crate::weights::{decimal, stored, weights_bytes, weights_path, Weights};

verus! {

/// The number that a line of decimal digits stands for.
pub open spec fn number_of(s: Seq<char>) -> int
    decreases s.len(),
{
    if s.len() == 0 {
        0
    } else {
        10 * number_of(s.drop_last()) + (s.last() as int - 48)
    }
}

/// The digits of a number are digits, read as the number, and begin with a zero for zero
/// alone. No other line of characters does so.
pub proof fn law_digits_read_as_the_number(n: nat)
    ensures
        number_of(decimal(n)) == n,
        decimal(n).len() >= 1,
        forall|i: int| 0 <= i < decimal(n).len() ==> '0' <= #[trigger] decimal(n)[i] <= '9',
        n > 0 ==> decimal(n)[0] != '0',
    decreases n,
{
    let s = decimal(n);
    if n < 10 {
        assert(s.drop_last() =~= Seq::<char>::empty());
        assert(s.last() as int == 48 + n);
        assert(number_of(s.drop_last()) == 0);
    } else {
        law_digits_read_as_the_number(n / 10);
        assert(s.drop_last() =~= decimal(n / 10));
        assert(s.last() as int == 48 + n % 10);
        assert(s[0] == decimal(n / 10)[0]);
    }
}

/// Layer `i` stands under "model" and the digits of `i`, and under nothing else.
pub proof fn law_layers_stand_under_their_number(i: nat)
    ensures
        layer_path(i).len() == 2,
        layer_path(i)[0] == "model"@,
        number_of(layer_path(i)[1]) == i,
        layer_path(i) == seq!["model"@, decimal(i)],
{
    law_digits_read_as_the_number(i);
}

/// The weights of layer `i` are those under "model" and the digits of `i`, so that two layers
/// with different numbers never share a path.
pub proof fn law_layer_at_goes_by_number(model: Weights, i: usize, j: usize, a: Weights, b: Weights)
    requires
        call_ensures(layer_at, (&model, i), a),
        call_ensures(layer_at, (&model, j), b),
    ensures
        weights_bytes(a) == weights_bytes(model),
        weights_path(a).len() == 2,
        weights_path(a)[0] == "model"@,
        number_of(weights_path(a)[1]) == i,
        forall|k: int|
            0 <= k < weights_path(a)[1].len() ==> '0' <= #[trigger] weights_path(a)[1][k] <= '9',
        i > 0 ==> weights_path(a)[1][0] != '0',
        i != j ==> weights_path(a) != weights_path(b),
{
    law_digits_read_as_the_number(i as nat);
    law_digits_read_as_the_number(j as nat);
}

/// A convolution from `n_in` to `n_out` channels with a square kernel and no bias whose
/// weight is the tensor that the file stores under the path and "weight".
pub open spec fn stands_as_conv(
    bytes: Seq<u8>,
    at: Seq<Seq<char>>,
    c: Conv2d,
    n_in: nat,
    n_out: nat,
    kernel: nat,
    stride: nat,
) -> bool {
    &&& stored(bytes, at.push("weight"@), conv_val(c).weight.elems)
    &&& conv_val(c).weight.dims == seq![n_out, n_in, kernel, kernel]
    &&& conv_val(c).bias is None
    &&& (conv_val(c).stride, conv_val(c).padding) == (stride, 0nat)
    &&& (conv_val(c).dilation, conv_val(c).groups) == (1nat, 1nat)
}

/// A normalisation of `n` channels whose statistics, weight and bias are the tensors
/// that the file stores under the path and their names.
pub open spec fn stands_as_norm(bytes: Seq<u8>, at: Seq<Seq<char>>, b: BatchNorm, n: nat) -> bool {
    &&& stored(bytes, at.push("running_mean"@), norm_val(b).mean)
    &&& stored(bytes, at.push("running_var"@), norm_val(b).var)
    &&& stored(bytes, at.push("weight"@), norm_val(b).weight)
    &&& stored(bytes, at.push("bias"@), norm_val(b).bias)
    &&& (norm_val(b).mean.len(), norm_val(b).var.len()) == (n, n)
    &&& (norm_val(b).weight.len(), norm_val(b).bias.len()) == (n, n)
    &&& norm_val(b).standard
}

/// A spectral transform whose tensors the file stores under the path: it narrows to
/// half the channels of its result.
pub open spec fn stands_as_spectral(
    bytes: Seq<u8>,
    at: Seq<Seq<char>>,
    t: SpectralTransform,
    n_in: nat,
    n_out: nat,
    stride: nat,
) -> bool {
    let half = n_out / 2;
    &&& t.avgpool == (stride == 2)
    &&& stands_as_conv(bytes, at.push("conv1"@).push("0"@), t.conv1.conv, n_in, half, 1, 1)
    &&& stands_as_norm(bytes, at.push("conv1"@).push("1"@), t.bn1, half)
    &&& stands_as_conv(
        bytes,
        at.push("fu"@).push("conv_layer"@),
        t.fu.conv.conv,
        2 * half,
        2 * half,
        1,
        1,
    )
    &&& stands_as_norm(bytes, at.push("fu"@).push("bn"@), t.fu.bn, 2 * half)
    &&& stands_as_conv(bytes, at.push("conv2"@), t.conv2.conv, half, n_out, 1, 1)
}

/// An activated block whose tensors the file stores under the path, with the given
/// channels: `il` local and `ig` global ones in, `ol` and `og` out.
pub open spec fn stands_as_block(
    bytes: Seq<u8>,
    at: Seq<Seq<char>>,
    b: FfcBnAct,
    il: nat,
    ig: nat,
    ol: nat,
    og: nat,
    kernel: nat,
    stride: nat,
    pad: nat,
) -> bool {
    let ffc = at.push("ffc"@);
    &&& (b.ffc.l2l is Some) == (il > 0 && ol > 0)
    &&& (b.ffc.l2g is Some) == (il > 0 && og > 0)
    &&& (b.ffc.g2l is Some) == (ig > 0 && ol > 0)
    &&& (b.ffc.g2g is Some) == (ig > 0 && og > 0)
    &&& (b.bn_l is Some) == (ol > 0)
    &&& (b.bn_g is Some) == (og > 0)
    &&& il > 0 && ol > 0 ==> b.ffc.l2l->0.pad == pad && stands_as_conv(
        bytes,
        ffc.push("convl2l"@),
        b.ffc.l2l->0.layer.conv,
        il,
        ol,
        kernel,
        stride,
    )
    &&& il > 0 && og > 0 ==> b.ffc.l2g->0.pad == pad && stands_as_conv(
        bytes,
        ffc.push("convl2g"@),
        b.ffc.l2g->0.layer.conv,
        il,
        og,
        kernel,
        stride,
    )
    &&& ig > 0 && ol > 0 ==> b.ffc.g2l->0.pad == pad && stands_as_conv(
        bytes,
        ffc.push("convg2l"@),
        b.ffc.g2l->0.layer.conv,
        ig,
        ol,
        kernel,
        stride,
    )
    &&& ig > 0 && og > 0 ==> stands_as_spectral(
        bytes,
        ffc.push("convg2g"@),
        b.ffc.g2g->0,
        ig,
        og,
        stride,
    )
    &&& ol > 0 ==> stands_as_norm(bytes, at.push("bn_l"@), b.bn_l->0, ol)
    &&& og > 0 ==> stands_as_norm(bytes, at.push("bn_g"@), b.bn_g->0, og)
}

/// Every tensor of a block is the one that the file stores under the block's path and
/// its own name. Of the channels in and out, `gin` and `gout` quarters are global.
pub proof fn law_block_stands_under_its_path(
    b: FfcBnAct,
    bytes: Seq<u8>,
    at: Seq<Seq<char>>,
    s: BlockShape,
)
    requires
        b.loaded(bytes, at, s),
        s.gin <= 4,
        s.gout <= 4,
        s.in_ch * 4 <= usize::MAX,
        s.out_ch * 4 <= usize::MAX,
    ensures
        stands_as_block(
            bytes,
            at,
            b,
            (s.in_ch - (s.in_ch * s.gin) / 4) as nat,
            ((s.in_ch * s.gin) / 4) as nat,
            (s.out_ch - (s.out_ch * s.gout) / 4) as nat,
            ((s.out_ch * s.gout) / 4) as nat,
            s.kernel as nat,
            s.stride as nat,
            s.pad as nat,
        ),
        b.ffc.has_gout == (s.gout > 0),
{
    lemma_quarters(s.in_ch as int, s.gin as int);
    lemma_quarters(s.out_ch as int, s.gout as int);
    assert(s.gout == 0 ==> s.out_g() == 0);
    assert(s.gout == 4 ==> s.out_l() == 0);
}

proof fn lemma_quarters(n: int, q: int)
    requires
        0 <= n,
        0 <= q <= 4,
    ensures
        0 <= (n * q) / 4 <= n,
        q == 4 ==> (n * q) / 4 == n,
        q == 0 ==> (n * q) / 4 == 0,
{
    assert(0 <= n * q <= 4 * n) by (nonlinear_arith)
        requires
            0 <= n,
            0 <= q <= 4,
    ;
    assert(q == 4 ==> n * q == 4 * n);
    assert(q == 0 ==> n * q == 0);
}

/// The first block stands under "model.1": from the four channels of the picture and
/// its mask to 64, with a kernel of seven and no padding.
pub proof fn law_first_block_is_model_one(m: CandleInpainter, bytes: Seq<u8>)
    requires
        m.loaded(bytes),
    ensures
        stands_as_block(bytes, seq!["model"@, decimal(1)], m.init, 4, 0, 64, 0, 7, 1, 0),
{
    law_block_stands_under_its_path(m.init, bytes, layer_path(1), crate::network::init_shape());
}

/// Downsampling block `i` stands under "model." and the digits of `2 + i`. Each halves
/// the sides with a kernel of three and doubles the channels, from 64 to 512; of these
/// three quarters are global.
pub proof fn law_downsampling_blocks_follow(m: CandleInpainter, bytes: Seq<u8>)
    requires
        m.loaded(bytes),
    ensures
        m.downs@.len() == 3,
        stands_as_block(bytes, seq!["model"@, decimal(2)], m.downs@[0], 64, 0, 128, 0, 3, 2, 1),
        stands_as_block(bytes, seq!["model"@, decimal(3)], m.downs@[1], 128, 0, 256, 0, 3, 2, 1),
        stands_as_block(bytes, seq!["model"@, decimal(4)], m.downs@[2], 256, 0, 128, 384, 3, 2, 1),
{
    let shape = |i: int| crate::network::down_shape(i);
    assert(m.downs@[0].loaded(bytes, layer_path(2), shape(0)));
    assert(m.downs@[1].loaded(bytes, layer_path(3), shape(1)));
    assert(m.downs@[2].loaded(bytes, layer_path(4), shape(2)));
    law_block_stands_under_its_path(m.downs@[0], bytes, layer_path(2), shape(0));
    law_block_stands_under_its_path(m.downs@[1], bytes, layer_path(3), shape(1));
    law_block_stands_under_its_path(m.downs@[2], bytes, layer_path(4), shape(2));
}

/// Residual block `i` stands under "model." and the digits of `5 + i`, its two halves
/// under "conv1" and "conv2". Both take and give 128 local and 384 global channels with
/// a kernel of three, padded by one.
pub proof fn law_residual_blocks_follow(m: CandleInpainter, bytes: Seq<u8>, i: int)
    requires
        m.loaded(bytes),
        0 <= i < 18,
    ensures
        m.res@.len() == 18,
        stands_as_block(
            bytes,
            seq!["model"@, decimal((5 + i) as nat), "conv1"@],
            m.res@[i].conv1,
            128,
            384,
            128,
            384,
            3,
            1,
            1,
        ),
        stands_as_block(
            bytes,
            seq!["model"@, decimal((5 + i) as nat), "conv2"@],
            m.res@[i].conv2,
            128,
            384,
            128,
            384,
            3,
            1,
            1,
        ),
{
    let at = layer_path((i + 5) as nat);
    let shape = ResnetBlock::shape(512, 3, 3);
    let digits = decimal((5 + i) as nat);
    assert(m.res@[i].loaded(bytes, at, 512, 3, 3));
    assert(at.push("conv1"@) =~= seq!["model"@, digits, "conv1"@]);
    assert(at.push("conv2"@) =~= seq!["model"@, digits, "conv2"@]);
    law_block_stands_under_its_path(m.res@[i].conv1, bytes, at.push("conv1"@), shape);
    law_block_stands_under_its_path(m.res@[i].conv2, bytes, at.push("conv2"@), shape);
}

/// The weight of the local convolution in the first half of residual block `i` is the
/// tensor that the file stores under "model", the digits of `5 + i`, "conv1", "ffc",
/// "convl2l" and "weight", for every `i`.
pub proof fn law_residual_weights_have_their_names(m: CandleInpainter, bytes: Seq<u8>, i: int)
    requires
        m.loaded(bytes),
        0 <= i < 18,
    ensures
        stored(
            bytes,
            seq![
                "model"@,
                decimal((5 + i) as nat),
                "conv1"@,
                "ffc"@,
                "convl2l"@,
                "weight"@,
            ],
            conv_val(m.res@[i].conv1.ffc.l2l->0.layer.conv).weight.elems,
        ),
        number_of(decimal((5 + i) as nat)) == 5 + i,
{
    law_residual_blocks_follow(m, bytes, i);
    law_digits_read_as_the_number((5 + i) as nat);
    let digits = decimal((5 + i) as nat);
    assert(seq!["model"@, digits, "conv1"@].push("ffc"@).push("convl2l"@).push("weight"@) =~= seq![
        "model"@,
        digits,
        "conv1"@,
        "ffc"@,
        "convl2l"@,
        "weight"@,
    ]);
}

/// Upsampling step `i` has its transposed convolution under "model." and the digits of
/// `24 + 3 * i`, and its normalisation under the next number. Each doubles the sides and
/// halves the channels, from 512 to 64.
pub proof fn law_upsampling_steps_follow(m: CandleInpainter, bytes: Seq<u8>, i: int)
    requires
        m.loaded(bytes),
        0 <= i < 3,
    ensures
        m.up_conv@.len() == 3,
        m.up_bn@.len() == 3,
        ({
            let c = transposed_conv_val(m.up_conv@[i].conv);
            let n_in: nat = if i == 0 {
                512
            } else if i == 1 {
                256
            } else {
                128
            };
            &&& stored(
                bytes,
                seq!["model"@, decimal((24 + 3 * i) as nat), "weight"@],
                c.weight.elems,
            )
            &&& c.bias is Some
            &&& stored(bytes, seq!["model"@, decimal((24 + 3 * i) as nat), "bias"@], c.bias->0)
            &&& c.weight.dims == seq![n_in, n_in / 2, 3nat, 3nat]
            &&& c.bias->0.len() == n_in / 2
            &&& (c.stride, c.padding, c.output_padding) == (2nat, 1nat, 1nat)
            &&& c.dilation == 1
            &&& stands_as_norm(
                bytes,
                seq!["model"@, decimal((25 + 3 * i) as nat)],
                m.up_bn@[i],
                n_in / 2,
            )
        }),
{
    assert(crate::network::up_loaded(m.up_conv@[i], m.up_bn@[i], bytes, i));
    let digits = decimal((24 + 3 * i) as nat);
    let at = layer_path((24 + 3 * i) as nat);
    assert(at.push("weight"@) =~= seq!["model"@, digits, "weight"@]);
    assert(at.push("bias"@) =~= seq!["model"@, digits, "bias"@]);
}

/// The last convolution stands under "model.34": from 64 channels to the three of the
/// picture, with a kernel of seven and a bias.
pub proof fn law_last_convolution_is_model_thirty_four(m: CandleInpainter, bytes: Seq<u8>)
    requires
        m.loaded(bytes),
    ensures
        ({
            let c = conv_val(m.final_conv.conv);
            &&& stored(bytes, seq!["model"@, decimal(34), "weight"@], c.weight.elems)
            &&& c.bias is Some
            &&& stored(bytes, seq!["model"@, decimal(34), "bias"@], c.bias->0)
            &&& c.weight.dims == seq![3nat, 64nat, 7nat, 7nat]
            &&& c.bias->0.len() == 3
            &&& (c.stride, c.padding, c.dilation, c.groups) == (1nat, 0nat, 1nat, 1nat)
        }),
{
    let at = layer_path(34);
    assert(at.push("weight"@) =~= seq!["model"@, decimal(34), "weight"@]);
    assert(at.push("bias"@) =~= seq!["model"@, decimal(34), "bias"@]);
}

} // verus!
