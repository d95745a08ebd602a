//! Layers of `candle_nn` and the weights that they are loaded from.

use candle_core::Tensor;
use candle_nn::{BatchNorm, Conv2d, ConvTranspose2d, Module, ModuleT};
use vstd::prelude::*;

use crate::tensor::{inside4, like, numbered, tensor_val, TensorVal};

verus! {

/// `candle_nn::Conv2d`, a convolution with its weights.
#[verifier::external_type_specification]
#[verifier::external_body]
pub struct ExConv2d(candle_nn::Conv2d);

/// `candle_nn::ConvTranspose2d`, a transposed convolution with its weights.
#[verifier::external_type_specification]
#[verifier::external_body]
pub struct ExConvTranspose2d(candle_nn::ConvTranspose2d);

/// `candle_nn::BatchNorm`, a normalisation with its statistics.
#[verifier::external_type_specification]
#[verifier::external_body]
pub struct ExBatchNorm(candle_nn::BatchNorm);

/// What a convolution holds, and whether its weight and bias lie on the CPU as
/// 32-bit floats, the bias along one axis.
pub struct ConvVal {
    pub weight: TensorVal,
    pub bias: Option<Seq<u64>>,
    pub padding: nat,
    pub output_padding: nat,
    pub stride: nat,
    pub dilation: nat,
    pub groups: nat,
    pub cpu: bool,
}

/// What a normalisation holds: one entry per channel, and whether it has the
/// default configuration, which adds `1e-5` to the variance and scales and
/// shifts by weight and bias, and whether they lie on the CPU as 32-bit floats.
pub struct NormVal {
    pub standard: bool,
    pub mean: Seq<u64>,
    pub var: Seq<u64>,
    pub weight: Seq<u64>,
    pub bias: Seq<u64>,
    pub cpu: bool,
}

/// What a `Conv2d` holds.
pub uninterp spec fn conv_val(c: Conv2d) -> ConvVal;

/// What a `ConvTranspose2d` holds.
pub uninterp spec fn transposed_conv_val(c: ConvTranspose2d) -> ConvVal;

/// What a `BatchNorm` holds.
pub uninterp spec fn norm_val(b: BatchNorm) -> NormVal;

impl ConvVal {
    /// A convolution of `n_in` to `n_out` channels with a square kernel, without
    /// padding, dilation or groups.
    pub open spec fn plain(self, n_in: nat, n_out: nat, kernel: nat, stride: nat) -> bool {
        &&& self.weight.good()
        &&& self.weight.dims == seq![n_out, n_in, kernel, kernel]
        &&& self.bias matches Some(b) ==> b.len() == n_out
        &&& self.stride == stride
        &&& stride >= 1
        &&& self.padding == 0
        &&& self.dilation == 1
        &&& self.groups == 1
    }

    /// The bias of an output channel.
    pub open spec fn bias_at(self, o: int) -> Option<u64> {
        match self.bias {
            Some(b) => Some(b[o]),
            None => None,
        }
    }
}

/// The elements of `x` under a square kernel of side `k` whose corner is at row
/// `y`, column `c`, over all channels.
pub open spec fn window(x: TensorVal, i: int, y: int, c: int, k: int) -> Seq<u64> {
    Seq::new(
        (x.dims[1] * k * k) as nat,
        |t: int| x.at4(i, t / (k * k), y + (t % (k * k)) / k, c + t % k),
    )
}

/// The weights of output channel `o` in the same order.
pub open spec fn kernel_of(w: TensorVal, o: int) -> Seq<u64> {
    let k = w.dims[2] as int;
    Seq::new(
        (w.dims[1] * k * k) as nat,
        |t: int| w.at4(o, t / (k * k), (t % (k * k)) / k, t % k),
    )
}

/// `Conv2d::forward` may give `r` for a window, a kernel and a bias.
pub uninterp spec fn conv_outcome(
    window: Seq<u64>,
    kernel: Seq<u64>,
    bias: Option<u64>,
    r: u64,
) -> bool;

/// The length that a convolution without padding leaves of `n`.
pub open spec fn conv_len(n: nat, kernel: nat, stride: nat) -> nat {
    ((n - kernel) / stride as int + 1) as nat
}

/// `r` has the shape of the convolution of `x`.
pub open spec fn conv_shape(c: ConvVal, x: TensorVal, r: TensorVal) -> bool {
    let k = c.weight.dims[2];
    &&& x.dims[1] == c.weight.dims[1]
    &&& r.dims == seq![
        x.dims[0],
        c.weight.dims[0],
        conv_len(x.dims[2], k, c.stride),
        conv_len(x.dims[3], k, c.stride),
    ]
    &&& r.good()
    &&& r.cpu == x.cpu
}

/// `r` is the convolution of `x`: every element from the window at its place,
/// the kernel of its channel and the bias.
pub open spec fn is_conv(c: ConvVal, x: TensorVal, r: TensorVal) -> bool {
    let k = c.weight.dims[2] as int;
    let s = c.stride as int;
    &&& conv_shape(c, x, r)
    &&& forall|i: int, o: int, y: int, l: int|
        inside4(r.dims, i, o, y, l) ==> conv_outcome(
            window(x, i, y * s, l * s, k),
            kernel_of(c.weight, o),
            c.bias_at(o),
            #[trigger] r.at4(i, o, y, l),
        )
}

/// `Conv2d::forward`: a convolution without padding, dilation or groups. Another
/// number of input channels is an error. It computes the output lengths by
/// subtraction, so the kernel must not be larger than the input, and for a kernel
/// of more than one element it lays out the windows of 512 output places at a time.
#[verifier::external_body]
pub(crate) fn conv_forward(c: &Conv2d, x: &Tensor) -> (r: Result<Tensor, candle_core::Error>)
    requires
        tensor_val(*x).good(),
        tensor_val(*x).dims.len() == 4,
        exists|n_in: nat, n_out: nat, kernel: nat, stride: nat|
            conv_val(*c).plain(n_in, n_out, kernel, stride),
        conv_val(*c).weight.dims[2] <= tensor_val(*x).dims[2],
        conv_val(*c).weight.dims[2] <= tensor_val(*x).dims[3],
        numbered(
            (tensor_val(*x).dims[0] * conv_val(*c).weight.dims[0] * conv_len(
                tensor_val(*x).dims[2],
                conv_val(*c).weight.dims[2],
                conv_val(*c).stride,
            ) * conv_len(
                tensor_val(*x).dims[3],
                conv_val(*c).weight.dims[2],
                conv_val(*c).stride,
            )) as int,
        ),
        conv_val(*c).weight.dims[2] == 1 || numbered(
            (512 * conv_val(*c).weight.dims[1] * conv_val(*c).weight.dims[2] * conv_val(
                *c,
            ).weight.dims[2]) as int,
        ),
    ensures
        conv_val(*c).cpu && tensor_val(*x).cpu && tensor_val(*x).dims[1] == conv_val(
            *c,
        ).weight.dims[1] ==> r is Ok,
        r matches Ok(t) ==> conv_shape(conv_val(*c), tensor_val(*x), tensor_val(t)) && forall|
            i: int,
            o: int,
            y: int,
            l: int,
        |
            inside4(tensor_val(t).dims, i, o, y, l) ==> conv_outcome(
                window(
                    tensor_val(*x),
                    i,
                    y * conv_val(*c).stride,
                    l * conv_val(*c).stride,
                    conv_val(*c).weight.dims[2] as int,
                ),
                kernel_of(conv_val(*c).weight, o),
                conv_val(*c).bias_at(o),
                #[trigger] tensor_val(t).at4(i, o, y, l),
            ),
{
    c.forward(x)
}

/// The elements of `x` that a transposed convolution adds up at row `y`, column
/// `l`: for every channel and kernel place the element whose spread reaches
/// there, if there is one.
pub open spec fn spread(
    x: TensorVal,
    i: int,
    y: int,
    l: int,
    k: int,
    stride: int,
    padding: int,
) -> Seq<Option<u64>> {
    Seq::new(
        (x.dims[1] * k * k) as nat,
        |t: int|
            {
                let a = y + padding - (t % (k * k)) / k;
                let b = l + padding - t % k;
                if a % stride == 0 && b % stride == 0 && 0 <= a / stride < x.dims[2] && 0 <= b
                    / stride < x.dims[3] {
                    Some(x.at4(i, t / (k * k), a / stride, b / stride))
                } else {
                    None
                }
            },
    )
}

/// The weights of output channel `o` of a transposed convolution, whose first
/// axis is the input channel.
pub open spec fn spread_kernel(w: TensorVal, o: int) -> Seq<u64> {
    let k = w.dims[2] as int;
    Seq::new(
        (w.dims[0] * k * k) as nat,
        |t: int| w.at4(t / (k * k), o, (t % (k * k)) / k, t % k),
    )
}

/// `ConvTranspose2d::forward` may give `r` for the elements that reach a place,
/// a kernel and a bias.
pub uninterp spec fn spread_outcome(
    taps: Seq<Option<u64>>,
    kernel: Seq<u64>,
    bias: Option<u64>,
    r: u64,
) -> bool;

/// The length that a transposed convolution makes of `n`.
pub open spec fn spread_len(c: ConvVal, n: nat) -> int {
    (n - 1) * c.stride + (c.weight.dims[2] - 1) + c.output_padding + 1 - 2 * c.padding
}

/// `r` has the shape of the transposed convolution of `x`.
pub open spec fn spread_shape(c: ConvVal, x: TensorVal, r: TensorVal) -> bool {
    &&& x.dims[1] == c.weight.dims[0]
    &&& r.dims == seq![
        x.dims[0],
        c.weight.dims[1],
        spread_len(c, x.dims[2]) as nat,
        spread_len(c, x.dims[3]) as nat,
    ]
    &&& r.good()
    &&& r.cpu == x.cpu
}

/// `r` is the transposed convolution of `x`.
pub open spec fn is_spread(c: ConvVal, x: TensorVal, r: TensorVal) -> bool {
    let k = c.weight.dims[2] as int;
    &&& spread_shape(c, x, r)
    &&& forall|i: int, o: int, y: int, l: int|
        inside4(r.dims, i, o, y, l) ==> spread_outcome(
            spread(x, i, y, l, k, c.stride as int, c.padding as int),
            spread_kernel(c.weight, o),
            c.bias_at(o),
            #[trigger] r.at4(i, o, y, l),
        )
}

impl ConvVal {
    /// A transposed convolution of `n_in` to `n_out` channels with a square
    /// kernel that its padding does not outweigh.
    pub open spec fn spreading(self, n_in: nat, n_out: nat, kernel: nat) -> bool {
        &&& self.weight.good()
        &&& self.weight.dims == seq![n_in, n_out, kernel, kernel]
        &&& self.bias matches Some(b) ==> b.len() == n_out
        &&& self.stride >= 1
        &&& self.dilation == 1
        &&& kernel + self.output_padding > 2 * self.padding
        &&& 2 * self.padding <= isize::MAX
    }
}

/// `ConvTranspose2d::forward`: a transposed convolution without dilation. Another
/// number of input channels is an error.
#[verifier::external_body]
pub(crate) fn transposed_forward(c: &ConvTranspose2d, x: &Tensor) -> (r: Result<
    Tensor,
    candle_core::Error,
>)
    requires
        tensor_val(*x).good(),
        tensor_val(*x).dims.len() == 4,
        exists|n_in: nat, n_out: nat, kernel: nat|
            transposed_conv_val(*c).spreading(n_in, n_out, kernel),
        numbered(
            tensor_val(*x).dims[0] * transposed_conv_val(*c).weight.dims[1] * spread_len(
                transposed_conv_val(*c),
                tensor_val(*x).dims[2],
            ) * spread_len(transposed_conv_val(*c), tensor_val(*x).dims[3]),
        ),
    ensures
        transposed_conv_val(*c).cpu && tensor_val(*x).cpu && tensor_val(*x).dims[1]
            == transposed_conv_val(*c).weight.dims[0] ==> r is Ok,
        r matches Ok(t) ==> spread_shape(transposed_conv_val(*c), tensor_val(*x), tensor_val(t))
            && forall|i: int, o: int, y: int, l: int|
            inside4(tensor_val(t).dims, i, o, y, l) ==> spread_outcome(
                spread(
                    tensor_val(*x),
                    i,
                    y,
                    l,
                    transposed_conv_val(*c).weight.dims[2] as int,
                    transposed_conv_val(*c).stride as int,
                    transposed_conv_val(*c).padding as int,
                ),
                spread_kernel(transposed_conv_val(*c).weight, o),
                transposed_conv_val(*c).bias_at(o),
                #[trigger] tensor_val(t).at4(i, o, y, l),
            ),
{
    c.forward(x)
}

impl NormVal {
    /// The default configuration over `n` channels.
    pub open spec fn wf(self, n: nat) -> bool {
        &&& self.standard
        &&& self.mean.len() == n
        &&& self.var.len() == n
        &&& self.weight.len() == n
        &&& self.bias.len() == n
    }
}

/// `BatchNorm::forward_t` outside training, in the default configuration, may
/// give `r` for an element and the statistics of its channel.
pub uninterp spec fn norm_outcome(
    a: u64,
    mean: u64,
    var: u64,
    weight: u64,
    bias: u64,
    r: u64,
) -> bool;

/// `r` is `x` with every element normalised by the statistics of its channel.
pub open spec fn is_normed(n: NormVal, x: TensorVal, r: TensorVal) -> bool {
    &&& like(x, r)
    &&& x.dims[1] == n.mean.len()
    &&& forall|i: int, j: int, k: int, l: int|
        inside4(r.dims, i, j, k, l) ==> norm_outcome(
            x.at4(i, j, k, l),
            n.mean[j],
            n.var[j],
            n.weight[j],
            n.bias[j],
            #[trigger] r.at4(i, j, k, l),
        )
}

/// `BatchNorm::forward_t` outside training, in the default configuration: every
/// element normalised by the statistics of its channel. Another number of
/// channels is an error.
#[verifier::external_body]
pub(crate) fn norm_forward(b: &BatchNorm, x: &Tensor) -> (r: Result<Tensor, candle_core::Error>)
    requires
        norm_val(*b).wf(norm_val(*b).mean.len()),
        tensor_val(*x).good(),
        tensor_val(*x).dims.len() == 4,
    ensures
        norm_val(*b).cpu && tensor_val(*x).cpu && tensor_val(*x).dims[1] == norm_val(*b).mean.len()
            ==> r is Ok,
        r matches Ok(t) ==> {
            &&& like(tensor_val(*x), tensor_val(t))
            &&& tensor_val(*x).dims[1] == norm_val(*b).mean.len()
            &&& forall|i: int, j: int, k: int, l: int|
                inside4(tensor_val(t).dims, i, j, k, l) ==> norm_outcome(
                    tensor_val(*x).at4(i, j, k, l),
                    norm_val(*b).mean[j],
                    norm_val(*b).var[j],
                    norm_val(*b).weight[j],
                    norm_val(*b).bias[j],
                    #[trigger] tensor_val(t).at4(i, j, k, l),
                )
        },
{
    b.forward_t(x, false)
}

/// `Tensor::avg_pool2d` may give `r` for the four elements of a square.
pub uninterp spec fn pool_outcome(a: u64, b: u64, c: u64, d: u64, r: u64) -> bool;

/// `r` is `x` with each square of two by two elements averaged.
pub open spec fn is_pooled(x: TensorVal, r: TensorVal) -> bool {
    &&& r.dims == seq![x.dims[0], x.dims[1], x.dims[2] / 2, x.dims[3] / 2]
    &&& r.good()
    &&& r.cpu == x.cpu
    &&& forall|i: int, j: int, k: int, l: int|
        inside4(r.dims, i, j, k, l) ==> pool_outcome(
            x.at4(i, j, 2 * k, 2 * l),
            x.at4(i, j, 2 * k, 2 * l + 1),
            x.at4(i, j, 2 * k + 1, 2 * l),
            x.at4(i, j, 2 * k + 1, 2 * l + 1),
            #[trigger] r.at4(i, j, k, l),
        )
}

/// `Tensor::avg_pool2d` with a square of side two: averages of squares of two by
/// two elements. A tensor smaller than the square is an error.
#[verifier::external_body]
pub(crate) fn avg_pool(x: &Tensor) -> (r: Result<Tensor, candle_core::Error>)
    requires
        tensor_val(*x).good(),
        tensor_val(*x).dims.len() == 4,
    ensures
        tensor_val(*x).cpu && tensor_val(*x).dims[2] >= 2 && tensor_val(*x).dims[3] >= 2
            ==> r is Ok,
        r matches Ok(t) ==> {
            &&& tensor_val(t).dims == seq![
                tensor_val(*x).dims[0],
                tensor_val(*x).dims[1],
                tensor_val(*x).dims[2] / 2,
                tensor_val(*x).dims[3] / 2,
            ]
            &&& tensor_val(t).good()
            &&& tensor_val(t).cpu == tensor_val(*x).cpu
            &&& forall|i: int, j: int, k: int, l: int|
                inside4(tensor_val(t).dims, i, j, k, l) ==> pool_outcome(
                    tensor_val(*x).at4(i, j, 2 * k, 2 * l),
                    tensor_val(*x).at4(i, j, 2 * k, 2 * l + 1),
                    tensor_val(*x).at4(i, j, 2 * k + 1, 2 * l),
                    tensor_val(*x).at4(i, j, 2 * k + 1, 2 * l + 1),
                    #[trigger] tensor_val(t).at4(i, j, k, l),
                )
        },
{
    x.avg_pool2d(2)
}

} // verus!
