//! The generator: downsampling blocks, residual blocks with a local and a global
//! branch at the bottleneck, and upsampling back to the size of the image.
//!
//! Layers stand in a weights file under `model` and their index:
//!
//! ```text
//!  0      reflection by 3              no weights
//!  1      block 4 -> 64, kernel 7       local statistics only
//!  2..3   downsampling blocks           local statistics only
//!  4      downsampling block, three     local and global statistics
//!         quarters global
//!  5..22  residual blocks
//!  23     join of the branches          no weights
//!  24/25  transposed convolution 512 -> 256, statistics (26: activation)
//!  27/28  transposed convolution 256 -> 128, statistics (29: activation)
//!  30/31  transposed convolution 128 -> 64, statistics (32: activation)
//!  33     reflection by 3              no weights
//!  34     convolution 64 -> 3, kernel 7, with bias
//!  35     sigmoid                       no weights
//! ```

use candle_core::{Device, Tensor};
use candle_nn::{BatchNorm, ConvTranspose2d};
use vstd::prelude::*;

use crate::axes::{lemma_axis_grows, lemma_product4};
use crate::blocks::{
    addable, is_reflect_padded, lemma_block_shape, option_good, option_val, ref_val, reflect_pad2d,
    total_wave, BlockShape, ConvLayer, FfcBnAct, ResnetBlock,
};
use crate::error::{lift, WorkerError};
use crate::layers::{
    conv_len, conv_val, is_conv, is_normed, is_spread, norm_forward, norm_val, spread_len, transposed_conv_val,
    transposed_forward, ConvVal,
};
use crate::tensor::{
    affine, all_within, broadcast_as, count_fits, device, dims, exp, filled, from_bits, is_affine, is_broadcast, is_cpu, is_exp, is_joined, is_neg,
    is_rank, is_recip, is_relu, is_scaled, is_single, join, leading_count, lemma_widened_words, lengths, neg, nonempty, numbered, product, recip,
    relu, shape4, stretches, tensor_val, times, widened, TensorVal, WHITE,
};
use crate::weights::{
    batch_norm, biased_conv_held, biased_conv_loaded, conv_transpose2d, decimal, digits, norm_held,
    norm_loaded, readable, spread_held, spread_loaded, weights_bytes, weights_cpu, weights_path,
    Weights,
};

verus! {

/// Channels of the image with its mask.
pub const IN_NC: usize = 4;

/// Channels of the result.
pub const OUT_NC: usize = 3;

/// Channels behind the first block.
pub const NGF: usize = 64;

/// Downsampling steps.
pub const N_DS: usize = 3;

/// Residual blocks.
pub const N_BL: usize = 18;

/// The global share behind the last downsampling block, in quarters.
pub const RG: usize = 3;

/// A transposed convolution with the lengths that its input is checked against.
pub struct UpLayer {
    pub conv: ConvTranspose2d,
    pub n_out: usize,
    pub kernel: usize,
    pub stride: usize,
    pub padding: usize,
    pub output_padding: usize,
}

impl UpLayer {
    /// The lengths are those of the convolution.
    pub open spec fn wf(self) -> bool {
        let c = transposed_conv_val(self.conv);
        &&& c.spreading(c.weight.dims[0], self.n_out as nat, self.kernel as nat)
        &&& c.stride == self.stride
        &&& c.padding == self.padding
        &&& c.output_padding == self.output_padding
    }

    /// The number of elements of the result for an input of the given lengths.
    pub open spec fn out_count(self, d: Seq<nat>) -> int {
        d[0] * self.n_out as nat * spread_len(transposed_conv_val(self.conv), d[2]) * spread_len(
            transposed_conv_val(self.conv),
            d[3],
        )
    }

    /// The weights lie on the CPU.
    pub open spec fn on_cpu(self) -> bool {
        transposed_conv_val(self.conv).cpu
    }

    /// The layer and its input lie on the CPU and agree on the channels.
    pub open spec fn agrees(self, x: TensorVal) -> bool {
        &&& self.on_cpu()
        &&& x.cpu
        &&& x.dims[1] == transposed_conv_val(self.conv).weight.dims[0]
    }

    /// Loads a transposed convolution with its bias.
    pub fn load(
        n_in: usize,
        n_out: usize,
        kernel: usize,
        stride: usize,
        padding: usize,
        output_padding: usize,
        w: Weights,
    ) -> (r: Result<UpLayer, WorkerError>)
        requires
            n_in >= 1,
            n_out >= 1,
            kernel >= 1,
            stride >= 1,
            numbered(n_out * n_in * kernel * kernel),
            kernel + output_padding > 2 * padding,
            2 * padding <= isize::MAX,
        ensures
            weights_cpu(w) ==> (r is Ok <==> spread_held(
                weights_bytes(w),
                weights_path(w),
                n_in as nat,
                n_out as nat,
                kernel as nat,
            )),
            match r {
                Ok(u) => u.wf() && u.on_cpu() == weights_cpu(w) && spread_loaded(
                    transposed_conv_val(u.conv),
                    weights_bytes(w),
                    weights_path(w),
                    n_in as nat,
                    n_out as nat,
                    kernel as nat,
                    stride as nat,
                    padding as nat,
                    output_padding as nat,
                ),
                Err(e) => e is Candle,
            },
    {
        let conv = lift(
            conv_transpose2d(n_in, n_out, kernel, stride, padding, output_padding, w),
        )?;
        Ok(UpLayer { conv, n_out, kernel, stride, padding, output_padding })
    }

    /// The length that the layer makes of `n`, `None` where it passes `usize`.
    fn side(&self, n: usize) -> (r: Option<usize>)
        requires
            self.wf(),
            n >= 1,
        ensures
            match r {
                Some(v) => v == spread_len(transposed_conv_val(self.conv), n as nat) && v >= 1,
                None => spread_len(transposed_conv_val(self.conv), n as nat) > usize::MAX,
            },
    {
        let ghost c = transposed_conv_val(self.conv);
        let body: u128 = (self.kernel as u128 + self.output_padding as u128) - 2
            * self.padding as u128;
        assert((n - 1) * self.stride >= 0) by (nonlinear_arith)
            requires
                n >= 1,
        ;
        let steps: usize = match (n - 1).checked_mul(self.stride) {
            Some(v) => v,
            None => {
                return None;
            },
        };
        let total: u128 = steps as u128 + body;
        if total > usize::MAX as u128 {
            None
        } else {
            Some(total as usize)
        }
    }

    /// The transposed convolution of `x`.
    pub fn forward(&self, x: &Tensor) -> (r: Result<Tensor, WorkerError>)
        requires
            self.wf(),
            tensor_val(*x).good(),
        ensures
            match r {
                Ok(y) => {
                    &&& tensor_val(*x).dims.len() == 4
                    &&& numbered(self.out_count(tensor_val(*x).dims))
                    &&& is_spread(transposed_conv_val(self.conv), tensor_val(*x), tensor_val(y))
                },
                Err(e) => if tensor_val(*x).dims.len() != 4 {
                    is_rank(e, 4, tensor_val(*x).dims)
                } else if !numbered(self.out_count(tensor_val(*x).dims)) {
                    e is TooLarge
                } else {
                    e is Candle && !self.agrees(tensor_val(*x))
                },
            },
    {
        let (b, _, h, w) = shape4(x)?;
        let ghost c = transposed_conv_val(self.conv);
        let ghost lh = spread_len(c, h as nat);
        let ghost lw = spread_len(c, w as nat);
        proof {
            lemma_spread_positive(*self, h as nat);
            lemma_spread_positive(*self, w as nat);
            let n = self.n_out as int;
            assert(b * n >= 1 && b * n * lh >= lh && b * n * lh * lw >= lh && b * n * lh * lw
                >= lw) by (nonlinear_arith)
                requires
                    b >= 1,
                    n >= 1,
                    lh >= 1,
                    lw >= 1,
            ;
        }
        let oh: usize = match self.side(h) {
            Some(v) => v,
            None => {
                return Err(WorkerError::TooLarge);
            },
        };
        let ow: usize = match self.side(w) {
            Some(v) => v,
            None => {
                return Err(WorkerError::TooLarge);
            },
        };
        if !count_fits(b, self.n_out, oh, ow) {
            return Err(WorkerError::TooLarge);
        }
        lift(transposed_forward(&self.conv, x))
    }
}

/// A transposed convolution makes no axis empty.
proof fn lemma_spread_positive(u: UpLayer, n: nat)
    requires
        u.wf(),
        n >= 1,
    ensures
        spread_len(transposed_conv_val(u.conv), n) >= 1,
        u.n_out >= 1,
{
    let c = transposed_conv_val(u.conv);
    assert((n - 1) * c.stride >= 0) by (nonlinear_arith)
        requires
            n >= 1,
            c.stride >= 1,
    ;
    assert(c.weight.dims[1] >= 1);
}

/// Channels after `i` downsampling steps.
pub open spec fn channels(i: int) -> usize {
    if i <= 0 {
        64
    } else if i == 1 {
        128
    } else if i == 2 {
        256
    } else {
        512
    }
}

/// The shape of the first block: the image and its mask, a kernel of seven.
pub open spec fn init_shape() -> BlockShape {
    BlockShape { in_ch: IN_NC, out_ch: NGF, gin: 0, gout: 0, stride: 1, pad: 0, kernel: 7 }
}

/// The shape of downsampling block `i`: only the last one gives a global branch.
pub open spec fn down_shape(i: int) -> BlockShape {
    BlockShape {
        in_ch: channels(i),
        out_ch: channels(i + 1),
        gin: 0,
        gout: if i == N_DS - 1 {
            RG
        } else {
            0
        },
        stride: 2,
        pad: 1,
        kernel: 3,
    }
}

/// The path of layer `i` in a file.
pub open spec fn layer_path(i: nat) -> Seq<Seq<char>> {
    seq!["model"@, decimal(i)]
}

/// The generator.
pub struct CandleInpainter {
    pub init: FfcBnAct,
    pub downs: Vec<FfcBnAct>,
    pub res: Vec<ResnetBlock>,
    pub up_conv: Vec<UpLayer>,
    pub up_bn: Vec<BatchNorm>,
    pub final_conv: ConvLayer,
}

/// Upsampling step `i` stands in the file: a transposed convolution that doubles
/// both sides, and the statistics behind it.
pub open spec fn up_loaded(u: UpLayer, bn: BatchNorm, bytes: Seq<u8>, i: int) -> bool {
    &&& u.wf()
    &&& spread_loaded(
        transposed_conv_val(u.conv),
        bytes,
        layer_path((24 + 3 * i) as nat),
        channels(3 - i) as nat,
        channels(2 - i) as nat,
        3,
        2,
        1,
        1,
    )
    &&& norm_loaded(
        norm_val(bn),
        bytes,
        layer_path((25 + 3 * i) as nat),
        channels(2 - i) as nat,
    )
}

/// The file holds downsampling block `i`.
pub open spec fn down_held(bytes: Seq<u8>, i: int) -> bool {
    FfcBnAct::held(bytes, layer_path((i + 2) as nat), down_shape(i))
}

/// The file holds residual block `i`.
pub open spec fn res_held(bytes: Seq<u8>, i: int) -> bool {
    ResnetBlock::held(bytes, layer_path((i + 5) as nat), 512, RG, RG)
}

/// The file holds upsampling step `i`.
pub open spec fn up_held(bytes: Seq<u8>, i: int) -> bool {
    &&& spread_held(
        bytes,
        layer_path((24 + 3 * i) as nat),
        channels(3 - i) as nat,
        channels(2 - i) as nat,
        3,
    )
    &&& norm_held(bytes, layer_path((25 + 3 * i) as nat), channels(2 - i) as nat)
}

/// The bytes are a safetensors file that holds every layer of the generator under
/// its index. Nothing is asked of the indices of layers without weights.
pub open spec fn complete(bytes: Seq<u8>) -> bool {
    &&& readable(bytes)
    &&& FfcBnAct::held(bytes, layer_path(1), init_shape())
    &&& forall|i: int| 0 <= i < N_DS ==> #[trigger] down_held(bytes, i)
    &&& forall|i: int| 0 <= i < N_BL ==> #[trigger] res_held(bytes, i)
    &&& forall|i: int| 0 <= i < N_DS ==> #[trigger] up_held(bytes, i)
    &&& biased_conv_held(bytes, layer_path(34), NGF as nat, OUT_NC as nat, 7)
}

impl CandleInpainter {
    /// Every layer is well formed, and each upsampling step has its statistics.
    pub open spec fn wf(self) -> bool {
        &&& self.init.wf()
        &&& forall|i: int| 0 <= i < self.downs@.len() ==> (#[trigger] self.downs@[i]).wf()
        &&& forall|i: int| 0 <= i < self.res@.len() ==> (#[trigger] self.res@[i]).wf()
        &&& forall|i: int| 0 <= i < self.up_conv@.len() ==> (#[trigger] self.up_conv@[i]).wf()
        &&& self.up_bn@.len() == self.up_conv@.len()
        &&& forall|i: int|
            0 <= i < self.up_bn@.len() ==> norm_val(#[trigger] self.up_bn@[i]).wf(
                norm_val(self.up_bn@[i]).mean.len(),
            )
        &&& self.final_conv.wf()
    }

    /// The generator is the one whose weights a file holds: every layer with the
    /// weights under its index.
    pub open spec fn loaded(self, bytes: Seq<u8>) -> bool {
        &&& self.init.loaded(bytes, layer_path(1), init_shape())
        &&& self.downs@.len() == N_DS
        &&& forall|i: int|
            0 <= i < N_DS ==> (#[trigger] self.downs@[i]).loaded(
                bytes,
                layer_path((i + 2) as nat),
                down_shape(i),
            )
        &&& self.res@.len() == N_BL
        &&& forall|i: int|
            0 <= i < N_BL ==> (#[trigger] self.res@[i]).loaded(
                bytes,
                layer_path((i + 5) as nat),
                512,
                RG,
                RG,
            )
        &&& self.up_conv@.len() == N_DS
        &&& self.up_bn@.len() == N_DS
        &&& forall|i: int|
            0 <= i < N_DS ==> up_loaded(#[trigger] self.up_conv@[i], self.up_bn@[i], bytes, i)
        &&& self.final_conv.wf()
        &&& (self.final_conv.n_in, self.final_conv.n_out) == (NGF, OUT_NC)
        &&& (self.final_conv.kernel, self.final_conv.stride) == (7usize, 1usize)
        &&& biased_conv_loaded(
            conv_val(self.final_conv.conv),
            bytes,
            layer_path(34),
            NGF as nat,
            OUT_NC as nat,
            7,
        )
    }

    /// The weights lie on the CPU.
    pub open spec fn on_cpu(self) -> bool {
        &&& self.init.on_cpu()
        &&& forall|i: int| 0 <= i < self.downs@.len() ==> (#[trigger] self.downs@[i]).on_cpu()
        &&& forall|i: int| 0 <= i < self.res@.len() ==> (#[trigger] self.res@[i]).on_cpu()
        &&& forall|i: int| 0 <= i < self.up_conv@.len() ==> (#[trigger] self.up_conv@[i]).on_cpu()
        &&& forall|i: int| 0 <= i < self.up_bn@.len() ==> norm_val(#[trigger] self.up_bn@[i]).cpu
        &&& self.final_conv.on_cpu()
    }

    /// The generator came out of a file.
    pub open spec fn standard(self) -> bool {
        exists|bytes: Seq<u8>| #[trigger] self.loaded(bytes)
    }

    /// Loads the generator from the bytes of a safetensors file.
    pub fn from_safetensors(bytes: Vec<u8>, device: &Device) -> (r: Result<
        CandleInpainter,
        WorkerError,
    >)
        ensures
            is_cpu(*device) ==> (r is Ok <==> complete(bytes@)),
            match r {
                Ok(m) => m.wf() && m.loaded(bytes@) && (is_cpu(*device) ==> m.on_cpu()),
                Err(e) => e is Candle,
            },
    {
        let ghost file = bytes@;
        let root = Weights::read(bytes, device)?;
        let model = root.pp("model");
        assert(weights_path(model) =~= seq!["model"@]);
        proof {
            reveal_strlit("1");
            assert("1"@ =~= decimal(1));
            lemma_shapes_ok();
        }
        let shape = BlockShape {
            in_ch: IN_NC,
            out_ch: NGF,
            gin: 0,
            gout: 0,
            stride: 1,
            pad: 0,
            kernel: 7,
        };
        let first = model.pp("1");
        assert(weights_path(first) =~= layer_path(1));
        let init = FfcBnAct::load(first, shape)?;
        let downs = Self::load_downs(&model, Ghost(file))?;
        let res = Self::load_res(&model, Ghost(file))?;
        let (up_conv, up_bn) = Self::load_ups(&model, Ghost(file))?;
        let last = layer_at(&model, 34);
        let final_conv = ConvLayer::load_biased(NGF, OUT_NC, 7, last)?;
        let m = CandleInpainter { init, downs, res, up_conv, up_bn, final_conv };
        assert(m.loaded(file));
        proof {
            lemma_loaded_wf(m, file);
            if is_cpu(*device) {
                assert forall|i: int| 0 <= i < m.up_bn@.len() implies norm_val(
                    #[trigger] m.up_bn@[i],
                ).cpu by {
                    assert(m.up_conv@[i].on_cpu());
                }
            }
        }
        Ok(m)
    }

    /// Loads the downsampling blocks.
    fn load_downs(model: &Weights, Ghost(file): Ghost<Seq<u8>>) -> (r: Result<
        Vec<FfcBnAct>,
        WorkerError,
    >)
        requires
            weights_bytes(*model) == file,
            weights_path(*model) == seq!["model"@],
        ensures
            weights_cpu(*model) ==> (r is Ok <==> forall|i: int|
                0 <= i < N_DS ==> #[trigger] down_held(file, i)),
            match r {
                Ok(v) => v@.len() == N_DS && forall|i: int|
                    0 <= i < N_DS ==> (#[trigger] v@[i]).loaded(
                        file,
                        layer_path((i + 2) as nat),
                        down_shape(i),
                    ) && (weights_cpu(*model) ==> v@[i].on_cpu()),
                Err(e) => e is Candle,
            },
    {
        let mut v: Vec<FfcBnAct> = Vec::new();
        let mut i: usize = 0;
        let mut width: usize = NGF;
        while i < N_DS
            invariant
                i <= N_DS,
                width == channels(i as int),
                v@.len() == i,
                weights_bytes(*model) == file,
                weights_path(*model) == seq!["model"@],
                forall|j: int|
                    0 <= j < i ==> (#[trigger] v@[j]).loaded(
                        file,
                        layer_path((j + 2) as nat),
                        down_shape(j),
                    ) && (weights_cpu(*model) ==> v@[j].on_cpu()),
                weights_cpu(*model) ==> forall|j: int|
                    0 <= j < i ==> #[trigger] down_held(file, j),
            decreases N_DS - i,
        {
            let gout: usize = if i == N_DS - 1 {
                RG
            } else {
                0
            };
            let s = BlockShape {
                in_ch: width,
                out_ch: 2 * width,
                gin: 0,
                gout,
                stride: 2,
                pad: 1,
                kernel: 3,
            };
            proof {
                lemma_shapes_ok();
                assert(s == down_shape(i as int));
                assert(down_held(file, i as int) == FfcBnAct::held(
                    file,
                    layer_path((i + 2) as nat),
                    s,
                ));
            }
            let b = FfcBnAct::load(layer_at(model, i + 2), s)?;
            v.push(b);
            width = 2 * width;
            i = i + 1;
        }
        Ok(v)
    }

    /// Loads the residual blocks.
    fn load_res(model: &Weights, Ghost(file): Ghost<Seq<u8>>) -> (r: Result<
        Vec<ResnetBlock>,
        WorkerError,
    >)
        requires
            weights_bytes(*model) == file,
            weights_path(*model) == seq!["model"@],
        ensures
            weights_cpu(*model) ==> (r is Ok <==> forall|i: int|
                0 <= i < N_BL ==> #[trigger] res_held(file, i)),
            match r {
                Ok(v) => v@.len() == N_BL && forall|i: int|
                    0 <= i < N_BL ==> (#[trigger] v@[i]).loaded(
                        file,
                        layer_path((i + 5) as nat),
                        512,
                        RG,
                        RG,
                    ) && (weights_cpu(*model) ==> v@[i].on_cpu()),
                Err(e) => e is Candle,
            },
    {
        let mut v: Vec<ResnetBlock> = Vec::new();
        let mut i: usize = 0;
        while i < N_BL
            invariant
                i <= N_BL,
                v@.len() == i,
                weights_bytes(*model) == file,
                weights_path(*model) == seq!["model"@],
                forall|j: int|
                    0 <= j < i ==> (#[trigger] v@[j]).loaded(
                        file,
                        layer_path((j + 5) as nat),
                        512,
                        RG,
                        RG,
                    ) && (weights_cpu(*model) ==> v@[j].on_cpu()),
                weights_cpu(*model) ==> forall|j: int|
                    0 <= j < i ==> #[trigger] res_held(file, j),
            decreases N_BL - i,
        {
            proof {
                lemma_shapes_ok();
                assert(res_held(file, i as int) == ResnetBlock::held(
                    file,
                    layer_path((i + 5) as nat),
                    512,
                    RG,
                    RG,
                ));
            }
            let b = ResnetBlock::load(layer_at(model, i + 5), 512, RG, RG)?;
            v.push(b);
            i = i + 1;
        }
        Ok(v)
    }

    /// Loads the upsampling steps.
    fn load_ups(model: &Weights, Ghost(file): Ghost<Seq<u8>>) -> (r: Result<
        (Vec<UpLayer>, Vec<BatchNorm>),
        WorkerError,
    >)
        requires
            weights_bytes(*model) == file,
            weights_path(*model) == seq!["model"@],
        ensures
            weights_cpu(*model) ==> (r is Ok <==> forall|i: int|
                0 <= i < N_DS ==> #[trigger] up_held(file, i)),
            match r {
                Ok((u, b)) => u@.len() == N_DS && b@.len() == N_DS && forall|i: int|
                    0 <= i < N_DS ==> up_loaded(#[trigger] u@[i], b@[i], file, i) && (weights_cpu(
                        *model,
                    ) ==> u@[i].on_cpu() && norm_val(b@[i]).cpu),
                Err(e) => e is Candle,
            },
    {
        let mut u: Vec<UpLayer> = Vec::new();
        let mut b: Vec<BatchNorm> = Vec::new();
        let mut i: usize = 0;
        let mut width: usize = 512;
        while i < N_DS
            invariant
                i <= N_DS,
                width == channels(3 - i),
                u@.len() == i,
                b@.len() == i,
                weights_bytes(*model) == file,
                weights_path(*model) == seq!["model"@],
                forall|j: int|
                    0 <= j < i ==> up_loaded(#[trigger] u@[j], b@[j], file, j) && (weights_cpu(
                        *model,
                    ) ==> u@[j].on_cpu() && norm_val(b@[j]).cpu),
                weights_cpu(*model) ==> forall|j: int|
                    0 <= j < i ==> #[trigger] up_held(file, j),
            decreases N_DS - i,
        {
            let base: usize = 2 + N_DS + N_BL + 1 + 3 * i;
            let half: usize = width / 2;
            assert(up_held(file, i as int) == (spread_held(
                file,
                layer_path(base as nat),
                width as nat,
                half as nat,
                3,
            ) && norm_held(file, layer_path((base + 1) as nat), half as nat)));
            assert(half * width * 3 * 3 <= 256 * 512 * 9) by (nonlinear_arith)
                requires
                    width <= 512,
                    half <= 256,
            ;
            let conv = UpLayer::load(width, half, 3, 2, 1, 1, layer_at(model, base))?;
            let bn = lift(batch_norm(half, layer_at(model, base + 1)))?;
            let ghost u0 = u@;
            let ghost b0 = b@;
            u.push(conv);
            b.push(bn);
            assert(up_loaded(u@[i as int], b@[i as int], file, i as int));
            assert forall|j: int| 0 <= j < i + 1 implies up_loaded(
                #[trigger] u@[j],
                b@[j],
                file,
                j,
            ) && (weights_cpu(*model) ==> u@[j].on_cpu() && norm_val(b@[j]).cpu) by {
                if j < i {
                    assert(u@[j] == u0[j] && b@[j] == b0[j]);
                }
            }
            width = half;
            i = i + 1;
        }
        Ok((u, b))
    }
}

/// A generator out of a file is well formed.
pub proof fn lemma_loaded_wf(m: CandleInpainter, bytes: Seq<u8>)
    requires
        m.loaded(bytes),
    ensures
        m.wf(),
{
    assert forall|i: int| 0 <= i < m.downs@.len() implies (#[trigger] m.downs@[i]).wf() by {
        assert(m.downs@[i].loaded(bytes, layer_path((i + 2) as nat), down_shape(i)));
    }
    assert forall|i: int| 0 <= i < m.res@.len() implies (#[trigger] m.res@[i]).wf() by {
        assert(m.res@[i].loaded(bytes, layer_path((i + 5) as nat), 512, RG, RG));
    }
    assert forall|i: int| 0 <= i < m.up_bn@.len() implies norm_val(#[trigger] m.up_bn@[i]).wf(
        norm_val(m.up_bn@[i]).mean.len(),
    ) by {
        assert(up_loaded(m.up_conv@[i], m.up_bn@[i], bytes, i));
    }
}

/// The weights of a layer by its index.
pub fn layer_at(model: &Weights, i: usize) -> (r: Weights)
    requires
        weights_path(*model) == seq!["model"@],
    ensures
        weights_bytes(r) == weights_bytes(*model),
        weights_path(r) == layer_path(i as nat),
        weights_cpu(r) == weights_cpu(*model),
{
    let name = digits(i);
    let r = model.pp(name.as_str());
    assert(weights_path(r) =~= layer_path(i as nat));
    r
}

/// The shapes of the generator's blocks make sense on every machine.
proof fn lemma_shapes_ok()
    ensures
        init_shape().ok(),
        forall|i: int| 0 <= i < N_DS ==> (#[trigger] down_shape(i)).ok(),
        ResnetBlock::shape(512, RG, RG).ok(),
        init_shape().in_l() == 4,
        init_shape().in_g() == 0,
        init_shape().out_l() == 64,
        init_shape().out_g() == 0,
        forall|i: int|
            0 <= i < N_DS ==> (#[trigger] down_shape(i)).in_l() == channels(i)
                && down_shape(i).out_l() == if i == N_DS - 1 {
                128
            } else {
                channels(i + 1) as nat
            } && down_shape(i).out_g() == if i == N_DS - 1 {
                384nat
            } else {
                0
            },
        ResnetBlock::shape(512, RG, RG).in_l() == 128,
        ResnetBlock::shape(512, RG, RG).out_l() == 128,
        ResnetBlock::shape(512, RG, RG).out_g() == 384,
{
}

/// The values between an image with its mask and the padded input.
pub struct EntrySteps {
    pub turned: TensorVal,
    pub outside: TensorVal,
    pub wide: TensorVal,
    pub masked: TensorVal,
    pub joined: TensorVal,
}

/// The input of the first block over the given steps: the image with its masked
/// pixels multiplied by `1 - mask`, then the mask as a further channel, and a
/// margin of three lines of reflection.
pub open spec fn enters_over(
    image: TensorVal,
    mask: TensorVal,
    t: EntrySteps,
    x: TensorVal,
) -> bool {
    &&& is_neg(mask, t.turned)
    &&& is_affine(t.turned, 1, 1, t.outside)
    &&& is_broadcast(t.outside, image.dims, t.wide)
    &&& is_scaled(image, t.wide, t.masked)
    &&& is_joined(t.masked, mask, 1, t.joined)
    &&& is_reflect_padded(t.joined, 3, x)
}

/// `x` may enter the first block for an image and its mask.
pub open spec fn enters(image: TensorVal, mask: TensorVal, x: TensorVal) -> bool {
    exists|t: EntrySteps| #[trigger] enters_over(image, mask, t, x)
}

/// Blocks run one after the other over the given branches: block `i` takes entry
/// `i` and gives entry `i + 1`.
pub open spec fn downs_over<T: Fn(usize, usize, usize) -> (u32, u32)>(
    wave: T,
    downs: Seq<FfcBnAct>,
    ls: Seq<TensorVal>,
    gs: Seq<Option<TensorVal>>,
) -> bool {
    &&& ls.len() == downs.len() + 1
    &&& gs.len() == downs.len() + 1
    &&& forall|i: int|
        0 <= i < downs.len() ==> (#[trigger] downs[i]).runs(
            wave,
            ls[i],
            gs[i],
            Some(ls[i + 1]),
            gs[i + 1],
        )
}

/// `(ol, og)` may come out of blocks that run one after the other.
pub open spec fn downs_run<T: Fn(usize, usize, usize) -> (u32, u32)>(
    wave: T,
    downs: Seq<FfcBnAct>,
    xl: TensorVal,
    xg: Option<TensorVal>,
    ol: TensorVal,
    og: Option<TensorVal>,
) -> bool {
    exists|ls: Seq<TensorVal>, gs: Seq<Option<TensorVal>>|
        {
            &&& #[trigger] downs_over(wave, downs, ls, gs)
            &&& (ls.first(), gs.first()) == (xl, xg)
            &&& (ls.last(), gs.last()) == (ol, og)
        }
}

/// Residual blocks run one after the other over the given branches.
pub open spec fn res_over<T: Fn(usize, usize, usize) -> (u32, u32)>(
    wave: T,
    res: Seq<ResnetBlock>,
    ls: Seq<TensorVal>,
    gs: Seq<TensorVal>,
) -> bool {
    &&& ls.len() == res.len() + 1
    &&& gs.len() == res.len() + 1
    &&& forall|i: int|
        0 <= i < res.len() ==> (#[trigger] res[i]).runs(wave, ls[i], gs[i], ls[i + 1], gs[i + 1])
}

/// `(ol, og)` may come out of residual blocks that run one after the other.
pub open spec fn res_run<T: Fn(usize, usize, usize) -> (u32, u32)>(
    wave: T,
    res: Seq<ResnetBlock>,
    xl: TensorVal,
    xg: TensorVal,
    ol: TensorVal,
    og: TensorVal,
) -> bool {
    exists|ls: Seq<TensorVal>, gs: Seq<TensorVal>|
        {
            &&& #[trigger] res_over(wave, res, ls, gs)
            &&& (ls.first(), gs.first()) == (xl, xg)
            &&& (ls.last(), gs.last()) == (ol, og)
        }
}

/// One upsampling step from `x` to `y`: a transposed convolution, normalisation
/// and activation.
pub open spec fn up_over(
    u: UpLayer,
    bn: BatchNorm,
    x: TensorVal,
    wide: TensorVal,
    normed: TensorVal,
    y: TensorVal,
) -> bool {
    &&& is_spread(transposed_conv_val(u.conv), x, wide)
    &&& is_normed(norm_val(bn), wide, normed)
    &&& is_relu(normed, y)
}

/// `y` may come out of one upsampling step.
pub open spec fn up_run(u: UpLayer, bn: BatchNorm, x: TensorVal, y: TensorVal) -> bool {
    exists|wide: TensorVal, normed: TensorVal| #[trigger] up_over(u, bn, x, wide, normed, y)
}

/// Upsampling steps run one after the other over the given values.
pub open spec fn ups_over(
    convs: Seq<UpLayer>,
    norms: Seq<BatchNorm>,
    xs: Seq<TensorVal>,
) -> bool {
    &&& xs.len() == convs.len() + 1
    &&& forall|i: int|
        0 <= i < convs.len() ==> up_run(#[trigger] convs[i], norms[i], xs[i], xs[i + 1])
}

/// `y` may come out of upsampling steps that run one after the other.
pub open spec fn ups_run(
    convs: Seq<UpLayer>,
    norms: Seq<BatchNorm>,
    x: TensorVal,
    y: TensorVal,
) -> bool {
    exists|xs: Seq<TensorVal>|
        {
            &&& #[trigger] ups_over(convs, norms, xs)
            &&& xs.first() == x
            &&& xs.last() == y
        }
}

/// The values between the last upsampling step and the result.
pub struct ExitSteps {
    pub padded: TensorVal,
    pub mixed: TensorVal,
    pub turned: TensorVal,
    pub power: TensorVal,
    pub below: TensorVal,
    pub level: TensorVal,
}

/// The values that an image passes through on its way to the result.
pub struct PassSteps {
    pub x: TensorVal,
    pub il: TensorVal,
    pub ig: Option<TensorVal>,
    pub dl: TensorVal,
    pub dg: TensorVal,
    pub rl: TensorVal,
    pub rg: TensorVal,
    pub joined: TensorVal,
    pub up: TensorVal,
}

/// An eighth of a length, rounded up.
pub open spec fn eighth(n: nat) -> nat {
    (n + 7) / 8
}

/// The lengths that come out of the generator for images of the given lengths:
/// sides that eight does not divide are rounded up.
pub open spec fn result_dims(d: Seq<nat>) -> Seq<nat> {
    seq![d[0], d[1], 8 * eighth(d[2]), 8 * eighth(d[3])]
}

/// The generator takes the image with its mask: three channels and one, and sides
/// whose eighth, rounded up, leaves room at the bottleneck.
pub open spec fn takes_size(image: TensorVal, mask: TensorVal) -> bool {
    let d = image.dims;
    &&& d.len() == 4
    &&& d[1] == 3
    &&& eighth(d[2]) >= 2
    &&& eighth(d[3]) >= 3
    &&& mask.dims == d.update(1, 1)
}

/// Memory can hold the widest values that the generator makes of images of the
/// given lengths: those behind the first block with their margin, and the
/// matrices of a transform.
pub open spec fn has_memory(d: Seq<nat>) -> bool {
    let (h, w) = (8 * eighth(d[2]), 8 * eighth(d[3]));
    &&& numbered((64 * d[0] * (h + 6) * (w + 6)) as int)
    &&& numbered((h * h) as int)
    &&& numbered((w * w) as int)
}

impl CandleInpainter {
    /// `y` may come out of the last layers for `x`: a margin of three lines, the
    /// last convolution, and `255 / (1 + exp(-v))` of every element.
    pub open spec fn exits_over(self, x: TensorVal, t: ExitSteps, y: TensorVal) -> bool {
        &&& is_reflect_padded(x, 3, t.padded)
        &&& is_conv(conv_val(self.final_conv.conv), t.padded, t.mixed)
        &&& is_neg(t.mixed, t.turned)
        &&& is_exp(t.turned, t.power)
        &&& is_affine(t.power, 1, 1, t.below)
        &&& is_recip(t.below, t.level)
        &&& is_affine(t.level, 255, 0, y)
    }

    /// `y` may come out of the last layers for `x`.
    pub open spec fn exits(self, x: TensorVal, y: TensorVal) -> bool {
        exists|t: ExitSteps| #[trigger] self.exits_over(x, t, y)
    }

    /// `y` comes out of the generator over the given steps.
    pub open spec fn runs_over<T: Fn(usize, usize, usize) -> (u32, u32)>(
        self,
        wave: T,
        image: TensorVal,
        mask: TensorVal,
        t: PassSteps,
        y: TensorVal,
    ) -> bool {
        &&& enters(image, mask, t.x)
        &&& self.init.runs(wave, t.x, None, Some(t.il), t.ig)
        &&& downs_run(wave, self.downs@, t.il, t.ig, t.dl, Some(t.dg))
        &&& res_run(wave, self.res@, t.dl, t.dg, t.rl, t.rg)
        &&& is_joined(t.rl, t.rg, 1, t.joined)
        &&& ups_run(self.up_conv@, self.up_bn@, t.joined, t.up)
        &&& self.exits(t.up, y)
    }

    /// `y` may come out of the generator for an image and its mask.
    pub open spec fn runs<T: Fn(usize, usize, usize) -> (u32, u32)>(
        self,
        wave: T,
        image: TensorVal,
        mask: TensorVal,
        y: TensorVal,
    ) -> bool {
        exists|t: PassSteps| #[trigger] self.runs_over(wave, image, mask, t, y)
    }

    /// The errors that a run may stop with.
    pub open spec fn stops(e: WorkerError) -> bool {
        ||| e is Candle
        ||| e is TooLarge
        ||| e is PadTooLarge
        ||| e is KernelTooLarge
        ||| e is DegenerateWidth
        ||| e is DroppedBranch
        ||| e is DroppedLocal
        ||| e is NoInitBranch
        ||| e is NoGlobalBranch
    }

    /// How a tensor that cannot enter the generator is refused.
    pub open spec fn refused(x: TensorVal, e: WorkerError) -> bool {
        if x.dims.len() != 4 {
            is_rank(e, 4, x.dims)
        } else if !x.single || !nonempty(x.dims) {
            e is NotAnImage
        } else {
            e is TooLarge && !numbered(product(x.dims) as int)
        }
    }

    /// Refuses a tensor that cannot enter the generator.
    fn screen(x: &Tensor) -> (r: Result<(), WorkerError>)
        ensures
            match r {
                Ok(_) => tensor_val(*x).good() && tensor_val(*x).dims.len() == 4,
                Err(e) => Self::refused(tensor_val(*x), e),
            },
    {
        let (b, c, h, w) = shape4(x)?;
        let ghost d = tensor_val(*x).dims;
        if !is_single(x) || b == 0 || c == 0 || h == 0 || w == 0 {
            proof {
                if nonempty(d) {
                    assert(d[0] >= 1 && d[1] >= 1 && d[2] >= 1 && d[3] >= 1);
                }
            }
            return Err(WorkerError::NotAnImage);
        }
        proof {
            lemma_product4(d);
        }
        if !count_fits(b, c, h, w) {
            return Err(WorkerError::TooLarge);
        }
        Ok(())
    }

    /// Zeroes the masked pixels, appends the mask and pads by three lines.
    fn enter(image: &Tensor, mask: &Tensor) -> (r: Result<Tensor, WorkerError>)
        requires
            tensor_val(*image).good(),
            tensor_val(*image).dims.len() == 4,
            tensor_val(*mask).good(),
            tensor_val(*mask).dims.len() == 4,
        ensures
            match r {
                Ok(x) => {
                    let d = tensor_val(*image).dims;
                    &&& enters(tensor_val(*image), tensor_val(*mask), tensor_val(x))
                    &&& tensor_val(x).good()
                    &&& tensor_val(x).dims == seq![
                        d[0],
                        d[1] + tensor_val(*mask).dims[1],
                        d[2] + 6,
                        d[3] + 6,
                    ]
                    &&& tensor_val(x).cpu == tensor_val(*image).cpu
                },
                Err(e) => {
                    let d = tensor_val(*image).dims;
                    &&& e is Candle || e is TooLarge || e is PadTooLarge
                    &&& e is PadTooLarge ==> d[2] <= 3 || d[3] <= 3
                    &&& takes_size(tensor_val(*image), tensor_val(*mask)) ==> {
                        ||| e is Candle && !(tensor_val(*image).cpu && tensor_val(*mask).cpu)
                        ||| e is TooLarge && !has_memory(d)
                    }
                },
            },
    {
        proof {
            if takes_size(tensor_val(*image), tensor_val(*mask)) {
                lemma_entry_memory(tensor_val(*image).dims, tensor_val(*mask).dims);
                assert(tensor_val(*mask).dims =~= tensor_val(*image).dims.update(
                    1,
                    tensor_val(*mask).dims[1],
                ));
                assert(stretches(tensor_val(*mask).dims, tensor_val(*image).dims));
            }
        }
        let turned = lift(neg(mask))?;
        let outside = lift(affine(&turned, 1, 1))?;
        let wide = lift(broadcast_as(&outside, image))?;
        let masked = lift(times(image, &wide))?;
        let joined = join(&masked, mask, 1)?;
        let x = reflect_pad2d(&joined, 3)?;
        proof {
            let t = EntrySteps {
                turned: tensor_val(turned),
                outside: tensor_val(outside),
                wide: tensor_val(wide),
                masked: tensor_val(masked),
                joined: tensor_val(joined),
            };
            assert(enters_over(tensor_val(*image), tensor_val(*mask), t, tensor_val(x)));
        }
        Ok(x)
    }

    /// Runs the downsampling blocks.
    fn down<T: Fn(usize, usize, usize) -> (u32, u32)>(
        &self,
        xl: Tensor,
        xg: Option<Tensor>,
        wave: &T,
        Ghost(bytes): Ghost<Seq<u8>>,
        Ghost(q): Ghost<(nat, nat, nat, bool)>,
    ) -> (r: Result<(Tensor, Option<Tensor>), WorkerError>)
        requires
            self.wf(),
            tensor_val(xl).good(),
            tensor_val(xl).dims.len() == 4,
            option_good(option_val(xg)),
            total_wave(*wave),
        ensures
            match r {
                Ok((ol, og)) => {
                    &&& tensor_val(ol).good()
                    &&& tensor_val(ol).dims.len() == 4
                    &&& option_good(option_val(og))
                    &&& downs_run(
                        *wave,
                        self.downs@,
                        tensor_val(xl),
                        option_val(xg),
                        tensor_val(ol),
                        option_val(og),
                    )
                    &&& self.loaded(bytes) && at_step(tensor_val(xl), option_val(xg), q, 0)
                        ==> at_step(tensor_val(ol), option_val(og), q, 3)
                },
                Err(e) => {
                    &&& e is Candle || e is TooLarge || e is PadTooLarge || e is KernelTooLarge
                        || e is DegenerateWidth || e is DroppedLocal
                    &&& self.loaded(bytes) && at_step(tensor_val(xl), option_val(xg), q, 0)
                        ==> (e is Candle && !(q.3 && self.on_cpu())) || (e is TooLarge
                        && !has_memory(up_dims(q, 3)))
                },
            },
    {
        let ghost lv = tensor_val(xl);
        let ghost gv = option_val(xg);
        let ghost good = self.loaded(bytes) && at_step(lv, gv, q, 0);
        let ghost mut ls = seq![lv];
        let ghost mut gs = seq![gv];
        let mut ol = xl;
        let mut og = xg;
        let mut i: usize = 0;
        while i < self.downs.len()
            invariant
                i <= self.downs@.len(),
                lv == tensor_val(xl),
                gv == option_val(xg),
                self.wf(),
                total_wave(*wave),
                tensor_val(ol).good(),
                tensor_val(ol).dims.len() == 4,
                option_good(option_val(og)),
                ls.len() == i + 1,
                gs.len() == i + 1,
                (ls.first(), gs.first()) == (lv, gv),
                (ls.last(), gs.last()) == (tensor_val(ol), option_val(og)),
                forall|j: int|
                    0 <= j < i ==> (#[trigger] self.downs@[j]).runs(
                        *wave,
                        ls[j],
                        gs[j],
                        Some(ls[j + 1]),
                        gs[j + 1],
                    ),
                good == (self.loaded(bytes) && at_step(lv, gv, q, 0)),
                good ==> at_step(tensor_val(ol), option_val(og), q, i as int),
            decreases self.downs.len() - i,
        {
            let ghost ml = tensor_val(ol);
            let ghost mg = option_val(og);
            proof {
                if good {
                    lemma_down_room(*self, bytes, i as int, ml, mg, q);
                }
            }
            let global = og.as_ref();
            assert(ref_val(global) == mg);
            let (nl, ng) = self.downs[i].forward(&ol, global, wave)?;
            proof {
                if good {
                    lemma_down_shape(
                        *self,
                        bytes,
                        i as int,
                        *wave,
                        ml,
                        mg,
                        option_val(nl),
                        option_val(ng),
                        q,
                    );
                }
            }
            ol = match nl {
                Some(t) => t,
                None => {
                    return Err(WorkerError::DroppedLocal);
                },
            };
            og = ng;
            proof {
                ls = ls.push(tensor_val(ol));
                gs = gs.push(option_val(og));
            }
            i = i + 1;
        }
        assert(downs_over(*wave, self.downs@, ls, gs));
        Ok((ol, og))
    }
}

/// The branches after `i` downsampling steps, `q` being the number of images, their
/// rows and columns and whether they lie on the CPU.
spec fn at_step(l: TensorVal, g: Option<TensorVal>, q: (nat, nat, nat, bool), i: int) -> bool {
    let h = side(q.1, i);
    let w = side(q.2, i);
    &&& eighth(q.1) >= 2
    &&& eighth(q.2) >= 3
    &&& q.3 ==> l.cpu
    &&& q.3 ==> (g matches Some(v) ==> v.cpu)
    &&& if i < 3 {
        l.dims == seq![q.0, channels(i) as nat, h, w] && g is None
    } else {
        &&& l.dims == seq![q.0, 128nat, h, w]
        &&& g matches Some(v)
        &&& v.dims == seq![q.0, 384nat, h, w]
    }
}

/// A side of `n` lines after `i` halvings, each rounded up.
spec fn side(n: nat, i: int) -> nat {
    if i <= 0 {
        n
    } else if i == 1 {
        (n + 1) / 2
    } else if i == 2 {
        (n + 3) / 4
    } else {
        eighth(n)
    }
}

/// The eighth of a side of `n` lines after `i` doublings.
spec fn grown(n: nat, i: int) -> nat {
    if i <= 0 {
        eighth(n)
    } else if i == 1 {
        2 * eighth(n)
    } else if i == 2 {
        4 * eighth(n)
    } else {
        8 * eighth(n)
    }
}

/// `b` images of `k` channels, `x` rows and `y` columns are no larger than
/// sixty-four channels of `h` rows and `w` columns, where `k` is made up for by
/// fewer lines.
proof fn lemma_no_larger(b: nat, k: nat, x: nat, y: nat, f: nat, g: nat, h: nat, w: nat)
    requires
        k <= 64 * (f * g),
        f * x <= h,
        g * y <= w,
    ensures
        b * k * x * y <= 64 * b * h * w,
{
    let (bi, ki, xi, yi) = (b as int, k as int, x as int, y as int);
    let (fi, gi, hi, wi) = (f as int, g as int, h as int, w as int);
    assert((fi * xi) * (gi * yi) <= hi * wi) by (nonlinear_arith)
        requires
            0 <= fi * xi <= hi,
            0 <= gi * yi <= wi,
    ;
    assert(fi * xi >= 0 && gi * yi >= 0 && xi * yi >= 0) by (nonlinear_arith)
        requires
            fi >= 0,
            xi >= 0,
            gi >= 0,
            yi >= 0,
    ;
    assert(ki * (xi * yi) <= 64 * (fi * gi) * (xi * yi)) by (nonlinear_arith)
        requires
            ki <= 64 * (fi * gi),
            xi * yi >= 0,
    ;
    assert(64 * (fi * gi) * (xi * yi) == 64 * ((fi * xi) * (gi * yi))) by (nonlinear_arith);
    assert(bi * (ki * (xi * yi)) <= bi * (64 * (hi * wi))) by (nonlinear_arith)
        requires
            bi >= 0,
            ki * (xi * yi) <= 64 * (hi * wi),
    ;
    assert(bi * (ki * (xi * yi)) == bi * ki * xi * yi) by (nonlinear_arith);
    assert(bi * (64 * (hi * wi)) == 64 * bi * hi * wi) by (nonlinear_arith);
}

/// Memory can number values that are no larger than the widest ones.
proof fn lemma_smaller_numbered(q: (nat, nat, nat, bool), k: nat, x: nat, y: nat, f: nat, g: nat)
    requires
        has_memory(up_dims(q, 3)),
        k <= 64 * (f * g),
        f * x <= 8 * eighth(q.1) + 6,
        g * y <= 8 * eighth(q.2) + 6,
    ensures
        numbered((q.0 * k * x * y) as int),
{
    assert(eighth(8 * eighth(q.1)) == eighth(q.1) && eighth(8 * eighth(q.2)) == eighth(q.2));
    lemma_no_larger(q.0, k, x, y, f, g, 8 * eighth(q.1) + 6, 8 * eighth(q.2) + 6);
}

/// Memory can number the joined image and mask, and their margin.
proof fn lemma_entry_memory(d: Seq<nat>, m: Seq<nat>)
    requires
        d.len() == 4,
        d[1] == 3,
        m == d.update(1, 1),
    ensures
        has_memory(d) ==> numbered((product(d) + product(m)) as int) && numbered(
            (d[0] * 4 * (d[2] + 6) * (d[3] + 6)) as int,
        ),
{
    lemma_product4(d);
    lemma_product4(m);
    let (b, h, w) = (d[0] as int, d[2] as int, d[3] as int);
    assert(b * 3 * h * w + b * 1 * h * w == b * 4 * h * w) by (nonlinear_arith);
    let (x, y) = (8 * eighth(d[2]) + 6, 8 * eighth(d[3]) + 6);
    lemma_no_larger(d[0], 4, d[2], d[3], 1, 1, x, y);
    lemma_no_larger(d[0], 4, d[2] + 6, d[3] + 6, 1, 1, x, y);
}

/// Memory can number what an upsampling step gives.
proof fn lemma_up_memory(q: (nat, nat, nat, bool), i: int)
    requires
        0 <= i < 3,
    ensures
        has_memory(up_dims(q, 3)) ==> numbered(
            (q.0 * channels(2 - i) as nat * grown(q.1, i + 1) * grown(q.2, i + 1)) as int,
        ),
        grown(q.1, i + 1) == 2 * grown(q.1, i),
        grown(q.2, i + 1) == 2 * grown(q.2, i),
{
    if has_memory(up_dims(q, 3)) {
        let f: nat = if i == 0 {
            4
        } else if i == 1 {
            2
        } else {
            1
        };
        lemma_smaller_numbered(
            q,
            channels(2 - i) as nat,
            grown(q.1, i + 1),
            grown(q.2, i + 1),
            f,
            1,
        );
    }
}

/// Memory can number the joined branches of the bottleneck.
proof fn lemma_bottleneck_memory(q: (nat, nat, nat, bool))
    ensures
        has_memory(up_dims(q, 3)) ==> numbered(
            (product(seq![q.0, 128nat, eighth(q.1), eighth(q.2)]) + product(
                seq![q.0, 384nat, eighth(q.1), eighth(q.2)],
            )) as int,
        ),
{
    lemma_product4(seq![q.0, 128nat, eighth(q.1), eighth(q.2)]);
    lemma_product4(seq![q.0, 384nat, eighth(q.1), eighth(q.2)]);
    let (b, h, w) = (q.0 as int, eighth(q.1) as int, eighth(q.2) as int);
    assert(b * 128 * h * w + b * 384 * h * w == b * 512 * h * w) by (nonlinear_arith);
    if has_memory(up_dims(q, 3)) {
        lemma_smaller_numbered(q, 512, eighth(q.1), eighth(q.2), 8, 1);
    }
}

/// Memory can number what the last layers make of the last upsampling step.
proof fn lemma_exit_memory(m: CandleInpainter, bytes: Seq<u8>, q: (nat, nat, nat, bool))
    requires
        m.loaded(bytes),
        has_memory(up_dims(q, 3)),
        eighth(q.1) >= 1,
        eighth(q.2) >= 1,
    ensures
        numbered((q.0 * 64 * (8 * eighth(q.1) + 6) * (8 * eighth(q.2) + 6)) as int),
        m.final_conv.has_memory(seq![q.0, 64nat, 8 * eighth(q.1) + 6, 8 * eighth(q.2) + 6]),
{
    lemma_smaller_numbered(q, 64, 8 * eighth(q.1) + 6, 8 * eighth(q.2) + 6, 1, 1);
    assert(conv_len(8 * eighth(q.1) + 6, 7, 1) == 8 * eighth(q.1));
    assert(conv_len(8 * eighth(q.2) + 6, 7, 1) == 8 * eighth(q.2));
    lemma_smaller_numbered(q, 3, 8 * eighth(q.1), 8 * eighth(q.2), 1, 1);
}

/// A downsampling block of a generator out of a file finds room, and memory for it.
proof fn lemma_down_room(
    m: CandleInpainter,
    bytes: Seq<u8>,
    i: int,
    l: TensorVal,
    g: Option<TensorVal>,
    q: (nat, nat, nat, bool),
)
    requires
        m.loaded(bytes),
        0 <= i < 3,
        at_step(l, g, q, i),
    ensures
        m.downs@[i].ffc.has_room(l, g),
        has_memory(up_dims(q, 3)) ==> m.downs@[i].ffc.has_memory(l, g),
        q.3 && m.on_cpu() ==> m.downs@[i].agrees(l, g),
{
    lemma_shapes_ok();
    let s = down_shape(i);
    assert(m.downs@[i].loaded(bytes, layer_path((i + 2) as nat), s));
    if has_memory(up_dims(q, 3)) {
        lemma_shapes_ok();
        let (h, w) = (side(q.1, i), side(q.2, i));
        let padded = seq![q.0, channels(i) as nat, h + 2, w + 2];
        lemma_product4(padded);
        assert(conv_len(h + 2, 3, 2) == side(q.1, i + 1));
        assert(conv_len(w + 2, 3, 2) == side(q.2, i + 1));
        let (f, g) = if i == 0 {
            (1nat, 1nat)
        } else if i == 1 {
            (2nat, 1nat)
        } else {
            (2nat, 2nat)
        };
        lemma_smaller_numbered(q, channels(i) as nat, h + 2, w + 2, f, g);
        let (f, g) = if i == 2 {
            (3nat, 2nat)
        } else {
            (2nat, (i + 1) as nat)
        };
        lemma_smaller_numbered(q, s.out_l(), side(q.1, i + 1), side(q.2, i + 1), f, g);
        lemma_smaller_numbered(q, s.out_g(), side(q.1, i + 1), side(q.2, i + 1), f, g);
    }
}

/// A downsampling block of a generator out of a file halves both sides.
proof fn lemma_down_shape<T: Fn(usize, usize, usize) -> (u32, u32)>(
    m: CandleInpainter,
    bytes: Seq<u8>,
    i: int,
    wave: T,
    l: TensorVal,
    g: Option<TensorVal>,
    ol: Option<TensorVal>,
    og: Option<TensorVal>,
    q: (nat, nat, nat, bool),
)
    requires
        m.loaded(bytes),
        0 <= i < 3,
        at_step(l, g, q, i),
        m.downs@[i].runs(wave, l, g, ol, og),
    ensures
        ol is Some,
        at_step(ol->0, og, q, i + 1),
{
    let s = down_shape(i);
    assert(m.downs@[i].loaded(bytes, layer_path((i + 2) as nat), s));
    lemma_shapes_ok();
    lemma_block_shape(
        m.downs@[i],
        bytes,
        layer_path((i + 2) as nat),
        s,
        wave,
        l,
        g,
        ol,
        og,
    );
    let (h, w) = (side(q.1, i), side(q.2, i));
    assert(conv_len((h + 2 * 1) as nat, 3, 2) == side(q.1, i + 1));
    assert(conv_len((w + 2 * 1) as nat, 3, 2) == side(q.2, i + 1));
    assert(s.result_dims(l.dims, s.out_l()) =~= seq![
        q.0,
        s.out_l(),
        side(q.1, i + 1),
        side(q.2, i + 1),
    ]);
    assert(s.result_dims(l.dims, s.out_g()) =~= seq![
        q.0,
        s.out_g(),
        side(q.1, i + 1),
        side(q.2, i + 1),
    ]);
}

impl CandleInpainter {
    /// Runs the residual blocks.
    fn mix<T: Fn(usize, usize, usize) -> (u32, u32)>(
        &self,
        xl: Tensor,
        xg: Tensor,
        wave: &T,
        Ghost(bytes): Ghost<Seq<u8>>,
        Ghost(q): Ghost<(nat, nat, nat, bool)>,
    ) -> (r: Result<(Tensor, Tensor), WorkerError>)
        requires
            self.wf(),
            tensor_val(xl).good(),
            tensor_val(xl).dims.len() == 4,
            tensor_val(xg).good(),
            tensor_val(xg).dims.len() == 4,
            total_wave(*wave),
        ensures
            match r {
                Ok((ol, og)) => {
                    &&& tensor_val(ol).good()
                    &&& tensor_val(ol).dims == tensor_val(xl).dims
                    &&& tensor_val(og).good()
                    &&& tensor_val(og).dims == tensor_val(xg).dims
                    &&& res_run(
                        *wave,
                        self.res@,
                        tensor_val(xl),
                        tensor_val(xg),
                        tensor_val(ol),
                        tensor_val(og),
                    )
                    &&& tensor_val(ol).cpu == tensor_val(xl).cpu
                    &&& tensor_val(og).cpu == tensor_val(xg).cpu
                },
                Err(e) => {
                    &&& e is Candle || e is TooLarge || e is PadTooLarge || e is KernelTooLarge
                        || e is DegenerateWidth || e is DroppedBranch
                    &&& self.loaded(bytes) && at_step(
                        tensor_val(xl),
                        Some(tensor_val(xg)),
                        q,
                        3,
                    ) ==> (e is Candle && !(q.3 && self.on_cpu())) || (e is TooLarge
                        && !has_memory(up_dims(q, 3)))
                },
            },
    {
        let ghost lv = tensor_val(xl);
        let ghost gv = tensor_val(xg);
        let ghost good = self.loaded(bytes) && at_step(lv, Some(gv), q, 3);
        let ghost mut ls = seq![lv];
        let ghost mut gs = seq![gv];
        let mut ol = xl;
        let mut og = xg;
        let mut i: usize = 0;
        while i < self.res.len()
            invariant
                i <= self.res@.len(),
                lv == tensor_val(xl),
                gv == tensor_val(xg),
                lv.dims.len() == 4,
                gv.dims.len() == 4,
                self.wf(),
                total_wave(*wave),
                tensor_val(ol).good(),
                tensor_val(ol).dims == lv.dims,
                tensor_val(og).good(),
                tensor_val(og).dims == gv.dims,
                tensor_val(ol).cpu == lv.cpu,
                tensor_val(og).cpu == gv.cpu,
                ls.len() == i + 1,
                gs.len() == i + 1,
                (ls.first(), gs.first()) == (lv, gv),
                (ls.last(), gs.last()) == (tensor_val(ol), tensor_val(og)),
                forall|j: int|
                    0 <= j < i ==> (#[trigger] self.res@[j]).runs(
                        *wave,
                        ls[j],
                        gs[j],
                        ls[j + 1],
                        gs[j + 1],
                    ),
                good == (self.loaded(bytes) && at_step(lv, Some(gv), q, 3)),
            decreases self.res.len() - i,
        {
            proof {
                if good {
                    lemma_res_room(
                        *self,
                        bytes,
                        i as int,
                        *wave,
                        tensor_val(ol),
                        tensor_val(og),
                        q,
                    );
                }
            }
            let (nl, ng) = self.res[i].forward(&ol, &og, wave)?;
            ol = nl;
            og = ng;
            proof {
                ls = ls.push(tensor_val(ol));
                gs = gs.push(tensor_val(og));
            }
            i = i + 1;
        }
        assert(res_over(*wave, self.res@, ls, gs));
        Ok((ol, og))
    }

    /// Runs the upsampling steps.
    fn up(&self, x: Tensor, Ghost(bytes): Ghost<Seq<u8>>, Ghost(q): Ghost<(nat, nat, nat, bool)>) -> (r:
        Result<Tensor, WorkerError>)
        requires
            self.wf(),
            tensor_val(x).good(),
            tensor_val(x).dims.len() == 4,
        ensures
            match r {
                Ok(y) => {
                    &&& tensor_val(y).good()
                    &&& tensor_val(y).dims.len() == 4
                    &&& ups_run(self.up_conv@, self.up_bn@, tensor_val(x), tensor_val(y))
                    &&& tensor_val(y).cpu == tensor_val(x).cpu
                    &&& self.loaded(bytes) && tensor_val(x).dims == up_dims(q, 0) ==> tensor_val(
                        y,
                    ).dims == up_dims(q, 3)
                },
                Err(e) => {
                    &&& e is Candle || e is TooLarge
                    &&& self.loaded(bytes) && tensor_val(x).dims == up_dims(q, 0) ==> {
                        ||| e is Candle && !(tensor_val(x).cpu && self.on_cpu())
                        ||| e is TooLarge && !has_memory(up_dims(q, 3))
                    }
                },
            },
    {
        let ghost xv = tensor_val(x);
        let ghost good = self.loaded(bytes) && xv.dims == up_dims(q, 0);
        let ghost mut xs = seq![xv];
        let mut y = x;
        let mut i: usize = 0;
        while i < self.up_conv.len()
            invariant
                i <= self.up_conv@.len(),
                xv == tensor_val(x),
                self.wf(),
                tensor_val(y).good(),
                tensor_val(y).dims.len() == 4,
                xs.len() == i + 1,
                xs.first() == xv,
                xs.last() == tensor_val(y),
                tensor_val(y).cpu == xv.cpu,
                forall|j: int|
                    0 <= j < i ==> up_run(
                        #[trigger] self.up_conv@[j],
                        self.up_bn@[j],
                        xs[j],
                        xs[j + 1],
                    ),
                good == (self.loaded(bytes) && xv.dims == up_dims(q, 0)),
                good ==> tensor_val(y).dims == up_dims(q, i as int),
            decreases self.up_conv.len() - i,
        {
            let ghost before = tensor_val(y);
            proof {
                if good {
                    let c = transposed_conv_val(self.up_conv@[i as int].conv);
                    assert(up_loaded(
                        self.up_conv@[i as int],
                        self.up_bn@[i as int],
                        bytes,
                        i as int,
                    ));
                    lemma_doubles(c, before.dims[2]);
                    lemma_doubles(c, before.dims[3]);
                    lemma_up_memory(q, i as int);
                }
            }
            let wide = self.up_conv[i].forward(&y)?;
            assert(norm_val(self.up_bn@[i as int]).wf(
                norm_val(self.up_bn@[i as int]).mean.len(),
            ));
            let normed = lift(norm_forward(&self.up_bn[i], &wide))?;
            y = lift(relu(&normed))?;
            proof {
                assert(up_over(
                    self.up_conv@[i as int],
                    self.up_bn@[i as int],
                    before,
                    tensor_val(wide),
                    tensor_val(normed),
                    tensor_val(y),
                ));
                if good {
                    assert(tensor_val(y).dims =~= up_dims(q, i + 1));
                }
                xs = xs.push(tensor_val(y));
            }
            i = i + 1;
        }
        assert(ups_over(self.up_conv@, self.up_bn@, xs));
        Ok(y)
    }

    /// Memory can number what the last layers make of an input of the given
    /// lengths.
    pub open spec fn exit_numbered(self, d: Seq<nat>) -> bool {
        let p = seq![d[0], d[1], d[2] + 6, d[3] + 6];
        &&& numbered((p[0] * p[1] * p[2] * p[3]) as int)
        &&& self.final_conv.has_memory(p)
    }

    /// Runs the last layers.
    fn exit(&self, x: &Tensor) -> (r: Result<Tensor, WorkerError>)
        requires
            self.wf(),
            tensor_val(*x).good(),
            tensor_val(*x).dims.len() == 4,
        ensures
            match r {
                Ok(y) => {
                    let d = tensor_val(*x).dims;
                    let k = self.final_conv.kernel as nat;
                    let s = self.final_conv.stride as nat;
                    &&& tensor_val(y).good()
                    &&& tensor_val(y).cpu == tensor_val(*x).cpu
                    &&& all_within(tensor_val(y), 0, WHITE)
                    &&& self.exits(tensor_val(*x), tensor_val(y))
                    &&& tensor_val(y).dims == seq![
                        d[0],
                        self.final_conv.n_out as nat,
                        conv_len(d[2] + 6, k, s),
                        conv_len(d[3] + 6, k, s),
                    ]
                },
                Err(e) => {
                    let d = tensor_val(*x).dims;
                    ||| e is Candle && !self.final_conv.agrees(tensor_val(*x))
                    ||| e is TooLarge && !self.exit_numbered(d)
                    ||| e is PadTooLarge && (d[2] <= 3 || d[3] <= 3)
                    ||| e is KernelTooLarge && (d[2] + 6 < self.final_conv.kernel || d[3] + 6
                        < self.final_conv.kernel)
                },
            },
    {
        let ghost d = tensor_val(*x).dims;
        let padded = reflect_pad2d(x, 3)?;
        assert(tensor_val(padded).dims =~= seq![d[0], d[1], d[2] + 6, d[3] + 6]);
        let mixed = self.final_conv.forward(&padded)?;
        let turned = lift(neg(&mixed))?;
        let power = lift(exp(&turned))?;
        let below = lift(affine(&power, 1, 1))?;
        let level = lift(recip(&below))?;
        let y = lift(affine(&level, 255, 0))?;
        proof {
            let t = ExitSteps {
                padded: tensor_val(padded),
                mixed: tensor_val(mixed),
                turned: tensor_val(turned),
                power: tensor_val(power),
                below: tensor_val(below),
                level: tensor_val(level),
            };
            assert(self.exits_over(tensor_val(*x), t, tensor_val(y)));
        }
        Ok(y)
    }

    /// Fills the masked pixels of at least one image.
    fn fill<T: Fn(usize, usize, usize) -> (u32, u32)>(
        &self,
        image: &Tensor,
        mask: &Tensor,
        wave: &T,
    ) -> (r: Result<Tensor, WorkerError>)
        requires
            self.wf(),
            total_wave(*wave),
        ensures
            match r {
                Ok(y) => {
                    &&& tensor_val(*image).good()
                    &&& tensor_val(*image).dims.len() == 4
                    &&& tensor_val(*mask).good()
                    &&& tensor_val(*mask).dims.len() == 4
                    &&& tensor_val(y).good()
                    &&& tensor_val(y).dims.len() == 4
                    &&& all_within(tensor_val(y), 0, WHITE)
                    &&& self.runs(*wave, tensor_val(*image), tensor_val(*mask), tensor_val(y))
                    &&& self.standard() && takes_size(tensor_val(*image), tensor_val(*mask))
                        ==> tensor_val(y).dims == result_dims(tensor_val(*image).dims) && (
                    tensor_val(*image).cpu ==> tensor_val(y).cpu)
                },
                Err(e) => {
                    let (i, m) = (tensor_val(*image), tensor_val(*mask));
                    if !i.good() || i.dims.len() != 4 {
                        Self::refused(i, e)
                    } else if !m.good() || m.dims.len() != 4 {
                        Self::refused(m, e)
                    } else {
                        &&& Self::stops(e)
                        &&& self.standard() && takes_size(i, m) ==> {
                            ||| e is Candle && !(self.on_cpu() && i.cpu && m.cpu)
                            ||| e is TooLarge && !has_memory(i.dims)
                        }
                    }
                },
            },
    {
        Self::screen(image)?;
        Self::screen(mask)?;
        let ghost iv = tensor_val(*image);
        let ghost mv = tensor_val(*mask);
        let ghost good = self.standard() && takes_size(iv, mv);
        let ghost bytes = choose|bytes: Seq<u8>| #[trigger] self.loaded(bytes);
        let ghost q = (iv.dims[0], iv.dims[2], iv.dims[3], iv.cpu);
        let x = Self::enter(image, mask)?;
        let ghost xv = tensor_val(x);
        proof {
            if good {
                assert(xv.dims =~= seq![q.0, 4nat, q.1 + 6, q.2 + 6]);
                lemma_init_room(*self, bytes, xv, q);
            }
        }
        let (il, ig) = self.init.forward(&x, None, wave)?;
        proof {
            if good {
                lemma_init_shape(*self, bytes, *wave, xv, option_val(il), option_val(ig), q);
            }
        }
        let il = match il {
            Some(t) => t,
            None => {
                return Err(WorkerError::NoInitBranch);
            },
        };
        let ghost t_il = tensor_val(il);
        let ghost t_ig = option_val(ig);
        let (dl, dg) = self.down(il, ig, wave, Ghost(bytes), Ghost(q))?;
        let dg = match dg {
            Some(t) => t,
            None => {
                return Err(WorkerError::NoGlobalBranch);
            },
        };
        let ghost t_dl = tensor_val(dl);
        let ghost t_dg = tensor_val(dg);
        let (rl, rg) = self.mix(dl, dg, wave, Ghost(bytes), Ghost(q))?;
        proof {
            lemma_bottleneck_memory(q);
            if good {
                assert(tensor_val(rg).dims =~= tensor_val(rl).dims.update(1, 384));
            }
        }
        let joined = join(&rl, &rg, 1)?;
        let ghost t_joined = tensor_val(joined);
        proof {
            if good {
                assert(t_joined.dims =~= up_dims(q, 0));
            }
        }
        let up = self.up(joined, Ghost(bytes), Ghost(q))?;
        proof {
            if good && has_memory(up_dims(q, 3)) {
                lemma_exit_memory(*self, bytes, q);
            }
        }
        let y = self.exit(&up)?;
        proof {
            let t = PassSteps {
                x: xv,
                il: t_il,
                ig: t_ig,
                dl: t_dl,
                dg: t_dg,
                rl: tensor_val(rl),
                rg: tensor_val(rg),
                joined: t_joined,
                up: tensor_val(up),
            };
            assert(self.runs_over(*wave, iv, mv, t, tensor_val(y)));
            if good {
                assert(conv_len(8 * eighth(q.1) + 6, 7, 1) == 8 * eighth(q.1));
                assert(conv_len(8 * eighth(q.2) + 6, 7, 1) == 8 * eighth(q.2));
                assert(tensor_val(y).dims =~= result_dims(iv.dims));
            }
        }
        Ok(y)
    }
}

/// A tensor of 32-bit floats for no image, its other axes not empty.
pub open spec fn empty_batch(x: TensorVal) -> bool {
    &&& x.dims.len() == 4
    &&& x.single
    &&& x.dims[0] == 0
    &&& x.dims[1] >= 1
    &&& x.dims[2] >= 1
    &&& x.dims[3] >= 1
}

/// `b` holds one image of zeros where `x` holds none.
pub open spec fn is_blank(x: TensorVal, b: TensorVal) -> bool {
    &&& b.dims == x.dims.update(0, 1)
    &&& b.good()
    &&& b.cpu == x.cpu
    &&& forall|i: int| 0 <= i < b.elems.len() ==> #[trigger] b.elems[i] == 0
}

/// `y` holds no image where `one` holds one.
pub open spec fn is_emptied(one: TensorVal, y: TensorVal) -> bool {
    &&& y.dims == one.dims.update(0, 0)
    &&& y.elems.len() == 0
    &&& y.single
    &&& !y.packed
    &&& y.cpu == one.cpu
}

/// The values behind an empty batch.
pub struct BlankSteps {
    pub image: TensorVal,
    pub mask: TensorVal,
    pub one: TensorVal,
}

impl CandleInpainter {
    /// `y` may come out of the generator for an image and its mask, or for none.
    pub open spec fn gives<T: Fn(usize, usize, usize) -> (u32, u32)>(
        self,
        wave: T,
        image: TensorVal,
        mask: TensorVal,
        y: TensorVal,
    ) -> bool {
        if empty_batch(image) && empty_batch(mask) {
            exists|t: BlankSteps| #[trigger] self.runs_empty(wave, image, mask, t, y)
        } else {
            &&& image.good()
            &&& image.dims.len() == 4
            &&& mask.good()
            &&& mask.dims.len() == 4
            &&& self.runs(wave, image, mask, y)
        }
    }
}

/// Decides whether a tensor is for no image.
fn holds_none(x: &Tensor) -> (r: bool)
    ensures
        r == empty_batch(tensor_val(*x)),
{
    let d = dims(x);
    d.len() == 4 && is_single(x) && d[0] == 0 && d[1] >= 1 && d[2] >= 1 && d[3] >= 1
}

/// One image of zeros in place of none. More elements than memory can hold are
/// refused.
fn blank(x: &Tensor) -> (r: Result<Tensor, WorkerError>)
    requires
        empty_batch(tensor_val(*x)),
    ensures
        match r {
            Ok(b) => is_blank(tensor_val(*x), tensor_val(b)),
            Err(e) => {
                let d = tensor_val(*x).dims;
                if !numbered((1 * d[1] * d[2] * d[3]) as int) {
                    e is TooLarge
                } else {
                    e is Candle && !tensor_val(*x).cpu
                }
            },
        },
{
    let (_, c, h, w) = shape4(x)?;
    if !count_fits(1, c, h, w) {
        return Err(WorkerError::TooLarge);
    }
    let to = vec![1, c, h, w];
    proof {
        assert(lengths(to@) =~= seq![1nat, c as nat, h as nat, w as nat]);
        assert(lengths(to@) =~= tensor_val(*x).dims.update(0, 1));
        assert(filled(lengths(to@)) =~= lengths(to@));
        lemma_product4(lengths(to@));
    }
    let count: usize = leading_count(&to, 4);
    assert(lengths(to@).take(4) =~= lengths(to@));
    let mut bits: Vec<u32> = Vec::new();
    while bits.len() < count
        invariant
            bits@.len() <= count,
            forall|i: int| 0 <= i < bits@.len() ==> #[trigger] bits@[i] == 0,
        decreases count - bits.len(),
    {
        bits.push(0);
    }
    let b = lift(from_bits(&bits, &to, device(x)))?;
    proof {
        lemma_widened_words(bits@);
        let bv = tensor_val(b);
        assert forall|i: int| 0 <= i < bv.elems.len() implies #[trigger] bv.elems[i] == 0 by {
            assert(widened(bits@)[i] == bits@[i]);
        }
    }
    Ok(b)
}

/// No image in place of one.
fn emptied(one: &Tensor) -> (r: Result<Tensor, WorkerError>)
    requires
        tensor_val(*one).good(),
        tensor_val(*one).dims.len() == 4,
    ensures
        match r {
            Ok(y) => is_emptied(tensor_val(*one), tensor_val(y)),
            Err(e) => e is Candle && !tensor_val(*one).cpu,
        },
{
    let (_, c, h, w) = shape4(one)?;
    let to = vec![0, c, h, w];
    let bits: Vec<u32> = Vec::new();
    proof {
        let d = tensor_val(*one).dims;
        assert(lengths(to@) =~= d.update(0, 0));
        assert(filled(lengths(to@)) =~= d.update(0, 1));
        lemma_axis_grows(d.update(0, 1), 0, d[0]);
        assert(d.update(0, 1).update(0, d[0]) =~= d);
        lemma_product4(lengths(to@));
        assert(0nat * d[1] * d[2] * d[3] == 0) by (nonlinear_arith);
        assert(widened(bits@).len() == 0);
    }
    lift(from_bits(&bits, &to, device(one)))
}

impl CandleInpainter {
    /// `y` may come out of the generator for no image: no image of the lengths that
    /// one blank image gives.
    pub open spec fn runs_empty<T: Fn(usize, usize, usize) -> (u32, u32)>(
        self,
        wave: T,
        image: TensorVal,
        mask: TensorVal,
        t: BlankSteps,
        y: TensorVal,
    ) -> bool {
        &&& is_blank(image, t.image)
        &&& is_blank(mask, t.mask)
        &&& self.runs(wave, t.image, t.mask, t.one)
        &&& is_emptied(t.one, y)
    }

    /// Fills the masked pixels of an image of samples in `0..=1`, the mask being
    /// one inside and zero outside: samples in `0..=255`.
    ///
    /// No image at all gives no image, of the lengths that one would have.
    pub fn inpaint<T: Fn(usize, usize, usize) -> (u32, u32)>(
        &self,
        image: &Tensor,
        mask: &Tensor,
        wave: &T,
    ) -> (r: Result<Tensor, WorkerError>)
        requires
            self.wf(),
            total_wave(*wave),
        ensures
            match r {
                Ok(y) => {
                    &&& self.gives(*wave, tensor_val(*image), tensor_val(*mask), tensor_val(y))
                    &&& tensor_val(y).single
                    &&& tensor_val(y).dims.len() == 4
                    &&& !empty_batch(tensor_val(*image)) ==> tensor_val(y).good()
                    &&& all_within(tensor_val(y), 0, WHITE)
                    &&& self.standard() && takes_size(tensor_val(*image), tensor_val(*mask))
                        ==> tensor_val(y).dims == result_dims(tensor_val(*image).dims) && (
                    tensor_val(*image).cpu ==> tensor_val(y).cpu)
                },
                Err(e) => {
                    let (i, m) = (tensor_val(*image), tensor_val(*mask));
                    if empty_batch(i) && empty_batch(m) {
                        &&& Self::stops(e)
                        &&& self.standard() && takes_size(i, m) ==> {
                            ||| e is Candle && !(self.on_cpu() && i.cpu && m.cpu)
                            ||| e is TooLarge && !has_memory(i.dims.update(0, 1))
                        }
                    } else if !i.good() || i.dims.len() != 4 {
                        Self::refused(i, e)
                    } else if !m.good() || m.dims.len() != 4 {
                        Self::refused(m, e)
                    } else {
                        &&& Self::stops(e)
                        &&& self.standard() && takes_size(i, m) ==> {
                            ||| e is Candle && !(self.on_cpu() && i.cpu && m.cpu)
                            ||| e is TooLarge && !has_memory(i.dims)
                        }
                    }
                },
            },
    {
        if !holds_none(image) || !holds_none(mask) {
            return self.fill(image, mask, wave);
        }
        let ghost (i, m) = (tensor_val(*image), tensor_val(*mask));
        proof {
            if takes_size(i, m) {
                lemma_blank_memory(i.dims, m.dims);
            }
        }
        let blank_image = blank(image)?;
        let blank_mask = blank(mask)?;
        let ghost (bi, bm) = (tensor_val(blank_image), tensor_val(blank_mask));
        proof {
            if takes_size(i, m) {
                assert(bm.dims =~= bi.dims.update(1, 1));
            }
        }
        let one = self.fill(&blank_image, &blank_mask, wave)?;
        let y = emptied(&one)?;
        proof {
            let t = BlankSteps { image: bi, mask: bm, one: tensor_val(one) };
            assert(self.runs_empty(*wave, i, m, t, tensor_val(y)));
            if self.standard() && takes_size(i, m) {
                assert(tensor_val(y).dims =~= result_dims(i.dims));
            }
        }
        Ok(y)
    }
}

/// Memory that holds one image through the generator holds it blank.
proof fn lemma_blank_memory(d: Seq<nat>, m: Seq<nat>)
    requires
        d.len() == 4,
        d[1] == 3,
        m == d.update(1, 1),
    ensures
        has_memory(d.update(0, 1)) ==> numbered((1 * d[1] * d[2] * d[3]) as int) && numbered(
            (1 * m[1] * m[2] * m[3]) as int,
        ),
{
    let (x, y) = (8 * eighth(d[2]) + 6, 8 * eighth(d[3]) + 6);
    lemma_no_larger(1, 3, d[2], d[3], 1, 1, x, y);
    lemma_no_larger(1, 1, d[2], d[3], 1, 1, x, y);
}

/// The lengths after `i` upsampling steps.
spec fn up_dims(q: (nat, nat, nat, bool), i: int) -> Seq<nat> {
    seq![q.0, channels(3 - i) as nat, grown(q.1, i), grown(q.2, i)]
}

/// A kernel of three with stride two and a margin of one on each side doubles a
/// length.
proof fn lemma_doubles(c: ConvVal, n: nat)
    requires
        n >= 1,
        c.weight.dims[2] == 3,
        c.stride == 2,
        c.padding == 1,
        c.output_padding == 1,
    ensures
        spread_len(c, n) == 2 * n,
{
    assert((n - 1) * c.stride == (n - 1) * 2);
}

/// The first block of a generator out of a file finds room, and memory for it.
proof fn lemma_init_room(m: CandleInpainter, bytes: Seq<u8>, x: TensorVal, q: (nat, nat, nat, bool))
    requires
        m.loaded(bytes),
        eighth(q.1) >= 2,
        eighth(q.2) >= 3,
        x.dims == seq![q.0, 4nat, q.1 + 6, q.2 + 6],
    ensures
        m.init.ffc.has_room(x, None),
        has_memory(up_dims(q, 3)) ==> m.init.ffc.has_memory(x, None),
        x.cpu && m.on_cpu() ==> m.init.agrees(x, None),
{
    lemma_shapes_ok();
    assert(m.init.ffc.l2l->0.padded_dims(x.dims) =~= x.dims);
    if has_memory(up_dims(q, 3)) {
        lemma_shapes_ok();
        lemma_product4(x.dims);
        assert(conv_len(q.1 + 6, 7, 1) == q.1);
        assert(conv_len(q.2 + 6, 7, 1) == q.2);
        lemma_smaller_numbered(q, 4, q.1 + 6, q.2 + 6, 1, 1);
        lemma_smaller_numbered(q, 64, q.1, q.2, 1, 1);
    }
}

/// The first block of a generator out of a file takes the margin off.
proof fn lemma_init_shape<T: Fn(usize, usize, usize) -> (u32, u32)>(
    m: CandleInpainter,
    bytes: Seq<u8>,
    wave: T,
    x: TensorVal,
    ol: Option<TensorVal>,
    og: Option<TensorVal>,
    q: (nat, nat, nat, bool),
)
    requires
        m.loaded(bytes),
        eighth(q.1) >= 2,
        eighth(q.2) >= 3,
        x.dims == seq![q.0, 4nat, q.1 + 6, q.2 + 6],
        q.3 ==> x.cpu,
        m.init.runs(wave, x, None, ol, og),
    ensures
        ol is Some,
        at_step(ol->0, og, q, 0),
{
    lemma_shapes_ok();
    let s = init_shape();
    lemma_block_shape(m.init, bytes, layer_path(1), s, wave, x, None, ol, og);
    assert(conv_len((q.1 + 6 + 2 * 0) as nat, 7, 1) == q.1);
    assert(conv_len((q.2 + 6 + 2 * 0) as nat, 7, 1) == q.2);
    assert(s.result_dims(x.dims, s.out_l()) =~= seq![q.0, 64nat, q.1, q.2]);
}

/// Memory can number what a block of the bottleneck makes of both branches.
proof fn lemma_branches_memory(
    b: FfcBnAct,
    bytes: Seq<u8>,
    path: Seq<Seq<char>>,
    l: TensorVal,
    g: TensorVal,
    q: (nat, nat, nat, bool),
)
    requires
        b.loaded(bytes, path, ResnetBlock::shape(512, RG, RG)),
        at_step(l, Some(g), q, 3),
    ensures
        has_memory(up_dims(q, 3)) ==> b.ffc.has_memory(l, Some(g)),
        q.3 && b.on_cpu() ==> b.agrees(l, Some(g)),
{
    lemma_shapes_ok();
    assert(conv_len(eighth(q.1) + 2, 3, 1) == eighth(q.1));
    assert(conv_len(eighth(q.2) + 2, 3, 1) == eighth(q.2));
    let f = b.ffc;
    assert(f.l2l->0.out_dims(l.dims) =~= f.g2l->0.out_dims(g.dims));
    assert(f.l2g->0.out_dims(l.dims) =~= f.g2g->0.out_dims(g.dims));
    if has_memory(up_dims(q, 3)) {
        lemma_shapes_ok();
        let (h, w) = (eighth(q.1), eighth(q.2));
        lemma_product4(seq![q.0, 128nat, h + 2, w + 2]);
        lemma_product4(seq![q.0, 384nat, h + 2, w + 2]);
        assert(conv_len(h + 2, 3, 1) == h);
        assert(conv_len(w + 2, 3, 1) == w);
        lemma_smaller_numbered(q, 128, h + 2, w + 2, 2, 1);
        lemma_smaller_numbered(q, 384, h + 2, w + 2, 3, 2);
        lemma_smaller_numbered(q, 128, h, w, 2, 1);
        lemma_smaller_numbered(q, 192, h, w, 3, 1);
        lemma_smaller_numbered(q, 384, h, w, 3, 2);
        let (bi, hi, wi) = (q.0 as int, h as int, w as int);
        assert(eighth(8 * h) == h && eighth(8 * w) == w);
        assert(2 * bi * 192 * hi * wi == bi * 384 * hi * wi) by (nonlinear_arith);
        assert(hi * hi <= (8 * hi) * (8 * hi)) by (nonlinear_arith);
        assert(wi * wi <= (8 * wi) * (8 * wi)) by (nonlinear_arith);
    }
}

/// A block of the bottleneck keeps the lengths of both branches.
proof fn lemma_branches_kept<T: Fn(usize, usize, usize) -> (u32, u32)>(
    b: FfcBnAct,
    bytes: Seq<u8>,
    path: Seq<Seq<char>>,
    wave: T,
    l: TensorVal,
    g: TensorVal,
    l1: TensorVal,
    g1: TensorVal,
    q: (nat, nat, nat, bool),
)
    requires
        b.loaded(bytes, path, ResnetBlock::shape(512, RG, RG)),
        at_step(l, Some(g), q, 3),
        b.runs(wave, l, Some(g), Some(l1), Some(g1)),
    ensures
        at_step(l1, Some(g1), q, 3),
{
    let s = ResnetBlock::shape(512, RG, RG);
    lemma_shapes_ok();
    lemma_block_shape(b, bytes, path, s, wave, l, Some(g), Some(l1), Some(g1));
    assert(conv_len((eighth(q.1) + 2 * 1) as nat, 3, 1) == eighth(q.1));
    assert(conv_len((eighth(q.2) + 2 * 1) as nat, 3, 1) == eighth(q.2));
    assert(l1.dims =~= l.dims && g1.dims =~= g.dims);
}

/// A residual block of a generator out of a file finds room and keeps both
/// branches.
proof fn lemma_res_room<T: Fn(usize, usize, usize) -> (u32, u32)>(
    m: CandleInpainter,
    bytes: Seq<u8>,
    i: int,
    wave: T,
    l: TensorVal,
    g: TensorVal,
    q: (nat, nat, nat, bool),
)
    requires
        m.loaded(bytes),
        0 <= i < m.res@.len(),
        at_step(l, Some(g), q, 3),
    ensures
        forall|e: WorkerError| #[trigger]
            m.res@[i].fails(wave, l, g, e) ==> (e is Candle && !(q.3 && m.on_cpu())) || (
            e is TooLarge && !has_memory(up_dims(q, 3))),
{
    let b = m.res@[i];
    let path = layer_path((i + 5) as nat);
    let s = ResnetBlock::shape(512, RG, RG);
    assert(b.loaded(bytes, path, 512, RG, RG));
    lemma_shapes_ok();
    assert(b.conv1.ffc.has_room(l, Some(g)));
    lemma_branches_memory(b.conv1, bytes, path.push("conv1"@), l, g, q);
    assert forall|e: WorkerError| #[trigger] b.fails(wave, l, g, e) implies (e is Candle && !(
    q.3 && m.on_cpu())) || (e is TooLarge && !has_memory(up_dims(q, 3))) by {
        let second = exists|l1: TensorVal, g1: TensorVal|
            #![trigger b.conv1.runs(wave, l, Some(g), Some(l1), Some(g1))]
            b.conv1.runs(wave, l, Some(g), Some(l1), Some(g1)) && b.conv2.fails(l1, Some(g1), e);
        if second {
            let (l1, g1) = choose|l1: TensorVal, g1: TensorVal|
                #![trigger b.conv1.runs(wave, l, Some(g), Some(l1), Some(g1))]
                b.conv1.runs(wave, l, Some(g), Some(l1), Some(g1)) && b.conv2.fails(
                    l1,
                    Some(g1),
                    e,
                );
            lemma_branches_kept(b.conv1, bytes, path.push("conv1"@), wave, l, g, l1, g1, q);
            assert(b.conv2.ffc.has_room(l1, Some(g1)));
            lemma_branches_memory(b.conv2, bytes, path.push("conv2"@), l1, g1, q);
        } else if !b.conv1.fails(l, Some(g), e) && !(e is DroppedBranch) {
            let (l1, g1, l2, g2) = choose|
                l1: TensorVal,
                g1: TensorVal,
                l2: TensorVal,
                g2: TensorVal,
            |
                #![trigger b.passes(wave, l, g, l1, g1, l2, g2)]
                b.passes(wave, l, g, l1, g1, l2, g2) && !(addable(Some(l), Some(l2)) && addable(
                    Some(g),
                    Some(g2),
                ));
            lemma_branches_kept(b.conv1, bytes, path.push("conv1"@), wave, l, g, l1, g1, q);
            lemma_branches_kept(b.conv2, bytes, path.push("conv2"@), wave, l1, g1, l2, g2, q);
        }
    }
}

} // verus!
