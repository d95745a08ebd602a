//! Building blocks of the generator: reflect-padded convolutions, the spectral
//! transform and the blocks that mix a local and a global branch.

use candle_core::{Device, Tensor};
use candle_nn::{BatchNorm, Conv2d};
use vstd::prelude::*;

use crate::axes::{
    lemma_axis_grows, lemma_axis_parts, lemma_flipped4, lemma_joined4, lemma_narrowed4,
    lemma_product4,
};
use crate::error::{lift, WorkerError};
use crate::fourier::{
    irfft2, is_irfft2, is_packed, is_rfft2, is_unpacked, pack, rfft2, unpack, Basis,
};
use crate::layers::{
    avg_pool, conv_forward, conv_len, conv_val, is_conv, is_normed, is_pooled, norm_forward,
    norm_val,
};
use crate::reflect::mirror;
use crate::tensor::{
    contiguous, count_fits, device, flip, inside4, is_cpu, is_rank, is_relu, is_sum, join, narrow,
    nonempty, numbered, plus, product, relu, shape4, tensor_val, TensorVal,
};
use crate::weights::{
    batch_norm, biased_conv_held, biased_conv_loaded, conv2d, conv2d_no_bias, conv_held, conv_loaded,
    norm_held, norm_loaded, weights_bytes, weights_cpu, weights_path, Weights,
};

verus! {

/// A convolution with the lengths that its input is checked against.
pub struct ConvLayer {
    pub conv: Conv2d,
    pub n_in: usize,
    pub n_out: usize,
    pub kernel: usize,
    pub stride: usize,
}

impl ConvLayer {
    /// The lengths are those of the convolution.
    pub open spec fn wf(self) -> bool {
        conv_val(self.conv).plain(
            self.n_in as nat,
            self.n_out as nat,
            self.kernel as nat,
            self.stride as nat,
        )
    }

    /// The number of elements of the result for an input of the given lengths.
    pub open spec fn out_count(self, d: Seq<nat>) -> nat {
        d[0] * self.n_out as nat * conv_len(d[2], self.kernel as nat, self.stride as nat)
            * conv_len(d[3], self.kernel as nat, self.stride as nat)
    }

    /// Memory can hold the result for an input of the given lengths, and the windows
    /// that a kernel of more than one element is laid out by.
    pub open spec fn has_memory(self, d: Seq<nat>) -> bool {
        &&& numbered(self.out_count(d) as int)
        &&& self.kernel == 1 || numbered(512 * self.n_in * self.kernel * self.kernel)
    }

    /// The layer takes an input of the given lengths: one that its kernel fits
    /// into, with a result that memory can hold.
    pub open spec fn takes(self, d: Seq<nat>) -> bool {
        &&& d.len() == 4
        &&& self.kernel <= d[2]
        &&& self.kernel <= d[3]
        &&& self.has_memory(d)
    }

    /// The weights lie on the CPU.
    pub open spec fn on_cpu(self) -> bool {
        conv_val(self.conv).cpu
    }

    /// The layer and its input lie on the CPU and agree on the channels.
    pub open spec fn agrees(self, x: TensorVal) -> bool {
        &&& self.on_cpu()
        &&& x.cpu
        &&& x.dims[1] == self.n_in
    }

    /// How the layer fails.
    pub open spec fn fails(self, x: TensorVal, e: WorkerError) -> bool {
        let d = x.dims;
        if d.len() != 4 {
            is_rank(e, 4, d)
        } else if d[2] < self.kernel || d[3] < self.kernel {
            e == WorkerError::KernelTooLarge
        } else if !self.has_memory(d) {
            e == WorkerError::TooLarge
        } else {
            e is Candle && !self.agrees(x)
        }
    }

    /// Loads a convolution without a bias.
    pub fn load(n_in: usize, n_out: usize, kernel: usize, stride: usize, w: Weights) -> (r: Result<
        ConvLayer,
        WorkerError,
    >)
        requires
            n_in >= 1,
            n_out >= 1,
            kernel >= 1,
            stride >= 1,
            numbered(n_out * n_in * kernel * kernel),
        ensures
            weights_cpu(w) ==> (r is Ok <==> conv_held(
                weights_bytes(w),
                weights_path(w),
                n_in as nat,
                n_out as nat,
                kernel as nat,
            )),
            match r {
                Ok(c) => {
                    &&& c.wf()
                    &&& c.on_cpu() == weights_cpu(w)
                    &&& (c.n_in, c.n_out, c.kernel, c.stride) == (n_in, n_out, kernel, stride)
                    &&& conv_loaded(
                        conv_val(c.conv),
                        weights_bytes(w),
                        weights_path(w),
                        n_in as nat,
                        n_out as nat,
                        kernel as nat,
                        stride as nat,
                    )
                },
                Err(e) => e is Candle,
            },
    {
        let conv = lift(conv2d_no_bias(n_in, n_out, kernel, stride, w))?;
        Ok(ConvLayer { conv, n_in, n_out, kernel, stride })
    }

    /// Loads a convolution of stride one with its bias.
    pub fn load_biased(n_in: usize, n_out: usize, kernel: usize, w: Weights) -> (r: Result<
        ConvLayer,
        WorkerError,
    >)
        requires
            n_in >= 1,
            n_out >= 1,
            kernel >= 1,
            numbered(n_out * n_in * kernel * kernel),
        ensures
            weights_cpu(w) ==> (r is Ok <==> biased_conv_held(
                weights_bytes(w),
                weights_path(w),
                n_in as nat,
                n_out as nat,
                kernel as nat,
            )),
            match r {
                Ok(c) => {
                    &&& c.wf()
                    &&& c.on_cpu() == weights_cpu(w)
                    &&& (c.n_in, c.n_out, c.kernel, c.stride) == (n_in, n_out, kernel, 1usize)
                    &&& biased_conv_loaded(
                        conv_val(c.conv),
                        weights_bytes(w),
                        weights_path(w),
                        n_in as nat,
                        n_out as nat,
                        kernel as nat,
                    )
                },
                Err(e) => e is Candle,
            },
    {
        let conv = lift(conv2d(n_in, n_out, kernel, w))?;
        Ok(ConvLayer { conv, n_in, n_out, kernel, stride: 1 })
    }

    /// The convolution of `x`. An input smaller than the kernel is refused.
    pub fn forward(&self, x: &Tensor) -> (r: Result<Tensor, WorkerError>)
        requires
            self.wf(),
            tensor_val(*x).good(),
        ensures
            match r {
                Ok(y) => self.takes(tensor_val(*x).dims) && is_conv(
                    conv_val(self.conv),
                    tensor_val(*x),
                    tensor_val(y),
                ),
                Err(e) => self.fails(tensor_val(*x), e),
            },
    {
        let (b, _, h, w) = shape4(x)?;
        if h < self.kernel || w < self.kernel {
            return Err(WorkerError::KernelTooLarge);
        }
        let oh: usize = (h - self.kernel) / self.stride + 1;
        let ow: usize = (w - self.kernel) / self.stride + 1;
        if !count_fits(b, self.n_out, oh, ow) || (self.kernel != 1 && !count_fits(
            512,
            self.n_in,
            self.kernel,
            self.kernel,
        )) {
            return Err(WorkerError::TooLarge);
        }
        lift(conv_forward(&self.conv, x))
    }
}

/// Reflection past the near and the far border of a line, by less than its
/// length.
proof fn lemma_mirror_margin(i: int, size: int)
    requires
        size >= 2,
    ensures
        0 <= i < size ==> mirror(i, size) == i,
        -size < i < 0 ==> mirror(i, size) == -i,
        size <= i <= 2 * (size - 1) ==> mirror(i, size) == 2 * (size - 1) - i,
{
    let period = 2 * (size - 1);
    if 0 <= i < period {
        vstd::arithmetic::div_mod::lemma_small_mod(i as nat, period as nat);
    } else if i == period {
        vstd::arithmetic::div_mod::lemma_mod_self_0(period);
    } else if -size < i < 0 {
        vstd::arithmetic::div_mod::lemma_mod_add_multiples_vanish(i, period);
        if i + period < period && i + period >= 0 {
            vstd::arithmetic::div_mod::lemma_small_mod((i + period) as nat, period as nat);
        }
    }
}

/// `y` is `x` with `p` lines of reflection on each side of its last two axes.
pub open spec fn is_reflect_padded(x: TensorVal, p: int, y: TensorVal) -> bool {
    &&& y.dims == seq![
        x.dims[0],
        x.dims[1],
        (x.dims[2] + 2 * p) as nat,
        (x.dims[3] + 2 * p) as nat,
    ]
    &&& y.good()
    &&& y.cpu == x.cpu
    &&& forall|i: int, j: int, k: int, l: int|
        inside4(y.dims, i, j, k, l) ==> #[trigger] y.at4(i, j, k, l) == x.at4(
            i,
            j,
            mirror(k - p, x.dims[2] as int),
            mirror(l - p, x.dims[3] as int),
        )
}

/// One axis of `x` with `p` lines of reflection on each side.
spec fn is_axis_padded(x: TensorVal, dim: int, p: int, y: TensorVal) -> bool {
    &&& y.dims == x.dims.update(dim, (x.dims[dim] + 2 * p) as nat)
    &&& y.good()
    &&& y.cpu == x.cpu
    &&& forall|i: int, j: int, k: int, l: int|
        inside4(y.dims, i, j, k, l) ==> #[trigger] y.at4(i, j, k, l) == if dim == 2 {
            x.at4(i, j, mirror(k - p, x.dims[2] as int), l)
        } else {
            x.at4(i, j, k, mirror(l - p, x.dims[3] as int))
        }
}

/// Reflects `p` lines on each side of one axis.
fn pad_axis(x: &Tensor, dim: usize, len: usize, p: usize) -> (r: Result<Tensor, WorkerError>)
    requires
        tensor_val(*x).good(),
        tensor_val(*x).dims.len() == 4,
        dim == 2 || dim == 3,
        tensor_val(*x).dims[dim as int] == len,
        1 <= p < len,
        8 * len <= isize::MAX,
        numbered(
            product(tensor_val(*x).dims.update(dim as int, (len + 2 * p) as nat)) as int,
        ),
    ensures
        match r {
            Ok(y) => is_axis_padded(tensor_val(*x), dim as int, p as int, tensor_val(y)),
            Err(e) => e is Candle && !tensor_val(*x).cpu,
        },
{
    let ghost xv = tensor_val(*x);
    let whole = lift(contiguous(x))?;
    let back = lift(flip(&whole, dim))?;
    let back = lift(contiguous(&back))?;
    let before = lift(narrow(&back, dim, len - 1 - p, p))?;
    let after = lift(narrow(&back, dim, 1, p))?;
    proof {
        let d = dim as int;
        lemma_axis_parts(xv.dims, d, p as nat, len as nat);
        lemma_axis_parts(xv.dims, d, (p + len) as nat, p as nat);
        assert(xv.dims.update(d, len as nat) =~= xv.dims);
    }
    assert(tensor_val(before).dims =~= xv.dims.update(dim as int, p as nat));
    assert(tensor_val(after).dims =~= xv.dims.update(dim as int, p as nat));
    assert(xv.dims =~= tensor_val(before).dims.update(dim as int, xv.dims[dim as int]));
    let head = join(&before, x, dim)?;
    assert(tensor_val(after).dims =~= tensor_val(head).dims.update(dim as int, p as nat));
    assert(tensor_val(head).dims =~= xv.dims.update(dim as int, (p + len) as nat));
    let y = join(&head, &after, dim)?;
    proof {
        let bv = tensor_val(back);
        let yv = tensor_val(y);
        let d = dim as int;
        lemma_flipped4(xv, d, bv);
        lemma_narrowed4(bv, d, len - 1 - p, p as nat, tensor_val(before));
        lemma_narrowed4(bv, d, 1, p as nat, tensor_val(after));
        lemma_joined4(tensor_val(before), xv, d, tensor_val(head));
        lemma_joined4(tensor_val(head), tensor_val(after), d, yv);
        assert(yv.dims =~= xv.dims.update(d, (xv.dims[d] + 2 * p) as nat));
        assert forall|i: int, j: int, k: int, l: int| inside4(yv.dims, i, j, k, l) implies #[trigger] yv.at4(
            i,
            j,
            k,
            l,
        ) == if dim == 2 {
            xv.at4(i, j, mirror(k - p, xv.dims[2] as int), l)
        } else {
            xv.at4(i, j, k, mirror(l - p, xv.dims[3] as int))
        } by {
            let at = if dim == 2 {
                k
            } else {
                l
            };
            lemma_mirror_margin(at - p, len as int);
        }
    }
    Ok(y)
}

/// The sides of a tensor of 32-bit floats are no longer than memory can hold.
proof fn lemma_sides_bound(d: Seq<nat>)
    requires
        d.len() == 4,
        nonempty(d),
        numbered(product(d) as int),
    ensures
        4 * d[2] <= isize::MAX,
        4 * d[3] <= isize::MAX,
{
    lemma_product4(d);
    let (a, b, h, w) = (d[0] as int, d[1] as int, d[2] as int, d[3] as int);
    assert(h <= a * b * h * w && w <= a * b * h * w) by (nonlinear_arith)
        requires
            a >= 1,
            b >= 1,
            h >= 1,
            w >= 1,
    ;
}

/// Padded sides of at least four lines leave room for eight bytes a line.
proof fn lemma_padded_sides(b: int, c: int, h: int, w: int)
    requires
        b >= 1,
        c >= 1,
        h >= 4,
        w >= 4,
        numbered(b * c * h * w),
    ensures
        8 * h <= isize::MAX,
        8 * w <= isize::MAX,
{
    assert(4 * h <= b * c * h * w && 4 * w <= b * c * h * w) by (nonlinear_arith)
        requires
            b >= 1,
            c >= 1,
            h >= 4,
            w >= 4,
    ;
}

/// Reflects `p` lines on each side of the last two axes, without repeating the
/// border. A margin that reaches past the tensor is refused.
pub fn reflect_pad2d(x: &Tensor, p: usize) -> (r: Result<Tensor, WorkerError>)
    requires
        tensor_val(*x).good(),
    ensures
        match r {
            Ok(y) => {
                &&& tensor_val(*x).dims.len() == 4
                &&& p < tensor_val(*x).dims[2]
                &&& p < tensor_val(*x).dims[3]
                &&& is_reflect_padded(tensor_val(*x), p as int, tensor_val(y))
            },
            Err(e) => {
                let d = tensor_val(*x).dims;
                if d.len() != 4 {
                    is_rank(e, 4, d)
                } else if p >= d[2] || p >= d[3] {
                    e is PadTooLarge
                } else if !numbered(d[0] * d[1] * (d[2] + 2 * p) * (d[3] + 2 * p)) {
                    e is TooLarge
                } else {
                    e is Candle && !tensor_val(*x).cpu
                }
            },
        },
{
    let (b, c, h, w) = shape4(x)?;
    if p >= h || p >= w {
        return Err(WorkerError::PadTooLarge);
    }
    let ghost xv = tensor_val(*x);
    proof {
        lemma_sides_bound(xv.dims);
    }
    if !count_fits(b, c, h + 2 * p, w + 2 * p) {
        return Err(WorkerError::TooLarge);
    }
    if p == 0 {
        let y = lift(contiguous(x))?;
        proof {
            assert(tensor_val(y).dims =~= seq![
                xv.dims[0],
                xv.dims[1],
                (xv.dims[2] + 2 * p) as nat,
                (xv.dims[3] + 2 * p) as nat,
            ]);
            assert forall|i: int, j: int, k: int, l: int|
                inside4(xv.dims, i, j, k, l) implies #[trigger] xv.at4(i, j, k, l) == xv.at4(
                i,
                j,
                mirror(k - p, xv.dims[2] as int),
                mirror(l - p, xv.dims[3] as int),
            ) by {
                if h >= 2 {
                    lemma_mirror_margin(k, h as int);
                }
                if w >= 2 {
                    lemma_mirror_margin(l, w as int);
                }
            }
        }
        return Ok(y);
    }
    proof {
        let wide = xv.dims.update(3, (w + 2 * p) as nat);
        lemma_axis_grows(wide, 2, (h + 2 * p) as nat);
        lemma_product4(wide.update(2, (h + 2 * p) as nat));
        lemma_padded_sides(b as int, c as int, (h + 2 * p) as int, (w + 2 * p) as int);
    }
    let rows = pad_axis(x, 3, w, p)?;
    let y = pad_axis(&rows, 2, h, p)?;
    proof {
        let rv = tensor_val(rows);
        let yv = tensor_val(y);
        assert(yv.dims =~= seq![
            xv.dims[0],
            xv.dims[1],
            (xv.dims[2] + 2 * p) as nat,
            (xv.dims[3] + 2 * p) as nat,
        ]);
        assert forall|i: int, j: int, k: int, l: int| inside4(yv.dims, i, j, k, l) implies #[trigger] yv.at4(
            i,
            j,
            k,
            l,
        ) == xv.at4(
            i,
            j,
            mirror(k - p, xv.dims[2] as int),
            mirror(l - p, xv.dims[3] as int),
        ) by {
            crate::reflect::lemma_mirror_range(k - p, h as int);
            assert(yv.at4(i, j, k, l) == rv.at4(i, j, mirror(k - p, h as int), l));
        }
    }
    Ok(y)
}

/// A convolution whose input is padded by reflection.
pub struct RefPadConv {
    pub pad: usize,
    pub layer: ConvLayer,
}

impl RefPadConv {
    /// The layer is well formed.
    pub open spec fn wf(self) -> bool {
        self.layer.wf()
    }

    /// `mid` is the padded input and `y` its convolution.
    pub open spec fn runs_over(self, x: TensorVal, mid: TensorVal, y: TensorVal) -> bool {
        &&& if self.pad > 0 {
            is_reflect_padded(x, self.pad as int, mid)
        } else {
            mid == x
        }
        &&& is_conv(conv_val(self.layer.conv), mid, y)
    }

    /// `y` is a convolution of the padded `x`.
    pub open spec fn runs(self, x: TensorVal, y: TensorVal) -> bool {
        exists|mid: TensorVal| #[trigger] self.runs_over(x, mid, y)
    }

    /// The lengths of the padded input.
    pub open spec fn padded_dims(self, d: Seq<nat>) -> Seq<nat> {
        seq![d[0], d[1], (d[2] + 2 * self.pad) as nat, (d[3] + 2 * self.pad) as nat]
    }

    /// Memory can number the padded input and the result.
    pub open spec fn has_memory(self, d: Seq<nat>) -> bool {
        &&& numbered(product(self.padded_dims(d)) as int)
        &&& self.layer.has_memory(self.padded_dims(d))
    }

    /// The lengths of the result.
    pub open spec fn out_dims(self, d: Seq<nat>) -> Seq<nat> {
        let p = self.padded_dims(d);
        let (k, s) = (self.layer.kernel as nat, self.layer.stride as nat);
        seq![d[0], self.layer.n_out as nat, conv_len(p[2], k, s), conv_len(p[3], k, s)]
    }

    /// How the layer fails.
    pub open spec fn fails(self, x: TensorVal, e: WorkerError) -> bool {
        let d = x.dims;
        if d.len() != 4 {
            is_rank(e, 4, d)
        } else if self.pad > 0 && (self.pad >= d[2] || self.pad >= d[3]) {
            e is PadTooLarge
        } else {
            ||| e is Candle && !self.layer.agrees(x)
            ||| e is TooLarge && !self.has_memory(d)
            ||| e is KernelTooLarge && (d[2] + 2 * self.pad < self.layer.kernel || d[3] + 2
                * self.pad < self.layer.kernel)
        }
    }

    /// Loads a convolution without a bias, padded by `pad` lines.
    pub fn load(
        pad: usize,
        n_in: usize,
        n_out: usize,
        kernel: usize,
        stride: usize,
        w: Weights,
    ) -> (r: Result<RefPadConv, WorkerError>)
        requires
            n_in >= 1,
            n_out >= 1,
            kernel >= 1,
            stride >= 1,
            numbered(n_out * n_in * kernel * kernel),
        ensures
            weights_cpu(w) ==> (r is Ok <==> conv_held(
                weights_bytes(w),
                weights_path(w),
                n_in as nat,
                n_out as nat,
                kernel as nat,
            )),
            match r {
                Ok(c) => c.layer.on_cpu() == weights_cpu(w) && c.loaded(
                    weights_bytes(w),
                    weights_path(w),
                    pad,
                    n_in,
                    n_out,
                    kernel,
                    stride,
                ),
                Err(e) => e is Candle,
            },
    {
        let layer = ConvLayer::load(n_in, n_out, kernel, stride, w)?;
        Ok(RefPadConv { pad, layer })
    }

    /// The convolution stands in the file at the path, with the given lengths.
    pub open spec fn loaded(
        self,
        bytes: Seq<u8>,
        path: Seq<Seq<char>>,
        pad: usize,
        n_in: usize,
        n_out: usize,
        kernel: usize,
        stride: usize,
    ) -> bool {
        &&& self.wf()
        &&& self.pad == pad
        &&& (self.layer.n_in, self.layer.n_out, self.layer.kernel, self.layer.stride) == (
            n_in,
            n_out,
            kernel,
            stride,
        )
        &&& conv_loaded(
            conv_val(self.layer.conv),
            bytes,
            path,
            n_in as nat,
            n_out as nat,
            kernel as nat,
            stride as nat,
        )
    }

    /// The convolution of the padded `x`.
    pub fn forward(&self, x: &Tensor) -> (r: Result<Tensor, WorkerError>)
        requires
            self.wf(),
            tensor_val(*x).good(),
        ensures
            match r {
                Ok(y) => {
                    &&& tensor_val(*x).dims.len() == 4
                    &&& reaches(Some(*self), Some(tensor_val(*x)))
                    &&& self.has_memory(tensor_val(*x).dims)
                    &&& tensor_val(y).dims == self.out_dims(tensor_val(*x).dims)
                    &&& tensor_val(y).cpu == tensor_val(*x).cpu
                    &&& tensor_val(y).good()
                    &&& self.runs(tensor_val(*x), tensor_val(y))
                },
                Err(e) => self.fails(tensor_val(*x), e),
            },
    {
        let ghost d = tensor_val(*x).dims;
        proof {
            if d.len() == 4 {
                lemma_product4(self.padded_dims(d));
                if self.pad == 0 {
                    assert(self.padded_dims(d) =~= d);
                }
            }
        }
        if self.pad > 0 {
            let mid = reflect_pad2d(x, self.pad)?;
            assert(tensor_val(mid).dims =~= self.padded_dims(d));
            let y = self.layer.forward(&mid)?;
            assert(self.runs_over(tensor_val(*x), tensor_val(mid), tensor_val(y)));
            Ok(y)
        } else {
            let y = self.layer.forward(x)?;
            assert(self.runs_over(tensor_val(*x), tensor_val(*x), tensor_val(y)));
            Ok(y)
        }
    }
}

/// The wave function accepts every argument.
pub open spec fn total_wave<T: Fn(usize, usize, usize) -> (u32, u32)>(wave: T) -> bool {
    forall|k: usize, j: usize, n: usize| #[trigger] call_requires(wave, (k, j, n))
}

/// The matrices for images of one size: every bin along the height for both
/// directions, the bins of a real signal along the width forward, and every bin
/// along the width back.
pub struct SizeBases {
    pub bh: Basis,
    pub bw: Basis,
    pub bwf: Basis,
}

impl SizeBases {
    /// The matrices serve images of `h` rows and `w` columns.
    pub open spec fn made_for<T: Fn(usize, usize, usize) -> (u32, u32)>(
        self,
        wave: T,
        h: usize,
        w: usize,
    ) -> bool {
        &&& self.bh.made_by(wave, h, h)
        &&& self.bw.made_by(wave, (w / 2 + 1) as usize, w)
        &&& self.bwf.made_by(wave, w, w)
    }

    /// The matrices lie on the CPU.
    pub open spec fn cpu(self) -> bool {
        self.bh.cpu() && self.bw.cpu() && self.bwf.cpu()
    }
}

/// A convolution of spectra: forward transform, a convolution over the packed
/// spectrum, and the inverse transform.
pub struct FourierUnit {
    pub conv: ConvLayer,
    pub bn: BatchNorm,
}

/// The values that a Fourier unit passes through.
pub struct UnitSteps {
    pub bases: SizeBases,
    pub re: TensorVal,
    pub im: TensorVal,
    pub packed: TensorVal,
    pub mixed: TensorVal,
    pub normed: TensorVal,
    pub active: TensorVal,
    pub yr: TensorVal,
    pub yi: TensorVal,
}

impl FourierUnit {
    /// A one by one convolution that keeps its `2 * ch` channels, with
    /// statistics for them.
    pub open spec fn wf(self, ch: nat) -> bool {
        &&& self.conv.wf()
        &&& self.conv.n_in == 2 * ch
        &&& self.conv.n_out == 2 * ch
        &&& self.conv.kernel == 1
        &&& self.conv.stride == 1
        &&& norm_val(self.bn).wf(2 * ch)
    }

    /// The unit stands in the file at the path.
    pub open spec fn loaded(self, bytes: Seq<u8>, path: Seq<Seq<char>>, ch: nat) -> bool {
        &&& self.wf(ch)
        &&& conv_loaded(
            conv_val(self.conv.conv),
            bytes,
            path.push("conv_layer"@),
            2 * ch,
            2 * ch,
            1,
            1,
        )
        &&& norm_loaded(norm_val(self.bn), bytes, path.push("bn"@), 2 * ch)
    }

    /// `y` comes out of the unit over the given steps.
    pub open spec fn runs_over<T: Fn(usize, usize, usize) -> (u32, u32)>(
        self,
        wave: T,
        x: TensorVal,
        t: UnitSteps,
        y: TensorVal,
    ) -> bool {
        &&& t.bases.made_for(wave, x.dims[2] as usize, x.dims[3] as usize)
        &&& is_rfft2(x, t.bases.bh, t.bases.bw, t.re, t.im)
        &&& is_packed(t.re, t.im, t.packed)
        &&& is_conv(conv_val(self.conv.conv), t.packed, t.mixed)
        &&& is_normed(norm_val(self.bn), t.mixed, t.normed)
        &&& is_relu(t.normed, t.active)
        &&& is_unpacked(t.active, t.yr, t.yi)
        &&& is_irfft2(t.yr, t.yi, t.bases.bwf, t.bases.bh, x.dims[3], y)
    }

    /// `y` may come out of the unit for `x`.
    pub open spec fn runs<T: Fn(usize, usize, usize) -> (u32, u32)>(
        self,
        wave: T,
        x: TensorVal,
        y: TensorVal,
    ) -> bool {
        exists|t: UnitSteps| #[trigger] self.runs_over(wave, x, t, y)
    }

    /// The file holds a unit of `ch` channels at the path.
    pub open spec fn held(bytes: Seq<u8>, path: Seq<Seq<char>>, ch: nat) -> bool {
        &&& conv_held(bytes, path.push("conv_layer"@), 2 * ch, 2 * ch, 1)
        &&& norm_held(bytes, path.push("bn"@), 2 * ch)
    }

    /// The weights lie on the CPU.
    pub open spec fn on_cpu(self) -> bool {
        self.conv.on_cpu() && norm_val(self.bn).cpu
    }

    /// The unit and its input lie on the CPU and agree on the channels.
    pub open spec fn agrees(self, x: TensorVal) -> bool {
        &&& self.on_cpu()
        &&& x.cpu
        &&& 2 * x.dims[1] == self.conv.n_in
    }

    /// Memory can number what the unit makes of an input of the given lengths:
    /// its matrices, the spectrum and what comes of it.
    pub open spec fn has_memory(self, d: Seq<nat>) -> bool {
        &&& numbered((d[2] * d[2]) as int)
        &&& numbered((d[3] * d[3]) as int)
        &&& numbered((2 * d[0] * d[1] * d[2] * d[3]) as int)
        &&& numbered((d[0] * self.conv.n_out as nat * d[2] * d[3]) as int)
    }

    /// Loads a unit of `ch` channels.
    pub fn load(w: Weights, ch: usize) -> (r: Result<FourierUnit, WorkerError>)
        requires
            ch >= 1,
            numbered((2 * ch) * (2 * ch)),
        ensures
            weights_cpu(w) ==> (r is Ok <==> Self::held(
                weights_bytes(w),
                weights_path(w),
                ch as nat,
            )),
            match r {
                Ok(u) => u.on_cpu() == weights_cpu(w) && u.loaded(
                    weights_bytes(w),
                    weights_path(w),
                    ch as nat,
                ),
                Err(e) => e is Candle,
            },
    {
        assert(2 * ch <= (2 * ch) * (2 * ch)) by (nonlinear_arith)
            requires
                ch >= 1,
        ;
        let conv = ConvLayer::load(2 * ch, 2 * ch, 1, 1, w.pp("conv_layer"))?;
        let bn = lift(batch_norm(2 * ch, w.pp("bn")))?;
        Ok(FourierUnit { conv, bn })
    }

    /// The matrices for images of `h` rows and `w` columns.
    pub fn bases_for<T: Fn(usize, usize, usize) -> (u32, u32)>(
        h: usize,
        w: usize,
        wave: &T,
        dev: &Device,
    ) -> (r: Result<SizeBases, WorkerError>)
        requires
            h >= 1,
            w >= 1,
            total_wave(*wave),
        ensures
            match r {
                Ok(b) => b.made_for(*wave, h, w) && b.cpu() == is_cpu(*dev),
                Err(e) => {
                    ||| e is Candle && !is_cpu(*dev)
                    ||| e is TooLarge && !(numbered(h * h) && numbered(w * w))
                },
            },
    {
        assert((w / 2 + 1) * w <= w * w) by (nonlinear_arith)
            requires
                w / 2 + 1 <= w,
        ;
        let bh = Basis::full(h, wave, dev)?;
        let bw = Basis::onesided(w, wave, dev)?;
        let bwf = Basis::full(w, wave, dev)?;
        Ok(SizeBases { bh, bw, bwf })
    }

    /// Runs the unit.
    pub fn forward<T: Fn(usize, usize, usize) -> (u32, u32)>(&self, x: &Tensor, wave: &T) -> (r:
        Result<Tensor, WorkerError>)
        requires
            exists|ch: nat| self.wf(ch),
            tensor_val(*x).good(),
            total_wave(*wave),
        ensures
            match r {
                Ok(y) => {
                    &&& tensor_val(*x).dims.len() == 4
                    &&& tensor_val(*x).dims[3] >= 3
                    &&& tensor_val(y).dims == tensor_val(*x).dims
                    &&& tensor_val(y).cpu == tensor_val(*x).cpu
                    &&& tensor_val(y).good()
                    &&& self.runs(*wave, tensor_val(*x), tensor_val(y))
                },
                Err(e) => {
                    let d = tensor_val(*x).dims;
                    if d.len() != 4 {
                        is_rank(e, 4, d)
                    } else {
                        ||| e is Candle && !self.agrees(tensor_val(*x))
                        ||| e is TooLarge && !self.has_memory(d)
                        ||| e is DegenerateWidth && d[3] < 3
                    }
                },
            },
    {
        let (b, c, h, w) = shape4(x)?;
        let ghost xv = tensor_val(*x);
        proof {
            lemma_unit_memory(
                b as nat,
                c as nat,
                self.conv.n_out as nat,
                h as nat,
                w as nat,
                self.has_memory(xv.dims),
            );
        }
        let bases = Self::bases_for(h, w, wave, device(x))?;
        let (re, im) = rfft2(x, &bases.bh, &bases.bw)?;
        proof {
            lemma_product4(tensor_val(re).dims);
        }
        let packed = pack(&re, &im)?;
        proof {
            lemma_conv_len_unit(tensor_val(packed).dims[2]);
            lemma_conv_len_unit(tensor_val(packed).dims[3]);
        }
        let mixed = self.conv.forward(&packed)?;
        let normed = lift(norm_forward(&self.bn, &mixed))?;
        let active = lift(relu(&normed))?;
        let (yr, yi) = unpack(&active)?;
        let y = irfft2(&yr, &yi, &bases.bwf, &bases.bh, w)?;
        proof {
            let t = UnitSteps {
                bases,
                re: tensor_val(re),
                im: tensor_val(im),
                packed: tensor_val(packed),
                mixed: tensor_val(mixed),
                normed: tensor_val(normed),
                active: tensor_val(active),
                yr: tensor_val(yr),
                yi: tensor_val(yi),
            };
            assert(self.runs_over(*wave, xv, t, tensor_val(y)));
            assert(tensor_val(y).dims =~= xv.dims);
        }
        Ok(y)
    }
}

/// What a Fourier unit makes of `b` images of `c` channels, `h` rows and `w`
/// columns is no larger than the bounds that its memory is measured by.
proof fn lemma_unit_memory(b: nat, c: nat, n: nat, h: nat, w: nat, enough: bool)
    requires
        b >= 1,
        c >= 1,
        h >= 1,
        w >= 1,
        enough ==> numbered((2 * b * c * h * w) as int) && numbered((b * n * h * w) as int),
    ensures
        ({
            let m = w / 2 + 1;
            enough ==> {
                &&& numbered((b * w * c * h) as int)
                &&& numbered((b * c * h * m) as int)
                &&& numbered((b * c * h * m + b * c * h * m) as int)
                &&& numbered((b * n * h * m) as int)
                &&& numbered((b * m * (n / 2) * h) as int)
                &&& numbered((b * (n / 2) * h * w) as int)
            }
        }),
{
    let m = w / 2 + 1;
    assert(m <= w);
    let (bi, ci, ni, hi, wi, mi) = (b as int, c as int, n as int, h as int, w as int, m as int);
    let k = (n / 2) as int;
    assert(bi * wi * ci * hi <= 2 * bi * ci * hi * wi) by (nonlinear_arith)
        requires
            bi >= 0,
            ci >= 0,
            hi >= 0,
            wi >= 0,
    ;
    assert(bi * ci * hi * mi <= bi * ci * hi * wi) by (nonlinear_arith)
        requires
            bi * ci * hi >= 0,
            0 <= mi <= wi,
    ;
    assert(bi * ci * hi >= 0 && bi * ni * hi >= 0) by (nonlinear_arith)
        requires
            bi >= 0,
            ci >= 0,
            ni >= 0,
            hi >= 0,
    ;
    assert(2 * bi * ci * hi * wi == bi * ci * hi * wi + bi * ci * hi * wi) by (nonlinear_arith);
    assert(bi * ni * hi * mi <= bi * ni * hi * wi) by (nonlinear_arith)
        requires
            bi * ni * hi >= 0,
            0 <= mi <= wi,
    ;
    assert(bi * k * hi <= bi * ni * hi) by (nonlinear_arith)
        requires
            bi >= 0,
            0 <= k <= ni,
            hi >= 0,
    ;
    assert(bi * k * hi * wi <= bi * ni * hi * wi) by (nonlinear_arith)
        requires
            bi * k * hi <= bi * ni * hi,
            wi >= 0,
    ;
    assert(bi * mi * k * hi == bi * k * hi * mi) by (nonlinear_arith);
    assert(bi * k * hi * mi <= bi * k * hi * wi) by (nonlinear_arith)
        requires
            bi >= 0,
            k >= 0,
            hi >= 0,
            0 <= mi <= wi,
    ;
}

/// A one by one convolution of stride one keeps a length.
proof fn lemma_conv_len_unit(n: nat)
    requires
        n >= 1,
    ensures
        conv_len(n, 1, 1) == n,
{
    assert((n - 1) / 1 == n - 1);
}

/// The global-to-global branch: a narrow bottleneck around a Fourier unit.
pub struct SpectralTransform {
    pub avgpool: bool,
    pub conv1: ConvLayer,
    pub bn1: BatchNorm,
    pub fu: FourierUnit,
    pub conv2: ConvLayer,
}

/// The values that a spectral transform passes through.
pub struct SpectralSteps {
    pub pooled: TensorVal,
    pub narrowed: TensorVal,
    pub normed: TensorVal,
    pub active: TensorVal,
    pub unit: TensorVal,
    pub sum: TensorVal,
}

impl SpectralTransform {
    /// One by one convolutions from `n_in` channels to the unit's `half` and on
    /// to `n_out`.
    pub open spec fn wf(self, n_in: nat, half: nat, n_out: nat) -> bool {
        &&& self.conv1.wf()
        &&& (self.conv1.n_in as nat, self.conv1.n_out as nat) == (n_in, half)
        &&& self.conv1.kernel == 1
        &&& self.conv1.stride == 1
        &&& norm_val(self.bn1).wf(half)
        &&& self.fu.wf(half)
        &&& self.conv2.wf()
        &&& (self.conv2.n_in as nat, self.conv2.n_out as nat) == (half, n_out)
        &&& self.conv2.kernel == 1
        &&& self.conv2.stride == 1
    }

    /// The transform stands in the file at the path.
    pub open spec fn loaded(
        self,
        bytes: Seq<u8>,
        path: Seq<Seq<char>>,
        n_in: nat,
        n_out: nat,
        stride: nat,
    ) -> bool {
        let half = n_out / 2;
        &&& self.wf(n_in, half, n_out)
        &&& self.avgpool == (stride == 2)
        &&& conv_loaded(
            conv_val(self.conv1.conv),
            bytes,
            path.push("conv1"@).push("0"@),
            n_in,
            half,
            1,
            1,
        )
        &&& norm_loaded(norm_val(self.bn1), bytes, path.push("conv1"@).push("1"@), half)
        &&& self.fu.loaded(bytes, path.push("fu"@), half)
        &&& conv_loaded(conv_val(self.conv2.conv), bytes, path.push("conv2"@), half, n_out, 1, 1)
    }

    /// `y` comes out of the transform over the given steps.
    pub open spec fn runs_over<T: Fn(usize, usize, usize) -> (u32, u32)>(
        self,
        wave: T,
        x: TensorVal,
        t: SpectralSteps,
        y: TensorVal,
    ) -> bool {
        &&& if self.avgpool {
            is_pooled(x, t.pooled)
        } else {
            t.pooled == x
        }
        &&& is_conv(conv_val(self.conv1.conv), t.pooled, t.narrowed)
        &&& is_normed(norm_val(self.bn1), t.narrowed, t.normed)
        &&& is_relu(t.normed, t.active)
        &&& self.fu.runs(wave, t.active, t.unit)
        &&& is_sum(t.active, t.unit, t.sum)
        &&& is_conv(conv_val(self.conv2.conv), t.sum, y)
    }

    /// `y` may come out of the transform for `x`.
    pub open spec fn runs<T: Fn(usize, usize, usize) -> (u32, u32)>(
        self,
        wave: T,
        x: TensorVal,
        y: TensorVal,
    ) -> bool {
        exists|t: SpectralSteps| #[trigger] self.runs_over(wave, x, t, y)
    }

    /// The file holds a transform of `n_in` to `n_out` channels at the path.
    pub open spec fn held(bytes: Seq<u8>, path: Seq<Seq<char>>, n_in: nat, n_out: nat) -> bool {
        let half = n_out / 2;
        &&& conv_held(bytes, path.push("conv1"@).push("0"@), n_in, half, 1)
        &&& norm_held(bytes, path.push("conv1"@).push("1"@), half)
        &&& FourierUnit::held(bytes, path.push("fu"@), half)
        &&& conv_held(bytes, path.push("conv2"@), half, n_out, 1)
    }

    /// The weights lie on the CPU.
    pub open spec fn on_cpu(self) -> bool {
        &&& self.conv1.on_cpu()
        &&& norm_val(self.bn1).cpu
        &&& self.fu.on_cpu()
        &&& self.conv2.on_cpu()
    }

    /// The transform and its input lie on the CPU and agree on the channels, and
    /// there is something to pool.
    pub open spec fn agrees(self, x: TensorVal) -> bool {
        &&& self.on_cpu()
        &&& x.cpu
        &&& x.dims[1] == self.conv1.n_in
        &&& self.avgpool ==> x.dims[2] >= 2 && x.dims[3] >= 2
    }

    /// The lengths of the result.
    pub open spec fn out_dims(self, d: Seq<nat>) -> Seq<nat> {
        self.pooled_dims(d).update(1, self.conv2.n_out as nat)
    }

    /// The lengths behind the pooling.
    pub open spec fn pooled_dims(self, d: Seq<nat>) -> Seq<nat> {
        if self.avgpool {
            seq![d[0], d[1], d[2] / 2, d[3] / 2]
        } else {
            d
        }
    }

    /// Memory can number what the transform makes of an input of the given
    /// lengths.
    pub open spec fn has_memory(self, d: Seq<nat>) -> bool {
        let p = self.pooled_dims(d);
        let half = self.conv1.n_out as nat;
        &&& numbered((p[0] * half * p[2] * p[3]) as int)
        &&& self.fu.has_memory(seq![p[0], half, p[2], p[3]])
        &&& numbered((p[0] * self.conv2.n_out as nat * p[2] * p[3]) as int)
    }

    /// Loads a transform of `n_in` to `n_out` channels.
    pub fn load(w: Weights, n_in: usize, n_out: usize, stride: usize) -> (r: Result<
        SpectralTransform,
        WorkerError,
    >)
        requires
            n_in >= 1,
            n_out >= 2,
            numbered(n_in * n_out),
            numbered(n_out * n_out),
        ensures
            weights_cpu(w) ==> (r is Ok <==> Self::held(
                weights_bytes(w),
                weights_path(w),
                n_in as nat,
                n_out as nat,
            )),
            match r {
                Ok(t) => t.on_cpu() == weights_cpu(w) && t.loaded(
                    weights_bytes(w),
                    weights_path(w),
                    n_in as nat,
                    n_out as nat,
                    stride as nat,
                ),
                Err(e) => e is Candle,
            },
    {
        let half: usize = n_out / 2;
        proof {
            let (a, b, c) = (n_in as int, half as int, n_out as int);
            assert(b * a <= a * c && (2 * b) * (2 * b) <= c * c && c * b <= c * c)
                by (nonlinear_arith)
                requires
                    a >= 1,
                    b >= 1,
                    2 * b <= c,
            ;
        }
        let conv1 = ConvLayer::load(n_in, half, 1, 1, w.pp("conv1").pp("0"))?;
        let bn1 = lift(batch_norm(half, w.pp("conv1").pp("1")))?;
        let fu = FourierUnit::load(w.pp("fu"), half)?;
        let conv2 = ConvLayer::load(half, n_out, 1, 1, w.pp("conv2"))?;
        Ok(SpectralTransform { avgpool: stride == 2, conv1, bn1, fu, conv2 })
    }

    /// Runs the transform.
    pub fn forward<T: Fn(usize, usize, usize) -> (u32, u32)>(&self, x: &Tensor, wave: &T) -> (r:
        Result<Tensor, WorkerError>)
        requires
            exists|n_in: nat, half: nat, n_out: nat| self.wf(n_in, half, n_out),
            tensor_val(*x).good(),
            total_wave(*wave),
        ensures
            match r {
                Ok(y) => {
                    &&& tensor_val(*x).dims.len() == 4
                    &&& self.pooled_dims(tensor_val(*x).dims)[3] >= 3
                    &&& tensor_val(y).dims == self.out_dims(tensor_val(*x).dims)
                    &&& tensor_val(y).cpu == tensor_val(*x).cpu
                    &&& tensor_val(y).good()
                    &&& self.runs(*wave, tensor_val(*x), tensor_val(y))
                },
                Err(e) => {
                    let d = tensor_val(*x).dims;
                    if d.len() != 4 {
                        is_rank(e, 4, d)
                    } else {
                        ||| e is Candle && !self.agrees(tensor_val(*x))
                        ||| e is TooLarge && !self.has_memory(d)
                        ||| e is DegenerateWidth && self.pooled_dims(d)[3] < 3
                    }
                },
            },
    {
        let (_, _, _, _) = shape4(x)?;
        if self.avgpool {
            let pooled = lift(avg_pool(x))?;
            assert(tensor_val(pooled).dims[2] >= 1 && tensor_val(pooled).dims[3] >= 1);
            let y = self.forward_pooled(&pooled, wave, Ghost(tensor_val(*x)))?;
            Ok(y)
        } else {
            self.forward_pooled(x, wave, Ghost(tensor_val(*x)))
        }
    }

    /// Runs the transform behind the pooling of `x`.
    fn forward_pooled<T: Fn(usize, usize, usize) -> (u32, u32)>(
        &self,
        pooled: &Tensor,
        wave: &T,
        Ghost(x): Ghost<TensorVal>,
    ) -> (r: Result<Tensor, WorkerError>)
        requires
            exists|n_in: nat, half: nat, n_out: nat| self.wf(n_in, half, n_out),
            tensor_val(*pooled).good(),
            tensor_val(*pooled).dims.len() == 4,
            total_wave(*wave),
            if self.avgpool {
                is_pooled(x, tensor_val(*pooled)) && x.dims[2] >= 2 && x.dims[3] >= 2
            } else {
                tensor_val(*pooled) == x
            },
        ensures
            match r {
                Ok(y) => {
                    &&& self.pooled_dims(x.dims)[3] >= 3
                    &&& tensor_val(y).dims == self.out_dims(x.dims)
                    &&& tensor_val(y).cpu == x.cpu
                    &&& tensor_val(y).good()
                    &&& self.runs(*wave, x, tensor_val(y))
                },
                Err(e) => {
                    ||| e is Candle && !self.agrees(x)
                    ||| e is TooLarge && !self.has_memory(x.dims)
                    ||| e is DegenerateWidth && self.pooled_dims(x.dims)[3] < 3
                },
            },
    {
        proof {
            lemma_conv_len_unit(tensor_val(*pooled).dims[2]);
            lemma_conv_len_unit(tensor_val(*pooled).dims[3]);
        }
        let narrowed = self.conv1.forward(pooled)?;
        assert(tensor_val(narrowed).dims =~= seq![
            tensor_val(*pooled).dims[0],
            self.conv1.n_out as nat,
            tensor_val(*pooled).dims[2],
            tensor_val(*pooled).dims[3],
        ]);
        let normed = lift(norm_forward(&self.bn1, &narrowed))?;
        let active = lift(relu(&normed))?;
        let unit = self.fu.forward(&active, wave)?;
        let sum = lift(plus(&active, &unit))?;
        let y = self.conv2.forward(&sum)?;
        proof {
            let t = SpectralSteps {
                pooled: tensor_val(*pooled),
                narrowed: tensor_val(narrowed),
                normed: tensor_val(normed),
                active: tensor_val(active),
                unit: tensor_val(unit),
                sum: tensor_val(sum),
            };
            assert(self.runs_over(*wave, x, t, tensor_val(y)));
            assert(tensor_val(y).dims =~= self.out_dims(x.dims));
        }
        Ok(y)
    }
}

/// The value of an optional tensor.
pub open spec fn option_val(t: Option<Tensor>) -> Option<TensorVal> {
    match t {
        Some(v) => Some(tensor_val(v)),
        None => None,
    }
}

/// An optional tensor is well formed, with four axes.
pub open spec fn option_good(t: Option<TensorVal>) -> bool {
    t matches Some(v) ==> v.good() && v.dims.len() == 4
}

/// `r` is the sum of the contributions that are present.
pub open spec fn adds(a: Option<TensorVal>, b: Option<TensorVal>, r: Option<TensorVal>) -> bool {
    match (a, b) {
        (Some(x), Some(y)) => r matches Some(z) && is_sum(x, y, z),
        (Some(x), None) => r == Some(x),
        (None, Some(y)) => r == Some(y),
        (None, None) => r is None,
    }
}

/// Contributions that are both present lie on the CPU and have one shape.
pub open spec fn addable(a: Option<TensorVal>, b: Option<TensorVal>) -> bool {
    match (a, b) {
        (Some(x), Some(y)) => x.cpu && y.cpu && x.dims == y.dims,
        _ => true,
    }
}

/// The sum of the contributions that are present.
pub fn add_opt(a: Option<Tensor>, b: Option<Tensor>) -> (r: Result<Option<Tensor>, WorkerError>)
    requires
        option_good(option_val(a)),
        option_good(option_val(b)),
    ensures
        match r {
            Ok(t) => adds(option_val(a), option_val(b), option_val(t)) && option_good(
                option_val(t),
            ),
            Err(e) => e is Candle && !addable(option_val(a), option_val(b)),
        },
{
    match (a, b) {
        (Some(x), Some(y)) => {
            let z = lift(plus(&x, &y))?;
            Ok(Some(z))
        },
        (Some(x), None) => Ok(Some(x)),
        (None, b) => Ok(b),
    }
}

/// The lengths of a block with a local and a global branch. The global share of
/// the input and output channels is given in quarters.
#[derive(Clone, Copy)]
pub struct BlockShape {
    pub in_ch: usize,
    pub out_ch: usize,
    pub gin: usize,
    pub gout: usize,
    pub stride: usize,
    pub pad: usize,
    pub kernel: usize,
}

/// The global part of `ch` channels, `quarters` fourths rounded down.
pub open spec fn share(ch: nat, quarters: nat) -> nat {
    ch * quarters / 4
}

impl BlockShape {
    /// Global input channels.
    pub open spec fn in_g(self) -> nat {
        share(self.in_ch as nat, self.gin as nat)
    }

    /// Local input channels.
    pub open spec fn in_l(self) -> nat {
        (self.in_ch - self.in_g()) as nat
    }

    /// Global output channels.
    pub open spec fn out_g(self) -> nat {
        share(self.out_ch as nat, self.gout as nat)
    }

    /// Local output channels.
    pub open spec fn out_l(self) -> nat {
        (self.out_ch - self.out_g()) as nat
    }

    /// The lengths make sense: shares of at most the whole, and room for the
    /// bottleneck of a spectral transform.
    pub open spec fn ok(self) -> bool {
        &&& 4 * self.in_ch <= usize::MAX
        &&& 4 * self.out_ch <= usize::MAX
        &&& self.gin <= 4
        &&& self.gout <= 4
        &&& self.kernel >= 1
        &&& self.stride >= 1
        &&& self.in_g() > 0 && self.out_g() > 0 ==> self.out_g() >= 2
        &&& numbered(self.out_ch * self.in_ch * self.kernel * self.kernel)
        &&& numbered(self.out_ch * self.out_ch)
    }

    /// The lengths of a branch of `n` channels that comes out for an input of
    /// the given lengths.
    pub open spec fn result_dims(self, d: Seq<nat>, n: nat) -> Seq<nat> {
        seq![
            d[0],
            n,
            conv_len((d[2] + 2 * self.pad) as nat, self.kernel as nat, self.stride as nat),
            conv_len((d[3] + 2 * self.pad) as nat, self.kernel as nat, self.stride as nat),
        ]
    }

    /// The lengths of the four branches: local in, global in, local out, global
    /// out.
    pub fn split(&self) -> (r: (usize, usize, usize, usize))
        requires
            self.ok(),
        ensures
            (r.0 as nat, r.1 as nat, r.2 as nat, r.3 as nat) == (
                self.in_l(),
                self.in_g(),
                self.out_l(),
                self.out_g(),
            ),
            r.0 + r.1 == self.in_ch,
            r.2 + r.3 == self.out_ch,
    {
        proof {
            lemma_share_bound(self.in_ch as nat, self.gin as nat);
            lemma_share_bound(self.out_ch as nat, self.gout as nat);
        }
        let in_g: usize = self.in_ch * self.gin / 4;
        let out_g: usize = self.out_ch * self.gout / 4;
        (self.in_ch - in_g, in_g, self.out_ch - out_g, out_g)
    }
}

/// A share is at most the whole.
proof fn lemma_share_bound(ch: nat, quarters: nat)
    requires
        quarters <= 4,
    ensures
        ch * quarters <= 4 * ch,
        share(ch, quarters) <= ch,
{
    assert(ch * quarters <= 4 * ch) by (nonlinear_arith)
        requires
            quarters <= 4,
    ;
}

/// The layers between parts of the branches are no larger than one between the
/// whole of them.
proof fn lemma_branch_size(s: BlockShape, n_in: int, n_out: int)
    requires
        s.ok(),
        0 <= n_in <= s.in_ch,
        0 <= n_out <= s.out_ch,
    ensures
        numbered(n_out * n_in * s.kernel * s.kernel),
        numbered(n_in * n_out),
        numbered(n_out * n_out),
{
    let (a, b, k) = (s.in_ch as int, s.out_ch as int, s.kernel as int);
    assert(n_out * n_in <= b * a) by (nonlinear_arith)
        requires
            0 <= n_in <= a,
            0 <= n_out <= b,
    ;
    assert(n_out * n_out <= b * b) by (nonlinear_arith)
        requires
            0 <= n_out <= b,
    ;
    assert(n_out * n_in * k <= b * a * k) by (nonlinear_arith)
        requires
            n_out * n_in <= b * a,
            k >= 1,
    ;
    assert(n_out * n_in * k * k <= b * a * k * k) by (nonlinear_arith)
        requires
            n_out * n_in * k <= b * a * k,
            k >= 1,
    ;
    assert(n_in * n_out <= n_out * n_in * k * k) by (nonlinear_arith)
        requires
            n_in >= 0,
            n_out >= 0,
            k >= 1,
    ;
}

/// A block that mixes a local and a global branch: convolutions between them and
/// a spectral transform from global to global.
pub struct FfcBlock {
    pub l2l: Option<RefPadConv>,
    pub l2g: Option<RefPadConv>,
    pub g2l: Option<RefPadConv>,
    pub g2g: Option<SpectralTransform>,
    pub has_gout: bool,
}

/// The contributions that a block adds up.
pub struct BlockSteps {
    pub ll: Option<TensorVal>,
    pub gl: Option<TensorVal>,
    pub lg: Option<TensorVal>,
    pub gg: Option<TensorVal>,
}

/// The contribution of a convolution that may be absent, to an input that may
/// be absent.
pub open spec fn contributes(
    c: Option<RefPadConv>,
    x: Option<TensorVal>,
    y: Option<TensorVal>,
) -> bool {
    match (c, x) {
        (Some(conv), Some(v)) => y matches Some(z) && conv.runs(v, z),
        _ => y is None,
    }
}

/// The same for a spectral transform.
pub open spec fn transforms<T: Fn(usize, usize, usize) -> (u32, u32)>(
    wave: T,
    c: Option<SpectralTransform>,
    x: Option<TensorVal>,
    y: Option<TensorVal>,
) -> bool {
    match (c, x) {
        (Some(st), Some(v)) => y matches Some(z) && st.runs(wave, v, z),
        _ => y is None,
    }
}

/// The margin and the kernel of a convolution fit its input, where there is one.
pub open spec fn reaches(c: Option<RefPadConv>, x: Option<TensorVal>) -> bool {
    match (c, x) {
        (Some(conv), Some(v)) => {
            &&& conv.pad == 0 || (conv.pad < v.dims[2] && conv.pad < v.dims[3])
            &&& conv.layer.kernel <= v.dims[2] + 2 * conv.pad
            &&& conv.layer.kernel <= v.dims[3] + 2 * conv.pad
        },
        _ => true,
    }
}

/// Memory can number what a convolution makes of its input, where there is one.
pub open spec fn conv_numbered(c: Option<RefPadConv>, x: Option<TensorVal>) -> bool {
    match (c, x) {
        (Some(conv), Some(v)) => conv.has_memory(v.dims),
        _ => true,
    }
}

/// Memory can number what a spectral transform makes of its input, where there is
/// one.
pub open spec fn spectral_numbered(s: Option<SpectralTransform>, x: Option<TensorVal>) -> bool {
    match (s, x) {
        (Some(st), Some(v)) => st.has_memory(v.dims),
        _ => true,
    }
}

/// A convolution agrees with its input, where there is one.
pub open spec fn conv_agrees(c: Option<RefPadConv>, x: Option<TensorVal>) -> bool {
    match (c, x) {
        (Some(conv), Some(v)) => conv.layer.agrees(v),
        _ => true,
    }
}

/// A spectral transform agrees with its input, where there is one.
pub open spec fn spectral_agrees(s: Option<SpectralTransform>, x: Option<TensorVal>) -> bool {
    match (s, x) {
        (Some(st), Some(v)) => st.agrees(v),
        _ => true,
    }
}

/// A spectral transform finds its input wide enough, where there is one.
pub open spec fn wide_enough(c: Option<SpectralTransform>, x: Option<TensorVal>) -> bool {
    match (c, x) {
        (Some(st), Some(v)) => st.pooled_dims(v.dims)[3] >= 3,
        _ => true,
    }
}

impl FfcBlock {
    /// Every layer that is present is well formed.
    pub open spec fn wf(self) -> bool {
        &&& self.l2l matches Some(c) ==> c.wf()
        &&& self.l2g matches Some(c) ==> c.wf()
        &&& self.g2l matches Some(c) ==> c.wf()
        &&& self.g2g matches Some(c) ==> exists|n_in: nat, half: nat, n_out: nat|
            c.wf(n_in, half, n_out)
    }

    /// The block stands in the file at the path: a layer for each pair of
    /// branches that have channels.
    pub open spec fn loaded(self, bytes: Seq<u8>, path: Seq<Seq<char>>, s: BlockShape) -> bool {
        &&& self.wf()
        &&& self.has_gout == (s.gout != 0)
        &&& self.l2l is Some <==> s.in_l() > 0 && s.out_l() > 0
        &&& self.l2g is Some <==> s.in_l() > 0 && s.out_g() > 0
        &&& self.g2l is Some <==> s.in_g() > 0 && s.out_l() > 0
        &&& self.g2g is Some <==> s.in_g() > 0 && s.out_g() > 0
        &&& self.l2l matches Some(c) ==> c.loaded(
            bytes,
            path.push("convl2l"@),
            s.pad,
            s.in_l() as usize,
            s.out_l() as usize,
            s.kernel,
            s.stride,
        )
        &&& self.l2g matches Some(c) ==> c.loaded(
            bytes,
            path.push("convl2g"@),
            s.pad,
            s.in_l() as usize,
            s.out_g() as usize,
            s.kernel,
            s.stride,
        )
        &&& self.g2l matches Some(c) ==> c.loaded(
            bytes,
            path.push("convg2l"@),
            s.pad,
            s.in_g() as usize,
            s.out_l() as usize,
            s.kernel,
            s.stride,
        )
        &&& self.g2g matches Some(c) ==> c.loaded(
            bytes,
            path.push("convg2g"@),
            s.in_g(),
            s.out_g(),
            s.stride as nat,
        )
    }

    /// `(ol, og)` come out of the block over the given contributions.
    pub open spec fn runs_over<T: Fn(usize, usize, usize) -> (u32, u32)>(
        self,
        wave: T,
        xl: TensorVal,
        xg: Option<TensorVal>,
        t: BlockSteps,
        ol: Option<TensorVal>,
        og: Option<TensorVal>,
    ) -> bool {
        &&& if !self.has_gout || self.l2l is Some || self.g2l is Some {
            &&& contributes(self.l2l, Some(xl), t.ll)
            &&& contributes(self.g2l, xg, t.gl)
            &&& adds(t.ll, t.gl, ol)
        } else {
            ol is None
        }
        &&& if self.has_gout {
            &&& contributes(self.l2g, Some(xl), t.lg)
            &&& transforms(wave, self.g2g, xg, t.gg)
            &&& adds(t.lg, t.gg, og)
        } else {
            og is None
        }
    }

    /// `(ol, og)` may come out of the block for `(xl, xg)`.
    pub open spec fn runs<T: Fn(usize, usize, usize) -> (u32, u32)>(
        self,
        wave: T,
        xl: TensorVal,
        xg: Option<TensorVal>,
        ol: Option<TensorVal>,
        og: Option<TensorVal>,
    ) -> bool {
        exists|t: BlockSteps| #[trigger] self.runs_over(wave, xl, xg, t, ol, og)
    }

    /// Every layer of the block finds room in its input.
    pub open spec fn has_room(self, xl: TensorVal, xg: Option<TensorVal>) -> bool {
        &&& reaches(self.l2l, Some(xl))
        &&& reaches(self.l2g, Some(xl))
        &&& reaches(self.g2l, xg)
        &&& wide_enough(self.g2g, xg)
    }

    /// Memory can number what every layer of the block makes of its input.
    pub open spec fn has_memory(self, xl: TensorVal, xg: Option<TensorVal>) -> bool {
        &&& conv_numbered(self.l2l, Some(xl))
        &&& conv_numbered(self.l2g, Some(xl))
        &&& conv_numbered(self.g2l, xg)
        &&& spectral_numbered(self.g2g, xg)
    }

    /// The file holds a block at the path: a layer for each pair of branches that
    /// have channels.
    pub open spec fn held(bytes: Seq<u8>, path: Seq<Seq<char>>, s: BlockShape) -> bool {
        let k = s.kernel as nat;
        let (il, ig, ol, og) = (s.in_l(), s.in_g(), s.out_l(), s.out_g());
        &&& il > 0 && ol > 0 ==> conv_held(bytes, path.push("convl2l"@), il, ol, k)
        &&& il > 0 && og > 0 ==> conv_held(bytes, path.push("convl2g"@), il, og, k)
        &&& ig > 0 && ol > 0 ==> conv_held(bytes, path.push("convg2l"@), ig, ol, k)
        &&& ig > 0 && og > 0 ==> SpectralTransform::held(bytes, path.push("convg2g"@), ig, og)
    }

    /// The weights lie on the CPU.
    pub open spec fn on_cpu(self) -> bool {
        &&& self.l2l matches Some(c) ==> c.layer.on_cpu()
        &&& self.l2g matches Some(c) ==> c.layer.on_cpu()
        &&& self.g2l matches Some(c) ==> c.layer.on_cpu()
        &&& self.g2g matches Some(c) ==> c.on_cpu()
    }

    /// The layers agree with the inputs, and the contributions with each other.
    pub open spec fn agrees(self, xl: TensorVal, xg: Option<TensorVal>) -> bool {
        &&& conv_agrees(self.l2l, Some(xl))
        &&& conv_agrees(self.l2g, Some(xl))
        &&& conv_agrees(self.g2l, xg)
        &&& spectral_agrees(self.g2g, xg)
        &&& match (self.l2l, self.g2l, xg) {
            (Some(a), Some(b), Some(g)) => a.out_dims(xl.dims) == b.out_dims(g.dims),
            _ => true,
        }
        &&& match (self.l2g, self.g2g, xg) {
            (Some(a), Some(b), Some(g)) => a.out_dims(xl.dims) == b.out_dims(g.dims),
            _ => true,
        }
    }

    /// What comes out of a block that agrees with its inputs lies on the CPU, with
    /// the channels of the layers that contribute.
    pub open spec fn gives(self, ol: Option<TensorVal>, og: Option<TensorVal>) -> bool {
        &&& ol matches Some(v) ==> v.cpu && match (self.l2l, self.g2l) {
            (Some(c), _) => v.dims[1] == c.layer.n_out,
            (None, Some(c)) => v.dims[1] == c.layer.n_out,
            (None, None) => true,
        }
        &&& og matches Some(v) ==> v.cpu && match (self.l2g, self.g2g) {
            (Some(c), _) => v.dims[1] == c.layer.n_out,
            (None, Some(c)) => v.dims[1] == c.conv2.n_out,
            (None, None) => true,
        }
    }

    /// How the block fails.
    pub open spec fn fails(self, xl: TensorVal, xg: Option<TensorVal>, e: WorkerError) -> bool {
        ||| e is Candle && !self.agrees(xl, xg)
        ||| e is TooLarge && !self.has_memory(xl, xg)
        ||| (e is PadTooLarge || e is KernelTooLarge || e is DegenerateWidth) && !self.has_room(
            xl,
            xg,
        )
    }

    /// Loads a block.
    pub fn load(w: Weights, s: BlockShape) -> (r: Result<FfcBlock, WorkerError>)
        requires
            s.ok(),
        ensures
            weights_cpu(w) ==> (r is Ok <==> Self::held(weights_bytes(w), weights_path(w), s)),
            match r {
                Ok(b) => (weights_cpu(w) ==> b.on_cpu()) && b.loaded(
                    weights_bytes(w),
                    weights_path(w),
                    s,
                ),
                Err(e) => e is Candle,
            },
    {
        let (in_l, in_g, out_l, out_g) = s.split();
        proof {
            lemma_branch_size(s, in_l as int, out_l as int);
            lemma_branch_size(s, in_l as int, out_g as int);
            lemma_branch_size(s, in_g as int, out_l as int);
            lemma_branch_size(s, in_g as int, out_g as int);
        }
        let l2l = Self::load_branch(in_l, out_l, s, w.pp("convl2l"))?;
        let l2g = Self::load_branch(in_l, out_g, s, w.pp("convl2g"))?;
        let g2l = Self::load_branch(in_g, out_l, s, w.pp("convg2l"))?;
        let g2g = if in_g > 0 && out_g > 0 {
            Some(SpectralTransform::load(w.pp("convg2g"), in_g, out_g, s.stride)?)
        } else {
            None
        };
        assert(g2g matches Some(c) ==> c.wf(s.in_g(), s.out_g() / 2, s.out_g()));
        Ok(FfcBlock { l2l, l2g, g2l, g2g, has_gout: s.gout != 0 })
    }

    /// Loads the convolution between two branches, where both have channels.
    fn load_branch(n_in: usize, n_out: usize, s: BlockShape, w: Weights) -> (r: Result<
        Option<RefPadConv>,
        WorkerError,
    >)
        requires
            s.ok(),
            numbered(n_out * n_in * s.kernel * s.kernel),
        ensures
            weights_cpu(w) ==> (r is Ok <==> (n_in > 0 && n_out > 0 ==> conv_held(
                weights_bytes(w),
                weights_path(w),
                n_in as nat,
                n_out as nat,
                s.kernel as nat,
            ))),
            match r {
                Ok(c) => {
                    &&& c is Some <==> n_in > 0 && n_out > 0
                    &&& c matches Some(v) ==> v.layer.on_cpu() == weights_cpu(w) && v.loaded(
                        weights_bytes(w),
                        weights_path(w),
                        s.pad,
                        n_in,
                        n_out,
                        s.kernel,
                        s.stride,
                    )
                },
                Err(e) => e is Candle,
            },
    {
        if n_in > 0 && n_out > 0 {
            Ok(Some(RefPadConv::load(s.pad, n_in, n_out, s.kernel, s.stride, w)?))
        } else {
            Ok(None)
        }
    }

    /// Runs the block. The global input is absent until a layer emits one.
    pub fn forward<T: Fn(usize, usize, usize) -> (u32, u32)>(
        &self,
        xl: &Tensor,
        xg: Option<&Tensor>,
        wave: &T,
    ) -> (r: Result<(Option<Tensor>, Option<Tensor>), WorkerError>)
        requires
            self.wf(),
            tensor_val(*xl).good(),
            tensor_val(*xl).dims.len() == 4,
            option_good(ref_val(xg)),
            total_wave(*wave),
        ensures
            match r {
                Ok((ol, og)) => {
                    &&& option_good(option_val(ol))
                    &&& option_good(option_val(og))
                    &&& self.runs(
                        *wave,
                        tensor_val(*xl),
                        ref_val(xg),
                        option_val(ol),
                        option_val(og),
                    )
                    &&& self.agrees(tensor_val(*xl), ref_val(xg)) ==> self.gives(
                        option_val(ol),
                        option_val(og),
                    )
                },
                Err(e) => self.fails(tensor_val(*xl), ref_val(xg), e),
            },
    {
        let ghost lv = tensor_val(*xl);
        let ghost gv = ref_val(xg);
        let ghost mut t = BlockSteps { ll: None, gl: None, lg: None, gg: None };
        let ol = if !self.has_gout || self.l2l.is_some() || self.g2l.is_some() {
            let a = Self::contribute(&self.l2l, Some(xl))?;
            let b = Self::contribute(&self.g2l, xg)?;
            proof {
                t = BlockSteps { ll: option_val(a), gl: option_val(b), ..t };
            }
            add_opt(a, b)?
        } else {
            None
        };
        let og = if self.has_gout {
            let a = Self::contribute(&self.l2g, Some(xl))?;
            let b = match (&self.g2g, xg) {
                (Some(c), Some(g)) => Some(c.forward(g, wave)?),
                _ => None,
            };
            proof {
                t = BlockSteps { lg: option_val(a), gg: option_val(b), ..t };
            }
            add_opt(a, b)?
        } else {
            None
        };
        assert(self.runs_over(*wave, lv, gv, t, option_val(ol), option_val(og)));
        Ok((ol, og))
    }

    /// The contribution of a convolution that may be absent.
    fn contribute(c: &Option<RefPadConv>, x: Option<&Tensor>) -> (r: Result<
        Option<Tensor>,
        WorkerError,
    >)
        requires
            *c matches Some(v) ==> v.wf(),
            option_good(ref_val(x)),
        ensures
            match r {
                Ok(y) => {
                    &&& contributes(*c, ref_val(x), option_val(y))
                    &&& option_good(option_val(y))
                    &&& y matches Some(z) ==> tensor_val(z).cpu == tensor_val(*x->0).cpu
                        && tensor_val(z).dims == c->0.out_dims(tensor_val(*x->0).dims)
                },
                Err(e) => {
                    ||| e is Candle && !conv_agrees(*c, ref_val(x))
                    ||| e is TooLarge && !conv_numbered(*c, ref_val(x))
                    ||| (e is PadTooLarge || e is KernelTooLarge) && !reaches(*c, ref_val(x))
                },
            },
    {
        match (c, x) {
            (Some(conv), Some(v)) => Ok(Some(conv.forward(v)?)),
            _ => Ok(None),
        }
    }
}

/// The value of an optional reference to a tensor.
pub open spec fn ref_val(t: Option<&Tensor>) -> Option<TensorVal> {
    match t {
        Some(v) => Some(tensor_val(*v)),
        None => None,
    }
}

/// A block with normalisation and activation behind each branch.
pub struct FfcBnAct {
    pub ffc: FfcBlock,
    pub bn_l: Option<BatchNorm>,
    pub bn_g: Option<BatchNorm>,
}

/// Statistics that are present are well formed.
pub open spec fn norm_ok(bn: Option<BatchNorm>) -> bool {
    bn matches Some(b) ==> norm_val(b).wf(norm_val(b).mean.len())
}

/// `mid` is `x` normalised, where there are statistics, and `y` its positive
/// part.
pub open spec fn activates_over(
    bn: Option<BatchNorm>,
    x: TensorVal,
    mid: TensorVal,
    y: TensorVal,
) -> bool {
    &&& match bn {
        Some(b) => is_normed(norm_val(b), x, mid),
        None => mid == x,
    }
    &&& is_relu(mid, y)
}

/// `y` may come out of normalisation and activation of `x`.
pub open spec fn activated(bn: Option<BatchNorm>, x: TensorVal, y: TensorVal) -> bool {
    exists|mid: TensorVal| #[trigger] activates_over(bn, x, mid, y)
}

/// Normalisation and activation of a branch that may be absent.
pub open spec fn activates(
    bn: Option<BatchNorm>,
    x: Option<TensorVal>,
    y: Option<TensorVal>,
) -> bool {
    match x {
        Some(v) => y matches Some(z) && activated(bn, v, z),
        None => y is None,
    }
}

/// The branches that come out of the block inside.
pub struct ActSteps {
    pub ol: Option<TensorVal>,
    pub og: Option<TensorVal>,
}

impl FfcBnAct {
    /// The block inside and the statistics are well formed.
    pub open spec fn wf(self) -> bool {
        &&& self.ffc.wf()
        &&& norm_ok(self.bn_l)
        &&& norm_ok(self.bn_g)
    }

    /// The file holds a block with its statistics at the path.
    pub open spec fn held(bytes: Seq<u8>, path: Seq<Seq<char>>, s: BlockShape) -> bool {
        &&& FfcBlock::held(bytes, path.push("ffc"@), s)
        &&& s.gout != 4 && s.out_l() > 0 ==> norm_held(bytes, path.push("bn_l"@), s.out_l())
        &&& s.gout != 0 && s.out_g() > 0 ==> norm_held(bytes, path.push("bn_g"@), s.out_g())
    }

    /// The weights lie on the CPU.
    pub open spec fn on_cpu(self) -> bool {
        &&& self.ffc.on_cpu()
        &&& self.bn_l matches Some(b) ==> norm_val(b).cpu
        &&& self.bn_g matches Some(b) ==> norm_val(b).cpu
    }

    /// The block inside agrees with the inputs, and the statistics with what comes
    /// out of it.
    pub open spec fn agrees(self, xl: TensorVal, xg: Option<TensorVal>) -> bool {
        &&& self.ffc.agrees(xl, xg)
        &&& self.bn_l matches Some(b) ==> norm_val(b).cpu && match (self.ffc.l2l, self.ffc.g2l) {
            (Some(c), _) => norm_val(b).mean.len() == c.layer.n_out,
            (None, Some(c)) => norm_val(b).mean.len() == c.layer.n_out,
            (None, None) => true,
        }
        &&& self.bn_g matches Some(b) ==> norm_val(b).cpu && match (self.ffc.l2g, self.ffc.g2g) {
            (Some(c), _) => norm_val(b).mean.len() == c.layer.n_out,
            (None, Some(c)) => norm_val(b).mean.len() == c.conv2.n_out,
            (None, None) => true,
        }
    }

    /// How the block fails.
    pub open spec fn fails(self, xl: TensorVal, xg: Option<TensorVal>, e: WorkerError) -> bool {
        ||| e is Candle && !self.agrees(xl, xg)
        ||| e is TooLarge && !self.ffc.has_memory(xl, xg)
        ||| (e is PadTooLarge || e is KernelTooLarge || e is DegenerateWidth)
            && !self.ffc.has_room(xl, xg)
    }

    /// Both branches come out whatever goes in.
    pub open spec fn keeps_both(self) -> bool {
        self.ffc.l2l is Some && self.ffc.l2g is Some && self.ffc.has_gout
    }

    /// The block stands in the file at the path, with statistics for each branch
    /// that has channels.
    pub open spec fn loaded(self, bytes: Seq<u8>, path: Seq<Seq<char>>, s: BlockShape) -> bool {
        &&& self.ffc.loaded(bytes, path.push("ffc"@), s)
        &&& self.bn_l is Some <==> s.gout != 4 && s.out_l() > 0
        &&& self.bn_g is Some <==> s.gout != 0 && s.out_g() > 0
        &&& self.bn_l matches Some(b) ==> norm_loaded(
            norm_val(b),
            bytes,
            path.push("bn_l"@),
            s.out_l(),
        )
        &&& self.bn_g matches Some(b) ==> norm_loaded(
            norm_val(b),
            bytes,
            path.push("bn_g"@),
            s.out_g(),
        )
    }

    /// `(yl, yg)` come out of the block over the given steps.
    pub open spec fn runs_over<T: Fn(usize, usize, usize) -> (u32, u32)>(
        self,
        wave: T,
        xl: TensorVal,
        xg: Option<TensorVal>,
        t: ActSteps,
        yl: Option<TensorVal>,
        yg: Option<TensorVal>,
    ) -> bool {
        &&& self.ffc.runs(wave, xl, xg, t.ol, t.og)
        &&& activates(self.bn_l, t.ol, yl)
        &&& activates(self.bn_g, t.og, yg)
    }

    /// `(yl, yg)` may come out of the block for `(xl, xg)`.
    pub open spec fn runs<T: Fn(usize, usize, usize) -> (u32, u32)>(
        self,
        wave: T,
        xl: TensorVal,
        xg: Option<TensorVal>,
        yl: Option<TensorVal>,
        yg: Option<TensorVal>,
    ) -> bool {
        exists|t: ActSteps| #[trigger] self.runs_over(wave, xl, xg, t, yl, yg)
    }

    /// Loads a block with its statistics.
    pub fn load(w: Weights, s: BlockShape) -> (r: Result<FfcBnAct, WorkerError>)
        requires
            s.ok(),
        ensures
            weights_cpu(w) ==> (r is Ok <==> Self::held(weights_bytes(w), weights_path(w), s)),
            match r {
                Ok(b) => (weights_cpu(w) ==> b.on_cpu()) && b.loaded(
                    weights_bytes(w),
                    weights_path(w),
                    s,
                ),
                Err(e) => e is Candle,
            },
    {
        let ffc = FfcBlock::load(w.pp("ffc"), s)?;
        let (_, _, out_l, out_g) = s.split();
        let bn_l = if s.gout != 4 && out_l > 0 {
            Some(lift(batch_norm(out_l, w.pp("bn_l")))?)
        } else {
            None
        };
        let bn_g = if s.gout != 0 && out_g > 0 {
            Some(lift(batch_norm(out_g, w.pp("bn_g")))?)
        } else {
            None
        };
        Ok(FfcBnAct { ffc, bn_l, bn_g })
    }

    /// Runs the block.
    pub fn forward<T: Fn(usize, usize, usize) -> (u32, u32)>(
        &self,
        xl: &Tensor,
        xg: Option<&Tensor>,
        wave: &T,
    ) -> (r: Result<(Option<Tensor>, Option<Tensor>), WorkerError>)
        requires
            self.wf(),
            tensor_val(*xl).good(),
            tensor_val(*xl).dims.len() == 4,
            option_good(ref_val(xg)),
            total_wave(*wave),
        ensures
            match r {
                Ok((yl, yg)) => {
                    &&& option_good(option_val(yl))
                    &&& option_good(option_val(yg))
                    &&& self.runs(
                        *wave,
                        tensor_val(*xl),
                        ref_val(xg),
                        option_val(yl),
                        option_val(yg),
                    )
                    &&& self.keeps_both() ==> yl is Some && yg is Some
                },
                Err(e) => self.fails(tensor_val(*xl), ref_val(xg), e),
            },
    {
        let (ol, og) = self.ffc.forward(xl, xg, wave)?;
        let ghost t = ActSteps { ol: option_val(ol), og: option_val(og) };
        let yl = Self::activate(&self.bn_l, ol)?;
        let yg = Self::activate(&self.bn_g, og)?;
        assert(self.runs_over(
            *wave,
            tensor_val(*xl),
            ref_val(xg),
            t,
            option_val(yl),
            option_val(yg),
        ));
        Ok((yl, yg))
    }

    /// Normalises and activates a branch that may be absent.
    fn activate(bn: &Option<BatchNorm>, x: Option<Tensor>) -> (r: Result<
        Option<Tensor>,
        WorkerError,
    >)
        requires
            norm_ok(*bn),
            option_good(option_val(x)),
        ensures
            match r {
                Ok(y) => option_good(option_val(y)) && activates(
                    *bn,
                    option_val(x),
                    option_val(y),
                ),
                Err(e) => {
                    &&& e is Candle
                    &&& option_val(x) matches Some(v) && !(v.cpu && (*bn matches Some(b)
                        ==> norm_val(b).cpu && v.dims[1] == norm_val(b).mean.len()))
                },
            },
    {
        match x {
            Some(v) => {
                let ghost xv = tensor_val(v);
                let mid = match bn {
                    Some(b) => lift(norm_forward(b, &v))?,
                    None => v,
                };
                let y = lift(relu(&mid))?;
                assert(activates_over(*bn, xv, tensor_val(mid), tensor_val(y)));
                assert(activated(*bn, xv, tensor_val(y)));
                Ok(Some(y))
            },
            None => Ok(None),
        }
    }
}

/// Two blocks with a shortcut around them.
pub struct ResnetBlock {
    pub conv1: FfcBnAct,
    pub conv2: FfcBnAct,
}

/// The branches between and behind the two blocks.
pub struct ResSteps {
    pub l1: TensorVal,
    pub g1: TensorVal,
    pub l2: TensorVal,
    pub g2: TensorVal,
}

impl ResnetBlock {
    /// Both blocks are well formed.
    pub open spec fn wf(self) -> bool {
        self.conv1.wf() && self.conv2.wf()
    }

    /// The shape of both blocks: `dim` channels in and out, a kernel of three
    /// with a margin of one.
    pub open spec fn shape(dim: usize, gin: usize, gout: usize) -> BlockShape {
        BlockShape { in_ch: dim, out_ch: dim, gin, gout, stride: 1, pad: 1, kernel: 3 }
    }

    /// The blocks stand in the file at the path.
    pub open spec fn loaded(
        self,
        bytes: Seq<u8>,
        path: Seq<Seq<char>>,
        dim: usize,
        gin: usize,
        gout: usize,
    ) -> bool {
        &&& self.conv1.loaded(bytes, path.push("conv1"@), Self::shape(dim, gin, gout))
        &&& self.conv2.loaded(bytes, path.push("conv2"@), Self::shape(dim, gin, gout))
    }

    /// `(ol, og)` come out of the block over the given steps.
    pub open spec fn runs_over<T: Fn(usize, usize, usize) -> (u32, u32)>(
        self,
        wave: T,
        xl: TensorVal,
        xg: TensorVal,
        t: ResSteps,
        ol: TensorVal,
        og: TensorVal,
    ) -> bool {
        &&& self.conv1.runs(wave, xl, Some(xg), Some(t.l1), Some(t.g1))
        &&& self.conv2.runs(wave, t.l1, Some(t.g1), Some(t.l2), Some(t.g2))
        &&& is_sum(xl, t.l2, ol)
        &&& is_sum(xg, t.g2, og)
    }

    /// `(ol, og)` may come out of the block for `(xl, xg)`.
    pub open spec fn runs<T: Fn(usize, usize, usize) -> (u32, u32)>(
        self,
        wave: T,
        xl: TensorVal,
        xg: TensorVal,
        ol: TensorVal,
        og: TensorVal,
    ) -> bool {
        exists|t: ResSteps| #[trigger] self.runs_over(wave, xl, xg, t, ol, og)
    }

    /// The branches pass both blocks inside.
    pub open spec fn passes<T: Fn(usize, usize, usize) -> (u32, u32)>(
        self,
        wave: T,
        xl: TensorVal,
        xg: TensorVal,
        l1: TensorVal,
        g1: TensorVal,
        l2: TensorVal,
        g2: TensorVal,
    ) -> bool {
        &&& self.conv1.runs(wave, xl, Some(xg), Some(l1), Some(g1))
        &&& self.conv2.runs(wave, l1, Some(g1), Some(l2), Some(g2))
    }

    /// The file holds both blocks at the path.
    pub open spec fn held(
        bytes: Seq<u8>,
        path: Seq<Seq<char>>,
        dim: usize,
        gin: usize,
        gout: usize,
    ) -> bool {
        &&& FfcBnAct::held(bytes, path.push("conv1"@), Self::shape(dim, gin, gout))
        &&& FfcBnAct::held(bytes, path.push("conv2"@), Self::shape(dim, gin, gout))
    }

    /// The weights lie on the CPU.
    pub open spec fn on_cpu(self) -> bool {
        self.conv1.on_cpu() && self.conv2.on_cpu()
    }

    /// How the block fails.
    pub open spec fn fails<T: Fn(usize, usize, usize) -> (u32, u32)>(
        self,
        wave: T,
        xl: TensorVal,
        xg: TensorVal,
        e: WorkerError,
    ) -> bool {
        ||| self.conv1.fails(xl, Some(xg), e)
        ||| exists|l1: TensorVal, g1: TensorVal|
            #![trigger self.conv1.runs(wave, xl, Some(xg), Some(l1), Some(g1))]
            self.conv1.runs(wave, xl, Some(xg), Some(l1), Some(g1)) && self.conv2.fails(
                l1,
                Some(g1),
                e,
            )
        ||| e is Candle && exists|l1: TensorVal, g1: TensorVal, l2: TensorVal, g2: TensorVal|
            #![trigger self.passes(wave, xl, xg, l1, g1, l2, g2)]
            self.passes(wave, xl, xg, l1, g1, l2, g2) && !(addable(Some(xl), Some(l2)) && addable(
                Some(xg),
                Some(g2),
            ))
        ||| e is DroppedBranch && !(self.conv1.keeps_both() && self.conv2.keeps_both())
    }

    /// Loads a block of `dim` channels.
    pub fn load(w: Weights, dim: usize, gin: usize, gout: usize) -> (r: Result<
        ResnetBlock,
        WorkerError,
    >)
        requires
            Self::shape(dim, gin, gout).ok(),
        ensures
            weights_cpu(w) ==> (r is Ok <==> Self::held(
                weights_bytes(w),
                weights_path(w),
                dim,
                gin,
                gout,
            )),
            match r {
                Ok(b) => (weights_cpu(w) ==> b.on_cpu()) && b.loaded(
                    weights_bytes(w),
                    weights_path(w),
                    dim,
                    gin,
                    gout,
                ),
                Err(e) => e is Candle,
            },
    {
        let s = BlockShape { in_ch: dim, out_ch: dim, gin, gout, stride: 1, pad: 1, kernel: 3 };
        let conv1 = FfcBnAct::load(w.pp("conv1"), s)?;
        let conv2 = FfcBnAct::load(w.pp("conv2"), s)?;
        Ok(ResnetBlock { conv1, conv2 })
    }

    /// Runs the block. A block that loses a branch is an error.
    pub fn forward<T: Fn(usize, usize, usize) -> (u32, u32)>(
        &self,
        xl: &Tensor,
        xg: &Tensor,
        wave: &T,
    ) -> (r: Result<(Tensor, Tensor), WorkerError>)
        requires
            self.wf(),
            tensor_val(*xl).good(),
            tensor_val(*xl).dims.len() == 4,
            tensor_val(*xg).good(),
            tensor_val(*xg).dims.len() == 4,
            total_wave(*wave),
        ensures
            match r {
                Ok((ol, og)) => {
                    &&& tensor_val(ol).good()
                    &&& tensor_val(og).good()
                    &&& tensor_val(ol).dims == tensor_val(*xl).dims
                    &&& tensor_val(og).dims == tensor_val(*xg).dims
                    &&& tensor_val(ol).cpu == tensor_val(*xl).cpu
                    &&& tensor_val(og).cpu == tensor_val(*xg).cpu
                    &&& self.runs(
                        *wave,
                        tensor_val(*xl),
                        tensor_val(*xg),
                        tensor_val(ol),
                        tensor_val(og),
                    )
                },
                Err(e) => self.fails(*wave, tensor_val(*xl), tensor_val(*xg), e),
            },
    {
        let (a, b) = self.conv1.forward(xl, Some(xg), wave)?;
        let (l1, g1) = match (a, b) {
            (Some(l), Some(g)) => (l, g),
            _ => {
                return Err(WorkerError::DroppedBranch);
            },
        };
        assert(self.conv1.runs(
            *wave,
            tensor_val(*xl),
            Some(tensor_val(*xg)),
            Some(tensor_val(l1)),
            Some(tensor_val(g1)),
        ));
        let (a, b) = self.conv2.forward(&l1, Some(&g1), wave)?;
        let (l2, g2) = match (a, b) {
            (Some(l), Some(g)) => (l, g),
            _ => {
                return Err(WorkerError::DroppedBranch);
            },
        };
        assert(self.passes(
            *wave,
            tensor_val(*xl),
            tensor_val(*xg),
            tensor_val(l1),
            tensor_val(g1),
            tensor_val(l2),
            tensor_val(g2),
        ));
        let ol = lift(plus(xl, &l2))?;
        let og = lift(plus(xg, &g2))?;
        proof {
            let t = ResSteps {
                l1: tensor_val(l1),
                g1: tensor_val(g1),
                l2: tensor_val(l2),
                g2: tensor_val(g2),
            };
            assert(self.runs_over(
                *wave,
                tensor_val(*xl),
                tensor_val(*xg),
                t,
                tensor_val(ol),
                tensor_val(og),
            ));
        }
        Ok((ol, og))
    }
}

/// A padded convolution from a file: the lengths of its result.
proof fn lemma_padded_conv_shape(
    c: RefPadConv,
    bytes: Seq<u8>,
    path: Seq<Seq<char>>,
    n_in: usize,
    n_out: usize,
    s: BlockShape,
    x: TensorVal,
    y: TensorVal,
)
    requires
        c.loaded(bytes, path, s.pad, n_in, n_out, s.kernel, s.stride),
        x.dims.len() == 4,
        c.runs(x, y),
    ensures
        y.dims == s.result_dims(x.dims, n_out as nat),
        y.cpu == x.cpu,
{
    let mid = choose|mid: TensorVal| #[trigger] c.runs_over(x, mid, y);
    assert(c.runs_over(x, mid, y));
    assert(y.dims =~= s.result_dims(x.dims, n_out as nat));
}

/// A block from a file that has local channels on both sides: it always gives a
/// local branch, and a global one if and only if it has a global share, of the
/// lengths that its kernel, stride and margin leave.
pub proof fn lemma_block_shape<T: Fn(usize, usize, usize) -> (u32, u32)>(
    b: FfcBnAct,
    bytes: Seq<u8>,
    path: Seq<Seq<char>>,
    s: BlockShape,
    wave: T,
    xl: TensorVal,
    xg: Option<TensorVal>,
    yl: Option<TensorVal>,
    yg: Option<TensorVal>,
)
    requires
        s.ok(),
        s.in_l() > 0,
        s.out_l() > 0,
        s.gout != 0 ==> s.out_g() > 0,
        b.loaded(bytes, path, s),
        xl.dims.len() == 4,
        b.runs(wave, xl, xg, yl, yg),
    ensures
        yl matches Some(v) && v.dims == s.result_dims(xl.dims, s.out_l()) && v.cpu == xl.cpu,
        if s.gout == 0 {
            yg is None
        } else {
            yg matches Some(v) && v.dims == s.result_dims(xl.dims, s.out_g()) && v.cpu == xl.cpu
        },
{
    lemma_share_bound(s.in_ch as nat, s.gin as nat);
    lemma_share_bound(s.out_ch as nat, s.gout as nat);
    let t = choose|t: ActSteps| #[trigger] b.runs_over(wave, xl, xg, t, yl, yg);
    assert(b.runs_over(wave, xl, xg, t, yl, yg));
    let f = b.ffc;
    let u = choose|u: BlockSteps| #[trigger] f.runs_over(wave, xl, xg, u, t.ol, t.og);
    assert(f.runs_over(wave, xl, xg, u, t.ol, t.og));
    let fp = path.push("ffc"@);
    lemma_padded_conv_shape(
        f.l2l->0,
        bytes,
        fp.push("convl2l"@),
        s.in_l() as usize,
        s.out_l() as usize,
        s,
        xl,
        u.ll->0,
    );
    if s.gout != 0 {
        lemma_padded_conv_shape(
            f.l2g->0,
            bytes,
            fp.push("convl2g"@),
            s.in_l() as usize,
            s.out_g() as usize,
            s,
            xl,
            u.lg->0,
        );
    }
}

} // verus!
