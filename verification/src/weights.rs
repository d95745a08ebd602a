//! Weights in the safetensors format and the layers loaded from them.

use candle_core::Device;
use candle_nn::{BatchNorm, Conv2d, ConvTranspose2d};
use vstd::prelude::*;

use crate::error::{lift, WorkerError};
use crate::report::text_of;
use crate::layers::{conv_val, norm_val, transposed_conv_val, ConvVal, NormVal};
use crate::tensor::{is_cpu, numbered};

verus! {

/// The bytes that a set of weights was read from.
pub uninterp spec fn weights_bytes(w: Weights) -> Seq<u8>;

/// The names that lead to the part of the weights in view, outermost first.
pub uninterp spec fn weights_path(w: Weights) -> Seq<Seq<char>>;

/// A safetensors file may hold the given elements, as 32-bit floats, under the
/// names of a path joined by dots.
pub uninterp spec fn stored(bytes: Seq<u8>, path: Seq<Seq<char>>, elems: Seq<u64>) -> bool;

/// The bytes are a safetensors file: `VarBuilder::from_buffered_safetensors` reads
/// them.
pub uninterp spec fn readable(bytes: Seq<u8>) -> bool;

/// `VarBuilder::get` on the CPU finds a tensor of the given axis lengths, in a
/// format that converts to 32-bit floats, under the names of a path joined by
/// dots.
pub uninterp spec fn held(bytes: Seq<u8>, path: Seq<Seq<char>>, dims: Seq<nat>) -> bool;

/// The layers loaded from a set of weights lie on the CPU.
pub uninterp spec fn weights_cpu(w: Weights) -> bool;

/// A set of weights, or the part of it under a path.
#[verifier::external_body]
pub struct Weights {
    vb: candle_nn::VarBuilder<'static>,
}

/// The decimal digits of a number.
pub open spec fn decimal(n: nat) -> Seq<char>
    decreases n,
{
    if n < 10 {
        seq![(48 + n) as char]
    } else {
        decimal(n / 10).push((48 + n % 10) as char)
    }
}

/// Appends the decimal digits of a number.
fn push_digits(n: usize, out: &mut Vec<char>)
    ensures
        final(out)@ == old(out)@ + decimal(n as nat),
    decreases n,
{
    let ghost before = out@;
    if n >= 10 {
        push_digits(n / 10, out);
    }
    let last: u8 = 48 + (n % 10) as u8;
    out.push(last as char);
    assert(out@ =~= before + decimal(n as nat));
}

/// The decimal digits of a number.
pub fn digits(n: usize) -> (r: String)
    ensures
        r@ == decimal(n as nat),
{
    let mut out: Vec<char> = Vec::new();
    push_digits(n, &mut out);
    assert(out@ =~= decimal(n as nat));
    text_of(&out)
}

impl Weights {
    /// `VarBuilder::from_buffered_safetensors` with `DType::F32`: the whole of a
    /// file. Bytes that are no safetensors file are an error.
    #[verifier::external_body]
    fn open(bytes: Vec<u8>, dev: &Device) -> (r: Result<Weights, candle_core::Error>)
        ensures
            r is Ok <==> readable(bytes@),
            r matches Ok(w) ==> weights_bytes(w) == bytes@ && weights_path(w).len() == 0
                && weights_cpu(w) == is_cpu(*dev),
    {
        let vb =
            candle_nn::VarBuilder::from_buffered_safetensors(bytes, candle_core::DType::F32, dev)?;
        Ok(Weights { vb })
    }

    /// `VarBuilder::pp`: the part under one more name.
    #[verifier::external_body]
    pub(crate) fn pp(&self, name: &str) -> (r: Weights)
        ensures
            weights_bytes(r) == weights_bytes(*self),
            weights_path(r) == weights_path(*self).push(name@),
            weights_cpu(r) == weights_cpu(*self),
    {
        Weights { vb: self.vb.pp(name) }
    }
}

impl Weights {
    /// Reads the bytes of a safetensors file.
    pub fn read(bytes: Vec<u8>, dev: &Device) -> (r: Result<Weights, WorkerError>)
        ensures
            match r {
                Ok(w) => {
                    &&& readable(bytes@)
                    &&& weights_bytes(w) == bytes@
                    &&& weights_path(w).len() == 0
                    &&& weights_cpu(w) == is_cpu(*dev)
                },
                Err(e) => e is Candle && !readable(bytes@),
            },
    {
        lift(Weights::open(bytes, dev))
    }

    /// The part of the weights under one more name.
    pub fn part(&self, name: &str) -> (r: Weights)
        ensures
            weights_bytes(r) == weights_bytes(*self),
            weights_path(r) == weights_path(*self).push(name@),
            weights_cpu(r) == weights_cpu(*self),
    {
        self.pp(name)
    }
}

/// The weights `elems` stand in the file under `name` at the path.
pub open spec fn stored_at(bytes: Seq<u8>, path: Seq<Seq<char>>, name: &str, elems: Seq<u64>) -> bool {
    stored(bytes, path.push(name@), elems)
}

/// A convolution loaded from a path: its weight, without a bias.
pub open spec fn conv_loaded(
    c: ConvVal,
    bytes: Seq<u8>,
    path: Seq<Seq<char>>,
    n_in: nat,
    n_out: nat,
    kernel: nat,
    stride: nat,
) -> bool {
    &&& c.plain(n_in, n_out, kernel, stride)
    &&& c.bias is None
    &&& stored_at(bytes, path, "weight", c.weight.elems)
}

/// A convolution loaded from a path with its bias.
pub open spec fn biased_conv_loaded(
    c: ConvVal,
    bytes: Seq<u8>,
    path: Seq<Seq<char>>,
    n_in: nat,
    n_out: nat,
    kernel: nat,
) -> bool {
    &&& c.plain(n_in, n_out, kernel, 1)
    &&& c.bias is Some
    &&& stored_at(bytes, path, "weight", c.weight.elems)
    &&& stored_at(bytes, path, "bias", c.bias->0)
}

/// A transposed convolution loaded from a path with its bias.
pub open spec fn spread_loaded(
    c: ConvVal,
    bytes: Seq<u8>,
    path: Seq<Seq<char>>,
    n_in: nat,
    n_out: nat,
    kernel: nat,
    stride: nat,
    padding: nat,
    output_padding: nat,
) -> bool {
    &&& c.spreading(n_in, n_out, kernel)
    &&& c.stride == stride
    &&& c.padding == padding
    &&& c.output_padding == output_padding
    &&& c.bias is Some
    &&& stored_at(bytes, path, "weight", c.weight.elems)
    &&& stored_at(bytes, path, "bias", c.bias->0)
}

/// A normalisation of `n` channels loaded from a path.
pub open spec fn norm_loaded(b: NormVal, bytes: Seq<u8>, path: Seq<Seq<char>>, n: nat) -> bool {
    &&& b.wf(n)
    &&& stored_at(bytes, path, "running_mean", b.mean)
    &&& stored_at(bytes, path, "running_var", b.var)
    &&& stored_at(bytes, path, "weight", b.weight)
    &&& stored_at(bytes, path, "bias", b.bias)
}

/// The file holds the weight of a convolution.
pub open spec fn conv_held(
    bytes: Seq<u8>,
    path: Seq<Seq<char>>,
    n_in: nat,
    n_out: nat,
    kernel: nat,
) -> bool {
    held(bytes, path.push("weight"@), seq![n_out, n_in, kernel, kernel])
}

/// The file holds the weight and the bias of a convolution.
pub open spec fn biased_conv_held(
    bytes: Seq<u8>,
    path: Seq<Seq<char>>,
    n_in: nat,
    n_out: nat,
    kernel: nat,
) -> bool {
    &&& conv_held(bytes, path, n_in, n_out, kernel)
    &&& held(bytes, path.push("bias"@), seq![n_out])
}

/// The file holds the weight and the bias of a transposed convolution.
pub open spec fn spread_held(
    bytes: Seq<u8>,
    path: Seq<Seq<char>>,
    n_in: nat,
    n_out: nat,
    kernel: nat,
) -> bool {
    &&& held(bytes, path.push("weight"@), seq![n_in, n_out, kernel, kernel])
    &&& held(bytes, path.push("bias"@), seq![n_out])
}

/// The file holds the statistics, the weight and the bias of a normalisation.
pub open spec fn norm_held(bytes: Seq<u8>, path: Seq<Seq<char>>, n: nat) -> bool {
    &&& held(bytes, path.push("running_mean"@), seq![n])
    &&& held(bytes, path.push("running_var"@), seq![n])
    &&& held(bytes, path.push("weight"@), seq![n])
    &&& held(bytes, path.push("bias"@), seq![n])
}

/// `candle_nn::conv2d_no_bias`: a convolution whose weight stands under the path,
/// without padding, dilation or groups. A weight that is missing or has another
/// shape is an error.
#[verifier::external_body]
pub(crate) fn conv2d_no_bias(
    n_in: usize,
    n_out: usize,
    kernel: usize,
    stride: usize,
    w: Weights,
) -> (r: Result<Conv2d, candle_core::Error>)
    requires
        n_in >= 1,
        n_out >= 1,
        kernel >= 1,
        numbered(n_out * n_in * kernel * kernel),
        stride >= 1,
    ensures
        weights_cpu(w) ==> (r is Ok) == (held(
            weights_bytes(w),
            weights_path(w).push("weight"@),
            seq![n_out as nat, n_in as nat, kernel as nat, kernel as nat],
        )),
        r matches Ok(c) ==> {
            &&& conv_val(c).plain(n_in as nat, n_out as nat, kernel as nat, stride as nat)
            &&& conv_val(c).cpu == weights_cpu(w)
            &&& conv_val(c).bias is None
            &&& stored(
                weights_bytes(w),
                weights_path(w).push("weight"@),
                conv_val(c).weight.elems,
            )
        },
{
    let cfg = candle_nn::Conv2dConfig { stride, ..Default::default() };
    candle_nn::conv2d_no_bias(n_in, n_out, kernel, cfg, w.vb)
}

/// `candle_nn::conv2d` with its default configuration: a convolution whose weight
/// and bias stand under the path, with stride one and without padding, dilation
/// or groups.
#[verifier::external_body]
pub(crate) fn conv2d(n_in: usize, n_out: usize, kernel: usize, w: Weights) -> (r: Result<
    Conv2d,
    candle_core::Error,
>)
    requires
        n_in >= 1,
        n_out >= 1,
        kernel >= 1,
        numbered(n_out * n_in * kernel * kernel),
    ensures
        weights_cpu(w) ==> (r is Ok) == (held(
            weights_bytes(w),
            weights_path(w).push("weight"@),
            seq![n_out as nat, n_in as nat, kernel as nat, kernel as nat],
        ) && held(weights_bytes(w), weights_path(w).push("bias"@), seq![n_out as nat])),
        r matches Ok(c) ==> {
            &&& conv_val(c).plain(n_in as nat, n_out as nat, kernel as nat, 1)
            &&& conv_val(c).cpu == weights_cpu(w)
            &&& conv_val(c).bias is Some
            &&& stored(
                weights_bytes(w),
                weights_path(w).push("weight"@),
                conv_val(c).weight.elems,
            )
            &&& stored(weights_bytes(w), weights_path(w).push("bias"@), conv_val(c).bias->0)
        },
{
    candle_nn::conv2d(n_in, n_out, kernel, Default::default(), w.vb)
}

/// `candle_nn::conv_transpose2d`: a transposed convolution whose weight and bias
/// stand under the path, without dilation.
#[verifier::external_body]
pub(crate) fn conv_transpose2d(
    n_in: usize,
    n_out: usize,
    kernel: usize,
    stride: usize,
    padding: usize,
    output_padding: usize,
    w: Weights,
) -> (r: Result<ConvTranspose2d, candle_core::Error>)
    requires
        n_in >= 1,
        n_out >= 1,
        kernel >= 1,
        numbered(n_out * n_in * kernel * kernel),
        stride >= 1,
        kernel + output_padding > 2 * padding,
        2 * padding <= isize::MAX,
    ensures
        weights_cpu(w) ==> (r is Ok) == (held(
            weights_bytes(w),
            weights_path(w).push("weight"@),
            seq![n_in as nat, n_out as nat, kernel as nat, kernel as nat],
        ) && held(weights_bytes(w), weights_path(w).push("bias"@), seq![n_out as nat])),
        r matches Ok(c) ==> {
            &&& transposed_conv_val(c).cpu == weights_cpu(w)
            &&& transposed_conv_val(c).spreading(n_in as nat, n_out as nat, kernel as nat)
            &&& transposed_conv_val(c).stride == stride
            &&& transposed_conv_val(c).padding == padding
            &&& transposed_conv_val(c).output_padding == output_padding
            &&& transposed_conv_val(c).bias is Some
            &&& stored(
                weights_bytes(w),
                weights_path(w).push("weight"@),
                transposed_conv_val(c).weight.elems,
            )
            &&& stored(
                weights_bytes(w),
                weights_path(w).push("bias"@),
                transposed_conv_val(c).bias->0,
            )
        },
{
    let plain = candle_nn::ConvTranspose2dConfig::default();
    let cfg = candle_nn::ConvTranspose2dConfig { stride, padding, output_padding, ..plain };
    candle_nn::conv_transpose2d(n_in, n_out, kernel, cfg, w.vb)
}

/// `candle_nn::batch_norm` with its default configuration: a normalisation of `n`
/// channels whose statistics, weight and bias stand under the path.
#[verifier::external_body]
pub(crate) fn batch_norm(n: usize, w: Weights) -> (r: Result<BatchNorm, candle_core::Error>)
    ensures
        weights_cpu(w) ==> (r is Ok) == (held(
            weights_bytes(w),
            weights_path(w).push("running_mean"@),
            seq![n as nat],
        ) && held(weights_bytes(w), weights_path(w).push("running_var"@), seq![n as nat]) && held(
            weights_bytes(w),
            weights_path(w).push("weight"@),
            seq![n as nat],
        ) && held(weights_bytes(w), weights_path(w).push("bias"@), seq![n as nat])),
        r matches Ok(b) ==> {
            &&& norm_val(b).wf(n as nat)
            &&& norm_val(b).cpu == weights_cpu(w)
            &&& stored(weights_bytes(w), weights_path(w).push("running_mean"@), norm_val(b).mean)
            &&& stored(weights_bytes(w), weights_path(w).push("running_var"@), norm_val(b).var)
            &&& stored(weights_bytes(w), weights_path(w).push("weight"@), norm_val(b).weight)
            &&& stored(weights_bytes(w), weights_path(w).push("bias"@), norm_val(b).bias)
        },
{
    candle_nn::batch_norm(n, candle_nn::BatchNormConfig::default(), w.vb)
}

} // verus!
