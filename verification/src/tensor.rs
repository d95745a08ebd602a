//! The tensors of `candle_core` as the library sees them: their lengths along
//! each axis and their elements in row-major order.
//!
//! Operations that move elements are stated exactly. Operations that compute
//! with floats are stated through relations on bit patterns: rounding, the order
//! of a sum and the bits of a NaN are left to the machine.

use candle_core::{Device, Tensor};
use vstd::prelude::*;

use crate::error::{lift, WorkerError};

verus! {

/// `candle_core::Tensor`, an array on a device.
#[verifier::external_type_specification]
#[verifier::external_body]
pub struct ExTensor(candle_core::Tensor);

/// `candle_core::Device`, where tensors live.
#[verifier::external_type_specification]
#[verifier::external_body]
pub struct ExDevice(candle_core::Device);

/// The value of a tensor: its axis lengths, the bit patterns of its elements in
/// row-major order, whether they are 32-bit floats, whether they are of one of the
/// formats that `candle_core` stores but does not compute with (`F6E2M3`,
/// `F6E3M2`, `F4` and `F8E8M0`), and whether the tensor lies on the CPU.
#[verifier::ext_equal]
pub struct TensorVal {
    pub dims: Seq<nat>,
    pub elems: Seq<u64>,
    pub single: bool,
    pub packed: bool,
    pub cpu: bool,
}

/// What a tensor holds.
pub uninterp spec fn tensor_val(t: Tensor) -> TensorVal;

/// `Device::is_cpu`: the device is the CPU.
pub uninterp spec fn is_cpu(d: Device) -> bool;

/// `Tensor::is_contiguous`: the elements stand in memory row by row.
pub uninterp spec fn row_major(t: Tensor) -> bool;

/// Axis lengths as naturals.
pub open spec fn lengths(dims: Seq<usize>) -> Seq<nat> {
    dims.map_values(|n: usize| n as nat)
}

/// The number of elements of an array with the given axis lengths.
pub open spec fn product(dims: Seq<nat>) -> nat
    decreases dims.len(),
{
    if dims.len() == 0 {
        1
    } else {
        product(dims.drop_last()) * dims.last()
    }
}

/// Memory can hold this many 32-bit floats.
pub open spec fn numbered(count: int) -> bool {
    4 * count <= isize::MAX
}

/// Memory can hold this many elements: 32-bit floats, or others of up to eight
/// bytes each.
pub open spec fn holds_count(single: bool, count: int) -> bool {
    if single {
        numbered(count)
    } else {
        8 * count <= isize::MAX
    }
}

/// No axis is empty.
pub open spec fn nonempty(dims: Seq<nat>) -> bool {
    forall|i: int| 0 <= i < dims.len() ==> 1 <= #[trigger] dims[i]
}

/// The row-major position of an index.
pub open spec fn flat(dims: Seq<nat>, idx: Seq<int>) -> int
    decreases dims.len(),
{
    if dims.len() == 0 {
        0
    } else {
        flat(dims.drop_last(), idx.drop_last()) * dims.last() + idx.last()
    }
}

/// The index has one entry per axis, each within its length.
pub open spec fn inside(dims: Seq<nat>, idx: Seq<int>) -> bool {
    &&& idx.len() == dims.len()
    &&& forall|i: int| 0 <= i < dims.len() ==> 0 <= #[trigger] idx[i] < dims[i]
}

/// The sequence with entries `i` and `j` exchanged.
pub open spec fn exchanged<A>(s: Seq<A>, i: int, j: int) -> Seq<A> {
    s.update(i, s[j]).update(j, s[i])
}

/// Every element is a pattern of 32 bits.
#[verifier::opaque]
pub open spec fn words(elems: Seq<u64>) -> bool {
    forall|i: int| 0 <= i < elems.len() ==> #[trigger] elems[i] <= u32::MAX
}

/// Widened patterns are patterns of 32 bits.
pub proof fn lemma_widened_words(bits: Seq<u32>)
    ensures
        words(widened(bits)),
{
    reveal(words);
}

impl TensorVal {
    /// No axis is empty, and there are as many elements as the axis lengths say,
    /// no more than memory can hold. 32-bit floats are patterns of 32 bits, in a
    /// format that `candle_core` computes with.
    pub open spec fn wf(self) -> bool {
        &&& nonempty(self.dims)
        &&& self.elems.len() == product(self.dims)
        &&& holds_count(self.single, product(self.dims) as int)
        &&& self.single ==> words(self.elems) && !self.packed
    }

    /// A well-formed tensor of 32-bit floats.
    pub open spec fn good(self) -> bool {
        self.wf() && self.single
    }

    /// The tensor lies on the CPU, which computes with its elements.
    pub open spec fn computes(self) -> bool {
        self.cpu && (self.single || !self.packed)
    }

    /// The element at an index.
    pub open spec fn at(self, idx: Seq<int>) -> u64 {
        self.elems[flat(self.dims, idx)]
    }

    /// The element at `[i, j]` of a matrix.
    pub open spec fn at2(self, i: int, j: int) -> u64 {
        self.elems[i * self.dims[1] + j]
    }

    /// The element at `[i, j, k, l]` of a tensor of four axes.
    pub open spec fn at4(self, i: int, j: int, k: int, l: int) -> u64 {
        self.elems[((i * self.dims[1] + j) * self.dims[2] + k) * self.dims[3] + l]
    }

    /// The element at `[i, j, k, l, m]` of a tensor of five axes.
    pub open spec fn at5(self, i: int, j: int, k: int, l: int, m: int) -> u64 {
        self.elems[(((i * self.dims[1] + j) * self.dims[2] + k) * self.dims[3] + l) * self.dims[4]
            + m]
    }
}

/// The index `[i, j, k, l]` lies in a tensor of four axes.
pub open spec fn inside4(dims: Seq<nat>, i: int, j: int, k: int, l: int) -> bool {
    0 <= i < dims[0] && 0 <= j < dims[1] && 0 <= k < dims[2] && 0 <= l < dims[3]
}

/// Row-major positions of a tensor of four axes, written out.
pub proof fn lemma_at4(v: TensorVal, i: int, j: int, k: int, l: int)
    requires
        v.dims.len() == 4,
    ensures
        v.at(seq![i, j, k, l]) == v.at4(i, j, k, l),
        inside4(v.dims, i, j, k, l) ==> inside(v.dims, seq![i, j, k, l]),
{
    let d = v.dims;
    let idx = seq![i, j, k, l];
    let (d3, i3) = (d.drop_last(), idx.drop_last());
    let (d2, i2) = (d3.drop_last(), i3.drop_last());
    let (d1, i1) = (d2.drop_last(), i2.drop_last());
    assert(flat(d1.drop_last(), i1.drop_last()) == 0);
    assert(flat(d1, i1) == 0 * d1.last() + i);
    assert(flat(d2, i2) == i * d[1] + j);
    assert(flat(d3, i3) == (i * d[1] + j) * d[2] + k);
}

/// Row-major positions of a tensor of five axes, written out.
pub proof fn lemma_at5(v: TensorVal, i: int, j: int, k: int, l: int, m: int)
    requires
        v.dims.len() == 5,
    ensures
        v.at(seq![i, j, k, l, m]) == v.at5(i, j, k, l, m),
{
    let d = v.dims;
    let idx = seq![i, j, k, l, m];
    let (d4, i4) = (d.drop_last(), idx.drop_last());
    let (d3, i3) = (d4.drop_last(), i4.drop_last());
    let (d2, i2) = (d3.drop_last(), i3.drop_last());
    let (d1, i1) = (d2.drop_last(), i2.drop_last());
    assert(flat(d1.drop_last(), i1.drop_last()) == 0);
    assert(flat(d1, i1) == 0 * d1.last() + i);
    assert(flat(d2, i2) == i * d[1] + j);
    assert(flat(d3, i3) == (i * d[1] + j) * d[2] + k);
    assert(flat(d4, i4) == ((i * d[1] + j) * d[2] + k) * d[3] + l);
}

/// Row-major positions of a matrix, written out.
pub proof fn lemma_at2(v: TensorVal, i: int, j: int)
    requires
        v.dims.len() == 2,
    ensures
        v.at(seq![i, j]) == v.at2(i, j),
        0 <= i < v.dims[0] && 0 <= j < v.dims[1] ==> inside(v.dims, seq![i, j]),
{
    let (d1, i1) = (v.dims.drop_last(), seq![i, j].drop_last());
    assert(flat(d1.drop_last(), i1.drop_last()) == 0);
    assert(flat(d1, i1) == 0 * d1.last() + i);
}

/// `r` is a tensor of 32-bit floats in the shape of `x`, where `x` lies.
pub open spec fn like(x: TensorVal, r: TensorVal) -> bool {
    &&& r.dims == x.dims
    &&& r.elems.len() == x.elems.len()
    &&& r.single
    &&& !r.packed
    &&& words(r.elems)
    &&& r.cpu == x.cpu
}

/// The bit pattern of a 32-bit float with its sign turned.
pub open spec fn negated(a: u64) -> u64 {
    if a < 0x8000_0000 {
        (a + 0x8000_0000) as u64
    } else {
        (a - 0x8000_0000) as u64
    }
}

/// `r` is `x` with every element negated.
pub open spec fn is_neg(x: TensorVal, r: TensorVal) -> bool {
    &&& like(x, r)
    &&& forall|i: int| 0 <= i < r.elems.len() ==> #[trigger] r.elems[i] == negated(x.elems[i])
}

/// `Tensor::neg` of 32-bit floats: the sign bit of every element turned.
#[verifier::external_body]
pub(crate) fn neg(x: &Tensor) -> (r: Result<Tensor, candle_core::Error>)
    requires
        tensor_val(*x).good(),
    ensures
        tensor_val(*x).cpu ==> r is Ok,
        r matches Ok(t) ==> is_neg(tensor_val(*x), tensor_val(t)),
{
    x.neg()
}

/// `r` is the larger of zero and the 32-bit float with bit pattern `a`: `a` itself
/// from zero to infinity, zero for what is negative or no number, and either
/// zero for negative zero.
pub open spec fn positive_part(a: u64, r: u64) -> bool {
    if a <= 0x7f80_0000 {
        r == a
    } else if a == 0x8000_0000 {
        r == 0 || r == a
    } else {
        r == 0
    }
}

/// `Tensor::relu` of an element may give `r`.
pub uninterp spec fn relu_outcome(a: u64, r: u64) -> bool;

/// `r` is `x` with every element at least zero.
pub open spec fn is_relu(x: TensorVal, r: TensorVal) -> bool {
    &&& like(x, r)
    &&& forall|i: int|
        0 <= i < r.elems.len() ==> positive_part(x.elems[i], #[trigger] r.elems[i])
            && relu_outcome(x.elems[i], r.elems[i])
}

/// `Tensor::relu` of 32-bit floats: the larger of zero and every element, by
/// `f32::max`, which passes over what is no number.
#[verifier::external_body]
pub(crate) fn relu(x: &Tensor) -> (r: Result<Tensor, candle_core::Error>)
    requires
        tensor_val(*x).good(),
    ensures
        tensor_val(*x).cpu ==> r is Ok,
        r matches Ok(t) ==> like(tensor_val(*x), tensor_val(t)) && forall|i: int|
            0 <= i < tensor_val(t).elems.len() ==> positive_part(
                tensor_val(*x).elems[i],
                #[trigger] tensor_val(t).elems[i],
            ) && relu_outcome(tensor_val(*x).elems[i], tensor_val(t).elems[i]),
{
    x.relu()
}

/// The bit pattern of the 32-bit float one.
pub const ONE: u64 = 0x3f80_0000;

/// The bit pattern of the 32-bit float 255.
pub const WHITE: u64 = 0x437f_0000;

/// The bit pattern of 32-bit infinity. Patterns up to it are the floats from zero
/// up, in their order.
pub const INFINITY: u64 = 0x7f80_0000;

/// The bit pattern is that of a 32-bit float that is no number, or lies between
/// those of two floats from zero up.
pub open spec fn within(a: u64, low: u64, high: u64) -> bool {
    a % 0x8000_0000 > INFINITY || low <= a <= high
}

/// Every element is no number or within bounds.
pub open spec fn all_within(x: TensorVal, low: u64, high: u64) -> bool {
    forall|i: int| 0 <= i < x.elems.len() ==> within(#[trigger] x.elems[i], low, high)
}

/// `Tensor::exp` of an element may give `r`.
pub uninterp spec fn exp_outcome(a: u64, r: u64) -> bool;

/// `r` is `x` with the exponential of every element.
pub open spec fn is_exp(x: TensorVal, r: TensorVal) -> bool {
    &&& like(x, r)
    &&& forall|i: int|
        0 <= i < r.elems.len() ==> exp_outcome(x.elems[i], #[trigger] r.elems[i])
}

/// `Tensor::exp`: the exponential of every element of a tensor of 32-bit floats,
/// by `f32::exp`, which is never negative.
#[verifier::external_body]
pub(crate) fn exp(x: &Tensor) -> (r: Result<Tensor, candle_core::Error>)
    requires
        tensor_val(*x).good(),
    ensures
        tensor_val(*x).cpu ==> r is Ok,
        r matches Ok(t) ==> like(tensor_val(*x), tensor_val(t)) && forall|i: int|
            0 <= i < tensor_val(t).elems.len() ==> exp_outcome(
                tensor_val(*x).elems[i],
                #[trigger] tensor_val(t).elems[i],
            ) && within(tensor_val(t).elems[i], 0, INFINITY),
{
    x.exp()
}

/// `Tensor::recip` of an element may give `r`.
pub uninterp spec fn recip_outcome(a: u64, r: u64) -> bool;

/// `r` is `x` with the reciprocal of every element.
pub open spec fn is_recip(x: TensorVal, r: TensorVal) -> bool {
    &&& like(x, r)
    &&& forall|i: int|
        0 <= i < r.elems.len() ==> recip_outcome(x.elems[i], #[trigger] r.elems[i])
}

/// `Tensor::recip`: the reciprocal of every element of a tensor of 32-bit floats,
/// one over it. That of a number from one up lies between zero and one.
#[verifier::external_body]
pub(crate) fn recip(x: &Tensor) -> (r: Result<Tensor, candle_core::Error>)
    requires
        tensor_val(*x).good(),
    ensures
        tensor_val(*x).cpu ==> r is Ok,
        r matches Ok(t) ==> like(tensor_val(*x), tensor_val(t)) && forall|i: int|
            0 <= i < tensor_val(t).elems.len() ==> recip_outcome(
                tensor_val(*x).elems[i],
                #[trigger] tensor_val(t).elems[i],
            ) && (within(tensor_val(*x).elems[i], ONE, INFINITY) ==> within(
                tensor_val(t).elems[i],
                0,
                ONE,
            )),
{
    x.recip()
}

/// `Tensor::add` of two elements may give `r`.
pub uninterp spec fn sum_outcome(a: u64, b: u64, r: u64) -> bool;

/// `r` is the elementwise sum of `a` and `b`.
pub open spec fn is_sum(a: TensorVal, b: TensorVal, r: TensorVal) -> bool {
    &&& like(a, r)
    &&& like(b, r)
    &&& forall|i: int|
        0 <= i < r.elems.len() ==> sum_outcome(
            a.elems[i],
            b.elems[i],
            #[trigger] r.elems[i],
        )
}

/// `Tensor::add` of tensors of one shape: the elementwise sum of `a` and `b`.
/// Shapes that differ are an error.
#[verifier::external_body]
pub(crate) fn plus(a: &Tensor, b: &Tensor) -> (r: Result<Tensor, candle_core::Error>)
    requires
        tensor_val(*a).good(),
        tensor_val(*b).good(),
    ensures
        tensor_val(*a).cpu && tensor_val(*b).cpu && tensor_val(*a).dims == tensor_val(*b).dims
            ==> r is Ok,
        r matches Ok(t) ==> {
            &&& like(tensor_val(*a), tensor_val(t))
            &&& like(tensor_val(*b), tensor_val(t))
            &&& forall|i: int|
                0 <= i < tensor_val(t).elems.len() ==> sum_outcome(
                    tensor_val(*a).elems[i],
                    tensor_val(*b).elems[i],
                    #[trigger] tensor_val(t).elems[i],
                )
        },
{
    a.add(b)
}

/// `Tensor::sub` of two elements may give `r`.
pub uninterp spec fn difference_outcome(a: u64, b: u64, r: u64) -> bool;

/// `r` is the elementwise difference of `a` and `b`.
pub open spec fn is_difference(a: TensorVal, b: TensorVal, r: TensorVal) -> bool {
    &&& like(a, r)
    &&& like(b, r)
    &&& forall|i: int|
        0 <= i < r.elems.len() ==> difference_outcome(
            a.elems[i],
            b.elems[i],
            #[trigger] r.elems[i],
        )
}

/// `Tensor::sub` of tensors of one shape: the elementwise difference of `a` and
/// `b`. Shapes that differ are an error.
#[verifier::external_body]
pub(crate) fn minus(a: &Tensor, b: &Tensor) -> (r: Result<Tensor, candle_core::Error>)
    requires
        tensor_val(*a).good(),
        tensor_val(*b).good(),
    ensures
        tensor_val(*a).cpu && tensor_val(*b).cpu && tensor_val(*a).dims == tensor_val(*b).dims
            ==> r is Ok,
        r matches Ok(t) ==> {
            &&& like(tensor_val(*a), tensor_val(t))
            &&& like(tensor_val(*b), tensor_val(t))
            &&& forall|i: int|
                0 <= i < tensor_val(t).elems.len() ==> difference_outcome(
                    tensor_val(*a).elems[i],
                    tensor_val(*b).elems[i],
                    #[trigger] tensor_val(t).elems[i],
                )
        },
{
    a.sub(b)
}

/// `Tensor::mul` of two elements may give `r`.
pub uninterp spec fn scaled_outcome(a: u64, b: u64, r: u64) -> bool;

/// The products that need no rounding: a number times one is the number, and a
/// finite number from zero up times zero is zero.
pub open spec fn plain_product(a: u64, b: u64, r: u64) -> bool {
    &&& b == ONE && a % 0x8000_0000 <= INFINITY ==> r == a
    &&& b == 0 && a < INFINITY ==> r == 0
}

/// `r` is the elementwise product of `a` and `b`.
pub open spec fn is_scaled(a: TensorVal, b: TensorVal, r: TensorVal) -> bool {
    &&& like(a, r)
    &&& like(b, r)
    &&& forall|i: int|
        0 <= i < r.elems.len() ==> scaled_outcome(
            a.elems[i],
            b.elems[i],
            #[trigger] r.elems[i],
        ) && plain_product(a.elems[i], b.elems[i], r.elems[i])
}

/// `Tensor::mul` of tensors of one shape: the elementwise product of `a` and `b`,
/// by the product of `f32`, which leaves a number times one as it is and gives zero
/// for a finite number from zero up times zero. Shapes that differ are an error.
#[verifier::external_body]
pub(crate) fn times(a: &Tensor, b: &Tensor) -> (r: Result<Tensor, candle_core::Error>)
    requires
        tensor_val(*a).good(),
        tensor_val(*b).good(),
    ensures
        tensor_val(*a).cpu && tensor_val(*b).cpu && tensor_val(*a).dims == tensor_val(*b).dims
            ==> r is Ok,
        r matches Ok(t) ==> {
            &&& like(tensor_val(*a), tensor_val(t))
            &&& like(tensor_val(*b), tensor_val(t))
            &&& forall|i: int|
                0 <= i < tensor_val(t).elems.len() ==> scaled_outcome(
                    tensor_val(*a).elems[i],
                    tensor_val(*b).elems[i],
                    #[trigger] tensor_val(t).elems[i],
                ) && plain_product(
                    tensor_val(*a).elems[i],
                    tensor_val(*b).elems[i],
                    tensor_val(t).elems[i],
                )
        },
{
    a.mul(b)
}

/// `Tensor::dims`: the axis lengths. A tensor has as many elements as they say.
#[verifier::external_body]
pub(crate) fn dims(x: &Tensor) -> (r: Vec<usize>)
    ensures
        tensor_val(*x).dims == lengths(r@),
        tensor_val(*x).elems.len() == product(lengths(r@)),
{
    x.dims().to_vec()
}

/// `Tensor::affine` of an element, times `mul` plus `add`, may give `r`.
pub uninterp spec fn affine_outcome(a: u64, mul: u8, add: u8, r: u64) -> bool;

/// The results that need no rounding: minus one plus one is zero, and minus zero
/// plus one is one.
pub open spec fn plain_complement(a: u64, mul: u8, add: u8, r: u64) -> bool {
    (mul, add) == (1u8, 1u8) ==> {
        &&& a == negated(ONE) ==> r == 0
        &&& a == negated(0) ==> r == ONE
    }
}

/// `r` is `x` with every element times `mul` plus `add`.
pub open spec fn is_affine(x: TensorVal, mul: u8, add: u8, r: TensorVal) -> bool {
    &&& like(x, r)
    &&& forall|i: int|
        0 <= i < r.elems.len() ==> affine_outcome(x.elems[i], mul, add, #[trigger] r.elems[i])
            && plain_complement(x.elems[i], mul, add, r.elems[i])
}

/// `Tensor::affine`: every element times `mul` plus `add`. Minus one plus one is
/// zero and minus zero plus one is one, a number from zero up plus one is one or
/// more, and 255 times a number between zero and one lies between zero and 255.
#[verifier::external_body]
pub(crate) fn affine(x: &Tensor, mul: u8, add: u8) -> (r: Result<Tensor, candle_core::Error>)
    requires
        tensor_val(*x).good(),
    ensures
        tensor_val(*x).cpu ==> r is Ok,
        r matches Ok(t) ==> like(tensor_val(*x), tensor_val(t)) && forall|i: int|
            0 <= i < tensor_val(t).elems.len() ==> affine_outcome(
                tensor_val(*x).elems[i],
                mul,
                add,
                #[trigger] tensor_val(t).elems[i],
            ) && plain_complement(
                tensor_val(*x).elems[i],
                mul,
                add,
                tensor_val(t).elems[i],
            ) && ((mul, add) == (1u8, 1u8) && within(tensor_val(*x).elems[i], 0, INFINITY)
                ==> within(tensor_val(t).elems[i], ONE, INFINITY)) && ((mul, add) == (255u8, 0u8)
                && within(tensor_val(*x).elems[i], 0, ONE) ==> within(
                tensor_val(t).elems[i],
                0,
                WHITE,
            )),
{
    x.affine(mul.into(), add.into())
}

/// Row `i` of a matrix.
pub open spec fn row(a: TensorVal, i: int) -> Seq<u64> {
    Seq::new(a.dims[1], |k: int| a.at2(i, k))
}

/// Column `j` of a matrix.
pub open spec fn column(a: TensorVal, j: int) -> Seq<u64> {
    Seq::new(a.dims[0], |k: int| a.at2(k, j))
}

/// The sum of the products of two lines of equal length may come out of
/// `Tensor::matmul` as `r`.
pub uninterp spec fn dot_outcome(a: Seq<u64>, b: Seq<u64>, r: u64) -> bool;

/// `r` has the shape of the matrix product of `a` and `b`.
pub open spec fn matmul_shape(a: TensorVal, b: TensorVal, r: TensorVal) -> bool {
    &&& a.dims[1] == b.dims[0]
    &&& r.dims == seq![a.dims[0], b.dims[1]]
    &&& r.wf()
    &&& r.single
    &&& r.cpu == a.cpu
}

/// `Tensor::matmul` of two matrices: each element is a dot product of a row of
/// `a` and a column of `b`. Lengths that differ are an error.
#[verifier::external_body]
pub(crate) fn matmul(a: &Tensor, b: &Tensor) -> (r: Result<Tensor, candle_core::Error>)
    requires
        tensor_val(*a).good(),
        tensor_val(*b).good(),
        tensor_val(*a).dims.len() == 2,
        tensor_val(*b).dims.len() == 2,
        numbered((tensor_val(*a).dims[0] * tensor_val(*b).dims[1]) as int),
    ensures
        tensor_val(*a).cpu && tensor_val(*b).cpu && tensor_val(*a).dims[1] == tensor_val(
            *b,
        ).dims[0] ==> r is Ok,
        r matches Ok(t) ==> {
            &&& matmul_shape(tensor_val(*a), tensor_val(*b), tensor_val(t))
            &&& forall|i: int, j: int|
                0 <= i < tensor_val(*a).dims[0] && 0 <= j < tensor_val(*b).dims[1] ==> dot_outcome(
                    row(tensor_val(*a), i),
                    column(tensor_val(*b), j),
                    #[trigger] tensor_val(t).at2(i, j),
                )
        },
{
    a.matmul(b)
}

/// `r` is `x` with axes `i` and `j` exchanged.
pub open spec fn is_transposed(x: TensorVal, i: int, j: int, r: TensorVal) -> bool {
    &&& r.dims == exchanged(x.dims, i, j)
    &&& r.wf()
    &&& r.single == x.single
    &&& r.packed == x.packed
    &&& r.cpu == x.cpu
    &&& forall|idx: Seq<int>|
        inside(r.dims, idx) ==> #[trigger] r.at(idx) == x.at(exchanged(idx, i, j))
}

/// `Tensor::transpose`: two axes exchanged. An axis that is not there is an
/// error.
#[verifier::external_body]
pub(crate) fn transpose(x: &Tensor, i: usize, j: usize) -> (r: Result<Tensor, candle_core::Error>)
    requires
        tensor_val(*x).wf(),
    ensures
        i < tensor_val(*x).dims.len() && j < tensor_val(*x).dims.len() ==> r is Ok,
        r matches Ok(t) ==> i < tensor_val(*x).dims.len() && j < tensor_val(*x).dims.len()
            && is_transposed(tensor_val(*x), i as int, j as int, tensor_val(t)),
{
    x.transpose(i, j)
}

/// `r` is the part `start..start + len` of `x` along an axis.
pub open spec fn is_narrowed(x: TensorVal, dim: int, start: int, len: nat, r: TensorVal) -> bool {
    &&& start + len <= x.dims[dim]
    &&& r.dims == x.dims.update(dim, len)
    &&& r.wf()
    &&& r.single == x.single
    &&& r.packed == x.packed
    &&& r.cpu == x.cpu
    &&& forall|idx: Seq<int>|
        inside(r.dims, idx) ==> #[trigger] r.at(idx) == x.at(idx.update(dim, idx[dim] + start))
}

/// `Tensor::narrow`: a part of an axis. A part that passes the axis is an error.
#[verifier::external_body]
pub(crate) fn narrow(x: &Tensor, dim: usize, start: usize, len: usize) -> (r: Result<
    Tensor,
    candle_core::Error,
>)
    requires
        tensor_val(*x).wf(),
        len >= 1,
    ensures
        dim < tensor_val(*x).dims.len() && start + len <= tensor_val(*x).dims[dim as int]
            ==> r is Ok,
        r matches Ok(t) ==> dim < tensor_val(*x).dims.len() && is_narrowed(
            tensor_val(*x),
            dim as int,
            start as int,
            len as nat,
            tensor_val(t),
        ),
{
    x.narrow(dim, start, len)
}

/// `r` is `x` reversed along an axis.
pub open spec fn is_flipped(x: TensorVal, dim: int, r: TensorVal) -> bool {
    &&& r.dims == x.dims
    &&& r.wf()
    &&& r.single == x.single
    &&& r.packed == x.packed
    &&& r.cpu == x.cpu
    &&& forall|idx: Seq<int>|
        inside(r.dims, idx) ==> #[trigger] r.at(idx) == x.at(
            idx.update(dim, x.dims[dim] - 1 - idx[dim]),
        )
}

/// `Tensor::flip` along one axis: the axis reversed. It selects by a list of
/// indices of eight bytes each, from elements that stand row by row.
#[verifier::external_body]
pub(crate) fn flip(x: &Tensor, dim: usize) -> (r: Result<Tensor, candle_core::Error>)
    requires
        tensor_val(*x).good(),
        dim < tensor_val(*x).dims.len(),
        8 * tensor_val(*x).dims[dim as int] <= isize::MAX,
    ensures
        tensor_val(*x).cpu && row_major(*x) ==> r is Ok,
        r matches Ok(t) ==> is_flipped(tensor_val(*x), dim as int, tensor_val(t)),
{
    x.flip(&[dim])
}

/// `r` is `a` followed by `b` along an axis.
pub open spec fn is_joined(a: TensorVal, b: TensorVal, dim: int, r: TensorVal) -> bool {
    &&& b.dims == a.dims.update(dim, b.dims[dim])
    &&& r.dims == a.dims.update(dim, a.dims[dim] + b.dims[dim])
    &&& r.wf()
    &&& r.single == a.single
    &&& r.packed == a.packed
    &&& r.cpu == a.cpu
    &&& forall|idx: Seq<int>|
        inside(r.dims, idx) ==> #[trigger] r.at(idx) == if idx[dim] < a.dims[dim] {
            a.at(idx)
        } else {
            b.at(idx.update(dim, idx[dim] - a.dims[dim]))
        }
}

/// Two tensors of 32-bit floats differ along one axis at most.
pub open spec fn joinable(a: TensorVal, b: TensorVal, dim: int) -> bool {
    &&& dim < a.dims.len()
    &&& b.dims == a.dims.update(dim, b.dims[dim])
    &&& a.single
    &&& b.single
}

/// `Tensor::cat` of two tensors: one after the other along an axis. Other axes
/// that differ are an error.
#[verifier::external_body]
fn cat(a: &Tensor, b: &Tensor, dim: usize) -> (r: Result<Tensor, candle_core::Error>)
    requires
        tensor_val(*a).wf(),
        tensor_val(*b).wf(),
        holds_count(
            tensor_val(*a).single,
            (product(tensor_val(*a).dims) + product(tensor_val(*b).dims)) as int,
        ),
    ensures
        joinable(tensor_val(*a), tensor_val(*b), dim as int) && tensor_val(*a).cpu && tensor_val(
            *b,
        ).cpu ==> r is Ok,
        r matches Ok(t) ==> dim < tensor_val(*a).dims.len() && is_joined(
            tensor_val(*a),
            tensor_val(*b),
            dim as int,
            tensor_val(t),
        ),
{
    Tensor::cat(&[a, b], dim)
}

/// `r` is `a` and `b` side by side along a new axis.
pub open spec fn is_stacked(a: TensorVal, b: TensorVal, dim: int, r: TensorVal) -> bool {
    &&& a.dims == b.dims
    &&& r.dims == a.dims.insert(dim, 2)
    &&& r.wf()
    &&& r.single == a.single
    &&& r.packed == a.packed
    &&& r.cpu == a.cpu
    &&& forall|idx: Seq<int>|
        inside(r.dims, idx) ==> #[trigger] r.at(idx) == if idx[dim] == 0 {
            a.at(idx.remove(dim))
        } else {
            b.at(idx.remove(dim))
        }
}

/// `Tensor::stack` of two tensors: a new axis of length two, the first tensor at
/// 0 and the second at 1. Shapes that differ are an error.
#[verifier::external_body]
pub(crate) fn stack(a: &Tensor, b: &Tensor, dim: usize) -> (r: Result<Tensor, candle_core::Error>)
    requires
        tensor_val(*a).wf(),
        tensor_val(*b).wf(),
        holds_count(
            tensor_val(*a).single,
            (product(tensor_val(*a).dims) + product(tensor_val(*b).dims)) as int,
        ),
    ensures
        tensor_val(*a).cpu && tensor_val(*b).cpu && tensor_val(*a).dims == tensor_val(*b).dims
            && tensor_val(*a).single && tensor_val(*b).single && dim <= tensor_val(*a).dims.len()
            ==> r is Ok,
        r matches Ok(t) ==> dim <= tensor_val(*a).dims.len() && is_stacked(
            tensor_val(*a),
            tensor_val(*b),
            dim as int,
            tensor_val(t),
        ),
{
    Tensor::stack(&[a, b], dim)
}

/// The index that an axis of length one shows everywhere.
pub open spec fn pinned(dims: Seq<nat>, idx: Seq<int>) -> Seq<int> {
    Seq::new(
        idx.len(),
        |i: int|
            if dims[i] == 1 {
                0
            } else {
                idx[i]
            },
    )
}

/// Axes of length one stretch to the axis lengths `to`, the others have them.
pub open spec fn stretches(dims: Seq<nat>, to: Seq<nat>) -> bool {
    forall|i: int| 0 <= i < to.len() ==> #[trigger] dims[i] == to[i] || dims[i] == 1
}

/// `r` has the axis lengths `to`, with `x` repeated along its axes of length one.
pub open spec fn is_broadcast(x: TensorVal, to: Seq<nat>, r: TensorVal) -> bool {
    &&& stretches(x.dims, to)
    &&& r.dims == to
    &&& r.wf()
    &&& r.single == x.single
    &&& r.packed == x.packed
    &&& r.cpu == x.cpu
    &&& forall|idx: Seq<int>|
        inside(r.dims, idx) ==> #[trigger] r.at(idx) == x.at(pinned(x.dims, idx))
}

/// `Tensor::broadcast_as` to the shape of `like`, a tensor of as many axes: axes
/// of length one are repeated. Other lengths that differ are an error.
#[verifier::external_body]
pub(crate) fn broadcast_as(x: &Tensor, like: &Tensor) -> (r: Result<Tensor, candle_core::Error>)
    requires
        tensor_val(*x).good(),
        tensor_val(*like).good(),
        tensor_val(*x).dims.len() == tensor_val(*like).dims.len(),
    ensures
        stretches(tensor_val(*x).dims, tensor_val(*like).dims) ==> r is Ok,
        r matches Ok(t) ==> is_broadcast(tensor_val(*x), tensor_val(*like).dims, tensor_val(t)),
{
    x.broadcast_as(like.shape())
}

/// `r` has the elements of `x` in their order under new axis lengths.
pub open spec fn is_reshaped(x: TensorVal, to: Seq<nat>, r: TensorVal) -> bool {
    &&& r.dims == to
    &&& r.elems == x.elems
    &&& r.wf()
    &&& r.single == x.single
    &&& r.packed == x.packed
    &&& r.cpu == x.cpu
}

/// `Tensor::reshape`: new axis lengths over the same elements. A number of
/// elements that differs is an error.
#[verifier::external_body]
pub(crate) fn reshape(x: &Tensor, to: Vec<usize>) -> (r: Result<Tensor, candle_core::Error>)
    requires
        tensor_val(*x).wf(),
        nonempty(lengths(to@)),
        product(lengths(to@)) <= usize::MAX,
    ensures
        tensor_val(*x).computes() && product(lengths(to@)) == product(tensor_val(*x).dims)
            ==> r is Ok,
        r matches Ok(t) ==> is_reshaped(tensor_val(*x), lengths(to@), tensor_val(t)),
{
    x.reshape(to)
}

/// `Tensor::contiguous`: the same value, laid out row by row.
#[verifier::external_body]
pub(crate) fn contiguous(x: &Tensor) -> (r: Result<Tensor, candle_core::Error>)
    requires
        tensor_val(*x).wf(),
    ensures
        tensor_val(*x).computes() ==> r is Ok,
        r matches Ok(t) ==> tensor_val(t) == tensor_val(*x) && row_major(t),
{
    x.contiguous()
}

/// `r` has the shape of `x` and every element zero.
pub open spec fn is_zeros(x: TensorVal, r: TensorVal) -> bool {
    &&& r.dims == x.dims
    &&& r.wf()
    &&& r.single == x.single
    &&& r.packed == x.packed
    &&& r.cpu == x.cpu
    &&& forall|i: int| 0 <= i < r.elems.len() ==> #[trigger] r.elems[i] == 0
}

/// `Tensor::zeros_like`: zeros in the shape of `x`.
#[verifier::external_body]
pub(crate) fn zeros_like(x: &Tensor) -> (r: Result<Tensor, candle_core::Error>)
    requires
        tensor_val(*x).wf(),
    ensures
        tensor_val(*x).computes() ==> r is Ok,
        r matches Ok(t) ==> is_zeros(tensor_val(*x), tensor_val(t)),
{
    x.zeros_like()
}

/// `Tensor::dtype` compared with `DType::F32`, whose elements are patterns of 32 bits.
#[verifier::external_body]
pub(crate) fn is_single(x: &Tensor) -> (r: bool)
    ensures
        r == tensor_val(*x).single,
        r ==> words(tensor_val(*x).elems) && !tensor_val(*x).packed,
{
    x.dtype() == candle_core::DType::F32
}

/// `Tensor::device`: where the tensor lies.
#[verifier::external_body]
pub(crate) fn device(x: &Tensor) -> (r: &Device)
    ensures
        is_cpu(*r) == tensor_val(*x).cpu,
{
    x.device()
}

/// `Device::Cpu`, the device that is the CPU.
#[verifier::external_body]
pub(crate) fn cpu() -> (r: Device)
    ensures
        is_cpu(r),
{
    candle_core::Device::Cpu
}

/// `Tensor::to_dtype` with `DType::F32` may give `r` for a tensor of other
/// elements.
pub uninterp spec fn single_outcome(x: TensorVal, r: TensorVal) -> bool;

/// `r` is `x` with its elements converted to 32-bit floats, which stay as they
/// are.
pub open spec fn converts_to_single(x: TensorVal, r: TensorVal) -> bool {
    &&& r.good()
    &&& r.dims == x.dims
    &&& r.cpu == x.cpu
    &&& if x.single {
        r == x
    } else {
        single_outcome(x, r)
    }
}

/// `Tensor::to_dtype` with `DType::F32`: 32-bit floats stay as they are, other
/// elements are converted. The formats that are only stored are an error.
#[verifier::external_body]
pub(crate) fn to_single(x: &Tensor) -> (r: Result<Tensor, candle_core::Error>)
    requires
        nonempty(tensor_val(*x).dims),
        numbered(product(tensor_val(*x).dims) as int),
    ensures
        tensor_val(*x).computes() ==> r is Ok,
        r matches Ok(t) ==> {
            &&& tensor_val(t).good()
            &&& tensor_val(t).dims == tensor_val(*x).dims
            &&& tensor_val(t).cpu == tensor_val(*x).cpu
            &&& if tensor_val(*x).single {
                tensor_val(t) == tensor_val(*x)
            } else {
                single_outcome(tensor_val(*x), tensor_val(t))
            }
        },
{
    x.to_dtype(candle_core::DType::F32)
}

/// Axis lengths with an empty axis counted as one.
pub open spec fn filled(dims: Seq<nat>) -> Seq<nat> {
    dims.map_values(
        |n: nat|
            if n == 0 {
                1
            } else {
                n
            },
    )
}

/// Bit patterns of 32-bit floats as elements.
pub open spec fn widened(bits: Seq<u32>) -> Seq<u64> {
    bits.map_values(|b: u32| b as u64)
}

/// `Tensor::from_raw_buffer` with `DType::F32`: a tensor of the given bit
/// patterns, handed over as bytes in the order of the machine. A number of
/// elements that the axis lengths do not give is an error. The products of the
/// lengths that it forms must not pass `usize`.
#[verifier::external_body]
pub(crate) fn from_bits(bits: &Vec<u32>, to: &Vec<usize>, dev: &Device) -> (r: Result<
    Tensor,
    candle_core::Error,
>)
    requires
        product(filled(lengths(to@))) <= usize::MAX,
    ensures
        is_cpu(*dev) && bits@.len() == product(lengths(to@)) ==> r is Ok,
        r matches Ok(t) ==> {
            &&& tensor_val(t).dims == lengths(to@)
            &&& tensor_val(t).elems == widened(bits@)
            &&& tensor_val(t).elems.len() == product(lengths(to@))
            &&& tensor_val(t).single
            &&& !tensor_val(t).packed
            &&& tensor_val(t).cpu == is_cpu(*dev)
        },
{
    let bytes: Vec<u8> = bits.iter().flat_map(|b| b.to_ne_bytes()).collect();
    Tensor::from_raw_buffer(&bytes, candle_core::DType::F32, to, dev)
}

/// `Tensor::write_bytes` of a tensor of 32-bit floats: the bit pattern of every
/// element, four bytes each, lowest first.
#[verifier::external_body]
pub(crate) fn to_bits(x: &Tensor) -> (r: Result<Vec<u32>, candle_core::Error>)
    requires
        tensor_val(*x).good(),
    ensures
        tensor_val(*x).cpu ==> r is Ok,
        r matches Ok(v) ==> widened(v@) == tensor_val(*x).elems,
{
    let mut bytes: Vec<u8> = Vec::new();
    x.write_bytes(&mut bytes)?;
    let words = bytes.chunks_exact(4).map(|b| u32::from_le_bytes([b[0], b[1], b[2], b[3]]));
    Ok(words.collect())
}

/// The number of elements up to an axis is at most that of the whole tensor.
proof fn lemma_product_take(d: Seq<nat>, n: int)
    requires
        nonempty(d),
        0 <= n <= d.len(),
    ensures
        1 <= product(d.take(n)) <= product(d),
    decreases d.len(),
{
    if n == d.len() {
        assert(d.take(n) =~= d);
        if n > 0 {
            lemma_product_take(d.drop_last(), n - 1);
            assert(d.drop_last().take(n - 1) =~= d.drop_last());
            assert(product(d.drop_last()) * d.last() >= 1) by (nonlinear_arith)
                requires
                    product(d.drop_last()) >= 1,
                    d.last() >= 1,
            ;
        }
    } else {
        lemma_product_take(d.drop_last(), n);
        assert(d.drop_last().take(n) =~= d.take(n));
        assert(product(d.drop_last()) * d.last() >= product(d.drop_last())) by (nonlinear_arith)
            requires
                d.last() >= 1,
        ;
    }
}

/// The number of elements of a tensor.
pub fn elem_count(x: &Tensor) -> (r: usize)
    requires
        tensor_val(*x).wf(),
    ensures
        r == product(tensor_val(*x).dims),
{
    let d = dims(x);
    assert(lengths(d@).take(d@.len() as int) =~= lengths(d@));
    let n: usize = d.len();
    leading_count(&d, n)
}

/// The product of the first `n` axis lengths.
pub fn leading_count(d: &Vec<usize>, n: usize) -> (r: usize)
    requires
        nonempty(lengths(d@)),
        product(lengths(d@)) <= isize::MAX,
        n <= d@.len(),
    ensures
        r == product(lengths(d@).take(n as int)),
{
    let ghost v = lengths(d@);
    let mut count: usize = 1;
    let mut i: usize = 0;
    while i < n
        invariant
            i <= n <= d@.len(),
            v == lengths(d@),
            nonempty(v),
            product(v) <= isize::MAX,
            count == product(v.take(i as int)),
        decreases n - i,
    {
        proof {
            lemma_product_take(v, i + 1);
            assert(v.take(i + 1).drop_last() =~= v.take(i as int));
        }
        count = count * d[i];
        i = i + 1;
    }
    count
}

/// Decides whether memory can hold the elements of a tensor.
pub fn count_fits(a: usize, b: usize, c: usize, d: usize) -> (r: bool)
    requires
        a >= 1,
        b >= 1,
        c >= 1,
        d >= 1,
    ensures
        r <==> numbered(a * b * c * d),
{
    proof {
        let (ai, bi, ci, di) = (a as int, b as int, c as int, d as int);
        assert(ai * bi >= 1) by (nonlinear_arith)
            requires
                ai >= 1,
                bi >= 1,
        ;
        assert(ai * bi <= ai * bi * ci) by (nonlinear_arith)
            requires
                ai * bi >= 1,
                ci >= 1,
        ;
        assert(ai * bi * ci <= ai * bi * ci * di) by (nonlinear_arith)
            requires
                ai * bi * ci >= 1,
                di >= 1,
        ;
    }
    let ab: usize = match a.checked_mul(b) {
        Some(v) => v,
        None => {
            return false;
        },
    };
    let abc: usize = match ab.checked_mul(c) {
        Some(v) => v,
        None => {
            return false;
        },
    };
    match abc.checked_mul(d) {
        Some(v) => v <= isize::MAX as usize / 4,
        None => false,
    }
}

/// Decides whether memory can hold the elements of two tensors together.
pub fn sum_held(a: &Tensor, b: &Tensor) -> (r: bool)
    requires
        tensor_val(*a).wf(),
        tensor_val(*b).wf(),
    ensures
        r == holds_count(
            tensor_val(*a).single,
            (product(tensor_val(*a).dims) + product(tensor_val(*b).dims)) as int,
        ),
{
    let limit: usize = if is_single(a) {
        isize::MAX as usize / 4
    } else {
        isize::MAX as usize / 8
    };
    elem_count(a) + elem_count(b) <= limit
}

/// One tensor after another along an axis. More elements than memory can number
/// are refused.
pub fn join(a: &Tensor, b: &Tensor, dim: usize) -> (r: Result<Tensor, WorkerError>)
    requires
        tensor_val(*a).wf(),
        tensor_val(*b).wf(),
    ensures
        match r {
            Ok(t) => dim < tensor_val(*a).dims.len() && is_joined(
                tensor_val(*a),
                tensor_val(*b),
                dim as int,
                tensor_val(t),
            ),
            Err(e) => if !holds_count(
                tensor_val(*a).single,
                (product(tensor_val(*a).dims) + product(tensor_val(*b).dims)) as int,
            ) {
                e is TooLarge
            } else {
                e is Candle && !(joinable(tensor_val(*a), tensor_val(*b), dim as int)
                    && tensor_val(*a).cpu && tensor_val(*b).cpu)
            },
        },
{
    if !sum_held(a, b) {
        return Err(WorkerError::TooLarge);
    }
    lift(cat(a, b, dim))
}

/// The error for a tensor that has other than `expected` axes.
pub open spec fn is_rank(e: WorkerError, expected: usize, dims: Seq<nat>) -> bool {
    e matches WorkerError::Rank { expected: n, shape } && n == expected && lengths(shape@) == dims
}

/// The lengths of a tensor of four axes.
pub fn shape4(x: &Tensor) -> (r: Result<(usize, usize, usize, usize), WorkerError>)
    ensures
        match r {
            Ok(d) => tensor_val(*x).dims == seq![d.0 as nat, d.1 as nat, d.2 as nat, d.3 as nat]
                && tensor_val(*x).elems.len() == product(tensor_val(*x).dims),
            Err(e) => tensor_val(*x).dims.len() != 4 && is_rank(e, 4, tensor_val(*x).dims),
        },
{
    let d = dims(x);
    if d.len() != 4 {
        return Err(WorkerError::Rank { expected: 4, shape: d });
    }
    assert(tensor_val(*x).dims =~= seq![
        d@[0] as nat,
        d@[1] as nat,
        d@[2] as nat,
        d@[3] as nat,
    ]);
    Ok((d[0], d[1], d[2], d[3]))
}

/// The lengths of a matrix.
pub fn shape2(x: &Tensor) -> (r: Result<(usize, usize), WorkerError>)
    ensures
        match r {
            Ok(d) => tensor_val(*x).dims == seq![d.0 as nat, d.1 as nat],
            Err(e) => tensor_val(*x).dims.len() != 2 && is_rank(e, 2, tensor_val(*x).dims),
        },
{
    let d = dims(x);
    if d.len() != 2 {
        return Err(WorkerError::Rank { expected: 2, shape: d });
    }
    assert(tensor_val(*x).dims =~= seq![d@[0] as nat, d@[1] as nat]);
    Ok((d[0], d[1]))
}

} // verus!
