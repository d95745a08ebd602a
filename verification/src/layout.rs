//! Samples on their way between grids, whose channels vary fastest, and tensors,
//! whose channels vary slowest.

use candle_core::{Device, Tensor};
use vstd::prelude::*;

use crate::axes::lemma_product4;

use crate::error::{lift, WorkerError};
use crate::grid::{fits, image_shape, mask_shape, nonzero, shape_fits, ImageGrid, MaskGrid};
use crate::tensor::{
    converts_to_single, filled, from_bits, is_cpu, is_rank, lemma_widened_words, lengths, nonempty, numbered, product,
    shape4, tensor_val, to_bits, to_single, widened, TensorVal,
};

verus! {

/// The bit pattern of the 32-bit float one.
pub const ONE: u32 = 0x3f80_0000;

/// The samples of a grid channel by channel, row by row.
pub open spec fn planar(g: ImageGrid) -> Seq<u32> {
    Seq::new(
        g.c() * g.h() * g.w(),
        |p: int|
            g.at(
                (p / g.w() as int) % g.h() as int,
                p % g.w() as int,
                p / g.w() as int / g.h() as int,
            ),
    )
}

/// The flags of a mask row by row, one where set and zero elsewhere.
pub open spec fn planar_mask(g: MaskGrid) -> Seq<u32> {
    Seq::new(
        g.h() * g.w(),
        |p: int|
            if g.at(p / g.w() as int, p % g.w() as int) {
                ONE
            } else {
                0
            },
    )
}

/// The row, column and plane of a position.
pub proof fn lemma_position(c: int, y: int, x: int, h: int, w: int)
    requires
        0 <= y < h,
        0 <= x < w,
        0 <= c,
    ensures
        ((c * h + y) * w + x) / w == c * h + y,
        ((c * h + y) * w + x) % w == x,
        (c * h + y) / h == c,
        (c * h + y) % h == y,
{
    vstd::arithmetic::div_mod::lemma_fundamental_div_mod_converse(
        (c * h + y) * w + x,
        w,
        c * h + y,
        x,
    );
    vstd::arithmetic::div_mod::lemma_fundamental_div_mod_converse(c * h + y, h, c, y);
}

/// The samples of a grid, channel by channel.
pub fn hwc_to_planar(hwc: &ImageGrid) -> (data: Vec<u32>)
    ensures
        data@ == planar(*hwc),
{
    let (h, w, c) = hwc.dim();
    let mut data: Vec<u32> = Vec::new();
    let mut ch: usize = 0;
    assert(0 * h * w == 0) by (nonlinear_arith);
    while ch < c
        invariant
            ch <= c,
            image_shape(*hwc) == (h as nat, w as nat, c as nat),
            data@.len() == ch * h * w,
            forall|p: int| 0 <= p < data@.len() ==> #[trigger] data@[p] == planar(*hwc)[p],
        decreases c - ch,
    {
        let mut y: usize = 0;
        proof {
            assert(ch * h * w == (ch * h + 0) * w);
        }
        while y < h
            invariant
                ch < c,
                y <= h,
                image_shape(*hwc) == (h as nat, w as nat, c as nat),
                data@.len() == (ch * h + y) * w,
                forall|p: int| 0 <= p < data@.len() ==> #[trigger] data@[p] == planar(*hwc)[p],
            decreases h - y,
        {
            let mut x: usize = 0;
            while x < w
                invariant
                    ch < c,
                    y < h,
                    x <= w,
                    image_shape(*hwc) == (h as nat, w as nat, c as nat),
                    data@.len() == (ch * h + y) * w + x,
                    forall|p: int|
                        0 <= p < data@.len() ==> #[trigger] data@[p] == planar(*hwc)[p],
                decreases w - x,
            {
                proof {
                    lemma_position(ch as int, y as int, x as int, h as int, w as int);
                    let (ci, yi, xi) = (ch as int, y as int, x as int);
                    let (hi, wi, ki) = (h as int, w as int, c as int);
                    assert((ci * hi + yi) * wi + xi < ki * hi * wi) by (nonlinear_arith)
                        requires
                            0 <= ci < ki,
                            0 <= yi < hi,
                            0 <= xi < wi,
                    ;
                }
                data.push(hwc.cell(y, x, ch));
                x = x + 1;
            }
            assert((ch * h + y) * w + w == (ch * h + (y + 1)) * w) by (nonlinear_arith);
            y = y + 1;
        }
        assert((ch * h + h) * w == (ch + 1) * h * w) by (nonlinear_arith);
        ch = ch + 1;
    }
    assert(data@ =~= planar(*hwc));
    data
}

/// The flags of a mask as floats.
pub fn mask_to_planar(mask: &MaskGrid) -> (data: Vec<u32>)
    ensures
        data@ == planar_mask(*mask),
{
    let (h, w) = mask.dim();
    let mut data: Vec<u32> = Vec::new();
    let mut y: usize = 0;
    while y < h
        invariant
            y <= h,
            mask_shape(*mask) == (h as nat, w as nat),
            data@.len() == y * w,
            forall|p: int| 0 <= p < data@.len() ==> #[trigger] data@[p] == planar_mask(*mask)[p],
        decreases h - y,
    {
        let mut x: usize = 0;
        while x < w
            invariant
                y < h,
                x <= w,
                mask_shape(*mask) == (h as nat, w as nat),
                data@.len() == y * w + x,
                forall|p: int|
                    0 <= p < data@.len() ==> #[trigger] data@[p] == planar_mask(*mask)[p],
            decreases w - x,
        {
            proof {
                vstd::arithmetic::div_mod::lemma_fundamental_div_mod_converse(
                    y * w + x,
                    w as int,
                    y as int,
                    x as int,
                );
                let (yi, xi, hi, wi) = (y as int, x as int, h as int, w as int);
                assert(yi * wi + xi < hi * wi) by (nonlinear_arith)
                    requires
                        0 <= yi < hi,
                        0 <= xi < wi,
                ;
            }
            let v: u32 = if mask.cell(y, x) {
                ONE
            } else {
                0
            };
            data.push(v);
            x = x + 1;
        }
        assert(y * w + w == (y + 1) * w) by (nonlinear_arith);
        y = y + 1;
    }
    assert(data@ =~= planar_mask(*mask));
    data
}

/// The image as a tensor of one image, channels first.
pub open spec fn is_image_tensor(g: ImageGrid, t: TensorVal) -> bool {
    &&& t.dims == seq![1, g.c(), g.h(), g.w()]
    &&& t.elems.len() == product(t.dims)
    &&& t.single
    &&& nonempty(t.dims) ==> t.good()
    &&& forall|c: int, y: int, x: int|
        g.holds(y, x, c) ==> #[trigger] t.at4(0, c, y, x) == g.at(y, x, c)
}

/// The mask as a tensor of one channel.
pub open spec fn is_mask_tensor(g: MaskGrid, t: TensorVal) -> bool {
    &&& t.dims == seq![1, 1, g.h(), g.w()]
    &&& t.elems.len() == product(t.dims)
    &&& t.single
    &&& nonempty(t.dims) ==> t.good()
    &&& forall|y: int, x: int|
        g.holds(y, x) ==> #[trigger] t.at4(0, 0, y, x) == if g.at(y, x) {
            ONE
        } else {
            0
        }
}

/// The samples of a grid fit a tensor.
proof fn lemma_tensor_room(h: nat, w: nat, c: nat, bytes: nat)
    requires
        fits(h, w, c, bytes),
        bytes >= 1,
    ensures
        product(seq![1nat, c, h, w]) == c * h * w,
        product(filled(seq![1nat, c, h, w])) <= isize::MAX,
        bytes == 4 ==> numbered((c * h * w) as int),
{
    let d = seq![1nat, c, h, w];
    lemma_product4(d);
    lemma_product4(filled(d));
    let (hi, wi, ci) = (h as int, w as int, c as int);
    let (a, b, k) = (nonzero(h) as int, nonzero(w) as int, nonzero(c) as int);
    assert(1 * k * a * b == a * b * k) by (nonlinear_arith);
    assert(1 * ci * hi * wi == ci * hi * wi) by (nonlinear_arith);
    assert(hi * wi * ci * 4 == 4 * (ci * hi * wi)) by (nonlinear_arith);
}

/// An image as a tensor.
pub fn hwc_to_chw_tensor(hwc: &ImageGrid, dev: &Device) -> (r: Result<Tensor, WorkerError>)
    ensures
        match r {
            Ok(t) => is_image_tensor(*hwc, tensor_val(t)) && tensor_val(t).cpu == is_cpu(*dev),
            Err(e) => e is Candle && !is_cpu(*dev),
        },
{
    let (h, w, c) = hwc.dim();
    let data = hwc_to_planar(hwc);
    let to = vec![1, c, h, w];
    proof {
        assert(lengths(to@) =~= seq![1nat, c as nat, h as nat, w as nat]);
        lemma_tensor_room(h as nat, w as nat, c as nat, 4);
    }
    let t = lift(from_bits(&data, &to, dev))?;
    proof {
        lemma_widened_words(data@);
        let tv = tensor_val(t);
        assert forall|k: int, y: int, x: int| hwc.holds(y, x, k) implies #[trigger] tv.at4(
            0,
            k,
            y,
            x,
        ) == hwc.at(y, x, k) by {
            let p = (k * h + y) * w + x;
            lemma_position(k, y, x, h as int, w as int);
            let (hi, wi, ki) = (h as int, w as int, c as int);
            assert(0 <= p < ki * hi * wi) by (nonlinear_arith)
                requires
                    p == (k * hi + y) * wi + x,
                    0 <= k < ki,
                    0 <= y < hi,
                    0 <= x < wi,
            ;
            assert(0 * tv.dims[1] + k == k) by (nonlinear_arith);
            assert(widened(data@)[p] == data@[p]);
        }
    }
    Ok(t)
}

/// A mask as a tensor of floats, one where set and zero elsewhere. More flags than
/// memory can hold as floats are refused.
pub fn mask_to_chw_tensor(mask: &MaskGrid, dev: &Device) -> (r: Result<Tensor, WorkerError>)
    ensures
        match r {
            Ok(t) => is_mask_tensor(*mask, tensor_val(t)) && tensor_val(t).cpu == is_cpu(*dev),
            Err(e) => if !numbered((mask.h() * mask.w()) as int) {
                e is TooLarge
            } else {
                e is Candle && !is_cpu(*dev)
            },
        },
{
    let (h, w) = mask.dim();
    proof {
        lemma_tensor_room(h as nat, w as nat, 1, 1);
        let (hi, wi) = (h as int, w as int);
        assert(1 * hi * wi == hi * wi) by (nonlinear_arith);
        assert(hi * wi * 1 * 1 == hi * wi) by (nonlinear_arith);
    }
    if h * w > isize::MAX as usize / 4 {
        return Err(WorkerError::TooLarge);
    }
    let data = mask_to_planar(mask);
    let to = vec![1, 1, h, w];
    proof {
        assert(lengths(to@) =~= seq![1nat, 1nat, h as nat, w as nat]);
    }
    let t = lift(from_bits(&data, &to, dev))?;
    proof {
        lemma_widened_words(data@);
        let tv = tensor_val(t);
        assert forall|y: int, x: int| mask.holds(y, x) implies #[trigger] tv.at4(0, 0, y, x)
            == if mask.at(y, x) {
            ONE
        } else {
            0
        } by {
            let p = y * w + x;
            let (hi, wi) = (h as int, w as int);
            vstd::arithmetic::div_mod::lemma_fundamental_div_mod_converse(p, wi, y, x);
            assert(0 <= p < hi * wi) by (nonlinear_arith)
                requires
                    p == y * wi + x,
                    0 <= y < hi,
                    0 <= x < wi,
            ;
            assert((0 * tv.dims[1] + 0) * hi + y == y) by (nonlinear_arith);
            assert(widened(data@)[p] == data@[p]);
        }
    }
    Ok(t)
}

/// The scalar function accepts every sample.
pub open spec fn total_scale<U: Fn(u32) -> u32>(unscale: U) -> bool {
    forall|v: u32| #[trigger] call_requires(unscale, (v,))
}

/// `g` is an image of `h` rows and `w` columns whose samples are what `unscale`
/// gives for the planes of `data`.
pub open spec fn is_unscaled<U: Fn(u32) -> u32>(
    unscale: U,
    data: Seq<u32>,
    h: nat,
    w: nat,
    g: ImageGrid,
) -> bool {
    &&& image_shape(g) == (h, w, 3nat)
    &&& forall|y: usize, x: usize, c: usize|
        y < h && x < w && c < 3 ==> call_ensures(
            unscale,
            (data[(c * h + y) * w + x],),
            #[trigger] g.at(y as int, x as int, c as int),
        )
}

/// Three planes of model output as an image, each sample through `unscale`.
fn planar_to_hwc<U: Fn(u32) -> u32>(data: &Vec<u32>, h: usize, w: usize, unscale: &U) -> (g:
    ImageGrid)
    requires
        data@.len() == 3 * h * w,
        fits(h as nat, w as nat, 3, 4),
        total_scale(*unscale),
    ensures
        is_unscaled(*unscale, data@, h as nat, w as nat, g),
{
    let len: usize = data.len();
    let g = ImageGrid::build(
        h,
        w,
        3,
        |y: usize, x: usize, c: usize| -> (v: u32)
            requires
                h > y && w > x && 3 > c,
            ensures
                call_ensures(*unscale, (data@[(c * h + y) * w + x],), v)
            {
                proof {
                    let (ci, yi, xi) = (c as int, y as int, x as int);
                    let (hi, wi) = (h as int, w as int);
                    assert(0 <= ci * hi && ci * hi + yi < 3 * hi && 0 <= (ci * hi + yi) * wi && (ci
                        * hi + yi) * wi + xi < 3 * hi * wi && ci * hi + yi <= (ci * hi + yi) * wi)
                        by (nonlinear_arith)
                        requires
                            0 <= ci < 3,
                            0 <= yi < hi,
                            0 <= xi < wi,
                    ;
                }
                let p: usize = (c * h + y) * w + x;
                unscale(data[p])
            },
    );
    g
}

/// The output of a session has the shape of one image: one by three planes.
pub open spec fn is_output_shape(shape: Seq<usize>, len: nat) -> bool {
    &&& shape.len() == 4
    &&& shape[0] == 1
    &&& shape[1] == 3
    &&& len == 3 * shape[2] * shape[3]
}

/// The output of a session as an image, each sample through `unscale`.
pub fn output_to_hwc<U: Fn(u32) -> u32>(shape: &Vec<usize>, data: &Vec<u32>, unscale: &U) -> (r:
    Result<ImageGrid, WorkerError>)
    requires
        total_scale(*unscale),
    ensures
        match r {
            Ok(g) => is_output_shape(shape@, data@.len()) && is_unscaled(
                *unscale,
                data@,
                shape@[2] as nat,
                shape@[3] as nat,
                g,
            ),
            Err(e) => if is_output_shape(shape@, data@.len()) {
                e is TooLarge && !fits(shape@[2] as nat, shape@[3] as nat, 3, 4)
            } else {
                e matches WorkerError::OutputShape(v) && v@ == shape@
            },
        },
{
    if shape.len() != 4 || shape[0] != 1 || shape[1] != 3 {
        return Err(WorkerError::OutputShape(shape.clone()));
    }
    let len: usize = data.len();
    let h: usize = shape[2];
    let w: usize = shape[3];
    if h == 0 || w == 0 {
        assert(3 * h * w == 0) by (nonlinear_arith)
            requires
                h == 0 || w == 0,
        ;
        if len != 0 {
            return Err(WorkerError::OutputShape(shape.clone()));
        }
    } else {
        let size: Option<usize> = match h.checked_mul(w) {
            Some(v) => v.checked_mul(3),
            None => None,
        };
        assert(3 * h * w == h * w * 3 && h * w <= 3 * h * w) by (nonlinear_arith);
        match size {
            Some(v) => if v != len {
                return Err(WorkerError::OutputShape(shape.clone()));
            },
            None => {
                return Err(WorkerError::OutputShape(shape.clone()));
            },
        }
    }
    if !shape_fits(h, w, 3, 4) {
        return Err(WorkerError::TooLarge);
    }
    Ok(planar_to_hwc(data, h, w, unscale))
}

/// `g` is the image of a tensor of one image with three channels, each sample
/// through `unscale`.
pub open spec fn is_tensor_image<U: Fn(u32) -> u32>(unscale: U, t: TensorVal, g: ImageGrid) -> bool {
    &&& image_shape(g) == (t.dims[2], t.dims[3], 3nat)
    &&& forall|y: usize, x: usize, c: usize|
        y < t.dims[2] && x < t.dims[3] && c < 3 ==> call_ensures(
            unscale,
            (t.at4(0, c as int, y as int, x as int) as u32,),
            #[trigger] g.at(y as int, x as int, c as int),
        )
}

/// A tensor of one image with three channels as an image, each sample converted
/// to a 32-bit float and put through `unscale`. Other shapes are refused.
pub fn chw_tensor_to_hwc<U: Fn(u32) -> u32>(t: &Tensor, unscale: &U) -> (r: Result<
    ImageGrid,
    WorkerError,
>)
    requires
        total_scale(*unscale),
    ensures
        match r {
            Ok(g) => {
                let d = tensor_val(*t).dims;
                &&& d.len() == 4
                &&& d[0] == 1
                &&& d[1] == 3
                &&& image_shape(g) == (d[2], d[3], 3nat)
                &&& d[2] >= 1 && d[3] >= 1 ==> exists|s: TensorVal| #[trigger]
                    converts_to_single(tensor_val(*t), s) && is_tensor_image(*unscale, s, g)
            },
            Err(e) => {
                let d = tensor_val(*t).dims;
                if d.len() != 4 {
                    is_rank(e, 4, d)
                } else if d[0] != 1 || d[1] != 3 {
                    e matches WorkerError::TensorShape(v) && lengths(v@) == d
                } else if !fits(d[2], d[3], 3, 4) {
                    e is TooLarge
                } else {
                    e is Candle && !tensor_val(*t).computes()
                }
            },
        },
{
    let (b, c, h, w) = shape4(t)?;
    if b != 1 || c != 3 {
        let shape = vec![b, c, h, w];
        assert(lengths(shape@) =~= tensor_val(*t).dims);
        return Err(WorkerError::TensorShape(shape));
    }
    if !shape_fits(h, w, 3, 4) {
        return Err(WorkerError::TooLarge);
    }
    if h == 0 || w == 0 {
        return Ok(ImageGrid::zeros(h, w, 3));
    }
    proof {
        lemma_tensor_room(h as nat, w as nat, 3, 4);
    }
    let single = lift(to_single(t))?;
    let data = lift(to_bits(&single))?;
    proof {
        assert(widened(data@).len() == data@.len());
    }
    let g = planar_to_hwc(&data, h, w, unscale);
    proof {
        let s = tensor_val(single);
        assert(converts_to_single(tensor_val(*t), s));
        assert forall|y: usize, x: usize, k: usize| y < h && x < w && k < 3 implies call_ensures(
            *unscale,
            (s.at4(0, k as int, y as int, x as int) as u32,),
            #[trigger] g.at(y as int, x as int, k as int),
        ) by {
            let p = (k * h + y) * w + x;
            let (ci, yi, xi, hi, wi) = (k as int, y as int, x as int, h as int, w as int);
            assert(0 <= p < 3 * hi * wi) by (nonlinear_arith)
                requires
                    p == (ci * hi + yi) * wi + xi,
                    0 <= ci < 3,
                    0 <= yi < hi,
                    0 <= xi < wi,
            ;
            assert(0 * s.dims[1] + ci == ci) by (nonlinear_arith);
            assert(widened(data@)[p] == data@[p]);
        }
        assert(is_tensor_image(*unscale, s, g));
    }
    Ok(g)
}

} // verus!
