//! The ends of the worker: pixels in, pixels out, and the checks around them.

use vstd::prelude::*;

use crate::error::WorkerError;
use crate::grid::{fits, image_shape, mask_shape, shape_fits, ImageGrid, MaskGrid};

verus! {

/// A mask byte above this selects its pixel.
pub const MASK_THRESHOLD: u8 = 127;

/// The place of byte `k` of the pixel at row `y`, column `x`, in rows of `w`
/// pixels of four bytes.
pub open spec fn byte_at(y: int, x: int, w: int, k: int) -> int {
    (y * w + x) * 4 + k
}

/// A pixel's bytes lie in the buffer.
pub proof fn lemma_byte_at(y: int, x: int, h: int, w: int, k: int)
    requires
        0 <= y < h,
        0 <= x < w,
        0 <= k < 4,
    ensures
        0 <= y * w + x < h * w,
        0 <= byte_at(y, x, w, k) < h * w * 4,
{
    assert(0 <= y * w + x < h * w) by (nonlinear_arith)
        requires
            0 <= y < h,
            0 <= x < w,
    ;
}

/// An image has a side of zero.
pub fn check_image_size(width: usize, height: usize) -> (r: Result<(), WorkerError>)
    ensures
        match r {
            Ok(_) => width >= 1 && height >= 1,
            Err(e) => e == WorkerError::ZeroDimension && (width == 0 || height == 0),
        },
{
    if width == 0 || height == 0 {
        Err(WorkerError::ZeroDimension)
    } else {
        Ok(())
    }
}

/// A mask has the size of its image.
pub fn check_mask_size(width: usize, height: usize, mask_width: usize, mask_height: usize) -> (r:
    Result<(), WorkerError>)
    ensures
        match r {
            Ok(_) => mask_width == width && mask_height == height,
            Err(e) => (mask_width != width || mask_height != height) && e
                == (WorkerError::DimensionsDiffer { width, height, mask_width, mask_height }),
        },
{
    if mask_width != width || mask_height != height {
        Err(WorkerError::DimensionsDiffer { width, height, mask_width, mask_height })
    } else {
        Ok(())
    }
}

/// The buffer length that `h * w` pixels of `bytes` bytes take, `None` where it
/// passes `usize`.
fn buffer_len(h: usize, w: usize, bytes: usize) -> (r: Option<usize>)
    requires
        bytes >= 1,
    ensures
        match r {
            Some(n) => n == h * w * bytes,
            None => h * w * bytes > usize::MAX,
        },
{
    assert(h * w <= h * w * bytes) by (nonlinear_arith)
        requires
            bytes >= 1,
    ;
    match h.checked_mul(w) {
        Some(n) => n.checked_mul(bytes),
        None => None,
    }
}

/// `g` is the colour of `h * w` pixels of four bytes each, every byte through
/// `unit`.
pub open spec fn is_decoded<N: Fn(u8) -> u32>(
    unit: N,
    rgba: Seq<u8>,
    h: nat,
    w: nat,
    g: ImageGrid,
) -> bool {
    &&& image_shape(g) == (h, w, 3nat)
    &&& forall|y: usize, x: usize, c: usize|
        y < h && x < w && c < 3 ==> call_ensures(
            unit,
            (rgba[byte_at(y as int, x as int, w as int, c as int)],),
            #[trigger] g.at(y as int, x as int, c as int),
        )
}

/// The colour of an image of four bytes per pixel, every byte through `unit`; the
/// fourth byte stays behind.
pub fn rgba_to_hwc<N: Fn(u8) -> u32>(rgba: &Vec<u8>, width: usize, height: usize, unit: &N) -> (r:
    Result<ImageGrid, WorkerError>)
    requires
        forall|b: u8| #[trigger] call_requires(*unit, (b,)),
    ensures
        match r {
            Ok(g) => rgba@.len() == height * width * 4 && is_decoded(
                *unit,
                rgba@,
                height as nat,
                width as nat,
                g,
            ),
            Err(e) => if rgba@.len() != height * width * 4 {
                e == WorkerError::BufferLength
            } else {
                e == WorkerError::TooLarge && !fits(height as nat, width as nat, 3, 4)
            },
        },
{
    let len: usize = rgba.len();
    match buffer_len(height, width, 4) {
        Some(n) => if n != len {
            return Err(WorkerError::BufferLength);
        },
        None => {
            return Err(WorkerError::BufferLength);
        },
    }
    if !shape_fits(height, width, 3, 4) {
        return Err(WorkerError::TooLarge);
    }
    let g = ImageGrid::build(
        height,
        width,
        3,
        |y: usize, x: usize, c: usize| -> (v: u32)
            requires
                height > y && width > x && 3 > c,
            ensures
                call_ensures(
                    *unit,
                    (rgba@[byte_at(y as int, x as int, width as int, c as int)],),
                    v,
                )
            {
                proof {
                    lemma_byte_at(y as int, x as int, height as int, width as int, c as int);
                    assert(y * width >= 0) by (nonlinear_arith);
                }
                unit(rgba[(y * width + x) * 4 + c])
            },
    );
    Ok(g)
}

/// `g` is the mask of `h * w` bytes: the pixels above the threshold.
pub open spec fn is_thresholded(luma: Seq<u8>, h: nat, w: nat, g: MaskGrid) -> bool {
    &&& mask_shape(g) == (h, w)
    &&& forall|y: usize, x: usize|
        y < h && x < w ==> #[trigger] g.at(y as int, x as int) == (luma[y * w + x]
            > MASK_THRESHOLD)
}

/// The mask of an image of one byte per pixel: the pixels above the threshold.
pub fn luma_to_mask(luma: &Vec<u8>, width: usize, height: usize) -> (r: Result<
    MaskGrid,
    WorkerError,
>)
    ensures
        match r {
            Ok(g) => luma@.len() == height * width * 1 && is_thresholded(
                luma@,
                height as nat,
                width as nat,
                g,
            ),
            Err(e) => if luma@.len() != height * width * 1 {
                e == WorkerError::BufferLength
            } else {
                e == WorkerError::TooLarge && !fits(height as nat, width as nat, 1, 1)
            },
        },
{
    let len: usize = luma.len();
    match buffer_len(height, width, 1) {
        Some(n) => if n != len {
            return Err(WorkerError::BufferLength);
        },
        None => {
            return Err(WorkerError::BufferLength);
        },
    }
    if !shape_fits(height, width, 1, 1) {
        return Err(WorkerError::TooLarge);
    }
    let g = MaskGrid::build(
        height,
        width,
        |y: usize, x: usize| -> (v: bool)
            requires
                height > y && width > x,
            ensures
                v == (luma@[y * width + x] > MASK_THRESHOLD)
            {
                proof {
                    lemma_byte_at(y as int, x as int, height as int, width as int, 0);
                    assert(y * width >= 0) by (nonlinear_arith);
                }
                luma[y * width + x] > MASK_THRESHOLD
            },
    );
    Ok(g)
}

/// Byte `k` of the pixel at `(y, x)` of the written image: the colour through
/// `quantize`, and the fourth byte as it came.
pub open spec fn composes_byte<Q: Fn(u32) -> u8>(
    quantize: Q,
    g: ImageGrid,
    rgba: Seq<u8>,
    y: int,
    x: int,
    k: int,
    v: u8,
) -> bool {
    if k < 3 {
        call_ensures(quantize, (g.at(y, x, k),), v)
    } else {
        v == rgba[byte_at(y, x, g.w() as int, 3)]
    }
}

/// `out` is the image to write: the colour of `g` through `quantize` with the
/// fourth bytes of `rgba`.
pub open spec fn is_composed<Q: Fn(u32) -> u8>(
    quantize: Q,
    g: ImageGrid,
    rgba: Seq<u8>,
    out: Seq<u8>,
) -> bool {
    &&& out.len() == rgba.len()
    &&& out.len() == g.h() * g.w() * 4
    &&& forall|y: int, x: int, k: int|
        0 <= y < g.h() && 0 <= x < g.w() && 0 <= k < 4 ==> composes_byte(
            quantize,
            g,
            rgba,
            y,
            x,
            k,
            #[trigger] out[byte_at(y, x, g.w() as int, k)],
        )
}

/// A byte of the image to write is in its place, by its position alone.
spec fn placed<Q: Fn(u32) -> u8>(
    quantize: Q,
    g: ImageGrid,
    rgba: Seq<u8>,
    out: Seq<u8>,
    p: int,
) -> bool {
    let w = g.w() as int;
    composes_byte(quantize, g, rgba, p / 4 / w, (p / 4) % w, p % 4, out[p])
}

/// The row, column and byte of a position.
proof fn lemma_byte_position(y: int, x: int, w: int, k: int)
    requires
        0 <= x < w,
        0 <= k < 4,
    ensures
        byte_at(y, x, w, k) / 4 / w == y,
        (byte_at(y, x, w, k) / 4) % w == x,
        byte_at(y, x, w, k) % 4 == k,
{
    assert(byte_at(y, x, w, k) / 4 == y * w + x);
    vstd::arithmetic::div_mod::lemma_fundamental_div_mod_converse(y * w + x, w, y, x);
}

/// The image to write: the result's colour through `quantize`, with the fourth
/// byte of every pixel as it came.
pub fn compose_rgba<Q: Fn(u32) -> u8>(result: &ImageGrid, rgba: &Vec<u8>, quantize: &Q) -> (r:
    Result<Vec<u8>, WorkerError>)
    requires
        result.c() == 3,
        forall|v: u32| #[trigger] call_requires(*quantize, (v,)),
    ensures
        match r {
            Ok(out) => is_composed(*quantize, *result, rgba@, out@),
            Err(e) => e == WorkerError::BufferLength && rgba@.len() != result.h() * result.w() * 4,
        },
{
    let (h, w, _) = result.dim();
    let len: usize = rgba.len();
    match buffer_len(h, w, 4) {
        Some(n) => if n != len {
            return Err(WorkerError::BufferLength);
        },
        None => {
            return Err(WorkerError::BufferLength);
        },
    }
    let mut out: Vec<u8> = Vec::new();
    let mut y: usize = 0;
    assert(0 * w * 4 == 0);
    while y < h
        invariant
            y <= h,
            len == rgba@.len(),
            len == h * w * 4,
            image_shape(*result) == (h as nat, w as nat, 3nat),
            forall|v: u32| #[trigger] call_requires(*quantize, (v,)),
            out@.len() == y * w * 4,
            forall|p: int| 0 <= p < out@.len() ==> #[trigger] placed(*quantize, *result, rgba@, out@, p),
        decreases h - y,
    {
        let mut x: usize = 0;
        while x < w
            invariant
                y < h,
                x <= w,
                len == rgba@.len(),
                len == h * w * 4,
                image_shape(*result) == (h as nat, w as nat, 3nat),
                forall|v: u32| #[trigger] call_requires(*quantize, (v,)),
                out@.len() == (y * w + x) * 4,
                forall|p: int|
                    0 <= p < out@.len() ==> #[trigger] placed(*quantize, *result, rgba@, out@, p),
            decreases w - x,
        {
            let ghost before = out@;
            proof {
                lemma_byte_at(y as int, x as int, h as int, w as int, 3);
                assert(y * w >= 0) by (nonlinear_arith);
                lemma_byte_position(y as int, x as int, w as int, 0);
                lemma_byte_position(y as int, x as int, w as int, 1);
                lemma_byte_position(y as int, x as int, w as int, 2);
                lemma_byte_position(y as int, x as int, w as int, 3);
            }
            out.push(quantize(result.cell(y, x, 0)));
            out.push(quantize(result.cell(y, x, 1)));
            out.push(quantize(result.cell(y, x, 2)));
            out.push(rgba[(y * w + x) * 4 + 3]);
            assert forall|p: int| 0 <= p < out@.len() implies #[trigger] placed(
                *quantize,
                *result,
                rgba@,
                out@,
                p,
            ) by {
                if p < before.len() {
                    assert(placed(*quantize, *result, rgba@, before, p));
                    assert(out@[p] == before[p]);
                } else {
                    let k = p - before.len();
                    assert(p == byte_at(y as int, x as int, w as int, k));
                }
            }
            x = x + 1;
        }
        assert((y * w + w) * 4 == (y + 1) * w * 4) by (nonlinear_arith);
        y = y + 1;
    }
    assert forall|a: int, b: int, k: int|
        0 <= a < h && 0 <= b < w && 0 <= k < 4 implies composes_byte(
        *quantize,
        *result,
        rgba@,
        a,
        b,
        k,
        #[trigger] out@[byte_at(a, b, w as int, k)],
    ) by {
        lemma_byte_at(a, b, h as int, w as int, k);
        lemma_byte_position(a, b, w as int, k);
        assert(placed(*quantize, *result, rgba@, out@, byte_at(a, b, w as int, k)));
    }
    Ok(out)
}

/// What is wrong with a path that the worker was given.
#[derive(Clone, Copy, PartialEq, Eq, Structural, Debug)]
pub enum PathFault {
    /// An input is not there.
    NotFound,
    /// An input is something else than a file.
    NotAFile,
    /// The directory of the output is not there.
    NoDirectory,
    /// The output is a directory.
    IsDirectory,
}

/// An input must be there, and be a file.
pub fn check_input_path(found: bool, is_file: bool) -> (r: Result<(), PathFault>)
    ensures
        r == if !found {
            Err::<(), PathFault>(PathFault::NotFound)
        } else if !is_file {
            Err(PathFault::NotAFile)
        } else {
            Ok(())
        },
{
    if !found {
        Err(PathFault::NotFound)
    } else if !is_file {
        Err(PathFault::NotAFile)
    } else {
        Ok(())
    }
}

/// An output must lie in a directory, where its path names one, and must not be
/// a directory itself.
pub fn check_output_path(names_parent: bool, parent_is_dir: bool, is_dir: bool) -> (r: Result<
    (),
    PathFault,
>)
    ensures
        r == if names_parent && !parent_is_dir {
            Err::<(), PathFault>(PathFault::NoDirectory)
        } else if is_dir {
            Err(PathFault::IsDirectory)
        } else {
            Ok(())
        },
{
    if names_parent && !parent_is_dir {
        Err(PathFault::NoDirectory)
    } else if is_dir {
        Err(PathFault::IsDirectory)
    } else {
        Ok(())
    }
}

/// What a session runs on.
#[derive(Clone, Copy, PartialEq, Eq, Structural, Debug)]
pub enum Provider {
    Cuda,
    DirectMl,
    Cpu,
}

/// The providers that a session is tried with, in their order: the one that is
/// forced, or DirectML, and then the CPU.
pub open spec fn providers(force_cpu: Option<Seq<char>>, forced: Option<Seq<char>>) -> Seq<Provider> {
    if force_cpu == Some("1"@) || forced == Some("cpu"@) {
        seq![Provider::Cpu]
    } else if forced == Some("cuda"@) {
        seq![Provider::Cuda, Provider::Cpu]
    } else {
        seq![Provider::DirectMl, Provider::Cpu]
    }
}

/// The text of an optional string.
pub open spec fn option_text(s: Option<String>) -> Option<Seq<char>> {
    match s {
        Some(t) => Some(t@),
        None => None,
    }
}

/// Decides whether an optional string is there and is `text`.
fn is_text(s: &Option<String>, text: &str) -> (r: bool)
    ensures
        r == (option_text(*s) == Some(text@)),
{
    match s {
        Some(t) => {
            let name = String::from_str(text);
            *t == name
        },
        None => false,
    }
}

/// The providers that a session is tried with, for what `LAMA_FORCE_CPU` and
/// `LAMA_FORCE_PROVIDER` are set to.
pub fn provider_order(force_cpu: &Option<String>, forced: &Option<String>) -> (r: Vec<Provider>)
    ensures
        r@ == providers(option_text(*force_cpu), option_text(*forced)),
{
    let order = if is_text(force_cpu, "1") || is_text(forced, "cpu") {
        vec![Provider::Cpu]
    } else if is_text(forced, "cuda") {
        vec![Provider::Cuda, Provider::Cpu]
    } else {
        vec![Provider::DirectMl, Provider::Cpu]
    };
    assert(order@ =~= providers(option_text(*force_cpu), option_text(*forced)));
    order
}

/// A model with this file name extension is run by the generator; any other is
/// run by a session.
pub fn uses_generator(extension: &Option<String>) -> (r: bool)
    ensures
        r == (extension matches Some(e) && e@ == "safetensors"@),
{
    is_text(extension, "safetensors")
}

} // verus!
