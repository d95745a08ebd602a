//! Resizing of grids. Which source line an output line reads and how samples
//! blend are float computations, supplied by the caller as scalar functions;
//! which samples are read and where they go is decided here.

use vstd::prelude::*;

use crate::grid::{fits, image_shape, lemma_fits_axes, mask_shape, ImageGrid, MaskGrid};

verus! {

/// The scalar float computations of a resize, over bit patterns of 32-bit
/// floats.
///
/// - `source(i, len, new_len)`: the integer part of `i * (len / new_len)`.
/// - `weight(i, len, new_len, first)`: the distance of `i * (len / new_len)`
///   past the line `first`, limited to `0..=1`.
/// - `blend(v00, v01, v10, v11, wx, wy)`: the four taps weighted by columns
///   and then by rows.
pub struct Sampler<
    S: Fn(usize, usize, usize) -> i64,
    W: Fn(usize, usize, usize, usize) -> u32,
    B: Fn(u32, u32, u32, u32, u32, u32) -> u32,
> {
    pub source: S,
    pub weight: W,
    pub blend: B,
}

impl<
    S: Fn(usize, usize, usize) -> i64,
    W: Fn(usize, usize, usize, usize) -> u32,
    B: Fn(u32, u32, u32, u32, u32, u32) -> u32,
> Sampler<S, W, B> {
    /// The three functions accept every argument.
    pub open spec fn total(self) -> bool {
        &&& forall|i: usize, len: usize, new_len: usize| #[trigger]
            call_requires(self.source, (i, len, new_len))
        &&& forall|i: usize, len: usize, new_len: usize, first: usize| #[trigger]
            call_requires(self.weight, (i, len, new_len, first))
        &&& forall|a: u32, b: u32, c: u32, d: u32, wx: u32, wy: u32| #[trigger]
            call_requires(self.blend, (a, b, c, d, wx, wy))
    }

    /// Output line `i` of `new_len` may start from source line `first` of `len`.
    pub open spec fn starts_at(self, i: usize, len: usize, new_len: usize, first: usize) -> bool {
        exists|raw: i64|
            #![trigger call_ensures(self.source, (i, len, new_len), raw)]
            call_ensures(self.source, (i, len, new_len), raw) && first == limited(
                raw as int,
                len as int,
            )
    }

    /// `v` is a four-tap blend of channel `c`: the row and column of `from` and
    /// the ones after them, under the row and column weights.
    pub open spec fn blends(
        self,
        src: ImageGrid,
        from: (usize, usize),
        weights: (u32, u32),
        c: usize,
        v: u32,
    ) -> bool {
        let (y0, x0) = from;
        let y1 = following(y0 as int, src.h() as int);
        let x1 = following(x0 as int, src.w() as int);
        call_ensures(
            self.blend,
            (
                src.at(y0 as int, x0 as int, c as int),
                src.at(y0 as int, x1, c as int),
                src.at(y1, x0 as int, c as int),
                src.at(y1, x1, c as int),
                weights.1,
                weights.0,
            ),
            v,
        )
    }

    /// `v` is a bilinear sample of `src` for index `at` (row, column, channel)
    /// of a grid of size `size`, from the lines and weights given.
    pub open spec fn bilinear_from(
        self,
        src: ImageGrid,
        size: (usize, usize),
        at: (usize, usize, usize),
        from: (usize, usize),
        weights: (u32, u32),
        v: u32,
    ) -> bool {
        let h = src.h() as usize;
        let w = src.w() as usize;
        &&& self.starts_at(at.0, h, size.0, from.0)
        &&& self.starts_at(at.1, w, size.1, from.1)
        &&& call_ensures(self.weight, (at.0, h, size.0, from.0), weights.0)
        &&& call_ensures(self.weight, (at.1, w, size.1, from.1), weights.1)
        &&& self.blends(src, from, weights, at.2, v)
    }

    /// `v` is a bilinear sample of `src` for index `at` of a grid of size `size`.
    pub open spec fn bilinear(
        self,
        src: ImageGrid,
        size: (usize, usize),
        at: (usize, usize, usize),
        v: u32,
    ) -> bool {
        exists|from: (usize, usize), weights: (u32, u32)| #[trigger]
            self.bilinear_from(src, size, at, from, weights, v)
    }

    /// `v` is the flag of `src` that index `at` of a mask of size `size` reads,
    /// from the row and column of `from`.
    pub open spec fn nearest_from(
        self,
        src: MaskGrid,
        size: (usize, usize),
        at: (usize, usize),
        from: (usize, usize),
        v: bool,
    ) -> bool {
        &&& self.starts_at(at.0, src.h() as usize, size.0, from.0)
        &&& self.starts_at(at.1, src.w() as usize, size.1, from.1)
        &&& v == src.at(from.0 as int, from.1 as int)
    }

    /// `v` is the flag of `src` that index `at` of a mask of size `size` reads.
    pub open spec fn nearest(
        self,
        src: MaskGrid,
        size: (usize, usize),
        at: (usize, usize),
        v: bool,
    ) -> bool {
        exists|from: (usize, usize)| #[trigger] self.nearest_from(src, size, at, from, v)
    }

    /// `out` is `src` resized to `new_h` rows and `new_w` columns: a copy when
    /// that is its size, bilinear samples otherwise.
    pub open spec fn resizes_image(
        self,
        src: ImageGrid,
        new_h: usize,
        new_w: usize,
        out: ImageGrid,
    ) -> bool {
        &&& image_shape(out) == (new_h as nat, new_w as nat, src.c())
        &&& if src.h() == new_h && src.w() == new_w {
            out.same_as(src)
        } else {
            forall|y: usize, x: usize, c: usize|
                y < new_h && x < new_w && c < src.c() ==> self.bilinear(
                    src,
                    (new_h, new_w),
                    (y, x, c),
                    #[trigger] out.at(y as int, x as int, c as int),
                )
        }
    }

    /// `out` is `src` resized to `new_h` rows and `new_w` columns: a copy when
    /// that is its size, nearest flags otherwise.
    pub open spec fn resizes_mask(
        self,
        src: MaskGrid,
        new_h: usize,
        new_w: usize,
        out: MaskGrid,
    ) -> bool {
        &&& mask_shape(out) == (new_h as nat, new_w as nat)
        &&& if src.h() == new_h && src.w() == new_w {
            out.same_as(src)
        } else {
            forall|y: usize, x: usize|
                y < new_h && x < new_w ==> self.nearest(
                    src,
                    (new_h, new_w),
                    (y, x),
                    #[trigger] out.at(y as int, x as int),
                )
        }
    }

    /// The line an output line starts from, limited to the lines there are.
    pub fn line(&self, i: usize, len: usize, new_len: usize) -> (r: usize)
        requires
            self.total(),
            1 <= len <= isize::MAX,
        ensures
            r < len,
            self.starts_at(i, len, new_len, r),
    {
        let raw: i64 = (self.source)(i, len, new_len);
        if raw < 0 {
            0
        } else if raw as u64 >= len as u64 {
            len - 1
        } else {
            raw as usize
        }
    }
}

/// A grid of `h` rows and `w` columns has samples to resize from: a side that
/// is read is not empty.
pub open spec fn resizable(h: nat, w: nat, new_h: nat, new_w: nat) -> bool {
    ||| h == new_h && w == new_w
    ||| new_h == 0
    ||| h >= 1 && (w >= 1 || new_w == 0)
}

/// The line after `i`, or `i` itself where it is the last.
pub open spec fn following(i: int, len: int) -> int {
    if i + 1 < len {
        i + 1
    } else {
        len - 1
    }
}

/// `raw` limited to `0..len`.
pub open spec fn limited(raw: int, len: int) -> int {
    if raw < 0 {
        0
    } else if raw >= len {
        len - 1
    } else {
        raw
    }
}

/// Bilinear resize of an image to `new_h` rows and `new_w` columns.
pub fn resize_bilinear_hwc<
    S: Fn(usize, usize, usize) -> i64,
    W: Fn(usize, usize, usize, usize) -> u32,
    B: Fn(u32, u32, u32, u32, u32, u32) -> u32,
>(src: &ImageGrid, new_h: usize, new_w: usize, sampler: &Sampler<S, W, B>) -> (out: ImageGrid)
    requires
        sampler.total(),
        fits(new_h as nat, new_w as nat, src.c(), 4),
        resizable(src.h(), src.w(), new_h as nat, new_w as nat),
    ensures
        sampler.resizes_image(*src, new_h, new_w, out),
{
    let (h, w, c) = src.dim();
    if h == new_h && w == new_w {
        return src.copy();
    }
    proof {
        lemma_fits_axes(h as nat, w as nat, c as nat, 4);
    }
    let out = ImageGrid::build(
        new_h,
        new_w,
        c,
        |ny: usize, nx: usize, ch: usize| -> (v: u32)
            requires
                new_h > ny && new_w > nx && c > ch,
            ensures
                sampler.bilinear(*src, (new_h, new_w), (ny, nx, ch), v)
            {
                let y0: usize = sampler.line(ny, h, new_h);
                let x0: usize = sampler.line(nx, w, new_w);
                let y1: usize = if y0 < h - 1 {
                    y0 + 1
                } else {
                    h - 1
                };
                let x1: usize = if x0 < w - 1 {
                    x0 + 1
                } else {
                    w - 1
                };
                let wy: u32 = (sampler.weight)(ny, h, new_h, y0);
                let wx: u32 = (sampler.weight)(nx, w, new_w, x0);
                let v: u32 = (sampler.blend)(
                    src.cell(y0, x0, ch),
                    src.cell(y0, x1, ch),
                    src.cell(y1, x0, ch),
                    src.cell(y1, x1, ch),
                    wx,
                    wy,
                );
                assert(sampler.bilinear_from(
                    *src,
                    (new_h, new_w),
                    (ny, nx, ch),
                    (y0, x0),
                    (wy, wx),
                    v,
                ));
                v
            },
    );
    out
}

/// Nearest-neighbour resize of a mask to `new_h` rows and `new_w` columns.
pub fn resize_nearest_hw<
    S: Fn(usize, usize, usize) -> i64,
    W: Fn(usize, usize, usize, usize) -> u32,
    B: Fn(u32, u32, u32, u32, u32, u32) -> u32,
>(src: &MaskGrid, new_h: usize, new_w: usize, sampler: &Sampler<S, W, B>) -> (out: MaskGrid)
    requires
        sampler.total(),
        fits(new_h as nat, new_w as nat, 1, 1),
        resizable(src.h(), src.w(), new_h as nat, new_w as nat),
    ensures
        sampler.resizes_mask(*src, new_h, new_w, out),
{
    let (h, w) = src.dim();
    if h == new_h && w == new_w {
        return src.copy();
    }
    proof {
        lemma_fits_axes(h as nat, w as nat, 1, 1);
    }
    let out = MaskGrid::build(
        new_h,
        new_w,
        |ny: usize, nx: usize| -> (v: bool)
            requires
                new_h > ny && new_w > nx,
            ensures
                sampler.nearest(*src, (new_h, new_w), (ny, nx), v)
            {
                let oy: usize = sampler.line(ny, h, new_h);
                let ox: usize = sampler.line(nx, w, new_w);
                let v: bool = src.cell(oy, ox);
                assert(sampler.nearest_from(*src, (new_h, new_w), (ny, nx), (oy, ox), v));
                v
            },
    );
    out
}

} // verus!
