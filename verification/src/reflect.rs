//! Reflection across the border of a grid, without repeating the border.

use vstd::prelude::*;

use crate::grid::{fits, image_shape, lemma_fits_axes, mask_shape, ImageGrid, MaskGrid};

verus! {

/// The index in `0..size` that position `i` of the endless reflection of a line
/// of `size` items shows: `.. 2 1 0 1 2 .. size-1 .. 2 1 0 1 ..`.
pub open spec fn mirror(i: int, size: int) -> int {
    if size <= 1 {
        0
    } else {
        let period = 2 * (size - 1);
        let m = i % period;
        if m < size {
            m
        } else {
            period - m
        }
    }
}

/// The reflected index stays on the line.
pub proof fn lemma_mirror_range(i: int, size: int)
    ensures
        size >= 1 ==> 0 <= mirror(i, size) < size,
        size < 1 ==> mirror(i, size) == 0,
{
}

/// The index that position `i` of the reflection of a line of `size` items
/// shows; 0 for a line of at most one item.
pub fn reflect_index(i: i64, size: i64) -> (r: i64)
    ensures
        r == mirror(i as int, size as int),
{
    if size <= 1 {
        return 0;
    }
    let period: i128 = 2 * (size as i128 - 1);
    match (i as i128).checked_rem_euclid(period) {
        Some(m) => if m < size as i128 {
            m as i64
        } else {
            (period - m) as i64
        },
        None => 0,
    }
}

/// The sample that the endless reflection of `g` shows at `(y, x)`.
pub open spec fn image_reflected(g: ImageGrid, y: int, x: int, c: usize) -> u32 {
    g.at(mirror(y, g.h() as int), mirror(x, g.w() as int), c as int)
}

/// The flag that the endless reflection of `g` shows at `(y, x)`.
pub open spec fn mask_reflected(g: MaskGrid, y: int, x: int) -> bool {
    g.at(mirror(y, g.h() as int), mirror(x, g.w() as int))
}

/// `g` padded by reflection: the index `(y, x)` of the result shows the
/// position `(y - top, x - left)` of the endless reflection of `g`.
pub open spec fn is_padded_image(
    out: ImageGrid,
    g: ImageGrid,
    top: int,
    left: int,
    bottom: int,
    right: int,
) -> bool {
    &&& image_shape(out) == ((g.h() + top + bottom) as nat, (g.w() + left + right) as nat, g.c())
    &&& forall|y: int, x: int, c: int|
        out.holds(y, x, c) ==> #[trigger] out.at(y, x, c) == g.at(
            mirror(y - top, g.h() as int),
            mirror(x - left, g.w() as int),
            c,
        )
}

/// The same for a mask.
pub open spec fn is_padded_mask(
    out: MaskGrid,
    g: MaskGrid,
    top: int,
    left: int,
    bottom: int,
    right: int,
) -> bool {
    &&& mask_shape(out) == ((g.h() + top + bottom) as nat, (g.w() + left + right) as nat)
    &&& forall|y: int, x: int|
        out.holds(y, x) ==> #[trigger] out.at(y, x) == g.at(
            mirror(y - top, g.h() as int),
            mirror(x - left, g.w() as int),
        )
}

/// Reflect-pads a mask by the given margins.
pub fn reflect_pad_2d(
    arr: &MaskGrid,
    pad_top: usize,
    pad_left: usize,
    pad_bottom: usize,
    pad_right: usize,
) -> (out: MaskGrid)
    requires
        fits((arr.h() + pad_top + pad_bottom) as nat, (arr.w() + pad_left + pad_right) as nat, 1, 1),
        arr.h() >= 1 || pad_top + pad_bottom == 0 || arr.w() + pad_left + pad_right == 0,
        arr.w() >= 1 || pad_left + pad_right == 0 || arr.h() + pad_top + pad_bottom == 0,
    ensures
        is_padded_mask(
            out,
            *arr,
            pad_top as int,
            pad_left as int,
            pad_bottom as int,
            pad_right as int,
        ),
{
    let (h, w) = arr.dim();
    proof {
        lemma_fits_axes(
            (h + pad_top + pad_bottom) as nat,
            (w + pad_left + pad_right) as nat,
            1,
            1,
        );
    }
    let new_h: usize = h + pad_top + pad_bottom;
    let new_w: usize = w + pad_left + pad_right;
    let out = MaskGrid::build(
        new_h,
        new_w,
        |ny: usize, nx: usize| -> (v: bool)
            requires
                new_h > ny && new_w > nx,
            ensures
                v == mask_reflected(*arr, ny - pad_top, nx - pad_left)
            {
                proof {
                    lemma_mirror_range(ny - pad_top, h as int);
                    lemma_mirror_range(nx - pad_left, w as int);
                }
                let oy: i64 = reflect_index(ny as i64 - pad_top as i64, h as i64);
                let ox: i64 = reflect_index(nx as i64 - pad_left as i64, w as i64);
                arr.cell(oy as usize, ox as usize)
            },
    );
    out
}

/// Reflect-pads the rows and columns of an image by the given margins.
pub fn reflect_pad_3d(
    arr: &ImageGrid,
    pad_top: usize,
    pad_left: usize,
    pad_bottom: usize,
    pad_right: usize,
) -> (out: ImageGrid)
    requires
        fits(
            (arr.h() + pad_top + pad_bottom) as nat,
            (arr.w() + pad_left + pad_right) as nat,
            arr.c(),
            4,
        ),
        arr.h() >= 1 || pad_top + pad_bottom == 0 || arr.w() + pad_left + pad_right == 0 || arr.c()
            == 0,
        arr.w() >= 1 || pad_left + pad_right == 0 || arr.h() + pad_top + pad_bottom == 0 || arr.c()
            == 0,
    ensures
        is_padded_image(
            out,
            *arr,
            pad_top as int,
            pad_left as int,
            pad_bottom as int,
            pad_right as int,
        ),
{
    let (h, w, c) = arr.dim();
    proof {
        lemma_fits_axes(
            (h + pad_top + pad_bottom) as nat,
            (w + pad_left + pad_right) as nat,
            c as nat,
            4,
        );
    }
    let new_h: usize = h + pad_top + pad_bottom;
    let new_w: usize = w + pad_left + pad_right;
    let out = ImageGrid::build(
        new_h,
        new_w,
        c,
        |ny: usize, nx: usize, ch: usize| -> (v: u32)
            requires
                new_h > ny && new_w > nx && c > ch,
            ensures
                v == image_reflected(*arr, ny - pad_top, nx - pad_left, ch)
            {
                proof {
                    lemma_mirror_range(ny - pad_top, h as int);
                    lemma_mirror_range(nx - pad_left, w as int);
                }
                let oy: i64 = reflect_index(ny as i64 - pad_top as i64, h as i64);
                let ox: i64 = reflect_index(nx as i64 - pad_left as i64, w as i64);
                arr.cell(oy as usize, ox as usize, ch)
            },
    );
    out
}

} // verus!
