//! Laws of the calls on pictures: what a call's result is, for every input it takes.

use vstd::prelude::*;

use crate::error::WorkerError;
use crate::grid::{image_shape, mask_shape, ImageGrid, MaskGrid};
use crate::grid_laws::{
    law_mask_padding_reflects, law_mask_resize_reads_in_proportion, law_padding_reflects,
    law_resize_blends_four_neighbours, law_resize_commutes_with_exchange,
    law_resize_of_columns_ignores_heights, law_resize_reads_in_proportion, lemma_proportion,
    proportional,
};
use crate::laws::{
    law_mirror_far_border, law_mirror_is_even, law_mirror_is_periodic,
    law_mirror_keeps_inner_positions,
};
use crate::layout::{hwc_to_planar, mask_to_planar, output_to_hwc};
use crate::native::{bring_back, bring_in, plan_region, PadPlan};
use crate::picture_laws::{
    law_bright_pixels_are_selected, law_colours_are_the_first_three_bytes,
    law_cutting_undoes_padding, law_margins_are_cut_in_place, law_mask_plane_is_one_or_zero,
    law_pixels_are_written_in_place, law_plan_centres_its_region, law_planes_are_read_in_place,
    law_planes_follow_one_another, law_selection_is_the_tightest_box, law_window_shows_the_image,
    law_window_shows_the_mask, stands_within,
};
use crate::reflect::{reflect_index, reflect_pad_2d, reflect_pad_3d};
use crate::resize::{resize_bilinear_hwc, resize_nearest_hw, Sampler};
use crate::roi::{check_roi_fits, crop_with_reflect_pad, selected, selection, PasteBox, Selection};
use crate::worker::{
    check_image_size, check_input_path, check_mask_size, check_output_path, compose_rgba,
    luma_to_mask, provider_order, rgba_to_hwc, uses_generator, PathFault, Provider,
};

verus! {

/// An image is accepted exactly where it has a pixel.
pub proof fn law_images_have_a_pixel(w: usize, h: usize, r: Result<(), WorkerError>)
    requires
        call_ensures(check_image_size, (w, h), r),
    ensures
        r is Ok <==> w >= 1 && h >= 1,
        r is Err ==> r->Err_0 == WorkerError::ZeroDimension,
{
}

/// A mask is accepted exactly where it has the size of the image.
pub proof fn law_masks_have_the_image_s_size(
    w: usize,
    h: usize,
    mw: usize,
    mh: usize,
    r: Result<(), WorkerError>,
)
    requires
        call_ensures(check_mask_size, (w, h, mw, mh), r),
    ensures
        r is Ok <==> w == mw && h == mh,
        r is Err ==> r->Err_0 == (WorkerError::DimensionsDiffer {
            width: w,
            height: h,
            mask_width: mw,
            mask_height: mh,
        }),
{
}

/// An input is taken exactly where it is a file; an output where it is no directory and
/// the directory that it names is there.
pub proof fn law_paths_name_files(
    a: bool,
    b: bool,
    c: bool,
    d: bool,
    e: bool,
    i: Result<(), PathFault>,
    o: Result<(), PathFault>,
)
    requires
        call_ensures(check_input_path, (a, b), i),
        call_ensures(check_output_path, (c, d, e), o),
    ensures
        i is Ok <==> a && b,
        i is Err ==> (i->Err_0 is NotFound <==> !a) && (i->Err_0 is NotAFile <==> a),
        o is Ok <==> (c ==> d) && !e,
        o is Err ==> (o->Err_0 is NoDirectory <==> c && !d) && (o->Err_0 is IsDirectory <==> !(c
            && !d)),
{
}

/// The CPU is always the last to be tried, and the only one where it is asked for. The
/// graphics card is tried first under the name that was asked for, by default DirectML.
pub proof fn law_cpu_is_the_last_resort(
    force_cpu: Option<String>,
    forced: Option<String>,
    r: Vec<Provider>,
)
    requires
        call_ensures(provider_order, (&force_cpu, &forced), r),
    ensures
        1 <= r@.len() <= 2,
        r@.last() is Cpu,
        ({
            let asked = (force_cpu is Some && force_cpu->0@ == "1"@) || (forced is Some
                && forced->0@ == "cpu"@);
            &&& r@.len() == 1 <==> asked
            &&& !asked && forced is Some && forced->0@ == "cuda"@ ==> r@[0] is Cuda
            &&& !asked && !(forced is Some && forced->0@ == "cuda"@) ==> r@[0] is DirectMl
        }),
{
}

/// The generator runs weights in safetensors files, and nothing else.
pub proof fn law_generator_takes_safetensors(extension: Option<String>, r: bool)
    requires
        call_ensures(uses_generator, (&extension,), r),
    ensures
        r <==> extension is Some && extension->0@ == "safetensors"@,
{
}

/// A buffer of four bytes a pixel is read row by row, colour `c` of a pixel from its byte
/// `c`. A buffer of another length is refused.
pub proof fn law_pictures_are_read_row_by_row<N: Fn(u8) -> u32>(
    rgba: Vec<u8>,
    w: usize,
    h: usize,
    unit: N,
    r: Result<ImageGrid, WorkerError>,
    y: usize,
    x: usize,
    c: usize,
)
    requires
        call_ensures(rgba_to_hwc::<N>, (&rgba, w, h, &unit), r),
    ensures
        rgba@.len() != h * w * 4 ==> r == Err::<ImageGrid, WorkerError>(
            WorkerError::BufferLength,
        ),
        r is Ok ==> image_shape(r->Ok_0) == (h as nat, w as nat, 3nat),
        r is Ok && y < h && x < w && c < 3 ==> call_ensures(
            unit,
            (rgba@[4 * (y * w + x) + c],),
            r->Ok_0.at(y as int, x as int, c as int),
        ),
        r is Err && rgba@.len() == h * w * 4 ==> r->Err_0 == WorkerError::TooLarge
            && !crate::grid::fits(h as nat, w as nat, 3, 4),
{
    if r is Ok && y < h && x < w && c < 3 {
        law_colours_are_the_first_three_bytes(
            unit,
            rgba@,
            h as nat,
            w as nat,
            r->Ok_0,
            y,
            x,
            c,
        );
    }
}

/// A buffer of one byte a pixel is read row by row: 128 or more selects the pixel. A
/// buffer of another length is refused.
pub proof fn law_masks_are_read_row_by_row(
    luma: Vec<u8>,
    w: usize,
    h: usize,
    r: Result<MaskGrid, WorkerError>,
    y: usize,
    x: usize,
)
    requires
        call_ensures(luma_to_mask, (&luma, w, h), r),
    ensures
        luma@.len() != h * w ==> r == Err::<MaskGrid, WorkerError>(WorkerError::BufferLength),
        r is Ok ==> mask_shape(r->Ok_0) == (h as nat, w as nat),
        r is Ok && y < h && x < w ==> r->Ok_0.at(y as int, x as int) == (luma@[y * w + x] >= 128),
        r is Err && luma@.len() == h * w ==> r->Err_0 == WorkerError::TooLarge
            && !crate::grid::fits(h as nat, w as nat, 1, 1),
{
    if r is Ok && y < h && x < w {
        law_bright_pixels_are_selected(luma@, h as nat, w as nat, r->Ok_0, y, x);
    }
}

/// A picture is written over a buffer of its size: the colours from the picture, the
/// fourth byte of every pixel from the buffer.
pub proof fn law_pictures_are_written_row_by_row<Q: Fn(u32) -> u8>(
    g: ImageGrid,
    rgba: Vec<u8>,
    quantize: Q,
    r: Result<Vec<u8>, WorkerError>,
    y: int,
    x: int,
)
    requires
        call_ensures(compose_rgba::<Q>, (&g, &rgba, &quantize), r),
        0 <= y < g.h(),
        0 <= x < g.w(),
    ensures
        r is Ok <==> rgba@.len() == g.h() * g.w() * 4,
        r is Err ==> r->Err_0 == WorkerError::BufferLength,
        r is Ok ==> {
            let p = 4 * (y * g.w() + x);
            &&& r->Ok_0@.len() == rgba@.len()
            &&& call_ensures(quantize, (g.at(y, x, 0),), r->Ok_0@[p])
            &&& call_ensures(quantize, (g.at(y, x, 1),), r->Ok_0@[p + 1])
            &&& call_ensures(quantize, (g.at(y, x, 2),), r->Ok_0@[p + 2])
            &&& r->Ok_0@[p + 3] == rgba@[p + 3]
        },
{
    if r is Ok {
        law_pixels_are_written_in_place(quantize, g, rgba@, r->Ok_0@, y, x);
    }
}

/// A reflected index lies on the line. A position on the line is its own index, positions
/// as far before and after the first item have one index, so have those as far before and
/// after the last, and positions `2 * (size - 1)` apart.
pub proof fn law_reflected_indices_mirror(size: i64, i: i64, j: i64, p: i64, q: i64)
    requires
        call_ensures(reflect_index, (i, size), p),
        call_ensures(reflect_index, (j, size), q),
        size >= 1,
    ensures
        0 <= p < size,
        0 <= i < size ==> p == i,
        i + j == 0 ==> p == q,
        i + j == 2 * (size - 1) ==> p == q,
        i - j == 2 * (size - 1) ==> p == q,
{
    crate::reflect::lemma_mirror_range(i as int, size as int);
    if 0 <= i < size {
        law_mirror_keeps_inner_positions(i as int, size as int);
    }
    law_mirror_is_even(i as int, size as int);
    law_mirror_far_border(i - (size - 1), size as int);
    law_mirror_is_periodic(j as int, size as int);
}

/// A padded image has the image at its place; past each border it shows what lies as far
/// before it, and farther on it repeats.
pub proof fn law_image_padding_mirrors(
    g: ImageGrid,
    top: usize,
    left: usize,
    bottom: usize,
    right: usize,
    out: ImageGrid,
    y: int,
    x: int,
    c: int,
    k: int,
)
    requires
        call_ensures(reflect_pad_3d, (&g, top, left, bottom, right), out),
        g.h() >= 1,
        g.w() >= 1,
        0 <= c < g.c(),
    ensures
        image_shape(out) == (
            (top + g.h() + bottom) as nat,
            (left + g.w() + right) as nat,
            g.c(),
        ),
        0 <= y < g.h() && 0 <= x < g.w() ==> out.at(top + y, left + x, c) == g.at(y, x, c),
        out.holds(top - k, x, c) && out.holds(top + k, x, c) ==> out.at(top - k, x, c) == out.at(
            top + k,
            x,
            c,
        ),
        out.holds(y, left - k, c) && out.holds(y, left + k, c) ==> out.at(y, left - k, c)
            == out.at(y, left + k, c),
        ({
            let last = top + g.h() - 1;
            out.holds(last + k, x, c) && out.holds(last - k, x, c) ==> out.at(last + k, x, c)
                == out.at(last - k, x, c)
        }),
        ({
            let last = left + g.w() - 1;
            out.holds(y, last + k, c) && out.holds(y, last - k, c) ==> out.at(y, last + k, c)
                == out.at(y, last - k, c)
        }),
        ({
            let period = 2 * (g.h() - 1);
            out.holds(y, x, c) && out.holds(y + period, x, c) ==> out.at(y + period, x, c)
                == out.at(y, x, c)
        }),
        ({
            let period = 2 * (g.w() - 1);
            out.holds(y, x, c) && out.holds(y, x + period, c) ==> out.at(y, x + period, c)
                == out.at(y, x, c)
        }),
{
    law_padding_reflects(
        out,
        g,
        top as int,
        left as int,
        bottom as int,
        right as int,
        y,
        x,
        c,
        k,
    );
}

/// The same for a mask.
pub proof fn law_mask_padding_mirrors(
    g: MaskGrid,
    top: usize,
    left: usize,
    bottom: usize,
    right: usize,
    out: MaskGrid,
    y: int,
    x: int,
    k: int,
)
    requires
        call_ensures(reflect_pad_2d, (&g, top, left, bottom, right), out),
        g.h() >= 1,
        g.w() >= 1,
    ensures
        mask_shape(out) == ((top + g.h() + bottom) as nat, (left + g.w() + right) as nat),
        0 <= y < g.h() && 0 <= x < g.w() ==> out.at(top + y, left + x) == g.at(y, x),
        out.holds(top - k, x) && out.holds(top + k, x) ==> out.at(top - k, x) == out.at(top + k, x),
        out.holds(y, left - k) && out.holds(y, left + k) ==> out.at(y, left - k) == out.at(
            y,
            left + k,
        ),
        ({
            let last = top + g.h() - 1;
            out.holds(last + k, x) && out.holds(last - k, x) ==> out.at(last + k, x) == out.at(
                last - k,
                x,
            )
        }),
        ({
            let last = left + g.w() - 1;
            out.holds(y, last + k) && out.holds(y, last - k) ==> out.at(y, last + k) == out.at(
                y,
                last - k,
            )
        }),
        ({
            let period = 2 * (g.h() - 1);
            out.holds(y, x) && out.holds(y + period, x) ==> out.at(y + period, x) == out.at(y, x)
        }),
        ({
            let period = 2 * (g.w() - 1);
            out.holds(y, x) && out.holds(y, x + period) ==> out.at(y, x + period) == out.at(y, x)
        }),
{
    law_mask_padding_reflects(
        out,
        g,
        top as int,
        left as int,
        bottom as int,
        right as int,
        y,
        x,
        k,
    );
}

/// A resized image is blended sample by sample from four neighbours: for row `y` and
/// column `x` those at the row that the source function gives for `y`, the old and the new
/// height, and at the column that it gives for `x`, the old and the new width, limited to
/// the image, and the next ones.
pub proof fn law_resized_samples_blend_neighbours<
    S: Fn(usize, usize, usize) -> i64,
    W: Fn(usize, usize, usize, usize) -> u32,
    B: Fn(u32, u32, u32, u32, u32, u32) -> u32,
>(
    src: ImageGrid,
    h: usize,
    w: usize,
    new_h: usize,
    new_w: usize,
    sampler: Sampler<S, W, B>,
    out: ImageGrid,
    y: usize,
    x: usize,
    c: usize,
)
    requires
        call_ensures(resize_bilinear_hwc::<S, W, B>, (&src, new_h, new_w, &sampler), out),
        (src.h(), src.w()) == (h as nat, w as nat),
        h >= 1,
        w >= 1,
        y < new_h,
        x < new_w,
        c < src.c(),
    ensures
        image_shape(out) == (new_h as nat, new_w as nat, src.c()),
        h == new_h && w == new_w ==> out.at(y as int, x as int, c as int) == src.at(
            y as int,
            x as int,
            c as int,
        ),
        h != new_h || w != new_w ==> exists|
            ry: i64,
            rx: i64,
            r: usize,
            q: usize,
            wy: u32,
            wx: u32,
        |
            {
                let r1 = if r + 1 < h {
                    r + 1
                } else {
                    r as int
                };
                let q1 = if q + 1 < w {
                    q + 1
                } else {
                    q as int
                };
                &&& #[trigger] call_ensures(sampler.source, (y, h, new_h), ry)
                &&& #[trigger] call_ensures(sampler.source, (x, w, new_w), rx)
                &&& (ry < 0 ==> r == 0) && (ry >= h ==> r == h - 1) && (0 <= ry < h ==> r == ry)
                &&& (rx < 0 ==> q == 0) && (rx >= w ==> q == w - 1) && (0 <= rx < w ==> q == rx)
                &&& #[trigger] call_ensures(sampler.weight, (y, h, new_h, r), wy)
                &&& #[trigger] call_ensures(sampler.weight, (x, w, new_w, q), wx)
                &&& call_ensures(
                    sampler.blend,
                    (
                        src.at(r as int, q as int, c as int),
                        src.at(r as int, q1, c as int),
                        src.at(r1, q as int, c as int),
                        src.at(r1, q1, c as int),
                        wx,
                        wy,
                    ),
                    out.at(y as int, x as int, c as int),
                )
            },
{
    if h == new_h && w == new_w {
        assert(out.holds(y as int, x as int, c as int));
    } else {
        law_resize_blends_four_neighbours(sampler, src, h, w, new_h, new_w, out, y, x, c);
    }
}

/// Where the source function keeps proportion, two images that agree around row
/// `y * h / new_h` and column `x * w / new_w` are resized to the same sample there.
pub proof fn law_resized_samples_stay_in_proportion<
    S: Fn(usize, usize, usize) -> i64,
    W: Fn(usize, usize, usize, usize) -> u32,
    B: Fn(u32, u32, u32, u32, u32, u32) -> u32,
>(
    a: ImageGrid,
    b: ImageGrid,
    h: usize,
    w: usize,
    new_h: usize,
    new_w: usize,
    sampler: Sampler<S, W, B>,
    out_a: ImageGrid,
    out_b: ImageGrid,
    y: usize,
    x: usize,
    c: usize,
)
    requires
        proportional(sampler),
        sampler.functional(),
        call_ensures(resize_bilinear_hwc::<S, W, B>, (&a, new_h, new_w, &sampler), out_a),
        call_ensures(resize_bilinear_hwc::<S, W, B>, (&b, new_h, new_w, &sampler), out_b),
        (a.h(), a.w()) == (h as nat, w as nat),
        image_shape(a) == image_shape(b),
        h >= 1,
        w >= 1,
        y < new_h,
        x < new_w,
        c < a.c(),
        forall|r: int, q: int|
            (y * h) / new_h as int <= r <= (y * h) / new_h as int + 1 && r < h && (x * w)
                / new_w as int <= q <= (x * w) / new_w as int + 1 && q < w ==> #[trigger] a.at(
                r,
                q,
                c as int,
            ) == b.at(r, q, c as int),
    ensures
        out_a.at(y as int, x as int, c as int) == out_b.at(y as int, x as int, c as int),
{
    if h == new_h && w == new_w {
        vstd::arithmetic::div_mod::lemma_div_by_multiple(y as int, h as int);
        vstd::arithmetic::div_mod::lemma_div_by_multiple(x as int, w as int);
        assert(out_a.holds(y as int, x as int, c as int));
        assert(out_b.holds(y as int, x as int, c as int));
        assert(a.at(y as int, x as int, c as int) == b.at(y as int, x as int, c as int));
    } else {
        law_resize_reads_in_proportion(
            sampler,
            a,
            b,
            h,
            w,
            new_h,
            new_w,
            out_a,
            out_b,
            y,
            x,
            c,
        );
    }
}

/// Where the source function keeps proportion, the sample at row `y` and column `x` of a
/// resized image starts from row `r = y * h / new_h` and column `q = x * w / new_w`; its
/// weights are those of the row and the two heights, and of the column and the two widths.
pub proof fn law_resized_samples_start_in_proportion<
    S: Fn(usize, usize, usize) -> i64,
    W: Fn(usize, usize, usize, usize) -> u32,
    B: Fn(u32, u32, u32, u32, u32, u32) -> u32,
>(
    src: ImageGrid,
    h: usize,
    w: usize,
    new_h: usize,
    new_w: usize,
    sampler: Sampler<S, W, B>,
    out: ImageGrid,
    y: usize,
    x: usize,
    c: usize,
    r: usize,
    q: usize,
)
    requires
        proportional(sampler),
        call_ensures(resize_bilinear_hwc::<S, W, B>, (&src, new_h, new_w, &sampler), out),
        (src.h(), src.w()) == (h as nat, w as nat),
        h != new_h || w != new_w,
        h >= 1,
        w >= 1,
        y < new_h,
        x < new_w,
        c < src.c(),
        r == (y * h) / new_h as int,
        q == (x * w) / new_w as int,
    ensures
        r < h,
        q < w,
        exists|wy: u32, wx: u32|
            {
                let r1 = if r + 1 < h {
                    r + 1
                } else {
                    r as int
                };
                let q1 = if q + 1 < w {
                    q + 1
                } else {
                    q as int
                };
                &&& #[trigger] call_ensures(sampler.weight, (y, h, new_h, r), wy)
                &&& #[trigger] call_ensures(sampler.weight, (x, w, new_w, q), wx)
                &&& call_ensures(
                    sampler.blend,
                    (
                        src.at(r as int, q as int, c as int),
                        src.at(r as int, q1, c as int),
                        src.at(r1, q as int, c as int),
                        src.at(r1, q1, c as int),
                        wx,
                        wy,
                    ),
                    out.at(y as int, x as int, c as int),
                )
            },
{
    lemma_proportion(y as int, h as int, new_h as int);
    lemma_proportion(x as int, w as int, new_w as int);
    law_resize_blends_four_neighbours(sampler, src, h, w, new_h, new_w, out, y, x, c);
}

/// Resizing an image with rows and columns exchanged gives the resized image with rows and
/// columns exchanged, where the blend treats both alike.
pub proof fn law_resizing_commutes_with_exchange<
    S: Fn(usize, usize, usize) -> i64,
    W: Fn(usize, usize, usize, usize) -> u32,
    B: Fn(u32, u32, u32, u32, u32, u32) -> u32,
>(
    a: ImageGrid,
    b: ImageGrid,
    h: usize,
    w: usize,
    new_h: usize,
    new_w: usize,
    sampler: Sampler<S, W, B>,
    out_a: ImageGrid,
    out_b: ImageGrid,
    y: usize,
    x: usize,
    c: usize,
)
    requires
        sampler.functional(),
        forall|p: u32, q: u32, r: u32, s: u32, wx: u32, wy: u32, u: u32, v: u32|
            #[trigger] call_ensures(sampler.blend, (p, q, r, s, wx, wy), u)
                && #[trigger] call_ensures(
                sampler.blend,
                (p, r, q, s, wy, wx),
                v,
            ) ==> u == v,
        call_ensures(resize_bilinear_hwc::<S, W, B>, (&a, new_h, new_w, &sampler), out_a),
        call_ensures(resize_bilinear_hwc::<S, W, B>, (&b, new_w, new_h, &sampler), out_b),
        image_shape(a) == (h as nat, w as nat, b.c()),
        image_shape(b) == (w as nat, h as nat, a.c()),
        h >= 1,
        w >= 1,
        forall|r: int, q: int, k: int|
            a.holds(r, q, k) ==> #[trigger] a.at(r, q, k) == b.at(q, r, k),
        y < new_h,
        x < new_w,
        c < a.c(),
    ensures
        out_a.at(y as int, x as int, c as int) == out_b.at(x as int, y as int, c as int),
{
    law_resize_commutes_with_exchange(
        sampler,
        a,
        b,
        h,
        w,
        new_h,
        new_w,
        out_a,
        out_b,
        y,
        x,
        c,
    );
}

/// Columns of a resized image do not depend on heights: images whose rows are all alike are
/// resized to rows that are all alike, whatever the heights, where the blend of equal rows
/// ignores the weight of the row.
pub proof fn law_resized_columns_ignore_heights<
    S: Fn(usize, usize, usize) -> i64,
    W: Fn(usize, usize, usize, usize) -> u32,
    B: Fn(u32, u32, u32, u32, u32, u32) -> u32,
>(
    a: ImageGrid,
    b: ImageGrid,
    h1: usize,
    h2: usize,
    w: usize,
    n1: usize,
    n2: usize,
    new_w: usize,
    sampler: Sampler<S, W, B>,
    out_a: ImageGrid,
    out_b: ImageGrid,
    y1: usize,
    y2: usize,
    x: usize,
    c: usize,
)
    requires
        sampler.functional(),
        forall|p: u32, q: u32, wx: u32, wy: u32, wz: u32, u: u32, v: u32|
            #[trigger] call_ensures(sampler.blend, (p, q, p, q, wx, wy), u)
                && #[trigger] call_ensures(
                sampler.blend,
                (p, q, p, q, wx, wz),
                v,
            ) ==> u == v,
        call_ensures(resize_bilinear_hwc::<S, W, B>, (&a, n1, new_w, &sampler), out_a),
        call_ensures(resize_bilinear_hwc::<S, W, B>, (&b, n2, new_w, &sampler), out_b),
        image_shape(a) == (h1 as nat, w as nat, b.c()),
        image_shape(b) == (h2 as nat, w as nat, a.c()),
        h1 >= 1,
        h2 >= 1,
        w >= 1,
        w != new_w,
        forall|r: int, q: int, s: int|
            0 <= r < h1 && 0 <= s < h2 && 0 <= q < w ==> #[trigger] a.at(r, q, c as int)
                == #[trigger] b.at(s, q, c as int),
        y1 < n1,
        y2 < n2,
        x < new_w,
        c < a.c(),
    ensures
        out_a.at(y1 as int, x as int, c as int) == out_b.at(y2 as int, x as int, c as int),
{
    law_resize_of_columns_ignores_heights(
        sampler,
        a,
        b,
        h1,
        h2,
        w,
        n1,
        n2,
        new_w,
        out_a,
        out_b,
        y1,
        y2,
        x,
        c,
    );
}

/// A flag of a resized mask is the flag at its own place in proportion, where the source
/// function keeps it.
pub proof fn law_resized_flags_stay_in_proportion<
    S: Fn(usize, usize, usize) -> i64,
    W: Fn(usize, usize, usize, usize) -> u32,
    B: Fn(u32, u32, u32, u32, u32, u32) -> u32,
>(
    src: MaskGrid,
    h: usize,
    w: usize,
    new_h: usize,
    new_w: usize,
    sampler: Sampler<S, W, B>,
    out: MaskGrid,
    y: usize,
    x: usize,
)
    requires
        proportional(sampler),
        call_ensures(resize_nearest_hw::<S, W, B>, (&src, new_h, new_w, &sampler), out),
        mask_shape(src) == (h as nat, w as nat),
        h >= 1,
        w >= 1,
        y < new_h,
        x < new_w,
    ensures
        mask_shape(out) == (new_h as nat, new_w as nat),
        out.at(y as int, x as int) == src.at((y * h) / new_h as int, (x * w) / new_w as int),
{
    law_mask_resize_reads_in_proportion(sampler, src, h, w, new_h, new_w, out, y, x);
}

/// A selection is found exactly where a pixel is selected, and it is the tightest box
/// around all of them.
pub proof fn law_selection_is_found_and_tight(mask: MaskGrid, r: Option<Selection>)
    requires
        call_ensures(selection, (&mask,), r),
    ensures
        r is None ==> forall|y: int, x: int|
            0 <= y < mask.h() && 0 <= x < mask.w() ==> !#[trigger] mask.at(y, x),
        r is Some ==> {
            let s = r->0;
            &&& s.y2 < mask.h()
            &&& s.x2 < mask.w()
            &&& forall|y: int, x: int|
                0 <= y < mask.h() && 0 <= x < mask.w() && #[trigger] mask.at(y, x) ==> s.y1 <= y
                    <= s.y2 && s.x1 <= x <= s.x2
            &&& exists|x: int| 0 <= x < mask.w() && #[trigger] mask.at(s.y1 as int, x)
            &&& exists|x: int| 0 <= x < mask.w() && #[trigger] mask.at(s.y2 as int, x)
            &&& exists|y: int| 0 <= y < mask.h() && #[trigger] mask.at(y, s.x1 as int)
            &&& exists|y: int| 0 <= y < mask.h() && #[trigger] mask.at(y, s.x2 as int)
        },
{
    if r is Some {
        law_selection_is_the_tightest_box(mask, r->0);
    } else {
        assert forall|y: int, x: int| 0 <= y < mask.h() && 0 <= x < mask.w() implies !#[trigger] mask.at(
            y,
            x,
        ) by {
            assert(!selected(mask, y, x));
        }
    }
}

/// A cut-out window shows the image and the mask at their places, mirrored past their
/// borders. The box is the part of the image that the window covers.
pub proof fn law_cut_out_window_shows_the_image(
    image: ImageGrid,
    mask: MaskGrid,
    x1: i64,
    y1: i64,
    w: usize,
    h: usize,
    r: (ImageGrid, MaskGrid, PasteBox),
    y: int,
    x: int,
    c: int,
    k: int,
)
    requires
        call_ensures(crop_with_reflect_pad, (&image, &mask, x1, y1, w, h), r),
        image.h() >= 1,
        image.w() >= 1,
        image.h() <= usize::MAX,
        image.w() <= usize::MAX,
        image.c() <= usize::MAX,
        mask_shape(mask) == (image.h(), image.w()),
        0 <= y1 + h,
        0 <= x1 + w,
        y1 <= usize::MAX,
        x1 <= usize::MAX,
        0 <= c < image.c(),
    ensures
        image_shape(r.0) == (h as nat, w as nat, image.c()),
        mask_shape(r.1) == (h as nat, w as nat),
        r.0.holds(y - y1, x - x1, c) && 0 <= y < image.h() && 0 <= x < image.w() ==> r.0.at(
            y - y1,
            x - x1,
            c,
        ) == image.at(y, x, c) && r.1.at(y - y1, x - x1) == mask.at(y, x),
        r.0.holds(-k - y1, x - x1, c) && r.0.holds(k - y1, x - x1, c) ==> r.0.at(
            -k - y1,
            x - x1,
            c,
        ) == r.0.at(k - y1, x - x1, c) && r.1.at(-k - y1, x - x1) == r.1.at(k - y1, x - x1),
        r.0.holds(y - y1, -k - x1, c) && r.0.holds(y - y1, k - x1, c) ==> r.0.at(
            y - y1,
            -k - x1,
            c,
        ) == r.0.at(y - y1, k - x1, c) && r.1.at(y - y1, -k - x1) == r.1.at(y - y1, k - x1),
        ({
            let e = image.h() - 1;
            r.0.holds(e + k - y1, x - x1, c) && r.0.holds(e - k - y1, x - x1, c) ==> r.0.at(
                e + k - y1,
                x - x1,
                c,
            ) == r.0.at(e - k - y1, x - x1, c) && r.1.at(e + k - y1, x - x1) == r.1.at(
                e - k - y1,
                x - x1,
            )
        }),
        ({
            let e = image.w() - 1;
            r.0.holds(y - y1, e + k - x1, c) && r.0.holds(y - y1, e - k - x1, c) ==> r.0.at(
                y - y1,
                e + k - x1,
                c,
            ) == r.0.at(y - y1, e - k - x1, c) && r.1.at(y - y1, e + k - x1) == r.1.at(
                y - y1,
                e - k - x1,
            )
        }),
        ({
            let p = 2 * (image.h() - 1);
            r.0.holds(y - y1, x - x1, c) && r.0.holds(y + p - y1, x - x1, c) ==> r.0.at(
                y + p - y1,
                x - x1,
                c,
            ) == r.0.at(y - y1, x - x1, c) && r.1.at(y + p - y1, x - x1) == r.1.at(y - y1, x - x1)
        }),
        ({
            let p = 2 * (image.w() - 1);
            r.0.holds(y - y1, x - x1, c) && r.0.holds(y - y1, x + p - x1, c) ==> r.0.at(
                y - y1,
                x + p - x1,
                c,
            ) == r.0.at(y - y1, x - x1, c) && r.1.at(y - y1, x + p - x1) == r.1.at(y - y1, x - x1)
        }),
        (r.2.y1 <= y < r.2.y2 && r.2.x1 <= x < r.2.x2) <==> (0 <= y < image.h() && 0 <= x
            < image.w() && y1 <= y < y1 + h && x1 <= x < x1 + w),
{
    law_window_shows_the_image(r.0, image, x1 as int, y1 as int, w, h, y, x, c, k);
    law_window_shows_the_mask(r.1, mask, x1 as int, y1 as int, w, h, y, x, k);
}

/// An image in planes and a mask as a plane: sample `c` of row `y` and column `x` stands at
/// `c * h * w + y * w + x`, and a flag as one or zero at `y * w + x`.
pub proof fn law_planes_are_written_in_order(
    g: ImageGrid,
    data: Vec<u32>,
    mask: MaskGrid,
    flags: Vec<u32>,
    y: int,
    x: int,
    c: int,
)
    requires
        call_ensures(hwc_to_planar, (&g,), data),
        call_ensures(mask_to_planar, (&mask,), flags),
    ensures
        data@.len() == g.c() * g.h() * g.w(),
        g.holds(y, x, c) ==> data@[c * (g.h() * g.w()) + y * g.w() + x] == g.at(y, x, c),
        flags@.len() == mask.h() * mask.w(),
        mask.holds(y, x) && mask.at(y, x) ==> flags@[y * mask.w() + x] == 0x3f80_0000,
        mask.holds(y, x) && !mask.at(y, x) ==> flags@[y * mask.w() + x] == 0,
{
    if g.holds(y, x, c) {
        law_planes_follow_one_another(g, y, x, c);
    }
    if mask.holds(y, x) {
        law_mask_plane_is_one_or_zero(mask, y, x);
    }
}

/// An output of a session is taken exactly where it is one picture of three planes that
/// memory can hold, and read plane by plane.
pub proof fn law_outputs_are_read_plane_by_plane<U: Fn(u32) -> u32>(
    shape: Vec<usize>,
    data: Vec<u32>,
    unscale: U,
    r: Result<ImageGrid, WorkerError>,
    y: usize,
    x: usize,
    c: usize,
)
    requires
        call_ensures(output_to_hwc::<U>, (&shape, &data, &unscale), r),
    ensures
        r is Ok ==> shape@.len() == 4 && shape@[0] == 1 && shape@[1] == 3 && data@.len() == 3
            * shape@[2] * shape@[3],
        r is Ok && y < shape@[2] && x < shape@[3] && c < 3 ==> call_ensures(
            unscale,
            (data@[c * (shape@[2] * shape@[3]) + y * shape@[3] + x],),
            r->Ok_0.at(y as int, x as int, c as int),
        ),
        r is Ok ==> image_shape(r->Ok_0) == (shape@[2] as nat, shape@[3] as nat, 3nat),
        r is Err && shape@.len() == 4 && shape@[0] == 1 && shape@[1] == 3 && data@.len() == 3
            * shape@[2] * shape@[3] ==> r->Err_0 is TooLarge && !crate::grid::fits(
            shape@[2] as nat,
            shape@[3] as nat,
            3,
            4,
        ),
{
    if r is Ok && y < shape@[2] && x < shape@[3] && c < 3 {
        law_planes_are_read_in_place(
            unscale,
            data@,
            shape@[2] as nat,
            shape@[3] as nat,
            r->Ok_0,
            y,
            x,
            c,
        );
    }
}

/// A plan leaves a region of up to 1024 a side as it is and scales a larger one by its
/// longer side, pads each side to the next multiple of eight, to 32 at least, and centres
/// the region.
pub proof fn law_plans_centre_their_regions<F: Fn(usize, usize) -> usize>(
    rh: usize,
    rw: usize,
    scaled: F,
    r: Result<PadPlan, WorkerError>,
    longest: usize,
)
    requires
        call_ensures(plan_region::<F>, (rh, rw, &scaled), r),
        longest == rh || longest == rw,
        longest >= rh,
        longest >= rw,
    ensures
        r is Ok ==> {
            let plan = r->Ok_0;
            &&& (plan.rh, plan.rw) == (rh, rw)
            &&& longest <= 1024 ==> !plan.shrunk && (plan.sh, plan.sw) == (rh, rw)
            &&& longest > 1024 ==> plan.shrunk
            &&& plan.ph % 8 == 0 && plan.pw % 8 == 0
            &&& plan.ph >= 32 && plan.pw >= 32
            &&& plan.sh <= plan.ph && plan.sw <= plan.pw
            &&& plan.ph == 32 || plan.ph < plan.sh + 8
            &&& plan.pw == 32 || plan.pw < plan.sw + 8
            &&& 0 <= (plan.ph - plan.sh - plan.pt) - plan.pt <= 1
            &&& 0 <= (plan.pw - plan.sw - plan.pl) - plan.pl <= 1
        },
        r is Ok && longest > 1024 ==> exists|a: usize, b: usize|
            {
                &&& #[trigger] call_ensures(scaled, (rh, longest), a)
                &&& #[trigger] call_ensures(scaled, (rw, longest), b)
                &&& (a >= 1 ==> r->Ok_0.sh == a) && (a == 0 ==> r->Ok_0.sh == 1)
                &&& (b >= 1 ==> r->Ok_0.sw == b) && (b == 0 ==> r->Ok_0.sw == 1)
            },
        r is Err ==> r->Err_0 is TooLarge,
{
    if r is Ok {
        law_plan_centres_its_region(r->Ok_0, scaled, rh, rw, longest);
    }
}

/// For every plan, scaled or not, what is brought back is read in place: row `y` and column
/// `x` of the cut picture are row `top margin + y` and column `left margin + x` of the
/// generator's output. A region that was scaled down is scaled up from there.
pub proof fn law_outputs_are_cut_in_place<
    S: Fn(usize, usize, usize) -> i64,
    W: Fn(usize, usize, usize, usize) -> u32,
    B: Fn(u32, u32, u32, u32, u32, u32) -> u32,
>(
    plan: PadPlan,
    out: ImageGrid,
    sampler: Sampler<S, W, B>,
    back: ImageGrid,
)
    requires
        plan.wf(),
        call_ensures(bring_back::<S, W, B>, (&plan, &out, &sampler), back),
    ensures
        exists|g: ImageGrid|
            {
                &&& image_shape(g) == (plan.sh as nat, plan.sw as nat, 3nat)
                &&& #[trigger] stands_within(
                    g,
                    out,
                    (plan.ph - plan.sh) / 2,
                    (plan.pw - plan.sw) / 2,
                )
                &&& plan.shrunk ==> sampler.resizes_image(g, plan.rh, plan.rw, back)
                &&& !plan.shrunk ==> back == g
            },
{
    law_margins_are_cut_in_place(plan, sampler, out, back);
}

/// What is brought in and brought back is, for every plan, the picture that was padded: the
/// region itself where it was not scaled, and its resized image where it was.
pub proof fn law_bringing_back_undoes_bringing_in<
    S: Fn(usize, usize, usize) -> i64,
    W: Fn(usize, usize, usize, usize) -> u32,
    B: Fn(u32, u32, u32, u32, u32, u32) -> u32,
>(
    plan: PadPlan,
    img: ImageGrid,
    mask: MaskGrid,
    sampler: Sampler<S, W, B>,
    r: (ImageGrid, MaskGrid),
    back: ImageGrid,
)
    requires
        plan.wf(),
        image_shape(img) == (plan.rh as nat, plan.rw as nat, 3nat),
        call_ensures(bring_in::<S, W, B>, (&plan, &img, &mask, &sampler), r),
        call_ensures(bring_back::<S, W, B>, (&plan, &r.0, &sampler), back),
    ensures
        exists|scaled: ImageGrid, g: ImageGrid|
            {
                &&& #[trigger] g.same_as(scaled)
                &&& plan.shrunk ==> sampler.resizes_image(img, plan.sh, plan.sw, scaled)
                    && sampler.resizes_image(g, plan.rh, plan.rw, back)
                &&& !plan.shrunk ==> scaled == img && back == g
            },
{
    law_cutting_undoes_padding(plan, sampler, img, r.0, back);
}

/// The line that a resize starts from is the one that the source function gives, limited to
/// the lines that are there.
pub proof fn law_lines_are_limited<
    S: Fn(usize, usize, usize) -> i64,
    W: Fn(usize, usize, usize, usize) -> u32,
    B: Fn(u32, u32, u32, u32, u32, u32) -> u32,
>(
    sampler: Sampler<S, W, B>,
    i: usize,
    len: usize,
    new_len: usize,
    r: usize,
)
    requires
        call_ensures(Sampler::<S, W, B>::line, (&sampler, i, len, new_len), r),
    ensures
        r < len,
        exists|raw: i64| #[trigger]
            call_ensures(sampler.source, (i, len, new_len), raw) && (raw < 0 ==> r == 0) && (raw
                >= len ==> r == len - 1) && (0 <= raw < len ==> r == raw),
{
    let raw = choose|raw: i64|
        #![trigger call_ensures(sampler.source, (i, len, new_len), raw)]
        call_ensures(sampler.source, (i, len, new_len), raw) && r == crate::resize::limited(
            raw as int,
            len as int,
        );
    assert(call_ensures(sampler.source, (i, len, new_len), raw));
}

/// A region is known to fit exactly where nothing is selected, or memory can hold the
/// selection with a margin of its longer side all around, as samples and as flags.
pub proof fn law_regions_are_measured(mask: MaskGrid, c: usize, r: bool, s: Selection, m: int)
    requires
        call_ensures(check_roi_fits, (&mask, c), r),
        s.bounds(mask) || forall|y: int, x: int|
            0 <= y < mask.h() && 0 <= x < mask.w() ==> !#[trigger] mask.at(y, x),
        s.x2 - s.x1 < 0x100_0000,
        s.y2 - s.y1 < 0x100_0000,
        m >= s.x2 - s.x1 + 1,
        m >= s.y2 - s.y1 + 1,
        m == s.x2 - s.x1 + 1 || m == s.y2 - s.y1 + 1,
    ensures
        s.bounds(mask) ==> {
            let h = (s.y2 - s.y1 + 1 + 2 * m) as nat;
            let w = (s.x2 - s.x1 + 1 + 2 * m) as nat;
            r <==> {
                &&& crate::grid::fits(h, w, c as nat, 4)
                &&& crate::grid::fits(h, w, 1, 1)
                &&& s.x2 + 1 + m <= i64::MAX
                &&& s.y2 + 1 + m <= i64::MAX
            }
        },
        !s.bounds(mask) ==> r,
{
    if s.bounds(mask) {
        crate::roi::lemma_float_nearest_small(s.w());
        crate::roi::lemma_float_nearest_small(s.h());
        assert forall|t: Selection| #[trigger] t.bounds(mask) implies t == s by {
            crate::roi::lemma_selection_unique(mask, s, t);
        }
    } else {
        assert forall|t: Selection| !#[trigger] t.bounds(mask) by {
            if t.bounds(mask) {
                let x = choose|x: int| selected(mask, t.y1 as int, x);
                assert(mask.at(t.y1 as int, x));
            }
        }
    }
}

/// A grid answers for the places that it has, and for no others; a new one is all zeros.
pub proof fn law_grids_answer_within_their_sides(
    g: ImageGrid,
    m: MaskGrid,
    y: usize,
    x: usize,
    c: usize,
    v: Option<u32>,
    f: Option<bool>,
    fresh: Option<ImageGrid>,
    clear: Option<MaskGrid>,
)
    requires
        call_ensures(ImageGrid::get, (&g, y, x, c), v),
        call_ensures(MaskGrid::get, (&m, y, x), f),
        call_ensures(ImageGrid::new, (y, x, c), fresh),
        call_ensures(MaskGrid::new, (y, x), clear),
    ensures
        y < g.h() && x < g.w() && c < g.c() ==> v == Some(g.at(y as int, x as int, c as int)),
        y >= g.h() || x >= g.w() || c >= g.c() ==> v is None,
        y < m.h() && x < m.w() ==> f == Some(m.at(y as int, x as int)),
        y >= m.h() || x >= m.w() ==> f is None,
        fresh is Some ==> image_shape(fresh->0) == (y as nat, x as nat, c as nat) && forall|
            i: int,
            j: int,
            k: int,
        |
            0 <= i < y && 0 <= j < x && 0 <= k < c ==> #[trigger] fresh->0.at(i, j, k) == 0,
        clear is Some ==> mask_shape(clear->0) == (y as nat, x as nat) && forall|i: int, j: int|
            0 <= i < y && 0 <= j < x ==> !#[trigger] clear->0.at(i, j),
{
    if fresh is Some {
        assert forall|i: int, j: int, k: int|
            0 <= i < y && 0 <= j < x && 0 <= k < c implies #[trigger] fresh->0.at(i, j, k) == 0 by {
            assert(fresh->0.holds(i, j, k));
        }
    }
    if clear is Some {
        assert forall|i: int, j: int| 0 <= i < y && 0 <= j < x implies !#[trigger] clear->0.at(
            i,
            j,
        ) by {
            assert(clear->0.holds(i, j));
        }
    }
}

} // verus!
