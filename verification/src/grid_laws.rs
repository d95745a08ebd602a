//! Laws of resizing and padding: where each sample of a result comes from.

use vstd::prelude::*;

use crate::grid::{image_shape, mask_shape, ImageGrid, MaskGrid};
use crate::laws::{
    law_mirror_far_border, law_mirror_is_even, law_mirror_is_periodic,
    law_mirror_keeps_inner_positions,
};
use crate::reflect::{is_padded_image, is_padded_mask};
use crate::resize::Sampler;

verus! {

/// Every sample of a resized image is the blend of four samples: those of the row and
/// the column that the source function gives for the row and the column alone, limited
/// to the image, and of the next row and column, under the weights of that row and of
/// that column.
pub proof fn law_resize_blends_four_neighbours<
    S: Fn(usize, usize, usize) -> i64,
    W: Fn(usize, usize, usize, usize) -> u32,
    B: Fn(u32, u32, u32, u32, u32, u32) -> u32,
>(
    sampler: Sampler<S, W, B>,
    src: ImageGrid,
    h: usize,
    w: usize,
    new_h: usize,
    new_w: usize,
    out: ImageGrid,
    y: usize,
    x: usize,
    c: usize,
)
    requires
        sampler.resizes_image(src, new_h, new_w, out),
        (src.h(), src.w()) == (h as nat, w as nat),
        h != new_h || w != new_w,
        h >= 1,
        w >= 1,
        y < new_h,
        x < new_w,
        c < src.c(),
    ensures
        exists|ry: i64, rx: i64, r: usize, q: usize, wy: u32, wx: u32|
            {
                let r1 = if r + 1 < h {
                    r + 1
                } else {
                    r as int
                };
                let q1 = if q + 1 < w {
                    q + 1
                } else {
                    q as int
                };
                &&& #[trigger] call_ensures(sampler.source, (y, h, new_h), ry)
                &&& #[trigger] call_ensures(sampler.source, (x, w, new_w), rx)
                &&& (ry < 0 ==> r == 0) && (ry >= h ==> r == h - 1) && (0 <= ry < h ==> r == ry)
                &&& (rx < 0 ==> q == 0) && (rx >= w ==> q == w - 1) && (0 <= rx < w ==> q == rx)
                &&& #[trigger] call_ensures(sampler.weight, (y, h, new_h, r), wy)
                &&& #[trigger] call_ensures(sampler.weight, (x, w, new_w, q), wx)
                &&& call_ensures(
                    sampler.blend,
                    (
                        src.at(r as int, q as int, c as int),
                        src.at(r as int, q1, c as int),
                        src.at(r1, q as int, c as int),
                        src.at(r1, q1, c as int),
                        wx,
                        wy,
                    ),
                    out.at(y as int, x as int, c as int),
                )
            },
{
    let v = out.at(y as int, x as int, c as int);
    assert(sampler.bilinear(src, (new_h, new_w), (y, x, c), v));
    let (from, weights) = choose|from: (usize, usize), weights: (u32, u32)| #[trigger]
        sampler.bilinear_from(src, (new_h, new_w), (y, x, c), from, weights, v);
    assert(sampler.bilinear_from(src, (new_h, new_w), (y, x, c), from, weights, v));
    assert(sampler.starts_at(y, h, new_h, from.0));
    assert(sampler.starts_at(x, w, new_w, from.1));
    let ry = choose|raw: i64|
        #![trigger call_ensures(sampler.source, (y, h, new_h), raw)]
        call_ensures(sampler.source, (y, h, new_h), raw) && from.0 == crate::resize::limited(
            raw as int,
            h as int,
        );
    let rx = choose|raw: i64|
        #![trigger call_ensures(sampler.source, (x, w, new_w), raw)]
        call_ensures(sampler.source, (x, w, new_w), raw) && from.1 == crate::resize::limited(
            raw as int,
            w as int,
        );
    assert(call_ensures(sampler.source, (y, h, new_h), ry));
    assert(call_ensures(sampler.source, (x, w, new_w), rx));
    assert(call_ensures(sampler.weight, (y, h, new_h, from.0), weights.0));
    assert(call_ensures(sampler.weight, (x, w, new_w, from.1), weights.1));
}

/// The source function gives the line that lies in proportion, rounded down.
pub open spec fn proportional<
    S: Fn(usize, usize, usize) -> i64,
    W: Fn(usize, usize, usize, usize) -> u32,
    B: Fn(u32, u32, u32, u32, u32, u32) -> u32,
>(sampler: Sampler<S, W, B>) -> bool {
    forall|i: usize, len: usize, new_len: usize, r: i64| #[trigger]
        call_ensures(sampler.source, (i, len, new_len), r) && new_len >= 1 ==> r == (i * len)
            / new_len as int
}

/// Where the source function keeps proportion, a sample of a resized image depends on
/// nothing but the samples around its own place: on row `y * h / new_h` and column
/// `x * w / new_w`, and the next ones.
pub proof fn law_resize_reads_in_proportion<
    S: Fn(usize, usize, usize) -> i64,
    W: Fn(usize, usize, usize, usize) -> u32,
    B: Fn(u32, u32, u32, u32, u32, u32) -> u32,
>(
    sampler: Sampler<S, W, B>,
    a: ImageGrid,
    b: ImageGrid,
    h: usize,
    w: usize,
    new_h: usize,
    new_w: usize,
    out_a: ImageGrid,
    out_b: ImageGrid,
    y: usize,
    x: usize,
    c: usize,
)
    requires
        proportional(sampler),
        sampler.functional(),
        sampler.resizes_image(a, new_h, new_w, out_a),
        sampler.resizes_image(b, new_h, new_w, out_b),
        (a.h(), a.w()) == (h as nat, w as nat),
        image_shape(a) == image_shape(b),
        h != new_h || w != new_w,
        h >= 1,
        w >= 1,
        y < new_h,
        x < new_w,
        c < a.c(),
        forall|r: int, q: int|
            (y * h) / new_h as int <= r <= (y * h) / new_h as int + 1 && r < h && (x * w)
                / new_w as int <= q <= (x * w) / new_w as int + 1 && q < w ==> #[trigger] a.at(
                r,
                q,
                c as int,
            ) == b.at(r, q, c as int),
    ensures
        out_a.at(y as int, x as int, c as int) == out_b.at(y as int, x as int, c as int),
{
    law_resize_blends_four_neighbours(sampler, a, h, w, new_h, new_w, out_a, y, x, c);
    law_resize_blends_four_neighbours(sampler, b, h, w, new_h, new_w, out_b, y, x, c);
    lemma_proportion(y as int, h as int, new_h as int);
    lemma_proportion(x as int, w as int, new_w as int);
}

/// A line in proportion lies on the image.
pub proof fn lemma_proportion(i: int, len: int, new_len: int)
    requires
        0 <= i < new_len,
        len >= 1,
    ensures
        0 <= (i * len) / new_len < len,
{
    let p = i * len;
    assert(0 <= p < len * new_len) by (nonlinear_arith)
        requires
            p == i * len,
            0 <= i < new_len,
            len >= 1,
    ;
    crate::same::lemma_place(p, len, new_len);
}

/// Resizing treats rows as it treats columns: where the blend does, an image with rows
/// and columns exchanged is resized to the exchanged result.
pub proof fn law_resize_commutes_with_exchange<
    S: Fn(usize, usize, usize) -> i64,
    W: Fn(usize, usize, usize, usize) -> u32,
    B: Fn(u32, u32, u32, u32, u32, u32) -> u32,
>(
    sampler: Sampler<S, W, B>,
    a: ImageGrid,
    b: ImageGrid,
    h: usize,
    w: usize,
    new_h: usize,
    new_w: usize,
    out_a: ImageGrid,
    out_b: ImageGrid,
    y: usize,
    x: usize,
    c: usize,
)
    requires
        sampler.functional(),
        forall|p: u32, q: u32, r: u32, s: u32, wx: u32, wy: u32, u: u32, v: u32|
            #[trigger] call_ensures(sampler.blend, (p, q, r, s, wx, wy), u)
                && #[trigger] call_ensures(
                sampler.blend,
                (p, r, q, s, wy, wx),
                v,
            ) ==> u == v,
        sampler.resizes_image(a, new_h, new_w, out_a),
        sampler.resizes_image(b, new_w, new_h, out_b),
        image_shape(a) == (h as nat, w as nat, b.c()),
        image_shape(b) == (w as nat, h as nat, a.c()),
        h >= 1,
        w >= 1,
        forall|r: int, q: int, k: int|
            a.holds(r, q, k) ==> #[trigger] a.at(r, q, k) == b.at(q, r, k),
        y < new_h,
        x < new_w,
        c < a.c(),
    ensures
        out_a.at(y as int, x as int, c as int) == out_b.at(x as int, y as int, c as int),
{
    let (yi, xi, ci) = (y as int, x as int, c as int);
    if h == new_h && w == new_w {
        assert(out_a.holds(yi, xi, ci));
        assert(out_b.holds(xi, yi, ci));
        assert(a.holds(yi, xi, ci));
        assert(out_a.at(yi, xi, ci) == a.at(yi, xi, ci));
        assert(out_b.at(xi, yi, ci) == b.at(xi, yi, ci));
    } else {
        law_resize_blends_four_neighbours(sampler, a, h, w, new_h, new_w, out_a, y, x, c);
        law_resize_blends_four_neighbours(sampler, b, w, h, new_w, new_h, out_b, x, y, c);
        let (ry, rx, r, q, wy, wx) = choose|
            ry: i64,
            rx: i64,
            r: usize,
            q: usize,
            wy: u32,
            wx: u32,
        |
            {
                let r1 = if r + 1 < h {
                    r + 1
                } else {
                    r as int
                };
                let q1 = if q + 1 < w {
                    q + 1
                } else {
                    q as int
                };
                &&& #[trigger] call_ensures(sampler.source, (y, h, new_h), ry)
                &&& #[trigger] call_ensures(sampler.source, (x, w, new_w), rx)
                &&& (ry < 0 ==> r == 0) && (ry >= h ==> r == h - 1) && (0 <= ry < h ==> r == ry)
                &&& (rx < 0 ==> q == 0) && (rx >= w ==> q == w - 1) && (0 <= rx < w ==> q == rx)
                &&& #[trigger] call_ensures(sampler.weight, (y, h, new_h, r), wy)
                &&& #[trigger] call_ensures(sampler.weight, (x, w, new_w, q), wx)
                &&& call_ensures(
                    sampler.blend,
                    (a.at(r as int, q as int, ci), a.at(r as int, q1, ci), a.at(r1, q as int, ci), a.at(r1, q1, ci), wx, wy),
                    out_a.at(yi, xi, ci),
                )
            };
        let r1 = if r + 1 < h {
            r + 1
        } else {
            r as int
        };
        let q1 = if q + 1 < w {
            q + 1
        } else {
            q as int
        };
        assert(a.holds(r as int, q as int, ci) && a.holds(r as int, q1, ci) && a.holds(
            r1,
            q as int,
            ci,
        ) && a.holds(r1, q1, ci));
        assert(a.at(r as int, q as int, ci) == b.at(q as int, r as int, ci));
        assert(a.at(r as int, q1, ci) == b.at(q1, r as int, ci));
        assert(a.at(r1, q as int, ci) == b.at(q as int, r1, ci));
        assert(a.at(r1, q1, ci) == b.at(q1, r1, ci));
    }
}

/// Columns do not depend on heights: where the blend of equal rows ignores the weight of
/// the row, images whose rows are all alike are resized to rows that are all alike,
/// whatever the heights.
pub proof fn law_resize_of_columns_ignores_heights<
    S: Fn(usize, usize, usize) -> i64,
    W: Fn(usize, usize, usize, usize) -> u32,
    B: Fn(u32, u32, u32, u32, u32, u32) -> u32,
>(
    sampler: Sampler<S, W, B>,
    a: ImageGrid,
    b: ImageGrid,
    h1: usize,
    h2: usize,
    w: usize,
    n1: usize,
    n2: usize,
    new_w: usize,
    out_a: ImageGrid,
    out_b: ImageGrid,
    y1: usize,
    y2: usize,
    x: usize,
    c: usize,
)
    requires
        sampler.functional(),
        forall|p: u32, q: u32, wx: u32, wy: u32, wz: u32, u: u32, v: u32|
            #[trigger] call_ensures(sampler.blend, (p, q, p, q, wx, wy), u)
                && #[trigger] call_ensures(
                sampler.blend,
                (p, q, p, q, wx, wz),
                v,
            ) ==> u == v,
        sampler.resizes_image(a, n1, new_w, out_a),
        sampler.resizes_image(b, n2, new_w, out_b),
        image_shape(a) == (h1 as nat, w as nat, b.c()),
        image_shape(b) == (h2 as nat, w as nat, a.c()),
        h1 >= 1,
        h2 >= 1,
        w >= 1,
        w != new_w,
        forall|r: int, q: int, s: int|
            0 <= r < h1 && 0 <= s < h2 && 0 <= q < w ==> #[trigger] a.at(r, q, c as int)
                == #[trigger] b.at(s, q, c as int),
        y1 < n1,
        y2 < n2,
        x < new_w,
        c < a.c(),
    ensures
        out_a.at(y1 as int, x as int, c as int) == out_b.at(y2 as int, x as int, c as int),
{
    let ci = c as int;
    law_resize_blends_four_neighbours(sampler, a, h1, w, n1, new_w, out_a, y1, x, c);
    law_resize_blends_four_neighbours(sampler, b, h2, w, n2, new_w, out_b, y2, x, c);
    assert forall|r: int, q: int| 0 <= r < h1 && 0 <= q < w implies #[trigger] a.at(r, q, ci)
        == b.at(0, q, ci) by {}
    assert forall|s: int, q: int| 0 <= s < h2 && 0 <= q < w implies #[trigger] b.at(s, q, ci)
        == b.at(0, q, ci) by {
        assert(a.at(0, q, ci) == b.at(s, q, ci));
        assert(a.at(0, q, ci) == b.at(0, q, ci));
    }
}

/// A resize to the size that an image has copies it.
pub proof fn law_resize_to_the_same_size_copies<
    S: Fn(usize, usize, usize) -> i64,
    W: Fn(usize, usize, usize, usize) -> u32,
    B: Fn(u32, u32, u32, u32, u32, u32) -> u32,
>(
    sampler: Sampler<S, W, B>,
    src: ImageGrid,
    h: usize,
    w: usize,
    out: ImageGrid,
    y: int,
    x: int,
    c: int,
)
    requires
        sampler.resizes_image(src, h, w, out),
        (src.h(), src.w()) == (h as nat, w as nat),
        0 <= y < h,
        0 <= x < w,
        0 <= c < src.c(),
    ensures
        image_shape(out) == image_shape(src),
        out.at(y, x, c) == src.at(y, x, c),
{
    assert(out.holds(y, x, c));
}

/// Where the source function keeps proportion, a flag of a resized mask is the flag at
/// its own place, row `y * h / new_h` and column `x * w / new_w`.
pub proof fn law_mask_resize_reads_in_proportion<
    S: Fn(usize, usize, usize) -> i64,
    W: Fn(usize, usize, usize, usize) -> u32,
    B: Fn(u32, u32, u32, u32, u32, u32) -> u32,
>(
    sampler: Sampler<S, W, B>,
    src: MaskGrid,
    h: usize,
    w: usize,
    new_h: usize,
    new_w: usize,
    out: MaskGrid,
    y: usize,
    x: usize,
)
    requires
        proportional(sampler),
        sampler.resizes_mask(src, new_h, new_w, out),
        mask_shape(src) == (h as nat, w as nat),
        h >= 1,
        w >= 1,
        y < new_h,
        x < new_w,
    ensures
        mask_shape(out) == (new_h as nat, new_w as nat),
        out.at(y as int, x as int) == src.at((y * h) / new_h as int, (x * w) / new_w as int),
{
    lemma_proportion(y as int, h as int, new_h as int);
    lemma_proportion(x as int, w as int, new_w as int);
    let v = out.at(y as int, x as int);
    if h == new_h && w == new_w {
        assert(out.holds(y as int, x as int));
        vstd::arithmetic::div_mod::lemma_div_by_multiple(y as int, h as int);
        vstd::arithmetic::div_mod::lemma_div_by_multiple(x as int, w as int);
    } else {
        assert(sampler.nearest(src, (new_h, new_w), (y, x), v));
        let from = choose|from: (usize, usize)| #[trigger]
            sampler.nearest_from(src, (new_h, new_w), (y, x), from, v);
        assert(sampler.nearest_from(src, (new_h, new_w), (y, x), from, v));
    }
}

/// A padded image has the image at its place, rows and columns past a border are those as
/// far before it, and farther ones repeat.
pub proof fn law_padding_reflects(
    out: ImageGrid,
    g: ImageGrid,
    top: int,
    left: int,
    bottom: int,
    right: int,
    y: int,
    x: int,
    c: int,
    k: int,
)
    requires
        is_padded_image(out, g, top, left, bottom, right),
        g.h() >= 1,
        g.w() >= 1,
        top >= 0,
        left >= 0,
        bottom >= 0,
        right >= 0,
        0 <= c < g.c(),
    ensures
        image_shape(out) == (
            (top + g.h() + bottom) as nat,
            (left + g.w() + right) as nat,
            g.c(),
        ),
        0 <= y < g.h() && 0 <= x < g.w() ==> out.at(top + y, left + x, c) == g.at(y, x, c),
        out.holds(top - k, x, c) && out.holds(top + k, x, c) ==> out.at(top - k, x, c) == out.at(
            top + k,
            x,
            c,
        ),
        out.holds(y, left - k, c) && out.holds(y, left + k, c) ==> out.at(y, left - k, c)
            == out.at(y, left + k, c),
        ({
            let last = top + g.h() - 1;
            out.holds(last + k, x, c) && out.holds(last - k, x, c) ==> out.at(last + k, x, c)
                == out.at(last - k, x, c)
        }),
        ({
            let last = left + g.w() - 1;
            out.holds(y, last + k, c) && out.holds(y, last - k, c) ==> out.at(y, last + k, c)
                == out.at(y, last - k, c)
        }),
        ({
            let period = 2 * (g.h() - 1);
            out.holds(y, x, c) && out.holds(y + period, x, c) ==> out.at(y + period, x, c)
                == out.at(y, x, c)
        }),
        ({
            let period = 2 * (g.w() - 1);
            out.holds(y, x, c) && out.holds(y, x + period, c) ==> out.at(y, x + period, c)
                == out.at(y, x, c)
        }),
{
    let (h, w) = (g.h() as int, g.w() as int);
    if 0 <= y < h && 0 <= x < w {
        law_mirror_keeps_inner_positions(y, h);
        law_mirror_keeps_inner_positions(x, w);
        assert(out.holds(top + y, left + x, c));
    }
    law_mirror_is_even(k, h);
    law_mirror_is_even(k, w);
    law_mirror_far_border(k, h);
    law_mirror_far_border(k, w);
    law_mirror_is_periodic(y - top, h);
    law_mirror_is_periodic(x - left, w);
}

/// The same for a mask.
pub proof fn law_mask_padding_reflects(
    out: MaskGrid,
    g: MaskGrid,
    top: int,
    left: int,
    bottom: int,
    right: int,
    y: int,
    x: int,
    k: int,
)
    requires
        is_padded_mask(out, g, top, left, bottom, right),
        g.h() >= 1,
        g.w() >= 1,
        top >= 0,
        left >= 0,
        bottom >= 0,
        right >= 0,
    ensures
        mask_shape(out) == ((top + g.h() + bottom) as nat, (left + g.w() + right) as nat),
        0 <= y < g.h() && 0 <= x < g.w() ==> out.at(top + y, left + x) == g.at(y, x),
        out.holds(top - k, x) && out.holds(top + k, x) ==> out.at(top - k, x) == out.at(top + k, x),
        out.holds(y, left - k) && out.holds(y, left + k) ==> out.at(y, left - k) == out.at(
            y,
            left + k,
        ),
        ({
            let last = top + g.h() - 1;
            out.holds(last + k, x) && out.holds(last - k, x) ==> out.at(last + k, x) == out.at(
                last - k,
                x,
            )
        }),
        ({
            let last = left + g.w() - 1;
            out.holds(y, last + k) && out.holds(y, last - k) ==> out.at(y, last + k) == out.at(
                y,
                last - k,
            )
        }),
        ({
            let period = 2 * (g.h() - 1);
            out.holds(y, x) && out.holds(y + period, x) ==> out.at(y + period, x) == out.at(y, x)
        }),
        ({
            let period = 2 * (g.w() - 1);
            out.holds(y, x) && out.holds(y, x + period) ==> out.at(y, x + period) == out.at(y, x)
        }),
{
    let (h, w) = (g.h() as int, g.w() as int);
    if 0 <= y < h && 0 <= x < w {
        law_mirror_keeps_inner_positions(y, h);
        law_mirror_keeps_inner_positions(x, w);
        assert(out.holds(top + y, left + x));
    }
    law_mirror_is_even(k, h);
    law_mirror_is_even(k, w);
    law_mirror_far_border(k, h);
    law_mirror_far_border(k, w);
    law_mirror_is_periodic(y - top, h);
    law_mirror_is_periodic(x - left, w);
}

} // verus!
