//! Laws of the way of a picture: which sample of which grid, tensor or buffer a step reads
//! and where it writes it.

use vstd::prelude::*;

use crate::float_laws::{apart, is_float, law_floats_are_the_nearest, product_of};
use crate::grid::{image_shape, mask_shape, ImageGrid, MaskGrid};
use crate::laws::{
    law_mirror_far_border, law_mirror_is_even, law_mirror_is_periodic,
    law_mirror_keeps_inner_positions,
};
use crate::layout::{
    is_image_tensor, is_mask_tensor, is_tensor_image, is_unscaled, lemma_position, planar,
    planar_mask,
};
use crate::native::PadPlan;
use crate::resize::Sampler;
use crate::roi::{
    is_image_window, is_mask_window, lemma_float_nearest_small, selected, RoiInfo, Selection,
};
use crate::tensor::TensorVal;
use crate::worker::{composes_byte, is_composed, is_decoded, is_thresholded};

verus! {

/// The box of a selection holds every selected pixel and is no larger than that asks:
/// each of its four sides touches one.
pub proof fn law_selection_is_the_tightest_box(mask: MaskGrid, s: Selection)
    requires
        s.bounds(mask),
    ensures
        s.y2 < mask.h(),
        s.x2 < mask.w(),
        forall|y: int, x: int|
            0 <= y < mask.h() && 0 <= x < mask.w() && #[trigger] mask.at(y, x) ==> s.y1 <= y
                <= s.y2 && s.x1 <= x <= s.x2,
        exists|x: int| 0 <= x < mask.w() && #[trigger] mask.at(s.y1 as int, x),
        exists|x: int| 0 <= x < mask.w() && #[trigger] mask.at(s.y2 as int, x),
        exists|y: int| 0 <= y < mask.h() && #[trigger] mask.at(y, s.x1 as int),
        exists|y: int| 0 <= y < mask.h() && #[trigger] mask.at(y, s.x2 as int),
{
    assert forall|y: int, x: int|
        0 <= y < mask.h() && 0 <= x < mask.w() && #[trigger] mask.at(y, x) implies s.y1 <= y
        <= s.y2 && s.x1 <= x <= s.x2 by {
        assert(selected(mask, y, x));
    }
    let a = choose|x: int| selected(mask, s.y1 as int, x);
    let b = choose|x: int| selected(mask, s.y2 as int, x);
    let c = choose|y: int| selected(mask, y, s.x1 as int);
    let d = choose|y: int| selected(mask, y, s.x2 as int);
    assert(mask.at(s.y1 as int, a) && mask.at(s.y2 as int, b));
    assert(mask.at(c, s.x1 as int) && mask.at(d, s.x2 as int));
}

/// A region lies around its selection with a margin as wide as the longer side of the
/// selection on all four sides, for every side that a 32-bit float holds exactly. What
/// is pasted over is the part of it that lies on the image.
pub proof fn law_region_surrounds_its_selection(
    image: ImageGrid,
    mask: MaskGrid,
    s: Selection,
    roi: RoiInfo,
)
    requires
        s.bounds(mask),
        roi.cut_from(image, mask, s),
        s.x2 - s.x1 < 0x100_0000,
        s.y2 - s.y1 < 0x100_0000,
    ensures
        ({
            let w = s.x2 - s.x1 + 1;
            let h = s.y2 - s.y1 + 1;
            let m = if w >= h {
                w
            } else {
                h
            };
            &&& roi.roi_x1 == s.x1 - m
            &&& roi.roi_y1 == s.y1 - m
            &&& roi.roi_w == w + 2 * m
            &&& roi.roi_h == h + 2 * m
        }),
        forall|y: int, x: int|
            #![trigger mask.at(y, x)]
            (roi.paste_box.y1 <= y < roi.paste_box.y2 && roi.paste_box.x1 <= x < roi.paste_box.x2)
                <==> (0 <= y < image.h() && 0 <= x < image.w() && roi.roi_y1 <= y < roi.roi_y1
                + roi.roi_h && roi.roi_x1 <= x < roi.roi_x1 + roi.roi_w),
{
    lemma_float_nearest_small(s.w());
    lemma_float_nearest_small(s.h());
}

/// For every selection the margin is a 32-bit float of at least one, and no float is nearer
/// to the longer side.
pub proof fn law_region_margin_is_a_float(
    image: ImageGrid,
    mask: MaskGrid,
    s: Selection,
    roi: RoiInfo,
    side: int,
    v: int,
)
    requires
        s.bounds(mask),
        roi.cut_from(image, mask, s),
        side >= s.x2 - s.x1 + 1,
        side >= s.y2 - s.y1 + 1,
        side == s.x2 - s.x1 + 1 || side == s.y2 - s.y1 + 1,
        is_float(v),
    ensures
        ({
            let m = s.x1 - roi.roi_x1;
            &&& m >= 1
            &&& is_float(m)
            &&& apart(m, side) <= apart(v, side)
            &&& roi.roi_y1 == s.y1 - m
            &&& roi.roi_w == s.x2 - s.x1 + 1 + 2 * m
            &&& roi.roi_h == s.y2 - s.y1 + 1 + 2 * m
        }),
{
    law_floats_are_the_nearest(side as nat, v);
    assert(product_of(1, 0) == 1) by {
        vstd::arithmetic::power2::lemma2_to64();
    }
    assert(is_float(1));
    law_floats_are_the_nearest(side as nat, 1);
}

/// A window of an image shows the image where it lies on it. Past a border it shows what
/// lies as far before that border, and farther on it repeats.
pub proof fn law_window_shows_the_image(
    out: ImageGrid,
    image: ImageGrid,
    x1: int,
    y1: int,
    w: usize,
    h: usize,
    y: int,
    x: int,
    c: int,
    k: int,
)
    requires
        is_image_window(out, image, x1, y1, w as nat, h as nat),
        image.h() >= 1,
        image.w() >= 1,
        0 <= c < image.c(),
        image.c() <= usize::MAX,
    ensures
        image_shape(out) == (h as nat, w as nat, image.c()),
        out.holds(y - y1, x - x1, c) && 0 <= y < image.h() && 0 <= x < image.w() ==> out.at(
            y - y1,
            x - x1,
            c,
        ) == image.at(y, x, c),
        out.holds(-k - y1, x - x1, c) && out.holds(k - y1, x - x1, c) ==> out.at(
            -k - y1,
            x - x1,
            c,
        ) == out.at(k - y1, x - x1, c),
        out.holds(y - y1, -k - x1, c) && out.holds(y - y1, k - x1, c) ==> out.at(
            y - y1,
            -k - x1,
            c,
        ) == out.at(y - y1, k - x1, c),
        ({
            let e = image.h() - 1;
            out.holds(e + k - y1, x - x1, c) && out.holds(e - k - y1, x - x1, c) ==> out.at(
                e + k - y1,
                x - x1,
                c,
            ) == out.at(e - k - y1, x - x1, c)
        }),
        ({
            let e = image.w() - 1;
            out.holds(y - y1, e + k - x1, c) && out.holds(y - y1, e - k - x1, c) ==> out.at(
                y - y1,
                e + k - x1,
                c,
            ) == out.at(y - y1, e - k - x1, c)
        }),
        ({
            let p = 2 * (image.h() - 1);
            out.holds(y - y1, x - x1, c) && out.holds(y + p - y1, x - x1, c) ==> out.at(
                y + p - y1,
                x - x1,
                c,
            ) == out.at(y - y1, x - x1, c)
        }),
        ({
            let p = 2 * (image.w() - 1);
            out.holds(y - y1, x - x1, c) && out.holds(y - y1, x + p - x1, c) ==> out.at(
                y - y1,
                x + p - x1,
                c,
            ) == out.at(y - y1, x - x1, c)
        }),
{
    let (ih, iw) = (image.h() as int, image.w() as int);
    assert forall|r: int, q: int| #[trigger] out.holds(r, q, c) implies out.at(r, q, c)
        == image.at(
        crate::reflect::mirror(y1 + r, ih),
        crate::reflect::mirror(x1 + q, iw),
        c,
    ) by {
        let (ru, qu, cu) = (r as usize, q as usize, c as usize);
        assert(out.at(ru as int, qu as int, cu as int) == crate::reflect::image_reflected(
            image,
            y1 + ru,
            x1 + qu,
            cu,
        ));
    }
    if 0 <= y < ih {
        law_mirror_keeps_inner_positions(y, ih);
    }
    if 0 <= x < iw {
        law_mirror_keeps_inner_positions(x, iw);
    }
    law_mirror_is_even(k, ih);
    law_mirror_is_even(k, iw);
    law_mirror_far_border(k, ih);
    law_mirror_far_border(k, iw);
    law_mirror_is_periodic(y, ih);
    law_mirror_is_periodic(x, iw);
}

/// The same for the window of a mask.
pub proof fn law_window_shows_the_mask(
    out: MaskGrid,
    mask: MaskGrid,
    x1: int,
    y1: int,
    w: usize,
    h: usize,
    y: int,
    x: int,
    k: int,
)
    requires
        is_mask_window(out, mask, x1, y1, w as nat, h as nat),
        mask.h() >= 1,
        mask.w() >= 1,
    ensures
        mask_shape(out) == (h as nat, w as nat),
        out.holds(y - y1, x - x1) && 0 <= y < mask.h() && 0 <= x < mask.w() ==> out.at(
            y - y1,
            x - x1,
        ) == mask.at(y, x),
        out.holds(-k - y1, x - x1) && out.holds(k - y1, x - x1) ==> out.at(-k - y1, x - x1)
            == out.at(k - y1, x - x1),
        out.holds(y - y1, -k - x1) && out.holds(y - y1, k - x1) ==> out.at(y - y1, -k - x1)
            == out.at(y - y1, k - x1),
        ({
            let e = mask.h() - 1;
            out.holds(e + k - y1, x - x1) && out.holds(e - k - y1, x - x1) ==> out.at(
                e + k - y1,
                x - x1,
            ) == out.at(e - k - y1, x - x1)
        }),
        ({
            let e = mask.w() - 1;
            out.holds(y - y1, e + k - x1) && out.holds(y - y1, e - k - x1) ==> out.at(
                y - y1,
                e + k - x1,
            ) == out.at(y - y1, e - k - x1)
        }),
        ({
            let p = 2 * (mask.h() - 1);
            out.holds(y - y1, x - x1) && out.holds(y + p - y1, x - x1) ==> out.at(
                y + p - y1,
                x - x1,
            ) == out.at(y - y1, x - x1)
        }),
        ({
            let p = 2 * (mask.w() - 1);
            out.holds(y - y1, x - x1) && out.holds(y - y1, x + p - x1) ==> out.at(
                y - y1,
                x + p - x1,
            ) == out.at(y - y1, x - x1)
        }),
{
    let (ih, iw) = (mask.h() as int, mask.w() as int);
    assert forall|r: int, q: int| #[trigger] out.holds(r, q) implies out.at(r, q) == mask.at(
        crate::reflect::mirror(y1 + r, ih),
        crate::reflect::mirror(x1 + q, iw),
    ) by {
        let (ru, qu) = (r as usize, q as usize);
        assert(out.at(ru as int, qu as int) == crate::reflect::mask_reflected(
            mask,
            y1 + ru,
            x1 + qu,
        ));
    }
    if 0 <= y < ih {
        law_mirror_keeps_inner_positions(y, ih);
    }
    if 0 <= x < iw {
        law_mirror_keeps_inner_positions(x, iw);
    }
    law_mirror_is_even(k, ih);
    law_mirror_is_even(k, iw);
    law_mirror_far_border(k, ih);
    law_mirror_far_border(k, iw);
    law_mirror_is_periodic(y, ih);
    law_mirror_is_periodic(x, iw);
}

/// A plan leaves a region of up to 1024 a side as it is and scales a larger one by its
/// longer side. The padded sides are multiples of eight, at least 32, and no longer than
/// that asks; the margins on opposite sides differ by one at most, the first being the
/// smaller.
pub proof fn law_plan_centres_its_region<F: Fn(usize, usize) -> usize>(
    plan: PadPlan,
    scaled: F,
    rh: usize,
    rw: usize,
    longest: usize,
)
    requires
        plan.plans(scaled, rh, rw),
        longest == rh || longest == rw,
        longest >= rh,
        longest >= rw,
    ensures
        (plan.rh, plan.rw) == (rh, rw),
        longest <= 1024 ==> !plan.shrunk && (plan.sh, plan.sw) == (rh, rw),
        longest > 1024 ==> plan.shrunk,
        longest > 1024 ==> exists|a: usize, b: usize|
            {
                &&& #[trigger] call_ensures(scaled, (rh, longest), a)
                &&& #[trigger] call_ensures(scaled, (rw, longest), b)
                &&& (a >= 1 ==> plan.sh == a) && (a == 0 ==> plan.sh == 1)
                &&& (b >= 1 ==> plan.sw == b) && (b == 0 ==> plan.sw == 1)
            },
        plan.ph % 8 == 0,
        plan.pw % 8 == 0,
        plan.ph >= 32,
        plan.pw >= 32,
        plan.sh <= plan.ph,
        plan.sw <= plan.pw,
        plan.ph == 32 || plan.ph < plan.sh + 8,
        plan.pw == 32 || plan.pw < plan.sw + 8,
        0 <= (plan.ph - plan.sh - plan.pt) - plan.pt <= 1,
        0 <= (plan.pw - plan.sw - plan.pl) - plan.pl <= 1,
{
    if longest > 1024 {
        assert(crate::native::scaled_side(scaled, rh, longest, plan.sh));
        assert(crate::native::scaled_side(scaled, rw, longest, plan.sw));
        let a = choose|raw: usize|
            #![trigger call_ensures(scaled, (rh, longest), raw)]
            call_ensures(scaled, (rh, longest), raw) && plan.sh == crate::roi::larger(
                raw as int,
                1,
            );
        let b = choose|raw: usize|
            #![trigger call_ensures(scaled, (rw, longest), raw)]
            call_ensures(scaled, (rw, longest), raw) && plan.sw == crate::roi::larger(
                raw as int,
                1,
            );
        assert(call_ensures(scaled, (rh, longest), a));
        assert(call_ensures(scaled, (rw, longest), b));
        assert(plan.sh == crate::roi::larger(a as int, 1));
        assert(plan.sw == crate::roi::larger(b as int, 1));
    }
}

/// `g` stands in `padded` with the given margins above and to the left.
pub open spec fn stands_within(g: ImageGrid, padded: ImageGrid, top: int, left: int) -> bool {
    forall|y: int, x: int, c: int|
        g.holds(y, x, c) ==> #[trigger] g.at(y, x, c) == padded.at(top + y, left + x, c)
}

/// For every plan, scaled or not, what is taken back is read in place: row `y` and column
/// `x` of the cut picture are row `top margin + y` and column `left margin + x` of the
/// generator's output. A region that was scaled down is scaled up from there.
pub proof fn law_margins_are_cut_in_place<
    S: Fn(usize, usize, usize) -> i64,
    W: Fn(usize, usize, usize, usize) -> u32,
    B: Fn(u32, u32, u32, u32, u32, u32) -> u32,
>(plan: PadPlan, sampler: Sampler<S, W, B>, out: ImageGrid, back: ImageGrid)
    requires
        plan.wf(),
        plan.takes_back(sampler, out, back),
    ensures
        exists|g: ImageGrid|
            {
                &&& image_shape(g) == (plan.sh as nat, plan.sw as nat, 3nat)
                &&& #[trigger] stands_within(
                    g,
                    out,
                    (plan.ph - plan.sh) / 2,
                    (plan.pw - plan.sw) / 2,
                )
                &&& plan.shrunk ==> sampler.resizes_image(g, plan.rh, plan.rw, back)
                &&& !plan.shrunk ==> back == g
            },
{
    let g = choose|g: ImageGrid| #[trigger] plan.takes_back_over(sampler, out, g, back);
    assert(plan.takes_back_over(sampler, out, g, back));
    assert forall|y: int, x: int, c: int| g.holds(y, x, c) implies #[trigger] g.at(y, x, c)
        == out.at((plan.ph - plan.sh) / 2 + y, (plan.pw - plan.sw) / 2 + x, c) by {
        let (yu, xu, cu) = (y as usize, x as usize, c as usize);
        assert(g.at(yu as int, xu as int, cu as int) == out.at(
            plan.pt + yu,
            plan.pl + xu,
            cu as int,
        ));
    }
    assert(stands_within(g, out, (plan.ph - plan.sh) / 2, (plan.pw - plan.sw) / 2));
}

/// What is brought in stands within its margins: the region itself, or its resized image
/// where the plan scales it. The margins are its reflection.
pub proof fn law_regions_are_padded_in_place<
    S: Fn(usize, usize, usize) -> i64,
    W: Fn(usize, usize, usize, usize) -> u32,
    B: Fn(u32, u32, u32, u32, u32, u32) -> u32,
>(plan: PadPlan, sampler: Sampler<S, W, B>, img: ImageGrid, padded: ImageGrid)
    requires
        plan.wf(),
        image_shape(img) == (plan.rh as nat, plan.rw as nat, 3nat),
        plan.brings_image(sampler, img, padded),
    ensures
        image_shape(padded) == (plan.ph as nat, plan.pw as nat, 3nat),
        exists|g: ImageGrid|
            {
                &&& image_shape(g) == (plan.sh as nat, plan.sw as nat, 3nat)
                &&& #[trigger] stands_within(
                    g,
                    padded,
                    (plan.ph - plan.sh) / 2,
                    (plan.pw - plan.sw) / 2,
                )
                &&& plan.shrunk ==> sampler.resizes_image(img, plan.sh, plan.sw, g)
                &&& !plan.shrunk ==> g == img
            },
{
    let g = choose|g: ImageGrid| #[trigger] plan.brings_image_over(sampler, img, g, padded);
    assert(plan.brings_image_over(sampler, img, g, padded));
    let (top, left) = (plan.pt as int, plan.pl as int);
    assert forall|y: int, x: int, c: int| g.holds(y, x, c) implies #[trigger] g.at(y, x, c)
        == padded.at((plan.ph - plan.sh) / 2 + y, (plan.pw - plan.sw) / 2 + x, c) by {
        law_mirror_keeps_inner_positions(y, g.h() as int);
        law_mirror_keeps_inner_positions(x, g.w() as int);
        assert(padded.holds(top + y, left + x, c));
    }
    assert(stands_within(g, padded, (plan.ph - plan.sh) / 2, (plan.pw - plan.sw) / 2));
}

/// Cutting the margins off a padded picture gives the picture back that was padded, for
/// every plan: the region where it was not scaled, its resized image where it was.
pub proof fn law_cutting_undoes_padding<
    S: Fn(usize, usize, usize) -> i64,
    W: Fn(usize, usize, usize, usize) -> u32,
    B: Fn(u32, u32, u32, u32, u32, u32) -> u32,
>(plan: PadPlan, sampler: Sampler<S, W, B>, img: ImageGrid, padded: ImageGrid, back: ImageGrid)
    requires
        plan.wf(),
        image_shape(img) == (plan.rh as nat, plan.rw as nat, 3nat),
        plan.brings_image(sampler, img, padded),
        plan.takes_back(sampler, padded, back),
    ensures
        exists|scaled: ImageGrid, g: ImageGrid|
            {
                &&& #[trigger] g.same_as(scaled)
                &&& plan.shrunk ==> sampler.resizes_image(img, plan.sh, plan.sw, scaled)
                    && sampler.resizes_image(g, plan.rh, plan.rw, back)
                &&& !plan.shrunk ==> scaled == img && back == g
            },
{
    law_margins_are_cut_in_place(plan, sampler, padded, back);
    law_regions_are_padded_in_place(plan, sampler, img, padded);
    let (top, left) = ((plan.ph - plan.sh) / 2, (plan.pw - plan.sw) / 2);
    let g = choose|g: ImageGrid|
        {
            &&& image_shape(g) == (plan.sh as nat, plan.sw as nat, 3nat)
            &&& #[trigger] stands_within(g, padded, top, left)
            &&& plan.shrunk ==> sampler.resizes_image(g, plan.rh, plan.rw, back)
            &&& !plan.shrunk ==> back == g
        };
    let scaled = choose|s: ImageGrid|
        {
            &&& image_shape(s) == (plan.sh as nat, plan.sw as nat, 3nat)
            &&& #[trigger] stands_within(s, padded, top, left)
            &&& plan.shrunk ==> sampler.resizes_image(img, plan.sh, plan.sw, s)
            &&& !plan.shrunk ==> s == img
        };
    assert(stands_within(g, padded, top, left) && stands_within(scaled, padded, top, left));
    assert forall|y: int, x: int, c: int| g.holds(y, x, c) implies #[trigger] g.at(y, x, c)
        == scaled.at(y, x, c) by {
        assert(scaled.holds(y, x, c));
    }
    assert(g.same_as(scaled));
}

/// The mask that is brought in stands within the same margins as the picture.
pub proof fn law_masks_are_padded_in_place<
    S: Fn(usize, usize, usize) -> i64,
    W: Fn(usize, usize, usize, usize) -> u32,
    B: Fn(u32, u32, u32, u32, u32, u32) -> u32,
>(plan: PadPlan, sampler: Sampler<S, W, B>, mask: MaskGrid, padded: MaskGrid)
    requires
        plan.wf(),
        mask_shape(mask) == (plan.rh as nat, plan.rw as nat),
        plan.brings_mask(sampler, mask, padded),
    ensures
        mask_shape(padded) == (plan.ph as nat, plan.pw as nat),
        exists|g: MaskGrid|
            {
                &&& #[trigger] mask_shape(g) == (plan.sh as nat, plan.sw as nat)
                &&& forall|y: int, x: int|
                    g.holds(y, x) ==> #[trigger] g.at(y, x) == padded.at(
                        (plan.ph - plan.sh) / 2 + y,
                        (plan.pw - plan.sw) / 2 + x,
                    )
                &&& plan.shrunk ==> sampler.resizes_mask(mask, plan.sh, plan.sw, g)
                &&& !plan.shrunk ==> g == mask
            },
{
    let g = choose|g: MaskGrid| #[trigger] plan.brings_mask_over(sampler, mask, g, padded);
    assert(plan.brings_mask_over(sampler, mask, g, padded));
    let (top, left) = (plan.pt as int, plan.pl as int);
    assert forall|y: int, x: int| g.holds(y, x) implies #[trigger] g.at(y, x) == padded.at(
        (plan.ph - plan.sh) / 2 + y,
        (plan.pw - plan.sw) / 2 + x,
    ) by {
        law_mirror_keeps_inner_positions(y, g.h() as int);
        law_mirror_keeps_inner_positions(x, g.w() as int);
        assert(padded.holds(top + y, left + x));
    }
    assert(mask_shape(g) == (plan.sh as nat, plan.sw as nat));
}

/// An image in planes: sample `c` of row `y` and column `x` stands at
/// `c * h * w + y * w + x`.
pub proof fn law_planes_follow_one_another(g: ImageGrid, y: int, x: int, c: int)
    requires
        g.holds(y, x, c),
    ensures
        planar(g).len() == g.c() * g.h() * g.w(),
        planar(g)[c * (g.h() * g.w()) + y * g.w() + x] == g.at(y, x, c),
{
    let (h, w, n) = (g.h() as int, g.w() as int, g.c() as int);
    lemma_position(c, y, x, h, w);
    let p = (c * h + y) * w + x;
    assert(p == c * (h * w) + y * w + x) by (nonlinear_arith)
        requires
            p == (c * h + y) * w + x,
    ;
    crate::axes::lemma_line_position(c, n, y, h);
    crate::axes::lemma_line_position(c * h + y, n * h, x, w);
}

/// A mask as a plane: the 32-bit float one where it is set and zero where it is not, row
/// by row.
pub proof fn law_mask_plane_is_one_or_zero(g: MaskGrid, y: int, x: int)
    requires
        g.holds(y, x),
    ensures
        planar_mask(g).len() == g.h() * g.w(),
        g.at(y, x) ==> planar_mask(g)[y * g.w() + x] == 0x3f80_0000,
        !g.at(y, x) ==> planar_mask(g)[y * g.w() + x] == 0,
{
    let (h, w) = (g.h() as int, g.w() as int);
    crate::axes::lemma_line_position(y, h, x, w);
    vstd::arithmetic::div_mod::lemma_fundamental_div_mod_converse(y * w + x, w, y, x);
}

/// Planes read back: sample `c` of row `y` and column `x` comes from
/// `c * h * w + y * w + x`.
pub proof fn law_planes_are_read_in_place<U: Fn(u32) -> u32>(
    unscale: U,
    data: Seq<u32>,
    h: nat,
    w: nat,
    g: ImageGrid,
    y: usize,
    x: usize,
    c: usize,
)
    requires
        is_unscaled(unscale, data, h, w, g),
        y < h,
        x < w,
        c < 3,
    ensures
        image_shape(g) == (h, w, 3nat),
        call_ensures(
            unscale,
            (data[c * (h * w) + y * w + x],),
            g.at(y as int, x as int, c as int),
        ),
{
    assert(call_ensures(
        unscale,
        (data[(c * h + y) * w + x],),
        g.at(y as int, x as int, c as int),
    ));
    assert((c * h + y) * w + x == c * (h * w) + y * w + x) by (nonlinear_arith);
}

/// An image as a tensor and a tensor as an image: channel, row and column are its second,
/// third and fourth axis, the first being a batch of one.
pub proof fn law_tensors_hold_images_in_place<U: Fn(u32) -> u32>(
    unscale: U,
    g: ImageGrid,
    t: TensorVal,
    v: TensorVal,
    r: ImageGrid,
    y: usize,
    x: usize,
    c: usize,
)
    requires
        is_image_tensor(g, t),
        is_tensor_image(unscale, v, r),
    ensures
        t.dims == seq![1, g.c(), g.h(), g.w()],
        y < g.h() && x < g.w() && c < g.c() ==> t.elems[(c * g.h() + y) * g.w() + x] == g.at(
            y as int,
            x as int,
            c as int,
        ),
        image_shape(r) == (v.dims[2], v.dims[3], 3nat),
        y < v.dims[2] && x < v.dims[3] && c < 3 ==> call_ensures(
            unscale,
            (v.at4(0, c as int, y as int, x as int) as u32,),
            r.at(y as int, x as int, c as int),
        ),
{
    if y < g.h() && x < g.w() && c < g.c() {
        assert(g.holds(y as int, x as int, c as int));
        assert(t.at4(0, c as int, y as int, x as int) == g.at(y as int, x as int, c as int));
        assert(0 * t.dims[1] + c == c);
    }
}

/// A mask as a tensor: the 32-bit float one where it is set and zero where it is not.
pub proof fn law_tensors_hold_masks_in_place(g: MaskGrid, t: TensorVal, y: int, x: int)
    requires
        is_mask_tensor(g, t),
        g.holds(y, x),
    ensures
        t.dims == seq![1, 1, g.h(), g.w()],
        g.at(y, x) ==> t.elems[y * g.w() + x] == 0x3f80_0000,
        !g.at(y, x) ==> t.elems[y * g.w() + x] == 0,
{
    assert(t.at4(0, 0, y, x) == t.elems[((0 * t.dims[1] + 0) * t.dims[2] + y) * t.dims[3] + x]);
    let (e, d) = (0 * t.dims[1] + 0, t.dims[2] as int);
    assert(e * d == 0) by (nonlinear_arith)
        requires
            e == 0,
    ;
}

/// A picture of four bytes a pixel, row by row: colour `c` of a pixel is its byte `c`.
pub proof fn law_colours_are_the_first_three_bytes<N: Fn(u8) -> u32>(
    unit: N,
    rgba: Seq<u8>,
    h: nat,
    w: nat,
    g: ImageGrid,
    y: usize,
    x: usize,
    c: usize,
)
    requires
        is_decoded(unit, rgba, h, w, g),
        y < h,
        x < w,
        c < 3,
    ensures
        image_shape(g) == (h, w, 3nat),
        call_ensures(
            unit,
            (rgba[4 * (y * w + x) + c],),
            g.at(y as int, x as int, c as int),
        ),
{
    assert(call_ensures(
        unit,
        (rgba[(y * w + x) * 4 + c],),
        g.at(y as int, x as int, c as int),
    ));
}

/// A pixel is selected where its byte is 128 or more.
pub proof fn law_bright_pixels_are_selected(
    luma: Seq<u8>,
    h: nat,
    w: nat,
    g: MaskGrid,
    y: usize,
    x: usize,
)
    requires
        is_thresholded(luma, h, w, g),
        y < h,
        x < w,
    ensures
        mask_shape(g) == (h, w),
        g.at(y as int, x as int) == (luma[y * w + x] >= 128),
{
}

/// A picture is written as four bytes a pixel, row by row: its three colours, and the
/// fourth byte as it came.
pub proof fn law_pixels_are_written_in_place<Q: Fn(u32) -> u8>(
    quantize: Q,
    g: ImageGrid,
    rgba: Seq<u8>,
    out: Seq<u8>,
    y: int,
    x: int,
)
    requires
        is_composed(quantize, g, rgba, out),
        0 <= y < g.h(),
        0 <= x < g.w(),
    ensures
        out.len() == 4 * (g.h() * g.w()),
        rgba.len() == out.len(),
        call_ensures(quantize, (g.at(y, x, 0),), out[4 * (y * g.w() + x)]),
        call_ensures(quantize, (g.at(y, x, 1),), out[4 * (y * g.w() + x) + 1]),
        call_ensures(quantize, (g.at(y, x, 2),), out[4 * (y * g.w() + x) + 2]),
        out[4 * (y * g.w() + x) + 3] == rgba[4 * (y * g.w() + x) + 3],
{
    let p = (y * g.w() + x) * 4;
    let w = g.w() as int;
    assert(composes_byte(quantize, g, rgba, y, x, 0, out[crate::worker::byte_at(y, x, w, 0)]));
    assert(composes_byte(quantize, g, rgba, y, x, 1, out[crate::worker::byte_at(y, x, w, 1)]));
    assert(composes_byte(quantize, g, rgba, y, x, 2, out[crate::worker::byte_at(y, x, w, 2)]));
    assert(composes_byte(quantize, g, rgba, y, x, 3, out[crate::worker::byte_at(y, x, w, 3)]));
}

} // verus!
