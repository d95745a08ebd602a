//! Laws of the library: what its functions keep together.

use vstd::prelude::*;

use crate::blocks::is_reflect_padded;
use crate::fourier::{is_packed, is_unpacked, mirrors_even, mirrors_odd};
use crate::grid::{image_shape, mask_shape, ImageGrid, MaskGrid};
use crate::layout::{
    is_image_tensor, is_mask_tensor, is_tensor_image, is_unscaled, lemma_position, planar,
};
use crate::native::{padded_side, PadPlan, MIN_SIDE};
use crate::network::{result_dims, takes_size};
use crate::reflect::{is_padded_image, mirror};
use crate::report::{
    collapsed, final_message, fitting, is_space, text_bytes, KEPT_MESSAGE, MAX_MESSAGE,
};
use crate::resize::Sampler;
use crate::roi::{
    larger, lemma_float_nearest_small, selected, RoiInfo, Selection, EXACT_LIMIT,
};
use crate::tensor::{inside4, negated, TensorVal};
use crate::worker::{
    byte_at, composes_byte, is_composed, is_decoded, is_thresholded, MASK_THRESHOLD,
};

verus! {

/// A position on the line shows itself.
pub proof fn law_mirror_keeps_inner_positions(i: int, size: int)
    requires
        0 <= i < size,
    ensures
        mirror(i, size) == i,
{
    if size > 1 {
        vstd::arithmetic::div_mod::lemma_small_mod(i as nat, (2 * (size - 1)) as nat);
    }
}

/// Reflection at the near border: as far before the first item as after it.
pub proof fn law_mirror_is_even(i: int, size: int)
    ensures
        mirror(-i, size) == mirror(i, size),
{
    if size > 1 {
        let period = 2 * (size - 1);
        let q = i / period;
        vstd::arithmetic::div_mod::lemma_fundamental_div_mod(i, period);
        if i % period == 0 {
            assert(-i == (-q) * period + 0) by (nonlinear_arith)
                requires
                    i == period * q,
            ;
            vstd::arithmetic::div_mod::lemma_fundamental_div_mod_converse(-i, period, -q, 0);
        } else {
            let m = i % period;
            assert(-i == (-q - 1) * period + (period - m)) by (nonlinear_arith)
                requires
                    i == period * q + m,
            ;
            vstd::arithmetic::div_mod::lemma_fundamental_div_mod_converse(
                -i,
                period,
                -q - 1,
                period - m,
            );
        }
    }
}

/// The reflection repeats after every `2 * (size - 1)` positions.
pub proof fn law_mirror_is_periodic(i: int, size: int)
    ensures
        mirror(i + 2 * (size - 1), size) == mirror(i, size),
{
    if size > 1 {
        vstd::arithmetic::div_mod::lemma_mod_add_multiples_vanish(i, 2 * (size - 1));
    }
}

/// Reflection at the far border: as far past the last item as before it.
pub proof fn law_mirror_far_border(i: int, size: int)
    requires
        size >= 1,
    ensures
        mirror(size - 1 + i, size) == mirror(size - 1 - i, size),
{
    law_mirror_is_even(size - 1 + i, size);
    law_mirror_is_periodic(-(size - 1 + i), size);
}

/// A region cut out of an image can be pasted back into it.
pub proof fn law_cut_region_pastes_back(
    image: ImageGrid,
    mask: MaskGrid,
    s: Selection,
    roi: RoiInfo,
)
    requires
        image.c() == 3,
        mask.h() == image.h(),
        mask.w() == image.w(),
        s.bounds(mask),
        roi.cut_from(image, mask, s),
    ensures
        roi.pastes_into(image.h(), image.w()),
        roi.roi_h >= 3,
        roi.roi_w >= 3,
{
}

/// The selection lies inside the part of the image that is pasted over, and
/// its context surrounds it in the region.
pub proof fn law_selection_is_covered(
    image: ImageGrid,
    mask: MaskGrid,
    s: Selection,
    roi: RoiInfo,
    y: int,
    x: int,
)
    requires
        mask.h() == image.h(),
        mask.w() == image.w(),
        s.bounds(mask),
        roi.cut_from(image, mask, s),
        selected(mask, y, x),
    ensures
        roi.covers(y, x),
        s.context() <= y - roi.roi_y1 < roi.roi_h - s.context(),
        s.context() <= x - roi.roi_x1 < roi.roi_w - s.context(),
{
}

/// Pasting leaves every pixel outside the mask as it was and gives every pixel
/// inside it the model's value, read at the pixel's place in the region.
pub proof fn law_only_masked_pixels_change(
    image: ImageGrid,
    mask: MaskGrid,
    s: Selection,
    roi: RoiInfo,
    out_roi: ImageGrid,
    result: ImageGrid,
    y: int,
    x: int,
    c: int,
)
    requires
        image.c() == 3,
        mask.h() == image.h(),
        mask.w() == image.w(),
        s.bounds(mask),
        roi.cut_from(image, mask, s),
        roi.is_pasted(out_roi, image, result),
        image.holds(y, x, c),
        image.h() <= usize::MAX,
        image.w() <= usize::MAX,
    ensures
        result.at(y, x, c) == if mask.at(y, x) {
            out_roi.at(y - roi.roi_y1, x - roi.roi_x1, c)
        } else {
            image.at(y, x, c)
        },
{
    let ry = y - roi.roi_y1;
    let rx = x - roi.roi_x1;
    let (yu, xu, cu) = (y as usize, x as usize, c as usize);
    assert(result.at(yu as int, xu as int, cu as int) == roi.pasted(out_roi, image, y, x, c));
    if mask.at(y, x) {
        assert(selected(mask, y, x));
        law_selection_is_covered(image, mask, s, roi, y, x);
    }
    if roi.covers(y, x) {
        law_mirror_keeps_inner_positions(y, image.h() as int);
        law_mirror_keeps_inner_positions(x, image.w() as int);
        let (ryu, rxu) = (ry as usize, rx as usize);
        assert(roi.mask_roi.at(ryu as int, rxu as int) == mask.at(y, x));
        assert(roi.img_roi.at(ryu as int, rxu as int, cu as int) == image.at(y, x, c));
    }
}

/// The fourth byte of every pixel is written as it came.
pub proof fn law_alpha_is_kept<Q: Fn(u32) -> u8>(
    quantize: Q,
    result: ImageGrid,
    rgba: Seq<u8>,
    out: Seq<u8>,
    y: int,
    x: int,
)
    requires
        is_composed(quantize, result, rgba, out),
        0 <= y < result.h(),
        0 <= x < result.w(),
    ensures
        out.len() == rgba.len(),
        out[byte_at(y, x, result.w() as int, 3)] == rgba[byte_at(y, x, result.w() as int, 3)],
{
    assert(composes_byte(
        quantize,
        result,
        rgba,
        y,
        x,
        3,
        out[byte_at(y, x, result.w() as int, 3)],
    ));
}

/// From the bytes read to the bytes written: where `quantize` undoes `unit`, a
/// pixel that the mask does not select keeps all its bytes.
pub proof fn law_unmasked_bytes_are_kept<N: Fn(u8) -> u32, Q: Fn(u32) -> u8>(
    unit: N,
    quantize: Q,
    rgba: Seq<u8>,
    luma: Seq<u8>,
    image: ImageGrid,
    mask: MaskGrid,
    s: Selection,
    roi: RoiInfo,
    out_roi: ImageGrid,
    result: ImageGrid,
    out: Seq<u8>,
    y: int,
    x: int,
    k: int,
)
    requires
        forall|b: u8, v: u32, q: u8|
            #![trigger call_ensures(unit, (b,), v), call_ensures(quantize, (v,), q)]
            call_ensures(unit, (b,), v) && call_ensures(quantize, (v,), q) ==> q == b,
        is_decoded(unit, rgba, image.h(), image.w(), image),
        is_thresholded(luma, image.h(), image.w(), mask),
        s.bounds(mask),
        roi.cut_from(image, mask, s),
        roi.is_pasted(out_roi, image, result),
        is_composed(quantize, result, rgba, out),
        image.h() <= usize::MAX,
        image.w() <= usize::MAX,
        0 <= y < image.h(),
        0 <= x < image.w(),
        0 <= k < 4,
        luma[y * image.w() + x] <= MASK_THRESHOLD,
    ensures
        out[byte_at(y, x, image.w() as int, k)] == rgba[byte_at(y, x, image.w() as int, k)],
{
    let v = out[byte_at(y, x, image.w() as int, k)];
    assert(composes_byte(quantize, result, rgba, y, x, k, v));
    if k < 3 {
        let (yu, xu, ku) = (y as usize, x as usize, k as usize);
        assert(mask.at(yu as int, xu as int) == (luma[yu * image.w() + xu] > MASK_THRESHOLD));
        law_only_masked_pixels_change(image, mask, s, roi, out_roi, result, y, x, k);
        assert(call_ensures(
            unit,
            (rgba[byte_at(yu as int, xu as int, image.w() as int, ku as int)],),
            image.at(yu as int, xu as int, ku as int),
        ));
    }
}

/// A pixel that the mask selects is written as the model gave it, read at the
/// pixel's place in the region.
pub proof fn law_masked_bytes_are_the_model_s<Q: Fn(u32) -> u8>(
    quantize: Q,
    rgba: Seq<u8>,
    luma: Seq<u8>,
    image: ImageGrid,
    mask: MaskGrid,
    s: Selection,
    roi: RoiInfo,
    out_roi: ImageGrid,
    result: ImageGrid,
    out: Seq<u8>,
    y: int,
    x: int,
    k: int,
)
    requires
        image.c() == 3,
        is_thresholded(luma, image.h(), image.w(), mask),
        s.bounds(mask),
        roi.cut_from(image, mask, s),
        roi.is_pasted(out_roi, image, result),
        is_composed(quantize, result, rgba, out),
        image.h() <= usize::MAX,
        image.w() <= usize::MAX,
        0 <= y < image.h(),
        0 <= x < image.w(),
        0 <= k < 3,
        luma[y * image.w() + x] > MASK_THRESHOLD,
    ensures
        call_ensures(
            quantize,
            (out_roi.at(y - roi.roi_y1, x - roi.roi_x1, k),),
            out[byte_at(y, x, image.w() as int, k)],
        ),
{
    let v = out[byte_at(y, x, image.w() as int, k)];
    assert(composes_byte(quantize, result, rgba, y, x, k, v));
    let (yu, xu) = (y as usize, x as usize);
    assert(mask.at(yu as int, xu as int) == (luma[yu * image.w() + xu] > MASK_THRESHOLD));
    law_only_masked_pixels_change(image, mask, s, roi, out_roi, result, y, x, k);
}

/// The context around a selection is its longer side, for every side that a
/// 32-bit float holds exactly.
pub proof fn law_context_is_the_longer_side(mask: MaskGrid, s: Selection)
    requires
        s.bounds(mask),
        s.w() <= EXACT_LIMIT,
        s.h() <= EXACT_LIMIT,
    ensures
        s.context() == larger(s.w() as int, s.h() as int),
        s.roi_w() == s.w() + 2 * larger(s.w() as int, s.h() as int),
        s.roi_h() == s.h() + 2 * larger(s.w() as int, s.h() as int),
{
    lemma_float_nearest_small(s.w());
    lemma_float_nearest_small(s.h());
}

/// Padding keeps the image: inside the margins it stands unchanged.
pub proof fn law_padding_keeps_the_image(
    out: ImageGrid,
    g: ImageGrid,
    top: int,
    left: int,
    bottom: int,
    right: int,
    y: int,
    x: int,
    c: int,
)
    requires
        is_padded_image(out, g, top, left, bottom, right),
        top >= 0,
        left >= 0,
        bottom >= 0,
        right >= 0,
        g.holds(y, x, c),
    ensures
        out.at(y + top, x + left, c) == g.at(y, x, c),
{
    law_mirror_keeps_inner_positions(y, g.h() as int);
    law_mirror_keeps_inner_positions(x, g.w() as int);
    assert(out.holds(y + top, x + left, c));
}

/// A padded side is a multiple of eight, no shorter than the shortest one, no
/// shorter than what it holds, and no longer than needed.
pub proof fn law_padded_side(n: int)
    requires
        n >= 1,
    ensures
        padded_side(n) % 8 == 0,
        padded_side(n) >= MIN_SIDE,
        padded_side(n) >= n,
        padded_side(n) == MIN_SIDE || padded_side(n) < n + 8,
{
}

/// Cutting the margins off undoes the padding of a region that is not scaled.
pub proof fn law_crop_undoes_padding<
    S: Fn(usize, usize, usize) -> i64,
    W: Fn(usize, usize, usize, usize) -> u32,
    B: Fn(u32, u32, u32, u32, u32, u32) -> u32,
>(plan: PadPlan, sampler: Sampler<S, W, B>, img: ImageGrid, padded: ImageGrid, back: ImageGrid)
    requires
        plan.wf(),
        !plan.shrunk,
        image_shape(img) == (plan.rh as nat, plan.rw as nat, 3nat),
        plan.brings_image(sampler, img, padded),
        plan.takes_back(sampler, padded, back),
    ensures
        back.same_as(img),
{
    let img_s = choose|img_s: ImageGrid| #[trigger]
        plan.brings_image_over(sampler, img, img_s, padded);
    let g = choose|g: ImageGrid| #[trigger] plan.takes_back_over(sampler, padded, g, back);
    assert(plan.brings_image_over(sampler, img, img_s, padded));
    assert(plan.takes_back_over(sampler, padded, g, back));
    assert forall|y: int, x: int, c: int| back.holds(y, x, c) implies #[trigger] back.at(y, x, c)
        == img.at(y, x, c) by {
        let (yu, xu, cu) = (y as usize, x as usize, c as usize);
        assert(g.at(yu as int, xu as int, cu as int) == padded.at(
            plan.pt + yu,
            plan.pl + xu,
            cu as int,
        ));
        law_padding_keeps_the_image(
            padded,
            img,
            plan.pt as int,
            plan.pl as int,
            plan.ph - plan.sh - plan.pt,
            plan.pw - plan.sw - plan.pl,
            y,
            x,
            c,
        );
    }
}

/// The generator takes every region that was brought to its size.
pub proof fn law_generator_takes_planned_regions(
    plan: PadPlan,
    img: ImageGrid,
    mask: MaskGrid,
    img_t: TensorVal,
    mask_t: TensorVal,
)
    requires
        plan.wf(),
        image_shape(img) == (plan.ph as nat, plan.pw as nat, 3nat),
        mask_shape(mask) == (plan.ph as nat, plan.pw as nat),
        is_image_tensor(img, img_t),
        is_mask_tensor(mask, mask_t),
    ensures
        takes_size(img_t, mask_t),
        result_dims(img_t.dims) == img_t.dims,
{
    assert(result_dims(img_t.dims) =~= img_t.dims);
    assert(mask_t.dims =~= img_t.dims.update(1, 1));
}

/// An image that goes into a tensor and comes out of it unscaled is the same.
pub proof fn law_tensor_gives_the_image_back<U: Fn(u32) -> u32>(
    unscale: U,
    g: ImageGrid,
    t: TensorVal,
    r: ImageGrid,
)
    requires
        forall|v: u32, q: u32| #[trigger] call_ensures(unscale, (v,), q) ==> q == v,
        g.c() == 3,
        g.h() <= usize::MAX,
        g.w() <= usize::MAX,
        is_image_tensor(g, t),
        is_tensor_image(unscale, t, r),
    ensures
        r.same_as(g),
{
    assert forall|y: int, x: int, c: int| r.holds(y, x, c) implies #[trigger] r.at(y, x, c)
        == g.at(y, x, c) by {
        let (yu, xu, cu) = (y as usize, x as usize, c as usize);
        assert(call_ensures(
            unscale,
            (t.at4(0, cu as int, yu as int, xu as int) as u32,),
            r.at(yu as int, xu as int, cu as int),
        ));
        assert(t.at4(0, c, y, x) == g.at(y, x, c));
    }
}

/// The same for the planes that a session takes and gives.
pub proof fn law_planes_give_the_image_back<U: Fn(u32) -> u32>(
    unscale: U,
    g: ImageGrid,
    r: ImageGrid,
)
    requires
        forall|v: u32, q: u32| #[trigger] call_ensures(unscale, (v,), q) ==> q == v,
        g.c() == 3,
        g.h() <= usize::MAX,
        g.w() <= usize::MAX,
        is_unscaled(unscale, planar(g), g.h(), g.w(), r),
    ensures
        r.same_as(g),
{
    assert forall|y: int, x: int, c: int| r.holds(y, x, c) implies #[trigger] r.at(y, x, c)
        == g.at(y, x, c) by {
        let (yu, xu, cu) = (y as usize, x as usize, c as usize);
        let (h, w) = (g.h() as int, g.w() as int);
        let p = (c * h + y) * w + x;
        lemma_position(c, y, x, h, w);
        assert(0 <= p < 3 * h * w) by (nonlinear_arith)
            requires
                p == (c * h + y) * w + x,
                0 <= c < 3,
                0 <= y < h,
                0 <= x < w,
        ;
        assert(call_ensures(
            unscale,
            (planar(g)[(cu * h + yu) * w + xu],),
            r.at(yu as int, xu as int, cu as int),
        ));
    }
}

/// Unpacking undoes packing.
pub proof fn law_unpack_undoes_pack(
    re: TensorVal,
    im: TensorVal,
    packed: TensorVal,
    re2: TensorVal,
    im2: TensorVal,
    i: int,
    j: int,
    k: int,
    l: int,
)
    requires
        re.dims.len() == 4,
        is_packed(re, im, packed),
        is_unpacked(packed, re2, im2),
        inside4(re.dims, i, j, k, l),
    ensures
        re2.dims == re.dims,
        im2.dims == im.dims,
        re2.at4(i, j, k, l) == re.at4(i, j, k, l),
        im2.at4(i, j, k, l) == im.at4(i, j, k, l),
{
    assert(re2.dims =~= re.dims);
    assert(packed.at4(i, 2 * j, k, l) == re.at4(i, j, k, l));
    assert(packed.at4(i, 2 * j + 1, k, l) == im.at4(i, j, k, l));
}

/// A mirrored spectrum is that of a real signal: the bins on both sides of the
/// first one are conjugates, and the first and the middle bin are real.
pub proof fn law_mirrored_spectrum_is_hermitian(
    hr: TensorVal,
    hi: TensorVal,
    w: nat,
    fr: TensorVal,
    fi: TensorVal,
    i: int,
    j: int,
    k: int,
    l: int,
)
    requires
        hr.dims.len() == 4,
        hi.dims == hr.dims,
        hr.dims[3] == w / 2 + 1,
        mirrors_even(hr, w, fr),
        mirrors_odd(hi, w, fi),
        inside4(fr.dims, i, j, k, l),
    ensures
        1 <= l ==> fr.at4(i, j, k, w - l) == fr.at4(i, j, k, l),
        1 <= l && w < 2 * l ==> fi.at4(i, j, k, l) == negated(fi.at4(i, j, k, w - l)),
        l == 0 || 2 * l == w ==> fi.at4(i, j, k, l) == 0,
{
    if l >= 1 {
        assert(inside4(fr.dims, i, j, k, w - l));
        assert(fr.at4(i, j, k, w - l) == if w - l < hr.dims[3] {
            hr.at4(i, j, k, w - l)
        } else {
            hr.at4(i, j, k, l)
        });
    }
}

/// Reflection keeps the tensor: inside the margins it stands unchanged.
pub proof fn law_reflection_keeps_the_tensor(
    x: TensorVal,
    p: int,
    y: TensorVal,
    i: int,
    j: int,
    k: int,
    l: int,
)
    requires
        x.dims.len() == 4,
        p >= 0,
        is_reflect_padded(x, p, y),
        inside4(x.dims, i, j, k, l),
    ensures
        y.at4(i, j, k + p, l + p) == x.at4(i, j, k, l),
{
    law_mirror_keeps_inner_positions(k, x.dims[2] as int);
    law_mirror_keeps_inner_positions(l, x.dims[3] as int);
    assert(inside4(y.dims, i, j, k + p, l + p));
}

/// A collapsed text has blanks for its only white space, none at its ends and no
/// two side by side: it is one line.
pub proof fn law_collapsed_text_is_one_line(s: Seq<char>)
    ensures
        collapsed(s).len() > 0 ==> !is_space(collapsed(s).first()) && !is_space(
            collapsed(s).last(),
        ),
        forall|i: int|
            0 <= i < collapsed(s).len() && is_space(#[trigger] collapsed(s)[i]) ==> collapsed(s)[i]
                == ' ',
        forall|i: int|
            0 < i < collapsed(s).len() && is_space(#[trigger] collapsed(s)[i]) ==> !is_space(
                collapsed(s)[i - 1],
            ),
    decreases s.len(),
{
    if s.len() > 0 {
        law_collapsed_text_is_one_line(s.drop_last());
    }
}

/// Collapsing keeps every character that is no white space, in its order.
pub proof fn law_collapsing_keeps_the_words(s: Seq<char>)
    ensures
        collapsed(s).filter(|c: char| !is_space(c)) == s.filter(|c: char| !is_space(c)),
    decreases s.len(),
{
    let keep = |c: char| !is_space(c);
    reveal(Seq::filter);
    if s.len() > 0 {
        let rest = collapsed(s.drop_last());
        law_collapsing_keeps_the_words(s.drop_last());
        let blank = rest.push(' ');
        assert(blank.drop_last() =~= rest);
        assert(blank.filter(keep) == rest.filter(keep));
        assert(blank.push(s.last()).drop_last() =~= blank);
        assert(rest.push(s.last()).drop_last() =~= rest);
    }
}

/// The message that a run ends with takes no more bytes than the longest one.
pub proof fn law_final_message_is_short(chain: Seq<char>, plain: Seq<char>)
    ensures
        text_bytes(final_message(chain, plain)) <= MAX_MESSAGE,
{
    let s = if collapsed(chain).len() > 0 {
        collapsed(chain)
    } else {
        plain
    };
    if text_bytes(s) > MAX_MESSAGE {
        let head = s.take(fitting(s, KEPT_MESSAGE as nat) as int);
        lemma_fitting(s, KEPT_MESSAGE as nat);
        reveal_strlit("...");
        let one = head.push('.');
        let two = one.push('.');
        let three = two.push('.');
        assert(three =~= head + "..."@);
        assert(one.drop_last() =~= head);
        assert(text_bytes(one) == text_bytes(head) + 1);
        assert(two.drop_last() =~= one);
        assert(text_bytes(two) == text_bytes(one) + 1);
        assert(three.drop_last() =~= two);
        assert(text_bytes(three) == text_bytes(two) + 1);
    }
}

/// The leading characters that fit take no more than the room.
proof fn lemma_fitting(s: Seq<char>, room: nat)
    ensures
        fitting(s, room) <= s.len(),
        text_bytes(s.take(fitting(s, room) as int)) <= room,
    decreases s.len(),
{
    if text_bytes(s) <= room {
        assert(s.take(s.len() as int) =~= s);
    } else {
        lemma_fitting(s.drop_last(), room);
        let n = fitting(s.drop_last(), room) as int;
        assert(s.drop_last().take(n) =~= s.take(n));
    }
}

} // verus!
