//! Laws of whole runs: from the picture and its mask to the filled picture.

use candle_core::Device;
use vstd::prelude::*;

use crate::error::WorkerError;
use crate::grid::{image_shape, mask_shape, ImageGrid, MaskGrid};
use crate::laws::{law_cut_region_pastes_back, law_only_masked_pixels_change};
use crate::native::{native_over, run_candle_inpaint, NativeSteps, PadPlan};
use crate::network::CandleInpainter;
use crate::picture_laws::{
    law_margins_are_cut_in_place, law_mask_plane_is_one_or_zero, law_masks_are_padded_in_place,
    law_planes_are_read_in_place, law_planes_follow_one_another, law_regions_are_padded_in_place,
    stands_within,
};
use crate::resize::Sampler;
use crate::roi::{postprocess, preprocess, selected, RoiInfo, Selection};
use crate::session::{
    ends_with, inpaint, is_session_input, pastes_output, run_ort_inpaint, session_over,
    SessionInput, SessionOutput,
};
use crate::tensor::TensorVal;

verus! {

/// The way of a region through the generator. `small` and `flags` are the region and its
/// mask, resized where the plan scales them; they stand in the tensors that go in with the
/// margins of the plan above and to the left. `cut` is read from the tensor that comes out
/// within the same margins, and `back` is it, resized where the plan scales.
pub open spec fn passes_the_generator<
    S: Fn(usize, usize, usize) -> i64,
    W: Fn(usize, usize, usize, usize) -> u32,
    B: Fn(u32, u32, u32, u32, u32, u32) -> u32,
    F: Fn(usize, usize) -> usize,
    U: Fn(u32) -> u32,
    T: Fn(usize, usize, usize) -> (u32, u32),
>(
    model: CandleInpainter,
    roi: RoiInfo,
    sampler: Sampler<S, W, B>,
    scaled: F,
    unscale: U,
    wave: T,
    plan: PadPlan,
    small: ImageGrid,
    flags: MaskGrid,
    img_t: TensorVal,
    mask_t: TensorVal,
    out_t: TensorVal,
    cut: ImageGrid,
    back: ImageGrid,
) -> bool {
    let (top, left) = ((plan.ph - plan.sh) / 2, (plan.pw - plan.sw) / 2);
    &&& plan.plans(scaled, roi.roi_h, roi.roi_w)
    &&& plan.shrunk ==> sampler.resizes_image(roi.img_roi, plan.sh, plan.sw, small)
    &&& plan.shrunk ==> sampler.resizes_mask(roi.mask_roi, plan.sh, plan.sw, flags)
    &&& !plan.shrunk ==> small == roi.img_roi && flags == roi.mask_roi
    &&& img_t.dims == seq![1, 3, plan.ph as nat, plan.pw as nat]
    &&& mask_t.dims == seq![1, 1, plan.ph as nat, plan.pw as nat]
    &&& forall|y: int, x: int, c: int|
        0 <= y < plan.sh && 0 <= x < plan.sw && 0 <= c < 3 ==> img_t.at4(0, c, top + y, left + x)
            == #[trigger] small.at(y, x, c)
    &&& forall|y: int, x: int|
        0 <= y < plan.sh && 0 <= x < plan.sw ==> mask_t.at4(0, 0, top + y, left + x)
            == if #[trigger] flags.at(y, x) {
            0x3f80_0000u64
        } else {
            0
        }
    &&& model.runs(wave, img_t, mask_t, out_t)
    &&& image_shape(cut) == (plan.sh as nat, plan.sw as nat, 3nat)
    &&& forall|y: int, x: int, c: int|
        0 <= y < plan.sh && 0 <= x < plan.sw && 0 <= c < 3 ==> call_ensures(
            unscale,
            (out_t.at4(0, c, top + y, left + x) as u32,),
            #[trigger] cut.at(y, x, c),
        )
    &&& plan.shrunk ==> sampler.resizes_image(cut, roi.roi_h, roi.roi_w, back)
    &&& !plan.shrunk ==> back == cut
}

/// A run of the generator on a region: a pixel outside the mask stays as it was, and one
/// inside it gets what comes back from the generator at the pixel's place in the region.
pub proof fn law_native_run_fills_the_mask<
    S: Fn(usize, usize, usize) -> i64,
    W: Fn(usize, usize, usize, usize) -> u32,
    B: Fn(u32, u32, u32, u32, u32, u32) -> u32,
    F: Fn(usize, usize) -> usize,
    U: Fn(u32) -> u32,
    T: Fn(usize, usize, usize) -> (u32, u32),
>(
    model: CandleInpainter,
    device: Device,
    image: ImageGrid,
    mask: MaskGrid,
    s: Selection,
    roi: RoiInfo,
    sampler: Sampler<S, W, B>,
    scaled: F,
    unscale: U,
    wave: T,
    result: ImageGrid,
)
    requires
        call_ensures(
            run_candle_inpaint::<S, W, B, F, U, T>,
            (&model, &device, &image, &roi, &sampler, &scaled, &unscale, &wave),
            Ok::<ImageGrid, WorkerError>(result),
        ),
        image.c() == 3,
        mask_shape(mask) == (image.h(), image.w()),
        image.h() <= usize::MAX,
        image.w() <= usize::MAX,
        s.bounds(mask),
        roi.cut_from(image, mask, s),
    ensures
        image_shape(result) == image_shape(image),
        exists|
            plan: PadPlan,
            small: ImageGrid,
            flags: MaskGrid,
            img_t: TensorVal,
            mask_t: TensorVal,
            out_t: TensorVal,
            cut: ImageGrid,
            back: ImageGrid,
        |
            {
                &&& #[trigger] passes_the_generator(
                    model,
                    roi,
                    sampler,
                    scaled,
                    unscale,
                    wave,
                    plan,
                    small,
                    flags,
                    img_t,
                    mask_t,
                    out_t,
                    cut,
                    back,
                )
                &&& fills(image, mask, roi, back, result)
            },
{
    let t = choose|t: NativeSteps|
        {
            &&& #[trigger] native_over(model, roi, sampler, scaled, unscale, wave, t)
            &&& roi.is_pasted(t.back, image, result)
        };
    assert(native_over(model, roi, sampler, scaled, unscale, wave, t));
    law_cut_region_pastes_back(image, mask, s, roi);
    let plan = t.plan;
    let (top, left) = ((plan.ph - plan.sh) / 2, (plan.pw - plan.sw) / 2);
    law_regions_are_padded_in_place(plan, sampler, roi.img_roi, t.img);
    law_masks_are_padded_in_place(plan, sampler, roi.mask_roi, t.mask);
    law_margins_are_cut_in_place(plan, sampler, t.out, t.back);
    let small = choose|g: ImageGrid|
        {
            &&& image_shape(g) == (plan.sh as nat, plan.sw as nat, 3nat)
            &&& #[trigger] stands_within(g, t.img, top, left)
            &&& plan.shrunk ==> sampler.resizes_image(roi.img_roi, plan.sh, plan.sw, g)
            &&& !plan.shrunk ==> g == roi.img_roi
        };
    let flags = choose|g: MaskGrid|
        {
            &&& #[trigger] mask_shape(g) == (plan.sh as nat, plan.sw as nat)
            &&& forall|y: int, x: int|
                g.holds(y, x) ==> #[trigger] g.at(y, x) == t.mask.at(top + y, left + x)
            &&& plan.shrunk ==> sampler.resizes_mask(roi.mask_roi, plan.sh, plan.sw, g)
            &&& !plan.shrunk ==> g == roi.mask_roi
        };
    let cut = choose|g: ImageGrid|
        {
            &&& image_shape(g) == (plan.sh as nat, plan.sw as nat, 3nat)
            &&& #[trigger] stands_within(g, t.out, top, left)
            &&& plan.shrunk ==> sampler.resizes_image(g, plan.rh, plan.rw, t.back)
            &&& !plan.shrunk ==> t.back == g
        };
    assert(stands_within(small, t.img, top, left));
    assert(stands_within(cut, t.out, top, left));
    assert forall|y: int, x: int, c: int|
        0 <= y < plan.sh && 0 <= x < plan.sw && 0 <= c < 3 implies t.img_t.at4(
        0,
        c,
        top + y,
        left + x,
    ) == #[trigger] small.at(y, x, c) by {
        assert(small.holds(y, x, c));
        assert(t.img.holds(top + y, left + x, c));
    }
    assert forall|y: int, x: int| 0 <= y < plan.sh && 0 <= x < plan.sw implies t.mask_t.at4(
        0,
        0,
        top + y,
        left + x,
    ) == if #[trigger] flags.at(y, x) {
        0x3f80_0000u64
    } else {
        0
    } by {
        assert(flags.holds(y, x));
        assert(t.mask.holds(top + y, left + x));
    }
    assert forall|y: int, x: int, c: int|
        0 <= y < plan.sh && 0 <= x < plan.sw && 0 <= c < 3 implies call_ensures(
        unscale,
        (t.out_t.at4(0, c, top + y, left + x) as u32,),
        #[trigger] cut.at(y, x, c),
    ) by {
        assert(cut.holds(y, x, c));
        let (yu, xu, cu) = ((top + y) as usize, (left + x) as usize, c as usize);
        assert(call_ensures(
            unscale,
            (t.out_t.at4(0, cu as int, yu as int, xu as int) as u32,),
            t.out.at(yu as int, xu as int, cu as int),
        ));
    }
    lemma_fills(image, mask, s, roi, t.back, result);
    assert(passes_the_generator(
        model,
        roi,
        sampler,
        scaled,
        unscale,
        wave,
        plan,
        small,
        flags,
        t.img_t,
        t.mask_t,
        t.out_t,
        cut,
        t.back,
    ));
}

/// The result shows the region that came back where the mask is set and the image where it
/// is not.
pub open spec fn fills(
    image: ImageGrid,
    mask: MaskGrid,
    roi: RoiInfo,
    back: ImageGrid,
    result: ImageGrid,
) -> bool {
    forall|y: int, x: int, c: int|
        image.holds(y, x, c) ==> #[trigger] result.at(y, x, c) == if mask.at(y, x) {
            back.at(y - roi.roi_y1, x - roi.roi_x1, c)
        } else {
            image.at(y, x, c)
        }
}

proof fn lemma_fills(
    image: ImageGrid,
    mask: MaskGrid,
    s: Selection,
    roi: RoiInfo,
    back: ImageGrid,
    result: ImageGrid,
)
    requires
        image.c() == 3,
        mask_shape(mask) == (image.h(), image.w()),
        image.h() <= usize::MAX,
        image.w() <= usize::MAX,
        s.bounds(mask),
        roi.cut_from(image, mask, s),
        roi.is_pasted(back, image, result),
    ensures
        fills(image, mask, roi, back, result),
{
    assert forall|y: int, x: int, c: int| image.holds(y, x, c) implies #[trigger] result.at(
        y,
        x,
        c,
    ) == if mask.at(y, x) {
        back.at(y - roi.roi_y1, x - roi.roi_x1, c)
    } else {
        image.at(y, x, c)
    } by {
        law_only_masked_pixels_change(image, mask, s, roi, back, result, y, x, c);
    }
}

/// What a session is given and what is made of its answer: `planes` and `flags` are the
/// region and its mask at 512 by 512, plane by plane; `out` is its answer, one picture of
/// three planes, and `back` that picture resized to the region.
pub open spec fn passes_the_session<
    S: Fn(usize, usize, usize) -> i64,
    W: Fn(usize, usize, usize, usize) -> u32,
    B: Fn(u32, u32, u32, u32, u32, u32) -> u32,
    U: Fn(u32) -> u32,
>(
    roi: RoiInfo,
    sampler: Sampler<S, W, B>,
    unscale: U,
    small: ImageGrid,
    flags: MaskGrid,
    a: Seq<u32>,
    b: Seq<u32>,
    out: SessionOutput,
    img: ImageGrid,
    back: ImageGrid,
) -> bool {
    &&& sampler.resizes_image(roi.img_roi, 512, 512, small)
    &&& sampler.resizes_mask(roi.mask_roi, 512, 512, flags)
    &&& a.len() == 3 * 512 * 512
    &&& b.len() == 512 * 512
    &&& forall|y: int, x: int, c: int|
        0 <= y < 512 && 0 <= x < 512 && 0 <= c < 3 ==> a[c * (512 * 512) + y * 512 + x]
            == #[trigger] small.at(y, x, c)
    &&& forall|y: int, x: int|
        0 <= y < 512 && 0 <= x < 512 ==> b[y * 512 + x] == if #[trigger] flags.at(y, x) {
            0x3f80_0000u32
        } else {
            0
        }
    &&& out.shape@.len() == 4
    &&& (out.shape@[0], out.shape@[1]) == (1usize, 3usize)
    &&& out.data@.len() == 3 * out.shape@[2] * out.shape@[3]
    &&& image_shape(img) == (out.shape@[2] as nat, out.shape@[3] as nat, 3nat)
    &&& forall|y: usize, x: usize, c: usize|
        y < out.shape@[2] && x < out.shape@[3] && c < 3 ==> call_ensures(
            unscale,
            (out.data@[c * (out.shape@[2] * out.shape@[3]) + y * out.shape@[3] + x],),
            #[trigger] img.at(y as int, x as int, c as int),
        )
    &&& sampler.resizes_image(img, roi.roi_h, roi.roi_w, back)
}

/// A session run: an image without a selected pixel comes back as it is, a session of
/// another shape is refused, a failure of the session is passed on, and otherwise a pixel
/// outside the mask stays as it was and one inside it gets what the session gave at the
/// pixel's place in the region.
pub proof fn law_session_run_fills_the_mask<
    S: Fn(usize, usize, usize) -> i64,
    W: Fn(usize, usize, usize, usize) -> u32,
    B: Fn(u32, u32, u32, u32, u32, u32) -> u32,
    U: Fn(u32) -> u32,
    I: FnOnce(Vec<u32>, Vec<u32>) -> Result<SessionOutput, WorkerError>,
>(
    inputs: usize,
    outputs: usize,
    infer: I,
    image: ImageGrid,
    mask: MaskGrid,
    sampler: Sampler<S, W, B>,
    unscale: U,
    r: Result<ImageGrid, WorkerError>,
)
    requires
        call_ensures(
            inpaint::<S, W, B, U, I>,
            (inputs, outputs, infer, &image, &mask, &sampler, &unscale),
            r,
        ),
        image.c() == 3,
        mask_shape(mask) == (image.h(), image.w()),
        image.h() <= usize::MAX,
        image.w() <= usize::MAX,
    ensures
        ({
            let none = forall|y: int, x: int|
                0 <= y < mask.h() && 0 <= x < mask.w() ==> !#[trigger] mask.at(y, x);
            &&& none ==> r is Ok && r->Ok_0.same_as(image)
            &&& !none && inputs != 2 ==> r == Err::<ImageGrid, WorkerError>(
                WorkerError::InputCount(inputs),
            )
            &&& !none && inputs == 2 && outputs == 0 ==> r == Err::<ImageGrid, WorkerError>(
                WorkerError::NoOutputs,
            )
            &&& !none && inputs == 2 && outputs >= 1 && r is Ok ==> exists|
                s: Selection,
                roi: RoiInfo,
                small: ImageGrid,
                flags: MaskGrid,
                a: Vec<u32>,
                b: Vec<u32>,
                out: SessionOutput,
                img: ImageGrid,
                back: ImageGrid,
            |
                {
                    &&& s.bounds(mask)
                    &&& #[trigger] roi.cut_from(image, mask, s)
                    &&& #[trigger] call_ensures(
                        infer,
                        (a, b),
                        Ok::<SessionOutput, WorkerError>(out),
                    )
                    &&& #[trigger] passes_the_session(
                        roi,
                        sampler,
                        unscale,
                        small,
                        flags,
                        a@,
                        b@,
                        out,
                        img,
                        back,
                    )
                    &&& fills(image, mask, roi, back, r->Ok_0)
                }
        }),
{
    let none = forall|y: int, x: int|
        0 <= y < mask.h() && 0 <= x < mask.w() ==> !#[trigger] mask.at(y, x);
    if none {
        assert(!crate::roi::any_selected(mask));
    } else {
        let (y, x) = choose|y: int, x: int|
            0 <= y < mask.h() && 0 <= x < mask.w() && #[trigger] mask.at(y, x);
        assert(selected(mask, y, x));
        if inputs == 2 && outputs >= 1 && r is Ok {
            let (t, o) = choose|t: SessionInput, o: Result<SessionOutput, WorkerError>|
                #![trigger is_session_input(image, mask, sampler, t), call_ensures(infer, (t.a, t.b), o)]
                {
                    &&& is_session_input(image, mask, sampler, t)
                    &&& call_ensures(infer, (t.a, t.b), o)
                    &&& ends_with(o, image, t.roi, sampler, unscale, r)
                };
            assert(is_session_input(image, mask, sampler, t));
            assert(ends_with(o, image, t.roi, sampler, unscale, r));
            let out = o->Ok_0;
            assert(pastes_output(out, image, t.roi, sampler, unscale, r->Ok_0));
            let (img, back) = choose|img: ImageGrid, back: ImageGrid|
                {
                    &&& #[trigger] session_over(out, t.roi, sampler, unscale, img, back)
                    &&& t.roi.is_pasted(back, image, r->Ok_0)
                };
            assert(session_over(out, t.roi, sampler, unscale, img, back));
            lemma_fills(image, mask, t.selection, t.roi, back, r->Ok_0);
            lemma_session_planes(t, out, sampler, unscale, img, back, image, mask);
            assert(call_ensures(infer, (t.a, t.b), Ok::<SessionOutput, WorkerError>(out)));
            assert(t.roi.cut_from(image, mask, t.selection));
        }
    }
}

proof fn lemma_session_planes<
    S: Fn(usize, usize, usize) -> i64,
    W: Fn(usize, usize, usize, usize) -> u32,
    B: Fn(u32, u32, u32, u32, u32, u32) -> u32,
    U: Fn(u32) -> u32,
>(
    t: SessionInput,
    out: SessionOutput,
    sampler: Sampler<S, W, B>,
    unscale: U,
    img: ImageGrid,
    back: ImageGrid,
    image: ImageGrid,
    mask: MaskGrid,
)
    requires
        image.c() == 3,
        is_session_input(image, mask, sampler, t),
        session_over(out, t.roi, sampler, unscale, img, back),
    ensures
        passes_the_session(
            t.roi,
            sampler,
            unscale,
            t.img_512,
            t.mask_512,
            t.a@,
            t.b@,
            out,
            img,
            back,
        ),
{
    let (g, m) = (t.img_512, t.mask_512);
    assert(image_shape(g) == (512nat, 512nat, 3nat));
    assert(mask_shape(m) == (512nat, 512nat));
    assert forall|y: int, x: int, c: int|
        0 <= y < 512 && 0 <= x < 512 && 0 <= c < 3 implies t.a@[c * (512 * 512) + y * 512 + x]
        == #[trigger] g.at(y, x, c) by {
        law_planes_follow_one_another(g, y, x, c);
    }
    assert forall|y: int, x: int| 0 <= y < 512 && 0 <= x < 512 implies t.b@[y * 512 + x]
        == if #[trigger] m.at(y, x) {
        0x3f80_0000u32
    } else {
        0
    } by {
        law_mask_plane_is_one_or_zero(m, y, x);
    }
    assert forall|y: usize, x: usize, c: usize|
        y < out.shape@[2] && x < out.shape@[3] && c < 3 implies call_ensures(
        unscale,
        (out.data@[c * (out.shape@[2] * out.shape@[3]) + y * out.shape@[3] + x],),
        #[trigger] img.at(y as int, x as int, c as int),
    ) by {
        law_planes_are_read_in_place(
            unscale,
            out.data@,
            out.shape@[2] as nat,
            out.shape@[3] as nat,
            img,
            y,
            x,
            c,
        );
    }
}

/// Preparing a picture succeeds exactly where a pixel is selected: it cuts the region around
/// the tightest box and resizes it and its mask to 512 by 512.
pub proof fn law_preparing_cuts_the_selection<
    S: Fn(usize, usize, usize) -> i64,
    W: Fn(usize, usize, usize, usize) -> u32,
    B: Fn(u32, u32, u32, u32, u32, u32) -> u32,
>(
    image: ImageGrid,
    mask: MaskGrid,
    sampler: Sampler<S, W, B>,
    r: Result<(ImageGrid, MaskGrid, RoiInfo), WorkerError>,
)
    requires
        call_ensures(preprocess::<S, W, B>, (&image, &mask, &sampler), r),
    ensures
        r is Err ==> r->Err_0 is EmptyMask && forall|y: int, x: int|
            0 <= y < mask.h() && 0 <= x < mask.w() ==> !#[trigger] mask.at(y, x),
        r is Ok ==> exists|y: int, x: int|
            0 <= y < mask.h() && 0 <= x < mask.w() && #[trigger] mask.at(y, x),
        r is Ok ==> {
            let (a, b, roi) = r->Ok_0;
            &&& exists|s: Selection| s.bounds(mask) && #[trigger] roi.cut_from(image, mask, s)
            &&& sampler.resizes_image(roi.img_roi, 512, 512, a)
            &&& sampler.resizes_mask(roi.mask_roi, 512, 512, b)
        },
{
    if r is Err {
        assert forall|y: int, x: int| 0 <= y < mask.h() && 0 <= x < mask.w() implies !#[trigger] mask.at(
            y,
            x,
        ) by {
            assert(!selected(mask, y, x));
        }
    } else {
        let (a, b, roi) = r->Ok_0;
        let s = choose|s: Selection| #[trigger] s.bounds(mask) && roi.cut_from(image, mask, s);
        assert(s.bounds(mask) && roi.cut_from(image, mask, s));
        let x = choose|x: int| selected(mask, s.y1 as int, x);
        assert(mask.at(s.y1 as int, x));
    }
}

/// Finishing a picture resizes the model's output to the region and shows it where the mask
/// is set; elsewhere the image stays.
pub proof fn law_finishing_fills_the_mask<
    S: Fn(usize, usize, usize) -> i64,
    W: Fn(usize, usize, usize, usize) -> u32,
    B: Fn(u32, u32, u32, u32, u32, u32) -> u32,
>(
    out: ImageGrid,
    image: ImageGrid,
    mask: MaskGrid,
    s: Selection,
    roi: RoiInfo,
    sampler: Sampler<S, W, B>,
    result: ImageGrid,
)
    requires
        call_ensures(postprocess::<S, W, B>, (&out, &image, &roi, &sampler), result),
        image.c() == 3,
        mask_shape(mask) == (image.h(), image.w()),
        image.h() <= usize::MAX,
        image.w() <= usize::MAX,
        s.bounds(mask),
        roi.cut_from(image, mask, s),
    ensures
        image_shape(result) == image_shape(image),
        exists|back: ImageGrid|
            {
                &&& sampler.resizes_image(out, roi.roi_h, roi.roi_w, back)
                &&& #[trigger] fills(image, mask, roi, back, result)
            },
{
    let back = choose|back: ImageGrid|
        #![trigger roi.is_pasted(back, image, result)]
        sampler.resizes_image(out, roi.roi_h, roi.roi_w, back) && roi.is_pasted(
            back,
            image,
            result,
        );
    assert(roi.is_pasted(back, image, result));
    lemma_fills(image, mask, s, roi, back, result);
}

/// A session run on a prepared picture: the session is given the planes of the picture and
/// of its mask, and where it is used its answer fills the mask.
pub proof fn law_prepared_session_run_fills_the_mask<
    S: Fn(usize, usize, usize) -> i64,
    W: Fn(usize, usize, usize, usize) -> u32,
    B: Fn(u32, u32, u32, u32, u32, u32) -> u32,
    U: Fn(u32) -> u32,
    I: FnOnce(Vec<u32>, Vec<u32>) -> Result<SessionOutput, WorkerError>,
>(
    inputs: usize,
    outputs: usize,
    infer: I,
    image: ImageGrid,
    mask: MaskGrid,
    s: Selection,
    small: ImageGrid,
    flags: MaskGrid,
    roi: RoiInfo,
    sampler: Sampler<S, W, B>,
    unscale: U,
    r: Result<ImageGrid, WorkerError>,
)
    requires
        call_ensures(
            run_ort_inpaint::<S, W, B, U, I>,
            (inputs, outputs, infer, &image, &small, &flags, &roi, &sampler, &unscale),
            r,
        ),
        image.c() == 3,
        mask_shape(mask) == (image.h(), image.w()),
        image.h() <= usize::MAX,
        image.w() <= usize::MAX,
        s.bounds(mask),
        roi.cut_from(image, mask, s),
        sampler.resizes_image(roi.img_roi, 512, 512, small),
        sampler.resizes_mask(roi.mask_roi, 512, 512, flags),
    ensures
        inputs != 2 ==> r == Err::<ImageGrid, WorkerError>(WorkerError::InputCount(inputs)),
        inputs == 2 && outputs == 0 ==> r == Err::<ImageGrid, WorkerError>(WorkerError::NoOutputs),
        inputs == 2 && outputs >= 1 && r is Ok ==> exists|
            a: Vec<u32>,
            b: Vec<u32>,
            out: SessionOutput,
            img: ImageGrid,
            back: ImageGrid,
        |
            {
                &&& #[trigger] call_ensures(infer, (a, b), Ok::<SessionOutput, WorkerError>(out))
                &&& #[trigger] passes_the_session(
                    roi,
                    sampler,
                    unscale,
                    small,
                    flags,
                    a@,
                    b@,
                    out,
                    img,
                    back,
                )
                &&& fills(image, mask, roi, back, r->Ok_0)
            },
{
    if inputs == 2 && outputs >= 1 && r is Ok {
        let (a, b, o) = choose|a: Vec<u32>, b: Vec<u32>, o: Result<SessionOutput, WorkerError>|
            #![trigger call_ensures(infer, (a, b), o)]
            {
                &&& a@ == crate::layout::planar(small)
                &&& b@ == crate::layout::planar_mask(flags)
                &&& call_ensures(infer, (a, b), o)
                &&& ends_with(o, image, roi, sampler, unscale, r)
            };
        assert(ends_with(o, image, roi, sampler, unscale, r));
        let out = o->Ok_0;
        assert(pastes_output(out, image, roi, sampler, unscale, r->Ok_0));
        let (img, back) = choose|img: ImageGrid, back: ImageGrid|
            {
                &&& #[trigger] session_over(out, roi, sampler, unscale, img, back)
                &&& roi.is_pasted(back, image, r->Ok_0)
            };
        assert(session_over(out, roi, sampler, unscale, img, back));
        lemma_fills(image, mask, s, roi, back, r->Ok_0);
        let t = SessionInput { selection: s, roi, img_512: small, mask_512: flags, a, b };
        lemma_session_planes(t, out, sampler, unscale, img, back, image, mask);
        assert(call_ensures(infer, (a, b), Ok::<SessionOutput, WorkerError>(out)));
    }
}

} // verus!
