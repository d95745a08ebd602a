//! The path through an exported model of fixed input size, run by a session
//! outside the library.

use vstd::prelude::*;

use crate::error::WorkerError;
use crate::grid::{fits, image_shape, mask_shape, nonzero, ImageGrid, MaskGrid};
use crate::laws::law_cut_region_pastes_back;
use crate::layout::{
    hwc_to_planar, is_output_shape, is_unscaled, mask_to_planar, output_to_hwc, planar,
    planar_mask, total_scale,
};
use crate::resize::Sampler;
use crate::roi::{
    any_selected, postprocess, preprocess, roi_fits, selection, RoiInfo, Selection, MODEL_INPUT,
};

verus! {

/// What a session gave: the axis lengths of its first output and its elements in
/// row-major order.
pub struct SessionOutput {
    pub shape: Vec<usize>,
    pub data: Vec<u32>,
}

/// The session has the image and the mask as inputs, and an output.
pub fn check_session(inputs: usize, outputs: usize) -> (r: Result<(), WorkerError>)
    ensures
        match r {
            Ok(_) => inputs == 2 && outputs >= 1,
            Err(e) => if inputs != 2 {
                e == WorkerError::InputCount(inputs)
            } else {
                e == WorkerError::NoOutputs && outputs == 0
            },
        },
{
    if inputs != 2 {
        return Err(WorkerError::InputCount(inputs));
    }
    if outputs == 0 {
        return Err(WorkerError::NoOutputs);
    }
    Ok(())
}

/// The output of the session is `out`, `img` is its image and `out_roi` that image
/// at the size of the region.
pub open spec fn session_over<
    S: Fn(usize, usize, usize) -> i64,
    W: Fn(usize, usize, usize, usize) -> u32,
    B: Fn(u32, u32, u32, u32, u32, u32) -> u32,
    U: Fn(u32) -> u32,
>(
    out: SessionOutput,
    roi: RoiInfo,
    sampler: Sampler<S, W, B>,
    unscale: U,
    img: ImageGrid,
    out_roi: ImageGrid,
) -> bool {
    &&& is_output_shape(out.shape@, out.data@.len())
    &&& is_unscaled(
        unscale,
        out.data@,
        out.shape@[2] as nat,
        out.shape@[3] as nat,
        img,
    )
    &&& sampler.resizes_image(img, roi.roi_h, roi.roi_w, out_roi)
}

/// `result` is the image with the session's output pasted in.
pub open spec fn pastes_output<
    S: Fn(usize, usize, usize) -> i64,
    W: Fn(usize, usize, usize, usize) -> u32,
    B: Fn(u32, u32, u32, u32, u32, u32) -> u32,
    U: Fn(u32) -> u32,
>(
    out: SessionOutput,
    image: ImageGrid,
    roi: RoiInfo,
    sampler: Sampler<S, W, B>,
    unscale: U,
    result: ImageGrid,
) -> bool {
    exists|img: ImageGrid, out_roi: ImageGrid|
        {
            &&& #[trigger] session_over(out, roi, sampler, unscale, img, out_roi)
            &&& roi.is_pasted(out_roi, image, result)
        }
}

/// The output of a session can be pasted: it has the shape of one image with
/// pixels, and its grid can be allocated.
pub open spec fn is_usable(out: SessionOutput) -> bool {
    &&& is_output_shape(out.shape@, out.data@.len())
    &&& out.shape@[2] >= 1
    &&& out.shape@[3] >= 1
    &&& fits(out.shape@[2] as nat, out.shape@[3] as nat, 3, 4)
}

/// How an output that cannot be pasted is refused: one that is no image, or one
/// without pixels, by its shape, and one whose grid cannot be allocated as too
/// large.
pub open spec fn refuses(out: SessionOutput, e: WorkerError) -> bool {
    &&& !is_usable(out)
    &&& if is_output_shape(out.shape@, out.data@.len()) && !fits(
        out.shape@[2] as nat,
        out.shape@[3] as nat,
        3,
        4,
    ) {
        e is TooLarge
    } else {
        e matches WorkerError::OutputShape(v) && v@ == out.shape@
    }
}

/// Pastes the output of a session into the image. An output of another shape, or
/// without pixels, is refused.
pub fn paste_output<
    S: Fn(usize, usize, usize) -> i64,
    W: Fn(usize, usize, usize, usize) -> u32,
    B: Fn(u32, u32, u32, u32, u32, u32) -> u32,
    U: Fn(u32) -> u32,
>(
    out: &SessionOutput,
    image: &ImageGrid,
    roi: &RoiInfo,
    sampler: &Sampler<S, W, B>,
    unscale: &U,
) -> (r: Result<ImageGrid, WorkerError>)
    requires
        sampler.total(),
        total_scale(*unscale),
        image.c() == 3,
        roi.pastes_into(image.h(), image.w()),
    ensures
        match r {
            Ok(result) => is_usable(*out) && pastes_output(
                *out,
                *image,
                *roi,
                *sampler,
                *unscale,
                result,
            ),
            Err(e) => refuses(*out, e),
        },
{
    let img = output_to_hwc(&out.shape, &out.data, unscale)?;
    let (h, w, _) = img.dim();
    if h == 0 || w == 0 {
        return Err(WorkerError::OutputShape(out.shape.clone()));
    }
    let result = postprocess(&img, image, roi, sampler);
    proof {
        let out_roi = choose|out_roi: ImageGrid|
            #![trigger roi.is_pasted(out_roi, *image, result)]
            sampler.resizes_image(img, roi.roi_h, roi.roi_w, out_roi) && roi.is_pasted(
                out_roi,
                *image,
                result,
            );
        assert(session_over(*out, *roi, *sampler, *unscale, img, out_roi));
    }
    Ok(result)
}

/// What comes of running a session on the resized region: an error where the
/// session has other inputs or no output, and otherwise what comes of its outcome
/// on the planes of the image and of the mask.
pub open spec fn session_runs<
    S: Fn(usize, usize, usize) -> i64,
    W: Fn(usize, usize, usize, usize) -> u32,
    B: Fn(u32, u32, u32, u32, u32, u32) -> u32,
    U: Fn(u32) -> u32,
    I: FnOnce(Vec<u32>, Vec<u32>) -> Result<SessionOutput, WorkerError>,
>(
    inputs: usize,
    outputs: usize,
    infer: I,
    image: ImageGrid,
    img_512: ImageGrid,
    mask_512: MaskGrid,
    roi: RoiInfo,
    sampler: Sampler<S, W, B>,
    unscale: U,
    r: Result<ImageGrid, WorkerError>,
) -> bool {
    &&& inputs != 2 ==> r == Err::<ImageGrid, WorkerError>(WorkerError::InputCount(inputs))
    &&& inputs == 2 && outputs == 0 ==> r == Err::<ImageGrid, WorkerError>(WorkerError::NoOutputs)
    &&& inputs == 2 && outputs >= 1 ==> exists|
        a: Vec<u32>,
        b: Vec<u32>,
        o: Result<SessionOutput, WorkerError>,
    |
        #![trigger call_ensures(infer, (a, b), o)]
        {
            &&& a@ == planar(img_512)
            &&& b@ == planar_mask(mask_512)
            &&& call_ensures(infer, (a, b), o)
            &&& ends_with(o, image, roi, sampler, unscale, r)
        }
}

/// Runs a session on the resized region and pastes its output. The session has
/// `inputs` inputs and `outputs` outputs; `infer` runs it on the image and the
/// mask, three planes and one of the model's size, and gives its first output.
pub fn run_ort_inpaint<
    S: Fn(usize, usize, usize) -> i64,
    W: Fn(usize, usize, usize, usize) -> u32,
    B: Fn(u32, u32, u32, u32, u32, u32) -> u32,
    U: Fn(u32) -> u32,
    I: FnOnce(Vec<u32>, Vec<u32>) -> Result<SessionOutput, WorkerError>,
>(
    inputs: usize,
    outputs: usize,
    infer: I,
    image: &ImageGrid,
    img_512: &ImageGrid,
    mask_512: &MaskGrid,
    roi: &RoiInfo,
    sampler: &Sampler<S, W, B>,
    unscale: &U,
) -> (r: Result<ImageGrid, WorkerError>)
    requires
        sampler.total(),
        total_scale(*unscale),
        image.c() == 3,
        roi.pastes_into(image.h(), image.w()),
        image_shape(*img_512) == (MODEL_INPUT as nat, MODEL_INPUT as nat, 3nat),
        mask_shape(*mask_512) == (MODEL_INPUT as nat, MODEL_INPUT as nat),
        forall|a: Vec<u32>, b: Vec<u32>| #[trigger] call_requires(infer, (a, b)),
    ensures
        session_runs(
            inputs,
            outputs,
            infer,
            *image,
            *img_512,
            *mask_512,
            *roi,
            *sampler,
            *unscale,
            r,
        ),
{
    check_session(inputs, outputs)?;
    let a = hwc_to_planar(img_512);
    let b = mask_to_planar(mask_512);
    let o = infer(a, b);
    assert(call_ensures(infer, (a, b), o));
    match o {
        Ok(out) => paste_output(&out, image, roi, sampler, unscale),
        Err(e) => Err(e),
    }
}

/// What goes into a session for an image and its mask.
pub struct SessionInput {
    pub selection: Selection,
    pub roi: RoiInfo,
    pub img_512: ImageGrid,
    pub mask_512: MaskGrid,
    pub a: Vec<u32>,
    pub b: Vec<u32>,
}

/// The region around the selection, resized to the model's square, as planes.
pub open spec fn is_session_input<
    S: Fn(usize, usize, usize) -> i64,
    W: Fn(usize, usize, usize, usize) -> u32,
    B: Fn(u32, u32, u32, u32, u32, u32) -> u32,
>(image: ImageGrid, mask: MaskGrid, sampler: Sampler<S, W, B>, t: SessionInput) -> bool {
    &&& t.selection.bounds(mask)
    &&& t.roi.cut_from(image, mask, t.selection)
    &&& sampler.resizes_image(t.roi.img_roi, MODEL_INPUT, MODEL_INPUT, t.img_512)
    &&& sampler.resizes_mask(t.roi.mask_roi, MODEL_INPUT, MODEL_INPUT, t.mask_512)
    &&& t.a@ == planar(t.img_512)
    &&& t.b@ == planar_mask(t.mask_512)
}

/// What comes of the session's outcome `o`: its error, or its output pasted in.
pub open spec fn ends_with<
    S: Fn(usize, usize, usize) -> i64,
    W: Fn(usize, usize, usize, usize) -> u32,
    B: Fn(u32, u32, u32, u32, u32, u32) -> u32,
    U: Fn(u32) -> u32,
>(
    o: Result<SessionOutput, WorkerError>,
    image: ImageGrid,
    roi: RoiInfo,
    sampler: Sampler<S, W, B>,
    unscale: U,
    r: Result<ImageGrid, WorkerError>,
) -> bool {
    match o {
        Ok(out) => match r {
            Ok(result) => is_usable(out) && pastes_output(
                out,
                image,
                roi,
                sampler,
                unscale,
                result,
            ),
            Err(e) => refuses(out, e),
        },
        Err(e) => r == Err::<ImageGrid, WorkerError>(e),
    }
}

/// What comes of filling the masked part of an image: the image itself where the
/// mask selects nothing, an error where the session has other inputs or no output,
/// and otherwise what comes of the session's outcome on the region's planes.
pub open spec fn inpaints<
    S: Fn(usize, usize, usize) -> i64,
    W: Fn(usize, usize, usize, usize) -> u32,
    B: Fn(u32, u32, u32, u32, u32, u32) -> u32,
    U: Fn(u32) -> u32,
    I: FnOnce(Vec<u32>, Vec<u32>) -> Result<SessionOutput, WorkerError>,
>(
    inputs: usize,
    outputs: usize,
    infer: I,
    image: ImageGrid,
    mask: MaskGrid,
    sampler: Sampler<S, W, B>,
    unscale: U,
    r: Result<ImageGrid, WorkerError>,
) -> bool {
    if !any_selected(mask) {
        r is Ok && r->Ok_0.same_as(image)
    } else if inputs != 2 {
        r == Err::<ImageGrid, WorkerError>(WorkerError::InputCount(inputs))
    } else if outputs == 0 {
        r == Err::<ImageGrid, WorkerError>(WorkerError::NoOutputs)
    } else {
        exists|t: SessionInput, o: Result<SessionOutput, WorkerError>|
            #![trigger is_session_input(image, mask, sampler, t), call_ensures(infer, (t.a, t.b), o)]
            {
                &&& is_session_input(image, mask, sampler, t)
                &&& call_ensures(infer, (t.a, t.b), o)
                &&& ends_with(o, image, t.roi, sampler, unscale, r)
            }
    }
}

/// Fills the masked part of an image by a session: selection, context, crop by
/// reflection, resize to the model's square, one run, resize back, composition
/// and paste. An image whose mask selects nothing comes back as it is.
pub fn inpaint<
    S: Fn(usize, usize, usize) -> i64,
    W: Fn(usize, usize, usize, usize) -> u32,
    B: Fn(u32, u32, u32, u32, u32, u32) -> u32,
    U: Fn(u32) -> u32,
    I: FnOnce(Vec<u32>, Vec<u32>) -> Result<SessionOutput, WorkerError>,
>(
    inputs: usize,
    outputs: usize,
    infer: I,
    image: &ImageGrid,
    mask: &MaskGrid,
    sampler: &Sampler<S, W, B>,
    unscale: &U,
) -> (r: Result<ImageGrid, WorkerError>)
    requires
        sampler.total(),
        total_scale(*unscale),
        image.c() == 3,
        mask.h() == image.h(),
        mask.w() == image.w(),
        roi_fits(*mask, 3),
        forall|a: Vec<u32>, b: Vec<u32>| #[trigger] call_requires(infer, (a, b)),
    ensures
        inpaints(inputs, outputs, infer, *image, *mask, *sampler, *unscale, r),
{
    if selection(mask).is_none() {
        return Ok(image.copy());
    }
    assert(fits(MODEL_INPUT as nat, MODEL_INPUT as nat, 3, 4)) by {
        assert(nonzero(512) == 512 && nonzero(3) == 3);
        assert(512nat * 512nat * 3nat == 786432);
        assert(512nat * 512nat * 3nat * 4nat == 3145728);
    }
    let (img_512, mask_512, roi) = preprocess(image, mask, sampler)?;
    let ghost s = choose|s: Selection| #[trigger]
        s.bounds(*mask) && roi.cut_from(*image, *mask, s);
    proof {
        law_cut_region_pastes_back(*image, *mask, s, roi);
    }
    let r = run_ort_inpaint(
        inputs,
        outputs,
        infer,
        image,
        &img_512,
        &mask_512,
        &roi,
        sampler,
        unscale,
    );
    proof {
        if inputs == 2 && outputs >= 1 {
            let (a, b, o) = choose|
                a: Vec<u32>,
                b: Vec<u32>,
                o: Result<SessionOutput, WorkerError>,
            |
                #![trigger call_ensures(infer, (a, b), o)]
                {
                    &&& a@ == planar(img_512)
                    &&& b@ == planar_mask(mask_512)
                    &&& call_ensures(infer, (a, b), o)
                    &&& ends_with(o, *image, roi, *sampler, *unscale, r)
                };
            let t = SessionInput { selection: s, roi, img_512, mask_512, a, b };
            assert(is_session_input(*image, *mask, *sampler, t));
            assert(call_ensures(infer, (t.a, t.b), o));
        }
    }
    r
}

} // verus!
