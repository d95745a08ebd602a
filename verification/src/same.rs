//! The same inputs give the same outcome: what the steps of a run keep when their
//! scalar functions and the session are functions of their arguments.

use vstd::prelude::*;

use crate::error::WorkerError;
use crate::grid::{fits, lemma_fits_axes, ImageGrid, MaskGrid};
use crate::laws::law_cut_region_pastes_back;
use crate::layout::{planar, planar_mask};
use crate::resize::{following, Sampler};
use crate::roi::{any_selected, is_preprocessed, selected, RoiInfo, Selection};
use crate::session::{
    ends_with, inpaints, is_session_input, pastes_output, session_over, session_runs, SessionInput,
    SessionOutput,
};

verus! {

impl<
    S: Fn(usize, usize, usize) -> i64,
    W: Fn(usize, usize, usize, usize) -> u32,
    B: Fn(u32, u32, u32, u32, u32, u32) -> u32,
> Sampler<S, W, B> {
    /// Each scalar function gives one result for its arguments.
    pub open spec fn functional(self) -> bool {
        &&& forall|i: usize, len: usize, new_len: usize, a: i64, b: i64|
            #![trigger call_ensures(self.source, (i, len, new_len), a), call_ensures(self.source, (i, len, new_len), b)]
            call_ensures(self.source, (i, len, new_len), a) && call_ensures(
                self.source,
                (i, len, new_len),
                b,
            ) ==> a == b
        &&& forall|i: usize, len: usize, new_len: usize, first: usize, a: u32, b: u32|
            #![trigger call_ensures(self.weight, (i, len, new_len, first), a), call_ensures(self.weight, (i, len, new_len, first), b)]
            call_ensures(self.weight, (i, len, new_len, first), a) && call_ensures(
                self.weight,
                (i, len, new_len, first),
                b,
            ) ==> a == b
        &&& forall|t: (u32, u32, u32, u32, u32, u32), a: u32, b: u32|
            #![trigger call_ensures(self.blend, t, a), call_ensures(self.blend, t, b)]
            call_ensures(self.blend, t, a) && call_ensures(self.blend, t, b) ==> a == b
    }
}

/// A scalar function gives one result for its argument.
pub open spec fn functional_scale<U: Fn(u32) -> u32>(unscale: U) -> bool {
    forall|v: u32, a: u32, b: u32|
        #![trigger call_ensures(unscale, (v,), a), call_ensures(unscale, (v,), b)]
        call_ensures(unscale, (v,), a) && call_ensures(unscale, (v,), b) ==> a == b
}

/// Both outcomes of a session are the same output or the same error.
pub open spec fn same_outcome(
    o1: Result<SessionOutput, WorkerError>,
    o2: Result<SessionOutput, WorkerError>,
) -> bool {
    match (o1, o2) {
        (Ok(a), Ok(b)) => a.shape@ == b.shape@ && a.data@ == b.data@,
        (Err(e), Err(f)) => e == f,
        _ => false,
    }
}

/// A session gives one outcome for the planes of the image and of the mask.
pub open spec fn functional_session<
    I: FnOnce(Vec<u32>, Vec<u32>) -> Result<SessionOutput, WorkerError>,
>(infer: I) -> bool {
    forall|
        a1: Vec<u32>,
        b1: Vec<u32>,
        o1: Result<SessionOutput, WorkerError>,
        a2: Vec<u32>,
        b2: Vec<u32>,
        o2: Result<SessionOutput, WorkerError>,
    |
        #![trigger call_ensures(infer, (a1, b1), o1), call_ensures(infer, (a2, b2), o2)]
        call_ensures(infer, (a1, b1), o1) && call_ensures(infer, (a2, b2), o2) && a1@ == a2@ && b1@
            == b2@ ==> same_outcome(o1, o2)
}

/// Both results are the same image or the same error.
pub open spec fn same_result(
    r1: Result<ImageGrid, WorkerError>,
    r2: Result<ImageGrid, WorkerError>,
) -> bool {
    match (r1, r2) {
        (Ok(a), Ok(b)) => a.same_as(b),
        (Err(WorkerError::OutputShape(v)), Err(WorkerError::OutputShape(w))) => v@ == w@,
        (Err(e), Err(f)) => e == f,
        _ => false,
    }
}

/// An output line starts from one source line.
proof fn lemma_one_start<
    S: Fn(usize, usize, usize) -> i64,
    W: Fn(usize, usize, usize, usize) -> u32,
    B: Fn(u32, u32, u32, u32, u32, u32) -> u32,
>(
    sampler: Sampler<S, W, B>,
    i: usize,
    len: usize,
    new_len: usize,
    a: usize,
    b: usize,
)
    requires
        sampler.functional(),
        len >= 1,
        sampler.starts_at(i, len, new_len, a),
        sampler.starts_at(i, len, new_len, b),
    ensures
        a == b,
        a < len,
{
}

/// Images that are the same are resized to images that are the same.
pub proof fn lemma_same_resize<
    S: Fn(usize, usize, usize) -> i64,
    W: Fn(usize, usize, usize, usize) -> u32,
    B: Fn(u32, u32, u32, u32, u32, u32) -> u32,
>(
    sampler: Sampler<S, W, B>,
    src1: ImageGrid,
    src2: ImageGrid,
    h: usize,
    w: usize,
    out1: ImageGrid,
    out2: ImageGrid,
)
    requires
        sampler.functional(),
        src1.same_as(src2),
        1 <= src1.h() <= usize::MAX,
        1 <= src1.w() <= usize::MAX,
        src1.c() <= usize::MAX,
        sampler.resizes_image(src1, h, w, out1),
        sampler.resizes_image(src2, h, w, out2),
    ensures
        out1.same_as(out2),
{
    assert forall|y: int, x: int, c: int| out1.holds(y, x, c) implies #[trigger] out1.at(y, x, c)
        == out2.at(y, x, c) by {
        if src1.h() == h && src1.w() == w {
            assert(out1.at(y, x, c) == src1.at(y, x, c));
            assert(out2.holds(y, x, c));
            assert(src1.holds(y, x, c));
        } else {
            let at = (y as usize, x as usize, c as usize);
            let v1 = out1.at(at.0 as int, at.1 as int, at.2 as int);
            let v2 = out2.at(at.0 as int, at.1 as int, at.2 as int);
            assert(sampler.bilinear(src1, (h, w), at, v1));
            assert(sampler.bilinear(src2, (h, w), at, v2));
            let (f1, g1) = choose|f: (usize, usize), g: (u32, u32)| #[trigger]
                sampler.bilinear_from(src1, (h, w), at, f, g, v1);
            let (f2, g2) = choose|f: (usize, usize), g: (u32, u32)| #[trigger]
                sampler.bilinear_from(src2, (h, w), at, f, g, v2);
            lemma_one_start(sampler, at.0, src1.h() as usize, h, f1.0, f2.0);
            lemma_one_start(sampler, at.1, src1.w() as usize, w, f1.1, f2.1);
            assert(g1 == g2);
            let (y0, x0, k) = (f1.0 as int, f1.1 as int, c);
            let y1 = following(y0, src1.h() as int);
            let x1 = following(x0, src1.w() as int);
            assert(src1.holds(y0, x0, k) && src1.holds(y0, x1, k) && src1.holds(y1, x0, k)
                && src1.holds(y1, x1, k));
            assert(src1.at(y0, x0, k) == src2.at(y0, x0, k));
            assert(src1.at(y0, x1, k) == src2.at(y0, x1, k));
            assert(src1.at(y1, x0, k) == src2.at(y1, x0, k));
            assert(src1.at(y1, x1, k) == src2.at(y1, x1, k));
        }
    }
}

/// Masks that are the same are resized to masks that are the same.
pub proof fn lemma_same_mask_resize<
    S: Fn(usize, usize, usize) -> i64,
    W: Fn(usize, usize, usize, usize) -> u32,
    B: Fn(u32, u32, u32, u32, u32, u32) -> u32,
>(
    sampler: Sampler<S, W, B>,
    src1: MaskGrid,
    src2: MaskGrid,
    h: usize,
    w: usize,
    out1: MaskGrid,
    out2: MaskGrid,
)
    requires
        sampler.functional(),
        src1.same_as(src2),
        1 <= src1.h() <= usize::MAX,
        1 <= src1.w() <= usize::MAX,
        sampler.resizes_mask(src1, h, w, out1),
        sampler.resizes_mask(src2, h, w, out2),
    ensures
        out1.same_as(out2),
{
    assert forall|y: int, x: int| out1.holds(y, x) implies #[trigger] out1.at(y, x) == out2.at(y, x) by {
        if src1.h() == h && src1.w() == w {
            assert(out1.at(y, x) == src1.at(y, x));
            assert(out2.holds(y, x));
            assert(src1.holds(y, x));
        } else {
            let at = (y as usize, x as usize);
            let v1 = out1.at(at.0 as int, at.1 as int);
            let v2 = out2.at(at.0 as int, at.1 as int);
            assert(sampler.nearest(src1, (h, w), at, v1));
            assert(sampler.nearest(src2, (h, w), at, v2));
            let f1 = choose|f: (usize, usize)| #[trigger]
                sampler.nearest_from(src1, (h, w), at, f, v1);
            let f2 = choose|f: (usize, usize)| #[trigger]
                sampler.nearest_from(src2, (h, w), at, f, v2);
            lemma_one_start(sampler, at.0, src1.h() as usize, h, f1.0, f2.0);
            lemma_one_start(sampler, at.1, src1.w() as usize, w, f1.1, f2.1);
            assert(src1.holds(f1.0 as int, f1.1 as int));
            assert(src1.at(f1.0 as int, f1.1 as int) == src2.at(f1.0 as int, f1.1 as int));
        }
    }
}

/// A mask has one smallest box, and one region is cut around it.
pub proof fn lemma_same_cut(
    image: ImageGrid,
    mask: MaskGrid,
    s1: Selection,
    s2: Selection,
    roi1: RoiInfo,
    roi2: RoiInfo,
)
    requires
        s1.bounds(mask),
        s2.bounds(mask),
        roi1.cut_from(image, mask, s1),
        roi2.cut_from(image, mask, s2),
        image.c() <= usize::MAX,
    ensures
        s1 == s2,
        (roi1.roi_x1, roi1.roi_y1, roi1.roi_w, roi1.roi_h, roi1.paste_box) == (
            roi2.roi_x1,
            roi2.roi_y1,
            roi2.roi_w,
            roi2.roi_h,
            roi2.paste_box,
        ),
        roi1.img_roi.same_as(roi2.img_roi),
        roi1.mask_roi.same_as(roi2.mask_roi),
{
    let a = choose|x: int| selected(mask, s1.y1 as int, x);
    let b = choose|x: int| selected(mask, s2.y1 as int, x);
    assert(selected(mask, s1.y1 as int, a) && selected(mask, s2.y1 as int, b));
    let a = choose|x: int| selected(mask, s1.y2 as int, x);
    let b = choose|x: int| selected(mask, s2.y2 as int, x);
    assert(selected(mask, s1.y2 as int, a) && selected(mask, s2.y2 as int, b));
    let a = choose|y: int| selected(mask, y, s1.x1 as int);
    let b = choose|y: int| selected(mask, y, s2.x1 as int);
    assert(selected(mask, a, s1.x1 as int) && selected(mask, b, s2.x1 as int));
    let a = choose|y: int| selected(mask, y, s1.x2 as int);
    let b = choose|y: int| selected(mask, y, s2.x2 as int);
    assert(selected(mask, a, s1.x2 as int) && selected(mask, b, s2.x2 as int));
    assert(s1 == s2);
    assert forall|y: int, x: int, c: int| roi1.img_roi.holds(y, x, c) implies #[trigger] roi1.img_roi.at(
        y,
        x,
        c,
    ) == roi2.img_roi.at(y, x, c) by {
        let (yu, xu, cu) = (y as usize, x as usize, c as usize);
        assert(roi1.img_roi.at(yu as int, xu as int, cu as int) == roi2.img_roi.at(
            yu as int,
            xu as int,
            cu as int,
        ));
    }
    assert forall|y: int, x: int| roi1.mask_roi.holds(y, x) implies #[trigger] roi1.mask_roi.at(y, x)
        == roi2.mask_roi.at(y, x) by {
        let (yu, xu) = (y as usize, x as usize);
        assert(roi1.mask_roi.at(yu as int, xu as int) == roi2.mask_roi.at(yu as int, xu as int));
    }
}

/// Grids that are the same have the same planes.
pub proof fn lemma_same_planes(g1: ImageGrid, g2: ImageGrid, m1: MaskGrid, m2: MaskGrid)
    requires
        g1.same_as(g2),
        m1.same_as(m2),
    ensures
        planar(g1) == planar(g2),
        planar_mask(m1) == planar_mask(m2),
{
    let (h, w, c) = (g1.h() as int, g1.w() as int, g1.c() as int);
    assert forall|p: int| 0 <= p < planar(g1).len() implies planar(g1)[p] == planar(g2)[p] by {
        assert(h > 0 && w > 0) by (nonlinear_arith)
            requires
                0 <= p < c * h * w,
                h >= 0,
                w >= 0,
        ;
        lemma_place(p, c * h, w);
        lemma_place(p / w, c, h);
        assert(g1.holds((p / w) % h, p % w, p / w / h));
    }
    assert(planar(g1) =~= planar(g2));
    let (mh, mw) = (m1.h() as int, m1.w() as int);
    assert forall|p: int| 0 <= p < planar_mask(m1).len() implies planar_mask(m1)[p] == planar_mask(
        m2,
    )[p] by {
        assert(mw > 0) by (nonlinear_arith)
            requires
                0 <= p < mh * mw,
                mw >= 0,
        ;
        lemma_place(p, mh, mw);
        assert(m1.holds(p / mw, p % mw));
    }
    assert(planar_mask(m1) =~= planar_mask(m2));
}

/// The line and the place in it of a position among `n` lines of `w` items.
pub proof fn lemma_place(p: int, n: int, w: int)
    requires
        0 <= p < n * w,
        w > 0,
    ensures
        0 <= p / w < n,
        0 <= p % w < w,
{
    vstd::arithmetic::div_mod::lemma_fundamental_div_mod(p, w);
    vstd::arithmetic::div_mod::lemma_mod_bound(p, w);
    let q = p / w;
    assert(0 <= q < n) by (nonlinear_arith)
        requires
            0 <= p < n * w,
            w > 0,
            p == w * q + p % w,
            0 <= p % w < w,
    ;
}

/// One output is pasted into one image in one way.
proof fn lemma_same_paste<
    S: Fn(usize, usize, usize) -> i64,
    W: Fn(usize, usize, usize, usize) -> u32,
    B: Fn(u32, u32, u32, u32, u32, u32) -> u32,
    U: Fn(u32) -> u32,
>(
    out1: SessionOutput,
    out2: SessionOutput,
    image: ImageGrid,
    roi1: RoiInfo,
    roi2: RoiInfo,
    sampler: Sampler<S, W, B>,
    unscale: U,
    g1: ImageGrid,
    g2: ImageGrid,
)
    requires
        sampler.functional(),
        functional_scale(unscale),
        image.c() == 3,
        fits(image.h(), image.w(), 3, 4),
        out1.shape@ == out2.shape@,
        out1.data@ == out2.data@,
        out1.shape@[2] >= 1,
        out1.shape@[3] >= 1,
        (roi1.roi_x1, roi1.roi_y1, roi1.roi_w, roi1.roi_h, roi1.paste_box) == (
            roi2.roi_x1,
            roi2.roi_y1,
            roi2.roi_w,
            roi2.roi_h,
            roi2.paste_box,
        ),
        roi1.img_roi.same_as(roi2.img_roi),
        roi1.mask_roi.same_as(roi2.mask_roi),
        roi1.pastes_into(image.h(), image.w()),
        pastes_output(out1, image, roi1, sampler, unscale, g1),
        pastes_output(out2, image, roi2, sampler, unscale, g2),
    ensures
        g1.same_as(g2),
{
    lemma_fits_axes(image.h(), image.w(), 3, 4);
    let (i1, o1) = choose|img: ImageGrid, out_roi: ImageGrid|
        {
            &&& #[trigger] session_over(out1, roi1, sampler, unscale, img, out_roi)
            &&& roi1.is_pasted(out_roi, image, g1)
        };
    let (i2, o2) = choose|img: ImageGrid, out_roi: ImageGrid|
        {
            &&& #[trigger] session_over(out2, roi2, sampler, unscale, img, out_roi)
            &&& roi2.is_pasted(out_roi, image, g2)
        };
    let (h, w) = (out1.shape@[2] as nat, out1.shape@[3] as nat);
    assert forall|y: int, x: int, c: int| i1.holds(y, x, c) implies #[trigger] i1.at(y, x, c)
        == i2.at(y, x, c) by {
        let (yu, xu, cu) = (y as usize, x as usize, c as usize);
        let v = out1.data@[(cu * h + yu) * w + xu];
        assert(call_ensures(unscale, (v,), i1.at(yu as int, xu as int, cu as int)));
        assert(call_ensures(unscale, (v,), i2.at(yu as int, xu as int, cu as int)));
    }
    assert(i1.same_as(i2));
    lemma_same_resize(sampler, i1, i2, roi1.roi_h, roi1.roi_w, o1, o2);
    assert forall|y: int, x: int, c: int| g1.holds(y, x, c) implies #[trigger] g1.at(y, x, c)
        == g2.at(y, x, c) by {
        let (yu, xu, cu) = (y as usize, x as usize, c as usize);
        assert(g1.at(yu as int, xu as int, cu as int) == roi1.pasted(o1, image, y, x, c));
        assert(g2.at(yu as int, xu as int, cu as int) == roi2.pasted(o2, image, y, x, c));
        if roi1.covers(y, x) {
            let ry = roi1.first_row() + (y - roi1.paste_box.y1);
            let rx = roi1.first_col() + (x - roi1.paste_box.x1);
            assert(roi1.mask_roi.holds(ry, rx));
            assert(roi1.mask_roi.at(ry, rx) == roi2.mask_roi.at(ry, rx));
            assert(roi1.img_roi.holds(ry, rx, c));
            assert(roi1.img_roi.at(ry, rx, c) == roi2.img_roi.at(ry, rx, c));
            assert(o1.holds(ry, rx, c));
            assert(o1.at(ry, rx, c) == o2.at(ry, rx, c));
        }
    }
}

/// Filling an image by a session is preparing its region and then running the
/// session on it: for a session and scalar functions that are functions of their
/// arguments, both ways give the same image or the same error.
pub proof fn law_inpaint_is_preprocess_and_run<
    S: Fn(usize, usize, usize) -> i64,
    W: Fn(usize, usize, usize, usize) -> u32,
    B: Fn(u32, u32, u32, u32, u32, u32) -> u32,
    U: Fn(u32) -> u32,
    I: FnOnce(Vec<u32>, Vec<u32>) -> Result<SessionOutput, WorkerError>,
>(
    inputs: usize,
    outputs: usize,
    infer: I,
    image: ImageGrid,
    mask: MaskGrid,
    sampler: Sampler<S, W, B>,
    unscale: U,
    img_512: ImageGrid,
    mask_512: MaskGrid,
    roi: RoiInfo,
    stepwise: Result<ImageGrid, WorkerError>,
    whole: Result<ImageGrid, WorkerError>,
)
    requires
        sampler.functional(),
        functional_scale(unscale),
        functional_session(infer),
        image.c() == 3,
        fits(image.h(), image.w(), 3, 4),
        mask.h() == image.h(),
        mask.w() == image.w(),
        any_selected(mask),
        is_preprocessed(image, mask, sampler, img_512, mask_512, roi),
        session_runs(
            inputs,
            outputs,
            infer,
            image,
            img_512,
            mask_512,
            roi,
            sampler,
            unscale,
            stepwise,
        ),
        inpaints(inputs, outputs, infer, image, mask, sampler, unscale, whole),
    ensures
        same_result(stepwise, whole),
{
    if inputs == 2 && outputs >= 1 {
        let s = choose|s: Selection| #[trigger] s.bounds(mask) && roi.cut_from(image, mask, s);
        let (a, b, o) = choose|a: Vec<u32>, b: Vec<u32>, o: Result<SessionOutput, WorkerError>|
            #![trigger call_ensures(infer, (a, b), o)]
            {
                &&& a@ == planar(img_512)
                &&& b@ == planar_mask(mask_512)
                &&& call_ensures(infer, (a, b), o)
                &&& ends_with(o, image, roi, sampler, unscale, stepwise)
            };
        let (t, p) = choose|t: SessionInput, p: Result<SessionOutput, WorkerError>|
            #![trigger is_session_input(image, mask, sampler, t), call_ensures(infer, (t.a, t.b), p)]
            {
                &&& is_session_input(image, mask, sampler, t)
                &&& call_ensures(infer, (t.a, t.b), p)
                &&& ends_with(p, image, t.roi, sampler, unscale, whole)
            };
        lemma_same_cut(image, mask, s, t.selection, roi, t.roi);
        law_cut_region_pastes_back(image, mask, s, roi);
        lemma_same_resize(sampler, roi.img_roi, t.roi.img_roi, 512, 512, img_512, t.img_512);
        lemma_same_mask_resize(sampler, roi.mask_roi, t.roi.mask_roi, 512, 512, mask_512, t.mask_512);
        lemma_same_planes(img_512, t.img_512, mask_512, t.mask_512);
        assert(same_outcome(o, p));
        if let (Ok(out), Ok(other)) = (o, p) {
            if let (Ok(g1), Ok(g2)) = (stepwise, whole) {
                lemma_same_paste(out, other, image, roi, t.roi, sampler, unscale, g1, g2);
            }
        }
    }
}

} // verus!
