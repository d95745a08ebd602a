//! The path through the generator at the resolution of the image: the region of
//! interest is padded to sides that eight divides, and only a region past a cap
//! is scaled down.

use candle_core::Device;
use vstd::prelude::*;

use crate::blocks::total_wave;
use crate::error::WorkerError;
use crate::grid::{
    fits, image_shape, lemma_fits_axes, mask_shape, nonzero, shape_fits, ImageGrid, MaskGrid,
};
use crate::layout::{
    chw_tensor_to_hwc, hwc_to_chw_tensor, is_image_tensor, is_mask_tensor, is_tensor_image,
    mask_to_chw_tensor, total_scale,
};
use crate::network::{complete, eighth, has_memory, takes_size, CandleInpainter};
use crate::reflect::{is_padded_image, is_padded_mask, reflect_pad_2d, reflect_pad_3d};
use crate::resize::{resize_bilinear_hwc, resize_nearest_hw, Sampler};
use crate::roi::{larger, postprocess, RoiInfo};
use crate::tensor::{cpu, is_cpu, numbered, tensor_val, TensorVal};

verus! {

/// The longest side that is not scaled down.
pub const MAX_SIDE: usize = 1024;

/// The shortest padded side.
pub const MIN_SIDE: usize = 32;

/// The side that `n` lines are padded to: the next multiple of eight, and no
/// less than the shortest.
pub open spec fn padded_side(n: int) -> int {
    larger((n + 7) / 8 * 8, MIN_SIDE as int)
}

/// How a region is brought to a size that the generator takes.
pub struct PadPlan {
    /// Rows and columns of the region.
    pub rh: usize,
    pub rw: usize,
    /// Rows and columns after scaling.
    pub sh: usize,
    pub sw: usize,
    /// Rows and columns after padding.
    pub ph: usize,
    pub pw: usize,
    /// The margin above and to the left.
    pub pt: usize,
    pub pl: usize,
    /// The region is scaled down.
    pub shrunk: bool,
}

/// The scaled sides of a region may be `sh` and `sw`: the region's own up to the
/// cap, and past it what `scaled` gives for each side and the longest one, at
/// least one.
pub open spec fn scales_to<F: Fn(usize, usize) -> usize>(
    scaled: F,
    rh: usize,
    rw: usize,
    sh: usize,
    sw: usize,
) -> bool {
    let longest = if rh >= rw {
        rh
    } else {
        rw
    };
    if longest > MAX_SIDE {
        &&& scaled_side(scaled, rh, longest, sh)
        &&& scaled_side(scaled, rw, longest, sw)
    } else {
        sh == rh && sw == rw
    }
}

/// `side` may be the scaled length of `n` lines: what `scaled` gives, at least
/// one.
pub open spec fn scaled_side<F: Fn(usize, usize) -> usize>(
    scaled: F,
    n: usize,
    longest: usize,
    side: usize,
) -> bool {
    exists|raw: usize|
        #![trigger call_ensures(scaled, (n, longest), raw)]
        call_ensures(scaled, (n, longest), raw) && side == larger(raw as int, 1)
}

/// `scaled` brings no side of a region past the cap.
pub open spec fn keeps_cap<F: Fn(usize, usize) -> usize>(scaled: F) -> bool {
    forall|n: usize, longest: usize, raw: usize| #[trigger]
        call_ensures(scaled, (n, longest), raw) && n <= longest && longest > MAX_SIDE ==> raw
            <= MAX_SIDE
}

impl PadPlan {
    /// The margins centre the scaled region in sides that eight divides.
    pub open spec fn wf(self) -> bool {
        &&& 1 <= self.sh <= self.ph
        &&& 1 <= self.sw <= self.pw
        &&& self.ph == padded_side(self.sh as int)
        &&& self.pw == padded_side(self.sw as int)
        &&& self.pt == (self.ph - self.sh) / 2
        &&& self.pl == (self.pw - self.sw) / 2
        &&& fits(self.ph as nat, self.pw as nat, 3, 4)
        &&& !self.shrunk ==> self.sh == self.rh && self.sw == self.rw
    }

    /// The plan of a region.
    pub open spec fn plans<F: Fn(usize, usize) -> usize>(
        self,
        scaled: F,
        rh: usize,
        rw: usize,
    ) -> bool {
        &&& self.wf()
        &&& self.rh == rh
        &&& self.rw == rw
        &&& self.shrunk == (rh > MAX_SIDE || rw > MAX_SIDE)
        &&& scales_to(scaled, rh, rw, self.sh, self.sw)
    }

    /// `img_s` is the region scaled, and `padded` the input of the generator.
    pub open spec fn brings_image_over<
        S: Fn(usize, usize, usize) -> i64,
        W: Fn(usize, usize, usize, usize) -> u32,
        B: Fn(u32, u32, u32, u32, u32, u32) -> u32,
    >(
        self,
        sampler: Sampler<S, W, B>,
        img: ImageGrid,
        img_s: ImageGrid,
        padded: ImageGrid,
    ) -> bool {
        &&& if self.shrunk {
            sampler.resizes_image(img, self.sh, self.sw, img_s)
        } else {
            img_s == img
        }
        &&& is_padded_image(
            padded,
            img_s,
            self.pt as int,
            self.pl as int,
            self.ph - self.sh - self.pt,
            self.pw - self.sw - self.pl,
        )
    }

    /// `padded` may be the input of the generator for a region.
    pub open spec fn brings_image<
        S: Fn(usize, usize, usize) -> i64,
        W: Fn(usize, usize, usize, usize) -> u32,
        B: Fn(u32, u32, u32, u32, u32, u32) -> u32,
    >(self, sampler: Sampler<S, W, B>, img: ImageGrid, padded: ImageGrid) -> bool {
        exists|img_s: ImageGrid| #[trigger] self.brings_image_over(sampler, img, img_s, padded)
    }

    /// The same for the mask of the region.
    pub open spec fn brings_mask_over<
        S: Fn(usize, usize, usize) -> i64,
        W: Fn(usize, usize, usize, usize) -> u32,
        B: Fn(u32, u32, u32, u32, u32, u32) -> u32,
    >(
        self,
        sampler: Sampler<S, W, B>,
        mask: MaskGrid,
        mask_s: MaskGrid,
        padded: MaskGrid,
    ) -> bool {
        &&& if self.shrunk {
            sampler.resizes_mask(mask, self.sh, self.sw, mask_s)
        } else {
            mask_s == mask
        }
        &&& is_padded_mask(
            padded,
            mask_s,
            self.pt as int,
            self.pl as int,
            self.ph - self.sh - self.pt,
            self.pw - self.sw - self.pl,
        )
    }

    /// `padded` may be the mask that goes with the input of the generator.
    pub open spec fn brings_mask<
        S: Fn(usize, usize, usize) -> i64,
        W: Fn(usize, usize, usize, usize) -> u32,
        B: Fn(u32, u32, u32, u32, u32, u32) -> u32,
    >(self, sampler: Sampler<S, W, B>, mask: MaskGrid, padded: MaskGrid) -> bool {
        exists|mask_s: MaskGrid| #[trigger] self.brings_mask_over(sampler, mask, mask_s, padded)
    }

    /// `g` is the part of `out` inside the margins.
    pub open spec fn is_cropped(self, out: ImageGrid, g: ImageGrid) -> bool {
        &&& image_shape(g) == (self.sh as nat, self.sw as nat, 3nat)
        &&& forall|y: usize, x: usize, c: usize|
            y < self.sh && x < self.sw && c < 3 ==> #[trigger] g.at(y as int, x as int, c as int)
                == out.at(self.pt + y, self.pl + x, c as int)
    }

    /// `g` is the part inside the margins and `back` that part at the size of the
    /// region.
    pub open spec fn takes_back_over<
        S: Fn(usize, usize, usize) -> i64,
        W: Fn(usize, usize, usize, usize) -> u32,
        B: Fn(u32, u32, u32, u32, u32, u32) -> u32,
    >(
        self,
        sampler: Sampler<S, W, B>,
        out: ImageGrid,
        g: ImageGrid,
        back: ImageGrid,
    ) -> bool {
        &&& self.is_cropped(out, g)
        &&& if self.shrunk {
            sampler.resizes_image(g, self.rh, self.rw, back)
        } else {
            back == g
        }
    }

    /// `back` may be the output of the generator at the size of the region.
    pub open spec fn takes_back<
        S: Fn(usize, usize, usize) -> i64,
        W: Fn(usize, usize, usize, usize) -> u32,
        B: Fn(u32, u32, u32, u32, u32, u32) -> u32,
    >(self, sampler: Sampler<S, W, B>, out: ImageGrid, back: ImageGrid) -> bool {
        exists|g: ImageGrid| #[trigger] self.takes_back_over(sampler, out, g, back)
    }
}

/// A smaller array than one that can be allocated can be allocated.
pub proof fn lemma_fits_smaller(h: nat, w: nat, c: nat, bytes: nat, h2: nat, w2: nat)
    requires
        fits(h2, w2, c, bytes),
        h <= h2,
        w <= w2,
        c >= 1,
    ensures
        fits(h, w, c, bytes),
{
    let (a, b, d) = (nonzero(h) as int, nonzero(w) as int, nonzero(c) as int);
    let (a2, b2) = (nonzero(h2) as int, nonzero(w2) as int);
    assert(a * b * d <= a2 * b2 * d) by (nonlinear_arith)
        requires
            1 <= a <= a2,
            1 <= b <= b2,
            d >= 1,
    ;
    let (hi, wi, ci, k) = (h as int, w as int, c as int, bytes as int);
    let (hj, wj) = (h2 as int, w2 as int);
    assert(hi * wi <= hj * wj) by (nonlinear_arith)
        requires
            0 <= hi <= hj,
            0 <= wi <= wj,
    ;
    assert(hi * wi * ci <= hj * wj * ci) by (nonlinear_arith)
        requires
            hi * wi <= hj * wj,
            ci >= 0,
    ;
    assert(hi * wi * ci * k <= hj * wj * ci * k) by (nonlinear_arith)
        requires
            hi * wi * ci <= hj * wj * ci,
            k >= 0,
    ;
}

/// An array of fewer, smaller items than one that can be allocated.
proof fn lemma_fits_mask(h: nat, w: nat)
    requires
        fits(h, w, 3, 4),
    ensures
        fits(h, w, 1, 1),
{
    let (a, b) = (nonzero(h) as int, nonzero(w) as int);
    assert(a * b * 1 <= a * b * 3) by (nonlinear_arith)
        requires
            a >= 1,
            b >= 1,
    ;
    let (hi, wi) = (h as int, w as int);
    assert(hi * wi * 1 * 1 <= hi * wi * 3 * 4) by (nonlinear_arith)
        requires
            hi >= 0,
            wi >= 0,
    ;
}

/// The side that `n` lines are padded to.
fn pad_side(n: usize) -> (r: usize)
    requires
        n <= isize::MAX,
    ensures
        r == padded_side(n as int),
        r >= n,
{
    let up: usize = (n + 7) / 8 * 8;
    if up >= MIN_SIDE {
        up
    } else {
        MIN_SIDE
    }
}

/// Plans how a region of `rh` rows and `rw` columns is brought to a size that the
/// generator takes. `scaled(n, longest)` is `n` times the cap over the longest
/// side, rounded. Sides that cannot be allocated are refused.
pub fn plan_region<F: Fn(usize, usize) -> usize>(rh: usize, rw: usize, scaled: &F) -> (r: Result<
    PadPlan,
    WorkerError,
>)
    requires
        rh >= 1,
        rw >= 1,
        forall|n: usize, longest: usize| #[trigger] call_requires(*scaled, (n, longest)),
    ensures
        match r {
            Ok(p) => p.plans(*scaled, rh, rw),
            Err(e) => e is TooLarge && exists|sh: usize, sw: usize| #[trigger]
                scales_to(*scaled, rh, rw, sh, sw) && !fits(
                    padded_side(sh as int) as nat,
                    padded_side(sw as int) as nat,
                    3,
                    4,
                ),
        },
{
    let longest: usize = if rh >= rw {
        rh
    } else {
        rw
    };
    let shrunk: bool = longest > MAX_SIDE;
    let (sh, sw): (usize, usize) = if shrunk {
        let h: usize = scaled(rh, longest);
        let w: usize = scaled(rw, longest);
        let h1: usize = if h >= 1 {
            h
        } else {
            1
        };
        let w1: usize = if w >= 1 {
            w
        } else {
            1
        };
        (h1, w1)
    } else {
        (rh, rw)
    };
    assert(scales_to(*scaled, rh, rw, sh, sw));
    let limit: usize = isize::MAX as usize;
    if sh > limit || sw > limit {
        proof {
            if fits(padded_side(sh as int) as nat, padded_side(sw as int) as nat, 3, 4) {
                lemma_fits_axes(
                    padded_side(sh as int) as nat,
                    padded_side(sw as int) as nat,
                    3,
                    4,
                );
            }
        }
        return Err(WorkerError::TooLarge);
    }
    let ph: usize = pad_side(sh);
    let pw: usize = pad_side(sw);
    if !shape_fits(ph, pw, 3, 4) {
        return Err(WorkerError::TooLarge);
    }
    let pt: usize = (ph - sh) / 2;
    let pl: usize = (pw - sw) / 2;
    Ok(PadPlan { rh, rw, sh, sw, ph, pw, pt, pl, shrunk })
}

/// The input of the generator: the region scaled and padded by reflection.
pub fn bring_in<
    S: Fn(usize, usize, usize) -> i64,
    W: Fn(usize, usize, usize, usize) -> u32,
    B: Fn(u32, u32, u32, u32, u32, u32) -> u32,
>(plan: &PadPlan, img: &ImageGrid, mask: &MaskGrid, sampler: &Sampler<S, W, B>) -> (r: (
    ImageGrid,
    MaskGrid,
))
    requires
        plan.wf(),
        sampler.total(),
        plan.rh >= 1,
        plan.rw >= 1,
        image_shape(*img) == (plan.rh as nat, plan.rw as nat, 3nat),
        mask_shape(*mask) == (plan.rh as nat, plan.rw as nat),
    ensures
        plan.brings_image(*sampler, *img, r.0),
        plan.brings_mask(*sampler, *mask, r.1),
        image_shape(r.0) == (plan.ph as nat, plan.pw as nat, 3nat),
        mask_shape(r.1) == (plan.ph as nat, plan.pw as nat),
{
    let bottom: usize = plan.ph - plan.sh - plan.pt;
    let right: usize = plan.pw - plan.sw - plan.pl;
    proof {
        lemma_fits_mask(plan.ph as nat, plan.pw as nat);
        lemma_fits_smaller(
            plan.sh as nat,
            plan.sw as nat,
            3,
            4,
            plan.ph as nat,
            plan.pw as nat,
        );
        lemma_fits_mask(plan.sh as nat, plan.sw as nat);
    }
    if plan.shrunk {
        let img_s = resize_bilinear_hwc(img, plan.sh, plan.sw, sampler);
        let mask_s = resize_nearest_hw(mask, plan.sh, plan.sw, sampler);
        let img_pad = reflect_pad_3d(&img_s, plan.pt, plan.pl, bottom, right);
        let mask_pad = reflect_pad_2d(&mask_s, plan.pt, plan.pl, bottom, right);
        assert(plan.brings_image_over(*sampler, *img, img_s, img_pad));
        assert(plan.brings_mask_over(*sampler, *mask, mask_s, mask_pad));
        (img_pad, mask_pad)
    } else {
        let img_pad = reflect_pad_3d(img, plan.pt, plan.pl, bottom, right);
        let mask_pad = reflect_pad_2d(mask, plan.pt, plan.pl, bottom, right);
        assert(plan.brings_image_over(*sampler, *img, *img, img_pad));
        assert(plan.brings_mask_over(*sampler, *mask, *mask, mask_pad));
        (img_pad, mask_pad)
    }
}

/// The output of the generator at the size of the region: the margins cut off and
/// the scaling undone.
pub fn bring_back<
    S: Fn(usize, usize, usize) -> i64,
    W: Fn(usize, usize, usize, usize) -> u32,
    B: Fn(u32, u32, u32, u32, u32, u32) -> u32,
>(plan: &PadPlan, out: &ImageGrid, sampler: &Sampler<S, W, B>) -> (back: ImageGrid)
    requires
        plan.wf(),
        sampler.total(),
        fits(plan.rh as nat, plan.rw as nat, 3, 4),
        image_shape(*out) == (plan.ph as nat, plan.pw as nat, 3nat),
    ensures
        plan.takes_back(*sampler, *out, back),
        image_shape(back) == (plan.rh as nat, plan.rw as nat, 3nat),
{
    proof {
        lemma_fits_smaller(
            plan.sh as nat,
            plan.sw as nat,
            3,
            4,
            plan.ph as nat,
            plan.pw as nat,
        );
    }
    let sh: usize = plan.sh;
    let sw: usize = plan.sw;
    let g = ImageGrid::build(
        sh,
        sw,
        3,
        |y: usize, x: usize, c: usize| -> (v: u32)
            requires
                sh > y && sw > x && 3 > c,
            ensures
                v == out.at(plan.pt + y, plan.pl + x, c as int)
            { out.cell(plan.pt + y, plan.pl + x, c) },
    );
    if plan.shrunk {
        let back = resize_bilinear_hwc(&g, plan.rh, plan.rw, sampler);
        assert(plan.takes_back_over(*sampler, *out, g, back));
        back
    } else {
        assert(plan.takes_back_over(*sampler, *out, g, g));
        g
    }
}

/// The values that a region passes through on its way through the generator.
pub struct NativeSteps {
    pub plan: PadPlan,
    pub img: ImageGrid,
    pub mask: MaskGrid,
    pub img_t: TensorVal,
    pub mask_t: TensorVal,
    pub out_t: TensorVal,
    pub out: ImageGrid,
    pub back: ImageGrid,
}

/// The region `roi` passes through the generator over the given steps.
pub open spec fn native_over<
    S: Fn(usize, usize, usize) -> i64,
    W: Fn(usize, usize, usize, usize) -> u32,
    B: Fn(u32, u32, u32, u32, u32, u32) -> u32,
    F: Fn(usize, usize) -> usize,
    U: Fn(u32) -> u32,
    T: Fn(usize, usize, usize) -> (u32, u32),
>(
    model: CandleInpainter,
    roi: RoiInfo,
    sampler: Sampler<S, W, B>,
    scaled: F,
    unscale: U,
    wave: T,
    t: NativeSteps,
) -> bool {
    &&& t.plan.plans(scaled, roi.roi_h, roi.roi_w)
    &&& t.plan.brings_image(sampler, roi.img_roi, t.img)
    &&& t.plan.brings_mask(sampler, roi.mask_roi, t.mask)
    &&& is_image_tensor(t.img, t.img_t)
    &&& is_mask_tensor(t.mask, t.mask_t)
    &&& model.runs(wave, t.img_t, t.mask_t, t.out_t)
    &&& is_tensor_image(unscale, t.out_t, t.out)
    &&& image_shape(t.out) == (t.plan.ph as nat, t.plan.pw as nat, 3nat)
    &&& t.plan.takes_back(sampler, t.out, t.back)
}

/// Sides up to the cap fit memory, as grids and on their way through the
/// generator.
proof fn lemma_capped(h: nat, w: nat)
    requires
        h <= MAX_SIDE,
        w <= MAX_SIDE,
    ensures
        fits(h, w, 3, 4),
        numbered((1 * 3 * h * w) as int),
        numbered((1 * 1 * h * w) as int),
        has_memory(seq![1nat, 3nat, h, w]),
{
    lemma_fits_smaller(h, w, 3, 4, 1024, 1024);
    let (a, b) = (h as int, w as int);
    let (p, q) = (8 * eighth(h) as int, 8 * eighth(w) as int);
    assert(p * p <= 1024 * 1024 && q * q <= 1024 * 1024 && (p + 6) * (q + 6) <= 1030 * 1030)
        by (nonlinear_arith)
        requires
            0 <= p <= 1024,
            0 <= q <= 1024,
    ;
    assert(64 * 1 * (p + 6) * (q + 6) == 64 * ((p + 6) * (q + 6))) by (nonlinear_arith);
    assert(a * b <= 1024 * 1024 && a * a <= 1024 * 1024 && b * b <= 1024 * 1024) by (nonlinear_arith)
        requires
            0 <= a <= 1024,
            0 <= b <= 1024,
    ;
    assert(1 * 3 * a * b == 3 * (a * b)) by (nonlinear_arith);
    assert(1 * 1 * a * b == a * b) by (nonlinear_arith);
}

/// Loads the generator from the bytes of a safetensors file, for the CPU.
pub fn load_generator(bytes: Vec<u8>) -> (r: Result<(CandleInpainter, Device), WorkerError>)
    ensures
        match r {
            Ok((m, d)) => {
                &&& complete(bytes@)
                &&& m.wf()
                &&& m.loaded(bytes@)
                &&& m.on_cpu()
                &&& is_cpu(d)
            },
            Err(e) => e is Candle && !complete(bytes@),
        },
{
    let device = cpu();
    let model = CandleInpainter::from_safetensors(bytes, &device)?;
    Ok((model, device))
}

/// Fills the masked part of an image by the generator: the region of interest at
/// its own resolution, the generator, and the result pasted back.
///
/// A model out of a file takes every padded region, and where `scaled` keeps the
/// cap, no size is past memory: on the CPU the call then succeeds.
pub fn run_candle_inpaint<
    S: Fn(usize, usize, usize) -> i64,
    W: Fn(usize, usize, usize, usize) -> u32,
    B: Fn(u32, u32, u32, u32, u32, u32) -> u32,
    F: Fn(usize, usize) -> usize,
    U: Fn(u32) -> u32,
    T: Fn(usize, usize, usize) -> (u32, u32),
>(
    model: &CandleInpainter,
    device: &Device,
    image: &ImageGrid,
    roi: &RoiInfo,
    sampler: &Sampler<S, W, B>,
    scaled: &F,
    unscale: &U,
    wave: &T,
) -> (r: Result<ImageGrid, WorkerError>)
    requires
        model.wf(),
        sampler.total(),
        forall|n: usize, longest: usize| #[trigger] call_requires(*scaled, (n, longest)),
        total_scale(*unscale),
        total_wave(*wave),
        image.c() == 3,
        roi.pastes_into(image.h(), image.w()),
        roi.roi_h >= 1,
        roi.roi_w >= 1,
    ensures
        match r {
            Ok(result) => exists|t: NativeSteps|
                {
                    &&& #[trigger] native_over(
                        *model,
                        *roi,
                        *sampler,
                        *scaled,
                        *unscale,
                        *wave,
                        t,
                    )
                    &&& roi.is_pasted(t.back, *image, result)
                },
            Err(e) => {
                &&& e is Candle || e is TooLarge || e is PadTooLarge || e is KernelTooLarge
                    || e is DegenerateWidth || e is DroppedBranch || e is DroppedLocal
                    || e is NoInitBranch || e is NoGlobalBranch || e is TensorShape
                &&& model.standard() ==> {
                    ||| e is Candle && !(model.on_cpu() && is_cpu(*device))
                    ||| e is TooLarge && !keeps_cap(*scaled)
                }
            },
        },
{
    let (rh, rw, _) = roi.img_roi.dim();
    proof {
        if keeps_cap(*scaled) {
            assert forall|sh: usize, sw: usize| #[trigger]
                scales_to(*scaled, rh, rw, sh, sw) implies sh <= MAX_SIDE && sw <= MAX_SIDE && fits(
                padded_side(sh as int) as nat,
                padded_side(sw as int) as nat,
                3,
                4,
            ) by {
                lemma_capped(padded_side(sh as int) as nat, padded_side(sw as int) as nat);
            }
        }
    }
    let plan = plan_region(rh, rw, scaled)?;
    proof {
        if keeps_cap(*scaled) {
            assert(scales_to(*scaled, rh, rw, plan.sh, plan.sw));
            lemma_capped(plan.ph as nat, plan.pw as nat);
        }
    }
    let (img, mask) = bring_in(&plan, &roi.img_roi, &roi.mask_roi, sampler);
    let img_t = hwc_to_chw_tensor(&img, device)?;
    let mask_t = mask_to_chw_tensor(&mask, device)?;
    proof {
        let (a, b) = (tensor_val(img_t), tensor_val(mask_t));
        assert(b.dims =~= a.dims.update(1, 1));
        assert(takes_size(a, b));
    }
    let out_t = model.inpaint(&img_t, &mask_t, wave)?;
    let out = chw_tensor_to_hwc(&out_t, unscale)?;
    let (oh, ow, _) = out.dim();
    if oh != plan.ph || ow != plan.pw {
        return Err(WorkerError::TensorShape(vec![1, 3, oh, ow]));
    }
    let back = bring_back(&plan, &out, sampler);
    let result = postprocess(&back, image, roi, sampler);
    proof {
        let t = NativeSteps {
            plan,
            img,
            mask,
            img_t: tensor_val(img_t),
            mask_t: tensor_val(mask_t),
            out_t: tensor_val(out_t),
            out,
            back,
        };
        assert(native_over(*model, *roi, *sampler, *scaled, *unscale, *wave, t));
        let out_roi = choose|out_roi: ImageGrid|
            #![trigger roi.is_pasted(out_roi, *image, result)]
            sampler.resizes_image(back, roi.roi_h, roi.roi_w, out_roi) && roi.is_pasted(
                out_roi,
                *image,
                result,
            );
        lemma_paste_same(*roi, out_roi, back, *image, result);
    }
    Ok(result)
}

/// Pasting a copy of a region pastes the region.
proof fn lemma_paste_same(
    roi: RoiInfo,
    out_roi: ImageGrid,
    back: ImageGrid,
    image: ImageGrid,
    result: ImageGrid,
)
    requires
        image.c() == 3,
        roi.pastes_into(image.h(), image.w()),
        image_shape(back) == (roi.roi_h as nat, roi.roi_w as nat, 3nat),
        out_roi.same_as(back),
        roi.is_pasted(out_roi, image, result),
    ensures
        roi.is_pasted(back, image, result),
{
    assert forall|y: usize, x: usize, c: usize|
        y < image.h() && x < image.w() && c < 3 implies #[trigger] result.at(
        y as int,
        x as int,
        c as int,
    ) == roi.pasted(back, image, y as int, x as int, c as int) by {
        let ry = roi.first_row() + (y - roi.paste_box.y1);
        let rx = roi.first_col() + (x - roi.paste_box.x1);
        if roi.covers(y as int, x as int) {
            assert(out_roi.holds(ry, rx, c as int));
            assert(out_roi.at(ry, rx, c as int) == back.at(ry, rx, c as int));
        }
    }
}

} // verus!
