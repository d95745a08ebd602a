//! The region of interest: the selected pixels, one context size of
//! surroundings on each side, and the way back into the image.

use vstd::prelude::*;

use crate::error::WorkerError;
use crate::grid::{
    fits, image_shape, lemma_fits_axes, mask_shape, nonzero, shape_fits, ImageGrid, MaskGrid,
};
use crate::reflect::{image_reflected, lemma_mirror_range, mask_reflected, reflect_index};
use crate::resize::{resizable, resize_bilinear_hwc, resize_nearest_hw, Sampler};

verus! {

/// Side of the square that the exported model takes.
pub const MODEL_INPUT: usize = 512;

/// The first integer that a 32-bit float holds with an even significand only.
pub const EXACT_LIMIT: usize = 0x100_0000;

/// The distance between neighbouring 32-bit floats at an integer `n`.
pub open spec fn float_step(n: nat) -> nat
    decreases n,
{
    if n < EXACT_LIMIT {
        1
    } else {
        2 * float_step(n / 2)
    }
}

/// The integer nearest to `n` among the 32-bit floats, ties to the even
/// significand.
pub open spec fn float_nearest(n: nat) -> nat {
    let step = float_step(n);
    let q = n / step;
    let r = n % step;
    if 2 * r < step || (2 * r == step && q % 2 == 0) {
        q * step
    } else {
        (q + 1) * step
    }
}

proof fn lemma_step_positive(n: nat)
    ensures
        float_step(n) >= 1,
    decreases n,
{
    if n >= EXACT_LIMIT {
        lemma_step_positive(n / 2);
    }
}

/// An integer below the exact limit is a 32-bit float itself.
pub proof fn lemma_float_nearest_small(n: nat)
    requires
        n <= EXACT_LIMIT,
    ensures
        float_nearest(n) == n,
{
    if n == EXACT_LIMIT {
        assert(float_step(EXACT_LIMIT as nat / 2) == 1);
        assert(float_step(n) == 2);
    } else {
        assert(float_step(n) == 1);
        assert(n / 1 == n && n % 1 == 0 && n * 1 == n);
    }
}

/// `n` converted to a 32-bit float and back, limited to `usize`.
pub fn through_float(n: usize) -> (r: usize)
    ensures
        r == if float_nearest(n as nat) <= usize::MAX {
            float_nearest(n as nat)
        } else {
            usize::MAX as nat
        },
{
    let mut m: usize = n;
    let mut step: usize = 1;
    proof {
        assert(1 * float_step(n as nat) == float_step(n as nat));
    }
    while m >= EXACT_LIMIT
        invariant
            step >= 1,
            step * m <= n,
            float_step(n as nat) == step * float_step(m as nat),
        decreases m,
    {
        let ghost m0 = m as int;
        let ghost s0 = step as int;
        assert(s0 * (2 * float_step((m0 / 2) as nat)) == (2 * s0) * float_step((m0 / 2) as nat))
            by (nonlinear_arith);
        assert((2 * s0) * (m0 / 2) <= s0 * m0) by (nonlinear_arith)
            requires
                s0 >= 1,
                m0 >= 0,
        ;
        assert(2 * s0 <= s0 * m0) by (nonlinear_arith)
            requires
                s0 >= 1,
                m0 >= 2,
        ;
        m = m / 2;
        step = step * 2;
    }
    proof {
        lemma_step_positive(n as nat);
        assert(step * 1 == step);
        vstd::arithmetic::div_mod::lemma_fundamental_div_mod(n as int, step as int);
        vstd::arithmetic::mul::lemma_mul_is_commutative(step as int, (n / step) as int);
        vstd::arithmetic::div_mod::lemma_mod_bound(n as int, step as int);
        vstd::arithmetic::div_mod::lemma_div_is_ordered_by_denominator(
            n as int,
            1,
            step as int,
        );
    }
    let q: usize = n / step;
    let rest: usize = n % step;
    let down: usize = q * step;
    if rest < step - rest || (rest == step - rest && q % 2 == 0) {
        down
    } else {
        assert((q + 1) * step == q * step + step) by (nonlinear_arith);
        match down.checked_add(step) {
            Some(up) => up,
            None => usize::MAX,
        }
    }
}

/// The flag at `(y, x)` is set.
pub open spec fn selected(mask: MaskGrid, y: int, x: int) -> bool {
    mask.holds(y, x) && mask.at(y, x)
}

/// Some flag is set.
pub open spec fn any_selected(mask: MaskGrid) -> bool {
    exists|y: int, x: int| selected(mask, y, x)
}

/// The smallest box that holds every set flag, corners inclusive.
pub struct Selection {
    pub x1: usize,
    pub y1: usize,
    pub x2: usize,
    pub y2: usize,
}

impl Selection {
    /// Every set flag lies in the box and each side of the box touches one.
    pub open spec fn bounds(self, mask: MaskGrid) -> bool {
        &&& self.y1 <= self.y2 < mask.h()
        &&& self.x1 <= self.x2 < mask.w()
        &&& forall|y: int, x: int| #[trigger]
            selected(mask, y, x) ==> self.y1 <= y <= self.y2 && self.x1 <= x <= self.x2
        &&& exists|x: int| selected(mask, self.y1 as int, x)
        &&& exists|x: int| selected(mask, self.y2 as int, x)
        &&& exists|y: int| selected(mask, y, self.x1 as int)
        &&& exists|y: int| selected(mask, y, self.x2 as int)
    }

    /// Columns of the box.
    pub open spec fn w(self) -> nat {
        (self.x2 - self.x1 + 1) as nat
    }

    /// Rows of the box.
    pub open spec fn h(self) -> nat {
        (self.y2 - self.y1 + 1) as nat
    }

    /// The context on each side: the longer side of the box, as near as a
    /// 32-bit float holds it, and at least one.
    pub open spec fn context(self) -> nat {
        let side = if self.w() >= self.h() {
            self.w()
        } else {
            self.h()
        };
        if float_nearest(side) >= 1 {
            float_nearest(side)
        } else {
            1
        }
    }

    /// Columns of the region of interest.
    pub open spec fn roi_w(self) -> nat {
        self.w() + 2 * self.context()
    }

    /// Rows of the region of interest.
    pub open spec fn roi_h(self) -> nat {
        self.h() + 2 * self.context()
    }
}

/// The index comes before `(y, x)` in row order.
spec fn scanned(a: int, b: int, y: int, x: int) -> bool {
    a < y || (a == y && b < x)
}

/// The box of the set flags, `None` when no flag is set.
pub fn selection(mask: &MaskGrid) -> (r: Option<Selection>)
    ensures
        r is Some <==> any_selected(*mask),
        r matches Some(s) ==> s.bounds(*mask),
{
    let (h, w) = mask.dim();
    let mut sel_x1: usize = w;
    let mut sel_y1: usize = h;
    let mut sel_x2: usize = 0;
    let mut sel_y2: usize = 0;
    let mut found: bool = false;
    let mut y: usize = 0;
    while y < h
        invariant
            y <= h,
            mask_shape(*mask) == (h as nat, w as nat),
            !found ==> sel_x1 == w && sel_y1 == h && sel_x2 == 0 && sel_y2 == 0,
            found ==> sel_y1 <= sel_y2 < y && sel_x1 <= sel_x2 < w,
            forall|a: int, b: int| #[trigger]
                selected(*mask, a, b) && a < y ==> found && sel_y1 <= a <= sel_y2 && sel_x1 <= b
                    <= sel_x2,
            found ==> exists|b: int| selected(*mask, sel_y1 as int, b),
            found ==> exists|b: int| selected(*mask, sel_y2 as int, b),
            found ==> exists|a: int| selected(*mask, a, sel_x1 as int),
            found ==> exists|a: int| selected(*mask, a, sel_x2 as int),
        decreases h - y,
    {
        let mut x: usize = 0;
        while x < w
            invariant
                y < h,
                x <= w,
                mask_shape(*mask) == (h as nat, w as nat),
                !found ==> sel_x1 == w && sel_y1 == h && sel_x2 == 0 && sel_y2 == 0,
                found ==> sel_y1 <= sel_y2 <= y && sel_x1 <= sel_x2 < w,
                forall|a: int, b: int| #[trigger]
                    selected(*mask, a, b) && scanned(a, b, y as int, x as int) ==> found && sel_y1
                        <= a <= sel_y2 && sel_x1 <= b <= sel_x2,
                found ==> exists|b: int| selected(*mask, sel_y1 as int, b),
                found ==> exists|b: int| selected(*mask, sel_y2 as int, b),
                found ==> exists|a: int| selected(*mask, a, sel_x1 as int),
                found ==> exists|a: int| selected(*mask, a, sel_x2 as int),
            decreases w - x,
        {
            if mask.cell(y, x) {
                assert(selected(*mask, y as int, x as int));
                if x < sel_x1 {
                    sel_x1 = x;
                }
                if y < sel_y1 {
                    sel_y1 = y;
                }
                if x >= sel_x2 {
                    sel_x2 = x;
                }
                if y >= sel_y2 {
                    sel_y2 = y;
                }
                found = true;
            }
            x = x + 1;
        }
        y = y + 1;
    }
    if found {
        let s = Selection { x1: sel_x1, y1: sel_y1, x2: sel_x2, y2: sel_y2 };
        assert(s.bounds(*mask)) by {
            assert(forall|a: int, b: int| #[trigger]
                selected(*mask, a, b) ==> s.y1 <= a <= s.y2 && s.x1 <= b <= s.x2);
            assert(exists|b: int| selected(*mask, s.y1 as int, b));
            assert(exists|b: int| selected(*mask, s.y2 as int, b));
            assert(exists|b: int| selected(*mask, b, s.x1 as int));
            assert(exists|b: int| selected(*mask, b, s.x2 as int));
        }
        Some(s)
    } else {
        None
    }
}

/// The arrays that the region of interest of a mask takes, with `c` channels,
/// can be allocated, and its far corner is a 64-bit coordinate.
pub open spec fn roi_fits(mask: MaskGrid, c: nat) -> bool {
    forall|s: Selection| #[trigger]
        s.bounds(mask) ==> {
            &&& fits(s.roi_h(), s.roi_w(), c, 4)
            &&& fits(s.roi_h(), s.roi_w(), 1, 1)
            &&& s.x2 + 1 + s.context() <= i64::MAX
            &&& s.y2 + 1 + s.context() <= i64::MAX
        }
}

/// A mask has one selection box.
pub proof fn lemma_selection_unique(mask: MaskGrid, s: Selection, t: Selection)
    requires
        s.bounds(mask),
        t.bounds(mask),
    ensures
        s == t,
{
    let a = choose|x: int| selected(mask, s.y1 as int, x);
    let b = choose|x: int| selected(mask, s.y2 as int, x);
    let c = choose|y: int| selected(mask, y, s.x1 as int);
    let d = choose|y: int| selected(mask, y, s.x2 as int);
    let e = choose|x: int| selected(mask, t.y1 as int, x);
    let f = choose|x: int| selected(mask, t.y2 as int, x);
    let g = choose|y: int| selected(mask, y, t.x1 as int);
    let h = choose|y: int| selected(mask, y, t.x2 as int);
    assert(selected(mask, s.y1 as int, a) && selected(mask, s.y2 as int, b));
    assert(selected(mask, c, s.x1 as int) && selected(mask, d, s.x2 as int));
    assert(selected(mask, t.y1 as int, e) && selected(mask, t.y2 as int, f));
    assert(selected(mask, g, t.x1 as int) && selected(mask, h, t.x2 as int));
}

/// Decides whether the region of interest of a mask can be allocated.
pub fn check_roi_fits(mask: &MaskGrid, c: usize) -> (r: bool)
    ensures
        r == roi_fits(*mask, c as nat),
{
    let s = match selection(mask) {
        Some(s) => s,
        None => {
            assert forall|t: Selection| #[trigger] t.bounds(*mask) implies false by {
                let x = choose|x: int| selected(*mask, t.y1 as int, x);
                assert(selected(*mask, t.y1 as int, x));
            }
            return true;
        },
    };
    let (h, w) = mask.dim();
    let sel_w: usize = s.x2 - s.x1 + 1;
    let sel_h: usize = s.y2 - s.y1 + 1;
    let ctx: usize = context_of(sel_w, sel_h);
    proof {
        assert forall|t: Selection| #[trigger] t.bounds(*mask) implies t == s by {
            lemma_selection_unique(*mask, s, t);
        }
        if fits(s.roi_h(), s.roi_w(), c as nat, 4) {
            lemma_fits_axes(s.roi_h(), s.roi_w(), c as nat, 4);
        }
    }
    let room: usize = isize::MAX as usize;
    if ctx > room / 2 {
        return false;
    }
    let pads: usize = 2 * ctx;
    if sel_w > room - pads || sel_h > room - pads {
        return false;
    }
    let last: i128 = i64::MAX as i128 - 1 - ctx as i128;
    shape_fits(sel_h + pads, sel_w + pads, c, 4) && shape_fits(sel_h + pads, sel_w + pads, 1, 1)
        && s.x2 as i128 <= last && s.y2 as i128 <= last
}

/// The context for a selection of `w` columns and `h` rows.
fn context_of(w: usize, h: usize) -> (ctx: usize)
    requires
        w >= 1,
        h >= 1,
    ensures
        ({
            let side = if w >= h {
                w as nat
            } else {
                h as nat
            };
            let near = float_nearest(side);
            ctx == if near > usize::MAX {
                usize::MAX as nat
            } else if near >= 1 {
                near
            } else {
                1
            }
        }),
{
    let side: usize = if w >= h {
        w
    } else {
        h
    };
    let near: usize = through_float(side);
    if near >= 1 {
        near
    } else {
        1
    }
}

/// The part of the image that a region of interest covers: rows `y1..y2`,
/// columns `x1..x2`.
pub struct PasteBox {
    pub y1: usize,
    pub y2: usize,
    pub x1: usize,
    pub x2: usize,
}

/// A region of interest cut out of an image and its mask.
pub struct RoiInfo {
    pub roi_x1: i64,
    pub roi_y1: i64,
    pub roi_w: usize,
    pub roi_h: usize,
    pub paste_box: PasteBox,
    pub img_roi: ImageGrid,
    pub mask_roi: MaskGrid,
}

impl RoiInfo {
    /// The region that selection `s` gives: the selection with its context on
    /// each side, cut out of `image` and `mask`.
    pub open spec fn cut_from(self, image: ImageGrid, mask: MaskGrid, s: Selection) -> bool {
        &&& self.roi_x1 == s.x1 - s.context()
        &&& self.roi_y1 == s.y1 - s.context()
        &&& self.roi_w == s.roi_w()
        &&& self.roi_h == s.roi_h()
        &&& is_image_window(
            self.img_roi,
            image,
            self.roi_x1 as int,
            self.roi_y1 as int,
            self.roi_w as nat,
            self.roi_h as nat,
        )
        &&& is_mask_window(
            self.mask_roi,
            mask,
            self.roi_x1 as int,
            self.roi_y1 as int,
            self.roi_w as nat,
            self.roi_h as nat,
        )
        &&& self.paste_box.y1 == larger(0, self.roi_y1 as int)
        &&& self.paste_box.y2 == smaller(image.h() as int, self.roi_y1 + self.roi_h)
        &&& self.paste_box.x1 == larger(0, self.roi_x1 as int)
        &&& self.paste_box.x2 == smaller(image.w() as int, self.roi_x1 + self.roi_w)
    }

    /// The region's row that the first pasted row of the image comes from.
    pub open spec fn first_row(self) -> int {
        larger(0, -self.roi_y1)
    }

    /// The region's column that the first pasted column comes from.
    pub open spec fn first_col(self) -> int {
        larger(0, -self.roi_x1)
    }

    /// The region can be pasted into an image of `h` rows and `w` columns.
    pub open spec fn pastes_into(self, h: nat, w: nat) -> bool {
        let b = self.paste_box;
        &&& image_shape(self.img_roi) == (self.roi_h as nat, self.roi_w as nat, 3nat)
        &&& mask_shape(self.mask_roi) == (self.roi_h as nat, self.roi_w as nat)
        &&& b.y1 <= b.y2 <= h
        &&& b.x1 <= b.x2 <= w
        &&& self.first_row() + (b.y2 - b.y1) <= self.roi_h
        &&& self.first_col() + (b.x2 - b.x1) <= self.roi_w
    }

    /// The index of the image lies in the pasted part.
    pub open spec fn covers(self, y: int, x: int) -> bool {
        let b = self.paste_box;
        b.y1 <= y < b.y2 && b.x1 <= x < b.x2
    }

    /// The sample that pasting gives at an index of the image: outside the
    /// pasted part the image's own; inside it the model's where the region's
    /// mask is set, and the region's own elsewhere.
    pub open spec fn pasted(
        self,
        out_roi: ImageGrid,
        image: ImageGrid,
        y: int,
        x: int,
        c: int,
    ) -> u32 {
        let ry = self.first_row() + (y - self.paste_box.y1);
        let rx = self.first_col() + (x - self.paste_box.x1);
        if !self.covers(y, x) {
            image.at(y, x, c)
        } else if self.mask_roi.at(ry, rx) {
            out_roi.at(ry, rx, c)
        } else {
            self.img_roi.at(ry, rx, c)
        }
    }

    /// `result` is `image` with the model's region `out_roi` pasted in.
    pub open spec fn is_pasted(
        self,
        out_roi: ImageGrid,
        image: ImageGrid,
        result: ImageGrid,
    ) -> bool {
        &&& image_shape(result) == image_shape(image)
        &&& forall|y: usize, x: usize, c: usize|
            y < image.h() && x < image.w() && c < 3 ==> #[trigger] result.at(
                y as int,
                x as int,
                c as int,
            ) == self.pasted(out_roi, image, y as int, x as int, c as int)
    }
}

/// The larger of two integers.
pub open spec fn larger(a: int, b: int) -> int {
    if a >= b {
        a
    } else {
        b
    }
}

/// The smaller of two integers.
pub open spec fn smaller(a: int, b: int) -> int {
    if a <= b {
        a
    } else {
        b
    }
}

/// `out` is the window of `roi_h` rows and `roi_w` columns at `(roi_y1, roi_x1)`
/// of the endless reflection of `image`.
pub open spec fn is_image_window(
    out: ImageGrid,
    image: ImageGrid,
    roi_x1: int,
    roi_y1: int,
    roi_w: nat,
    roi_h: nat,
) -> bool {
    &&& image_shape(out) == (roi_h, roi_w, image.c())
    &&& forall|y: usize, x: usize, c: usize|
        y < roi_h && x < roi_w && c < image.c() ==> #[trigger] out.at(y as int, x as int, c as int)
            == image_reflected(image, roi_y1 + y, roi_x1 + x, c)
}

/// The same for a mask.
pub open spec fn is_mask_window(
    out: MaskGrid,
    mask: MaskGrid,
    roi_x1: int,
    roi_y1: int,
    roi_w: nat,
    roi_h: nat,
) -> bool {
    &&& mask_shape(out) == (roi_h, roi_w)
    &&& forall|y: usize, x: usize|
        y < roi_h && x < roi_w ==> #[trigger] out.at(y as int, x as int) == mask_reflected(
            mask,
            roi_y1 + y,
            roi_x1 + x,
        )
}

/// Cuts a window out of an image and its mask, reflecting where the window
/// passes the border, and gives the part of the image that it covers.
pub fn crop_with_reflect_pad(
    image: &ImageGrid,
    mask: &MaskGrid,
    roi_x1: i64,
    roi_y1: i64,
    roi_w: usize,
    roi_h: usize,
) -> (r: (ImageGrid, MaskGrid, PasteBox))
    requires
        mask.h() == image.h(),
        mask.w() == image.w(),
        image.h() >= 1 && image.w() >= 1 || roi_h == 0 || roi_w == 0,
        fits(roi_h as nat, roi_w as nat, image.c(), 4),
        fits(roi_h as nat, roi_w as nat, 1, 1),
        roi_x1 + roi_w <= i64::MAX,
        roi_y1 + roi_h <= i64::MAX,
    ensures
        is_image_window(r.0, *image, roi_x1 as int, roi_y1 as int, roi_w as nat, roi_h as nat),
        is_mask_window(r.1, *mask, roi_x1 as int, roi_y1 as int, roi_w as nat, roi_h as nat),
        r.2.y1 == larger(0, roi_y1 as int) as usize,
        r.2.y2 == smaller(image.h() as int, roi_y1 + roi_h) as usize,
        r.2.x1 == larger(0, roi_x1 as int) as usize,
        r.2.x2 == smaller(image.w() as int, roi_x1 + roi_w) as usize,
{
    let (h, w, c) = image.dim();
    proof {
        lemma_fits_axes(h as nat, w as nat, c as nat, 4);
        lemma_fits_axes(roi_h as nat, roi_w as nat, 1, 1);
    }
    let img_roi = ImageGrid::build(
        roi_h,
        roi_w,
        c,
        |y: usize, x: usize, ch: usize| -> (v: u32)
            requires
                roi_h > y && roi_w > x && c > ch,
            ensures
                v == image_reflected(*image, roi_y1 + y, roi_x1 + x, ch)
            {
                proof {
                    lemma_mirror_range(roi_y1 + y, h as int);
                    lemma_mirror_range(roi_x1 + x, w as int);
                }
                let oy: i64 = reflect_index(roi_y1 + y as i64, h as i64);
                let ox: i64 = reflect_index(roi_x1 + x as i64, w as i64);
                image.cell(oy as usize, ox as usize, ch)
            },
    );
    let mask_roi = MaskGrid::build(
        roi_h,
        roi_w,
        |y: usize, x: usize| -> (v: bool)
            requires
                roi_h > y && roi_w > x,
            ensures
                v == mask_reflected(*mask, roi_y1 + y, roi_x1 + x)
            {
                proof {
                    lemma_mirror_range(roi_y1 + y, h as int);
                    lemma_mirror_range(roi_x1 + x, w as int);
                }
                let oy: i64 = reflect_index(roi_y1 + y as i64, h as i64);
                let ox: i64 = reflect_index(roi_x1 + x as i64, w as i64);
                mask.cell(oy as usize, ox as usize)
            },
    );
    let bottom: i64 = roi_y1 + roi_h as i64;
    let right: i64 = roi_x1 + roi_w as i64;
    let top: i64 = if roi_y1 > 0 {
        roi_y1
    } else {
        0
    };
    let left: i64 = if roi_x1 > 0 {
        roi_x1
    } else {
        0
    };
    let y2: i64 = if (h as i64) <= bottom {
        h as i64
    } else {
        bottom
    };
    let x2: i64 = if (w as i64) <= right {
        w as i64
    } else {
        right
    };
    let paste_box = PasteBox {
        y1: top as usize,
        y2: y2 as usize,
        x1: left as usize,
        x2: x2 as usize,
    };
    (img_roi, mask_roi, paste_box)
}

/// The region of interest around the mask, and its image and mask at the size of
/// the square that the exported model takes.
pub open spec fn is_preprocessed<
    S: Fn(usize, usize, usize) -> i64,
    W: Fn(usize, usize, usize, usize) -> u32,
    B: Fn(u32, u32, u32, u32, u32, u32) -> u32,
>(
    image: ImageGrid,
    mask: MaskGrid,
    sampler: Sampler<S, W, B>,
    img_512: ImageGrid,
    mask_512: MaskGrid,
    info: RoiInfo,
) -> bool {
    &&& exists|s: Selection| #[trigger] s.bounds(mask) && info.cut_from(image, mask, s)
    &&& sampler.resizes_image(info.img_roi, MODEL_INPUT, MODEL_INPUT, img_512)
    &&& sampler.resizes_mask(info.mask_roi, MODEL_INPUT, MODEL_INPUT, mask_512)
}

/// Cuts the region of interest around the mask and resizes it to the square
/// that the exported model takes. A mask without a set flag is refused.
pub fn preprocess<
    S: Fn(usize, usize, usize) -> i64,
    W: Fn(usize, usize, usize, usize) -> u32,
    B: Fn(u32, u32, u32, u32, u32, u32) -> u32,
>(image: &ImageGrid, mask: &MaskGrid, sampler: &Sampler<S, W, B>) -> (r: Result<
    (ImageGrid, MaskGrid, RoiInfo),
    WorkerError,
>)
    requires
        sampler.total(),
        mask.h() == image.h(),
        mask.w() == image.w(),
        roi_fits(*mask, image.c()),
        fits(MODEL_INPUT as nat, MODEL_INPUT as nat, image.c(), 4),
    ensures
        match r {
            Ok((img_512, mask_512, info)) => is_preprocessed(
                *image,
                *mask,
                *sampler,
                img_512,
                mask_512,
                info,
            ),
            Err(e) => e == WorkerError::EmptyMask && !any_selected(*mask),
        },
{
    let s = match selection(mask) {
        Some(s) => s,
        None => {
            return Err(WorkerError::EmptyMask);
        },
    };
    let (h, w, c) = image.dim();
    proof {
        lemma_fits_axes(s.roi_h(), s.roi_w(), 1, 1);
        lemma_fits_axes(h as nat, w as nat, c as nat, 4);
    }
    let sel_w: usize = s.x2 - s.x1 + 1;
    let sel_h: usize = s.y2 - s.y1 + 1;
    let ctx: usize = context_of(sel_w, sel_h);
    let roi_x1: i64 = s.x1 as i64 - ctx as i64;
    let roi_y1: i64 = s.y1 as i64 - ctx as i64;
    let roi_w: usize = sel_w + 2 * ctx;
    let roi_h: usize = sel_h + 2 * ctx;
    let (img_roi, mask_roi, paste_box) = crop_with_reflect_pad(
        image,
        mask,
        roi_x1,
        roi_y1,
        roi_w,
        roi_h,
    );
    assert(fits(MODEL_INPUT as nat, MODEL_INPUT as nat, 1, 1)) by {
        assert(nonzero(512) * nonzero(512) * nonzero(1) == 262144);
        assert(512nat * 512nat * 1nat * 1nat == 262144);
    }
    let img_512 = resize_bilinear_hwc(&img_roi, MODEL_INPUT, MODEL_INPUT, sampler);
    let mask_512 = resize_nearest_hw(&mask_roi, MODEL_INPUT, MODEL_INPUT, sampler);
    let info = RoiInfo { roi_x1, roi_y1, roi_w, roi_h, paste_box, img_roi, mask_roi };
    assert(s.bounds(*mask) && info.cut_from(*image, *mask, s));
    Ok((img_512, mask_512, info))
}

/// Resizes the model's output to the region of interest and pastes it into the
/// image where the mask is set.
pub fn postprocess<
    S: Fn(usize, usize, usize) -> i64,
    W: Fn(usize, usize, usize, usize) -> u32,
    B: Fn(u32, u32, u32, u32, u32, u32) -> u32,
>(out_hwc: &ImageGrid, image: &ImageGrid, roi: &RoiInfo, sampler: &Sampler<S, W, B>) -> (result:
    ImageGrid)
    requires
        sampler.total(),
        image.c() == 3,
        out_hwc.c() == 3,
        roi.pastes_into(image.h(), image.w()),
        resizable(out_hwc.h(), out_hwc.w(), roi.roi_h as nat, roi.roi_w as nat),
    ensures
        exists|out_roi: ImageGrid|
            #![trigger roi.is_pasted(out_roi, *image, result)]
            sampler.resizes_image(*out_hwc, roi.roi_h, roi.roi_w, out_roi) && roi.is_pasted(
                out_roi,
                *image,
                result,
            ),
{
    let (roi_h, roi_w, _) = roi.img_roi.dim();
    let out_roi = resize_bilinear_hwc(out_hwc, roi_h, roi_w, sampler);
    let (h, w, c) = image.dim();
    proof {
        lemma_fits_axes(roi_h as nat, roi_w as nat, 3, 4);
    }
    let real_y1: usize = if roi.roi_y1 < 0 {
        (-(roi.roi_y1 as i128)) as usize
    } else {
        0
    };
    let real_x1: usize = if roi.roi_x1 < 0 {
        (-(roi.roi_x1 as i128)) as usize
    } else {
        0
    };
    let b = &roi.paste_box;
    let result = ImageGrid::build(
        h,
        w,
        c,
        |y: usize, x: usize, ch: usize| -> (v: u32)
            requires
                h > y && w > x && c > ch,
            ensures
                v == roi.pasted(out_roi, *image, y as int, x as int, ch as int)
            {
                if b.y1 <= y && y < b.y2 && b.x1 <= x && x < b.x2 {
                    let ry: usize = real_y1 + (y - b.y1);
                    let rx: usize = real_x1 + (x - b.x1);
                    if roi.mask_roi.cell(ry, rx) {
                        out_roi.cell(ry, rx, ch)
                    } else {
                        roi.img_roi.cell(ry, rx, ch)
                    }
                } else {
                    image.cell(y, x, ch)
                }
            },
    );
    assert(roi.is_pasted(out_roi, *image, result));
    result
}

} // verus!
