//! Pixel grids: an image of `h * w * c` samples and a mask of `h * w` flags.
//!
//! A sample is the bit pattern of a 32-bit float. The grids are held by
//! `ndarray` arrays; the library speaks of them through their shape and the
//! sample at each index.

use vstd::prelude::*;

verus! {

/// A length, with an empty axis counted as one.
pub open spec fn nonzero(n: nat) -> nat {
    if n == 0 {
        1
    } else {
        n
    }
}

/// An array of `h * w * c` items of `bytes` bytes each can be allocated: the
/// product of its non-empty axes and its size in bytes both stay within
/// `isize`.
pub open spec fn fits(h: nat, w: nat, c: nat, bytes: nat) -> bool {
    &&& nonzero(h) * nonzero(w) * nonzero(c) <= isize::MAX
    &&& h * w * c * bytes <= isize::MAX
}

/// Decides whether an array of the given shape can be allocated.
pub fn shape_fits(h: usize, w: usize, c: usize, bytes: usize) -> (r: bool)
    ensures
        r == fits(h as nat, w as nat, c as nat, bytes as nat),
{
    let nh: usize = if h == 0 {
        1
    } else {
        h
    };
    let nw: usize = if w == 0 {
        1
    } else {
        w
    };
    let nc: usize = if c == 0 {
        1
    } else {
        c
    };
    let limit: usize = isize::MAX as usize;
    let plane: usize = match nh.checked_mul(nw) {
        Some(v) => v,
        None => {
            proof {
                lemma_product_grows((nh * nw) as nat, nc as nat);
            }
            return false;
        },
    };
    let count: usize = match plane.checked_mul(nc) {
        Some(v) => v,
        None => {
            return false;
        },
    };
    if count > limit {
        return false;
    }
    if h == 0 || w == 0 || c == 0 {
        assert(h * w * c * bytes == 0) by (nonlinear_arith)
            requires
                h == 0 || w == 0 || c == 0,
        ;
        return true;
    }
    match count.checked_mul(bytes) {
        Some(v) => v <= limit,
        None => false,
    }
}

proof fn lemma_product_grows(a: nat, b: nat)
    by (nonlinear_arith)
    requires
        b >= 1,
    ensures
        a * b >= a,
{
}

/// Each axis of an array that can be allocated stays within `isize`.
pub proof fn lemma_fits_axes(h: nat, w: nat, c: nat, bytes: nat)
    requires
        fits(h, w, c, bytes),
    ensures
        h <= isize::MAX,
        w <= isize::MAX,
        c <= isize::MAX,
{
    let (a, b, d) = (nonzero(h) as int, nonzero(w) as int, nonzero(c) as int);
    assert(a <= a * b * d && b <= a * b * d && d <= a * b * d) by (nonlinear_arith)
        requires
            a >= 1,
            b >= 1,
            d >= 1,
    ;
}

/// What an image grid holds: the sample at each (row, column, channel).
pub uninterp spec fn image_cells(g: ImageGrid) -> Map<(int, int, int), u32>;

/// The shape of an image grid: rows, columns, channels.
pub uninterp spec fn image_shape(g: ImageGrid) -> (nat, nat, nat);

/// What a mask grid holds: the flag at each (row, column).
pub uninterp spec fn mask_cells(g: MaskGrid) -> Map<(int, int), bool>;

/// The shape of a mask grid: rows, columns.
pub uninterp spec fn mask_shape(g: MaskGrid) -> (nat, nat);

/// An image held by a three-dimensional `ndarray` array.
#[verifier::external_body]
pub struct ImageGrid {
    cells: ndarray::Array3<u32>,
}

/// A mask held by a two-dimensional `ndarray` array.
#[verifier::external_body]
pub struct MaskGrid {
    cells: ndarray::Array2<bool>,
}

impl ImageGrid {
    /// Number of rows.
    pub open spec fn h(self) -> nat {
        image_shape(self).0
    }

    /// Number of columns.
    pub open spec fn w(self) -> nat {
        image_shape(self).1
    }

    /// Number of channels.
    pub open spec fn c(self) -> nat {
        image_shape(self).2
    }

    /// The sample of channel `c` at row `y`, column `x`.
    pub open spec fn at(self, y: int, x: int, c: int) -> u32 {
        image_cells(self)[(y, x, c)]
    }

    /// The index lies inside the grid.
    pub open spec fn holds(self, y: int, x: int, c: int) -> bool {
        0 <= y < self.h() && 0 <= x < self.w() && 0 <= c < self.c()
    }

    /// Both grids have one shape and the same sample everywhere.
    pub open spec fn same_as(self, other: ImageGrid) -> bool {
        &&& image_shape(self) == image_shape(other)
        &&& forall|y: int, x: int, c: int|
            self.holds(y, x, c) ==> #[trigger] self.at(y, x, c) == other.at(y, x, c)
    }

    /// `ndarray::Array3::zeros`: an array of the given shape with every sample
    /// zero. It panics when the product of the non-empty axes passes `isize`
    /// and when the buffer would, so both are excluded.
    #[verifier::external_body]
    pub(crate) fn zeros(h: usize, w: usize, c: usize) -> (g: ImageGrid)
        requires
            fits(h as nat, w as nat, c as nat, 4),
        ensures
            image_shape(g) == (h as nat, w as nat, c as nat),
            forall|y: int, x: int, k: int|
                g.holds(y, x, k) ==> #[trigger] g.at(y, x, k) == 0,
    {
        ImageGrid { cells: ndarray::Array3::zeros((h, w, c)) }
    }

    /// `ndarray::Array3::dim`: the shape of the array. An owned array of four
    /// byte samples keeps the bound that its constructor imposed.
    #[verifier::external_body]
    pub(crate) fn dim(&self) -> (r: (usize, usize, usize))
        ensures
            image_shape(*self) == (r.0 as nat, r.1 as nat, r.2 as nat),
            fits(r.0 as nat, r.1 as nat, r.2 as nat, 4),
    {
        self.cells.dim()
    }

    /// `ndarray` indexing by `[y, x, c]`, reading. It panics out of bounds.
    #[verifier::external_body]
    pub(crate) fn cell(&self, y: usize, x: usize, c: usize) -> (v: u32)
        requires
            self.holds(y as int, x as int, c as int),
        ensures
            v == self.at(y as int, x as int, c as int),
    {
        self.cells[[y, x, c]]
    }

    /// `ndarray` indexing by `[y, x, c]`, writing. It panics out of bounds.
    #[verifier::external_body]
    pub(crate) fn set_cell(&mut self, y: usize, x: usize, c: usize, v: u32)
        requires
            old(self).holds(y as int, x as int, c as int),
        ensures
            image_shape(*final(self)) == image_shape(*old(self)),
            image_cells(*final(self)) == image_cells(*old(self)).insert(
                (y as int, x as int, c as int),
                v,
            ),
    {
        self.cells[[y, x, c]] = v;
    }

    /// `ndarray::Array3::clone`: an array of the same shape and samples.
    #[verifier::external_body]
    pub(crate) fn copy(&self) -> (g: ImageGrid)
        ensures
            image_shape(g) == image_shape(*self),
            image_cells(g) == image_cells(*self),
    {
        ImageGrid { cells: self.cells.clone() }
    }

    /// A grid whose sample at each index is what `f` returns there.
    pub fn build<F: Fn(usize, usize, usize) -> u32>(h: usize, w: usize, c: usize, f: F) -> (g:
        ImageGrid)
        requires
            fits(h as nat, w as nat, c as nat, 4),
            forall|y: usize, x: usize, k: usize|
                y < h && x < w && k < c ==> #[trigger] call_requires(f, (y, x, k)),
        ensures
            image_shape(g) == (h as nat, w as nat, c as nat),
            forall|y: usize, x: usize, k: usize|
                y < h && x < w && k < c ==> call_ensures(
                    f,
                    (y, x, k),
                    #[trigger] g.at(y as int, x as int, k as int),
                ),
    {
        let mut g = ImageGrid::zeros(h, w, c);
        let mut y: usize = 0;
        while y < h
            invariant
                y <= h,
                image_shape(g) == (h as nat, w as nat, c as nat),
                forall|a: usize, b: usize, k: usize|
                    a < h && b < w && k < c ==> #[trigger] call_requires(f, (a, b, k)),
                forall|a: usize, b: usize, k: usize|
                    a < y && b < w && k < c ==> call_ensures(
                        f,
                        (a, b, k),
                        #[trigger] g.at(a as int, b as int, k as int),
                    ),
            decreases h - y,
        {
            let mut x: usize = 0;
            while x < w
                invariant
                    y < h,
                    x <= w,
                    image_shape(g) == (h as nat, w as nat, c as nat),
                    forall|a: usize, b: usize, k: usize|
                        a < h && b < w && k < c ==> #[trigger] call_requires(f, (a, b, k)),
                    forall|a: usize, b: usize, k: usize|
                        (a < y || a == y && b < x) && b < w && k < c ==> call_ensures(
                            f,
                            (a, b, k),
                            #[trigger] g.at(a as int, b as int, k as int),
                        ),
                decreases w - x,
            {
                let mut ch: usize = 0;
                while ch < c
                    invariant
                        y < h,
                        x < w,
                        ch <= c,
                        image_shape(g) == (h as nat, w as nat, c as nat),
                        forall|a: usize, b: usize, k: usize|
                            a < h && b < w && k < c ==> #[trigger] call_requires(f, (a, b, k)),
                        forall|a: usize, b: usize, k: usize|
                            (a < y || a == y && (b < x || b == x && k < ch)) && b < w && k < c
                                ==> call_ensures(
                                f,
                                (a, b, k),
                                #[trigger] g.at(a as int, b as int, k as int),
                            ),
                    decreases c - ch,
                {
                    let v: u32 = f(y, x, ch);
                    let ghost before = g;
                    g.set_cell(y, x, ch, v);
                    assert forall|a: usize, b: usize, k: usize|
                        (a < y || a == y && (b < x || b == x && k < ch + 1)) && b < w && k
                            < c implies call_ensures(
                        f,
                        (a, b, k),
                        #[trigger] g.at(a as int, b as int, k as int),
                    ) by {
                        if a == y && b == x && k == ch {
                            assert(g.at(a as int, b as int, k as int) == v);
                        } else {
                            assert(g.at(a as int, b as int, k as int) == before.at(
                                a as int,
                                b as int,
                                k as int,
                            ));
                        }
                    }
                    ch = ch + 1;
                }
                x = x + 1;
            }
            y = y + 1;
        }
        g
    }

    /// A grid of zero samples, or `None` where no array of that shape can be
    /// allocated.
    pub fn new(h: usize, w: usize, c: usize) -> (r: Option<ImageGrid>)
        ensures
            r is Some <==> fits(h as nat, w as nat, c as nat, 4),
            r matches Some(g) ==> image_shape(g) == (h as nat, w as nat, c as nat) && forall|
                y: int,
                x: int,
                k: int,
            |
                g.holds(y, x, k) ==> #[trigger] g.at(y, x, k) == 0,
    {
        if shape_fits(h, w, c, 4) {
            Some(ImageGrid::zeros(h, w, c))
        } else {
            None
        }
    }

    /// Rows, columns and channels.
    pub fn shape(&self) -> (r: (usize, usize, usize))
        ensures
            image_shape(*self) == (r.0 as nat, r.1 as nat, r.2 as nat),
            fits(r.0 as nat, r.1 as nat, r.2 as nat, 4),
    {
        self.dim()
    }

    /// The sample at an index, `None` outside the grid.
    pub fn get(&self, y: usize, x: usize, c: usize) -> (r: Option<u32>)
        ensures
            r == (if self.holds(y as int, x as int, c as int) {
                Some(self.at(y as int, x as int, c as int))
            } else {
                None
            }),
    {
        let (h, w, k) = self.dim();
        if y < h && x < w && c < k {
            Some(self.cell(y, x, c))
        } else {
            None
        }
    }

    /// Stores a sample; outside the grid nothing changes and the answer is
    /// `false`.
    pub fn set(&mut self, y: usize, x: usize, c: usize, v: u32) -> (r: bool)
        ensures
            r == old(self).holds(y as int, x as int, c as int),
            image_shape(*final(self)) == image_shape(*old(self)),
            image_cells(*final(self)) == (if r {
                image_cells(*old(self)).insert((y as int, x as int, c as int), v)
            } else {
                image_cells(*old(self))
            }),
    {
        let (h, w, k) = self.dim();
        if y < h && x < w && c < k {
            self.set_cell(y, x, c, v);
            true
        } else {
            false
        }
    }
}

impl MaskGrid {
    /// Number of rows.
    pub open spec fn h(self) -> nat {
        mask_shape(self).0
    }

    /// Number of columns.
    pub open spec fn w(self) -> nat {
        mask_shape(self).1
    }

    /// The flag at row `y`, column `x`.
    pub open spec fn at(self, y: int, x: int) -> bool {
        mask_cells(self)[(y, x)]
    }

    /// The index lies inside the mask.
    pub open spec fn holds(self, y: int, x: int) -> bool {
        0 <= y < self.h() && 0 <= x < self.w()
    }

    /// Both masks have one shape and the same flag everywhere.
    pub open spec fn same_as(self, other: MaskGrid) -> bool {
        &&& mask_shape(self) == mask_shape(other)
        &&& forall|y: int, x: int|
            self.holds(y, x) ==> #[trigger] self.at(y, x) == other.at(y, x)
    }

    /// `ndarray::Array2::from_elem` with `false`: an array of the given shape
    /// with every flag clear. It panics when the product of the non-empty axes
    /// passes `isize`.
    #[verifier::external_body]
    pub(crate) fn cleared(h: usize, w: usize) -> (g: MaskGrid)
        requires
            fits(h as nat, w as nat, 1, 1),
        ensures
            mask_shape(g) == (h as nat, w as nat),
            forall|y: int, x: int| g.holds(y, x) ==> !#[trigger] g.at(y, x),
    {
        MaskGrid { cells: ndarray::Array2::from_elem((h, w), false) }
    }

    /// `ndarray::Array2::dim`: the shape of the array. An owned array of one
    /// byte flags keeps the bound that its constructor imposed.
    #[verifier::external_body]
    pub(crate) fn dim(&self) -> (r: (usize, usize))
        ensures
            mask_shape(*self) == (r.0 as nat, r.1 as nat),
            fits(r.0 as nat, r.1 as nat, 1, 1),
    {
        self.cells.dim()
    }

    /// `ndarray` indexing by `[y, x]`, reading. It panics out of bounds.
    #[verifier::external_body]
    pub(crate) fn cell(&self, y: usize, x: usize) -> (v: bool)
        requires
            self.holds(y as int, x as int),
        ensures
            v == self.at(y as int, x as int),
    {
        self.cells[[y, x]]
    }

    /// `ndarray` indexing by `[y, x]`, writing. It panics out of bounds.
    #[verifier::external_body]
    pub(crate) fn set_cell(&mut self, y: usize, x: usize, v: bool)
        requires
            old(self).holds(y as int, x as int),
        ensures
            mask_shape(*final(self)) == mask_shape(*old(self)),
            mask_cells(*final(self)) == mask_cells(*old(self)).insert((y as int, x as int), v),
    {
        self.cells[[y, x]] = v;
    }

    /// `ndarray::Array2::clone`: an array of the same shape and flags.
    #[verifier::external_body]
    pub(crate) fn copy(&self) -> (g: MaskGrid)
        ensures
            mask_shape(g) == mask_shape(*self),
            mask_cells(g) == mask_cells(*self),
    {
        MaskGrid { cells: self.cells.clone() }
    }

    /// A mask whose flag at each index is what `f` returns there.
    pub fn build<F: Fn(usize, usize) -> bool>(h: usize, w: usize, f: F) -> (g: MaskGrid)
        requires
            fits(h as nat, w as nat, 1, 1),
            forall|y: usize, x: usize| y < h && x < w ==> #[trigger] call_requires(f, (y, x)),
        ensures
            mask_shape(g) == (h as nat, w as nat),
            forall|y: usize, x: usize|
                y < h && x < w ==> call_ensures(f, (y, x), #[trigger] g.at(y as int, x as int)),
    {
        let mut g = MaskGrid::cleared(h, w);
        let mut y: usize = 0;
        while y < h
            invariant
                y <= h,
                mask_shape(g) == (h as nat, w as nat),
                forall|a: usize, b: usize| a < h && b < w ==> #[trigger] call_requires(f, (a, b)),
                forall|a: usize, b: usize|
                    a < y && b < w ==> call_ensures(f, (a, b), #[trigger] g.at(a as int, b as int)),
            decreases h - y,
        {
            let mut x: usize = 0;
            while x < w
                invariant
                    y < h,
                    x <= w,
                    mask_shape(g) == (h as nat, w as nat),
                    forall|a: usize, b: usize|
                        a < h && b < w ==> #[trigger] call_requires(f, (a, b)),
                    forall|a: usize, b: usize|
                        (a < y || a == y && b < x) && b < w ==> call_ensures(
                            f,
                            (a, b),
                            #[trigger] g.at(a as int, b as int),
                        ),
                decreases w - x,
            {
                let v: bool = f(y, x);
                let ghost before = g;
                g.set_cell(y, x, v);
                assert forall|a: usize, b: usize|
                    (a < y || a == y && b < x + 1) && b < w implies call_ensures(
                    f,
                    (a, b),
                    #[trigger] g.at(a as int, b as int),
                ) by {
                    if a == y && b == x {
                        assert(g.at(a as int, b as int) == v);
                    } else {
                        assert(g.at(a as int, b as int) == before.at(a as int, b as int));
                    }
                }
                x = x + 1;
            }
            y = y + 1;
        }
        g
    }

    /// A mask with every flag clear, or `None` where no array of that shape can
    /// be allocated.
    pub fn new(h: usize, w: usize) -> (r: Option<MaskGrid>)
        ensures
            r is Some <==> fits(h as nat, w as nat, 1, 1),
            r matches Some(g) ==> mask_shape(g) == (h as nat, w as nat) && forall|y: int, x: int|
                g.holds(y, x) ==> !#[trigger] g.at(y, x),
    {
        if shape_fits(h, w, 1, 1) {
            Some(MaskGrid::cleared(h, w))
        } else {
            None
        }
    }

    /// Rows and columns.
    pub fn shape(&self) -> (r: (usize, usize))
        ensures
            mask_shape(*self) == (r.0 as nat, r.1 as nat),
            fits(r.0 as nat, r.1 as nat, 1, 1),
    {
        self.dim()
    }

    /// The flag at an index, `None` outside the mask.
    pub fn get(&self, y: usize, x: usize) -> (r: Option<bool>)
        ensures
            r == (if self.holds(y as int, x as int) {
                Some(self.at(y as int, x as int))
            } else {
                None
            }),
    {
        let (h, w) = self.dim();
        if y < h && x < w {
            Some(self.cell(y, x))
        } else {
            None
        }
    }

    /// Stores a flag; outside the mask nothing changes and the answer is
    /// `false`.
    pub fn set(&mut self, y: usize, x: usize, v: bool) -> (r: bool)
        ensures
            r == old(self).holds(y as int, x as int),
            mask_shape(*final(self)) == mask_shape(*old(self)),
            mask_cells(*final(self)) == (if r {
                mask_cells(*old(self)).insert((y as int, x as int), v)
            } else {
                mask_cells(*old(self))
            }),
    {
        let (h, w) = self.dim();
        if y < h && x < w {
            self.set_cell(y, x, v);
            true
        } else {
            false
        }
    }
}

} // verus!
