//! Index-level readings of tensor operations on four axes.

use vstd::prelude::*;

use crate::tensor::{
    column, exchanged, inside, inside4, is_flipped, is_joined, is_narrowed, is_transposed,
    lemma_at2, lemma_at4, nonempty, product, row, TensorVal,
};

verus! {

/// A tensor without an empty axis has an element.
pub proof fn lemma_product_positive(d: Seq<nat>)
    requires
        nonempty(d),
    ensures
        product(d) >= 1,
    decreases d.len(),
{
    if d.len() > 0 {
        let rest = d.drop_last();
        assert forall|i: int| 0 <= i < rest.len() implies 1 <= #[trigger] rest[i] by {
            assert(rest[i] == d[i]);
        }
        lemma_product_positive(rest);
        assert(product(rest) * d.last() >= 1) by (nonlinear_arith)
            requires
                product(rest) >= 1,
                d.last() >= 1,
        ;
    }
}

/// The size of a matrix.
pub proof fn lemma_product2(d: Seq<nat>)
    requires
        d.len() == 2,
    ensures
        product(d) == d[0] * d[1],
{
    let d1 = d.drop_last();
    assert(product(d1.drop_last()) == 1);
    assert(product(d1) == 1 * d[0]);
}

/// The size of a tensor of three axes.
pub proof fn lemma_product3(d: Seq<nat>)
    requires
        d.len() == 3,
    ensures
        product(d) == d[0] * d[1] * d[2],
{
    lemma_product2(d.drop_last());
}

/// The size of a tensor of four axes.
pub proof fn lemma_product4(d: Seq<nat>)
    requires
        d.len() == 4,
    ensures
        product(d) == d[0] * d[1] * d[2] * d[3],
{
    let d3 = d.drop_last();
    let d2 = d3.drop_last();
    let d1 = d2.drop_last();
    assert(product(d1.drop_last()) == 1);
    assert(product(d1) == 1 * d[0]);
    assert(product(d2) == d[0] * d[1]);
    assert(product(d3) == d[0] * d[1] * d[2]);
}

/// The parts of an axis make up the whole.
pub proof fn lemma_axis_parts(d: Seq<nat>, dim: int, p: nat, q: nat)
    requires
        d.len() == 4,
        0 <= dim < 4,
    ensures
        product(d.update(dim, p)) + product(d.update(dim, q)) == product(d.update(dim, p + q)),
{
    lemma_product4(d.update(dim, p));
    lemma_product4(d.update(dim, q));
    lemma_product4(d.update(dim, p + q));
    let (a, b, c, e) = (d[0] as int, d[1] as int, d[2] as int, d[3] as int);
    let (x, y) = (p as int, q as int);
    if dim == 0 {
        assert(x * b * c * e + y * b * c * e == (x + y) * b * c * e) by (nonlinear_arith);
    } else if dim == 1 {
        assert(a * x * c * e + a * y * c * e == a * (x + y) * c * e) by (nonlinear_arith);
    } else if dim == 2 {
        assert(a * b * x * e + a * b * y * e == a * b * (x + y) * e) by (nonlinear_arith);
    } else {
        assert(a * b * c * x + a * b * c * y == a * b * c * (x + y)) by (nonlinear_arith);
    }
}

/// A longer axis makes no smaller tensor.
pub proof fn lemma_axis_grows(d: Seq<nat>, dim: int, n: nat)
    requires
        d.len() == 4,
        0 <= dim < 4,
        d[dim] <= n,
    ensures
        product(d) <= product(d.update(dim, n)),
{
    lemma_axis_parts(d, dim, d[dim], (n - d[dim]) as nat);
    assert(d.update(dim, d[dim]) =~= d);
}

/// The size of a tensor of five axes.
pub proof fn lemma_product5(d: Seq<nat>)
    requires
        d.len() == 5,
    ensures
        product(d) == d[0] * d[1] * d[2] * d[3] * d[4],
{
    lemma_product4(d.drop_last());
}

/// A position within `a` lines of `b` items each.
pub proof fn lemma_line_position(i: int, a: int, j: int, b: int)
    requires
        0 <= i < a,
        0 <= j < b,
    ensures
        0 <= i * b + j < a * b,
{
    assert(0 <= i * b + j < a * b) by (nonlinear_arith)
        requires
            0 <= i < a,
            0 <= j < b,
    ;
}

/// The position of an index of four axes lies among the elements.
pub proof fn lemma_position4(d: Seq<nat>, i: int, j: int, k: int, l: int)
    requires
        d.len() == 4,
        inside4(d, i, j, k, l),
    ensures
        0 <= i * d[1] + j < d[0] * d[1],
        0 <= (i * d[1] + j) * d[2] + k < d[0] * d[1] * d[2],
        0 <= ((i * d[1] + j) * d[2] + k) * d[3] + l < product(d),
{
    lemma_product4(d);
    lemma_line_position(i, d[0] as int, j, d[1] as int);
    lemma_line_position(i * d[1] + j, (d[0] * d[1]) as int, k, d[2] as int);
    lemma_line_position(
        (i * d[1] + j) * d[2] + k,
        (d[0] * d[1] * d[2]) as int,
        l,
        d[3] as int,
    );
}

/// Axes exchanged, index by index.
pub proof fn lemma_transposed4(x: TensorVal, p: int, q: int, r: TensorVal)
    requires
        x.dims.len() == 4,
        is_transposed(x, p, q, r),
        (p, q) == (1int, 3int) || (p, q) == (1int, 2int) || (p, q) == (2int, 3int),
    ensures
        r.dims.len() == 4,
        (p, q) == (1int, 3int) ==> r.dims == seq![x.dims[0], x.dims[3], x.dims[2], x.dims[1]]
            && forall|i: int, j: int, k: int, l: int|
            inside4(r.dims, i, j, k, l) ==> #[trigger] r.at4(i, j, k, l) == x.at4(i, l, k, j),
        (p, q) == (1int, 2int) ==> r.dims == seq![x.dims[0], x.dims[2], x.dims[1], x.dims[3]]
            && forall|i: int, j: int, k: int, l: int|
            inside4(r.dims, i, j, k, l) ==> #[trigger] r.at4(i, j, k, l) == x.at4(i, k, j, l),
        (p, q) == (2int, 3int) ==> r.dims == seq![x.dims[0], x.dims[1], x.dims[3], x.dims[2]]
            && forall|i: int, j: int, k: int, l: int|
            inside4(r.dims, i, j, k, l) ==> #[trigger] r.at4(i, j, k, l) == x.at4(i, j, l, k),
{
    assert forall|i: int, j: int, k: int, l: int| inside4(r.dims, i, j, k, l) implies {
        &&& (p, q) == (1int, 3int) ==> #[trigger] r.at4(i, j, k, l) == x.at4(i, l, k, j)
        &&& (p, q) == (1int, 2int) ==> r.at4(i, j, k, l) == x.at4(i, k, j, l)
        &&& (p, q) == (2int, 3int) ==> r.at4(i, j, k, l) == x.at4(i, j, l, k)
    } by {
        let idx = seq![i, j, k, l];
        lemma_at4(r, i, j, k, l);
        assert(r.at(idx) == x.at(exchanged(idx, p, q)));
        if (p, q) == (1int, 3int) {
            assert(exchanged(idx, p, q) =~= seq![i, l, k, j]);
            lemma_at4(x, i, l, k, j);
        } else if (p, q) == (1int, 2int) {
            assert(exchanged(idx, p, q) =~= seq![i, k, j, l]);
            lemma_at4(x, i, k, j, l);
        } else {
            assert(exchanged(idx, p, q) =~= seq![i, j, l, k]);
            lemma_at4(x, i, j, l, k);
        }
    }
}

/// A matrix transposed: its columns are the rows of the other.
pub proof fn lemma_transposed2(x: TensorVal, r: TensorVal)
    requires
        x.dims.len() == 2,
        is_transposed(x, 0, 1, r),
    ensures
        r.dims == seq![x.dims[1], x.dims[0]],
        forall|j: int| 0 <= j < x.dims[0] ==> #[trigger] column(r, j) == row(x, j),
{
    assert forall|j: int| 0 <= j < x.dims[0] implies #[trigger] column(r, j) == row(x, j) by {
        assert forall|k: int| 0 <= k < x.dims[1] implies r.at2(k, j) == x.at2(j, k) by {
            lemma_at2(r, k, j);
            lemma_at2(x, j, k);
            assert(exchanged(seq![k, j], 0, 1) =~= seq![j, k]);
            assert(r.at(seq![k, j]) == x.at(exchanged(seq![k, j], 0, 1)));
        }
        assert(column(r, j) =~= row(x, j));
    }
}

/// A part of an axis, index by index.
pub proof fn lemma_narrowed4(x: TensorVal, dim: int, start: int, len: nat, r: TensorVal)
    requires
        x.dims.len() == 4,
        0 <= start,
        dim == 2 || dim == 3,
        is_narrowed(x, dim, start, len, r),
    ensures
        r.dims.len() == 4,
        forall|i: int, j: int, k: int, l: int|
            inside4(r.dims, i, j, k, l) ==> #[trigger] r.at4(i, j, k, l) == if dim == 2 {
                x.at4(i, j, k + start, l)
            } else {
                x.at4(i, j, k, l + start)
            },
{
    assert forall|i: int, j: int, k: int, l: int| inside4(r.dims, i, j, k, l) implies #[trigger] r.at4(
        i,
        j,
        k,
        l,
    ) == if dim == 2 {
        x.at4(i, j, k + start, l)
    } else {
        x.at4(i, j, k, l + start)
    } by {
        let idx = seq![i, j, k, l];
        lemma_at4(r, i, j, k, l);
        assert(r.at(idx) == x.at(idx.update(dim, idx[dim] + start)));
        if dim == 2 {
            assert(idx.update(dim, idx[dim] + start) =~= seq![i, j, k + start, l]);
            lemma_at4(x, i, j, k + start, l);
        } else {
            assert(idx.update(dim, idx[dim] + start) =~= seq![i, j, k, l + start]);
            lemma_at4(x, i, j, k, l + start);
        }
    }
}

/// An axis reversed, index by index.
pub proof fn lemma_flipped4(x: TensorVal, dim: int, r: TensorVal)
    requires
        x.dims.len() == 4,
        dim == 2 || dim == 3,
        is_flipped(x, dim, r),
    ensures
        r.dims == x.dims,
        forall|i: int, j: int, k: int, l: int|
            inside4(r.dims, i, j, k, l) ==> #[trigger] r.at4(i, j, k, l) == if dim == 2 {
                x.at4(i, j, x.dims[2] - 1 - k, l)
            } else {
                x.at4(i, j, k, x.dims[3] - 1 - l)
            },
{
    assert forall|i: int, j: int, k: int, l: int| inside4(r.dims, i, j, k, l) implies #[trigger] r.at4(
        i,
        j,
        k,
        l,
    ) == if dim == 2 {
        x.at4(i, j, x.dims[2] - 1 - k, l)
    } else {
        x.at4(i, j, k, x.dims[3] - 1 - l)
    } by {
        let idx = seq![i, j, k, l];
        let back = idx.update(dim, x.dims[dim] - 1 - idx[dim]);
        lemma_at4(r, i, j, k, l);
        assert(r.at(idx) == x.at(back));
        if dim == 2 {
            assert(back =~= seq![i, j, x.dims[2] - 1 - k, l]);
            lemma_at4(x, i, j, x.dims[2] - 1 - k, l);
        } else {
            assert(back =~= seq![i, j, k, x.dims[3] - 1 - l]);
            lemma_at4(x, i, j, k, x.dims[3] - 1 - l);
        }
    }
}

/// One tensor after another, index by index.
pub proof fn lemma_joined4(a: TensorVal, b: TensorVal, dim: int, r: TensorVal)
    requires
        a.dims.len() == 4,
        1 <= dim <= 3,
        is_joined(a, b, dim, r),
    ensures
        b.dims.len() == 4,
        r.dims.len() == 4,
        forall|i: int, j: int, k: int, l: int|
            inside4(r.dims, i, j, k, l) ==> #[trigger] r.at4(i, j, k, l) == if dim == 1 {
                if j < a.dims[1] {
                    a.at4(i, j, k, l)
                } else {
                    b.at4(i, j - a.dims[1], k, l)
                }
            } else if dim == 2 {
                if k < a.dims[2] {
                    a.at4(i, j, k, l)
                } else {
                    b.at4(i, j, k - a.dims[2], l)
                }
            } else {
                if l < a.dims[3] {
                    a.at4(i, j, k, l)
                } else {
                    b.at4(i, j, k, l - a.dims[3])
                }
            },
{
    assert forall|i: int, j: int, k: int, l: int| inside4(r.dims, i, j, k, l) implies #[trigger] r.at4(
        i,
        j,
        k,
        l,
    ) == if dim == 1 {
        if j < a.dims[1] {
            a.at4(i, j, k, l)
        } else {
            b.at4(i, j - a.dims[1], k, l)
        }
    } else if dim == 2 {
        if k < a.dims[2] {
            a.at4(i, j, k, l)
        } else {
            b.at4(i, j, k - a.dims[2], l)
        }
    } else {
        if l < a.dims[3] {
            a.at4(i, j, k, l)
        } else {
            b.at4(i, j, k, l - a.dims[3])
        }
    } by {
        let idx = seq![i, j, k, l];
        let late = idx.update(dim, idx[dim] - a.dims[dim]);
        lemma_at4(r, i, j, k, l);
        lemma_at4(a, i, j, k, l);
        assert(inside(r.dims, idx));
        assert(r.at(idx) == if idx[dim] < a.dims[dim] {
            a.at(idx)
        } else {
            b.at(late)
        });
        if dim == 1 {
            assert(late =~= seq![i, j - a.dims[1], k, l]);
            lemma_at4(b, i, j - a.dims[1], k, l);
        } else if dim == 2 {
            assert(late =~= seq![i, j, k - a.dims[2], l]);
            lemma_at4(b, i, j, k - a.dims[2], l);
        } else {
            assert(late =~= seq![i, j, k, l - a.dims[3]]);
            lemma_at4(b, i, j, k, l - a.dims[3]);
        }
    }
}

} // verus!
