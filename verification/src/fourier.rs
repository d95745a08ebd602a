//! Discrete Fourier transforms of real images, by matrix products with real
//! cosine and sine matrices.
//!
//! One pair of matrices serves a transform length `n`, scaled to be orthonormal:
//! `c[k, j] = cos(2 pi k j / n) / sqrt(n)` and `s[k, j] = sin(2 pi k j / n) / sqrt(n)`.
//! With them
//!
//! - the forward transform of a real `x` is `Re = x c^T`, `Im = -x s^T`;
//! - the forward transform of `(R, I)` is `Re = R c^T + I s^T`, `Im = I c^T - R s^T`;
//! - the inverse transform of `(R, I)` is `Re = R c^T - I s^T`, `Im = I c^T + R s^T`.

use candle_core::{Device, Tensor};
use vstd::prelude::*;

use crate::axes::{
    lemma_axis_parts, lemma_flipped4, lemma_joined4, lemma_line_position, lemma_narrowed4, lemma_position4, lemma_product2, lemma_product3, lemma_product4, lemma_product5,
    lemma_product_positive, lemma_transposed2, lemma_transposed4,
};
use crate::error::{lift, WorkerError};
use crate::tensor::{
    column, contiguous, count_fits, dims, dot_outcome, filled, flip, from_bits, holds_count, inside,
    inside4, is_cpu, is_difference, is_neg, is_rank, is_stacked, is_sum, is_transposed, is_zeros, join,
    leading_count, lemma_at4, lemma_at5, lemma_widened_words, lengths, matmul, minus, narrow, neg, negated, nonempty,
    numbered, plus, product, reshape, row, shape2, shape4, stack, sum_held, tensor_val, transpose,
    widened, zeros_like, TensorVal,
};

verus! {

/// `c` and `s` are the bit patterns that `wave` may give for bin, place and length.
pub open spec fn wave_gives<T: Fn(usize, usize, usize) -> (u32, u32)>(
    wave: T,
    at: (usize, usize, usize),
    c: u64,
    s: u64,
) -> bool {
    exists|cv: u32, sv: u32|
        #![trigger call_ensures(wave, at, (cv, sv))]
        call_ensures(wave, at, (cv, sv)) && c == cv as u64 && s == sv as u64
}

/// The cosine and sine matrices of a transform, one row per output bin.
pub struct Basis {
    pub c: Tensor,
    pub s: Tensor,
}

impl Basis {
    /// Both matrices have `rows` rows and `n` columns.
    pub open spec fn shaped(self, rows: nat, n: nat) -> bool {
        &&& tensor_val(self.c).good()
        &&& tensor_val(self.s).good()
        &&& tensor_val(self.c).dims == seq![rows, n]
        &&& tensor_val(self.s).dims == seq![rows, n]
    }

    /// Both matrices have one shape.
    pub open spec fn ok(self) -> bool {
        &&& tensor_val(self.c).dims.len() == 2
        &&& self.shaped(tensor_val(self.c).dims[0], tensor_val(self.c).dims[1])
    }

    /// Both matrices lie on the CPU.
    pub open spec fn cpu(self) -> bool {
        tensor_val(self.c).cpu && tensor_val(self.s).cpu
    }

    /// The number of bins.
    pub open spec fn bins(self) -> nat {
        tensor_val(self.c).dims[0]
    }

    /// The transform length.
    pub open spec fn len(self) -> nat {
        tensor_val(self.c).dims[1]
    }

    /// The entries are what `wave(k, j, n)` gives: the bit patterns of the scaled
    /// cosine and sine of `2 pi k j / n`.
    pub open spec fn made_by<T: Fn(usize, usize, usize) -> (u32, u32)>(
        self,
        wave: T,
        rows: usize,
        n: usize,
    ) -> bool {
        &&& self.shaped(rows as nat, n as nat)
        &&& forall|k: usize, j: usize|
            k < rows && j < n ==> wave_gives(
                wave,
                (k, j, n),
                #[trigger] tensor_val(self.c).at2(k as int, j as int),
                tensor_val(self.s).at2(k as int, j as int),
            )
    }

    /// The matrices of a transform of length `n` with every bin.
    pub fn full<T: Fn(usize, usize, usize) -> (u32, u32)>(n: usize, wave: &T, dev: &Device) -> (r:
        Result<Basis, WorkerError>)
        requires
            n >= 1,
            forall|k: usize, j: usize, len: usize| #[trigger] call_requires(*wave, (k, j, len)),
        ensures
            match r {
                Ok(b) => b.made_by(*wave, n, n) && b.cpu() == is_cpu(*dev),
                Err(e) => if numbered(n * n) {
                    e is Candle && !is_cpu(*dev)
                } else {
                    e is TooLarge
                },
            },
    {
        Self::build(n, n, wave, dev)
    }

    /// The matrices of a transform of length `n` with the `n / 2 + 1` bins that a
    /// real signal needs.
    pub fn onesided<T: Fn(usize, usize, usize) -> (u32, u32)>(
        n: usize,
        wave: &T,
        dev: &Device,
    ) -> (r: Result<Basis, WorkerError>)
        requires
            n >= 1,
            forall|k: usize, j: usize, len: usize| #[trigger] call_requires(*wave, (k, j, len)),
        ensures
            match r {
                Ok(b) => b.made_by(*wave, (n / 2 + 1) as usize, n) && b.cpu() == is_cpu(*dev),
                Err(e) => if numbered((n / 2 + 1) * n) {
                    e is Candle && !is_cpu(*dev)
                } else {
                    e is TooLarge
                },
            },
    {
        Self::build(n / 2 + 1, n, wave, dev)
    }

    /// The first `rows` rows of the matrices of a transform of length `n`.
    pub fn build<T: Fn(usize, usize, usize) -> (u32, u32)>(
        rows: usize,
        n: usize,
        wave: &T,
        dev: &Device,
    ) -> (r: Result<Basis, WorkerError>)
        requires
            rows >= 1,
            n >= 1,
            forall|k: usize, j: usize, len: usize| #[trigger] call_requires(*wave, (k, j, len)),
        ensures
            match r {
                Ok(b) => b.made_by(*wave, rows, n) && b.cpu() == is_cpu(*dev),
                Err(e) => if numbered(rows * n) {
                    e is Candle && !is_cpu(*dev)
                } else {
                    e is TooLarge
                },
            },
    {
        match rows.checked_mul(n) {
            Some(count) => if count > isize::MAX as usize / 4 {
                return Err(WorkerError::TooLarge);
            },
            None => {
                return Err(WorkerError::TooLarge);
            },
        }
        let mut c: Vec<u32> = Vec::new();
        let mut s: Vec<u32> = Vec::new();
        let mut k: usize = 0;
        while k < rows
            invariant
                k <= rows,
                n >= 1,
                c@.len() == k * n,
                s@.len() == k * n,
                forall|a: usize, b: usize, len: usize| #[trigger]
                    call_requires(*wave, (a, b, len)),
                forall|p: int|
                    0 <= p < c@.len() ==> call_ensures(
                        *wave,
                        ((p / n as int) as usize, (p % n as int) as usize, n),
                        (#[trigger] c@[p], s@[p]),
                    ),
            decreases rows - k,
        {
            let mut j: usize = 0;
            while j < n
                invariant
                    j <= n,
                    n >= 1,
                    c@.len() == k * n + j,
                    s@.len() == k * n + j,
                    forall|a: usize, b: usize, len: usize| #[trigger]
                        call_requires(*wave, (a, b, len)),
                    forall|p: int|
                        0 <= p < c@.len() ==> call_ensures(
                            *wave,
                            ((p / n as int) as usize, (p % n as int) as usize, n),
                            (#[trigger] c@[p], s@[p]),
                        ),
                decreases n - j,
            {
                let (cv, sv) = wave(k, j, n);
                proof {
                    vstd::arithmetic::div_mod::lemma_fundamental_div_mod_converse(
                        k * n + j,
                        n as int,
                        k as int,
                        j as int,
                    );
                }
                c.push(cv);
                s.push(sv);
                j = j + 1;
            }
            assert(k * n + n == (k + 1) * n) by (nonlinear_arith);
            k = k + 1;
        }
        let to = vec![rows, n];
        proof {
            assert(lengths(to@) =~= seq![rows as nat, n as nat]);
            assert(filled(lengths(to@)) =~= lengths(to@));
            lemma_product2(lengths(to@));
        }
        let ct = lift(from_bits(&c, &to, dev))?;
        let st = lift(from_bits(&s, &to, dev))?;
        let b = Basis { c: ct, s: st };
        proof {
            lemma_widened_words(c@);
            lemma_widened_words(s@);
        }
        assert forall|k: usize, j: usize| k < rows && j < n implies wave_gives(
            *wave,
            (k, j, n),
            #[trigger] tensor_val(b.c).at2(k as int, j as int),
            tensor_val(b.s).at2(k as int, j as int),
        ) by {
            let p = k * n + j;
            vstd::arithmetic::div_mod::lemma_fundamental_div_mod_converse(
                p,
                n as int,
                k as int,
                j as int,
            );
            lemma_line_position(k as int, rows as int, j as int, n as int);
            assert(widened(c@)[p] == c@[p] && widened(s@)[p] == s@[p]);
            assert(call_ensures(*wave, (k, j, n), (c@[p], s@[p])));
        }
        Ok(b)
    }
}

/// Row `(i, j, k)` of a tensor of four axes.
pub open spec fn line_w(x: TensorVal, i: int, j: int, k: int) -> Seq<u64> {
    Seq::new(x.dims[3], |l: int| x.at4(i, j, k, l))
}

/// Column `(i, j, .., l)` of a tensor of four axes.
pub open spec fn line_h(x: TensorVal, i: int, j: int, l: int) -> Seq<u64> {
    Seq::new(x.dims[2], |k: int| x.at4(i, j, k, l))
}

/// `y` is `x` with its last axis contracted against the rows of `m`:
/// `y[.., l] = sum over t of x[.., t] * m[l, t]`.
pub open spec fn transforms_w(x: TensorVal, m: TensorVal, y: TensorVal) -> bool {
    &&& m.dims[1] == x.dims[3]
    &&& y.dims == seq![x.dims[0], x.dims[1], x.dims[2], m.dims[0]]
    &&& y.good()
    &&& y.cpu == x.cpu
    &&& forall|i: int, j: int, k: int, l: int|
        inside4(y.dims, i, j, k, l) ==> dot_outcome(
            line_w(x, i, j, k),
            row(m, l),
            #[trigger] y.at4(i, j, k, l),
        )
}

/// `y` is `x` with its third axis contracted against the columns of `mt`.
pub open spec fn contracts_h(x: TensorVal, mt: TensorVal, y: TensorVal) -> bool {
    &&& mt.dims[0] == x.dims[2]
    &&& y.dims == seq![x.dims[0], x.dims[1], mt.dims[1], x.dims[3]]
    &&& y.good()
    &&& y.cpu == x.cpu
    &&& forall|i: int, j: int, k: int, l: int|
        inside4(y.dims, i, j, k, l) ==> dot_outcome(
            line_h(x, i, j, l),
            column(mt, k),
            #[trigger] y.at4(i, j, k, l),
        )
}

/// `y` is `x` with its third axis contracted against the rows of `m`:
/// `y[.., k, l] = sum over t of x[.., t, l] * m[k, t]`.
pub open spec fn transforms_h(x: TensorVal, m: TensorVal, y: TensorVal) -> bool {
    &&& m.dims[1] == x.dims[2]
    &&& y.dims == seq![x.dims[0], x.dims[1], m.dims[0], x.dims[3]]
    &&& y.good()
    &&& y.cpu == x.cpu
    &&& forall|i: int, j: int, k: int, l: int|
        inside4(y.dims, i, j, k, l) ==> dot_outcome(
            line_h(x, i, j, l),
            row(m, k),
            #[trigger] y.at4(i, j, k, l),
        )
}

/// Line `r` of a tensor along its last axis, the lines counted in row-major order.
pub open spec fn flat_line(x: TensorVal, r: int) -> Seq<u64> {
    Seq::new(x.dims.last(), |k: int| x.elems[r * x.dims.last() + k])
}

/// `y` is `x` with its last axis contracted against the rows of `m`, whatever the
/// number of axes: `y[.., l] = sum over t of x[.., t] * m[l, t]`.
pub open spec fn transforms_last(x: TensorVal, m: TensorVal, y: TensorVal) -> bool {
    &&& m.dims[1] == x.dims.last()
    &&& y.dims == x.dims.update(x.dims.len() - 1, m.dims[0])
    &&& y.good()
    &&& y.cpu == x.cpu
    &&& forall|r: int, l: int|
        0 <= r < product(x.dims.drop_last()) && 0 <= l < m.dims[0] ==> dot_outcome(
            flat_line(x, r),
            row(m, l),
            #[trigger] y.elems[r * m.dims[0] + l],
        )
}

/// A contraction of the last of four axes, index by index.
pub proof fn lemma_transforms_w(x: TensorVal, m: TensorVal, y: TensorVal)
    requires
        x.dims.len() == 4,
        transforms_last(x, m, y),
    ensures
        transforms_w(x, m, y),
{
    assert(y.dims =~= seq![x.dims[0], x.dims[1], x.dims[2], m.dims[0]]);
    lemma_product3(x.dims.drop_last());
    assert forall|i: int, j: int, k: int, l: int| inside4(y.dims, i, j, k, l) implies dot_outcome(
        line_w(x, i, j, k),
        row(m, l),
        #[trigger] y.at4(i, j, k, l),
    ) by {
        lemma_position4(y.dims, i, j, k, l);
        let r = (i * x.dims[1] + j) * x.dims[2] + k;
        assert(flat_line(x, r) =~= line_w(x, i, j, k));
        assert(dot_outcome(flat_line(x, r), row(m, l), y.elems[r * m.dims[0] + l]));
    }
}

/// How an operation on four axes fails whose result has `count` elements: on
/// another number of axes, on more elements than memory can hold, and otherwise
/// only where its inputs do not agree.
pub open spec fn fails_on(dims: Seq<nat>, count: nat, agrees: bool, e: WorkerError) -> bool {
    if dims.len() != 4 {
        is_rank(e, 4, dims)
    } else if !numbered(count as int) {
        e == WorkerError::TooLarge
    } else {
        e is Candle && !agrees
    }
}

/// The number of lines of `n` elements, `a * b * c`, where memory can hold their
/// elements.
fn line_count(a: usize, b: usize, c: usize, n: usize) -> (r: Result<usize, WorkerError>)
    requires
        c >= 1,
        n >= 1,
    ensures
        match r {
            Ok(rows) => rows == a * b * c && numbered(rows * n),
            Err(e) => e == WorkerError::TooLarge && !numbered(a * b * c * n),
        },
{
    proof {
        let (ai, bi, ci, ni) = (a as int, b as int, c as int, n as int);
        assert(ai * bi <= ai * bi * ci) by (nonlinear_arith)
            requires
                ai >= 0,
                bi >= 0,
                ci >= 1,
        ;
        assert(ai * bi * ci <= ai * bi * ci * ni) by (nonlinear_arith)
            requires
                ai * bi * ci >= 0,
                ni >= 1,
        ;
    }
    let ab: usize = match a.checked_mul(b) {
        Some(v) => v,
        None => {
            return Err(WorkerError::TooLarge);
        },
    };
    let rows: usize = match ab.checked_mul(c) {
        Some(v) => v,
        None => {
            return Err(WorkerError::TooLarge);
        },
    };
    match rows.checked_mul(n) {
        Some(v) => if v <= isize::MAX as usize / 4 {
            Ok(rows)
        } else {
            Err(WorkerError::TooLarge)
        },
        None => Err(WorkerError::TooLarge),
    }
}

/// Contracts the last axis of `x` against the rows of `m`.
pub fn mm_last(x: &Tensor, m: &Tensor) -> (r: Result<Tensor, WorkerError>)
    requires
        tensor_val(*x).good(),
        tensor_val(*x).dims.len() >= 1,
        tensor_val(*m).good(),
        tensor_val(*m).dims.len() == 2,
    ensures
        match r {
            Ok(y) => {
                &&& transforms_last(tensor_val(*x), tensor_val(*m), tensor_val(y))
                &&& tensor_val(*x).dims.len() == 4 ==> transforms_w(
                    tensor_val(*x),
                    tensor_val(*m),
                    tensor_val(y),
                )
            },
            Err(e) => if !numbered(
                (product(tensor_val(*x).dims.drop_last()) * tensor_val(*m).dims[0]) as int,
            ) {
                e is TooLarge
            } else {
                e is Candle && !(tensor_val(*x).cpu && tensor_val(*m).cpu && tensor_val(
                    *x,
                ).dims.last() == tensor_val(*m).dims[1])
            },
        },
{
    let (n, _) = shape2(m)?;
    let ghost xv = tensor_val(*x);
    let ghost mv = tensor_val(*m);
    let d = dims(x);
    let last: usize = d.len() - 1;
    let k: usize = d[last];
    let rows: usize = leading_count(&d, last);
    proof {
        assert(lengths(d@).take(last as int) =~= xv.dims.drop_last());
        lemma_product_positive(xv.dims);
        assert(rows >= 1) by (nonlinear_arith)
            requires
                rows * k == product(xv.dims),
                product(xv.dims) >= 1,
                rows >= 0,
        ;
    }
    match rows.checked_mul(n) {
        Some(v) => if v > isize::MAX as usize / 4 {
            return Err(WorkerError::TooLarge);
        },
        None => {
            return Err(WorkerError::TooLarge);
        },
    }
    let mt = lift(transpose(m, 0, 1))?;
    let to = vec![rows, k];
    proof {
        assert(lengths(to@) =~= seq![rows as nat, k as nat]);
        lemma_product2(lengths(to@));
        lemma_transposed2(mv, tensor_val(mt));
    }
    let flat_x = lift(reshape(x, to))?;
    let prod = lift(matmul(&flat_x, &mt))?;
    let mut back = d;
    back.set(last, n);
    proof {
        let bd = lengths(back@);
        assert(bd =~= xv.dims.update(last as int, n as nat));
        assert(bd.drop_last() =~= xv.dims.drop_last());
        lemma_product2(tensor_val(prod).dims);
    }
    let y = lift(reshape(&prod, back))?;
    proof {
        let yv = tensor_val(y);
        let fv = tensor_val(flat_x);
        let pv = tensor_val(prod);
        assert forall|r: int, l: int|
            0 <= r < product(xv.dims.drop_last()) && 0 <= l < mv.dims[0] implies dot_outcome(
            flat_line(xv, r),
            row(mv, l),
            #[trigger] yv.elems[r * mv.dims[0] + l],
        ) by {
            assert(pv.at2(r, l) == yv.elems[r * mv.dims[0] + l]);
            assert(row(fv, r) =~= flat_line(xv, r));
            assert(column(tensor_val(mt), l) == row(mv, l));
        }
        if xv.dims.len() == 4 {
            lemma_transforms_w(xv, mv, yv);
        }
    }
    Ok(y)
}

/// Contracts the third axis of `x` against the columns of `mt`, a matrix with one
/// row per row of `x`. An exchange of axes only swaps a pair, so the way goes
/// `B,C,H,W` to `B,W,C,H`, flat to `(B*W*C, H)`, through the product, and from
/// `B,W,C,N` over `B,N,C,W` back to `B,C,N,W`.
pub fn contract_h(x: &Tensor, mt: &Tensor) -> (r: Result<Tensor, WorkerError>)
    requires
        tensor_val(*x).good(),
        tensor_val(*mt).good(),
        tensor_val(*mt).dims.len() == 2,
    ensures
        match r {
            Ok(y) => tensor_val(*x).dims.len() == 4 && contracts_h(
                tensor_val(*x),
                tensor_val(*mt),
                tensor_val(y),
            ),
            Err(e) => fails_on(
                tensor_val(*x).dims,
                tensor_val(*x).dims[0] * tensor_val(*x).dims[3] * tensor_val(*x).dims[1]
                    * tensor_val(*mt).dims[1],
                tensor_val(*x).cpu && tensor_val(*mt).cpu && tensor_val(*x).dims[2] == tensor_val(
                    *mt,
                ).dims[0],
                e,
            ),
        },
{
    let (b, c, h, w) = shape4(x)?;
    let (_, n) = shape2(mt)?;
    let rows: usize = line_count(b, w, c, n)?;
    let ghost xv = tensor_val(*x);
    let t0 = lift(transpose(x, 1, 3))?;
    proof {
        lemma_transposed4(xv, 1, 3, tensor_val(t0));
    }
    let t1 = lift(transpose(&t0, 2, 3))?;
    let ghost v1 = tensor_val(t1);
    let to = vec![rows, h];
    proof {
        lemma_transposed4(tensor_val(t0), 2, 3, v1);
        lemma_product4(v1.dims);
        lemma_product_positive(v1.dims);
        assert(lengths(to@) =~= seq![rows as nat, h as nat]);
        lemma_product2(lengths(to@));
        assert(rows >= 1) by (nonlinear_arith)
            requires
                rows * h == v1.elems.len(),
                v1.elems.len() >= 1,
        ;
    }
    let flat_x = lift(reshape(&t1, to))?;
    let prod = lift(matmul(&flat_x, mt))?;
    let back = vec![b, w, c, n];
    proof {
        assert(lengths(back@) =~= seq![b as nat, w as nat, c as nat, n as nat]);
        lemma_product4(lengths(back@));
    }
    proof {
        lemma_product2(tensor_val(prod).dims);
    }
    let t2 = lift(reshape(&prod, back))?;
    let t3 = lift(transpose(&t2, 1, 3))?;
    proof {
        lemma_transposed4(tensor_val(t2), 1, 3, tensor_val(t3));
    }
    let y = lift(transpose(&t3, 1, 2))?;
    proof {
        let v2 = tensor_val(t2);
        let v3 = tensor_val(t3);
        let yv = tensor_val(y);
        let fv = tensor_val(flat_x);
        let pv = tensor_val(prod);
        lemma_transposed4(v3, 1, 2, yv);
        assert forall|i: int, j: int, k: int, l: int|
            inside4(yv.dims, i, j, k, l) implies dot_outcome(
            line_h(xv, i, j, l),
            column(tensor_val(*mt), k),
            #[trigger] yv.at4(i, j, k, l),
        ) by {
            assert(yv.at4(i, j, k, l) == v3.at4(i, k, j, l));
            assert(v3.at4(i, k, j, l) == v2.at4(i, l, j, k));
            lemma_position4(v2.dims, i, l, j, k);
            let t = (i * w + l) * c + j;
            assert(pv.at2(t, k) == v2.at4(i, l, j, k));
            assert forall|p: int| 0 <= p < h implies fv.at2(t, p) == xv.at4(i, j, p, l) by {
                assert(fv.at2(t, p) == v1.at4(i, l, j, p));
                assert(v1.at4(i, l, j, p) == tensor_val(t0).at4(i, l, p, j));
            }
            assert(row(fv, t) =~= line_h(xv, i, j, l));
        }
    }
    Ok(y)
}

/// A contraction against the columns of a transposed matrix is one against the
/// rows of the matrix.
proof fn lemma_contracts_rows(x: TensorVal, m: TensorVal, mt: TensorVal, y: TensorVal)
    requires
        m.dims.len() == 2,
        is_transposed(m, 0, 1, mt),
        contracts_h(x, mt, y),
    ensures
        transforms_h(x, m, y),
{
    lemma_transposed2(m, mt);
}

/// Memory can number a tensor with its third axis at length `n`.
pub open spec fn columns_fit(d: Seq<nat>, n: nat) -> bool {
    numbered((d[0] * d[3] * d[1] * n) as int)
}

/// Memory can number a tensor with its last two axes at lengths `h` and `w`.
pub open spec fn rows_fit(d: Seq<nat>, h: nat, w: nat) -> bool {
    numbered((d[0] * d[1] * h * w) as int)
}

/// The values that a forward transform passes through.
pub struct ForwardSteps {
    pub p: TensorVal,
    pub q: TensorVal,
    pub pcw: TensorVal,
    pub psw: TensorVal,
    pub qcw: TensorVal,
    pub qsw: TensorVal,
    pub sum: TensorVal,
}

/// The forward transform of `x` over the given steps: along the third axis the
/// spectrum is `(P, -Q)`, and along the last one
/// `Re = P c^T - Q s^T`, `Im = -(Q c^T + P s^T)`.
pub open spec fn forward_steps(
    x: TensorVal,
    bh: Basis,
    bw: Basis,
    t: ForwardSteps,
    re: TensorVal,
    im: TensorVal,
) -> bool {
    &&& transforms_h(x, tensor_val(bh.c), t.p)
    &&& transforms_h(x, tensor_val(bh.s), t.q)
    &&& transforms_w(t.p, tensor_val(bw.c), t.pcw)
    &&& transforms_w(t.p, tensor_val(bw.s), t.psw)
    &&& transforms_w(t.q, tensor_val(bw.c), t.qcw)
    &&& transforms_w(t.q, tensor_val(bw.s), t.qsw)
    &&& is_difference(t.pcw, t.qsw, re)
    &&& is_sum(t.qcw, t.psw, t.sum)
    &&& is_neg(t.sum, im)
}

/// `(re, im)` is a forward transform of the real `x` along its last two axes.
pub open spec fn is_rfft2(
    x: TensorVal,
    bh: Basis,
    bw: Basis,
    re: TensorVal,
    im: TensorVal,
) -> bool {
    exists|t: ForwardSteps| #[trigger] forward_steps(x, bh, bw, t, re, im)
}

/// The forward transform of a real `x` along its last two axes: real and
/// imaginary parts, with the bins of `bh` and `bw`.
pub fn rfft2(x: &Tensor, bh: &Basis, bw: &Basis) -> (r: Result<(Tensor, Tensor), WorkerError>)
    requires
        tensor_val(*x).good(),
        bh.ok(),
        bw.ok(),
    ensures
        match r {
            Ok((re, im)) => {
                let d = tensor_val(*x).dims;
                &&& d.len() == 4
                &&& bh.len() == d[2]
                &&& bw.len() == d[3]
                &&& tensor_val(re).dims == seq![d[0], d[1], bh.bins(), bw.bins()]
                &&& tensor_val(im).dims == tensor_val(re).dims
                &&& tensor_val(re).good()
                &&& tensor_val(im).good()
                &&& tensor_val(re).cpu == tensor_val(*x).cpu
                &&& tensor_val(im).cpu == tensor_val(*x).cpu
                &&& is_rfft2(tensor_val(*x), *bh, *bw, tensor_val(re), tensor_val(im))
            },
            Err(e) => {
                let d = tensor_val(*x).dims;
                if d.len() != 4 {
                    is_rank(e, 4, d)
                } else if !columns_fit(d, bh.bins()) || !rows_fit(d, bh.bins(), bw.bins()) {
                    e is TooLarge
                } else {
                    e is Candle && !(tensor_val(*x).cpu && bh.cpu() && bw.cpu() && bh.len() == d[2]
                        && bw.len() == d[3])
                }
            },
        },
{
    let (b, c, _, w) = shape4(x)?;
    let (rows, _) = shape2(&bh.c)?;
    let (cols, _) = shape2(&bw.c)?;
    let ghost xv = tensor_val(*x);
    if !count_fits(b, w, c, rows) || !count_fits(b, c, rows, cols) {
        return Err(WorkerError::TooLarge);
    }
    let ct = lift(transpose(&bh.c, 0, 1))?;
    let st = lift(transpose(&bh.s, 0, 1))?;
    proof {
        lemma_transposed2(tensor_val(bh.c), tensor_val(ct));
        lemma_transposed2(tensor_val(bh.s), tensor_val(st));
    }
    let p = contract_h(x, &ct)?;
    let q = contract_h(x, &st)?;
    proof {
        lemma_contracts_rows(xv, tensor_val(bh.c), tensor_val(ct), tensor_val(p));
        lemma_contracts_rows(xv, tensor_val(bh.s), tensor_val(st), tensor_val(q));
    }
    proof {
        lemma_product3(tensor_val(p).dims.drop_last());
        lemma_product3(tensor_val(q).dims.drop_last());
    }
    let pcw = mm_last(&p, &bw.c)?;
    let psw = mm_last(&p, &bw.s)?;
    let qcw = mm_last(&q, &bw.c)?;
    let qsw = mm_last(&q, &bw.s)?;
    let re = lift(minus(&pcw, &qsw))?;
    let sum = lift(plus(&qcw, &psw))?;
    let im = lift(neg(&sum))?;
    proof {
        let t = ForwardSteps {
            p: tensor_val(p),
            q: tensor_val(q),
            pcw: tensor_val(pcw),
            psw: tensor_val(psw),
            qcw: tensor_val(qcw),
            qsw: tensor_val(qsw),
            sum: tensor_val(sum),
        };
        assert(forward_steps(xv, *bh, *bw, t, tensor_val(re), tensor_val(im)));
    }
    Ok((re, im))
}

/// `packed` holds the channels of `re` and `im` in turn:
/// `re0, im0, re1, im1, ..`.
pub open spec fn is_packed(re: TensorVal, im: TensorVal, packed: TensorVal) -> bool {
    &&& im.dims == re.dims
    &&& packed.dims == seq![re.dims[0], re.dims[1] * 2, re.dims[2], re.dims[3]]
    &&& packed.wf()
    &&& packed.single == re.single
    &&& packed.cpu == re.cpu
    &&& forall|i: int, j: int, k: int, l: int|
        #![trigger re.at4(i, j, k, l)]
        #![trigger im.at4(i, j, k, l)]
        inside4(re.dims, i, j, k, l) ==> packed.at4(i, 2 * j, k, l) == re.at4(i, j, k, l)
            && packed.at4(i, 2 * j + 1, k, l) == im.at4(i, j, k, l)
}

/// Packs real and imaginary parts into one tensor with twice the channels, the
/// two parts of a channel side by side.
pub fn pack(re: &Tensor, im: &Tensor) -> (r: Result<Tensor, WorkerError>)
    requires
        tensor_val(*re).wf(),
        tensor_val(*im).wf(),
    ensures
        match r {
            Ok(t) => tensor_val(*re).dims.len() == 4 && is_packed(
                tensor_val(*re),
                tensor_val(*im),
                tensor_val(t),
            ),
            Err(e) => if tensor_val(*re).dims.len() != 4 {
                is_rank(e, 4, tensor_val(*re).dims)
            } else if !holds_count(
                tensor_val(*re).single,
                (product(tensor_val(*re).dims) + product(tensor_val(*im).dims)) as int,
            ) {
                e is TooLarge
            } else {
                e is Candle && !(tensor_val(*re).cpu && tensor_val(*im).cpu && tensor_val(*re).single
                    && tensor_val(*im).single && tensor_val(*re).dims == tensor_val(*im).dims)
            },
        },
{
    let (b, c, h, m) = shape4(re)?;
    let ghost rv = tensor_val(*re);
    let ghost iv = tensor_val(*im);
    if !sum_held(re, im) {
        return Err(WorkerError::TooLarge);
    }
    let both = lift(stack(re, im, 2))?;
    let ghost bv = tensor_val(both);
    proof {
        assert(bv.dims =~= seq![b as nat, c as nat, 2nat, h as nat, m as nat]);
        lemma_product5(bv.dims);
        lemma_pack_count(b as int, c as int, h as int, m as int);
    }
    let to = vec![b, c * 2, h, m];
    proof {
        assert(lengths(to@) =~= seq![b as nat, (c * 2) as nat, h as nat, m as nat]);
        lemma_product4(lengths(to@));
    }
    let packed = lift(reshape(&both, to))?;
    proof {
        let pv = tensor_val(packed);
        assert forall|i: int, j: int, k: int, l: int|
            #![trigger rv.at4(i, j, k, l)]
            #![trigger iv.at4(i, j, k, l)]
            inside4(rv.dims, i, j, k, l) implies pv.at4(i, 2 * j, k, l) == rv.at4(i, j, k, l)
            && pv.at4(i, 2 * j + 1, k, l) == iv.at4(i, j, k, l) by {
            lemma_stacked(rv, iv, bv, i, j, k, l);
            assert(i * (c * 2) + 2 * j == (i * c + j) * 2 + 0) by (nonlinear_arith);
            assert(i * (c * 2) + (2 * j + 1) == (i * c + j) * 2 + 1) by (nonlinear_arith);
        }
    }
    Ok(packed)
}

/// Doubling the channels doubles the elements.
proof fn lemma_pack_count(b: int, c: int, h: int, m: int)
    requires
        b >= 1,
        c >= 1,
        h >= 1,
        m >= 1,
    ensures
        b * c * 2 * h * m == b * (c * 2) * h * m,
        c * 2 <= b * c * 2 * h * m,
{
    assert(b * c * 2 == b * (c * 2)) by (nonlinear_arith);
    assert(c * 2 <= b * (c * 2)) by (nonlinear_arith)
        requires
            b >= 1,
            c >= 1,
    ;
    assert(b * (c * 2) <= b * (c * 2) * h) by (nonlinear_arith)
        requires
            b * (c * 2) >= 0,
            h >= 1,
    ;
    assert(b * (c * 2) * h <= b * (c * 2) * h * m) by (nonlinear_arith)
        requires
            b * (c * 2) * h >= 0,
            m >= 1,
    ;
}

/// Two tensors of four axes stacked along the third, index by index.
proof fn lemma_stacked(
    a: TensorVal,
    b: TensorVal,
    r: TensorVal,
    i: int,
    j: int,
    k: int,
    l: int,
)
    requires
        a.dims.len() == 4,
        is_stacked(a, b, 2, r),
        inside4(a.dims, i, j, k, l),
    ensures
        r.at5(i, j, 0, k, l) == a.at4(i, j, k, l),
        r.at5(i, j, 1, k, l) == b.at4(i, j, k, l),
{
    lemma_at5(r, i, j, 0, k, l);
    lemma_at5(r, i, j, 1, k, l);
    lemma_at4(a, i, j, k, l);
    lemma_at4(b, i, j, k, l);
    let zero = seq![i, j, 0, k, l];
    let one = seq![i, j, 1, k, l];
    assert(zero.remove(2) =~= seq![i, j, k, l]);
    assert(one.remove(2) =~= seq![i, j, k, l]);
    assert(inside(r.dims, zero));
    assert(inside(r.dims, one));
}

/// `(re, im)` are the even and the odd channels of `x`.
pub open spec fn is_unpacked(x: TensorVal, re: TensorVal, im: TensorVal) -> bool {
    &&& re.dims == seq![x.dims[0], x.dims[1] / 2, x.dims[2], x.dims[3]]
    &&& im.dims == re.dims
    &&& re.wf()
    &&& im.wf()
    &&& re.single == x.single
    &&& im.single == x.single
    &&& re.cpu == x.cpu
    &&& im.cpu == x.cpu
    &&& forall|i: int, j: int, k: int, l: int|
        inside4(re.dims, i, j, k, l) ==> #[trigger] re.at4(i, j, k, l) == x.at4(i, 2 * j, k, l)
    &&& forall|i: int, j: int, k: int, l: int|
        inside4(im.dims, i, j, k, l) ==> #[trigger] im.at4(i, j, k, l) == x.at4(
            i,
            2 * j + 1,
            k,
            l,
        )
}

/// Takes packed real and imaginary parts apart.
pub fn unpack(x: &Tensor) -> (r: Result<(Tensor, Tensor), WorkerError>)
    requires
        tensor_val(*x).wf(),
    ensures
        match r {
            Ok((re, im)) => tensor_val(*x).dims.len() == 4 && tensor_val(*x).dims[1] % 2 == 0
                && is_unpacked(tensor_val(*x), tensor_val(re), tensor_val(im)),
            Err(e) => if tensor_val(*x).dims.len() != 4 {
                is_rank(e, 4, tensor_val(*x).dims)
            } else if tensor_val(*x).dims[1] % 2 == 1 {
                e is OddChannels
            } else {
                e is Candle && !tensor_val(*x).computes()
            },
        },
{
    let (b, c2, h, m) = shape4(x)?;
    let ghost xv = tensor_val(*x);
    if c2 % 2 != 0 {
        return Err(WorkerError::OddChannels);
    }
    let c: usize = c2 / 2;
    let to = vec![b, c, 2, h, m];
    proof {
        lemma_product4(xv.dims);
        assert(lengths(to@) =~= seq![b as nat, c as nat, 2nat, h as nat, m as nat]);
        lemma_product5(lengths(to@));
        lemma_pack_count(b as int, c as int, h as int, m as int);
    }
    let t = lift(reshape(x, to))?;
    let re = unpack_part(&t, 0, b, c, h, m)?;
    let im = unpack_part(&t, 1, b, c, h, m)?;
    proof {
        let rv = tensor_val(re);
        let iv = tensor_val(im);
        assert forall|i: int, j: int, k: int, l: int| inside4(rv.dims, i, j, k, l) implies #[trigger] rv.at4(
            i,
            j,
            k,
            l,
        ) == xv.at4(i, 2 * j, k, l) by {
            assert(i * (c * 2) + 2 * j == (i * c + j) * 2 + 0) by (nonlinear_arith);
        }
        assert forall|i: int, j: int, k: int, l: int| inside4(iv.dims, i, j, k, l) implies #[trigger] iv.at4(
            i,
            j,
            k,
            l,
        ) == xv.at4(i, 2 * j + 1, k, l) by {
            assert(i * (c * 2) + (2 * j + 1) == (i * c + j) * 2 + 1) by (nonlinear_arith);
        }
    }
    Ok((re, im))
}

/// One slice of the third of five axes, as a tensor of four.
fn unpack_part(t: &Tensor, part: usize, b: usize, c: usize, h: usize, m: usize) -> (r: Result<
    Tensor,
    WorkerError,
>)
    requires
        tensor_val(*t).wf(),
        tensor_val(*t).dims == seq![b as nat, c as nat, 2nat, h as nat, m as nat],
        part < 2,
    ensures
        match r {
            Ok(y) => {
                &&& tensor_val(y).dims == seq![b as nat, c as nat, h as nat, m as nat]
                &&& tensor_val(y).wf()
                &&& tensor_val(y).single == tensor_val(*t).single
                &&& tensor_val(y).cpu == tensor_val(*t).cpu
                &&& forall|i: int, j: int, k: int, l: int|
                    inside4(tensor_val(y).dims, i, j, k, l) ==> #[trigger] tensor_val(y).at4(
                        i,
                        j,
                        k,
                        l,
                    ) == tensor_val(*t).at5(i, j, part as int, k, l)
            },
            Err(e) => e is Candle && !tensor_val(*t).computes(),
        },
{
    let ghost tv = tensor_val(*t);
    let one = lift(narrow(t, 2, part, 1))?;
    let ghost ov = tensor_val(one);
    let to = vec![b, c, h, m];
    proof {
        assert(ov.dims =~= seq![b as nat, c as nat, 1nat, h as nat, m as nat]);
        lemma_product5(ov.dims);
        assert(lengths(to@) =~= seq![b as nat, c as nat, h as nat, m as nat]);
        lemma_product4(lengths(to@));
    }
    let plain = lift(reshape(&one, to))?;
    let y = lift(contiguous(&plain))?;
    proof {
        let yv = tensor_val(y);
        assert forall|i: int, j: int, k: int, l: int| inside4(yv.dims, i, j, k, l) implies #[trigger] yv.at4(
            i,
            j,
            k,
            l,
        ) == tv.at5(i, j, part as int, k, l) by {
            let idx = seq![i, j, 0, k, l];
            lemma_at5(ov, i, j, 0, k, l);
            lemma_at5(tv, i, j, part as int, k, l);
            assert(inside(ov.dims, idx));
            assert(idx.update(2, idx[2] + part) =~= seq![i, j, part as int, k, l]);
            assert(((i * c + j) * 1 + 0) == i * c + j);
            assert(ov.at5(i, j, 0, k, l) == yv.at4(i, j, k, l));
        }
    }
    Ok(y)
}

/// The values that an inverse transform along the third axis passes through.
pub struct InverseSteps {
    pub rc: TensorVal,
    pub rs: TensorVal,
    pub ic: TensorVal,
    pub is: TensorVal,
}

/// The inverse transform of `(re, im)` along the third axis over the given steps:
/// `Re = R c^T - I s^T`, `Im = I c^T + R s^T`.
pub open spec fn inverse_steps(
    re: TensorVal,
    im: TensorVal,
    basis: Basis,
    t: InverseSteps,
    hr: TensorVal,
    hi: TensorVal,
) -> bool {
    &&& transforms_h(re, tensor_val(basis.c), t.rc)
    &&& transforms_h(re, tensor_val(basis.s), t.rs)
    &&& transforms_h(im, tensor_val(basis.c), t.ic)
    &&& transforms_h(im, tensor_val(basis.s), t.is)
    &&& is_difference(t.rc, t.is, hr)
    &&& is_sum(t.ic, t.rs, hi)
}

/// `(hr, hi)` is an inverse transform of `(re, im)` along the third axis.
pub open spec fn is_idft_h(
    re: TensorVal,
    im: TensorVal,
    basis: Basis,
    hr: TensorVal,
    hi: TensorVal,
) -> bool {
    exists|t: InverseSteps| #[trigger] inverse_steps(re, im, basis, t, hr, hi)
}

/// The inverse transform of `(re, im)` along the third axis.
pub fn idft_h(re: &Tensor, im: &Tensor, basis: &Basis) -> (r: Result<(Tensor, Tensor), WorkerError>)
    requires
        tensor_val(*re).good(),
        tensor_val(*im).good(),
        tensor_val(*re).dims.len() == 4,
        tensor_val(*im).dims.len() == 4,
        basis.ok(),
    ensures
        match r {
            Ok((hr, hi)) => {
                let d = tensor_val(*re).dims;
                &&& tensor_val(hr).dims == seq![d[0], d[1], basis.bins(), d[3]]
                &&& tensor_val(hi).dims == tensor_val(hr).dims
                &&& tensor_val(hr).good()
                &&& tensor_val(hi).good()
                &&& tensor_val(hr).cpu == tensor_val(*re).cpu
                &&& tensor_val(hi).cpu == tensor_val(*re).cpu
                &&& is_idft_h(
                    tensor_val(*re),
                    tensor_val(*im),
                    *basis,
                    tensor_val(hr),
                    tensor_val(hi),
                )
            },
            Err(e) => {
                let d = tensor_val(*re).dims;
                if !columns_fit(d, basis.bins()) || !columns_fit(
                    tensor_val(*im).dims,
                    basis.bins(),
                ) {
                    e is TooLarge
                } else {
                    e is Candle && !(tensor_val(*re).cpu && tensor_val(*im).cpu && basis.cpu()
                        && tensor_val(*im).dims == d && basis.len() == d[2])
                }
            },
        },
{
    let ghost rv = tensor_val(*re);
    let ghost iv = tensor_val(*im);
    let (b, c, _, w) = shape4(re)?;
    let (ib, ic, _, iw) = shape4(im)?;
    let (rows, _) = shape2(&basis.c)?;
    if !count_fits(b, w, c, rows) || !count_fits(ib, iw, ic, rows) {
        return Err(WorkerError::TooLarge);
    }
    let ct = lift(transpose(&basis.c, 0, 1))?;
    let st = lift(transpose(&basis.s, 0, 1))?;
    proof {
        lemma_transposed2(tensor_val(basis.c), tensor_val(ct));
        lemma_transposed2(tensor_val(basis.s), tensor_val(st));
    }
    let rc = contract_h(re, &ct)?;
    let rs = contract_h(re, &st)?;
    let ic = contract_h(im, &ct)?;
    let is = contract_h(im, &st)?;
    let hr = lift(minus(&rc, &is))?;
    let hi = lift(plus(&ic, &rs))?;
    proof {
        lemma_contracts_rows(rv, tensor_val(basis.c), tensor_val(ct), tensor_val(rc));
        lemma_contracts_rows(rv, tensor_val(basis.s), tensor_val(st), tensor_val(rs));
        lemma_contracts_rows(iv, tensor_val(basis.c), tensor_val(ct), tensor_val(ic));
        lemma_contracts_rows(iv, tensor_val(basis.s), tensor_val(st), tensor_val(is));
        let t = InverseSteps {
            rc: tensor_val(rc),
            rs: tensor_val(rs),
            ic: tensor_val(ic),
            is: tensor_val(is),
        };
        assert(inverse_steps(rv, iv, *basis, t, tensor_val(hr), tensor_val(hi)));
    }
    Ok((hr, hi))
}

/// `full` is the spectrum of `w` bins whose first half `half` is: the bins past
/// the half mirror the ones before it.
pub open spec fn mirrors_even(half: TensorVal, w: nat, full: TensorVal) -> bool {
    &&& full.dims == seq![half.dims[0], half.dims[1], half.dims[2], w]
    &&& full.good()
    &&& full.cpu == half.cpu
    &&& forall|i: int, j: int, k: int, l: int|
        inside4(full.dims, i, j, k, l) ==> #[trigger] full.at4(i, j, k, l) == if l < half.dims[3] {
            half.at4(i, j, k, l)
        } else {
            half.at4(i, j, k, w - l)
        }
}

/// The same for imaginary parts: the bins past the half are the negated mirror,
/// and the bins that a real signal has no imaginary part in, the first one and
/// the middle one of an even number, are zero.
pub open spec fn mirrors_odd(half: TensorVal, w: nat, full: TensorVal) -> bool {
    &&& full.dims == seq![half.dims[0], half.dims[1], half.dims[2], w]
    &&& full.good()
    &&& full.cpu == half.cpu
    &&& forall|i: int, j: int, k: int, l: int|
        inside4(full.dims, i, j, k, l) ==> if l == 0 || 2 * l == w {
            #[trigger] full.at4(i, j, k, l) == 0
        } else if l < half.dims[3] {
            full.at4(i, j, k, l) == half.at4(i, j, k, l)
        } else {
            full.at4(i, j, k, l) == negated(half.at4(i, j, k, w - l))
        }
}

/// Reverses the bins `1..=tail` of a half spectrum.
fn reversed_tail(half: &Tensor, tail: usize) -> (r: Result<Tensor, WorkerError>)
    requires
        tensor_val(*half).good(),
        tensor_val(*half).dims.len() == 4,
        1 <= tail < tensor_val(*half).dims[3],
        8 * tail <= isize::MAX,
    ensures
        match r {
            Ok(t) => {
                let d = tensor_val(*half).dims;
                &&& tensor_val(t).dims == seq![d[0], d[1], d[2], tail as nat]
                &&& tensor_val(t).good()
                &&& tensor_val(t).cpu == tensor_val(*half).cpu
                &&& forall|i: int, j: int, k: int, l: int|
                    inside4(tensor_val(t).dims, i, j, k, l) ==> #[trigger] tensor_val(t).at4(
                        i,
                        j,
                        k,
                        l,
                    ) == tensor_val(*half).at4(i, j, k, tail - l)
            },
            Err(e) => e is Candle && !tensor_val(*half).cpu,
        },
{
    let ghost hv = tensor_val(*half);
    let whole = lift(contiguous(half))?;
    let part = lift(narrow(&whole, 3, 1, tail))?;
    let part = lift(contiguous(&part))?;
    let back = lift(flip(&part, 3))?;
    let t = lift(contiguous(&back))?;
    proof {
        lemma_narrowed4(hv, 3, 1, tail as nat, tensor_val(part));
        lemma_flipped4(tensor_val(part), 3, tensor_val(t));
        assert(tensor_val(t).dims =~= seq![hv.dims[0], hv.dims[1], hv.dims[2], tail as nat]);
    }
    Ok(t)
}

/// One line of a tensor is no longer than the tensor.
proof fn lemma_width_bound(d: Seq<nat>, w: nat)
    requires
        d.len() == 4,
        nonempty(d),
        numbered(product(d.update(3, w)) as int),
    ensures
        4 * w <= isize::MAX,
{
    lemma_product4(d.update(3, w));
    let (a, b, c, n) = (d[0] as int, d[1] as int, d[2] as int, w as int);
    assert(n <= a * b * c * n) by (nonlinear_arith)
        requires
            a >= 1,
            b >= 1,
            c >= 1,
            n >= 0,
    ;
}

/// The real parts of a whole spectrum of `w` bins from its first half.
fn mirror_even(half: &Tensor, w: usize) -> (r: Result<Tensor, WorkerError>)
    requires
        tensor_val(*half).good(),
        tensor_val(*half).dims.len() == 4,
        tensor_val(*half).dims[3] == w / 2 + 1,
        w >= 3,
        numbered(product(tensor_val(*half).dims.update(3, w as nat)) as int),
    ensures
        match r {
            Ok(t) => mirrors_even(tensor_val(*half), w as nat, tensor_val(t)),
            Err(e) => e is Candle && !tensor_val(*half).cpu,
        },
{
    proof {
        lemma_width_bound(tensor_val(*half).dims, w as nat);
    }
    let ghost hv = tensor_val(*half);
    let m: usize = w / 2 + 1;
    let tail = reversed_tail(half, w - m)?;
    proof {
        lemma_axis_parts(hv.dims, 3, m as nat, (w - m) as nat);
        assert(hv.dims.update(3, m as nat) =~= hv.dims);
        assert(hv.dims.update(3, (w - m) as nat) =~= tensor_val(tail).dims);
    }
    let full = join(half, &tail, 3)?;
    proof {
        let fv = tensor_val(full);
        lemma_joined4(hv, tensor_val(tail), 3, fv);
        assert(fv.dims =~= seq![hv.dims[0], hv.dims[1], hv.dims[2], w as nat]);
        assert forall|i: int, j: int, k: int, l: int| inside4(fv.dims, i, j, k, l) implies #[trigger] fv.at4(
            i,
            j,
            k,
            l,
        ) == if l < hv.dims[3] {
            hv.at4(i, j, k, l)
        } else {
            hv.at4(i, j, k, w - l)
        } by {
            if l >= m {
                assert(tensor_val(tail).at4(i, j, k, l - m) == hv.at4(i, j, k, w - m - (l - m)));
            }
        }
    }
    Ok(full)
}

/// Every index of a tensor of zeros reads zero.
proof fn lemma_zeros4(x: TensorVal, r: TensorVal)
    requires
        x.dims.len() == 4,
        is_zeros(x, r),
    ensures
        forall|i: int, j: int, k: int, l: int|
            inside4(r.dims, i, j, k, l) ==> #[trigger] r.at4(i, j, k, l) == 0,
{
    assert forall|i: int, j: int, k: int, l: int| inside4(r.dims, i, j, k, l) implies #[trigger] r.at4(
        i,
        j,
        k,
        l,
    ) == 0 by {
        lemma_position4(r.dims, i, j, k, l);
    }
}

/// `clean` is `half` with the imaginary parts that a real signal lacks dropped.
spec fn is_cleaned(half: TensorVal, w: int, clean: TensorVal) -> bool {
    &&& clean.dims == half.dims
    &&& clean.good()
    &&& clean.cpu == half.cpu
    &&& forall|i: int, j: int, k: int, l: int|
        inside4(clean.dims, i, j, k, l) ==> #[trigger] clean.at4(i, j, k, l) == if l == 0 || 2 * l
            == w {
            0
        } else {
            half.at4(i, j, k, l)
        }
}

/// Drops the imaginary parts of the first bin and of the middle bin.
fn drop_real_bins(half: &Tensor, w: usize) -> (r: Result<Tensor, WorkerError>)
    requires
        tensor_val(*half).good(),
        tensor_val(*half).dims.len() == 4,
        tensor_val(*half).dims[3] == w / 2 + 1,
        w >= 3,
    ensures
        match r {
            Ok(t) => is_cleaned(tensor_val(*half), w as int, tensor_val(t)),
            Err(e) => e is Candle && !tensor_val(*half).cpu,
        },
{
    let ghost hv = tensor_val(*half);
    let m: usize = w / 2 + 1;
    let first = lift(narrow(half, 3, 0, 1))?;
    let zero = lift(zeros_like(&first))?;
    proof {
        lemma_zeros4(tensor_val(first), tensor_val(zero));
    }
    if w % 2 == 0 {
        let mid = lift(narrow(half, 3, 1, m - 2))?;
        proof {
            lemma_axis_parts(hv.dims, 3, 1, (m - 2) as nat);
            lemma_axis_parts(hv.dims, 3, (m - 1) as nat, 1);
            assert(hv.dims.update(3, m as nat) =~= hv.dims);
            lemma_narrowed4(hv, 3, 1, (m - 2) as nat, tensor_val(mid));
            assert(tensor_val(mid).dims =~= tensor_val(zero).dims.update(3, (m - 2) as nat));
        }
        let head = join(&zero, &mid, 3)?;
        proof {
            lemma_joined4(tensor_val(zero), tensor_val(mid), 3, tensor_val(head));
            assert(tensor_val(head).dims =~= hv.dims.update(3, (m - 1) as nat));
            assert(tensor_val(zero).dims =~= tensor_val(head).dims.update(3, 1));
        }
        let clean = join(&head, &zero, 3)?;
        proof {
            lemma_joined4(tensor_val(head), tensor_val(zero), 3, tensor_val(clean));
            assert(tensor_val(clean).dims =~= hv.dims);
        }
        Ok(clean)
    } else {
        let mid = lift(narrow(half, 3, 1, m - 1))?;
        proof {
            lemma_axis_parts(hv.dims, 3, 1, (m - 1) as nat);
            assert(hv.dims.update(3, m as nat) =~= hv.dims);
            lemma_narrowed4(hv, 3, 1, (m - 1) as nat, tensor_val(mid));
            assert(tensor_val(mid).dims =~= tensor_val(zero).dims.update(3, (m - 1) as nat));
        }
        let clean = join(&zero, &mid, 3)?;
        proof {
            lemma_joined4(tensor_val(zero), tensor_val(mid), 3, tensor_val(clean));
            assert(tensor_val(clean).dims =~= hv.dims);
        }
        Ok(clean)
    }
}

/// The imaginary parts of a whole spectrum of `w` bins from its first half.
fn mirror_odd(half: &Tensor, w: usize) -> (r: Result<Tensor, WorkerError>)
    requires
        tensor_val(*half).good(),
        tensor_val(*half).dims.len() == 4,
        tensor_val(*half).dims[3] == w / 2 + 1,
        w >= 3,
        numbered(product(tensor_val(*half).dims.update(3, w as nat)) as int),
    ensures
        match r {
            Ok(t) => mirrors_odd(tensor_val(*half), w as nat, tensor_val(t)),
            Err(e) => e is Candle && !tensor_val(*half).cpu,
        },
{
    proof {
        lemma_width_bound(tensor_val(*half).dims, w as nat);
    }
    let ghost hv = tensor_val(*half);
    let m: usize = w / 2 + 1;
    let clean = drop_real_bins(half, w)?;
    let tail = reversed_tail(&clean, w - m)?;
    let turned = lift(neg(&tail))?;
    proof {
        lemma_axis_parts(hv.dims, 3, m as nat, (w - m) as nat);
        assert(hv.dims.update(3, m as nat) =~= hv.dims);
        assert(hv.dims.update(3, (w - m) as nat) =~= tensor_val(turned).dims);
    }
    let full = join(&clean, &turned, 3)?;
    proof {
        let cv = tensor_val(clean);
        let tv = tensor_val(tail);
        let nv = tensor_val(turned);
        let fv = tensor_val(full);
        lemma_joined4(cv, nv, 3, fv);
        assert(fv.dims =~= seq![hv.dims[0], hv.dims[1], hv.dims[2], w as nat]);
        assert forall|i: int, j: int, k: int, l: int| inside4(fv.dims, i, j, k, l) implies if l == 0
            || 2 * l == w {
            #[trigger] fv.at4(i, j, k, l) == 0
        } else if l < hv.dims[3] {
            fv.at4(i, j, k, l) == hv.at4(i, j, k, l)
        } else {
            fv.at4(i, j, k, l) == negated(hv.at4(i, j, k, w - l))
        } by {
            if l < m {
                assert(fv.at4(i, j, k, l) == cv.at4(i, j, k, l));
            } else {
                let t = l - m;
                assert(fv.at4(i, j, k, l) == nv.at4(i, j, k, t));
                lemma_position4(nv.dims, i, j, k, t);
                assert(nv.at4(i, j, k, t) == negated(tv.at4(i, j, k, t)));
                assert(tv.at4(i, j, k, t) == cv.at4(i, j, k, w - m - t));
            }
        }
    }
    Ok(full)
}

/// The values that an inverse transform of a half spectrum passes through.
pub struct RealSteps {
    pub hr: TensorVal,
    pub hi: TensorVal,
    pub fr: TensorVal,
    pub fi: TensorVal,
    pub frc: TensorVal,
    pub fis: TensorVal,
}

/// The inverse transform of a half spectrum over the given steps: the inverse
/// along the third axis, the mirrored spectrum along the last one, and the real
/// part of its inverse, `Fr c^T - Fi s^T`.
pub open spec fn real_steps(
    re: TensorVal,
    im: TensorVal,
    bw: Basis,
    bh: Basis,
    w: nat,
    t: RealSteps,
    y: TensorVal,
) -> bool {
    &&& is_idft_h(re, im, bh, t.hr, t.hi)
    &&& mirrors_even(t.hr, w, t.fr)
    &&& mirrors_odd(t.hi, w, t.fi)
    &&& transforms_w(t.fr, tensor_val(bw.c), t.frc)
    &&& transforms_w(t.fi, tensor_val(bw.s), t.fis)
    &&& is_difference(t.frc, t.fis, y)
}

/// `y` is a real inverse transform of the half spectrum `(re, im)` of width `w`.
pub open spec fn is_irfft2(
    re: TensorVal,
    im: TensorVal,
    bw: Basis,
    bh: Basis,
    w: nat,
    y: TensorVal,
) -> bool {
    exists|t: RealSteps| #[trigger] real_steps(re, im, bw, bh, w, t, y)
}

/// The inverse transform of a half spectrum along the last two axes: a real
/// tensor of width `out_w`. The spectrum holds the `out_w / 2 + 1` bins of a real
/// signal; a width that they already fill is refused.
pub fn irfft2(re: &Tensor, im: &Tensor, bw_full: &Basis, bh: &Basis, out_w: usize) -> (r: Result<
    Tensor,
    WorkerError,
>)
    requires
        tensor_val(*re).good(),
        tensor_val(*im).good(),
        tensor_val(*re).dims.len() == 4,
        tensor_val(*im).dims.len() == 4,
        tensor_val(*re).dims[3] == out_w / 2 + 1,
        bw_full.ok(),
        bh.ok(),
    ensures
        match r {
            Ok(y) => {
                let d = tensor_val(*re).dims;
                &&& out_w >= 3
                &&& tensor_val(y).dims == seq![d[0], d[1], bh.bins(), bw_full.bins()]
                &&& tensor_val(y).good()
                &&& tensor_val(y).cpu == tensor_val(*re).cpu
                &&& is_irfft2(
                    tensor_val(*re),
                    tensor_val(*im),
                    *bw_full,
                    *bh,
                    out_w as nat,
                    tensor_val(y),
                )
            },
            Err(e) => if out_w < 3 {
                e is DegenerateWidth
            } else {
                let d = tensor_val(*re).dims;
                if !columns_fit(d, bh.bins()) || !columns_fit(tensor_val(*im).dims, bh.bins())
                    || !rows_fit(d, bh.bins(), out_w as nat) || !rows_fit(
                    d,
                    bh.bins(),
                    bw_full.bins(),
                ) {
                    e is TooLarge
                } else {
                    e is Candle && !(tensor_val(*re).cpu && tensor_val(*im).cpu && bw_full.cpu()
                        && bh.cpu() && tensor_val(*im).dims == d && bh.len() == d[2]
                        && bw_full.len() == out_w)
                }
            },
        },
{
    if out_w < 3 {
        return Err(WorkerError::DegenerateWidth);
    }
    let (b, c, _, w) = shape4(re)?;
    let (ib, ic, _, iw) = shape4(im)?;
    let (rows, _) = shape2(&bh.c)?;
    let (cols, _) = shape2(&bw_full.c)?;
    if !count_fits(b, w, c, rows) || !count_fits(ib, iw, ic, rows) || !count_fits(b, c, rows, out_w)
        || !count_fits(b, c, rows, cols) {
        return Err(WorkerError::TooLarge);
    }
    let (hr, hi) = idft_h(re, im, bh)?;
    proof {
        lemma_product4(tensor_val(hr).dims.update(3, out_w as nat));
    }
    let fr = mirror_even(&hr, out_w)?;
    let fi = mirror_odd(&hi, out_w)?;
    proof {
        lemma_product3(tensor_val(fr).dims.drop_last());
        lemma_product3(tensor_val(fi).dims.drop_last());
    }
    let frc = mm_last(&fr, &bw_full.c)?;
    let fis = mm_last(&fi, &bw_full.s)?;
    let y = lift(minus(&frc, &fis))?;
    proof {
        let t = RealSteps {
            hr: tensor_val(hr),
            hi: tensor_val(hi),
            fr: tensor_val(fr),
            fi: tensor_val(fi),
            frc: tensor_val(frc),
            fis: tensor_val(fis),
        };
        assert(real_steps(
            tensor_val(*re),
            tensor_val(*im),
            *bw_full,
            *bh,
            out_w as nat,
            t,
            tensor_val(y),
        ));
    }
    Ok(y)
}

} // verus!
