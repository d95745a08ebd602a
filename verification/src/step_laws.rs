//! Laws of the single steps of the generator: what each does to every element.

use vstd::prelude::*;

use crate::blocks::{is_reflect_padded, RefPadConv};
use crate::fourier::{is_packed, is_unpacked};
use crate::laws::{law_mirror_far_border, law_mirror_is_even, law_mirror_keeps_inner_positions};
use crate::layers::{
    conv_outcome, conv_val, is_conv, is_normed, is_pooled, is_spread, norm_outcome, pool_outcome,
    spread_outcome, ConvVal, NormVal,
};
use crate::tensor::{
    affine_outcome, difference_outcome, exp_outcome, inside4, is_affine, is_difference, is_exp,
    is_neg, is_recip, is_relu, is_scaled, is_sum, recip_outcome, scaled_outcome, sum_outcome,
    TensorVal,
};

verus! {

/// `r` has the shape of `a` and at every place its positive part: the element itself
/// from zero to infinity, zero for a negative one and for what is no number, and
/// either zero for negative zero.
pub open spec fn holds_positive_parts(a: TensorVal, r: TensorVal) -> bool {
    &&& r.dims == a.dims
    &&& r.elems.len() == a.elems.len()
    &&& forall|i: int|
        #![trigger r.elems[i]]
        0 <= i < r.elems.len() ==> {
            &&& a.elems[i] <= 0x7f80_0000 ==> r.elems[i] == a.elems[i]
            &&& 0x7f80_0000 < a.elems[i] < 0x8000_0000 ==> r.elems[i] == 0
            &&& a.elems[i] == 0x8000_0000 ==> r.elems[i] == 0 || r.elems[i] == 0x8000_0000
            &&& a.elems[i] > 0x8000_0000 ==> r.elems[i] == 0
        }
}

/// No element is a negative number, and every element is a number.
pub open spec fn nowhere_negative(x: TensorVal) -> bool {
    forall|i: int|
        0 <= i < x.elems.len() ==> #[trigger] x.elems[i] <= 0x7f80_0000 || x.elems[i]
            == 0x8000_0000
}

/// Rectifying leaves no negative number: it keeps what is positive and makes zero of
/// what is negative.
pub proof fn law_rectified_is_nowhere_negative(a: TensorVal, r: TensorVal)
    requires
        is_relu(a, r),
    ensures
        holds_positive_parts(a, r),
        nowhere_negative(r),
{
}

/// Turning signs twice gives the tensor back, and once changes every element.
pub proof fn law_turning_signs_twice_gives_back(x: TensorVal, y: TensorVal, z: TensorVal, i: int)
    requires
        is_neg(x, y),
        is_neg(y, z),
        0 <= i < x.elems.len(),
        x.elems[i] <= u32::MAX,
    ensures
        z.dims == x.dims,
        z.elems[i] == x.elems[i],
        y.elems[i] != x.elems[i],
        y.elems[i] == x.elems[i] + 0x8000_0000 || x.elems[i] == y.elems[i] + 0x8000_0000,
{
}

/// A sum, a difference and a product join the elements at one place, the first of the
/// one and the second of the other.
pub proof fn law_joint_steps_keep_places(
    a: TensorVal,
    b: TensorVal,
    s: TensorVal,
    d: TensorVal,
    p: TensorVal,
    i: int,
)
    requires
        is_sum(a, b, s),
        is_difference(a, b, d),
        is_scaled(a, b, p),
        0 <= i < a.elems.len(),
    ensures
        (s.dims, d.dims, p.dims) == (a.dims, a.dims, a.dims),
        (b.dims, b.elems.len()) == (a.dims, a.elems.len()),
        sum_outcome(a.elems[i], b.elems[i], s.elems[i]),
        difference_outcome(a.elems[i], b.elems[i], d.elems[i]),
        scaled_outcome(a.elems[i], b.elems[i], p.elems[i]),
        b.elems[i] == 0x3f80_0000 && a.elems[i] <= 0x7f80_0000 ==> p.elems[i] == a.elems[i],
        b.elems[i] == 0 && a.elems[i] < 0x7f80_0000 ==> p.elems[i] == 0,
{
    assert(s.elems.len() == a.elems.len());
    assert(d.elems.len() == a.elems.len());
    assert(p.elems.len() == a.elems.len());
    assert(sum_outcome(a.elems[i], b.elems[i], s.elems[i]));
    assert(difference_outcome(a.elems[i], b.elems[i], d.elems[i]));
    assert(scaled_outcome(a.elems[i], b.elems[i], p.elems[i]));
}

/// An exponential, a reciprocal and an affine step take each element on its own.
pub proof fn law_single_steps_keep_places(
    x: TensorVal,
    e: TensorVal,
    q: TensorVal,
    f: TensorVal,
    m: u8,
    n: u8,
    i: int,
)
    requires
        is_exp(x, e),
        is_recip(x, q),
        is_affine(x, m, n, f),
        0 <= i < x.elems.len(),
    ensures
        (e.dims, q.dims, f.dims) == (x.dims, x.dims, x.dims),
        exp_outcome(x.elems[i], e.elems[i]),
        recip_outcome(x.elems[i], q.elems[i]),
        affine_outcome(x.elems[i], m, n, f.elems[i]),
{
    assert(exp_outcome(x.elems[i], e.elems[i]));
    assert(recip_outcome(x.elems[i], q.elems[i]));
    assert(affine_outcome(x.elems[i], m, n, f.elems[i]));
}

/// Normalising takes each element with the statistics of its own channel.
pub proof fn law_normalising_reads_its_channel(
    n: NormVal,
    x: TensorVal,
    r: TensorVal,
    i: int,
    j: int,
    k: int,
    l: int,
)
    requires
        is_normed(n, x, r),
        x.dims.len() == 4,
        inside4(x.dims, i, j, k, l),
    ensures
        r.dims == x.dims,
        x.dims[1] == n.mean.len(),
        norm_outcome(
            x.at4(i, j, k, l),
            n.mean[j],
            n.var[j],
            n.weight[j],
            n.bias[j],
            r.at4(i, j, k, l),
        ),
{
    assert(inside4(r.dims, i, j, k, l));
}

/// A convolution reads, for the element at row `y` and column `l` of channel `o`, the
/// square whose corner is at `stride` times that place, over all channels, and the
/// weights and the bias of channel `o`. The kernel places follow one another row by
/// row, channel by channel.
pub proof fn law_convolution_reads_its_window(
    c: ConvVal,
    x: TensorVal,
    r: TensorVal,
    i: int,
    o: int,
    y: int,
    l: int,
)
    requires
        is_conv(c, x, r),
        0 <= i < r.dims[0],
        0 <= o < r.dims[1],
        0 <= y < r.dims[2],
        0 <= l < r.dims[3],
        c.weight.dims[2] >= 1,
    ensures
        r.dims[0] == x.dims[0],
        r.dims[1] == c.weight.dims[0],
        x.dims[1] == c.weight.dims[1],
        exists|taps: Seq<u64>, weights: Seq<u64>, bias: Option<u64>|
            {
                let k = c.weight.dims[2] as int;
                &&& #[trigger] conv_outcome(taps, weights, bias, r.at4(i, o, y, l))
                &&& c.bias is Some ==> bias == Some(c.bias->0[o])
                &&& c.bias is None ==> bias is None
                &&& taps.len() == x.dims[1] * k * k
                &&& weights.len() == x.dims[1] * k * k
                &&& forall|j: int, p: int, q: int|
                    0 <= j < x.dims[1] && 0 <= p < k && 0 <= q < k ==> {
                        &&& #[trigger] taps[tap_place(j, p, q, k)] == x.at4(
                            i,
                            j,
                            y * c.stride + p,
                            l * c.stride + q,
                        )
                        &&& weights[tap_place(j, p, q, k)] == c.weight.at4(o, j, p, q)
                    }
            },
{
    let k = c.weight.dims[2] as int;
    let s = c.stride as int;
    let taps = crate::layers::window(x, i, y * s, l * s, k);
    let weights = crate::layers::kernel_of(c.weight, o);
    assert(inside4(r.dims, i, o, y, l));
    assert(conv_outcome(taps, weights, c.bias_at(o), r.at4(i, o, y, l)));
    assert forall|j: int, p: int, q: int|
        0 <= j < x.dims[1] && 0 <= p < k && 0 <= q < k implies {
        &&& #[trigger] taps[tap_place(j, p, q, k)] == x.at4(
            i,
            j,
            y * c.stride + p,
            l * c.stride + q,
        )
        &&& weights[tap_place(j, p, q, k)] == c.weight.at4(o, j, p, q)
    } by {
        lemma_tap_place(j, p, q, k, x.dims[1] as int);
    }
}

/// The place of channel `j`, row `p` and column `q` of a kernel of side `k`.
pub open spec fn tap_place(j: int, p: int, q: int, k: int) -> int {
    (j * k + p) * k + q
}

proof fn lemma_tap_place(j: int, p: int, q: int, k: int, n: int)
    requires
        0 <= j < n,
        0 <= p < k,
        0 <= q < k,
    ensures
        0 <= tap_place(j, p, q, k) < n * k * k,
        tap_place(j, p, q, k) / (k * k) == j,
        (tap_place(j, p, q, k) % (k * k)) / k == p,
        tap_place(j, p, q, k) % k == q,
{
    let t = tap_place(j, p, q, k);
    let rest = p * k + q;
    crate::axes::lemma_line_position(j, n, p, k);
    crate::axes::lemma_line_position(j * k + p, n * k, q, k);
    crate::axes::lemma_line_position(p, k, q, k);
    assert(t == j * (k * k) + rest) by (nonlinear_arith)
        requires
            t == (j * k + p) * k + q,
            rest == p * k + q,
    ;
    vstd::arithmetic::div_mod::lemma_fundamental_div_mod_converse(t, k * k, j, rest);
    vstd::arithmetic::div_mod::lemma_fundamental_div_mod_converse(rest, k, p, q);
    vstd::arithmetic::div_mod::lemma_fundamental_div_mod_converse(t, k, j * k + p, q);
}

/// A transposed convolution adds up, at row `y` and column `l` of channel `o`, the
/// element `[j, a, b]` times the weight `[j, o, p, q]` for the places with
/// `stride * a + p == y + padding` and `stride * b + q == l + padding`.
pub proof fn law_spreading_reads_its_sources(
    c: ConvVal,
    x: TensorVal,
    r: TensorVal,
    i: int,
    o: int,
    y: int,
    l: int,
)
    requires
        is_spread(c, x, r),
        0 <= i < r.dims[0],
        0 <= o < r.dims[1],
        0 <= y < r.dims[2],
        0 <= l < r.dims[3],
        c.weight.dims[2] >= 1,
        c.stride >= 1,
    ensures
        r.dims[0] == x.dims[0],
        r.dims[1] == c.weight.dims[1],
        x.dims[1] == c.weight.dims[0],
        exists|taps: Seq<Option<u64>>, weights: Seq<u64>, bias: Option<u64>|
            {
                let k = c.weight.dims[2] as int;
                &&& #[trigger] spread_outcome(taps, weights, bias, r.at4(i, o, y, l))
                &&& c.bias is Some ==> bias == Some(c.bias->0[o])
                &&& c.bias is None ==> bias is None
                &&& taps.len() == x.dims[1] * k * k
                &&& weights.len() == x.dims[1] * k * k
                &&& forall|j: int, p: int, q: int|
                    #![trigger taps[tap_place(j, p, q, k)]]
                    0 <= j < x.dims[1] && 0 <= p < k && 0 <= q < k ==> {
                        &&& weights[tap_place(j, p, q, k)] == c.weight.at4(j, o, p, q)
                        &&& forall|a: int, b: int|
                            0 <= a < x.dims[2] && 0 <= b < x.dims[3] && c.stride * a + p == y
                                + c.padding && c.stride * b + q == l + c.padding
                                ==> taps[tap_place(j, p, q, k)] == Some(#[trigger] x.at4(i, j, a, b))
                        &&& taps[tap_place(j, p, q, k)] is Some ==> exists|a: int, b: int|
                            0 <= a < x.dims[2] && 0 <= b < x.dims[3] && c.stride * a + p == y
                                + c.padding && c.stride * b + q == l + c.padding
                                && taps[tap_place(j, p, q, k)] == Some(#[trigger] x.at4(i, j, a, b))
                    }
            },
{
    let k = c.weight.dims[2] as int;
    let s = c.stride as int;
    let taps = crate::layers::spread(x, i, y, l, k, s, c.padding as int);
    let weights = crate::layers::spread_kernel(c.weight, o);
    assert(inside4(r.dims, i, o, y, l));
    assert(spread_outcome(taps, weights, c.bias_at(o), r.at4(i, o, y, l)));
    assert forall|j: int, p: int, q: int|
        #![trigger taps[tap_place(j, p, q, k)]]
        0 <= j < x.dims[1] && 0 <= p < k && 0 <= q < k implies {
        &&& weights[tap_place(j, p, q, k)] == c.weight.at4(j, o, p, q)
        &&& forall|a: int, b: int|
            0 <= a < x.dims[2] && 0 <= b < x.dims[3] && c.stride * a + p == y + c.padding && c.stride
                * b + q == l + c.padding ==> taps[tap_place(j, p, q, k)] == Some(
                #[trigger] x.at4(i, j, a, b),
            )
        &&& taps[tap_place(j, p, q, k)] is Some ==> exists|a: int, b: int|
            0 <= a < x.dims[2] && 0 <= b < x.dims[3] && c.stride * a + p == y + c.padding && c.stride
                * b + q == l + c.padding && taps[tap_place(j, p, q, k)] == Some(
                #[trigger] x.at4(i, j, a, b),
            )
    } by {
        lemma_tap_place(j, p, q, k, x.dims[1] as int);
        let (u, v) = (y + c.padding - p, l + c.padding - q);
        assert forall|a: int, b: int|
            0 <= a < x.dims[2] && 0 <= b < x.dims[3] && c.stride * a + p == y + c.padding && c.stride
                * b + q == l + c.padding implies taps[tap_place(j, p, q, k)] == Some(
            #[trigger] x.at4(i, j, a, b),
        ) by {
            assert(a * s == s * a && b * s == s * b) by (nonlinear_arith);
            vstd::arithmetic::div_mod::lemma_fundamental_div_mod_converse(u, s, a, 0);
            vstd::arithmetic::div_mod::lemma_fundamental_div_mod_converse(v, s, b, 0);
        }
        if taps[tap_place(j, p, q, k)] is Some {
            vstd::arithmetic::div_mod::lemma_fundamental_div_mod(u, s);
            vstd::arithmetic::div_mod::lemma_fundamental_div_mod(v, s);
            let (a, b) = (u / s, v / s);
            assert(taps[tap_place(j, p, q, k)] == Some(x.at4(i, j, a, b)));
        }
    }
}

/// Pooling takes the four elements of its own square.
pub proof fn law_pooling_reads_its_square(
    x: TensorVal,
    r: TensorVal,
    i: int,
    j: int,
    k: int,
    l: int,
)
    requires
        is_pooled(x, r),
        0 <= i < x.dims[0],
        0 <= j < x.dims[1],
        0 <= 2 * k,
        2 * k + 1 < x.dims[2],
        0 <= 2 * l,
        2 * l + 1 < x.dims[3],
    ensures
        pool_outcome(
            x.at4(i, j, 2 * k, 2 * l),
            x.at4(i, j, 2 * k, 2 * l + 1),
            x.at4(i, j, 2 * k + 1, 2 * l),
            x.at4(i, j, 2 * k + 1, 2 * l + 1),
            r.at4(i, j, k, l),
        ),
{
    assert(inside4(r.dims, i, j, k, l));
}

/// Reflecting padding adds `p` on each side, keeps the tensor at its place and shows
/// beyond a border what lies as far before it.
pub proof fn law_reflecting_mirrors_at_borders(
    x: TensorVal,
    p: int,
    y: TensorVal,
    i: int,
    j: int,
    k: int,
    l: int,
    d: int,
)
    requires
        is_reflect_padded(x, p, y),
        x.dims.len() == 4,
        0 <= p < x.dims[2],
        p < x.dims[3],
        0 <= i < x.dims[0],
        0 <= j < x.dims[1],
        0 <= d <= p,
    ensures
        y.dims == seq![x.dims[0], x.dims[1], x.dims[2] + 2 * p as nat, x.dims[3] + 2 * p as nat],
        0 <= k < x.dims[2] && 0 <= l < x.dims[3] ==> y.at4(i, j, k + p, l + p) == x.at4(
            i,
            j,
            k,
            l,
        ),
        0 <= l < y.dims[3] ==> y.at4(i, j, p - d, l) == y.at4(i, j, p + d, l),
        0 <= l < y.dims[3] ==> y.at4(i, j, p + x.dims[2] - 1 + d, l) == y.at4(
            i,
            j,
            p + x.dims[2] - 1 - d,
            l,
        ),
        0 <= k < y.dims[2] ==> y.at4(i, j, k, p - d) == y.at4(i, j, k, p + d),
        0 <= k < y.dims[2] ==> y.at4(i, j, k, p + x.dims[3] - 1 + d) == y.at4(
            i,
            j,
            k,
            p + x.dims[3] - 1 - d,
        ),
{
    let (h, w) = (x.dims[2] as int, x.dims[3] as int);
    if 0 <= k < h && 0 <= l < w {
        law_mirror_keeps_inner_positions(k, h);
        law_mirror_keeps_inner_positions(l, w);
        assert(inside4(y.dims, i, j, k + p, l + p));
    }
    law_mirror_is_even(d, h);
    law_mirror_is_even(d, w);
    law_mirror_far_border(d, h);
    law_mirror_far_border(d, w);
    if 0 <= l < y.dims[3] {
        assert(inside4(y.dims, i, j, p - d, l));
        assert(inside4(y.dims, i, j, p + d, l));
        assert(inside4(y.dims, i, j, p + h - 1 + d, l));
        assert(inside4(y.dims, i, j, p + h - 1 - d, l));
    }
    if 0 <= k < y.dims[2] {
        assert(inside4(y.dims, i, j, k, p - d));
        assert(inside4(y.dims, i, j, k, p + d));
        assert(inside4(y.dims, i, j, k, p + w - 1 + d));
        assert(inside4(y.dims, i, j, k, p + w - 1 - d));
    }
}

/// A padded convolution reads its input with `pad` rows and columns reflected on each
/// side, or as it is where `pad` is zero.
pub proof fn law_padded_convolution_reflects_its_input(c: RefPadConv, x: TensorVal, y: TensorVal)
    requires
        c.runs(x, y),
    ensures
        exists|mid: TensorVal| #[trigger]
            is_conv(conv_val(c.layer.conv), mid, y) && (c.pad == 0 ==> mid == x) && (c.pad > 0
                ==> is_reflect_padded(x, c.pad as int, mid)),
{
    let mid = choose|mid: TensorVal| #[trigger] c.runs_over(x, mid, y);
    assert(c.runs_over(x, mid, y));
}

/// Packing puts the real part of channel `j` at channel `2 * j` and the imaginary part
/// after it; unpacking reads them from there.
pub proof fn law_packing_interleaves(
    re: TensorVal,
    im: TensorVal,
    packed: TensorVal,
    x: TensorVal,
    yr: TensorVal,
    yi: TensorVal,
    i: int,
    j: int,
    k: int,
    l: int,
)
    requires
        is_packed(re, im, packed),
        is_unpacked(x, yr, yi),
        x.dims == packed.dims,
        x.dims[1] == 2 * re.dims[1],
        0 <= i < re.dims[0],
        0 <= j < re.dims[1],
        0 <= k < re.dims[2],
        0 <= l < re.dims[3],
    ensures
        packed.dims == seq![re.dims[0], 2 * re.dims[1], re.dims[2], re.dims[3]],
        packed.at4(i, 2 * j, k, l) == re.at4(i, j, k, l),
        packed.at4(i, 2 * j + 1, k, l) == im.at4(i, j, k, l),
        yr.dims == seq![x.dims[0], re.dims[1], x.dims[2], x.dims[3]],
        yi.dims == yr.dims,
        yr.at4(i, j, k, l) == x.at4(i, 2 * j, k, l),
        yi.at4(i, j, k, l) == x.at4(i, 2 * j + 1, k, l),
{
    assert(inside4(re.dims, i, j, k, l));
    assert(re.at4(i, j, k, l) == packed.at4(i, 2 * j, k, l));
    assert(inside4(yr.dims, i, j, k, l));
    assert(yr.at4(i, j, k, l) == x.at4(i, 2 * j, k, l));
    assert(yi.at4(i, j, k, l) == x.at4(i, 2 * j + 1, k, l));
}

} // verus!
