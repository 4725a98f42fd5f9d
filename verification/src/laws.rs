//! Laws that relate the two transforms.

use vstd::prelude::*;
use crate::butterfly::{
    butterfly, evens, halves, inverse_transform, lemma_transform_leaf_absorb,
    lemma_transform_leaf_extract, odds, pointwise, power_of_two, rescaled, transform, unchanged,
    Arith,
};
use crate::exact::Exact;
use crate::orthogonality::{kernel, lemma_kernel_sum};
use crate::series::{
    column, lemma_sigma_exchange, lemma_sigma_plus, lemma_sigma_single, lemma_sigma_times, row,
    sigma,
};
use crate::spectrum::{
    dft_term, inverse_spectrum, inverse_term, leaf_models, lemma_conj_dft_of_conj,
    lemma_inverse_transform_is_idft, lemma_transform_is_dft, models, scale_models, spectrum,
};

verus! {

/// `out` is obtained from `x` by conjugating every sample, taking a forward
/// transform, conjugating every coefficient and dividing it by the number of
/// samples.
pub open spec fn conjugated_forward<T>(
    a: Arith<T>,
    conj: spec_fn(T, T) -> bool,
    scale: spec_fn(T, int, T) -> bool,
    x: Seq<T>,
    out: Seq<T>,
) -> bool {
    &&& out.len() == x.len()
    &&& exists|xc: Seq<T>, y: Seq<T>|
        {
            &&& pointwise(conj, x, xc)
            &&& #[trigger] transform(a, unchanged(), xc, y)
            &&& forall|j: int|
                0 <= j < x.len() ==> rescaled(conj, scale, x.len() as int, y[j], #[trigger] out[j])
        }
}

/// Conjugate reversal, for any arithmetic, rounding or not: the results of
/// the inverse transform of `x` are those of conjugating `x`, transforming it
/// forward, conjugating again and dividing by the number of samples.
pub proof fn law_conjugate_reversal<T>(
    a: Arith<T>,
    conj: spec_fn(T, T) -> bool,
    scale: spec_fn(T, int, T) -> bool,
    x: Seq<T>,
    out: Seq<T>,
)
    ensures
        inverse_transform(a, conj, scale, x, out) <==> conjugated_forward(a, conj, scale, x, out),
{
    if inverse_transform(a, conj, scale, x, out) {
        let mid = choose|mid: Seq<T>|
            {
                &&& #[trigger] transform(a, conj, x, mid)
                &&& forall|j: int|
                    0 <= j < x.len() ==> rescaled(
                        conj,
                        scale,
                        x.len() as int,
                        mid[j],
                        #[trigger] out[j],
                    )
            };
        let xc = lemma_transform_leaf_extract(a, conj, x, mid);
        assert(transform(a, unchanged(), xc, mid));
    }
    if conjugated_forward(a, conj, scale, x, out) {
        let (xc, y) = choose|xc: Seq<T>, y: Seq<T>|
            {
                &&& pointwise(conj, x, xc)
                &&& #[trigger] transform(a, unchanged(), xc, y)
                &&& forall|j: int|
                    0 <= j < x.len() ==> rescaled(
                        conj,
                        scale,
                        x.len() as int,
                        y[j],
                        #[trigger] out[j],
                    )
            };
        lemma_transform_leaf_absorb(a, conj, x, xc, y);
        assert(transform(a, conj, x, y));
    }
}

/// Conjugate reversal in exact arithmetic: sample `j` of the inverse discrete
/// Fourier transform of `x` is the conjugate of coefficient `j` of the
/// forward transform of the conjugated `x`, divided by the number of samples.
pub proof fn law_inverse_by_conjugates<T>(e: Exact<T>, x: Seq<T>)
    requires
        e.ring_laws(),
        e.conj_laws(),
    ensures
        inverse_spectrum(e, x) == Seq::new(
            x.len(),
            |j: int| e.over(e.conj(spectrum(e, x.map_values(e.conjugate))[j]), x.len() as int),
        ),
{
    let r = Seq::new(
        x.len(),
        |j: int| e.over(e.conj(spectrum(e, x.map_values(e.conjugate))[j]), x.len() as int),
    );
    assert forall|j: int| 0 <= j < x.len() implies #[trigger] inverse_spectrum(e, x)[j] == r[j] by {
        lemma_conj_dft_of_conj(e, x, j);
    }
    assert(inverse_spectrum(e, x) =~= r);
}

/// The samples `alpha * x[j] + beta * y[j]`.
pub open spec fn combination<T>(e: Exact<T>, alpha: T, x: Seq<T>, beta: T, y: Seq<T>) -> Seq<T> {
    Seq::new(x.len(), |j: int| e.plus(e.times(alpha, x[j]), e.times(beta, y[j])))
}

/// Linearity in exact arithmetic: the discrete Fourier transform of
/// `alpha * x + beta * y` is `alpha` times that of `x` plus `beta` times that
/// of `y`.
pub proof fn law_linearity<T>(e: Exact<T>, alpha: T, x: Seq<T>, beta: T, y: Seq<T>)
    requires
        e.ring_laws(),
        x.len() == y.len(),
    ensures
        spectrum(e, combination(e, alpha, x, beta, y)) == combination(
            e,
            alpha,
            spectrum(e, x),
            beta,
            spectrum(e, y),
        ),
{
    let z = combination(e, alpha, x, beta, y);
    let n = x.len();
    assert forall|k: int| 0 <= k < n implies #[trigger] spectrum(e, z)[k] == combination(
        e,
        alpha,
        spectrum(e, x),
        beta,
        spectrum(e, y),
    )[k] by {
        let fx = dft_term(e, x, k);
        let fy = dft_term(e, y, k);
        let fz = dft_term(e, z, k);
        let gx = |j: int| e.times(alpha, fx(j));
        let gy = |j: int| e.times(beta, fy(j));
        assert forall|j: int| 0 <= j < n implies #[trigger] fz(j) == e.plus(gx(j), gy(j)) by {
            let w = e.w(j * k, n as int);
            let p = e.times(alpha, x[j]);
            let q = e.times(beta, y[j]);
            e.lemma_times_comm(e.plus(p, q), w);
            e.lemma_distributive(w, p, q);
            e.lemma_times_comm(w, p);
            e.lemma_times_comm(w, q);
            e.lemma_times_assoc(alpha, x[j], w);
            e.lemma_times_assoc(beta, y[j], w);
        }
        lemma_sigma_plus(e, gx, gy, fz, n);
        lemma_sigma_times(e, alpha, fx, gx, n);
        lemma_sigma_times(e, beta, fy, gy, n);
    }
    assert(spectrum(e, z) =~= combination(e, alpha, spectrum(e, x), beta, spectrum(e, y)));
}

/// Sample `j` of the inverse transform of the forward transform of `x`.
proof fn lemma_round_trip_at<T>(e: Exact<T>, x: Seq<T>, j: int)
    requires
        e.ring_laws(),
        e.root_laws(),
        e.conj_laws(),
        e.circle_laws(),
        e.quotient_laws(),
        power_of_two(x.len()),
        0 <= j < x.len(),
    ensures
        inverse_spectrum(e, spectrum(e, x))[j] == x[j],
{
    let n = x.len();
    let ni = n as int;
    let big = spectrum(e, x);
    let terms = inverse_term(e, big, j);
    let table = |k: int, l: int| e.times(x[l], kernel(e, l, j, ni)(k));
    let columns = |l: int| e.times(x[l], sigma(e, kernel(e, l, j, ni), n));
    assert forall|k: int| 0 <= k < n implies #[trigger] terms(k) == sigma(e, row(table, k), n) by {
        let c = e.conj(e.w(k * j, ni));
        let fk = dft_term(e, x, k);
        assert forall|l: int| 0 <= l < n implies #[trigger] row(table, k)(l) == e.times(
            c,
            fk(l),
        ) by {
            let w = e.w(l * k, ni);
            e.lemma_times_assoc(x[l], w, c);
            e.lemma_times_comm(e.times(x[l], w), c);
        }
        lemma_sigma_times(e, c, fk, row(table, k), n);
        e.lemma_times_comm(c, big[k]);
    }
    assert forall|l: int| 0 <= l < n implies #[trigger] columns(l) == sigma(
        e,
        column(table, l),
        n,
    ) by {
        let ker = kernel(e, l, j, ni);
        assert forall|k: int| 0 <= k < n implies #[trigger] column(table, l)(k) == e.times(
            x[l],
            ker(k),
        ) by {}
        lemma_sigma_times(e, x[l], ker, column(table, l), n);
    }
    lemma_sigma_exchange(e, table, terms, columns, n, n);
    assert forall|l: int| 0 <= l < n && l != j implies #[trigger] columns(l) == e.zero by {
        lemma_kernel_sum(e, l, j, n);
        e.lemma_times_zero(x[l]);
    }
    lemma_sigma_single(e, columns, j, n);
    lemma_kernel_sum(e, j, j, n);
    e.lemma_times_multiple(x[j], ni);
    e.lemma_over_multiple(x[j], ni);
}

/// The round trip in exact arithmetic: for a power-of-two number of samples,
/// the inverse discrete Fourier transform of the forward transform of `x` is
/// `x`.
pub proof fn law_round_trip<T>(e: Exact<T>, x: Seq<T>)
    requires
        e.ring_laws(),
        e.root_laws(),
        e.conj_laws(),
        e.circle_laws(),
        e.quotient_laws(),
        power_of_two(x.len()),
    ensures
        inverse_spectrum(e, spectrum(e, x)) == x,
{
    assert forall|j: int| 0 <= j < x.len() implies #[trigger] inverse_spectrum(e, spectrum(e, x))[j]
        == x[j] by {
        lemma_round_trip_at(e, x, j);
    }
    assert(inverse_spectrum(e, spectrum(e, x)) =~= x);
}

/// The round trip of the transforms themselves: with exact arithmetic and a
/// power-of-two number of samples, every result of the inverse transform of
/// a result of the forward transform of `x` is `x`.
pub proof fn law_transforms_round_trip<T>(
    a: Arith<T>,
    conj: spec_fn(T, T) -> bool,
    scale: spec_fn(T, int, T) -> bool,
    e: Exact<T>,
    x: Seq<T>,
    mid: Seq<T>,
    out: Seq<T>,
)
    requires
        e.ring_laws(),
        e.root_laws(),
        e.conj_laws(),
        e.circle_laws(),
        e.quotient_laws(),
        models(a, e),
        leaf_models(conj, e.conjugate),
        scale_models(scale, e),
        power_of_two(x.len()),
        transform(a, unchanged(), x, mid),
        inverse_transform(a, conj, scale, mid, out),
    ensures
        out == x,
{
    lemma_transform_is_dft(a, unchanged(), e, |v: T| v, x, mid);
    assert(x.map_values(|v: T| v) =~= x);
    lemma_inverse_transform_is_idft(a, conj, scale, e, mid, out);
    law_round_trip(e, x);
}

/// Every operation described by `a` has one result at most.
pub open spec fn single_valued<T>(a: Arith<T>) -> bool {
    &&& forall|k: int, n: int, v: T, w: T|
        #[trigger] (a.twiddle)(k, n, v) && #[trigger] (a.twiddle)(k, n, w) ==> v == w
    &&& forall|p: T, q: T, v: T, w: T|
        #[trigger] (a.times)(p, q, v) && #[trigger] (a.times)(p, q, w) ==> v == w
    &&& forall|p: T, q: T, v: T, w: T|
        #[trigger] (a.plus)(p, q, v) && #[trigger] (a.plus)(p, q, w) ==> v == w
    &&& forall|p: T, q: T, v: T, w: T|
        #[trigger] (a.minus)(p, q, v) && #[trigger] (a.minus)(p, q, w) ==> v == w
}

/// The base case described by `leaf` has one result at most.
pub open spec fn leaf_single_valued<T>(leaf: spec_fn(T, T) -> bool) -> bool {
    forall|p: T, v: T, w: T| #[trigger] leaf(p, v) && #[trigger] leaf(p, w) ==> v == w
}

/// A transform is a function of its samples alone: where every operation has
/// one result at most, rounded or not, two transforms of the same samples are
/// equal, whatever the output held before.
pub proof fn law_transform_single_valued<T>(
    a: Arith<T>,
    leaf: spec_fn(T, T) -> bool,
    x: Seq<T>,
    first: Seq<T>,
    second: Seq<T>,
)
    requires
        single_valued(a),
        leaf_single_valued(leaf),
        transform(a, leaf, x, first),
        transform(a, leaf, x, second),
    ensures
        first == second,
    decreases x.len(),
{
    if x.len() >= 2 {
        let h = (x.len() / 2) as int;
        let n = x.len() as int;
        let (e1, o1) = choose|even: Seq<T>, odd: Seq<T>|
            {
                &&& #[trigger] halves(even, odd, h)
                &&& transform(a, leaf, evens(x), even)
                &&& transform(a, leaf, odds(x), odd)
                &&& forall|k: int|
                    0 <= k < h ==> butterfly(a, k, n, even[k], odd[k], #[trigger] first[k], first[k + h])
            };
        let (e2, o2) = choose|even: Seq<T>, odd: Seq<T>|
            {
                &&& #[trigger] halves(even, odd, h)
                &&& transform(a, leaf, evens(x), even)
                &&& transform(a, leaf, odds(x), odd)
                &&& forall|k: int|
                    0 <= k < h ==> butterfly(
                        a,
                        k,
                        n,
                        even[k],
                        odd[k],
                        #[trigger] second[k],
                        second[k + h],
                    )
            };
        law_transform_single_valued(a, leaf, evens(x), e1, e2);
        law_transform_single_valued(a, leaf, odds(x), o1, o2);
        assert forall|i: int| 0 <= i < n implies first[i] == second[i] by {
            let k = if i < h { i } else { i - h };
            assert(butterfly(a, k, n, e1[k], o1[k], first[k], first[k + h]));
            assert(butterfly(a, k, n, e1[k], o1[k], second[k], second[k + h]));
        }
        assert(first =~= second);
    } else {
        assert(first =~= second);
    }
}

} // verus!
