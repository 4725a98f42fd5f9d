//! The discrete Fourier transform as a sum, and the proof that the recursive
//! transform computes it when its arithmetic is exact.

use vstd::prelude::*;
use crate::butterfly::{
    butterfly, evens, halves, inverse_transform, odds, power_of_two, rescaled, transform, Arith,
};
use crate::exact::Exact;
use crate::series::{
    lemma_sigma_conj, lemma_sigma_pairs, lemma_sigma_plus, lemma_sigma_same, lemma_sigma_times, sigma,
};

verus! {

/// The `j`-th term of coefficient `k`: `x[j] * e^(-2 pi i j k / n)`.
pub open spec fn dft_term<T>(e: Exact<T>, x: Seq<T>, k: int) -> spec_fn(int) -> T {
    |j: int| e.times(x[j], e.w(j * k, x.len() as int))
}

/// Coefficient `k` of the discrete Fourier transform of `x`:
/// the sum over `j` of `x[j] * e^(-2 pi i j k / n)`.
pub open spec fn dft_at<T>(e: Exact<T>, x: Seq<T>, k: int) -> T {
    sigma(e, dft_term(e, x, k), x.len())
}

/// The discrete Fourier transform of `x`.
pub open spec fn spectrum<T>(e: Exact<T>, x: Seq<T>) -> Seq<T> {
    Seq::new(x.len(), |k: int| dft_at(e, x, k))
}

/// The `k`-th term of sample `j` of the inverse transform:
/// `x[k] * e^(+2 pi i k j / n)`.
pub open spec fn inverse_term<T>(e: Exact<T>, x: Seq<T>, j: int) -> spec_fn(int) -> T {
    |k: int| e.times(x[k], e.conj(e.w(k * j, x.len() as int)))
}

/// Sample `j` of the inverse discrete Fourier transform of `x`: the sum over
/// `k` of `x[k] * e^(+2 pi i k j / n)`, divided by `n`.
pub open spec fn inverse_at<T>(e: Exact<T>, x: Seq<T>, j: int) -> T {
    e.over(sigma(e, inverse_term(e, x, j), x.len()), x.len() as int)
}

/// The inverse discrete Fourier transform of `x`.
pub open spec fn inverse_spectrum<T>(e: Exact<T>, x: Seq<T>) -> Seq<T> {
    Seq::new(x.len(), |j: int| inverse_at(e, x, j))
}

/// The operations described by `a` return what the number system `e` defines.
pub open spec fn models<T>(a: Arith<T>, e: Exact<T>) -> bool {
    &&& forall|k: int, n: int, w: T| 0 <= k < n && #[trigger] (a.twiddle)(k, n, w) ==> w == e.w(k, n)
    &&& forall|p: T, q: T, r: T| #[trigger] (a.times)(p, q, r) ==> r == e.times(p, q)
    &&& forall|p: T, q: T, r: T| #[trigger] (a.plus)(p, q, r) ==> r == e.plus(p, q)
    &&& forall|p: T, q: T, r: T| #[trigger] (a.minus)(p, q, r) ==> r == e.minus(p, q)
}

/// The base case described by `leaf` returns what the function `f` defines.
pub open spec fn leaf_models<T>(leaf: spec_fn(T, T) -> bool, f: spec_fn(T) -> T) -> bool {
    forall|v: T, r: T| #[trigger] leaf(v, r) ==> r == f(v)
}

/// The division described by `scale` returns what the number system `e`
/// defines.
pub open spec fn scale_models<T>(scale: spec_fn(T, int, T) -> bool, e: Exact<T>) -> bool {
    forall|v: T, n: int, r: T| n >= 1 && #[trigger] scale(v, n, r) ==> r == e.over(v, n)
}

/// The Danielson-Lanczos identity: coefficient `q` of a transform of even
/// length `n` is `E(q) + e^(-2 pi i q / n) O(q)`, with `E` and `O` the
/// transforms of the even and of the odd samples.
pub proof fn lemma_dft_split<T>(e: Exact<T>, x: Seq<T>, q: int)
    requires
        e.ring_laws(),
        e.root_laws(),
        x.len() >= 2,
        x.len() % 2 == 0,
        q >= 0,
    ensures
        dft_at(e, x, q) == e.plus(
            dft_at(e, evens(x), q),
            e.times(e.w(q, x.len() as int), dft_at(e, odds(x), q)),
        ),
{
    let h = (x.len() / 2) as nat;
    let n = x.len() as int;
    let c = e.w(q, n);
    let f = dft_term(e, x, q);
    let fe = dft_term(e, evens(x), q);
    let fo = dft_term(e, odds(x), q);
    let g = |j: int| e.times(c, fo(j));
    let p = |j: int| e.plus(fe(j), g(j));
    assert forall|j: int| 0 <= j < h implies #[trigger] p(j) == e.plus(f(2 * j), f(2 * j + 1)) by {
        let r = e.w(j * q, h as int);
        assert(j * q >= 0 && (2 * j) * q == 2 * (j * q) && (2 * j + 1) * q == 2 * (j * q) + q)
            by (nonlinear_arith)
            requires
                j >= 0,
                q >= 0,
        ;
        e.lemma_root_halve(j * q, h as int);
        e.lemma_root_plus(2 * (j * q), q, n);
        assert(f(2 * j) == fe(j));
        assert(f(2 * j + 1) == e.times(x[2 * j + 1], e.times(r, c)));
        e.lemma_times_assoc(x[2 * j + 1], r, c);
        e.lemma_times_comm(e.times(x[2 * j + 1], r), c);
        assert(fo(j) == e.times(x[2 * j + 1], r));
    }
    lemma_sigma_pairs(e, f, p, h);
    lemma_sigma_plus(e, fe, g, p, h);
    lemma_sigma_times(e, c, fo, g, h);
}

/// The coefficients repeat with the length: coefficient `q + n` is
/// coefficient `q`.
pub proof fn lemma_dft_periodic<T>(e: Exact<T>, x: Seq<T>, q: int)
    requires
        e.ring_laws(),
        e.root_laws(),
        x.len() >= 1,
        q >= 0,
    ensures
        dft_at(e, x, q + x.len()) == dft_at(e, x, q),
{
    let n = x.len() as int;
    let f = dft_term(e, x, q + n);
    let g = dft_term(e, x, q);
    assert forall|j: int| 0 <= j < n implies #[trigger] f(j) == g(j) by {
        assert(j * (q + n) == j * q + j * n && j * q >= 0) by (nonlinear_arith)
            requires
                j >= 0,
                q >= 0,
        ;
        e.lemma_root_periodic(j * q, j, n);
    }
    lemma_sigma_same(e, f, g, x.len());
}

/// The transform of one sample is that sample.
pub proof fn lemma_dft_single<T>(e: Exact<T>, x: Seq<T>)
    requires
        e.ring_laws(),
        e.root_laws(),
        x.len() == 1,
    ensures
        dft_at(e, x, 0) == x[0],
{
    let f = dft_term(e, x, 0);
    assert(sigma(e, f, 1) == e.plus(sigma(e, f, 0), f(0)));
    assert(0 * 0 == 0);
    e.lemma_root_zero(1);
    e.lemma_times_one(x[0]);
    e.lemma_plus_zero(x[0]);
}

/// With exact arithmetic the recursive transform computes the discrete
/// Fourier transform of the samples that its base case produces.
pub proof fn lemma_transform_is_dft<T>(
    a: Arith<T>,
    leaf: spec_fn(T, T) -> bool,
    e: Exact<T>,
    f: spec_fn(T) -> T,
    x: Seq<T>,
    out: Seq<T>,
)
    requires
        e.ring_laws(),
        e.root_laws(),
        models(a, e),
        leaf_models(leaf, f),
        power_of_two(x.len()),
        transform(a, leaf, x, out),
    ensures
        out == spectrum(e, x.map_values(f)),
    decreases x.len(),
{
    let y = x.map_values(f);
    let n = x.len() as int;
    if x.len() < 2 {
        lemma_dft_single(e, y);
        assert(out =~= spectrum(e, y));
    } else {
        let h = (x.len() / 2) as int;
        let (even, odd) = choose|even: Seq<T>, odd: Seq<T>|
            {
                &&& #[trigger] halves(even, odd, h)
                &&& transform(a, leaf, evens(x), even)
                &&& transform(a, leaf, odds(x), odd)
                &&& forall|k: int|
                    0 <= k < h ==> butterfly(a, k, n, even[k], odd[k], #[trigger] out[k], out[k + h])
            };
        lemma_transform_is_dft(a, leaf, e, f, evens(x), even);
        lemma_transform_is_dft(a, leaf, e, f, odds(x), odd);
        assert(evens(x).map_values(f) =~= evens(y));
        assert(odds(x).map_values(f) =~= odds(y));
        assert forall|k: int| 0 <= k < n implies out[k] == #[trigger] spectrum(e, y)[k] by {
            let i = if k < h { k } else { k - h };
            assert(butterfly(a, i, n, even[i], odd[i], out[i], out[i + h]));
            let (w, t) = choose|w: T, t: T|
                {
                    &&& (a.twiddle)(i, n, w)
                    &&& #[trigger] (a.times)(w, odd[i], t)
                    &&& (a.plus)(even[i], t, out[i])
                    &&& (a.minus)(even[i], t, out[i + h])
                };
            assert(even[i] == dft_at(e, evens(y), i));
            assert(odd[i] == dft_at(e, odds(y), i));
            assert(w == e.w(i, n));
            if k < h {
                lemma_dft_split(e, y, i);
            } else {
                lemma_dft_split(e, y, i + h);
                lemma_dft_periodic(e, evens(y), i);
                lemma_dft_periodic(e, odds(y), i);
                e.lemma_root_opposite(i, h);
                e.lemma_times_comm(e.neg(w), odd[i]);
                e.lemma_times_neg(odd[i], w);
                e.lemma_times_comm(odd[i], w);
            }
        }
        assert(out =~= spectrum(e, y));
    }
}

/// The conjugate of coefficient `j` of the forward transform of the
/// conjugated samples is the sum of sample `j` of the inverse transform.
pub proof fn lemma_conj_dft_of_conj<T>(e: Exact<T>, x: Seq<T>, j: int)
    requires
        e.ring_laws(),
        e.conj_laws(),
    ensures
        e.conj(dft_at(e, x.map_values(e.conjugate), j)) == sigma(
            e,
            inverse_term(e, x, j),
            x.len(),
        ),
{
    let y = x.map_values(e.conjugate);
    let f = dft_term(e, y, j);
    let g = inverse_term(e, x, j);
    assert forall|k: int| 0 <= k < x.len() implies #[trigger] g(k) == e.conj(f(k)) by {
        let w = e.w(k * j, x.len() as int);
        assert(y[k] == e.conj(x[k]));
        e.lemma_conj_times(y[k], w);
        e.lemma_conj_conj(x[k]);
    }
    lemma_sigma_conj(e, f, g, x.len());
}

/// With exact arithmetic the inverse transform computes the inverse discrete
/// Fourier transform.
pub proof fn lemma_inverse_transform_is_idft<T>(
    a: Arith<T>,
    conj: spec_fn(T, T) -> bool,
    scale: spec_fn(T, int, T) -> bool,
    e: Exact<T>,
    x: Seq<T>,
    out: Seq<T>,
)
    requires
        e.ring_laws(),
        e.root_laws(),
        e.conj_laws(),
        models(a, e),
        leaf_models(conj, e.conjugate),
        scale_models(scale, e),
        power_of_two(x.len()),
        inverse_transform(a, conj, scale, x, out),
    ensures
        out == inverse_spectrum(e, x),
{
    let n = x.len() as int;
    let mid = choose|mid: Seq<T>|
        {
            &&& #[trigger] transform(a, conj, x, mid)
            &&& forall|j: int| 0 <= j < n ==> rescaled(conj, scale, n, mid[j], #[trigger] out[j])
        };
    lemma_transform_is_dft(a, conj, e, e.conjugate, x, mid);
    assert forall|j: int| 0 <= j < n implies out[j] == #[trigger] inverse_spectrum(e, x)[j] by {
        assert(rescaled(conj, scale, n, mid[j], out[j]));
        let c = choose|c: T| #[trigger] conj(mid[j], c) && scale(c, n, out[j]);
        assert(c == e.conj(mid[j]));
        assert(mid[j] == dft_at(e, x.map_values(e.conjugate), j));
        lemma_conj_dft_of_conj(e, x, j);
    }
    assert(out =~= inverse_spectrum(e, x));
}

} // verus!
