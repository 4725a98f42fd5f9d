//! The data flow of the radix-2 decimation-in-time transform, stated as a
//! relation between an input sequence and an output sequence.
//!
//! The sample arithmetic is not fixed here. Each operation is described by a
//! relation that says which results it may return, so the statements hold for
//! any number type, rounding included.

use vstd::prelude::*;

verus! {

/// What the sample arithmetic handed to a transform may return.
#[verifier::reject_recursive_types(T)]
pub struct Arith<T> {
    /// `twiddle(k, n, w)`: `w` may be returned as the twiddle factor
    /// `e^(-2 pi i k / n)`.
    pub twiddle: spec_fn(int, int, T) -> bool,
    /// `times(a, b, r)`: `r` may be returned as the product of `a` and `b`.
    pub times: spec_fn(T, T, T) -> bool,
    /// `plus(a, b, r)`: `r` may be returned as the sum of `a` and `b`.
    pub plus: spec_fn(T, T, T) -> bool,
    /// `minus(a, b, r)`: `r` may be returned as `a` less `b`.
    pub minus: spec_fn(T, T, T) -> bool,
}

/// The relations of four function values.
pub open spec fn arithmetic<T, W, M, A, S>(twiddle: W, times: M, plus: A, minus: S) -> Arith<T>
where
    W: Fn(usize, usize) -> T,
    M: Fn(T, T) -> T,
    A: Fn(T, T) -> T,
    S: Fn(T, T) -> T,
{
    Arith {
        twiddle: |k: int, n: int, w: T|
            0 <= k <= usize::MAX && 0 <= n <= usize::MAX && twiddle.ensures(
                (k as usize, n as usize),
                w,
            ),
        times: |a: T, b: T, r: T| times.ensures((a, b), r),
        plus: |a: T, b: T, r: T| plus.ensures((a, b), r),
        minus: |a: T, b: T, r: T| minus.ensures((a, b), r),
    }
}

/// The four function values may be called on every argument: they neither
/// panic nor ask anything of the samples they are given.
pub open spec fn callable<T, W, M, A, S>(twiddle: W, times: M, plus: A, minus: S) -> bool
where
    W: Fn(usize, usize) -> T,
    M: Fn(T, T) -> T,
    A: Fn(T, T) -> T,
    S: Fn(T, T) -> T,
{
    &&& forall|k: usize, n: usize| k < n ==> #[trigger] twiddle.requires((k, n))
    &&& forall|a: T, b: T| #[trigger] times.requires((a, b))
    &&& forall|a: T, b: T| #[trigger] plus.requires((a, b))
    &&& forall|a: T, b: T| #[trigger] minus.requires((a, b))
}

/// The relation of a function value on one sample, such as a conjugation:
/// `r` may be returned for `v`.
pub open spec fn results_of<T, F: Fn(T) -> T>(f: F) -> spec_fn(T, T) -> bool {
    |v: T, r: T| f.ensures((v,), r)
}

/// The relation of a function value that divides a sample by a count:
/// `r` may be returned for `v` and `n`.
pub open spec fn quotients_of<T, D: Fn(T, usize) -> T>(scale: D) -> spec_fn(T, int, T) -> bool {
    |v: T, n: int, r: T| 0 <= n <= usize::MAX && scale.ensures((v, n as usize), r)
}

/// `n` is 1, 2, 4, 8, ...
pub open spec fn power_of_two(n: nat) -> bool
    decreases n,
{
    n == 1 || (n >= 2 && n % 2 == 0 && power_of_two(n / 2))
}

/// The `n` samples of `x` at `offset`, `offset + stride`, `offset + 2 stride`, ...
pub open spec fn strided<T>(x: Seq<T>, offset: int, stride: int, n: nat) -> Seq<T> {
    Seq::new(n, |j: int| x[offset + j * stride])
}

/// The samples of `x` at the even positions.
pub open spec fn evens<T>(x: Seq<T>) -> Seq<T> {
    Seq::new(x.len() / 2, |j: int| x[2 * j])
}

/// The samples of `x` at the odd positions.
pub open spec fn odds<T>(x: Seq<T>) -> Seq<T> {
    Seq::new(x.len() / 2, |j: int| x[2 * j + 1])
}

/// One butterfly of a length-`n` combine step: with `w` the twiddle factor
/// for `k` and `t = w * odd`, the pair written is `(even + t, even - t)`.
pub open spec fn butterfly<T>(a: Arith<T>, k: int, n: int, even: T, odd: T, low: T, high: T) -> bool {
    exists|w: T, t: T|
        {
            &&& (a.twiddle)(k, n, w)
            &&& #[trigger] (a.times)(w, odd, t)
            &&& (a.plus)(even, t, low)
            &&& (a.minus)(even, t, high)
        }
}

/// `even` and `odd` are the two halves of a result of length `2 h`.
pub open spec fn halves<T>(even: Seq<T>, odd: Seq<T>, h: int) -> bool {
    even.len() == h && odd.len() == h
}

/// `out` is a possible result of the recursive transform of `x`, whose length
/// is a power of two, when every length-1 base case goes through `leaf`.
///
/// For one sample, `out` holds what `leaf` returns for it. For more, the two
/// halves of `out` come from the transforms of the even and of the odd
/// samples, combined pair by pair in butterflies.
pub open spec fn transform<T>(a: Arith<T>, leaf: spec_fn(T, T) -> bool, x: Seq<T>, out: Seq<T>) -> bool
    decreases x.len(),
{
    &&& out.len() == x.len()
    &&& if x.len() < 2 {
        x.len() == 1 && leaf(x[0], out[0])
    } else {
        let h = (x.len() / 2) as int;
        &&& x.len() == 2 * h
        &&& exists|even: Seq<T>, odd: Seq<T>|
            {
                &&& #[trigger] halves(even, odd, h)
                &&& transform(a, leaf, evens(x), even)
                &&& transform(a, leaf, odds(x), odd)
                &&& forall|k: int|
                    0 <= k < h ==> butterfly(
                        a,
                        k,
                        x.len() as int,
                        even[k],
                        odd[k],
                        #[trigger] out[k],
                        out[k + h],
                    )
            }
    }
}

/// A transform of two or more samples is assembled from the transforms of
/// its even and odd samples and one butterfly for each pair of slots.
pub proof fn lemma_transform_combine<T>(
    a: Arith<T>,
    leaf: spec_fn(T, T) -> bool,
    x: Seq<T>,
    out: Seq<T>,
    even: Seq<T>,
    odd: Seq<T>,
)
    requires
        x.len() >= 2,
        x.len() % 2 == 0,
        out.len() == x.len(),
        transform(a, leaf, evens(x), even),
        transform(a, leaf, odds(x), odd),
        forall|k: int|
            0 <= k < x.len() / 2 ==> butterfly(
                a,
                k,
                x.len() as int,
                even[k],
                odd[k],
                #[trigger] out[k],
                out[k + x.len() / 2],
            ),
    ensures
        transform(a, leaf, x, out),
{
    assert(halves(even, odd, (x.len() / 2) as int));
}

/// A transform stays a transform when the base case is allowed more results.
pub proof fn lemma_transform_leaf_weaken<T>(
    a: Arith<T>,
    narrow: spec_fn(T, T) -> bool,
    wide: spec_fn(T, T) -> bool,
    x: Seq<T>,
    out: Seq<T>,
)
    requires
        transform(a, narrow, x, out),
        forall|v: T, r: T| #[trigger] narrow(v, r) ==> wide(v, r),
    ensures
        transform(a, wide, x, out),
    decreases x.len(),
{
    if x.len() >= 2 {
        let h = (x.len() / 2) as int;
        let (even, odd) = choose|even: Seq<T>, odd: Seq<T>|
            {
                &&& #[trigger] halves(even, odd, h)
                &&& transform(a, narrow, evens(x), even)
                &&& transform(a, narrow, odds(x), odd)
                &&& forall|k: int|
                    0 <= k < h ==> butterfly(
                        a,
                        k,
                        x.len() as int,
                        even[k],
                        odd[k],
                        #[trigger] out[k],
                        out[k + h],
                    )
            };
        lemma_transform_leaf_weaken(a, narrow, wide, evens(x), even);
        lemma_transform_leaf_weaken(a, narrow, wide, odds(x), odd);
        lemma_transform_combine(a, wide, x, out, even, odd);
    }
}

/// The base case that hands each sample on unchanged.
pub open spec fn unchanged<T>() -> spec_fn(T, T) -> bool {
    |v: T, r: T| r == v
}

/// `r` is a possible result of conjugating `v` and dividing by the count `n`.
pub open spec fn rescaled<T>(
    conj: spec_fn(T, T) -> bool,
    scale: spec_fn(T, int, T) -> bool,
    n: int,
    v: T,
    r: T,
) -> bool {
    exists|c: T| #[trigger] conj(v, c) && scale(c, n, r)
}

/// `out` is a possible result of the inverse transform of `x`: the shared
/// recursion with conjugation as its base case, and then every slot
/// conjugated again and divided by the number of samples.
pub open spec fn inverse_transform<T>(
    a: Arith<T>,
    conj: spec_fn(T, T) -> bool,
    scale: spec_fn(T, int, T) -> bool,
    x: Seq<T>,
    out: Seq<T>,
) -> bool {
    &&& out.len() == x.len()
    &&& exists|mid: Seq<T>|
        {
            &&& #[trigger] transform(a, conj, x, mid)
            &&& forall|j: int|
                0 <= j < x.len() ==> rescaled(conj, scale, x.len() as int, mid[j], #[trigger] out[j])
        }
}

/// `y` holds, slot by slot, a possible result of `rel` for the sample of `x`.
pub open spec fn pointwise<T>(rel: spec_fn(T, T) -> bool, x: Seq<T>, y: Seq<T>) -> bool {
    &&& y.len() == x.len()
    &&& forall|i: int| 0 <= i < x.len() ==> rel(x[i], #[trigger] y[i])
}

/// The sequence that alternates between the slots of `even` and of `odd`.
pub open spec fn interleave<T>(even: Seq<T>, odd: Seq<T>) -> Seq<T> {
    Seq::new(
        2 * even.len(),
        |i: int|
            if i % 2 == 0 {
                even[i / 2]
            } else {
                odd[i / 2]
            },
    )
}

/// A transform of samples that went through `leaf` beforehand is a transform
/// with `leaf` as its base case.
pub proof fn lemma_transform_leaf_absorb<T>(
    a: Arith<T>,
    leaf: spec_fn(T, T) -> bool,
    x: Seq<T>,
    y: Seq<T>,
    out: Seq<T>,
)
    requires
        pointwise(leaf, x, y),
        transform(a, unchanged(), y, out),
    ensures
        transform(a, leaf, x, out),
    decreases x.len(),
{
    if x.len() >= 2 {
        let h = (x.len() / 2) as int;
        let (even, odd) = choose|even: Seq<T>, odd: Seq<T>|
            {
                &&& #[trigger] halves(even, odd, h)
                &&& transform(a, unchanged(), evens(y), even)
                &&& transform(a, unchanged(), odds(y), odd)
                &&& forall|k: int|
                    0 <= k < h ==> butterfly(
                        a,
                        k,
                        y.len() as int,
                        even[k],
                        odd[k],
                        #[trigger] out[k],
                        out[k + h],
                    )
            };
        assert forall|i: int| 0 <= i < h implies leaf(evens(x)[i], #[trigger] evens(y)[i]) by {
            assert(leaf(x[2 * i], y[2 * i]));
        }
        assert forall|i: int| 0 <= i < h implies leaf(odds(x)[i], #[trigger] odds(y)[i]) by {
            assert(leaf(x[2 * i + 1], y[2 * i + 1]));
        }
        lemma_transform_leaf_absorb(a, leaf, evens(x), evens(y), even);
        lemma_transform_leaf_absorb(a, leaf, odds(x), odds(y), odd);
        lemma_transform_combine(a, leaf, x, out, even, odd);
    } else {
        assert(leaf(x[0], y[0]));
    }
}

/// A transform with `leaf` as its base case is a transform of samples that
/// went through `leaf` beforehand.
pub proof fn lemma_transform_leaf_extract<T>(
    a: Arith<T>,
    leaf: spec_fn(T, T) -> bool,
    x: Seq<T>,
    out: Seq<T>,
) -> (y: Seq<T>)
    requires
        transform(a, leaf, x, out),
    ensures
        pointwise(leaf, x, y),
        transform(a, unchanged(), y, out),
    decreases x.len(),
{
    if x.len() >= 2 {
        let h = (x.len() / 2) as int;
        let (even, odd) = choose|even: Seq<T>, odd: Seq<T>|
            {
                &&& #[trigger] halves(even, odd, h)
                &&& transform(a, leaf, evens(x), even)
                &&& transform(a, leaf, odds(x), odd)
                &&& forall|k: int|
                    0 <= k < h ==> butterfly(
                        a,
                        k,
                        x.len() as int,
                        even[k],
                        odd[k],
                        #[trigger] out[k],
                        out[k + h],
                    )
            };
        let ye = lemma_transform_leaf_extract(a, leaf, evens(x), even);
        let yo = lemma_transform_leaf_extract(a, leaf, odds(x), odd);
        let y = interleave(ye, yo);
        assert(evens(y) =~= ye);
        assert(odds(y) =~= yo);
        assert forall|i: int| 0 <= i < x.len() implies leaf(x[i], #[trigger] y[i]) by {
            if i % 2 == 0 {
                assert(leaf(evens(x)[i / 2], ye[i / 2]));
            } else {
                assert(leaf(odds(x)[i / 2], yo[i / 2]));
            }
        }
        lemma_transform_combine(a, unchanged(), y, out, even, odd);
        y
    } else {
        let y = seq![out[0]];
        assert(transform(a, unchanged(), y, out));
        y
    }
}

} // verus!
