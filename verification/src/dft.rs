//! Forward and inverse discrete Fourier transforms.

use vstd::prelude::*;
use crate::butterfly::{
    arithmetic, butterfly, callable, evens, inverse_transform, lemma_transform_combine,
    lemma_transform_leaf_weaken, odds, power_of_two, quotients_of, rescaled, results_of, strided,
    transform, unchanged,
};
use crate::exact::Exact;
use crate::spectrum::{
    inverse_spectrum, leaf_models, lemma_inverse_transform_is_idft, lemma_transform_is_dft, models,
    scale_models, spectrum,
};

verus! {

/// The recursive radix-2 butterfly that both directions share.
///
/// Transforms the `n` samples of `input` at `in_offset`, `in_offset + stride`,
/// ... into the `n` slots of `output` that start at `out_offset`. Every
/// length-1 base case goes through `leaf`. No other slot of `output` changes.
fn fft<T, F, W, M, A, S>(
    input: &[T],
    output: &mut [T],
    in_offset: usize,
    out_offset: usize,
    n: usize,
    stride: usize,
    leaf: &F,
    twiddle: &W,
    times: &M,
    plus: &A,
    minus: &S,
) where
    T: Copy,
    F: Fn(T) -> T,
    W: Fn(usize, usize) -> T,
    M: Fn(T, T) -> T,
    A: Fn(T, T) -> T,
    S: Fn(T, T) -> T,

    requires
        n >= 1,
        stride >= 1,
        stride * n <= usize::MAX,
        in_offset + stride * (n - 1) < input.len(),
        out_offset + n <= old(output).len(),
        forall|x: T| #[trigger] leaf.requires((x,)),
        callable(*twiddle, *times, *plus, *minus),
    ensures
        final(output).len() == old(output).len(),
        forall|i: int|
            0 <= i < old(output).len() && !(out_offset <= i < out_offset + n) ==> final(output)[i]
                == old(output)[i],
        power_of_two(n as nat) ==> transform(
            arithmetic(*twiddle, *times, *plus, *minus),
            results_of(*leaf),
            strided(input@, in_offset as int, stride as int, n as nat),
            final(output)@.subrange(out_offset as int, out_offset + n),
        ),
    decreases n,
{
    if n == 1 {
        output[out_offset] = leaf(input[in_offset]);
        return ;
    }
    let h: usize = n / 2;
    proof {
        assert(2 * stride <= stride * n && (2 * stride) * h <= stride * n && (2 * stride) * (h - 1)
            + stride <= stride * (n - 1)) by (nonlinear_arith)
            requires
                h >= 1,
                2 * h <= n,
                stride >= 1,
        ;
    }
    fft(input, output, in_offset, out_offset, h, 2 * stride, leaf, twiddle, times, plus, minus);
    let ghost even = output@.subrange(out_offset as int, out_offset + h);
    fft(
        input,
        output,
        in_offset + stride,
        out_offset + h,
        h,
        2 * stride,
        leaf,
        twiddle,
        times,
        plus,
        minus,
    );
    let ghost odd = output@.subrange(out_offset + h, out_offset + 2 * h);
    assert(output@.subrange(out_offset as int, out_offset + h) =~= even);
    let ghost a = arithmetic(*twiddle, *times, *plus, *minus);
    let mut k: usize = 0;
    while k < h
        invariant
            k <= h,
            h == n / 2,
            n >= 2,
            out_offset + n <= output.len(),
            output.len() == old(output).len(),
            callable(*twiddle, *times, *plus, *minus),
            a == arithmetic(*twiddle, *times, *plus, *minus),
            even.len() == h,
            odd.len() == h,
            forall|i: int|
                0 <= i < old(output).len() && !(out_offset <= i < out_offset + n) ==> output[i]
                    == old(output)[i],
            forall|j: int| k <= j < h ==> output[out_offset + j] == even[j],
            forall|j: int| k <= j < h ==> output[out_offset + h + j] == odd[j],
            forall|j: int|
                0 <= j < k ==> butterfly(
                    a,
                    j,
                    n as int,
                    even[j],
                    odd[j],
                    #[trigger] output[out_offset + j],
                    output[out_offset + j + h],
                ),
        decreases h - k,
    {
        let w = twiddle(k, n);
        let t = times(w, output[out_offset + k + h]);
        let e = output[out_offset + k];
        let low = plus(e, t);
        let high = minus(e, t);
        output[out_offset + k] = low;
        output[out_offset + k + h] = high;
        proof {
            assert((a.times)(w, odd[k as int], t));
            assert(butterfly(a, k as int, n as int, even[k as int], odd[k as int], low, high));
        }
        k += 1;
    }
    proof {
        if power_of_two(n as nat) {
            let x = strided(input@, in_offset as int, stride as int, n as nat);
            let out = output@.subrange(out_offset as int, out_offset + n);
            let lf = results_of(*leaf);
            assert(n == 2 * h && power_of_two(h as nat));
            assert(x.len() == n && out.len() == n);
            let xe = strided(input@, in_offset as int, 2 * stride, h as nat);
            let xo = strided(input@, in_offset + stride, 2 * stride, h as nat);
            assert forall|j: int| 0 <= j < h implies #[trigger] evens(x)[j] == xe[j] by {
                assert((2 * j) * stride == j * (2 * stride)) by (nonlinear_arith);
            }
            assert forall|j: int| 0 <= j < h implies #[trigger] odds(x)[j] == xo[j] by {
                assert((2 * j + 1) * stride == stride + j * (2 * stride)) by (nonlinear_arith);
            }
            assert(evens(x) =~= xe);
            assert(odds(x) =~= xo);
            assert(transform(a, lf, evens(x), even));
            assert(transform(a, lf, odds(x), odd));
            assert forall|j: int| 0 <= j < h implies butterfly(
                a,
                j,
                x.len() as int,
                even[j],
                odd[j],
                #[trigger] out[j],
                out[j + h],
            ) by {
                assert(out[j] == output[out_offset + j]);
                assert(out[j + h] == output[out_offset + j + h]);
            }
            lemma_transform_combine(a, lf, x, out, even, odd);
        }
    }
}

/// Computes the forward discrete Fourier transform of `input` into the first
/// `input.len()` slots of `output`.
///
/// The length of `input` is meant to be a power of two; for another length
/// the slots written hold no meaningful result. The slots of `output` past
/// `input.len()` are left as they were, and the earlier contents of the
/// others are never read.
///
/// `twiddle(k, n)` supplies the factor `e^(-2 pi i k / n)`; `times`, `plus`
/// and `minus` are the product, sum and difference of two samples.
pub fn fdft<T, W, M, A, S>(
    input: &[T],
    output: &mut [T],
    twiddle: W,
    times: M,
    plus: A,
    minus: S,
) where
    T: Copy,
    W: Fn(usize, usize) -> T,
    M: Fn(T, T) -> T,
    A: Fn(T, T) -> T,
    S: Fn(T, T) -> T,

    requires
        input.len() >= 1,
        old(output).len() >= input.len(),
        callable(twiddle, times, plus, minus),
    ensures
        final(output).len() == old(output).len(),
        forall|i: int|
            input.len() <= i < old(output).len() ==> final(output)[i] == old(output)[i],
        power_of_two(input.len() as nat) ==> transform(
            arithmetic(twiddle, times, plus, minus),
            unchanged(),
            input@,
            final(output)@.take(input.len() as int),
        ),
        power_of_two(input.len() as nat) ==> forall|e: Exact<T>|
            e.ring_laws() && e.root_laws() && #[trigger] models(
                arithmetic(twiddle, times, plus, minus),
                e,
            ) ==> final(output)@.take(input.len() as int) == spectrum(e, input@),
{
    let n: usize = input.len();
    let keep = |c: T| -> (r: T)
        ensures
            r == c,
        { c };
    assert(1 * n == n && 1 * (n - 1) == n - 1);
    fft(input, output, 0, 0, n, 1, &keep, &twiddle, &times, &plus, &minus);
    proof {
        if power_of_two(n as nat) {
            let x = strided(input@, 0, 1, n as nat);
            assert(x =~= input@);
            assert(output@.subrange(0, 0 + n) =~= output@.take(n as int));
            let a = arithmetic(twiddle, times, plus, minus);
            let out = output@.take(n as int);
            lemma_transform_leaf_weaken(a, results_of(keep), unchanged(), input@, out);
            assert forall|e: Exact<T>|
                e.ring_laws() && e.root_laws() && #[trigger] models(a, e) implies out == spectrum(
                e,
                input@,
            ) by {
                lemma_transform_is_dft(a, unchanged(), e, |v: T| v, input@, out);
                assert(input@.map_values(|v: T| v) =~= input@);
            }
        }
    }
}

/// Computes the inverse discrete Fourier transform of `input` into the first
/// `input.len()` slots of `output`.
///
/// What holds of the lengths and of `output` is the same as for [`fdft`]. The
/// twiddle factors are those of the forward direction: the samples are
/// conjugated by `conj` on the way in, and every slot written is conjugated
/// again and divided by the number of samples, `scale(c, n)` being `c`
/// divided by the real number `n`.
pub fn idft<T, C, W, M, A, S, D>(
    input: &[T],
    output: &mut [T],
    conj: C,
    twiddle: W,
    times: M,
    plus: A,
    minus: S,
    scale: D,
) where
    T: Copy,
    C: Fn(T) -> T,
    W: Fn(usize, usize) -> T,
    M: Fn(T, T) -> T,
    A: Fn(T, T) -> T,
    S: Fn(T, T) -> T,
    D: Fn(T, usize) -> T,

    requires
        input.len() >= 1,
        old(output).len() >= input.len(),
        callable(twiddle, times, plus, minus),
        forall|v: T| #[trigger] conj.requires((v,)),
        forall|v: T, n: usize| n >= 1 ==> #[trigger] scale.requires((v, n)),
    ensures
        final(output).len() == old(output).len(),
        forall|i: int|
            input.len() <= i < old(output).len() ==> final(output)[i] == old(output)[i],
        power_of_two(input.len() as nat) ==> inverse_transform(
            arithmetic(twiddle, times, plus, minus),
            results_of(conj),
            quotients_of(scale),
            input@,
            final(output)@.take(input.len() as int),
        ),
        power_of_two(input.len() as nat) ==> forall|e: Exact<T>|
            e.ring_laws() && e.root_laws() && e.conj_laws() && #[trigger] models(
                arithmetic(twiddle, times, plus, minus),
                e,
            ) && leaf_models(results_of(conj), e.conjugate) && scale_models(quotients_of(scale), e)
                ==> final(output)@.take(input.len() as int) == inverse_spectrum(e, input@),
{
    let n: usize = input.len();
    assert(1 * n == n && 1 * (n - 1) == n - 1);
    fft(input, output, 0, 0, n, 1, &conj, &twiddle, &times, &plus, &minus);
    let ghost mid = output@.take(n as int);
    let mut j: usize = 0;
    while j < n
        invariant
            j <= n,
            n == input.len(),
            n >= 1,
            n <= output.len(),
            output.len() == old(output).len(),
            mid.len() == n,
            forall|v: T| #[trigger] conj.requires((v,)),
            forall|v: T, n: usize| n >= 1 ==> #[trigger] scale.requires((v, n)),
            forall|i: int| n <= i < old(output).len() ==> output[i] == old(output)[i],
            forall|i: int| j <= i < n ==> output[i] == mid[i],
            forall|i: int|
                0 <= i < j ==> rescaled(
                    results_of(conj),
                    quotients_of(scale),
                    n as int,
                    mid[i],
                    #[trigger] output[i],
                ),
        decreases n - j,
    {
        let c = conj(output[j]);
        let r = scale(c, n);
        output[j] = r;
        proof {
            assert(results_of(conj)(mid[j as int], c));
            assert(rescaled(results_of(conj), quotients_of(scale), n as int, mid[j as int], r));
        }
        j += 1;
    }
    proof {
        if power_of_two(n as nat) {
            let a = arithmetic(twiddle, times, plus, minus);
            let out = output@.take(n as int);
            assert(strided(input@, 0, 1, n as nat) =~= input@);
            assert forall|i: int| 0 <= i < n implies rescaled(
                results_of(conj),
                quotients_of(scale),
                n as int,
                mid[i],
                #[trigger] out[i],
            ) by {
                assert(out[i] == output[i]);
            }
            assert(transform(a, results_of(conj), input@, mid));
            assert forall|e: Exact<T>|
                e.ring_laws() && e.root_laws() && e.conj_laws() && #[trigger] models(a, e)
                    && leaf_models(results_of(conj), e.conjugate) && scale_models(
                    quotients_of(scale),
                    e,
                ) implies out == inverse_spectrum(e, input@) by {
                lemma_inverse_transform_is_idft(
                    a,
                    results_of(conj),
                    quotients_of(scale),
                    e,
                    input@,
                    out,
                );
            }
        }
    }
}

} // verus!
