//! The roots of unity of a power-of-two order add up to zero, and what
//! follows for the products of forward and inverse twiddle factors.

use vstd::prelude::*;
use crate::butterfly::power_of_two;
use crate::exact::Exact;
use crate::series::{
    lemma_sigma_append, lemma_sigma_conj, lemma_sigma_constant, lemma_sigma_same,
    lemma_sigma_times, sigma,
};

verus! {

/// The powers `e^(-2 pi i m k / n)` of the `m`-th root of order `n`, by `k`.
pub open spec fn root_powers<T>(e: Exact<T>, m: int, n: int) -> spec_fn(int) -> T {
    |k: int| e.w(m * k, n)
}

/// `e^(-2 pi i l k / n) * e^(+2 pi i k j / n)`, by `k`.
pub open spec fn kernel<T>(e: Exact<T>, l: int, j: int, n: int) -> spec_fn(int) -> T {
    |k: int| e.times(e.w(l * k, n), e.conj(e.w(k * j, n)))
}

/// For `n` a power of two and `0 < m < n`, the `n` powers of the `m`-th root
/// of order `n` add up to zero.
pub proof fn lemma_roots_cancel<T>(e: Exact<T>, m: int, n: nat)
    requires
        e.ring_laws(),
        e.root_laws(),
        power_of_two(n),
        0 < m < n,
    ensures
        sigma(e, root_powers(e, m, n as int), n) == e.zero,
    decreases n,
{
    let h = (n / 2) as nat;
    let hi = h as int;
    let f = root_powers(e, m, n as int);
    let g = |k: int| f(hi + k);
    assert(n == 2 * h && h >= 1 && power_of_two(h));
    assert(h + h == n);
    lemma_sigma_append(e, f, g, h, h);
    if m % 2 == 1 {
        let u = m / 2;
        let minus_one = e.neg(e.one);
        assert forall|k: int| 0 <= k < h implies #[trigger] g(k) == e.times(minus_one, f(k)) by {
            assert(m * (hi + k) == m * k + (2 * (u * hi) + hi) && m * k >= 0 && u * hi >= 0
                && 0 + u * hi == u * hi) by (nonlinear_arith)
                requires
                    m == 2 * u + 1,
                    u >= 0,
                    k >= 0,
                    hi >= 1,
            ;
            e.lemma_root_plus(m * k, 2 * (u * hi) + hi, 2 * hi);
            e.lemma_root_plus(2 * (u * hi), hi, 2 * hi);
            e.lemma_root_halve(u * hi, hi);
            e.lemma_root_periodic(0, u, hi);
            e.lemma_root_zero(hi);
            e.lemma_root_half_turn(hi);
            e.lemma_times_one(minus_one);
            e.lemma_times_comm(f(k), minus_one);
        }
        lemma_sigma_times(e, minus_one, f, g, h);
        let s = sigma(e, f, h);
        e.lemma_times_comm(minus_one, s);
        e.lemma_times_neg(s, e.one);
        e.lemma_times_one(s);
        e.lemma_plus_neg(s);
    } else {
        let u = m / 2;
        let r = root_powers(e, u, hi);
        assert forall|k: int| 0 <= k < h implies #[trigger] f(k) == r(k) by {
            assert(m * k == 2 * (u * k) && u * k >= 0) by (nonlinear_arith)
                requires
                    m == 2 * u,
                    u >= 0,
                    k >= 0,
            ;
            e.lemma_root_halve(u * k, hi);
        }
        assert forall|k: int| 0 <= k < h implies #[trigger] g(k) == r(k) by {
            assert(m * (hi + k) == 2 * (u * k + u * hi) && u * k >= 0 && u * k + u * hi >= 0)
                by (nonlinear_arith)
                requires
                    m == 2 * u,
                    u >= 0,
                    k >= 0,
                    hi >= 1,
            ;
            e.lemma_root_halve(u * k + u * hi, hi);
            e.lemma_root_periodic(u * k, u, hi);
        }
        lemma_sigma_same(e, f, r, h);
        lemma_sigma_same(e, g, r, h);
        lemma_roots_cancel(e, u, h);
        e.lemma_plus_zero(e.zero);
    }
}

/// For `n` a power of two and `l`, `j` below `n`, the sum over `k` of
/// `e^(-2 pi i l k / n) * e^(+2 pi i k j / n)` is `n` where `l == j`, and
/// zero elsewhere.
pub proof fn lemma_kernel_sum<T>(e: Exact<T>, l: int, j: int, n: nat)
    requires
        e.ring_laws(),
        e.root_laws(),
        e.conj_laws(),
        e.circle_laws(),
        power_of_two(n),
        0 <= l < n,
        0 <= j < n,
    ensures
        sigma(e, kernel(e, l, j, n as int), n) == if l == j {
            e.multiple(e.one, n as int)
        } else {
            e.zero
        },
{
    let ni = n as int;
    let f = kernel(e, l, j, ni);
    if l == j {
        assert forall|k: int| 0 <= k < n implies #[trigger] f(k) == e.one by {
            assert(l * k == k * j && l * k >= 0) by (nonlinear_arith)
                requires
                    l == j,
                    l >= 0,
                    k >= 0,
            ;
            e.lemma_root_unit(l * k, ni);
        }
        lemma_sigma_constant(e, f, e.one, n);
    } else if l > j {
        let m = l - j;
        let r = root_powers(e, m, ni);
        assert forall|k: int| 0 <= k < n implies #[trigger] f(k) == r(k) by {
            assert(l * k == m * k + k * j && m * k >= 0 && k * j >= 0) by (nonlinear_arith)
                requires
                    m == l - j,
                    m >= 0,
                    j >= 0,
                    k >= 0,
            ;
            let a = e.w(m * k, ni);
            let b = e.w(k * j, ni);
            e.lemma_root_plus(m * k, k * j, ni);
            e.lemma_times_assoc(a, b, e.conj(b));
            e.lemma_root_unit(k * j, ni);
            e.lemma_times_one(a);
        }
        lemma_sigma_same(e, f, r, n);
        lemma_roots_cancel(e, m, n);
    } else {
        let m = j - l;
        let r = root_powers(e, m, ni);
        assert forall|k: int| 0 <= k < n implies #[trigger] f(k) == e.conj(r(k)) by {
            assert(k * j == m * k + l * k && m * k >= 0 && l * k >= 0) by (nonlinear_arith)
                requires
                    m == j - l,
                    m >= 0,
                    l >= 0,
                    k >= 0,
            ;
            let a = e.w(m * k, ni);
            let b = e.w(l * k, ni);
            e.lemma_root_plus(m * k, l * k, ni);
            e.lemma_conj_times(a, b);
            e.lemma_times_comm(e.conj(a), e.conj(b));
            e.lemma_times_assoc(b, e.conj(b), e.conj(a));
            e.lemma_root_unit(l * k, ni);
            e.lemma_times_one(e.conj(a));
        }
        lemma_sigma_conj(e, r, f, n);
        lemma_roots_cancel(e, m, n);
        e.lemma_conj_zero();
    }
}

} // verus!
