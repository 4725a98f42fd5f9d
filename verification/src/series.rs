//! Finite sums in an exact number system.

use vstd::prelude::*;
use crate::exact::Exact;

verus! {

/// `f(0) + f(1) + ... + f(n - 1)`.
pub open spec fn sigma<T>(e: Exact<T>, f: spec_fn(int) -> T, n: nat) -> T
    decreases n,
{
    if n == 0 {
        e.zero
    } else {
        e.plus(sigma(e, f, (n - 1) as nat), f(n - 1))
    }
}

/// Sums of equal terms are equal.
pub proof fn lemma_sigma_same<T>(e: Exact<T>, f: spec_fn(int) -> T, g: spec_fn(int) -> T, n: nat)
    requires
        forall|j: int| 0 <= j < n ==> #[trigger] f(j) == g(j),
    ensures
        sigma(e, f, n) == sigma(e, g, n),
    decreases n,
{
    if n > 0 {
        lemma_sigma_same(e, f, g, (n - 1) as nat);
        assert(f(n - 1) == g(n - 1));
    }
}

/// The sum of `f(j) + g(j)` is the sum of the `f(j)` plus the sum of the `g(j)`.
pub proof fn lemma_sigma_plus<T>(
    e: Exact<T>,
    f: spec_fn(int) -> T,
    g: spec_fn(int) -> T,
    h: spec_fn(int) -> T,
    n: nat,
)
    requires
        e.ring_laws(),
        forall|j: int| 0 <= j < n ==> #[trigger] h(j) == e.plus(f(j), g(j)),
    ensures
        sigma(e, h, n) == e.plus(sigma(e, f, n), sigma(e, g, n)),
    decreases n,
{
    if n > 0 {
        let m = (n - 1) as nat;
        lemma_sigma_plus(e, f, g, h, m);
        assert(h(n - 1) == e.plus(f(n - 1), g(n - 1)));
        e.lemma_plus_interchange(sigma(e, f, m), sigma(e, g, m), f(n - 1), g(n - 1));
    } else {
        e.lemma_plus_zero(e.zero);
    }
}

/// The sum of `c * f(j)` is `c` times the sum of the `f(j)`.
pub proof fn lemma_sigma_times<T>(
    e: Exact<T>,
    c: T,
    f: spec_fn(int) -> T,
    h: spec_fn(int) -> T,
    n: nat,
)
    requires
        e.ring_laws(),
        forall|j: int| 0 <= j < n ==> #[trigger] h(j) == e.times(c, f(j)),
    ensures
        sigma(e, h, n) == e.times(c, sigma(e, f, n)),
    decreases n,
{
    if n > 0 {
        let m = (n - 1) as nat;
        lemma_sigma_times(e, c, f, h, m);
        assert(h(n - 1) == e.times(c, f(n - 1)));
        e.lemma_distributive(c, sigma(e, f, m), f(n - 1));
    } else {
        e.lemma_times_zero(c);
    }
}

/// A sum of `2 n` terms is the sum of its `n` pairs of neighbours.
pub proof fn lemma_sigma_pairs<T>(e: Exact<T>, f: spec_fn(int) -> T, h: spec_fn(int) -> T, n: nat)
    requires
        e.ring_laws(),
        forall|j: int| 0 <= j < n ==> #[trigger] h(j) == e.plus(f(2 * j), f(2 * j + 1)),
    ensures
        sigma(e, f, 2 * n) == sigma(e, h, n),
    decreases n,
{
    if n > 0 {
        let m = (n - 1) as nat;
        lemma_sigma_pairs(e, f, h, m);
        assert(h(n - 1) == e.plus(f(2 * (n - 1)), f(2 * (n - 1) + 1)));
        let s = sigma(e, f, 2 * m);
        assert(sigma(e, f, (2 * n - 1) as nat) == e.plus(s, f(2 * n - 2)));
        assert(sigma(e, f, 2 * n) == e.plus(sigma(e, f, (2 * n - 1) as nat), f(2 * n - 1)));
        e.lemma_plus_assoc(s, f(2 * n - 2), f(2 * n - 1));
    }
}

/// A sum of zeros is zero.
pub proof fn lemma_sigma_zero<T>(e: Exact<T>, f: spec_fn(int) -> T, n: nat)
    requires
        e.ring_laws(),
        forall|j: int| 0 <= j < n ==> #[trigger] f(j) == e.zero,
    ensures
        sigma(e, f, n) == e.zero,
    decreases n,
{
    if n > 0 {
        lemma_sigma_zero(e, f, (n - 1) as nat);
        assert(f(n - 1) == e.zero);
        e.lemma_plus_zero(e.zero);
    }
}

/// The sum of the conjugates is the conjugate of the sum.
pub proof fn lemma_sigma_conj<T>(e: Exact<T>, f: spec_fn(int) -> T, h: spec_fn(int) -> T, n: nat)
    requires
        e.ring_laws(),
        e.conj_laws(),
        forall|j: int| 0 <= j < n ==> #[trigger] h(j) == e.conj(f(j)),
    ensures
        sigma(e, h, n) == e.conj(sigma(e, f, n)),
    decreases n,
{
    if n > 0 {
        let m = (n - 1) as nat;
        lemma_sigma_conj(e, f, h, m);
        assert(h(n - 1) == e.conj(f(n - 1)));
        e.lemma_conj_plus(sigma(e, f, m), f(n - 1));
    } else {
        e.lemma_conj_zero();
    }
}

/// A sum of `n` equal terms is that many copies of the term.
pub proof fn lemma_sigma_constant<T>(e: Exact<T>, f: spec_fn(int) -> T, a: T, n: nat)
    requires
        forall|j: int| 0 <= j < n ==> #[trigger] f(j) == a,
    ensures
        sigma(e, f, n) == e.multiple(a, n as int),
    decreases n,
{
    if n > 0 {
        lemma_sigma_constant(e, f, a, (n - 1) as nat);
        assert(f(n - 1) == a);
    }
}

/// A sum whose terms are zero but for term `i` is term `i`.
pub proof fn lemma_sigma_single<T>(e: Exact<T>, f: spec_fn(int) -> T, i: int, n: nat)
    requires
        e.ring_laws(),
        0 <= i < n,
        forall|j: int| 0 <= j < n && j != i ==> #[trigger] f(j) == e.zero,
    ensures
        sigma(e, f, n) == f(i),
    decreases n,
{
    let m = (n - 1) as nat;
    if i == n - 1 {
        lemma_sigma_zero(e, f, m);
        e.lemma_plus_zero(f(i));
    } else {
        lemma_sigma_single(e, f, i, m);
        assert(f(n - 1) == e.zero);
        e.lemma_plus_zero(f(i));
    }
}

/// A sum of `m + n` terms is the sum of the first `m` plus the sum of the
/// `n` that follow.
pub proof fn lemma_sigma_append<T>(
    e: Exact<T>,
    f: spec_fn(int) -> T,
    g: spec_fn(int) -> T,
    m: nat,
    n: nat,
)
    requires
        e.ring_laws(),
        forall|j: int| 0 <= j < n ==> #[trigger] g(j) == f(m + j),
    ensures
        sigma(e, f, m + n) == e.plus(sigma(e, f, m), sigma(e, g, n)),
    decreases n,
{
    if n > 0 {
        let p = (n - 1) as nat;
        lemma_sigma_append(e, f, g, m, p);
        assert(g(n - 1) == f(m + (n - 1)));
        assert(sigma(e, f, m + n) == e.plus(sigma(e, f, m + p), f(m + n - 1)));
        e.lemma_plus_assoc(sigma(e, f, m), sigma(e, g, p), g(n - 1));
    } else {
        e.lemma_plus_zero(sigma(e, f, m));
    }
}

/// Row `k` of a table of terms.
pub open spec fn row<T>(table: spec_fn(int, int) -> T, k: int) -> spec_fn(int) -> T {
    |l: int| table(k, l)
}

/// Column `l` of a table of terms.
pub open spec fn column<T>(table: spec_fn(int, int) -> T, l: int) -> spec_fn(int) -> T {
    |k: int| table(k, l)
}

/// Adding up a table of `n` rows and `m` columns row by row or column by
/// column gives the same sum.
pub proof fn lemma_sigma_exchange<T>(
    e: Exact<T>,
    table: spec_fn(int, int) -> T,
    rows: spec_fn(int) -> T,
    columns: spec_fn(int) -> T,
    n: nat,
    m: nat,
)
    requires
        e.ring_laws(),
        forall|k: int| 0 <= k < n ==> #[trigger] rows(k) == sigma(e, row(table, k), m),
        forall|l: int| 0 <= l < m ==> #[trigger] columns(l) == sigma(e, column(table, l), n),
    ensures
        sigma(e, rows, n) == sigma(e, columns, m),
    decreases n,
{
    if n > 0 {
        let p = (n - 1) as nat;
        let shorter = |l: int| sigma(e, column(table, l), p);
        let last = row(table, n - 1);
        lemma_sigma_exchange(e, table, rows, shorter, p, m);
        assert forall|l: int| 0 <= l < m implies #[trigger] columns(l) == e.plus(
            shorter(l),
            last(l),
        ) by {
            assert(column(table, l)(n - 1) == last(l));
        }
        lemma_sigma_plus(e, shorter, last, columns, m);
        assert(rows(n - 1) == sigma(e, last, m));
    } else {
        assert forall|l: int| 0 <= l < m implies #[trigger] columns(l) == e.zero by {}
        lemma_sigma_zero(e, columns, m);
    }
}

} // verus!
