//! Exact arithmetic on samples: the number system that the operations handed
//! to a transform approximate.
//!
//! An [`Exact`] value names one function for each operation. The laws that
//! the theorems of this crate ask of it are those of a commutative ring that
//! holds all roots of unity `e^(-2 pi i k / n)`. Arithmetic that rounds does
//! not meet them; the complex numbers do.

use vstd::prelude::*;

verus! {

/// A number system on `T`, given by its constants and operations.
#[verifier::reject_recursive_types(T)]
pub struct Exact<T> {
    /// The additive identity.
    pub zero: T,
    /// The multiplicative identity.
    pub one: T,
    /// The sum of two numbers.
    pub sum: spec_fn(T, T) -> T,
    /// The additive inverse of a number.
    pub opposite: spec_fn(T) -> T,
    /// The product of two numbers.
    pub product: spec_fn(T, T) -> T,
    /// `root(k, n)` is `e^(-2 pi i k / n)`.
    pub root: spec_fn(int, int) -> T,
    /// The complex conjugate of a number.
    pub conjugate: spec_fn(T) -> T,
    /// `quotient(a, n)` is `a` divided by the count `n`.
    pub quotient: spec_fn(T, int) -> T,
}

impl<T> Exact<T> {
    /// `a + b`.
    pub open spec fn plus(self, a: T, b: T) -> T {
        (self.sum)(a, b)
    }

    /// `-a`.
    pub open spec fn neg(self, a: T) -> T {
        (self.opposite)(a)
    }

    /// `a - b`.
    pub open spec fn minus(self, a: T, b: T) -> T {
        self.plus(a, self.neg(b))
    }

    /// `a * b`.
    pub open spec fn times(self, a: T, b: T) -> T {
        (self.product)(a, b)
    }

    /// `e^(-2 pi i k / n)`.
    pub open spec fn w(self, k: int, n: int) -> T {
        (self.root)(k, n)
    }

    /// The complex conjugate of `a`.
    pub open spec fn conj(self, a: T) -> T {
        (self.conjugate)(a)
    }

    /// `a / n` for a count `n`.
    pub open spec fn over(self, a: T, n: int) -> T {
        (self.quotient)(a, n)
    }

    /// `a + a + ... + a`, with `n` terms.
    pub open spec fn multiple(self, a: T, n: int) -> T
        decreases n,
    {
        if n <= 0 {
            self.zero
        } else {
            self.plus(self.multiple(a, n - 1), a)
        }
    }

    /// The laws of a commutative ring.
    #[verifier::opaque]
    pub open spec fn ring_laws(self) -> bool {
        &&& forall|a: T, b: T| #[trigger] self.plus(a, b) == self.plus(b, a)
        &&& forall|a: T, b: T, c: T| #[trigger]
            self.plus(self.plus(a, b), c) == self.plus(a, self.plus(b, c))
        &&& forall|a: T| #[trigger] self.plus(a, self.zero) == a
        &&& forall|a: T| self.plus(a, #[trigger] self.neg(a)) == self.zero
        &&& forall|a: T, b: T| #[trigger] self.times(a, b) == self.times(b, a)
        &&& forall|a: T, b: T, c: T| #[trigger]
            self.times(self.times(a, b), c) == self.times(a, self.times(b, c))
        &&& forall|a: T| #[trigger] self.times(a, self.one) == a
        &&& forall|a: T, b: T, c: T| #[trigger]
            self.times(a, self.plus(b, c)) == self.plus(self.times(a, b), self.times(a, c))
    }

    /// The laws of the roots of unity, for `j`, `k` from zero and `n` from
    /// one: `root(0, n)` is one, `root(j + k, n)` is the product of
    /// `root(j, n)` and `root(k, n)`, `root(2 k, 2 n)` is `root(k, n)`, and
    /// `root(n, 2 n)`, half a turn, is `-1`.
    #[verifier::opaque]
    pub open spec fn root_laws(self) -> bool {
        &&& forall|n: int| n >= 1 ==> #[trigger] self.w(0, n) == self.one
        &&& forall|j: int, k: int, n: int|
            j >= 0 && k >= 0 && n >= 1 ==> #[trigger] self.w(j + k, n) == self.times(
                self.w(j, n),
                self.w(k, n),
            )
        &&& forall|k: int, n: int|
            k >= 0 && n >= 1 ==> #[trigger] self.w(2 * k, 2 * n) == self.w(k, n)
        &&& forall|n: int| n >= 1 ==> #[trigger] self.w(n, 2 * n) == self.neg(self.one)
    }

    /// Conjugation is an involution that respects sums and products.
    #[verifier::opaque]
    pub open spec fn conj_laws(self) -> bool {
        &&& forall|a: T| #[trigger] self.conj(self.conj(a)) == a
        &&& forall|a: T, b: T| #[trigger]
            self.conj(self.plus(a, b)) == self.plus(self.conj(a), self.conj(b))
        &&& forall|a: T, b: T| #[trigger]
            self.conj(self.times(a, b)) == self.times(self.conj(a), self.conj(b))
    }

    /// Every root of unity times its conjugate is one.
    #[verifier::opaque]
    pub open spec fn circle_laws(self) -> bool {
        forall|k: int, n: int|
            k >= 0 && n >= 1 ==> self.times(#[trigger] self.w(k, n), self.conj(self.w(k, n)))
                == self.one
    }

    /// Dividing the sum of `n` copies of a number by `n` gives the number back.
    #[verifier::opaque]
    pub open spec fn quotient_laws(self) -> bool {
        forall|a: T, n: int| n >= 1 ==> self.over(#[trigger] self.multiple(a, n), n) == a
    }

    /// `a + b == b + a`.
    pub proof fn lemma_plus_comm(self, a: T, b: T)
        requires
            self.ring_laws(),
        ensures
            self.plus(a, b) == self.plus(b, a),
    {
        reveal(Exact::ring_laws);
    }

    /// `(a + b) + c == a + (b + c)`.
    pub proof fn lemma_plus_assoc(self, a: T, b: T, c: T)
        requires
            self.ring_laws(),
        ensures
            self.plus(self.plus(a, b), c) == self.plus(a, self.plus(b, c)),
    {
        reveal(Exact::ring_laws);
    }

    /// `a + 0 == a` and `0 + a == a`.
    pub proof fn lemma_plus_zero(self, a: T)
        requires
            self.ring_laws(),
        ensures
            self.plus(a, self.zero) == a,
            self.plus(self.zero, a) == a,
    {
        reveal(Exact::ring_laws);
    }

    /// `a + -a == 0` and `-a + a == 0`.
    pub proof fn lemma_plus_neg(self, a: T)
        requires
            self.ring_laws(),
        ensures
            self.plus(a, self.neg(a)) == self.zero,
            self.plus(self.neg(a), a) == self.zero,
    {
        reveal(Exact::ring_laws);
    }

    /// `a * b == b * a`.
    pub proof fn lemma_times_comm(self, a: T, b: T)
        requires
            self.ring_laws(),
        ensures
            self.times(a, b) == self.times(b, a),
    {
        reveal(Exact::ring_laws);
    }

    /// `(a * b) * c == a * (b * c)`.
    pub proof fn lemma_times_assoc(self, a: T, b: T, c: T)
        requires
            self.ring_laws(),
        ensures
            self.times(self.times(a, b), c) == self.times(a, self.times(b, c)),
    {
        reveal(Exact::ring_laws);
    }

    /// `a * 1 == a` and `1 * a == a`.
    pub proof fn lemma_times_one(self, a: T)
        requires
            self.ring_laws(),
        ensures
            self.times(a, self.one) == a,
            self.times(self.one, a) == a,
    {
        reveal(Exact::ring_laws);
    }

    /// `a * (b + c) == a * b + a * c`.
    pub proof fn lemma_distributive(self, a: T, b: T, c: T)
        requires
            self.ring_laws(),
        ensures
            self.times(a, self.plus(b, c)) == self.plus(self.times(a, b), self.times(a, c)),
    {
        reveal(Exact::ring_laws);
    }

    /// `(a + b) + (c + d) == (a + c) + (b + d)`.
    pub proof fn lemma_plus_interchange(self, a: T, b: T, c: T, d: T)
        requires
            self.ring_laws(),
        ensures
            self.plus(self.plus(a, b), self.plus(c, d)) == self.plus(
                self.plus(a, c),
                self.plus(b, d),
            ),
    {
        self.lemma_plus_assoc(a, b, self.plus(c, d));
        self.lemma_plus_assoc(b, c, d);
        self.lemma_plus_comm(b, c);
        self.lemma_plus_assoc(c, b, d);
        self.lemma_plus_assoc(a, c, self.plus(b, d));
    }

    /// A number whose sum with `a` is zero is `-a`.
    pub proof fn lemma_neg_unique(self, a: T, b: T)
        requires
            self.ring_laws(),
            self.plus(a, b) == self.zero,
        ensures
            b == self.neg(a),
    {
        self.lemma_plus_zero(b);
        self.lemma_plus_neg(a);
        self.lemma_plus_assoc(b, a, self.neg(a));
        self.lemma_plus_comm(b, a);
        self.lemma_plus_zero(self.neg(a));
    }

    /// `a * 0 == 0`.
    pub proof fn lemma_times_zero(self, a: T)
        requires
            self.ring_laws(),
        ensures
            self.times(a, self.zero) == self.zero,
    {
        let z = self.times(a, self.zero);
        self.lemma_plus_zero(self.zero);
        self.lemma_distributive(a, self.zero, self.zero);
        assert(self.plus(z, z) == z);
        self.lemma_plus_assoc(z, z, self.neg(z));
        self.lemma_plus_neg(z);
        self.lemma_plus_zero(z);
    }

    /// `a * -b == -(a * b)`.
    pub proof fn lemma_times_neg(self, a: T, b: T)
        requires
            self.ring_laws(),
        ensures
            self.times(a, self.neg(b)) == self.neg(self.times(a, b)),
    {
        self.lemma_distributive(a, b, self.neg(b));
        self.lemma_plus_neg(b);
        self.lemma_times_zero(a);
        self.lemma_neg_unique(self.times(a, b), self.times(a, self.neg(b)));
    }

    /// `-(-a) == a`.
    pub proof fn lemma_neg_neg(self, a: T)
        requires
            self.ring_laws(),
        ensures
            self.neg(self.neg(a)) == a,
    {
        self.lemma_plus_neg(a);
        self.lemma_neg_unique(self.neg(a), a);
    }

    /// `root(0, n) == 1`.
    pub proof fn lemma_root_zero(self, n: int)
        requires
            self.root_laws(),
            n >= 1,
        ensures
            self.w(0, n) == self.one,
    {
        reveal(Exact::root_laws);
    }

    /// `root(j + k, n) == root(j, n) * root(k, n)`.
    pub proof fn lemma_root_plus(self, j: int, k: int, n: int)
        requires
            self.root_laws(),
            j >= 0,
            k >= 0,
            n >= 1,
        ensures
            self.w(j + k, n) == self.times(self.w(j, n), self.w(k, n)),
    {
        reveal(Exact::root_laws);
    }

    /// `root(2 k, 2 n) == root(k, n)`.
    pub proof fn lemma_root_halve(self, k: int, n: int)
        requires
            self.root_laws(),
            k >= 0,
            n >= 1,
        ensures
            self.w(2 * k, 2 * n) == self.w(k, n),
    {
        reveal(Exact::root_laws);
    }

    /// `root(n, 2 n) == -1`.
    pub proof fn lemma_root_half_turn(self, n: int)
        requires
            self.root_laws(),
            n >= 1,
        ensures
            self.w(n, 2 * n) == self.neg(self.one),
    {
        reveal(Exact::root_laws);
    }

    /// `root(n, n) == 1`.
    pub proof fn lemma_root_full_turn(self, n: int)
        requires
            self.ring_laws(),
            self.root_laws(),
            n >= 1,
        ensures
            self.w(n, n) == self.one,
    {
        let m = self.neg(self.one);
        self.lemma_root_halve(n, n);
        self.lemma_root_plus(n, n, 2 * n);
        self.lemma_root_half_turn(n);
        self.lemma_times_neg(m, self.one);
        self.lemma_times_one(m);
        self.lemma_neg_neg(self.one);
    }

    /// `root(k + j n, n) == root(k, n)`.
    pub proof fn lemma_root_periodic(self, k: int, j: int, n: int)
        requires
            self.ring_laws(),
            self.root_laws(),
            k >= 0,
            j >= 0,
            n >= 1,
        ensures
            self.w(k + j * n, n) == self.w(k, n),
        decreases j,
    {
        if j > 0 {
            self.lemma_root_periodic(k, j - 1, n);
            assert(k + j * n == (k + (j - 1) * n) + n && (j - 1) * n >= 0) by (nonlinear_arith)
                requires
                    j >= 1,
                    n >= 1,
            ;
            self.lemma_root_plus(k + (j - 1) * n, n, n);
            self.lemma_root_full_turn(n);
            self.lemma_times_one(self.w(k, n));
        } else {
            assert(k + j * n == k) by (nonlinear_arith)
                requires
                    j == 0,
            ;
        }
    }

    /// `root(k + n, 2 n) == -root(k, 2 n)`.
    pub proof fn lemma_root_opposite(self, k: int, n: int)
        requires
            self.ring_laws(),
            self.root_laws(),
            k >= 0,
            n >= 1,
        ensures
            self.w(k + n, 2 * n) == self.neg(self.w(k, 2 * n)),
    {
        self.lemma_root_plus(k, n, 2 * n);
        self.lemma_root_half_turn(n);
        self.lemma_times_neg(self.w(k, 2 * n), self.one);
        self.lemma_times_one(self.w(k, 2 * n));
    }

    /// The conjugate of the conjugate of `a` is `a`.
    pub proof fn lemma_conj_conj(self, a: T)
        requires
            self.conj_laws(),
        ensures
            self.conj(self.conj(a)) == a,
    {
        reveal(Exact::conj_laws);
    }

    /// The conjugate of a sum is the sum of the conjugates.
    pub proof fn lemma_conj_plus(self, a: T, b: T)
        requires
            self.conj_laws(),
        ensures
            self.conj(self.plus(a, b)) == self.plus(self.conj(a), self.conj(b)),
    {
        reveal(Exact::conj_laws);
    }

    /// The conjugate of a product is the product of the conjugates.
    pub proof fn lemma_conj_times(self, a: T, b: T)
        requires
            self.conj_laws(),
        ensures
            self.conj(self.times(a, b)) == self.times(self.conj(a), self.conj(b)),
    {
        reveal(Exact::conj_laws);
    }

    /// The conjugate of zero is zero.
    pub proof fn lemma_conj_zero(self)
        requires
            self.ring_laws(),
            self.conj_laws(),
        ensures
            self.conj(self.zero) == self.zero,
    {
        let z = self.conj(self.zero);
        self.lemma_plus_zero(self.zero);
        self.lemma_conj_plus(self.zero, self.zero);
        assert(self.plus(z, z) == z);
        self.lemma_plus_assoc(z, z, self.neg(z));
        self.lemma_plus_neg(z);
        self.lemma_plus_zero(z);
    }

    /// `root(k, n)` times its conjugate is one.
    pub proof fn lemma_root_unit(self, k: int, n: int)
        requires
            self.circle_laws(),
            k >= 0,
            n >= 1,
        ensures
            self.times(self.w(k, n), self.conj(self.w(k, n))) == self.one,
    {
        reveal(Exact::circle_laws);
    }

    /// `(a + ... + a) / n == a`, with `n` terms.
    pub proof fn lemma_over_multiple(self, a: T, n: int)
        requires
            self.quotient_laws(),
            n >= 1,
        ensures
            self.over(self.multiple(a, n), n) == a,
    {
        reveal(Exact::quotient_laws);
    }

    /// `a * (1 + ... + 1) == a + ... + a`.
    pub proof fn lemma_times_multiple(self, a: T, n: int)
        requires
            self.ring_laws(),
        ensures
            self.times(a, self.multiple(self.one, n)) == self.multiple(a, n),
        decreases n,
    {
        if n <= 0 {
            self.lemma_times_zero(a);
        } else {
            self.lemma_times_multiple(a, n - 1);
            self.lemma_distributive(a, self.multiple(self.one, n - 1), self.one);
            self.lemma_times_one(a);
        }
    }
}

} // verus!
