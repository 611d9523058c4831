//! Arithmetic without rounding: what the laws on gains, features and layers ask
//! of the numbers, and what real numbers give in return.

use vstd::prelude::*;
use crate::arith::{Arith, Real, Sample};
use crate::bands;
use crate::dft;
use crate::exact;

verus! {

/// `phi` reads fractions as fractions.
pub open spec fn fractions<S: Real>(phi: spec_fn(S) -> real) -> bool {
    forall|n: i64, d: i64|
        d > 0 ==> phi(#[trigger] S::frac(n, d)) * ((d as int) as real) == (n as int) as real
}

/// `phi` reads square roots as square roots.
pub open spec fn square_roots<S: Real>(phi: spec_fn(S) -> real) -> bool {
    forall|a: S|
        phi(a) >= 0real ==> phi(#[trigger] a.sqrt_of()) >= 0real && phi(a.sqrt_of()) * phi(
            a.sqrt_of(),
        ) == phi(a)
}

/// `phi` and `psi` read numbers without rounding: sums, products, quotients,
/// comparisons, fractions and square roots are what they are among the real
/// numbers, in both formats and on the way between them.
pub open spec fn perfect<S: Sample>(
    phi: spec_fn(S) -> real,
    psi: spec_fn(S::Wide) -> real,
) -> bool {
    &&& exact::faithful(phi, psi)
    &&& fractions(phi)
    &&& fractions(psi)
    &&& square_roots(phi)
    &&& square_roots(psi)
}

/// The larger of two numbers.
pub open spec fn larger(a: real, b: real) -> real {
    if a < b {
        b
    } else {
        a
    }
}

/// Zero and one are read as zero and one.
pub proof fn lemma_zero_one<S: Sample>(phi: spec_fn(S) -> real)
    requires
        exact::counts(phi),
    ensures
        phi(S::nil()) == 0real,
        phi(S::unit()) == 1real,
{
    assert(phi(S::num(0)) == 0real);
    assert(S::num(0) == S::nil());
    assert(phi(S::num(1)) == 1real);
    assert(S::num(1) == S::unit());
}

/// A number that is fixed by a multiple of it.
pub proof fn lemma_same_multiple(a: real, b: real, d: real)
    requires
        a * d == b * d,
        d != 0real,
    ensures
        a == b,
{
    if a != b {
        assert((a - b) * d != 0real) by (nonlinear_arith)
            requires
                a - b != 0real,
                d != 0real,
        ;
        dft::lemma_dist(a, b, d);
    }
}

/// A fraction, from its multiple.
pub proof fn lemma_frac<S: Real>(phi: spec_fn(S) -> real, n: i64, d: i64)
    requires
        fractions(phi),
        d > 0,
    ensures
        phi(S::frac(n, d)) * ((d as int) as real) == (n as int) as real,
{
}

/// What two numbers give that are mixed in the shares of bin `j` of `n`.
pub proof fn lemma_mixed_shares<S: Sample>(phi: spec_fn(S) -> real, a: S, b: S, j: int, n: nat)
    requires
        dft::exact(phi),
        exact::divides(phi),
        exact::counts(phi),
        0 <= j < n <= 1000,
    ensures
        phi(bands::ramp(a, b, n)[j]) * ((n as int) as real) == phi(a) * ((n - j) as real) + phi(b)
            * (j as real),
{
    lemma_zero_one(phi);
    let nn = (n as int) as real;
    let s = phi(bands::share::<S>(j, n));
    let (p, q) = (S::num(j), S::num(n as int));
    assert(phi(p) == j as real && phi(q) == nn);
    assert(phi(p / q) * phi(q) == phi(p));
    assert(s * nn == j as real);
    assert(bands::ramp(a, b, n)[j] == (S::unit() - bands::share::<S>(j, n)) * a
        + bands::share::<S>(j, n) * b);
    let (u, v) = (phi(a), phi(b));
    assert(((1real - s) * u + s * v) * nn == u * (nn - s * nn) + v * (s * nn)) by (nonlinear_arith);
    assert((n - j) as real == nn - j as real);
}

} // verus!
