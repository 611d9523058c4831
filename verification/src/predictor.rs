//! What the recursion for a linear predictor solves, in exact arithmetic: the
//! normal equations of the autocorrelation.

use vstd::prelude::*;
use crate::arith::{Arith, Sample};
use crate::celt_lpc::Levinson;
use crate::celt_lpc;
use crate::dft;
use crate::exact;

verus! {

/// The sum of `f(0)` to `f(n - 1)`.
pub open spec fn total(f: spec_fn(int) -> real, n: nat) -> real
    decreases n,
{
    if n == 0 {
        0real
    } else {
        total(f, (n - 1) as nat) + f(n - 1)
    }
}

/// Sums of equal terms are equal.
pub proof fn lemma_total_same(f: spec_fn(int) -> real, g: spec_fn(int) -> real, n: nat)
    requires
        forall|j: int| 0 <= j < n ==> #[trigger] f(j) == g(j),
    ensures
        total(f, n) == total(g, n),
    decreases n,
{
    if n > 0 {
        lemma_total_same(f, g, (n - 1) as nat);
        assert(f(n - 1) == g(n - 1));
    }
}

/// A sum of terms `f(j) + c * g(j)`.
pub proof fn lemma_total_mix(
    f: spec_fn(int) -> real,
    g: spec_fn(int) -> real,
    h: spec_fn(int) -> real,
    c: real,
    n: nat,
)
    requires
        forall|j: int| 0 <= j < n ==> #[trigger] h(j) == f(j) + c * g(j),
    ensures
        total(h, n) == total(f, n) + c * total(g, n),
    decreases n,
{
    if n > 0 {
        lemma_total_mix(f, g, h, c, (n - 1) as nat);
        assert(h(n - 1) == f(n - 1) + c * g(n - 1));
        dft::lemma_dist(total(g, (n - 1) as nat), g(n - 1), c);
    } else {
        dft::lemma_units(c);
    }
}

/// A sum in two parts.
pub proof fn lemma_total_split(f: spec_fn(int) -> real, a: nat, b: nat)
    ensures
        total(f, a + b) == total(f, a) + total(|j: int| f(a + j), b),
    decreases b,
{
    let g = |j: int| f(a + j);
    if b > 0 {
        lemma_total_split(f, a, (b - 1) as nat);
        assert(g(b - 1) == f(a + b - 1));
        assert((a + b - 1) as nat == a + (b - 1) as nat);
    }
}

/// A sum of ones is their number.
pub proof fn lemma_total_ones(n: nat)
    ensures
        total(|j: int| 1real, n) == (n as int) as real,
    decreases n,
{
    if n > 0 {
        lemma_total_ones((n - 1) as nat);
    }
}

/// The first term of a sum, and the others.
proof fn lemma_total_first(f: spec_fn(int) -> real, n: nat)
    ensures
        total(f, n + 1) == f(0) + total(|j: int| f(j + 1), n),
    decreases n,
{
    let g = |j: int| f(j + 1);
    if n > 0 {
        lemma_total_first(f, (n - 1) as nat);
        assert((n - 1) as nat + 1 == n);
        assert(g(n - 1) == f(n as int));
    } else {
        assert(total(f, 1) == total(f, 0) + f(0));
    }
}

/// A sum may be formed backward.
proof fn lemma_total_backward(f: spec_fn(int) -> real, g: spec_fn(int) -> real, n: nat)
    requires
        forall|j: int| 0 <= j < n ==> #[trigger] g(j) == f(n - 1 - j),
    ensures
        total(g, n) == total(f, n),
    decreases n,
{
    if n > 0 {
        let m = (n - 1) as nat;
        lemma_total_first(g, m);
        let rest = |j: int| g(j + 1);
        assert forall|j: int| 0 <= j < m implies #[trigger] rest(j) == f(m - 1 - j) by {
            assert(g(j + 1) == f(n - 1 - (j + 1)));
        }
        lemma_total_backward(f, rest, m);
        assert(g(0) == f(n - 1));
    }
}

/// The magnitude of an integer.
pub open spec fn mag(i: int) -> int {
    if i < 0 {
        -i
    } else {
        i
    }
}

/// The left side of normal equation `m` of order `k`:
/// `r(m) + sum(a(j) * r(|m - 1 - j|))` over `j` below `k`.
pub open spec fn equation<S: Sample>(
    phi: spec_fn(S) -> real,
    ac: Seq<S>,
    coef: Seq<S>,
    k: nat,
    m: int,
) -> real {
    phi(ac[m]) + total(|j: int| phi(coef[j]) * phi(ac[mag(m - 1 - j)]), k)
}

/// The coefficients solve the normal equations of order `k`, and no others are
/// in use.
pub open spec fn solves<S: Sample>(
    phi: spec_fn(S) -> real,
    ac: Seq<S>,
    coef: Seq<S>,
    k: nat,
) -> bool {
    &&& forall|m: int| 1 <= m <= k ==> #[trigger] equation(phi, ac, coef, k, m) == 0real
    &&& forall|j: int| k <= j < coef.len() ==> phi(#[trigger] coef[j]) == 0real
}

/// The error of the prediction: `r(0) + sum(a(j) * r(j + 1))` over `j` below
/// `k`.
pub open spec fn remaining<S: Sample>(
    phi: spec_fn(S) -> real,
    ac: Seq<S>,
    coef: Seq<S>,
    k: nat,
) -> real {
    phi(ac[0]) + total(|j: int| phi(coef[j]) * phi(ac[j + 1]), k)
}

/// Arithmetic and comparisons are exact; the share of the energy below which
/// the recursion ends is positive.
pub open spec fn solvable<S: Sample>(phi: spec_fn(S) -> real) -> bool {
    &&& dft::exact(phi)
    &&& exact::divides(phi)
    &&& exact::counts(phi)
    &&& exact::compares(phi)
    &&& forall|a: S, b: S| #[trigger] a.eq_of(b) <==> phi(a) == phi(b)
    &&& phi(S::frac(1, 1000)) > 0real
}

/// The sum that the reflection coefficient is computed from.
proof fn lemma_reach_back<S: Sample>(
    phi: spec_fn(S) -> real,
    coef: Seq<S>,
    ac: Seq<S>,
    i: int,
    n: nat,
)
    requires
        solvable(phi),
    ensures
        phi(celt_lpc::reach_back(coef, ac, i, n)) == total(
            |j: int| phi(coef[j]) * phi(ac[i - j]),
            n,
        ),
    decreases n,
{
    let f = |j: int| phi(coef[j]) * phi(ac[i - j]);
    if n > 0 {
        lemma_reach_back(phi, coef, ac, i, (n - 1) as nat);
        assert(f(n - 1) == phi(coef[n - 1]) * phi(ac[i - (n - 1)]));
    } else {
        assert(phi(S::num(0)) == 0real);
        assert(S::num(0) == S::nil());
    }
}

/// The updated coefficients times some weights: the old coefficients times the
/// weights, plus the reflection coefficient times the old coefficients
/// backward times the weights, plus the last term.
proof fn lemma_updated<S: Sample>(
    phi: spec_fn(S) -> real,
    a: Seq<S>,
    b: Seq<S>,
    r: S,
    i: nat,
    w: spec_fn(int) -> real,
)
    requires
        dft::exact(phi),
        forall|j: int| 0 <= j < i ==> #[trigger] b[j] == a[j] + r * a[i - 1 - j],
        b[i as int] == r,
    ensures
        total(|j: int| phi(b[j]) * w(j), i + 1) == total(|j: int| phi(a[j]) * w(j), i) + phi(r)
            * total(|j: int| phi(a[j]) * w(i - 1 - j), i) + phi(r) * w(i as int),
{
    let f = |j: int| phi(a[j]) * w(j);
    let g = |j: int| phi(a[i - 1 - j]) * w(j);
    let back = |j: int| phi(a[j]) * w(i - 1 - j);
    let h = |j: int| phi(b[j]) * w(j);
    let k = phi(r);
    assert forall|j: int| 0 <= j < i implies #[trigger] h(j) == f(j) + k * g(j) by {
        let (p, q) = (phi(a[j]), phi(a[i - 1 - j]));
        assert(b[j] == a[j] + r * a[i - 1 - j]);
        assert(phi(b[j]) == p + k * q);
        dft::lemma_dist(p, k * q, w(j));
        dft::lemma_assoc(k, q, w(j));
    }
    lemma_total_mix(f, g, h, k, i);
    assert forall|j: int| 0 <= j < i implies #[trigger] g(j) == back(i - 1 - j) by {
        assert(i - 1 - (i - 1 - j) == j);
    }
    lemma_total_backward(back, g, i);
    assert(h(i as int) == k * w(i as int));
}

/// One step of the recursion raises the order of the equations by one.
proof fn lemma_order_up<S: Sample>(
    phi: spec_fn(S) -> real,
    st: Levinson<S>,
    ac: Seq<S>,
    i: nat,
)
    requires
        solvable(phi),
        i < st.coef.len(),
        solves(phi, ac, st.coef, i),
        phi(st.error) == remaining(phi, ac, st.coef, i),
        phi(st.error) != 0real,
    ensures
        ({
            let next = celt_lpc::levinson_step(st, ac, i as int);
            &&& solves(phi, ac, next.coef, i + 1)
            &&& phi(next.error) == remaining(phi, ac, next.coef, i + 1)
        }),
{
    let next = celt_lpc::levinson_step(st, ac, i as int);
    let a = st.coef;
    let b = next.coef;
    let e = phi(st.error);
    let rr = celt_lpc::reach_back(a, ac, i as int, i) + ac[(i + 1) as int];
    let r = -rr / st.error;
    let k = phi(r);
    lemma_reach_back(phi, a, ac, i as int, i);
    let back = |j: int| phi(a[j]) * phi(ac[i - j]);
    let ahead = |j: int| phi(a[j]) * phi(ac[j + 1]);
    assert(phi(rr) == total(back, i) + phi(ac[(i + 1) as int]));
    assert(e == phi(ac[0]) + total(ahead, i));
    assert(k * e == 0real - phi(rr));
    assert(b[i as int] == r);
    assert forall|j: int| 0 <= j < i implies #[trigger] b[j] == a[j] + r * a[i - 1 - j] by {}
    assert forall|m: int| 1 <= m <= i + 1 implies #[trigger] equation(phi, ac, b, i + 1, m)
        == 0real by {
        let w = |j: int| phi(ac[mag(m - 1 - j)]);
        lemma_updated(phi, a, b, r, i, w);
        let new = |j: int| phi(b[j]) * phi(ac[mag(m - 1 - j)]);
        let new2 = |j: int| phi(b[j]) * w(j);
        lemma_total_same(new, new2, i + 1);
        let same = |j: int| phi(a[j]) * w(j);
        let turned = |j: int| phi(a[j]) * w(i - 1 - j);
        if m <= i {
            let old = |j: int| phi(a[j]) * phi(ac[mag(m - 1 - j)]);
            lemma_total_same(old, same, i);
            assert(equation(phi, ac, a, i, m) == 0real);
            let n = i + 1 - m;
            assert(equation(phi, ac, a, i, n) == 0real);
            let other = |j: int| phi(a[j]) * phi(ac[mag(n - 1 - j)]);
            assert forall|j: int| 0 <= j < i implies #[trigger] turned(j) == other(j) by {
                assert(mag(m - 1 - (i - 1 - j)) == mag(n - 1 - j));
            }
            lemma_total_same(turned, other, i);
            assert(w(i as int) == phi(ac[n]));
            let t = total(other, i);
            assert(t == 0real - phi(ac[n]));
            dft::lemma_units(k);
            dft::lemma_dist(t, phi(ac[n]), k);
        } else {
            assert forall|j: int| 0 <= j < i implies #[trigger] same(j) == back(j) by {
                assert(mag(m - 1 - j) == i - j);
            }
            lemma_total_same(same, back, i);
            assert forall|j: int| 0 <= j < i implies #[trigger] turned(j) == ahead(j) by {
                assert(mag(m - 1 - (i - 1 - j)) == j + 1);
            }
            lemma_total_same(turned, ahead, i);
            assert(w(i as int) == phi(ac[0]));
            dft::lemma_dist(total(ahead, i), phi(ac[0]), k);
        }
    }
    assert(phi(next.error) == remaining(phi, ac, b, i + 1)) by {
        let w = |j: int| phi(ac[j + 1]);
        lemma_updated(phi, a, b, r, i, w);
        let new = |j: int| phi(b[j]) * phi(ac[j + 1]);
        let new2 = |j: int| phi(b[j]) * w(j);
        lemma_total_same(new, new2, i + 1);
        let same = |j: int| phi(a[j]) * w(j);
        lemma_total_same(same, ahead, i);
        let turned = |j: int| phi(a[j]) * w(i - 1 - j);
        assert forall|j: int| 0 <= j < i implies #[trigger] turned(j) == back(j) by {
            assert(i - 1 - j + 1 == i - j);
        }
        lemma_total_same(turned, back, i);
        dft::lemma_dist(total(back, i), phi(ac[(i + 1) as int]), k);
        // k * rr == -(k * k) * e
        dft::lemma_assoc(k, k, e);
        dft::lemma_dist(0real, phi(rr), k);
        dft::lemma_units(k);
        assert(phi(next.error) == e - (k * k) * e);
    }
}

/// How many steps the recursion takes before it ends.
pub open spec fn order<S: Sample>(ac: Seq<S>, p: nat, i: nat) -> nat
    decreases i,
{
    if i == 0 {
        0
    } else if celt_lpc::levinson(ac, p, (i - 1) as nat).done {
        order(ac, p, (i - 1) as nat)
    } else {
        i
    }
}

/// The recursion after `i` steps solves the normal equations of the order that
/// it has reached.
pub proof fn lemma_recursion<S: Sample>(phi: spec_fn(S) -> real, ac: Seq<S>, p: nat, i: nat)
    requires
        solvable(phi),
        phi(ac[0]) > 0real,
        i <= p,
    ensures
        ({
            let st = celt_lpc::levinson(ac, p, i);
            let k = order(ac, p, i);
            &&& k <= i
            &&& st.coef.len() == p
            &&& solves(phi, ac, st.coef, k)
            &&& phi(st.error) == remaining(phi, ac, st.coef, k)
            &&& !st.done ==> k == i && phi(st.error) > 0real
        }),
    decreases i,
{
    assert(phi(S::num(0)) == 0real);
    assert(S::num(0) == S::nil());
    if i > 0 {
        let before = celt_lpc::levinson(ac, p, (i - 1) as nat);
        lemma_recursion(phi, ac, p, (i - 1) as nat);
        if !before.done {
            lemma_order_up(phi, before, ac, (i - 1) as nat);
            let c = phi(S::frac(1, 1000));
            let e0 = phi(ac[0]);
            assert(c * e0 > 0real) by (nonlinear_arith)
                requires
                    c > 0real,
                    e0 > 0real,
            ;
        }
    }
}

/// The predictor solves the normal equations: of full order where the recursion
/// runs to its end, otherwise of the order at which the error became small.
pub proof fn lemma_predictor<S: Sample>(phi: spec_fn(S) -> real, ac: Seq<S>, p: nat)
    requires
        solvable(phi),
        phi(ac[0]) > 0real,
    ensures
        ({
            let st = celt_lpc::levinson(ac, p, p);
            let k = order(ac, p, p);
            &&& k <= p
            &&& solves(phi, ac, st.coef, k)
            &&& k < p ==> st.done
        }),
{
    lemma_recursion(phi, ac, p, p);
}

} // verus!
