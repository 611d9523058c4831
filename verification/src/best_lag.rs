//! What the search over lags finds, in exact arithmetic: the two lags whose
//! squared correlation is largest in relation to the energy of the signal
//! there.

use vstd::prelude::*;
use crate::arith::{Arith, Sample};
use crate::celt_lpc;
use crate::dft;
use crate::exact;
use crate::pitch::Search;
use crate::pitch;

verus! {

/// The signals of a search: the correlations, the signal that lags, and the
/// length of the window.
pub struct Lags<S> {
    pub xcorr: Seq<S>,
    pub y: Seq<S>,
    pub len: nat,
}

impl<S: Sample> Lags<S> {
    /// The search after the lags below `n`.
    pub open spec fn upto(self, n: nat) -> Search<S> {
        pitch::search_upto(self.xcorr, self.y, self.len, n)
    }

    /// The energy that a correlation at lag `j` is set in relation to.
    pub open spec fn energy(self, phi: spec_fn(S) -> real, j: int) -> real {
        phi(self.upto(j as nat).syy)
    }

    /// The square of the correlation at lag `j`.
    pub open spec fn power(self, phi: spec_fn(S) -> real, j: int) -> real {
        phi(self.xcorr[j]) * phi(self.xcorr[j])
    }

    /// Whether lag `j` counts: it is below `n`, with a positive correlation.
    pub open spec fn counts(self, phi: spec_fn(S) -> real, n: int, j: int) -> bool {
        0 <= j < n && phi(self.xcorr[j]) > 0real
    }

    /// Lag `j` is no better than lag `l`: the quotients of power and energy
    /// compare so.
    pub open spec fn no_better(self, phi: spec_fn(S) -> real, j: int, l: int) -> bool {
        self.power(phi, j) * self.energy(phi, l) <= self.power(phi, l) * self.energy(phi, j)
    }
}

/// Numbers are exact, and so are comparisons.
pub open spec fn comparable<S: Sample>(phi: spec_fn(S) -> real) -> bool {
    &&& dft::exact(phi)
    &&& exact::counts(phi)
    &&& exact::compares(phi)
}

proof fn lemma_scale(a: real, b: real, c: real)
    requires
        a <= b,
        c >= 0real,
    ensures
        a * c <= b * c,
{
    assert(a * c <= b * c) by (nonlinear_arith)
        requires
            a <= b,
            c >= 0real,
    ;
}

proof fn lemma_cancel(a: real, b: real, c: real)
    requires
        a * c <= b * c,
        c > 0real,
    ensures
        a <= b,
{
    if a > b {
        assert(a * c > b * c) by (nonlinear_arith)
            requires
                a > b,
                c > 0real,
        ;
    }
}

/// Exchange the last two of three factors.
proof fn lemma_exchange(a: real, b: real, c: real)
    ensures
        (a * b) * c == (a * c) * b,
{
    dft::lemma_assoc(a, b, c);
    dft::lemma_assoc(a, c, b);
    dft::lemma_comm(b, c);
}

/// Quotients compare transitively.
proof fn lemma_chain(pj: real, ej: real, p0: real, e0: real, pi: real, ei: real)
    requires
        pj * e0 <= p0 * ej,
        p0 * ei <= pi * e0,
        e0 > 0real,
        ei > 0real,
        ej > 0real,
    ensures
        pj * ei <= pi * ej,
{
    lemma_scale(pj * e0, p0 * ej, ei);
    lemma_scale(p0 * ei, pi * e0, ej);
    lemma_exchange(pj, e0, ei);
    lemma_exchange(p0, ej, ei);
    lemma_exchange(pi, e0, ej);
    lemma_cancel(pj * ei, pi * ej, e0);
}

/// One plus an energy is positive.
proof fn lemma_start_energy<S: Sample>(phi: spec_fn(S) -> real, y: Seq<S>, len: nat)
    requires
        comparable(phi),
    ensures
        phi(pitch::energy_from_one(y, len)) >= 1real,
    decreases len,
{
    assert(phi(S::num(1)) == 1real);
    assert(S::num(1) == S::unit());
    if len > 0 {
        lemma_start_energy(phi, y, (len - 1) as nat);
        let v = phi(y[len - 1]);
        exact::lemma_square_nonneg(v);
        assert(celt_lpc::dot_from(S::unit(), y, 0, y, 0, 1, len) == celt_lpc::dot_from(
            S::unit(),
            y,
            0,
            y,
            0,
            1,
            (len - 1) as nat,
        ) + y[len - 1] * y[len - 1]);
    }
}

/// The energies are positive.
proof fn lemma_energy_positive<S: Sample>(phi: spec_fn(S) -> real, l: Lags<S>, j: nat)
    requires
        comparable(phi),
    ensures
        l.energy(phi, j as int) > 0real,
{
    if j == 0 {
        lemma_start_energy(phi, l.y, l.len);
    } else {
        assert(phi(S::num(1)) == 1real);
        assert(S::num(1) == S::unit());
        let before = l.upto((j - 1) as nat);
        assert(l.upto(j) == pitch::search_step(before, l.xcorr, l.y, l.len as int, j - 1));
    }
}

/// What the search remembers of a lag: its power and its energy.
pub open spec fn holds<S: Sample>(
    phi: spec_fn(S) -> real,
    l: Lags<S>,
    num: S,
    den: S,
    j: int,
) -> bool {
    &&& phi(num) == l.power(phi, j)
    &&& phi(den) == l.energy(phi, j)
}

/// What the search remembers before it has found a lag.
pub open spec fn vacant<S: Sample>(phi: spec_fn(S) -> real, num: S, den: S) -> bool {
    phi(num) == -1real && phi(den) == 0real
}

/// The best lag below `n`, where one counts.
pub open spec fn best_known<S: Sample>(phi: spec_fn(S) -> real, l: Lags<S>, n: nat) -> bool {
    let st = l.upto(n);
    if vacant(phi, st.num0, st.den0) {
        forall|j: int| !#[trigger] l.counts(phi, n as int, j)
    } else {
        &&& l.counts(phi, n as int, st.lag0)
        &&& holds(phi, l, st.num0, st.den0, st.lag0)
        &&& forall|j: int| #[trigger]
            l.counts(phi, n as int, j) ==> l.no_better(phi, j, st.lag0)
    }
}

/// The best lag below `n` beside the very best, where one counts.
pub open spec fn second_known<S: Sample>(phi: spec_fn(S) -> real, l: Lags<S>, n: nat) -> bool {
    let st = l.upto(n);
    if vacant(phi, st.num1, st.den1) {
        forall|j: int| #[trigger] l.counts(phi, n as int, j) ==> j == st.lag0
    } else {
        &&& !vacant(phi, st.num0, st.den0)
        &&& st.lag1 != st.lag0
        &&& l.counts(phi, n as int, st.lag1)
        &&& holds(phi, l, st.num1, st.den1, st.lag1)
        &&& forall|j: int| #[trigger]
            l.counts(phi, n as int, j) && j != st.lag0 ==> l.no_better(phi, j, st.lag1)
    }
}

/// A comparison of what the search remembers with a new lag is a comparison of
/// the lags.
proof fn lemma_test<S: Sample>(
    phi: spec_fn(S) -> real,
    l: Lags<S>,
    num: S,
    den: S,
    j: int,
    i: int,
)
    requires
        comparable(phi),
        holds(phi, l, num, den, j),
        i >= 0,
    ensures
        ({
            let fresh = l.xcorr[i] * l.xcorr[i];
            &&& holds(phi, l, fresh, l.upto(i as nat).syy, i)
            &&& (num * l.upto(i as nat).syy).lt_of(fresh * den) ==> l.no_better(phi, j, i)
            &&& !(num * l.upto(i as nat).syy).lt_of(fresh * den) ==> l.no_better(phi, i, j)
        }),
{
    let fresh = l.xcorr[i] * l.xcorr[i];
    let syy = l.upto(i as nat).syy;
    assert(phi(num * syy) == l.power(phi, j) * l.energy(phi, i));
    assert(phi(fresh * den) == l.power(phi, i) * l.energy(phi, j));
}

/// A lag is taken at once where none was found before.
proof fn lemma_vacant_test<S: Sample>(
    phi: spec_fn(S) -> real,
    l: Lags<S>,
    num: S,
    den: S,
    i: int,
)
    requires
        comparable(phi),
        vacant(phi, num, den),
        i >= 0,
    ensures
        ({
            let fresh = l.xcorr[i] * l.xcorr[i];
            (num * l.upto(i as nat).syy).lt_of(fresh * den)
        }),
{
    lemma_energy_positive(phi, l, i as nat);
    let fresh = l.xcorr[i] * l.xcorr[i];
    let syy = l.upto(i as nat).syy;
    dft::lemma_units(phi(fresh));
    dft::lemma_units(phi(syy));
    dft::lemma_comm(phi(num), phi(syy));
    assert(phi(num * syy) < 0real);
    assert(phi(fresh * den) == 0real);
}

/// `no_better` is transitive.
proof fn lemma_no_better<S: Sample>(phi: spec_fn(S) -> real, l: Lags<S>, j: int, k: int, i: int)
    requires
        comparable(phi),
        j >= 0,
        k >= 0,
        i >= 0,
        l.no_better(phi, j, k),
        l.no_better(phi, k, i),
    ensures
        l.no_better(phi, j, i),
{
    lemma_energy_positive(phi, l, j as nat);
    lemma_energy_positive(phi, l, k as nat);
    lemma_energy_positive(phi, l, i as nat);
    lemma_chain(
        l.power(phi, j),
        l.energy(phi, j),
        l.power(phi, k),
        l.energy(phi, k),
        l.power(phi, i),
        l.energy(phi, i),
    );
}

/// One lag more.
proof fn lemma_step<S: Sample>(phi: spec_fn(S) -> real, l: Lags<S>, n: nat)
    requires
        comparable(phi),
        best_known(phi, l, n),
        second_known(phi, l, n),
        vacant(phi, l.upto(n).num0, l.upto(n).den0) ==> vacant(
            phi,
            l.upto(n).num1,
            l.upto(n).den1,
        ),
    ensures
        best_known(phi, l, n + 1),
        second_known(phi, l, n + 1),
        vacant(phi, l.upto(n + 1).num0, l.upto(n + 1).den0) ==> vacant(
            phi,
            l.upto(n + 1).num1,
            l.upto(n + 1).den1,
        ),
{
    let st = l.upto(n);
    let next = l.upto(n + 1);
    let i = n as int;
    assert(next == pitch::search_step(st, l.xcorr, l.y, l.len as int, i));
    assert(phi(S::num(0)) == 0real);
    assert(S::num(0) == S::nil());
    lemma_energy_positive(phi, l, n);
    let fresh = l.xcorr[i] * l.xcorr[i];
    let none0 = vacant(phi, st.num0, st.den0);
    let none1 = vacant(phi, st.num1, st.den1);
    if !l.counts(phi, i + 1, i) {
        assert forall|j: int| #[trigger] l.counts(phi, i + 1, j) implies l.counts(phi, i, j) by {}
        assert(l.counts(phi, i, st.lag0) ==> l.counts(phi, i + 1, st.lag0));
        assert(l.counts(phi, i, st.lag1) ==> l.counts(phi, i + 1, st.lag1));
    } else {
        assert(!vacant(phi, fresh, st.syy));
        if none0 {
            lemma_vacant_test(phi, l, st.num0, st.den0, i);
            lemma_vacant_test(phi, l, st.num1, st.den1, i);
            assert forall|j: int| #[trigger] l.counts(phi, i + 1, j) implies j == i by {
                assert(!l.counts(phi, i, j));
            }
        } else {
            lemma_test(phi, l, st.num0, st.den0, st.lag0, i);
            if none1 {
                lemma_vacant_test(phi, l, st.num1, st.den1, i);
            } else {
                lemma_test(phi, l, st.num1, st.den1, st.lag1, i);
            }
            let second = (st.num1 * st.syy).lt_of(fresh * st.den1);
            let first = second && (st.num0 * st.syy).lt_of(fresh * st.den0);
            assert(l.counts(phi, i + 1, st.lag0));
            if first {
                assert forall|j: int| #[trigger] l.counts(phi, i + 1, j) implies l.no_better(
                    phi,
                    j,
                    i,
                ) by {
                    if j < i {
                        assert(l.counts(phi, i, j));
                        lemma_no_better(phi, l, j, st.lag0, i);
                    }
                }
                assert forall|j: int| #[trigger]
                    l.counts(phi, i + 1, j) && j != i implies l.no_better(phi, j, st.lag0) by {
                    assert(l.counts(phi, i, j));
                }
            } else {
                assert(l.no_better(phi, i, st.lag0)) by {
                    if !second {
                        assert(l.counts(phi, i, st.lag1));
                        lemma_no_better(phi, l, i, st.lag1, st.lag0);
                    }
                }
                assert forall|j: int| #[trigger] l.counts(phi, i + 1, j) implies l.no_better(
                    phi,
                    j,
                    st.lag0,
                ) by {
                    if j < i {
                        assert(l.counts(phi, i, j));
                    }
                }
                let best = if second {
                    i
                } else {
                    st.lag1
                };
                assert forall|j: int| #[trigger]
                    l.counts(phi, i + 1, j) && j != st.lag0 implies l.no_better(phi, j, best) by {
                    if j < i {
                        assert(l.counts(phi, i, j));
                        if second && !none1 {
                            lemma_no_better(phi, l, j, st.lag1, i);
                        }
                    }
                }
                assert(!second ==> l.counts(phi, i + 1, st.lag1));
            }
        }
    }
}

/// What the search knows after the lags below `n`.
proof fn lemma_known<S: Sample>(phi: spec_fn(S) -> real, l: Lags<S>, n: nat)
    requires
        comparable(phi),
    ensures
        best_known(phi, l, n),
        second_known(phi, l, n),
        vacant(phi, l.upto(n).num0, l.upto(n).den0) ==> vacant(
            phi,
            l.upto(n).num1,
            l.upto(n).den1,
        ),
    decreases n,
{
    if n == 0 {
        assert(phi(S::num(0)) == 0real);
        assert(S::num(0) == S::nil());
        assert(phi(S::num(-1)) == -1real);
    } else {
        lemma_known(phi, l, (n - 1) as nat);
        lemma_step(phi, l, (n - 1) as nat);
    }
}

/// The first lag that the search finds has the largest squared correlation in
/// relation to the energy there, among the lags with positive correlation.
pub proof fn lemma_best_lag<S: Sample>(phi: spec_fn(S) -> real, l: Lags<S>, n: nat, j: int)
    requires
        comparable(phi),
        l.counts(phi, n as int, j),
    ensures
        l.counts(phi, n as int, l.upto(n).lag0),
        l.no_better(phi, j, l.upto(n).lag0),
{
    lemma_known(phi, l, n);
}

/// The second lag that the search finds is the best beside the first.
pub proof fn lemma_second_lag<S: Sample>(phi: spec_fn(S) -> real, l: Lags<S>, n: nat, j: int)
    requires
        comparable(phi),
        l.counts(phi, n as int, j),
        j != l.upto(n).lag0,
    ensures
        l.upto(n).lag1 != l.upto(n).lag0,
        l.counts(phi, n as int, l.upto(n).lag1),
        l.no_better(phi, j, l.upto(n).lag1),
{
    lemma_known(phi, l, n);
}

} // verus!
