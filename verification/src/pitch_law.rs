//! What the pitch analysis looks for: the delay at which a signal agrees best
//! with itself, preferring short delays over their multiples and delays close to
//! the last one.

use vstd::prelude::*;
use crate::arith::{Arith, Sample, SampleArith};
use crate::celt_lpc;
use crate::denoise;
use crate::dft;
use crate::exact;
use crate::perfect;
use crate::pitch::{Period, Setting};
use crate::pitch;
use crate::predictor;

verus! {

/// Decimation by two: each sample is half of itself and a quarter of each of its
/// neighbours; the first has one neighbour.
pub proof fn lemma_decimated<S: Sample>(
    phi: spec_fn(S) -> real,
    x: Seq<S>,
    half: nat,
    i: int,
)
    requires
        dft::exact(phi),
        0 <= i < half,
    ensures
        ({
            let y = pitch::decimated(x, half);
            &&& y.len() == half
            &&& i > 0 ==> 4real * phi(y[i]) == phi(x[2 * i - 1]) + 2real * phi(x[2 * i]) + phi(
                x[2 * i + 1],
            )
            &&& i == 0 ==> 4real * phi(y[0]) == 2real * phi(x[0]) + phi(x[1])
        }),
{
    let h = S::frac(1, 2);
    assert(phi(h) == 1real / 2real);
    let y = pitch::decimated(x, half);
    if i > 0 {
        let n = x[2 * i - 1] + x[2 * i + 1];
        assert(y[i] == h * (h * n + x[2 * i]));
        assert(phi(h * n) == 1real / 2real * phi(n));
        assert(phi(y[i]) == 1real / 2real * phi(h * n + x[2 * i]));
    } else {
        assert(y[0] == h * (h * x[1] + x[0]));
        assert(phi(h * x[1]) == 1real / 2real * phi(x[1]));
        assert(phi(y[0]) == 1real / 2real * phi(h * x[1] + x[0]));
    }
}

/// The autocorrelation gets a noise floor of a ten-thousandth, and lag `i` loses
/// the share `(0.008 i)^2`.
pub proof fn lemma_lag_windowed<S: Sample>(phi: spec_fn(S) -> real, ac: Seq<S>, i: int)
    requires
        dft::exact(phi),
        exact::counts(phi),
        perfect::fractions(phi),
        ac.len() == 5,
        0 <= i < 5,
    ensures
        ({
            let y = pitch::lag_windowed(ac);
            &&& y.len() == 5
            &&& phi(y[0]) * 10000real == 10001real * phi(ac[0])
            &&& i > 0 ==> phi(y[i]) == phi(ac[i]) - phi(ac[i]) * (8real / 1000real * (i as real))
                * (8real / 1000real * (i as real))
        }),
{
    perfect::lemma_frac::<S>(phi, 10001, 10000);
    perfect::lemma_frac::<S>(phi, 8, 1000);
    let y = pitch::lag_windowed(ac);
    dft::lemma_assoc(phi(ac[0]), phi(S::frac(10001, 10000)), 10000real);
    dft::lemma_comm(phi(ac[0]), 10001real);
    if i > 0 {
        let w = S::frac(8, 1000) * S::num(i);
        assert(phi(S::num(i)) == i as real);
        assert(phi(w) == 8real / 1000real * (i as real));
        assert(y[i] == ac[i] - ac[i] * w * w);
    }
}

/// The coefficients of the whitening filter are those of the product of two
/// polynomials: the predictor with its coefficients damped by powers of 0.9, and
/// `1 + 0.8 z`.
pub proof fn lemma_whitening<S: Sample>(phi: spec_fn(S) -> real, coef: Seq<S>)
    requires
        dft::exact(phi),
        exact::counts(phi),
        perfect::fractions(phi),
        coef.len() == 4,
    ensures
        ({
            let y = pitch::whitening(coef);
            let a = |k: int|
                phi(coef[k]) * if k == 0 {
                    9real / 10real
                } else if k == 1 {
                    81real / 100real
                } else if k == 2 {
                    729real / 1000real
                } else {
                    6561real / 10000real
                };
            let c = 4real / 5real;
            &&& y.len() == 5
            &&& phi(y[0]) == a(0) + c
            &&& phi(y[1]) == a(1) + c * a(0)
            &&& phi(y[2]) == a(2) + c * a(1)
            &&& phi(y[3]) == a(3) + c * a(2)
            &&& phi(y[4]) == c * a(3)
        }),
{
    perfect::lemma_zero_one(phi);
    perfect::lemma_frac::<S>(phi, 9, 10);
    perfect::lemma_frac::<S>(phi, 8, 10);
    reveal_with_fuel(pitch::decay, 5);
    let n = S::frac(9, 10);
    assert(phi(n) == 9real / 10real);
    assert(phi(S::frac(8, 10)) == 4real / 5real);
    let d1 = pitch::decay::<S>(1);
    let d2 = pitch::decay::<S>(2);
    let d3 = pitch::decay::<S>(3);
    let d4 = pitch::decay::<S>(4);
    assert(d1 == S::unit() * n && d2 == d1 * n && d3 == d2 * n && d4 == d3 * n);
    assert(phi(d1) == 9real / 10real);
    assert(phi(d2) == 81real / 100real);
    assert(phi(d3) == 729real / 1000real);
    assert(phi(d4) == 6561real / 10000real);
}

/// A filter of order five: each sample with the five before it. `mem` holds the
/// samples before the first, the last of them first.
pub proof fn lemma_filtered<S: Sample>(
    phi: spec_fn(S) -> real,
    x: Seq<S>,
    num: Seq<S>,
    mem: Seq<S>,
    i: int,
)
    requires
        dft::exact(phi),
        num.len() == 5,
        mem.len() == 5,
        0 <= i < x.len(),
    ensures
        phi(celt_lpc::filtered(x, num, mem)[i]) == phi(x[i]) + predictor::total(
            |k: int|
                phi(num[k]) * if i - 1 - k >= 0 {
                    phi(x[i - 1 - k])
                } else {
                    phi(mem[k - i])
                },
            5,
        ),
{
    let f = |k: int|
        phi(num[k]) * if i - 1 - k >= 0 {
            phi(x[i - 1 - k])
        } else {
            phi(mem[k - i])
        };
    reveal_with_fuel(predictor::total, 6);
    assert(predictor::total(f, 5) == f(0) + f(1) + f(2) + f(3) + f(4));
}

/// The signal of the pitch search: decimated, and whitened with the predictor of
/// its own autocorrelation.
pub proof fn lemma_downsampled<S: Sample>(x: Seq<S>, len: nat)
    ensures
        ({
            let low = pitch::decimated(x, len / 2);
            let ac = pitch::lag_windowed(celt_lpc::autocorrs(low, 4, len / 2));
            let coef = celt_lpc::levinson(ac, 4, 4).coef;
            pitch::downsampled(x, len) == celt_lpc::filtered(
                low,
                pitch::whitening(coef),
                Seq::new(5, |k: int| S::nil()),
            )
        }),
{
}

/// The gain `g` of a delay at which two stretches of signal with the energies
/// `xx` and `yy` have the product `xy`.
pub open spec fn delay_gain(xy: real, xx: real, yy: real, g: real) -> bool {
    &&& g * g * (1real + xx * yy) == xy * xy
    &&& xy >= 0real ==> g >= 0real
    &&& xy <= 0real ==> g <= 0real
}

/// The gain of a delay.
pub proof fn lemma_gain<S: Sample>(
    phi: spec_fn(S) -> real,
    psi: spec_fn(S::Wide) -> real,
    xy: S,
    xx: S,
    yy: S,
)
    requires
        perfect::perfect(phi, psi),
        phi(xx) >= 0real,
        phi(yy) >= 0real,
    ensures
        delay_gain(phi(xy), phi(xx), phi(yy), phi(pitch::gain_of(xy, xx, yy))),
{
    perfect::lemma_zero_one(phi);
    let w = (S::unit() + xx * yy).wide();
    let d = psi(w);
    assert(d == 1real + phi(xx) * phi(yy));
    assert(phi(xx) * phi(yy) >= 0real) by (nonlinear_arith)
        requires
            phi(xx) >= 0real,
            phi(yy) >= 0real,
    ;
    let r = psi(w.sqrt_of());
    assert(r >= 0real && r * r == d);
    if r == 0real {
        dft::lemma_units(r);
    }
    let t = psi(xy.wide() / w.sqrt_of());
    assert(t * r == phi(xy));
    let c = phi(xy);
    assert(t * t * (r * r) == (t * r) * (t * r)) by (nonlinear_arith);
    if c >= 0real && t < 0real {
        assert(t * r < 0real) by (nonlinear_arith)
            requires
                t < 0real,
                r > 0real,
        ;
    }
    if c <= 0real && t > 0real {
        assert(t * r > 0real) by (nonlinear_arith)
            requires
                t > 0real,
                r > 0real,
        ;
    }
}

/// The window has the product with itself `t` samples earlier.
pub open spec fn product_at<S>(phi: spec_fn(S) -> real, s: Setting<S>, t: int) -> real {
    predictor::total(|i: int| phi(s.x[s.base + i]) * phi(s.x[s.base - t + i]), s.n)
}

/// The energy of the window `t` samples earlier.
pub open spec fn energy_at<S>(phi: spec_fn(S) -> real, s: Setting<S>, t: int) -> real {
    predictor::total(|i: int| phi(s.x[s.base - t + i]) * phi(s.x[s.base - t + i]), s.n)
}

proof fn lemma_products<S: Sample>(
    phi: spec_fn(S) -> real,
    x: Seq<S>,
    a: int,
    b: int,
    n: nat,
)
    requires
        0 <= a,
        0 <= b,
        a + n <= x.len(),
        b + n <= x.len(),
    ensures
        exact::products(phi, x.skip(a), x.skip(b), n) == predictor::total(
            |i: int| phi(x[a + i]) * phi(x[b + i]),
            n,
        ),
    decreases n,
{
    if n > 0 {
        lemma_products(phi, x, a, b, (n - 1) as nat);
        assert(x.skip(a)[n - 1] == x[a + (n - 1)]);
        assert(x.skip(b)[n - 1] == x[b + (n - 1)]);
    }
}

/// The correlation of the window with itself `t` samples earlier is the sum of
/// the products of their samples.
pub proof fn lemma_corr<S: Sample>(phi: spec_fn(S) -> real, s: Setting<S>, t: int)
    requires
        dft::exact(phi),
        exact::counts(phi),
        s.base + s.n <= s.x.len(),
        0 <= s.base - t,
        0 <= s.base,
        -1 <= t,
        t < 0 ==> s.base - t + s.n <= s.x.len(),
    ensures
        phi(s.corr(t)) == product_at(phi, s, t),
        phi(s.near_corr(t)) == product_at(phi, s, t),
{
    perfect::lemma_zero_one(phi);
    exact::lemma_inner_products(phi, s.x.skip(s.base), s.x.skip(s.base - t), s.n);
    lemma_products(phi, s.x, s.base, s.base - t, s.n);
}

/// A sum that starts one sample earlier.
proof fn lemma_slide(f: spec_fn(int) -> real, a: int, n: nat)
    ensures
        predictor::total(|i: int| f(a - 1 + i), n) + f(a + n - 1) == predictor::total(
            |i: int| f(a + i),
            n,
        ) + f(a - 1),
    decreases n,
{
    let u = |i: int| f(a - 1 + i);
    let v = |i: int| f(a + i);
    if n > 0 {
        lemma_slide(f, a, (n - 1) as nat);
        assert(u(n - 1) == f(a + n - 2));
        assert(v(n - 1) == f(a + n - 1));
        assert(a + (n - 1) as nat - 1 == a + n - 2);
    }
}

proof fn lemma_total_squares(f: spec_fn(int) -> real, n: nat)
    requires
        forall|i: int| 0 <= i < n ==> #[trigger] f(i) >= 0real,
    ensures
        predictor::total(f, n) >= 0real,
    decreases n,
{
    if n > 0 {
        lemma_total_squares(f, (n - 1) as nat);
        assert(f(n - 1) >= 0real);
    }
}

proof fn lemma_running_energy<S: Sample>(phi: spec_fn(S) -> real, s: Setting<S>, t: nat)
    requires
        dft::exact(phi),
        exact::counts(phi),
        s.base + s.n <= s.x.len(),
        t <= s.base,
    ensures
        phi(s.running_energy(t)) == energy_at(phi, s, t as int),
    decreases t,
{
    if t == 0 {
        lemma_corr(phi, s, 0);
        let f = |i: int| phi(s.x[s.base + i]) * phi(s.x[s.base - 0 + i]);
        let g = |i: int| phi(s.x[s.base - 0 + i]) * phi(s.x[s.base - 0 + i]);
        predictor::lemma_total_same(f, g, s.n);
    } else {
        let m = (t - 1) as nat;
        lemma_running_energy(phi, s, m);
        let sq = |k: int| phi(s.x[k]) * phi(s.x[k]);
        let at = s.base - m;
        lemma_slide(sq, at, s.n);
        let u = |i: int| sq(at - 1 + i);
        let v = |i: int| sq(at + i);
        let u2 = |i: int| phi(s.x[s.base - t + i]) * phi(s.x[s.base - t + i]);
        let v2 = |i: int| phi(s.x[s.base - m + i]) * phi(s.x[s.base - m + i]);
        predictor::lemma_total_same(u, u2, s.n);
        predictor::lemma_total_same(v, v2, s.n);
        assert(sq(at - 1) == phi(s.x[s.base - t]) * phi(s.x[s.base - t]));
        assert(sq(at + s.n - 1) == phi(s.x[s.base + s.n - t]) * phi(s.x[s.base + s.n - t]));
    }
}

/// The energy of the window `t` samples earlier is the sum of the squares of its
/// samples, though it is updated sample by sample. It is not negative.
pub proof fn lemma_window_energy<S: Sample>(phi: spec_fn(S) -> real, s: Setting<S>, t: int)
    requires
        dft::exact(phi),
        exact::counts(phi),
        exact::compares(phi),
        s.base + s.n <= s.x.len(),
        0 <= t <= s.base,
    ensures
        phi(s.energy(t)) == energy_at(phi, s, t),
        phi(s.energy(t)) >= 0real,
{
    perfect::lemma_zero_one(phi);
    lemma_running_energy(phi, s, t as nat);
    let f = |i: int| phi(s.x[s.base - t + i]) * phi(s.x[s.base - t + i]);
    assert forall|i: int| 0 <= i < s.n implies #[trigger] f(i) >= 0real by {
        exact::lemma_square_nonneg(phi(s.x[s.base - t + i]));
    }
    lemma_total_squares(f, s.n);
}

/// The multiple of a fraction of the period that has to agree with it.
pub open spec fn multiple(k: int) -> int {
    seq![0int, 0, 3, 2, 3, 2, 5, 2, 3, 2, 3, 2, 5, 2, 3, 2][k]
}

/// The periods that are tried for divisor `k`: the period over `k`, and a
/// multiple of that, both to the nearest sample. For the divisor 2 the multiple
/// is the sum of the period and its half, or the period itself where that is too
/// long.
pub proof fn lemma_fractions_of_period<S: Sample>(s: Setting<S>, k: int)
    requires
        1 <= s.t0 < s.base,
        2 <= k <= 15,
    ensures
        -k <= 2 * (k * s.divided(k) - s.t0) <= k,
        k > 2 ==> -k <= 2 * (k * s.partner(k) - multiple(k) * s.t0) <= k,
        k == 2 ==> s.partner(2) == if s.divided(2) + s.t0 > s.base {
            s.t0
        } else {
            s.t0 + s.divided(2)
        },
{
    let d = 2 * k;
    lemma_rounded(2 * s.t0 + k, d);
    let q = s.divided(k);
    assert(d * q == 2 * (k * q)) by (nonlinear_arith)
        requires
            d == 2 * k,
    ;
    if k > 2 {
        let c = multiple(k);
        assert(c == pitch::second_check(k));
        let t = s.t0;
        assert(2 * c * t == 2 * (c * t)) by (nonlinear_arith);
        lemma_rounded(2 * c * t + k, d);
        let p = s.partner(k);
        assert(d * p == 2 * (k * p)) by (nonlinear_arith)
            requires
                d == 2 * k,
        ;
    }
}

proof fn lemma_rounded(a: int, d: int)
    requires
        d > 0,
    ensures
        0 <= a - d * (a / d) < d,
{
    vstd::arithmetic::div_mod::lemma_fundamental_div_mod(a, d);
    vstd::arithmetic::div_mod::lemma_mod_bound(a, d);
}

/// How a period is held against the last one: a period within one sample of the
/// last gains as much as the last had, one within two samples half of that where
/// the divisor is small against the period, others nothing.
pub open spec fn bonus(d: int, k: int, t0: int, last_gain: real) -> real {
    if -1 <= d <= 1 {
        last_gain
    } else if -2 <= d <= 2 && 5 * k * k < t0 {
        last_gain / 2real
    } else {
        0real
    }
}

/// What a period has to exceed: 0.7 times the gain of the whole period, less
/// what it gains from being close to the last, and at least 0.3. For short periods
/// it is 0.85 times and at least 0.4.
pub proof fn lemma_threshold<S: Sample>(phi: spec_fn(S) -> real, s: Setting<S>, k: int)
    requires
        dft::exact(phi),
        exact::counts(phi),
        exact::compares(phi),
        perfect::fractions(phi),
    ensures
        ({
            let b = bonus(s.divided(k) - s.last_period, k, s.t0, phi(s.last_gain));
            let g = phi(s.gain0());
            phi(s.threshold(k)) == if s.divided(k) < 3 * s.shortest {
                perfect::larger(85real / 100real * g - b, 4real / 10real)
            } else {
                perfect::larger(7real / 10real * g - b, 3real / 10real)
            }
        }),
        s.gain0() == pitch::gain_of(s.corr(s.t0), s.corr(0), s.energy(s.t0)),
{
    perfect::lemma_zero_one(phi);
    perfect::lemma_frac::<S>(phi, 85, 100);
    perfect::lemma_frac::<S>(phi, 4, 10);
    perfect::lemma_frac::<S>(phi, 7, 10);
    perfect::lemma_frac::<S>(phi, 3, 10);
    let b = bonus(s.divided(k) - s.last_period, k, s.t0, phi(s.last_gain));
    let h = S::frac(1, 2);
    assert(phi(h) == 1real / 2real);
    assert(phi(h * s.last_gain) == phi(s.last_gain) / 2real);
    assert(phi(s.continuity(k)) == b);
    assert(phi(S::frac(85, 100)) == 85real / 100real);
    assert(phi(S::frac(7, 10)) == 7real / 10real);
    assert(phi(S::frac(85, 100) * s.gain0()) == 85real / 100real * phi(s.gain0()));
    assert(phi(S::frac(7, 10) * s.gain0()) == 7real / 10real * phi(s.gain0()));
}

/// The correction of a period, divisor by divisor. It starts from the whole
/// period. It ends at the first divisor that gives a period that is too short. A
/// period is taken where its gain, from the means of its own product and energy
/// and those of its multiple, exceeds what it has to; else what was found stays.
pub proof fn lemma_correction<S: Sample>(
    phi: spec_fn(S) -> real,
    psi: spec_fn(S::Wide) -> real,
    s: Setting<S>,
    k: int,
)
    requires
        perfect::perfect(phi, psi),
        s.base + s.n <= s.x.len(),
        1 <= s.t0 < s.base,
        2 <= k <= 15,
    ensures
        s.upto(2) == (Period {
            t: s.t0,
            gain: s.gain0(),
            xy: s.corr(s.t0),
            yy: s.energy(s.t0),
            done: false,
        }),
        ({
            let p = s.upto(k as nat);
            let q = s.upto((k + 1) as nat);
            let (t1, t2) = (s.divided(k), s.partner(k));
            &&& p.done || t1 < s.shortest ==> q == (Period { done: true, ..p })
            &&& !p.done && t1 >= s.shortest ==> !q.done && exists|g: S, xy: S, yy: S|
                {
                    &&& 2real * phi(xy) == product_at(phi, s, t1) + product_at(phi, s, t2)
                    &&& 2real * phi(yy) == energy_at(phi, s, t1) + energy_at(phi, s, t2)
                    &&& delay_gain(phi(xy), energy_at(phi, s, 0), phi(yy), phi(g))
                    &&& phi(g) > phi(s.threshold(k)) ==> q == (#[trigger] taken(t1, g, xy, yy))
                    &&& phi(g) <= phi(s.threshold(k)) ==> q == p
                }
        }),
{
    let p = s.upto(k as nat);
    let q = s.upto((k + 1) as nat);
    let (t1, t2) = (s.divided(k), s.partner(k));
    lemma_in_reach(s, k);
    lemma_corr(phi, s, t1);
    lemma_corr(phi, s, t2);
    lemma_corr(phi, s, 0);
    lemma_window_energy(phi, s, t1);
    lemma_window_energy(phi, s, t2);
    lemma_window_energy(phi, s, 0);
    let half = S::frac(1, 2);
    assert(phi(half) == 1real / 2real);
    let xy = half * (s.corr(t1) + s.corr(t2));
    let yy = half * (s.energy(t1) + s.energy(t2));
    let g = pitch::gain_of(xy, s.corr(0), yy);
    assert(phi(xy) == 1real / 2real * phi(s.corr(t1) + s.corr(t2)));
    assert(phi(yy) == 1real / 2real * phi(s.energy(t1) + s.energy(t2)));
    assert(s.energy(0) == s.corr(0));
    lemma_gain(phi, psi, xy, s.corr(0), yy);
    assert(q == s.step(p, k));
    if !p.done && t1 >= s.shortest {
        if s.threshold(k).lt_of(g) {
            assert(q == taken(t1, g, xy, yy));
        } else {
            assert(taken(t1, g, xy, yy).t == t1);
        }
        assert(!p.done);
    }
}

/// A period that was taken.
pub open spec fn taken<S>(t: int, gain: S, xy: S, yy: S) -> Period<S> {
    Period { t, gain, xy, yy, done: false }
}

/// The periods that are tried lie inside the signal.
proof fn lemma_in_reach<S: Sample>(s: Setting<S>, k: int)
    requires
        1 <= s.t0 < s.base,
        2 <= k <= 15,
    ensures
        0 <= s.divided(k) <= s.base,
        0 <= s.partner(k) <= s.base,
{
    lemma_fractions_of_period(s, k);
    let (t, d, p) = (s.t0, s.divided(k), s.partner(k));
    assert(0 <= d <= t) by (nonlinear_arith)
        requires
            -k <= 2 * (k * d - t) <= k,
            k >= 2,
            t >= 1,
    ;
    if k > 2 {
        let c = multiple(k);
        assert(1 <= c < k);
        assert(0 <= p <= t) by (nonlinear_arith)
            requires
                -k <= 2 * (k * p - c * t) <= k,
                1 <= c < k,
                t >= 1,
        ;
    }
}

/// The gain of the corrected period: the product over one plus the energy, one
/// where the product reaches the energy, none where it is negative, and at most
/// the gain of the search. The period is corrected by one sample toward the
/// larger of its neighbours' products.
pub proof fn lemma_corrected<S: Sample>(phi: spec_fn(S) -> real, s: Setting<S>)
    requires
        dft::exact(phi),
        exact::divides(phi),
        exact::counts(phi),
        exact::compares(phi),
        forall|a: S, b: S| #[trigger] a.le_of(b) <==> phi(a) <= phi(b),
        phi(s.upto(16).yy) >= 0real,
    ensures
        ({
            let p = s.upto(16);
            let xy = perfect::larger(phi(p.xy), 0real);
            let yy = phi(p.yy);
            let g = phi(s.gain());
            &&& g <= phi(p.gain)
            &&& xy >= yy ==> g == if phi(p.gain) < 1real {
                phi(p.gain)
            } else {
                1real
            }
            &&& xy < yy ==> g * (yy + 1real) <= xy && (g == phi(p.gain) || g * (yy + 1real) == xy)
            &&& s.period() == 2 * p.t + pitch::side_of(
                s.near_corr(p.t - 1),
                s.near_corr(p.t),
                s.near_corr(p.t + 1),
            )
        }),
{
    perfect::lemma_zero_one(phi);
    let p = s.upto(16);
    let xy = p.xy.max_of(S::nil());
    let yy = phi(p.yy);
    if !p.yy.le_of(xy) {
        let d = p.yy + S::unit();
        let t = phi(xy / d);
        assert(phi(d) == yy + 1real);
        assert(t * phi(d) == phi(xy));
        let g = phi(s.gain());
        assert(g * (yy + 1real) <= t * (yy + 1real)) by (nonlinear_arith)
            requires
                g <= t,
                yy >= 0real,
        ;
    }
}

/// On which side of a peak the true peak lies: toward a neighbour that exceeds
/// the other by more than 0.7 times what the peak does. The two sides mirror each
/// other.
pub proof fn lemma_side<S: Sample>(phi: spec_fn(S) -> real, a: S, b: S, c: S)
    requires
        dft::exact(phi),
        exact::counts(phi),
        exact::compares(phi),
        perfect::fractions(phi),
        phi(a) <= phi(b),
        phi(c) <= phi(b),
    ensures
        pitch::side_of(a, b, c) == 1 <==> 10real * (phi(c) - phi(a)) > 7real * (phi(b) - phi(a)),
        pitch::side_of(a, b, c) == -1 <==> 10real * (phi(a) - phi(c)) > 7real * (phi(b) - phi(c)),
        -1 <= pitch::side_of(a, b, c) <= 1,
        pitch::side_of(c, b, a) == -pitch::side_of(a, b, c),
{
    perfect::lemma_frac::<S>(phi, 7, 10);
    let k = S::frac(7, 10);
    assert(phi(k) == 7real / 10real);
    assert(phi(k * (b - a)) == 7real / 10real * (phi(b) - phi(a)));
    assert(phi(k * (b - c)) == 7real / 10real * (phi(b) - phi(c)));
}

/// The search for the best delay. On every fourth sample the two best delays are
/// found; near these the delays on every second sample are compared, where the
/// products that are below minus one count as minus one and all other delays for
/// nothing. The best is corrected by one sample, unless it is at an end.
pub proof fn lemma_search<S: Sample>(
    phi: spec_fn(S) -> real,
    x: Seq<S>,
    y: Seq<S>,
    len: nat,
    max_pitch: nat,
    i: int,
)
    requires
        dft::exact(phi),
        exact::counts(phi),
        exact::compares(phi),
        0 <= i < max_pitch / 2,
    ensures
        ({
            let x4 = Seq::new(len / 4, |j: int| x[2 * j]);
            let y4 = Seq::new((len + max_pitch) / 4, |j: int| y[2 * j]);
            let coarse = pitch::search_upto(
                celt_lpc::lag_corrs(x4, y4, len / 4, max_pitch / 4),
                y4,
                len / 4,
                max_pitch / 4,
            );
            let near = -2 <= i - 2 * coarse.lag0 <= 2 || -2 <= i - 2 * coarse.lag1 <= 2;
            let corrs = pitch::fine_corrs(x, y, len, max_pitch, coarse.lag0, coarse.lag1);
            let b = pitch::search_upto(corrs, y, len / 2, max_pitch / 2).lag0;
            &&& corrs.len() == max_pitch / 2
            &&& near ==> phi(corrs[i]) == perfect::larger(
                exact::products(phi, x, y.skip(i), len / 2),
                -1real,
            )
            &&& !near ==> phi(corrs[i]) == 0real
            &&& pitch::best_lag(x, y, len, max_pitch) == 2 * b - if 0 < b < max_pitch / 2 - 1 {
                pitch::side_of(corrs[b - 1], corrs[b], corrs[b + 1])
            } else {
                0
            }
        }),
{
    perfect::lemma_zero_one(phi);
    assert(phi(S::num(-1)) == -1real);
    exact::lemma_inner_products(phi, x, y.skip(i), len / 2);
    let x4 = Seq::new(len / 4, |j: int| x[2 * j]);
    let y4 = Seq::new((len + max_pitch) / 4, |j: int| y[2 * j]);
    assert(pitch::evens(x, len / 4) == x4);
    assert(pitch::evens(y, (len + max_pitch) / 4) == y4);
}

/// The pitch analysis as a whole: the signal is decimated and whitened, the best
/// delay is searched for in it, and the period that it stands for is corrected,
/// given what the last frame had. The period is at least 60 samples.
pub proof fn lemma_pitch<S: Sample>(buf: Seq<S>, last_period: int, last_gain: S)
    requires
        last_period >= 0,
    ensures
        ({
            let ds = pitch::downsampled(buf, 1728);
            let lag = pitch::best_lag(ds.skip(384), ds, 960, 588);
            let t = (768 - lag) / 2;
            let s = Setting {
                x: ds,
                base: 384,
                shortest: 30,
                n: 480,
                t0: if t < 384 {
                    t
                } else {
                    383
                },
                last_period: last_period / 2,
                last_gain,
            };
            let found = denoise::pitch_of(buf, last_period, last_gain);
            &&& found.period == if s.period() < 60 {
                60
            } else {
                s.period()
            }
            &&& found.gain == s.gain()
        }),
{
    reveal(denoise::pitch_of);
}

} // verus!
