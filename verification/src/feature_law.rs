//! What the features tell the networks: the cosine transform of the logarithmic
//! band energies, that of the correlations with the signal one pitch period
//! earlier, and the period.

use vstd::prelude::*;
use crate::arith::{Arith, Real, Sample, SampleArith};
use crate::common;
use crate::denoise::FrameView;
use crate::denoise;
use crate::dft;
use crate::exact;
use crate::legacy_denoise::SpectraView;
use crate::legacy_denoise;
use crate::perfect;
use crate::predictor;

verus! {

/// `psi` reads decimal logarithms as `log`.
pub open spec fn logarithms<W: Real>(psi: spec_fn(W) -> real, log: spec_fn(real) -> real) -> bool {
    forall|w: W| psi(w) > 0real ==> psi(#[trigger] w.log10_of()) == log(psi(w))
}

/// `psi` reads cosines as `cos`.
pub open spec fn cosines<W: Real>(psi: spec_fn(W) -> real, cos: spec_fn(real) -> real) -> bool {
    forall|w: W| psi(#[trigger] w.cos_of()) == cos(psi(w))
}

/// The largest of the first `b` numbers, at least -2.
pub open spec fn peak(v: spec_fn(int) -> real, b: nat) -> real
    decreases b,
{
    if b == 0 {
        -2real
    } else {
        perfect::larger(peak(v, (b - 1) as nat), v(b - 1))
    }
}

/// Logarithmic band energy `b`, given those below it: the logarithm of the
/// energy plus 0.01, but at most 7 below the largest so far and at most 1.5
/// below the band before, where -2 stands for what comes before the first band.
pub open spec fn log_energy(
    log: spec_fn(real) -> real,
    energy: real,
    v: spec_fn(int) -> real,
    b: int,
) -> real {
    perfect::larger(
        log(1real / 100real + energy),
        perfect::larger(
            peak(v, b as nat) - 7real,
            if b == 0 {
                -2real
            } else {
                v(b - 1)
            } - 3real / 2real,
        ),
    )
}

/// What the logarithmic energies of the first `n` bands are made of.
proof fn lemma_log_upto<S: Sample>(
    phi: spec_fn(S) -> real,
    psi: spec_fn(S::Wide) -> real,
    log: spec_fn(real) -> real,
    ex: Seq<S>,
    n: nat,
)
    requires
        perfect::perfect(phi, psi),
        logarithms(psi, log),
        forall|b: int| 0 <= b < n ==> phi(#[trigger] ex[b]) >= 0real,
    ensures
        ({
            let all = denoise::log_bands(ex, n);
            let v = |b: int| phi(all.ly[b]);
            &&& all.ly.len() == n
            &&& phi(all.log_max) == peak(v, n)
            &&& phi(all.follow) == if n == 0 {
                -2real
            } else {
                v(n - 1)
            }
            &&& phi(all.e) == predictor::total(|b: int| phi(ex[b]), n)
            &&& forall|b: int|
                0 <= b < n ==> #[trigger] v(b) == log_energy(log, phi(ex[b]), v, b)
        }),
    decreases n,
{
    perfect::lemma_zero_one(phi);
    let all = denoise::log_bands(ex, n);
    let v = |b: int| phi(all.ly[b]);
    perfect::lemma_frac(phi, (-2) as i64, 1);
    dft::lemma_units(phi(S::num(-2)));
    assert(phi(S::num(-2)) == -2real);
    if n > 0 {
        let m = (n - 1) as nat;
        lemma_log_upto(phi, psi, log, ex, m);
        let before = denoise::log_bands(ex, m);
        let u = |b: int| phi(before.ly[b]);
        let x = ex[n - 1];
        assert(phi(x) >= 0real);
        perfect::lemma_frac(psi, 1, 100);
        perfect::lemma_frac(psi, 3, 2);
        let w = <S::Wide as Arith>::frac(1, 100) + x.wide();
        assert(psi(w) == 1real / 100real + phi(x));
        assert(phi(denoise::log_energy(x)) == log(1real / 100real + phi(x)));
        assert(psi(denoise::decayed(before.follow)) == phi(before.follow) - 3real / 2real);
        assert(phi(S::num(7)) == 7real);
        assert(all.ly.len() == n);
        assert forall|b: int| 0 <= b < m implies #[trigger] v(b) == u(b) by {
            assert(all.ly[b] == before.ly[b]);
        }
        lemma_peak_same(u, v, m);
        assert(v(n - 1) == log_energy(log, phi(x), v, n - 1)) by {
            if m > 0 {
                assert(v(m - 1) == u(m - 1));
            }
        }
        assert forall|b: int| 0 <= b < n implies #[trigger] v(b) == log_energy(
            log,
            phi(ex[b]),
            v,
            b,
        ) by {
            if b < m {
                assert(u(b) == log_energy(log, phi(ex[b]), u, b));
                lemma_peak_same(u, v, b as nat);
                if b > 0 {
                    assert(v(b - 1) == u(b - 1));
                }
            }
        }
    }
}

proof fn lemma_peak_same(u: spec_fn(int) -> real, v: spec_fn(int) -> real, n: nat)
    requires
        forall|b: int| 0 <= b < n ==> #[trigger] v(b) == u(b),
    ensures
        peak(u, n) == peak(v, n),
    decreases n,
{
    if n > 0 {
        lemma_peak_same(u, v, (n - 1) as nat);
        assert(v(n - 1) == u(n - 1));
    }
}

/// The logarithmic energies of the 32 bands, and the sum of the energies, which
/// tells whether a frame is silent: it is below 0.04.
pub proof fn lemma_log_energies<S: Sample>(
    phi: spec_fn(S) -> real,
    psi: spec_fn(S::Wide) -> real,
    log: spec_fn(real) -> real,
    f: FrameView<S>,
)
    requires
        perfect::perfect(phi, psi),
        logarithms(psi, log),
        forall|b: int| 0 <= b < 32 ==> phi(#[trigger] f.ex[b]) >= 0real,
    ensures
        ({
            let ly = denoise::log_bands(f.ex, 32).ly;
            let v = |b: int| phi(ly[b]);
            &&& ly.len() == 32
            &&& forall|b: int|
                0 <= b < 32 ==> #[trigger] v(b) == log_energy(log, phi(f.ex[b]), v, b)
            &&& denoise::is_silence(f) <==> predictor::total(|b: int| phi(f.ex[b]), 32) < 4real
                / 100real
        }),
{
    lemma_log_upto(phi, psi, log, f.ex, 32);
    perfect::lemma_frac(phi, 4, 100);
    reveal(denoise::is_silence);
}

proof fn lemma_energy_sum<S: Sample>(phi: spec_fn(S) -> real, ex: Seq<S>, n: nat)
    requires
        dft::exact(phi),
        exact::counts(phi),
    ensures
        phi(denoise::log_bands(ex, n).e) == predictor::total(|b: int| phi(ex[b]), n),
        phi(legacy_denoise::log_bands(ex, n).e) == predictor::total(|b: int| phi(ex[b]), n),
    decreases n,
{
    perfect::lemma_zero_one(phi);
    if n > 0 {
        lemma_energy_sum(phi, ex, (n - 1) as nat);
    }
}

/// A frame is silent if and only if the energies of its 32 bands sum up to less
/// than 0.04.
pub proof fn lemma_silence<S: Sample>(phi: spec_fn(S) -> real, f: FrameView<S>)
    requires
        dft::exact(phi),
        exact::counts(phi),
        exact::compares(phi),
        perfect::fractions(phi),
    ensures
        denoise::is_silence(f) <==> predictor::total(|b: int| phi(f.ex[b]), 32) < 4real / 100real,
{
    reveal(denoise::is_silence);
    lemma_energy_sum(phi, f.ex, 32);
    perfect::lemma_frac(phi, 4, 100);
}

/// A frame of the smaller network's signal path is silent if and only if the
/// energies of its 22 bands sum up to less than 0.04.
pub proof fn lemma_few_silence<S: Sample>(phi: spec_fn(S) -> real, f: SpectraView<S>)
    requires
        dft::exact(phi),
        exact::counts(phi),
        exact::compares(phi),
        perfect::fractions(phi),
    ensures
        legacy_denoise::is_silence(f) <==> predictor::total(|b: int| phi(f.ex[b]), 22) < 4real
            / 100real,
{
    reveal(legacy_denoise::is_silence);
    lemma_energy_sum(phi, f.ex, 22);
    perfect::lemma_frac(phi, 4, 100);
}

/// Entry `(b, j)` of the cosine transform of `n` bands: the cosine of `j` times
/// the middle of band `b`, where half a turn `pi` spans all bands. The entries
/// for `j == 0` are divided by the root of two; `root` is the root of one half.
pub open spec fn cosine_entry(
    cos: spec_fn(real) -> real,
    pi: real,
    root: real,
    n: int,
    b: int,
    j: int,
) -> real {
    let c = cos((b as real + 1real / 2real) * (j as real) * pi / (n as real));
    if j == 0 {
        c * root
    } else {
        c
    }
}

/// The cosine transform of `n` numbers at `j`, with the factor
/// 0.3015113445777635.
pub open spec fn cosine_sum(
    cos: spec_fn(real) -> real,
    pi: real,
    root: real,
    n: nat,
    v: spec_fn(int) -> real,
    j: int,
) -> real {
    predictor::total(|b: int| v(b) * cosine_entry(cos, pi, root, n as int, b, j), n) * (
    3015113445777635real / 10000000000000000real)
}

/// A quotient, from its multiple.
proof fn lemma_over(t: real, n: real, x: real)
    requires
        t * n == x,
        n != 0real,
    ensures
        t == x / n,
{
    assert(t == x / n) by (nonlinear_arith)
        requires
            t * n == x,
            n != 0real,
    ;
}

proof fn lemma_entry<W: Real>(
    psi: spec_fn(W) -> real,
    cos: spec_fn(real) -> real,
    n: int,
    b: int,
    j: int,
)
    requires
        forall|a: W, b: W| #[trigger] psi(a + b) == psi(a) + psi(b),
        forall|a: W, b: W| #[trigger] psi(a * b) == psi(a) * psi(b),
        exact::divides(psi),
        exact::counts(psi),
        perfect::fractions(psi),
        cosines(psi, cos),
        1 <= n <= 1000,
        0 <= b < n,
        0 <= j < n,
    ensures
        psi(common::cosine_entry::<W>(n, b, j)) == cosine_entry(
            cos,
            psi(W::pi_of()),
            psi(W::frac(1, 2).sqrt_of()),
            n,
            b,
            j,
        ),
{
    perfect::lemma_frac(psi, 1, 2);
    let top = (W::num(b) + W::frac(1, 2)) * W::num(j) * W::pi_of();
    let bottom = W::num(n);
    assert(psi(W::num(b)) == b as real);
    assert(psi(W::num(j)) == j as real);
    assert(psi(bottom) == n as real);
    assert(psi(W::frac(1, 2)) == 1real / 2real);
    assert(psi(top) == (b as real + 1real / 2real) * (j as real) * psi(W::pi_of()));
    assert(psi(top / bottom) * psi(bottom) == psi(top));
    lemma_over(psi(top / bottom), n as real, psi(top));
}

/// Row `b`, column `j` of a table that is stored row by row.
proof fn lemma_table_place(b: int, j: int, n: int)
    requires
        0 <= b < n,
        0 <= j < n,
    ensures
        0 <= b * n + j < n * n,
        (b * n + j) / n == b,
        (b * n + j) % n == j,
{
    assert(0 <= b * n + j < n * n) by (nonlinear_arith)
        requires
            0 <= b < n,
            0 <= j < n,
    ;
    vstd::arithmetic::div_mod::lemma_fundamental_div_mod_converse(b * n + j, n, b, j);
}

proof fn lemma_column<S: Sample>(
    phi: spec_fn(S) -> real,
    psi: spec_fn(S::Wide) -> real,
    cos: spec_fn(real) -> real,
    n: nat,
    x: Seq<S>,
    j: int,
    m: nat,
)
    requires
        perfect::perfect(phi, psi),
        cosines(psi, cos),
        1 <= n <= 1000,
        0 <= j < n,
        m <= n,
    ensures
        phi(common::column_sum(common::cosine_table::<S>(n), n as int, x, j, m))
            == predictor::total(
            |b: int|
                phi(x[b]) * cosine_entry(
                    cos,
                    psi(<S::Wide as Arith>::pi_of()),
                    psi(<S::Wide as Arith>::frac(1, 2).sqrt_of()),
                    n as int,
                    b,
                    j,
                ),
            m,
        ),
    decreases m,
{
    perfect::lemma_zero_one(phi);
    if m > 0 {
        let b = m - 1;
        lemma_column(phi, psi, cos, n, x, j, b as nat);
        lemma_table_place(b, j, n as int);
        lemma_entry(psi, cos, n as int, b, j);
        let table = common::cosine_table::<S>(n);
        let k = b * n + j;
        assert(n * n == n as int * n as int);
        assert(table[k] == S::narrowed(
            common::cosine_entry::<S::Wide>(n as int, k / (n as int), k % (n as int)),
        ));
    }
}

/// The cosine transform of `n` numbers.
pub proof fn lemma_transform<S: Sample>(
    phi: spec_fn(S) -> real,
    psi: spec_fn(S::Wide) -> real,
    cos: spec_fn(real) -> real,
    n: nat,
    x: Seq<S>,
    j: int,
)
    requires
        perfect::perfect(phi, psi),
        cosines(psi, cos),
        1 <= n <= 1000,
        0 <= j < n,
    ensures
        ({
            let root = psi(<S::Wide as Arith>::frac(1, 2).sqrt_of());
            &&& root >= 0real && root * root == 1real / 2real
            &&& phi(common::cosines(common::cosine_table::<S>(n), n, x)[j]) == cosine_sum(
                cos,
                psi(<S::Wide as Arith>::pi_of()),
                root,
                n,
                |b: int| phi(x[b]),
                j,
            )
        }),
{
    perfect::lemma_frac(psi, 1, 2);
    perfect::lemma_frac(psi, 3015113445777635, 10000000000000000);
    lemma_column(phi, psi, cos, n, x, j, n);
    let pi = psi(<S::Wide as Arith>::pi_of());
    let root = psi(<S::Wide as Arith>::frac(1, 2).sqrt_of());
    let v = |b: int| phi(x[b]);
    let f = |b: int| phi(x[b]) * cosine_entry(cos, pi, root, n as int, b, j);
    let g = |b: int| v(b) * cosine_entry(cos, pi, root, n as int, b, j);
    predictor::lemma_total_same(f, g, n);
    assert(psi(common::dct_scale::<S::Wide>()) == 3015113445777635real / 10000000000000000real);
}

/// What is taken off the first two cosine coefficients of the energies.
pub open spec fn offset(j: int) -> real {
    if j == 0 {
        12real
    } else if j == 1 {
        4real
    } else {
        0real
    }
}

/// The 65 features of a frame: the cosine transform of the logarithmic band
/// energies, less 12 and 4 for the first two; that of the correlations; and the
/// pitch period, less 300, over 100.
pub proof fn lemma_features<S: Sample>(
    phi: spec_fn(S) -> real,
    psi: spec_fn(S::Wide) -> real,
    cos: spec_fn(real) -> real,
    f: FrameView<S>,
    period: int,
    j: int,
)
    requires
        perfect::perfect(phi, psi),
        cosines(psi, cos),
        0 <= period <= 1000,
        0 <= j < 32,
    ensures
        ({
            let pi = psi(<S::Wide as Arith>::pi_of());
            let root = psi(<S::Wide as Arith>::frac(1, 2).sqrt_of());
            let all = denoise::features_of(f, period);
            let ly = denoise::log_bands(f.ex, 32).ly;
            &&& all.len() == 65
            &&& phi(all[j]) == cosine_sum(cos, pi, root, 32, |b: int| phi(ly[b]), j) - offset(j)
            &&& phi(all[32 + j]) == cosine_sum(cos, pi, root, 32, |b: int| phi(f.exp[b]), j)
            &&& phi(all[64]) == (period - 300) as real / 100real
        }),
{
    reveal(denoise::features_of);
    let ly = denoise::log_bands(f.ex, 32).ly;
    lemma_transform(phi, psi, cos, 32, ly, j);
    lemma_transform(phi, psi, cos, 32, f.exp, j);
    perfect::lemma_frac(phi, 1, 100);
    assert(phi(S::num(12)) == 12real);
    assert(phi(S::num(4)) == 4real);
    assert(phi(S::num(period)) == period as real);
    assert(phi(S::num(300)) == 300real);
    assert((period - 300) as real == period as real - 300real);
    let all = denoise::features_of(f, period);
    let table = common::cosine_table::<S>(32);
    let lows = common::cosines(table, 32, ly);
    let highs = common::cosines(table, 32, f.exp);
    assert(all.len() == 65);
    assert(all[32 + j] == highs[j]);
    assert(all[64] == S::frac(1, 100) * (S::num(period) - S::num(300)));
    assert(phi(S::frac(1, 100)) == 1real / 100real);
    let p = (period - 300) as real;
    assert(phi(S::num(period) - S::num(300)) == p);
    assert((1real / 100real) * p == p / 100real);
    assert(all[j] == if j == 0 {
        lows[0] - S::num(12)
    } else if j == 1 {
        lows[1] - S::num(4)
    } else {
        lows[j]
    });
}

/// How two frames compare: where the logarithmic energy of every band of the
/// first is `d` above that of the second, feature `j` of the first is above that
/// of the second by `d` times the transform of ones. Where the correlations and
/// the periods are the same, so are the other features.
pub proof fn lemma_louder<S: Sample>(
    phi: spec_fn(S) -> real,
    psi: spec_fn(S::Wide) -> real,
    cos: spec_fn(real) -> real,
    one: FrameView<S>,
    two: FrameView<S>,
    period: int,
    d: real,
    j: int,
)
    requires
        perfect::perfect(phi, psi),
        cosines(psi, cos),
        0 <= period <= 1000,
        0 <= j < 32,
        one.exp == two.exp,
        forall|b: int|
            0 <= b < 32 ==> phi(#[trigger] denoise::log_bands(one.ex, 32).ly[b]) == phi(
                denoise::log_bands(two.ex, 32).ly[b],
            ) + d,
    ensures
        ({
            let pi = psi(<S::Wide as Arith>::pi_of());
            let root = psi(<S::Wide as Arith>::frac(1, 2).sqrt_of());
            let (a, b) = (denoise::features_of(one, period), denoise::features_of(two, period));
            &&& phi(a[j]) == phi(b[j]) + d * cosine_sum(cos, pi, root, 32, |b: int| 1real, j)
            &&& phi(a[32 + j]) == phi(b[32 + j])
            &&& phi(a[64]) == phi(b[64])
        }),
{
    lemma_features(phi, psi, cos, one, period, j);
    lemma_features(phi, psi, cos, two, period, j);
    let pi = psi(<S::Wide as Arith>::pi_of());
    let root = psi(<S::Wide as Arith>::frac(1, 2).sqrt_of());
    let (l1, l2) = (denoise::log_bands(one.ex, 32).ly, denoise::log_bands(two.ex, 32).ly);
    let e = |b: int| cosine_entry(cos, pi, root, 32, b, j);
    let (v1, v2, ones) = (|b: int| phi(l1[b]), |b: int| phi(l2[b]), |b: int| 1real);
    let h = |b: int| v1(b) * cosine_entry(cos, pi, root, 32, b, j);
    let f = |b: int| v2(b) * cosine_entry(cos, pi, root, 32, b, j);
    let g = |b: int| ones(b) * cosine_entry(cos, pi, root, 32, b, j);
    assert forall|b: int| 0 <= b < 32 implies #[trigger] h(b) == f(b) + d * g(b) by {
        assert(phi(l1[b]) == phi(l2[b]) + d);
        dft::lemma_dist(phi(l2[b]), d, e(b));
        dft::lemma_units(e(b));
    }
    predictor::lemma_total_mix(f, g, h, d, 32);
    let c = 3015113445777635real / 10000000000000000real;
    let (x, y) = (predictor::total(f, 32), predictor::total(g, 32));
    dft::lemma_dist(x, d * y, c);
    dft::lemma_assoc(d, y, c);
}

/// What the logarithmic energies of the first `n` of the smaller network's bands
/// are made of.
proof fn lemma_few_log_upto<S: Sample>(
    phi: spec_fn(S) -> real,
    log: spec_fn(real) -> real,
    ex: Seq<S>,
    n: nat,
)
    requires
        dft::exact(phi),
        exact::counts(phi),
        exact::compares(phi),
        perfect::fractions(phi),
        logarithms(phi, log),
        forall|b: int| 0 <= b < n ==> phi(#[trigger] ex[b]) >= 0real,
    ensures
        ({
            let all = legacy_denoise::log_bands(ex, n);
            let v = |b: int| phi(all.ly[b]);
            &&& all.ly.len() == n
            &&& phi(all.log_max) == peak(v, n)
            &&& phi(all.follow) == if n == 0 {
                -2real
            } else {
                v(n - 1)
            }
            &&& phi(all.e) == predictor::total(|b: int| phi(ex[b]), n)
            &&& forall|b: int|
                0 <= b < n ==> #[trigger] v(b) == log_energy(log, phi(ex[b]), v, b)
        }),
    decreases n,
{
    perfect::lemma_zero_one(phi);
    let all = legacy_denoise::log_bands(ex, n);
    let v = |b: int| phi(all.ly[b]);
    perfect::lemma_frac(phi, (-2) as i64, 1);
    dft::lemma_units(phi(S::num(-2)));
    assert(phi(S::num(-2)) == -2real);
    if n > 0 {
        let m = (n - 1) as nat;
        lemma_few_log_upto(phi, log, ex, m);
        let before = legacy_denoise::log_bands(ex, m);
        let u = |b: int| phi(before.ly[b]);
        let x = ex[n - 1];
        assert(phi(x) >= 0real);
        perfect::lemma_frac(phi, 1, 100);
        perfect::lemma_frac(phi, 3, 2);
        let w = S::frac(1, 100) + x;
        assert(phi(w) == 1real / 100real + phi(x));
        assert(phi(w.log10_of()) == log(1real / 100real + phi(x)));
        let low = before.follow - S::frac(3, 2);
        assert(phi(low) == phi(before.follow) - 3real / 2real);
        assert(phi(S::num(7)) == 7real);
        assert(all.ly.len() == n);
        assert forall|b: int| 0 <= b < m implies #[trigger] v(b) == u(b) by {
            assert(all.ly[b] == before.ly[b]);
        }
        lemma_peak_same(u, v, m);
        assert(v(n - 1) == log_energy(log, phi(x), v, n - 1)) by {
            if m > 0 {
                assert(v(m - 1) == u(m - 1));
            }
        }
        assert forall|b: int| 0 <= b < n implies #[trigger] v(b) == log_energy(
            log,
            phi(ex[b]),
            v,
            b,
        ) by {
            if b < m {
                assert(u(b) == log_energy(log, phi(ex[b]), u, b));
                lemma_peak_same(u, v, b as nat);
                if b > 0 {
                    assert(v(b - 1) == u(b - 1));
                }
            }
        }
    }
}

/// The logarithmic energies of the smaller network's 22 bands, and the sum of
/// the energies, which tells whether a frame is silent: it is below 0.04.
pub proof fn lemma_few_log_energies<S: Sample>(
    phi: spec_fn(S) -> real,
    log: spec_fn(real) -> real,
    f: SpectraView<S>,
)
    requires
        dft::exact(phi),
        exact::counts(phi),
        exact::compares(phi),
        perfect::fractions(phi),
        logarithms(phi, log),
        forall|b: int| 0 <= b < 22 ==> phi(#[trigger] f.ex[b]) >= 0real,
    ensures
        ({
            let ly = legacy_denoise::log_bands(f.ex, 22).ly;
            let v = |b: int| phi(ly[b]);
            &&& ly.len() == 22
            &&& forall|b: int|
                0 <= b < 22 ==> #[trigger] v(b) == log_energy(log, phi(f.ex[b]), v, b)
            &&& legacy_denoise::is_silence(f) <==> predictor::total(|b: int| phi(f.ex[b]), 22)
                < 4real / 100real
        }),
{
    lemma_few_log_upto(phi, log, f.ex, 22);
    perfect::lemma_frac(phi, 4, 100);
    reveal(legacy_denoise::is_silence);
}

/// The cepstrum that is remembered of a frame: the cosine transform of the
/// logarithmic band energies, less 12 and 4 for the first two.
pub proof fn lemma_cepstrum<S: Sample>(
    phi: spec_fn(S) -> real,
    psi: spec_fn(S::Wide) -> real,
    cos: spec_fn(real) -> real,
    f: SpectraView<S>,
    j: int,
)
    requires
        perfect::perfect(phi, psi),
        cosines(psi, cos),
        0 <= j < 22,
    ensures
        ({
            let pi = psi(<S::Wide as Arith>::pi_of());
            let root = psi(<S::Wide as Arith>::frac(1, 2).sqrt_of());
            let ly = legacy_denoise::log_bands(f.ex, 22).ly;
            &&& legacy_denoise::cepstrum(f).len() == 22
            &&& phi(legacy_denoise::cepstrum(f)[j]) == cosine_sum(
                cos,
                pi,
                root,
                22,
                |b: int| phi(ly[b]),
                j,
            ) - offset(j)
        }),
{
    let ly = legacy_denoise::log_bands(f.ex, 22).ly;
    lemma_transform(phi, psi, cos, 22, ly, j);
    assert(phi(S::num(12)) == 12real);
    assert(phi(S::num(4)) == 4real);
    let c = common::cosines(common::cosine_table::<S>(22), 22, ly);
    assert(legacy_denoise::cepstrum(f)[j] == if j == 0 {
        c[0] - S::num(12)
    } else if j == 1 {
        c[1] - S::num(4)
    } else {
        c[j]
    });
}

/// The squared distance of two cepstra.
pub open spec fn distance<S>(phi: spec_fn(S) -> real, a: Seq<S>, b: Seq<S>) -> real {
    predictor::total(|k: int| (phi(a[k]) - phi(b[k])) * (phi(a[k]) - phi(b[k])), 22)
}

/// `d` is the least squared distance of cepstrum `i` to another of the eight, at
/// most 10^15.
pub open spec fn least_distance<S>(
    phi: spec_fn(S) -> real,
    mem: Seq<Seq<S>>,
    i: int,
    n: int,
    d: real,
) -> bool {
    &&& d <= 1000000000000000real
    &&& forall|j: int| 0 <= j < n && j != i ==> d <= #[trigger] distance(phi, mem[i], mem[j])
    &&& d == 1000000000000000real || exists|j: int|
        0 <= j < n && j != i && d == #[trigger] distance(phi, mem[i], mem[j])
}

proof fn lemma_distance<S: Sample>(phi: spec_fn(S) -> real, a: Seq<S>, b: Seq<S>, n: nat)
    requires
        dft::exact(phi),
        exact::counts(phi),
    ensures
        phi(legacy_denoise::distance(a, b, n)) == predictor::total(
            |k: int| (phi(a[k]) - phi(b[k])) * (phi(a[k]) - phi(b[k])),
            n,
        ),
    decreases n,
{
    perfect::lemma_zero_one(phi);
    if n > 0 {
        lemma_distance(phi, a, b, (n - 1) as nat);
    }
}

proof fn lemma_closest<S: Sample>(phi: spec_fn(S) -> real, mem: Seq<Seq<S>>, i: int, n: nat)
    requires
        dft::exact(phi),
        exact::counts(phi),
        exact::compares(phi),
        perfect::fractions(phi),
    ensures
        least_distance(phi, mem, i, n as int, phi(legacy_denoise::closest(mem, i, n))),
    decreases n,
{
    let d = phi(legacy_denoise::closest(mem, i, n));
    if n == 0 {
        perfect::lemma_frac::<S>(phi, 1_000_000_000_000_000, 1);
        dft::lemma_units(d);
    } else {
        let m = (n - 1) as nat;
        lemma_closest(phi, mem, i, m);
        let c = phi(legacy_denoise::closest(mem, i, m));
        if m != i {
            lemma_distance(phi, mem[i], mem[m as int], 22);
            let e = distance(phi, mem[i], mem[m as int]);
            assert(d == if e < c {
                e
            } else {
                c
            });
        }
        assert forall|j: int| 0 <= j < n && j != i implies d <= #[trigger] distance(
            phi,
            mem[i],
            mem[j],
        ) by {
            if j < m {
                assert(c <= distance(phi, mem[i], mem[j]));
            }
        }
        if d != 1000000000000000real && d == c {
            let j = choose|j: int|
                0 <= j < m && j != i && c == #[trigger] distance(phi, mem[i], mem[j]);
            assert(d == distance(phi, mem[i], mem[j]));
        }
    }
}

proof fn lemma_variability_upto<S: Sample>(phi: spec_fn(S) -> real, mem: Seq<Seq<S>>, n: nat)
    requires
        dft::exact(phi),
        exact::counts(phi),
    ensures
        phi(legacy_denoise::variability(mem, n)) == predictor::total(
            |i: int| phi(legacy_denoise::closest(mem, i, 8)),
            n,
        ),
    decreases n,
{
    perfect::lemma_zero_one(phi);
    if n > 0 {
        lemma_variability_upto(phi, mem, (n - 1) as nat);
    }
}

/// How much the remembered cepstra differ: the sum over the eight of the squared
/// distance to the closest other.
pub proof fn lemma_variability<S: Sample>(phi: spec_fn(S) -> real, mem: Seq<Seq<S>>)
    requires
        dft::exact(phi),
        exact::counts(phi),
        exact::compares(phi),
        perfect::fractions(phi),
    ensures
        exists|d: spec_fn(int) -> real|
            (forall|i: int| 0 <= i < 8 ==> least_distance(phi, mem, i, 8, #[trigger] d(i))) && phi(
                legacy_denoise::variability(mem, 8),
            ) == #[trigger] predictor::total(d, 8),
{
    let d = |i: int| phi(legacy_denoise::closest(mem, i, 8));
    lemma_variability_upto(phi, mem, 8);
    assert forall|i: int| 0 <= i < 8 implies least_distance(phi, mem, i, 8, #[trigger] d(i)) by {
        lemma_closest(phi, mem, i, 8);
    }
    assert(phi(legacy_denoise::variability(mem, 8)) == predictor::total(d, 8));
}

/// The 42 features of the smaller network. `mem` holds the cepstra of eight
/// frames around `at`, where the newest is. The first six coefficients are summed
/// over the last three frames, the others stand alone. The first and second
/// differences of these six follow, then the cosine transform of the
/// correlations, less 1.3 and 0.9 for the first two, the pitch period, less 300,
/// over 100, and the mean of the variability, less 2.1.
pub proof fn lemma_few_features<S: Sample>(
    phi: spec_fn(S) -> real,
    psi: spec_fn(S::Wide) -> real,
    cos: spec_fn(real) -> real,
    f: SpectraView<S>,
    period: int,
    mem: Seq<Seq<S>>,
    at: int,
    j: int,
)
    requires
        perfect::perfect(phi, psi),
        cosines(psi, cos),
        0 <= period <= 1000,
        0 <= at < 8,
        0 <= j < 22,
    ensures
        ({
            let pi = psi(<S::Wide as Arith>::pi_of());
            let root = psi(<S::Wide as Arith>::frac(1, 2).sqrt_of());
            let all = legacy_denoise::features_of(f, period, mem, at);
            let now = phi(mem[at][j]);
            let before = phi(mem[if at >= 1 {
                at - 1
            } else {
                at + 7
            }][j]);
            let earlier = phi(mem[if at >= 2 {
                at - 2
            } else {
                at + 6
            }][j]);
            let t = cosine_sum(cos, pi, root, 22, |b: int| phi(f.exp[b]), j);
            &&& all.len() == 42
            &&& j < 6 ==> phi(all[j]) == now + before + earlier
            &&& j >= 6 ==> phi(all[j]) == now
            &&& j < 6 ==> phi(all[22 + j]) == now - earlier
            &&& j < 6 ==> phi(all[28 + j]) == now - 2real * before + earlier
            &&& j < 6 ==> phi(all[34 + j]) == t - if j == 0 {
                13real / 10real
            } else if j == 1 {
                9real / 10real
            } else {
                0real
            }
            &&& phi(all[40]) == (period - 300) as real / 100real
            &&& phi(all[41]) == phi(legacy_denoise::variability(mem, 8)) / 8real - 21real / 10real
        }),
{
    reveal(legacy_denoise::features_of);
    lemma_transform(phi, psi, cos, 22, f.exp, j);
    perfect::lemma_frac(phi, 1, 100);
    perfect::lemma_frac(phi, 13, 10);
    perfect::lemma_frac(phi, 9, 10);
    perfect::lemma_frac(phi, 21, 10);
    assert(phi(S::num(2)) == 2real);
    assert(phi(S::num(8)) == 8real);
    assert(phi(S::num(period)) == period as real);
    assert(phi(S::num(300)) == 300real);
    assert((period - 300) as real == period as real - 300real);
    let all = legacy_denoise::features_of(f, period, mem, at);
    let t = common::cosines(common::cosine_table::<S>(22), 22, f.exp);
    assert((at + 8 - 1) % 8 == if at >= 1 {
        at - 1
    } else {
        at + 7
    });
    assert((at + 8 - 2) % 8 == if at >= 2 {
        at - 2
    } else {
        at + 6
    });
    let p = (period - 300) as real;
    assert(all[40] == S::frac(1, 100) * (S::num(period) - S::num(300)));
    assert(phi(S::frac(1, 100)) == 1real / 100real);
    assert(phi(S::num(period) - S::num(300)) == p);
    assert((1real / 100real) * p == p / 100real);
    let v = legacy_denoise::variability(mem, 8);
    assert(all[41] == v / S::num(8) - S::frac(21, 10));
    assert(phi(v / S::num(8)) * 8real == phi(v));
    if j < 6 {
        assert(all[34 + j] == if j == 0 {
            t[0] - S::frac(13, 10)
        } else if j == 1 {
            t[1] - S::frac(9, 10)
        } else {
            t[j]
        });
    }
}

} // verus!
