//! What the bands measure: sums over their bins, in shares that fall off toward
//! the neighbouring bands.

use vstd::prelude::*;
use crate::arith::{Arith, Sample};
use crate::bands;
use crate::common;
use crate::dft;
use crate::exact;
use crate::fft::Cpx;
use crate::legacy_denoise::EBAND5MS;
use crate::legacy_denoise;
use crate::perfect;
use crate::predictor;
use crate::EBAND20MS;

verus! {

/// The rising side of the band at edge `b`: bin `j` of the `w` bins below the
/// edge counts for `j / w`.
pub open spec fn rising_side(edges: Seq<usize>, b: int, h: spec_fn(int) -> real) -> real {
    if b == 0 {
        0real
    } else {
        let w = (edges[b] - edges[b - 1]) as nat;
        predictor::total(
            |j: int| j as real / ((w as int) as real) * h(edges[b - 1] + j),
            w,
        )
    }
}

/// The falling side of the band at edge `b`: bin `j` of the `w` bins above the
/// edge counts for `1 - j / w`.
pub open spec fn falling_side(edges: Seq<usize>, b: int, h: spec_fn(int) -> real) -> real {
    if b == edges.len() - 1 {
        0real
    } else {
        let w = (edges[b + 1] - edges[b]) as nat;
        predictor::total(
            |j: int| (1real - j as real / ((w as int) as real)) * h(edges[b] + j),
            w,
        )
    }
}

/// The sum over the band at edge `b` of what `h` has for the bins.
pub open spec fn edge_sum(edges: Seq<usize>, b: int, h: spec_fn(int) -> real) -> real {
    rising_side(edges, b, h) + falling_side(edges, b, h)
}

/// What bin `k` contributes to the correlation of two spectra.
pub open spec fn bin_product<S>(
    phi: spec_fn(S) -> real,
    x: Seq<Cpx<S>>,
    p: Seq<Cpx<S>>,
) -> spec_fn(int) -> real {
    |k: int| phi(x[k].r) * phi(p[k].r) + phi(x[k].i) * phi(p[k].i)
}

/// Band `b` of the 32: the one at the edge `b + 1`, of which the first and the
/// last take in the outermost edges, with two thirds of the sum.
pub open spec fn band_sum(b: int, h: spec_fn(int) -> real) -> real {
    let edges = EBAND20MS@;
    if b == 0 {
        (edge_sum(edges, 0, h) + edge_sum(edges, 1, h)) * 2real / 3real
    } else if b == 31 {
        (edge_sum(edges, 32, h) + edge_sum(edges, 33, h)) * 2real / 3real
    } else {
        edge_sum(edges, b + 1, h)
    }
}

/// Band `b` of the 22: the one at the edge `b`, of which the first and the last
/// count twice.
pub open spec fn few_band_sum(b: int, h: spec_fn(int) -> real) -> real {
    let edges = EBAND5MS@;
    if b == 0 || b == 21 {
        edge_sum(edges, b, h) * 2real
    } else {
        edge_sum(edges, b, h)
    }
}

proof fn lemma_share<S: Sample>(phi: spec_fn(S) -> real, j: int, n: nat)
    requires
        exact::divides(phi),
        exact::counts(phi),
        0 <= j < n <= 1000,
    ensures
        phi(bands::share::<S>(j, n)) == j as real / ((n as int) as real),
{
    let s = phi(bands::share::<S>(j, n));
    let (a, b) = (S::num(j), S::num(n as int));
    let nn = (n as int) as real;
    assert(phi(a) == j as real && phi(b) == nn);
    assert(phi(a / b) * phi(b) == phi(a));
    lemma_quotient(j as real, nn);
    perfect::lemma_same_multiple(s, j as real / nn, nn);
}

proof fn lemma_sides<S: Sample>(
    phi: spec_fn(S) -> real,
    init: S,
    edges: Seq<usize>,
    x: Seq<Cpx<S>>,
    p: Seq<Cpx<S>>,
    i: int,
    n: nat,
)
    requires
        dft::exact(phi),
        exact::divides(phi),
        exact::counts(phi),
        n <= bands::width(edges, i) <= 1000,
    ensures
        ({
            let w = bands::width(edges, i);
            let h = bin_product(phi, x, p);
            &&& phi(bands::rising(init, edges, x, p, i, n)) == phi(init) + predictor::total(
                |j: int| j as real / ((w as int) as real) * h(edges[i] + j),
                n,
            )
            &&& phi(bands::falling(init, edges, x, p, i, n)) == phi(init) + predictor::total(
                |j: int| (1real - j as real / ((w as int) as real)) * h(edges[i] + j),
                n,
            )
        }),
    decreases n,
{
    if n > 0 {
        let w = bands::width(edges, i);
        lemma_sides(phi, init, edges, x, p, i, (n - 1) as nat);
        lemma_share::<S>(phi, n - 1, w);
        perfect::lemma_zero_one(phi);
        let h = bin_product(phi, x, p);
        let k = edges[i] + (n - 1);
        assert(phi(bands::bin(x, p, k)) == h(k));
    }
}

proof fn lemma_edge_sum<S: Sample>(
    phi: spec_fn(S) -> real,
    edges: Seq<usize>,
    x: Seq<Cpx<S>>,
    p: Seq<Cpx<S>>,
    b: int,
)
    requires
        dft::exact(phi),
        exact::divides(phi),
        exact::counts(phi),
        bands::increasing(edges),
        edges[edges.len() - 1] == 400,
        0 <= b < edges.len(),
    ensures
        phi(bands::band_sum(edges, x, p, b)) == edge_sum(edges, b, bin_product(phi, x, p)),
{
    perfect::lemma_zero_one(phi);
    let last = edges.len() - 1;
    let low = bands::lower_side(edges, x, p, b);
    if b > 0 {
        assert(edges[b - 1] < edges[b]);
        if b < last {
            assert(edges[b] < edges[last]);
        }
        lemma_sides(phi, S::nil(), edges, x, p, b - 1, bands::width(edges, b - 1));
    }
    if b < last {
        assert(edges[b] < edges[b + 1]);
        if b + 1 < last {
            assert(edges[b + 1] < edges[last]);
        }
        lemma_sides(phi, low, edges, x, p, b, bands::width(edges, b));
    }
}

/// The correlation of two spectra in each of the 32 bands, and in each of the
/// 22. The energy of a spectrum is its correlation with itself.
pub proof fn lemma_band_corr<S: Sample>(
    phi: spec_fn(S) -> real,
    x: Seq<Cpx<S>>,
    p: Seq<Cpx<S>>,
)
    requires
        dft::exact(phi),
        exact::divides(phi),
        exact::counts(phi),
    ensures
        common::band_corr(x, p).len() == 32,
        legacy_denoise::band_corr(x, p).len() == 22,
        common::band_energy(x) == common::band_corr(x, x),
        forall|b: int|
            0 <= b < 32 ==> phi(#[trigger] common::band_corr(x, p)[b]) == band_sum(
                b,
                bin_product(phi, x, p),
            ),
        forall|b: int|
            0 <= b < 22 ==> phi(#[trigger] legacy_denoise::band_corr(x, p)[b]) == few_band_sum(
                b,
                bin_product(phi, x, p),
            ),
{
    common::lemma_edges();
    legacy_denoise::lemma_edges();
    let (two, three) = (S::num(2), S::num(3));
    assert(phi(two) == 2real && phi(three) == 3real);
    let edges = EBAND20MS@;
    let h = bin_product(phi, x, p);
    let sums = bands::band_sums_of(edges, x, p);
    assert forall|b: int| 0 <= b < 32 implies phi(#[trigger] common::band_corr(x, p)[b])
        == band_sum(b, h) by {
        lemma_edge_sum(phi, edges, x, p, 0);
        lemma_edge_sum(phi, edges, x, p, b + 1);
        lemma_edge_sum(phi, edges, x, p, 33);
        if b == 0 || b == 31 {
            let (c, d) = if b == 0 {
                (0int, 1int)
            } else {
                (32int, 33int)
            };
            let u = (sums[c] + sums[d]) * two;
            assert(phi(u) == (phi(sums[c]) + phi(sums[d])) * 2real);
            assert(phi(u / three) * 3real == phi(u));
            assert(common::band_corr(x, p)[b] == u / three);
        } else {
            assert(common::band_corr(x, p)[b] == sums[b + 1]);
        }
    }
    let few = EBAND5MS@;
    let fews = bands::band_sums_of(few, x, p);
    assert forall|b: int| 0 <= b < 22 implies phi(#[trigger] legacy_denoise::band_corr(x, p)[b])
        == few_band_sum(b, h) by {
        lemma_edge_sum(phi, few, x, p, b);
        assert(phi(fews[b] * two) == phi(fews[b]) * 2real);
    }
}

/// Terms of which one is the sum of multiples of others.
pub open spec fn combines(
    f: spec_fn(int) -> real,
    g: spec_fn(int) -> real,
    h: spec_fn(int) -> real,
    c: real,
) -> bool {
    forall|k: int| #[trigger] h(k) == f(k) + c * g(k)
}

proof fn lemma_side_combines(
    w: nat,
    at: int,
    rise: bool,
    f: spec_fn(int) -> real,
    g: spec_fn(int) -> real,
    h: spec_fn(int) -> real,
    c: real,
)
    requires
        combines(f, g, h, c),
    ensures
        ({
            let s = |j: int|
                if rise {
                    j as real / ((w as int) as real)
                } else {
                    1real - j as real / ((w as int) as real)
                };
            predictor::total(|j: int| s(j) * h(at + j), w) == predictor::total(
                |j: int| s(j) * f(at + j),
                w,
            ) + c * predictor::total(|j: int| s(j) * g(at + j), w)
        }),
{
    let s = |j: int|
        if rise {
            j as real / ((w as int) as real)
        } else {
            1real - j as real / ((w as int) as real)
        };
    let (a, b, d) = (
        |j: int| s(j) * f(at + j),
        |j: int| s(j) * g(at + j),
        |j: int| s(j) * h(at + j),
    );
    assert forall|j: int| 0 <= j < w implies #[trigger] d(j) == a(j) + c * b(j) by {
        assert(h(at + j) == f(at + j) + c * g(at + j));
        let (u, x, y) = (s(j), f(at + j), g(at + j));
        dft::lemma_dist(x, c * y, u);
        dft::lemma_assoc(u, c, y);
        dft::lemma_comm(u, c);
        dft::lemma_assoc(c, u, y);
    }
    predictor::lemma_total_mix(a, b, d, c, w);
}

proof fn lemma_edge_combines(
    edges: Seq<usize>,
    e: int,
    f: spec_fn(int) -> real,
    g: spec_fn(int) -> real,
    h: spec_fn(int) -> real,
    c: real,
)
    requires
        combines(f, g, h, c),
        0 <= e < edges.len(),
    ensures
        edge_sum(edges, e, h) == edge_sum(edges, e, f) + c * edge_sum(edges, e, g),
{
    dft::lemma_units(c);
    dft::lemma_dist(rising_side(edges, e, g), falling_side(edges, e, g), c);
    if e > 0 {
        let w = (edges[e] - edges[e - 1]) as nat;
        let at = edges[e - 1] as int;
        lemma_side_combines(w, at, true, f, g, h, c);
        lemma_side_form(w, at, true, f);
        lemma_side_form(w, at, true, g);
        lemma_side_form(w, at, true, h);
    }
    if e < edges.len() - 1 {
        let w = (edges[e + 1] - edges[e]) as nat;
        let at = edges[e] as int;
        lemma_side_combines(w, at, false, f, g, h, c);
        lemma_side_form(w, at, false, f);
        lemma_side_form(w, at, false, g);
        lemma_side_form(w, at, false, h);
    }
}

/// The two ways to write the sum over one side.
proof fn lemma_side_form(w: nat, at: int, rise: bool, f: spec_fn(int) -> real)
    ensures
        ({
            let s = |j: int|
                if rise {
                    j as real / ((w as int) as real)
                } else {
                    1real - j as real / ((w as int) as real)
                };
            predictor::total(|j: int| s(j) * f(at + j), w) == if rise {
                predictor::total(|j: int| j as real / ((w as int) as real) * f(at + j), w)
            } else {
                predictor::total(
                    |j: int| (1real - j as real / ((w as int) as real)) * f(at + j),
                    w,
                )
            }
        }),
{
    let s = |j: int|
        if rise {
            j as real / ((w as int) as real)
        } else {
            1real - j as real / ((w as int) as real)
        };
    let a = |j: int| s(j) * f(at + j);
    if rise {
        let b = |j: int| j as real / ((w as int) as real) * f(at + j);
        predictor::lemma_total_same(a, b, w);
    } else {
        let b = |j: int| (1real - j as real / ((w as int) as real)) * f(at + j);
        predictor::lemma_total_same(a, b, w);
    }
}

/// Band sums are linear.
proof fn lemma_bands_combine(
    b: int,
    f: spec_fn(int) -> real,
    g: spec_fn(int) -> real,
    h: spec_fn(int) -> real,
    c: real,
)
    requires
        combines(f, g, h, c),
    ensures
        0 <= b < 32 ==> band_sum(b, h) == band_sum(b, f) + c * band_sum(b, g),
        0 <= b < 22 ==> few_band_sum(b, h) == few_band_sum(b, f) + c * few_band_sum(b, g),
{
    common::lemma_edges();
    legacy_denoise::lemma_edges();
    let edges = EBAND20MS@;
    if 0 <= b < 32 {
        lemma_edge_combines(edges, 0, f, g, h, c);
        lemma_edge_combines(edges, b + 1, f, g, h, c);
        lemma_edge_combines(edges, 33, f, g, h, c);
        let (u, v) = if b == 0 {
            (edge_sum(edges, 0, g), edge_sum(edges, 1, g))
        } else {
            (edge_sum(edges, 32, g), edge_sum(edges, 33, g))
        };
        dft::lemma_dist(u, v, c);
        dft::lemma_assoc(c, u + v, 2real / 3real);
    }
    if 0 <= b < 22 {
        lemma_edge_combines(EBAND5MS@, b, f, g, h, c);
        dft::lemma_assoc(c, edge_sum(EBAND5MS@, b, g), 2real);
    }
}

proof fn lemma_total_nonneg(f: spec_fn(int) -> real, n: nat)
    requires
        forall|j: int| 0 <= j < n ==> #[trigger] f(j) >= 0real,
    ensures
        predictor::total(f, n) >= 0real,
    decreases n,
{
    if n > 0 {
        lemma_total_nonneg(f, (n - 1) as nat);
        assert(f(n - 1) >= 0real);
    }
}

proof fn lemma_part(j: int, w: nat, h: real)
    requires
        0 <= j < w,
        h >= 0real,
    ensures
        j as real / ((w as int) as real) * h >= 0real,
        (1real - j as real / ((w as int) as real)) * h >= 0real,
{
    let (a, b) = (j as real, (w as int) as real);
    let s = a / b;
    lemma_quotient(a, b);
    if s < 0real {
        assert(s * b < 0real) by (nonlinear_arith)
            requires
                s < 0real,
                b > 0real,
        ;
    }
    if s > 1real {
        assert(s * b > b) by (nonlinear_arith)
            requires
                s > 1real,
                b > 0real,
        ;
    }
    lemma_nonneg(s, h);
    lemma_nonneg(1real - s, h);
}

proof fn lemma_nonneg(a: real, b: real)
    requires
        a >= 0real,
        b >= 0real,
    ensures
        a * b >= 0real,
{
    assert(a * b >= 0real) by (nonlinear_arith)
        requires
            a >= 0real,
            b >= 0real,
    ;
}

/// A quotient times its divisor.
proof fn lemma_quotient(a: real, b: real)
    requires
        b != 0real,
    ensures
        (a / b) * b == a,
{
    assert((a / b) * b == a) by (nonlinear_arith)
        requires
            b != 0real,
    ;
}

/// Sums over bands of what is not negative are not negative.
proof fn lemma_bands_nonneg(b: int, h: spec_fn(int) -> real)
    requires
        forall|k: int| #[trigger] h(k) >= 0real,
    ensures
        0 <= b < 32 ==> band_sum(b, h) >= 0real,
        0 <= b < 22 ==> few_band_sum(b, h) >= 0real,
{
    common::lemma_edges();
    legacy_denoise::lemma_edges();
    if 0 <= b < 32 {
        lemma_edge_nonneg(EBAND20MS@, 0, h);
        lemma_edge_nonneg(EBAND20MS@, b + 1, h);
        lemma_edge_nonneg(EBAND20MS@, 33, h);
    }
    if 0 <= b < 22 {
        lemma_edge_nonneg(EBAND5MS@, b, h);
    }
}

proof fn lemma_edge_nonneg(edges: Seq<usize>, e: int, h: spec_fn(int) -> real)
    requires
        forall|k: int| #[trigger] h(k) >= 0real,
        0 <= e < edges.len(),
        bands::increasing(edges),
    ensures
        edge_sum(edges, e, h) >= 0real,
{
    if e > 0 {
        assert(edges[e - 1] < edges[e]);
        let w = (edges[e] - edges[e - 1]) as nat;
        let f = |j: int| j as real / ((w as int) as real) * h(edges[e - 1] + j);
        assert forall|j: int| 0 <= j < w implies #[trigger] f(j) >= 0real by {
            lemma_part(j, w, h(edges[e - 1] + j));
        }
        lemma_total_nonneg(f, w);
    }
    if e < edges.len() - 1 {
        assert(edges[e] < edges[e + 1]);
        let w = (edges[e + 1] - edges[e]) as nat;
        let f = |j: int| (1real - j as real / ((w as int) as real)) * h(edges[e] + j);
        assert forall|j: int| 0 <= j < w implies #[trigger] f(j) >= 0real by {
            lemma_part(j, w, h(edges[e] + j));
        }
        lemma_total_nonneg(f, w);
    }
}

/// The energy of one thing less `t` times another, from their energies and their
/// correlation.
spec fn energy_less(ex: real, ep: real, c: real, t: real) -> real {
    ex - 2real * (t * c) + (t * t) * ep
}

/// Where no multiple of one thing taken off another leaves less than nothing.
proof fn lemma_discriminant(ex: real, ep: real, c: real)
    requires
        ex >= 0real,
        ep >= 0real,
        forall|t: real| #[trigger] energy_less(ex, ep, c, t) >= 0real,
    ensures
        c * c <= ex * ep,
{
    if ep > 0real {
        let t = c / ep;
        lemma_quotient(c, ep);
        assert(energy_less(ex, ep, c, t) >= 0real);
        dft::lemma_assoc(t, t, ep);
        assert(ex - t * c >= 0real);
        dft::lemma_dist(ex, t * c, ep);
        dft::lemma_comm(t, c);
        dft::lemma_assoc(c, t, ep);
        lemma_nonneg(ex - t * c, ep);
    } else if c != 0real {
        let t = (ex + 1real) / c;
        lemma_quotient(ex + 1real, c);
        assert(energy_less(ex, ep, c, t) >= 0real);
        dft::lemma_units(t * t);
        assert(ex - 2real * (ex + 1real) >= 0real);
    } else {
        dft::lemma_units(ex);
        dft::lemma_units(c);
    }
}

/// Two spectra correlate in no band by more than their energies: the square of
/// the correlation is at most the product of the energies, which are not
/// negative.
pub proof fn lemma_correlation_bound<S: Sample>(
    phi: spec_fn(S) -> real,
    x: Seq<Cpx<S>>,
    p: Seq<Cpx<S>>,
    b: int,
)
    requires
        dft::exact(phi),
        exact::divides(phi),
        exact::counts(phi),
    ensures
        0 <= b < 32 ==> {
            let c = phi(common::band_corr(x, p)[b]);
            let ex = phi(common::band_corr(x, x)[b]);
            let ep = phi(common::band_corr(p, p)[b]);
            ex >= 0real && ep >= 0real && c * c <= ex * ep
        },
        0 <= b < 22 ==> {
            let c = phi(legacy_denoise::band_corr(x, p)[b]);
            let ex = phi(legacy_denoise::band_corr(x, x)[b]);
            let ep = phi(legacy_denoise::band_corr(p, p)[b]);
            ex >= 0real && ep >= 0real && c * c <= ex * ep
        },
{
    lemma_band_corr(phi, x, x);
    lemma_band_corr(phi, p, p);
    lemma_band_corr(phi, x, p);
    let (hx, hp, hc) = (bin_product(phi, x, x), bin_product(phi, p, p), bin_product(phi, x, p));
    assert forall|k: int| #[trigger] hx(k) >= 0real by {
        exact::lemma_square_nonneg(phi(x[k].r));
        exact::lemma_square_nonneg(phi(x[k].i));
    }
    assert forall|k: int| #[trigger] hp(k) >= 0real by {
        exact::lemma_square_nonneg(phi(p[k].r));
        exact::lemma_square_nonneg(phi(p[k].i));
    }
    lemma_bands_nonneg(b, hx);
    lemma_bands_nonneg(b, hp);
    if 0 <= b < 32 {
        let (ex, ep, c) = (band_sum(b, hx), band_sum(b, hp), band_sum(b, hc));
        assert forall|t: real| #[trigger] energy_less(ex, ep, c, t) >= 0real by {
            lemma_difference(phi, x, p, b, t);
        }
        lemma_discriminant(ex, ep, c);
    }
    if 0 <= b < 22 {
        let (ex, ep, c) = (few_band_sum(b, hx), few_band_sum(b, hp), few_band_sum(b, hc));
        assert forall|t: real| #[trigger] energy_less(ex, ep, c, t) >= 0real by {
            lemma_difference(phi, x, p, b, t);
        }
        lemma_discriminant(ex, ep, c);
    }
}

/// The energy of a spectrum less `t` times another is not negative.
proof fn lemma_difference<S: Sample>(
    phi: spec_fn(S) -> real,
    x: Seq<Cpx<S>>,
    p: Seq<Cpx<S>>,
    b: int,
    t: real,
)
    ensures
        ({
            let hx = bin_product(phi, x, x);
            let hp = bin_product(phi, p, p);
            let hc = bin_product(phi, x, p);
            &&& 0 <= b < 32 ==> band_sum(b, hx) - 2real * (t * band_sum(b, hc)) + (t * t)
                * band_sum(b, hp) >= 0real
            &&& 0 <= b < 22 ==> few_band_sum(b, hx) - 2real * (t * few_band_sum(b, hc)) + (t * t)
                * few_band_sum(b, hp) >= 0real
        }),
{
    let (hx, hp, hc) = (bin_product(phi, x, x), bin_product(phi, p, p), bin_product(phi, x, p));
    let s = 0real - 2real * t;
    let h1 = |k: int| hx(k) + s * hc(k);
    let h2 = |k: int| h1(k) + (t * t) * hp(k);
    assert forall|k: int| #[trigger] h2(k) >= 0real by {
        let (a, c) = (phi(x[k].r), phi(p[k].r));
        let (d, e) = (phi(x[k].i), phi(p[k].i));
        exact::lemma_square_nonneg(a - t * c);
        exact::lemma_square_nonneg(d - t * e);
        lemma_square_less(a, t, c);
        lemma_square_less(d, t, e);
        dft::lemma_dist(a * c, d * e, s);
        dft::lemma_dist(c * c, e * e, t * t);
    }
    assert(combines(hx, hc, h1, s));
    assert(combines(h1, hp, h2, t * t));
    lemma_bands_combine(b, hx, hc, h1, s);
    lemma_bands_combine(b, h1, hp, h2, t * t);
    lemma_bands_nonneg(b, h2);
    let c = band_sum(b, hc);
    let d = few_band_sum(b, hc);
    lemma_twice(t, c);
    lemma_twice(t, d);
}

proof fn lemma_square_less(a: real, t: real, c: real)
    ensures
        (a - t * c) * (a - t * c) == a * a + (0real - 2real * t) * (a * c) + (t * t) * (c * c),
{
    let u = t * c;
    dft::lemma_dist(a, u, a - u);
    dft::lemma_dist(a, u, a);
    dft::lemma_dist(a, u, u);
    dft::lemma_comm(a, u);
    assert(u * a == t * (a * c)) by (nonlinear_arith)
        requires
            u == t * c,
    ;
    assert(u * u == (t * t) * (c * c)) by (nonlinear_arith)
        requires
            u == t * c,
    ;
    lemma_twice(t, a * c);
}

proof fn lemma_twice(t: real, c: real)
    ensures
        (0real - 2real * t) * c == 0real - 2real * (t * c),
{
    dft::lemma_dist(0real, 2real * t, c);
    dft::lemma_units(c);
    dft::lemma_assoc(2real, t, c);
}

/// The edges of the bands, in bins of 50 Hz.
pub proof fn lemma_edge_lists()
    ensures
        EBAND20MS@ == seq![
            0usize, 2, 4, 6, 8, 10, 12, 15, 18, 21, 24, 28, 32, 36, 41, 47, 53, 60, 68, 77, 87, 98,
            110, 124, 140, 157, 176, 198, 223, 251, 282, 317, 356, 400,
        ],
        EBAND5MS@ == seq![
            0usize, 1, 2, 3, 4, 5, 6, 7, 8, 10, 12, 14, 16, 20, 24, 28, 34, 40, 48, 60, 78, 100,
        ].map_values(|k: usize| (4 * k) as usize),
{
    let few = seq![
        0usize, 1, 2, 3, 4, 5, 6, 7, 8, 10, 12, 14, 16, 20, 24, 28, 34, 40, 48, 60, 78, 100,
    ].map_values(|k: usize| (4 * k) as usize);
    assert(EBAND20MS@ =~= seq![
        0usize, 2, 4, 6, 8, 10, 12, 15, 18, 21, 24, 28, 32, 36, 41, 47, 53, 60, 68, 77, 87, 98,
        110, 124, 140, 157, 176, 198, 223, 251, 282, 317, 356, 400,
    ]);
    assert(EBAND5MS@ =~= few);
}

} // verus!
