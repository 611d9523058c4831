//! What the comb filter is for: it adds the spectrum one pitch period earlier,
//! so that what repeats itself is strengthened against what does not, and gives
//! the bands their energies back.

use vstd::prelude::*;
use crate::arith::{Arith, Sample, SampleArith};
use crate::bands;
use crate::common;
use crate::denoise::FrameView;
use crate::denoise;
use crate::dft;
use crate::exact;
use crate::fft::Cpx;
use crate::gain_law;
use crate::legacy_denoise::{SpectraView, EBAND5MS};
use crate::legacy_denoise;
use crate::perfect;
use crate::{EBAND20MS, NB_BANDS};

verus! {

/// How much of the earlier spectrum a band with the correlation `exp` and the
/// gain `g` takes in, as a share of its energy: all of it where the correlation
/// exceeds the gain, and less the larger the gain is against the correlation.
pub open spec fn share_of(exp: real, g: real, q: real) -> bool {
    let most = exp * exp * (1real - g * g);
    let per = 1real / 1000real + g * g * (1real - exp * exp);
    &&& 0real <= q <= 1real
    &&& g < exp ==> q == 1real
    &&& g >= exp ==> q * per <= most && (q == 1real || q * per == most)
}

/// The strength `s` of the comb filter in a band: the earlier spectrum, brought
/// to the energy `ex` of the band from its own `ep`, in the share that
/// correlation and gain ask for.
pub open spec fn strength_of(exp: real, g: real, ex: real, ep: real, s: real) -> bool {
    &&& s >= 0real
    &&& exists|q: real| #[trigger]
        share_of(exp, g, q) && s * s * (1real / 100000000real + ep) == q * ex
}

proof fn lemma_nonneg(a: real, b: real)
    requires
        a >= 0real,
        b >= 0real,
    ensures
        a * b >= 0real,
{
    assert(a * b >= 0real) by (nonlinear_arith)
        requires
            a >= 0real,
            b >= 0real,
    ;
}

/// A quotient of numbers that are not negative.
proof fn lemma_quotient(t: real, d: real, n: real)
    requires
        t * d == n,
        d > 0real,
        n >= 0real,
    ensures
        t >= 0real,
{
    if t < 0real {
        assert(t * d < 0real) by (nonlinear_arith)
            requires
                t < 0real,
                d > 0real,
        ;
    }
}

proof fn lemma_square_range(a: real)
    requires
        -1real <= a <= 1real,
    ensures
        0real <= a * a <= 1real,
{
    assert(0real <= a * a <= 1real) by (nonlinear_arith)
        requires
            -1real <= a <= 1real,
    ;
}

/// The root of the ratio of two energies, squared.
proof fn lemma_ratio<S: Sample>(
    phi: spec_fn(S) -> real,
    psi: spec_fn(S::Wide) -> real,
    a: S,
    b: S,
)
    requires
        perfect::perfect(phi, psi),
        phi(a) >= 0real,
        phi(b) >= 0real,
    ensures
        ({
            let r = psi(denoise::energy_ratio(a, b));
            r >= 0real && r * r * (1real / 100000000real + phi(b)) == phi(a)
        }),
{
    let small = <S::Wide as Arith>::frac(1, 100000000);
    perfect::lemma_frac(psi, 1, 100000000);
    let bottom = small + b.wide();
    let t = a.wide() / bottom;
    assert(psi(bottom) == 1real / 100000000real + phi(b));
    assert(psi(t) * psi(bottom) == phi(a));
    lemma_quotient(psi(t), psi(bottom), phi(a));
    assert(psi(t.sqrt_of()) * psi(t.sqrt_of()) == psi(t));
}

proof fn lemma_two_squares(a: real, b: real, d: real, q: real, e: real)
    requires
        a * a == q,
        b * b * d == e,
    ensures
        (a * b) * (a * b) * d == q * e,
{
    assert((a * b) * (a * b) * d == (a * a) * (b * b * d)) by (nonlinear_arith);
}

/// The share of a quotient that is kept between zero and one.
proof fn lemma_share(most: real, per: real, t: real, q: real)
    requires
        per > 0real,
        most >= 0real,
        t * per == most,
        q == if 1real < t {
            1real
        } else {
            t
        },
    ensures
        0real <= q <= 1real,
        q * per <= most,
        q == 1real || q * per == most,
{
    lemma_quotient(t, per, most);
    if 1real < t {
        assert(per <= t * per) by (nonlinear_arith)
            requires
                1real < t,
                per > 0real,
        ;
        dft::lemma_units(per);
    }
}

/// The comb filter has the strength that the band asks for.
pub proof fn lemma_strength<S: Sample>(
    phi: spec_fn(S) -> real,
    psi: spec_fn(S::Wide) -> real,
    exp: S,
    g: S,
    ex: S,
    ep: S,
)
    requires
        perfect::perfect(phi, psi),
        -1real <= phi(exp) <= 1real,
        -1real <= phi(g) <= 1real,
        phi(ex) >= 0real,
        phi(ep) >= 0real,
    ensures
        strength_of(
            phi(exp),
            phi(g),
            phi(ex),
            phi(ep),
            phi(denoise::comb(exp, g, ex, ep)),
        ),
{
    perfect::lemma_zero_one(phi);
    let (x, y) = (phi(exp), phi(g));
    lemma_square_range(x);
    lemma_square_range(y);
    let sq_exp = exp * exp;
    let sq_g = g * g;
    let num = sq_exp * (S::unit() - sq_g);
    let den = <S::Wide as Arith>::frac(1, 1000) + (sq_g * (S::unit() - sq_exp)).wide();
    perfect::lemma_frac(psi, 1, 1000);
    let most = x * x * (1real - y * y);
    let per = 1real / 1000real + y * y * (1real - x * x);
    assert(phi(num) == most);
    assert(psi(den) == per);
    lemma_nonneg(x * x, 1real - y * y);
    lemma_nonneg(y * y, 1real - x * x);
    let raw = if g.lt_of(exp) {
        S::unit()
    } else {
        S::narrowed(num.wide() / den)
    };
    let kept = raw.min_of(S::unit()).max_of(S::nil());
    let q = phi(kept);
    if g.lt_of(exp) {
        assert(q == 1real);
    } else {
        let t = psi(num.wide() / den);
        assert(t * per == most);
        lemma_quotient(t, per, most);
        assert(phi(raw) == t);
        assert(q == if 1real < t {
            1real
        } else {
            t
        });
        lemma_share(most, per, t, q);
    }
    assert(share_of(x, y, q));
    let root = S::narrowed(kept.wide().sqrt_of());
    assert(phi(root) >= 0real && phi(root) * phi(root) == q);
    lemma_ratio(phi, psi, ex, ep);
    let r = psi(denoise::energy_ratio(ex, ep));
    let s = phi(denoise::comb(exp, g, ex, ep));
    assert(denoise::comb(exp, g, ex, ep) == S::narrowed(
        root.wide() * denoise::energy_ratio(ex, ep),
    ));
    assert(s == phi(root) * r);
    lemma_nonneg(phi(root), r);
    lemma_two_squares(phi(root), r, 1real / 100000000real + phi(ep), q, phi(ex));
}

/// `y` is the spectrum `x` with `p` added, bin by bin with the gains `h`.
pub open spec fn added<S>(
    phi: spec_fn(S) -> real,
    x: Seq<Cpx<S>>,
    p: Seq<Cpx<S>>,
    h: spec_fn(int) -> real,
    y: Seq<Cpx<S>>,
) -> bool {
    &&& y.len() == x.len()
    &&& forall|k: int|
        0 <= k < x.len() ==> phi((#[trigger] y[k]).r) == phi(x[k].r) + h(k) * phi(p[k].r) && phi(
            y[k].i,
        ) == phi(x[k].i) + h(k) * phi(p[k].i)
}

/// The comb filter takes three steps. The earlier spectrum is added, in each
/// band with the strength that the band asks for (`s`, and `h` bin by bin),
/// which gives `y`. Each band is then scaled by the root of what its energy was
/// over what it is (`n`, and `v` bin by bin), which gives `out`.
pub open spec fn combed<S: Sample>(
    phi: spec_fn(S) -> real,
    f: FrameView<S>,
    g: Seq<S>,
    s: spec_fn(int) -> real,
    h: spec_fn(int) -> real,
    y: Seq<Cpx<S>>,
    n: spec_fn(int) -> real,
    v: spec_fn(int) -> real,
    out: Seq<Cpx<S>>,
) -> bool {
    &&& forall|b: int|
        0 <= b < 32 ==> strength_of(
            phi(f.exp[b]),
            phi(g[b]),
            phi(f.ex[b]),
            phi(f.ep[b]),
            #[trigger] s(b),
        )
    &&& gain_law::runs_through(h, s)
    &&& added(phi, f.x, f.p, h, y)
    &&& forall|b: int|
        0 <= b < 32 ==> #[trigger] n(b) >= 0real && n(b) * n(b) * (1real / 100000000real + phi(
            common::band_energy(y)[b],
        )) == phi(f.ex[b])
    &&& gain_law::runs_through(v, n)
    &&& gain_law::scaled_by(phi, y, out, v)
}

/// What the comb filter does to a frame whose energies are not negative, with
/// correlations and gains between minus one and one.
pub proof fn lemma_comb_filter<S: Sample>(
    phi: spec_fn(S) -> real,
    psi: spec_fn(S::Wide) -> real,
    f: FrameView<S>,
    g: Seq<S>,
)
    requires
        perfect::perfect(phi, psi),
        f.wf(),
        forall|b: int| 0 <= b < 32 ==> -1real <= phi(#[trigger] f.exp[b]) <= 1real,
        forall|b: int| 0 <= b < 32 ==> -1real <= phi(#[trigger] g[b]) <= 1real,
        forall|b: int| 0 <= b < 32 ==> phi(#[trigger] f.ex[b]) >= 0real,
        forall|b: int| 0 <= b < 32 ==> phi(#[trigger] f.ep[b]) >= 0real,
    ensures
        exists|
            s: spec_fn(int) -> real,
            h: spec_fn(int) -> real,
            y: Seq<Cpx<S>>,
            n: spec_fn(int) -> real,
            v: spec_fn(int) -> real,
        | #[trigger]
            combed(phi, f, g, s, h, y, n, v, denoise::comb_filtered(f, g)),
{
    let r = Seq::new(
        NB_BANDS as nat,
        |i: int| denoise::comb(f.exp[i], g[i], f.ex[i], f.ep[i]),
    );
    let s = |b: int| phi(r[b]);
    let h = |k: int| phi(common::bin_gains(r)[k]);
    gain_law::lemma_bin_gains(phi, r);
    assert forall|b: int| 0 <= b < 32 implies strength_of(
        phi(f.exp[b]),
        phi(g[b]),
        phi(f.ex[b]),
        phi(f.ep[b]),
        #[trigger] s(b),
    ) by {
        assert(phi(f.ex[b]) >= 0real && phi(f.ep[b]) >= 0real);
        assert(-1real <= phi(f.exp[b]) <= 1real && -1real <= phi(g[b]) <= 1real);
        lemma_strength(phi, psi, f.exp[b], g[b], f.ex[b], f.ep[b]);
    }
    let y = denoise::mixed(f.x, f.p, common::bin_gains(r));
    assert(added(phi, f.x, f.p, h, y));
    let e = common::band_energy(y);
    let norm = Seq::new(
        NB_BANDS as nat,
        |i: int| S::narrowed(denoise::energy_ratio(f.ex[i], e[i])),
    );
    let n = |b: int| phi(norm[b]);
    let v = |k: int| phi(common::bin_gains(norm)[k]);
    gain_law::lemma_bin_gains(phi, norm);
    assert forall|b: int| 0 <= b < 32 implies #[trigger] n(b) >= 0real && n(b) * n(b) * (1real
        / 100000000real + phi(e[b])) == phi(f.ex[b]) by {
        exact::lemma_energy(phi, y, b);
        assert(phi(f.ex[b]) >= 0real);
        lemma_ratio(phi, psi, f.ex[b], e[b]);
    }
    let out = denoise::comb_filtered(f, g);
    assert(gain_law::scaled_by(phi, y, out, v));
    assert(combed(phi, f, g, s, h, y, n, v, out));
}

/// In every bin, the second pair of spectra agrees at least as much as the first.
pub open spec fn agrees_more<S: Sample>(
    phi: spec_fn(S) -> real,
    x1: Seq<Cpx<S>>,
    p1: Seq<Cpx<S>>,
    x2: Seq<Cpx<S>>,
    p2: Seq<Cpx<S>>,
) -> bool {
    forall|k: int|
        0 <= k < 400 ==> phi(#[trigger] bands::bin(x1, p1, k)) <= phi(bands::bin(x2, p2, k))
}

proof fn lemma_scale(c: real, a: real, b: real)
    requires
        c >= 0real,
        a <= b,
    ensures
        c * a <= c * b,
{
    assert(c * a <= c * b) by (nonlinear_arith)
        requires
            c >= 0real,
            a <= b,
    ;
}

/// A bin's share of its band lies between 0 and 1.
proof fn lemma_share_range<S: Sample>(phi: spec_fn(S) -> real, j: int, n: nat)
    requires
        exact::divides(phi),
        exact::counts(phi),
        0 <= j < n <= 1000,
    ensures
        0real <= phi(bands::share::<S>(j, n)) <= 1real,
{
    let s = phi(bands::share::<S>(j, n));
    let (a, b) = (S::num(j), S::num(n as int));
    assert(phi(a) == j as real && phi(b) == (n as int) as real);
    assert(phi(a / b) * phi(b) == phi(a));
    lemma_quotient(s, phi(b), phi(a));
    if s > 1real {
        assert(s * phi(b) > phi(b)) by (nonlinear_arith)
            requires
                s > 1real,
                phi(b) > 0real,
        ;
    }
}

/// The two sides of a band, for spectra that agree more.
proof fn lemma_sides<S: Sample>(
    phi: spec_fn(S) -> real,
    a: S,
    c: S,
    edges: Seq<usize>,
    x1: Seq<Cpx<S>>,
    p1: Seq<Cpx<S>>,
    x2: Seq<Cpx<S>>,
    p2: Seq<Cpx<S>>,
    i: int,
    n: nat,
)
    requires
        dft::exact(phi),
        exact::divides(phi),
        exact::counts(phi),
        agrees_more(phi, x1, p1, x2, p2),
        phi(a) <= phi(c),
        n <= bands::width(edges, i) <= 1000,
        0 <= edges[i],
        edges[i] + bands::width(edges, i) <= 400,
    ensures
        phi(bands::rising(a, edges, x1, p1, i, n)) <= phi(bands::rising(c, edges, x2, p2, i, n)),
        phi(bands::falling(a, edges, x1, p1, i, n)) <= phi(bands::falling(c, edges, x2, p2, i, n)),
    decreases n,
{
    if n > 0 {
        lemma_sides(phi, a, c, edges, x1, p1, x2, p2, i, (n - 1) as nat);
        let w = bands::width(edges, i);
        lemma_share_range::<S>(phi, n - 1, w);
        perfect::lemma_zero_one(phi);
        let k = edges[i] + (n - 1);
        let (u, v) = (bands::bin(x1, p1, k), bands::bin(x2, p2, k));
        assert(phi(u) <= phi(v));
        let s = bands::share::<S>(n - 1, w);
        lemma_scale(phi(s), phi(u), phi(v));
        lemma_scale(phi(S::unit() - s), phi(u), phi(v));
        assert(phi(s * u) <= phi(s * v));
        assert(phi((S::unit() - s) * u) <= phi((S::unit() - s) * v));
    }
}

/// The sums at the edges, for spectra that agree more.
proof fn lemma_edge_sums<S: Sample>(
    phi: spec_fn(S) -> real,
    edges: Seq<usize>,
    x1: Seq<Cpx<S>>,
    p1: Seq<Cpx<S>>,
    x2: Seq<Cpx<S>>,
    p2: Seq<Cpx<S>>,
    b: int,
)
    requires
        dft::exact(phi),
        exact::divides(phi),
        exact::counts(phi),
        agrees_more(phi, x1, p1, x2, p2),
        bands::increasing(edges),
        edges[edges.len() - 1] == 400,
        0 <= b < edges.len(),
    ensures
        phi(bands::band_sum(edges, x1, p1, b)) <= phi(bands::band_sum(edges, x2, p2, b)),
{
    let last = edges.len() - 1;
    if b > 0 {
        assert(edges[b - 1] < edges[b]);
        if b < last {
            assert(edges[b] < edges[last]);
        }
        lemma_sides(
            phi,
            S::nil(),
            S::nil(),
            edges,
            x1,
            p1,
            x2,
            p2,
            b - 1,
            bands::width(edges, b - 1),
        );
    }
    if b < last {
        assert(edges[b] < edges[b + 1]);
        if b + 1 < last {
            assert(edges[b + 1] < edges[last]);
        }
        lemma_sides(
            phi,
            bands::lower_side(edges, x1, p1, b),
            bands::lower_side(edges, x2, p2, b),
            edges,
            x1,
            p1,
            x2,
            p2,
            b,
            bands::width(edges, b),
        );
    }
}

/// Spectra that agree more in every bin correlate more in every band.
pub proof fn lemma_more_correlated<S: Sample>(
    phi: spec_fn(S) -> real,
    x1: Seq<Cpx<S>>,
    p1: Seq<Cpx<S>>,
    x2: Seq<Cpx<S>>,
    p2: Seq<Cpx<S>>,
)
    requires
        dft::exact(phi),
        exact::divides(phi),
        exact::counts(phi),
        agrees_more(phi, x1, p1, x2, p2),
    ensures
        forall|b: int|
            0 <= b < 32 ==> phi(#[trigger] common::band_corr(x1, p1)[b]) <= phi(
                common::band_corr(x2, p2)[b],
            ),
        forall|b: int|
            0 <= b < 22 ==> phi(#[trigger] legacy_denoise::band_corr(x1, p1)[b]) <= phi(
                legacy_denoise::band_corr(x2, p2)[b],
            ),
{
    common::lemma_edges();
    legacy_denoise::lemma_edges();
    let (two, three) = (S::num(2), S::num(3));
    assert(phi(two) == 2real && phi(three) == 3real);
    let edges = EBAND20MS@;
    assert forall|b: int| 0 <= b < 32 implies phi(#[trigger] common::band_corr(x1, p1)[b]) <= phi(
        common::band_corr(x2, p2)[b],
    ) by {
        lemma_edge_sums(phi, edges, x1, p1, x2, p2, b + 1);
        lemma_edge_sums(phi, edges, x1, p1, x2, p2, 0);
        lemma_edge_sums(phi, edges, x1, p1, x2, p2, 33);
        let s1 = bands::band_sums_of(edges, x1, p1);
        let s2 = bands::band_sums_of(edges, x2, p2);
        if b == 0 || b == 31 {
            let (c, d) = if b == 0 {
                (0int, 1int)
            } else {
                (32int, 33int)
            };
            let u = (s1[c] + s1[d]) * two;
            let v = (s2[c] + s2[d]) * two;
            assert(phi(u) == (phi(s1[c]) + phi(s1[d])) * 2real);
            assert(phi(v) == (phi(s2[c]) + phi(s2[d])) * 2real);
            assert(phi(u / three) * 3real == phi(u));
            assert(phi(v / three) * 3real == phi(v));
            assert(common::band_corr(x1, p1)[b] == u / three);
            assert(common::band_corr(x2, p2)[b] == v / three);
        }
    }
    let few = EBAND5MS@;
    assert forall|b: int| 0 <= b < 22 implies phi(
        #[trigger] legacy_denoise::band_corr(x1, p1)[b],
    ) <= phi(legacy_denoise::band_corr(x2, p2)[b]) by {
        lemma_edge_sums(phi, few, x1, p1, x2, p2, b);
        let s1 = bands::band_sums_of(few, x1, p1);
        let s2 = bands::band_sums_of(few, x2, p2);
        assert(phi(s1[b] * two) == phi(s1[b]) * 2real);
        assert(phi(s2[b] * two) == phi(s2[b]) * 2real);
    }
}

/// What is mixed in is mixed in with its sign: a spectrum to which another one
/// was added correlates at least as much with that one as before in every band.
/// A spectrum to which itself was added, as happens in a frame that repeats
/// itself, has at least its energy.
pub proof fn lemma_mixed_toward<S: Sample>(
    phi: spec_fn(S) -> real,
    x: Seq<Cpx<S>>,
    p: Seq<Cpx<S>>,
    g: Seq<S>,
)
    requires
        dft::exact(phi),
        exact::divides(phi),
        exact::counts(phi),
        x.len() >= 400,
        forall|k: int| 0 <= k < x.len() ==> phi(#[trigger] g[k]) >= 0real,
    ensures
        ({
            let y = denoise::mixed(x, p, g);
            let z = denoise::mixed(x, x, g);
            &&& y.len() == x.len()
            &&& forall|b: int|
                0 <= b < 32 ==> phi(#[trigger] common::band_corr(x, p)[b]) <= phi(
                    common::band_corr(y, p)[b],
                )
            &&& forall|b: int|
                0 <= b < 22 ==> phi(#[trigger] legacy_denoise::band_corr(x, p)[b]) <= phi(
                    legacy_denoise::band_corr(y, p)[b],
                )
            &&& forall|b: int|
                0 <= b < 32 ==> phi(#[trigger] common::band_corr(x, x)[b]) <= phi(
                    common::band_corr(z, z)[b],
                )
            &&& forall|b: int|
                0 <= b < 22 ==> phi(#[trigger] legacy_denoise::band_corr(x, x)[b]) <= phi(
                    legacy_denoise::band_corr(z, z)[b],
                )
            &&& forall|k: int|
                0 <= k < x.len() ==> phi((#[trigger] z[k]).r) == (1real + phi(g[k])) * phi(x[k].r)
                    && phi(z[k].i) == (1real + phi(g[k])) * phi(x[k].i)
        }),
{
    let y = denoise::mixed(x, p, g);
    let z = denoise::mixed(x, x, g);
    assert forall|k: int| 0 <= k < 400 implies phi(#[trigger] bands::bin(x, p, k)) <= phi(
        bands::bin(y, p, k),
    ) by {
        assert(phi(g[k]) >= 0real);
        lemma_bin_toward(phi(g[k]), phi(x[k].r), phi(p[k].r));
        lemma_bin_toward(phi(g[k]), phi(x[k].i), phi(p[k].i));
    }
    lemma_more_correlated(phi, x, p, y, p);
    assert forall|k: int| 0 <= k < 400 implies phi(#[trigger] bands::bin(x, x, k)) <= phi(
        bands::bin(z, z, k),
    ) by {
        assert(phi(g[k]) >= 0real);
        lemma_bin_grows(phi(g[k]), phi(x[k].r));
        lemma_bin_grows(phi(g[k]), phi(x[k].i));
    }
    lemma_more_correlated(phi, x, x, z, z);
    assert forall|k: int| 0 <= k < x.len() implies phi((#[trigger] z[k]).r) == (1real + phi(g[k]))
        * phi(x[k].r) && phi(z[k].i) == (1real + phi(g[k])) * phi(x[k].i) by {
        dft::lemma_dist(1real, phi(g[k]), phi(x[k].r));
        dft::lemma_dist(1real, phi(g[k]), phi(x[k].i));
        dft::lemma_units(phi(x[k].r));
        dft::lemma_units(phi(x[k].i));
    }
}

proof fn lemma_bin_toward(g: real, x: real, p: real)
    requires
        g >= 0real,
    ensures
        x * p <= (x + g * p) * p,
{
    assert((x + g * p) * p == x * p + g * (p * p)) by (nonlinear_arith);
    exact::lemma_square_nonneg(p);
    lemma_nonneg(g, p * p);
}

proof fn lemma_bin_grows(g: real, x: real)
    requires
        g >= 0real,
    ensures
        x * x <= (x + g * x) * (x + g * x),
{
    assert((x + g * x) * (x + g * x) == x * x + 2real * (g * (x * x)) + (g * x) * (g * x))
        by (nonlinear_arith);
    exact::lemma_square_nonneg(x);
    exact::lemma_square_nonneg(g * x);
    lemma_nonneg(g, x * x);
}

proof fn lemma_weighted_sign(g: real, w: real, a: real, u: real, b: real, v: real)
    requires
        g * w == a * u + b * v,
        w > 0real,
        a >= 0real,
        b >= 0real,
        u > 0real,
        v >= 0real,
    ensures
        g >= 0real,
        a > 0real ==> g > 0real,
{
    lemma_nonneg(a, u);
    lemma_nonneg(b, v);
    lemma_quotient(g, w, a * u + b * v);
    if a > 0real {
        assert(a * u > 0real) by (nonlinear_arith)
            requires
                a > 0real,
                u > 0real,
        ;
        if g == 0real {
            dft::lemma_units(w);
        }
    }
}

/// Gains that run through gains that are not negative, or positive, are so up to
/// the last band.
proof fn lemma_runs_sign(h: spec_fn(int) -> real, e: spec_fn(int) -> real, k: int)
    requires
        gain_law::runs_through(h, e),
        forall|b: int| 0 <= b < 32 ==> #[trigger] e(b) >= 0real,
        0 <= k < 400,
    ensures
        h(k) >= 0real,
        (forall|b: int| 0 <= b < 32 ==> #[trigger] e(b) > 0real) ==> h(k) > 0real,
{
    common::lemma_edges();
    let edges = EBAND20MS@;
    if k < 2 {
        assert(gain_law::gain_at(h, e, k, 0));
        assert(e(0) >= 0real);
    } else if k >= 356 {
        assert(gain_law::gain_at(h, e, k, 31));
        assert(e(31) >= 0real);
    } else {
        let i = gain_law::lemma_find_band(edges, k, 32);
        assert(i >= 1) by {
            if i == 0 {
                assert(edges[1] == 2);
            }
        }
        let b = i - 1;
        let w = edges[b + 2] - edges[b + 1];
        let j = k - edges[b + 1];
        assert(gain_law::gain_between(h, e, edges[b + 1] as int, w, b, j));
        assert(e(b) >= 0real && e(b + 1) >= 0real);
        lemma_weighted_sign(h(k), w as real, e(b), (w - j) as real, e(b + 1), j as real);
    }
}

/// `y` is `c` times `x`.
pub open spec fn multiple_of<S>(phi: spec_fn(S) -> real, x: Cpx<S>, y: Cpx<S>, c: real) -> bool {
    phi(y.r) == c * phi(x.r) && phi(y.i) == c * phi(x.i)
}

/// A frame that repeats itself exactly, so that the spectrum one pitch period
/// earlier is its own, passes the comb filter unchanged up to a positive factor
/// in each bin.
pub proof fn lemma_repeating_frame<S: Sample>(
    phi: spec_fn(S) -> real,
    psi: spec_fn(S::Wide) -> real,
    f: FrameView<S>,
    g: Seq<S>,
    k: int,
)
    requires
        perfect::perfect(phi, psi),
        f.wf(),
        f.p == f.x,
        forall|b: int| 0 <= b < 32 ==> -1real <= phi(#[trigger] f.exp[b]) <= 1real,
        forall|b: int| 0 <= b < 32 ==> -1real <= phi(#[trigger] g[b]) <= 1real,
        forall|b: int| 0 <= b < 32 ==> phi(#[trigger] f.ex[b]) > 0real,
        forall|b: int| 0 <= b < 32 ==> phi(#[trigger] f.ep[b]) > 0real,
        0 <= k < 400,
    ensures
        exists|c: real|
            c > 0real && #[trigger] multiple_of(phi, f.x[k], denoise::comb_filtered(f, g)[k], c),
{
    assert forall|b: int| 0 <= b < 32 implies phi(#[trigger] f.ex[b]) >= 0real by {
        assert(phi(f.ex[b]) > 0real);
    }
    assert forall|b: int| 0 <= b < 32 implies phi(#[trigger] f.ep[b]) >= 0real by {
        assert(phi(f.ep[b]) > 0real);
    }
    lemma_comb_filter(phi, psi, f, g);
    let out = denoise::comb_filtered(f, g);
    let (s, h, y, n, v) = choose|
        s: spec_fn(int) -> real,
        h: spec_fn(int) -> real,
        y: Seq<Cpx<S>>,
        n: spec_fn(int) -> real,
        v: spec_fn(int) -> real,
    | #[trigger] combed(phi, f, g, s, h, y, n, v, out);
    assert forall|b: int| 0 <= b < 32 implies #[trigger] s(b) >= 0real by {
        assert(strength_of(phi(f.exp[b]), phi(g[b]), phi(f.ex[b]), phi(f.ep[b]), s(b)));
    }
    assert forall|b: int| 0 <= b < 32 implies #[trigger] n(b) > 0real by {
        assert(n(b) >= 0real && n(b) * n(b) * (1real / 100000000real + phi(
            common::band_energy(y)[b],
        )) == phi(f.ex[b]));
        assert(phi(f.ex[b]) > 0real);
        if n(b) == 0real {
            dft::lemma_units(n(b));
            dft::lemma_units(1real / 100000000real + phi(common::band_energy(y)[b]));
        }
    }
    lemma_runs_sign(h, s, k);
    lemma_runs_sign(v, n, k);
    let c = v(k) * (1real + h(k));
    assert(c > 0real) by (nonlinear_arith)
        requires
            c == v(k) * (1real + h(k)),
            v(k) > 0real,
            h(k) >= 0real,
    ;
    assert(phi(y[k].r) == phi(f.x[k].r) + h(k) * phi(f.p[k].r));
    assert(phi(out[k].r) == phi(y[k].r) * v(k));
    lemma_factor(phi(f.x[k].r), h(k), v(k));
    lemma_factor(phi(f.x[k].i), h(k), v(k));
    assert(multiple_of(phi, f.x[k], out[k], c));
}

proof fn lemma_factor(x: real, h: real, v: real)
    ensures
        (x + h * x) * v == (v * (1real + h)) * x,
{
    assert((x + h * x) * v == (v * (1real + h)) * x) by (nonlinear_arith);
}

/// The root of the ratio of two energies, squared, as the smaller network's
/// signal path takes it.
proof fn lemma_few_ratio<S: Sample>(phi: spec_fn(S) -> real, a: S, b: S)
    requires
        dft::exact(phi),
        exact::divides(phi),
        perfect::fractions(phi),
        perfect::square_roots(phi),
        phi(a) >= 0real,
        phi(b) >= 0real,
    ensures
        ({
            let r = phi(legacy_denoise::energy_ratio(a, b));
            r >= 0real && r * r * (1real / 100000000real + phi(b)) == phi(a)
        }),
{
    let small = S::frac(1, 100000000);
    perfect::lemma_frac(phi, 1, 100000000);
    let bottom = small + b;
    let t = a / bottom;
    assert(phi(bottom) == 1real / 100000000real + phi(b));
    assert(phi(t) * phi(bottom) == phi(a));
    lemma_quotient(phi(t), phi(bottom), phi(a));
    assert(phi(t.sqrt_of()) * phi(t.sqrt_of()) == phi(t));
}

/// The comb filter of the smaller network's signal path has the strength that
/// the band asks for.
pub proof fn lemma_few_strength<S: Sample>(
    phi: spec_fn(S) -> real,
    psi: spec_fn(S::Wide) -> real,
    exp: S,
    g: S,
    ex: S,
    ep: S,
)
    requires
        perfect::perfect(phi, psi),
        -1real <= phi(exp) <= 1real,
        -1real <= phi(g) <= 1real,
        phi(ex) >= 0real,
        phi(ep) >= 0real,
    ensures
        strength_of(
            phi(exp),
            phi(g),
            phi(ex),
            phi(ep),
            phi(legacy_denoise::comb(exp, g, ex, ep)),
        ),
{
    perfect::lemma_zero_one(phi);
    let (x, y) = (phi(exp), phi(g));
    lemma_square_range(x);
    lemma_square_range(y);
    let sq_exp = exp * exp;
    let sq_g = g * g;
    let num = sq_exp * (S::unit() - sq_g);
    let den = S::frac(1, 1000) + sq_g * (S::unit() - sq_exp);
    perfect::lemma_frac(phi, 1, 1000);
    let most = x * x * (1real - y * y);
    let per = 1real / 1000real + y * y * (1real - x * x);
    assert(phi(num) == most);
    assert(phi(den) == per);
    lemma_nonneg(x * x, 1real - y * y);
    lemma_nonneg(y * y, 1real - x * x);
    let raw = if g.lt_of(exp) {
        S::unit()
    } else {
        num / den
    };
    let kept = legacy_denoise::unit_range(raw);
    let q = phi(kept);
    if g.lt_of(exp) {
        assert(q == 1real);
    } else {
        let t = phi(num / den);
        assert(t * per == most);
        lemma_quotient(t, per, most);
        assert(q == if 1real < t {
            1real
        } else {
            t
        });
        lemma_share(most, per, t, q);
    }
    assert(share_of(x, y, q));
    let root = kept.sqrt_of();
    assert(phi(root) >= 0real && phi(root) * phi(root) == q);
    lemma_few_ratio(phi, ex, ep);
    let r = phi(legacy_denoise::energy_ratio(ex, ep));
    let s = phi(legacy_denoise::comb(exp, g, ex, ep));
    assert(legacy_denoise::comb(exp, g, ex, ep) == root * legacy_denoise::energy_ratio(ex, ep));
    assert(s == phi(root) * r);
    lemma_nonneg(phi(root), r);
    lemma_two_squares(phi(root), r, 1real / 100000000real + phi(ep), q, phi(ex));
}

/// As [`combed`], for the 22 bands of the smaller network.
pub open spec fn few_combed<S: Sample>(
    phi: spec_fn(S) -> real,
    f: SpectraView<S>,
    g: Seq<S>,
    s: spec_fn(int) -> real,
    h: spec_fn(int) -> real,
    y: Seq<Cpx<S>>,
    n: spec_fn(int) -> real,
    v: spec_fn(int) -> real,
    out: Seq<Cpx<S>>,
) -> bool {
    &&& forall|b: int|
        0 <= b < 22 ==> strength_of(
            phi(f.exp[b]),
            phi(g[b]),
            phi(f.ex[b]),
            phi(f.ep[b]),
            #[trigger] s(b),
        )
    &&& gain_law::runs_through_few(h, s)
    &&& added(phi, f.x, f.p, h, y)
    &&& forall|b: int|
        0 <= b < 22 ==> #[trigger] n(b) >= 0real && n(b) * n(b) * (1real / 100000000real + phi(
            legacy_denoise::band_corr(y, y)[b],
        )) == phi(f.ex[b])
    &&& gain_law::runs_through_few(v, n)
    &&& gain_law::scaled_by(phi, y, out, v)
}

/// The energies of the 22 bands are not negative.
pub proof fn lemma_few_energy<S: Sample>(phi: spec_fn(S) -> real, x: Seq<Cpx<S>>, b: int)
    requires
        dft::exact(phi),
        exact::divides(phi),
        exact::counts(phi),
        0 <= b < 22,
    ensures
        phi(legacy_denoise::band_corr(x, x)[b]) >= 0real,
{
    perfect::lemma_zero_one(phi);
    let zero = Seq::new(400, |k: int| Cpx { r: S::nil(), i: S::nil() });
    assert forall|k: int| 0 <= k < 400 implies phi(#[trigger] bands::bin(zero, zero, k)) <= phi(
        bands::bin(x, x, k),
    ) by {
        exact::lemma_square_nonneg(phi(x[k].r));
        exact::lemma_square_nonneg(phi(x[k].i));
        dft::lemma_units(0real);
        assert(phi(bands::bin(zero, zero, k)) == 0real);
    }
    assert forall|k: int| 0 <= k < 400 implies phi(#[trigger] bands::bin(zero, zero, k)) == 0real by {
        dft::lemma_units(0real);
    }
    lemma_more_correlated(phi, zero, zero, x, x);
    legacy_denoise::lemma_edges();
    lemma_zero_sum(phi, zero, b);
    let sums = bands::band_sums_of(EBAND5MS@, zero, zero);
    let two = S::num(2);
    assert(phi(two) == 2real);
    assert(phi(sums[b] * two) == phi(sums[b]) * 2real);
    assert(phi(sums[b]) == 0real);
    assert(phi(legacy_denoise::band_corr(zero, zero)[b]) == 0real);
}

proof fn lemma_zero_sum<S: Sample>(phi: spec_fn(S) -> real, zero: Seq<Cpx<S>>, b: int)
    requires
        dft::exact(phi),
        exact::counts(phi),
        forall|k: int| 0 <= k < 400 ==> phi(#[trigger] bands::bin(zero, zero, k)) == 0real,
        0 <= b < 22,
    ensures
        phi(bands::band_sum(EBAND5MS@, zero, zero, b)) == 0real,
{
    legacy_denoise::lemma_edges();
    perfect::lemma_zero_one(phi);
    let edges = EBAND5MS@;
    let low = bands::lower_side(edges, zero, zero, b);
    if b > 0 {
        assert(edges[b - 1] < edges[b]);
        if b < 21 {
            assert(edges[b] < edges[21]);
        }
        lemma_zero_sides(phi, S::nil(), edges, zero, b - 1, bands::width(edges, b - 1));
    }
    if b < 21 {
        assert(edges[b] < edges[b + 1]);
        if b + 1 < 21 {
            assert(edges[b + 1] < edges[21]);
        }
        lemma_zero_sides(phi, low, edges, zero, b, bands::width(edges, b));
    }
}

proof fn lemma_zero_sides<S: Sample>(
    phi: spec_fn(S) -> real,
    init: S,
    edges: Seq<usize>,
    zero: Seq<Cpx<S>>,
    i: int,
    n: nat,
)
    requires
        dft::exact(phi),
        phi(init) == 0real,
        forall|k: int| 0 <= k < 400 ==> phi(#[trigger] bands::bin(zero, zero, k)) == 0real,
        edges[i] + n <= 400,
    ensures
        phi(bands::rising(init, edges, zero, zero, i, n)) == 0real,
        phi(bands::falling(init, edges, zero, zero, i, n)) == 0real,
    decreases n,
{
    if n > 0 {
        lemma_zero_sides(phi, init, edges, zero, i, (n - 1) as nat);
        let k = edges[i] + (n - 1);
        assert(phi(bands::bin(zero, zero, k)) == 0real);
        let s = bands::share::<S>(n - 1, bands::width(edges, i));
        dft::lemma_units(phi(s));
        dft::lemma_units(phi(S::unit() - s));
    }
}

/// What the comb filter of the smaller network's signal path does.
pub proof fn lemma_few_comb_filter<S: Sample>(
    phi: spec_fn(S) -> real,
    psi: spec_fn(S::Wide) -> real,
    f: SpectraView<S>,
    g: Seq<S>,
)
    requires
        perfect::perfect(phi, psi),
        f.wf(),
        forall|b: int| 0 <= b < 22 ==> -1real <= phi(#[trigger] f.exp[b]) <= 1real,
        forall|b: int| 0 <= b < 22 ==> -1real <= phi(#[trigger] g[b]) <= 1real,
        forall|b: int| 0 <= b < 22 ==> phi(#[trigger] f.ex[b]) >= 0real,
        forall|b: int| 0 <= b < 22 ==> phi(#[trigger] f.ep[b]) >= 0real,
    ensures
        exists|
            s: spec_fn(int) -> real,
            h: spec_fn(int) -> real,
            y: Seq<Cpx<S>>,
            n: spec_fn(int) -> real,
            v: spec_fn(int) -> real,
        | #[trigger]
            few_combed(phi, f, g, s, h, y, n, v, legacy_denoise::comb_filtered(f, g)),
{
    let r = Seq::new(
        22,
        |i: int| legacy_denoise::comb(f.exp[i], g[i], f.ex[i], f.ep[i]),
    );
    let s = |b: int| phi(r[b]);
    let h = |k: int| phi(legacy_denoise::bin_gains(r)[k]);
    gain_law::lemma_few_bin_gains(phi, r);
    assert forall|b: int| 0 <= b < 22 implies strength_of(
        phi(f.exp[b]),
        phi(g[b]),
        phi(f.ex[b]),
        phi(f.ep[b]),
        #[trigger] s(b),
    ) by {
        assert(phi(f.ex[b]) >= 0real && phi(f.ep[b]) >= 0real);
        assert(-1real <= phi(f.exp[b]) <= 1real && -1real <= phi(g[b]) <= 1real);
        lemma_few_strength(phi, psi, f.exp[b], g[b], f.ex[b], f.ep[b]);
    }
    let y = denoise::mixed(f.x, f.p, legacy_denoise::bin_gains(r));
    assert(added(phi, f.x, f.p, h, y));
    let e = legacy_denoise::band_corr(y, y);
    let norm = Seq::new(22, |i: int| legacy_denoise::energy_ratio(f.ex[i], e[i]));
    let n = |b: int| phi(norm[b]);
    let v = |k: int| phi(legacy_denoise::bin_gains(norm)[k]);
    gain_law::lemma_few_bin_gains(phi, norm);
    assert forall|b: int| 0 <= b < 22 implies #[trigger] n(b) >= 0real && n(b) * n(b) * (1real
        / 100000000real + phi(e[b])) == phi(f.ex[b]) by {
        lemma_few_energy(phi, y, b);
        assert(phi(f.ex[b]) >= 0real);
        lemma_few_ratio(phi, f.ex[b], e[b]);
    }
    let out = legacy_denoise::comb_filtered(f, g);
    assert(gain_law::scaled_by(phi, y, out, v));
    assert(few_combed(phi, f, g, s, h, y, n, v, out));
}

} // verus!
