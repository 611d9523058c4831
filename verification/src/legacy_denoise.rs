//! The denoiser around the smaller network.
//!
//! Its Fourier transforms are given by the caller. A frame takes three steps:
//! [`DenoiseStateV1::prepare`] gives two windowed signals, whose spectra
//! [`DenoiseStateV1::suppress`] takes and turns into the spectrum of the
//! output, whose signal [`DenoiseStateV1::synthesize`] takes and puts out.
//! [`DenoiseStateV1::process_frame`] goes through them with two transforms.

use std::sync::Arc;
use vstd::prelude::*;
use vstd::slice::slice_subrange;
use crate::arith::{filled, Arith, Sample, SampleArith};
use crate::bands::{band_sums, push_flat, push_ramps};
use crate::bands;
use crate::celt_lpc::tail;
use crate::common::{apply_window, dct, dct_table, half_window_table, high_pass};
use crate::common;
use crate::denoise::{apply_gains, find_pitch, mix};
use crate::denoise;
use crate::fft::Cpx;
use crate::legacy::{ModelView, RnnModelV1, NB_BANDS, NB_FEATURES};
use crate::legacy_net::{RnnStateV1, StateView};
use crate::legacy_net;
use crate::rnn::extend;
use crate::{FRAME_SIZE, FREQ_SIZE, PITCH_BUF_SIZE, PITCH_MAX_PERIOD, PITCH_MIN_PERIOD, WINDOW_SIZE};

verus! {

/// Number of frames whose cepstra are remembered.
pub const CEPS_MEM: usize = 8;

/// Number of cepstral coefficients whose changes are features.
pub const NB_DELTA_CEPS: usize = 6;

/// Edges of the bands, in bins of 50 Hz.
pub const EBAND5MS: [usize; 22] = [
    0,
    4,
    8,
    12,
    16,
    20,
    24,
    28,
    32,
    40,
    48,
    56,
    64,
    80,
    96,
    112,
    136,
    160,
    192,
    240,
    312,
    400,
];

/// The edges of the bands are increasing and end inside a spectrum.
pub proof fn lemma_edges()
    ensures
        EBAND5MS@.len() == NB_BANDS,
        bands::increasing(EBAND5MS@),
        EBAND5MS@[21] == 400,
{
    let e = EBAND5MS@;
    assert(forall|i: int| 0 <= i < 21 ==> #[trigger] e[i] < e[i + 1]);
    assert forall|i: int, j: int| 0 <= i < j < e.len() implies e[i] < e[j] by {
        common::lemma_chain(e, i, j);
    }
}

/// The correlations of two spectra in the bands; the outermost bands count
/// twice.
pub open spec fn band_corr<S: Sample>(x: Seq<Cpx<S>>, p: Seq<Cpx<S>>) -> Seq<S> {
    let sums = bands::band_sums_of(EBAND5MS@, x, p);
    sums.update(0, sums[0] * S::num(2)).update(21, sums[21] * S::num(2))
}

/// Correlate two spectra in the bands.
pub fn compute_band_corr<S: Sample>(x: &[Cpx<S>], p: &[Cpx<S>]) -> (out: Vec<S>)
    requires
        400 <= x@.len(),
        400 <= p@.len(),
    ensures
        out@.len() == NB_BANDS,
        S::functional() ==> out@ == band_corr(x@, p@),
{
    proof {
        lemma_edges();
    }
    let mut out = band_sums(&EBAND5MS, x, p);
    let two = S::ratio(2, 1);
    let first = out[0].times(two);
    let last = out[NB_BANDS - 1].times(two);
    out.set(0, first);
    out.set(NB_BANDS - 1, last);
    out
}

/// The gains of the bins: the bands run into one another, and nothing is left
/// above the last.
pub open spec fn bin_gains<S: Sample>(e: Seq<S>) -> Seq<S> {
    bands::ramps(EBAND5MS@, e, 0, 21) + bands::flat(S::nil(), (FREQ_SIZE - 400) as nat)
}

/// Expand the gains of the bands to gains of the bins.
pub fn interp_band_gain<S: Sample>(e: &[S]) -> (g: Vec<S>)
    requires
        NB_BANDS <= e@.len(),
    ensures
        g@.len() == FREQ_SIZE,
        S::functional() ==> g@ == bin_gains(e@),
{
    proof {
        lemma_edges();
        bands::lemma_ramps(EBAND5MS@, e@, 0, 21);
    }
    let mut g: Vec<S> = Vec::new();
    push_ramps(&mut g, &EBAND5MS, e, 0, 21);
    push_flat(&mut g, S::ratio(0, 1), FREQ_SIZE - 400);
    assert(S::functional() ==> g@ == bin_gains(e@));
    g
}

/// Sample `i` of the whole window.
pub open spec fn window_at<S>(half: Seq<S>, i: int) -> S {
    half[if i < FRAME_SIZE {
        i
    } else {
        WINDOW_SIZE - 1 - i
    }]
}

/// The energy of the first `n` samples of the window.
pub open spec fn window_energy<S: Sample>(half: Seq<S>, n: nat) -> S
    decreases n,
{
    if n == 0 {
        S::nil()
    } else {
        window_energy(half, (n - 1) as nat) + window_at(half, n - 1) * window_at(half, n - 1)
    }
}

/// The factor that normalises a spectrum: one over the energy of the window.
pub open spec fn window_norm<S: Sample>() -> S {
    S::unit() / window_energy(common::half_window_of::<S>(), WINDOW_SIZE as nat)
}

/// The tables that every stream shares.
pub struct LegacyCommon<S> {
    half_window: Vec<S>,
    dct_table: Vec<S>,
    wnorm: S,
}

impl<S: Sample> LegacyCommon<S> {
    /// The tables are complete.
    pub closed spec fn wf(&self) -> bool {
        &&& self.half_window@.len() == FRAME_SIZE
        &&& self.dct_table@.len() == NB_BANDS * NB_BANDS
        &&& S::functional() ==> {
            &&& self.half_window@ == common::half_window_of::<S>()
            &&& self.dct_table@ == common::cosine_table::<S>(NB_BANDS as nat)
            &&& self.wnorm == window_norm::<S>()
        }
    }

    /// Compute the tables.
    pub fn new() -> (c: Self)
        ensures
            c.wf(),
    {
        let half_window: Vec<S> = half_window_table();
        let mut e = S::ratio(0, 1);
        let mut i: usize = 0;
        while i < WINDOW_SIZE
            invariant
                half_window@.len() == FRAME_SIZE,
                i <= WINDOW_SIZE,
                S::functional() ==> e == window_energy(half_window@, i as nat),
            decreases WINDOW_SIZE - i,
        {
            let w = half_window[if i < FRAME_SIZE {
                i
            } else {
                WINDOW_SIZE - 1 - i
            }];
            e = e.plus(w.times(w));
            i += 1;
        }
        let wnorm = S::ratio(1, 1).over(e);
        LegacyCommon { half_window, dct_table: dct_table(NB_BANDS), wnorm }
    }

    /// The factor that normalises a spectrum.
    pub fn wnorm(&self) -> (w: S)
        requires
            self.wf(),
        ensures
            S::functional() ==> w == window_norm::<S>(),
    {
        self.wnorm
    }

    /// The cosine transform of the bands.
    pub fn dct(&self, x: &[S]) -> (out: Vec<S>)
        requires
            self.wf(),
            NB_BANDS <= x@.len(),
        ensures
            out@.len() == NB_BANDS,
            S::functional() ==> out@ == common::cosines(
                common::cosine_table::<S>(NB_BANDS as nat),
                NB_BANDS as nat,
                x@,
            ),
    {
        dct(&self.dct_table, NB_BANDS, x)
    }

    /// Apply the window to two frames.
    pub fn apply_window(&self, x: &[S]) -> (out: Vec<S>)
        requires
            self.wf(),
            WINDOW_SIZE <= x@.len(),
        ensures
            out@.len() == WINDOW_SIZE,
            S::functional() ==> out@ == common::windowed(x@, common::half_window_of::<S>()),
    {
        apply_window(&self.half_window, x)
    }
}

/// Two frames that end `lag` samples before the end of the signal, under the
/// window.
pub open spec fn lagged<S: Sample>(mem: Seq<S>, lag: int) -> Seq<S> {
    let start = PITCH_BUF_SIZE - WINDOW_SIZE - lag;
    common::windowed(
        mem.subrange(start, start + WINDOW_SIZE),
        common::half_window_of::<S>(),
    )
}

/// Cut two frames out of the signal and apply the window.
fn windowed<S: Sample>(common: &LegacyCommon<S>, mem: &[S], lag: usize) -> (out: Vec<S>)
    requires
        common.wf(),
        mem@.len() == PITCH_BUF_SIZE,
        lag <= PITCH_MAX_PERIOD,
    ensures
        out@.len() == WINDOW_SIZE,
        S::functional() ==> out@ == lagged(mem@, lag as int),
{
    let start: usize = PITCH_BUF_SIZE - WINDOW_SIZE - lag;
    common.apply_window(slice_subrange(mem, start, start + WINDOW_SIZE))
}

/// A spectrum with every bin multiplied by `w`.
pub open spec fn normalised<S: Sample>(x: Seq<Cpx<S>>, w: S) -> Seq<Cpx<S>> {
    Seq::new(FREQ_SIZE as nat, |i: int| Cpx { r: x[i].r * w, i: x[i].i * w })
}

fn normalise<S: Sample>(x: &[Cpx<S>], w: S) -> (out: Vec<Cpx<S>>)
    requires
        FREQ_SIZE <= x@.len(),
    ensures
        out@.len() == FREQ_SIZE,
        S::functional() ==> out@ == normalised(x@, w),
{
    let mut out: Vec<Cpx<S>> = Vec::new();
    let mut i: usize = 0;
    while i < FREQ_SIZE
        invariant
            FREQ_SIZE <= x@.len(),
            i <= FREQ_SIZE,
            out@.len() == i,
            S::functional() ==> forall|k: int|
                0 <= k < i ==> #[trigger] out@[k] == normalised(x@, w)[k],
        decreases FREQ_SIZE - i,
    {
        out.push(Cpx { r: x[i].r.times(w), i: x[i].i.times(w) });
        i += 1;
    }
    out
}

/// An analysed frame, as in [`denoise::FrameView`] but with fewer bands.
pub struct Spectra<S> {
    pub x: Vec<Cpx<S>>,
    pub p: Vec<Cpx<S>>,
    pub ex: Vec<S>,
    pub ep: Vec<S>,
    pub exp: Vec<S>,
}

/// [`Spectra`] with the vectors as sequences.
pub struct SpectraView<S> {
    pub x: Seq<Cpx<S>>,
    pub p: Seq<Cpx<S>>,
    pub ex: Seq<S>,
    pub ep: Seq<S>,
    pub exp: Seq<S>,
}

impl<S> View for Spectra<S> {
    type V = SpectraView<S>;

    open spec fn view(&self) -> SpectraView<S> {
        SpectraView { x: self.x@, p: self.p@, ex: self.ex@, ep: self.ep@, exp: self.exp@ }
    }
}

impl<S> SpectraView<S> {
    /// All parts have their lengths.
    pub open spec fn wf(self) -> bool {
        &&& self.x.len() == FREQ_SIZE
        &&& self.p.len() == FREQ_SIZE
        &&& self.ex.len() == NB_BANDS
        &&& self.ep.len() == NB_BANDS
        &&& self.exp.len() == NB_BANDS
    }
}

/// The frame that two spectra describe.
#[verifier::opaque]
pub open spec fn spectra_of<S: Sample>(x: Seq<Cpx<S>>, p: Seq<Cpx<S>>) -> SpectraView<S> {
    let ex = band_corr(x, x);
    let ep = band_corr(p, p);
    let raw = band_corr(x, p);
    SpectraView {
        x,
        p,
        ex,
        ep,
        exp: Seq::new(
            NB_BANDS as nat,
            |i: int| raw[i] / (S::frac(1, 1000) + ex[i] * ep[i]).sqrt_of(),
        ),
    }
}

fn analyse<S: Sample>(x: Vec<Cpx<S>>, p: Vec<Cpx<S>>) -> (f: Spectra<S>)
    requires
        x@.len() == FREQ_SIZE,
        p@.len() == FREQ_SIZE,
    ensures
        f@.wf(),
        f@.x == x@,
        f@.p == p@,
        S::functional() ==> f@ == spectra_of(x@, p@),
{
    reveal(spectra_of);
    let ex = compute_band_corr(&x, &x);
    let ep = compute_band_corr(&p, &p);
    let raw = compute_band_corr(&x, &p);
    let mut exp: Vec<S> = Vec::new();
    let mut i: usize = 0;
    while i < NB_BANDS
        invariant
            i <= NB_BANDS,
            raw@.len() == NB_BANDS,
            ex@.len() == NB_BANDS,
            ep@.len() == NB_BANDS,
            exp@.len() == i,
            S::functional() ==> forall|k: int|
                0 <= k < i ==> #[trigger] exp@[k] == raw@[k] / (S::frac(1, 1000) + ex@[k]
                    * ep@[k]).sqrt_of(),
        decreases NB_BANDS - i,
    {
        exp.push(raw[i].over(S::ratio(1, 1000).plus(ex[i].times(ep[i])).root()));
        i += 1;
    }
    assert(S::functional() ==> exp@ == spectra_of(x@, p@).exp);
    Spectra { x, p, ex, ep, exp }
}

/// A number limited to the range from zero to one; what compares to neither
/// stays as it is.
pub open spec fn unit_range<S: Sample>(x: S) -> S {
    if x.lt_of(S::nil()) {
        S::nil()
    } else if S::unit().lt_of(x) {
        S::unit()
    } else {
        x
    }
}

/// The square root of the ratio of two energies.
pub open spec fn energy_ratio<S: Sample>(a: S, b: S) -> S {
    (a / (S::frac(1, 100000000) + b)).sqrt_of()
}

/// The strength of the comb filter in a band, from the band's correlation
/// `exp`, gain `g` and energies.
pub open spec fn comb<S: Sample>(exp: S, g: S, ex: S, ep: S) -> S {
    let raw = if g.lt_of(exp) {
        S::unit()
    } else {
        let exp_sq = exp * exp;
        let g_sq = g * g;
        exp_sq * (S::unit() - g_sq) / (S::frac(1, 1000) + g_sq * (S::unit() - exp_sq))
    };
    unit_range(raw).sqrt_of() * energy_ratio(ex, ep)
}

/// A spectrum after the comb filter: the spectrum one pitch period earlier is
/// mixed in, and the energies of the bands are restored.
pub open spec fn comb_filtered<S: Sample>(f: SpectraView<S>, g: Seq<S>) -> Seq<Cpx<S>> {
    let r = Seq::new(NB_BANDS as nat, |i: int| comb(f.exp[i], g[i], f.ex[i], f.ep[i]));
    let y = denoise::mixed(f.x, f.p, bin_gains(r));
    let e = band_corr(y, y);
    let norm = Seq::new(NB_BANDS as nat, |i: int| energy_ratio(f.ex[i], e[i]));
    denoise::weighted(y, bin_gains(norm))
}

fn root_ratio<S: Sample>(a: S, b: S) -> (r: S)
    ensures
        S::functional() ==> r == energy_ratio(a, b),
{
    a.over(S::ratio(1, 100000000).plus(b)).root()
}

fn comb_strength<S: Sample>(exp: S, g: S, ex: S, ep: S) -> (r: S)
    ensures
        S::functional() ==> r == comb(exp, g, ex, ep),
{
    let zero = S::ratio(0, 1);
    let one = S::ratio(1, 1);
    let raw = if g.below(exp) {
        one
    } else {
        let exp_sq = exp.times(exp);
        let g_sq = g.times(g);
        exp_sq.times(one.minus(g_sq)).over(
            S::ratio(1, 1000).plus(g_sq.times(one.minus(exp_sq))),
        )
    };
    let limited = if raw.below(zero) {
        zero
    } else if one.below(raw) {
        one
    } else {
        raw
    };
    limited.root().times(root_ratio(ex, ep))
}

/// Comb-filter a frame's spectrum toward the one a pitch period earlier, with
/// the strength that the gains `g` of the bands ask for.
fn pitch_filter<S: Sample>(f: &Spectra<S>, g: &[S]) -> (y: Vec<Cpx<S>>)
    requires
        f@.wf(),
        NB_BANDS <= g@.len(),
    ensures
        y@.len() == FREQ_SIZE,
        S::functional() ==> y@ == comb_filtered(f@, g@),
{
    let mut r: Vec<S> = Vec::new();
    let mut i: usize = 0;
    while i < NB_BANDS
        invariant
            f@.wf(),
            NB_BANDS <= g@.len(),
            i <= NB_BANDS,
            r@.len() == i,
            S::functional() ==> forall|k: int|
                0 <= k < i ==> #[trigger] r@[k] == comb(f@.exp[k], g@[k], f@.ex[k], f@.ep[k]),
        decreases NB_BANDS - i,
    {
        r.push(comb_strength(f.exp[i], g[i], f.ex[i], f.ep[i]));
        i += 1;
    }
    assert(S::functional() ==> r@ == Seq::new(
        NB_BANDS as nat,
        |i: int| comb(f@.exp[i], g@[i], f@.ex[i], f@.ep[i]),
    ));
    let rf = interp_band_gain(&r);
    let mut y: Vec<Cpx<S>> = Vec::new();
    extend(&mut y, &f.x);
    assert(y@ == f@.x);
    mix(&mut y, &f.p, &rf);
    let new_e = compute_band_corr(&y, &y);
    let mut norm: Vec<S> = Vec::new();
    let mut i: usize = 0;
    while i < NB_BANDS
        invariant
            f@.wf(),
            new_e@.len() == NB_BANDS,
            i <= NB_BANDS,
            norm@.len() == i,
            S::functional() ==> forall|k: int|
                0 <= k < i ==> #[trigger] norm@[k] == energy_ratio(f@.ex[k], new_e@[k]),
        decreases NB_BANDS - i,
    {
        norm.push(root_ratio(f.ex[i], new_e[i]));
        i += 1;
    }
    assert(S::functional() ==> norm@ == Seq::new(
        NB_BANDS as nat,
        |i: int| energy_ratio(f@.ex[i], new_e@[i]),
    ));
    let normf = interp_band_gain(&norm);
    apply_gains(&mut y, &normf);
    y
}

/// The logarithmic band energies, limited from below by the loudest band and by
/// a decay from band to band, and the total energy.
pub open spec fn log_bands<S: Sample>(ex: Seq<S>, n: nat) -> denoise::LogBands<S>
    decreases n,
{
    if n == 0 {
        denoise::LogBands {
            ly: Seq::empty(),
            log_max: S::num(-2),
            follow: S::num(-2),
            e: S::nil(),
        }
    } else {
        let b = log_bands(ex, (n - 1) as nat);
        let x = ex[n - 1];
        let low = b.follow - S::frac(3, 2);
        let ly = (S::frac(1, 100) + x).log10_of().max_of(b.log_max - S::num(7)).max_of(low);
        denoise::LogBands {
            ly: b.ly.push(ly),
            log_max: b.log_max.max_of(ly),
            follow: low.max_of(ly),
            e: b.e + x,
        }
    }
}

fn compute_log_bands<S: Sample>(ex: &[S]) -> (r: (Vec<S>, S))
    requires
        NB_BANDS <= ex@.len(),
    ensures
        r.0@.len() == NB_BANDS,
        S::functional() ==> {
            let b = log_bands(ex@, NB_BANDS as nat);
            r.0@ == b.ly && r.1 == b.e
        },
{
    let mut ly: Vec<S> = Vec::new();
    let mut log_max = S::ratio(-2, 1);
    let mut follow = S::ratio(-2, 1);
    let mut e = S::ratio(0, 1);
    let mut i: usize = 0;
    while i < NB_BANDS
        invariant
            NB_BANDS <= ex@.len(),
            i <= NB_BANDS,
            ly@.len() == i,
            S::functional() ==> {
                let b = log_bands(ex@, i as nat);
                &&& ly@ == b.ly
                &&& log_max == b.log_max
                &&& follow == b.follow
                &&& e == b.e
            },
        decreases NB_BANDS - i,
    {
        let low = follow.minus(S::ratio(3, 2));
        let lyi = S::ratio(1, 100).plus(ex[i]).log10().larger(
            log_max.minus(S::ratio(7, 1)),
        ).larger(low);
        log_max = log_max.larger(lyi);
        follow = follow.minus(S::ratio(3, 2)).larger(lyi);
        ly.push(lyi);
        e = e.plus(ex[i]);
        i += 1;
    }
    (ly, e)
}

/// Whether a frame is silence: its energy is below a threshold.
#[verifier::opaque]
pub open spec fn is_silence<S: Sample>(f: SpectraView<S>) -> bool {
    log_bands(f.ex, NB_BANDS as nat).e.lt_of(S::frac(4, 100))
}

/// The cepstrum of a frame.
pub open spec fn cepstrum<S: Sample>(f: SpectraView<S>) -> Seq<S> {
    let c = common::cosines(
        common::cosine_table::<S>(NB_BANDS as nat),
        NB_BANDS as nat,
        log_bands(f.ex, NB_BANDS as nat).ly,
    );
    c.update(0, c[0] - S::num(12)).update(1, c[1] - S::num(4))
}

/// The squared distance of the first `n` elements of two cepstra.
pub open spec fn distance<S: Sample>(a: Seq<S>, b: Seq<S>, n: nat) -> S
    decreases n,
{
    if n == 0 {
        S::nil()
    } else {
        let d = a[n - 1] - b[n - 1];
        distance(a, b, (n - 1) as nat) + d * d
    }
}

/// The squared distance of cepstrum `i` to the closest of the others among the
/// first `n`.
pub open spec fn closest<S: Sample>(mem: Seq<Seq<S>>, i: int, n: nat) -> S
    decreases n,
{
    if n == 0 {
        S::num(1_000_000_000_000_000)
    } else {
        let before = closest(mem, i, (n - 1) as nat);
        if n - 1 == i {
            before
        } else {
            before.min_of(distance(mem[i], mem[n - 1], NB_BANDS as nat))
        }
    }
}

/// How much the first `n` of the remembered cepstra differ from the others.
pub open spec fn variability<S: Sample>(mem: Seq<Seq<S>>, n: nat) -> S
    decreases n,
{
    if n == 0 {
        S::nil()
    } else {
        variability(mem, (n - 1) as nat) + closest(mem, n - 1, CEPS_MEM as nat)
    }
}

/// The features of a frame: its cepstrum, of which the first coefficients are
/// summed over three frames, their first and second differences, the cosine
/// transform of the correlations, the pitch period and the variability of the
/// cepstra. `mem` holds the cepstra of the last frames, this one at `at`.
#[verifier::opaque]
pub open spec fn features_of<S: Sample>(
    f: SpectraView<S>,
    period: int,
    mem: Seq<Seq<S>>,
    at: int,
) -> Seq<S> {
    let c0 = mem[at];
    let c1 = mem[(at + CEPS_MEM - 1) % CEPS_MEM as int];
    let c2 = mem[(at + CEPS_MEM - 2) % CEPS_MEM as int];
    let t = common::cosines(
        common::cosine_table::<S>(NB_BANDS as nat),
        NB_BANDS as nat,
        f.exp,
    );
    let first = NB_BANDS + 2 * NB_DELTA_CEPS;
    Seq::new(
        NB_FEATURES as nat,
        |i: int|
            if i < NB_DELTA_CEPS {
                c0[i] + c1[i] + c2[i]
            } else if i < NB_BANDS {
                c0[i]
            } else if i < NB_BANDS + NB_DELTA_CEPS {
                c0[i - NB_BANDS] - c2[i - NB_BANDS]
            } else if i < first {
                let j = i - NB_BANDS - NB_DELTA_CEPS;
                c0[j] - S::num(2) * c1[j] + c2[j]
            } else if i == first {
                t[0] - S::frac(13, 10)
            } else if i == first + 1 {
                t[1] - S::frac(9, 10)
            } else if i < first + NB_DELTA_CEPS {
                t[i - first]
            } else if i == first + NB_DELTA_CEPS {
                S::frac(1, 100) * (S::num(period) - S::num(300))
            } else {
                variability(mem, CEPS_MEM as nat) / S::num(CEPS_MEM as int) - S::frac(21, 10)
            },
    )
}

/// The elements of a list of vectors, as sequences.
pub open spec fn rows<S>(m: Seq<Vec<S>>) -> Seq<Seq<S>> {
    m.map_values(|v: Vec<S>| v@)
}

/// Eight cepstra.
pub open spec fn cepstra_wf<S>(m: Seq<Seq<S>>) -> bool {
    &&& m.len() == CEPS_MEM
    &&& forall|i: int| 0 <= i < CEPS_MEM ==> (#[trigger] m[i]).len() == NB_BANDS
}

/// How much the remembered cepstra differ.
fn compute_variability<S: Sample>(mem: &Vec<Vec<S>>) -> (v: S)
    requires
        cepstra_wf(rows(mem@)),
    ensures
        S::functional() ==> v == variability(rows(mem@), CEPS_MEM as nat),
{
    let ghost m = rows(mem@);
    let mut v = S::ratio(0, 1);
    let mut i: usize = 0;
    while i < CEPS_MEM
        invariant
            m == rows(mem@),
            cepstra_wf(m),
            i <= CEPS_MEM,
            S::functional() ==> v == variability(m, i as nat),
        decreases CEPS_MEM - i,
    {
        let mut least = S::ratio(1_000_000_000_000_000, 1);
        let mut j: usize = 0;
        while j < CEPS_MEM
            invariant
                m == rows(mem@),
                cepstra_wf(m),
                i < CEPS_MEM,
                j <= CEPS_MEM,
                S::functional() ==> least == closest(m, i as int, j as nat),
            decreases CEPS_MEM - j,
        {
            if j != i {
                assert(m[i as int].len() == NB_BANDS && m[j as int].len() == NB_BANDS);
                let a = &mem[i];
                let b = &mem[j];
                let mut dist = S::ratio(0, 1);
                let mut k: usize = 0;
                while k < NB_BANDS
                    invariant
                        a@ == m[i as int],
                        b@ == m[j as int],
                        a@.len() == NB_BANDS,
                        b@.len() == NB_BANDS,
                        k <= NB_BANDS,
                        S::functional() ==> dist == distance(a@, b@, k as nat),
                    decreases NB_BANDS - k,
                {
                    let d = a[k].minus(b[k]);
                    dist = dist.plus(d.times(d));
                    k += 1;
                }
                least = least.smaller(dist);
            }
            j += 1;
        }
        v = v.plus(least);
        i += 1;
    }
    v
}

/// Compute the features of a frame, given the cepstra of the last frames.
fn compute_features<S: Sample>(
    common: &LegacyCommon<S>,
    f: &Spectra<S>,
    period: usize,
    mem: &Vec<Vec<S>>,
    at: usize,
) -> (v: Vec<S>)
    requires
        common.wf(),
        f@.wf(),
        period <= PITCH_MAX_PERIOD,
        cepstra_wf(rows(mem@)),
        at < CEPS_MEM,
    ensures
        v@.len() == NB_FEATURES,
        S::functional() ==> v@ == features_of(f@, period as int, rows(mem@), at as int),
{
    reveal(features_of);
    let ghost m = rows(mem@);
    let t = common.dct(&f.exp);
    let i1: usize = (at + CEPS_MEM - 1) % CEPS_MEM;
    let i2: usize = (at + CEPS_MEM - 2) % CEPS_MEM;
    assert(m[at as int].len() == NB_BANDS && m[i1 as int].len() == NB_BANDS && m[i2 as int].len()
        == NB_BANDS);
    let c0 = &mem[at];
    let c1 = &mem[i1];
    let c2 = &mem[i2];
    let mut v: Vec<S> = Vec::new();
    let ghost goal = features_of(f@, period as int, m, at as int);
    let first: usize = NB_BANDS + 2 * NB_DELTA_CEPS;
    let mut i: usize = 0;
    while i < first + NB_DELTA_CEPS
        invariant
            first == NB_BANDS + 2 * NB_DELTA_CEPS,
            i <= first + NB_DELTA_CEPS,
            c0@ == m[at as int],
            c1@ == m[i1 as int],
            c2@ == m[i2 as int],
            i1 == (at + CEPS_MEM - 1) % CEPS_MEM as int,
            i2 == (at + CEPS_MEM - 2) % CEPS_MEM as int,
            c0@.len() == NB_BANDS,
            c1@.len() == NB_BANDS,
            c2@.len() == NB_BANDS,
            t@.len() == NB_BANDS,
            v@.len() == i,
            goal == features_of(f@, period as int, m, at as int),
            S::functional() ==> {
                &&& t@ == common::cosines(
                    common::cosine_table::<S>(NB_BANDS as nat),
                    NB_BANDS as nat,
                    f@.exp,
                )
                &&& forall|k: int| 0 <= k < i ==> #[trigger] v@[k] == goal[k]
            },
        decreases first + NB_DELTA_CEPS - i,
    {
        reveal(features_of);
        let y = if i < NB_DELTA_CEPS {
            c0[i].plus(c1[i]).plus(c2[i])
        } else if i < NB_BANDS {
            c0[i]
        } else if i < NB_BANDS + NB_DELTA_CEPS {
            c0[i - NB_BANDS].minus(c2[i - NB_BANDS])
        } else if i < first {
            let j: usize = i - NB_BANDS - NB_DELTA_CEPS;
            c0[j].minus(S::ratio(2, 1).times(c1[j])).plus(c2[j])
        } else if i == first {
            t[0].minus(S::ratio(13, 10))
        } else if i == first + 1 {
            t[1].minus(S::ratio(9, 10))
        } else {
            t[i - first]
        };
        v.push(y);
        i += 1;
    }
    v.push(S::ratio(1, 100).times(S::ratio(period as i64, 1).minus(S::ratio(300, 1))));
    v.push(
        compute_variability(mem).over(S::ratio(CEPS_MEM as i64, 1)).minus(S::ratio(21, 10)),
    );
    assert(S::functional() ==> v@ == goal);
    v
}

/// The state of a stream: what earlier frames leave for later ones.
pub struct StreamView<S> {
    pub rnn: StateView<S>,
    pub lastg: Seq<S>,
    pub input_mem: Seq<S>,
    pub cepstral_mem: Seq<Seq<S>>,
    pub mem_id: int,
    pub mem_hp: (S, S),
    pub synthesis_mem: Seq<S>,
    pub last_period: int,
    pub last_gain: S,
}

impl<S> StreamView<S> {
    /// All parts have their lengths.
    pub open spec fn wf(self, m: ModelView) -> bool {
        &&& self.rnn.fits(m)
        &&& self.lastg.len() == NB_BANDS
        &&& self.input_mem.len() == PITCH_BUF_SIZE
        &&& cepstra_wf(self.cepstral_mem)
        &&& 0 <= self.mem_id < CEPS_MEM
        &&& self.synthesis_mem.len() == FRAME_SIZE
    }
}

/// A stream before its first frame: all zero.
pub open spec fn new_stream<S: Sample>(m: ModelView) -> StreamView<S> {
    StreamView {
        rnn: legacy_net::fresh::<S>(m),
        lastg: Seq::new(NB_BANDS as nat, |i: int| S::nil()),
        input_mem: Seq::new(PITCH_BUF_SIZE as nat, |i: int| S::nil()),
        cepstral_mem: Seq::new(
            CEPS_MEM as nat,
            |i: int| Seq::new(NB_BANDS as nat, |j: int| S::nil()),
        ),
        mem_id: 0,
        mem_hp: (S::nil(), S::nil()),
        synthesis_mem: Seq::new(FRAME_SIZE as nat, |i: int| S::nil()),
        last_period: 0,
        last_gain: S::nil(),
    }
}

/// The state after a new frame was filtered and its pitch found.
pub open spec fn prepared<S: Sample>(st: StreamView<S>, x: Seq<S>) -> StreamView<S> {
    let (hb, ha) = (common::high_pass_b::<S>(), common::high_pass_a::<S>());
    let mem = denoise::shifted(st.input_mem, common::biquad_out(x, st.mem_hp, hb, ha));
    let found = denoise::pitch_of(mem, st.last_period, st.last_gain);
    StreamView {
        input_mem: mem,
        mem_hp: common::biquad_mem(x, st.mem_hp, hb, ha, x.len()),
        last_period: found.period,
        last_gain: found.gain,
        ..st
    }
}

/// What the analysis of a frame leaves: the spectrum of the output, the
/// probability of speech and the state.
pub struct SpectrumStep<S> {
    pub y: Seq<Cpx<S>>,
    pub vad: S,
    pub state: StreamView<S>,
}

/// One frame in the frequency domain. A silent frame passes unchanged. Else
/// its cepstrum is remembered, the network predicts gains for the bands from
/// its features, and the spectrum is comb-filtered and weighted with them; a
/// gain falls by at most a factor 0.6 per frame.
#[verifier::opaque]
pub open spec fn spectrum_step<S: Sample>(
    m: ModelView,
    st: StreamView<S>,
    x: Seq<Cpx<S>>,
    p: Seq<Cpx<S>>,
) -> SpectrumStep<S> {
    let w = window_norm::<S>();
    let f = spectra_of(normalised(x, w), normalised(p, w));
    if is_silence(f) {
        SpectrumStep { y: f.x, vad: S::nil(), state: st }
    } else {
        let mem = st.cepstral_mem.update(st.mem_id, cepstrum(f));
        let net = legacy_net::net_step(
            m,
            st.rnn,
            features_of(f, st.last_period, mem, st.mem_id),
        );
        let g = Seq::new(NB_BANDS as nat, |i: int| denoise::smoothed(net.gains[i], st.lastg[i]));
        SpectrumStep {
            y: denoise::weighted(comb_filtered(f, net.gains), bin_gains(g)),
            vad: net.vad,
            state: StreamView {
                rnn: net.state,
                lastg: g,
                cepstral_mem: mem,
                mem_id: (st.mem_id + 1) % CEPS_MEM as int,
                ..st
            },
        }
    }
}

/// What is done to the spectrum does not touch what is left of the last frame's
/// signal.
proof fn lemma_synthesis_kept<S: Sample>(
    m: ModelView,
    st: StreamView<S>,
    x: Seq<Cpx<S>>,
    p: Seq<Cpx<S>>,
)
    ensures
        spectrum_step(m, st, x, p).state.synthesis_mem == st.synthesis_mem,
{
    reveal(spectrum_step);
}

/// A spectrum whose first and last bins are real, as those of a real signal
/// are.
pub open spec fn real_ends<S: Sample>(x: Seq<Cpx<S>>) -> Seq<Cpx<S>> {
    x.update(0, Cpx { r: x[0].r, i: S::nil() }).update(
        FREQ_SIZE - 1,
        Cpx { r: x[FREQ_SIZE - 1].r, i: S::nil() },
    )
}

/// The signal that is put out: half the inverse transform, under the window.
pub open spec fn output_signal<S: Sample>(y: Seq<S>) -> Seq<S> {
    common::windowed(
        Seq::new(WINDOW_SIZE as nat, |i: int| y[i] * S::frac(1, 2)),
        common::half_window_of::<S>(),
    )
}

/// What a transform does: `f` gives, for every vector, the vector that `t`
/// says.
pub open spec fn computes<A, B, F: Fn(Vec<A>) -> Vec<B>>(
    f: F,
    t: spec_fn(Seq<A>) -> Seq<B>,
) -> bool {
    forall|x: Vec<A>, y: Vec<B>| #[trigger] call_ensures(f, (x,), y) ==> y@ == t(x@)
}

/// `f` takes vectors of `n` elements and gives vectors of `m` elements.
pub open spec fn maps<A, B, F: Fn(Vec<A>) -> Vec<B>>(f: F, n: nat, m: nat) -> bool {
    &&& forall|x: Vec<A>| x@.len() == n ==> #[trigger] call_requires(f, (x,))
    &&& forall|x: Vec<A>, y: Vec<B>|
        x@.len() == n && #[trigger] call_ensures(f, (x,), y) ==> y@.len() == m
}

/// What one frame gives: the output, the probability of speech and the state
/// for the next frame.
pub struct FrameStep<S> {
    pub out: Seq<S>,
    pub vad: S,
    pub state: StreamView<S>,
}

/// One frame of a stream, with `fwd` for the transform of a signal and `inv`
/// for that of a spectrum.
pub open spec fn frame_step<S: Sample>(
    m: ModelView,
    st: StreamView<S>,
    x: Seq<S>,
    fwd: spec_fn(Seq<S>) -> Seq<Cpx<S>>,
    inv: spec_fn(Seq<Cpx<S>>) -> Seq<S>,
) -> FrameStep<S> {
    let mid = prepared(st, x);
    let step = spectrum_step(
        m,
        mid,
        fwd(lagged(mid.input_mem, 0)),
        fwd(lagged(mid.input_mem, mid.last_period)),
    );
    let sig = output_signal(inv(real_ends(step.y)));
    FrameStep {
        out: Seq::new(FRAME_SIZE as nat, |i: int| sig[i] + st.synthesis_mem[i]),
        vad: step.vad,
        state: StreamView { synthesis_mem: sig.skip(FRAME_SIZE as int), ..step.state },
    }
}

/// A streaming denoiser around the smaller network. What it puts out is the
/// previous frame.
pub struct DenoiseStateV1<S> {
    model: Arc<RnnModelV1>,
    common: Arc<LegacyCommon<S>>,
    rnn: RnnStateV1<S>,
    lastg: Vec<S>,
    input_mem: Vec<S>,
    cepstral_mem: Vec<Vec<S>>,
    mem_id: usize,
    mem_hp_x: (S, S),
    synthesis_mem: Vec<S>,
    last_period: i32,
    last_gain: S,
}

impl<S: Sample> View for DenoiseStateV1<S> {
    type V = StreamView<S>;

    closed spec fn view(&self) -> StreamView<S> {
        StreamView {
            rnn: self.rnn@,
            lastg: self.lastg@,
            input_mem: self.input_mem@,
            cepstral_mem: rows(self.cepstral_mem@),
            mem_id: self.mem_id as int,
            mem_hp: self.mem_hp_x,
            synthesis_mem: self.synthesis_mem@,
            last_period: self.last_period as int,
            last_gain: self.last_gain,
        }
    }
}

impl<S: Sample> DenoiseStateV1<S> {
    /// The model that the denoiser runs.
    pub closed spec fn model(&self) -> ModelView {
        self.model@
    }

    /// All parts of the state are well formed.
    pub closed spec fn wf(&self) -> bool {
        &&& self.model@.wf()
        &&& self.common.wf()
        &&& self@.wf(self.model@)
    }

    /// A denoiser for the given model, with tables of its own.
    pub fn with_model(model: Arc<RnnModelV1>) -> (st: Self)
        requires
            model@.wf(),
        ensures
            st.wf(),
            st.model() == model@,
            S::functional() ==> st@ == new_stream::<S>(model@),
    {
        let common = Arc::new(LegacyCommon::new());
        Self::with_tables(model, common)
    }

    /// A denoiser for the given model that shares its tables with others.
    pub fn with_tables(model: Arc<RnnModelV1>, common: Arc<LegacyCommon<S>>) -> (st: Self)
        requires
            model@.wf(),
            common.wf(),
        ensures
            st.wf(),
            st.model() == model@,
            S::functional() ==> st@ == new_stream::<S>(model@),
    {
        let zero = S::ratio(0, 1);
        let mut cepstral_mem: Vec<Vec<S>> = Vec::new();
        let mut i: usize = 0;
        while i < CEPS_MEM
            invariant
                i <= CEPS_MEM,
                cepstral_mem@.len() == i,
                forall|k: int|
                    0 <= k < i ==> #[trigger] cepstral_mem@[k]@ == Seq::new(
                        NB_BANDS as nat,
                        |j: int| zero,
                    ),
            decreases CEPS_MEM - i,
        {
            cepstral_mem.push(filled(zero, NB_BANDS));
            i += 1;
        }
        let rnn = RnnStateV1::new(&model);
        let st = DenoiseStateV1 {
            model,
            common,
            rnn,
            lastg: filled(zero, NB_BANDS),
            input_mem: filled(zero, PITCH_BUF_SIZE),
            cepstral_mem,
            mem_id: 0,
            mem_hp_x: (zero, zero),
            synthesis_mem: filled(zero, FRAME_SIZE),
            last_period: 0,
            last_gain: zero,
        };
        proof {
            assert forall|k: int| 0 <= k < CEPS_MEM implies (#[trigger] st@.cepstral_mem[k]).len()
                == NB_BANDS by {
                assert(cepstral_mem@[k]@.len() == NB_BANDS);
            }
            if S::functional() {
                let n = new_stream::<S>(model@);
                assert(st@.lastg == n.lastg);
                assert(st@.input_mem == n.input_mem);
                assert(st@.synthesis_mem == n.synthesis_mem);
                assert(st@.cepstral_mem =~= n.cepstral_mem) by {
                    assert forall|k: int| 0 <= k < CEPS_MEM implies st@.cepstral_mem[k]
                        == n.cepstral_mem[k] by {
                        assert(cepstral_mem@[k]@ =~= n.cepstral_mem[k]);
                    }
                }
            }
        }
        st
    }

    /// Denoise one frame: `input` and `output` hold at least 480 samples.
    /// `forward` gives the spectrum of two frames, `inverse` the two frames of
    /// a spectrum times their length. Returns the probability of speech.
    pub fn process_frame<F: Fn(Vec<S>) -> Vec<Cpx<S>>, G: Fn(Vec<Cpx<S>>) -> Vec<S>>(
        &mut self,
        output: &mut [S],
        input: &[S],
        forward: F,
        inverse: G,
    ) -> (vad: S)
        requires
            old(self).wf(),
            legacy_net::populated(old(self).model()),
            maps(forward, WINDOW_SIZE as nat, FREQ_SIZE as nat),
            maps(inverse, FREQ_SIZE as nat, WINDOW_SIZE as nat),
            FRAME_SIZE <= input@.len(),
            FRAME_SIZE <= old(output)@.len(),
        ensures
            final(self).wf(),
            final(self).model() == old(self).model(),
            final(output)@.len() == old(output)@.len(),
            forall|i: int|
                FRAME_SIZE <= i < old(output)@.len() ==> #[trigger] final(output)@[i]
                    == old(output)@[i],
            S::functional() ==> forall|
                fwd: spec_fn(Seq<S>) -> Seq<Cpx<S>>,
                inv: spec_fn(Seq<Cpx<S>>) -> Seq<S>,
            |
                #[trigger] computes(forward, fwd) && #[trigger] computes(inverse, inv) ==> {
                    let step = frame_step(
                        old(self).model(),
                        old(self)@,
                        input@.take(FRAME_SIZE as int),
                        fwd,
                        inv,
                    );
                    &&& final(output)@.take(FRAME_SIZE as int) == step.out
                    &&& vad == step.vad
                    &&& final(self)@ == step.state
                },
    {
        let ghost st = self@;
        let ghost m = self.model();
        let ghost x = input@.take(FRAME_SIZE as int);
        let (xbuf, pbuf) = self.prepare(input);
        let ghost mid = self@;
        let xs = forward(xbuf);
        let ps = forward(pbuf);
        let (y, vad) = self.suppress(&xs, &ps);
        let ghost spec = y@;
        let ghost late = self@;
        let signal = inverse(y);
        self.synthesize(&signal, output);
        proof {
            if S::functional() {
                assert forall|
                    fwd: spec_fn(Seq<S>) -> Seq<Cpx<S>>,
                    inv: spec_fn(Seq<Cpx<S>>) -> Seq<S>,
                |
                    #[trigger] computes(forward, fwd) && #[trigger] computes(
                        inverse,
                        inv,
                    ) implies {
                    let step = frame_step(m, st, x, fwd, inv);
                    &&& output@.take(FRAME_SIZE as int) == step.out
                    &&& vad == step.vad
                    &&& self@ == step.state
                } by {
                    assert(mid == prepared(st, x));
                    assert(xs@ == fwd(lagged(mid.input_mem, 0)));
                    assert(ps@ == fwd(lagged(mid.input_mem, mid.last_period)));
                    assert(signal@ == inv(spec));
                    lemma_synthesis_kept(m, mid, xs@, ps@);
                    assert(late.synthesis_mem == st.synthesis_mem);
                }
            }
        }
        vad
    }

    /// Take in a frame of at least 480 samples: filter it and find its pitch.
    /// Returns the last two frames and the two frames one pitch period
    /// earlier, both under the window.
    pub fn prepare(&mut self, input: &[S]) -> (r: (Vec<S>, Vec<S>))
        requires
            old(self).wf(),
            FRAME_SIZE <= input@.len(),
        ensures
            final(self).wf(),
            final(self).model() == old(self).model(),
            PITCH_MIN_PERIOD <= final(self)@.last_period < PITCH_MAX_PERIOD,
            r.0@.len() == WINDOW_SIZE,
            r.1@.len() == WINDOW_SIZE,
            S::functional() ==> {
                let st = prepared(old(self)@, input@.take(FRAME_SIZE as int));
                &&& final(self)@ == st
                &&& r.0@ == lagged(st.input_mem, 0)
                &&& r.1@ == lagged(st.input_mem, st.last_period)
            },
    {
        let ghost st = self@;
        let ghost x = input@.take(FRAME_SIZE as int);
        let head = slice_subrange(input, 0, FRAME_SIZE);
        assert(head@ == x);
        let f = high_pass(&mut self.mem_hp_x, head);
        let mut mem: Vec<S> = Vec::new();
        extend(&mut mem, tail(&self.input_mem, FRAME_SIZE));
        extend(&mut mem, &f);
        assert(mem@ == denoise::shifted(st.input_mem, f@));
        self.input_mem = mem;
        let (period, gain) = find_pitch(&self.input_mem, self.last_period, self.last_gain);
        self.last_period = period as i32;
        self.last_gain = gain;
        let xbuf = windowed(&self.common, &self.input_mem, 0);
        let pbuf = windowed(&self.common, &self.input_mem, period);
        (xbuf, pbuf)
    }

    /// Suppress the noise in a prepared frame, given the spectra of the two
    /// signals that [`DenoiseStateV1::prepare`] returned. Returns the spectrum
    /// of the output and the probability of speech.
    pub fn suppress(&mut self, x: &[Cpx<S>], p: &[Cpx<S>]) -> (r: (Vec<Cpx<S>>, S))
        requires
            old(self).wf(),
            legacy_net::populated(old(self).model()),
            0 <= old(self)@.last_period <= PITCH_MAX_PERIOD,
            FREQ_SIZE <= x@.len(),
            FREQ_SIZE <= p@.len(),
        ensures
            final(self).wf(),
            final(self).model() == old(self).model(),
            final(self)@.last_period == old(self)@.last_period,
            r.0@.len() == FREQ_SIZE,
            S::functional() ==> {
                let step = spectrum_step(old(self).model(), old(self)@, x@, p@);
                &&& final(self)@ == step.state
                &&& r.0@ == real_ends(step.y)
                &&& r.1 == step.vad
            },
    {
        reveal(spectrum_step);
        let ghost st = self@;
        let w = self.common.wnorm();
        let f = analyse(normalise(x, w), normalise(p, w));
        let (ly, e) = compute_log_bands(&f.ex);
        let silent = e.below(S::ratio(4, 100));
        assert(S::functional() ==> silent == is_silence(f@)) by {
            reveal(is_silence);
        }
        let (mut y, vad) = if silent {
            let mut y: Vec<Cpx<S>> = Vec::new();
            extend(&mut y, &f.x);
            assert(y@ == f@.x);
            (y, S::ratio(0, 1))
        } else {
            let at: usize = self.mem_id;
            let mut c = self.common.dct(&ly);
            let f0 = c[0].minus(S::ratio(12, 1));
            let f1 = c[1].minus(S::ratio(4, 1));
            c.set(0, f0);
            c.set(1, f1);
            let ghost ceps = c@;
            assert(S::functional() ==> ceps == cepstrum(f@));
            let ghost before = self.cepstral_mem@;
            self.cepstral_mem.set(at, c);
            proof {
                assert(rows(self.cepstral_mem@) =~= rows(before).update(at as int, ceps));
            }
            self.mem_id = if at + 1 == CEPS_MEM {
                0
            } else {
                at + 1
            };
            let features = compute_features(
                &self.common,
                &f,
                self.last_period as usize,
                &self.cepstral_mem,
                at,
            );
            let (gains, vad) = self.rnn.compute(&self.model, &features);
            let mut y = pitch_filter(&f, &gains);
            let mut g: Vec<S> = Vec::new();
            let mut i: usize = 0;
            while i < NB_BANDS
                invariant
                    i <= NB_BANDS,
                    gains@.len() == NB_BANDS,
                    self.lastg@ == st.lastg,
                    st.lastg.len() == NB_BANDS,
                    g@.len() == i,
                    S::functional() ==> forall|k: int|
                        0 <= k < i ==> #[trigger] g@[k] == denoise::smoothed(
                            gains@[k],
                            st.lastg[k],
                        ),
                decreases NB_BANDS - i,
            {
                g.push(gains[i].larger(S::ratio(6, 10).times(self.lastg[i])));
                i += 1;
            }
            assert(S::functional() ==> g@ == Seq::new(
                NB_BANDS as nat,
                |i: int| denoise::smoothed(gains@[i], st.lastg[i]),
            ));
            let gf = interp_band_gain(&g);
            apply_gains(&mut y, &gf);
            self.lastg = g;
            (y, vad)
        };
        let ghost y0 = y@;
        let zero = S::ratio(0, 1);
        let first = Cpx { r: y[0].r, i: zero };
        let last = Cpx { r: y[FREQ_SIZE - 1].r, i: zero };
        y.set(0, first);
        y.set(FREQ_SIZE - 1, last);
        assert(S::functional() ==> y@ == real_ends(y0));
        (y, vad)
    }

    /// Put out a frame, given the signal of the spectrum that
    /// [`DenoiseStateV1::suppress`] returned.
    pub fn synthesize(&mut self, signal: &[S], out: &mut [S])
        requires
            old(self).wf(),
            WINDOW_SIZE <= signal@.len(),
            FRAME_SIZE <= old(out)@.len(),
        ensures
            final(self).wf(),
            final(self).model() == old(self).model(),
            final(self)@ == (StreamView {
                synthesis_mem: final(self)@.synthesis_mem,
                ..old(self)@
            }),
            final(out)@.len() == old(out)@.len(),
            forall|i: int|
                FRAME_SIZE <= i < old(out)@.len() ==> #[trigger] final(out)@[i] == old(out)@[i],
            S::functional() ==> {
                let sig = output_signal(signal@);
                &&& final(out)@.take(FRAME_SIZE as int) == Seq::new(
                    FRAME_SIZE as nat,
                    |i: int| sig[i] + old(self)@.synthesis_mem[i],
                )
                &&& final(self)@.synthesis_mem == sig.skip(FRAME_SIZE as int)
            },
    {
        let ghost st = self@;
        let ghost out0 = out@;
        let half = S::ratio(1, 2);
        let mut halved: Vec<S> = Vec::new();
        let mut i: usize = 0;
        while i < WINDOW_SIZE
            invariant
                i <= WINDOW_SIZE,
                WINDOW_SIZE <= signal@.len(),
                halved@.len() == i,
                S::functional() ==> half == S::frac(1, 2),
                S::functional() ==> forall|k: int|
                    0 <= k < i ==> #[trigger] halved@[k] == signal@[k] * half,
            decreases WINDOW_SIZE - i,
        {
            halved.push(signal[i].times(half));
            i += 1;
        }
        assert(S::functional() ==> halved@ == Seq::new(
            WINDOW_SIZE as nat,
            |i: int| signal@[i] * S::frac(1, 2),
        ));
        let sig = self.common.apply_window(&halved);
        let mut i: usize = 0;
        while i < FRAME_SIZE
            invariant
                i <= FRAME_SIZE,
                self@ == st,
                st.synthesis_mem.len() == FRAME_SIZE,
                sig@.len() == WINDOW_SIZE,
                out@.len() == out0.len(),
                FRAME_SIZE <= out0.len(),
                forall|k: int| FRAME_SIZE <= k < out0.len() ==> #[trigger] out@[k] == out0[k],
                S::functional() ==> forall|k: int|
                    0 <= k < i ==> #[trigger] out@[k] == sig@[k] + st.synthesis_mem[k],
            decreases FRAME_SIZE - i,
        {
            out[i] = sig[i].plus(self.synthesis_mem[i]);
            i += 1;
        }
        let mut mem: Vec<S> = Vec::new();
        extend(&mut mem, tail(&sig, FRAME_SIZE));
        assert(mem@ == sig@.skip(FRAME_SIZE as int));
        self.synthesis_mem = mem;
        proof {
            if S::functional() {
                assert(out@.take(FRAME_SIZE as int) == Seq::new(
                    FRAME_SIZE as nat,
                    |i: int| sig@[i] + st.synthesis_mem[i],
                ));
            }
        }
    }
}

} // verus!
