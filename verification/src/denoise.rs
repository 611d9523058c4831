//! The denoiser: each frame is analysed, the network predicts a gain for every
//! band, and the gains are applied to the previous frame.

use std::sync::Arc;
use vstd::prelude::*;
use vstd::slice::slice_subrange;
use crate::arith::{filled, Arith, Real, Sample, SampleArith};
use crate::celt_lpc::tail;
use crate::common::{compute_band_corr, compute_band_energy, high_pass, interp_band_gain, Common};
use crate::common;
use crate::fft::Cpx;
use crate::model::RnnModel;
use crate::pitch::{pitch_downsample, pitch_search, remove_doubling};
use crate::pitch;
use crate::rnn::{compute_rnn, extend, RnnState, RnnView};
use crate::rnn;
use crate::stream;
use crate::{
    FRAME_SIZE, FREQ_SIZE, NB_BANDS, NB_FEATURES, PITCH_BUF_SIZE, PITCH_FRAME_SIZE,
    PITCH_MAX_PERIOD, PITCH_MIN_PERIOD, WINDOW_SIZE,
};

verus! {

/// An analysed frame: its spectrum, the spectrum one pitch period earlier, the
/// band energies of both, and their correlation in the bands.
pub struct Frame<S> {
    pub x: Vec<Cpx<S>>,
    pub p: Vec<Cpx<S>>,
    pub ex: Vec<S>,
    pub ep: Vec<S>,
    pub exp: Vec<S>,
}

/// A [`Frame`] with the vectors as sequences.
pub struct FrameView<S> {
    pub x: Seq<Cpx<S>>,
    pub p: Seq<Cpx<S>>,
    pub ex: Seq<S>,
    pub ep: Seq<S>,
    pub exp: Seq<S>,
}

impl<S> View for Frame<S> {
    type V = FrameView<S>;

    open spec fn view(&self) -> FrameView<S> {
        FrameView { x: self.x@, p: self.p@, ex: self.ex@, ep: self.ep@, exp: self.exp@ }
    }
}

impl<S> FrameView<S> {
    /// All parts have their lengths.
    pub open spec fn wf(self) -> bool {
        &&& self.x.len() == FREQ_SIZE
        &&& self.p.len() == FREQ_SIZE
        &&& self.ex.len() == NB_BANDS
        &&& self.ep.len() == NB_BANDS
        &&& self.exp.len() == NB_BANDS
    }
}

/// A frame of zeros.
pub open spec fn blank<S: Sample>() -> FrameView<S> {
    FrameView {
        x: Seq::new(FREQ_SIZE as nat, |i: int| Cpx::<S>::origin()),
        p: Seq::new(FREQ_SIZE as nat, |i: int| Cpx::<S>::origin()),
        ex: Seq::new(NB_BANDS as nat, |i: int| S::nil()),
        ep: Seq::new(NB_BANDS as nat, |i: int| S::nil()),
        exp: Seq::new(NB_BANDS as nat, |i: int| S::nil()),
    }
}

/// The strength of the comb filter in a band, from the band's correlation
/// `exp`, gain `g` and energies.
pub open spec fn comb<S: Sample>(exp: S, g: S, ex: S, ep: S) -> S {
    let raw = if g.lt_of(exp) {
        S::unit()
    } else {
        let sq_exp = exp * exp;
        let sq_g = g * g;
        let num = sq_exp * (S::unit() - sq_g);
        let den = <S::Wide as Arith>::frac(1, 1000) + (sq_g * (S::unit() - sq_exp)).wide();
        S::narrowed(num.wide() / den)
    };
    let root = S::narrowed(raw.min_of(S::unit()).max_of(S::nil()).wide().sqrt_of());
    S::narrowed(root.wide() * energy_ratio(ex, ep))
}

/// The square root of the ratio of two energies.
pub open spec fn energy_ratio<S: Sample>(a: S, b: S) -> S::Wide {
    (a.wide() / (<S::Wide as Arith>::frac(1, 100000000) + b.wide())).sqrt_of()
}

/// A spectrum with another one added, bin by bin with the given gains.
pub open spec fn mixed<S: Sample>(x: Seq<Cpx<S>>, p: Seq<Cpx<S>>, g: Seq<S>) -> Seq<Cpx<S>> {
    Seq::new(
        x.len(),
        |i: int| Cpx { r: x[i].r + g[i] * p[i].r, i: x[i].i + g[i] * p[i].i },
    )
}

/// A spectrum with a gain for every bin.
pub open spec fn weighted<S: Sample>(x: Seq<Cpx<S>>, g: Seq<S>) -> Seq<Cpx<S>> {
    Seq::new(x.len(), |i: int| Cpx { r: x[i].r * g[i], i: x[i].i * g[i] })
}

/// A spectrum after the comb filter: the spectrum one pitch period earlier is
/// mixed in, and the energies of the bands are restored.
pub open spec fn comb_filtered<S: Sample>(f: FrameView<S>, g: Seq<S>) -> Seq<Cpx<S>> {
    let r = Seq::new(NB_BANDS as nat, |i: int| comb(f.exp[i], g[i], f.ex[i], f.ep[i]));
    let y = mixed(f.x, f.p, common::bin_gains(r));
    let e = common::band_energy(y);
    let norm = Seq::new(NB_BANDS as nat, |i: int| S::narrowed(energy_ratio(f.ex[i], e[i])));
    weighted(y, common::bin_gains(norm))
}

fn comb_strength<S: Sample>(exp: S, g: S, ex: S, ep: S) -> (r: S)
    ensures
        S::functional() ==> r == comb(exp, g, ex, ep),
{
    let one = S::ratio(1, 1);
    let raw = if g.below(exp) {
        one
    } else {
        let sq_exp = exp.times(exp);
        let sq_g = g.times(g);
        let num = sq_exp.times(one.minus(sq_g));
        let den = <S::Wide as Real>::ratio(1, 1000).plus(sq_g.times(one.minus(sq_exp)).widen());
        S::narrow(num.widen().over(den))
    };
    let root = S::narrow(raw.smaller(one).larger(S::ratio(0, 1)).widen().root());
    S::narrow(root.widen().times(root_ratio(ex, ep)))
}

fn root_ratio<S: Sample>(a: S, b: S) -> (r: S::Wide)
    ensures
        S::functional() ==> r == energy_ratio(a, b),
{
    a.widen().over(<S::Wide as Real>::ratio(1, 100000000).plus(b.widen())).root()
}

/// Multiply every bin of a spectrum by its gain.
pub fn apply_gains<S: Sample>(x: &mut Vec<Cpx<S>>, g: &[S])
    requires
        old(x)@.len() <= g@.len(),
    ensures
        final(x)@.len() == old(x)@.len(),
        S::functional() ==> final(x)@ == weighted(old(x)@, g@),
{
    let ghost x0 = x@;
    let mut i: usize = 0;
    while i < x.len()
        invariant
            i <= x@.len(),
            x@.len() == x0.len(),
            x0.len() <= g@.len(),
            forall|k: int| i <= k < x0.len() ==> #[trigger] x@[k] == x0[k],
            S::functional() ==> forall|k: int|
                0 <= k < i ==> #[trigger] x@[k] == weighted(x0, g@)[k],
        decreases x@.len() - i,
    {
        let c = x[i];
        x.set(i, Cpx { r: c.r.times(g[i]), i: c.i.times(g[i]) });
        i += 1;
    }
}

/// Add another spectrum, bin by bin with the given gains.
pub fn mix<S: Sample>(x: &mut Vec<Cpx<S>>, p: &[Cpx<S>], g: &[S])
    requires
        old(x)@.len() <= g@.len(),
        old(x)@.len() <= p@.len(),
    ensures
        final(x)@.len() == old(x)@.len(),
        S::functional() ==> final(x)@ == mixed(old(x)@, p@, g@),
{
    let ghost x0 = x@;
    let mut i: usize = 0;
    while i < x.len()
        invariant
            i <= x@.len(),
            x@.len() == x0.len(),
            x0.len() <= g@.len(),
            x0.len() <= p@.len(),
            forall|k: int| i <= k < x0.len() ==> #[trigger] x@[k] == x0[k],
            S::functional() ==> forall|k: int|
                0 <= k < i ==> #[trigger] x@[k] == mixed(x0, p@, g@)[k],
        decreases x@.len() - i,
    {
        let c = x[i];
        x.set(
            i,
            Cpx { r: c.r.plus(g[i].times(p[i].r)), i: c.i.plus(g[i].times(p[i].i)) },
        );
        i += 1;
    }
}

/// Comb-filter a frame's spectrum toward the one a pitch period earlier, with
/// the strength that the gains `g` of the bands ask for.
fn pitch_filter<S: Sample>(f: &mut Frame<S>, g: &[S])
    requires
        old(f)@.wf(),
        NB_BANDS <= g@.len(),
    ensures
        final(f)@.wf(),
        final(f)@ == (FrameView { x: final(f)@.x, ..old(f)@ }),
        S::functional() ==> final(f)@.x == comb_filtered(old(f)@, g@),
{
    let ghost f0 = f@;
    let mut r: Vec<S> = Vec::new();
    let mut i: usize = 0;
    while i < NB_BANDS
        invariant
            f@ == f0,
            f@.wf(),
            NB_BANDS <= g@.len(),
            i <= NB_BANDS,
            r@.len() == i,
            S::functional() ==> forall|k: int|
                0 <= k < i ==> #[trigger] r@[k] == comb(f0.exp[k], g@[k], f0.ex[k], f0.ep[k]),
        decreases NB_BANDS - i,
    {
        r.push(comb_strength(f.exp[i], g[i], f.ex[i], f.ep[i]));
        i += 1;
    }
    assert(S::functional() ==> r@ == Seq::new(
        NB_BANDS as nat,
        |i: int| comb(f0.exp[i], g@[i], f0.ex[i], f0.ep[i]),
    ));
    let rf = interp_band_gain(&r);
    mix(&mut f.x, &f.p, &rf);
    let new_e = compute_band_energy(&f.x);
    let ghost e = new_e@;
    let mut norm: Vec<S> = Vec::new();
    let mut i: usize = 0;
    while i < NB_BANDS
        invariant
            f@.ex == f0.ex,
            f0.ex.len() == NB_BANDS,
            e == new_e@,
            e.len() == NB_BANDS,
            i <= NB_BANDS,
            norm@.len() == i,
            S::functional() ==> forall|k: int|
                0 <= k < i ==> #[trigger] norm@[k] == S::narrowed(energy_ratio(f0.ex[k], e[k])),
        decreases NB_BANDS - i,
    {
        norm.push(S::narrow(root_ratio(f.ex[i], new_e[i])));
        i += 1;
    }
    assert(S::functional() ==> norm@ == Seq::new(
        NB_BANDS as nat,
        |i: int| S::narrowed(energy_ratio(f0.ex[i], e[i])),
    ));
    let normf = interp_band_gain(&norm);
    apply_gains(&mut f.x, &normf);
}

/// The logarithmic band energies, limited from below by the loudest band and by
/// a decay from band to band, and the total energy.
pub struct LogBands<S> {
    pub ly: Seq<S>,
    pub log_max: S,
    pub follow: S,
    pub e: S,
}

/// The logarithm of a band energy.
pub open spec fn log_energy<S: Sample>(ex: S) -> S {
    S::narrowed((<S::Wide as Arith>::frac(1, 100) + ex.wide()).log10_of())
}

/// What the decay allows the next band to fall to.
pub open spec fn decayed<S: Sample>(follow: S) -> S::Wide {
    follow.wide() - <S::Wide as Arith>::frac(3, 2)
}

/// The logarithmic energies of the first `n` bands.
pub open spec fn log_bands<S: Sample>(ex: Seq<S>, n: nat) -> LogBands<S>
    decreases n,
{
    if n == 0 {
        LogBands {
            ly: Seq::empty(),
            log_max: S::num(-2),
            follow: S::num(-2),
            e: S::nil(),
        }
    } else {
        let b = log_bands(ex, (n - 1) as nat);
        let x = ex[n - 1];
        let floor = (b.log_max - S::num(7)).wide();
        let ly = S::narrowed(
            floor.max_of(decayed(b.follow).max_of(log_energy(x).wide())),
        );
        LogBands {
            ly: b.ly.push(ly),
            log_max: b.log_max.max_of(ly),
            follow: S::narrowed(decayed(b.follow).max_of(ly.wide())),
            e: b.e + x,
        }
    }
}

/// Compute the logarithmic band energies and the total energy.
fn compute_log_bands<S: Sample>(ex: &[S]) -> (r: (Vec<S>, S))
    requires
        NB_BANDS <= ex@.len(),
    ensures
        r.0@.len() == NB_BANDS,
        S::functional() ==> {
            let b = log_bands(ex@, NB_BANDS as nat);
            r.0@ == b.ly && r.1 == b.e
        },
{
    let mut ly: Vec<S> = Vec::new();
    let mut log_max = S::ratio(-2, 1);
    let mut follow = S::ratio(-2, 1);
    let mut e = S::ratio(0, 1);
    let mut i: usize = 0;
    while i < NB_BANDS
        invariant
            NB_BANDS <= ex@.len(),
            i <= NB_BANDS,
            ly@.len() == i,
            S::functional() ==> {
                let b = log_bands(ex@, i as nat);
                &&& ly@ == b.ly
                &&& log_max == b.log_max
                &&& follow == b.follow
                &&& e == b.e
            },
        decreases NB_BANDS - i,
    {
        let step = <S::Wide as Real>::ratio(3, 2);
        let raw = S::narrow(<S::Wide as Real>::ratio(1, 100).plus(ex[i].widen()).log10());
        let low = follow.widen().minus(step);
        let inner = low.larger(raw.widen());
        let lyi = S::narrow(log_max.minus(S::ratio(7, 1)).widen().larger(inner));
        log_max = log_max.larger(lyi);
        follow = S::narrow(follow.widen().minus(step).larger(lyi.widen()));
        ly.push(lyi);
        e = e.plus(ex[i]);
        i += 1;
    }
    (ly, e)
}

/// The correlation of two band energies, between -1 and 1.
pub open spec fn normalised<S: Sample>(exp: S, ex: S, ep: S) -> S {
    S::narrowed(exp.wide() / (<S::Wide as Arith>::frac(1, 1000) + (ex * ep).wide()).sqrt_of())
}

/// What the pitch analysis of one frame finds: the period, in samples, and its
/// gain.
pub struct PitchFound<S> {
    pub period: int,
    pub gain: S,
}

/// The pitch analysis of a signal, given the period and gain of the previous
/// frame.
#[verifier::opaque]
pub open spec fn pitch_of<S: Sample>(buf: Seq<S>, last_period: int, last_gain: S) -> PitchFound<S> {
    let ds = pitch::downsampled(buf, PITCH_BUF_SIZE as nat);
    let coarse = pitch::best_lag(
        ds.skip((PITCH_MAX_PERIOD / 2) as int),
        ds,
        PITCH_FRAME_SIZE as nat,
        (PITCH_MAX_PERIOD - 3 * PITCH_MIN_PERIOD) as nat,
    );
    let s = pitch::setting(
        ds,
        PITCH_MAX_PERIOD as int,
        PITCH_MIN_PERIOD as int,
        PITCH_FRAME_SIZE as int,
        PITCH_MAX_PERIOD - coarse,
        last_period,
        last_gain,
    );
    PitchFound {
        period: if s.period() < PITCH_MIN_PERIOD {
            PITCH_MIN_PERIOD as int
        } else {
            s.period()
        },
        gain: s.gain(),
    }
}

/// Find the pitch period of a signal and its gain.
pub fn find_pitch<S: Sample>(buf: &[S], last_period: i32, last_gain: S) -> (r: (usize, S))
    requires
        PITCH_BUF_SIZE <= buf@.len(),
    ensures
        PITCH_MIN_PERIOD <= r.0 < PITCH_MAX_PERIOD,
        S::functional() ==> {
            let found = pitch_of(buf@, last_period as int, last_gain);
            r.0 == found.period && r.1 == found.gain
        },
{
    reveal(pitch_of);
    let ds = pitch_downsample(buf, PITCH_BUF_SIZE);
    let coarse = pitch_search(
        tail(&ds, PITCH_MAX_PERIOD / 2),
        &ds,
        PITCH_FRAME_SIZE,
        PITCH_MAX_PERIOD - 3 * PITCH_MIN_PERIOD,
    );
    let mut period: i32 = PITCH_MAX_PERIOD as i32 - coarse;
    let gain = remove_doubling(
        &ds,
        PITCH_MAX_PERIOD as i32,
        PITCH_MIN_PERIOD as i32,
        PITCH_FRAME_SIZE as i32,
        &mut period,
        last_period,
        last_gain,
    );
    (period as usize, gain)
}

/// The features of a frame: the cosine transforms of the logarithmic energies
/// and of the correlations, and the pitch period.
#[verifier::opaque]
pub open spec fn features_of<S: Sample>(f: FrameView<S>, period: int) -> Seq<S> {
    let table = common::cosine_table::<S>(NB_BANDS as nat);
    let lows = common::cosines(table, NB_BANDS as nat, log_bands(f.ex, NB_BANDS as nat).ly);
    let highs = common::cosines(table, NB_BANDS as nat, f.exp);
    lows.update(0, lows[0] - S::num(12)).update(1, lows[1] - S::num(4)) + highs + seq![
        S::frac(1, 100) * (S::num(period) - S::num(300)),
    ]
}

/// Whether a frame is silence: its energy is below a threshold.
#[verifier::opaque]
pub open spec fn is_silence<S: Sample>(f: FrameView<S>) -> bool {
    log_bands(f.ex, NB_BANDS as nat).e.lt_of(S::frac(4, 100))
}

/// The lower half of the spectrum of two frames under the window.
pub open spec fn windowed_spectrum<S: Sample>(x: Seq<S>) -> Seq<Cpx<S>> {
    common::spectrum(common::windowed(x, common::half_window_of::<S>()))
}

/// An analysed frame, from the two frames under the window and the two frames
/// one pitch period earlier.
#[verifier::opaque]
pub open spec fn analysed<S: Sample>(two: Seq<S>, earlier: Seq<S>) -> FrameView<S> {
    let x = windowed_spectrum(two);
    let p = windowed_spectrum(earlier);
    let ex = common::band_energy(x);
    let ep = common::band_energy(p);
    let raw = common::band_corr(x, p);
    FrameView {
        x,
        p,
        ex,
        ep,
        exp: Seq::new(NB_BANDS as nat, |i: int| normalised(raw[i], ex[i], ep[i])),
    }
}

/// The state of a stream: what earlier frames leave for later ones.
pub struct StreamView<S> {
    pub rnn: RnnView<S>,
    pub analysis_mem: Seq<S>,
    pub synthesis_mem: Seq<S>,
    pub pitch_buf: Seq<S>,
    pub last_gain: S,
    pub last_period: int,
    pub mem_hp: (S, S),
    pub lastg: Seq<S>,
    pub delayed: FrameView<S>,
}

impl<S> StreamView<S> {
    /// All parts have their lengths.
    pub open spec fn wf(self) -> bool {
        &&& self.rnn.wf()
        &&& self.analysis_mem.len() == FRAME_SIZE
        &&& self.synthesis_mem.len() == FRAME_SIZE
        &&& self.pitch_buf.len() == PITCH_BUF_SIZE
        &&& self.lastg.len() == NB_BANDS
        &&& self.delayed.wf()
    }
}

/// A stream before its first frame: all zero.
pub open spec fn new_stream<S: Sample>() -> StreamView<S> {
    StreamView {
        rnn: rnn::fresh::<S>(),
        analysis_mem: Seq::new(FRAME_SIZE as nat, |i: int| S::nil()),
        synthesis_mem: Seq::new(FRAME_SIZE as nat, |i: int| S::nil()),
        pitch_buf: Seq::new(PITCH_BUF_SIZE as nat, |i: int| S::nil()),
        last_gain: S::nil(),
        last_period: 0,
        mem_hp: (S::nil(), S::nil()),
        lastg: Seq::new(NB_BANDS as nat, |i: int| S::nil()),
        delayed: blank::<S>(),
    }
}

/// The signal of the pitch analysis after a new frame.
pub open spec fn shifted<S>(buf: Seq<S>, x: Seq<S>) -> Seq<S> {
    buf.skip(FRAME_SIZE as int) + x
}

/// The analysis of a new, filtered frame: the frame, its pitch period, and the
/// gain of the period.
pub open spec fn analysis_step<S: Sample>(st: StreamView<S>, x: Seq<S>) -> (
    FrameView<S>,
    PitchFound<S>,
) {
    let buf = shifted(st.pitch_buf, x);
    let found = pitch_of(buf, st.last_period, st.last_gain);
    let start = PITCH_BUF_SIZE - WINDOW_SIZE - found.period;
    (
        analysed(st.analysis_mem + x, buf.subrange(start, start + WINDOW_SIZE)),
        found,
    )
}

/// The gain of band `i` after smoothing: it falls by at most a factor 0.6 per
/// frame.
pub open spec fn smoothed<S: Sample>(g: S, last: S) -> S {
    g.max_of(S::frac(6, 10) * last)
}

/// What a gain is worth in the next frame, whose energy differs; at most one.
pub open spec fn carried<S: Sample>(g: S, delayed_ex: S, ex: S) -> S {
    let small = <S::Wide as Arith>::frac(1, 1000);
    S::narrowed(
        (g.wide() * (delayed_ex.wide() + small) / (ex.wide() + small)).min_of(
            <S::Wide as Arith>::unit(),
        ),
    )
}

/// The two frames of a spectrum under the window.
#[verifier::opaque]
pub open spec fn windowed_signal<S: Sample>(x: Seq<Cpx<S>>) -> Seq<S> {
    common::windowed(common::signal(x), common::half_window_of::<S>())
}

/// What the network makes of a frame that is not silent: the spectrum of the
/// previous frame with the noise suppressed, the probability of speech, and the
/// network's state and the gains for the next frame.
pub struct Suppressed<S> {
    pub x: Seq<Cpx<S>>,
    pub vad: S,
    pub rnn: RnnView<S>,
    pub lastg: Seq<S>,
}

/// The network predicts gains for the bands. The spectrum of the previous frame
/// is comb-filtered with them, and weighted with them after they were smoothed.
/// `ex` holds the band energies of the new frame.
#[verifier::opaque]
pub open spec fn suppressed<S: Sample>(
    m: &RnnModel,
    state: RnnView<S>,
    lastg: Seq<S>,
    delayed: FrameView<S>,
    ex: Seq<S>,
    features: Seq<S>,
) -> Suppressed<S> {
    let net = rnn::rnn_step(m, state, features);
    let g = Seq::new(NB_BANDS as nat, |i: int| smoothed(net.gains[i], lastg[i]));
    Suppressed {
        x: weighted(comb_filtered(delayed, net.gains), common::bin_gains(g)),
        vad: net.vad,
        rnn: net.state,
        lastg: Seq::new(NB_BANDS as nat, |i: int| carried(g[i], delayed.ex[i], ex[i])),
    }
}

/// What one frame gives: the output, the probability of speech and the state
/// for the next frame.
pub struct FrameStep<S> {
    pub out: Seq<S>,
    pub vad: S,
    pub state: StreamView<S>,
}

/// One frame of a stream. The frame is filtered and analysed. Where it is not
/// silent, noise is suppressed in the previous frame. The output is the
/// previous frame's spectrum as a signal, added to the end of the one before.
pub open spec fn frame_step<S: Sample>(m: &RnnModel, st: StreamView<S>, x: Seq<S>) -> FrameStep<S> {
    let (hb, ha) = (common::high_pass_b::<S>(), common::high_pass_a::<S>());
    let f = common::biquad_out(x, st.mem_hp, hb, ha);
    let (frame, found) = analysis_step(st, f);
    let net = suppressed(
        m,
        st.rnn,
        st.lastg,
        st.delayed,
        frame.ex,
        features_of(frame, found.period),
    );
    let silent = is_silence(frame);
    let sig = windowed_signal(
        if silent {
            st.delayed.x
        } else {
            net.x
        },
    );
    FrameStep {
        out: Seq::new(FRAME_SIZE as nat, |i: int| sig[i] + st.synthesis_mem[i]),
        vad: if silent {
            S::nil()
        } else {
            net.vad
        },
        state: StreamView {
            rnn: if silent {
                st.rnn
            } else {
                net.rnn
            },
            analysis_mem: f,
            synthesis_mem: sig.skip(FRAME_SIZE as int),
            pitch_buf: shifted(st.pitch_buf, f),
            last_gain: found.gain,
            last_period: found.period,
            mem_hp: common::biquad_mem(x, st.mem_hp, hb, ha, x.len()),
            lastg: if silent {
                st.lastg
            } else {
                net.lastg
            },
            delayed: frame,
        },
    }
}

/// What one call for a frame leaves: the state, the output buffer and the
/// probability of speech, from the state, the input and the output buffer
/// before. Only the first 480 samples of either buffer are used.
pub open spec fn processed<S: Sample>(
    m: &RnnModel,
    before: StreamView<S>,
    input: Seq<S>,
    output: Seq<S>,
    after: StreamView<S>,
    written: Seq<S>,
    vad: S,
) -> bool {
    let step = frame_step(m, before, input.take(FRAME_SIZE as int));
    &&& after == step.state
    &&& written == step.out + output.skip(FRAME_SIZE as int)
    &&& vad == step.vad
}

/// A streaming denoiser. Frames of 480 samples at 48 kHz go in one at a time.
/// A frame comes out two calls later: the gains that are applied to it are
/// those of the next frame, and its windows overlap with those of the frame
/// after it.
pub struct DenoiseState<S> {
    model: Arc<RnnModel>,
    common: Arc<Common<S>>,
    rnn: RnnState<S>,
    analysis_mem: Vec<S>,
    synthesis_mem: Vec<S>,
    pitch_buf: Vec<S>,
    last_gain: S,
    last_period: i32,
    mem_hp_x: (S, S),
    lastg: Vec<S>,
    delayed: Frame<S>,
}

impl<S: Sample> View for DenoiseState<S> {
    type V = StreamView<S>;

    closed spec fn view(&self) -> StreamView<S> {
        StreamView {
            rnn: self.rnn@,
            analysis_mem: self.analysis_mem@,
            synthesis_mem: self.synthesis_mem@,
            pitch_buf: self.pitch_buf@,
            last_gain: self.last_gain,
            last_period: self.last_period as int,
            mem_hp: self.mem_hp_x,
            lastg: self.lastg@,
            delayed: self.delayed@,
        }
    }
}

/// The spectrum and band energies of two frames.
fn frame_analysis<S: Sample>(common: &Common<S>, two: &[S]) -> (r: (Vec<Cpx<S>>, Vec<S>))
    requires
        common.wf(),
        two@.len() == WINDOW_SIZE,
    ensures
        r.0@.len() == FREQ_SIZE,
        r.1@.len() == NB_BANDS,
        S::functional() ==> {
            &&& r.0@ == windowed_spectrum(two@)
            &&& r.1@ == common::band_energy(windowed_spectrum(two@))
        },
{
    let w = common.apply_window(two);
    let x = common.forward_transform(&w);
    let e = compute_band_energy(&x);
    (x, e)
}

/// Analyse two frames, given the two frames one pitch period earlier.
fn analyse<S: Sample>(common: &Common<S>, two: &[S], earlier: &[S]) -> (frame: Frame<S>)
    requires
        common.wf(),
        two@.len() == WINDOW_SIZE,
        earlier@.len() == WINDOW_SIZE,
    ensures
        frame@.wf(),
        S::functional() ==> frame@ == analysed(two@, earlier@),
{
    reveal(analysed);
    let (xf, ex) = frame_analysis(common, two);
    let (pf, ep) = frame_analysis(common, earlier);
    let raw = compute_band_corr(&xf, &pf);
    let mut exp: Vec<S> = Vec::new();
    let mut i: usize = 0;
    while i < NB_BANDS
        invariant
            i <= NB_BANDS,
            raw@.len() == NB_BANDS,
            ex@.len() == NB_BANDS,
            ep@.len() == NB_BANDS,
            exp@.len() == i,
            S::functional() ==> forall|k: int|
                0 <= k < i ==> #[trigger] exp@[k] == normalised(raw@[k], ex@[k], ep@[k]),
        decreases NB_BANDS - i,
    {
        let d = <S::Wide as Real>::ratio(1, 1000).plus(ex[i].times(ep[i]).widen());
        exp.push(S::narrow(raw[i].widen().over(d.root())));
        i += 1;
    }
    assert(S::functional() ==> exp@ == analysed(two@, earlier@).exp);
    Frame { x: xf, p: pf, ex, ep, exp }
}

/// The features of a frame; `None` where it is silence.
fn frame_features<S: Sample>(common: &Common<S>, frame: &Frame<S>, period: usize) -> (r: Option<
    Vec<S>,
>)
    requires
        common.wf(),
        frame@.wf(),
        period <= PITCH_MAX_PERIOD,
    ensures
        r matches Some(v) ==> v@.len() == NB_FEATURES,
        S::functional() ==> {
            &&& r is None <==> is_silence(frame@)
            &&& r matches Some(v) ==> v@ == features_of(frame@, period as int)
        },
{
    reveal(is_silence);
    reveal(features_of);
    let (ly, e) = compute_log_bands(&frame.ex);
    if e.below(S::ratio(4, 100)) {
        return None;
    }
    let mut features = common.dct(&ly);
    let f0 = features[0].minus(S::ratio(12, 1));
    let f1 = features[1].minus(S::ratio(4, 1));
    features.set(0, f0);
    features.set(1, f1);
    let highs = common.dct(&frame.exp);
    extend(&mut features, &highs);
    features.push(S::ratio(1, 100).times(S::ratio(period as i64, 1).minus(S::ratio(300, 1))));
    assert(S::functional() ==> features@ == features_of(frame@, period as int));
    Some(features)
}

impl<S: Sample> DenoiseState<S> {
    /// The model that the denoiser runs.
    pub closed spec fn model(&self) -> &RnnModel {
        &*self.model
    }

    /// All parts of the state are well formed.
    pub closed spec fn wf(&self) -> bool {
        &&& self@.wf()
        &&& self.common.wf()
        &&& self.model.wf()
    }

    /// A denoiser for the given model, with tables of its own.
    pub fn with_model(model: Arc<RnnModel>) -> (st: Self)
        requires
            model.wf(),
        ensures
            st.wf(),
            st.model() == &*model,
            st@.wf(),
            S::functional() ==> st@ == new_stream::<S>(),
    {
        let common = Arc::new(Common::new());
        Self::with_tables(model, common)
    }

    /// A denoiser for the given model that shares its tables with others.
    pub fn with_tables(model: Arc<RnnModel>, common: Arc<Common<S>>) -> (st: Self)
        requires
            model.wf(),
            common.wf(),
        ensures
            st.wf(),
            st.model() == &*model,
            st@.wf(),
            S::functional() ==> st@ == new_stream::<S>(),
    {
        let zero = S::ratio(0, 1);
        let origin = Cpx::new(zero, zero);
        let st = DenoiseState {
            model,
            common,
            rnn: RnnState::new(),
            analysis_mem: filled(zero, FRAME_SIZE),
            synthesis_mem: filled(zero, FRAME_SIZE),
            pitch_buf: filled(zero, PITCH_BUF_SIZE),
            last_gain: zero,
            last_period: 0,
            mem_hp_x: (zero, zero),
            lastg: filled(zero, NB_BANDS),
            delayed: Frame {
                x: filled(origin, FREQ_SIZE),
                p: filled(origin, FREQ_SIZE),
                ex: filled(zero, NB_BANDS),
                ep: filled(zero, NB_BANDS),
                exp: filled(zero, NB_BANDS),
            },
        };
        proof {
            if S::functional() {
                let n = new_stream::<S>();
                assert(st@.analysis_mem == n.analysis_mem);
                assert(st@.synthesis_mem == n.synthesis_mem);
                assert(st@.pitch_buf == n.pitch_buf);
                assert(st@.lastg == n.lastg);
                assert(st@.delayed.x == n.delayed.x);
                assert(st@.delayed.p == n.delayed.p);
                assert(st@.delayed.ex == n.delayed.ex);
                assert(st@.delayed.ep == n.delayed.ep);
                assert(st@.delayed.exp == n.delayed.exp);
            }
        }
        st
    }

    /// Analyse a new, filtered frame. Returns the frame and its features, or no
    /// features where the frame is silence.
    fn compute_frame_features(&mut self, x: &[S]) -> (r: (Frame<S>, Option<Vec<S>>))
        requires
            old(self).wf(),
            x@.len() == FRAME_SIZE,
        ensures
            final(self).wf(),
            final(self).model() == old(self).model(),
            final(self)@.analysis_mem == x@,
            final(self)@.pitch_buf == shifted(old(self)@.pitch_buf, x@),
            final(self)@ == (StreamView {
                analysis_mem: final(self)@.analysis_mem,
                pitch_buf: final(self)@.pitch_buf,
                last_gain: final(self)@.last_gain,
                last_period: final(self)@.last_period,
                ..old(self)@
            }),
            r.0@.wf(),
            r.1 matches Some(v) ==> v@.len() == NB_FEATURES,
            S::functional() ==> {
                let (frame, found) = analysis_step(old(self)@, x@);
                &&& r.0@ == frame
                &&& final(self)@.last_gain == found.gain
                &&& final(self)@.last_period == found.period
                &&& r.1 is None <==> is_silence(frame)
                &&& r.1 matches Some(v) ==> v@ == features_of(frame, found.period)
            },
    {
        let ghost st = self@;
        let mut two: Vec<S> = Vec::new();
        extend(&mut two, &self.analysis_mem);
        extend(&mut two, x);
        assert(two@ == st.analysis_mem + x@);
        let mut mem: Vec<S> = Vec::new();
        extend(&mut mem, x);
        assert(mem@ == x@);
        self.analysis_mem = mem;
        let mut buf: Vec<S> = Vec::new();
        extend(&mut buf, tail(&self.pitch_buf, FRAME_SIZE));
        extend(&mut buf, x);
        assert(buf@ == shifted(st.pitch_buf, x@));
        self.pitch_buf = buf;
        let (period, gain) = find_pitch(&self.pitch_buf, self.last_period, self.last_gain);
        self.last_period = period as i32;
        self.last_gain = gain;
        let start: usize = PITCH_BUF_SIZE - WINDOW_SIZE - period;
        let earlier = slice_subrange(&self.pitch_buf, start, start + WINDOW_SIZE);
        let frame = analyse(&self.common, &two, earlier);
        let features = frame_features(&self.common, &frame, period);
        (frame, features)
    }

    /// Suppress the noise in the previous frame, with the features of the new
    /// one. Returns the probability of speech.
    fn suppress(&mut self, frame: &Frame<S>, features: &Vec<S>) -> (vad: S)
        requires
            old(self).wf(),
            old(self).model().columns_ok(),
            frame@.wf(),
            features@.len() == NB_FEATURES,
        ensures
            final(self).wf(),
            final(self).model() == old(self).model(),
            final(self)@ == (StreamView {
                rnn: final(self)@.rnn,
                lastg: final(self)@.lastg,
                delayed: FrameView { x: final(self)@.delayed.x, ..old(self)@.delayed },
                ..old(self)@
            }),
            S::functional() ==> {
                let net = suppressed(
                    old(self).model(),
                    old(self)@.rnn,
                    old(self)@.lastg,
                    old(self)@.delayed,
                    frame@.ex,
                    features@,
                );
                &&& final(self)@.delayed.x == net.x
                &&& final(self)@.rnn == net.rnn
                &&& final(self)@.lastg == net.lastg
                &&& vad == net.vad
            },
    {
        reveal(suppressed);
        let ghost st = self@;
        let ghost m = self.model();
        let (gains, vad) = compute_rnn(&self.model, &mut self.rnn, features);
        pitch_filter(&mut self.delayed, &gains);
        let mut g: Vec<S> = Vec::new();
        let mut lastg: Vec<S> = Vec::new();
        let mut i: usize = 0;
        while i < NB_BANDS
            invariant
                i <= NB_BANDS,
                gains@.len() == NB_BANDS,
                self.lastg@ == st.lastg,
                self.delayed@.ex == st.delayed.ex,
                st.wf(),
                frame@.wf(),
                g@.len() == i,
                lastg@.len() == i,
                S::functional() ==> forall|k: int|
                    0 <= k < i ==> #[trigger] g@[k] == smoothed(gains@[k], st.lastg[k]),
                S::functional() ==> forall|k: int|
                    0 <= k < i ==> #[trigger] lastg@[k] == carried(
                        smoothed(gains@[k], st.lastg[k]),
                        st.delayed.ex[k],
                        frame@.ex[k],
                    ),
            decreases NB_BANDS - i,
        {
            let gi = gains[i].larger(S::ratio(6, 10).times(self.lastg[i]));
            let small = <S::Wide as Real>::ratio(1, 1000);
            let t = gi.widen().times(self.delayed.ex[i].widen().plus(small)).over(
                frame.ex[i].widen().plus(small),
            );
            g.push(gi);
            lastg.push(S::narrow(t.smaller(<S::Wide as Real>::ratio(1, 1))));
            i += 1;
        }
        proof {
            if S::functional() {
                let net = rnn::rnn_step(m, st.rnn, features@);
                let gs = Seq::new(NB_BANDS as nat, |i: int| smoothed(net.gains[i], st.lastg[i]));
                assert(g@ == gs);
                assert(lastg@ == suppressed(
                    m,
                    st.rnn,
                    st.lastg,
                    st.delayed,
                    frame@.ex,
                    features@,
                ).lastg);
            }
        }
        self.lastg = lastg;
        let gf = interp_band_gain(&g);
        apply_gains(&mut self.delayed.x, &gf);
        vad
    }

    /// Denoise one frame: `input` and `output` hold at least 480 samples.
    /// Returns the probability of speech. What is put out is the start of the
    /// previous frame's window, added to the end of the window before it: the
    /// frame that both hold is the one of two calls ago.
    pub fn process_frame(&mut self, output: &mut [S], input: &[S]) -> (vad: S)
        requires
            old(self).wf(),
            old(self).model().columns_ok(),
            FRAME_SIZE <= input@.len(),
            FRAME_SIZE <= old(output)@.len(),
        ensures
            final(self).wf(),
            final(self).model() == old(self).model(),
            final(self)@.wf(),
            final(output)@.len() == old(output)@.len(),
            forall|i: int|
                FRAME_SIZE <= i < old(output)@.len() ==> #[trigger] final(output)@[i]
                    == old(output)@[i],
            S::functional() ==> processed(
                old(self).model(),
                old(self)@,
                input@,
                old(output)@,
                final(self)@,
                final(output)@,
                vad,
            ),
            S::functional() && stream::ordered::<S>() ==> stream::unitary(vad),
    {
        let ghost st = self@;
        let ghost m = self.model();
        let ghost x = input@.take(FRAME_SIZE as int);
        let ghost out0 = output@;
        let head = slice_subrange(input, 0, FRAME_SIZE);
        assert(head@ == x);
        let f = high_pass(&mut self.mem_hp_x, head);
        let (frame, features) = self.compute_frame_features(&f);
        let vad = match &features {
            None => S::ratio(0, 1),
            Some(features) => self.suppress(&frame, features),
        };
        self.frame_synthesis(output);
        self.delayed = frame;
        proof {
            if S::functional() {
                let step = frame_step(m, st, x);
                assert(output@.take(FRAME_SIZE as int) == step.out);
                assert(output@ == output@.take(FRAME_SIZE as int) + output@.skip(
                    FRAME_SIZE as int,
                ));
                assert(output@.skip(FRAME_SIZE as int) == out0.skip(FRAME_SIZE as int));
                assert(self@ == step.state);
                if stream::ordered::<S>() {
                    stream::lemma_vad_range(m, st, x);
                }
            }
        }
        vad
    }

    /// Put out the start of the previous frame's windowed signal, added to the
    /// end of the one before it, and remember its end.
    fn frame_synthesis(&mut self, out: &mut [S])
        requires
            old(self).wf(),
            FRAME_SIZE <= old(out)@.len(),
        ensures
            final(self).wf(),
            final(self).model() == old(self).model(),
            final(self)@ == (StreamView {
                synthesis_mem: final(self)@.synthesis_mem,
                ..old(self)@
            }),
            final(out)@.len() == old(out)@.len(),
            forall|i: int|
                FRAME_SIZE <= i < old(out)@.len() ==> #[trigger] final(out)@[i] == old(out)@[i],
            S::functional() ==> {
                let sig = windowed_signal(old(self)@.delayed.x);
                &&& final(out)@.take(FRAME_SIZE as int) == Seq::new(
                    FRAME_SIZE as nat,
                    |i: int| sig[i] + old(self)@.synthesis_mem[i],
                )
                &&& final(self)@.synthesis_mem == sig.skip(FRAME_SIZE as int)
            },
    {
        reveal(windowed_signal);
        let ghost st = self@;
        let ghost out0 = out@;
        let raw = self.common.inverse_transform(&self.delayed.x);
        let sig = self.common.apply_window(&raw);
        let mut i: usize = 0;
        while i < FRAME_SIZE
            invariant
                i <= FRAME_SIZE,
                self@ == st,
                st.wf(),
                sig@.len() == WINDOW_SIZE,
                out@.len() == out0.len(),
                FRAME_SIZE <= out0.len(),
                forall|k: int| FRAME_SIZE <= k < out0.len() ==> #[trigger] out@[k] == out0[k],
                S::functional() ==> forall|k: int|
                    0 <= k < i ==> #[trigger] out@[k] == sig@[k] + st.synthesis_mem[k],
            decreases FRAME_SIZE - i,
        {
            out[i] = sig[i].plus(self.synthesis_mem[i]);
            i += 1;
        }
        let mut mem: Vec<S> = Vec::new();
        extend(&mut mem, tail(&sig, FRAME_SIZE));
        assert(mem@ == sig@.skip(FRAME_SIZE as int));
        self.synthesis_mem = mem;
        proof {
            if S::functional() {
                assert(out@.take(FRAME_SIZE as int) == Seq::new(
                    FRAME_SIZE as nat,
                    |i: int| sig@[i] + st.synthesis_mem[i],
                ));
            }
        }
    }
}

} // verus!
