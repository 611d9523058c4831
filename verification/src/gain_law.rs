//! What becomes of the gains that a network predicts: each is applied to the
//! bins of its own band.

use vstd::prelude::*;
use crate::arith::{Arith, Sample, SampleArith};
use crate::bands;
use crate::common;
use crate::denoise::StreamView;
use crate::denoise;
use crate::dft;
use crate::exact;
use crate::feature_law;
use crate::fft::Cpx;
use crate::legacy;
use crate::legacy_denoise::EBAND5MS;
use crate::legacy_denoise;
use crate::legacy_net;
use crate::model::RnnModel;
use crate::perfect;
use crate::predictor;
use crate::rnn;
use crate::{EBAND20MS, FRAME_SIZE, NB_BANDS};

verus! {

/// Bin `at` has the gain of band `b`.
pub open spec fn gain_at(
    g: spec_fn(int) -> real,
    e: spec_fn(int) -> real,
    at: int,
    b: int,
) -> bool {
    g(at) == e(b)
}

/// Bin `at + j` is `j` of `w` steps on the way from the gain of band `b` to that
/// of the next.
pub open spec fn gain_between(
    g: spec_fn(int) -> real,
    e: spec_fn(int) -> real,
    at: int,
    w: int,
    b: int,
    j: int,
) -> bool {
    g(at + j) * (w as real) == e(b) * ((w - j) as real) + e(b + 1) * (j as real)
}

/// `g` holds gains for the bins that run through the gains `e` of the 32 bands.
/// Bin `EBAND20MS[b + 1]` has the gain of band `b`. The bins from there to the
/// next such bin run to the gain of the next band in equal steps. The bins below
/// the first and from the last on have the gains of the outermost bands, and
/// those from 400 on have none.
pub open spec fn runs_through(g: spec_fn(int) -> real, e: spec_fn(int) -> real) -> bool {
    let edges = EBAND20MS@;
    &&& forall|b: int| 0 <= b < 32 ==> #[trigger] gain_at(g, e, edges[b + 1] as int, b)
    &&& forall|b: int, j: int|
        0 <= b < 31 && 0 <= j <= edges[b + 2] - edges[b + 1] ==> #[trigger] gain_between(
            g,
            e,
            edges[b + 1] as int,
            edges[b + 2] - edges[b + 1],
            b,
            j,
        )
    &&& forall|k: int| 0 <= k < 2 ==> #[trigger] gain_at(g, e, k, 0)
    &&& forall|k: int| 356 <= k < 400 ==> #[trigger] gain_at(g, e, k, 31)
    &&& forall|k: int| 400 <= k < 481 ==> #[trigger] g(k) == 0real
}

/// The gains of the bins run through those of the bands.
pub proof fn lemma_bin_gains<S: Sample>(phi: spec_fn(S) -> real, e: Seq<S>)
    requires
        dft::exact(phi),
        exact::divides(phi),
        exact::counts(phi),
        e.len() == 32,
    ensures
        common::bin_gains(e).len() == 481,
        runs_through(|k: int| phi(common::bin_gains(e)[k]), |b: int| phi(e[b])),
{
    common::lemma_edges();
    perfect::lemma_zero_one(phi);
    let edges = EBAND20MS@;
    let runs = bands::ramps(edges, e, 1, (NB_BANDS - 1) as nat);
    bands::lemma_ramps(edges, e, 1, (NB_BANDS - 1) as nat);
    let all = common::bin_gains(e);
    let g = |k: int| phi(all[k]);
    let f = |b: int| phi(e[b]);
    assert forall|k: int| 356 <= k < 400 implies #[trigger] gain_at(g, f, k, 31) by {
        assert(all[k] == e[31]);
    }
    assert forall|k: int| 0 <= k < 2 implies #[trigger] gain_at(g, f, k, 0) by {
        assert(all[k] == e[0]);
    }
    assert forall|k: int| 400 <= k < 481 implies #[trigger] g(k) == 0real by {
        assert(all[k] == S::nil());
    }
    assert forall|b: int, j: int|
        0 <= b < 31 && 0 <= j <= edges[b + 2] - edges[b + 1] implies #[trigger] gain_between(
        g,
        f,
        edges[b + 1] as int,
        edges[b + 2] - edges[b + 1],
        b,
        j,
    ) by {
        lemma_run(phi, e, b, j);
    }
    assert forall|b: int| 0 <= b < 32 implies #[trigger] gain_at(
        g,
        f,
        edges[b + 1] as int,
        b,
    ) by {
        if b < 31 {
            assert(edges[b + 1] < edges[b + 2]);
            let w = (edges[b + 2] - edges[b + 1]) as real;
            lemma_run(phi, e, b, 0);
            dft::lemma_units(f(b + 1));
            perfect::lemma_same_multiple(g(edges[b + 1] as int), f(b), w);
        } else {
            assert(all[356] == e[31]);
        }
    }
}

/// One bin between two bands.
proof fn lemma_run<S: Sample>(phi: spec_fn(S) -> real, e: Seq<S>, b: int, j: int)
    requires
        dft::exact(phi),
        exact::divides(phi),
        exact::counts(phi),
        0 <= b < 31,
        0 <= j <= EBAND20MS@[b + 2] - EBAND20MS@[b + 1],
    ensures
        phi(common::bin_gains(e)[EBAND20MS@[b + 1] + j]) * ((EBAND20MS@[b + 2]
            - EBAND20MS@[b + 1]) as real) == phi(e[b]) * ((EBAND20MS@[b + 2] - EBAND20MS@[b + 1]
            - j) as real) + phi(e[b + 1]) * (j as real),
{
    common::lemma_edges();
    let edges = EBAND20MS@;
    let n = (NB_BANDS - 1) as nat;
    let runs = bands::ramps(edges, e, 1, n);
    bands::lemma_ramps(edges, e, 1, n);
    let all = common::bin_gains(e);
    assert(edges[b + 1] < edges[b + 2]);
    assert(edges[b + 2] <= 356) by {
        if b + 2 < 32 {
            assert(edges[b + 2] < edges[32]);
        }
    }
    let w = bands::width(edges, b + 1);
    assert(1 + b == b + 1);
    if j < w {
        bands::lemma_ramps_at(edges, e, 1, n, b, j);
        let at = edges[1 + b] - edges[1] + j;
        assert(all[edges[b + 1] + j] == runs[at]);
        perfect::lemma_mixed_shares(phi, e[b], e[b + 1], j, w);
    } else {
        let k = edges[b + 2] as int;
        assert(edges[b + 1] + j == k);
        if b < 30 {
            assert(edges[b + 2] < edges[b + 3]);
            let v = bands::width(edges, b + 2);
            assert(1 + (b + 1) == b + 2);
            bands::lemma_ramps_at(edges, e, 1, n, b + 1, 0);
            let at = edges[1 + (b + 1)] - edges[1] + 0;
            assert(all[k] == runs[at]);
            assert(edges[b + 3] <= 400) by {
                if b + 3 < 33 {
                    assert(edges[b + 3] < edges[33]);
                }
            }
            perfect::lemma_mixed_shares(phi, e[b + 1], e[b + 2], 0, v);
            let vv = (v as int) as real;
            dft::lemma_units(phi(e[b + 2]));
            assert((v - 0) as real == vv);
            perfect::lemma_same_multiple(phi(all[k]), phi(e[b + 1]), vv);
        } else {
            assert(all[k] == e[31]);
        }
        dft::lemma_units(phi(e[b]));
    }
}

/// What is left of the gain of a band: it falls by at most a factor 0.6 from one
/// frame to the next.
pub open spec fn lasting(gain: real, last: real) -> real {
    perfect::larger(gain, 3real / 5real * last)
}

/// `y` is the spectrum `x` with the gains `h`, bin by bin.
pub open spec fn scaled_by<S>(
    phi: spec_fn(S) -> real,
    x: Seq<Cpx<S>>,
    y: Seq<Cpx<S>>,
    h: spec_fn(int) -> real,
) -> bool {
    &&& y.len() == x.len()
    &&& forall|k: int|
        0 <= k < x.len() ==> phi((#[trigger] y[k]).r) == phi(x[k].r) * h(k) && phi(y[k].i) == phi(
            x[k].i,
        ) * h(k)
}

proof fn lemma_lasting<S: Sample>(phi: spec_fn(S) -> real, g: S, last: S)
    requires
        dft::exact(phi),
        exact::compares(phi),
        perfect::fractions(phi),
    ensures
        phi(denoise::smoothed(g, last)) == lasting(phi(g), phi(last)),
{
    perfect::lemma_frac(phi, 6, 10);
    let c = phi(S::frac(6, 10));
    assert(c == 3real / 5real);
}

/// The network's gains are applied to the previous frame, each to the bins of
/// its own band. What is left of the last gain of a band limits how far the gain
/// of the band falls. What is left of the gain for the next frame follows the
/// energy of the band, and is at most one. The probability of speech and the
/// state are those of the network.
pub proof fn lemma_suppressed<S: Sample>(
    phi: spec_fn(S) -> real,
    psi: spec_fn(S::Wide) -> real,
    m: &RnnModel,
    state: rnn::RnnView<S>,
    lastg: Seq<S>,
    delayed: denoise::FrameView<S>,
    ex: Seq<S>,
    features: Seq<S>,
)
    requires
        perfect::perfect(phi, psi),
        m.wf(),
        delayed.wf(),
    ensures
        ({
            let net = rnn::rnn_step(m, state, features);
            let done = denoise::suppressed(m, state, lastg, delayed, ex, features);
            let left = |b: int| lasting(phi(net.gains[b]), phi(lastg[b]));
            &&& exists|h: spec_fn(int) -> real| #[trigger]
                runs_through(h, left) && scaled_by(
                    phi,
                    denoise::comb_filtered(delayed, net.gains),
                    done.x,
                    h,
                )
            &&& forall|b: int|
                0 <= b < 32 && phi(ex[b]) >= 0real && phi(delayed.ex[b]) >= 0real ==> {
                    let next = phi(#[trigger] done.lastg[b]);
                    let now = 1000real * phi(ex[b]) + 1real;
                    let before = 1000real * phi(delayed.ex[b]) + 1real;
                    &&& left(b) * before <= now ==> next * now == left(b) * before
                    &&& left(b) * before > now ==> next == 1real
                }
            &&& done.vad == net.vad
            &&& done.rnn == net.state
        }),
{
    reveal(denoise::suppressed);
    let net = rnn::rnn_step(m, state, features);
    let done = denoise::suppressed(m, state, lastg, delayed, ex, features);
    let left = |b: int| lasting(phi(net.gains[b]), phi(lastg[b]));
    let g = Seq::new(NB_BANDS as nat, |i: int| denoise::smoothed(net.gains[i], lastg[i]));
    let x = denoise::comb_filtered(delayed, net.gains);
    lemma_bin_gains(phi, g);
    let h = |k: int| phi(common::bin_gains(g)[k]);
    let e = |b: int| phi(g[b]);
    assert forall|b: int| 0 <= b < 32 implies #[trigger] e(b) == left(b) by {
        lemma_lasting(phi, net.gains[b], lastg[b]);
    }
    lemma_same_gains(h, e, left);
    assert(scaled_by(phi, x, done.x, h));
    assert forall|b: int|
        0 <= b < 32 && phi(ex[b]) >= 0real && phi(delayed.ex[b]) >= 0real implies {
        let next = phi(#[trigger] done.lastg[b]);
        let now = 1000real * phi(ex[b]) + 1real;
        let before = 1000real * phi(delayed.ex[b]) + 1real;
        &&& left(b) * before <= now ==> next * now == left(b) * before
        &&& left(b) * before > now ==> next == 1real
    } by {
        assert(e(b) == left(b));
        lemma_left_over(phi, psi, g[b], delayed.ex[b], ex[b]);
    }
}

/// Gains that run through `e` run through what is the same in every band.
proof fn lemma_same_gains(
    h: spec_fn(int) -> real,
    e: spec_fn(int) -> real,
    f: spec_fn(int) -> real,
)
    requires
        runs_through(h, e),
        forall|b: int| 0 <= b < 32 ==> #[trigger] e(b) == f(b),
    ensures
        runs_through(h, f),
{
    let edges = EBAND20MS@;
    assert forall|b: int| 0 <= b < 32 implies #[trigger] gain_at(
        h,
        f,
        edges[b + 1] as int,
        b,
    ) by {
        assert(gain_at(h, e, edges[b + 1] as int, b));
        assert(e(b) == f(b));
    }
    assert forall|b: int, j: int|
        0 <= b < 31 && 0 <= j <= edges[b + 2] - edges[b + 1] implies #[trigger] gain_between(
        h,
        f,
        edges[b + 1] as int,
        edges[b + 2] - edges[b + 1],
        b,
        j,
    ) by {
        assert(gain_between(h, e, edges[b + 1] as int, edges[b + 2] - edges[b + 1], b, j));
        assert(e(b) == f(b) && e(b + 1) == f(b + 1));
    }
    assert(e(0) == f(0) && e(31) == f(31));
    assert forall|k: int| 0 <= k < 2 implies #[trigger] gain_at(h, f, k, 0) by {
        assert(gain_at(h, e, k, 0));
    }
    assert forall|k: int| 356 <= k < 400 implies #[trigger] gain_at(h, f, k, 31) by {
        assert(gain_at(h, e, k, 31));
    }
}

/// What is left of a gain for the next frame.
proof fn lemma_left_over<S: Sample>(
    phi: spec_fn(S) -> real,
    psi: spec_fn(S::Wide) -> real,
    g: S,
    before: S,
    now: S,
)
    requires
        perfect::perfect(phi, psi),
        phi(before) >= 0real,
        phi(now) >= 0real,
    ensures
        ({
            let next = phi(denoise::carried(g, before, now));
            let n = 1000real * phi(now) + 1real;
            let b = 1000real * phi(before) + 1real;
            &&& phi(g) * b <= n ==> next * n == phi(g) * b
            &&& phi(g) * b > n ==> next == 1real
        }),
{
    let small = <S::Wide as Arith>::frac(1, 1000);
    let one = <S::Wide as Arith>::unit();
    let top = g.wide() * (before.wide() + small);
    let bottom = now.wide() + small;
    perfect::lemma_frac(psi, 1, 1000);
    assert(psi(<S::Wide as Arith>::num(1)) == 1real);
    assert(<S::Wide as Arith>::num(1) == one);
    let t = psi(top / bottom);
    let (u, d) = (psi(top), psi(bottom));
    assert(t * d == u);
    let n = 1000real * phi(now) + 1real;
    let b = 1000real * phi(before) + 1real;
    assert(d * 1000real == n);
    assert(psi(before.wide() + small) * 1000real == b);
    dft::lemma_assoc(phi(g), psi(before.wide() + small), 1000real);
    assert(u * 1000real == phi(g) * b);
    dft::lemma_assoc(t, d, 1000real);
    assert(t * n == phi(g) * b);
    assert(n > 0real);
    if t > 1real {
        assert(t * n > n) by (nonlinear_arith)
            requires
                t > 1real,
                n > 0real,
        ;
    } else {
        assert(t * n <= n) by (nonlinear_arith)
            requires
                t <= 1real,
                n > 0real,
        ;
    }
    let least = (top / bottom).min_of(one);
    assert(denoise::carried(g, before, now) == S::narrowed(least));
    if phi(g) * b <= n {
        assert(t <= 1real);
        assert(psi(least) == t);
    } else {
        assert(psi(least) == 1real);
    }
}

/// What one frame does. It is filtered and analysed. Where the energies of its
/// bands sum up to less than 0.04, the spectrum of the previous frame is put out
/// as it is, there is no speech, and the network and the gains stay as they are.
/// Else noise is suppressed in the spectrum of the previous frame, with the
/// features of this one, before it is put out, and the probability of speech, the
/// gains and the network's state are those of the suppression. A spectrum is put
/// out as a signal under the window, whose first half is added to what was left
/// and whose second half is left for the next frame. The frame itself is kept for
/// the next one.
pub proof fn lemma_frame<S: Sample>(
    phi: spec_fn(S) -> real,
    m: &RnnModel,
    st: StreamView<S>,
    x: Seq<S>,
    i: int,
)
    requires
        dft::exact(phi),
        exact::counts(phi),
        exact::compares(phi),
        perfect::fractions(phi),
        0 <= i < FRAME_SIZE,
    ensures
        ({
            let f = common::biquad_out(
                x,
                st.mem_hp,
                common::high_pass_b::<S>(),
                common::high_pass_a::<S>(),
            );
            let (frame, found) = denoise::analysis_step(st, f);
            let quiet = predictor::total(|b: int| phi(frame.ex[b]), 32) < 4real / 100real;
            let done = denoise::suppressed(
                m,
                st.rnn,
                st.lastg,
                st.delayed,
                frame.ex,
                denoise::features_of(frame, found.period),
            );
            let sig = denoise::windowed_signal(
                if quiet {
                    st.delayed.x
                } else {
                    done.x
                },
            );
            let step = denoise::frame_step(m, st, x);
            &&& step.out.len() == 480
            &&& step.out[i] == sig[i] + st.synthesis_mem[i]
            &&& step.state.synthesis_mem[i] == sig[480 + i]
            &&& step.state.delayed == frame
            &&& quiet ==> {
                &&& step.vad == S::nil()
                &&& step.state.lastg == st.lastg
                &&& step.state.rnn == st.rnn
            }
            &&& !quiet ==> {
                &&& step.vad == done.vad
                &&& step.state.lastg == done.lastg
                &&& step.state.rnn == done.rnn
            }
        }),
{
    let f = common::biquad_out(
        x,
        st.mem_hp,
        common::high_pass_b::<S>(),
        common::high_pass_a::<S>(),
    );
    let (frame, found) = denoise::analysis_step(st, f);
    let done = denoise::suppressed(
        m,
        st.rnn,
        st.lastg,
        st.delayed,
        frame.ex,
        denoise::features_of(frame, found.period),
    );
    feature_law::lemma_silence(phi, frame);
    assert(denoise::windowed_signal(done.x).len() == 960) by {
        reveal(denoise::windowed_signal);
    }
    assert(denoise::windowed_signal(st.delayed.x).len() == 960) by {
        reveal(denoise::windowed_signal);
    }
}

/// The bin on the inner edge of band `b` is the comb-filtered bin of the
/// previous frame times the gain that the network predicts for the same band,
/// or 0.6 times the last gain of that band where this is larger. So where the
/// last gain is zero, a band with gain zero is put out as zero there, and one
/// with gain one is unchanged.
pub proof fn lemma_band_gain<S: Sample>(
    phi: spec_fn(S) -> real,
    psi: spec_fn(S::Wide) -> real,
    m: &RnnModel,
    state: rnn::RnnView<S>,
    lastg: Seq<S>,
    delayed: denoise::FrameView<S>,
    ex: Seq<S>,
    features: Seq<S>,
    b: int,
)
    requires
        perfect::perfect(phi, psi),
        m.wf(),
        delayed.wf(),
        0 <= b < 32,
    ensures
        ({
            let gains = rnn::rnn_step(m, state, features).gains;
            let was = denoise::comb_filtered(delayed, gains)[EBAND20MS@[b + 1] as int];
            let now = denoise::suppressed(m, state, lastg, delayed, ex, features).x[EBAND20MS@[b
                + 1] as int];
            let gain = lasting(phi(gains[b]), phi(lastg[b]));
            &&& phi(now.r) == phi(was.r) * gain
            &&& phi(now.i) == phi(was.i) * gain
            &&& phi(lastg[b]) == 0real && phi(gains[b]) == 0real ==> phi(now.r) == 0real && phi(
                now.i,
            ) == 0real
            &&& phi(lastg[b]) == 0real && phi(gains[b]) == 1real ==> phi(now.r) == phi(was.r)
                && phi(now.i) == phi(was.i)
        }),
{
    lemma_suppressed(phi, psi, m, state, lastg, delayed, ex, features);
    let net = rnn::rnn_step(m, state, features);
    let done = denoise::suppressed(m, state, lastg, delayed, ex, features);
    let x = denoise::comb_filtered(delayed, net.gains);
    let left = |b: int| lasting(phi(net.gains[b]), phi(lastg[b]));
    let h = choose|h: spec_fn(int) -> real| #[trigger]
        runs_through(h, left) && scaled_by(phi, x, done.x, h);
    let k = EBAND20MS@[b + 1] as int;
    common::lemma_edges();
    assert(0 <= k < 481) by {
        if b + 1 < 33 {
            assert(EBAND20MS@[b + 1] < EBAND20MS@[33]);
        }
    }
    assert(x.len() == 481);
    assert(gain_at(h, left, k, b));
    assert(phi(done.x[k].r) == phi(x[k].r) * h(k));
    dft::lemma_units(phi(x[k].r));
    dft::lemma_units(phi(x[k].i));
}

/// As [`runs_through`], for the 22 bands of the smaller network: bin
/// `EBAND5MS[b]` has the gain of band `b`, the bins from there to the next such
/// bin run to the gain of the next band in equal steps, and those from 400 on
/// have none.
pub open spec fn runs_through_few(g: spec_fn(int) -> real, e: spec_fn(int) -> real) -> bool {
    let edges = EBAND5MS@;
    &&& forall|b: int| 0 <= b < 21 ==> #[trigger] gain_at(g, e, edges[b] as int, b)
    &&& forall|b: int, j: int|
        0 <= b < 21 && 0 <= j < edges[b + 1] - edges[b] ==> #[trigger] gain_between(
            g,
            e,
            edges[b] as int,
            edges[b + 1] - edges[b],
            b,
            j,
        )
    &&& forall|k: int| 400 <= k < 481 ==> #[trigger] g(k) == 0real
}

/// The gains of the bins run through those of the 22 bands.
pub proof fn lemma_few_bin_gains<S: Sample>(phi: spec_fn(S) -> real, e: Seq<S>)
    requires
        dft::exact(phi),
        exact::divides(phi),
        exact::counts(phi),
        e.len() == 22,
    ensures
        legacy_denoise::bin_gains(e).len() == 481,
        runs_through_few(|k: int| phi(legacy_denoise::bin_gains(e)[k]), |b: int| phi(e[b])),
{
    legacy_denoise::lemma_edges();
    perfect::lemma_zero_one(phi);
    let edges = EBAND5MS@;
    let runs = bands::ramps(edges, e, 0, 21);
    bands::lemma_ramps(edges, e, 0, 21);
    let all = legacy_denoise::bin_gains(e);
    let g = |k: int| phi(all[k]);
    let f = |b: int| phi(e[b]);
    assert forall|k: int| 400 <= k < 481 implies #[trigger] g(k) == 0real by {
        assert(all[k] == S::nil());
    }
    assert forall|b: int, j: int|
        0 <= b < 21 && 0 <= j < edges[b + 1] - edges[b] implies #[trigger] gain_between(
        g,
        f,
        edges[b] as int,
        edges[b + 1] - edges[b],
        b,
        j,
    ) by {
        lemma_few_run(phi, e, b, j);
    }
    assert forall|b: int| 0 <= b < 21 implies #[trigger] gain_at(g, f, edges[b] as int, b) by {
        assert(edges[b] < edges[b + 1]);
        let w = (edges[b + 1] - edges[b]) as real;
        lemma_few_run(phi, e, b, 0);
        dft::lemma_units(f(b + 1));
        perfect::lemma_same_multiple(g(edges[b] as int), f(b), w);
    }
}

proof fn lemma_few_run<S: Sample>(phi: spec_fn(S) -> real, e: Seq<S>, b: int, j: int)
    requires
        dft::exact(phi),
        exact::divides(phi),
        exact::counts(phi),
        0 <= b < 21,
        0 <= j < EBAND5MS@[b + 1] - EBAND5MS@[b],
    ensures
        phi(legacy_denoise::bin_gains(e)[EBAND5MS@[b] + j]) * ((EBAND5MS@[b + 1]
            - EBAND5MS@[b]) as real) == phi(e[b]) * ((EBAND5MS@[b + 1] - EBAND5MS@[b] - j) as real)
            + phi(e[b + 1]) * (j as real),
{
    legacy_denoise::lemma_edges();
    let edges = EBAND5MS@;
    bands::lemma_ramps(edges, e, 0, 21);
    assert(edges[b + 1] <= 400) by {
        if b + 1 < 21 {
            assert(edges[b + 1] < edges[21]);
        }
    }
    let w = bands::width(edges, b);
    assert(0 + b == b);
    bands::lemma_ramps_at(edges, e, 0, 21, b, j);
    let at = edges[0 + b] - edges[0] + j;
    assert(at == edges[b] + j);
    perfect::lemma_mixed_shares(phi, e[b], e[b + 1], j, w);
}

proof fn lemma_few_same_gains(
    h: spec_fn(int) -> real,
    e: spec_fn(int) -> real,
    f: spec_fn(int) -> real,
)
    requires
        runs_through_few(h, e),
        forall|b: int| 0 <= b < 22 ==> #[trigger] e(b) == f(b),
    ensures
        runs_through_few(h, f),
{
    let edges = EBAND5MS@;
    assert forall|b: int| 0 <= b < 21 implies #[trigger] gain_at(h, f, edges[b] as int, b) by {
        assert(gain_at(h, e, edges[b] as int, b));
        assert(e(b) == f(b));
    }
    assert forall|b: int, j: int|
        0 <= b < 21 && 0 <= j < edges[b + 1] - edges[b] implies #[trigger] gain_between(
        h,
        f,
        edges[b] as int,
        edges[b + 1] - edges[b],
        b,
        j,
    ) by {
        assert(gain_between(h, e, edges[b] as int, edges[b + 1] - edges[b], b, j));
        assert(e(b) == f(b) && e(b + 1) == f(b + 1));
    }
}

/// The denoiser around the smaller network applies the gains to the frame
/// itself: its spectrum, comb-filtered, with the gain of each band for the bins
/// of the band. What is left of the last gain of a band limits how far the gain
/// of the band falls, and is replaced by it. The probability of speech and the
/// network's state are those of the network.
pub proof fn lemma_few_suppressed<S: Sample>(
    phi: spec_fn(S) -> real,
    m: legacy::ModelView,
    st: legacy_denoise::StreamView<S>,
    x: Seq<Cpx<S>>,
    p: Seq<Cpx<S>>,
)
    requires
        dft::exact(phi),
        exact::divides(phi),
        exact::counts(phi),
        exact::compares(phi),
        perfect::fractions(phi),
        ({
            let w = legacy_denoise::window_norm::<S>();
            let f = legacy_denoise::spectra_of(
                legacy_denoise::normalised(x, w),
                legacy_denoise::normalised(p, w),
            );
            predictor::total(|b: int| phi(f.ex[b]), 22) >= 4real / 100real
        }),
    ensures
        ({
            let w = legacy_denoise::window_norm::<S>();
            let f = legacy_denoise::spectra_of(
                legacy_denoise::normalised(x, w),
                legacy_denoise::normalised(p, w),
            );
            let cepstra = st.cepstral_mem.update(st.mem_id, legacy_denoise::cepstrum(f));
            let net = legacy_net::net_step(
                m,
                st.rnn,
                legacy_denoise::features_of(f, st.last_period, cepstra, st.mem_id),
            );
            let step = legacy_denoise::spectrum_step(m, st, x, p);
            let left = |b: int| lasting(phi(net.gains[b]), phi(st.lastg[b]));
            &&& exists|h: spec_fn(int) -> real| #[trigger]
                runs_through_few(h, left) && scaled_by(
                    phi,
                    legacy_denoise::comb_filtered(f, net.gains),
                    step.y,
                    h,
                )
            &&& forall|b: int| 0 <= b < 22 ==> phi(#[trigger] step.state.lastg[b]) == left(b)
            &&& step.vad == net.vad
            &&& step.state.rnn == net.state
            &&& step.state.cepstral_mem == cepstra
            &&& step.state.mem_id == (st.mem_id + 1) % 8
            &&& step.state.mem_hp == st.mem_hp
            &&& step.state.input_mem == st.input_mem
            &&& step.state.synthesis_mem == st.synthesis_mem
            &&& step.state.last_period == st.last_period
            &&& step.state.last_gain == st.last_gain
        }),
{
    reveal(legacy_denoise::spectrum_step);
    let w = legacy_denoise::window_norm::<S>();
    let f = legacy_denoise::spectra_of(
        legacy_denoise::normalised(x, w),
        legacy_denoise::normalised(p, w),
    );
    feature_law::lemma_few_silence(phi, f);
    let cepstra = st.cepstral_mem.update(st.mem_id, legacy_denoise::cepstrum(f));
    let net = legacy_net::net_step(
        m,
        st.rnn,
        legacy_denoise::features_of(f, st.last_period, cepstra, st.mem_id),
    );
    let step = legacy_denoise::spectrum_step(m, st, x, p);
    let left = |b: int| lasting(phi(net.gains[b]), phi(st.lastg[b]));
    let g = Seq::new(22, |i: int| denoise::smoothed(net.gains[i], st.lastg[i]));
    lemma_few_bin_gains(phi, g);
    let h = |k: int| phi(legacy_denoise::bin_gains(g)[k]);
    let e = |b: int| phi(g[b]);
    assert forall|b: int| 0 <= b < 22 implies #[trigger] e(b) == left(b) by {
        lemma_lasting(phi, net.gains[b], st.lastg[b]);
    }
    lemma_few_same_gains(h, e, left);
    assert(step.state.lastg == g);
    assert forall|b: int| 0 <= b < 22 implies phi(#[trigger] step.state.lastg[b]) == left(b) by {
        assert(e(b) == left(b));
    }
    assert(scaled_by(phi, legacy_denoise::comb_filtered(f, net.gains), step.y, h));
}

/// A frame of the smaller network's signal path whose bands have energies that
/// sum up to less than 0.04 passes as it is: there is no speech, and nothing of
/// the state changes.
pub proof fn lemma_few_quiet<S: Sample>(
    phi: spec_fn(S) -> real,
    m: legacy::ModelView,
    st: legacy_denoise::StreamView<S>,
    x: Seq<Cpx<S>>,
    p: Seq<Cpx<S>>,
)
    requires
        dft::exact(phi),
        exact::counts(phi),
        exact::compares(phi),
        perfect::fractions(phi),
        ({
            let w = legacy_denoise::window_norm::<S>();
            let f = legacy_denoise::spectra_of(
                legacy_denoise::normalised(x, w),
                legacy_denoise::normalised(p, w),
            );
            predictor::total(|b: int| phi(f.ex[b]), 22) < 4real / 100real
        }),
    ensures
        ({
            let w = legacy_denoise::window_norm::<S>();
            let step = legacy_denoise::spectrum_step(m, st, x, p);
            &&& step.y == legacy_denoise::normalised(x, w)
            &&& step.vad == S::nil()
            &&& step.state == st
        }),
{
    reveal(legacy_denoise::spectrum_step);
    reveal(legacy_denoise::spectra_of);
    let w = legacy_denoise::window_norm::<S>();
    let f = legacy_denoise::spectra_of(
        legacy_denoise::normalised(x, w),
        legacy_denoise::normalised(p, w),
    );
    feature_law::lemma_few_silence(phi, f);
}

/// Where the smaller network predicts gain zero for all bands and the last gains
/// are zero, nothing is put out.
pub proof fn lemma_few_silenced<S: Sample>(
    phi: spec_fn(S) -> real,
    m: legacy::ModelView,
    st: legacy_denoise::StreamView<S>,
    x: Seq<Cpx<S>>,
    p: Seq<Cpx<S>>,
    k: int,
)
    requires
        dft::exact(phi),
        exact::divides(phi),
        exact::counts(phi),
        exact::compares(phi),
        perfect::fractions(phi),
        ({
            let w = legacy_denoise::window_norm::<S>();
            let f = legacy_denoise::spectra_of(
                legacy_denoise::normalised(x, w),
                legacy_denoise::normalised(p, w),
            );
            let cepstra = st.cepstral_mem.update(st.mem_id, legacy_denoise::cepstrum(f));
            let gains = legacy_net::net_step(
                m,
                st.rnn,
                legacy_denoise::features_of(f, st.last_period, cepstra, st.mem_id),
            ).gains;
            &&& predictor::total(|b: int| phi(f.ex[b]), 22) >= 4real / 100real
            &&& f.wf()
            &&& forall|b: int| 0 <= b < 22 ==> phi(#[trigger] gains[b]) == 0real
            &&& forall|b: int| 0 <= b < 22 ==> phi(#[trigger] st.lastg[b]) == 0real
        }),
        0 <= k < 481,
    ensures
        phi(legacy_denoise::spectrum_step(m, st, x, p).y[k].r) == 0real,
        phi(legacy_denoise::spectrum_step(m, st, x, p).y[k].i) == 0real,
{
    let w = legacy_denoise::window_norm::<S>();
    let f = legacy_denoise::spectra_of(
        legacy_denoise::normalised(x, w),
        legacy_denoise::normalised(p, w),
    );
    let cepstra = st.cepstral_mem.update(st.mem_id, legacy_denoise::cepstrum(f));
    let net = legacy_net::net_step(
        m,
        st.rnn,
        legacy_denoise::features_of(f, st.last_period, cepstra, st.mem_id),
    );
    lemma_few_suppressed(phi, m, st, x, p);
    let step = legacy_denoise::spectrum_step(m, st, x, p);
    let left = |b: int| lasting(phi(net.gains[b]), phi(st.lastg[b]));
    let was = legacy_denoise::comb_filtered(f, net.gains);
    let h = choose|h: spec_fn(int) -> real| #[trigger]
        runs_through_few(h, left) && scaled_by(phi, was, step.y, h);
    assert(h(k) == 0real) by {
        if k < 400 {
            legacy_denoise::lemma_edges();
            let edges = EBAND5MS@;
            let b = lemma_find_band(edges, k, 21);
            let j = k - edges[b];
            assert(gain_between(h, left, edges[b] as int, edges[b + 1] - edges[b], b, j));
            assert(phi(net.gains[b]) == 0real && phi(net.gains[b + 1]) == 0real);
            assert(phi(st.lastg[b]) == 0real && phi(st.lastg[b + 1]) == 0real);
            assert(left(b) == 0real && left(b + 1) == 0real);
            let n = (edges[b + 1] - edges[b]) as real;
            dft::lemma_units((edges[b + 1] - edges[b] - j) as real);
            dft::lemma_units(j as real);
            dft::lemma_units(n);
            perfect::lemma_same_multiple(h(k), 0real, n);
        }
    }
    assert(was.len() == 481);
    dft::lemma_units(phi(was[k].r));
    dft::lemma_units(phi(was[k].i));
    assert(phi(step.y[k].r) == phi(was[k].r) * h(k));
}

/// The edge below bin `k`.
pub proof fn lemma_find_band(edges: Seq<usize>, k: int, n: int) -> (b: int)
    requires
        bands::increasing(edges),
        0 < n < edges.len(),
        0 <= k < edges[n],
    ensures
        0 <= b < n,
        edges[b] <= k < edges[b + 1],
    decreases n,
{
    if edges[n - 1] <= k {
        n - 1
    } else {
        lemma_find_band(edges, k, n - 1)
    }
}

} // verus!
