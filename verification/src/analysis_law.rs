//! What is analysed of a stream: the last two filtered frames under the window,
//! the same stretch of signal one pitch period earlier, the energies of both in
//! the bands and how much they agree.

use vstd::prelude::*;
use crate::arith::{Arith, Real, Sample, SampleArith};
use crate::band_law;
use crate::common;
use crate::denoise::StreamView;
use crate::denoise;
use crate::dft;
use crate::exact;
use crate::fft::Cpx;
use crate::fft;
use crate::inverse;
use crate::legacy_denoise;
use crate::legacy;
use crate::model::RnnModel;
use crate::perfect;

verus! {

/// The filter that removes the constant part of a signal, with its coefficients:
/// the second difference of the input, smoothed. A constant input leaves only
/// what the filter remembers.
pub proof fn lemma_high_pass<S: Sample>(
    phi: spec_fn(S) -> real,
    psi: spec_fn(S::Wide) -> real,
    x: Seq<S>,
    mem: (S, S),
    i: int,
)
    requires
        perfect::perfect(phi, psi),
        2 <= i < x.len(),
    ensures
        ({
            let y = common::biquad_out(
                x,
                mem,
                common::high_pass_b::<S>(),
                common::high_pass_a::<S>(),
            );
            &&& y.len() == x.len()
            &&& phi(y[i]) - 199599real / 100000real * phi(y[i - 1]) + 996real / 1000real * phi(
                y[i - 2],
            ) == phi(x[i]) - 2real * phi(x[i - 1]) + phi(x[i - 2])
        }),
{
    let (b, a) = (common::high_pass_b::<S>(), common::high_pass_a::<S>());
    exact::lemma_recurrence(phi, psi, x, mem, b, a, i);
    perfect::lemma_zero_one(phi);
    perfect::lemma_frac(phi, (-2) as i64, 1);
    dft::lemma_units(phi(S::num(-2)));
    perfect::lemma_frac::<S>(phi, (-199599) as i64, 100000);
    perfect::lemma_frac::<S>(phi, 996, 1000);
    let y = common::biquad_out(x, mem, b, a);
    let c = 199599real / 100000real;
    assert(phi(b.0) == 0real - 2real);
    assert(phi(b.1) == 1real);
    assert(phi(a.0) * 100000real == 0real - 199599real);
    assert(phi(a.0) == 0real - c);
    assert(phi(a.1) == 996real / 1000real);
    lemma_less(2real, phi(x[i - 1]));
    lemma_less(c, phi(y[i - 1]));
    dft::lemma_units(phi(x[i - 2]));
    assert(phi(b.0) * phi(x[i - 1]) == 0real - 2real * phi(x[i - 1]));
    assert(phi(a.0) * phi(y[i - 1]) == 0real - c * phi(y[i - 1]));
    assert(phi(b.1) * phi(x[i - 2]) == phi(x[i - 2]));
    assert(phi(a.1) * phi(y[i - 2]) == 996real / 1000real * phi(y[i - 2]));
}

proof fn lemma_less(c: real, v: real)
    ensures
        (0real - c) * v == 0real - c * v,
{
    dft::lemma_dist(0real, c, v);
    dft::lemma_units(v);
}

proof fn lemma_mem_in_pieces<S: Sample>(
    x: Seq<S>,
    y: Seq<S>,
    mem: (S, S),
    b: (S, S),
    a: (S, S),
    i: nat,
)
    requires
        i <= x.len() + y.len(),
    ensures
        common::biquad_mem(x + y, mem, b, a, i) == if i <= x.len() {
            common::biquad_mem(x, mem, b, a, i)
        } else {
            common::biquad_mem(
                y,
                common::biquad_mem(x, mem, b, a, x.len()),
                b,
                a,
                (i - x.len()) as nat,
            )
        },
    decreases i,
{
    if i > 0 {
        lemma_mem_in_pieces(x, y, mem, b, a, (i - 1) as nat);
        if i <= x.len() {
            assert((x + y)[i - 1] == x[i - 1]);
        } else {
            let mid = common::biquad_mem(x, mem, b, a, x.len());
            let k = (i - x.len()) as nat;
            assert((x + y)[i - 1] == y[k - 1]);
            assert(common::biquad_mem(y, mid, b, a, 0) == mid);
            assert(common::biquad_mem(x + y, mem, b, a, (i - 1) as nat) == common::biquad_mem(
                y,
                mid,
                b,
                a,
                (k - 1) as nat,
            ));
        }
    }
}

/// A signal may be filtered in pieces: the filter goes on from what it remembers
/// of the piece before.
pub proof fn lemma_filter_in_pieces<S: Sample>(
    x: Seq<S>,
    y: Seq<S>,
    mem: (S, S),
    b: (S, S),
    a: (S, S),
)
    ensures
        ({
            let mid = common::biquad_mem(x, mem, b, a, x.len());
            &&& common::biquad_out(x + y, mem, b, a) == common::biquad_out(x, mem, b, a)
                + common::biquad_out(y, mid, b, a)
            &&& common::biquad_mem(x + y, mem, b, a, (x + y).len()) == common::biquad_mem(
                y,
                mid,
                b,
                a,
                y.len(),
            )
        }),
{
    let mid = common::biquad_mem(x, mem, b, a, x.len());
    let all = common::biquad_out(x + y, mem, b, a);
    let two = common::biquad_out(x, mem, b, a) + common::biquad_out(y, mid, b, a);
    assert forall|i: int| 0 <= i < all.len() implies all[i] == two[i] by {
        lemma_mem_in_pieces(x, y, mem, b, a, i as nat);
        if i < x.len() {
            assert((x + y)[i] == x[i]);
        } else {
            assert((x + y)[i] == y[i - x.len()]);
            assert(common::biquad_mem(y, mid, b, a, 0) == mid);
        }
    }
    assert(all =~= two);
    lemma_mem_in_pieces(x, y, mem, b, a, (x + y).len());
    assert(common::biquad_mem(y, mid, b, a, 0) == mid);
}

/// The window rises over the first frame and falls over the second as it rose.
pub proof fn lemma_windowed<S: Sample>(phi: spec_fn(S) -> real, x: Seq<S>, i: int)
    requires
        dft::exact(phi),
        0 <= i < 480,
    ensures
        ({
            let half = common::half_window_of::<S>();
            let y = common::windowed(x, half);
            &&& y.len() == 960
            &&& phi(y[i]) == phi(x[i]) * phi(half[i])
            &&& phi(y[959 - i]) == phi(x[959 - i]) * phi(half[i])
        }),
{
}

/// The correlation `e` of two bands with the energies `ex` and `ep`, from what
/// their bins have in common: it has the sign of that, and is measured against
/// the root of 0.001 plus the product of the energies.
pub open spec fn correlation(common: real, ex: real, ep: real, e: real) -> bool {
    &&& e * e * (1real / 1000real + ex * ep) == common * common
    &&& common >= 0real ==> e >= 0real
    &&& common <= 0real ==> e <= 0real
}

/// A quotient by a root.
proof fn lemma_by_root(t: real, r: real, c: real, d: real)
    requires
        r >= 0real,
        r * r == d,
        d > 0real,
        t * r == c,
    ensures
        t * t * d == c * c,
        c >= 0real ==> t >= 0real,
        c <= 0real ==> t <= 0real,
{
    if r == 0real {
        dft::lemma_units(r);
    }
    assert(t * t * (r * r) == (t * r) * (t * r)) by (nonlinear_arith);
    if c >= 0real && t < 0real {
        assert(t * r < 0real) by (nonlinear_arith)
            requires
                t < 0real,
                r > 0real,
        ;
    }
    if c <= 0real && t > 0real {
        assert(t * r > 0real) by (nonlinear_arith)
            requires
                t > 0real,
                r > 0real,
        ;
    }
}

/// A correlation lies between minus one and one.
proof fn lemma_within_one(e: real, ex: real, ep: real, c: real)
    requires
        ex >= 0real,
        ep >= 0real,
        c * c <= ex * ep,
        e * e * (1real / 1000real + ex * ep) == c * c,
    ensures
        -1real <= e <= 1real,
{
    assert(ex * ep >= 0real) by (nonlinear_arith)
        requires
            ex >= 0real,
            ep >= 0real,
    ;
    let d = 1real / 1000real + ex * ep;
    let q = e * e;
    if q > 1real {
        assert(q * d > d) by (nonlinear_arith)
            requires
                q > 1real,
                d > 0real,
        ;
    }
    if e > 1real || e < -1real {
        assert(e * e > 1real) by (nonlinear_arith)
            requires
                e > 1real || e < -1real,
        ;
    }
}

/// An analysed frame: the spectra of two stretches of signal under the window,
/// their energies in the bands, and their correlations, which lie between minus
/// one and one.
pub proof fn lemma_analysed<S: Sample>(
    phi: spec_fn(S) -> real,
    psi: spec_fn(S::Wide) -> real,
    two: Seq<S>,
    earlier: Seq<S>,
)
    requires
        perfect::perfect(phi, psi),
    ensures
        ({
            let f = denoise::analysed(two, earlier);
            &&& f.x == denoise::windowed_spectrum(two)
            &&& f.p == denoise::windowed_spectrum(earlier)
            &&& f.exp.len() == 32
            &&& forall|b: int|
                0 <= b < 32 ==> {
                    &&& phi(#[trigger] f.exp[b]) >= -1real
                    &&& phi(f.exp[b]) <= 1real
                    &&& phi(f.ex[b]) >= 0real
                    &&& phi(f.ep[b]) >= 0real
                    &&& phi(f.ex[b]) == band_law::band_sum(
                        b,
                        band_law::bin_product(phi, f.x, f.x),
                    )
                    &&& phi(f.ep[b]) == band_law::band_sum(
                        b,
                        band_law::bin_product(phi, f.p, f.p),
                    )
                    &&& correlation(
                        band_law::band_sum(b, band_law::bin_product(phi, f.x, f.p)),
                        phi(f.ex[b]),
                        phi(f.ep[b]),
                        phi(f.exp[b]),
                    )
                }
        }),
{
    reveal(denoise::analysed);
    let f = denoise::analysed(two, earlier);
    band_law::lemma_band_corr(phi, f.x, f.x);
    band_law::lemma_band_corr(phi, f.p, f.p);
    band_law::lemma_band_corr(phi, f.x, f.p);
    assert forall|b: int| 0 <= b < 32 implies {
        &&& phi(#[trigger] f.exp[b]) >= -1real
        &&& phi(f.exp[b]) <= 1real
        &&& phi(f.ex[b]) >= 0real
        &&& phi(f.ep[b]) >= 0real
        &&& phi(f.ex[b]) == band_law::band_sum(b, band_law::bin_product(phi, f.x, f.x))
        &&& phi(f.ep[b]) == band_law::band_sum(b, band_law::bin_product(phi, f.p, f.p))
        &&& correlation(
            band_law::band_sum(b, band_law::bin_product(phi, f.x, f.p)),
            phi(f.ex[b]),
            phi(f.ep[b]),
            phi(f.exp[b]),
        )
    } by {
        band_law::lemma_correlation_bound(phi, f.x, f.p, b);
        let raw = common::band_corr(f.x, f.p)[b];
        assert(phi(raw) == band_law::band_sum(b, band_law::bin_product(phi, f.x, f.p)));
        assert(phi(common::band_corr(f.x, f.x)[b]) == phi(f.ex[b]));
        assert(phi(common::band_corr(f.p, f.p)[b]) == phi(f.ep[b]));
        lemma_normalised(phi, psi, raw, f.ex[b], f.ep[b]);
        lemma_within_one(phi(f.exp[b]), phi(f.ex[b]), phi(f.ep[b]), phi(raw));
    }
}

proof fn lemma_normalised<S: Sample>(
    phi: spec_fn(S) -> real,
    psi: spec_fn(S::Wide) -> real,
    raw: S,
    ex: S,
    ep: S,
)
    requires
        perfect::perfect(phi, psi),
        phi(ex) >= 0real,
        phi(ep) >= 0real,
    ensures
        correlation(phi(raw), phi(ex), phi(ep), phi(denoise::normalised(raw, ex, ep))),
{
    perfect::lemma_frac(psi, 1, 1000);
    let w = <S::Wide as Arith>::frac(1, 1000) + (ex * ep).wide();
    let d = psi(w);
    assert(d == 1real / 1000real + phi(ex) * phi(ep));
    assert(phi(ex) * phi(ep) >= 0real) by (nonlinear_arith)
        requires
            phi(ex) >= 0real,
            phi(ep) >= 0real,
    ;
    let r = psi(w.sqrt_of());
    assert(r >= 0real && r * r == d);
    if r == 0real {
        dft::lemma_units(r);
    }
    let t = psi(raw.wide() / w.sqrt_of());
    assert(t * r == phi(raw));
    lemma_by_root(t, r, phi(raw), d);
}

/// What is analysed of a new, filtered frame. The signal of the pitch analysis
/// is that of the frames before with the frame at its end. The frame's own
/// spectrum is that of the frame before and the frame itself, and the one that it
/// is compared with is that of the two frames that end one pitch period before
/// the end of the signal.
pub proof fn lemma_analysis<S: Sample>(st: StreamView<S>, x: Seq<S>)
    requires
        st.wf(),
        x.len() == 480,
        ({
            let period = denoise::analysis_step(st, x).1.period;
            0 <= period <= 768
        }),
    ensures
        ({
            let (frame, found) = denoise::analysis_step(st, x);
            exists|buf: Seq<S>, two: Seq<S>, earlier: Seq<S>| #[trigger]
                heard(st, x, found.period, buf, two, earlier) && found == denoise::pitch_of(
                    buf,
                    st.last_period,
                    st.last_gain,
                ) && frame == denoise::analysed(two, earlier)
        }),
{
    let (frame, found) = denoise::analysis_step(st, x);
    let buf = denoise::shifted(st.pitch_buf, x);
    let two = st.analysis_mem + x;
    let start = 768 - found.period;
    let earlier = buf.subrange(start, start + 960);
    assert(heard(st, x, found.period, buf, two, earlier));
}

/// `buf` is the signal up to the end of the frame `x`, `two` are the frame before
/// and the frame, and `earlier` are two frames `period` samples before the end.
pub open spec fn heard<S>(
    st: StreamView<S>,
    x: Seq<S>,
    period: int,
    buf: Seq<S>,
    two: Seq<S>,
    earlier: Seq<S>,
) -> bool {
    &&& buf.len() == 1728
    &&& forall|i: int| 0 <= i < 1248 ==> #[trigger] buf[i] == st.pitch_buf[480 + i]
    &&& forall|i: int| 0 <= i < 480 ==> buf[1248 + i] == #[trigger] x[i]
    &&& two.len() == 960
    &&& forall|i: int| 0 <= i < 480 ==> #[trigger] two[i] == st.analysis_mem[i]
    &&& forall|i: int| 0 <= i < 480 ==> two[480 + i] == #[trigger] x[i]
    &&& earlier.len() == 960
    &&& forall|i: int| 0 <= i < 960 ==> #[trigger] earlier[i] == buf[768 - period + i]
}

/// The last frame is the end of the signal of the pitch analysis.
pub open spec fn in_step<S>(st: StreamView<S>) -> bool {
    forall|i: int| 0 <= i < 480 ==> #[trigger] st.analysis_mem[i] == st.pitch_buf[1248 + i]
}

/// Every frame leaves a stream whose last frame is the end of its signal: a new
/// stream is one, and so is the stream after any frame. Both are the filtered
/// frame then, and the filter, the period and its gain are what later frames go
/// on from.
pub proof fn lemma_in_step<S: Sample>(m: &RnnModel, st: StreamView<S>, x: Seq<S>)
    requires
        st.wf(),
        x.len() == 480,
    ensures
        in_step(denoise::new_stream::<S>()),
        ({
            let after = denoise::frame_step(m, st, x).state;
            let (b, a) = (common::high_pass_b::<S>(), common::high_pass_a::<S>());
            let f = common::biquad_out(x, st.mem_hp, b, a);
            let (frame, found) = denoise::analysis_step(st, f);
            &&& in_step(after)
            &&& after.analysis_mem == f
            &&& after.pitch_buf.len() == 1728
            &&& forall|i: int|
                0 <= i < 1248 ==> #[trigger] after.pitch_buf[i] == st.pitch_buf[480 + i]
            &&& after.last_period == found.period
            &&& after.last_gain == found.gain
            &&& after.delayed == frame
            &&& after.mem_hp == common::biquad_mem(x, st.mem_hp, b, a, 480)
        }),
{
}

/// Where the last frame is the end of the signal, sample `i` of what a frame is
/// compared with is the sample one period before sample `i` of the frame.
pub proof fn lemma_one_period_earlier<S: Sample>(
    st: StreamView<S>,
    x: Seq<S>,
    period: int,
    buf: Seq<S>,
    two: Seq<S>,
    earlier: Seq<S>,
    i: int,
)
    requires
        in_step(st),
        x.len() == 480,
        0 <= period <= 768,
        heard(st, x, period, buf, two, earlier),
        period <= i < 960,
    ensures
        earlier[i] == two[i - period],
{
    let j = i - period;
    assert(earlier[i] == buf[768 + j]);
    if j < 480 {
        assert(two[j] == st.analysis_mem[j]);
        assert(buf[768 + j] == st.pitch_buf[480 + (768 + j)]);
    } else {
        let k = j - 480;
        assert(two[480 + k] == x[k]);
        assert(buf[1248 + k] == x[k]);
    }
}

/// The smaller network's signal path: the frame is filtered and put at the end of
/// the signal, the pitch is found there, and the two stretches of signal are the
/// last two frames and the two frames one period earlier, both under the window.
pub proof fn lemma_few_analysis<S: Sample>(
    m: legacy::ModelView,
    st: legacy_denoise::StreamView<S>,
    x: Seq<S>,
    fwd: spec_fn(Seq<S>) -> Seq<Cpx<S>>,
    inv: spec_fn(Seq<Cpx<S>>) -> Seq<S>,
    i: int,
)
    requires
        st.wf(m),
        x.len() == 480,
        0 <= legacy_denoise::prepared(st, x).last_period <= 768,
        0 <= i < 960,
    ensures
        ({
            let mid = legacy_denoise::prepared(st, x);
            let (b, a) = (common::high_pass_b::<S>(), common::high_pass_a::<S>());
            let f = common::biquad_out(x, st.mem_hp, b, a);
            let half = common::half_window_of::<S>();
            let at = if i < 480 {
                i
            } else {
                959 - i
            };
            &&& mid.input_mem.len() == 1728
            &&& forall|k: int| 0 <= k < 1248 ==> #[trigger] mid.input_mem[k] == st.input_mem[480 + k]
            &&& forall|k: int| 0 <= k < 480 ==> mid.input_mem[1248 + k] == #[trigger] f[k]
            &&& mid.mem_hp == common::biquad_mem(x, st.mem_hp, b, a, 480)
            &&& ({
                let found = denoise::pitch_of(mid.input_mem, st.last_period, st.last_gain);
                mid.last_period == found.period && mid.last_gain == found.gain
            })
            &&& legacy_denoise::lagged(mid.input_mem, 0)[i] == mid.input_mem[768 + i] * half[at]
            &&& legacy_denoise::lagged(mid.input_mem, mid.last_period)[i] == mid.input_mem[768
                - mid.last_period + i] * half[at]
        }),
{
}

/// The frame of the smaller network's signal path puts out the first half of the
/// signal of the spectrum, halved and under the window, added to what was left,
/// and leaves the second half.
pub proof fn lemma_few_put_out<S: Sample>(
    m: legacy::ModelView,
    st: legacy_denoise::StreamView<S>,
    x: Seq<S>,
    fwd: spec_fn(Seq<S>) -> Seq<Cpx<S>>,
    inv: spec_fn(Seq<Cpx<S>>) -> Seq<S>,
    i: int,
)
    requires
        st.wf(m),
        x.len() == 480,
        0 <= i < 480,
    ensures
        ({
            let mid = legacy_denoise::prepared(st, x);
            let done = legacy_denoise::spectrum_step(
                m,
                mid,
                fwd(legacy_denoise::lagged(mid.input_mem, 0)),
                fwd(legacy_denoise::lagged(mid.input_mem, mid.last_period)),
            );
            let sig = inv(legacy_denoise::real_ends(done.y));
            let half = common::half_window_of::<S>();
            let step = legacy_denoise::frame_step(m, st, x, fwd, inv);
            &&& step.out.len() == 480
            &&& step.out[i] == sig[i] * S::frac(1, 2) * half[i] + st.synthesis_mem[i]
            &&& step.state.synthesis_mem[i] == sig[480 + i] * S::frac(1, 2) * half[479 - i]
            &&& step.vad == done.vad
            &&& step.state == (legacy_denoise::StreamView {
                synthesis_mem: step.state.synthesis_mem,
                ..done.state
            })
        }),
{
}

/// Only the first and the last bin are touched to make a spectrum that of a real
/// signal: their imaginary parts become zero.
pub proof fn lemma_real_ends<S: Sample>(x: Seq<Cpx<S>>, k: int)
    requires
        x.len() == 481,
        0 <= k < 481,
    ensures
        legacy_denoise::real_ends(x).len() == 481,
        legacy_denoise::real_ends(x)[k].r == x[k].r,
        legacy_denoise::real_ends(x)[k].i == if k == 0 || k == 480 {
            S::nil()
        } else {
            x[k].i
        },
{
}

/// The spectra of the smaller network's signal path, their energies in the bands
/// and their correlations, which lie between minus one and one.
pub proof fn lemma_few_analysed<S: Sample>(
    phi: spec_fn(S) -> real,
    x: Seq<Cpx<S>>,
    p: Seq<Cpx<S>>,
)
    requires
        dft::exact(phi),
        exact::divides(phi),
        exact::counts(phi),
        perfect::fractions(phi),
        perfect::square_roots(phi),
    ensures
        ({
            let f = legacy_denoise::spectra_of(x, p);
            &&& f.x == x
            &&& f.p == p
            &&& f.exp.len() == 22
            &&& forall|b: int|
                0 <= b < 22 ==> {
                    &&& phi(#[trigger] f.exp[b]) >= -1real
                    &&& phi(f.exp[b]) <= 1real
                    &&& phi(f.ex[b]) >= 0real
                    &&& phi(f.ep[b]) >= 0real
                    &&& phi(f.ex[b]) == band_law::few_band_sum(
                        b,
                        band_law::bin_product(phi, x, x),
                    )
                    &&& phi(f.ep[b]) == band_law::few_band_sum(
                        b,
                        band_law::bin_product(phi, p, p),
                    )
                    &&& correlation(
                        band_law::few_band_sum(b, band_law::bin_product(phi, x, p)),
                        phi(f.ex[b]),
                        phi(f.ep[b]),
                        phi(f.exp[b]),
                    )
                }
        }),
{
    reveal(legacy_denoise::spectra_of);
    let f = legacy_denoise::spectra_of(x, p);
    band_law::lemma_band_corr(phi, x, x);
    band_law::lemma_band_corr(phi, p, p);
    band_law::lemma_band_corr(phi, x, p);
    assert forall|b: int| 0 <= b < 22 implies {
        &&& phi(#[trigger] f.exp[b]) >= -1real
        &&& phi(f.exp[b]) <= 1real
        &&& phi(f.ex[b]) >= 0real
        &&& phi(f.ep[b]) >= 0real
        &&& phi(f.ex[b]) == band_law::few_band_sum(b, band_law::bin_product(phi, x, x))
        &&& phi(f.ep[b]) == band_law::few_band_sum(b, band_law::bin_product(phi, p, p))
        &&& correlation(
            band_law::few_band_sum(b, band_law::bin_product(phi, x, p)),
            phi(f.ex[b]),
            phi(f.ep[b]),
            phi(f.exp[b]),
        )
    } by {
        band_law::lemma_correlation_bound(phi, x, p, b);
        let raw = legacy_denoise::band_corr(x, p)[b];
        assert(phi(raw) == band_law::few_band_sum(b, band_law::bin_product(phi, x, p)));
        let (ex, ep) = (f.ex[b], f.ep[b]);
        assert(phi(legacy_denoise::band_corr(x, x)[b]) == phi(ex));
        assert(phi(legacy_denoise::band_corr(p, p)[b]) == phi(ep));
        perfect::lemma_frac(phi, 1, 1000);
        let w = S::frac(1, 1000) + ex * ep;
        let d = phi(w);
        assert(d == 1real / 1000real + phi(ex) * phi(ep));
        assert(phi(ex) * phi(ep) >= 0real) by (nonlinear_arith)
            requires
                phi(ex) >= 0real,
                phi(ep) >= 0real,
        ;
        let r = phi(w.sqrt_of());
        assert(r >= 0real && r * r == d);
        if r == 0real {
            dft::lemma_units(r);
        }
        let t = phi(raw / w.sqrt_of());
        assert(t * r == phi(raw));
        assert(f.exp[b] == raw / w.sqrt_of());
        lemma_by_root(t, r, phi(raw), d);
        lemma_within_one(t, phi(ex), phi(ep), phi(raw));
    }
}

/// The spectrum of two frames is that of the signal under the window: bin `k` is
/// frequency `k` of it.
pub proof fn lemma_spectrum<S: Sample>(phi: spec_fn(S) -> real, two: Seq<S>, k: int)
    requires
        inverse::ideal(phi),
        0 <= k < 481,
    ensures
        dft::point(phi, denoise::windowed_spectrum(two)[k]) == inverse::frequency(
            phi,
            common::windowed(two, common::half_window_of::<S>()),
            k,
        ),
{
    let w = common::windowed(two, common::half_window_of::<S>());
    inverse::lemma_forward(phi, w, k);
    inverse::lemma_transformed_len(common::as_complex(w));
    assert(common::spectrum(w)[k] == fft::transformed(common::as_complex(w))[k]);
}

/// `psi` reads sines as `sin`.
pub open spec fn sines<W: Real>(psi: spec_fn(W) -> real, sin: spec_fn(real) -> real) -> bool {
    forall|w: W| psi(#[trigger] w.sin_of()) == sin(psi(w))
}

/// The window: the sine of a quarter turn times the square of the sine of the
/// part of a quarter turn that lies before the middle of the sample.
pub proof fn lemma_window<S: Sample>(
    phi: spec_fn(S) -> real,
    psi: spec_fn(S::Wide) -> real,
    sin: spec_fn(real) -> real,
    i: int,
)
    requires
        perfect::perfect(phi, psi),
        sines(psi, sin),
        0 <= i < 480,
    ensures
        ({
            let quarter = psi(<S::Wide as Arith>::pi_of()) / 2real;
            let s = sin(quarter * (i as real + 1real / 2real) / 480real);
            &&& common::half_window_of::<S>().len() == 480
            &&& phi(common::half_window_of::<S>()[i]) == sin(quarter * s * s)
        }),
{
    let h = <S::Wide as Arith>::frac(1, 2);
    let q = h * <S::Wide as Arith>::pi_of();
    let size = <S::Wide as Arith>::num(480);
    let at = <S::Wide as Arith>::num(i) + h;
    let quarter = psi(<S::Wide as Arith>::pi_of()) / 2real;
    assert(psi(h) == 1real / 2real);
    assert(psi(q) == quarter);
    assert(psi(size) == 480real);
    assert(psi(<S::Wide as Arith>::num(i)) == i as real);
    assert(psi(at) == i as real + 1real / 2real);
    let a = q * at / size;
    assert(psi(q * at) == quarter * (i as real + 1real / 2real));
    assert(psi(a) * 480real == psi(q * at));
    assert(psi(a) == quarter * (i as real + 1real / 2real) / 480real);
    let w = q * a.sin_of() * a.sin_of();
    assert(w == common::window_angle::<S::Wide>(i));
    assert(common::half_window_of::<S>()[i] == S::narrowed(w.sin_of()));
}

/// Every bin of the smaller network's signal path is divided by the energy of
/// the window.
pub proof fn lemma_few_normalised<S: Sample>(phi: spec_fn(S) -> real, x: Seq<Cpx<S>>, k: int)
    requires
        dft::exact(phi),
        exact::divides(phi),
        exact::counts(phi),
        phi(
            legacy_denoise::window_energy(common::half_window_of::<S>(), 960),
        ) != 0real,
        0 <= k < 481,
    ensures
        ({
            let y = legacy_denoise::normalised(x, legacy_denoise::window_norm::<S>());
            let e = phi(legacy_denoise::window_energy(common::half_window_of::<S>(), 960));
            &&& y.len() == 481
            &&& phi(y[k].r) * e == phi(x[k].r)
            &&& phi(y[k].i) * e == phi(x[k].i)
        }),
{
    perfect::lemma_zero_one(phi);
    let energy = legacy_denoise::window_energy(common::half_window_of::<S>(), 960);
    let w = legacy_denoise::window_norm::<S>();
    assert(phi(S::unit() / energy) * phi(energy) == phi(S::unit()));
    dft::lemma_assoc(phi(x[k].r), phi(w), phi(energy));
    dft::lemma_assoc(phi(x[k].i), phi(w), phi(energy));
    dft::lemma_units(phi(x[k].r));
    dft::lemma_units(phi(x[k].i));
}

/// What a call for a frame writes is what the frame puts out, sample by sample,
/// and it returns the probability of speech of the frame.
pub proof fn lemma_processed<S: Sample>(
    m: &RnnModel,
    before: StreamView<S>,
    input: Seq<S>,
    output: Seq<S>,
    after: StreamView<S>,
    written: Seq<S>,
    vad: S,
    i: int,
)
    requires
        denoise::processed(m, before, input, output, after, written, vad),
        input.len() >= 480,
        output.len() >= 480,
        0 <= i < output.len(),
    ensures
        ({
            let step = denoise::frame_step(m, before, input.take(480));
            &&& written.len() == output.len()
            &&& i < 480 ==> written[i] == step.out[i]
            &&& i >= 480 ==> written[i] == output[i]
            &&& vad == step.vad
            &&& after == step.state
        }),
{
}

/// All numbers are zero.
pub open spec fn all_zero<S: Sample>(s: Seq<S>) -> bool {
    forall|i: int| 0 <= i < s.len() ==> #[trigger] s[i] == S::nil()
}

/// All bins are zero.
pub open spec fn blank_spectrum<S: Sample>(s: Seq<Cpx<S>>) -> bool {
    forall|i: int| 0 <= i < s.len() ==> (#[trigger] s[i]).r == S::nil() && s[i].i == S::nil()
}

/// A new stream has heard nothing: all its memories are zero.
pub proof fn lemma_nothing_heard<S: Sample>()
    ensures
        ({
            let st = denoise::new_stream::<S>();
            &&& st.wf()
            &&& all_zero(st.analysis_mem)
            &&& all_zero(st.synthesis_mem)
            &&& all_zero(st.pitch_buf)
            &&& all_zero(st.lastg)
            &&& all_zero(st.delayed.ex)
            &&& all_zero(st.delayed.ep)
            &&& all_zero(st.delayed.exp)
            &&& blank_spectrum(st.delayed.x)
            &&& blank_spectrum(st.delayed.p)
            &&& all_zero(st.rnn.conv1)
            &&& all_zero(st.rnn.conv2)
            &&& all_zero(st.rnn.gru1)
            &&& all_zero(st.rnn.gru2)
            &&& all_zero(st.rnn.gru3)
            &&& st.mem_hp == (S::nil(), S::nil())
            &&& st.last_gain == S::nil()
            &&& st.last_period == 0
        }),
{
}

/// A new stream of the smaller network's signal path has heard nothing either.
pub proof fn lemma_few_nothing_heard<S: Sample>(m: legacy::ModelView)
    ensures
        ({
            let st = legacy_denoise::new_stream::<S>(m);
            &&& st.wf(m)
            &&& all_zero(st.input_mem)
            &&& all_zero(st.synthesis_mem)
            &&& all_zero(st.lastg)
            &&& forall|i: int| 0 <= i < 8 ==> all_zero(#[trigger] st.cepstral_mem[i])
            &&& all_zero(st.rnn.vad)
            &&& all_zero(st.rnn.noise)
            &&& all_zero(st.rnn.denoise)
            &&& st.mem_hp == (S::nil(), S::nil())
            &&& st.mem_id == 0
            &&& st.last_gain == S::nil()
            &&& st.last_period == 0
        }),
{
}

} // verus!
