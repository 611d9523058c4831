//! What holds of a stream of frames through the smaller network as a whole.

use vstd::prelude::*;
use crate::arith::{Arith, Sample};
use crate::common;
use crate::denoise;
use crate::dft;
use crate::exact;
use crate::fft::Cpx;
use crate::inverse;
use crate::legacy::ModelView;
use crate::legacy_denoise::StreamView;
use crate::legacy_denoise;
use crate::predictor;
use crate::{FRAME_SIZE, PITCH_BUF_SIZE, WINDOW_SIZE};

verus! {

/// The transforms undo each other, up to the length of the signal: what comes
/// back of a spectrum times `w` is the signal times `w` and its length.
pub open spec fn undoes<S: Sample>(
    phi: spec_fn(S) -> real,
    fwd: spec_fn(Seq<S>) -> Seq<Cpx<S>>,
    inv: spec_fn(Seq<Cpx<S>>) -> Seq<S>,
    w: S,
) -> bool {
    forall|v: Seq<S>, i: int|
        v.len() == WINDOW_SIZE && 0 <= i < WINDOW_SIZE ==> phi(
            #[trigger] inv(
                legacy_denoise::real_ends(legacy_denoise::normalised(fwd(v), w)),
            )[i],
        ) == 960real * (phi(w) * phi(v[i]))
}

/// Whether a frame is silent.
pub open spec fn silent<S: Sample>(
    st: StreamView<S>,
    x: Seq<S>,
    fwd: spec_fn(Seq<S>) -> Seq<Cpx<S>>,
) -> bool {
    let mid = legacy_denoise::prepared(st, x);
    let w = legacy_denoise::window_norm::<S>();
    legacy_denoise::is_silence(
        legacy_denoise::spectra_of(
            legacy_denoise::normalised(fwd(legacy_denoise::lagged(mid.input_mem, 0)), w),
            legacy_denoise::normalised(
                fwd(legacy_denoise::lagged(mid.input_mem, mid.last_period)),
                w,
            ),
        ),
    )
}

/// The filtered samples of a frame.
pub open spec fn filtered<S: Sample>(st: StreamView<S>, x: Seq<S>) -> Seq<S> {
    common::biquad_out(x, st.mem_hp, common::high_pass_b::<S>(), common::high_pass_a::<S>())
}

/// A silent frame leaves the network's state, the gains and the remembered
/// cepstra untouched, and has no speech.
pub proof fn lemma_silent_frame<S: Sample>(
    m: ModelView,
    st: StreamView<S>,
    x: Seq<S>,
    fwd: spec_fn(Seq<S>) -> Seq<Cpx<S>>,
    inv: spec_fn(Seq<Cpx<S>>) -> Seq<S>,
)
    requires
        silent(st, x, fwd),
    ensures
        ({
            let step = legacy_denoise::frame_step(m, st, x, fwd, inv);
            let mid = legacy_denoise::prepared(st, x);
            let sig = legacy_denoise::output_signal(
                inv(
                    legacy_denoise::real_ends(
                        legacy_denoise::normalised(
                            fwd(legacy_denoise::lagged(mid.input_mem, 0)),
                            legacy_denoise::window_norm::<S>(),
                        ),
                    ),
                ),
            );
            &&& step.state == (StreamView { synthesis_mem: sig.skip(FRAME_SIZE as int), ..mid })
            &&& step.state.rnn == st.rnn
            &&& step.state.lastg == st.lastg
            &&& step.state.cepstral_mem == st.cepstral_mem
            &&& step.vad == S::nil()
            &&& step.out == Seq::new(FRAME_SIZE as nat, |i: int| sig[i] + st.synthesis_mem[i])
        }),
{
    reveal(legacy_denoise::spectrum_step);
    reveal(legacy_denoise::spectra_of);
}

/// The sum of the energies of the first `n` bands.
pub open spec fn energy<S: Sample>(ex: Seq<S>, n: nat) -> S
    decreases n,
{
    if n == 0 {
        S::nil()
    } else {
        energy(ex, (n - 1) as nat) + ex[n - 1]
    }
}

proof fn lemma_energy<S: Sample>(ex: Seq<S>, n: nat)
    ensures
        legacy_denoise::log_bands(ex, n).e == energy(ex, n),
    decreases n,
{
    if n > 0 {
        lemma_energy(ex, (n - 1) as nat);
    }
}

/// A frame is silent if and only if the energies of its 22 bands sum up to less
/// than 0.04. A silent frame leaves the remembered cepstra and the next slot as
/// they are. Any other frame puts its cepstrum in the next slot, leaves all
/// other slots as they are, and moves on by one slot of 8, around the end.
pub proof fn lemma_cepstra<S: Sample>(
    m: ModelView,
    st: StreamView<S>,
    x: Seq<S>,
    fwd: spec_fn(Seq<S>) -> Seq<Cpx<S>>,
    inv: spec_fn(Seq<Cpx<S>>) -> Seq<S>,
)
    requires
        0 <= st.mem_id < legacy_denoise::CEPS_MEM,
        st.cepstral_mem.len() == legacy_denoise::CEPS_MEM,
    ensures
        ({
            let mid = legacy_denoise::prepared(st, x);
            let w = legacy_denoise::window_norm::<S>();
            let spectrum = legacy_denoise::normalised(
                fwd(legacy_denoise::lagged(mid.input_mem, 0)),
                w,
            );
            let late = legacy_denoise::normalised(
                fwd(legacy_denoise::lagged(mid.input_mem, mid.last_period)),
                w,
            );
            let ex = legacy_denoise::band_corr(spectrum, spectrum);
            let after = legacy_denoise::frame_step(m, st, x, fwd, inv).state;
            let kept = |k: int| after.cepstral_mem[k] == st.cepstral_mem[k];
            &&& silent(st, x, fwd) <==> energy(ex, 22).lt_of(S::frac(4, 100))
            &&& silent(st, x, fwd) ==> after.cepstral_mem == st.cepstral_mem && after.mem_id
                == st.mem_id
            &&& !silent(st, x, fwd) ==> {
                &&& after.cepstral_mem[st.mem_id] == legacy_denoise::cepstrum(
                    legacy_denoise::spectra_of(spectrum, late),
                )
                &&& forall|k: int| 0 <= k < 8 && k != st.mem_id ==> #[trigger] kept(k)
                &&& after.mem_id == (st.mem_id + 1) % 8
            }
            &&& after.cepstral_mem.len() == 8
            &&& 0 <= after.mem_id < 8
        }),
{
    let mid = legacy_denoise::prepared(st, x);
    let w = legacy_denoise::window_norm::<S>();
    let spectrum = legacy_denoise::normalised(fwd(legacy_denoise::lagged(mid.input_mem, 0)), w);
    lemma_energy(legacy_denoise::band_corr(spectrum, spectrum), 22);
    reveal(legacy_denoise::is_silence);
    reveal(legacy_denoise::spectrum_step);
    reveal(legacy_denoise::spectra_of);
}

/// The state of a stream after some frames.
pub open spec fn state_after<S: Sample>(
    m: ModelView,
    frames: Seq<Seq<S>>,
    fwd: spec_fn(Seq<S>) -> Seq<Cpx<S>>,
    inv: spec_fn(Seq<Cpx<S>>) -> Seq<S>,
) -> StreamView<S>
    decreases frames.len(),
{
    if frames.len() == 0 {
        legacy_denoise::new_stream::<S>(m)
    } else {
        let before = state_after(m, frames.drop_last(), fwd, inv);
        legacy_denoise::frame_step(m, before, frames.last(), fwd, inv).state
    }
}

/// How many of the frames of a stream are not silent.
pub open spec fn loud_frames<S: Sample>(
    m: ModelView,
    frames: Seq<Seq<S>>,
    fwd: spec_fn(Seq<S>) -> Seq<Cpx<S>>,
    inv: spec_fn(Seq<Cpx<S>>) -> Seq<S>,
) -> nat
    decreases frames.len(),
{
    if frames.len() == 0 {
        0
    } else {
        let rest = frames.drop_last();
        let before = state_after(m, rest, fwd, inv);
        loud_frames(m, rest, fwd, inv) + if silent(before, frames.last(), fwd) {
            0nat
        } else {
            1
        }
    }
}

/// The next slot for a cepstrum is always one of the 8: the number of frames so
/// far that were not silent, modulo 8.
pub proof fn lemma_next_slot<S: Sample>(
    m: ModelView,
    frames: Seq<Seq<S>>,
    fwd: spec_fn(Seq<S>) -> Seq<Cpx<S>>,
    inv: spec_fn(Seq<Cpx<S>>) -> Seq<S>,
)
    ensures
        state_after(m, frames, fwd, inv).mem_id == loud_frames(m, frames, fwd, inv) % 8,
        0 <= state_after(m, frames, fwd, inv).mem_id < 8,
        state_after(m, frames, fwd, inv).cepstral_mem.len() == 8,
    decreases frames.len(),
{
    if frames.len() > 0 {
        let rest = frames.drop_last();
        lemma_next_slot(m, rest, fwd, inv);
        lemma_cepstra(m, state_after(m, rest, fwd, inv), frames.last(), fwd, inv);
    }
}

/// The energy of the first samples of the window, as a sum.
proof fn lemma_window_energy<S: Sample>(phi: spec_fn(S) -> real, half: Seq<S>, n: nat)
    requires
        dft::exact(phi),
        phi(S::nil()) == 0real,
    ensures
        phi(legacy_denoise::window_energy(half, n)) == predictor::total(
            |i: int|
                phi(legacy_denoise::window_at(half, i)) * phi(legacy_denoise::window_at(half, i)),
            n,
        ),
    decreases n,
{
    let f = |i: int|
        phi(legacy_denoise::window_at(half, i)) * phi(legacy_denoise::window_at(half, i));
    if n > 0 {
        lemma_window_energy(phi, half, (n - 1) as nat);
        assert(f(n - 1) == phi(legacy_denoise::window_at(half, n - 1)) * phi(
            legacy_denoise::window_at(half, n - 1),
        ));
    }
}

/// The energy of a window that shares its power with its mirror image is that
/// of a frame of ones.
proof fn lemma_window_total<S: Sample>(phi: spec_fn(S) -> real, half: Seq<S>)
    requires
        dft::exact(phi),
        phi(S::nil()) == 0real,
        inverse::power_complementary(phi, half),
    ensures
        phi(legacy_denoise::window_energy(half, WINDOW_SIZE as nat)) == 480real,
{
    let f = |i: int|
        phi(legacy_denoise::window_at(half, i)) * phi(legacy_denoise::window_at(half, i));
    lemma_window_energy(phi, half, WINDOW_SIZE as nat);
    lemma_pairs(f, FRAME_SIZE as nat, half, phi);
    predictor::lemma_total_ones(FRAME_SIZE as nat);
}

/// Sample `i` of the window and sample `480 + i` are each other's mirror image.
proof fn lemma_pairs<S: Sample>(
    f: spec_fn(int) -> real,
    n: nat,
    half: Seq<S>,
    phi: spec_fn(S) -> real,
)
    requires
        inverse::power_complementary(phi, half),
        n == FRAME_SIZE,
        f == (|i: int|
            phi(legacy_denoise::window_at(half, i)) * phi(legacy_denoise::window_at(half, i))),
    ensures
        predictor::total(f, WINDOW_SIZE as nat) == predictor::total(|i: int| 1real, n),
{
    let late = |i: int| f(n + i);
    let one = |i: int| 1real;
    predictor::lemma_total_split(f, n, n);
    assert forall|i: int| 0 <= i < n implies #[trigger] one(i) == f(i) + 1real * late(i) by {
        let j = FRAME_SIZE - 1 - i;
        assert(legacy_denoise::window_at(half, i) == half[i]);
        assert(legacy_denoise::window_at(half, n + i) == half[j]);
        assert(phi(half[i]) * phi(half[i]) + phi(half[j]) * phi(half[j]) == 1real);
        dft::lemma_units(late(i));
    }
    predictor::lemma_total_mix(f, late, one, 1real, n);
    dft::lemma_units(predictor::total(late, n));
}

/// What a silent frame puts out of sample `i` of the window: the sample times
/// the square of the window.
proof fn lemma_put_out<S: Sample>(
    phi: spec_fn(S) -> real,
    fwd: spec_fn(Seq<S>) -> Seq<Cpx<S>>,
    inv: spec_fn(Seq<Cpx<S>>) -> Seq<S>,
    x: Seq<S>,
    i: int,
)
    requires
        dft::exact(phi),
        exact::divides(phi),
        phi(S::nil()) == 0real,
        phi(S::unit()) == 1real,
        inverse::power_complementary(phi, common::half_window_of::<S>()),
        undoes(phi, fwd, inv, legacy_denoise::window_norm::<S>()),
        0 <= i < WINDOW_SIZE,
    ensures
        ({
            let half = common::half_window_of::<S>();
            let w = legacy_denoise::window_norm::<S>();
            let y = inv(
                legacy_denoise::real_ends(
                    legacy_denoise::normalised(fwd(common::windowed(x, half)), w),
                ),
            );
            phi(legacy_denoise::output_signal(y)[i]) == phi(x[i]) * (phi(
                legacy_denoise::window_at(half, i),
            ) * phi(legacy_denoise::window_at(half, i)))
        }),
{
    let half = common::half_window_of::<S>();
    let w = legacy_denoise::window_norm::<S>();
    let energy = legacy_denoise::window_energy(half, WINDOW_SIZE as nat);
    lemma_window_total(phi, half);
    assert(phi(S::unit() / energy) * phi(energy) == phi(S::unit()));
    assert(phi(w) * 480real == 1real);
    let v = common::windowed(x, half);
    let g = legacy_denoise::window_at(half, i);
    assert(v[i] == x[i] * g);
    let y = inv(legacy_denoise::real_ends(legacy_denoise::normalised(fwd(v), w)));
    assert(phi(y[i]) == 960real * (phi(w) * phi(v[i])));
    let c = phi(v[i]);
    // 960 * (w * c) == 2 * c
    dft::lemma_comm(phi(w), c);
    dft::lemma_assoc(c, phi(w), 480real);
    dft::lemma_units(c);
    assert((c * phi(w)) * 480real == c);
    assert(phi(y[i]) == 2real * c);
    let h = phi(S::frac(1, 2));
    dft::lemma_dist(h, h, c);
    dft::lemma_comm(2real * c, h);
    dft::lemma_comm(c, h);
    dft::lemma_dist(c, c, h);
    assert(phi(y[i] * S::frac(1, 2)) == c);
    let out = legacy_denoise::output_signal(y);
    assert(out[i] == (y[i] * S::frac(1, 2)) * g);
    dft::lemma_assoc(phi(x[i]), phi(g), phi(g));
}

/// In exact arithmetic, with transforms that undo each other, a frame comes out
/// as it went in, but for the filter, one frame later, where it and the next
/// are silent.
pub proof fn lemma_pass_through<S: Sample>(
    phi: spec_fn(S) -> real,
    m: ModelView,
    st: StreamView<S>,
    x1: Seq<S>,
    x2: Seq<S>,
    fwd: spec_fn(Seq<S>) -> Seq<Cpx<S>>,
    inv: spec_fn(Seq<Cpx<S>>) -> Seq<S>,
    i: int,
)
    requires
        dft::exact(phi),
        exact::divides(phi),
        phi(S::nil()) == 0real,
        phi(S::unit()) == 1real,
        inverse::power_complementary(phi, common::half_window_of::<S>()),
        undoes(phi, fwd, inv, legacy_denoise::window_norm::<S>()),
        st.wf(m),
        x1.len() == FRAME_SIZE,
        x2.len() == FRAME_SIZE,
        silent(st, x1, fwd),
        silent(legacy_denoise::frame_step(m, st, x1, fwd, inv).state, x2, fwd),
        0 <= i < FRAME_SIZE,
    ensures
        ({
            let s1 = legacy_denoise::frame_step(m, st, x1, fwd, inv).state;
            phi(legacy_denoise::frame_step(m, s1, x2, fwd, inv).out[i]) == phi(
                filtered(st, x1)[i],
            )
        }),
{
    let half = common::half_window_of::<S>();
    let s1 = legacy_denoise::frame_step(m, st, x1, fwd, inv).state;
    let f1 = filtered(st, x1);
    let f2 = filtered(s1, x2);
    lemma_silent_frame(m, st, x1, fwd, inv);
    lemma_silent_frame(m, s1, x2, fwd, inv);
    let mem1 = denoise::shifted(st.input_mem, f1);
    let mem2 = denoise::shifted(mem1, f2);
    let start = PITCH_BUF_SIZE - WINDOW_SIZE;
    let two1 = mem1.subrange(start, start + WINDOW_SIZE);
    let two2 = mem2.subrange(start, start + WINDOW_SIZE);
    assert(legacy_denoise::prepared(st, x1).input_mem == mem1);
    assert(s1.input_mem == mem1);
    assert(legacy_denoise::prepared(s1, x2).input_mem == mem2);
    assert(two1[FRAME_SIZE + i] == f1[i]);
    assert(two2[i] == f1[i]);
    lemma_put_out(phi, fwd, inv, two1, FRAME_SIZE + i);
    lemma_put_out(phi, fwd, inv, two2, i);
    let j = FRAME_SIZE - 1 - i;
    assert(legacy_denoise::window_at(half, FRAME_SIZE + i) == half[j]);
    assert(legacy_denoise::window_at(half, i) == half[i]);
    let v = phi(f1[i]);
    let (p, q) = (phi(half[i]) * phi(half[i]), phi(half[j]) * phi(half[j]));
    assert(p + q == 1real);
    dft::lemma_dist(p, q, v);
    dft::lemma_units(v);
}

} // verus!
