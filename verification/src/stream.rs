//! What holds of a stream of frames as a whole.

use vstd::prelude::*;
use crate::arith::{Arith, Sample, SampleArith};
use crate::bands;
use crate::common;
use crate::denoise::{FrameStep, StreamView};
use crate::denoise;
use crate::factor;
use crate::fft::Cpx;
use crate::fft;
use crate::inverse;
use crate::layer::LayerView;
use crate::model::RnnModel;
use crate::model;
use crate::nnet::Activation;
use crate::nnet;
use crate::rnn;
use crate::{EBAND20MS, FRAME_SIZE, FREQ_SIZE, NB_BANDS, WINDOW_SIZE};

verus! {

/// The steps of a stream of frames, one after another.
pub open spec fn steps<S: Sample>(
    m: &RnnModel,
    st: StreamView<S>,
    frames: Seq<Seq<S>>,
) -> Seq<FrameStep<S>>
    decreases frames.len(),
{
    if frames.len() == 0 {
        Seq::empty()
    } else {
        let before = steps(m, st, frames.drop_last());
        before.push(denoise::frame_step(m, state_after(st, before), frames.last()))
    }
}

/// The state after some steps.
pub open spec fn state_after<S: Sample>(
    st: StreamView<S>,
    done: Seq<FrameStep<S>>,
) -> StreamView<S> {
    if done.len() == 0 {
        st
    } else {
        done.last().state
    }
}

/// Every frame takes one step.
proof fn lemma_steps_len<S: Sample>(m: &RnnModel, st: StreamView<S>, frames: Seq<Seq<S>>)
    ensures
        steps(m, st, frames).len() == frames.len(),
    decreases frames.len(),
{
    if frames.len() > 0 {
        lemma_steps_len(m, st, frames.drop_last());
    }
}

/// A stream can be processed in pieces: the frames of the second piece take the
/// steps that they take in the whole stream.
pub proof fn lemma_steps_in_pieces<S: Sample>(
    m: &RnnModel,
    st: StreamView<S>,
    a: Seq<Seq<S>>,
    b: Seq<Seq<S>>,
)
    ensures
        steps(m, st, a + b) == steps(m, st, a) + steps(
            m,
            state_after(st, steps(m, st, a)),
            b,
        ),
    decreases b.len(),
{
    let first = steps(m, st, a);
    let mid = state_after(st, first);
    if b.len() == 0 {
        assert(a + b == a);
        assert(first + steps(m, mid, b) == first);
    } else {
        let b0 = b.drop_last();
        lemma_steps_in_pieces(m, st, a, b0);
        assert((a + b).drop_last() == a + b0);
        assert((a + b).last() == b.last());
        let second = steps(m, mid, b0);
        let all = first + second;
        assert(state_after(st, all) == state_after(mid, second)) by {
            if second.len() > 0 {
                assert(all.last() == second.last());
            } else {
                assert(all == first);
            }
        }
        let last = denoise::frame_step(m, state_after(mid, second), b.last());
        assert(all.push(last) == first + second.push(last));
    }
}

/// The filtered samples of a frame.
pub open spec fn filtered<S: Sample>(st: StreamView<S>, x: Seq<S>) -> Seq<S> {
    common::biquad_out(x, st.mem_hp, common::high_pass_b::<S>(), common::high_pass_a::<S>())
}

/// Whether a frame is silent.
pub open spec fn silent<S: Sample>(st: StreamView<S>, x: Seq<S>) -> bool {
    denoise::is_silence(denoise::analysis_step(st, filtered(st, x)).0)
}

/// A silent frame leaves the network's state and the gains untouched, has no
/// speech, and has the spectrum of the previous frame put out as it is; its own
/// spectrum is remembered as that of any frame.
pub proof fn lemma_silent_frame<S: Sample>(m: &RnnModel, st: StreamView<S>, x: Seq<S>)
    requires
        silent(st, x),
    ensures
        ({
            let step = denoise::frame_step(m, st, x);
            let sig = denoise::windowed_signal(st.delayed.x);
            &&& step.state.rnn == st.rnn
            &&& step.state.lastg == st.lastg
            &&& step.vad == S::nil()
            &&& step.out == Seq::new(FRAME_SIZE as nat, |i: int| sig[i] + st.synthesis_mem[i])
            &&& step.state.delayed == denoise::analysis_step(st, filtered(st, x)).0
        }),
{
}

/// What a frame puts out does not depend on the frame itself where it is
/// silent, nor on the model.
pub proof fn lemma_silent_output<S: Sample>(
    m1: &RnnModel,
    m2: &RnnModel,
    st: StreamView<S>,
    x1: Seq<S>,
    x2: Seq<S>,
)
    requires
        silent(st, x1),
        silent(st, x2),
    ensures
        denoise::frame_step(m1, st, x1).out == denoise::frame_step(m2, st, x2).out,
{
    lemma_silent_frame(m1, st, x1);
    lemma_silent_frame(m2, st, x2);
}

/// In exact arithmetic, frames between silent ones come out as they went in,
/// but for the filter: what the third of three frames puts out is the first,
/// where the second and the third are silent. The look-ahead and the overlap of
/// the windows account for one frame each.
pub proof fn lemma_pass_through<S: Sample>(
    phi: spec_fn(S) -> real,
    m: &RnnModel,
    st: StreamView<S>,
    x1: Seq<S>,
    x2: Seq<S>,
    x3: Seq<S>,
    i: int,
)
    requires
        inverse::ideal(phi),
        inverse::power_complementary(phi, common::half_window_of::<S>()),
        st.wf(),
        x1.len() == FRAME_SIZE,
        x2.len() == FRAME_SIZE,
        x3.len() == FRAME_SIZE,
        ({
            let s1 = denoise::frame_step(m, st, x1).state;
            let s2 = denoise::frame_step(m, s1, x2).state;
            silent(s1, x2) && silent(s2, x3)
        }),
        0 <= i < FRAME_SIZE,
    ensures
        ({
            let s1 = denoise::frame_step(m, st, x1).state;
            let s2 = denoise::frame_step(m, s1, x2).state;
            phi(denoise::frame_step(m, s2, x3).out[i]) == phi(filtered(st, x1)[i])
        }),
{
    reveal(denoise::analysed);
    let s1 = denoise::frame_step(m, st, x1).state;
    let s2 = denoise::frame_step(m, s1, x2).state;
    let f1 = filtered(st, x1);
    let f2 = filtered(s1, x2);
    lemma_silent_frame(m, s1, x2);
    lemma_silent_frame(m, s2, x3);
    assert(s1.analysis_mem == f1);
    assert(s1.delayed.x == denoise::windowed_spectrum(st.analysis_mem + f1));
    assert(s2.delayed.x == denoise::windowed_spectrum(f1 + f2));
    let early = denoise::windowed_signal(s1.delayed.x);
    assert(early.len() == WINDOW_SIZE) by {
        reveal(denoise::windowed_signal);
    }
    assert(s2.synthesis_mem == early.skip(FRAME_SIZE as int));
    assert(s2.synthesis_mem[i] == early[FRAME_SIZE + i]);
    inverse::lemma_overlap_add(phi, st.analysis_mem, f1, f2, i);
}

/// Nothing is put out above the last band: the gains of its bins are zero.
pub proof fn lemma_bins_above<S: Sample>(e: Seq<S>, k: int)
    requires
        400 <= k < FREQ_SIZE,
    ensures
        common::bin_gains(e).len() == FREQ_SIZE,
        common::bin_gains(e)[k] == S::nil(),
{
    common::lemma_edges();
    bands::lemma_ramps(EBAND20MS@, e, 1, (NB_BANDS - 1) as nat);
}

/// A number between zero and one.
pub open spec fn unitary<S: Sample>(a: S) -> bool {
    S::nil().le_of(a) && a.le_of(S::unit())
}

/// The arithmetic keeps order where the activations rely on it: limiting to one
/// and to minus one does so, and the way from there to the range from zero to
/// one stays inside that range.
pub open spec fn ordered<S: Sample>() -> bool {
    let half = S::frac(1, 2);
    &&& forall|a: S| (#[trigger] a.min_of(S::unit())).le_of(S::unit())
    &&& forall|a: S| S::num(-1).le_of(#[trigger] a.max_of(S::num(-1)))
    &&& forall|a: S|
        a.le_of(S::unit()) ==> (#[trigger] a.max_of(S::num(-1))).le_of(S::unit())
    &&& forall|t: S|
        S::num(-1).le_of(t) && t.le_of(S::unit()) ==> {
            let y = half + #[trigger] (half * t);
            S::nil().le_of(y) && y.le_of(S::unit())
        }
    &&& S::nil().le_of(S::nil())
    &&& S::nil().le_of(S::unit())
}

/// The approximations of the activations keep to the ranges of the functions
/// that they approximate.
pub proof fn lemma_activation_ranges<S: Sample>(x: S)
    requires
        ordered::<S>(),
    ensures
        S::num(-1).le_of(nnet::tanh_of(x)),
        nnet::tanh_of(x).le_of(S::unit()),
        S::nil().le_of(nnet::sigmoid_of(x)),
        nnet::sigmoid_of(x).le_of(S::unit()),
{
    lemma_tanh_range(x);
    lemma_tanh_range(S::frac(1, 2) * x);
}

proof fn lemma_tanh_range<S: Sample>(x: S)
    requires
        ordered::<S>(),
    ensures
        S::num(-1).le_of(nnet::tanh_of(x)),
        nnet::tanh_of(x).le_of(S::unit()),
{
}

/// The probability of speech is between zero and one.
pub proof fn lemma_vad_range<S: Sample>(m: &RnnModel, st: StreamView<S>, x: Seq<S>)
    requires
        ordered::<S>(),
        m.wf(),
    ensures
        S::nil().le_of(denoise::frame_step(m, st, x).vad),
        denoise::frame_step(m, st, x).vad.le_of(S::unit()),
{
    if !silent(st, x) {
        let (frame, found) = denoise::analysis_step(st, filtered(st, x));
        let features = denoise::features_of(frame, found.period);
        lemma_network_ranges(m, st.rnn, features, 0);
        reveal(denoise::suppressed);
    }
}

/// The gains that the network predicts, and the probability of speech, are
/// between zero and one.
pub proof fn lemma_network_ranges<S: Sample>(
    m: &RnnModel,
    st: rnn::RnnView<S>,
    features: Seq<S>,
    b: int,
)
    requires
        ordered::<S>(),
        m.wf(),
        0 <= b < NB_BANDS,
    ensures
        ({
            let step = rnn::rnn_step(m, st, features);
            &&& step.gains.len() == NB_BANDS
            &&& S::nil().le_of(step.gains[b])
            &&& step.gains[b].le_of(S::unit())
            &&& S::nil().le_of(step.vad)
            &&& step.vad.le_of(S::unit())
        }),
{
    let l = model::layers_of(m);
    assert(l[8] == m.dense_out@ && l[9] == m.vad_dense@);
    let hist1 = m.conv1@.nb_inputs - rnn::CONV1_IN;
    let hist2 = m.conv2@.nb_inputs - rnn::CONV2_IN;
    let in1 = nnet::conv_input(st.conv1, features, rnn::CONV1_IN as int, hist1);
    let c1 = nnet::dense(m.conv1@, in1, Activation::Tanh);
    let in2 = nnet::conv_input(st.conv2, c1, rnn::CONV2_IN as int, hist2);
    let c2 = nnet::dense(m.conv2@, in2, Activation::Tanh);
    let g1 = nnet::gru(m.gru1_input@, m.gru1_recurrent@, st.gru1, c2);
    let g2 = nnet::gru(m.gru2_input@, m.gru2_recurrent@, st.gru2, g1);
    let g3 = nnet::gru(m.gru3_input@, m.gru3_recurrent@, st.gru3, g2);
    let cat = c2 + g1 + g2 + g3;
    lemma_activation_ranges(nnet::affine(m.dense_out@, cat)[b]);
    lemma_activation_ranges(nnet::affine(m.vad_dense@, cat)[0]);
}

/// Only the first 480 samples of longer buffers are used: a call with longer
/// buffers gives the same state, the same probability and the same first 480
/// samples as one with just these, and leaves the rest of its output as it was.
pub proof fn lemma_longer_buffers<S: Sample>(
    m: &RnnModel,
    st: StreamView<S>,
    input: Seq<S>,
    long: (Seq<S>, StreamView<S>, Seq<S>, S),
    short: (Seq<S>, StreamView<S>, Seq<S>, S),
)
    requires
        FRAME_SIZE <= input.len(),
        FRAME_SIZE <= long.0.len(),
        short.0.len() == FRAME_SIZE,
        denoise::processed(m, st, input, long.0, long.1, long.2, long.3),
        denoise::processed(
            m,
            st,
            input.take(FRAME_SIZE as int),
            short.0,
            short.1,
            short.2,
            short.3,
        ),
    ensures
        long.1 == short.1,
        long.2.take(FRAME_SIZE as int) == short.2,
        long.2.skip(FRAME_SIZE as int) == long.0.skip(FRAME_SIZE as int),
        long.3 == short.3,
{
    let head = input.take(FRAME_SIZE as int);
    assert(head.take(FRAME_SIZE as int) == head);
    let step = denoise::frame_step(m, st, head);
    assert(step.out.len() == FRAME_SIZE);
    assert(short.0.skip(FRAME_SIZE as int) == Seq::<S>::empty());
    assert(short.2 == step.out);
}

/// A frame depends on the layers of the model alone.
proof fn lemma_same_layers<S: Sample>(
    m1: &RnnModel,
    m2: &RnnModel,
    st: StreamView<S>,
    x: Seq<S>,
)
    requires
        model::layers_of(m1) == model::layers_of(m2),
    ensures
        denoise::frame_step(m1, st, x) == denoise::frame_step(m2, st, x),
{
    let (a, b) = (model::layers_of(m1), model::layers_of(m2));
    assert(a[0] == b[0] && a[1] == b[1] && a[2] == b[2] && a[3] == b[3] && a[4] == b[4] && a[5]
        == b[5] && a[6] == b[6] && a[7] == b[7] && a[8] == b[8] && a[9] == b[9]);
    let (frame, found) = denoise::analysis_step(st, filtered(st, x));
    let features = denoise::features_of(frame, found.period);
    assert(rnn::rnn_step(m1, st.rnn, features) == rnn::rnn_step(m2, st.rnn, features));
    assert(denoise::suppressed(m1, st.rnn, st.lastg, st.delayed, frame.ex, features)
        == denoise::suppressed(m2, st.rnn, st.lastg, st.delayed, frame.ex, features)) by {
        reveal(denoise::suppressed);
    }
}

/// Two denoisers over equal models, each with its own copy or both with one,
/// take the same steps on the same frames: they put out the same samples and
/// the same probabilities.
pub proof fn lemma_same_streams<S: Sample>(
    m1: &RnnModel,
    m2: &RnnModel,
    st: StreamView<S>,
    frames: Seq<Seq<S>>,
)
    requires
        model::layers_of(m1) == model::layers_of(m2),
    ensures
        steps(m1, st, frames) == steps(m2, st, frames),
    decreases frames.len(),
{
    if frames.len() > 0 {
        lemma_same_streams(m1, m2, st, frames.drop_last());
        let before = steps(m1, st, frames.drop_last());
        lemma_same_layers(m1, m2, state_after(st, before), frames.last());
    }
}

/// A call among those of several denoisers: which one is called, and its frame.
pub struct Call<S> {
    pub who: int,
    pub frame: Seq<S>,
}

/// The frames of the calls of one denoiser.
pub open spec fn own_frames<S>(calls: Seq<Call<S>>, who: int) -> Seq<Seq<S>>
    decreases calls.len(),
{
    if calls.len() == 0 {
        Seq::empty()
    } else {
        let before = own_frames(calls.drop_last(), who);
        if calls.last().who == who {
            before.push(calls.last().frame)
        } else {
            before
        }
    }
}

/// The states of several denoisers after some calls: each call changes the
/// state of the denoiser that is called.
pub open spec fn states_after<S: Sample>(
    models: Seq<RnnModel>,
    start: Seq<StreamView<S>>,
    calls: Seq<Call<S>>,
) -> Seq<StreamView<S>>
    decreases calls.len(),
{
    if calls.len() == 0 {
        start
    } else {
        let before = states_after(models, start, calls.drop_last());
        let c = calls.last();
        before.update(c.who, denoise::frame_step(&models[c.who], before[c.who], c.frame).state)
    }
}

/// A denoiser depends on its own frames alone, whatever other denoisers are
/// called in between: its state is the one after the steps of its own frames,
/// and a call puts out what the last of these steps does.
pub proof fn lemma_interleaved<S: Sample>(
    models: Seq<RnnModel>,
    start: Seq<StreamView<S>>,
    calls: Seq<Call<S>>,
    who: int,
)
    requires
        models.len() == start.len(),
        forall|i: int| 0 <= i < calls.len() ==> 0 <= (#[trigger] calls[i]).who < start.len(),
        0 <= who < start.len(),
    ensures
        states_after(models, start, calls).len() == start.len(),
        states_after(models, start, calls)[who] == state_after(
            start[who],
            steps(&models[who], start[who], own_frames(calls, who)),
        ),
        calls.len() > 0 && calls.last().who == who ==> denoise::frame_step(
            &models[who],
            states_after(models, start, calls.drop_last())[who],
            calls.last().frame,
        ) == steps(&models[who], start[who], own_frames(calls, who)).last(),
    decreases calls.len(),
{
    if calls.len() > 0 {
        let rest = calls.drop_last();
        let c = calls.last();
        assert(c == calls[calls.len() - 1]);
        assert forall|i: int| 0 <= i < rest.len() implies 0 <= (#[trigger] rest[i]).who
            < start.len() by {
            assert(rest[i] == calls[i]);
        }
        lemma_interleaved(models, start, rest, who);
        if c.who == who {
            let own = own_frames(rest, who);
            assert(own_frames(calls, who) == own.push(c.frame));
            assert(own.push(c.frame).drop_last() == own);
        }
    }
}

/// The probability of speech is between zero and one in every frame of a
/// stream.
pub proof fn lemma_every_vad<S: Sample>(
    m: &RnnModel,
    st: StreamView<S>,
    frames: Seq<Seq<S>>,
    k: int,
)
    requires
        ordered::<S>(),
        m.wf(),
        0 <= k < frames.len(),
    ensures
        unitary(steps(m, st, frames)[k].vad),
    decreases frames.len(),
{
    let rest = frames.drop_last();
    lemma_steps_len(m, st, rest);
    let before = steps(m, st, rest);
    if k < rest.len() {
        lemma_every_vad(m, st, rest, k);
        assert(steps(m, st, frames)[k] == before[k]);
    } else {
        lemma_vad_range(m, state_after(st, before), frames.last());
    }
}

/// A number between minus one and one.
pub open spec fn signed_unit<S: Sample>(a: S) -> bool {
    S::num(-1).le_of(a) && a.le_of(S::unit())
}

/// Numbers between minus one and one that are mixed in shares that make one
/// stay in that range. Floating-point numbers do this.
pub open spec fn blends<S: Sample>() -> bool {
    &&& signed_unit(S::nil())
    &&& forall|z: S, s: S, h: S|
        unitary(z) && signed_unit(s) && signed_unit(h) ==> signed_unit(
            #[trigger] (z * s + (S::unit() - z) * h),
        )
}

/// All numbers lie between minus one and one.
pub open spec fn all_signed_unit<S: Sample>(s: Seq<S>) -> bool {
    forall|i: int| 0 <= i < s.len() ==> signed_unit(#[trigger] s[i])
}

/// The state of a recurrent unit stays between minus one and one.
proof fn lemma_gru_range<S: Sample>(
    input_w: LayerView,
    recurrent_w: LayerView,
    state: Seq<S>,
    x: Seq<S>,
)
    requires
        ordered::<S>(),
        blends::<S>(),
        all_signed_unit(state),
    ensures
        all_signed_unit(nnet::gru(input_w, recurrent_w, state, x)),
{
    let out = nnet::gru(input_w, recurrent_w, state, x);
    let n = recurrent_w.nb_inputs as int;
    let zi = nnet::affine(input_w, x);
    let rc = nnet::affine(recurrent_w, state);
    assert forall|i: int| 0 <= i < out.len() implies signed_unit(#[trigger] out[i]) by {
        assert(signed_unit(state[i]));
        if i < n {
            let z = nnet::update_gate(zi, rc, i);
            let h = nnet::candidate(zi, rc, n, i);
            lemma_activation_ranges(zi[i] + rc[i]);
            lemma_activation_ranges(
                zi[2 * n + i] + rc[2 * n + i] * nnet::reset_gate(zi, rc, n, i),
            );
            assert(out[i] == z * state[i] + (S::unit() - z) * h);
        }
    }
}

/// The states of the recurrent units lie between minus one and one.
pub open spec fn states_in_range<S: Sample>(st: rnn::RnnView<S>) -> bool {
    &&& all_signed_unit(st.gru1)
    &&& all_signed_unit(st.gru2)
    &&& all_signed_unit(st.gru3)
}

/// A step of the network keeps the states of the recurrent units between minus
/// one and one.
pub proof fn lemma_states_kept<S: Sample>(m: &RnnModel, st: rnn::RnnView<S>, x: Seq<S>)
    requires
        ordered::<S>(),
        blends::<S>(),
        states_in_range(st),
    ensures
        states_in_range(rnn::rnn_step(m, st, x).state),
{
    let hist1 = m.conv1@.nb_inputs - rnn::CONV1_IN;
    let hist2 = m.conv2@.nb_inputs - rnn::CONV2_IN;
    let in1 = nnet::conv_input(st.conv1, x, rnn::CONV1_IN as int, hist1);
    let c1 = nnet::dense(m.conv1@, in1, Activation::Tanh);
    let in2 = nnet::conv_input(st.conv2, c1, rnn::CONV2_IN as int, hist2);
    let c2 = nnet::dense(m.conv2@, in2, Activation::Tanh);
    let g1 = nnet::gru(m.gru1_input@, m.gru1_recurrent@, st.gru1, c2);
    let g2 = nnet::gru(m.gru2_input@, m.gru2_recurrent@, st.gru2, g1);
    lemma_gru_range(m.gru1_input@, m.gru1_recurrent@, st.gru1, c2);
    lemma_gru_range(m.gru2_input@, m.gru2_recurrent@, st.gru2, g1);
    lemma_gru_range(m.gru3_input@, m.gru3_recurrent@, st.gru3, g2);
}

/// The network after some frames of features.
pub open spec fn network_after<S: Sample>(
    m: &RnnModel,
    st: rnn::RnnView<S>,
    features: Seq<Seq<S>>,
) -> rnn::RnnView<S>
    decreases features.len(),
{
    if features.len() == 0 {
        st
    } else {
        rnn::rnn_step(m, network_after(m, st, features.drop_last()), features.last()).state
    }
}

/// The states of the recurrent units stay between minus one and one, from the
/// fresh network on and for any number of steps.
pub proof fn lemma_states_range<S: Sample>(m: &RnnModel, features: Seq<Seq<S>>)
    requires
        ordered::<S>(),
        blends::<S>(),
    ensures
        states_in_range(network_after(m, rnn::fresh::<S>(), features)),
    decreases features.len(),
{
    if features.len() > 0 {
        lemma_states_range(m, features.drop_last());
        let st = network_after(m, rnn::fresh::<S>(), features.drop_last());
        lemma_states_kept(m, st, features.last());
    }
}

/// The gain of a band never falls below 0.6 times what is left of its last one,
/// and smoothing never lowers it.
pub proof fn lemma_gain_floor<S: Sample>(g: S, last: S)
    requires
        forall|a: S, b: S|
            a.le_of(#[trigger] a.max_of(b)) && b.le_of(a.max_of(b)),
    ensures
        (S::frac(6, 10) * last).le_of(denoise::smoothed(g, last)),
        g.le_of(denoise::smoothed(g, last)),
{
}

/// Numbers that count as zero, and numbers that are finite. Zero counts as
/// zero, and so do sums, differences and negations of numbers that do, and
/// their products with finite numbers. What counts as zero is finite, and so is
/// what lies between zero and one.
pub open spec fn vanishing<S: Sample>(z: spec_fn(S) -> bool, fin: spec_fn(S) -> bool) -> bool {
    &&& z(S::nil())
    &&& forall|a: S, b: S| z(a) && z(b) ==> #[trigger] z(a + b)
    &&& forall|a: S, b: S| z(a) && z(b) ==> #[trigger] z(a - b)
    &&& forall|a: S, b: S| z(a) && fin(b) ==> #[trigger] z(a * b)
    &&& forall|a: S, b: S| fin(a) && z(b) ==> #[trigger] z(a * b)
    &&& forall|a: S| z(a) ==> #[trigger] z(-a)
    &&& forall|a: S| z(a) ==> #[trigger] fin(a)
    &&& forall|a: S| #[trigger] unitary(a) ==> fin(a)
}

/// All parts of a list of complex numbers are finite.
pub open spec fn finite_bins<S: Sample>(fin: spec_fn(S) -> bool, f: Seq<Cpx<S>>) -> bool {
    forall|i: int| 0 <= i < f.len() ==> fin((#[trigger] f[i]).r) && fin(f[i].i)
}

/// The constants of the inverse transform are finite: its roots of unity, its
/// scale, the factors of its butterflies and the samples of the window.
pub open spec fn finite_tables<S: Sample>(fin: spec_fn(S) -> bool) -> bool {
    let half = common::half_window_of::<S>();
    &&& finite_bins(fin, fft::roots::<S>(WINDOW_SIZE as int))
    &&& fin(fft::scale_of::<S>(WINDOW_SIZE as int))
    &&& fin(S::num(WINDOW_SIZE as int))
    &&& fin(S::frac(1, 2))
    &&& fin(S::frac(70710677, 100000000))
    &&& forall|i: int| 0 <= i < FRAME_SIZE ==> fin(#[trigger] half[i])
}

/// The arithmetic of gains and energies near zero: a bin's share of its band is
/// finite, a gain that runs between two numbers from zero to one is finite, the
/// limits of the comb filter keep to that range, and so does the root of no
/// energy over next to none.
pub open spec fn tame<S: Sample>(z: spec_fn(S) -> bool, fin: spec_fn(S) -> bool) -> bool {
    &&& fin(S::num(2))
    &&& forall|a: S| z(a) ==> z(#[trigger] (a / S::num(3)))
    &&& forall|j: int, n: nat|
        0 <= j < n <= 1000 ==> fin(#[trigger] bands::share::<S>(j, n)) && fin(
            S::unit() - bands::share::<S>(j, n),
        )
    &&& forall|a: S, b: S, j: int, n: nat|
        unitary(a) && unitary(b) && 0 <= j < n <= 1000 ==> fin(#[trigger] bands::ramp(a, b, n)[j])
    &&& forall|a: S| unitary(#[trigger] a.min_of(S::unit()).max_of(S::nil()))
    &&& forall|a: S|
        unitary(a) ==> unitary(#[trigger] S::narrowed(a.wide().sqrt_of()))
    &&& forall|a: S|
        unitary(a) ==> unitary(
            #[trigger] S::narrowed(a.wide() * denoise::energy_ratio(S::nil(), S::nil())),
        )
    &&& forall|e: S|
        z(e) ==> unitary(#[trigger] S::narrowed(denoise::energy_ratio(S::nil(), e)))
    &&& forall|g: S| unitary(g) ==> unitary(#[trigger] denoise::smoothed(g, S::nil()))
}

/// A complex number whose parts count as zero.
pub open spec fn blank_bin<S: Sample>(z: spec_fn(S) -> bool, c: Cpx<S>) -> bool {
    z(c.r) && z(c.i)
}

/// A spectrum of which nothing is left.
pub open spec fn blank_bins<S: Sample>(z: spec_fn(S) -> bool, f: Seq<Cpx<S>>) -> bool {
    forall|i: int| 0 <= i < f.len() ==> blank_bin(z, #[trigger] f[i])
}

/// A stage makes nothing out of nothing.
proof fn lemma_blank_stage<S: Sample>(
    z: spec_fn(S) -> bool,
    fin: spec_fn(S) -> bool,
    f: Seq<Cpx<S>>,
    p: int,
    m: int,
    stride: int,
    tw: Seq<Cpx<S>>,
)
    requires
        vanishing(z, fin),
        finite_tables(fin),
        finite_bins(fin, tw),
        2 <= p <= 5,
        m >= 1,
        stride >= 1,
        f.len() == stride * (p * m),
        tw.len() == f.len(),
        blank_bins(z, f),
    ensures
        blank_bins(z, fft::staged(f, p, m, stride, tw)),
{
    let out = fft::staged(f, p, m, stride, tw);
    assert forall|k: int| 0 <= k < out.len() implies blank_bin(z, #[trigger] out[k]) by {
        fft::lemma_number(k, p, m, stride);
        let c = fft::number_of(k, p, m);
        let x = fft::legs(f, c, p, m);
        assert forall|j: int| 0 <= j < p implies blank_bin(z, #[trigger] x[j]) by {
            fft::lemma_leg(c, j, p, m, stride);
        }
        lemma_blank_butterfly(z, fin, x, p, m, stride, k % m, tw, fft::leg_of(k, p, m));
    }
}

/// Turning by a root of unity keeps nothing nothing.
proof fn lemma_blank_turn<S: Sample>(
    z: spec_fn(S) -> bool,
    fin: spec_fn(S) -> bool,
    x: Cpx<S>,
    tw: Seq<Cpx<S>>,
    k: int,
)
    requires
        vanishing(z, fin),
        finite_bins(fin, tw),
        0 <= k < tw.len(),
        blank_bin(z, x),
    ensures
        blank_bin(z, x * tw[k]),
{
    let w = tw[k];
    assert(fin(w.r) && fin(w.i));
    assert(z(x.r * w.r) && z(x.i * w.i) && z(x.r * w.i) && z(x.i * w.r));
}

/// The roots that a butterfly uses are in the table.
proof fn lemma_root_index(p: int, m: int, stride: int, u: int, j: int)
    requires
        m >= 1,
        stride >= 1,
        0 <= u < m,
        0 <= j < p,
    ensures
        0 <= j * (u * stride) < stride * (p * m),
        0 <= j * (m * stride) < stride * (p * m),
{
    assert(0 <= u * stride <= m * stride) by (nonlinear_arith)
        requires
            0 <= u < m,
            stride >= 1,
    ;
    let s = u * stride;
    let t = m * stride;
    assert(t >= 1) by (nonlinear_arith)
        requires
            m >= 1,
            stride >= 1,
            t == m * stride,
    ;
    assert(0 <= j * s <= j * t < p * t) by (nonlinear_arith)
        requires
            0 <= s <= t,
            t >= 1,
            0 <= j < p,
    ;
    assert(p * (m * stride) == stride * (p * m)) by (nonlinear_arith);
}

/// A butterfly makes nothing out of nothing.
proof fn lemma_blank_butterfly<S: Sample>(
    z: spec_fn(S) -> bool,
    fin: spec_fn(S) -> bool,
    x: Seq<Cpx<S>>,
    p: int,
    m: int,
    stride: int,
    u: int,
    tw: Seq<Cpx<S>>,
    q: int,
)
    requires
        vanishing(z, fin),
        finite_tables(fin),
        finite_bins(fin, tw),
        2 <= p <= 5,
        m >= 1,
        stride >= 1,
        0 <= u < m,
        tw.len() == stride * (p * m),
        x.len() == p,
        0 <= q < p,
        forall|j: int| 0 <= j < p ==> blank_bin(z, #[trigger] x[j]),
    ensures
        blank_bin(z, fft::butterfly(x, p, m, stride, u, tw)[q]),
{
    assert(blank_bin(z, x[0]) && blank_bin(z, x[1]));
    lemma_root_index(p, m, stride, u, 1);
    if p > 2 {
        lemma_root_index(p, m, stride, u, 2);
        assert(blank_bin(z, x[2]));
        lemma_blank_turn(z, fin, x[1], tw, u * stride);
        lemma_blank_turn(z, fin, x[2], tw, 2 * (u * stride));
        assert(fin(tw[m * stride].r) && fin(tw[m * stride].i));
    }
    if p > 3 {
        lemma_root_index(p, m, stride, u, 3);
        assert(blank_bin(z, x[3]));
        lemma_blank_turn(z, fin, x[3], tw, 3 * (u * stride));
    }
    if p > 4 {
        lemma_root_index(p, m, stride, u, 4);
        assert(blank_bin(z, x[4]));
        lemma_blank_turn(z, fin, x[4], tw, 4 * (u * stride));
        assert(fin(tw[2 * (m * stride)].r) && fin(tw[2 * (m * stride)].i));
    }
}

/// The stages make nothing out of nothing.
proof fn lemma_blank_run<S: Sample>(
    z: spec_fn(S) -> bool,
    fin: spec_fn(S) -> bool,
    f: Seq<Cpx<S>>,
    radix: Seq<int>,
    i: nat,
    tw: Seq<Cpx<S>>,
)
    requires
        vanishing(z, fin),
        finite_tables(fin),
        finite_bins(fin, tw),
        tw.len() == f.len(),
        i <= radix.len(),
        factor::runnable(radix, f.len() as int),
        blank_bins(z, f),
    ensures
        blank_bins(z, fft::run(f, radix, i, tw)),
        fft::run(f, radix, i, tw).len() == f.len(),
    decreases i,
{
    if i > 0 {
        assert(forall|k: int| 0 <= k < radix.len() ==> 1 <= #[trigger] radix[k]);
        factor::lemma_stage(radix, i - 1);
        let p = radix[i - 1];
        let m = factor::product(radix.skip(i as int));
        let t = factor::product(radix.take(i - 1));
        lemma_blank_stage(z, fin, f, p, m, t, tw);
        lemma_blank_run(z, fin, fft::staged(f, p, m, t, tw), radix, (i - 1) as nat, tw);
    }
}

/// A spectrum of which nothing is left has an empty signal.
proof fn lemma_blank_signal<S: Sample>(
    z: spec_fn(S) -> bool,
    fin: spec_fn(S) -> bool,
    x: Seq<Cpx<S>>,
)
    requires
        vanishing(z, fin),
        finite_tables(fin),
        x.len() == FREQ_SIZE,
        blank_bins(z, x),
    ensures
        denoise::windowed_signal(x).len() == WINDOW_SIZE,
        forall|i: int| 0 <= i < WINDOW_SIZE ==> z(#[trigger] denoise::windowed_signal(x)[i]),
{
    reveal(denoise::windowed_signal);
    common::lemma_window_plan();
    let n = WINDOW_SIZE as int;
    factor::lemma_plan(n);
    let radix = factor::order(n);
    let full = common::mirrored(x);
    assert(blank_bins(z, full)) by {
        assert forall|i: int| 0 <= i < n implies blank_bin(z, #[trigger] full[i]) by {
            if i >= FREQ_SIZE {
                assert(blank_bin(z, x[n - i]));
            } else {
                assert(blank_bin(z, x[i]));
            }
        }
    }
    let f = fft::arranged(full, radix, fft::scale_of::<S>(n));
    assert(blank_bins(z, f)) by {
        assert forall|k: int| 0 <= k < n implies blank_bin(z, #[trigger] f[k]) by {
            fft::lemma_restored(radix, k);
            assert(blank_bin(z, full[fft::restored(radix, k)]));
        }
    }
    lemma_blank_run(z, fin, f, radix, radix.len(), fft::roots::<S>(n));
    let y = fft::transformed(full);
    let half = common::half_window_of::<S>();
    let sig = common::signal(x);
    assert forall|i: int| 0 <= i < n implies z(#[trigger] denoise::windowed_signal(x)[i]) by {
        let at = if i == 0 {
            0
        } else {
            n - i
        };
        assert(blank_bin(z, y[at]));
        assert(z(sig[i]));
        assert(fin(half[if i < FRAME_SIZE {
            i
        } else {
            n - 1 - i
        }]));
    }
}

/// The sums over the bins between two edges of a spectrum of which nothing is
/// left.
proof fn lemma_blank_sides<S: Sample>(
    z: spec_fn(S) -> bool,
    fin: spec_fn(S) -> bool,
    init: S,
    edges: Seq<usize>,
    x: Seq<Cpx<S>>,
    i: int,
    n: nat,
)
    requires
        vanishing(z, fin),
        tame(z, fin),
        z(init),
        blank_bins(z, x),
        n <= bands::width(edges, i) <= 1000,
        edges[i] + n <= x.len(),
    ensures
        z(bands::rising(init, edges, x, x, i, n)),
        z(bands::falling(init, edges, x, x, i, n)),
    decreases n,
{
    if n > 0 {
        lemma_blank_sides(z, fin, init, edges, x, i, (n - 1) as nat);
        let k = edges[i] + (n - 1);
        assert(blank_bin(z, x[k]));
        assert(z(bands::bin(x, x, k)));
        let s = bands::share::<S>(n - 1, bands::width(edges, i));
        assert(fin(s) && fin(S::unit() - s));
    }
}

/// The band energies of a spectrum of which nothing is left count as zero.
proof fn lemma_blank_energy<S: Sample>(
    z: spec_fn(S) -> bool,
    fin: spec_fn(S) -> bool,
    x: Seq<Cpx<S>>,
    b: int,
)
    requires
        vanishing(z, fin),
        tame(z, fin),
        x.len() == FREQ_SIZE,
        blank_bins(z, x),
        0 <= b < NB_BANDS,
    ensures
        z(common::band_energy(x)[b]),
{
    common::lemma_edges();
    lemma_widths();
    let edges = EBAND20MS@;
    let sums = bands::band_sums_of(edges, x, x);
    assert forall|i: int| 0 <= i < edges.len() implies z(#[trigger] sums[i]) by {
        assert(edges[i] <= 400) by {
            if i < 33 {
                assert(edges[i] < edges[33]);
            }
        }
        let low = bands::lower_side(edges, x, x, i);
        if i > 0 {
            assert(edges[i - 1] < edges[i]);
            lemma_blank_sides(z, fin, S::nil(), edges, x, i - 1, bands::width(edges, i - 1));
        }
        assert(z(low));
        if i < 33 {
            assert(edges[i] < edges[i + 1]);
            assert(edges[i + 1] <= 400) by {
                if i + 1 < 33 {
                    assert(edges[i + 1] < edges[33]);
                }
            }
            lemma_blank_sides(z, fin, low, edges, x, i, bands::width(edges, i));
        }
    }
    assert(z(sums[0]) && z(sums[1]) && z(sums[32]) && z(sums[33]) && z(sums[b + 1]));
}

/// The bands are narrow.
proof fn lemma_widths()
    ensures
        forall|i: int| 0 <= i < 33 ==> #[trigger] bands::width(EBAND20MS@, i) <= 400,
{
    common::lemma_edges();
    let edges = EBAND20MS@;
    assert forall|i: int| 0 <= i < 33 implies #[trigger] bands::width(edges, i) <= 400 by {
        if i + 1 < 33 {
            assert(edges[i + 1] < edges[33]);
        }
    }
}

/// Gains that run through numbers between zero and one are finite.
proof fn lemma_finite_ramps<S: Sample>(
    z: spec_fn(S) -> bool,
    fin: spec_fn(S) -> bool,
    edges: Seq<usize>,
    e: Seq<S>,
    first: int,
    n: nat,
)
    requires
        tame(z, fin),
        n < e.len(),
        forall|i: int|
            first <= i < first + n ==> #[trigger] bands::width(edges, i) <= 1000,
        forall|b: int| 0 <= b < e.len() ==> unitary(#[trigger] e[b]),
    ensures
        forall|k: int|
            0 <= k < bands::ramps(edges, e, first, n).len() ==> fin(
                #[trigger] bands::ramps(edges, e, first, n)[k],
            ),
    decreases n,
{
    if n > 0 {
        let before = bands::ramps(edges, e, first, (n - 1) as nat);
        let w = bands::width(edges, first + n - 1);
        let run = bands::ramp(e[n - 1], e[n as int], w);
        lemma_finite_ramps(z, fin, edges, e, first, (n - 1) as nat);
        let all = bands::ramps(edges, e, first, n);
        assert(all == before + run);
        assert forall|k: int| 0 <= k < all.len() implies fin(#[trigger] all[k]) by {
            if k < before.len() {
                assert(all[k] == before[k]);
            } else {
                assert(all[k] == run[k - before.len()]);
                assert(unitary(e[n - 1]) && unitary(e[n as int]));
            }
        }
    }
}

/// Gains for the bins are finite where those of the bands are between zero and
/// one.
proof fn lemma_finite_gains<S: Sample>(
    z: spec_fn(S) -> bool,
    fin: spec_fn(S) -> bool,
    e: Seq<S>,
)
    requires
        vanishing(z, fin),
        tame(z, fin),
        e.len() == NB_BANDS,
        forall|b: int| 0 <= b < NB_BANDS ==> unitary(#[trigger] e[b]),
    ensures
        common::bin_gains(e).len() == FREQ_SIZE,
        forall|k: int| 0 <= k < FREQ_SIZE ==> fin(#[trigger] common::bin_gains(e)[k]),
{
    common::lemma_edges();
    lemma_widths();
    let runs = bands::ramps(EBAND20MS@, e, 1, (NB_BANDS - 1) as nat);
    bands::lemma_ramps(EBAND20MS@, e, 1, (NB_BANDS - 1) as nat);
    lemma_finite_ramps(z, fin, EBAND20MS@, e, 1, (NB_BANDS - 1) as nat);
    let g = common::bin_gains(e);
    assert(unitary(e[0]) && unitary(e[NB_BANDS - 1]));
    let start = EBAND20MS@[1] as int;
    assert forall|k: int| 0 <= k < FREQ_SIZE implies fin(#[trigger] g[k]) by {
        if start <= k < start + runs.len() {
            assert(g[k] == runs[k - start]);
        }
    }
}

/// A spectrum of which nothing is left stays so under finite gains.
proof fn lemma_blank_weighted<S: Sample>(
    z: spec_fn(S) -> bool,
    fin: spec_fn(S) -> bool,
    x: Seq<Cpx<S>>,
    g: Seq<S>,
)
    requires
        vanishing(z, fin),
        blank_bins(z, x),
        g.len() == x.len(),
        forall|k: int| 0 <= k < g.len() ==> fin(#[trigger] g[k]),
    ensures
        blank_bins(z, denoise::weighted(x, g)),
        blank_bins(z, denoise::mixed(x, x, g)),
{
    assert forall|k: int| 0 <= k < x.len() implies blank_bin(
        z,
        #[trigger] denoise::weighted(x, g)[k],
    ) && blank_bin(z, denoise::mixed(x, x, g)[k]) by {
        assert(blank_bin(z, x[k]) && fin(g[k]));
    }
    assert forall|k: int| 0 <= k < x.len() implies blank_bin(
        z,
        #[trigger] denoise::mixed(x, x, g)[k],
    ) by {
        assert(blank_bin(z, denoise::weighted(x, g)[k]));
        assert(blank_bin(z, x[k]) && fin(g[k]));
    }
}

/// The comb filter makes nothing out of nothing.
proof fn lemma_blank_comb<S: Sample>(
    z: spec_fn(S) -> bool,
    fin: spec_fn(S) -> bool,
    gains: Seq<S>,
)
    requires
        vanishing(z, fin),
        tame(z, fin),
    ensures
        blank_bins(z, denoise::comb_filtered(denoise::blank::<S>(), gains)),
        denoise::comb_filtered(denoise::blank::<S>(), gains).len() == FREQ_SIZE,
{
    let f = denoise::blank::<S>();
    let r = Seq::new(
        NB_BANDS as nat,
        |i: int| denoise::comb(f.exp[i], gains[i], f.ex[i], f.ep[i]),
    );
    assert forall|b: int| 0 <= b < NB_BANDS implies unitary(#[trigger] r[b]) by {
        lemma_blank_strength(z, fin, gains[b]);
    }
    lemma_finite_gains(z, fin, r);
    assert(f.p == f.x);
    let y = denoise::mixed(f.x, f.p, common::bin_gains(r));
    lemma_blank_weighted(z, fin, f.x, common::bin_gains(r));
    let e = common::band_energy(y);
    let norm = Seq::new(
        NB_BANDS as nat,
        |i: int| S::narrowed(denoise::energy_ratio(f.ex[i], e[i])),
    );
    assert forall|b: int| 0 <= b < NB_BANDS implies unitary(#[trigger] norm[b]) by {
        lemma_blank_energy(z, fin, y, b);
    }
    lemma_finite_gains(z, fin, norm);
    lemma_blank_weighted(z, fin, y, common::bin_gains(norm));
}

/// The strength of the comb filter where there is no energy.
proof fn lemma_blank_strength<S: Sample>(
    z: spec_fn(S) -> bool,
    fin: spec_fn(S) -> bool,
    g: S,
)
    requires
        tame(z, fin),
    ensures
        unitary(denoise::comb(S::nil(), g, S::nil(), S::nil())),
{
}

/// The first frame of a new stream puts out nothing, whatever it holds: every
/// sample of the output counts as zero. What the numbers have to meet for this
/// is met by floating-point numbers, with `z` for the two zeros and `fin` for
/// the finite ones.
pub proof fn lemma_first_output<S: Sample>(
    z: spec_fn(S) -> bool,
    fin: spec_fn(S) -> bool,
    m: &RnnModel,
    x: Seq<S>,
    i: int,
)
    requires
        ordered::<S>(),
        vanishing(z, fin),
        finite_tables(fin),
        tame(z, fin),
        m.wf(),
        0 <= i < FRAME_SIZE,
    ensures
        z(denoise::frame_step(m, denoise::new_stream::<S>(), x).out[i]),
{
    let st = denoise::new_stream::<S>();
    let d = st.delayed;
    let (frame, found) = denoise::analysis_step(st, filtered(st, x));
    let features = denoise::features_of(frame, found.period);
    let net = denoise::suppressed(m, st.rnn, st.lastg, d, frame.ex, features);
    assert(blank_bins(z, d.x));
    assert(blank_bins(z, net.x) && net.x.len() == FREQ_SIZE) by {
        reveal(denoise::suppressed);
        let gains = rnn::rnn_step(m, st.rnn, features).gains;
        let g = Seq::new(
            NB_BANDS as nat,
            |b: int| denoise::smoothed(gains[b], st.lastg[b]),
        );
        assert forall|b: int| 0 <= b < NB_BANDS implies unitary(#[trigger] g[b]) by {
            lemma_network_ranges(m, st.rnn, features, b);
            assert(unitary(gains[b]));
        }
        lemma_blank_comb(z, fin, gains);
        lemma_finite_gains(z, fin, g);
        lemma_blank_weighted(
            z,
            fin,
            denoise::comb_filtered(d, gains),
            common::bin_gains(g),
        );
    }
    lemma_blank_signal(z, fin, d.x);
    lemma_blank_signal(z, fin, net.x);
}

} // verus!
