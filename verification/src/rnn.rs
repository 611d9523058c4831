//! The network: two convolutions, three recurrent units in a row, and two
//! output layers that see all of them.

use vstd::prelude::*;
use crate::arith::{filled, Arith, Sample, SampleArith};
use crate::model::RnnModel;
use crate::model;
use crate::nnet::{compute_conv1d, compute_dense, compute_gru, Activation};
use crate::nnet;
use crate::stream;

verus! {

/// New samples per step of the first convolution.
pub const CONV1_IN: usize = 65;

/// What the first convolution remembers.
pub const CONV1_STATE: usize = 130;

/// New samples per step of the second convolution.
pub const CONV2_IN: usize = 128;

/// What the second convolution remembers.
pub const CONV2_STATE: usize = 256;

/// Outputs of a recurrent unit.
pub const GRU_OUT: usize = 384;

/// The state of the network for one stream.
pub struct RnnState<S> {
    pub conv1_state: Vec<S>,
    pub conv2_state: Vec<S>,
    pub gru1_state: Vec<S>,
    pub gru2_state: Vec<S>,
    pub gru3_state: Vec<S>,
}

/// An [`RnnState`] with the vectors as sequences.
pub struct RnnView<S> {
    pub conv1: Seq<S>,
    pub conv2: Seq<S>,
    pub gru1: Seq<S>,
    pub gru2: Seq<S>,
    pub gru3: Seq<S>,
}

impl<S> View for RnnState<S> {
    type V = RnnView<S>;

    open spec fn view(&self) -> RnnView<S> {
        RnnView {
            conv1: self.conv1_state@,
            conv2: self.conv2_state@,
            gru1: self.gru1_state@,
            gru2: self.gru2_state@,
            gru3: self.gru3_state@,
        }
    }
}

impl<S> RnnView<S> {
    /// The memories have the lengths that the network works with.
    pub open spec fn wf(self) -> bool {
        &&& self.conv1.len() == CONV1_STATE
        &&& self.conv2.len() == CONV2_STATE
        &&& self.gru1.len() == GRU_OUT
        &&& self.gru2.len() == GRU_OUT
        &&& self.gru3.len() == GRU_OUT
    }
}

/// The state before the first frame: all zero.
pub open spec fn fresh<S: Sample>() -> RnnView<S> {
    RnnView {
        conv1: Seq::new(CONV1_STATE as nat, |i: int| S::nil()),
        conv2: Seq::new(CONV2_STATE as nat, |i: int| S::nil()),
        gru1: Seq::new(GRU_OUT as nat, |i: int| S::nil()),
        gru2: Seq::new(GRU_OUT as nat, |i: int| S::nil()),
        gru3: Seq::new(GRU_OUT as nat, |i: int| S::nil()),
    }
}

impl<S: Sample> RnnState<S> {
    /// A state of zeros.
    pub fn new() -> (st: Self)
        ensures
            st@.wf(),
            S::functional() ==> st@ == fresh::<S>(),
    {
        let zero = S::ratio(0, 1);
        let st = RnnState {
            conv1_state: filled(zero, CONV1_STATE),
            conv2_state: filled(zero, CONV2_STATE),
            gru1_state: filled(zero, GRU_OUT),
            gru2_state: filled(zero, GRU_OUT),
            gru3_state: filled(zero, GRU_OUT),
        };
        proof {
            if S::functional() {
                let f = fresh::<S>();
                assert(st@.conv1 == f.conv1);
                assert(st@.conv2 == f.conv2);
                assert(st@.gru1 == f.gru1);
                assert(st@.gru2 == f.gru2);
                assert(st@.gru3 == f.gru3);
            }
        }
        st
    }
}

/// What one step of the network gives: the new state, the band gains and the
/// probability of speech.
pub struct RnnStep<S> {
    pub state: RnnView<S>,
    pub gains: Seq<S>,
    pub vad: S,
}

/// One step of the network. Its stages: the first convolution of the features,
/// the second of the first, the recurrent units one after another, and the two
/// output layers on the outputs of the second convolution and of all units.
pub open spec fn rnn_step<S: Sample>(m: &RnnModel, st: RnnView<S>, x: Seq<S>) -> RnnStep<S> {
    let hist1 = m.conv1@.nb_inputs - CONV1_IN;
    let hist2 = m.conv2@.nb_inputs - CONV2_IN;
    let in1 = nnet::conv_input(st.conv1, x, CONV1_IN as int, hist1);
    let c1 = nnet::dense(m.conv1@, in1, Activation::Tanh);
    let in2 = nnet::conv_input(st.conv2, c1, CONV2_IN as int, hist2);
    let c2 = nnet::dense(m.conv2@, in2, Activation::Tanh);
    let g1 = nnet::gru(m.gru1_input@, m.gru1_recurrent@, st.gru1, c2);
    let g2 = nnet::gru(m.gru2_input@, m.gru2_recurrent@, st.gru2, g1);
    let g3 = nnet::gru(m.gru3_input@, m.gru3_recurrent@, st.gru3, g2);
    let cat = c2 + g1 + g2 + g3;
    RnnStep {
        state: RnnView {
            conv1: nnet::conv_memory(st.conv1, x, CONV1_IN as int, hist1),
            conv2: nnet::conv_memory(st.conv2, c1, CONV2_IN as int, hist2),
            gru1: g1,
            gru2: g2,
            gru3: g3,
        },
        gains: nnet::dense(m.dense_out@, cat, Activation::Sigmoid),
        vad: nnet::dense(m.vad_dense@, cat, Activation::Sigmoid)[0],
    }
}

/// Append the elements of `more` to `v`.
pub fn extend<S: Copy>(v: &mut Vec<S>, more: &[S])
    ensures
        final(v)@ == old(v)@ + more@,
{
    let ghost v0 = v@;
    let mut i: usize = 0;
    assert(v@ == v0 + more@.take(0));
    while i < more.len()
        invariant
            i <= more@.len(),
            v@ == v0 + more@.take(i as int),
        decreases more@.len() - i,
    {
        v.push(more[i]);
        i += 1;
        assert(v@ == v0 + more@.take(i as int));
    }
    assert(more@.take(i as int) == more@);
}

/// Every layer of a well-formed model whose blocks lie inside their inputs can
/// be computed.
proof fn lemma_computable(m: &RnnModel)
    requires
        m.wf(),
        m.columns_ok(),
    ensures
        forall|k: int| 0 <= k < 10 ==> nnet::computable(#[trigger] model::layers_of(m)[k]),
        nnet::computable(m.conv1@),
        m.conv1@.nb_inputs == 195,
        m.conv1@.nb_outputs == 128,
        nnet::computable(m.conv2@),
        m.conv2@.nb_inputs == 384,
        m.conv2@.nb_outputs == 384,
        nnet::computable(m.gru1_input@),
        nnet::computable(m.gru2_input@),
        nnet::computable(m.gru3_input@),
        nnet::computable(m.gru1_recurrent@),
        nnet::computable(m.gru2_recurrent@),
        nnet::computable(m.gru3_recurrent@),
        m.gru1_input@.nb_inputs == 384,
        m.gru1_input@.nb_outputs == 1152,
        m.gru2_input@.nb_inputs == 384,
        m.gru2_input@.nb_outputs == 1152,
        m.gru3_input@.nb_inputs == 384,
        m.gru3_input@.nb_outputs == 1152,
        m.gru1_recurrent@.nb_inputs == 384,
        m.gru1_recurrent@.nb_outputs == 1152,
        m.gru2_recurrent@.nb_inputs == 384,
        m.gru2_recurrent@.nb_outputs == 1152,
        m.gru3_recurrent@.nb_inputs == 384,
        m.gru3_recurrent@.nb_outputs == 1152,
        nnet::computable(m.dense_out@),
        m.dense_out@.nb_inputs == 1536,
        m.dense_out@.nb_outputs == 32,
        nnet::computable(m.vad_dense@),
        m.vad_dense@.nb_inputs == 1536,
        m.vad_dense@.nb_outputs == 1,
{
    let l = model::layers_of(m);
    assert forall|k: int| 0 <= k < 10 implies nnet::computable(#[trigger] l[k]) by {
        assert(l[k].columns_ok());
    }
    assert(l[0] == m.conv1@);
    assert(l[1] == m.conv2@);
    assert(l[2] == m.gru1_input@);
    assert(l[3] == m.gru1_recurrent@);
    assert(l[4] == m.gru2_input@);
    assert(l[5] == m.gru2_recurrent@);
    assert(l[6] == m.gru3_input@);
    assert(l[7] == m.gru3_recurrent@);
    assert(l[8] == m.dense_out@);
    assert(l[9] == m.vad_dense@);
}

/// Run the network on one frame of features. Returns the band gains and the
/// probability of speech.
pub fn compute_rnn<S: Sample>(m: &RnnModel, rnn: &mut RnnState<S>, x: &[S]) -> (r: (Vec<S>, S))
    requires
        m.wf(),
        m.columns_ok(),
        old(rnn)@.wf(),
        CONV1_IN <= x@.len(),
    ensures
        final(rnn)@.wf(),
        r.0@.len() == 32,
        S::functional() ==> {
            let step = rnn_step(m, old(rnn)@, x@);
            &&& final(rnn)@ == step.state
            &&& r.0@ == step.gains
            &&& r.1 == step.vad
        },
        S::functional() && stream::ordered::<S>() ==> {
            &&& forall|b: int| 0 <= b < 32 ==> stream::unitary(#[trigger] r.0@[b])
            &&& stream::unitary(r.1)
        },
        S::functional() && stream::ordered::<S>() && stream::blends::<S>()
            && stream::states_in_range(old(rnn)@) ==> stream::states_in_range(final(rnn)@),
{
    proof {
        lemma_computable(m);
        if stream::ordered::<S>() && stream::blends::<S>() && stream::states_in_range(rnn@) {
            stream::lemma_states_kept(m, rnn@, x@);
        }
        if S::functional() && stream::ordered::<S>() {
            assert forall|b: int| 0 <= b < 32 implies stream::unitary(
                #[trigger] rnn_step(m, rnn@, x@).gains[b],
            ) by {
                stream::lemma_network_ranges(m, rnn@, x@, b);
            }
            stream::lemma_network_ranges(m, rnn@, x@, 0);
        }
    }
    let c1 = compute_conv1d(&m.conv1, &mut rnn.conv1_state, x, CONV1_IN, Activation::Tanh);
    let c2 = compute_conv1d(&m.conv2, &mut rnn.conv2_state, &c1, CONV2_IN, Activation::Tanh);
    compute_gru(&m.gru1_input, &m.gru1_recurrent, &mut rnn.gru1_state, &c2);
    compute_gru(&m.gru2_input, &m.gru2_recurrent, &mut rnn.gru2_state, &rnn.gru1_state);
    compute_gru(&m.gru3_input, &m.gru3_recurrent, &mut rnn.gru3_state, &rnn.gru2_state);
    let mut cat: Vec<S> = Vec::new();
    extend(&mut cat, &c2);
    extend(&mut cat, &rnn.gru1_state);
    extend(&mut cat, &rnn.gru2_state);
    extend(&mut cat, &rnn.gru3_state);
    assert(cat@ == c2@ + rnn@.gru1 + rnn@.gru2 + rnn@.gru3);
    let gains = compute_dense(&m.dense_out, &cat, Activation::Sigmoid);
    let vad = compute_dense(&m.vad_dense, &cat, Activation::Sigmoid);
    (gains, vad[0])
}

} // verus!
