//! Which arrays of a weight blob make up which layer of the network.

use vstd::prelude::*;
use crate::layer::{LayerView, WeightsView};
use crate::model::RnnModel;
use crate::model;
use crate::weights::{ArrayView, ErrorView};
use crate::weights;

verus! {

/// `v` holds the words of `data`, least significant byte first.
pub open spec fn words(v: Seq<u32>, data: Seq<u8>) -> bool {
    &&& data.len() == 4 * v.len()
    &&& forall|i: int|
        0 <= i < v.len() ==> #[trigger] v[i] == data[4 * i] + 256 * data[4 * i + 1] + 65536
            * data[4 * i + 2] + 16777216 * data[4 * i + 3]
}

/// `v` holds the words of `data`, as numbers in two's complement.
pub open spec fn signed_words(v: Seq<i32>, data: Seq<u8>) -> bool {
    &&& data.len() == 4 * v.len()
    &&& forall|i: int|
        0 <= i < v.len() ==> {
            let u = data[4 * i] + 256 * data[4 * i + 1] + 65536 * data[4 * i + 2] + 16777216
                * data[4 * i + 3];
            #[trigger] v[i] == if data[4 * i + 3] < 128 {
                u
            } else {
                u - 4294967296
            }
        }
}

/// `layer` is made of the arrays with the given names: bias and weights, and the
/// index array and the diagonal where it has them.
pub open spec fn made_of(
    arrays: Map<Seq<char>, ArrayView>,
    layer: LayerView,
    bias: Seq<char>,
    weights: Seq<char>,
    idx: Option<Seq<char>>,
    diag: Option<Seq<char>>,
    nb_inputs: nat,
    nb_outputs: nat,
) -> bool {
    &&& layer.nb_inputs == nb_inputs
    &&& layer.nb_outputs == nb_outputs
    &&& arrays.contains_key(bias)
    &&& words(layer.bias, arrays[bias].data)
    &&& arrays.contains_key(weights)
    &&& layer.weights matches WeightsView::Float(w) && words(w, arrays[weights].data)
    &&& match idx {
        None => layer.weights_idx is None,
        Some(name) => arrays.contains_key(name) && (layer.weights_idx matches Some(v)
            && signed_words(v, arrays[name].data)),
    }
    &&& match diag {
        None => layer.diag is None,
        Some(name) => arrays.contains_key(name) && (layer.diag matches Some(v) && words(
            v,
            arrays[name].data,
        )),
    }
}

proof fn lemma_made_of(
    arrays: Map<Seq<char>, ArrayView>,
    shape: weights::LayerShape,
    layer: LayerView,
)
    requires
        weights::layer_in(arrays, shape) == Ok::<LayerView, ErrorView>(layer),
    ensures
        made_of(
            arrays,
            layer,
            shape.bias,
            shape.weights,
            shape.idx,
            shape.diag,
            shape.nb_inputs,
            shape.nb_outputs,
        ),
{
    reveal(weights::layer_in);
    lemma_words(arrays[shape.bias].data);
    lemma_words(arrays[shape.weights].data);
    if let Some(name) = shape.idx {
        lemma_words(arrays[name].data);
    }
    if let Some(name) = shape.diag {
        lemma_words(arrays[name].data);
    }
}

proof fn lemma_words(data: Seq<u8>)
    ensures
        data.len() % 4 == 0 ==> words(weights::words_of(data), data),
        data.len() % 4 == 0 ==> signed_words(weights::ints_of(data), data),
{
}

/// Every layer of a loaded model is made of the arrays that carry its name.
pub proof fn lemma_layers_by_name(arrays: Map<Seq<char>, ArrayView>, m: &RnnModel)
    requires
        forall|k: int|
            0 <= k < 10 ==> weights::layer_in(arrays, #[trigger] model::shapes()[k]) == Ok::<
                LayerView,
                ErrorView,
            >(model::layers_of(m)[k]),
    ensures
        made_of(
            arrays,
            m.conv1@,
            "conv1_bias"@,
            "conv1_weights_float"@,
            None,
            None,
            195,
            128,
        ),
        made_of(
            arrays,
            m.conv2@,
            "conv2_bias"@,
            "conv2_weights_float"@,
            None,
            None,
            384,
            384,
        ),
        made_of(
            arrays,
            m.gru1_input@,
            "gru1_input_bias"@,
            "gru1_input_weights_float"@,
            Some("gru1_input_weights_idx"@),
            None,
            384,
            1152,
        ),
        made_of(
            arrays,
            m.gru1_recurrent@,
            "gru1_recurrent_bias"@,
            "gru1_recurrent_weights_float"@,
            Some("gru1_recurrent_weights_idx"@),
            Some("gru1_recurrent_weights_diag"@),
            384,
            1152,
        ),
        made_of(
            arrays,
            m.gru2_input@,
            "gru2_input_bias"@,
            "gru2_input_weights_float"@,
            Some("gru2_input_weights_idx"@),
            None,
            384,
            1152,
        ),
        made_of(
            arrays,
            m.gru2_recurrent@,
            "gru2_recurrent_bias"@,
            "gru2_recurrent_weights_float"@,
            Some("gru2_recurrent_weights_idx"@),
            Some("gru2_recurrent_weights_diag"@),
            384,
            1152,
        ),
        made_of(
            arrays,
            m.gru3_input@,
            "gru3_input_bias"@,
            "gru3_input_weights_float"@,
            Some("gru3_input_weights_idx"@),
            None,
            384,
            1152,
        ),
        made_of(
            arrays,
            m.gru3_recurrent@,
            "gru3_recurrent_bias"@,
            "gru3_recurrent_weights_float"@,
            Some("gru3_recurrent_weights_idx"@),
            Some("gru3_recurrent_weights_diag"@),
            384,
            1152,
        ),
        made_of(
            arrays,
            m.dense_out@,
            "dense_out_bias"@,
            "dense_out_weights_float"@,
            None,
            None,
            1536,
            32,
        ),
        made_of(
            arrays,
            m.vad_dense@,
            "vad_dense_bias"@,
            "vad_dense_weights_float"@,
            None,
            None,
            1536,
            1,
        ),
{
    let l = model::layers_of(m);
    let s = model::shapes();
    assert(l[0] == m.conv1@);
    lemma_made_of(arrays, s[0], l[0]);
    assert(l[1] == m.conv2@);
    lemma_made_of(arrays, s[1], l[1]);
    assert(l[2] == m.gru1_input@);
    lemma_made_of(arrays, s[2], l[2]);
    assert(l[3] == m.gru1_recurrent@);
    lemma_made_of(arrays, s[3], l[3]);
    assert(l[4] == m.gru2_input@);
    lemma_made_of(arrays, s[4], l[4]);
    assert(l[5] == m.gru2_recurrent@);
    lemma_made_of(arrays, s[5], l[5]);
    assert(l[6] == m.gru3_input@);
    lemma_made_of(arrays, s[6], l[6]);
    assert(l[7] == m.gru3_recurrent@);
    lemma_made_of(arrays, s[7], l[7]);
    assert(l[8] == m.dense_out@);
    lemma_made_of(arrays, s[8], l[8]);
    assert(l[9] == m.vad_dense@);
    lemma_made_of(arrays, s[9], l[9]);
}

} // verus!
