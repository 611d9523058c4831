//! The network's weights: ten affine layers, loaded from a weight blob.

use vstd::prelude::*;
use crate::layer::{LayerView, LinearLayer};
use crate::weights::{linear, parse_weights, ErrorView, LayerShape, ModelError};
use crate::weights;

verus! {

/// The network's weights.
pub struct RnnModel {
    pub conv1: LinearLayer,
    pub conv2: LinearLayer,
    pub gru1_input: LinearLayer,
    pub gru1_recurrent: LinearLayer,
    pub gru2_input: LinearLayer,
    pub gru2_recurrent: LinearLayer,
    pub gru3_input: LinearLayer,
    pub gru3_recurrent: LinearLayer,
    pub dense_out: LinearLayer,
    pub vad_dense: LinearLayer,
}

/// The layers of a model, in the order in which they are loaded.
pub open spec fn layers_of(m: &RnnModel) -> Seq<LayerView> {
    seq![
        m.conv1@,
        m.conv2@,
        m.gru1_input@,
        m.gru1_recurrent@,
        m.gru2_input@,
        m.gru2_recurrent@,
        m.gru3_input@,
        m.gru3_recurrent@,
        m.dense_out@,
        m.vad_dense@,
    ]
}

/// A layer with dense weights.
pub open spec fn dense_shape(
    bias: Seq<char>,
    weights: Seq<char>,
    nb_inputs: nat,
    nb_outputs: nat,
) -> LayerShape {
    LayerShape { bias, weights, idx: None, diag: None, nb_inputs, nb_outputs }
}

/// The input layer of a recurrent unit.
pub open spec fn input_shape(bias: Seq<char>, weights: Seq<char>, idx: Seq<char>) -> LayerShape {
    LayerShape { bias, weights, idx: Some(idx), diag: None, nb_inputs: 384, nb_outputs: 1152 }
}

/// The recurrent layer of a recurrent unit.
pub open spec fn recurrent_shape(
    bias: Seq<char>,
    weights: Seq<char>,
    idx: Seq<char>,
    diag: Seq<char>,
) -> LayerShape {
    LayerShape {
        bias,
        weights,
        idx: Some(idx),
        diag: Some(diag),
        nb_inputs: 384,
        nb_outputs: 1152,
    }
}

/// The shapes of the ten layers, in the order in which they are loaded.
pub open spec fn shapes() -> Seq<LayerShape> {
    seq![
        dense_shape("conv1_bias"@, "conv1_weights_float"@, 195, 128),
        dense_shape("conv2_bias"@, "conv2_weights_float"@, 384, 384),
        input_shape("gru1_input_bias"@, "gru1_input_weights_float"@, "gru1_input_weights_idx"@),
        recurrent_shape(
            "gru1_recurrent_bias"@,
            "gru1_recurrent_weights_float"@,
            "gru1_recurrent_weights_idx"@,
            "gru1_recurrent_weights_diag"@,
        ),
        input_shape("gru2_input_bias"@, "gru2_input_weights_float"@, "gru2_input_weights_idx"@),
        recurrent_shape(
            "gru2_recurrent_bias"@,
            "gru2_recurrent_weights_float"@,
            "gru2_recurrent_weights_idx"@,
            "gru2_recurrent_weights_diag"@,
        ),
        input_shape("gru3_input_bias"@, "gru3_input_weights_float"@, "gru3_input_weights_idx"@),
        recurrent_shape(
            "gru3_recurrent_bias"@,
            "gru3_recurrent_weights_float"@,
            "gru3_recurrent_weights_idx"@,
            "gru3_recurrent_weights_diag"@,
        ),
        dense_shape("dense_out_bias"@, "dense_out_weights_float"@, 1536, 32),
        dense_shape("vad_dense_bias"@, "vad_dense_weights_float"@, 1536, 1),
    ]
}

impl RnnModel {
    /// Every layer is well formed and has the dimensions of its shape.
    pub open spec fn wf(&self) -> bool {
        forall|k: int|
            0 <= k < 10 ==> {
                let layer = #[trigger] layers_of(self)[k];
                &&& layer.wf()
                &&& layer.nb_inputs == shapes()[k].nb_inputs
                &&& layer.nb_outputs == shapes()[k].nb_outputs
                &&& layer.weights_idx is Some <==> shapes()[k].idx is Some
                &&& layer.diag is Some <==> shapes()[k].diag is Some
            }
    }

    /// Every block of every sparse layer reads columns that the layer's input
    /// has.
    pub open spec fn columns_ok(&self) -> bool {
        forall|k: int| 0 <= k < 10 ==> (#[trigger] layers_of(self)[k]).columns_ok()
    }

    /// Check that every block of every sparse layer reads columns that the
    /// layer's input has. A model that fails this cannot be run.
    pub fn columns_in_range(&self) -> (ok: bool)
        requires
            self.wf(),
        ensures
            ok == self.columns_ok(),
    {
        let ghost l = layers_of(self);
        proof {
            assert(l[0].wf() && l[1].wf() && l[2].wf() && l[3].wf() && l[4].wf() && l[5].wf()
                && l[6].wf() && l[7].wf() && l[8].wf() && l[9].wf());
        }
        let ok = self.conv1.columns_in_range() && self.conv2.columns_in_range()
            && self.gru1_input.columns_in_range() && self.gru1_recurrent.columns_in_range()
            && self.gru2_input.columns_in_range() && self.gru2_recurrent.columns_in_range()
            && self.gru3_input.columns_in_range() && self.gru3_recurrent.columns_in_range()
            && self.dense_out.columns_in_range() && self.vad_dense.columns_in_range();
        proof {
            if ok {
                assert forall|k: int| 0 <= k < 10 implies (#[trigger] l[k]).columns_ok() by {}
            } else {
                assert(!(l[0].columns_ok() && l[1].columns_ok() && l[2].columns_ok()
                    && l[3].columns_ok() && l[4].columns_ok() && l[5].columns_ok()
                    && l[6].columns_ok() && l[7].columns_ok() && l[8].columns_ok()
                    && l[9].columns_ok()));
            }
        }
        ok
    }

    /// Load a model from a weight blob. A malformed blob is reported first,
    /// then the first layer that cannot be loaded.
    pub fn from_bytes(blob: &[u8]) -> (r: Result<RnnModel, ModelError>)
        ensures
            match weights::parsed(blob@) {
                None => r matches Err(e) && e@ == ErrorView::Malformed,
                Some(arrays) => match r {
                    Ok(m) => {
                        &&& m.wf()
                        &&& forall|k: int|
                            0 <= k < 10 ==> weights::layer_in(arrays, #[trigger] shapes()[k])
                                == Ok::<LayerView, ErrorView>(layers_of(&m)[k])
                    },
                    Err(e) => exists|k: int|
                        {
                            &&& 0 <= k < 10
                            &&& weights::layer_in(arrays, #[trigger] shapes()[k])
                                == Err::<LayerView, ErrorView>(e@)
                            &&& forall|j: int|
                                0 <= j < k ==> weights::layer_in(arrays, #[trigger] shapes()[j])
                                    is Ok
                        },
                },
            },
    {
        let arrays = match parse_weights(blob) {
            Ok(a) => a,
            Err(e) => return Err(e),
        };
        let conv1 = match linear(
            &arrays,
            "conv1_bias",
            "conv1_weights_float",
            None,
            None,
            195,
            128,
        ) {
            Ok(layer) => layer,
            Err(e) => {
                assert(weights::layer_in(arrays@, shapes()[0]) == Err::<LayerView, ErrorView>(e@));
                return Err(e);
            },
        };
        assert(weights::layer_in(arrays@, shapes()[0]) == Ok::<LayerView, ErrorView>(conv1@));
        let conv2 = match linear(
            &arrays,
            "conv2_bias",
            "conv2_weights_float",
            None,
            None,
            384,
            384,
        ) {
            Ok(layer) => layer,
            Err(e) => {
                assert(weights::layer_in(arrays@, shapes()[1]) == Err::<LayerView, ErrorView>(e@));
                return Err(e);
            },
        };
        assert(weights::layer_in(arrays@, shapes()[1]) == Ok::<LayerView, ErrorView>(conv2@));
        let gru1_input = match linear(
            &arrays,
            "gru1_input_bias",
            "gru1_input_weights_float",
            Some("gru1_input_weights_idx"),
            None,
            384,
            1152,
        ) {
            Ok(layer) => layer,
            Err(e) => {
                assert(weights::layer_in(arrays@, shapes()[2]) == Err::<LayerView, ErrorView>(e@));
                return Err(e);
            },
        };
        assert(weights::layer_in(arrays@, shapes()[2]) == Ok::<LayerView, ErrorView>(gru1_input@));
        let gru1_recurrent = match linear(
            &arrays,
            "gru1_recurrent_bias",
            "gru1_recurrent_weights_float",
            Some("gru1_recurrent_weights_idx"),
            Some("gru1_recurrent_weights_diag"),
            384,
            1152,
        ) {
            Ok(layer) => layer,
            Err(e) => {
                assert(weights::layer_in(arrays@, shapes()[3]) == Err::<LayerView, ErrorView>(e@));
                return Err(e);
            },
        };
        assert(weights::layer_in(arrays@, shapes()[3]) == Ok::<LayerView, ErrorView>(gru1_recurrent@));
        let gru2_input = match linear(
            &arrays,
            "gru2_input_bias",
            "gru2_input_weights_float",
            Some("gru2_input_weights_idx"),
            None,
            384,
            1152,
        ) {
            Ok(layer) => layer,
            Err(e) => {
                assert(weights::layer_in(arrays@, shapes()[4]) == Err::<LayerView, ErrorView>(e@));
                return Err(e);
            },
        };
        assert(weights::layer_in(arrays@, shapes()[4]) == Ok::<LayerView, ErrorView>(gru2_input@));
        let gru2_recurrent = match linear(
            &arrays,
            "gru2_recurrent_bias",
            "gru2_recurrent_weights_float",
            Some("gru2_recurrent_weights_idx"),
            Some("gru2_recurrent_weights_diag"),
            384,
            1152,
        ) {
            Ok(layer) => layer,
            Err(e) => {
                assert(weights::layer_in(arrays@, shapes()[5]) == Err::<LayerView, ErrorView>(e@));
                return Err(e);
            },
        };
        assert(weights::layer_in(arrays@, shapes()[5]) == Ok::<LayerView, ErrorView>(gru2_recurrent@));
        let gru3_input = match linear(
            &arrays,
            "gru3_input_bias",
            "gru3_input_weights_float",
            Some("gru3_input_weights_idx"),
            None,
            384,
            1152,
        ) {
            Ok(layer) => layer,
            Err(e) => {
                assert(weights::layer_in(arrays@, shapes()[6]) == Err::<LayerView, ErrorView>(e@));
                return Err(e);
            },
        };
        assert(weights::layer_in(arrays@, shapes()[6]) == Ok::<LayerView, ErrorView>(gru3_input@));
        let gru3_recurrent = match linear(
            &arrays,
            "gru3_recurrent_bias",
            "gru3_recurrent_weights_float",
            Some("gru3_recurrent_weights_idx"),
            Some("gru3_recurrent_weights_diag"),
            384,
            1152,
        ) {
            Ok(layer) => layer,
            Err(e) => {
                assert(weights::layer_in(arrays@, shapes()[7]) == Err::<LayerView, ErrorView>(e@));
                return Err(e);
            },
        };
        assert(weights::layer_in(arrays@, shapes()[7]) == Ok::<LayerView, ErrorView>(gru3_recurrent@));
        let dense_out = match linear(
            &arrays,
            "dense_out_bias",
            "dense_out_weights_float",
            None,
            None,
            1536,
            32,
        ) {
            Ok(layer) => layer,
            Err(e) => {
                assert(weights::layer_in(arrays@, shapes()[8]) == Err::<LayerView, ErrorView>(e@));
                return Err(e);
            },
        };
        assert(weights::layer_in(arrays@, shapes()[8]) == Ok::<LayerView, ErrorView>(dense_out@));
        let vad_dense = match linear(
            &arrays,
            "vad_dense_bias",
            "vad_dense_weights_float",
            None,
            None,
            1536,
            1,
        ) {
            Ok(layer) => layer,
            Err(e) => {
                assert(weights::layer_in(arrays@, shapes()[9]) == Err::<LayerView, ErrorView>(e@));
                return Err(e);
            },
        };
        assert(weights::layer_in(arrays@, shapes()[9]) == Ok::<LayerView, ErrorView>(vad_dense@));
        let m = RnnModel {
            conv1,
            conv2,
            gru1_input,
            gru1_recurrent,
            gru2_input,
            gru2_recurrent,
            gru3_input,
            gru3_recurrent,
            dense_out,
            vad_dense,
        };
        Ok(m)
    }
}

} // verus!
