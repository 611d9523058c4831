//! Real-time speech noise suppression with a recurrent neural network.
//!
//! Audio is processed in frames of 480 samples at 48 kHz, with amplitudes in the
//! range of 16-bit integers. A frame is filtered, transformed and described by
//! 65 features, from which the network predicts a gain for each of 32 frequency
//! bands and the probability of speech. The gains are applied to the spectrum
//! of the frame before, whose windowed signal is then added to the one before
//! it and put out: [`DenoiseState::process_frame`]. So a frame comes out two
//! calls later, one for the look-ahead and one for the overlap of the windows.
//! The weights come from a blob: [`RnnModel::from_bytes`].
//!
//! [`DenoiseStateV1`] and [`RnnModelV1`] are a smaller and faster network with
//! a signal path of its own.
//!
//! Every function states what it computes over the operations of a number
//! format; see [`arith`]. What follows from that in exact arithmetic is stated
//! as laws: the transform is the discrete Fourier transform ([`dft`]) and can be
//! undone ([`inverse`]); the search for a pitch finds the best lags
//! ([`best_lag`]), and the predictor solves its equations ([`predictor`]);
//! gains, states and energies keep to their ranges ([`exact`]); a stream of
//! frames comes out delayed ([`stream`], [`legacy_stream`]). What is heard of a
//! stream ([`analysis_law`], [`band_law`], [`pitch_law`]), what the networks are
//! told of it and make of it ([`feature_law`], [`network_law`]), and what becomes
//! of the spectrum ([`comb_law`], [`gain_law`]) is stated among the real numbers,
//! for arithmetic without rounding ([`perfect`]). Which arrays of a blob make up
//! which layer is stated in [`model_law`].

use vstd::prelude::*;

pub mod analysis_law;
pub mod arith;
pub mod band_law;
pub mod bands;
pub mod best_lag;
pub mod blob;
pub mod celt_lpc;
pub mod comb_law;
pub mod common;
pub mod denoise;
pub mod dft;
pub mod exact;
pub mod factor;
pub mod feature_law;
pub mod fft;
pub mod gain_law;
pub mod inverse;
pub mod layer;
pub mod legacy;
pub mod legacy_denoise;
pub mod legacy_net;
pub mod legacy_stream;
pub mod model;
pub mod model_law;
pub mod network_law;
pub mod nnet;
pub mod pcm;
pub mod perfect;
pub mod pitch;
pub mod pitch_law;
pub mod predictor;
pub mod quantize;
pub mod rnn;
pub mod sparse;
pub mod stream;
pub mod weights;

pub use crate::denoise::DenoiseState;
pub use crate::legacy::RnnModelV1;
pub use crate::legacy_denoise::DenoiseStateV1;
pub use crate::model::RnnModel;
pub use crate::weights::ModelError;

verus! {

/// Number of samples of a frame.
pub const FRAME_SIZE: usize = 480;

/// Length of the analysis window: two frames.
pub const WINDOW_SIZE: usize = 960;

/// Number of bins of a spectrum that are kept.
pub const FREQ_SIZE: usize = 481;

/// Number of frequency bands.
pub const NB_BANDS: usize = 32;

/// Number of features of a frame.
pub const NB_FEATURES: usize = 65;

/// Shortest pitch period, in samples.
pub const PITCH_MIN_PERIOD: usize = 60;

/// Longest pitch period, in samples.
pub const PITCH_MAX_PERIOD: usize = 768;

/// Length of the window of the pitch analysis.
pub const PITCH_FRAME_SIZE: usize = 960;

/// Length of the signal that the pitch analysis looks at.
pub const PITCH_BUF_SIZE: usize = 1728;

/// Edges of the bands, in bins of 50 Hz.
pub const EBAND20MS: [usize; 34] = [
    0,
    2,
    4,
    6,
    8,
    10,
    12,
    15,
    18,
    21,
    24,
    28,
    32,
    36,
    41,
    47,
    53,
    60,
    68,
    77,
    87,
    98,
    110,
    124,
    140,
    157,
    176,
    198,
    223,
    251,
    282,
    317,
    356,
    400,
];

} // verus!
