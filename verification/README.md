# rnnoise

Speech noise suppression with a recurrent neural network, written and verified
in Verus.

Audio goes in and comes out in frames of 480 samples (10 ms at 48 kHz, mono,
amplitudes in the range of 16-bit integers). Each frame is filtered, transformed
and reduced to 65 features; the network predicts a gain for each of 32 frequency
bands and the probability of speech; the gains are applied to the spectrum of the
frame before, whose windowed signal is added to the one before it and put out. So
a frame comes out two calls later: one for the look-ahead, one for the overlap of
the windows. The first frame that comes out is zero.

## Layout

- `src/` is the library. Every function has a contract that Verus proves.
  - `arith` — the number formats that everything is written over
  - `weights`, `layer`, `sparse`, `model`, `quantize` — weight blobs, layers and
    models, with full-precision or 8-bit weights
  - `nnet`, `rnn` — the network
  - `factor`, `fft`, `bands`, `common` — the transform, band sums and gains, the
    window, the cosine transform, the high-pass filter
  - `celt_lpc`, `pitch` — linear prediction and the pitch search
  - `denoise` — the denoiser
  - `legacy`, `legacy_net`, `legacy_denoise` — the smaller network and its
    denoiser
  - `pcm` — raw 16-bit audio
  - `blob`, `dft`, `inverse`, `exact`, `best_lag`, `predictor`, `stream`,
    `legacy_stream` — laws that relate the functions above
- `tests/` runs the library on 32-bit floating-point numbers.
- `app/` is a command-line denoiser for raw audio, a C ABI, and the transforms of
  the smaller network's denoiser.

## Numbers

The library holds no floating-point numbers. A sample is a value of a type that
implements `arith::Sample`, whose methods carry no contracts. A contract of the
form `S::functional() ==> ...` says what a function computes when each operation's
result depends on its operands alone; lengths, ranges and the absence of panics
are proved without that. `tests/` and `app/` implement the trait for `f32`.

## Models

`RnnModel::from_bytes` loads a blob of named arrays (`DNNw` records), and
`RnnModelV1::from_bytes` the byte format of the smaller network. The program
reads its default models from `models/`.
