//! Weight blobs: what loads, and how a blob that does not load is reported.

use rnnoise::layer::{LinearLayer, Weights};
use rnnoise::model::RnnModel;
use rnnoise::sparse::{sparse_blocks, sparse_total_blocks};
use rnnoise::weights::{f32_array, i32_array, linear, parse_weights, ModelError};

const FLOAT: i32 = 0;
const INT: i32 = 1;

/// One record, with `pad` bytes of padding behind the payload.
fn record(name: &[u8], kind: i32, payload: &[u8], pad: usize) -> Vec<u8> {
    let mut r = Vec::new();
    r.extend_from_slice(b"DNNw");
    r.extend_from_slice(&0i32.to_le_bytes());
    r.extend_from_slice(&kind.to_le_bytes());
    r.extend_from_slice(&(payload.len() as i32).to_le_bytes());
    r.extend_from_slice(&((payload.len() + pad) as i32).to_le_bytes());
    let mut field = [0u8; 44];
    field[..name.len()].copy_from_slice(name);
    r.extend_from_slice(&field);
    r.extend_from_slice(payload);
    r.resize(r.len() + pad, 0xee);
    r
}

fn floats(x: &[f32]) -> Vec<u8> {
    x.iter().flat_map(|v| v.to_le_bytes()).collect()
}

fn ints(x: &[i32]) -> Vec<u8> {
    x.iter().flat_map(|v| v.to_le_bytes()).collect()
}

fn bits(x: &[f32]) -> Vec<u32> {
    x.iter().map(|v| v.to_bits()).collect()
}

/// The arrays of a model: name, kind and number of elements. Every group of
/// eight rows of a sparse layer has one block of four columns.
fn model_arrays() -> Vec<(String, i32, usize)> {
    let mut v: Vec<(String, i32, usize)> = vec![
        ("conv1_bias".into(), FLOAT, 128),
        ("conv1_weights_float".into(), FLOAT, 195 * 128),
        ("conv2_bias".into(), FLOAT, 384),
        ("conv2_weights_float".into(), FLOAT, 384 * 384),
        ("dense_out_bias".into(), FLOAT, 32),
        ("dense_out_weights_float".into(), FLOAT, 1536 * 32),
        ("vad_dense_bias".into(), FLOAT, 1),
        ("vad_dense_weights_float".into(), FLOAT, 1536),
    ];
    for g in 1..=3 {
        for part in ["input", "recurrent"] {
            v.push((format!("gru{g}_{part}_bias"), FLOAT, 1152));
            v.push((format!("gru{g}_{part}_weights_float"), FLOAT, 144 * 32));
            v.push((format!("gru{g}_{part}_weights_idx"), INT, 288));
        }
        v.push((format!("gru{g}_recurrent_weights_diag"), FLOAT, 1152));
    }
    v
}

/// A blob with all arrays but those that `skip` names; `resize` changes the
/// number of elements of one array.
fn model_blob(skip: &str, resize: Option<(&str, usize)>) -> Vec<u8> {
    let mut blob = Vec::new();
    for (name, kind, n) in model_arrays() {
        if name == skip {
            continue;
        }
        let n = match resize {
            Some((r, m)) if r == name => m,
            _ => n,
        };
        let payload = if kind == INT {
            let idx: Vec<i32> = (0..n as i32).map(|i| if i % 2 == 0 { 1 } else { 4 * (i % 96) }).collect();
            ints(&idx)
        } else {
            floats(&vec![0.25; n])
        };
        blob.extend(record(name.as_bytes(), kind, &payload, 0));
    }
    blob
}

fn error(blob: &[u8]) -> ModelError {
    match RnnModel::from_bytes(blob) {
        Ok(_) => panic!("the blob loads"),
        Err(e) => e,
    }
}

// --- records ----------------------------------------------------------------

#[test]
fn rejects_garbage_blob() {
    // Too short to hold a record header.
    assert!(matches!(
        RnnModel::from_bytes(&[0u8; 16]),
        Err(ModelError::Malformed)
    ));
    // Empty blob parses to no arrays, so the first required layer is missing.
    assert!(matches!(
        RnnModel::from_bytes(&[]),
        Err(ModelError::MissingArray(_))
    ));
}

#[test]
fn a_record_holds_its_name_kind_and_payload() {
    let mut blob = record(b"first", FLOAT, &floats(&[1.5, -2.0]), 3);
    blob.extend(record(b"second", INT, &ints(&[7, -1, i32::MIN]), 0));
    let arrays = parse_weights(&blob).unwrap();
    let first = arrays.get("first").unwrap();
    assert_eq!(first.kind, FLOAT);
    assert_eq!(first.data, &floats(&[1.5, -2.0])[..]);
    assert_eq!(arrays.get("second").unwrap().kind, INT);
    assert!(arrays.get("third").is_none());
    assert_eq!(f32_array(&arrays, "first").unwrap(), bits(&[1.5, -2.0]));
    assert_eq!(i32_array(&arrays, "second").unwrap(), vec![7, -1, i32::MIN]);
}

#[test]
fn the_later_of_two_records_with_one_name_counts() {
    let mut blob = record(b"a", FLOAT, &floats(&[1.0]), 0);
    blob.extend(record(b"b", FLOAT, &floats(&[5.0]), 0));
    blob.extend(record(b"a", FLOAT, &floats(&[2.0, 3.0]), 0));
    let arrays = parse_weights(&blob).unwrap();
    assert_eq!(f32_array(&arrays, "a").unwrap(), bits(&[2.0, 3.0]));
    assert_eq!(f32_array(&arrays, "b").unwrap(), bits(&[5.0]));
}

#[test]
fn names_are_utf8() {
    let name = "gr\u{fc}n";
    let blob = record(name.as_bytes(), FLOAT, &floats(&[1.0]), 0);
    let arrays = parse_weights(&blob).unwrap();
    assert!(arrays.get(name).is_some());
    assert!(arrays.get("grun").is_none());
    // A byte that no UTF-8 text holds.
    assert_eq!(
        parse_weights(&record(b"a\xffb", FLOAT, &[], 0)).err(),
        Some(ModelError::Malformed)
    );
    // Half of a two-byte character.
    assert_eq!(
        parse_weights(&record(b"a\xc3", FLOAT, &[], 0)).err(),
        Some(ModelError::Malformed)
    );
}

#[test]
fn a_name_ends_at_the_first_nul_or_fills_its_field() {
    let blob = record(b"one\0two", FLOAT, &[], 0);
    let arrays = parse_weights(&blob).unwrap();
    assert!(arrays.get("one").is_some());
    assert!(arrays.get("one\0two").is_none());
    let long = "n".repeat(44);
    let blob = record(long.as_bytes(), FLOAT, &[], 0);
    assert!(parse_weights(&blob).unwrap().get(&long).is_some());
}

#[test]
fn malformed_records_are_refused() {
    let good = record(b"a", FLOAT, &floats(&[1.0, 2.0]), 4);
    assert!(parse_weights(&good).is_ok());
    // The magic.
    for i in 0..4 {
        let mut bad = good.clone();
        bad[i] ^= 1;
        assert_eq!(parse_weights(&bad).err(), Some(ModelError::Malformed));
    }
    // A negative size, and one beyond the block.
    for size in [-1i32, 13] {
        let mut bad = good.clone();
        bad[12..16].copy_from_slice(&size.to_le_bytes());
        assert_eq!(parse_weights(&bad).err(), Some(ModelError::Malformed));
    }
    // A block beyond the end, and a cut header.
    for cut in [good.len() - 1, 64, 63, 1] {
        assert_eq!(parse_weights(&good[..cut]).err(), Some(ModelError::Malformed));
    }
    // The version is not looked at.
    let mut other = good.clone();
    other[4..8].copy_from_slice(&77i32.to_le_bytes());
    assert!(parse_weights(&other).is_ok());
}

#[test]
fn an_array_is_missing_or_has_the_wrong_size() {
    let mut blob = record(b"f", FLOAT, &floats(&[1.0]), 0);
    blob.extend(record(b"i", INT, &ints(&[1]), 0));
    blob.extend(record(b"odd", FLOAT, &[0; 6], 0));
    let arrays = parse_weights(&blob).unwrap();
    assert_eq!(f32_array(&arrays, "x"), Err(ModelError::MissingArray("x".into())));
    assert_eq!(f32_array(&arrays, "i"), Err(ModelError::BadSize("i".into())));
    assert_eq!(f32_array(&arrays, "odd"), Err(ModelError::BadSize("odd".into())));
    assert_eq!(i32_array(&arrays, "x"), Err(ModelError::MissingArray("x".into())));
    assert_eq!(i32_array(&arrays, "f"), Err(ModelError::BadSize("f".into())));
}

#[test]
fn errors_have_messages() {
    assert_eq!(ModelError::Malformed.message(), "malformed model blob");
    assert_eq!(
        ModelError::MissingArray("conv1_bias".into()).message(),
        "missing weight array `conv1_bias`"
    );
    assert_eq!(
        ModelError::BadSize("conv1_bias".into()).message(),
        "weight array `conv1_bias` has an unexpected size"
    );
}

// --- layers -----------------------------------------------------------------

fn layer_blob(bias: usize, weights: usize, idx: &[i32], diag: usize) -> Vec<u8> {
    let mut blob = record(b"bias", FLOAT, &floats(&vec![1.0; bias]), 0);
    blob.extend(record(b"weights", FLOAT, &floats(&vec![2.0; weights]), 0));
    blob.extend(record(b"idx", INT, &ints(idx), 0));
    blob.extend(record(b"diag", FLOAT, &floats(&vec![3.0; diag]), 0));
    blob
}

fn sparse_layer(blob: &[u8]) -> Result<LinearLayer, ModelError> {
    let arrays = parse_weights(blob)?;
    linear(&arrays, "bias", "weights", Some("idx"), Some("diag"), 8, 16)
}

#[test]
fn a_dense_layer_checks_its_lengths() {
    let blob = layer_blob(2, 6, &[], 0);
    let arrays = parse_weights(&blob).unwrap();
    let layer = linear(&arrays, "bias", "weights", None, None, 3, 2).unwrap();
    assert_eq!(layer.bias, bits(&[1.0; 2]));
    assert!(matches!(&layer.weights, Weights::Float(w) if w.len() == 6));
    assert!(layer.weights_idx.is_none() && layer.diag.is_none());
    assert_eq!((layer.nb_inputs, layer.nb_outputs), (3, 2));
    assert!(layer.columns_in_range());
    let wrong = |inputs, outputs| linear(&arrays, "bias", "weights", None, None, inputs, outputs).err();
    assert_eq!(wrong(2, 3), Some(ModelError::BadSize("bias".into())));
    assert_eq!(wrong(4, 2), Some(ModelError::BadSize("weights".into())));
}

#[test]
fn a_sparse_layer_checks_its_lengths() {
    // Two groups of eight rows, with two blocks and one.
    let idx = [2, 0, 4, 1, 4];
    let layer = sparse_layer(&layer_blob(16, 96, &idx, 16)).unwrap();
    assert_eq!(layer.weights_idx.as_deref(), Some(&idx[..]));
    assert_eq!(layer.diag, Some(bits(&[3.0; 16])));
    assert!(layer.columns_in_range());
    let bad = |name: &str| Some(ModelError::BadSize(name.into()));
    assert_eq!(sparse_layer(&layer_blob(15, 96, &idx, 16)).err(), bad("bias"));
    assert_eq!(sparse_layer(&layer_blob(16, 64, &idx, 16)).err(), bad("weights"));
    assert_eq!(sparse_layer(&layer_blob(16, 96, &idx[..4], 16)).err(), bad("idx"));
    assert_eq!(sparse_layer(&layer_blob(16, 96, &[3, 0, 4, 4], 16)).err(), bad("idx"));
    assert_eq!(sparse_layer(&layer_blob(16, 96, &idx, 15)).err(), bad("diag"));
    // The weights are looked at before the diagonal.
    assert_eq!(sparse_layer(&layer_blob(16, 64, &idx, 15)).err(), bad("weights"));
}

#[test]
fn columns_outside_the_input_are_found() {
    for (col, ok) in [(0, true), (3, true), (4, true), (5, false), (-1, false), (i32::MAX, false)] {
        let layer = sparse_layer(&layer_blob(16, 64, &[1, col, 1, 0], 16)).unwrap();
        assert_eq!(layer.columns_in_range(), ok, "column {col}");
    }
}

#[test]
fn blocks_follow_the_index_array() {
    assert_eq!(sparse_total_blocks(&[2, 0, 4, 1, 4], 16), Some(3));
    assert_eq!(sparse_total_blocks(&[0, 0], 16), Some(0));
    assert_eq!(sparse_total_blocks(&[], 0), Some(0));
    // Too few groups, too many, a group that is cut, a negative count.
    assert_eq!(sparse_total_blocks(&[2, 0, 4], 16), None);
    assert_eq!(sparse_total_blocks(&[0, 0, 0], 16), None);
    assert_eq!(sparse_total_blocks(&[2, 0], 8), None);
    assert_eq!(sparse_total_blocks(&[-1], 8), None);
    let blocks: Vec<(usize, i32, usize)> = sparse_blocks(&[2, 0, 4, 1, 12], 16)
        .iter()
        .map(|b| (b.row, b.col, b.weight))
        .collect();
    assert_eq!(blocks, vec![(0, 0, 0), (0, 4, 32), (8, 12, 64)]);
    // A group without blocks leaves its rows out.
    let idx = [1, 8, 0, 3, 4, 0, 4];
    let t = sparse_total_blocks(&idx, 24).unwrap();
    let blocks: Vec<(usize, i32, usize)> = sparse_blocks(&idx, 24)
        .iter()
        .map(|b| (b.row, b.col, b.weight))
        .collect();
    assert_eq!(blocks.len(), t);
    assert_eq!(blocks, vec![(0, 8, 0), (16, 4, 32), (16, 0, 64), (16, 4, 96)]);
}

// --- models -----------------------------------------------------------------

#[test]
fn a_model_loads_from_a_blob() {
    let m = RnnModel::from_bytes(&model_blob("", None)).unwrap();
    let dims = |l: &LinearLayer| (l.nb_inputs, l.nb_outputs);
    assert_eq!(dims(&m.conv1), (195, 128));
    assert_eq!(dims(&m.conv2), (384, 384));
    for l in [&m.gru1_input, &m.gru2_input, &m.gru3_input] {
        assert_eq!(dims(l), (384, 1152));
        assert!(l.weights_idx.is_some() && l.diag.is_none());
    }
    for l in [&m.gru1_recurrent, &m.gru2_recurrent, &m.gru3_recurrent] {
        assert_eq!(dims(l), (384, 1152));
        assert!(l.weights_idx.is_some() && l.diag.is_some());
    }
    assert_eq!(dims(&m.dense_out), (1536, 32));
    assert_eq!(dims(&m.vad_dense), (1536, 1));
    assert!(m.columns_in_range());
}

#[test]
fn every_array_of_a_model_is_needed() {
    for (name, _, n) in model_arrays() {
        assert_eq!(
            error(&model_blob(&name, None)),
            ModelError::MissingArray(name.clone())
        );
        // A shorter index array leaves rows without a group.
        assert_eq!(
            error(&model_blob("", Some((&name, n - 1)))),
            ModelError::BadSize(name.clone())
        );
    }
}

#[test]
fn the_first_layer_that_fails_is_reported() {
    let mut blob = Vec::new();
    for (name, kind, n) in model_arrays() {
        if name != "conv2_bias" && name != "vad_dense_bias" {
            let payload = if kind == INT { ints(&vec![0; n]) } else { floats(&vec![0.0; n]) };
            blob.extend(record(name.as_bytes(), kind, &payload, 0));
        }
    }
    assert_eq!(error(&blob), ModelError::MissingArray("conv2_bias".into()));
    // A malformed blob is reported before any layer.
    blob.push(0);
    assert_eq!(error(&blob), ModelError::Malformed);
}

#[test]
fn other_records_do_not_matter() {
    let mut blob = record(b"a stranger", 3, &[1, 2, 3], 61);
    blob.extend(model_blob("", None));
    assert!(RnnModel::from_bytes(&blob).is_ok());
}
