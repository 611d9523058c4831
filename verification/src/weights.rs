//! Weight blobs: a sequence of named records, and the arrays they hold.
//!
//! A record is a 64-byte header followed by a payload that is padded to the
//! block size. The header holds the magic `DNNw`, a version, the element kind,
//! the payload size, the block size (all little-endian 32-bit integers) and a
//! name of up to 44 bytes that ends at the first NUL.

use vstd::prelude::*;
use vstd::string::*;
use vstd::utf8::*;
use crate::layer::{LayerView, LinearLayer, Weights, WeightsView};
use crate::sparse::{sparse_total_blocks, SPARSE_BLOCK_SIZE};
use crate::sparse;

verus! {

/// Length of a record header.
pub const WEIGHT_BLOCK_SIZE: usize = 64;

/// Offset of the name inside a record header.
pub const NAME_OFFSET: usize = 20;

/// Element kind of arrays of 32-bit floating-point numbers.
pub const WEIGHT_TYPE_FLOAT: i32 = 0;

/// Element kind of arrays of 32-bit integers.
pub const WEIGHT_TYPE_INT: i32 = 1;

/// Errors returned while loading a model.
#[derive(Debug, Clone, PartialEq, Eq)]
pub enum ModelError {
    /// The model is truncated or otherwise structurally invalid.
    Malformed,
    /// A required weight array is missing.
    MissingArray(String),
    /// A weight array has an unexpected length.
    BadSize(String),
}

/// A [`ModelError`], with the array's name as a sequence of characters.
pub enum ErrorView {
    Malformed,
    MissingArray(Seq<char>),
    BadSize(Seq<char>),
}

impl View for ModelError {
    type V = ErrorView;

    open spec fn view(&self) -> ErrorView {
        match *self {
            ModelError::Malformed => ErrorView::Malformed,
            ModelError::MissingArray(n) => ErrorView::MissingArray(n@),
            ModelError::BadSize(n) => ErrorView::BadSize(n@),
        }
    }
}

/// The text that describes an error.
pub open spec fn message_of(e: ErrorView) -> Seq<char> {
    match e {
        ErrorView::Malformed => "malformed model blob"@,
        ErrorView::MissingArray(n) => "missing weight array `"@ + n + "`"@,
        ErrorView::BadSize(n) => "weight array `"@ + n + "` has an unexpected size"@,
    }
}

impl ModelError {
    /// A one-line description of the error.
    pub fn message(&self) -> (text: String)
        ensures
            text@ == message_of(self@),
    {
        match self {
            ModelError::Malformed => "malformed model blob".to_owned(),
            ModelError::MissingArray(n) => {
                let mut text = "missing weight array `".to_owned();
                text.append(n.as_str());
                text.append("`");
                text
            },
            ModelError::BadSize(n) => {
                let mut text = "weight array `".to_owned();
                text.append(n.as_str());
                text.append("` has an unexpected size");
                text
            },
        }
    }
}

/// A named array of a blob: its element kind and its payload.
pub struct Array<'a> {
    pub kind: i32,
    pub data: &'a [u8],
}

/// An [`Array`] with the payload as a sequence.
pub struct ArrayView {
    pub kind: i32,
    pub data: Seq<u8>,
}

impl<'a> View for Array<'a> {
    type V = ArrayView;

    open spec fn view(&self) -> ArrayView {
        ArrayView { kind: self.kind, data: self.data@ }
    }
}

/// A record's name and array.
pub struct Entry<'a> {
    pub name: &'a str,
    pub array: Array<'a>,
}

/// The arrays of a blob by name. Where two records share a name, the later one
/// counts.
pub struct Arrays<'a> {
    pub entries: Vec<Entry<'a>>,
}

/// The map that a list of entries stands for.
pub open spec fn entry_map(entries: Seq<Entry>) -> Map<Seq<char>, ArrayView>
    decreases entries.len(),
{
    if entries.len() == 0 {
        Map::empty()
    } else {
        entry_map(entries.drop_last()).insert(entries.last().name@, entries.last().array@)
    }
}

impl<'a> View for Arrays<'a> {
    type V = Map<Seq<char>, ArrayView>;

    open spec fn view(&self) -> Map<Seq<char>, ArrayView> {
        entry_map(self.entries@)
    }
}

/// The unsigned number that the four bytes from `at` on encode, least
/// significant byte first.
pub open spec fn le_u32(b: Seq<u8>, at: int) -> int {
    b[at] + 0x100 * b[at + 1] + 0x1_0000 * b[at + 2] + 0x100_0000 * b[at + 3]
}

/// The two's-complement number that the four bytes from `at` on encode, least
/// significant byte first.
pub open spec fn le_i32(b: Seq<u8>, at: int) -> int {
    if le_u32(b, at) < 0x8000_0000 {
        le_u32(b, at)
    } else {
        le_u32(b, at) - 0x1_0000_0000
    }
}

/// Position of the first zero byte, or the length where there is none.
pub open spec fn first_zero(s: Seq<u8>) -> nat
    decreases s.len(),
{
    if s.len() == 0 || s[0] == 0 {
        0
    } else {
        1 + first_zero(s.drop_first())
    }
}

/// What one record says: the array's name and contents, and where the record
/// ends.
pub struct RecordView {
    pub name: Seq<char>,
    pub array: ArrayView,
    pub end: int,
}

/// The bytes of the name in the record header at `off`.
pub open spec fn name_field(b: Seq<u8>, off: int) -> Seq<u8> {
    let field = b.subrange(off + NAME_OFFSET, off + WEIGHT_BLOCK_SIZE);
    field.take(first_zero(field) as int)
}

/// The first four bytes of every record.
pub open spec fn magic() -> Seq<u8> {
    seq![0x44u8, 0x4eu8, 0x4eu8, 0x77u8]
}

/// The record that starts at `off`; `None` where there is no valid one.
pub open spec fn record_at(b: Seq<u8>, off: int) -> Option<RecordView> {
    let start = off + WEIGHT_BLOCK_SIZE;
    let size = le_i32(b, off + 12);
    let block = le_i32(b, off + 16);
    if start > b.len() {
        None
    } else if b.subrange(off, off + 4) != magic() {
        None
    } else if size < 0 || block < size {
        None
    } else if !valid_utf8(name_field(b, off)) {
        None
    } else if start + block > b.len() {
        None
    } else {
        Some(
            RecordView {
                name: decode_utf8(name_field(b, off)),
                array: ArrayView {
                    kind: le_i32(b, off + 8) as i32,
                    data: b.subrange(start, start + size),
                },
                end: start + block,
            },
        )
    }
}

/// The arrays of the records from `off` on, on top of those in `acc`; `None`
/// where one of the records is not valid.
pub open spec fn parse_from(b: Seq<u8>, off: int, acc: Map<Seq<char>, ArrayView>) -> Option<
    Map<Seq<char>, ArrayView>,
>
    decreases b.len() - off,
{
    if off >= b.len() {
        Some(acc)
    } else {
        match record_at(b, off) {
            None => None,
            Some(r) => if r.end > off {
                parse_from(b, r.end, acc.insert(r.name, r.array))
            } else {
                None
            },
        }
    }
}

/// The arrays of a blob; `None` where it is malformed.
pub open spec fn parsed(b: Seq<u8>) -> Option<Map<Seq<char>, ArrayView>> {
    parse_from(b, 0, Map::empty())
}

/// The error of [`std::str::from_utf8`].
#[verifier::external_type_specification]
#[verifier::external_body]
pub struct ExUtf8Error(std::str::Utf8Error);

/// `std::str::from_utf8` succeeds exactly on valid UTF-8, and the text it then
/// returns is encoded by the given bytes.
pub assume_specification[ std::str::from_utf8 ](v: &[u8]) -> (r: Result<
    &str,
    std::str::Utf8Error,
>)
    ensures
        r is Ok <==> valid_utf8(v@),
        r matches Ok(s) ==> s@ == decode_utf8(v@),
;

/// The unsigned number that the four bytes from `at` on encode.
pub fn read_u32(b: &[u8], at: usize) -> (x: u32)
    requires
        at + 4 <= b@.len(),
    ensures
        x == le_u32(b@, at as int),
{
    (b[at] as u32) + 0x100 * (b[at + 1] as u32) + 0x1_0000 * (b[at + 2] as u32) + 0x100_0000 * (b[at
        + 3] as u32)
}

/// The two's-complement number that the four bytes from `at` on encode.
pub fn read_i32(b: &[u8], at: usize) -> (x: i32)
    requires
        at + 4 <= b@.len(),
    ensures
        x == le_i32(b@, at as int),
{
    let u = read_u32(b, at);
    if u < 0x8000_0000 {
        u as i32
    } else {
        (u - 0x8000_0000) as i32 + i32::MIN
    }
}

/// Length of the name in a header field.
fn name_length(field: &[u8]) -> (n: usize)
    ensures
        n == first_zero(field@),
        n <= field@.len(),
{
    let mut n: usize = 0;
    assert(field@.skip(0) == field@);
    while n < field.len() && field[n] != 0
        invariant
            n <= field@.len(),
            first_zero(field@) == n + first_zero(field@.skip(n as int)),
        decreases field@.len() - n,
    {
        assert(field@.skip(n as int).drop_first() == field@.skip(n + 1));
        n += 1;
    }
    n
}

/// Parse a blob into its named arrays.
pub fn parse_weights<'a>(blob: &'a [u8]) -> (r: Result<Arrays<'a>, ModelError>)
    ensures
        match r {
            Ok(a) => parsed(blob@) == Some(a@),
            Err(e) => e@ == ErrorView::Malformed && parsed(blob@) is None,
        },
{
    let mut entries: Vec<Entry<'a>> = Vec::new();
    let mut off: usize = 0;
    while off < blob.len()
        invariant
            off <= blob@.len(),
            parsed(blob@) == parse_from(blob@, off as int, entry_map(entries@)),
        decreases blob@.len() - off,
    {
        if blob.len() - off < WEIGHT_BLOCK_SIZE {
            return Err(ModelError::Malformed);
        }
        assert(blob@.subrange(off as int, off + 4) == seq![
            blob@[off as int],
            blob@[off + 1],
            blob@[off + 2],
            blob@[off + 3],
        ]);
        if blob[off] != 0x44 || blob[off + 1] != 0x4e || blob[off + 2] != 0x4e || blob[off + 3]
            != 0x77 {
            assert(blob@.subrange(off as int, off + 4)[0] != magic()[0] || blob@.subrange(
                off as int,
                off + 4,
            )[1] != magic()[1] || blob@.subrange(off as int, off + 4)[2] != magic()[2]
                || blob@.subrange(off as int, off + 4)[3] != magic()[3]);
            return Err(ModelError::Malformed);
        }
        let kind = read_i32(blob, off + 8);
        let size = read_i32(blob, off + 12);
        let block_size = read_i32(blob, off + 16);
        if size < 0 || block_size < size {
            return Err(ModelError::Malformed);
        }
        let field = vstd::slice::slice_subrange(blob, off + NAME_OFFSET, off + WEIGHT_BLOCK_SIZE);
        let nlen = name_length(field);
        let name_bytes = vstd::slice::slice_subrange(field, 0, nlen);
        assert(name_bytes@ == name_field(blob@, off as int));
        match std::str::from_utf8(name_bytes) {
            Err(_) => {
                return Err(ModelError::Malformed);
            },
            Ok(name) => {
                let data_start = off + WEIGHT_BLOCK_SIZE;
                if blob.len() - data_start < block_size as usize {
                    return Err(ModelError::Malformed);
                }
                let data = vstd::slice::slice_subrange(
                    blob,
                    data_start,
                    data_start + size as usize,
                );
                let ghost before = entries@;
                entries.push(Entry { name, array: Array { kind, data } });
                assert(entries@.drop_last() == before);
                off = data_start + block_size as usize;
            },
        }
    }
    Ok(Arrays { entries })
}

/// Compare two texts.
fn same_text(a: &str, b: &str) -> (same: bool)
    ensures
        same == (a@ == b@),
{
    let x = a.as_bytes();
    let y = b.as_bytes();
    proof {
        encode_utf8_decode_utf8(a@);
        encode_utf8_decode_utf8(b@);
    }
    if x.len() != y.len() {
        return false;
    }
    let mut i: usize = 0;
    while i < x.len()
        invariant
            i <= x@.len(),
            x@.len() == y@.len(),
            x@ == encode_utf8(a@),
            y@ == encode_utf8(b@),
            forall|j: int| 0 <= j < i ==> x@[j] == y@[j],
        decreases x@.len() - i,
    {
        if x[i] != y[i] {
            return false;
        }
        i += 1;
    }
    assert(x@ == y@);
    true
}

impl<'a> Arrays<'a> {
    /// The array with the given name.
    pub fn get(&self, name: &str) -> (found: Option<&Array<'a>>)
        ensures
            match found {
                Some(a) => self@.contains_key(name@) && self@[name@] == a@,
                None => !self@.contains_key(name@),
            },
    {
        let mut i: usize = self.entries.len();
        assert(self.entries@.take(i as int) == self.entries@);
        while i > 0
            invariant
                i <= self.entries@.len(),
                self@.contains_key(name@) == entry_map(self.entries@.take(i as int)).contains_key(
                    name@,
                ),
                self@[name@] == entry_map(self.entries@.take(i as int))[name@],
            decreases i,
        {
            let ghost upto = self.entries@.take(i as int);
            i -= 1;
            assert(upto.drop_last() == self.entries@.take(i as int));
            if same_text(self.entries[i].name, name) {
                return Some(&self.entries[i].array);
            }
        }
        None
    }
}

/// The 32-bit words of a payload.
pub open spec fn words_of(data: Seq<u8>) -> Seq<u32> {
    Seq::new(data.len() / 4, |i: int| le_u32(data, 4 * i) as u32)
}

/// The 32-bit integers of a payload.
pub open spec fn ints_of(data: Seq<u8>) -> Seq<i32> {
    Seq::new(data.len() / 4, |i: int| le_i32(data, 4 * i) as i32)
}

/// The payload of an array that must exist, have the given kind and hold whole
/// words.
pub open spec fn payload_of(
    arrays: Map<Seq<char>, ArrayView>,
    name: Seq<char>,
    kind: i32,
) -> Result<Seq<u8>, ErrorView> {
    if !arrays.contains_key(name) {
        Err(ErrorView::MissingArray(name))
    } else if arrays[name].kind != kind || arrays[name].data.len() % 4 != 0 {
        Err(ErrorView::BadSize(name))
    } else {
        Ok(arrays[name].data)
    }
}

/// The encodings of the numbers of a floating-point array.
pub open spec fn floats_in(arrays: Map<Seq<char>, ArrayView>, name: Seq<char>) -> Result<
    Seq<u32>,
    ErrorView,
> {
    match payload_of(arrays, name, WEIGHT_TYPE_FLOAT) {
        Ok(data) => Ok(words_of(data)),
        Err(e) => Err(e),
    }
}

/// The numbers of an integer array.
pub open spec fn ints_in(arrays: Map<Seq<char>, ArrayView>, name: Seq<char>) -> Result<
    Seq<i32>,
    ErrorView,
> {
    match payload_of(arrays, name, WEIGHT_TYPE_INT) {
        Ok(data) => Ok(ints_of(data)),
        Err(e) => Err(e),
    }
}

/// Read a floating-point array: the encodings of its numbers.
pub fn f32_array(arrays: &Arrays, name: &str) -> (r: Result<Vec<u32>, ModelError>)
    ensures
        match r {
            Ok(v) => floats_in(arrays@, name@) == Ok::<Seq<u32>, ErrorView>(v@),
            Err(e) => floats_in(arrays@, name@) == Err::<Seq<u32>, ErrorView>(e@),
        },
{
    match arrays.get(name) {
        None => Err(ModelError::MissingArray(name.to_owned())),
        Some(a) => {
            if a.kind != WEIGHT_TYPE_FLOAT || a.data.len() % 4 != 0 {
                return Err(ModelError::BadSize(name.to_owned()));
            }
            let mut out: Vec<u32> = Vec::new();
            let mut i: usize = 0;
            let n: usize = a.data.len() / 4;
            while i < n
                invariant
                    i <= n,
                    n == a.data.len() / 4,
                    out@.len() == i,
                    forall|j: int| 0 <= j < i ==> out@[j] == words_of(a.data@)[j],
                decreases n - i,
            {
                out.push(read_u32(a.data, 4 * i));
                i += 1;
            }
            assert(out@ == words_of(a.data@));
            Ok(out)
        },
    }
}

/// Read an integer array.
pub fn i32_array(arrays: &Arrays, name: &str) -> (r: Result<Vec<i32>, ModelError>)
    ensures
        match r {
            Ok(v) => ints_in(arrays@, name@) == Ok::<Seq<i32>, ErrorView>(v@),
            Err(e) => ints_in(arrays@, name@) == Err::<Seq<i32>, ErrorView>(e@),
        },
{
    match arrays.get(name) {
        None => Err(ModelError::MissingArray(name.to_owned())),
        Some(a) => {
            if a.kind != WEIGHT_TYPE_INT || a.data.len() % 4 != 0 {
                return Err(ModelError::BadSize(name.to_owned()));
            }
            let mut out: Vec<i32> = Vec::new();
            let mut i: usize = 0;
            let n: usize = a.data.len() / 4;
            while i < n
                invariant
                    i <= n,
                    n == a.data.len() / 4,
                    out@.len() == i,
                    forall|j: int| 0 <= j < i ==> out@[j] == ints_of(a.data@)[j],
                decreases n - i,
            {
                out.push(read_i32(a.data, 4 * i));
                i += 1;
            }
            assert(out@ == ints_of(a.data@));
            Ok(out)
        },
    }
}

/// What a layer is made of: the names of its arrays and its dimensions.
pub struct LayerShape {
    pub bias: Seq<char>,
    pub weights: Seq<char>,
    pub idx: Option<Seq<char>>,
    pub diag: Option<Seq<char>>,
    pub nb_inputs: nat,
    pub nb_outputs: nat,
}

/// Whether the block structure of a layer fits its weights; `None` where it
/// does.
pub open spec fn size_error(
    shape: LayerShape,
    weights: Seq<u32>,
    idx: Option<Seq<i32>>,
    diag: Option<Seq<u32>>,
) -> Option<ErrorView> {
    let bad_weights = match idx {
        None => if weights.len() != shape.nb_inputs * shape.nb_outputs {
            Some(ErrorView::BadSize(shape.weights))
        } else {
            None
        },
        Some(i) => match sparse::total_blocks(i, shape.nb_outputs as int) {
            None => Some(ErrorView::BadSize(shape.idx->Some_0)),
            Some(t) => if weights.len() != SPARSE_BLOCK_SIZE * t {
                Some(ErrorView::BadSize(shape.weights))
            } else {
                None
            },
        },
    };
    if bad_weights is Some {
        bad_weights
    } else if diag matches Some(d) && d.len() != shape.nb_outputs {
        Some(ErrorView::BadSize(shape.diag->Some_0))
    } else {
        None
    }
}

/// An array that a layer may do without.
pub open spec fn optional<T>(name: Option<Seq<char>>, r: spec_fn(Seq<char>) -> Result<T, ErrorView>) -> Result<
    Option<T>,
    ErrorView,
> {
    match name {
        None => Ok(None),
        Some(n) => match r(n) {
            Ok(v) => Ok(Some(v)),
            Err(e) => Err(e),
        },
    }
}

/// The layer of the given shape, or the first error in the order: bias array,
/// bias length, weight array, index array, diagonal, weight and index lengths,
/// diagonal length.
#[verifier::opaque]
pub open spec fn layer_in(arrays: Map<Seq<char>, ArrayView>, shape: LayerShape) -> Result<
    LayerView,
    ErrorView,
> {
    match floats_in(arrays, shape.bias) {
        Err(e) => Err(e),
        Ok(bias) => if bias.len() != shape.nb_outputs {
            Err(ErrorView::BadSize(shape.bias))
        } else {
            match floats_in(arrays, shape.weights) {
                Err(e) => Err(e),
                Ok(weights) => match optional(shape.idx, |n: Seq<char>| ints_in(arrays, n)) {
                    Err(e) => Err(e),
                    Ok(idx) => match optional(shape.diag, |n: Seq<char>| floats_in(arrays, n)) {
                        Err(e) => Err(e),
                        Ok(diag) => match size_error(shape, weights, idx, diag) {
                            Some(e) => Err(e),
                            None => Ok(
                                LayerView {
                                    bias,
                                    weights: WeightsView::Float(weights),
                                    weights_idx: idx,
                                    diag,
                                    nb_inputs: shape.nb_inputs,
                                    nb_outputs: shape.nb_outputs,
                                },
                            ),
                        },
                    },
                },
            }
        },
    }
}

/// The characters of an optional text.
pub open spec fn opt_text(s: Option<&str>) -> Option<Seq<char>> {
    match s {
        Some(t) => Some(t@),
        None => None,
    }
}

/// Build a dense or sparse layer, validating the lengths of its arrays.
pub fn linear(
    arrays: &Arrays,
    bias: &str,
    weights: &str,
    idx: Option<&str>,
    diag: Option<&str>,
    nb_inputs: usize,
    nb_outputs: usize,
) -> (r: Result<LinearLayer, ModelError>)
    requires
        nb_inputs * nb_outputs <= usize::MAX,
    ensures
        ({
            let shape = LayerShape {
                bias: bias@,
                weights: weights@,
                idx: opt_text(idx),
                diag: opt_text(diag),
                nb_inputs: nb_inputs as nat,
                nb_outputs: nb_outputs as nat,
            };
            match r {
                Ok(layer) => {
                    &&& layer_in(arrays@, shape) == Ok::<LayerView, ErrorView>(layer@)
                    &&& layer@.wf()
                    &&& layer@.nb_inputs == nb_inputs
                    &&& layer@.nb_outputs == nb_outputs
                    &&& layer@.weights_idx is Some <==> idx is Some
                    &&& layer@.diag is Some <==> diag is Some
                },
                Err(e) => layer_in(arrays@, shape) == Err::<LayerView, ErrorView>(e@),
            }
        }),
{
    reveal(layer_in);
    let bias_v = match f32_array(arrays, bias) {
        Ok(v) => v,
        Err(e) => return Err(e),
    };
    if bias_v.len() != nb_outputs {
        return Err(ModelError::BadSize(bias.to_owned()));
    }
    let float_weights = match f32_array(arrays, weights) {
        Ok(v) => v,
        Err(e) => return Err(e),
    };
    let weights_idx = match idx {
        None => None,
        Some(name) => match i32_array(arrays, name) {
            Ok(v) => Some(v),
            Err(e) => return Err(e),
        },
    };
    let diag_v = match diag {
        None => None,
        Some(name) => match f32_array(arrays, name) {
            Ok(v) => Some(v),
            Err(e) => return Err(e),
        },
    };
    match &weights_idx {
        None => {
            if float_weights.len() != nb_inputs * nb_outputs {
                return Err(ModelError::BadSize(weights.to_owned()));
            }
        },
        Some(idxv) => {
            match sparse_total_blocks(idxv, nb_outputs) {
                None => {
                    return Err(ModelError::BadSize(idx.unwrap().to_owned()));
                },
                Some(total) => {
                    if float_weights.len() % SPARSE_BLOCK_SIZE != 0 || float_weights.len()
                        / SPARSE_BLOCK_SIZE != total {
                        return Err(ModelError::BadSize(weights.to_owned()));
                    }
                },
            }
        },
    }
    match &diag_v {
        None => {},
        Some(d) => {
            if d.len() != nb_outputs {
                return Err(ModelError::BadSize(diag.unwrap().to_owned()));
            }
        },
    }
    Ok(
        LinearLayer {
            bias: bias_v,
            weights: Weights::Float(float_weights),
            weights_idx,
            diag: diag_v,
            nb_inputs,
            nb_outputs,
        },
    )
}

} // verus!
