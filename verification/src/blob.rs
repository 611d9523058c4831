//! Weight blobs from the writing side: what a blob with given arrays looks
//! like, and that it reads back.

use vstd::prelude::*;
use vstd::utf8::*;
use crate::weights::{ArrayView, RecordView, NAME_OFFSET, WEIGHT_BLOCK_SIZE};
use crate::weights;

verus! {

/// A named array to be written.
pub struct Record {
    pub name: Seq<char>,
    pub kind: i32,
    pub data: Seq<u8>,
}

/// Four bytes that encode a two's-complement number, least significant first.
pub open spec fn le_bytes(x: int) -> Seq<u8> {
    let u = if x < 0 {
        x + 0x1_0000_0000
    } else {
        x
    };
    seq![
        (u % 0x100) as u8,
        (u / 0x100 % 0x100) as u8,
        (u / 0x1_0000 % 0x100) as u8,
        (u / 0x100_0000 % 0x100) as u8,
    ]
}

/// `n` zero bytes.
pub open spec fn zeros(n: int) -> Seq<u8> {
    Seq::new(n as nat, |i: int| 0u8)
}

/// The length of a payload, padded to whole blocks of 64 bytes.
pub open spec fn padded(size: int) -> int {
    (size + 63) / 64 * 64
}

impl Record {
    /// The record can be written: its name fits the header and holds no zero
    /// byte, and its padded length fits a 32-bit integer.
    pub open spec fn valid(self) -> bool {
        let name = encode_utf8(self.name);
        &&& name.len() <= WEIGHT_BLOCK_SIZE - NAME_OFFSET
        &&& forall|i: int| 0 <= i < name.len() ==> #[trigger] name[i] != 0
        &&& padded(self.data.len() as int) <= i32::MAX
    }

    /// The header of the record.
    pub open spec fn header(self) -> Seq<u8> {
        let name = encode_utf8(self.name);
        weights::magic() + le_bytes(0) + le_bytes(self.kind as int) + le_bytes(
            self.data.len() as int,
        ) + le_bytes(padded(self.data.len() as int)) + name + zeros(44 - name.len())
    }

    /// The bytes of the record.
    pub open spec fn bytes(self) -> Seq<u8> {
        self.header() + self.data + zeros(padded(self.data.len() as int) - self.data.len())
    }
}

/// The blob that holds the given records.
pub open spec fn blob_of(records: Seq<Record>) -> Seq<u8>
    decreases records.len(),
{
    if records.len() == 0 {
        Seq::empty()
    } else {
        records[0].bytes() + blob_of(records.drop_first())
    }
}

/// The arrays of some records by name, on top of those in `acc`; of two records
/// with the same name the later one counts.
pub open spec fn arrays_of(
    acc: Map<Seq<char>, ArrayView>,
    records: Seq<Record>,
) -> Map<Seq<char>, ArrayView>
    decreases records.len(),
{
    if records.len() == 0 {
        acc
    } else {
        let r = records[0];
        arrays_of(
            acc.insert(r.name, ArrayView { kind: r.kind, data: r.data }),
            records.drop_first(),
        )
    }
}

/// A 32-bit number reads back as it was written.
proof fn lemma_le(b: Seq<u8>, at: int, x: int)
    requires
        i32::MIN <= x <= i32::MAX,
        0 <= at,
        at + 4 <= b.len(),
        b.subrange(at, at + 4) == le_bytes(x),
    ensures
        weights::le_i32(b, at) == x,
{
    let s = b.subrange(at, at + 4);
    assert(s[0] == b[at] && s[1] == b[at + 1] && s[2] == b[at + 2] && s[3] == b[at + 3]);
}

/// The name ends where the padding starts.
proof fn lemma_first_zero(name: Seq<u8>, rest: Seq<u8>)
    requires
        forall|i: int| 0 <= i < name.len() ==> #[trigger] name[i] != 0,
        rest.len() == 0 || rest[0] == 0,
    ensures
        weights::first_zero(name + rest) == name.len(),
    decreases name.len(),
{
    if name.len() > 0 {
        lemma_first_zero(name.drop_first(), rest);
        assert((name + rest).drop_first() == name.drop_first() + rest);
    } else {
        assert(name + rest == rest);
    }
}

/// A record that was written reads back, wherever it stands in a blob.
pub proof fn lemma_record(before: Seq<u8>, r: Record, after: Seq<u8>)
    requires
        r.valid(),
    ensures
        weights::record_at(before + r.bytes() + after, before.len() as int) == Some(
            RecordView {
                name: r.name,
                array: ArrayView { kind: r.kind, data: r.data },
                end: (before.len() + r.bytes().len()) as int,
            },
        ),
{
    let b = before + r.bytes() + after;
    let off = before.len() as int;
    let name = encode_utf8(r.name);
    let size = r.data.len() as int;
    let pad = zeros(44 - name.len());
    let h = r.header();
    assert(h.len() == 64);
    assert(r.bytes().len() == 64 + padded(size));
    assert forall|i: int| 0 <= i < r.bytes().len() implies b[off + i] == r.bytes()[i] by {}
    assert(b.subrange(off, off + 4) =~= weights::magic());
    assert(b.subrange(off + 8, off + 12) =~= le_bytes(r.kind as int));
    assert(b.subrange(off + 12, off + 16) =~= le_bytes(size));
    assert(b.subrange(off + 16, off + 20) =~= le_bytes(padded(size)));
    lemma_le(b, off + 8, r.kind as int);
    lemma_le(b, off + 12, size);
    lemma_le(b, off + 16, padded(size));
    let field = b.subrange(off + NAME_OFFSET, off + WEIGHT_BLOCK_SIZE);
    assert(field =~= name + pad);
    lemma_first_zero(name, pad);
    assert(field.take(name.len() as int) =~= name);
    encode_utf8_valid_utf8(r.name);
    encode_utf8_decode_utf8(r.name);
    assert(b.subrange(off + 64, off + 64 + size) =~= r.data);
}

/// A blob of records reads back as their arrays, where something comes before
/// it and was read already.
proof fn lemma_blob_from(
    before: Seq<u8>,
    records: Seq<Record>,
    acc: Map<Seq<char>, ArrayView>,
)
    requires
        forall|i: int| 0 <= i < records.len() ==> (#[trigger] records[i]).valid(),
    ensures
        weights::parse_from(before + blob_of(records), before.len() as int, acc) == Some(
            arrays_of(acc, records),
        ),
    decreases records.len(),
{
    let b = before + blob_of(records);
    if records.len() == 0 {
        assert(b == before);
    } else {
        let r = records[0];
        let rest = records.drop_first();
        assert(b =~= before + r.bytes() + blob_of(rest));
        lemma_record(before, r, blob_of(rest));
        assert(forall|i: int| 0 <= i < rest.len() ==> rest[i] == records[i + 1]);
        lemma_blob_from(
            before + r.bytes(),
            rest,
            acc.insert(r.name, ArrayView { kind: r.kind, data: r.data }),
        );
        assert(before + r.bytes() + blob_of(rest) =~= (before + r.bytes()) + blob_of(rest));
    }
}

/// A blob that was written reads back: its arrays are those of its records, and
/// of two records with the same name the later one counts.
pub proof fn lemma_blob_round_trip(records: Seq<Record>)
    requires
        forall|i: int| 0 <= i < records.len() ==> (#[trigger] records[i]).valid(),
    ensures
        weights::parsed(blob_of(records)) == Some(arrays_of(Map::empty(), records)),
{
    lemma_blob_from(Seq::empty(), records, Map::empty());
    assert(Seq::<u8>::empty() + blob_of(records) =~= blob_of(records));
}

/// A record reads the same where more bytes follow the blob.
proof fn lemma_record_extends(a: Seq<u8>, b: Seq<u8>, off: int)
    requires
        0 <= off,
        weights::record_at(a, off) is Some,
    ensures
        weights::record_at(a + b, off) == weights::record_at(a, off),
{
    let ab = a + b;
    let r = weights::record_at(a, off)->Some_0;
    assert(forall|i: int| 0 <= i < a.len() ==> ab[i] == a[i]);
    assert(ab.subrange(off, off + 4) =~= a.subrange(off, off + 4));
    assert(ab.subrange(off + NAME_OFFSET, off + WEIGHT_BLOCK_SIZE) =~= a.subrange(
        off + NAME_OFFSET,
        off + WEIGHT_BLOCK_SIZE,
    ));
    let start = off + WEIGHT_BLOCK_SIZE;
    let size = weights::le_i32(a, off + 12);
    assert(ab.subrange(start, start + size) =~= a.subrange(start, start + size));
}

/// A valid blob followed by more bytes is read as far as it goes, and then on.
pub proof fn lemma_blob_extends(
    a: Seq<u8>,
    b: Seq<u8>,
    off: int,
    acc: Map<Seq<char>, ArrayView>,
)
    requires
        0 <= off <= a.len(),
        weights::parse_from(a, off, acc) is Some,
    ensures
        weights::parse_from(a + b, off, acc) == weights::parse_from(
            a + b,
            a.len() as int,
            weights::parse_from(a, off, acc)->Some_0,
        ),
    decreases a.len() - off,
{
    if off < a.len() {
        let r = weights::record_at(a, off)->Some_0;
        lemma_record_extends(a, b, off);
        lemma_blob_extends(a, b, r.end, acc.insert(r.name, r.array));
    }
}

/// Adding records to a valid blob adds their arrays, and replaces those with
/// the same names.
pub proof fn lemma_blob_append(a: Seq<u8>, records: Seq<Record>)
    requires
        weights::parsed(a) is Some,
        forall|i: int| 0 <= i < records.len() ==> (#[trigger] records[i]).valid(),
    ensures
        weights::parsed(a + blob_of(records)) == Some(
            arrays_of(weights::parsed(a)->Some_0, records),
        ),
{
    lemma_blob_extends(a, blob_of(records), 0, Map::empty());
    lemma_blob_from(a, records, weights::parsed(a)->Some_0);
}

} // verus!
