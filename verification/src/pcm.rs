//! Raw 16-bit audio: samples as pairs of bytes, and the frames of a stream.

use vstd::prelude::*;
use crate::arith::{Arith, Sample, SampleArith};

verus! {

/// Number of bytes of a frame.
pub const FRAME_BYTES: usize = 960;

/// The 16-bit integer that two bytes encode, in either byte order.
pub open spec fn sample_of(a: u8, b: u8, little: bool) -> int {
    let u = if little {
        a + 0x100 * b
    } else {
        b + 0x100 * a
    };
    if u < 0x8000 {
        u
    } else {
        u - 0x1_0000
    }
}

/// The two bytes that encode a 16-bit integer, in either byte order.
pub open spec fn bytes_of(x: int, little: bool) -> (u8, u8) {
    let u = if x < 0 {
        x + 0x1_0000
    } else {
        x
    };
    let low = (u % 0x100) as u8;
    let high = (u / 0x100) as u8;
    if little {
        (low, high)
    } else {
        (high, low)
    }
}

/// Reading back a sample gives the sample, in either byte order.
pub proof fn lemma_sample_round_trip(x: int, little: bool)
    requires
        i16::MIN <= x <= i16::MAX,
    ensures
        sample_of(bytes_of(x, little).0, bytes_of(x, little).1, little) == x,
{
}

/// Writing a sample gives back the bytes it was read from, in either byte
/// order.
pub proof fn lemma_bytes_round_trip(a: u8, b: u8, little: bool)
    ensures
        i16::MIN <= sample_of(a, b, little) <= i16::MAX,
        bytes_of(sample_of(a, b, little), little) == (a, b),
{
}

/// The samples that bytes encode.
pub open spec fn samples_of<S: Sample>(bytes: Seq<u8>, little: bool) -> Seq<S> {
    Seq::new(
        bytes.len() / 2,
        |i: int| S::num(sample_of(bytes[2 * i], bytes[2 * i + 1], little)),
    )
}

/// The bytes that encode samples; samples lose their fractions.
pub open spec fn encoding_of<S: Sample>(x: Seq<S>, little: bool) -> Seq<u8> {
    Seq::new(
        2 * x.len(),
        |k: int|
            {
                let pair = bytes_of(x[k / 2].shortened() as int, little);
                if k % 2 == 0 {
                    pair.0
                } else {
                    pair.1
                }
            },
    )
}

/// Decode the samples of a buffer.
pub fn decode<S: Sample>(bytes: &[u8], little: bool) -> (x: Vec<S>)
    ensures
        x@.len() == bytes@.len() / 2,
        S::functional() ==> x@ == samples_of::<S>(bytes@, little),
{
    let n: usize = bytes.len() / 2;
    let mut x: Vec<S> = Vec::new();
    let mut i: usize = 0;
    while i < n
        invariant
            n == bytes.len() / 2,
            i <= n,
            x@.len() == i,
            S::functional() ==> forall|k: int|
                0 <= k < i ==> #[trigger] x@[k] == samples_of::<S>(bytes@, little)[k],
        decreases n - i,
    {
        let a = bytes[2 * i] as i64;
        let b = bytes[2 * i + 1] as i64;
        let u: i64 = if little {
            a + 0x100 * b
        } else {
            b + 0x100 * a
        };
        let v: i64 = if u < 0x8000 {
            u
        } else {
            u - 0x1_0000
        };
        x.push(S::ratio(v, 1));
        i += 1;
    }
    x
}

/// Encode samples; their fractions are dropped, and what is out of range
/// becomes the closest 16-bit integer.
pub fn encode<S: Sample>(x: &[S], little: bool) -> (bytes: Vec<u8>)
    requires
        2 * x@.len() <= usize::MAX,
    ensures
        bytes@.len() == 2 * x@.len(),
        S::functional() ==> bytes@ == encoding_of(x@, little),
{
    let mut bytes: Vec<u8> = Vec::new();
    let mut i: usize = 0;
    while i < x.len()
        invariant
            i <= x@.len(),
            bytes@.len() == 2 * i,
            S::functional() ==> forall|k: int|
                0 <= k < 2 * i ==> #[trigger] bytes@[k] == encoding_of(x@, little)[k],
        decreases x@.len() - i,
    {
        let v = x[i].short() as i32;
        let u: i32 = if v < 0 {
            v + 0x1_0000
        } else {
            v
        };
        let low = (u % 0x100) as u8;
        let high = (u / 0x100) as u8;
        if little {
            bytes.push(low);
            bytes.push(high);
        } else {
            bytes.push(high);
            bytes.push(low);
        }
        i += 1;
    }
    bytes
}

/// What to do after a read.
#[derive(Clone, Copy, Debug, PartialEq, Eq)]
pub enum Fill {
    /// Read on from the given place of the buffer.
    More(usize),
    /// The buffer holds the given number of bytes, and no more will come.
    Done(usize),
}

/// What to do after a read of `n` bytes into a buffer of `len` bytes that held
/// `filled`: the buffer is full, or a read of nothing marks the end.
pub open spec fn fill_of(filled: int, n: int, len: int) -> Fill {
    if n == 0 || filled + n >= len {
        Fill::Done((filled + n) as usize)
    } else {
        Fill::More((filled + n) as usize)
    }
}

/// What to do after a read of `n` bytes into a buffer of `len` bytes that held
/// `filled`.
pub fn fill_step(filled: usize, n: usize, len: usize) -> (f: Fill)
    requires
        filled + n <= len,
    ensures
        f == fill_of(filled as int, n as int, len as int),
{
    if n == 0 || filled + n >= len {
        Fill::Done(filled + n)
    } else {
        Fill::More(filled + n)
    }
}

/// The number of bytes that a buffer of `len` bytes holds after the given
/// reads, where reading goes on until it is full or a read gives nothing.
pub open spec fn filled_by(filled: int, reads: Seq<int>, len: int) -> int
    decreases reads.len(),
{
    if reads.len() == 0 || filled >= len || reads[0] == 0 {
        filled
    } else {
        filled_by(filled + reads[0], reads.drop_first(), len)
    }
}

/// Reading on until the buffer is full or a read gives nothing: each step adds
/// what was read, and a buffer that does not fill up is left only at the end.
pub proof fn lemma_fill(filled: int, n: int, len: int, later: Seq<int>)
    requires
        0 <= filled < len <= usize::MAX,
        0 <= n <= len - filled,
    ensures
        match fill_of(filled, n, len) {
            Fill::More(f) => {
                &&& filled < f < len
                &&& filled_by(filled, seq![n] + later, len) == filled_by(f as int, later, len)
            },
            Fill::Done(f) => {
                &&& filled_by(filled, seq![n] + later, len) == f
                &&& f == len || n == 0
            },
        },
{
    reveal_with_fuel(filled_by, 2);
    let all = seq![n] + later;
    assert(all.drop_first() == later);
}

/// What to do with the bytes of a read.
#[derive(Clone, Copy, Debug, PartialEq, Eq)]
pub enum FrameAction {
    /// The stream has ended.
    Stop,
    /// Denoise the frame, and write the output or drop it.
    Process { write: bool },
}

/// Whether the first frame of a stream is still to come.
#[derive(Clone, Copy, Debug, PartialEq, Eq)]
pub struct Framing {
    pub first: bool,
}

impl Framing {
    /// A stream before its first frame.
    pub fn new() -> (f: Self)
        ensures
            f.first,
    {
        Framing { first: true }
    }

    /// What to do after a read of `n` bytes: a short read ends the stream, and
    /// the output for the first frame is dropped: nothing has come before it
    /// that could be put out.
    pub fn on_read(&mut self, n: usize) -> (a: FrameAction)
        ensures
            a == action_of(old(self).first, n as int),
            final(self).first == (old(self).first && n < FRAME_BYTES),
    {
        if n < FRAME_BYTES {
            FrameAction::Stop
        } else {
            let write = !self.first;
            self.first = false;
            FrameAction::Process { write }
        }
    }
}

/// What to do after a read of `n` bytes.
pub open spec fn action_of(first: bool, n: int) -> FrameAction {
    if n < FRAME_BYTES {
        FrameAction::Stop
    } else {
        FrameAction::Process { write: !first }
    }
}

/// How many frames are written for a stream of reads.
pub open spec fn frames_written(first: bool, reads: Seq<int>) -> nat
    decreases reads.len(),
{
    if reads.len() == 0 {
        0
    } else {
        match action_of(first, reads[0]) {
            FrameAction::Stop => 0,
            FrameAction::Process { write } => {
                let rest = frames_written(false, reads.drop_first());
                if write {
                    rest + 1
                } else {
                    rest
                }
            },
        }
    }
}

/// How many full reads come before the first short one.
pub open spec fn full_reads(reads: Seq<int>) -> nat
    decreases reads.len(),
{
    if reads.len() == 0 || reads[0] < FRAME_BYTES {
        0
    } else {
        1 + full_reads(reads.drop_first())
    }
}

/// One frame fewer is written than there are full reads before the first short
/// one: every frame but the first.
pub proof fn lemma_frames_written(first: bool, reads: Seq<int>)
    ensures
        frames_written(first, reads) == if first && full_reads(reads) > 0 {
            (full_reads(reads) - 1) as nat
        } else {
            full_reads(reads)
        },
    decreases reads.len(),
{
    if reads.len() > 0 && reads[0] >= FRAME_BYTES {
        lemma_frames_written(false, reads.drop_first());
    }
}

} // verus!
