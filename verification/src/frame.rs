//! Frames: sequence-numbered chunks of a payload, and their wire form.

use vstd::prelude::*;
use vstd::arithmetic::div_mod::lemma_fundamental_div_mod_converse;

verus! {

/// Sequence number that no chunk of a bounded transfer carries; the
/// end-of-stream datagram starts with it.
pub const RESERVED_SEQUENCE: u16 = 0xFFFF;

/// Third byte of the end-of-stream datagram.
pub const END_MARKER: u8 = 0x45;

/// Largest number of chunks of one transfer that keeps every sequence
/// number below the reserved one.
pub const MAX_CHUNKS: usize = 0xFFFF;

/// One sequence-numbered chunk of a larger payload.
#[derive(Debug)]
pub struct Frame {
    pub sequence: u16,
    pub payload: Vec<u8>,
}

/// What a frame holds, as mathematical values.
pub struct FrameView {
    pub sequence: u16,
    pub payload: Seq<u8>,
}

impl View for Frame {
    type V = FrameView;

    open spec fn view(&self) -> FrameView {
        FrameView { sequence: self.sequence, payload: self.payload@ }
    }
}

/// Number of chunks of `chunk_size` bytes that cover `len` bytes.
pub open spec fn chunk_count(len: nat, chunk_size: nat) -> nat {
    if chunk_size == 0 {
        0
    } else {
        ((len + chunk_size - 1) / (chunk_size as int)) as nat
    }
}

/// First byte offset of chunk `i`, capped at the end of the buffer.
pub open spec fn chunk_start(len: nat, chunk_size: nat, i: int) -> int {
    if i * chunk_size < len {
        i * chunk_size
    } else {
        len as int
    }
}

/// The `i`-th chunk of `bytes`.
pub open spec fn chunk(bytes: Seq<u8>, chunk_size: nat, i: int) -> Seq<u8> {
    bytes.subrange(
        chunk_start(bytes.len(), chunk_size, i),
        chunk_start(bytes.len(), chunk_size, i + 1),
    )
}

/// Sequence number of the `i`-th chunk: counted from zero, wrapping at 65536.
pub open spec fn sequence_of(i: int) -> u16 {
    (i % 0x10000) as u16
}

/// The frames of `bytes` cut into chunks of `chunk_size` bytes.
pub open spec fn frame_spec(bytes: Seq<u8>, chunk_size: nat) -> Seq<FrameView> {
    Seq::new(
        chunk_count(bytes.len(), chunk_size),
        |i: int| FrameView { sequence: sequence_of(i), payload: chunk(bytes, chunk_size, i) },
    )
}

/// The views of a sequence of frames.
pub open spec fn frame_views(frames: Seq<Frame>) -> Seq<FrameView> {
    Seq::new(frames.len(), |i: int| frames[i]@)
}

/// Wire form of a chunk frame: the sequence number, big-endian, then the payload.
pub open spec fn datagram_of(f: FrameView) -> Seq<u8> {
    seq![(f.sequence / 256) as u8, (f.sequence % 256) as u8] + f.payload
}

/// The end-of-stream datagram.
pub open spec fn sentinel_spec() -> Seq<u8> {
    seq![0xFFu8, 0xFFu8, END_MARKER]
}

/// Whether a raw datagram begins with the end-of-stream pattern.
pub open spec fn is_end_spec(raw: Seq<u8>) -> bool {
    raw.len() >= 3 && raw[0] == 0xFF && raw[1] == 0xFF && raw[2] == END_MARKER
}

/// What a raw datagram parses to: nothing when it is too short to hold a
/// sequence number.
pub open spec fn parse_spec(raw: Seq<u8>) -> Option<FrameView> {
    if raw.len() < 2 {
        None
    } else {
        Some(
            FrameView {
                sequence: (raw[0] * 256 + raw[1]) as u16,
                payload: raw.subrange(2, raw.len() as int),
            },
        )
    }
}

/// Chunks are cut at multiples of the chunk size: `n` chunks cover `len`
/// bytes exactly when the last one starts inside the buffer and ends at or
/// past its end.
pub proof fn lemma_chunk_count(len: nat, chunk_size: nat, n: nat)
    requires
        chunk_size > 0,
        n * chunk_size >= len,
        n > 0 ==> (n - 1) * chunk_size < len,
    ensures
        chunk_count(len, chunk_size) == n,
{
    let c = chunk_size as int;
    let r = len + c - 1 - n * c;
    assert((n - 1) * c == n * c - c) by (nonlinear_arith);
    if n == 0 {
        assert(n * chunk_size == 0) by (nonlinear_arith)
            requires
                n == 0,
        {}
    }
    lemma_fundamental_div_mod_converse(len + c - 1, c, n as int, r);
}

/// Both ends of the bounds that `lemma_chunk_count` asks for hold of the
/// chunk count itself.
pub proof fn lemma_chunk_count_bounds(len: nat, chunk_size: nat)
    requires
        chunk_size > 0,
    ensures
        chunk_count(len, chunk_size) * chunk_size >= len,
        chunk_count(len, chunk_size) > 0 ==> (chunk_count(len, chunk_size) - 1) * chunk_size < len,
        len > 0 ==> chunk_count(len, chunk_size) > 0,
{
    let c = chunk_size as int;
    let x = len + c - 1;
    let n = x / c;
    vstd::arithmetic::div_mod::lemma_fundamental_div_mod(x, c);
    vstd::arithmetic::div_mod::lemma_mod_bound(x, c);
    assert(x == c * n + x % c);
    assert(c * n == n * c) by (nonlinear_arith);
    assert((n - 1) * c == n * c - c) by (nonlinear_arith);
    assert(n >= 0) by (nonlinear_arith)
        requires
            x >= 0,
            c > 0,
            n == x / c,
    {}
}

/// Chunk boundaries never go backwards and never pass the end of the buffer.
pub proof fn lemma_chunk_start_monotone(len: nat, chunk_size: nat, i: int)
    requires
        chunk_size > 0,
        0 <= i,
    ensures
        0 <= chunk_start(len, chunk_size, i) <= chunk_start(len, chunk_size, i + 1) <= len,
        i < chunk_count(len, chunk_size) ==> chunk_start(len, chunk_size, i) < chunk_start(
            len,
            chunk_size,
            i + 1,
        ),
        i >= chunk_count(len, chunk_size) ==> chunk_start(len, chunk_size, i) == len,
{
    let c = chunk_size as int;
    let n = chunk_count(len, chunk_size) as int;
    lemma_chunk_count_bounds(len, chunk_size);
    assert((i + 1) * c == i * c + c) by (nonlinear_arith);
    assert(i * c >= 0) by (nonlinear_arith)
        requires
            i >= 0,
            c > 0,
    {}
    if i < n {
        assert(i * c <= (n - 1) * c) by (nonlinear_arith)
            requires
                i <= n - 1,
                c > 0,
        {}
    } else {
        assert(i * c >= n * c) by (nonlinear_arith)
            requires
                i >= n,
                c > 0,
        {}
    }
}

/// A later chunk boundary is never before an earlier one.
pub proof fn lemma_chunk_start_between(len: nat, chunk_size: nat, i: int, j: int)
    requires
        chunk_size > 0,
        0 <= i,
    ensures
        i <= j ==> chunk_start(len, chunk_size, i) <= chunk_start(len, chunk_size, j) <= len,
    decreases j - i,
{
    if i < j {
        lemma_chunk_start_between(len, chunk_size, i, j - 1);
        lemma_chunk_start_monotone(len, chunk_size, j - 1);
    } else if i == j {
        lemma_chunk_start_monotone(len, chunk_size, i);
    }
}

/// Every chunk but the last holds `chunk_size` bytes; the last holds at
/// least one byte and at most `chunk_size`.
pub proof fn lemma_chunk_lengths(bytes: Seq<u8>, chunk_size: nat, i: int)
    requires
        chunk_size > 0,
        0 <= i < chunk_count(bytes.len(), chunk_size),
    ensures
        1 <= chunk(bytes, chunk_size, i).len() <= chunk_size,
        i + 1 < chunk_count(bytes.len(), chunk_size) ==> chunk(bytes, chunk_size, i).len()
            == chunk_size,
{
    let c = chunk_size as int;
    let n = chunk_count(bytes.len(), chunk_size) as int;
    lemma_chunk_count_bounds(bytes.len(), chunk_size);
    lemma_chunk_start_monotone(bytes.len(), chunk_size, i);
    assert((i + 1) * c == i * c + c) by (nonlinear_arith);
    if i + 1 < n {
        assert((i + 1) * c <= (n - 1) * c) by (nonlinear_arith)
            requires
                i + 1 <= n - 1,
                c > 0,
        {}
    }
}

/// A copy of the bytes of `source` from `start` up to `end`.
pub fn copy_range(source: &[u8], start: usize, end: usize) -> (bytes: Vec<u8>)
    requires
        start <= end <= source@.len(),
    ensures
        bytes@ == source@.subrange(start as int, end as int),
{
    let mut bytes: Vec<u8> = Vec::new();
    let mut at: usize = start;
    while at < end
        invariant
            start <= at <= end,
            end <= source@.len(),
            bytes@ == source@.subrange(start as int, at as int),
        decreases end - at,
    {
        bytes.push(source[at]);
        at = at + 1;
        proof {
            assert(bytes@ =~= source@.subrange(start as int, at as int));
        }
    }
    bytes
}

/// Splits `payload` into consecutive chunks of `chunk_size` bytes, the last
/// one possibly shorter, numbered from zero in slice order.
pub fn frame(payload: &[u8], chunk_size: usize) -> (frames: Vec<Frame>)
    requires
        chunk_size > 0,
    ensures
        frame_views(frames@) == frame_spec(payload@, chunk_size as nat),
{
    let len: usize = payload.len();
    let mut frames: Vec<Frame> = Vec::new();
    let mut start: usize = 0;
    let mut sequence: u16 = 0;
    while start < len
        invariant
            chunk_size > 0,
            len == payload@.len(),
            start <= len,
            start == chunk_start(len as nat, chunk_size as nat, frames@.len() as int),
            frames@.len() > 0 ==> (frames@.len() - 1) * chunk_size < len,
            start < len ==> start == frames@.len() * chunk_size,
            start == len ==> frames@.len() * chunk_size >= len,
            sequence == sequence_of(frames@.len() as int),
            forall|i: int|
                0 <= i < frames@.len() ==> (#[trigger] frames@[i])@ == (FrameView {
                    sequence: sequence_of(i),
                    payload: chunk(payload@, chunk_size as nat, i),
                }),
        decreases len - start,
    {
        let ghost n = frames@.len() as int;
        let end: usize = if len - start > chunk_size {
            start + chunk_size
        } else {
            len
        };
        proof {
            assert((n + 1) * chunk_size == n * chunk_size + chunk_size) by (nonlinear_arith);
            assert(end == chunk_start(len as nat, chunk_size as nat, n + 1));
        }
        let body = copy_range(payload, start, end);
        frames.push(Frame { sequence, payload: body });
        sequence = if sequence == u16::MAX {
            0
        } else {
            sequence + 1
        };
        start = end;
    }
    proof {
        lemma_chunk_count(len as nat, chunk_size as nat, frames@.len());
        assert(frame_views(frames@) =~= frame_spec(payload@, chunk_size as nat));
    }
    frames
}

impl Frame {
    /// The datagram that carries this frame.
    pub fn to_datagram(&self) -> (raw: Vec<u8>)
        ensures
            raw@ == datagram_of(self@),
    {
        let mut raw: Vec<u8> = Vec::new();
        raw.push((self.sequence / 256) as u8);
        raw.push((self.sequence % 256) as u8);
        let mut at: usize = 0;
        while at < self.payload.len()
            invariant
                at <= self.payload@.len(),
                raw@ == datagram_of(self@).subrange(0, at + 2),
            decreases self.payload@.len() - at,
        {
            raw.push(self.payload[at]);
            at = at + 1;
            proof {
                assert(raw@ =~= datagram_of(self@).subrange(0, at + 2));
            }
        }
        proof {
            assert(raw@ =~= datagram_of(self@));
        }
        raw
    }
}

/// Reads a chunk frame from a raw datagram: the first two bytes are the
/// sequence number, the rest is the payload.
pub fn parse_frame(raw: &[u8]) -> (parsed: Option<Frame>)
    ensures
        parsed.is_some() <==> raw@.len() >= 2,
        match parsed {
            Some(f) => Some(f@) == parse_spec(raw@),
            None => parse_spec(raw@).is_none(),
        },
{
    if raw.len() < 2 {
        return None;
    }
    let hi: u16 = raw[0] as u16;
    let lo: u16 = raw[1] as u16;
    let body = copy_range(raw, 2, raw.len());
    Some(Frame { sequence: hi * 256 + lo, payload: body })
}

/// The end-of-stream datagram.
pub fn sentinel() -> (raw: Vec<u8>)
    ensures
        raw@ == sentinel_spec(),
        is_end_spec(raw@),
{
    let mut raw: Vec<u8> = Vec::new();
    raw.push(0xFF);
    raw.push(0xFF);
    raw.push(END_MARKER);
    proof {
        assert(raw@ =~= sentinel_spec());
    }
    raw
}

/// Tests whether a raw datagram begins with the end-of-stream pattern.
pub fn is_end(raw: &[u8]) -> (end: bool)
    ensures
        end == is_end_spec(raw@),
{
    raw.len() >= 3 && raw[0] == 0xFF && raw[1] == 0xFF && raw[2] == END_MARKER
}

/// A chunk frame whose sequence number is not the reserved one never reads
/// as end of stream, and parses back to itself.
pub proof fn lemma_datagram_round_trip(f: FrameView)
    ensures
        parse_spec(datagram_of(f)) == Some(f),
        f.sequence != RESERVED_SEQUENCE ==> !is_end_spec(datagram_of(f)),
{
    let d = datagram_of(f);
    assert(d[0] == (f.sequence / 256) as u8);
    assert(d[1] == (f.sequence % 256) as u8);
    assert(d.subrange(2, d.len() as int) =~= f.payload);
}

/// No frame of a transfer of at most `MAX_CHUNKS` chunks reads as end of
/// stream on the wire.
pub proof fn lemma_sentinel_exclusive(bytes: Seq<u8>, chunk_size: nat, i: int)
    requires
        chunk_size > 0,
        chunk_count(bytes.len(), chunk_size) <= MAX_CHUNKS,
        0 <= i < frame_spec(bytes, chunk_size).len(),
    ensures
        frame_spec(bytes, chunk_size)[i].sequence == i,
        !is_end_spec(datagram_of(frame_spec(bytes, chunk_size)[i])),
{
    lemma_datagram_round_trip(frame_spec(bytes, chunk_size)[i]);
}

} // verus!
