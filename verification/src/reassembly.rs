//! Reassembly: frames collected by sequence number and drained in
//! ascending order, whatever order they arrived in.

use vstd::prelude::*;
use std::collections::BTreeMap;
use crate::frame::{Frame, FrameView, chunk, chunk_count, chunk_start, copy_range, frame_spec,
    frame_views, sequence_of, lemma_chunk_start_between, lemma_chunk_start_monotone};

verus! {

broadcast use {vstd::std_specs::btree::group_btree_axioms, vstd::laws_cmp::group_laws_cmp};

/// Number of distinct sequence numbers.
pub const SEQUENCE_SPACE: u32 = 0x10000;

/// The payloads stored under the sequence numbers below `upto`, joined in
/// ascending order of sequence number.
pub open spec fn assemble(chunks: Map<u16, Seq<u8>>, upto: nat) -> Seq<u8>
    decreases upto,
{
    if upto == 0 {
        Seq::empty()
    } else {
        let key = (upto - 1) as u16;
        assemble(chunks, (upto - 1) as nat) + if chunks.contains_key(key) {
            chunks[key]
        } else {
            Seq::empty()
        }
    }
}

/// The buffer that a set of stored chunks reassembles to.
pub open spec fn reassembled(chunks: Map<u16, Seq<u8>>) -> Seq<u8> {
    assemble(chunks, 0x10000)
}

/// The mapping after `frames` were accepted one by one, first to last.
pub open spec fn accept_all(chunks: Map<u16, Seq<u8>>, frames: Seq<FrameView>) -> Map<
    u16,
    Seq<u8>,
>
    decreases frames.len(),
{
    if frames.len() == 0 {
        chunks
    } else {
        accept_all(chunks, frames.drop_last()).insert(
            frames.last().sequence,
            frames.last().payload,
        )
    }
}

/// The state of one transfer on the receiving side: the payloads received so
/// far, each under its sequence number.
pub struct Reassembler {
    chunks: BTreeMap<u16, Vec<u8>>,
}

impl View for Reassembler {
    type V = Map<u16, Seq<u8>>;

    closed spec fn view(&self) -> Map<u16, Seq<u8>> {
        Map::new(|k: u16| self.chunks@.contains_key(k), |k: u16| self.chunks@[k]@)
    }
}

impl Reassembler {
    /// A reassembler that holds nothing.
    pub fn new() -> (r: Reassembler)
        ensures
            r@ == Map::<u16, Seq<u8>>::empty(),
    {
        let r = Reassembler { chunks: BTreeMap::new() };
        proof {
            assert(r@ =~= Map::<u16, Seq<u8>>::empty());
        }
        r
    }

    /// Stores a frame's payload under its sequence number; a payload already
    /// stored there is replaced.
    pub fn accept(&mut self, frame: Frame)
        ensures
            final(self)@ == old(self)@.insert(frame.sequence, frame.payload@),
    {
        let ghost key = frame.sequence;
        let ghost body = frame.payload@;
        self.chunks.insert(frame.sequence, frame.payload);
        proof {
            assert(self@ =~= old(self)@.insert(key, body));
        }
    }

    /// Whether a payload is stored under `sequence`.
    pub fn contains(&self, sequence: u16) -> (found: bool)
        ensures
            found == self@.contains_key(sequence),
    {
        self.chunks.contains_key(&sequence)
    }

    /// Joins the stored payloads in ascending order of sequence number and
    /// leaves the reassembler empty for the next transfer.
    pub fn finalize(&mut self) -> (bytes: Vec<u8>)
        ensures
            bytes@ == reassembled(old(self)@),
            final(self)@ == Map::<u16, Seq<u8>>::empty(),
    {
        let mut bytes: Vec<u8> = Vec::new();
        let mut next: u32 = 0;
        while next < SEQUENCE_SPACE
            invariant
                next <= SEQUENCE_SPACE,
                *self == *old(self),
                bytes@ == assemble(self@, next as nat),
            decreases SEQUENCE_SPACE - next,
        {
            let key: u16 = next as u16;
            let ghost before = bytes@;
            match self.chunks.get(&key) {
                Some(body) => {
                    let mut at: usize = 0;
                    while at < body.len()
                        invariant
                            at <= body@.len(),
                            bytes@ == before + body@.subrange(0, at as int),
                        decreases body@.len() - at,
                    {
                        bytes.push(body[at]);
                        at = at + 1;
                        proof {
                            assert(bytes@ =~= before + body@.subrange(0, at as int));
                        }
                    }
                    proof {
                        assert(body@.subrange(0, at as int) =~= body@);
                        assert(self@.contains_key(key) && self@[key] == body@);
                    }
                },
                None => {
                    proof {
                        assert(!self@.contains_key(key));
                        assert(bytes@ =~= before + Seq::<u8>::empty());
                    }
                },
            }
            next = next + 1;
        }
        self.chunks.clear();
        proof {
            assert(self@ =~= Map::<u16, Seq<u8>>::empty());
        }
        bytes
    }
}

/// Accepts `frames` one by one, first to last, into an empty reassembler and
/// joins what is stored.
pub fn reassemble(frames: &[Frame]) -> (bytes: Vec<u8>)
    ensures
        bytes@ == reassembled(accept_all(Map::empty(), frame_views(frames@))),
{
    let ghost views = frame_views(frames@);
    let mut state = Reassembler::new();
    let mut at: usize = 0;
    proof {
        assert(views.subrange(0, 0) =~= Seq::<FrameView>::empty());
    }
    while at < frames.len()
        invariant
            at <= frames@.len(),
            views == frame_views(frames@),
            state@ == accept_all(Map::empty(), views.subrange(0, at as int)),
        decreases frames@.len() - at,
    {
        let body = copy_range(frames[at].payload.as_slice(), 0, frames[at].payload.len());
        proof {
            let upto = views.subrange(0, at + 1);
            assert(upto.drop_last() =~= views.subrange(0, at as int));
            assert(upto.last() == frames@[at as int]@);
            assert(body@ =~= frames@[at as int].payload@);
        }
        state.accept(Frame { sequence: frames[at].sequence, payload: body });
        at = at + 1;
    }
    proof {
        assert(views.subrange(0, at as int) =~= views);
    }
    state.finalize()
}

/// The mapping that holds every chunk of `bytes` under its index, but the
/// chunk with index `missing` (none is missing where `missing` is negative).
pub open spec fn chunk_map(bytes: Seq<u8>, chunk_size: nat, missing: int) -> Map<u16, Seq<u8>> {
    Map::new(
        |k: u16| k < chunk_count(bytes.len(), chunk_size) && k != missing,
        |k: u16| chunk(bytes, chunk_size, k as int),
    )
}

/// What the chunks below `upto` join to when one chunk may be missing: the
/// buffer up to the boundary `upto`, without the bytes of the missing chunk.
pub proof fn lemma_assemble_chunks(
    chunks: Map<u16, Seq<u8>>,
    bytes: Seq<u8>,
    chunk_size: nat,
    missing: int,
    upto: nat,
)
    requires
        chunk_size > 0,
        upto <= 0x10000,
        chunks == chunk_map(bytes, chunk_size, missing),
    ensures
        assemble(chunks, upto) == if missing < 0 || upto <= missing || missing >= chunk_count(
            bytes.len(),
            chunk_size,
        ) {
            bytes.subrange(0, chunk_start(bytes.len(), chunk_size, upto as int))
        } else {
            bytes.subrange(0, chunk_start(bytes.len(), chunk_size, missing)) + bytes.subrange(
                chunk_start(bytes.len(), chunk_size, missing + 1),
                chunk_start(bytes.len(), chunk_size, upto as int),
            )
        },
    decreases upto,
{
    let len = bytes.len();
    if upto == 0 {
        assert(0 * chunk_size == 0) by (nonlinear_arith);
        assert(assemble(chunks, upto) =~= bytes.subrange(0, 0));
    } else {
        let i = upto - 1;
        let key = i as u16;
        lemma_assemble_chunks(chunks, bytes, chunk_size, missing, i as nat);
        lemma_chunk_start_monotone(len, chunk_size, i);
        if missing >= 0 {
            lemma_chunk_start_monotone(len, chunk_size, missing);
            lemma_chunk_start_between(len, chunk_size, missing + 1, i);
            lemma_chunk_start_between(len, chunk_size, missing + 1, i + 1);
        }
        let s0 = chunk_start(len, chunk_size, i);
        let s1 = chunk_start(len, chunk_size, i + 1);
        if chunks.contains_key(key) {
            assert(chunks[key] == bytes.subrange(s0, s1));
        } else if i != missing {
            assert(s0 == len && s1 == len);
        }
        if missing < 0 || upto <= missing || missing >= chunk_count(len, chunk_size) {
            assert(assemble(chunks, upto) =~= bytes.subrange(0, s1));
        } else {
            assert(assemble(chunks, upto) =~= bytes.subrange(
                0,
                chunk_start(len, chunk_size, missing),
            ) + bytes.subrange(chunk_start(len, chunk_size, missing + 1), s1));
        }
    }
}

/// Accepting frames that all agree with `truth` yields a mapping that agrees
/// with `truth` and holds the sequence number of every accepted frame.
pub proof fn lemma_accept_all_agrees(delivered: Seq<FrameView>, truth: Map<u16, Seq<u8>>)
    requires
        forall|j: int|
            0 <= j < delivered.len() ==> truth.contains_key((#[trigger] delivered[j]).sequence)
                && truth[delivered[j].sequence] == delivered[j].payload,
    ensures
        forall|k: u16| #[trigger]
            accept_all(Map::empty(), delivered).contains_key(k) ==> truth.contains_key(k)
                && accept_all(Map::empty(), delivered)[k] == truth[k],
        forall|j: int|
            0 <= j < delivered.len() ==> accept_all(Map::empty(), delivered).contains_key(
                (#[trigger] delivered[j]).sequence,
            ),
    decreases delivered.len(),
{
    if delivered.len() > 0 {
        let front = delivered.drop_last();
        assert forall|j: int| 0 <= j < front.len() implies truth.contains_key(
            (#[trigger] front[j]).sequence,
        ) && truth[front[j].sequence] == front[j].payload by {
            assert(front[j] == delivered[j]);
        }
        lemma_accept_all_agrees(front, truth);
        let last = delivered.last();
        assert(last == delivered[delivered.len() - 1]);
        let before = accept_all(Map::empty(), front);
        let after = accept_all(Map::empty(), delivered);
        assert(after == before.insert(last.sequence, last.payload));
        assert forall|k: u16| #[trigger] after.contains_key(k) implies truth.contains_key(k)
            && after[k] == truth[k] by {
            if k != last.sequence {
                assert(before.contains_key(k));
            }
        }
        assert forall|j: int| 0 <= j < delivered.len() implies accept_all(
            Map::empty(),
            delivered,
        ).contains_key((#[trigger] delivered[j]).sequence) by {
            if j < front.len() {
                assert(front[j] == delivered[j]);
            }
        }
    }
}

/// Round trip: where a transfer has at most 65536 chunks, and every frame of
/// it is delivered and nothing else, in any order and any number of times,
/// the accepted frames reassemble to the buffer that was framed.
pub proof fn lemma_round_trip(bytes: Seq<u8>, chunk_size: nat, delivered: Seq<FrameView>)
    requires
        chunk_size > 0,
        chunk_count(bytes.len(), chunk_size) <= 0x10000,
        forall|j: int|
            0 <= j < delivered.len() ==> frame_spec(bytes, chunk_size).contains(
                #[trigger] delivered[j],
            ),
        forall|i: int|
            0 <= i < frame_spec(bytes, chunk_size).len() ==> delivered.contains(
                #[trigger] frame_spec(bytes, chunk_size)[i],
            ),
    ensures
        reassembled(accept_all(Map::empty(), delivered)) == bytes,
{
    let truth = chunk_map(bytes, chunk_size, -1);
    lemma_delivered_is_chunk_map(bytes, chunk_size, delivered, -1);
    lemma_assemble_chunks(truth, bytes, chunk_size, -1, 0x10000);
    lemma_chunk_start_monotone(bytes.len(), chunk_size, 0x10000);
    assert(bytes.subrange(0, bytes.len() as int) =~= bytes);
}

/// Gap: where exactly the frame with index `missing` is withheld, the
/// accepted frames reassemble to the buffer without that chunk's bytes: equal
/// to the framed buffer before the chunk's offset, from there on the bytes
/// that followed the chunk, and shorter by the chunk's length.
pub proof fn lemma_gap(bytes: Seq<u8>, chunk_size: nat, delivered: Seq<FrameView>, missing: int)
    requires
        chunk_size > 0,
        chunk_count(bytes.len(), chunk_size) <= 0x10000,
        0 <= missing < chunk_count(bytes.len(), chunk_size),
        forall|j: int|
            0 <= j < delivered.len() ==> frame_spec(bytes, chunk_size).contains(
                #[trigger] delivered[j],
            ) && delivered[j] != frame_spec(bytes, chunk_size)[missing],
        forall|i: int|
            0 <= i < frame_spec(bytes, chunk_size).len() && i != missing ==> delivered.contains(
                #[trigger] frame_spec(bytes, chunk_size)[i],
            ),
    ensures
        reassembled(accept_all(Map::empty(), delivered)) == bytes.subrange(
            0,
            chunk_start(bytes.len(), chunk_size, missing),
        ) + bytes.subrange(
            chunk_start(bytes.len(), chunk_size, missing + 1),
            bytes.len() as int,
        ),
        reassembled(accept_all(Map::empty(), delivered)).len() == bytes.len() - chunk(
            bytes,
            chunk_size,
            missing,
        ).len(),
        reassembled(accept_all(Map::empty(), delivered)).len() < bytes.len(),
        forall|t: int|
            0 <= t < chunk_start(bytes.len(), chunk_size, missing) ==> reassembled(
                accept_all(Map::empty(), delivered),
            )[t] == bytes[t],
        forall|t: int|
            chunk_start(bytes.len(), chunk_size, missing) <= t < reassembled(
                accept_all(Map::empty(), delivered),
            ).len() ==> reassembled(accept_all(Map::empty(), delivered))[t] == bytes[t + chunk(
                bytes,
                chunk_size,
                missing,
            ).len()],
{
    let truth = chunk_map(bytes, chunk_size, missing);
    lemma_delivered_is_chunk_map(bytes, chunk_size, delivered, missing);
    lemma_assemble_chunks(truth, bytes, chunk_size, missing, 0x10000);
    lemma_chunk_start_monotone(bytes.len(), chunk_size, 0x10000);
    lemma_chunk_start_monotone(bytes.len(), chunk_size, missing);
}

/// Frames delivered in any order, each a frame of the transfer and none the
/// missing one, every other frame among them, fill the mapping with exactly
/// the chunks of the transfer but the missing one.
pub proof fn lemma_delivered_is_chunk_map(
    bytes: Seq<u8>,
    chunk_size: nat,
    delivered: Seq<FrameView>,
    missing: int,
)
    requires
        chunk_size > 0,
        chunk_count(bytes.len(), chunk_size) <= 0x10000,
        forall|j: int|
            0 <= j < delivered.len() ==> frame_spec(bytes, chunk_size).contains(
                #[trigger] delivered[j],
            ) && (0 <= missing < chunk_count(bytes.len(), chunk_size) ==> delivered[j]
                != frame_spec(bytes, chunk_size)[missing]),
        forall|i: int|
            0 <= i < frame_spec(bytes, chunk_size).len() && i != missing ==> delivered.contains(
                #[trigger] frame_spec(bytes, chunk_size)[i],
            ),
    ensures
        accept_all(Map::empty(), delivered) == chunk_map(bytes, chunk_size, missing),
{
    let frames = frame_spec(bytes, chunk_size);
    let truth = chunk_map(bytes, chunk_size, missing);
    let got = accept_all(Map::empty(), delivered);
    assert forall|j: int| 0 <= j < delivered.len() implies truth.contains_key(
        (#[trigger] delivered[j]).sequence,
    ) && truth[delivered[j].sequence] == delivered[j].payload by {
        assert(frames.contains(delivered[j]));
        let i = choose|i: int| 0 <= i < frames.len() && frames[i] == delivered[j];
        assert(frames[i].sequence == sequence_of(i));
        assert(sequence_of(i) == i);
    }
    lemma_accept_all_agrees(delivered, truth);
    assert forall|k: u16| truth.contains_key(k) implies got.contains_key(k) by {
        let i = k as int;
        assert(delivered.contains(frames[i]));
        let j = choose|j: int| 0 <= j < delivered.len() && delivered[j] == frames[i];
        assert(delivered[j].sequence == sequence_of(i));
        assert(got.contains_key(delivered[j].sequence));
    }
    assert(got =~= truth);
}

} // verus!
