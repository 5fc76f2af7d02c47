//! The decisions of the transport loop: what to send for a payload, what
//! to do with each thing that the channel hands back, and which phase comes
//! next. Sockets, clocks and files are the caller's.

use vstd::prelude::*;
use vstd::arithmetic::div_mod::{lemma_fundamental_div_mod, lemma_mod_bound};
use crate::frame::{MAX_CHUNKS, chunk_count, datagram_of, frame, frame_spec, frame_views, is_end,
    is_end_spec, lemma_chunk_count, lemma_chunk_lengths, lemma_sentinel_exclusive, parse_frame,
    parse_spec, sentinel, sentinel_spec};
use crate::reassembly::{Reassembler, reassembled};

verus! {

/// What a caller asked for that the protocol cannot do.
#[derive(Debug, Clone, Copy, PartialEq, Eq, Structural)]
pub enum PreconditionViolation {
    /// The chunk size is zero.
    ZeroChunkSize,
    /// The payload has more chunks than there are free sequence numbers.
    TooManyChunks,
}

/// What the channel handed back.
pub enum Event {
    /// A datagram arrived.
    Datagram(Vec<u8>),
    /// The read deadline passed.
    Timeout,
    /// The channel reported an error other than a timeout.
    ChannelFailure,
}

/// What the receiving side does after an event.
#[derive(Debug)]
pub enum Step {
    /// Go on reading.
    Continue,
    /// The end of stream arrived: the transfer is complete.
    Complete(Vec<u8>),
    /// The deadline passed first: what arrived so far, as a partial result.
    Partial(Vec<u8>),
    /// The transfer is abandoned.
    Failed,
}

/// The side of a conversation: the one that starts it, or the listener.
#[derive(Debug, Clone, Copy, PartialEq, Eq, Structural)]
pub enum Role {
    Active,
    Passive,
}

/// Where a side stands in a transfer.
#[derive(Debug, Clone, Copy, PartialEq, Eq, Structural)]
pub enum Phase {
    Idle,
    Sending,
    AwaitingResponse,
    Receiving,
    Processing,
    Done,
}

/// What moved a side on.
#[derive(Debug, Clone, Copy, PartialEq, Eq, Structural)]
pub enum Signal {
    /// A payload is ready to go out.
    Begin,
    /// Every frame and the end of stream were sent.
    AllSent,
    /// A chunk frame arrived.
    FrameArrived,
    /// The inbound stream ended, by its end of stream or by the deadline.
    StreamEnded,
    /// The derived payload is ready.
    Processed,
    /// The channel failed.
    Failure,
    /// The finished transfer was handed over.
    Reset,
}

/// The phase in which a side waits for its next transfer.
pub open spec fn rest_phase(role: Role) -> Phase {
    match role {
        Role::Active => Phase::Idle,
        Role::Passive => Phase::Receiving,
    }
}

/// The phase that follows `phase` on `signal`. A failure sends either side
/// back to rest; a signal that a phase does not expect leaves it where it is.
pub open spec fn next_phase_spec(role: Role, phase: Phase, signal: Signal) -> Phase {
    match (role, phase, signal) {
        (_, _, Signal::Failure) => rest_phase(role),
        (_, Phase::Done, Signal::Reset) => rest_phase(role),
        (_, Phase::Sending, Signal::AllSent) => match role {
            Role::Active => Phase::AwaitingResponse,
            Role::Passive => Phase::Done,
        },
        (Role::Active, Phase::Idle, Signal::Begin) => Phase::Sending,
        (Role::Active, Phase::AwaitingResponse, Signal::FrameArrived) => Phase::Receiving,
        (Role::Active, Phase::AwaitingResponse, Signal::StreamEnded) => Phase::Done,
        (Role::Active, Phase::Receiving, Signal::StreamEnded) => Phase::Done,
        (Role::Passive, Phase::Receiving, Signal::StreamEnded) => Phase::Processing,
        (Role::Passive, Phase::Processing, Signal::Processed) => Phase::Sending,
        _ => phase,
    }
}

/// The phase that follows `phase` on `signal`.
pub fn next_phase(role: Role, phase: Phase, signal: Signal) -> (next: Phase)
    ensures
        next == next_phase_spec(role, phase, signal),
{
    let rest = match role {
        Role::Active => Phase::Idle,
        Role::Passive => Phase::Receiving,
    };
    match signal {
        Signal::Failure => rest,
        Signal::Reset => match phase {
            Phase::Done => rest,
            _ => phase,
        },
        Signal::AllSent => match (phase, role) {
            (Phase::Sending, Role::Active) => Phase::AwaitingResponse,
            (Phase::Sending, Role::Passive) => Phase::Done,
            _ => phase,
        },
        Signal::Begin => match (role, phase) {
            (Role::Active, Phase::Idle) => Phase::Sending,
            _ => phase,
        },
        Signal::FrameArrived => match (role, phase) {
            (Role::Active, Phase::AwaitingResponse) => Phase::Receiving,
            _ => phase,
        },
        Signal::StreamEnded => match (role, phase) {
            (Role::Active, Phase::AwaitingResponse) => Phase::Done,
            (Role::Active, Phase::Receiving) => Phase::Done,
            (Role::Passive, Phase::Receiving) => Phase::Processing,
            _ => phase,
        },
        Signal::Processed => match (role, phase) {
            (Role::Passive, Phase::Processing) => Phase::Sending,
            _ => phase,
        },
    }
}

/// The datagrams of one transfer: one per frame, in ascending sequence
/// order, then the end of stream.
pub open spec fn outgoing_spec(bytes: Seq<u8>, chunk_size: nat) -> Seq<Seq<u8>> {
    Seq::new(
        chunk_count(bytes.len(), chunk_size) + 1,
        |i: int|
            if i < chunk_count(bytes.len(), chunk_size) {
                datagram_of(frame_spec(bytes, chunk_size)[i])
            } else {
                sentinel_spec()
            },
    )
}

/// Whether a payload can go out in chunks of `chunk_size` bytes: the chunk
/// size is positive and every chunk gets a sequence number below the
/// reserved one.
pub open spec fn can_send(len: nat, chunk_size: nat) -> bool {
    chunk_size > 0 && chunk_count(len, chunk_size) <= MAX_CHUNKS
}

/// Counts the chunks of a payload of `len` bytes.
pub fn count_chunks(len: usize, chunk_size: usize) -> (count: usize)
    requires
        chunk_size > 0,
    ensures
        count == chunk_count(len as nat, chunk_size as nat),
{
    let whole: usize = len / chunk_size;
    let rest: usize = len % chunk_size;
    proof {
        lemma_fundamental_div_mod(len as int, chunk_size as int);
        lemma_mod_bound(len as int, chunk_size as int);
        let c = chunk_size as int;
        let q = whole as int;
        assert(c * q == q * c) by (nonlinear_arith);
        assert((q + 1) * c == q * c + c) by (nonlinear_arith);
        assert((q - 1) * c == q * c - c) by (nonlinear_arith);
        assert(q <= q * c) by (nonlinear_arith)
            requires
                q >= 0,
                c >= 1,
        {}
        if rest == 0 {
            lemma_chunk_count(len as nat, chunk_size as nat, whole as nat);
        } else {
            lemma_chunk_count(len as nat, chunk_size as nat, (whole + 1) as nat);
        }
    }
    if rest == 0 {
        whole
    } else {
        whole + 1
    }
}

/// Plans the sending phase: every datagram of the transfer, in the order
/// in which it goes out. No datagram but the last reads as end of stream,
/// and none is longer than the chunk size and the two bytes of the sequence
/// number.
pub fn outgoing(payload: &[u8], chunk_size: usize) -> (plan: Result<
    Vec<Vec<u8>>,
    PreconditionViolation,
>)
    ensures
        plan.is_ok() <==> can_send(payload@.len(), chunk_size as nat),
        match plan {
            Ok(datagrams) => {
                &&& datagrams@.len() == outgoing_spec(payload@, chunk_size as nat).len()
                &&& forall|i: int|
                    0 <= i < datagrams@.len() ==> (#[trigger] datagrams@[i])@ == outgoing_spec(
                        payload@,
                        chunk_size as nat,
                    )[i]
                &&& forall|i: int|
                    0 <= i < datagrams@.len() ==> (is_end_spec((#[trigger] datagrams@[i])@) <==> i
                        == datagrams@.len() - 1)
                &&& forall|i: int|
                    0 <= i < datagrams@.len() ==> 3 <= (#[trigger] datagrams@[i])@.len()
                        <= chunk_size + 2
            },
            Err(e) => e == if chunk_size == 0 {
                PreconditionViolation::ZeroChunkSize
            } else {
                PreconditionViolation::TooManyChunks
            },
        },
{
    if chunk_size == 0 {
        return Err(PreconditionViolation::ZeroChunkSize);
    }
    if count_chunks(payload.len(), chunk_size) > MAX_CHUNKS {
        return Err(PreconditionViolation::TooManyChunks);
    }
    let frames = frame(payload, chunk_size);
    let ghost wanted = outgoing_spec(payload@, chunk_size as nat);
    let ghost views = frame_spec(payload@, chunk_size as nat);
    proof {
        assert(frame_views(frames@).len() == frames@.len());
    }
    let mut datagrams: Vec<Vec<u8>> = Vec::new();
    let mut at: usize = 0;
    while at < frames.len()
        invariant
            at <= frames@.len(),
            frame_views(frames@) == views,
            views == frame_spec(payload@, chunk_size as nat),
            wanted == outgoing_spec(payload@, chunk_size as nat),
            chunk_size > 0,
            chunk_count(payload@.len(), chunk_size as nat) <= MAX_CHUNKS,
            datagrams@.len() == at,
            frames@.len() == chunk_count(payload@.len(), chunk_size as nat),
            forall|i: int| 0 <= i < at ==> (#[trigger] datagrams@[i])@ == wanted[i],
            forall|i: int| 0 <= i < at ==> !is_end_spec((#[trigger] datagrams@[i])@),
            forall|i: int| 0 <= i < at ==> 3 <= (#[trigger] datagrams@[i])@.len() <= chunk_size + 2,
        decreases frames@.len() - at,
    {
        let raw = frames[at].to_datagram();
        proof {
            assert(frame_views(frames@)[at as int] == frames@[at as int]@);
            assert(wanted[at as int] == datagram_of(views[at as int]));
            lemma_sentinel_exclusive(payload@, chunk_size as nat, at as int);
            lemma_chunk_lengths(payload@, chunk_size as nat, at as int);
        }
        datagrams.push(raw);
        at = at + 1;
    }
    let last = sentinel();
    datagrams.push(last);
    Ok(datagrams)
}

/// One step of the receiving phase. A datagram that reads as end of stream
/// completes the transfer with what was reassembled; any other datagram that
/// holds a sequence number is stored; a shorter one is dropped. A timeout gives
/// what arrived so far as a partial result, a channel failure gives nothing.
/// Whenever the transfer ends, the reassembler is left empty for the next one.
pub fn on_event(state: &mut Reassembler, event: Event) -> (step: Step)
    ensures
        match event {
            Event::Datagram(raw) => if is_end_spec(raw@) {
                &&& step matches Step::Complete(bytes)
                &&& bytes@ == reassembled(old(state)@)
                &&& final(state)@ == Map::<u16, Seq<u8>>::empty()
            } else {
                &&& step is Continue
                &&& final(state)@ == match parse_spec(raw@) {
                    Some(f) => old(state)@.insert(f.sequence, f.payload),
                    None => old(state)@,
                }
            },
            Event::Timeout => {
                &&& step matches Step::Partial(bytes)
                &&& bytes@ == reassembled(old(state)@)
                &&& final(state)@ == Map::<u16, Seq<u8>>::empty()
            },
            Event::ChannelFailure => {
                &&& step is Failed
                &&& final(state)@ == Map::<u16, Seq<u8>>::empty()
            },
        },
{
    match event {
        Event::Datagram(raw) => {
            if is_end(raw.as_slice()) {
                Step::Complete(state.finalize())
            } else {
                match parse_frame(raw.as_slice()) {
                    Some(f) => {
                        state.accept(f);
                    },
                    None => {},
                }
                Step::Continue
            }
        },
        Event::Timeout => Step::Partial(state.finalize()),
        Event::ChannelFailure => {
            let _ = state.finalize();
            Step::Failed
        },
    }
}

} // verus!
