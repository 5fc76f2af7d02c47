use stegolink::frame::{copy_range, frame, is_end, parse_frame, sentinel, Frame};
use stegolink::reassembly::{reassemble, Reassembler};
use stegolink::transport::{
    count_chunks, next_phase, on_event, outgoing, Event, Phase, PreconditionViolation, Role,
    Signal, Step,
};

fn sample(len: usize) -> Vec<u8> {
    let mut bytes = Vec::new();
    for i in 0..len {
        bytes.push((i * 7 % 251) as u8);
    }
    bytes
}

#[test]
fn frame_cuts_consecutive_chunks() {
    let bytes: Vec<u8> = vec![1, 2, 3, 4, 5, 6, 7, 8, 9, 10];
    let frames = frame(&bytes, 4);
    assert_eq!(frames.len(), 3);
    assert_eq!(frames[0].sequence, 0);
    assert_eq!(frames[0].payload, vec![1, 2, 3, 4]);
    assert_eq!(frames[1].sequence, 1);
    assert_eq!(frames[1].payload, vec![5, 6, 7, 8]);
    assert_eq!(frames[2].sequence, 2);
    assert_eq!(frames[2].payload, vec![9, 10]);
}

#[test]
fn frame_of_empty_payload_is_empty() {
    let frames = frame(&[], 512);
    assert_eq!(frames.len(), 0);
}

#[test]
fn frame_of_exact_multiple_has_full_last_chunk() {
    let bytes = sample(1024);
    let frames = frame(&bytes, 512);
    assert_eq!(frames.len(), 2);
    assert_eq!(frames[1].payload.len(), 512);
    assert_eq!(frames[1].payload[..], bytes[512..]);
}

#[test]
fn frame_sequence_wraps_after_65536_chunks() {
    let bytes = sample(65538);
    let frames = frame(&bytes, 1);
    assert_eq!(frames.len(), 65538);
    assert_eq!(frames[65535].sequence, 65535);
    assert_eq!(frames[65536].sequence, 0);
    assert_eq!(frames[65537].sequence, 1);
}

#[test]
fn count_chunks_rounds_up() {
    assert_eq!(count_chunks(0, 512), 0);
    assert_eq!(count_chunks(1, 512), 1);
    assert_eq!(count_chunks(512, 512), 1);
    assert_eq!(count_chunks(513, 512), 2);
    assert_eq!(count_chunks(usize::MAX, 1), usize::MAX);
}

#[test]
fn datagram_is_big_endian_sequence_then_payload() {
    let f = Frame { sequence: 0x0102, payload: vec![9, 8, 7] };
    assert_eq!(f.to_datagram(), vec![1, 2, 9, 8, 7]);
    let g = Frame { sequence: 0xFFFE, payload: vec![] };
    assert_eq!(g.to_datagram(), vec![0xFF, 0xFE]);
}

#[test]
fn parse_frame_reads_sequence_and_payload() {
    let f = parse_frame(&[0x12, 0x34, 5, 6]).unwrap();
    assert_eq!(f.sequence, 0x1234);
    assert_eq!(f.payload, vec![5, 6]);
    let bare = parse_frame(&[0, 7]).unwrap();
    assert_eq!(bare.sequence, 7);
    assert_eq!(bare.payload.len(), 0);
}

#[test]
fn parse_frame_refuses_short_datagrams() {
    assert!(parse_frame(&[]).is_none());
    assert!(parse_frame(&[1]).is_none());
}

#[test]
fn parse_frame_inverts_to_datagram() {
    let f = Frame { sequence: 513, payload: vec![1, 2, 3] };
    let back = parse_frame(&f.to_datagram()).unwrap();
    assert_eq!(back.sequence, 513);
    assert_eq!(back.payload, vec![1, 2, 3]);
}

#[test]
fn sentinel_is_three_bytes_and_reads_as_end() {
    let s = sentinel();
    assert_eq!(s, vec![0xFF, 0xFF, 0x45]);
    assert!(is_end(&s));
}

#[test]
fn is_end_tests_the_leading_bytes() {
    assert!(is_end(&[0xFF, 0xFF, 0x45, 0, 0]));
    assert!(!is_end(&[0xFF, 0xFF]));
    assert!(!is_end(&[0xFF, 0xFF, 0x44]));
    assert!(!is_end(&[0xFF, 0xFE, 0x45]));
    assert!(!is_end(b"END"));
    assert!(!is_end(&[]));
}

#[test]
fn round_trip_in_order() {
    let bytes = sample(1300);
    let mut r = Reassembler::new();
    for f in frame(&bytes, 512) {
        r.accept(f);
    }
    assert_eq!(r.finalize(), bytes);
}

#[test]
fn round_trip_in_reverse_order() {
    let bytes = sample(2000);
    let mut frames = frame(&bytes, 100);
    frames.reverse();
    let mut r = Reassembler::new();
    for f in frames {
        r.accept(f);
    }
    assert_eq!(r.finalize(), bytes);
}

#[test]
fn round_trip_in_scattered_order() {
    let bytes = sample(997);
    let frames = frame(&bytes, 10);
    let n = frames.len();
    let mut slots: Vec<Option<Frame>> = frames.into_iter().map(Some).collect();
    let mut r = Reassembler::new();
    for step in 0..n {
        let pick = (step * 37) % n;
        r.accept(slots[pick].take().unwrap());
    }
    assert_eq!(r.finalize(), bytes);
}

#[test]
fn round_trip_of_empty_payload() {
    let mut r = Reassembler::new();
    for f in frame(&[], 8) {
        r.accept(f);
    }
    assert_eq!(r.finalize(), Vec::<u8>::new());
}

#[test]
fn round_trip_with_chunk_size_one() {
    let bytes = sample(300);
    let mut r = Reassembler::new();
    for f in frame(&bytes, 1) {
        r.accept(f);
    }
    assert_eq!(r.finalize(), bytes);
}

#[test]
fn withheld_frame_leaves_a_gap() {
    let bytes = sample(1000);
    let mut r = Reassembler::new();
    for f in frame(&bytes, 300) {
        if f.sequence != 1 {
            r.accept(f);
        }
    }
    let got = r.finalize();
    assert_eq!(got.len(), 700);
    assert!(got.len() < bytes.len());
    assert_eq!(got[..300], bytes[..300]);
    assert_eq!(got[300..], bytes[600..]);
    assert_ne!(got[300], bytes[300]);
}

#[test]
fn withheld_last_frame_shortens_by_its_length() {
    let bytes = sample(1000);
    let mut r = Reassembler::new();
    for f in frame(&bytes, 300) {
        if f.sequence != 3 {
            r.accept(f);
        }
    }
    let got = r.finalize();
    assert_eq!(got.len(), 900);
    assert_eq!(got[..], bytes[..900]);
}

#[test]
fn duplicate_sequence_overwrites() {
    let mut r = Reassembler::new();
    r.accept(Frame { sequence: 0, payload: vec![1, 1] });
    r.accept(Frame { sequence: 1, payload: vec![2, 2] });
    r.accept(Frame { sequence: 0, payload: vec![9] });
    assert!(r.contains(0));
    assert!(r.contains(1));
    assert!(!r.contains(2));
    assert_eq!(r.finalize(), vec![9, 2, 2]);
}

#[test]
fn finalize_orders_by_sequence_number() {
    let mut r = Reassembler::new();
    r.accept(Frame { sequence: 0xFFFF, payload: vec![4] });
    r.accept(Frame { sequence: 300, payload: vec![3] });
    r.accept(Frame { sequence: 0, payload: vec![1] });
    r.accept(Frame { sequence: 2, payload: vec![2] });
    assert_eq!(r.finalize(), vec![1, 2, 3, 4]);
}

#[test]
fn finalize_leaves_the_reassembler_empty() {
    let mut r = Reassembler::new();
    r.accept(Frame { sequence: 5, payload: vec![1, 2, 3] });
    assert_eq!(r.finalize(), vec![1, 2, 3]);
    assert!(!r.contains(5));
    assert_eq!(r.finalize(), Vec::<u8>::new());
}

#[test]
fn no_frame_of_a_bounded_transfer_reads_as_end() {
    let bytes = vec![0x45u8; 65535];
    for f in frame(&bytes, 1) {
        assert!(!is_end(&f.to_datagram()));
    }
    let filled = vec![0xFFu8; 4096];
    for f in frame(&filled, 3) {
        assert!(!is_end(&f.to_datagram()));
    }
}

#[test]
fn outgoing_ends_with_one_sentinel() {
    let bytes = sample(1100);
    let plan = outgoing(&bytes, 512).unwrap();
    assert_eq!(plan.len(), 4);
    assert_eq!(plan[0][..2], [0, 0]);
    assert_eq!(plan[0][2..], bytes[..512]);
    assert_eq!(plan[1][..2], [0, 1]);
    assert_eq!(plan[2][..2], [0, 2]);
    assert_eq!(plan[2][2..], bytes[1024..]);
    assert_eq!(plan[3], sentinel());
    let ends = plan.iter().filter(|d| is_end(d)).count();
    assert_eq!(ends, 1);
    assert_eq!(plan[0].len(), 514);
    assert_eq!(plan[1].len(), 514);
    assert_eq!(plan[2].len(), 78);
    assert_eq!(plan[3].len(), 3);
}

#[test]
fn outgoing_of_empty_payload_is_the_sentinel_alone() {
    let plan = outgoing(&[], 512).unwrap();
    assert_eq!(plan.len(), 1);
    assert_eq!(plan[0], sentinel());
}

#[test]
fn outgoing_refuses_zero_chunk_size() {
    assert_eq!(outgoing(&[1, 2, 3], 0).unwrap_err(), PreconditionViolation::ZeroChunkSize);
    assert_eq!(outgoing(&[], 0).unwrap_err(), PreconditionViolation::ZeroChunkSize);
}

#[test]
fn outgoing_refuses_more_chunks_than_sequence_numbers() {
    let bytes = vec![0u8; 65536];
    assert_eq!(outgoing(&bytes, 1).unwrap_err(), PreconditionViolation::TooManyChunks);
    assert!(outgoing(&bytes[..65535], 1).is_ok());
    assert!(outgoing(&bytes, 2).is_ok());
}

#[test]
fn on_event_reassembles_until_end_of_stream() {
    let bytes = sample(1500);
    let mut plan = outgoing(&bytes, 512).unwrap();
    let last = plan.pop().unwrap();
    plan.reverse();
    let mut state = Reassembler::new();
    for d in plan {
        assert!(matches!(on_event(&mut state, Event::Datagram(d)), Step::Continue));
    }
    match on_event(&mut state, Event::Datagram(last)) {
        Step::Complete(got) => assert_eq!(got, bytes),
        other => panic!("unexpected step {:?}", other),
    }
    assert!(!state.contains(0));
}

#[test]
fn on_event_timeout_gives_partial_result() {
    let mut state = Reassembler::new();
    let _ = on_event(&mut state, Event::Datagram(vec![0, 1, 7, 7]));
    let _ = on_event(&mut state, Event::Datagram(vec![0, 0, 5]));
    match on_event(&mut state, Event::Timeout) {
        Step::Partial(got) => assert_eq!(got, vec![5, 7, 7]),
        other => panic!("unexpected step {:?}", other),
    }
    match on_event(&mut state, Event::Timeout) {
        Step::Partial(got) => assert_eq!(got.len(), 0),
        other => panic!("unexpected step {:?}", other),
    }
}

#[test]
fn on_event_channel_failure_abandons_the_transfer() {
    let mut state = Reassembler::new();
    let _ = on_event(&mut state, Event::Datagram(vec![0, 0, 5]));
    assert!(matches!(on_event(&mut state, Event::ChannelFailure), Step::Failed));
    assert!(!state.contains(0));
    assert_eq!(state.finalize(), Vec::<u8>::new());
}

#[test]
fn on_event_drops_datagrams_without_a_sequence_number() {
    let mut state = Reassembler::new();
    assert!(matches!(on_event(&mut state, Event::Datagram(vec![3])), Step::Continue));
    assert!(matches!(on_event(&mut state, Event::Datagram(vec![])), Step::Continue));
    assert_eq!(state.finalize(), Vec::<u8>::new());
}

#[test]
fn active_side_walks_its_phases() {
    let r = Role::Active;
    let mut p = Phase::Idle;
    p = next_phase(r, p, Signal::Begin);
    assert_eq!(p, Phase::Sending);
    p = next_phase(r, p, Signal::AllSent);
    assert_eq!(p, Phase::AwaitingResponse);
    p = next_phase(r, p, Signal::FrameArrived);
    assert_eq!(p, Phase::Receiving);
    p = next_phase(r, p, Signal::FrameArrived);
    assert_eq!(p, Phase::Receiving);
    p = next_phase(r, p, Signal::StreamEnded);
    assert_eq!(p, Phase::Done);
    p = next_phase(r, p, Signal::Reset);
    assert_eq!(p, Phase::Idle);
}

#[test]
fn passive_side_walks_its_phases() {
    let r = Role::Passive;
    let mut p = Phase::Receiving;
    p = next_phase(r, p, Signal::FrameArrived);
    assert_eq!(p, Phase::Receiving);
    p = next_phase(r, p, Signal::StreamEnded);
    assert_eq!(p, Phase::Processing);
    p = next_phase(r, p, Signal::Processed);
    assert_eq!(p, Phase::Sending);
    p = next_phase(r, p, Signal::AllSent);
    assert_eq!(p, Phase::Done);
    p = next_phase(r, p, Signal::Reset);
    assert_eq!(p, Phase::Receiving);
}

#[test]
fn failure_sends_each_side_to_rest() {
    assert_eq!(next_phase(Role::Active, Phase::Receiving, Signal::Failure), Phase::Idle);
    assert_eq!(next_phase(Role::Active, Phase::Sending, Signal::Failure), Phase::Idle);
    assert_eq!(next_phase(Role::Passive, Phase::Sending, Signal::Failure), Phase::Receiving);
    assert_eq!(next_phase(Role::Passive, Phase::Processing, Signal::Failure), Phase::Receiving);
}

#[test]
fn unexpected_signal_keeps_the_phase() {
    assert_eq!(next_phase(Role::Active, Phase::Idle, Signal::AllSent), Phase::Idle);
    assert_eq!(next_phase(Role::Passive, Phase::Receiving, Signal::Begin), Phase::Receiving);
    assert_eq!(next_phase(Role::Active, Phase::Sending, Signal::Reset), Phase::Sending);
    assert_eq!(next_phase(Role::Active, Phase::AwaitingResponse, Signal::StreamEnded), Phase::Done);
}

#[test]
fn copy_range_copies_the_bytes_between_two_offsets() {
    let bytes = [10u8, 11, 12, 13, 14];
    assert_eq!(copy_range(&bytes, 1, 4), vec![11, 12, 13]);
    assert_eq!(copy_range(&bytes, 0, 5), vec![10, 11, 12, 13, 14]);
    assert_eq!(copy_range(&bytes, 3, 3), Vec::<u8>::new());
}

#[test]
fn reassemble_inverts_frame() {
    let bytes = sample(5000);
    assert_eq!(reassemble(&frame(&bytes, 512)), bytes);
    assert_eq!(reassemble(&frame(&bytes, 1024)), bytes);
    assert_eq!(reassemble(&frame(&bytes, 5000)), bytes);
    assert_eq!(reassemble(&frame(&bytes, 9999)), bytes);
}

#[test]
fn reassemble_takes_frames_in_any_order() {
    let bytes = sample(700);
    let mut frames = frame(&bytes, 64);
    frames.swap(0, 10);
    frames.swap(3, 7);
    frames.rotate_left(4);
    assert_eq!(reassemble(&frames), bytes);
}

#[test]
fn reassemble_ignores_repeated_deliveries() {
    let bytes = sample(300);
    let mut frames = frame(&bytes, 100);
    let again = frame(&bytes, 100);
    for f in again {
        frames.insert(0, f);
    }
    assert_eq!(reassemble(&frames), bytes);
}

#[test]
fn reassemble_of_full_sequence_space() {
    let bytes = sample(65536);
    let frames = frame(&bytes, 1);
    assert_eq!(frames.len(), 65536);
    assert_eq!(reassemble(&frames), bytes);
}
