//! Everything asserted here is something that an observer of the link can measure.

use dvpn::measure::{parse, summarize};
use dvpn::seal::ReplayWindow;
use dvpn::time::{Duration, Instant};
use dvpn::transport::{
    wire_csv, ChaChaSeal, Direction, Emitted, Endpoint, Received, Seal, TransportError,
    DATAGRAM_LEN, SEAL_OVERHEAD,
};
use dvpn::wire::{decode, encode, FrameKind, WireError, FRAME_LEN, MAX_PAYLOAD};

const K1: [u8; 32] = [0x11; 32];
const K2: [u8; 32] = [0x22; 32];

fn start() -> Instant {
    Instant::from_nanos(7_000_000_000)
}

fn later(t: Instant, millis: u64) -> Instant {
    t.after(Duration::from_millis(millis))
}

/// A pair of endpoints that hold each other's keys.
fn pair() -> (Endpoint<ChaChaSeal>, Endpoint<ChaChaSeal>) {
    (
        Endpoint::new(ChaChaSeal::new(&K1, &K2, Direction::ClientToServer), start()),
        Endpoint::new(ChaChaSeal::new(&K2, &K1, Direction::ServerToClient), start()),
    )
}

#[test]
fn an_observer_sees_one_datagram_size_no_matter_what_is_inside() {
    let (mut client, _server) = pair();
    let now = start();
    let mut wire: Vec<Vec<u8>> = Vec::new();

    // A TCP ACK, a DNS query, a full-MTU segment, and cover traffic.
    for payload in [vec![], vec![0u8; 40], vec![0u8; 74], vec![0u8; MAX_PAYLOAD]] {
        client.queue(&payload).unwrap();
    }
    client.flush(now, &mut wire).unwrap();
    client.send_padding(now, false, &mut wire).unwrap();

    let seen: Vec<usize> = wire.iter().map(|d| d.len()).collect();
    assert_eq!(seen.len(), 5, "expected five datagrams, saw {seen:?}");
    assert!(
        seen.iter().all(|&n| n == DATAGRAM_LEN),
        "datagram sizes leaked payload size: {seen:?}"
    );
}

#[test]
fn payload_size_is_not_recoverable_from_the_ciphertext_length() {
    // Sealing adds a constant, so the sealed length carries no information about the frame's
    // contents.
    let mut seal = ChaChaSeal::new(&K1, &K2, Direction::ClientToServer);
    let mut lens: Vec<usize> = Vec::new();
    for n in [0usize, 1, 500, MAX_PAYLOAD] {
        let mut frame = [0u8; FRAME_LEN];
        encode(FrameKind::Data, &vec![0xcd; n], &mut frame).unwrap();
        let mut out: Vec<u8> = Vec::new();
        seal.seal(&frame, &mut out).unwrap();
        lens.push(out.len());
    }
    assert!(lens.iter().all(|&l| l == DATAGRAM_LEN), "{lens:?}");
}

#[test]
fn real_traffic_survives_the_round_trip() {
    let (mut client, mut server) = pair();
    let now = start();
    let mut wire: Vec<Vec<u8>> = Vec::new();

    client.queue(b"GET / HTTP/1.1").unwrap();
    client.queue(&[0xab; MAX_PAYLOAD]).unwrap();
    let emitted = client.flush(now, &mut wire).unwrap();
    assert_eq!(emitted, vec![Emitted::Data, Emitted::Data]);

    assert_eq!(
        server.recv(true, &wire[0], now),
        Some(Received::Data(b"GET / HTTP/1.1".to_vec()))
    );
    assert_eq!(server.recv(true, &wire[1], now), Some(Received::Data(vec![0xab; MAX_PAYLOAD])));
}

#[test]
fn padding_arrives_classified_as_padding() {
    // The receiving end must be able to tell cover traffic from real traffic, or it cannot
    // feed PaddingRecv and the peer's machines stall.
    let (mut client, mut server) = pair();
    let now = start();
    let mut wire: Vec<Vec<u8>> = Vec::new();
    assert!(client.send_padding(now, false, &mut wire).unwrap());
    assert_eq!(server.recv(true, &wire[0], now), Some(Received::Padding));
    assert_eq!(server.stats().padding_in, 1);
    assert_eq!(server.stats().data_in, 0);
}

#[test]
fn blocking_holds_real_traffic_and_releases_it_after() {
    let (mut client, mut server) = pair();
    let t0 = start();
    let mut wire: Vec<Vec<u8>> = Vec::new();

    client.block_outgoing(t0, Duration::from_millis(50), false);
    client.queue(b"held").unwrap();

    assert!(client.flush(t0, &mut wire).unwrap().is_empty(), "blocked traffic must not leave");
    assert!(client.has_queued());
    assert!(wire.is_empty(), "nothing should have arrived");
    assert_eq!(client.stats().queue_depth, 1);

    let t1 = later(t0, 60);
    assert_eq!(client.flush(t1, &mut wire).unwrap(), vec![Emitted::Data]);
    assert_eq!(server.recv(true, &wire[0], t1), Some(Received::Data(b"held".to_vec())));
    assert_eq!(client.stats().queue_depth, 0);
    assert_eq!(client.stats().blocked_for, Duration::from_millis(50));
}

#[test]
fn a_longer_block_is_not_cancelled_by_a_shorter_one() {
    let (mut client, _server) = pair();
    let t0 = start();
    client.block_outgoing(t0, Duration::from_millis(100), false);
    client.block_outgoing(t0, Duration::from_millis(10), false);
    assert!(
        client.is_blocked(later(t0, 50)),
        "the shorter request truncated the longer machine's block"
    );
    assert!(!client.is_blocked(later(t0, 100)));
    assert_eq!(client.stats().blocked_for, Duration::from_millis(100));
}

#[test]
fn bypass_padding_respects_whether_the_block_allowed_it() {
    let (mut client, _s) = pair();
    let t0 = start();
    let mut wire: Vec<Vec<u8>> = Vec::new();

    client.block_outgoing(t0, Duration::from_millis(50), false);
    assert!(
        !client.send_padding(t0, true, &mut wire).unwrap(),
        "non-bypassable block was bypassed"
    );

    let (mut client2, _s2) = pair();
    client2.block_outgoing(t0, Duration::from_millis(50), true);
    assert!(
        client2.send_padding(t0, true, &mut wire).unwrap(),
        "bypassable block should let it through"
    );
    assert!(
        !client2.send_padding(t0, false, &mut wire).unwrap(),
        "non-bypass padding must still wait"
    );
    assert_eq!(wire.len(), 1);
}

#[test]
fn the_request_that_extends_a_block_says_whether_it_is_bypassable() {
    let t0 = start();
    let mut wire: Vec<Vec<u8>> = Vec::new();

    // A shorter request has no say.
    let (mut client, _s) = pair();
    client.block_outgoing(t0, Duration::from_millis(100), false);
    client.block_outgoing(t0, Duration::from_millis(10), true);
    assert_eq!(client.send_padding(later(t0, 50), true, &mut wire), Ok(false));
    assert!(wire.is_empty());
    assert_eq!(client.send_padding(later(t0, 100), true, &mut wire), Ok(true));
    assert_eq!(client.stats().blocked_for, Duration::from_millis(100));

    let (mut client, _s) = pair();
    client.block_outgoing(t0, Duration::from_millis(100), true);
    client.block_outgoing(later(t0, 10), Duration::from_millis(20), false);
    assert_eq!(client.send_padding(later(t0, 20), true, &mut wire), Ok(true));
    assert_eq!(client.send_padding(later(t0, 50), true, &mut wire), Ok(true));
    assert_eq!(client.send_padding(later(t0, 50), false, &mut wire), Ok(false));
    assert_eq!(client.stats().blocked_for, Duration::from_millis(100));

    // Nor has one that ends at the same time.
    let (mut client, _s) = pair();
    client.block_outgoing(t0, Duration::from_millis(30), false);
    client.block_outgoing(later(t0, 10), Duration::from_millis(20), true);
    assert_eq!(client.send_padding(later(t0, 20), true, &mut wire), Ok(false));

    // A longer one has.
    let (mut client, _s) = pair();
    client.block_outgoing(t0, Duration::from_millis(30), false);
    client.block_outgoing(t0, Duration::from_millis(100), true);
    assert_eq!(client.send_padding(later(t0, 20), true, &mut wire), Ok(true));
    assert_eq!(client.send_padding(later(t0, 20), false, &mut wire), Ok(false));
    assert!(client.is_blocked(later(t0, 99)));
    assert_eq!(client.stats().blocked_for, Duration::from_millis(130));

    let (mut client, _s) = pair();
    client.block_outgoing(t0, Duration::from_millis(30), true);
    client.block_outgoing(t0, Duration::from_millis(100), false);
    assert_eq!(client.send_padding(later(t0, 20), true, &mut wire), Ok(false));
    assert_eq!(client.send_padding(later(t0, 99), true, &mut wire), Ok(false));
}

#[test]
fn a_flush_ends_a_block_that_has_run_out_and_no_other() {
    let (mut client, _s) = pair();
    let t0 = start();
    let mut wire: Vec<Vec<u8>> = Vec::new();
    client.block_outgoing(t0, Duration::from_millis(20), false);
    client.flush(later(t0, 10), &mut wire).unwrap();
    assert_eq!(client.send_padding(later(t0, 19), true, &mut wire), Ok(false));
    client.flush(later(t0, 20), &mut wire).unwrap();
    // That block is gone: a new one that is bypassable lets cover traffic through.
    client.block_outgoing(later(t0, 20), Duration::from_millis(20), true);
    assert_eq!(client.send_padding(later(t0, 21), true, &mut wire), Ok(true));
    assert_eq!(client.send_padding(later(t0, 21), false, &mut wire), Ok(false));
}

#[test]
fn a_tampered_datagram_is_dropped_silently() {
    let (_client, mut server) = pair();
    let now = start();

    // A datagram of exactly the right size: correct length, wrong key, wrong address.
    assert_eq!(server.recv(false, &vec![0x5a; DATAGRAM_LEN], now), None);
    assert!(server.stats().dropped >= 1);
    // From the right address it fails authentication.
    assert_eq!(server.recv(true, &vec![0x5a; DATAGRAM_LEN], now), None);
    assert_eq!(server.stats().dropped, 2);
    assert!(server.trace().is_empty());
}

#[test]
fn a_replayed_datagram_is_not_delivered_twice() {
    let mut seal_send = ChaChaSeal::new(&K1, &K2, Direction::ClientToServer);
    let mut seal_recv = ChaChaSeal::new(&K2, &K1, Direction::ServerToClient);

    let mut frame = [0u8; FRAME_LEN];
    encode(FrameKind::Data, b"once", &mut frame).unwrap();
    let mut datagram: Vec<u8> = Vec::new();
    seal_send.seal(&frame, &mut datagram).unwrap();

    let mut out = [0u8; FRAME_LEN];
    assert!(seal_recv.open(&datagram, &mut out).is_ok());
    assert!(
        matches!(seal_recv.open(&datagram, &mut out), Err(TransportError::Replay { .. })),
        "a replayed datagram would let an attacker inject spurious defense events"
    );
}

#[test]
fn a_datagram_of_the_wrong_size_is_rejected_before_decryption() {
    let mut seal = ChaChaSeal::new(&K2, &K1, Direction::ServerToClient);
    let mut out = [0u8; FRAME_LEN];
    assert!(matches!(
        seal.open(&[0u8; 64], &mut out),
        Err(TransportError::WrongDatagramLength { got: 64 })
    ));
}

#[test]
fn the_trace_records_the_constant_size_rather_than_asserting_it() {
    let (mut client, _s) = pair();
    let now = start();
    let mut wire: Vec<Vec<u8>> = Vec::new();
    client.queue(b"x").unwrap();
    client.flush(now, &mut wire).unwrap();
    client.send_padding(now, false, &mut wire).unwrap();

    let trace = client.trace();
    assert_eq!(trace.len(), 2);
    assert!(trace.iter().all(|e| e.bytes == DATAGRAM_LEN));
    assert!(trace[0].sent && !trace[0].padding);
    assert!(trace[1].sent && trace[1].padding);

    // And it serialises to the format the simulator reads.
    let csv = client.trace_csv();
    assert_eq!(csv.lines().count(), 2);
    assert!(csv.lines().all(|l| l.ends_with(",s")));
}

#[test]
fn an_oversize_packet_is_refused_rather_than_truncated() {
    let (mut client, _s) = pair();
    assert!(matches!(
        client.queue(&vec![0u8; MAX_PAYLOAD + 1]),
        Err(TransportError::PacketTooLarge { .. })
    ));
}

#[test]
fn replay_window_accepts_reordering_but_not_repeats() {
    let mut w = ReplayWindow::default();
    assert!(w.accept(1));
    assert!(w.accept(5));
    assert!(w.accept(3), "reordered but fresh");
    assert!(!w.accept(3), "same counter twice");
    assert!(!w.accept(1), "already seen");
    assert!(w.accept(200));
    assert!(!w.accept(5), "now outside the window");
}

#[test]
fn the_window_is_sixty_four_wide() {
    let mut w = ReplayWindow::default();
    assert!(w.accept(100));
    assert!(w.accept(37), "63 behind is inside");
    assert!(!w.accept(36), "64 behind is outside");
    assert!(w.accept(101));
    assert!(!w.accept(37), "seen, and by now outside");
    assert!(w.accept(38));
    assert!(!w.accept(38));
    let mut fresh = ReplayWindow::default();
    assert!(fresh.accept(0));
    assert!(!fresh.accept(0));
    assert!(fresh.accept(u64::MAX));
    assert!(!fresh.accept(u64::MAX));
}

#[test]
fn a_sealed_datagram_is_counter_then_ciphertext_and_tag() {
    assert_eq!(SEAL_OVERHEAD, 24);
    assert_eq!(DATAGRAM_LEN, 1224);
    let mut seal = ChaChaSeal::new(&K1, &K2, Direction::ClientToServer);
    let frame = [0x33u8; FRAME_LEN];
    let mut first: Vec<u8> = vec![9, 9, 9];
    seal.seal(&frame, &mut first).unwrap();
    let mut second: Vec<u8> = Vec::new();
    seal.seal(&frame, &mut second).unwrap();
    assert_eq!(&first[..8], &1u64.to_be_bytes());
    assert_eq!(&second[..8], &2u64.to_be_bytes());
    assert_ne!(&first[8..], &second[8..], "another counter, another key stream");
    assert_ne!(&first[8..8 + FRAME_LEN], &frame[..], "the frame is encrypted");
}

#[test]
fn the_two_directions_do_not_open_each_other() {
    // The same key both ways: only the direction in the nonce keeps the two apart.
    let mut a = ChaChaSeal::new(&K1, &K1, Direction::ClientToServer);
    let mut b = ChaChaSeal::new(&K1, &K1, Direction::ServerToClient);
    let frame = [0x44u8; FRAME_LEN];
    let mut datagram: Vec<u8> = Vec::new();
    a.seal(&frame, &mut datagram).unwrap();
    let mut out = [0u8; FRAME_LEN];
    assert_eq!(a.open(&datagram, &mut out), Err(TransportError::OpenFailed));
    assert_eq!(out, [0u8; FRAME_LEN]);
    assert!(b.open(&datagram, &mut out).is_ok());
    assert_eq!(out, frame);
}

#[test]
fn a_forged_counter_does_not_poison_the_window() {
    let mut a = ChaChaSeal::new(&K1, &K2, Direction::ClientToServer);
    let mut b = ChaChaSeal::new(&K2, &K1, Direction::ServerToClient);
    let frame = [0x55u8; FRAME_LEN];
    let mut datagram: Vec<u8> = Vec::new();
    a.seal(&frame, &mut datagram).unwrap();
    let mut forged = datagram.clone();
    forged[..8].copy_from_slice(&u64::MAX.to_be_bytes());
    let mut out = [0u8; FRAME_LEN];
    assert_eq!(b.open(&forged, &mut out), Err(TransportError::OpenFailed));
    assert!(b.open(&datagram, &mut out).is_ok(), "the window has not moved");
}

#[test]
fn reordered_datagrams_are_all_opened() {
    let (mut client, mut server) = pair();
    let now = start();
    let mut wire: Vec<Vec<u8>> = Vec::new();
    for i in 0u8..10 {
        client.queue(&[i]).unwrap();
    }
    client.flush(now, &mut wire).unwrap();
    for i in (0u8..10).rev() {
        assert_eq!(server.recv(true, &wire[i as usize], now), Some(Received::Data(vec![i])));
    }
    assert_eq!(server.stats().data_in, 10);
    assert_eq!(server.stats().dropped, 0);
}

#[test]
fn control_frames_pass_a_block() {
    let (mut client, mut server) = pair();
    let now = start();
    let mut wire: Vec<Vec<u8>> = Vec::new();
    client.block_outgoing(now, Duration::from_millis(50), false);
    client.send_control(FrameKind::Hello, b"hi", now, &mut wire).unwrap();
    client.send_control(FrameKind::Close, &[], now, &mut wire).unwrap();
    assert_eq!(server.recv(true, &wire[0], now), Some(Received::Control(b"hi".to_vec())));
    assert_eq!(server.recv(true, &wire[1], now), Some(Received::Close));
    assert_eq!(
        client.send_control(FrameKind::Close, &[1], now, &mut wire),
        Err(TransportError::Wire(WireError::UnexpectedPayload(FrameKind::Close)))
    );
    assert_eq!(wire.len(), 2);
    let s = client.stats();
    assert_eq!((s.data_out, s.padding_out), (0, 0));
    assert_eq!(client.trace().len(), 2);
}

#[test]
fn the_wire_trace_has_a_size_column() {
    let (mut client, mut server) = pair();
    let mut wire: Vec<Vec<u8>> = Vec::new();
    client.queue(b"x").unwrap();
    client.flush(later(start(), 2), &mut wire).unwrap();
    server.recv(true, &wire[0], later(start(), 5));
    assert_eq!(client.trace_csv(), "2000000,s\n");
    assert_eq!(server.trace_csv(), "5000000,r\n");
    assert_eq!(wire_csv(client.trace()), "2000000,s,1224\n");
    assert_eq!(wire_csv(server.trace()), "5000000,r,1224\n");
    // Before the start of the trace counts as its start.
    let mut early = pair().0;
    early.send_padding(Instant::from_nanos(1), false, &mut wire).unwrap();
    assert_eq!(early.trace_csv(), "0,s\n");
}

#[test]
fn an_observer_who_sums_up_the_trace_counts_one_size() {
    let (mut client, mut server) = pair();
    let mut wire: Vec<Vec<u8>> = Vec::new();
    for len in [0usize, 1, 40, 576, MAX_PAYLOAD] {
        client.queue(&vec![7u8; len]).unwrap();
    }
    client.flush(later(start(), 1), &mut wire).unwrap();
    client.send_padding(later(start(), 2), false, &mut wire).unwrap();
    for d in &wire {
        server.recv(true, d, later(start(), 3));
    }
    for end in [&client, &server] {
        let s = summarize(&parse(&wire_csv(end.trace())).unwrap());
        assert_eq!((s.packets, s.unique_sizes), (6, 1));
        assert_eq!(s.size_counts[&DATAGRAM_LEN], 6);
        assert_eq!(s.bytes, 6 * 1224);
    }
}

#[test]
fn an_opened_frame_decodes_to_what_was_queued() {
    let mut a = ChaChaSeal::new(&K1, &K2, Direction::ClientToServer);
    let mut b = ChaChaSeal::new(&K2, &K1, Direction::ServerToClient);
    let mut frame = [0u8; FRAME_LEN];
    encode(FrameKind::Data, b"payload", &mut frame).unwrap();
    let mut datagram: Vec<u8> = Vec::new();
    a.seal(&frame, &mut datagram).unwrap();
    let mut out = [0u8; FRAME_LEN];
    b.open(&datagram, &mut out).unwrap();
    let f = decode(&out).unwrap();
    assert_eq!((f.kind, f.payload), (FrameKind::Data, &b"payload"[..]));
}

#[test]
fn transport_errors_say_what_is_wrong() {
    assert_eq!(
        TransportError::from(WireError::UnknownKind(7)).message(),
        "wire: unknown frame kind 7"
    );
    assert_eq!(TransportError::SealFailed.message(), "sealing failed");
    assert_eq!(TransportError::OpenFailed.message(), "datagram failed authentication");
    assert_eq!(TransportError::Replay { counter: 3 }.message(), "replayed counter 3");
    assert_eq!(
        TransportError::WrongDatagramLength { got: 64 }.message(),
        "datagram of 64 bytes, expected 1224"
    );
    assert_eq!(
        TransportError::CounterExhausted.message(),
        "send counter exhausted; rekey required"
    );
    assert_eq!(
        TransportError::PacketTooLarge { len: 1198 }.message(),
        "packet of 1198 exceeds 1197"
    );
}
