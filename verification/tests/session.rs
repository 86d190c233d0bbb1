//! The closed loop: every action is carried out, and every action carried out is reported.

use dvpn::engine::{Action, Engine, Timer, TriggerEvent};
use dvpn::policy::{DefenseLevel, Policy, Role};
use dvpn::session::{goes_on, report, Session, Source, MAX_IDLE_NANOS};
use dvpn::time::{Duration, Instant};
use dvpn::timers::{Block, Padding, Timers};
use dvpn::transport::{ChaChaSeal, Direction, Endpoint, Received, TransportError};
use dvpn::wire::{FrameKind, MAX_PAYLOAD};
use dvpn::workload::{trace_csv, Browsing, Lcg, RealPacket, Responder};

const K1: [u8; 32] = [0x11; 32];
const K2: [u8; 32] = [0x22; 32];

fn at(millis: u64) -> Instant {
    Instant::from_nanos(1_000_000_000).after(Duration::from_millis(millis))
}

fn ms(millis: u64) -> Duration {
    Duration::from_millis(millis)
}

fn session() -> Session<ChaChaSeal> {
    let policy = Policy { level: DefenseLevel::Light, ..Policy::default() };
    let engine = Engine::start(&policy, DefenseLevel::Light, true).unwrap();
    let seal = ChaChaSeal::new(&K1, &K2, Direction::ClientToServer);
    Session::new(engine, Endpoint::new(seal, at(0)))
}

fn peer() -> Endpoint<ChaChaSeal> {
    Endpoint::new(ChaChaSeal::new(&K2, &K1, Direction::ServerToClient), at(0))
}

fn padding(machine: usize, timeout: Duration, replace: bool, bypass: bool) -> Action {
    Action::SendPadding { machine, timeout, replace, bypass }
}

fn block(machine: usize, timeout: Duration, duration: Duration, bypass: bool) -> Action {
    Action::BlockOutgoing { machine, timeout, duration, replace: false, bypass }
}

#[test]
fn a_new_session_has_nothing_to_say() {
    let mut s = session();
    assert_eq!(s.level(), DefenseLevel::Light);
    assert_eq!(s.role(), Role::Client);
    assert_eq!(s.take_events(), None);
    assert_eq!(s.wake_after(at(0)), Duration::from_nanos(MAX_IDLE_NANOS));
    let mut wire: Vec<Vec<u8>> = Vec::new();
    s.fire_timers(at(0), &mut wire).unwrap();
    assert!(wire.is_empty());
    assert_eq!(s.take_events(), None);
}

#[test]
fn originated_packets_are_reported_and_arrive() {
    let mut s = session();
    let mut wire: Vec<Vec<u8>> = Vec::new();
    s.originate(&[b"one".to_vec(), b"two".to_vec()], at(1), &mut wire).unwrap();
    assert_eq!(wire.len(), 2);
    assert_eq!(
        s.take_events(),
        Some(vec![
            TriggerEvent::NormalSent,
            TriggerEvent::NormalSent,
            TriggerEvent::TunnelSent,
            TriggerEvent::TunnelSent,
        ])
    );
    assert_eq!(s.take_events(), None);
    let mut p = peer();
    assert_eq!(p.recv(true, &wire[0], at(2)), Some(Received::Data(b"one".to_vec())));
    assert_eq!(p.recv(true, &wire[1], at(2)), Some(Received::Data(b"two".to_vec())));
}

#[test]
fn received_datagrams_are_reported_in_pairs() {
    let mut p = peer();
    let mut wire: Vec<Vec<u8>> = Vec::new();
    p.queue(b"hello").unwrap();
    p.flush(at(0), &mut wire).unwrap();
    p.send_padding(at(0), false, &mut wire).unwrap();
    let mut s = session();
    assert_eq!(s.take_datagram(true, &wire[0], at(1)), Some(Received::Data(b"hello".to_vec())));
    assert_eq!(s.take_datagram(true, &wire[1], at(1)), Some(Received::Padding));
    // A replay and a stranger are dropped without a word to the machines.
    assert_eq!(s.take_datagram(true, &wire[1], at(1)), None);
    assert_eq!(s.take_datagram(false, &wire[1], at(1)), None);
    assert_eq!(s.endpoint.stats().dropped, 2);
    assert_eq!(
        s.take_events(),
        Some(vec![
            TriggerEvent::TunnelRecv,
            TriggerEvent::NormalRecv,
            TriggerEvent::TunnelRecv,
            TriggerEvent::PaddingRecv,
        ])
    );
}

#[test]
fn a_frame_that_carries_no_packet_is_reported_as_received() {
    let mut p = peer();
    let mut wire: Vec<Vec<u8>> = Vec::new();
    p.send_control(FrameKind::HelloAck, b"again", at(0), &mut wire).unwrap();
    p.send_control(FrameKind::Close, b"", at(0), &mut wire).unwrap();
    let mut s = session();
    assert_eq!(s.take_datagram(true, &wire[0], at(1)), Some(Received::Control(b"again".to_vec())));
    assert_eq!(s.take_datagram(true, &wire[1], at(1)), Some(Received::Close));
    // A forgery is no tunnel packet.
    wire[1][20] ^= 1;
    assert_eq!(s.take_datagram(true, &wire[1], at(1)), None);
    assert_eq!(s.take_events(), Some(vec![TriggerEvent::TunnelRecv, TriggerEvent::TunnelRecv]));
}

#[test]
fn the_loop_goes_on_until_its_deadline_or_its_source_ends() {
    assert!(goes_on(at(4), Some(at(5)), false));
    assert!(!goes_on(at(5), Some(at(5)), false));
    assert!(!goes_on(at(4), Some(at(5)), true));
    assert!(goes_on(at(4), None, false));
    assert!(!goes_on(at(4), None, true));
}

#[test]
fn a_turn_fires_originates_and_reports_in_this_order() {
    let mut s = session();
    let mut wire: Vec<Vec<u8>> = Vec::new();
    assert_eq!(s.turn(&[], at(0), &mut wire), Ok(None));
    s.apply_actions(&[padding(2, ms(5), false, false)], at(0));
    let events = s.turn(&[b"one".to_vec(), b"two".to_vec()], at(5), &mut wire);
    assert_eq!(
        events,
        Ok(Some(vec![
            TriggerEvent::PaddingSent { machine: 2 },
            TriggerEvent::TunnelSent,
            TriggerEvent::NormalSent,
            TriggerEvent::NormalSent,
            TriggerEvent::TunnelSent,
            TriggerEvent::TunnelSent,
        ]))
    );
    assert_eq!(s.take_events(), None, "the batch was handed over");
    let mut p = peer();
    assert_eq!(wire.len(), 3);
    assert_eq!(p.recv(true, &wire[0], at(6)), Some(Received::Padding));
    assert_eq!(p.recv(true, &wire[1], at(6)), Some(Received::Data(b"one".to_vec())));
    assert_eq!(p.recv(true, &wire[2], at(6)), Some(Received::Data(b"two".to_vec())));
}

#[test]
fn a_turn_that_fails_keeps_what_left_and_hands_over_nothing() {
    let mut s = session();
    let mut wire: Vec<Vec<u8>> = Vec::new();
    s.apply_actions(&[padding(2, ms(5), false, false)], at(0));
    let large = vec![0u8; MAX_PAYLOAD + 1];
    assert_eq!(
        s.turn(&[b"one".to_vec(), large], at(5), &mut wire),
        Err(TransportError::PacketTooLarge { len: MAX_PAYLOAD + 1 })
    );
    assert_eq!(wire.len(), 1, "the cover traffic had left");
    assert_eq!(
        s.take_events(),
        Some(vec![
            TriggerEvent::PaddingSent { machine: 2 },
            TriggerEvent::TunnelSent,
            TriggerEvent::NormalSent,
        ])
    );
}

#[test]
fn honoured_padding_is_reported_to_its_machine() {
    let mut s = session();
    s.apply_actions(&[padding(7, ms(3), false, false)], at(0));
    assert_eq!(s.wake_after(at(1)), ms(2));
    let mut wire: Vec<Vec<u8>> = Vec::new();
    s.fire_timers(at(2), &mut wire).unwrap();
    assert!(wire.is_empty(), "not due yet");
    s.fire_timers(at(3), &mut wire).unwrap();
    assert_eq!(wire.len(), 1);
    assert_eq!(
        s.take_events(),
        Some(vec![TriggerEvent::PaddingSent { machine: 7 }, TriggerEvent::TunnelSent])
    );
    s.fire_timers(at(9), &mut wire).unwrap();
    assert_eq!(wire.len(), 1, "a timer fires once");
    assert_eq!(peer().recv(true, &wire[0], at(9)), Some(Received::Padding));
}

#[test]
fn a_block_holds_traffic_and_both_its_ends_are_reported() {
    let mut s = session();
    let mut wire: Vec<Vec<u8>> = Vec::new();
    s.apply_actions(&[block(1, ms(0), ms(20), false)], at(0));
    s.fire_timers(at(0), &mut wire).unwrap();
    assert_eq!(s.take_events(), Some(vec![TriggerEvent::BlockingBegin { machine: 1 }]));
    s.originate(&[b"held".to_vec()], at(5), &mut wire).unwrap();
    assert!(wire.is_empty());
    assert_eq!(s.take_events(), Some(vec![TriggerEvent::NormalSent]), "queued, not gone");
    s.fire_timers(at(19), &mut wire).unwrap();
    assert!(wire.is_empty());
    s.fire_timers(at(20), &mut wire).unwrap();
    assert_eq!(wire.len(), 1);
    assert_eq!(
        s.take_events(),
        Some(vec![TriggerEvent::BlockingEnd, TriggerEvent::TunnelSent])
    );
    s.fire_timers(at(21), &mut wire).unwrap();
    assert_eq!(s.take_events(), None, "the end is reported once");
}

#[test]
fn a_queued_packet_stands_in_for_padding() {
    let mut s = session();
    let mut wire: Vec<Vec<u8>> = Vec::new();
    // Hold traffic, queue a packet, and let padding with `replace` fire during the block.
    s.apply_actions(&[block(0, ms(0), ms(10), false), padding(1, ms(5), true, false)], at(0));
    s.fire_timers(at(0), &mut wire).unwrap();
    s.originate(&[b"real".to_vec()], at(1), &mut wire).unwrap();
    s.take_events();
    s.fire_timers(at(5), &mut wire).unwrap();
    assert!(wire.is_empty(), "the block still holds the packet");
    assert_eq!(s.take_events(), Some(vec![TriggerEvent::PaddingSent { machine: 1 }]));
    s.fire_timers(at(10), &mut wire).unwrap();
    assert_eq!(wire.len(), 1);
}

#[test]
fn padding_that_a_block_stops_is_not_reported() {
    let mut s = session();
    let mut wire: Vec<Vec<u8>> = Vec::new();
    s.apply_actions(&[block(0, ms(0), ms(50), true)], at(0));
    s.fire_timers(at(0), &mut wire).unwrap();
    s.take_events();
    s.apply_actions(&[padding(1, ms(1), false, false), padding(2, ms(2), false, true)], at(0));
    s.fire_timers(at(1), &mut wire).unwrap();
    assert!(wire.is_empty());
    assert_eq!(s.take_events(), None);
    // The other one may bypass the block.
    s.fire_timers(at(2), &mut wire).unwrap();
    assert_eq!(wire.len(), 1);
    assert_eq!(
        s.take_events(),
        Some(vec![TriggerEvent::PaddingSent { machine: 2 }, TriggerEvent::TunnelSent])
    );
}

#[test]
fn internal_timers_are_reported_at_both_ends() {
    let mut s = session();
    let mut wire: Vec<Vec<u8>> = Vec::new();
    s.apply_actions(
        &[
            Action::UpdateTimer { machine: 3, duration: ms(4), replace: false },
            Action::UpdateTimer { machine: 4, duration: ms(4), replace: false },
            Action::Cancel { machine: 4, timer: Timer::Internal },
        ],
        at(0),
    );
    assert_eq!(
        s.take_events(),
        Some(vec![
            TriggerEvent::TimerBegin { machine: 3 },
            TriggerEvent::TimerBegin { machine: 4 },
        ])
    );
    s.fire_timers(at(4), &mut wire).unwrap();
    assert_eq!(s.take_events(), Some(vec![TriggerEvent::TimerEnd { machine: 3 }]));
}

#[test]
fn a_new_action_replaces_the_pending_one() {
    let mut s = session();
    let mut wire: Vec<Vec<u8>> = Vec::new();
    s.apply_actions(
        &[padding(1, ms(1), false, false), block(1, ms(2), ms(1), false)],
        at(0),
    );
    s.fire_timers(at(3), &mut wire).unwrap();
    assert!(wire.is_empty(), "the padding was replaced by the block");
    assert_eq!(s.take_events(), Some(vec![TriggerEvent::BlockingBegin { machine: 1 }]));
    s.apply_actions(
        &[padding(2, ms(1), false, false), Action::Cancel { machine: 2, timer: Timer::All }],
        at(10),
    );
    s.fire_timers(at(20), &mut wire).unwrap();
    assert!(wire.is_empty());
}

#[test]
fn an_oversize_packet_stops_the_batch() {
    let mut s = session();
    let mut wire: Vec<Vec<u8>> = Vec::new();
    let packets = [b"fits".to_vec(), vec![0u8; MAX_PAYLOAD + 1], b"never".to_vec()];
    assert_eq!(
        s.originate(&packets, at(0), &mut wire),
        Err(TransportError::PacketTooLarge { len: MAX_PAYLOAD + 1 })
    );
    assert!(wire.is_empty());
    assert_eq!(s.endpoint.stats().queue_depth, 1);
    s.originate(&[], at(0), &mut wire).unwrap();
    assert_eq!(wire.len(), 1);
}

#[test]
fn the_report_names_the_counters() {
    let mut s = session();
    let mut wire: Vec<Vec<u8>> = Vec::new();
    s.originate(&[b"x".to_vec()], at(0), &mut wire).unwrap();
    s.take_datagram(true, b"junk", at(0));
    assert_eq!(
        report("client", s.level(), s.role(), s.endpoint.stats()),
        "\nclient: level light role Client\n  sent    1 data, 0 padding\n  \
         received 0 data, 0 padding\n  dropped 1"
    );
}

#[test]
fn timers_are_one_action_per_machine() {
    let mut t = Timers::default();
    assert_eq!(t.next_deadline(), None);
    let p = Padding { at: at(5), bypass: true, replace: false };
    let b = Block { at: at(7), duration: ms(1), bypass: false };
    t.schedule_padding(1, p);
    t.schedule_block(2, b);
    t.schedule_internal(1, at(9));
    assert_eq!(t.next_deadline(), Some(at(5)));
    t.schedule_block(1, b);
    assert_eq!(t.next_deadline(), Some(at(7)));
    assert!(t.due_padding(at(100)).is_empty());
    t.schedule_padding(2, p);
    assert_eq!(t.due_padding(at(4)), vec![]);
    assert_eq!(t.due_padding(at(5)), vec![(2, p)]);
    assert_eq!(t.due_blocks(at(7)), vec![(1, b)]);
    assert!(t.due_blocks(at(7)).is_empty());
    assert_eq!(t.next_deadline(), Some(at(9)));
    assert_eq!(t.due_internal(at(9)), vec![(1, at(9))]);
    assert_eq!(t.next_deadline(), None);
    t.schedule_padding(3, p);
    t.schedule_internal(3, at(1));
    t.cancel(3);
    assert_eq!(t.next_deadline(), Some(at(1)));
    t.cancel_internal(3);
    assert_eq!(t.next_deadline(), None);
}

#[test]
fn several_timers_of_one_kind_all_fire() {
    let mut t = Timers::default();
    for m in 0usize..20 {
        t.schedule_internal(m, at(m as u64));
    }
    let mut due = t.due_internal(at(9));
    due.sort();
    let expected: Vec<(usize, Instant)> = (0usize..10).map(|m| (m, at(m as u64))).collect();
    assert_eq!(due, expected);
    assert_eq!(t.next_deadline(), Some(at(10)));
}

#[test]
fn browsing_comes_in_bursts() {
    let mut b = Browsing::new(at(0), ms(2000));
    assert!(b.packets(at(399)).is_empty());
    // The first page: five requests with these gaps and sizes.
    let burst: [(u64, usize); 5] = [(13, 646), (10, 615), (38, 258), (13, 192), (33, 601)];
    let mut t: u64 = 400;
    for (gap, len) in burst {
        assert_eq!(b.packets(at(t)), vec![vec![0x41u8; len]]);
        assert!(b.packets(at(t + gap - 1)).is_empty());
        t += gap;
    }
    assert!(b.packets(at(2399)).is_empty());
    assert_eq!(b.packets(at(2400)).len(), 1);
    b.on_received(&[0u8; 9], at(2500));
    assert!(!b.done(at(2500)));
    assert_eq!(b.real.len(), 7);
    assert_eq!(b.real[0], RealPacket { at: ms(400), sent: true, bytes: 646 });
    assert_eq!(b.real[6], RealPacket { at: ms(2500), sent: false, bytes: 9 });
}

#[test]
fn a_responder_answers_with_a_burst_and_a_tail() {
    let mut r = Responder::new(at(0));
    assert!(r.packets(at(0)).is_empty());
    r.on_received(&[1u8; 300], at(1));
    assert_eq!(r.queue.len(), 23);
    assert!(r.queue[..22].iter().all(|&n| n == 1100));
    assert_eq!(r.queue[22], 333);
    assert_eq!(r.packets(at(2)), vec![vec![0x42u8; 1100]]);
    assert!(r.packets(at(7)).is_empty());
    assert_eq!(r.packets(at(8)).len(), 1);
    assert_eq!(r.queue.len(), 21);
    assert_eq!(
        trace_csv(&r.real),
        "1000000,r,300\n2000000,s,1100\n8000000,s,1100\n"
    );
    assert_eq!(Lcg(5).0, 5);
}
