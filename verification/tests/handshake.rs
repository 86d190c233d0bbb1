//! What the two ends make of each other's words.

use dvpn::handshake::{
    accept_hello, answer, await_answer, await_client, client_hello, judge, keys, policy, refusal,
    server_level, AcceptError, ConnectError, Wait,
};
use dvpn::levels::{from_u8, hash_for, parse, requires_peer, supported, to_u8};
use dvpn::policy::{DefenseLevel, PolicySource, Role};
use dvpn::seal::{ChaChaSeal, Direction, Seal};
use dvpn::time::Instant;
use dvpn::transport::{Received, TransportError};
use dvpn::wire::{
    encode, machines_hash, FrameKind, Hello, HelloAck, LevelMask, NegotiationError, WireError,
    FRAME_LEN, VERSION,
};

const LEVELS: [DefenseLevel; 4] =
    [DefenseLevel::Off, DefenseLevel::Light, DefenseLevel::Moderate, DefenseLevel::Heavy];

#[test]
fn the_two_directions_have_different_keys() {
    let (c2s, s2c) = keys("secret");
    assert_eq!(c2s, *blake3::hash(b"dvpn-testbed-kdf-v1\0c2ssecret").as_bytes());
    assert_eq!(s2c, *blake3::hash(b"dvpn-testbed-kdf-v1\0s2csecret").as_bytes());
    assert_ne!(c2s, s2c);
    assert_ne!(keys("other").0, c2s);
}

#[test]
fn key_hashes_and_machine_hashes_are_apart() {
    let (c2s, s2c) = keys("");
    for l in 0u8..4 {
        assert_ne!(hash_for(Role::Server, l), c2s);
        assert_ne!(hash_for(Role::Client, l), s2c);
    }
}

#[test]
fn the_pinned_policy_is_an_enforced_profile() {
    for level in LEVELS {
        let p = policy(level);
        assert_eq!(p.level, level);
        assert!(p.enforced && p.is_locked() && p.require_peer_support);
        assert_eq!(p.source, PolicySource::Profile);
        assert!(p.validate().is_ok());
    }
}

#[test]
fn level_numbers_are_protocol() {
    for (i, level) in LEVELS.iter().enumerate() {
        assert_eq!(to_u8(*level) as usize, i);
        assert_eq!(from_u8(i as u8), Some(*level));
        assert_eq!(requires_peer(i as u8), i >= 2);
    }
    assert_eq!(from_u8(4), None);
    assert!(!requires_peer(200));
    assert_eq!(parse(" Heavy "), Some(DefenseLevel::Heavy));
    assert_eq!(parse("extreme"), None);
    assert_eq!(supported(Role::Client), LevelMask(0b1110));
    assert_eq!(supported(Role::Server), LevelMask(0b1110));
}

#[test]
fn level_hashes_are_those_of_the_machines() {
    assert_eq!(hash_for(Role::Client, 2), machines_hash(&["interspace_client"]));
    assert_eq!(hash_for(Role::Server, 2), machines_hash(&["interspace_server"]));
    assert_eq!(hash_for(Role::Server, 3), machines_hash(&["scrambler_server 4.0 2.0 1.0 8.0"]));
    assert_eq!(hash_for(Role::Server, 1), machines_hash(&[]));
    assert_eq!(hash_for(Role::Server, 9), machines_hash(&[]));
    assert_ne!(hash_for(Role::Server, 2), hash_for(Role::Server, 3));
}

#[test]
fn a_client_never_asks_for_less_than_its_floor() {
    let h = client_hello(DefenseLevel::Moderate, DefenseLevel::Light);
    assert_eq!(h.version, VERSION);
    assert_eq!(h.desired_level, 2);
    assert_eq!(h.supported, LevelMask(0b1110));
    assert_eq!(h.machines_hash, machines_hash(&["interspace_client"]));
    assert_eq!(client_hello(DefenseLevel::Light, DefenseLevel::Heavy).desired_level, 3);
}

#[test]
fn honest_ends_agree_on_the_weaker_of_the_two() {
    for floor in LEVELS {
        for want in LEVELS {
            for level in LEVELS {
                let hello = client_hello(floor, want);
                let ack = answer(&hello, level, false);
                let asked = want.max(floor);
                if level >= floor {
                    assert_eq!(judge(&ack, floor), Ok(asked.min(level)));
                } else {
                    assert_eq!(
                        judge(&ack, floor),
                        Err(ConnectError::Refused(NegotiationError::BelowFloor {
                            accepted: to_u8(level),
                            floor: to_u8(floor),
                        }))
                    );
                }
            }
        }
    }
}

#[test]
fn a_bare_server_is_refused() {
    for floor in [DefenseLevel::Moderate, DefenseLevel::Heavy] {
        let hello = client_hello(floor, floor);
        let ack = answer(&hello, DefenseLevel::Heavy, true);
        assert!(!ack.server_machines);
        assert_eq!(ack.machines_hash, [0u8; 32]);
        assert_eq!(
            judge(&ack, floor),
            Err(ConnectError::Refused(NegotiationError::PeerHasNoMachines { level: to_u8(floor) }))
        );
    }
    // Light needs no counterpart.
    let hello = client_hello(DefenseLevel::Light, DefenseLevel::Light);
    let ack = answer(&hello, DefenseLevel::Heavy, true);
    assert_eq!(judge(&ack, DefenseLevel::Light), Ok(DefenseLevel::Light));
}

#[test]
fn the_server_caps_the_level_by_what_it_runs() {
    let hello = client_hello(DefenseLevel::Light, DefenseLevel::Heavy);
    let ack = answer(&hello, DefenseLevel::Moderate, false);
    assert_eq!(ack.accepted_level, 2);
    assert!(ack.server_machines);
    assert_eq!(ack.machines_hash, machines_hash(&["interspace_server"]));
    assert_eq!(server_level(&ack), Some(DefenseLevel::Moderate));

    let light = answer(&hello, DefenseLevel::Light, false);
    assert_eq!(light.accepted_level, 1);
    assert!(!light.server_machines);
    assert_eq!(server_level(&light), None);

    // Nothing in common.
    let stranger = Hello { supported: LevelMask(0b1_0000), ..hello };
    assert_eq!(answer(&stranger, DefenseLevel::Heavy, false).accepted_level, 0);
}

#[test]
fn a_level_that_nobody_knows_is_refused() {
    let ack = HelloAck {
        version: VERSION,
        accepted_level: 9,
        server_machines: true,
        machines_hash: machines_hash(&[]),
    };
    assert_eq!(judge(&ack, DefenseLevel::Light), Err(ConnectError::UnknownLevel));
    assert_eq!(server_level(&ack), None);
    assert_eq!(ConnectError::UnknownLevel.message(), "server named an unknown level");
    let refused = ConnectError::Refused(NegotiationError::MachineMismatch { level: 2 });
    assert_eq!(refused.message(), "negotiation failed");
}

fn ends() -> (ChaChaSeal, ChaChaSeal) {
    let (c2s, s2c) = keys("test");
    (
        ChaChaSeal::new(&c2s, &s2c, Direction::ClientToServer),
        ChaChaSeal::new(&s2c, &c2s, Direction::ServerToClient),
    )
}

fn sealed(client: &mut ChaChaSeal, kind: FrameKind, payload: &[u8]) -> Vec<u8> {
    let mut frame = [0u8; FRAME_LEN];
    encode(kind, payload, &mut frame).unwrap();
    let mut out: Vec<u8> = Vec::new();
    client.seal(&frame, &mut out).unwrap();
    out
}

#[test]
fn a_sealed_hello_is_accepted() {
    let (mut client, mut server) = ends();
    let hello = client_hello(DefenseLevel::Light, DefenseLevel::Heavy);
    let mut payload = [0u8; 36];
    hello.encode(&mut payload).unwrap();
    let datagram = sealed(&mut client, FrameKind::Hello, &payload);
    assert_eq!(accept_hello(&mut server, &datagram), Ok(hello));
    assert_eq!(
        accept_hello(&mut server, &datagram),
        Err(AcceptError::Rejected(TransportError::Replay { counter: 1 }))
    );
}

#[test]
fn anything_but_a_hello_is_not_accepted() {
    let (mut client, mut server) = ends();
    assert_eq!(
        accept_hello(&mut server, &[0u8; 10]),
        Err(AcceptError::Rejected(TransportError::WrongDatagramLength { got: 10 }))
    );
    let data = sealed(&mut client, FrameKind::Data, &[0u8; 36]);
    assert_eq!(accept_hello(&mut server, &data), Err(AcceptError::NotAHello));
    let short = sealed(&mut client, FrameKind::Hello, &[0u8; 35]);
    let e = accept_hello(&mut server, &short).unwrap_err();
    assert_eq!(e, AcceptError::Wire(WireError::ShortBuffer { got: 35, want: 36 }));
    assert_eq!(e.message(), "buffer of 35, need 36");
    let mut nonsense: Vec<u8> = Vec::new();
    client.seal(&[0u8; FRAME_LEN], &mut nonsense).unwrap();
    assert_eq!(
        accept_hello(&mut server, &nonsense),
        Err(AcceptError::Wire(WireError::UnknownKind(0)))
    );
    assert_eq!(AcceptError::NotAHello.message(), "first frame was not a Hello");
    assert_eq!(
        AcceptError::Rejected(TransportError::OpenFailed).message(),
        "first datagram rejected: datagram failed authentication"
    );
}

#[test]
fn refusals_explain_themselves() {
    let bare = refusal(&NegotiationError::PeerHasNoMachines { level: 2 });
    assert!(bare.starts_with(
        "refusing to connect: server has no counterpart machines for level 2; refusing\n"
    ));
    assert!(bare.contains("cannot shape return traffic"));
    let low = refusal(&NegotiationError::BelowFloor { accepted: 1, floor: 2 });
    assert!(low.contains("your configuration profile pins a minimum defense level"));
    assert_eq!(
        refusal(&NegotiationError::MachineMismatch { level: 2 }),
        "refusing to connect: client and server disagree on the machines for level 2"
    );
}

#[test]
fn a_server_waits_half_a_minute_for_a_client() {
    let since = Instant::from_nanos(5);
    let after = |nanos: u128| Instant::from_nanos(5 + nanos);
    assert_eq!(await_client(None, since, since), Wait::GoOn);
    assert_eq!(await_client(None, since, after(30_000_000_000)), Wait::GoOn);
    assert_eq!(await_client(None, since, after(30_000_000_001)), Wait::GiveUp);
    assert_eq!(await_client(None, since, Instant::from_nanos(0)), Wait::GoOn);
    let datagram = b"anything".to_vec();
    assert_eq!(
        await_client(Some(datagram.clone()), since, after(40_000_000_000)),
        Wait::Take(datagram)
    );
}

#[test]
fn a_client_waits_three_seconds_for_a_control_frame() {
    let since = Instant::from_nanos(5);
    let after = |nanos: u128| Instant::from_nanos(5 + nanos);
    assert_eq!(await_answer(None, since, after(3_000_000_000)), Wait::GoOn);
    assert_eq!(await_answer(None, since, after(3_000_000_001)), Wait::GiveUp);
    // Only a control frame is an answer.
    for other in [Received::Padding, Received::Close, Received::Data(b"x".to_vec())] {
        assert_eq!(await_answer(Some(other.clone()), since, after(1)), Wait::GoOn);
        assert_eq!(await_answer(Some(other), since, after(3_000_000_001)), Wait::GiveUp);
    }
    let ack = Received::Control(b"ack".to_vec());
    assert_eq!(await_answer(Some(ack), since, after(1)), Wait::Take(b"ack".to_vec()));
}
