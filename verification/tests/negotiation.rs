//! Negotiation is what makes the fail-closed guarantee real. Every refusal here is one that a
//! client with a hardcoded answer could not make.

use dvpn::wire::{
    machines_hash, negotiate, Hello, HelloAck, LevelMask, NegotiationError, WireError, MAX_PAYLOAD,
    VERSION,
};

const CLIENT_MOD: &[&str] = &["interspace_client"];
const SERVER_MOD: &[&str] = &["interspace_server"];

fn ack(level: u8, server_machines: bool, hash: [u8; 32]) -> HelloAck {
    HelloAck { version: VERSION, accepted_level: level, server_machines, machines_hash: hash }
}

// In a real deployment both ends derive the hash from the same level definition table.
fn our_hash(level: u8) -> [u8; 32] {
    match level {
        2 => machines_hash(SERVER_MOD),
        _ => machines_hash(&[]),
    }
}

fn requires_peer(level: u8) -> bool {
    level >= 2
}

#[test]
fn a_matching_server_is_accepted() {
    let a = ack(2, true, machines_hash(SERVER_MOD));
    assert_eq!(negotiate(&a, 2, our_hash, requires_peer).unwrap(), 2);
}

#[test]
fn the_client_may_run_above_the_floor() {
    let a = ack(2, true, machines_hash(SERVER_MOD));
    assert_eq!(negotiate(&a, 1, our_hash, requires_peer).unwrap(), 2);
}

#[test]
fn a_server_offering_less_than_the_floor_is_refused() {
    let a = ack(1, true, machines_hash(SERVER_MOD));
    assert_eq!(
        negotiate(&a, 2, our_hash, requires_peer).unwrap_err(),
        NegotiationError::BelowFloor { accepted: 1, floor: 2 }
    );
}

#[test]
fn a_server_with_no_counterpart_machines_is_refused() {
    let a = ack(2, false, machines_hash(SERVER_MOD));
    assert_eq!(
        negotiate(&a, 2, our_hash, requires_peer).unwrap_err(),
        NegotiationError::PeerHasNoMachines { level: 2 }
    );
}

#[test]
fn disagreement_about_what_a_level_means_is_refused() {
    // Both ends say "level 2" but the server loaded something else. Accepting this would
    // produce traffic neither side is shaping as intended.
    let a = ack(2, true, machines_hash(&["scrambler_server 4.0 2.0 1.0 8.0"]));
    assert_eq!(
        negotiate(&a, 2, our_hash, requires_peer).unwrap_err(),
        NegotiationError::MachineMismatch { level: 2 }
    );
}

#[test]
fn a_level_needing_no_peer_ignores_the_peer_machine_fields() {
    // Level 1 is NetFlow coarsening: one endpoint can do it alone, so a server with no
    // machines is fine and no hash comparison applies.
    let a = ack(1, false, [0xff; 32]);
    assert_eq!(negotiate(&a, 1, our_hash, requires_peer).unwrap(), 1);
}

#[test]
fn a_version_mismatch_is_refused_before_anything_else() {
    let mut a = ack(2, true, machines_hash(SERVER_MOD));
    a.version = VERSION + 1;
    assert!(matches!(
        negotiate(&a, 2, our_hash, requires_peer).unwrap_err(),
        NegotiationError::Version { .. }
    ));
}

#[test]
fn machine_hashes_are_order_independent_and_domain_separated() {
    assert_eq!(
        machines_hash(&["a", "b"]),
        machines_hash(&["b", "a"]),
        "listing order must not change the identity of a machine set"
    );
    assert_ne!(machines_hash(&["ab", "c"]), machines_hash(&["a", "bc"]));
    assert_ne!(machines_hash(&[]), [0u8; 32]);
}

#[test]
fn hello_and_ack_round_trip() {
    let h = Hello {
        version: VERSION,
        desired_level: 3,
        supported: LevelMask::default().with(1).with(2).with(3),
        machines_hash: machines_hash(CLIENT_MOD),
    };
    let mut buf = [0u8; MAX_PAYLOAD];
    let n = h.encode(&mut buf).unwrap();
    assert_eq!(Hello::decode(&buf[..n]).unwrap(), h);

    let a = ack(3, true, machines_hash(SERVER_MOD));
    let n = a.encode(&mut buf).unwrap();
    assert_eq!(HelloAck::decode(&buf[..n]).unwrap(), a);
}

#[test]
fn level_masks_find_the_best_common_level() {
    let client = LevelMask::default().with(1).with(2).with(3);
    let server = LevelMask::default().with(1).with(2);
    assert_eq!(client.best_common(server), Some(2));
    assert_eq!(LevelMask::default().with(3).best_common(LevelMask::default().with(1)), None);
}

#[test]
fn a_truncated_handshake_is_refused() {
    assert!(matches!(Hello::decode(&[0u8; 4]), Err(WireError::ShortBuffer { .. })));
    assert!(matches!(HelloAck::decode(&[]), Err(WireError::ShortBuffer { .. })));
}

#[test]
fn the_machine_hash_is_over_the_sorted_length_prefixed_list() {
    let mut message: Vec<u8> = b"dvpn-machines-v1\0".to_vec();
    for s in ["a", "ab", "b"] {
        message.extend_from_slice(&(s.len() as u32).to_be_bytes());
        message.extend_from_slice(s.as_bytes());
    }
    assert_eq!(machines_hash(&["b", "ab", "a"]), *blake3::hash(&message).as_bytes());
}

#[test]
fn a_machine_that_is_listed_twice_counts_twice() {
    assert_ne!(machines_hash(&["a", "a"]), machines_hash(&["a"]));
    assert_eq!(machines_hash(&["a", "b", "a"]), machines_hash(&["a", "a", "b"]));
}

#[test]
fn hello_bytes_are_version_level_mask_hash() {
    let h = Hello {
        version: 0x0102,
        desired_level: 3,
        supported: LevelMask(0b1110),
        machines_hash: [0x5a; 32],
    };
    let mut buf = [0xffu8; 40];
    assert_eq!(h.encode(&mut buf).unwrap(), 36);
    assert_eq!(&buf[..4], &[0x01, 0x02, 3, 0b1110]);
    assert_eq!(&buf[4..36], &[0x5a; 32]);
    assert_eq!(&buf[36..], &[0xff; 4], "what stands behind is left alone");
    let mut short = [0u8; 35];
    assert_eq!(h.encode(&mut short), Err(WireError::ShortBuffer { got: 35, want: 36 }));
    let a = ack(2, true, [0; 32]);
    assert_eq!(a.encode(&mut short), Err(WireError::ShortBuffer { got: 35, want: 36 }));
}

#[test]
fn any_nonzero_machines_byte_reads_as_true() {
    let mut buf = [0u8; 36];
    ack(1, false, [7; 32]).encode(&mut buf).unwrap();
    assert_eq!(buf[3], 0);
    buf[3] = 9;
    assert!(HelloAck::decode(&buf).unwrap().server_machines);
}

#[test]
fn masks_hold_what_was_put_in() {
    let m = LevelMask::default().with(0).with(7);
    assert_eq!(m.0, 0b1000_0001);
    assert!(m.has(0) && m.has(7) && !m.has(3));
    assert_eq!(m.best_common(m), Some(7));
}

#[test]
fn negotiation_errors_say_what_is_wrong() {
    assert_eq!(
        NegotiationError::Version { theirs: 2, ours: 1 }.message(),
        "peer speaks protocol 2, we speak 1"
    );
    assert_eq!(
        NegotiationError::BelowFloor { accepted: 1, floor: 3 }.message(),
        "server offers level 1, policy floor is 3; refusing"
    );
    assert_eq!(
        NegotiationError::PeerHasNoMachines { level: 2 }.message(),
        "server has no counterpart machines for level 2; refusing"
    );
    assert_eq!(
        NegotiationError::MachineMismatch { level: 2 }.message(),
        "client and server disagree on the machines for level 2"
    );
}
