//! The constant-length property is the whole reason the wire format exists, so it is the first
//! thing asserted, across every frame kind and every payload size.

use dvpn::wire::{decode, encode, FrameKind, WireError, FRAME_LEN, HEADER_LEN, MAX_PAYLOAD};

#[test]
fn every_frame_is_the_same_length_whatever_it_carries() {
    let mut buf = [0u8; FRAME_LEN];

    let cases: Vec<(FrameKind, Vec<u8>)> = vec![
        (FrameKind::Padding, vec![]),
        (FrameKind::Close, vec![]),
        (FrameKind::Data, vec![]),
        (FrameKind::Data, vec![0xab; 1]),
        (FrameKind::Data, vec![0xab; 40]),
        (FrameKind::Data, vec![0xab; 576]),
        (FrameKind::Data, vec![0xab; MAX_PAYLOAD]),
        (FrameKind::Hello, vec![0x11; 36]),
    ];

    for (kind, payload) in cases {
        encode(kind, &payload, &mut buf).expect("encodes");
        assert_eq!(buf.len(), FRAME_LEN, "{kind:?} with {} bytes", payload.len());
        let back = decode(&buf).expect("decodes");
        assert_eq!(back.kind, kind);
        assert_eq!(back.payload, &payload[..]);
    }
}

#[test]
fn a_one_byte_packet_and_a_full_one_are_indistinguishable_by_length() {
    let mut small = [0u8; FRAME_LEN];
    let mut large = [0u8; FRAME_LEN];
    encode(FrameKind::Data, &[0x01], &mut small).unwrap();
    encode(FrameKind::Data, &vec![0x02; MAX_PAYLOAD], &mut large).unwrap();
    assert_eq!(small.len(), large.len());
    // A padding frame is the same size as both: it has to be, or cover traffic would be
    // trivially filterable.
    let mut pad = [0u8; FRAME_LEN];
    encode(FrameKind::Padding, &[], &mut pad).unwrap();
    assert_eq!(pad.len(), small.len());
}

#[test]
fn the_tail_of_a_short_frame_is_zeroed_not_left_over() {
    let mut buf = [0u8; FRAME_LEN];
    encode(FrameKind::Data, &vec![0xff; 600], &mut buf).unwrap();
    encode(FrameKind::Data, &[0x01, 0x02], &mut buf).unwrap();
    assert!(
        buf[HEADER_LEN + 2..].iter().all(|&b| b == 0),
        "stale bytes from the previous frame leaked into the tail"
    );
}

#[test]
fn oversize_payload_is_refused() {
    let mut buf = [0u8; FRAME_LEN];
    let err = encode(FrameKind::Data, &vec![0; MAX_PAYLOAD + 1], &mut buf).unwrap_err();
    assert!(matches!(err, WireError::PayloadTooLarge { .. }));
}

#[test]
fn padding_frames_may_not_carry_data() {
    let mut buf = [0u8; FRAME_LEN];
    assert!(matches!(
        encode(FrameKind::Padding, &[1, 2, 3], &mut buf).unwrap_err(),
        WireError::UnexpectedPayload(FrameKind::Padding)
    ));
}

#[test]
fn a_hostile_frame_is_dropped_not_trusted() {
    let mut buf = [0u8; FRAME_LEN];

    buf[0] = 99;
    assert!(matches!(decode(&buf), Err(WireError::UnknownKind(99))));

    // Declared length past the end of the frame: the classic read-overrun setup.
    buf[0] = FrameKind::Data.to_u8();
    buf[1..3].copy_from_slice(&u16::MAX.to_be_bytes());
    assert!(matches!(decode(&buf), Err(WireError::BadLength { .. })));

    buf[0] = FrameKind::Padding.to_u8();
    buf[1..3].copy_from_slice(&10u16.to_be_bytes());
    assert!(matches!(decode(&buf), Err(WireError::UnexpectedPayload(_))));
}

#[test]
fn frame_kinds_classify_for_the_defense_engine() {
    assert!(FrameKind::Data.is_normal());
    for k in [FrameKind::Padding, FrameKind::Hello, FrameKind::HelloAck, FrameKind::Close] {
        assert!(!k.is_normal(), "{k:?} must not count as normal traffic");
    }
}

#[test]
fn a_frame_is_kind_then_length_then_payload() {
    let mut buf = [0xeeu8; FRAME_LEN];
    encode(FrameKind::HelloAck, &vec![0x7a; 0x0123], &mut buf).unwrap();
    assert_eq!(&buf[..3], &[4, 0x01, 0x23]);
    assert!(buf[3..3 + 0x0123].iter().all(|&b| b == 0x7a));
    assert!(buf[3 + 0x0123..].iter().all(|&b| b == 0));
}

#[test]
fn a_refused_frame_leaves_the_buffer_alone() {
    let mut buf = [0xeeu8; FRAME_LEN];
    assert!(encode(FrameKind::Close, &[1], &mut buf).is_err());
    assert!(buf.iter().all(|&b| b == 0xee));
}

#[test]
fn kind_bytes_and_kinds_stand_for_each_other() {
    for v in 0u8..=255 {
        match FrameKind::from_u8(v) {
            Some(kind) => assert_eq!(kind.to_u8(), v),
            None => assert!(v == 0 || v > 5),
        }
    }
}

#[test]
fn wire_errors_say_what_is_wrong() {
    assert_eq!(WireError::PayloadTooLarge { len: 1300 }.message(), "payload of 1300 exceeds 1197");
    assert_eq!(WireError::UnknownKind(99).message(), "unknown frame kind 99");
    assert_eq!(
        WireError::BadLength { declared: 65535 }.message(),
        "declared payload length 65535 invalid"
    );
    assert_eq!(
        WireError::UnexpectedPayload(FrameKind::Padding).message(),
        "Padding frame must carry no payload"
    );
    assert_eq!(WireError::ShortBuffer { got: 4, want: 36 }.message(), "buffer of 4, need 36");
    assert_eq!(
        WireError::VersionMismatch { theirs: 2, ours: 1 }.message(),
        "peer speaks version 2, we speak 1"
    );
    assert_eq!(WireError::UnknownLevel(9).message(), "unknown defense level 9");
}
