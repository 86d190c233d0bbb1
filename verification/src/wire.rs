//! The wire format, and the two properties the defense depends on it having.
//!
//! **Every frame is the same length.** The encoder writes into an array of [`FRAME_LEN`] bytes,
//! so there is no short frame. Padding the inner packets would not do: the observer measures
//! the sealed datagram.
//!
//! **Defense capability is negotiated, not assumed.** A client that cannot verify that the
//! server runs the counterpart machines cannot know whether it is defended. [`negotiate`] turns
//! that into a decision, and it fails closed.

use vstd::prelude::*;
use vstd::utf8::*;

use crate::bytes;
use crate::crypto;
use crate::order;
use crate::text;

verus! {

/// On-wire frame length, before sealing.
///
/// The sealed datagram fits inside the IPv6 minimum MTU without fragmentation: 1200 bytes of
/// frame, 8 of counter and 16 of AEAD tag make 1224 bytes of UDP payload, and with 48 bytes of
/// IPv6 and UDP header 1272, under 1280. Fragmentation would bring back a size signal.
pub const FRAME_LEN: usize = 1200;

/// Kind (1) and payload length (2).
pub const HEADER_LEN: usize = 3;

/// Largest inner packet that a single frame can carry.
pub const MAX_PAYLOAD: usize = FRAME_LEN - HEADER_LEN;

/// Protocol version. Bumped on any change to framing or negotiation.
pub const VERSION: u16 = 1;

/// Bytes of a [`Hello`]: version (2), level, mask, machine hash (32).
pub const HELLO_LEN: usize = 36;

/// Bytes of a [`HelloAck`]: version (2), level, machines flag, machine hash (32).
pub const ACK_LEN: usize = 36;

#[derive(Clone, Copy, Debug, PartialEq, Eq, Structural)]
pub enum FrameKind {
    /// Carries a real inner packet.
    Data,
    /// Carries nothing. Exists to occupy a slot in the traffic pattern.
    Padding,
    Hello,
    HelloAck,
    Close,
}

impl FrameKind {
    /// The byte that stands for the kind in a frame.
    pub open spec fn code(self) -> u8 {
        match self {
            FrameKind::Data => 1,
            FrameKind::Padding => 2,
            FrameKind::Hello => 3,
            FrameKind::HelloAck => 4,
            FrameKind::Close => 5,
        }
    }

    /// The kind that a byte stands for.
    pub open spec fn of_code(v: u8) -> Option<FrameKind> {
        if v == 1 {
            Some(FrameKind::Data)
        } else if v == 2 {
            Some(FrameKind::Padding)
        } else if v == 3 {
            Some(FrameKind::Hello)
        } else if v == 4 {
            Some(FrameKind::HelloAck)
        } else if v == 5 {
            Some(FrameKind::Close)
        } else {
            None
        }
    }

    /// Whether a frame of this kind may carry a payload.
    pub open spec fn carries(self) -> bool {
        self is Data || self is Hello || self is HelloAck
    }

    pub open spec fn name(self) -> Seq<char> {
        match self {
            FrameKind::Data => "Data"@,
            FrameKind::Padding => "Padding"@,
            FrameKind::Hello => "Hello"@,
            FrameKind::HelloAck => "HelloAck"@,
            FrameKind::Close => "Close"@,
        }
    }

    pub fn to_u8(self) -> (v: u8)
        ensures
            v == self.code(),
    {
        match self {
            FrameKind::Data => 1,
            FrameKind::Padding => 2,
            FrameKind::Hello => 3,
            FrameKind::HelloAck => 4,
            FrameKind::Close => 5,
        }
    }

    pub fn from_u8(v: u8) -> (kind: Option<FrameKind>)
        ensures
            kind == FrameKind::of_code(v),
    {
        match v {
            1 => Some(FrameKind::Data),
            2 => Some(FrameKind::Padding),
            3 => Some(FrameKind::Hello),
            4 => Some(FrameKind::HelloAck),
            5 => Some(FrameKind::Close),
            _ => None,
        }
    }

    /// Whether this frame carries user data, for the `NormalSent` or `PaddingSent`
    /// classification that the defense engine needs.
    pub fn is_normal(self) -> (normal: bool)
        ensures
            normal == (self is Data),
    {
        matches!(self, FrameKind::Data)
    }

    fn may_carry(self) -> (r: bool)
        ensures
            r == self.carries(),
    {
        matches!(self, FrameKind::Data | FrameKind::Hello | FrameKind::HelloAck)
    }

    fn label(self) -> (s: &'static str)
        ensures
            s@ == self.name(),
    {
        match self {
            FrameKind::Data => "Data",
            FrameKind::Padding => "Padding",
            FrameKind::Hello => "Hello",
            FrameKind::HelloAck => "HelloAck",
            FrameKind::Close => "Close",
        }
    }
}

/// The byte of a kind stands for that kind and no other.
pub proof fn law_kind_codes(kind: FrameKind, v: u8)
    ensures
        FrameKind::of_code(kind.code()) == Some(kind),
        FrameKind::of_code(v) == Some(kind) <==> v == kind.code(),
{
}

#[derive(Clone, Copy, Debug, PartialEq, Eq, Structural)]
pub enum WireError {
    PayloadTooLarge { len: usize },
    UnknownKind(u8),
    /// The declared payload length does not fit in the frame. A peer sending this is either
    /// broken or probing; either way the frame is dropped.
    BadLength { declared: usize },
    /// A frame that must carry no payload carried one.
    UnexpectedPayload(FrameKind),
    ShortBuffer { got: usize, want: usize },
    VersionMismatch { theirs: u16, ours: u16 },
    UnknownLevel(u8),
}

impl WireError {
    pub open spec fn text(self) -> Seq<char> {
        match self {
            WireError::PayloadTooLarge { len } => "payload of "@ + text::decimal(len as nat)
                + " exceeds "@ + text::decimal(MAX_PAYLOAD as nat),
            WireError::UnknownKind(k) => "unknown frame kind "@ + text::decimal(k as nat),
            WireError::BadLength { declared } => "declared payload length "@ + text::decimal(
                declared as nat,
            ) + " invalid"@,
            WireError::UnexpectedPayload(k) => k.name() + " frame must carry no payload"@,
            WireError::ShortBuffer { got, want } => "buffer of "@ + text::decimal(got as nat)
                + ", need "@ + text::decimal(want as nat),
            WireError::VersionMismatch { theirs, ours } => "peer speaks version "@ + text::decimal(
                theirs as nat,
            ) + ", we speak "@ + text::decimal(ours as nat),
            WireError::UnknownLevel(l) => "unknown defense level "@ + text::decimal(l as nat),
        }
    }

    /// The error in words.
    pub fn message(&self) -> (s: String)
        ensures
            s@ == self.text(),
    {
        let mut s = String::new();
        match *self {
            WireError::PayloadTooLarge { len } => {
                s.append("payload of ");
                text::push_decimal(&mut s, len as u128);
                s.append(" exceeds ");
                text::push_decimal(&mut s, MAX_PAYLOAD as u128);
            },
            WireError::UnknownKind(k) => {
                s.append("unknown frame kind ");
                text::push_decimal(&mut s, k as u128);
            },
            WireError::BadLength { declared } => {
                s.append("declared payload length ");
                text::push_decimal(&mut s, declared as u128);
                s.append(" invalid");
            },
            WireError::UnexpectedPayload(k) => {
                s.append(k.label());
                s.append(" frame must carry no payload");
            },
            WireError::ShortBuffer { got, want } => {
                s.append("buffer of ");
                text::push_decimal(&mut s, got as u128);
                s.append(", need ");
                text::push_decimal(&mut s, want as u128);
            },
            WireError::VersionMismatch { theirs, ours } => {
                s.append("peer speaks version ");
                text::push_decimal(&mut s, theirs as u128);
                s.append(", we speak ");
                text::push_decimal(&mut s, ours as u128);
            },
            WireError::UnknownLevel(l) => {
                s.append("unknown defense level ");
                text::push_decimal(&mut s, l as u128);
            },
        }
        assert(s@ =~= self.text());
        s
    }
}

/// A decoded frame, borrowing from the buffer it was decoded out of.
#[derive(Clone, Copy, Debug, PartialEq, Eq)]
pub struct Frame<'a> {
    pub kind: FrameKind,
    pub payload: &'a [u8],
}

/// The bytes of a frame: kind, payload length in two bytes, payload, zeros up to
/// [`FRAME_LEN`].
pub open spec fn frame_bytes(kind: FrameKind, payload: Seq<u8>) -> Seq<u8> {
    seq![kind.code()] + bytes::be_bytes(payload.len(), 2) + payload + Seq::new(
        (MAX_PAYLOAD - payload.len()) as nat,
        |i: int| 0u8,
    )
}

/// Whether a frame of kind `kind` can be made of `payload`, and the reason where it cannot.
pub open spec fn frame_fault(kind: FrameKind, payload: Seq<u8>) -> Option<WireError> {
    if payload.len() > MAX_PAYLOAD {
        Some(WireError::PayloadTooLarge { len: payload.len() as usize })
    } else if payload.len() > 0 && !kind.carries() {
        Some(WireError::UnexpectedPayload(kind))
    } else {
        None
    }
}

/// Encode a frame into a fixed-size buffer.
///
/// The remainder past the payload is zeroed. That is safe *only because the frame is sealed
/// afterwards*: AEAD ciphertext is indistinguishable from random, so the zeros never reach the
/// wire. Remove the sealing layer and the padding becomes a giveaway.
pub fn encode(kind: FrameKind, payload: &[u8], out: &mut [u8; FRAME_LEN]) -> (r: Result<
    (),
    WireError,
>)
    ensures
        match frame_fault(kind, payload@) {
            None => r is Ok && final(out)@ == frame_bytes(kind, payload@),
            Some(e) => r == Err::<(), WireError>(e) && *final(out) == *old(out),
        },
{
    if payload.len() > MAX_PAYLOAD {
        return Err(WireError::PayloadTooLarge { len: payload.len() });
    }
    if payload.len() != 0 && !kind.may_carry() {
        return Err(WireError::UnexpectedPayload(kind));
    }
    *out = [0u8; FRAME_LEN];
    out[0] = kind.to_u8();
    let len = bytes::be_encode(payload.len() as u64, 2);
    out[1] = len[0];
    out[2] = len[1];
    let mut i: usize = 0;
    while i < payload.len()
        invariant
            i <= payload@.len() <= MAX_PAYLOAD,
            len@ == bytes::be_bytes(payload@.len(), 2),
            len@.len() == 2,
            out@[0] == kind.code(),
            out@[1] == len@[0],
            out@[2] == len@[1],
            forall|j: int|
                HEADER_LEN <= j < FRAME_LEN ==> #[trigger] out@[j] == if j < HEADER_LEN + i {
                    payload@[j - HEADER_LEN]
                } else {
                    0u8
                },
        decreases payload@.len() - i,
    {
        out[HEADER_LEN + i] = payload[i];
        i += 1;
    }
    assert(out@ =~= frame_bytes(kind, payload@));
    Ok(())
}

/// What a buffer decodes to: the kind and the payload, or the reason to drop it.
pub open spec fn decoded(buf: Seq<u8>) -> Result<(FrameKind, Seq<u8>), WireError> {
    let declared = bytes::be_value(buf.subrange(1, 3));
    match FrameKind::of_code(buf[0]) {
        None => Err(WireError::UnknownKind(buf[0])),
        Some(kind) => if declared > MAX_PAYLOAD {
            Err(WireError::BadLength { declared: declared as usize })
        } else if declared != 0 && !kind.carries() {
            Err(WireError::UnexpectedPayload(kind))
        } else {
            Ok((kind, buf.subrange(HEADER_LEN as int, HEADER_LEN + declared)))
        },
    }
}

pub fn decode(buf: &[u8; FRAME_LEN]) -> (r: Result<Frame<'_>, WireError>)
    ensures
        match decoded(buf@) {
            Ok((kind, payload)) => r is Ok && r->Ok_0.kind == kind && r->Ok_0.payload@ == payload,
            Err(e) => r is Err && r->Err_0 == e,
        },
{
    let kind = match FrameKind::from_u8(buf[0]) {
        Some(kind) => kind,
        None => return Err(WireError::UnknownKind(buf[0])),
    };
    let declared: usize = bytes::be_decode(&buf[1..3]) as usize;
    proof {
        bytes::lemma_be_value_bound(buf@.subrange(1, 3));
        bytes::lemma_be_spans();
    }
    if declared > MAX_PAYLOAD {
        return Err(WireError::BadLength { declared });
    }
    if declared != 0 && !kind.may_carry() {
        return Err(WireError::UnexpectedPayload(kind));
    }
    Ok(Frame { kind, payload: &buf[HEADER_LEN..HEADER_LEN + declared] })
}

/// Every frame that can be encoded is [`FRAME_LEN`] bytes long and decodes to the kind and the
/// payload that went in.
pub proof fn law_frame_round_trip(kind: FrameKind, payload: Seq<u8>)
    requires
        frame_fault(kind, payload) is None,
    ensures
        frame_bytes(kind, payload).len() == FRAME_LEN,
        decoded(frame_bytes(kind, payload)) == Ok::<(FrameKind, Seq<u8>), WireError>(
            (kind, payload),
        ),
{
    let buf = frame_bytes(kind, payload);
    bytes::lemma_be_bytes_len(payload.len(), 2);
    bytes::lemma_be_spans();
    bytes::lemma_be_value_of_bytes(payload.len(), 2);
    assert(buf.subrange(1, 3) =~= bytes::be_bytes(payload.len(), 2));
    assert(buf.subrange(HEADER_LEN as int, HEADER_LEN + payload.len()) =~= payload);
}

/// No buffer decodes to something that could not have been encoded.
pub proof fn law_decoded_is_encodable(buf: Seq<u8>)
    requires
        buf.len() == FRAME_LEN,
        decoded(buf) is Ok,
    ensures
        frame_fault(decoded(buf)->Ok_0.0, decoded(buf)->Ok_0.1) is None,
{
}

/// Bitmask of the defense levels an endpoint can run. Bit *n* is level *n*.
#[derive(Clone, Copy, Debug, PartialEq, Eq, Structural)]
pub struct LevelMask(pub u8);

impl Default for LevelMask {
    /// No level at all.
    fn default() -> (mask: LevelMask)
        ensures
            mask.0 == 0,
    {
        LevelMask(0)
    }
}

impl LevelMask {
    /// Whether bit `level` is set.
    pub open spec fn bit(self, level: u8) -> bool {
        self.0 & (1u8 << level) != 0
    }

    pub fn with(self, level: u8) -> (mask: LevelMask)
        requires
            level < 8,
        ensures
            mask.0 == self.0 | (1u8 << level),
            forall|l: u8| l < 8 ==> (#[trigger] mask.bit(l) <==> l == level || self.bit(l)),
    {
        let mask = LevelMask(self.0 | (1u8 << level));
        let ghost m = self.0;
        assert forall|l: u8| l < 8 implies (#[trigger] mask.bit(l) <==> l == level || self.bit(
            l,
        )) by {
            assert((m | (1u8 << level)) & (1u8 << l) != 0 <==> l == level || m & (1u8 << l) != 0)
                by (bit_vector)
                requires
                    l < 8,
                    level < 8,
            ;
        }
        mask
    }

    pub fn has(self, level: u8) -> (r: bool)
        requires
            level < 8,
        ensures
            r == self.bit(level),
    {
        self.0 & (1u8 << level) != 0
    }

    /// The highest level below `l` that both masks have.
    pub open spec fn best_below(self, other: LevelMask, l: u8) -> Option<u8>
        decreases l,
    {
        if l == 0 {
            None
        } else {
            let k = (l - 1) as u8;
            if self.bit(k) && other.bit(k) {
                Some(k)
            } else {
                self.best_below(other, k)
            }
        }
    }

    /// The highest level in the mask that the other mask also has.
    pub fn best_common(self, other: LevelMask) -> (best: Option<u8>)
        ensures
            best == self.best_below(other, 8),
            match best {
                Some(l) => l < 8 && self.bit(l) && other.bit(l) && forall|k: u8|
                    l < k < 8 ==> !(#[trigger] self.bit(k) && other.bit(k)),
                None => forall|k: u8| k < 8 ==> !(#[trigger] self.bit(k) && other.bit(k)),
            },
    {
        let mut l: u8 = 8;
        while l > 0
            invariant
                l <= 8,
                self.best_below(other, 8) == self.best_below(other, l),
                forall|k: u8| l <= k < 8 ==> !(#[trigger] self.bit(k) && other.bit(k)),
            decreases l,
        {
            l -= 1;
            if self.has(l) && other.has(l) {
                return Some(l);
            }
        }
        None
    }
}

/// What the client tells the server it wants.
#[derive(Clone, Copy, Debug, PartialEq, Eq)]
pub struct Hello {
    pub version: u16,
    /// The level the client intends to run, already resolved against its policy floor.
    pub desired_level: u8,
    pub supported: LevelMask,
    /// Hash of the client's machine set for `desired_level`. Lets both ends detect that they
    /// believe different things about what the level *is*: a silent mismatch would produce
    /// traffic that neither side is shaping as intended.
    pub machines_hash: [u8; 32],
}

/// What the server answers.
#[derive(Clone, Copy, Debug, PartialEq, Eq)]
pub struct HelloAck {
    pub version: u16,
    /// The level the server will actually run. May be lower than requested.
    pub accepted_level: u8,
    /// Whether the server has loaded counterpart machines for `accepted_level`.
    pub server_machines: bool,
    /// Hash of the server's machine set for `accepted_level`.
    pub machines_hash: [u8; 32],
}

impl Hello {
    /// The bytes that stand for the hello on the wire.
    pub open spec fn bytes(self) -> Seq<u8> {
        bytes::be_bytes(self.version as nat, 2) + seq![self.desired_level, self.supported.0]
            + self.machines_hash@
    }

    /// Whether `buf` starts with the hello `self`.
    pub open spec fn starts(self, buf: Seq<u8>) -> bool {
        &&& self.version == bytes::be_value(buf.take(2))
        &&& self.desired_level == buf[2]
        &&& self.supported.0 == buf[3]
        &&& self.machines_hash@ == buf.subrange(4, HELLO_LEN as int)
    }

    pub fn encode(&self, out: &mut [u8]) -> (r: Result<usize, WireError>)
        ensures
            old(out)@.len() >= HELLO_LEN ==> {
                &&& r == Ok::<usize, WireError>(HELLO_LEN)
                &&& final(out)@ == bytes::overwritten(old(out)@, 0, self.bytes())
            },
            old(out)@.len() < HELLO_LEN ==> {
                &&& r == Err::<usize, WireError>(
                    WireError::ShortBuffer { got: old(out)@.len() as usize, want: HELLO_LEN },
                )
                &&& final(out)@ == old(out)@
            },
    {
        if out.len() < HELLO_LEN {
            return Err(WireError::ShortBuffer { got: out.len(), want: HELLO_LEN });
        }
        let mut head = bytes::be_encode(self.version as u64, 2);
        head.push(self.desired_level);
        head.push(self.supported.0);
        bytes::extend(&mut head, &self.machines_hash);
        assert(head@ =~= self.bytes());
        bytes::overwrite(out, 0, &head);
        Ok(HELLO_LEN)
    }

    pub fn decode(buf: &[u8]) -> (r: Result<Hello, WireError>)
        ensures
            buf@.len() >= HELLO_LEN ==> r is Ok && r->Ok_0.starts(buf@),
            buf@.len() < HELLO_LEN ==> r == Err::<Hello, WireError>(
                WireError::ShortBuffer { got: buf@.len() as usize, want: HELLO_LEN },
            ),
    {
        if buf.len() < HELLO_LEN {
            return Err(WireError::ShortBuffer { got: buf.len(), want: HELLO_LEN });
        }
        proof {
            bytes::lemma_be_value_bound(buf@.take(2));
            bytes::lemma_be_spans();
            assert(buf@.subrange(0, 2) =~= buf@.take(2));
        }
        let version: u16 = bytes::be_decode(&buf[0..2]) as u16;
        let machines_hash = bytes::take_32(&buf[4..HELLO_LEN]);
        assert(machines_hash@ =~= buf@.subrange(4, HELLO_LEN as int));
        Ok(
            Hello {
                version,
                desired_level: buf[2],
                supported: LevelMask(buf[3]),
                machines_hash,
            },
        )
    }
}

/// What is decoded from the bytes of a hello, whatever stands behind them, is that hello.
pub proof fn law_hello_round_trip(h: Hello, rest: Seq<u8>, back: Hello)
    requires
        back.starts(h.bytes() + rest),
    ensures
        h.bytes().len() == HELLO_LEN,
        back == h,
{
    let buf = h.bytes() + rest;
    bytes::lemma_be_bytes_len(h.version as nat, 2);
    bytes::lemma_be_spans();
    bytes::lemma_be_value_of_bytes(h.version as nat, 2);
    assert(buf.take(2) =~= bytes::be_bytes(h.version as nat, 2));
    assert(buf.subrange(4, HELLO_LEN as int) =~= h.machines_hash@);
    assert(back.machines_hash =~= h.machines_hash);
}

impl HelloAck {
    /// The bytes that stand for the answer on the wire.
    pub open spec fn bytes(self) -> Seq<u8> {
        bytes::be_bytes(self.version as nat, 2) + seq![
            self.accepted_level,
            if self.server_machines {
                1u8
            } else {
                0u8
            },
        ] + self.machines_hash@
    }

    /// Whether `buf` starts with the answer `self`.
    pub open spec fn starts(self, buf: Seq<u8>) -> bool {
        &&& self.version == bytes::be_value(buf.take(2))
        &&& self.accepted_level == buf[2]
        &&& self.server_machines == (buf[3] != 0)
        &&& self.machines_hash@ == buf.subrange(4, ACK_LEN as int)
    }

    pub fn encode(&self, out: &mut [u8]) -> (r: Result<usize, WireError>)
        ensures
            old(out)@.len() >= ACK_LEN ==> {
                &&& r == Ok::<usize, WireError>(ACK_LEN)
                &&& final(out)@ == bytes::overwritten(old(out)@, 0, self.bytes())
            },
            old(out)@.len() < ACK_LEN ==> {
                &&& r == Err::<usize, WireError>(
                    WireError::ShortBuffer { got: old(out)@.len() as usize, want: ACK_LEN },
                )
                &&& final(out)@ == old(out)@
            },
    {
        if out.len() < ACK_LEN {
            return Err(WireError::ShortBuffer { got: out.len(), want: ACK_LEN });
        }
        let mut head = bytes::be_encode(self.version as u64, 2);
        head.push(self.accepted_level);
        head.push(
            if self.server_machines {
                1
            } else {
                0
            },
        );
        bytes::extend(&mut head, &self.machines_hash);
        assert(head@ =~= self.bytes());
        bytes::overwrite(out, 0, &head);
        Ok(ACK_LEN)
    }

    pub fn decode(buf: &[u8]) -> (r: Result<HelloAck, WireError>)
        ensures
            buf@.len() >= ACK_LEN ==> r is Ok && r->Ok_0.starts(buf@),
            buf@.len() < ACK_LEN ==> r == Err::<HelloAck, WireError>(
                WireError::ShortBuffer { got: buf@.len() as usize, want: ACK_LEN },
            ),
    {
        if buf.len() < ACK_LEN {
            return Err(WireError::ShortBuffer { got: buf.len(), want: ACK_LEN });
        }
        proof {
            bytes::lemma_be_value_bound(buf@.take(2));
            bytes::lemma_be_spans();
            assert(buf@.subrange(0, 2) =~= buf@.take(2));
        }
        let version: u16 = bytes::be_decode(&buf[0..2]) as u16;
        let machines_hash = bytes::take_32(&buf[4..ACK_LEN]);
        assert(machines_hash@ =~= buf@.subrange(4, ACK_LEN as int));
        Ok(
            HelloAck {
                version,
                accepted_level: buf[2],
                server_machines: buf[3] != 0,
                machines_hash,
            },
        )
    }
}

/// What is decoded from the bytes of an answer, whatever stands behind them, is that answer.
pub proof fn law_ack_round_trip(a: HelloAck, rest: Seq<u8>, back: HelloAck)
    requires
        back.starts(a.bytes() + rest),
    ensures
        a.bytes().len() == ACK_LEN,
        back == a,
{
    let buf = a.bytes() + rest;
    bytes::lemma_be_bytes_len(a.version as nat, 2);
    bytes::lemma_be_spans();
    bytes::lemma_be_value_of_bytes(a.version as nat, 2);
    assert(buf.take(2) =~= bytes::be_bytes(a.version as nat, 2));
    assert(buf.subrange(4, ACK_LEN as int) =~= a.machines_hash@);
    assert(back.machines_hash =~= a.machines_hash);
}

/// What every hashed list of machines starts with.
pub open spec fn machines_domain() -> Seq<u8> {
    encode_utf8("dvpn-machines-v1\0"@)
}

/// The strings of `list` one behind the other, each behind its length in four bytes.
pub open spec fn entries(list: Seq<Seq<u8>>) -> Seq<u8>
    decreases list.len(),
{
    if list.len() == 0 {
        Seq::empty()
    } else {
        bytes::be_bytes(list[0].len(), 4) + list[0] + entries(list.drop_first())
    }
}

/// The message whose hash identifies the set of machine specifications `specs`.
pub open spec fn machines_message(specs: Seq<Seq<u8>>) -> Seq<u8> {
    machines_domain() + entries(order::sorted(specs))
}

/// A stable identifier for a set of machine specifications.
///
/// Order-independent, so the two ends may list their machines in any order, and
/// domain-separated so a hash from this protocol cannot be replayed as one from another.
pub fn machines_hash(specs: &[&str]) -> (hash: [u8; 32])
    ensures
        hash@ == crypto::blake3_digest(machines_message(order::bytes_of(specs@))),
{
    let list = order::sorted_bytes(specs);
    let ghost all = order::contents(list@);
    let mut message: Vec<u8> = Vec::new();
    bytes::extend(&mut message, "dvpn-machines-v1\0".as_bytes());
    let mut i: usize = 0;
    proof {
        assert(all.skip(0) =~= all);
        assert(message@ =~= machines_domain());
    }
    while i < list.len()
        invariant
            i <= list@.len(),
            all == order::contents(list@),
            message@ + entries(all.skip(i as int)) == machines_domain() + entries(all),
        decreases list@.len() - i,
    {
        let ghost before = message@;
        let item = &list[i];
        let len = bytes::be_encode(item.len() as u64, 4);
        bytes::extend(&mut message, &len);
        bytes::extend(&mut message, item);
        proof {
            assert(all[i as int] == item@);
            assert(all.skip(i as int).drop_first() =~= all.skip(i + 1));
            assert(message@ + entries(all.skip(i + 1)) =~= before + entries(all.skip(i as int)));
        }
        i += 1;
    }
    assert(message@ =~= machines_domain() + entries(all));
    crypto::blake3_hash(&message)
}

/// The identifier does not depend on the order in which the machines are listed.
pub proof fn law_machines_hash_ignores_order(a: Seq<Seq<u8>>, b: Seq<Seq<u8>>)
    requires
        a.to_multiset() == b.to_multiset(),
    ensures
        machines_message(a) == machines_message(b),
        crypto::blake3_digest(machines_message(a)) == crypto::blake3_digest(machines_message(b)),
{
    order::lemma_sorted_same_members(a, b);
}

/// Two lists of machines are hashed from the same message only where they have the same members,
/// each as often. Specifications of 4 GiB and more, whose length does not fit in four bytes, are
/// left out.
pub proof fn law_machines_message_tells_sets_apart(a: Seq<Seq<u8>>, b: Seq<Seq<u8>>)
    requires
        forall|i: int| 0 <= i < a.len() ==> (#[trigger] a[i]).len() < 0x1_0000_0000,
        forall|i: int| 0 <= i < b.len() ==> (#[trigger] b[i]).len() < 0x1_0000_0000,
        machines_message(a) == machines_message(b),
    ensures
        a.to_multiset() == b.to_multiset(),
{
    order::lemma_sorted_members(a);
    order::lemma_sorted_members(b);
    let (sa, sb) = (order::sorted(a), order::sorted(b));
    lemma_short_after_sorting(a);
    lemma_short_after_sorting(b);
    let p = machines_domain();
    assert((p + entries(sa)).skip(p.len() as int) =~= entries(sa));
    assert((p + entries(sb)).skip(p.len() as int) =~= entries(sb));
    lemma_entries_injective(sa, sb);
}

proof fn lemma_short_after_sorting(a: Seq<Seq<u8>>)
    requires
        forall|i: int| 0 <= i < a.len() ==> (#[trigger] a[i]).len() < 0x1_0000_0000,
    ensures
        forall|i: int|
            0 <= i < order::sorted(a).len() ==> (#[trigger] order::sorted(a)[i]).len()
                < 0x1_0000_0000,
{
    order::lemma_dictionary_is_total();
    a.lemma_sort_by_ensures(order::dictionary());
    let s = order::sorted(a);
    assert forall|i: int| 0 <= i < s.len() implies (#[trigger] s[i]).len() < 0x1_0000_0000 by {
        assert(s.contains(s[i]));
        assert(a.contains(s[i]));
    }
}

proof fn lemma_entries_injective(a: Seq<Seq<u8>>, b: Seq<Seq<u8>>)
    requires
        forall|i: int| 0 <= i < a.len() ==> (#[trigger] a[i]).len() < 0x1_0000_0000,
        forall|i: int| 0 <= i < b.len() ==> (#[trigger] b[i]).len() < 0x1_0000_0000,
        entries(a) == entries(b),
    ensures
        a == b,
    decreases a.len(),
{
    if a.len() == 0 || b.len() == 0 {
        if a.len() > 0 {
            bytes::lemma_be_bytes_len(a[0].len(), 4);
            assert(entries(a).len() >= 4);
        }
        if b.len() > 0 {
            bytes::lemma_be_bytes_len(b[0].len(), 4);
            assert(entries(b).len() >= 4);
        }
        assert(a =~= b);
    } else {
        let (x, y) = (a[0], b[0]);
        bytes::lemma_be_spans();
        bytes::lemma_be_bytes_len(x.len(), 4);
        bytes::lemma_be_bytes_len(y.len(), 4);
        bytes::lemma_be_value_of_bytes(x.len(), 4);
        bytes::lemma_be_value_of_bytes(y.len(), 4);
        assert(entries(a).take(4) =~= bytes::be_bytes(x.len(), 4));
        assert(entries(b).take(4) =~= bytes::be_bytes(y.len(), 4));
        assert(x.len() == y.len());
        assert(entries(a).subrange(4, 4 + x.len() as int) =~= x);
        assert(entries(b).subrange(4, 4 + y.len() as int) =~= y);
        assert(entries(a).skip(4 + x.len() as int) =~= entries(a.drop_first()));
        assert(entries(b).skip(4 + y.len() as int) =~= entries(b.drop_first()));
        lemma_entries_injective(a.drop_first(), b.drop_first());
        assert(a =~= seq![x] + a.drop_first());
        assert(b =~= seq![y] + b.drop_first());
    }
}

#[derive(Clone, Copy, Debug, PartialEq, Eq, Structural)]
pub enum NegotiationError {
    Version { theirs: u16, ours: u16 },
    /// The server would run a weaker level than the policy floor allows. The whole point of an
    /// enforced floor is that this is refused rather than accepted quietly.
    BelowFloor { accepted: u8, floor: u8 },
    /// The level needs counterpart machines and the server has none. Connecting here would
    /// produce a tunnel that the user believes is defended and is not.
    PeerHasNoMachines { level: u8 },
    /// Both ends claim the same level but disagree about which machines it means.
    MachineMismatch { level: u8 },
}

impl NegotiationError {
    pub open spec fn text(self) -> Seq<char> {
        match self {
            NegotiationError::Version { theirs, ours } => "peer speaks protocol "@ + text::decimal(
                theirs as nat,
            ) + ", we speak "@ + text::decimal(ours as nat),
            NegotiationError::BelowFloor { accepted, floor } => "server offers level "@
                + text::decimal(accepted as nat) + ", policy floor is "@ + text::decimal(
                floor as nat,
            ) + "; refusing"@,
            NegotiationError::PeerHasNoMachines { level } =>
            "server has no counterpart machines for level "@ + text::decimal(level as nat)
                + "; refusing"@,
            NegotiationError::MachineMismatch { level } =>
            "client and server disagree on the machines for level "@ + text::decimal(level as nat),
        }
    }

    /// The error in words.
    pub fn message(&self) -> (s: String)
        ensures
            s@ == self.text(),
    {
        let mut s = String::new();
        match *self {
            NegotiationError::Version { theirs, ours } => {
                s.append("peer speaks protocol ");
                text::push_decimal(&mut s, theirs as u128);
                s.append(", we speak ");
                text::push_decimal(&mut s, ours as u128);
            },
            NegotiationError::BelowFloor { accepted, floor } => {
                s.append("server offers level ");
                text::push_decimal(&mut s, accepted as u128);
                s.append(", policy floor is ");
                text::push_decimal(&mut s, floor as u128);
                s.append("; refusing");
            },
            NegotiationError::PeerHasNoMachines { level } => {
                s.append("server has no counterpart machines for level ");
                text::push_decimal(&mut s, level as u128);
                s.append("; refusing");
            },
            NegotiationError::MachineMismatch { level } => {
                s.append("client and server disagree on the machines for level ");
                text::push_decimal(&mut s, level as u128);
            },
        }
        assert(s@ =~= self.text());
        s
    }
}

/// The decision on the server's answer, where `needs_peer` says whether the accepted level needs
/// counterpart machines and `ours` is our hash of the machines the server should run there.
pub open spec fn verdict(ack: HelloAck, floor: u8, needs_peer: bool, ours: Seq<u8>) -> Result<
    u8,
    NegotiationError,
> {
    let level = ack.accepted_level;
    if ack.version != VERSION {
        Err(NegotiationError::Version { theirs: ack.version, ours: VERSION })
    } else if level < floor {
        Err(NegotiationError::BelowFloor { accepted: level, floor })
    } else if needs_peer && !ack.server_machines {
        Err(NegotiationError::PeerHasNoMachines { level })
    } else if needs_peer && ack.machines_hash@ != ours {
        Err(NegotiationError::MachineMismatch { level })
    } else {
        Ok(level)
    }
}

/// Decide whether the server's answer is acceptable.
///
/// Every branch here either returns the level to run or refuses. There is deliberately no
/// "proceed with a warning" path: the caller cannot accidentally carry traffic on a downgraded
/// defense, which is the failure mode that makes a traffic-analysis defense worse than useless.
///
/// `requires_peer` is supplied by the caller rather than fixed here, because which levels need
/// a counterpart is a property of the machine library, not of the wire protocol.
pub fn negotiate(
    ack: &HelloAck,
    floor: u8,
    our_machines_hash_for: impl Fn(u8) -> [u8; 32],
    requires_peer: impl Fn(u8) -> bool,
) -> (r: Result<u8, NegotiationError>)
    requires
        call_requires(our_machines_hash_for, (ack.accepted_level,)),
        call_requires(requires_peer, (ack.accepted_level,)),
    ensures
        ack.version != VERSION || ack.accepted_level < floor ==> r == verdict(
            *ack,
            floor,
            false,
            Seq::empty(),
        ),
        ack.version == VERSION && ack.accepted_level >= floor ==> exists|needs_peer: bool|
            #[trigger]
            call_ensures(requires_peer, (ack.accepted_level,), needs_peer) && if needs_peer
                && ack.server_machines {
                exists|ours: [u8; 32]| #[trigger]
                    call_ensures(our_machines_hash_for, (ack.accepted_level,), ours) && r
                        == verdict(*ack, floor, true, ours@)
            } else {
                r == verdict(*ack, floor, needs_peer, Seq::empty())
            },
{
    if ack.version != VERSION {
        return Err(NegotiationError::Version { theirs: ack.version, ours: VERSION });
    }
    if ack.accepted_level < floor {
        return Err(NegotiationError::BelowFloor { accepted: ack.accepted_level, floor });
    }
    if requires_peer(ack.accepted_level) {
        if !ack.server_machines {
            return Err(NegotiationError::PeerHasNoMachines { level: ack.accepted_level });
        }
        let ours = our_machines_hash_for(ack.accepted_level);
        if !bytes::bytes_equal(&ack.machines_hash, &ours) {
            return Err(NegotiationError::MachineMismatch { level: ack.accepted_level });
        }
    }
    Ok(ack.accepted_level)
}

/// An answer that is accepted speaks our version, is at or above the floor and, where the level
/// needs a counterpart, comes from a server that has loaded exactly the machines we expect. The
/// level to run is the one the server named.
pub proof fn law_negotiation_fails_closed(
    ack: HelloAck,
    floor: u8,
    needs_peer: bool,
    ours: Seq<u8>,
)
    ensures
        verdict(ack, floor, needs_peer, ours) is Ok <==> {
            &&& ack.version == VERSION
            &&& floor <= ack.accepted_level
            &&& needs_peer ==> ack.server_machines && ack.machines_hash@ == ours
        },
        verdict(ack, floor, needs_peer, ours) matches Ok(level) ==> level == ack.accepted_level
            && floor <= level,
{
}

/// The number of each kind of frame.
pub proof fn law_kind_numbers(kind: FrameKind)
    ensures
        kind.code() == match kind {
            FrameKind::Data => 1u8,
            FrameKind::Padding => 2u8,
            FrameKind::Hello => 3u8,
            FrameKind::HelloAck => 4u8,
            FrameKind::Close => 5u8,
        },
{
}

proof fn lemma_two_byte_value(s: Seq<u8>)
    requires
        s.len() == 2,
    ensures
        bytes::be_value(s) == s[0] * 256 + s[1],
{
    reveal_with_fuel(bytes::be_value, 3);
    assert(s.drop_last().drop_last() =~= Seq::<u8>::empty());
}

/// A frame, byte by byte: the number of its kind, the length of its payload in two bytes, the
/// higher one first, the payload, and zeros up to 1200 bytes.
pub proof fn law_frame_layout(kind: FrameKind, payload: Seq<u8>, i: int)
    requires
        frame_fault(kind, payload) is None,
    ensures
        ({
            let f = frame_bytes(kind, payload);
            &&& f.len() == 1200
            &&& FrameKind::of_code(f[0]) == Some(kind)
            &&& f[1] * 256 + f[2] == payload.len()
            &&& 3 <= i < 3 + payload.len() ==> f[i] == payload[i - 3]
            &&& 3 + payload.len() <= i < 1200 ==> f[i] == 0
        }),
{
    let f = frame_bytes(kind, payload);
    bytes::lemma_be_bytes_len(payload.len(), 2);
    bytes::lemma_be_spans();
    bytes::lemma_be_value_of_bytes(payload.len(), 2);
    let b = bytes::be_bytes(payload.len(), 2);
    lemma_two_byte_value(b);
    assert(f[1] == b[0] && f[2] == b[1]);
}

/// Up to 1197 bytes can be framed as data or as a greeting or its answer; padding and closing
/// frames carry nothing. Otherwise the reason names the length or the kind.
pub proof fn law_what_can_be_framed(kind: FrameKind, payload: Seq<u8>)
    ensures
        frame_fault(kind, payload) is None <==> payload.len() <= 1197 && (payload.len() == 0
            || kind == FrameKind::Data || kind == FrameKind::Hello || kind == FrameKind::HelloAck),
        payload.len() > 1197 ==> frame_fault(kind, payload) == Some(
            WireError::PayloadTooLarge { len: payload.len() as usize },
        ),
        0 < payload.len() <= 1197 && (kind == FrameKind::Padding || kind == FrameKind::Close)
            ==> frame_fault(kind, payload) == Some(WireError::UnexpectedPayload(kind)),
{
}

/// What a frame of 1200 bytes decodes to: the kind that its first byte stands for and as many
/// bytes behind the header as the second and third say, or the reason to drop it.
pub proof fn law_decoding(buf: Seq<u8>)
    requires
        buf.len() == 1200,
    ensures
        ({
            let declared = buf[1] * 256 + buf[2];
            let carries = buf[0] == 1 || buf[0] == 3 || buf[0] == 4;
            &&& decoded(buf) is Ok <==> 1 <= buf[0] <= 5 && declared <= 1197 && (declared == 0
                || carries)
            &&& decoded(buf) matches Ok((kind, payload)) ==> {
                &&& kind.code() == buf[0]
                &&& payload.len() == declared
                &&& forall|i: int| 0 <= i < declared ==> #[trigger] payload[i] == buf[3 + i]
            }
            &&& buf[0] == 0 || buf[0] > 5 ==> decoded(buf) == Err::<
                (FrameKind, Seq<u8>),
                WireError,
            >(WireError::UnknownKind(buf[0]))
            &&& 1 <= buf[0] <= 5 && declared > 1197 ==> decoded(buf) == Err::<
                (FrameKind, Seq<u8>),
                WireError,
            >(WireError::BadLength { declared: declared as usize })
            &&& (buf[0] == 2 || buf[0] == 5) && 0 < declared <= 1197 ==> decoded(buf) == Err::<
                (FrameKind, Seq<u8>),
                WireError,
            >(WireError::UnexpectedPayload(FrameKind::of_code(buf[0])->Some_0))
        }),
{
    let d = buf.subrange(1, 3);
    lemma_two_byte_value(d);
    assert(d[0] == buf[1] && d[1] == buf[2]);
}

/// A mask has a level exactly where the binary digit of that place is 1.
pub proof fn law_mask_bits(m: LevelMask)
    ensures
        m.bit(0) <==> m.0 % 2 == 1,
        m.bit(1) <==> m.0 / 2 % 2 == 1,
        m.bit(2) <==> m.0 / 4 % 2 == 1,
        m.bit(3) <==> m.0 / 8 % 2 == 1,
        m.bit(4) <==> m.0 / 16 % 2 == 1,
        m.bit(5) <==> m.0 / 32 % 2 == 1,
        m.bit(6) <==> m.0 / 64 % 2 == 1,
        m.bit(7) <==> m.0 / 128 % 2 == 1,
{
    let b = m.0;
    assert((b & (1u8 << 0u8) != 0 <==> b % 2 == 1) && (b & (1u8 << 1u8) != 0 <==> b / 2 % 2 == 1)
        && (b & (1u8 << 2u8) != 0 <==> b / 4 % 2 == 1) && (b & (1u8 << 3u8) != 0 <==> b / 8 % 2
        == 1) && (b & (1u8 << 4u8) != 0 <==> b / 16 % 2 == 1) && (b & (1u8 << 5u8) != 0 <==> b / 32
        % 2 == 1) && (b & (1u8 << 6u8) != 0 <==> b / 64 % 2 == 1) && (b & (1u8 << 7u8) != 0 <==> b
        / 128 % 2 == 1)) by (bit_vector);
}

/// The best common level is one that both masks have, and no higher one is common; there is none
/// only where the masks have nothing in common.
pub proof fn law_best_common_level(a: LevelMask, b: LevelMask, k: u8)
    requires
        k < 8,
    ensures
        match a.best_below(b, 8) {
            Some(l) => l < 8 && a.bit(l) && b.bit(l) && (l < k ==> !(a.bit(k) && b.bit(k))),
            None => !(a.bit(k) && b.bit(k)),
        },
{
    lemma_best_below(a, b, 8, k);
}

proof fn lemma_best_below(a: LevelMask, b: LevelMask, n: u8, k: u8)
    ensures
        match a.best_below(b, n) {
            Some(l) => l < n && a.bit(l) && b.bit(l) && (l < k < n ==> !(a.bit(k) && b.bit(k))),
            None => k < n ==> !(a.bit(k) && b.bit(k)),
        },
    decreases n,
{
    if n > 0 {
        lemma_best_below(a, b, (n - 1) as u8, k);
    }
}

/// A hello, byte by byte: the version, the higher byte first, the level, the mask, the hash.
pub proof fn law_hello_layout(h: Hello)
    ensures
        h.bytes().len() == 36,
        h.bytes()[0] * 256 + h.bytes()[1] == h.version,
        h.bytes()[2] == h.desired_level,
        h.bytes()[3] == h.supported.0,
        h.bytes().skip(4) == h.machines_hash@,
{
    bytes::lemma_be_bytes_len(h.version as nat, 2);
    bytes::lemma_be_spans();
    bytes::lemma_be_value_of_bytes(h.version as nat, 2);
    lemma_two_byte_value(bytes::be_bytes(h.version as nat, 2));
    assert(h.bytes().skip(4) =~= h.machines_hash@);
}

/// An answer, byte by byte: the version, the higher byte first, the level, 1 or 0 for machines or
/// none, the hash.
pub proof fn law_ack_layout(a: HelloAck)
    ensures
        a.bytes().len() == 36,
        a.bytes()[0] * 256 + a.bytes()[1] == a.version,
        a.bytes()[2] == a.accepted_level,
        a.server_machines ==> a.bytes()[3] == 1,
        !a.server_machines ==> a.bytes()[3] == 0,
        a.bytes().skip(4) == a.machines_hash@,
{
    bytes::lemma_be_bytes_len(a.version as nat, 2);
    bytes::lemma_be_spans();
    bytes::lemma_be_value_of_bytes(a.version as nat, 2);
    lemma_two_byte_value(bytes::be_bytes(a.version as nat, 2));
    assert(a.bytes().skip(4) =~= a.machines_hash@);
}

/// What a hello and an answer are read from, byte by byte. Any byte but 0 claims machines.
pub proof fn law_greetings_read(buf: Seq<u8>, h: Hello, a: HelloAck)
    requires
        buf.len() >= 36,
        h.starts(buf),
        a.starts(buf),
    ensures
        h.version == buf[0] * 256 + buf[1],
        h.desired_level == buf[2],
        h.supported.0 == buf[3],
        forall|i: int| 0 <= i < 32 ==> #[trigger] h.machines_hash@[i] == buf[4 + i],
        a.version == buf[0] * 256 + buf[1],
        a.accepted_level == buf[2],
        a.server_machines <==> buf[3] != 0,
        forall|i: int| 0 <= i < 32 ==> #[trigger] a.machines_hash@[i] == buf[4 + i],
{
    lemma_two_byte_value(buf.take(2));
    assert(buf.take(2)[0] == buf[0] && buf.take(2)[1] == buf[1]);
    let hash = buf.subrange(4, 36);
    assert forall|i: int| 0 <= i < 32 implies #[trigger] hash[i] == buf[4 + i] by {}
}

/// Which reason a refusal gives: the version before all else, then the floor, then missing
/// machines, then machines that differ.
pub proof fn law_refusals_say_why(ack: HelloAck, floor: u8, needs_peer: bool, ours: Seq<u8>)
    ensures
        ({
            let v = verdict(ack, floor, needs_peer, ours);
            let level = ack.accepted_level;
            &&& ack.version != 1 ==> v == Err::<u8, NegotiationError>(
                NegotiationError::Version { theirs: ack.version, ours: 1 },
            )
            &&& ack.version == 1 && level < floor ==> v == Err::<u8, NegotiationError>(
                NegotiationError::BelowFloor { accepted: level, floor },
            )
            &&& ack.version == 1 && floor <= level && needs_peer && !ack.server_machines ==> v
                == Err::<u8, NegotiationError>(NegotiationError::PeerHasNoMachines { level })
            &&& ack.version == 1 && floor <= level && needs_peer && ack.server_machines
                && ack.machines_hash@ != ours ==> v == Err::<u8, NegotiationError>(
                NegotiationError::MachineMismatch { level },
            )
            &&& ack.version == 1 && floor <= level && (!needs_peer || (ack.server_machines
                && ack.machines_hash@ == ours)) ==> v == Ok::<u8, NegotiationError>(level)
        }),
{
}

/// The message that a list of machines is hashed from starts with its domain, byte for byte.
pub proof fn law_machines_message_starts_with_its_domain(specs: Seq<Seq<u8>>)
    ensures
        machines_message(specs).len() >= 17,
        machines_message(specs).take(17) == seq![
            'd' as u8, 'v' as u8, 'p' as u8, 'n' as u8, '-' as u8, 'm' as u8, 'a' as u8, 'c' as u8,
            'h' as u8, 'i' as u8, 'n' as u8, 'e' as u8, 's' as u8, '-' as u8, 'v' as u8, '1' as u8,
            0u8,
        ],
        specs.len() == 0 ==> machines_message(specs).len() == 17,
{
    reveal_strlit("dvpn-machines-v1\0");
    is_ascii_chars_encode_utf8("dvpn-machines-v1\0"@);
    let d = machines_domain();
    assert(d.len() == 17);
    assert(machines_message(specs).take(17) =~= d);
    assert(d =~= seq![
        'd' as u8, 'v' as u8, 'p' as u8, 'n' as u8, '-' as u8, 'm' as u8, 'a' as u8, 'c' as u8,
        'h' as u8, 'i' as u8, 'n' as u8, 'e' as u8, 's' as u8, '-' as u8, 'v' as u8, '1' as u8, 0u8,
    ]);
    if specs.len() == 0 {
        order::lemma_dictionary_is_total();
        specs.lemma_sort_by_ensures(order::dictionary());
        order::lemma_sorted_members(specs);
        specs.to_multiset_ensures();
        order::sorted(specs).to_multiset_ensures();
        assert(order::sorted(specs).len() == 0);
    }
}

/// Each entry behind the domain is the length of a specification in four bytes and then the
/// specification.
pub proof fn law_machine_entries(first: Seq<u8>, rest: Seq<Seq<u8>>)
    requires
        first.len() < 0x1_0000_0000,
    ensures
        ({
            let e = entries(seq![first] + rest);
            &&& e.len() == 4 + first.len() + entries(rest).len()
            &&& bytes::be_value(e.take(4)) == first.len()
            &&& e.subrange(4, 4 + first.len() as int) == first
            &&& e.skip(4 + first.len() as int) == entries(rest)
        }),
{
    let all = seq![first] + rest;
    assert(all[0] == first);
    assert(all.drop_first() =~= rest);
    bytes::lemma_be_spans();
    bytes::lemma_be_bytes_len(first.len(), 4);
    bytes::lemma_be_value_of_bytes(first.len(), 4);
    let e = entries(all);
    assert(e.take(4) =~= bytes::be_bytes(first.len(), 4));
    assert(e.subrange(4, 4 + first.len() as int) =~= first);
    assert(e.skip(4 + first.len() as int) =~= entries(rest));
}

} // verus!
