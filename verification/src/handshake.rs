//! What the two ends say to each other before there is a defense, and what each makes of the
//! other's words.
//!
//! The client states the level that it wants; the server answers with the level that it will
//! actually run and whether it has loaded counterpart machines; the client decides. Keys are
//! derived from a pre-shared string. That is a testbed convenience: a real deployment needs an
//! authenticated key exchange from a reviewed implementation.

use vstd::prelude::*;
use vstd::utf8::*;

use crate::bytes;
use crate::crypto;
use crate::engine;
use crate::levels;
use crate::policy;
use crate::policy::{DefenseLevel, Policy, PolicySource, Role};
use crate::seal::{ChaChaSeal, Seal};
use crate::text;
use crate::time::Instant;
use crate::transport::{Received, TransportError};
use crate::wire;
use crate::wire::{FrameKind, Hello, HelloAck, NegotiationError, WireError, FRAME_LEN, VERSION};

verus! {

/// What every hashed key starts with.
pub open spec fn key_domain() -> Seq<u8> {
    encode_utf8("dvpn-testbed-kdf-v1\0"@)
}

/// The message whose hash is the key for one direction.
pub open spec fn key_message(tag: Seq<char>, psk: Seq<char>) -> Seq<u8> {
    key_domain() + encode_utf8(tag) + encode_utf8(psk)
}

fn derive(tag: &str, psk: &str) -> (key: [u8; 32])
    ensures
        key@ == crypto::blake3_digest(key_message(tag@, psk@)),
{
    let mut message: Vec<u8> = Vec::new();
    bytes::extend(&mut message, "dvpn-testbed-kdf-v1\0".as_bytes());
    bytes::extend(&mut message, tag.as_bytes());
    bytes::extend(&mut message, psk.as_bytes());
    assert(message@ =~= key_message(tag@, psk@));
    crypto::blake3_hash(&message)
}

/// Testbed key derivation: the key from client to server and the key from server to client.
/// Domain-separated per direction so that the two sides never share a key stream, but this is not
/// key *agreement*.
pub fn keys(psk: &str) -> (k: ([u8; 32], [u8; 32]))
    ensures
        k.0@ == crypto::blake3_digest(key_message("c2s"@, psk@)),
        k.1@ == crypto::blake3_digest(key_message("s2c"@, psk@)),
{
    (derive("c2s", psk), derive("s2c", psk))
}

/// The two directions' keys are never hashed from the same message, whatever the pre-shared
/// strings.
pub proof fn law_directions_are_keyed_apart(psk1: Seq<char>, psk2: Seq<char>)
    ensures
        key_message("c2s"@, psk1) != key_message("s2c"@, psk2),
{
    reveal_strlit("c2s");
    reveal_strlit("s2c");
    is_ascii_chars_encode_utf8("c2s"@);
    is_ascii_chars_encode_utf8("s2c"@);
    let n = key_domain().len() as int;
    assert(key_message("c2s"@, psk1)[n] == 'c' as u8);
    assert(key_message("s2c"@, psk2)[n] == 's' as u8);
}

/// No list of machines is hashed from the message that a key is hashed from.
pub proof fn law_hash_domains_are_apart(specs: Seq<Seq<u8>>, tag: Seq<char>, psk: Seq<char>)
    ensures
        wire::machines_message(specs) != key_message(tag, psk),
{
    reveal_strlit("dvpn-machines-v1\0");
    reveal_strlit("dvpn-testbed-kdf-v1\0");
    is_ascii_chars_encode_utf8("dvpn-machines-v1\0"@);
    is_ascii_chars_encode_utf8("dvpn-testbed-kdf-v1\0"@);
    assert(wire::machines_message(specs)[5] == 'm' as u8);
    assert(key_message(tag, psk)[5] == 't' as u8);
}

/// How long a server waits for a client, in nanoseconds: 30 s.
pub const ACCEPT_WAIT_NANOS: u128 = 30_000_000_000;

/// How long a client waits for the answer to its hello, in nanoseconds: 3 s.
pub const ANSWER_WAIT_NANOS: u128 = 3_000_000_000;

/// What an end that waits does next.
#[derive(Clone, Debug, PartialEq, Eq)]
pub enum Wait {
    GoOn,
    GiveUp,
    /// What it waited for has come.
    Take(Vec<u8>),
}

impl Wait {
    /// Whether this is what to do where `came` is what came in and the wait, which began at
    /// `since`, may take `limit` nanoseconds.
    pub open spec fn decides(
        self,
        came: Option<Seq<u8>>,
        since: Instant,
        now: Instant,
        limit: u128,
    ) -> bool {
        match came {
            Some(bytes) => self matches Wait::Take(taken) && taken@ == bytes,
            None => if since.nanos + limit < now.nanos {
                self is GiveUp
            } else {
                self is GoOn
            },
        }
    }
}

fn wait(came: Option<Vec<u8>>, since: Instant, now: Instant, limit: u128) -> (w: Wait)
    ensures
        w.decides(
            match came {
                Some(bytes) => Some(bytes@),
                None => None,
            },
            since,
            now,
            limit,
        ),
{
    match came {
        Some(bytes) => Wait::Take(bytes),
        None => if limit < now.duration_since(since).nanos {
            Wait::GiveUp
        } else {
            Wait::GoOn
        },
    }
}

/// What a server that has waited since `since` does: the first datagram that comes, whatever it
/// is, ends the wait.
pub fn await_client(datagram: Option<Vec<u8>>, since: Instant, now: Instant) -> (w: Wait)
    ensures
        w.decides(
            match datagram {
                Some(bytes) => Some(bytes@),
                None => None,
            },
            since,
            now,
            ACCEPT_WAIT_NANOS,
        ),
{
    wait(datagram, since, now, ACCEPT_WAIT_NANOS)
}

/// What a client that has waited since `since` does: the first authentic control frame is the
/// answer, and anything else is passed over.
pub fn await_answer(received: Option<Received>, since: Instant, now: Instant) -> (w: Wait)
    ensures
        w.decides(
            match received {
                Some(Received::Control(payload)) => Some(payload@),
                _ => None,
            },
            since,
            now,
            ANSWER_WAIT_NANOS,
        ),
{
    let came = match received {
        Some(Received::Control(payload)) => Some(payload),
        _ => None,
    };
    wait(came, since, now, ANSWER_WAIT_NANOS)
}

/// The policy that pins `level`. Modelled as profile-delivered, because that is how a deployed
/// client gets it: the floor comes from the configuration profile, not from the app's own
/// settings.
pub fn policy(level: DefenseLevel) -> (p: Policy)
    ensures
        p.level == level,
        p.enforced,
        p.source == PolicySource::Profile,
        p.require_peer_support,
        p.constant_packet_size,
        p.max_padding_frac.bits == 0x3FE0_0000_0000_0000,
        p.max_blocking_frac.bits == 0x3FC9_9999_9999_999A,
        p.fault() is None,
{
    let base = Policy::default();
    proof {
        policy::lemma_unit_interval(base.max_padding_frac);
        policy::lemma_unit_interval(base.max_blocking_frac);
    }
    Policy {
        level,
        enforced: true,
        require_peer_support: base.require_peer_support,
        max_padding_frac: base.max_padding_frac,
        max_blocking_frac: base.max_blocking_frac,
        constant_packet_size: base.constant_packet_size,
        source: PolicySource::Profile,
    }
}

/// Why the server does not take the first datagram for the start of a session.
#[derive(Clone, Copy, Debug, PartialEq, Eq, Structural)]
pub enum AcceptError {
    /// It did not open.
    Rejected(TransportError),
    /// It opened to something that is no frame, or to a hello that is too short.
    Wire(WireError),
    NotAHello,
}

impl AcceptError {
    pub open spec fn text(self) -> Seq<char> {
        match self {
            AcceptError::Rejected(e) => "first datagram rejected: "@ + e.text(),
            AcceptError::Wire(e) => e.text(),
            AcceptError::NotAHello => "first frame was not a Hello"@,
        }
    }

    /// The error in words.
    pub fn message(&self) -> (s: String)
        ensures
            s@ == self.text(),
    {
        match self {
            AcceptError::Rejected(e) => {
                let mut s = String::new();
                s.append("first datagram rejected: ");
                let inner = e.message();
                s.append(inner.as_str());
                assert(s@ =~= self.text());
                s
            },
            AcceptError::Wire(e) => e.message(),
            AcceptError::NotAHello => {
                let mut s = String::new();
                s.append("first frame was not a Hello");
                assert(s@ =~= self.text());
                s
            },
        }
    }
}

/// Whether the server may make `r` of the frame that the first datagram opened to.
pub open spec fn hello_in_frame(frame: Seq<u8>, r: Result<Hello, AcceptError>) -> bool {
    match wire::decoded(frame) {
        Err(e) => r == Err::<Hello, AcceptError>(AcceptError::Wire(e)),
        Ok((kind, payload)) => if kind != FrameKind::Hello {
            r == Err::<Hello, AcceptError>(AcceptError::NotAHello)
        } else if payload.len() < wire::HELLO_LEN {
            r == Err::<Hello, AcceptError>(
                AcceptError::Wire(
                    WireError::ShortBuffer { got: payload.len() as usize, want: wire::HELLO_LEN },
                ),
            )
        } else {
            r is Ok && r->Ok_0.starts(payload)
        },
    }
}

/// The hello in the first datagram that arrives at a server.
pub fn accept_hello(seal: &mut ChaChaSeal, datagram: &[u8]) -> (r: Result<Hello, AcceptError>)
    ensures
        exists|opened: Result<Seq<u8>, TransportError>| #[trigger]
            ChaChaSeal::opens(*old(seal), datagram@, *final(seal), opened) && match opened {
                Err(e) => r == Err::<Hello, AcceptError>(AcceptError::Rejected(e)),
                Ok(frame) => hello_in_frame(frame, r),
            },
{
    let ghost before = *seal;
    let mut frame = [0u8; FRAME_LEN];
    let opened = seal.open(datagram, &mut frame);
    let ghost outcome: Result<Seq<u8>, TransportError> = match opened {
        Ok(()) => Ok(frame@),
        Err(e) => Err(e),
    };
    assert(ChaChaSeal::opens(before, datagram@, *seal, outcome));
    match opened {
        Ok(()) => {},
        Err(e) => return Err(AcceptError::Rejected(e)),
    }
    let decoded = match wire::decode(&frame) {
        Ok(f) => f,
        Err(e) => return Err(AcceptError::Wire(e)),
    };
    if decoded.kind != FrameKind::Hello {
        return Err(AcceptError::NotAHello);
    }
    match Hello::decode(decoded.payload) {
        Ok(h) => Ok(h),
        Err(e) => Err(AcceptError::Wire(e)),
    }
}

/// The smaller of two.
pub open spec fn smaller(a: u8, b: u8) -> u8 {
    if b < a {
        b
    } else {
        a
    }
}

/// The level that a server configured to run `level` answers with: the highest that both ends
/// support, capped by what the client asked for *and* by what this server is configured to run.
pub open spec fn accepted_level(hello: Hello, level: DefenseLevel) -> u8 {
    match levels::supported_mask().best_below(hello.supported, 8) {
        Some(common) => smaller(smaller(common, hello.desired_level), levels::code(level)),
        None => 0,
    }
}

/// Whether `ack` is the honest answer of a server configured to run `level` which has loaded its
/// machines, unless `no_server_machines`.
pub open spec fn honest(
    ack: HelloAck,
    hello: Hello,
    level: DefenseLevel,
    no_server_machines: bool,
) -> bool {
    let accepted = accepted_level(hello, level);
    &&& ack.version == VERSION
    &&& ack.accepted_level == accepted
    &&& ack.server_machines == (!no_server_machines && levels::specs_of(
        Role::Server,
        accepted,
    ).len() > 0)
    &&& ack.machines_hash@ == if no_server_machines {
        Seq::new(32, |i: int| 0u8)
    } else {
        levels::specs_digest(levels::specs_of(Role::Server, accepted))
    }
}

fn min(a: u8, b: u8) -> (m: u8)
    ensures
        m == smaller(a, b),
{
    if b < a {
        b
    } else {
        a
    }
}

/// Answer a hello honestly: the highest level that both ends support, and whether counterpart
/// machines are actually loaded. `no_server_machines` is an under-provisioned relay, which is the
/// case that the client must refuse.
pub fn answer(hello: &Hello, level: DefenseLevel, no_server_machines: bool) -> (ack: HelloAck)
    ensures
        honest(ack, *hello, level, no_server_machines),
{
    let ours = levels::supported(Role::Server);
    let ceiling: u8 = levels::to_u8(level);
    let accepted: u8 = match ours.best_common(hello.supported) {
        Some(common) => min(min(common, hello.desired_level), ceiling),
        None => 0,
    };
    let have_machines = !no_server_machines && match levels::from_u8(accepted) {
        Some(l) => {
            let specs = l.machines(Role::Server);
            assert(policy::texts(specs@).len() == specs@.len());
            specs.len() != 0
        },
        None => false,
    };
    let machines_hash = if no_server_machines {
        let zeros = [0u8; 32];
        assert(zeros@ =~= Seq::new(32, |i: int| 0u8));
        zeros
    } else {
        levels::hash_for(Role::Server, accepted)
    };
    HelloAck {
        version: VERSION,
        accepted_level: accepted,
        server_machines: have_machines,
        machines_hash,
    }
}

/// The level that the server runs once it has answered, and `None` where there is nothing to run
/// at its end.
pub fn server_level(ack: &HelloAck) -> (l: Option<DefenseLevel>)
    ensures
        l == match levels::of_code(ack.accepted_level) {
            Some(l) => if l.server_specs().len() > 0 {
                Some(l)
            } else {
                None
            },
            None => None,
        },
{
    match levels::from_u8(ack.accepted_level) {
        Some(l) => {
            let specs = l.machines(Role::Server);
            assert(policy::texts(specs@).len() == specs@.len());
            if specs.len() == 0 {
                None
            } else {
                Some(l)
            }
        },
        None => None,
    }
}

/// The level that a client with floor `floor` asks for when `want` is wanted: never below the
/// floor.
pub open spec fn desired(floor: DefenseLevel, want: DefenseLevel) -> DefenseLevel {
    if want.strength() < floor.strength() {
        floor
    } else {
        want
    }
}

/// Whether `h` is the hello of a client with floor `floor` that wants `want`.
pub open spec fn client_says(h: Hello, floor: DefenseLevel, want: DefenseLevel) -> bool {
    &&& h.version == VERSION
    &&& h.desired_level == levels::code(desired(floor, want))
    &&& h.supported == levels::supported_mask()
    &&& h.machines_hash@ == levels::specs_digest(desired(floor, want).client_specs())
}

/// The hello of a client.
pub fn client_hello(floor: DefenseLevel, want: DefenseLevel) -> (h: Hello)
    ensures
        client_says(h, floor, want),
{
    let f: u8 = levels::to_u8(floor);
    let w: u8 = levels::to_u8(want);
    let level: u8 = if w < f {
        f
    } else {
        w
    };
    assert(level == levels::code(desired(floor, want)));
    Hello {
        version: VERSION,
        desired_level: level,
        supported: levels::supported(Role::Client),
        machines_hash: levels::hash_for(Role::Client, level),
    }
}

/// Why the client does not go on with a server.
#[derive(Clone, Copy, Debug, PartialEq, Eq, Structural)]
pub enum ConnectError {
    Refused(NegotiationError),
    /// The level that the server named is none that the client knows.
    UnknownLevel,
}

impl ConnectError {
    pub open spec fn text(self) -> Seq<char> {
        match self {
            ConnectError::Refused(_) => "negotiation failed"@,
            ConnectError::UnknownLevel => "server named an unknown level"@,
        }
    }

    /// The error in words.
    pub fn message(&self) -> (s: &'static str)
        ensures
            s@ == self.text(),
    {
        match self {
            ConnectError::Refused(_) => "negotiation failed",
            ConnectError::UnknownLevel => "server named an unknown level",
        }
    }
}

/// What a client with floor `floor` makes of the server's answer.
pub open spec fn judged(ack: HelloAck, floor: DefenseLevel) -> Result<DefenseLevel, ConnectError> {
    let level = ack.accepted_level;
    match wire::verdict(
        ack,
        levels::code(floor),
        levels::needs_peer(level),
        levels::specs_digest(levels::specs_of(Role::Server, level)),
    ) {
        Err(e) => Err(ConnectError::Refused(e)),
        Ok(_) => match levels::of_code(level) {
            Some(l) => Ok(l),
            None => Err(ConnectError::UnknownLevel),
        },
    }
}

/// Decide on the server's answer: the level to run, or the reason to refuse.
pub fn judge(ack: &HelloAck, floor: DefenseLevel) -> (r: Result<DefenseLevel, ConnectError>)
    ensures
        r == judged(*ack, floor),
{
    let hash_of = |l: u8| -> (h: [u8; 32])
        ensures
            h@ == levels::specs_digest(levels::specs_of(Role::Server, l)),
        { levels::hash_for(Role::Server, l) };
    let needs = |l: u8| -> (b: bool)
        ensures
            b == levels::needs_peer(l),
        { levels::requires_peer(l) };
    let accepted: u8 = match wire::negotiate(ack, levels::to_u8(floor), hash_of, needs) {
        Ok(l) => l,
        Err(e) => return Err(ConnectError::Refused(e)),
    };
    match levels::from_u8(accepted) {
        Some(l) => Ok(l),
        None => Err(ConnectError::UnknownLevel),
    }
}

/// What the user is told when the client refuses.
pub open spec fn refusal_text(e: NegotiationError) -> Seq<char> {
    "refusing to connect: "@ + e.text() + match e {
        NegotiationError::PeerHasNoMachines { .. } =>
        "\n  this server cannot shape return traffic. Most of the identifying\n  signal is downstream, so connecting would leave you believing you\n  were defended when you were not."@,
        NegotiationError::BelowFloor { .. } =>
        "\n  your configuration profile pins a minimum defense level that this\n  server cannot meet."@,
        _ => ""@,
    }
}

/// What the user is told when the client refuses.
pub fn refusal(e: &NegotiationError) -> (s: String)
    ensures
        s@ == refusal_text(*e),
{
    let mut s = String::new();
    s.append("refusing to connect: ");
    let inner = e.message();
    s.append(inner.as_str());
    match e {
        NegotiationError::PeerHasNoMachines { .. } => {
            s.append(
                "\n  this server cannot shape return traffic. Most of the identifying\n  signal is downstream, so connecting would leave you believing you\n  were defended when you were not.",
            );
        },
        NegotiationError::BelowFloor { .. } => {
            s.append(
                "\n  your configuration profile pins a minimum defense level that this\n  server cannot meet.",
            );
        },
        _ => {
            s.append("");
        },
    }
    assert(s@ =~= refusal_text(*e));
    s
}

/// An honest server never names a level above what the client asked for or above what it is
/// configured to run, nor a number that stands for no level; and it claims machines only where it
/// has some and has loaded them.
pub proof fn law_server_never_overpromises(
    ack: HelloAck,
    hello: Hello,
    level: DefenseLevel,
    no_server_machines: bool,
)
    requires
        honest(ack, hello, level, no_server_machines),
    ensures
        ack.accepted_level <= hello.desired_level,
        ack.accepted_level <= levels::code(level),
        levels::of_code(ack.accepted_level) is Some,
        ack.server_machines ==> !no_server_machines && levels::specs_of(
            Role::Server,
            ack.accepted_level,
        ).len() > 0,
{
}

proof fn lemma_best_of_supported()
    ensures
        levels::supported_mask().best_below(levels::supported_mask(), 8) == Some(3u8),
{
    let m = levels::supported_mask();
    assert(0b1110u8 & (1u8 << 7u8) == 0 && 0b1110u8 & (1u8 << 6u8) == 0 && 0b1110u8 & (1u8 << 5u8)
        == 0 && 0b1110u8 & (1u8 << 4u8) == 0 && 0b1110u8 & (1u8 << 3u8) != 0) by (bit_vector);
    assert(!m.bit(7) && !m.bit(6) && !m.bit(5) && !m.bit(4) && m.bit(3));
    reveal_with_fuel(wire::LevelMask::best_below, 9);
}

/// The weaker of two levels.
pub open spec fn weaker(a: DefenseLevel, b: DefenseLevel) -> DefenseLevel {
    if b.strength() < a.strength() {
        b
    } else {
        a
    }
}

/// A client and an honest server that has its machines agree exactly where the server runs at
/// least the client's floor, and then on the weaker of what the one asks for and the other is
/// configured to run. Where the server offers less, the client refuses and says so.
pub proof fn law_honest_ends_agree(
    floor: DefenseLevel,
    want: DefenseLevel,
    level: DefenseLevel,
    hello: Hello,
    ack: HelloAck,
)
    requires
        client_says(hello, floor, want),
        honest(ack, hello, level, false),
    ensures
        floor.strength() <= level.strength() ==> judged(ack, floor) == Ok::<
            DefenseLevel,
            ConnectError,
        >(weaker(desired(floor, want), level)),
        level.strength() < floor.strength() ==> judged(ack, floor) == Err::<
            DefenseLevel,
            ConnectError,
        >(
            ConnectError::Refused(
                NegotiationError::BelowFloor {
                    accepted: levels::code(level),
                    floor: levels::code(floor),
                },
            ),
        ),
{
    lemma_best_of_supported();
}

/// A server without counterpart machines is refused wherever the level needs them, however high
/// the level that it offers.
pub proof fn law_bare_server_is_refused(
    floor: DefenseLevel,
    want: DefenseLevel,
    level: DefenseLevel,
    hello: Hello,
    ack: HelloAck,
)
    requires
        client_says(hello, floor, want),
        honest(ack, hello, level, true),
        floor.needs_peer(),
    ensures
        judged(ack, floor) is Err,
        floor.strength() <= level.strength() ==> judged(ack, floor) == Err::<
            DefenseLevel,
            ConnectError,
        >(
            ConnectError::Refused(
                NegotiationError::PeerHasNoMachines {
                    level: levels::code(weaker(desired(floor, want), level)),
                },
            ),
        ),
{
    lemma_best_of_supported();
}

/// Whatever the server answers, a client that goes on runs at or above its floor and, where the
/// level needs a counterpart, against a server that claims exactly the machines that the client
/// expects. At every level but `Off` nothing stands in the way of its engine.
pub proof fn law_negotiated_level_is_defended(
    ack: HelloAck,
    floor: DefenseLevel,
    level: DefenseLevel,
    p: Policy,
)
    requires
        judged(ack, floor) == Ok::<DefenseLevel, ConnectError>(level),
        p.level == floor,
        p.enforced,
        p.require_peer_support,
        p.max_padding_frac.in_unit_interval(),
        p.max_blocking_frac.in_unit_interval(),
    ensures
        floor.strength() <= level.strength(),
        level.needs_peer() ==> ack.server_machines && ack.machines_hash@ == levels::specs_digest(
            level.server_specs(),
        ),
        level != DefenseLevel::Off ==> engine::start_fault(
            p,
            level,
            ack.server_machines,
            Role::Client,
        ) is None,
{
}

/// The level that a server answers with, for any greeting: where the two ends have a level in
/// common, the smallest of the highest common one, the one that the client asks for and the one
/// that the server is configured to run; where they have none, 0.
pub proof fn law_accepted_level_is_exact(hello: Hello, level: DefenseLevel, common: u8)
    requires
        common < 8,
    ensures
        1 <= common <= 3 && hello.supported.bit(common) && (forall|k: u8|
            common < k <= 3 ==> !#[trigger] hello.supported.bit(k)) ==> {
            let x = accepted_level(hello, level);
            &&& x <= common
            &&& x <= hello.desired_level
            &&& x <= level.strength()
            &&& x == common || x == hello.desired_level || x == level.strength()
        },
        !hello.supported.bit(1) && !hello.supported.bit(2) && !hello.supported.bit(3)
            ==> accepted_level(hello, level) == 0,
{
    let ours = levels::supported_mask();
    let theirs = hello.supported;
    wire::law_best_common_level(ours, theirs, common);
    levels::law_offered_levels(common);
    if ours.best_below(theirs, 8) is Some {
        let l = ours.best_below(theirs, 8)->Some_0;
        wire::law_best_common_level(ours, theirs, l);
        levels::law_offered_levels(l);
    }
}

/// What a client asks for is the stronger of its floor and what is wanted.
pub proof fn law_client_asks_for_the_stronger(floor: DefenseLevel, want: DefenseLevel)
    ensures
        desired(floor, want) == floor || desired(floor, want) == want,
        floor.strength() <= desired(floor, want).strength(),
        want.strength() <= desired(floor, want).strength(),
{
}

/// The greeting of a client, field by field.
pub proof fn law_client_greeting(h: Hello, floor: DefenseLevel, want: DefenseLevel, v: u8)
    requires
        client_says(h, floor, want),
        v < 8,
    ensures
        h.version == 1,
        h.desired_level == desired(floor, want).strength(),
        h.supported.bit(v) <==> 1 <= v <= 3,
        h.machines_hash@ == levels::specs_digest(desired(floor, want).specs(Role::Client)),
{
    levels::law_offered_levels(v);
}

/// The answer of an honest server, field by field: it claims machines exactly where it has loaded
/// them and the level has some at its end, and names them by their hash, or by zeros where it has
/// loaded none.
pub proof fn law_server_answer(
    ack: HelloAck,
    hello: Hello,
    level: DefenseLevel,
    no_server_machines: bool,
    i: int,
)
    requires
        honest(ack, hello, level, no_server_machines),
    ensures
        ack.version == 1,
        ack.server_machines <==> !no_server_machines && (ack.accepted_level == 2
            || ack.accepted_level == 3),
        !no_server_machines ==> ack.machines_hash@ == levels::specs_digest(
            levels::specs_of(Role::Server, ack.accepted_level),
        ),
        no_server_machines && 0 <= i < 32 ==> ack.machines_hash@[i] == 0,
{
    law_server_never_overpromises(ack, hello, level, no_server_machines);
}

/// A client goes on exactly where the server speaks its version, names a level that exists, at or
/// above the client's floor, and, from `Moderate` on, claims machines with the hash that the client
/// expects of a server at that level; and then at the level that the server named.
pub proof fn law_client_goes_on_exactly_where_defended(
    ack: HelloAck,
    floor: DefenseLevel,
    level: DefenseLevel,
)
    ensures
        judged(ack, floor) == Ok::<DefenseLevel, ConnectError>(level) <==> {
            &&& ack.version == 1
            &&& ack.accepted_level == level.strength()
            &&& floor.strength() <= level.strength()
            &&& level == DefenseLevel::Moderate || level == DefenseLevel::Heavy
                ==> ack.server_machines && ack.machines_hash@ == levels::specs_digest(
                level.specs(Role::Server),
            )
        },
        judged(ack, floor) == Err::<DefenseLevel, ConnectError>(ConnectError::UnknownLevel) <==> {
            ack.version == 1 && ack.accepted_level > 3
        },
{
}

/// The message that a key is hashed from ends in the pre-shared string, so that different strings
/// are hashed from different messages, and starts with the domain and the direction.
pub proof fn law_keys_follow_the_secret(tag: Seq<char>, a: Seq<char>, b: Seq<char>)
    ensures
        key_message(tag, a) == key_message(tag, b) ==> encode_utf8(a) == encode_utf8(b),
        key_message(tag, a).take(20) == seq![
            'd' as u8, 'v' as u8, 'p' as u8, 'n' as u8, '-' as u8, 't' as u8, 'e' as u8, 's' as u8,
            't' as u8, 'b' as u8, 'e' as u8, 'd' as u8, '-' as u8, 'k' as u8, 'd' as u8, 'f' as u8,
            '-' as u8, 'v' as u8, '1' as u8, 0u8,
        ],
        key_message(tag, a).skip(20) == encode_utf8(tag) + encode_utf8(a),
{
    reveal_strlit("dvpn-testbed-kdf-v1\0");
    is_ascii_chars_encode_utf8("dvpn-testbed-kdf-v1\0"@);
    let d = key_domain();
    assert(d.len() == 20);
    assert(key_message(tag, a).take(20) =~= d);
    assert(d =~= seq![
        'd' as u8, 'v' as u8, 'p' as u8, 'n' as u8, '-' as u8, 't' as u8, 'e' as u8, 's' as u8,
        't' as u8, 'b' as u8, 'e' as u8, 'd' as u8, '-' as u8, 'k' as u8, 'd' as u8, 'f' as u8,
        '-' as u8, 'v' as u8, '1' as u8, 0u8,
    ]);
    assert(key_message(tag, a).skip(20) =~= encode_utf8(tag) + encode_utf8(a));
    if key_message(tag, a) == key_message(tag, b) {
        let n = 20 + encode_utf8(tag).len() as int;
        assert(key_message(tag, a).skip(n) =~= encode_utf8(a));
        assert(key_message(tag, b).skip(n) =~= encode_utf8(b));
    }
}

/// The first frame is taken for a greeting exactly where its first byte is that of a greeting and
/// it carries at least 36 bytes.
pub proof fn law_first_frame(frame: Seq<u8>, r: Result<Hello, AcceptError>)
    requires
        frame.len() == 1200,
        hello_in_frame(frame, r),
    ensures
        r is Ok <==> frame[0] == 3 && 36 <= frame[1] * 256 + frame[2] <= 1197,
        r matches Ok(h) ==> h.version == frame[3] * 256 + frame[4] && h.desired_level == frame[5]
            && h.supported.0 == frame[6],
        frame[0] == 1 && frame[1] * 256 + frame[2] <= 1197 ==> r == Err::<Hello, AcceptError>(
            AcceptError::NotAHello,
        ),
{
    wire::law_decoding(frame);
    if r is Ok {
        let h = r->Ok_0;
        let payload = wire::decoded(frame)->Ok_0.1;
        let two = payload.take(2);
        bytes::law_each_byte_counts(Seq::empty(), two[0]);
        bytes::law_each_byte_counts(Seq::empty().push(two[0]), two[1]);
        assert(Seq::empty().push(two[0]).push(two[1]) =~= two);
        assert(payload[0] == frame[3] && payload[1] == frame[4] && payload[2] == frame[5]
            && payload[3] == frame[6]);
    }
}

/// An end that waits takes what comes, goes on until the time it has is over, and gives up after
/// that and not before.
pub proof fn law_waiting(w: Wait, came: Option<Seq<u8>>, since: Instant, now: Instant, limit: u128)
    requires
        w.decides(came, since, now, limit),
    ensures
        w is Take <==> came is Some,
        w matches Wait::Take(bytes) ==> Some(bytes@) == came,
        w is GiveUp <==> came is None && now.nanos - since.nanos > limit,
        w is GoOn <==> came is None && now.nanos - since.nanos <= limit,
{
}

} // verus!
