//! The datagram transport: the layer that actually makes traffic look different.
//!
//! The defense engine decides *when* to send padding and *when* to hold traffic. This module
//! carries those decisions out, and it owns the one technique that the engine cannot express:
//! every datagram it emits is [`DATAGRAM_LEN`] bytes, always.

use std::collections::VecDeque;

use vstd::prelude::*;

use crate::bytes;
use crate::measure;
use crate::measure::Packet;
use crate::seal;
use crate::text;
use crate::time::{Duration, Instant};
use crate::wire;
use crate::wire::{FrameKind, WireError, FRAME_LEN, MAX_PAYLOAD};

pub use crate::seal::{ChaChaSeal, Direction, Seal, DATAGRAM_LEN, SEAL_OVERHEAD};

verus! {

#[derive(Clone, Copy, Debug, PartialEq, Eq, Structural)]
pub enum TransportError {
    Wire(WireError),
    SealFailed,
    OpenFailed,
    Replay { counter: u64 },
    WrongDatagramLength { got: usize },
    /// The send counter would wrap. Rekey instead; never reuse a nonce.
    CounterExhausted,
    PacketTooLarge { len: usize },
}

impl TransportError {
    pub open spec fn text(self) -> Seq<char> {
        match self {
            TransportError::Wire(e) => "wire: "@ + e.text(),
            TransportError::SealFailed => "sealing failed"@,
            TransportError::OpenFailed => "datagram failed authentication"@,
            TransportError::Replay { counter } => "replayed counter "@ + text::decimal(
                counter as nat,
            ),
            TransportError::WrongDatagramLength { got } => "datagram of "@ + text::decimal(
                got as nat,
            ) + " bytes, expected "@ + text::decimal(DATAGRAM_LEN as nat),
            TransportError::CounterExhausted => "send counter exhausted; rekey required"@,
            TransportError::PacketTooLarge { len } => "packet of "@ + text::decimal(len as nat)
                + " exceeds "@ + text::decimal(MAX_PAYLOAD as nat),
        }
    }

    /// The error in words.
    pub fn message(&self) -> (s: String)
        ensures
            s@ == self.text(),
    {
        let mut s = String::new();
        match *self {
            TransportError::Wire(e) => {
                s.append("wire: ");
                let inner = e.message();
                s.append(inner.as_str());
            },
            TransportError::SealFailed => {
                s.append("sealing failed");
            },
            TransportError::OpenFailed => {
                s.append("datagram failed authentication");
            },
            TransportError::Replay { counter } => {
                s.append("replayed counter ");
                text::push_decimal(&mut s, counter as u128);
            },
            TransportError::WrongDatagramLength { got } => {
                s.append("datagram of ");
                text::push_decimal(&mut s, got as u128);
                s.append(" bytes, expected ");
                text::push_decimal(&mut s, DATAGRAM_LEN as u128);
            },
            TransportError::CounterExhausted => {
                s.append("send counter exhausted; rekey required");
            },
            TransportError::PacketTooLarge { len } => {
                s.append("packet of ");
                text::push_decimal(&mut s, len as u128);
                s.append(" exceeds ");
                text::push_decimal(&mut s, MAX_PAYLOAD as u128);
            },
        }
        assert(s@ =~= self.text());
        s
    }
}

impl From<WireError> for TransportError {
    fn from(e: WireError) -> (t: TransportError) {
        TransportError::Wire(e)
    }
}

impl vstd::std_specs::convert::FromSpecImpl<WireError> for TransportError {
    open spec fn obeys_from_spec() -> bool {
        true
    }

    open spec fn from_spec(e: WireError) -> TransportError {
        TransportError::Wire(e)
    }
}

/// What left the endpoint. One per datagram.
#[derive(Clone, Copy, Debug, PartialEq, Eq, Structural)]
pub enum Emitted {
    /// A real packet went out.
    Data,
    /// Cover traffic went out.
    Padding,
    /// Handshake.
    Control,
}

/// What arrived.
#[derive(Clone, Debug, PartialEq, Eq)]
pub enum Received {
    Data(Vec<u8>),
    Padding,
    Control(Vec<u8>),
    Close,
}

impl Received {
    /// Whether this is what a frame of kind `kind` with payload `payload` is handed out as.
    pub open spec fn stands_for(self, kind: FrameKind, payload: Seq<u8>) -> bool {
        match kind {
            FrameKind::Data => self matches Received::Data(p) && p@ == payload,
            FrameKind::Padding => self is Padding,
            FrameKind::Hello | FrameKind::HelloAck => self matches Received::Control(p) && p@
                == payload,
            FrameKind::Close => self is Close,
        }
    }
}

/// One line of the trace, in the `time,direction` shape that the Maybenot simulator reads.
#[derive(Clone, Copy, Debug, PartialEq, Eq, Structural)]
pub struct TraceEntry {
    pub at: Duration,
    pub sent: bool,
    pub padding: bool,
    /// Always [`DATAGRAM_LEN`]. Recorded anyway, so that the measurement can show it rather
    /// than take the claim on trust.
    pub bytes: usize,
}

#[derive(Clone, Copy, Debug, PartialEq, Eq, Structural)]
pub struct Stats {
    pub data_out: u64,
    pub padding_out: u64,
    pub data_in: u64,
    pub padding_in: u64,
    pub dropped: u64,
    /// Real packets currently waiting because outgoing traffic is held.
    pub queue_depth: usize,
    pub blocked_for: Duration,
}

impl Default for Stats {
    fn default() -> (s: Stats)
        ensures
            s == (Stats {
                data_out: 0,
                padding_out: 0,
                data_in: 0,
                padding_in: 0,
                dropped: 0,
                queue_depth: 0,
                blocked_for: Duration { nanos: 0 },
            }),
    {
        Stats {
            data_out: 0,
            padding_out: 0,
            data_in: 0,
            padding_in: 0,
            dropped: 0,
            queue_depth: 0,
            blocked_for: Duration { nanos: 0 },
        }
    }
}

/// A shaped datagram endpoint: everything but the socket. It hands out the datagrams to send
/// and takes the datagrams that arrived.
pub struct Endpoint<S: Seal> {
    seal: S,
    egress: VecDeque<Vec<u8>>,
    blocked_until: Option<Instant>,
    block_bypassable: bool,
    started: Instant,
    trace: Vec<TraceEntry>,
    stats: Stats,
}

/// What an [`Endpoint`] is at one moment.
#[verifier::ext_equal]
pub struct EndpointState<S> {
    pub seal: S,
    /// Real packets waiting to go out. Blocking fills this; it drains when the block lifts.
    pub egress: Seq<Seq<u8>>,
    /// The latest end among the blocks that were asked for.
    pub blocked_until: Option<Instant>,
    /// Whether the block that reaches that far was declared bypassable, meaning that padding is
    /// still allowed through.
    pub block_bypassable: bool,
    pub started: Instant,
    pub trace: Seq<TraceEntry>,
    pub stats: Stats,
}

impl<S> EndpointState<S> {
    /// Every waiting packet fits in a frame, and what is counted is in the trace.
    pub open spec fn wf(self) -> bool {
        &&& forall|i: int|
            0 <= i < self.egress.len() ==> (#[trigger] self.egress[i]).len() <= MAX_PAYLOAD
        &&& self.stats.data_out + self.stats.padding_out <= self.trace.len()
        &&& self.stats.data_in + self.stats.padding_in <= self.trace.len()
    }

    /// Whether outgoing traffic is held at `now`.
    pub open spec fn blocked(self, now: Instant) -> bool {
        self.blocked_until matches Some(t) && now.nanos < t.nanos
    }

    /// Whether cover traffic may go out at `now`.
    pub open spec fn lets_padding_out(self, now: Instant, bypass: bool) -> bool {
        !self.blocked(now) || (bypass && self.block_bypassable)
    }

    /// Whether the block that stands reaches at least as far as one for `duration` from `now` on.
    pub open spec fn outlasts(self, now: Instant, duration: Duration) -> bool {
        self.blocked_until matches Some(t) && t.nanos >= now.nanos + duration.nanos
    }

    /// The line that a frame of kind `kind` leaves in the trace.
    pub open spec fn line(self, now: Instant, sent: bool, kind: FrameKind, bytes: nat) -> TraceEntry {
        TraceEntry {
            at: now.spec_since(self.started),
            sent,
            padding: kind != FrameKind::Data,
            bytes: bytes as usize,
        }
    }

    /// The state once a sealed frame of kind `kind` has left as `what`.
    pub open spec fn after_sending(
        self,
        what: Emitted,
        kind: FrameKind,
        now: Instant,
    ) -> EndpointState<S> {
        EndpointState {
            trace: self.trace.push(self.line(now, true, kind, DATAGRAM_LEN as nat)),
            stats: match what {
                Emitted::Data => Stats {
                    data_out: (self.stats.data_out + 1) as u64,
                    ..self.stats
                },
                Emitted::Padding => Stats {
                    padding_out: (self.stats.padding_out + 1) as u64,
                    ..self.stats
                },
                Emitted::Control => self.stats,
            },
            ..self
        }
    }

    /// The state once a frame of kind `kind` has arrived in a datagram of `bytes` bytes.
    pub open spec fn after_receiving(self, kind: FrameKind, now: Instant, bytes: nat) -> EndpointState<
        S,
    > {
        EndpointState {
            trace: self.trace.push(self.line(now, false, kind, bytes)),
            stats: match kind {
                FrameKind::Data => Stats {
                    data_in: (self.stats.data_in + 1) as u64,
                    ..self.stats
                },
                FrameKind::Padding => Stats {
                    padding_in: (self.stats.padding_in + 1) as u64,
                    ..self.stats
                },
                _ => self.stats,
            },
            ..self
        }
    }

    /// The state once a datagram has been dropped.
    pub open spec fn after_dropping(self) -> EndpointState<S> {
        EndpointState {
            stats: Stats { dropped: (self.stats.dropped + 1) as u64, ..self.stats },
            ..self
        }
    }

    /// The state once outgoing traffic is held for `duration` from `now` on. A block is extended
    /// and never shortened. A request that extends it says from then on whether it is bypassable;
    /// one that does not changes nothing.
    pub open spec fn after_blocking(
        self,
        now: Instant,
        duration: Duration,
        bypassable: bool,
    ) -> EndpointState<S> {
        if self.outlasts(now, duration) {
            self
        } else {
            EndpointState {
                blocked_until: Some(now.spec_after(duration)),
                block_bypassable: bypassable,
                stats: Stats {
                    blocked_for: Duration {
                        nanos: (self.stats.blocked_for.nanos + duration.nanos) as u128,
                    },
                    ..self.stats
                },
                ..self
            }
        }
    }

    /// The state once outgoing traffic has been held as `requests` ask, one after the other.
    pub open spec fn after_requests(self, requests: Seq<BlockRequest>) -> EndpointState<S>
        decreases requests.len(),
    {
        if requests.len() == 0 {
            self
        } else {
            let last = requests.last();
            self.after_requests(requests.drop_last()).after_blocking(
                last.at,
                last.duration,
                last.bypassable,
            )
        }
    }
}

/// A request to hold outgoing traffic for `duration` from `at` on.
pub struct BlockRequest {
    pub at: Instant,
    pub duration: Duration,
    pub bypassable: bool,
}

impl BlockRequest {
    /// When the block that is asked for ends.
    pub open spec fn end(self) -> int {
        self.at.nanos + self.duration.nanos
    }

    /// Whether the block that is asked for lasts at `now`.
    pub open spec fn lasts(self, now: Instant) -> bool {
        now.nanos < self.end()
    }

    /// Whether the block that is asked for keeps cover traffic back at `now`: `bypass` says
    /// whether the cover traffic is marked to go through a bypassable block.
    pub open spec fn holds_padding(self, now: Instant, bypass: bool) -> bool {
        self.lasts(now) && !(bypass && self.bypassable)
    }
}

/// Whether framing `payload` and sealing the frame may take `before` to `after` with outcome
/// `r`.
pub open spec fn framed<S: Seal>(
    before: S,
    kind: FrameKind,
    payload: Seq<u8>,
    after: S,
    r: Result<Seq<u8>, TransportError>,
) -> bool {
    match wire::frame_fault(kind, payload) {
        Some(e) => r == Err::<Seq<u8>, TransportError>(TransportError::Wire(e)) && after == before,
        None => S::seals(before, wire::frame_bytes(kind, payload), after, r) && (r matches Ok(d)
            ==> d.len() == DATAGRAM_LEN),
    }
}

/// Whether the packets `packets` may be sealed, in this order, into the datagrams `datagrams`
/// by a sealer that passes through the states `seals`.
pub open spec fn sealed_in_order<S: Seal>(
    seals: Seq<S>,
    packets: Seq<Seq<u8>>,
    datagrams: Seq<Seq<u8>>,
) -> bool {
    &&& seals.len() == datagrams.len() + 1
    &&& datagrams.len() <= packets.len()
    &&& forall|i: int|
        #![trigger datagrams[i]]
        0 <= i < datagrams.len() ==> framed(
            seals[i],
            FrameKind::Data,
            packets[i],
            seals[i + 1],
            Ok(datagrams[i]),
        )
}

/// The datagrams in `list`.
pub open spec fn contents(list: Seq<Vec<u8>>) -> Seq<Seq<u8>> {
    list.map_values(|v: Vec<u8>| v@)
}

impl<S> EndpointState<S> {
    /// The state once `n` real packets have left, the sealer being `seal` then.
    pub open spec fn after_data(self, n: nat, now: Instant, seal: S) -> EndpointState<S> {
        EndpointState {
            seal,
            egress: self.egress.skip(n as int),
            blocked_until: None,
            trace: self.trace + Seq::new(
                n,
                |i: int| self.line(now, true, FrameKind::Data, DATAGRAM_LEN as nat),
            ),
            stats: Stats { data_out: (self.stats.data_out + n) as u64, ..self.stats },
            ..self
        }
    }
}

/// Whether `flush` at `now` may take `before` to `after`, hand out `datagrams` and have the
/// outcome `error`: `None` where everything went out.
pub open spec fn flushes<S: Seal>(
    before: EndpointState<S>,
    now: Instant,
    after: EndpointState<S>,
    datagrams: Seq<Seq<u8>>,
    error: Option<TransportError>,
) -> bool {
    if before.blocked(now) {
        after == before && datagrams.len() == 0 && error is None
    } else {
        let n = datagrams.len();
        exists|seals: Seq<S>| #[trigger]
            sealed_in_order(seals, before.egress, datagrams) && seals[0] == before.seal && match error {
                None => n == before.egress.len() && after == before.after_data(
                    n,
                    now,
                    seals.last(),
                ),
                Some(e) => {
                    &&& n < before.egress.len()
                    &&& framed(
                        seals.last(),
                        FrameKind::Data,
                        before.egress[n as int],
                        after.seal,
                        Err(e),
                    )
                    &&& after == (EndpointState {
                        egress: before.egress.skip(n as int + 1),
                        ..before.after_data(n, now, after.seal)
                    })
                },
            }
    }
}

/// Whether sending one frame of cover traffic or control may take `before` to `after` with
/// outcome `r`: the datagram, or the reason why there is none.
pub open spec fn emits<S: Seal>(
    before: EndpointState<S>,
    what: Emitted,
    kind: FrameKind,
    payload: Seq<u8>,
    now: Instant,
    after: EndpointState<S>,
    r: Result<Seq<u8>, TransportError>,
) -> bool {
    &&& framed(before.seal, kind, payload, after.seal, r)
    &&& after == match r {
        Ok(d) => (EndpointState { seal: after.seal, ..before }).after_sending(what, kind, now),
        Err(e) => EndpointState { seal: after.seal, ..before },
    }
}

/// Whether a datagram that arrived at `now` may take `before` to `after` and be handed out as
/// `r`.
pub open spec fn receives<S: Seal>(
    before: EndpointState<S>,
    from_peer: bool,
    datagram: Seq<u8>,
    now: Instant,
    after: EndpointState<S>,
    r: Option<Received>,
) -> bool {
    if !from_peer {
        r is None && after == before.after_dropping()
    } else {
        exists|opened: Result<Seq<u8>, TransportError>| #[trigger]
            S::opens(before.seal, datagram, after.seal, opened) && {
                let state = EndpointState { seal: after.seal, ..before };
                match opened {
                    Err(e) => r is None && after == state.after_dropping(),
                    Ok(frame) => match wire::decoded(frame) {
                        Err(e) => r is None && after == state.after_dropping(),
                        Ok((kind, payload)) => {
                            &&& r is Some
                            &&& r->Some_0.stands_for(kind, payload)
                            &&& after == state.after_receiving(kind, now, datagram.len())
                        },
                    },
                }
            }
    }
}

impl<S: Seal> View for Endpoint<S> {
    type V = EndpointState<S>;

    closed spec fn view(&self) -> EndpointState<S> {
        EndpointState {
            seal: self.seal,
            egress: contents(self.egress@),
            blocked_until: self.blocked_until,
            block_bypassable: self.block_bypassable,
            started: self.started,
            trace: self.trace@,
            stats: self.stats,
        }
    }
}

impl<S: Seal> Endpoint<S> {
    pub open spec fn wf(self) -> bool {
        self@.wf()
    }

    pub fn new(seal: S, started: Instant) -> (e: Endpoint<S>)
        ensures
            e.wf(),
            e@.seal == seal,
            e@.egress.len() == 0,
            e@.blocked_until is None,
            !e@.block_bypassable,
            e@.started == started,
            e@.trace.len() == 0,
            e@.stats == (Stats {
                data_out: 0,
                padding_out: 0,
                data_in: 0,
                padding_in: 0,
                dropped: 0,
                queue_depth: 0,
                blocked_for: Duration { nanos: 0 },
            }),
    {
        Endpoint {
            seal,
            egress: VecDeque::new(),
            blocked_until: None,
            block_bypassable: false,
            started,
            trace: Vec::new(),
            stats: Stats::default(),
        }
    }

    pub fn stats(&self) -> (s: Stats)
        ensures
            s == (Stats { queue_depth: self@.egress.len() as usize, ..self@.stats }),
            s.queue_depth == self@.egress.len(),
    {
        let s = self.stats;
        Stats {
            data_out: s.data_out,
            padding_out: s.padding_out,
            data_in: s.data_in,
            padding_in: s.padding_in,
            dropped: s.dropped,
            queue_depth: self.egress.len(),
            blocked_for: s.blocked_for,
        }
    }

    pub fn trace(&self) -> (t: &[TraceEntry])
        ensures
            t@ == self@.trace,
    {
        &self.trace
    }

    pub fn is_blocked(&self, now: Instant) -> (b: bool)
        ensures
            b == self@.blocked(now),
    {
        match self.blocked_until {
            Some(t) => now.before(t),
            None => false,
        }
    }

    /// Hold outgoing traffic until `now + duration`.
    ///
    /// Extends an existing block rather than shortening it: two machines asking for blocking
    /// should not have the shorter request cancel the longer one. Whether a block is bypassable is
    /// for the request to say that extends it, and a shorter request has no say in that either.
    pub fn block_outgoing(&mut self, now: Instant, duration: Duration, bypassable: bool)
        requires
            old(self).wf(),
            now.can_advance(duration),
            !old(self)@.outlasts(now, duration) ==> old(self)@.stats.blocked_for.nanos
                + duration.nanos <= u128::MAX,
        ensures
            final(self).wf(),
            final(self)@ == old(self)@.after_blocking(now, duration, bypassable),
    {
        let until = now.after(duration);
        let keep = match self.blocked_until {
            Some(existing) => existing.nanos >= until.nanos,
            None => false,
        };
        if !keep {
            self.blocked_until = Some(until);
            self.block_bypassable = bypassable;
            self.stats.blocked_for = Duration {
                nanos: self.stats.blocked_for.nanos + duration.nanos,
            };
        }
    }

    /// Queue a real packet for sending. It goes out on the next [`Self::flush`].
    pub fn queue(&mut self, packet: &[u8]) -> (r: Result<(), TransportError>)
        requires
            old(self).wf(),
        ensures
            final(self).wf(),
            packet@.len() <= MAX_PAYLOAD ==> r is Ok && final(self)@ == (EndpointState {
                egress: old(self)@.egress.push(packet@),
                ..old(self)@
            }),
            packet@.len() > MAX_PAYLOAD ==> {
                &&& r == Err::<(), TransportError>(
                    TransportError::PacketTooLarge { len: packet@.len() as usize },
                )
                &&& final(self)@ == old(self)@
            },
    {
        if packet.len() > MAX_PAYLOAD {
            return Err(TransportError::PacketTooLarge { len: packet.len() });
        }
        let ghost before = contents(self.egress@);
        let mut copy: Vec<u8> = Vec::new();
        bytes::extend(&mut copy, packet);
        assert(copy@ =~= packet@);
        self.egress.push_back(copy);
        assert(contents(self.egress@) =~= before.push(packet@));
        Ok(())
    }

    /// Whether a real packet is waiting.
    ///
    /// The defense engine's `replace` flag means that a padding packet *may* be replaced by an
    /// already-queued real one; this is how the caller answers that question.
    pub fn has_queued(&self) -> (b: bool)
        ensures
            b == (self@.egress.len() > 0),
    {
        self.egress.len() != 0
    }

    /// The first step of a flush: lifts a block that has run out. `false` where outgoing traffic
    /// is still held.
    fn release(&mut self, now: Instant) -> (open: bool)
        requires
            old(self).wf(),
        ensures
            final(self).wf(),
            open == !old(self)@.blocked(now),
            final(self)@ == if open {
                EndpointState { blocked_until: None, ..old(self)@ }
            } else {
                old(self)@
            },
    {
        if self.is_blocked(now) {
            return false;
        }
        self.blocked_until = None;
        true
    }

    /// Frames and seals `payload` into `out`.
    fn seal_frame(&mut self, kind: FrameKind, payload: &[u8], out: &mut Vec<u8>) -> (r: Result<
        (),
        TransportError,
    >)
        requires
            old(self).wf(),
        ensures
            final(self).wf(),
            final(self)@ == (EndpointState { seal: final(self)@.seal, ..old(self)@ }),
            framed(
                old(self)@.seal,
                kind,
                payload@,
                final(self)@.seal,
                match r {
                    Ok(()) => Ok(final(out)@),
                    Err(e) => Err(e),
                },
            ),
            r is Err ==> final(out)@ == old(out)@,
    {
        let mut frame = [0u8; FRAME_LEN];
        match wire::encode(kind, payload, &mut frame) {
            Ok(()) => {},
            Err(e) => return Err(TransportError::Wire(e)),
        }
        self.seal.seal(&frame, out)
    }

    /// The second step of a flush, taken again and again: takes the packet that has waited
    /// longest off the queue and seals it into `out`. `Ok(false)` where no packet is waiting.
    fn seal_next(&mut self, out: &mut Vec<u8>) -> (r: Result<bool, TransportError>)
        requires
            old(self).wf(),
        ensures
            final(self).wf(),
            old(self)@.egress.len() == 0 ==> {
                &&& r == Ok::<bool, TransportError>(false)
                &&& final(self)@ == old(self)@
                &&& final(out)@ == old(out)@
            },
            old(self)@.egress.len() > 0 ==> {
                &&& final(self)@ == (EndpointState {
                    seal: final(self)@.seal,
                    egress: old(self)@.egress.skip(1),
                    ..old(self)@
                })
                &&& r is Ok ==> r == Ok::<bool, TransportError>(true)
                &&& framed(
                    old(self)@.seal,
                    FrameKind::Data,
                    old(self)@.egress[0],
                    final(self)@.seal,
                    match r {
                        Ok(_) => Ok(final(out)@),
                        Err(e) => Err(e),
                    },
                )
                &&& r is Err ==> final(out)@ == old(out)@
            },
    {
        let ghost before = contents(self.egress@);
        match self.egress.pop_front() {
            None => {
                Ok(false)
            },
            Some(packet) => {
                assert(contents(self.egress@) =~= before.skip(1));
                assert(packet@ == before[0]);
                match self.seal_frame(FrameKind::Data, &packet, out) {
                    Ok(()) => Ok(true),
                    Err(e) => Err(e),
                }
            },
        }
    }

    fn push_line(&mut self, sent: bool, kind: FrameKind, bytes: usize, now: Instant)
        ensures
            final(self)@ == (EndpointState {
                trace: old(self)@.trace.push(old(self)@.line(now, sent, kind, bytes as nat)),
                ..old(self)@
            }),
            final(self)@.trace.len() <= usize::MAX,
    {
        self.trace.push(
            TraceEntry {
                at: now.duration_since(self.started),
                sent,
                padding: !kind.is_normal(),
                bytes,
            },
        );
        let _n: usize = self.trace.len();
    }

    /// The last step for a real packet: it has left.
    fn data_sent(&mut self, now: Instant)
        requires
            old(self).wf(),
        ensures
            final(self).wf(),
            final(self)@ == old(self)@.after_sending(Emitted::Data, FrameKind::Data, now),
            final(self)@.trace.len() <= usize::MAX,
    {
        self.push_line(true, FrameKind::Data, DATAGRAM_LEN, now);
        self.stats.data_out = self.stats.data_out + 1;
    }

    /// The last step for cover traffic: it has left.
    fn padding_sent(&mut self, now: Instant)
        requires
            old(self).wf(),
        ensures
            final(self).wf(),
            final(self)@ == old(self)@.after_sending(Emitted::Padding, FrameKind::Padding, now),
    {
        self.push_line(true, FrameKind::Padding, DATAGRAM_LEN, now);
        self.stats.padding_out = self.stats.padding_out + 1;
    }

    /// The last step for a control frame: it has left.
    fn control_sent(&mut self, kind: FrameKind, now: Instant)
        requires
            old(self).wf(),
        ensures
            final(self).wf(),
            final(self)@ == old(self)@.after_sending(Emitted::Control, kind, now),
    {
        self.push_line(true, kind, DATAGRAM_LEN, now);
    }
}

/// What was added to `old` to make `new`.
pub open spec fn added(old_list: Seq<Vec<u8>>, new_list: Seq<Vec<u8>>) -> Seq<Seq<u8>> {
    contents(new_list.skip(old_list.len() as int))
}

/// Whether `new` is `old` with something added.
pub open spec fn extends<T>(old_list: Seq<T>, new_list: Seq<T>) -> bool {
    old_list.len() <= new_list.len() && new_list.take(old_list.len() as int) =~= old_list
}

impl<S: Seal> Endpoint<S> {
    /// Send whatever the block state allows: the datagrams go behind `outbox`, in the order in
    /// which they are to be sent. Returns one [`Emitted`] per datagram. Where sealing fails, the
    /// datagrams made before that are in `outbox` all the same.
    pub fn flush(&mut self, now: Instant, outbox: &mut Vec<Vec<u8>>) -> (r: Result<
        Vec<Emitted>,
        TransportError,
    >)
        requires
            old(self).wf(),
        ensures
            final(self).wf(),
            extends(old(outbox)@, final(outbox)@),
            flushes(
                old(self)@,
                now,
                final(self)@,
                added(old(outbox)@, final(outbox)@),
                match r {
                    Ok(_) => None,
                    Err(e) => Some(e),
                },
            ),
            r matches Ok(out) ==> out@ == Seq::new(
                added(old(outbox)@, final(outbox)@).len(),
                |i: int| Emitted::Data,
            ),
    {
        let ghost before = self@;
        let ghost sent = outbox@;
        let mut out: Vec<Emitted> = Vec::new();
        if !self.release(now) {
            assert(added(sent, outbox@) =~= Seq::empty());
            return Ok(out);
        }
        let ghost mut seals: Seq<S> = seq![before.seal];
        let ghost mut datagrams: Seq<Seq<u8>> = Seq::empty();
        assert(self@ =~= before.after_data(0, now, before.seal));
        loop
            invariant
                self.wf(),
                before == old(self)@,
                sent == old(outbox)@,
                !before.blocked(now),
                before.egress.len() >= datagrams.len(),
                before.stats.data_out + before.stats.padding_out <= before.trace.len(),
                extends(sent, outbox@),
                added(sent, outbox@) == datagrams,
                sealed_in_order(seals, before.egress, datagrams),
                seals[0] == before.seal,
                self@ == before.after_data(datagrams.len(), now, seals.last()),
                out@ == Seq::new(datagrams.len(), |i: int| Emitted::Data),
            decreases before.egress.len() - datagrams.len(),
        {
            let ghost at = self@;
            let ghost n = datagrams.len();
            let mut datagram: Vec<u8> = Vec::new();
            match self.seal_next(&mut datagram) {
                Err(e) => {
                    assert(before.egress.skip(n as int).skip(1) =~= before.egress.skip(n as int + 1));
                    assert(before.egress.skip(n as int)[0] == before.egress[n as int]);
                    return Err(e);
                },
                Ok(false) => {
                    return Ok(out);
                },
                Ok(true) => {},
            }
            self.data_sent(now);
            out.push(Emitted::Data);
            proof {
                let d = datagram@;
                let old_seals = seals;
                seals = seals.push(self@.seal);
                datagrams = datagrams.push(d);
                assert(before.egress.skip(n as int)[0] == before.egress[n as int]);
                assert forall|i: int|
                    #![trigger datagrams[i]]
                    0 <= i < datagrams.len() implies framed(
                    seals[i],
                    FrameKind::Data,
                    before.egress[i],
                    seals[i + 1],
                    Ok(datagrams[i]),
                ) by {
                    if i < n {
                        assert(datagrams[i] == datagrams.drop_last()[i]);
                        assert(seals[i] == old_seals[i]);
                        assert(seals[i + 1] == old_seals[i + 1]);
                    }
                }
                assert(before.egress.skip(n as int).skip(1) =~= before.egress.skip(n as int + 1));
                assert(self@.trace =~= before.after_data(n + 1, now, self@.seal).trace);
                assert(self@ =~= before.after_data(n + 1, now, self@.seal));
            }
            let ghost boxed = outbox@;
            outbox.push(datagram);
            proof {
                assert(outbox@.take(sent.len() as int) =~= boxed.take(sent.len() as int));
                assert(added(sent, outbox@) =~= added(sent, boxed).push(datagram@));
            }
        }
    }

    /// Send one cover-traffic datagram. `Ok(false)` where it is held back.
    ///
    /// `bypass` reflects the engine's flag: padding marked bypass may go out during blocking, but
    /// only if the block was declared bypassable. Honouring bypass against a non-bypassable block
    /// would break the guarantee that the blocking machine is relying on.
    pub fn send_padding(&mut self, now: Instant, bypass: bool, outbox: &mut Vec<Vec<u8>>) -> (r:
        Result<bool, TransportError>)
        requires
            old(self).wf(),
        ensures
            final(self).wf(),
            extends(old(outbox)@, final(outbox)@),
            pads(
                old(self)@,
                now,
                bypass,
                final(self)@,
                added(old(outbox)@, final(outbox)@),
                r,
            ),
    {
        let ghost sent = outbox@;
        if !self.may_pad(now, bypass) {
            assert(added(sent, outbox@) =~= Seq::empty());
            return Ok(false);
        }
        match self.emit(Emitted::Padding, FrameKind::Padding, &[], now, outbox) {
            Ok(()) => Ok(true),
            Err(e) => Err(e),
        }
    }

    /// Whether cover traffic may go out now.
    pub fn may_pad(&self, now: Instant, bypass: bool) -> (b: bool)
        ensures
            b == self@.lets_padding_out(now, bypass),
    {
        !self.is_blocked(now) || (bypass && self.block_bypassable)
    }

    /// Send a control frame. Never blocked: the handshake has to complete before there is a
    /// defense to obey.
    pub fn send_control(
        &mut self,
        kind: FrameKind,
        body: &[u8],
        now: Instant,
        outbox: &mut Vec<Vec<u8>>,
    ) -> (r: Result<(), TransportError>)
        requires
            old(self).wf(),
        ensures
            final(self).wf(),
            extends(old(outbox)@, final(outbox)@),
            added(old(outbox)@, final(outbox)@).len() == if r is Ok {
                1nat
            } else {
                0
            },
            emits(
                old(self)@,
                Emitted::Control,
                kind,
                body@,
                now,
                final(self)@,
                match r {
                    Ok(()) => Ok(added(old(outbox)@, final(outbox)@)[0]),
                    Err(e) => Err(e),
                },
            ),
    {
        self.emit(Emitted::Control, kind, body, now, outbox)
    }

    fn emit(
        &mut self,
        what: Emitted,
        kind: FrameKind,
        payload: &[u8],
        now: Instant,
        outbox: &mut Vec<Vec<u8>>,
    ) -> (r: Result<(), TransportError>)
        requires
            old(self).wf(),
            what is Data || what is Padding ==> kind == if what is Data {
                FrameKind::Data
            } else {
                FrameKind::Padding
            },
        ensures
            final(self).wf(),
            extends(old(outbox)@, final(outbox)@),
            added(old(outbox)@, final(outbox)@).len() == if r is Ok {
                1nat
            } else {
                0
            },
            emits(
                old(self)@,
                what,
                kind,
                payload@,
                now,
                final(self)@,
                match r {
                    Ok(()) => Ok(added(old(outbox)@, final(outbox)@)[0]),
                    Err(e) => Err(e),
                },
            ),
    {
        let ghost sent = outbox@;
        let mut datagram: Vec<u8> = Vec::new();
        match self.seal_frame(kind, payload, &mut datagram) {
            Ok(()) => {},
            Err(e) => {
                assert(added(sent, outbox@) =~= Seq::empty());
                return Err(e);
            },
        }
        match what {
            Emitted::Data => self.data_sent(now),
            Emitted::Padding => self.padding_sent(now),
            Emitted::Control => self.control_sent(kind, now),
        }
        outbox.push(datagram);
        assert(added(sent, outbox@) =~= seq![datagram@]);
        assert(outbox@.take(sent.len() as int) =~= sent);
        Ok(())
    }

    fn count_dropped(&mut self)
        requires
            old(self).wf(),
            old(self)@.stats.dropped < u64::MAX,
        ensures
            final(self).wf(),
            final(self)@ == old(self)@.after_dropping(),
    {
        let ghost before = self@;
        self.stats.dropped = self.stats.dropped + 1;
        assert(self@.egress =~= before.egress);
    }

    /// Take one datagram that arrived; `from_peer` says whether it came from the peer's address.
    ///
    /// A datagram that fails authentication, replay or framing is counted and dropped, never
    /// surfaced: a peer that can make us report a forged frame as real traffic can steer the
    /// defense.
    pub fn recv(&mut self, from_peer: bool, datagram: &[u8], now: Instant) -> (r: Option<Received>)
        requires
            old(self).wf(),
            old(self)@.stats.dropped < u64::MAX,
        ensures
            final(self).wf(),
            receives(old(self)@, from_peer, datagram@, now, final(self)@, r),
    {
        if !from_peer {
            self.count_dropped();
            return None;
        }
        let ghost before = self@;
        let mut frame = [0u8; FRAME_LEN];
        let opened = self.seal.open(datagram, &mut frame);
        let ghost outcome: Result<Seq<u8>, TransportError> = match opened {
            Ok(()) => Ok(frame@),
            Err(e) => Err(e),
        };
        assert(S::opens(before.seal, datagram@, self@.seal, outcome));
        assert(self@.egress =~= before.egress);
        if opened.is_err() {
            self.count_dropped();
            return None;
        }
        let decoded = match wire::decode(&frame) {
            Ok(f) => f,
            Err(_) => {
                self.count_dropped();
                return None;
            },
        };
        self.push_line(false, decoded.kind, datagram.len(), now);
        match decoded.kind {
            FrameKind::Data => {
                self.stats.data_in = self.stats.data_in + 1;
                let mut payload: Vec<u8> = Vec::new();
                bytes::extend(&mut payload, decoded.payload);
                assert(payload@ =~= decoded.payload@);
                Some(Received::Data(payload))
            },
            FrameKind::Padding => {
                self.stats.padding_in = self.stats.padding_in + 1;
                Some(Received::Padding)
            },
            FrameKind::Hello | FrameKind::HelloAck => {
                let mut payload: Vec<u8> = Vec::new();
                bytes::extend(&mut payload, decoded.payload);
                assert(payload@ =~= decoded.payload@);
                Some(Received::Control(payload))
            },
            FrameKind::Close => Some(Received::Close),
        }
    }

    /// The trace in the `time,direction` format that the Maybenot simulator consumes.
    pub fn trace_csv(&self) -> (s: String)
        ensures
            s@ == csv(self@.trace),
    {
        let mut s = String::new();
        let mut i: usize = 0;
        assert(self.trace@.take(0) =~= Seq::empty());
        while i < self.trace.len()
            invariant
                i <= self.trace@.len(),
                s@ == csv(self.trace@.take(i as int)),
            decreases self.trace@.len() - i,
        {
            let e = self.trace[i];
            text::push_decimal(&mut s, e.at.nanos);
            s.append(
                if e.sent {
                    ",s\n"
                } else {
                    ",r\n"
                },
            );
            assert(self.trace@.take(i + 1).drop_last() =~= self.trace@.take(i as int));
            assert(s@ =~= csv(self.trace@.take(i as int)) + csv_line(e));
            i += 1;
        }
        assert(self.trace@.take(i as int) =~= self.trace@);
        s
    }
}

/// The trace as an observer of the link sees it.
pub open spec fn observed(trace: Seq<TraceEntry>) -> Seq<Packet> {
    trace.map_values(
        |e: TraceEntry| Packet { nanos: e.at.nanos, sent: e.sent, bytes: e.bytes },
    )
}

/// The trace with the size of each datagram in a third column.
pub fn wire_csv(trace: &[TraceEntry]) -> (s: String)
    ensures
        s@ == measure::csv(observed(trace@)),
{
    let mut list: Vec<Packet> = Vec::new();
    let mut i: usize = 0;
    while i < trace.len()
        invariant
            i <= trace@.len(),
            list@ =~= observed(trace@.take(i as int)),
        decreases trace@.len() - i,
    {
        let e = trace[i];
        list.push(Packet { nanos: e.at.nanos, sent: e.sent, bytes: e.bytes });
        i += 1;
    }
    assert(trace@.take(i as int) =~= trace@);
    measure::to_csv(&list)
}

/// One line of the trace: the time in nanoseconds, and `s` for sent or `r` for received.
pub open spec fn csv_line(e: TraceEntry) -> Seq<char> {
    text::decimal(e.at.nanos as nat) + if e.sent {
        ",s\n"@
    } else {
        ",r\n"@
    }
}

pub open spec fn csv(trace: Seq<TraceEntry>) -> Seq<char>
    decreases trace.len(),
{
    if trace.len() == 0 {
        Seq::empty()
    } else {
        csv(trace.drop_last()) + csv_line(trace.last())
    }
}

/// Whether asking for cover traffic at `now` may take `before` to `after`, hand out `datagrams`
/// and have the outcome `r`.
pub open spec fn pads<S: Seal>(
    before: EndpointState<S>,
    now: Instant,
    bypass: bool,
    after: EndpointState<S>,
    datagrams: Seq<Seq<u8>>,
    r: Result<bool, TransportError>,
) -> bool {
    if !before.lets_padding_out(now, bypass) {
        r == Ok::<bool, TransportError>(false) && after == before && datagrams.len() == 0
    } else {
        &&& r is Ok ==> r == Ok::<bool, TransportError>(true)
        &&& datagrams.len() == if r is Ok {
            1nat
        } else {
            0
        }
        &&& emits(
            before,
            Emitted::Padding,
            FrameKind::Padding,
            Seq::empty(),
            now,
            after,
            match r {
                Ok(_) => Ok(datagrams[0]),
                Err(e) => Err(e),
            },
        )
    }
}

/// A block is extended and never shortened: what was held before a further request is held
/// after it, and traffic is held for at least the span that was asked for. A request that ends no
/// later than the block that stands changes nothing.
pub proof fn law_block_is_never_shortened<S>(
    before: EndpointState<S>,
    now: Instant,
    duration: Duration,
    bypassable: bool,
    at: Instant,
)
    requires
        now.can_advance(duration),
    ensures
        before.blocked(at) ==> before.after_blocking(now, duration, bypassable).blocked(at),
        at.nanos < now.nanos + duration.nanos ==> before.after_blocking(
            now,
            duration,
            bypassable,
        ).blocked(at),
        before.after_blocking(now, duration, bypassable).blocked(at) ==> before.blocked(at)
            || at.nanos < now.nanos + duration.nanos,
        before.outlasts(now, duration) ==> before.after_blocking(now, duration, bypassable)
            == before,
{
}

/// While outgoing traffic is held, a flush hands out nothing and loses nothing; once the block
/// has run out, a flush that succeeds hands out one datagram for each waiting packet and leaves
/// none waiting.
pub proof fn law_held_traffic_waits<S: Seal>(
    before: EndpointState<S>,
    now: Instant,
    after: EndpointState<S>,
    datagrams: Seq<Seq<u8>>,
    error: Option<TransportError>,
)
    requires
        flushes(before, now, after, datagrams, error),
    ensures
        before.blocked(now) ==> datagrams.len() == 0 && after.egress == before.egress,
        !before.blocked(now) && error is None ==> datagrams.len() == before.egress.len()
            && after.egress.len() == 0,
{
}

/// Whether every request ends at a point in time that can be represented.
pub open spec fn can_end(requests: Seq<BlockRequest>) -> bool {
    forall|i: int|
        0 <= i < requests.len() ==> (#[trigger] requests[i]).at.can_advance(requests[i].duration)
}

/// Whatever requests came, in whatever order: outgoing traffic is held exactly while one of them
/// lasts, or the block that stood before them does.
pub proof fn law_blocks_hold_as_requested<S>(
    before: EndpointState<S>,
    requests: Seq<BlockRequest>,
    now: Instant,
)
    requires
        can_end(requests),
    ensures
        before.after_requests(requests).blocked(now) <==> before.blocked(now) || exists|i: int|
            0 <= i < requests.len() && (#[trigger] requests[i]).lasts(now),
    decreases requests.len(),
{
    if requests.len() > 0 {
        let rest = requests.drop_last();
        let last = requests.last();
        lemma_fewer_can_end(requests);
        law_blocks_hold_as_requested(before, rest, now);
        assert(last == requests[requests.len() - 1]);
        if exists|i: int| 0 <= i < requests.len() && (#[trigger] requests[i]).lasts(now) {
            let i = choose|i: int|
                0 <= i < requests.len() && (#[trigger] requests[i]).lasts(now);
            if i < rest.len() {
                assert(rest[i].lasts(now));
            }
        }
    }
}

proof fn lemma_fewer_can_end(requests: Seq<BlockRequest>)
    requires
        can_end(requests),
        requests.len() > 0,
    ensures
        can_end(requests.drop_last()),
        requests.last().at.can_advance(requests.last().duration),
        forall|i: int|
            0 <= i < requests.len() - 1 ==> #[trigger] requests.drop_last()[i] == requests[i],
{
    let rest = requests.drop_last();
    assert forall|i: int| 0 <= i < rest.len() implies (#[trigger] rest[i]).at.can_advance(
        rest[i].duration,
    ) by {
        assert(rest[i] == requests[i]);
    }
    assert(requests.last() == requests[requests.len() - 1]);
}

/// Whether the request at `i` is the one that decides how long outgoing traffic is held: it ends
/// later than the block that stood before and than every earlier request, and no later request
/// ends later.
pub open spec fn governs<S>(before: EndpointState<S>, requests: Seq<BlockRequest>, i: int) -> bool {
    &&& 0 <= i < requests.len()
    &&& before.blocked_until matches Some(t) ==> t.nanos < requests[i].end()
    &&& forall|j: int| 0 <= j < i ==> (#[trigger] requests[j]).end() < requests[i].end()
    &&& forall|j: int|
        i < j < requests.len() ==> (#[trigger] requests[j]).end() <= requests[i].end()
}

/// The block reaches no further than the one that stood before or the request that ends last.
proof fn lemma_block_reaches_no_further<S>(
    before: EndpointState<S>,
    requests: Seq<BlockRequest>,
    bound: int,
)
    requires
        can_end(requests),
        before.blocked_until matches Some(t) ==> t.nanos < bound,
        forall|j: int| 0 <= j < requests.len() ==> (#[trigger] requests[j]).end() < bound,
    ensures
        before.after_requests(requests).blocked_until matches Some(t) ==> t.nanos < bound,
    decreases requests.len(),
{
    if requests.len() > 0 {
        lemma_fewer_can_end(requests);
        lemma_block_reaches_no_further(before, requests.drop_last(), bound);
        assert(requests.last() == requests[requests.len() - 1]);
    }
}

/// Of all requests, the one that reaches furthest, and the earliest of those, says until when
/// outgoing traffic is held and whether that block is bypassable, whatever requests, shorter or
/// longer, bypassable or not, come before or after it. Where the block that stood before reaches
/// as far as every request, they change nothing.
pub proof fn law_furthest_request_governs<S>(
    before: EndpointState<S>,
    requests: Seq<BlockRequest>,
    i: int,
)
    requires
        can_end(requests),
    ensures
        governs(before, requests, i) ==> {
            &&& before.after_requests(requests).blocked_until matches Some(t) && t.nanos
                == requests[i].end()
            &&& before.after_requests(requests).block_bypassable == requests[i].bypassable
        },
        outlasts_all(before, requests) ==> before.after_requests(requests) == before,
    decreases requests.len(),
{
    if requests.len() > 0 {
        let rest = requests.drop_last();
        let n = requests.len() - 1;
        lemma_fewer_can_end(requests);
        law_furthest_request_governs(before, rest, i);
        assert(requests.last() == requests[n]);
        if governs(before, requests, i) {
            if i == n {
                lemma_block_reaches_no_further(before, rest, requests[n].end());
            } else {
                assert(rest[i] == requests[i]);
                assert(governs(before, rest, i));
            }
        }
    }
}

/// Whether the block that stands reaches at least as far as every request.
pub open spec fn outlasts_all<S>(before: EndpointState<S>, requests: Seq<BlockRequest>) -> bool {
    forall|j: int|
        0 <= j < requests.len() ==> before.outlasts(
            (#[trigger] requests[j]).at,
            requests[j].duration,
        )
}

/// Some request governs, unless the block that stood before reaches as far as every request.
pub proof fn law_some_request_governs<S>(before: EndpointState<S>, requests: Seq<BlockRequest>)
    ensures
        outlasts_all(before, requests) || exists|i: int| governs(before, requests, i),
    decreases requests.len(),
{
    if requests.len() > 0 {
        let rest = requests.drop_last();
        let n = requests.len() - 1;
        law_some_request_governs(before, rest);
        assert forall|j: int| 0 <= j < n implies #[trigger] rest[j] == requests[j] by {}
        if outlasts_all(before, rest) {
            assert forall|j: int| 0 <= j < n implies before.outlasts(
                (#[trigger] requests[j]).at,
                requests[j].duration,
            ) by {
                assert(rest[j] == requests[j]);
            }
            if !before.outlasts(requests[n].at, requests[n].duration) {
                assert(governs(before, requests, n));
            }
        } else {
            let k = choose|k: int| governs(before, rest, k);
            assert(rest[k] == requests[k]);
            assert forall|j: int| 0 <= j < n implies (#[trigger] requests[j]).end()
                <= requests[k].end() && (j < k ==> requests[j].end() < requests[k].end()) by {
                assert(rest[j] == requests[j]);
            }
            if requests[k].end() < requests[n].end() {
                assert(governs(before, requests, n));
            } else {
                assert(governs(before, requests, k));
            }
        }
    }
}

/// Cover traffic is held exactly while the request that governs lasts, unless the cover traffic is
/// marked to bypass and that request was declared bypassable. Cover traffic that is held changes
/// nothing.
pub proof fn law_padding_respects_block<S: Seal>(
    before: EndpointState<S>,
    requests: Seq<BlockRequest>,
    i: int,
    now: Instant,
    bypass: bool,
    after: EndpointState<S>,
    datagrams: Seq<Seq<u8>>,
    r: Result<bool, TransportError>,
)
    requires
        can_end(requests),
        governs(before, requests, i),
        pads(before.after_requests(requests), now, bypass, after, datagrams, r),
    ensures
        r == Ok::<bool, TransportError>(false) <==> requests[i].holds_padding(now, bypass),
        r == Ok::<bool, TransportError>(false) ==> datagrams.len() == 0 && after
            == before.after_requests(requests),
{
    law_furthest_request_governs(before, requests, i);
}

/// Every datagram that a flush hands out has the same size.
pub proof fn law_flushed_datagrams_have_one_size<S: Seal>(
    before: EndpointState<S>,
    now: Instant,
    after: EndpointState<S>,
    datagrams: Seq<Seq<u8>>,
    error: Option<TransportError>,
    i: int,
)
    requires
        flushes(before, now, after, datagrams, error),
        forall|k: int|
            0 <= k < before.egress.len() ==> (#[trigger] before.egress[k]).len() <= MAX_PAYLOAD,
        0 <= i < datagrams.len(),
    ensures
        datagrams[i].len() == DATAGRAM_LEN,
{
    let d = datagrams[i];
    let p = before.egress[i];
}

/// Cover traffic and control frames have the size of every other datagram.
pub proof fn law_emitted_datagrams_have_one_size<S: Seal>(
    before: EndpointState<S>,
    what: Emitted,
    kind: FrameKind,
    payload: Seq<u8>,
    now: Instant,
    after: EndpointState<S>,
    datagram: Seq<u8>,
)
    requires
        emits(before, what, kind, payload, now, after, Ok(datagram)),
    ensures
        datagram.len() == DATAGRAM_LEN,
{
}

/// Whether every line of the trace has the one size.
pub open spec fn one_size(trace: Seq<TraceEntry>) -> bool {
    forall|i: int| 0 <= i < trace.len() ==> (#[trigger] trace[i]).bytes == DATAGRAM_LEN
}

/// Whether flushing, sending one frame or taking one datagram at `now` may take `before` to
/// `after`.
pub open spec fn acts<S: Seal>(
    before: EndpointState<S>,
    now: Instant,
    after: EndpointState<S>,
) -> bool {
    ||| exists|datagrams: Seq<Seq<u8>>, error: Option<TransportError>| #[trigger]
        flushes(before, now, after, datagrams, error)
    ||| exists|
        what: Emitted,
        kind: FrameKind,
        payload: Seq<u8>,
        r: Result<Seq<u8>, TransportError>,
    | #[trigger]
        emits(before, what, kind, payload, now, after, r)
    ||| exists|from_peer: bool, datagram: Seq<u8>, r: Option<Received>| #[trigger]
        receives(before, from_peer, datagram, now, after, r)
}

/// Sending and receiving leave every block that still lasts as it is.
pub proof fn law_traffic_leaves_blocks_alone<S: Seal>(
    before: EndpointState<S>,
    now: Instant,
    after: EndpointState<S>,
    at: Instant,
)
    requires
        acts(before, now, after),
        now.nanos <= at.nanos,
    ensures
        after.blocked(at) == before.blocked(at),
        after.block_bypassable == before.block_bypassable,
{
}

/// Whatever the endpoint sends and receives, every line of its trace has the one size.
pub proof fn law_trace_has_one_size(
    before: EndpointState<ChaChaSeal>,
    now: Instant,
    after: EndpointState<ChaChaSeal>,
)
    requires
        one_size(before.trace),
        acts(before, now, after),
    ensures
        one_size(after.trace),
{
}

/// An observer who sums up the trace of an endpoint counts one packet size.
pub proof fn law_shaped_trace_shows_one_size(trace: Seq<TraceEntry>, s: measure::Summary)
    requires
        trace.len() > 0,
        one_size(trace),
        s.sums_up(observed(trace)),
    ensures
        s.unique_sizes == 1,
        s.size_counts@.contains_key(DATAGRAM_LEN),
        s.size_counts@[DATAGRAM_LEN] == trace.len(),
{
    measure::law_one_size_shows_once(s, observed(trace), DATAGRAM_LEN);
}

/// What one end sends, the other end hands out with the same kind and the same payload,
/// whatever either has sent or received before, unless the receiver's replay window has moved
/// past the datagram's number.
pub proof fn law_what_is_sent_arrives(
    sender: ChaChaSeal,
    kind: FrameKind,
    payload: Seq<u8>,
    sender_after: ChaChaSeal,
    datagram: Seq<u8>,
    before: EndpointState<ChaChaSeal>,
    now: Instant,
    after: EndpointState<ChaChaSeal>,
    r: Option<Received>,
)
    requires
        framed(sender, kind, payload, sender_after, Ok(datagram)),
        before.seal.recv_key() == sender.send_key(),
        before.seal.receives() == sender.sends(),
        !before.seal.window().refuses(sender_after.sent()),
        receives(before, true, datagram, now, after, r),
    ensures
        r is Some,
        r->Some_0.stands_for(kind, payload),
{
    let frame = wire::frame_bytes(kind, payload);
    wire::law_frame_round_trip(kind, payload);
    let opened = choose|opened: Result<Seq<u8>, TransportError>| #[trigger]
        ChaChaSeal::opens(before.seal, datagram, after.seal, opened) && {
            let state = EndpointState { seal: after.seal, ..before };
            match opened {
                Err(e) => r is None && after == state.after_dropping(),
                Ok(frame) => match wire::decoded(frame) {
                    Err(e) => r is None && after == state.after_dropping(),
                    Ok((kind, payload)) => {
                        &&& r is Some
                        &&& r->Some_0.stands_for(kind, payload)
                        &&& after == state.after_receiving(kind, now, datagram.len())
                    },
                },
            }
        };
    seal::law_open_gives_back_what_was_sealed(
        sender,
        sender_after,
        frame,
        datagram,
        before.seal,
        after.seal,
        opened,
    );
}

/// Whether `states` are the states of an endpoint that takes the datagrams `datagrams`, all from
/// its peer, one after the other, and hands them out as `handed`.
pub open spec fn receiving_run(
    states: Seq<EndpointState<ChaChaSeal>>,
    datagrams: Seq<Seq<u8>>,
    now: Instant,
    handed: Seq<Option<Received>>,
) -> bool {
    &&& states.len() == datagrams.len() + 1
    &&& handed.len() == datagrams.len()
    &&& forall|i: int|
        #![trigger datagrams[i]]
        0 <= i < datagrams.len() ==> receives(
            states[i],
            true,
            datagrams[i],
            now,
            states[i + 1],
            handed[i],
        )
}

/// Whatever waits at one end when it flushes, the other end hands out, every packet whole and in
/// the order in which they were queued, where the datagrams arrive in order.
pub proof fn law_flushed_packets_arrive_in_order(
    before: EndpointState<ChaChaSeal>,
    sent_at: Instant,
    after: EndpointState<ChaChaSeal>,
    datagrams: Seq<Seq<u8>>,
    states: Seq<EndpointState<ChaChaSeal>>,
    now: Instant,
    handed: Seq<Option<Received>>,
    i: int,
)
    requires
        before.wf(),
        !before.blocked(sent_at),
        flushes(before, sent_at, after, datagrams, None),
        receiving_run(states, datagrams, now, handed),
        states[0].seal.recv_key() == before.seal.send_key(),
        states[0].seal.receives() == before.seal.sends(),
        states[0].seal.window().top() <= before.seal.sent(),
        0 <= i < before.egress.len(),
    ensures
        datagrams.len() == before.egress.len(),
        handed[i] is Some,
        handed[i]->Some_0.stands_for(FrameKind::Data, before.egress[i]),
{
    let seals = choose|seals: Seq<ChaChaSeal>| #[trigger]
        sealed_in_order(seals, before.egress, datagrams) && seals[0] == before.seal;
    lemma_in_step(before, seals, datagrams, states, now, handed, i);
    let d = datagrams[i];
    assert(before.egress[i].len() <= MAX_PAYLOAD);
    seal::lemma_higher_is_not_refused(states[i].seal.window(), seals[i + 1].sent());
    law_what_is_sent_arrives(
        seals[i],
        FrameKind::Data,
        before.egress[i],
        seals[i + 1],
        d,
        states[i],
        now,
        states[i + 1],
        handed[i],
    );
}

/// Before the datagram at `i`, sender and receiver are as they began, but for `i` datagrams sealed
/// and the receiver's window not ahead of them.
proof fn lemma_in_step(
    before: EndpointState<ChaChaSeal>,
    seals: Seq<ChaChaSeal>,
    datagrams: Seq<Seq<u8>>,
    states: Seq<EndpointState<ChaChaSeal>>,
    now: Instant,
    handed: Seq<Option<Received>>,
    i: int,
)
    requires
        before.wf(),
        sealed_in_order(seals, before.egress, datagrams),
        seals[0] == before.seal,
        receiving_run(states, datagrams, now, handed),
        states[0].seal.recv_key() == before.seal.send_key(),
        states[0].seal.receives() == before.seal.sends(),
        states[0].seal.window().top() <= before.seal.sent(),
        0 <= i <= datagrams.len(),
    ensures
        seals[i].keyed_as(before.seal),
        seals[i].sent() == before.seal.sent() + i,
        states[i].seal.keyed_as(states[0].seal),
        states[i].seal.window().top() <= before.seal.sent() + i,
    decreases i,
{
    if i > 0 {
        let k = i - 1;
        lemma_in_step(before, seals, datagrams, states, now, handed, k);
        let d = datagrams[k];
        assert(before.egress[k].len() <= MAX_PAYLOAD);
        let opened = choose|opened: Result<Seq<u8>, TransportError>| #[trigger]
            ChaChaSeal::opens(states[k].seal, d, states[i].seal, opened);
        seal::lemma_higher_is_not_refused(states[k].seal.window(), seals[i].sent());
        wire::law_frame_round_trip(FrameKind::Data, before.egress[k]);
        seal::lemma_claimed_number(seals[k], seals[i].sent(), d);
    }
}

/// A datagram that has been received is dropped when it comes again.
pub proof fn law_replayed_datagram_is_dropped(
    before: EndpointState<ChaChaSeal>,
    datagram: Seq<u8>,
    t1: Instant,
    between: EndpointState<ChaChaSeal>,
    first: Option<Received>,
    t2: Instant,
    after: EndpointState<ChaChaSeal>,
    second: Option<Received>,
)
    requires
        receives(before, true, datagram, t1, between, first),
        first is Some,
        receives(between, true, datagram, t2, after, second),
    ensures
        second is None,
{
    let opened = choose|opened: Result<Seq<u8>, TransportError>| #[trigger]
        ChaChaSeal::opens(before.seal, datagram, between.seal, opened) && opened is Ok;
    let again = choose|again: Result<Seq<u8>, TransportError>| #[trigger]
        ChaChaSeal::opens(between.seal, datagram, after.seal, again) && (again is Err ==> second
            is None);
    seal::law_opened_datagram_is_not_opened_again(
        before.seal,
        datagram,
        between.seal,
        opened->Ok_0,
        after.seal,
        again,
    );
}

/// One line of the two-column trace without its end.
pub open spec fn csv_columns(e: TraceEntry) -> Seq<char> {
    text::decimal(e.at.nanos as nat) + if e.sent {
        ",s"@
    } else {
        ",r"@
    }
}

/// The packets of a trace whose sizes were not written down.
pub open spec fn sizeless(trace: Seq<TraceEntry>) -> Seq<Packet> {
    trace.map_values(|e: TraceEntry| Packet { nanos: e.at.nanos, sent: e.sent, bytes: 0 })
}

/// The two-column trace reads back, line by line, with the times and directions that went in.
pub proof fn law_simulator_trace_reads_back(trace: Seq<TraceEntry>)
    ensures
        measure::line_packets(text::pieces(csv(trace), '\n')) == Ok::<Seq<Packet>, Seq<char>>(
            sizeless(trace),
        ),
    decreases trace.len(),
{
    let e = Seq::<char>::empty();
    if trace.len() == 0 {
        let lines = text::pieces(csv(trace), '\n');
        assert(lines =~= seq![e]);
        assert(lines.drop_last() =~= Seq::empty());
        assert(measure::blank(e));
        assert(measure::line_packets(lines.drop_last()) == Ok::<Seq<Packet>, Seq<char>>(
            Seq::empty(),
        ));
        assert(sizeless(trace) =~= Seq::empty());
    } else {
        let before = trace.drop_last();
        let last = trace.last();
        let a = csv(before);
        let b = csv_columns(last);
        law_simulator_trace_reads_back(before);
        lemma_csv_ends_in_blank(before);
        lemma_two_columns(last);
        text::lemma_pieces_extend(a, b, '\n');
        text::lemma_pieces_separate(a + b, '\n');
        reveal_strlit(",s\n");
        reveal_strlit(",r\n");
        reveal_strlit(",s");
        reveal_strlit(",r");
        assert(csv(trace) =~= (a + b).push('\n'));
        let old_lines = text::pieces(a, '\n');
        let lines = text::pieces(csv(trace), '\n');
        assert(e + b =~= b);
        assert(lines.drop_last() =~= old_lines.drop_last().push(b));
        assert(lines.drop_last().drop_last() =~= old_lines.drop_last());
        assert(lines.drop_last().last() == b);
        assert(lines.last() == e);
        assert(measure::blank(e));
        assert(measure::line_packets(old_lines.drop_last()) == Ok::<Seq<Packet>, Seq<char>>(
            sizeless(before),
        ));
        assert(measure::line_packets(lines.drop_last()) == Ok::<Seq<Packet>, Seq<char>>(
            sizeless(before).push(Packet { nanos: last.at.nanos, sent: last.sent, bytes: 0 }),
        ));
        assert(sizeless(trace) =~= sizeless(before).push(
            Packet { nanos: last.at.nanos, sent: last.sent, bytes: 0 },
        ));
    }
}

/// What stands behind the last line end is empty.
proof fn lemma_csv_ends_in_blank(trace: Seq<TraceEntry>)
    ensures
        text::pieces(csv(trace), '\n').len() > 0,
        text::pieces(csv(trace), '\n').last() == Seq::<char>::empty(),
{
    if trace.len() > 0 {
        let b = csv(trace.drop_last()) + csv_columns(trace.last());
        reveal_strlit(",s\n");
        reveal_strlit(",r\n");
        reveal_strlit(",s");
        reveal_strlit(",r");
        assert(csv(trace) =~= b.push('\n'));
        text::lemma_pieces_separate(b, '\n');
    }
}

proof fn lemma_two_columns(entry: TraceEntry)
    ensures
        measure::line_packet(csv_columns(entry)) == Ok::<Packet, Seq<char>>(
            Packet { nanos: entry.at.nanos, sent: entry.sent, bytes: 0 },
        ),
        !measure::blank(csv_columns(entry)),
        forall|i: int|
            0 <= i < csv_columns(entry).len() ==> #[trigger] csv_columns(entry)[i] != '\n',
{
    let n = entry.at.nanos as nat;
    let time = text::decimal(n);
    let dir = if entry.sent {
        seq!['s']
    } else {
        seq!['r']
    };
    reveal_strlit(",s");
    reveal_strlit(",r");
    reveal_strlit("s");
    reveal_strlit("0");
    measure::lemma_digits_hold_no(n, ',');
    measure::lemma_digits_hold_no(n, '\n');
    text::law_numbers_read_back(n);
    text::lemma_decimal(n);
    let e = Seq::<char>::empty();
    text::lemma_pieces_extend(e, time, ',');
    assert(e + time =~= time);
    text::lemma_pieces_separate(time, ',');
    text::lemma_pieces_extend(time.push(','), dir, ',');
    let line = time.push(',') + dir;
    assert(line =~= csv_columns(entry));
    assert(e + dir =~= dir);
    assert(text::pieces(line, ',') =~= seq![time, dir]);
    assert(text::trimmed(dir) == dir);
    assert(dir =~= "s"@ <==> entry.sent) by {
        assert("s"@ =~= seq!['s']);
        if !entry.sent {
            assert(dir[0] == 'r');
        }
    }
    assert("0"@ =~= seq!['0']);
    assert(text::is_digit("0"@[0]));
    assert(text::unsigned_part("0"@) == "0"@);
    assert(text::digits_value("0"@) == 0) by {
        assert("0"@.drop_last() =~= e);
        assert(text::digits_value(e) == 0);
    }
    assert(line[0] == time[0]);
    assert(text::is_digit(time[0]));
    assert(text::trimmed(line) == line);
}

/// What a flush that is not held leaves behind: one real packet counted and one line in the trace
/// for each datagram, sent now and 1224 bytes long, and every other count as it was.
pub proof fn law_flush_is_counted<S: Seal>(
    before: EndpointState<S>,
    now: Instant,
    after: EndpointState<S>,
    datagrams: Seq<Seq<u8>>,
    error: Option<TransportError>,
    i: int,
)
    requires
        flushes(before, now, after, datagrams, error),
        !before.blocked(now),
        before.wf(),
        before.trace.len() + datagrams.len() <= u64::MAX,
    ensures
        after.stats.data_out == before.stats.data_out + datagrams.len(),
        after.stats.padding_out == before.stats.padding_out,
        after.stats.data_in == before.stats.data_in,
        after.stats.padding_in == before.stats.padding_in,
        after.stats.dropped == before.stats.dropped,
        after.stats.blocked_for == before.stats.blocked_for,
        after.trace.len() == before.trace.len() + datagrams.len(),
        0 <= i < before.trace.len() ==> after.trace[i] == before.trace[i],
        before.trace.len() <= i < after.trace.len() ==> {
            &&& after.trace[i].sent
            &&& !after.trace[i].padding
            &&& after.trace[i].bytes == 1224
            &&& after.trace[i].at.nanos == if now.nanos >= before.started.nanos {
                now.nanos - before.started.nanos
            } else {
                0
            }
        },
        after.egress == before.egress.skip(
            datagrams.len() as int + if error is Some {
                1int
            } else {
                0
            },
        ),
        after.started == before.started,
{
}

/// What sending a frame of cover traffic or control leaves behind: one line in the trace, sent now
/// and 1224 bytes long, and cover traffic counted as such. The queue and the block stay.
pub proof fn law_emission_is_counted<S: Seal>(
    before: EndpointState<S>,
    what: Emitted,
    kind: FrameKind,
    payload: Seq<u8>,
    now: Instant,
    after: EndpointState<S>,
    r: Result<Seq<u8>, TransportError>,
    i: int,
)
    requires
        emits(before, what, kind, payload, now, after, r),
        before.wf(),
        before.trace.len() < u64::MAX,
        what != Emitted::Data,
    ensures
        after.egress == before.egress,
        after.blocked_until == before.blocked_until,
        after.block_bypassable == before.block_bypassable,
        after.stats.data_out == before.stats.data_out,
        after.stats.data_in == before.stats.data_in,
        after.stats.padding_in == before.stats.padding_in,
        after.stats.dropped == before.stats.dropped,
        after.stats.padding_out == before.stats.padding_out + if r is Ok && what
            == Emitted::Padding {
            1int
        } else {
            0
        },
        r is Err ==> after.trace == before.trace,
        r is Ok ==> {
            &&& after.trace.len() == before.trace.len() + 1
            &&& 0 <= i < before.trace.len() ==> after.trace[i] == before.trace[i]
            &&& after.trace.last().sent
            &&& after.trace.last().padding == (kind != FrameKind::Data)
            &&& after.trace.last().bytes == 1224
            &&& after.trace.last().at.nanos == if now.nanos >= before.started.nanos {
                now.nanos - before.started.nanos
            } else {
                0
            }
        },
{
}

/// What a datagram that arrives leaves behind. One that is handed out adds one line to the trace,
/// received now and as long as it was, and is counted by its kind; one that is not is counted as
/// dropped and leaves no line. The queue and the block stay.
pub proof fn law_reception_is_counted<S: Seal>(
    before: EndpointState<S>,
    from_peer: bool,
    datagram: Seq<u8>,
    now: Instant,
    after: EndpointState<S>,
    r: Option<Received>,
    i: int,
)
    requires
        receives(before, from_peer, datagram, now, after, r),
        before.wf(),
        before.trace.len() < u64::MAX,
        before.stats.dropped < u64::MAX,
        datagram.len() <= usize::MAX,
    ensures
        after.egress == before.egress,
        after.blocked_until == before.blocked_until,
        after.block_bypassable == before.block_bypassable,
        after.stats.data_out == before.stats.data_out,
        after.stats.padding_out == before.stats.padding_out,
        !from_peer ==> r is None,
        r is None ==> {
            &&& after.stats.dropped == before.stats.dropped + 1
            &&& after.stats.data_in == before.stats.data_in
            &&& after.stats.padding_in == before.stats.padding_in
            &&& after.trace == before.trace
        },
        r matches Some(what) ==> {
            &&& after.stats.dropped == before.stats.dropped
            &&& after.stats.data_in == before.stats.data_in + if what is Data {
                1int
            } else {
                0
            }
            &&& after.stats.padding_in == before.stats.padding_in + if what is Padding {
                1int
            } else {
                0
            }
            &&& after.trace.len() == before.trace.len() + 1
            &&& 0 <= i < before.trace.len() ==> after.trace[i] == before.trace[i]
            &&& !after.trace.last().sent
            &&& after.trace.last().padding == !(what is Data)
            &&& after.trace.last().bytes == datagram.len()
            &&& after.trace.last().at.nanos == if now.nanos >= before.started.nanos {
                now.nanos - before.started.nanos
            } else {
                0
            }
        },
{
}

/// What a frame is handed out as: data as data with its bytes, a greeting or its answer as control
/// with its bytes, padding as padding, and the end as the end.
pub proof fn law_frames_are_handed_out_by_kind(r: Received, kind: FrameKind, payload: Seq<u8>)
    requires
        r.stands_for(kind, payload),
    ensures
        r is Data <==> kind == FrameKind::Data,
        r is Padding <==> kind == FrameKind::Padding,
        r is Control <==> kind == FrameKind::Hello || kind == FrameKind::HelloAck,
        r is Close <==> kind == FrameKind::Close,
        r matches Received::Data(p) ==> p@ == payload,
        r matches Received::Control(p) ==> p@ == payload,
{
}

/// Cover traffic that goes out is one datagram, an empty padding frame under the next number.
pub proof fn law_cover_traffic_is_padding<S: Seal>(
    before: EndpointState<S>,
    now: Instant,
    bypass: bool,
    after: EndpointState<S>,
    datagrams: Seq<Seq<u8>>,
    r: Result<bool, TransportError>,
)
    requires
        pads(before, now, bypass, after, datagrams, r),
    ensures
        r == Ok::<bool, TransportError>(true) ==> datagrams.len() == 1 && framed(
            before.seal,
            FrameKind::Padding,
            Seq::empty(),
            after.seal,
            Ok(datagrams[0]),
        ),
        r != Ok::<bool, TransportError>(true) ==> datagrams.len() == 0,
{
}

/// What is written down of a trace for an observer: each line's time, direction and size, in order.
pub proof fn law_observed_trace(trace: Seq<TraceEntry>, i: int)
    requires
        0 <= i < trace.len(),
    ensures
        observed(trace).len() == trace.len(),
        observed(trace)[i].nanos == trace[i].at.nanos,
        observed(trace)[i].sent == trace[i].sent,
        observed(trace)[i].bytes == trace[i].bytes,
{
}

/// What was added to a list is what stands behind what was there before, in order; what was there
/// before is as it was.
pub proof fn law_added_datagrams(old_list: Seq<Vec<u8>>, new_list: Seq<Vec<u8>>, i: int)
    requires
        extends(old_list, new_list),
    ensures
        added(old_list, new_list).len() == new_list.len() - old_list.len(),
        0 <= i < old_list.len() ==> new_list[i] == old_list[i],
        0 <= i < new_list.len() - old_list.len() ==> added(old_list, new_list)[i]
            == new_list[old_list.len() + i]@,
{
    if 0 <= i < old_list.len() {
        assert(new_list.take(old_list.len() as int)[i] == old_list[i]);
    }
}

/// Traffic is held at a point in time exactly while the end of the block lies ahead of it.
pub proof fn law_blocked<S>(e: EndpointState<S>, now: Instant)
    ensures
        e.blocked(now) <==> e.blocked_until is Some && e.blocked_until->Some_0.nanos > now.nanos,
        !e.blocked(now) ==> e.lets_padding_out(now, true) && e.lets_padding_out(now, false),
        e.blocked(now) ==> !e.lets_padding_out(now, false),
        e.blocked(now) ==> e.lets_padding_out(now, true) == e.block_bypassable,
{
}

/// A request that extends the block adds its whole duration to the time spent blocking; one that
/// does not adds nothing. Neither sends, queues or counts anything else.
pub proof fn law_blocking_is_counted<S>(
    before: EndpointState<S>,
    now: Instant,
    duration: Duration,
    bypassable: bool,
)
    requires
        now.can_advance(duration),
        before.stats.blocked_for.nanos + duration.nanos <= u128::MAX,
    ensures
        ({
            let after = before.after_blocking(now, duration, bypassable);
            let extended = match before.blocked_until {
                Some(t) => t.nanos < now.nanos + duration.nanos,
                None => true,
            };
            &&& extended ==> after.stats.blocked_for.nanos == before.stats.blocked_for.nanos
                + duration.nanos
            &&& extended ==> after.blocked_until is Some && after.blocked_until->Some_0.nanos
                == now.nanos + duration.nanos
            &&& extended ==> after.block_bypassable == bypassable
            &&& !extended ==> after == before
            &&& after.egress == before.egress
            &&& after.trace == before.trace
            &&& after.seal == before.seal
            &&& after.started == before.started
            &&& after.stats.data_out == before.stats.data_out
            &&& after.stats.padding_out == before.stats.padding_out
            &&& after.stats.data_in == before.stats.data_in
            &&& after.stats.padding_in == before.stats.padding_in
            &&& after.stats.dropped == before.stats.dropped
        }),
{
}

/// Nothing is handed out but what the peer sealed: a datagram that is handed out came from the
/// peer's address, carries a frame that was sealed under the receiver's key for the direction that
/// it receives, under a number that was not seen before, and is handed out as that frame.
pub proof fn law_only_authentic_frames_are_handed_out(
    before: EndpointState<ChaChaSeal>,
    from_peer: bool,
    datagram: Seq<u8>,
    now: Instant,
    after: EndpointState<ChaChaSeal>,
    r: Option<Received>,
)
    requires
        receives(before, from_peer, datagram, now, after, r),
        r is Some,
    ensures
        from_peer,
        datagram.len() == 1224,
        !before.seal.window().refuses(ChaChaSeal::claimed(datagram)),
        exists|frame: Seq<u8>|
            {
                &&& #[trigger] seal::carries_sealed(
                    before.seal.recv_key(),
                    before.seal.receives(),
                    datagram,
                    frame,
                )
                &&& wire::decoded(frame) is Ok
                &&& r->Some_0.stands_for(
                    wire::decoded(frame)->Ok_0.0,
                    wire::decoded(frame)->Ok_0.1,
                )
            },
{
    let opened = choose|opened: Result<Seq<u8>, TransportError>| #[trigger]
        ChaChaSeal::opens(before.seal, datagram, after.seal, opened) && {
            let state = EndpointState { seal: after.seal, ..before };
            match opened {
                Err(e) => r is None && after == state.after_dropping(),
                Ok(frame) => match wire::decoded(frame) {
                    Err(e) => r is None && after == state.after_dropping(),
                    Ok((kind, payload)) => {
                        &&& r is Some
                        &&& r->Some_0.stands_for(kind, payload)
                        &&& after == state.after_receiving(kind, now, datagram.len())
                    },
                },
            }
        };
    let frame = opened->Ok_0;
    seal::law_opening(before.seal, datagram, after.seal, opened, frame);
    assert(seal::carries_sealed(before.seal.recv_key(), before.seal.receives(), datagram, frame));
}

} // verus!
