//! The session loop's decisions, shared by both ends.
//!
//! This is the closed feedback loop that the machines depend on: every action that they ask for
//! is carried out by the transport, and every action carried out is reported back as an event.
//! The client and the server run the *same* loop; only the role, and where traffic originates,
//! differ. That symmetry is the point: a traffic-analysis defense with one end implemented is not
//! a defense.
//!
//! Whoever runs the loop owns the socket, the clock and the machines. In each round it hands over
//! the datagrams that arrived, takes a turn, in which the timers fire and traffic is originated,
//! feeds the events of that turn to the machines and hands back the actions that they ask for.

use vstd::prelude::*;

use crate::engine::{Action, Engine, Timer, TriggerEvent};
use crate::policy::{DefenseLevel, Role};
use crate::text;
use crate::time::{Duration, Instant};
use crate::timers;
use crate::timers::{Block, Padding, Timers, TimersState};
use crate::transport;
use crate::transport::{
    Emitted, Endpoint, EndpointState, Received, Seal, Stats, TransportError,
};
use crate::wire::MAX_PAYLOAD;

verus! {

/// How long the loop may sleep when nothing is scheduled, in nanoseconds: 5 ms. Short enough to
/// stay responsive, long enough that an idle tunnel is not a busy loop burning a phone battery.
pub const MAX_IDLE_NANOS: u128 = 5_000_000;

/// How many datagrams are read in one turn of the loop at most, so that a flood cannot keep the
/// timers from firing.
pub const MAX_DRAIN: usize = 64;

/// Spans that the machines ask for stay below 2^62 nanoseconds, about 146 years.
pub const SPAN_LIMIT: u128 = 0x4000_0000_0000_0000;

/// The clock, and the total time spent blocking, stay below 2^126 nanoseconds.
pub const CLOCK_LIMIT: u128 = 0x4000_0000_0000_0000_0000_0000_0000_0000;

/// One end of a tunnel while it runs.
pub struct Session<S: Seal> {
    pub engine: Engine,
    pub endpoint: Endpoint<S>,
    timers: Timers,
    pending: Vec<TriggerEvent>,
    blocking_active: bool,
}

/// What a [`Session`] is at one moment.
#[verifier::ext_equal]
pub struct SessionState<S> {
    pub endpoint: EndpointState<S>,
    pub timers: TimersState,
    /// Events that the machines have not been told of yet.
    pub pending: Seq<TriggerEvent>,
    /// Whether the machines have been told of a block and not yet of its end.
    pub blocking_active: bool,
}

/// What is reported for `n` real packets that were queued.
pub open spec fn queued_events(n: nat) -> Seq<TriggerEvent> {
    Seq::new(n, |i: int| TriggerEvent::NormalSent)
}

/// What is reported for `n` real packets that left.
pub open spec fn sent_events(n: nat) -> Seq<TriggerEvent> {
    Seq::new(n, |i: int| TriggerEvent::TunnelSent)
}

/// What is reported of a datagram that was handed out as `r`: `TunnelRecv` first, before the
/// frame is classified, then `NormalRecv` or `PaddingRecv` once it is. A frame that is neither
/// came through the tunnel all the same.
pub open spec fn received_events(r: Option<Received>) -> Seq<TriggerEvent> {
    match r {
        Some(Received::Data(_)) => seq![TriggerEvent::TunnelRecv, TriggerEvent::NormalRecv],
        Some(Received::Padding) => seq![TriggerEvent::TunnelRecv, TriggerEvent::PaddingRecv],
        Some(Received::Control(_)) | Some(Received::Close) => seq![TriggerEvent::TunnelRecv],
        None => seq![],
    }
}

impl<S> SessionState<S> {
    /// With `events` reported and the endpoint as in `endpoint`.
    pub open spec fn then_reporting(
        self,
        endpoint: EndpointState<S>,
        events: Seq<TriggerEvent>,
    ) -> SessionState<S> {
        SessionState { endpoint, pending: self.pending + events, ..self }
    }

    /// Once the block `b` of machine `machine` has begun.
    pub open spec fn block_begun(self, machine: usize, b: Block, now: Instant) -> SessionState<S> {
        SessionState {
            endpoint: self.endpoint.after_blocking(now, b.duration, b.bypass),
            pending: self.pending.push(TriggerEvent::BlockingBegin { machine }),
            blocking_active: true,
            ..self
        }
    }

    /// Once the blocks in `list` have begun, one after the other.
    pub open spec fn blocks_begun(self, list: Seq<(usize, Block)>, now: Instant) -> SessionState<S>
        decreases list.len(),
    {
        if list.len() == 0 {
            self
        } else {
            let (machine, b) = list.last();
            self.blocks_begun(list.drop_last(), now).block_begun(machine, b, now)
        }
    }

    /// Once the internal timers in `list` have ended, one after the other.
    pub open spec fn timers_ended(self, list: Seq<(usize, Instant)>) -> SessionState<S> {
        SessionState {
            pending: self.pending + Seq::new(
                list.len(),
                |i: int| TriggerEvent::TimerEnd { machine: list[i].0 },
            ),
            ..self
        }
    }

    /// Once `action` has been scheduled at `now`.
    pub open spec fn scheduled(self, action: Action, now: Instant) -> SessionState<S> {
        match action {
            Action::SendPadding { machine, timeout, replace, bypass } => SessionState {
                timers: self.timers.with_padding(
                    machine,
                    Padding { at: now.spec_after(timeout), bypass, replace },
                ),
                ..self
            },
            Action::BlockOutgoing { machine, timeout, duration, replace, bypass } => SessionState {
                timers: self.timers.with_block(
                    machine,
                    Block { at: now.spec_after(timeout), duration, bypass },
                ),
                ..self
            },
            Action::Cancel { machine, timer } => SessionState {
                timers: match timer {
                    Timer::Action => self.timers.without_action(machine),
                    Timer::Internal => self.timers.without_internal(machine),
                    Timer::All => self.timers.without_action(machine).without_internal(machine),
                },
                ..self
            },
            Action::UpdateTimer { machine, duration, replace } => SessionState {
                timers: self.timers.with_internal(machine, now.spec_after(duration)),
                pending: self.pending.push(TriggerEvent::TimerBegin { machine }),
                ..self
            },
        }
    }

    /// Once the actions in `list` have been scheduled, one after the other.
    pub open spec fn all_scheduled(self, list: Seq<Action>, now: Instant) -> SessionState<S>
        decreases list.len(),
    {
        if list.len() == 0 {
            self
        } else {
            self.all_scheduled(list.drop_last(), now).scheduled(list.last(), now)
        }
    }
}

/// Whether every span that the action carries is below the limit.
pub open spec fn spans_fit(action: Action) -> bool {
    match action {
        Action::SendPadding { timeout, .. } => timeout.nanos < SPAN_LIMIT,
        Action::BlockOutgoing { timeout, duration, .. } => timeout.nanos < SPAN_LIMIT
            && duration.nanos < SPAN_LIMIT,
        Action::Cancel { .. } => true,
        Action::UpdateTimer { duration, .. } => duration.nanos < SPAN_LIMIT,
    }
}

/// Whether flushing the endpoint and reporting what left may take `before` to `after`, hand out
/// `datagrams` and have the outcome `error`. Where sealing fails, nothing is reported.
pub open spec fn flushes_and_reports<S: Seal>(
    before: SessionState<S>,
    now: Instant,
    after: SessionState<S>,
    datagrams: Seq<Seq<u8>>,
    error: Option<TransportError>,
) -> bool {
    &&& transport::flushes(before.endpoint, now, after.endpoint, datagrams, error)
    &&& after == before.then_reporting(
        after.endpoint,
        if error is None {
            sent_events(datagrams.len())
        } else {
            seq![]
        },
    )
}

/// Whether a padding timer of machine `machine` that has fired may take `before` to `after`, hand
/// out `datagrams` and have the outcome `error`.
///
/// `replace` means that an already-queued real packet may stand in for the padding. The machine
/// is told `PaddingSent` either way: omitting it stalls the machine.
pub open spec fn padding_fires<S: Seal>(
    before: SessionState<S>,
    machine: usize,
    p: Padding,
    now: Instant,
    after: SessionState<S>,
    datagrams: Seq<Seq<u8>>,
    error: Option<TransportError>,
) -> bool {
    if p.replace && before.endpoint.egress.len() > 0 {
        &&& transport::flushes(before.endpoint, now, after.endpoint, datagrams, error)
        &&& after == before.then_reporting(
            after.endpoint,
            if error is None {
                sent_events(datagrams.len()).push(TriggerEvent::PaddingSent { machine })
            } else {
                seq![]
            },
        )
    } else {
        &&& transport::pads(
            before.endpoint,
            now,
            p.bypass,
            after.endpoint,
            datagrams,
            match error {
                None => Ok(datagrams.len() > 0),
                Some(e) => Err(e),
            },
        )
        &&& after == before.then_reporting(
            after.endpoint,
            if error is None && datagrams.len() > 0 {
                seq![TriggerEvent::PaddingSent { machine }, TriggerEvent::TunnelSent]
            } else {
                seq![]
            },
        )
    }
}

/// Whether the padding timers in `list`, firing one after the other, may take `before` to
/// `after`, hand out `datagrams` and have the outcome `error`. The first failure ends it.
pub open spec fn paddings_fire<S: Seal>(
    before: SessionState<S>,
    list: Seq<(usize, Padding)>,
    now: Instant,
    after: SessionState<S>,
    datagrams: Seq<Seq<u8>>,
    error: Option<TransportError>,
) -> bool
    decreases list.len(),
{
    if list.len() == 0 {
        after == before && datagrams == Seq::<Seq<u8>>::empty() && error is None
    } else {
        ||| error is Some && paddings_fire(before, list.drop_last(), now, after, datagrams, error)
        ||| exists|mid: SessionState<S>, first: Seq<Seq<u8>>, rest: Seq<Seq<u8>>|
            paddings_fire(before, list.drop_last(), now, mid, first, None)
                && #[trigger] padding_fires(
                mid,
                list.last().0,
                list.last().1,
                now,
                after,
                rest,
                error,
            ) && datagrams == #[trigger] (first + rest)
    }
}

/// Whether noticing that a block has run its course may take `before` to `after`, hand out
/// `datagrams` and have the outcome `error`. Traffic that was held during the block leaves then.
pub open spec fn block_ends<S: Seal>(
    before: SessionState<S>,
    now: Instant,
    after: SessionState<S>,
    datagrams: Seq<Seq<u8>>,
    error: Option<TransportError>,
) -> bool {
    if before.blocking_active && !before.endpoint.blocked(now) {
        flushes_and_reports(
            SessionState {
                blocking_active: false,
                pending: before.pending.push(TriggerEvent::BlockingEnd),
                ..before
            },
            now,
            after,
            datagrams,
            error,
        )
    } else {
        after == before && datagrams == Seq::<Seq<u8>>::empty() && error is None
    }
}

/// The way through one firing of the timers.
pub struct Firing<S> {
    /// The state once a block that had run its course has been dealt with, and what left then.
    pub unblocked: SessionState<S>,
    pub released: Seq<Seq<u8>>,
    /// The padding timers that were due, in the order in which they fired.
    pub paddings: Seq<(usize, Padding)>,
    /// The state once they have fired, and what left then.
    pub padded: SessionState<S>,
    pub cover: Seq<Seq<u8>>,
    /// The blocks and internal timers that were due, in the order in which they fired.
    pub blocks: Seq<(usize, Block)>,
    pub internals: Seq<(usize, Instant)>,
}

/// Whether firing the timers along `way` may take `before` to `after`, hand out `datagrams` and
/// have the outcome `error`.
pub open spec fn fires_along<S: Seal>(
    before: SessionState<S>,
    now: Instant,
    way: Firing<S>,
    after: SessionState<S>,
    datagrams: Seq<Seq<u8>>,
    error: Option<TransportError>,
) -> bool {
    ||| {
        &&& error is Some
        &&& block_ends(before, now, after, datagrams, error)
    }
    ||| {
        &&& block_ends(before, now, way.unblocked, way.released, None)
        &&& timers::lists_due(way.paddings, way.unblocked.timers.padding, now)
        &&& paddings_fire(
            SessionState {
                timers: TimersState {
                    padding: timers::remaining(way.unblocked.timers.padding, now),
                    ..way.unblocked.timers
                },
                ..way.unblocked
            },
            way.paddings,
            now,
            way.padded,
            way.cover,
            error,
        )
        &&& datagrams == way.released + way.cover
        &&& if error is Some {
            after == way.padded
        } else {
            &&& timers::lists_due(way.blocks, way.padded.timers.block, now)
            &&& timers::lists_due(way.internals, way.padded.timers.internal, now)
            &&& after == (SessionState {
                timers: TimersState {
                    block: timers::remaining(way.padded.timers.block, now),
                    internal: timers::remaining(way.padded.timers.internal, now),
                    ..way.padded.timers
                },
                ..way.padded
            }).blocks_begun(way.blocks, now).timers_ended(way.internals)
        }
    }
}

/// Whether firing the timers may take `before` to `after`, hand out `datagrams` and have the
/// outcome `error`. Timers of one kind that are due together fire in no particular order.
pub open spec fn fires<S: Seal>(
    before: SessionState<S>,
    now: Instant,
    after: SessionState<S>,
    datagrams: Seq<Seq<u8>>,
    error: Option<TransportError>,
) -> bool {
    exists|way: Firing<S>| #[trigger] fires_along(before, now, way, after, datagrams, error)
}

/// Whether the loop goes on at `now`: until its deadline, if it has one, or until the source says
/// that it is finished.
pub fn goes_on(now: Instant, deadline: Option<Instant>, done: bool) -> (b: bool)
    ensures
        b == (!done && (deadline matches Some(d) ==> now.nanos < d.nanos)),
{
    if done {
        return false;
    }
    match deadline {
        Some(d) => now.before(d),
        None => true,
    }
}

/// Traffic that this end originates, independent of the defense.
pub trait Source {
    /// Whether the source can be asked at `now`.
    spec fn ready(&self, now: Instant) -> bool;

    /// Packets to send at `now`, if any.
    fn packets(&mut self, now: Instant) -> (out: Vec<Vec<u8>>)
        requires
            old(self).ready(now),
    ;

    /// Told about inbound real packets, so that a server can answer them.
    fn on_received(&mut self, _payload: &[u8], _now: Instant)
        requires
            old(self).ready(_now),
    {
    }

    /// Whether the workload has finished.
    fn done(&self, _now: Instant) -> (done: bool)
        default_ensures
            !done,
    {
        false
    }
}

impl<S: Seal> View for Session<S> {
    type V = SessionState<S>;

    closed spec fn view(&self) -> SessionState<S> {
        SessionState {
            endpoint: self.endpoint@,
            timers: self.timers@,
            pending: self.pending@,
            blocking_active: self.blocking_active,
        }
    }
}

/// Whether no pending block is longer than the limit.
pub open spec fn blocks_fit(block: Map<usize, Block>) -> bool {
    forall|m: usize| #[trigger] block.contains_key(m) ==> block[m].duration.nanos < SPAN_LIMIT
}

impl<S: Seal> Session<S> {
    /// The endpoint is well formed, no machine has more than one pending action, and no pending
    /// block is longer than the limit.
    pub open spec fn wf(self) -> bool {
        &&& self@.endpoint.wf()
        &&& self@.timers.one_action_each()
        &&& blocks_fit(self@.timers.block)
    }

    pub closed spec fn machinery(self) -> Engine {
        self.engine
    }

    pub fn new(engine: Engine, endpoint: Endpoint<S>) -> (s: Session<S>)
        requires
            endpoint.wf(),
        ensures
            s.wf(),
            s.machinery() == engine,
            s@ == (SessionState {
                endpoint: endpoint@,
                timers: TimersState {
                    padding: Map::empty(),
                    block: Map::empty(),
                    internal: Map::empty(),
                },
                pending: Seq::empty(),
                blocking_active: false,
            }),
    {
        Session {
            engine,
            endpoint,
            timers: Timers::default(),
            pending: Vec::new(),
            blocking_active: false,
        }
    }

    pub fn level(&self) -> (l: DefenseLevel)
        ensures
            l == self.machinery().runs(),
    {
        self.engine.level()
    }

    pub fn role(&self) -> (r: Role)
        ensures
            r == self.machinery().end(),
    {
        self.engine.role()
    }

    /// Take one datagram that arrived, and note the events that the machines expect. Real
    /// packets are for the source; `None` means that the datagram was dropped.
    pub fn take_datagram(&mut self, from_peer: bool, datagram: &[u8], now: Instant) -> (r: Option<
        Received,
    >)
        requires
            old(self).wf(),
            old(self)@.endpoint.stats.dropped < u64::MAX,
        ensures
            final(self).wf(),
            final(self).machinery() == old(self).machinery(),
            transport::receives(
                old(self)@.endpoint,
                from_peer,
                datagram@,
                now,
                final(self)@.endpoint,
                r,
            ),
            final(self)@ == old(self)@.then_reporting(final(self)@.endpoint, received_events(r)),
    {
        let ghost before = self@;
        let r = self.endpoint.recv(from_peer, datagram, now);
        match &r {
            Some(Received::Data(_)) => {
                self.pending.push(TriggerEvent::TunnelRecv);
                self.pending.push(TriggerEvent::NormalRecv);
            },
            Some(Received::Padding) => {
                self.pending.push(TriggerEvent::TunnelRecv);
                self.pending.push(TriggerEvent::PaddingRecv);
            },
            Some(Received::Control(_)) | Some(Received::Close) => {
                self.pending.push(TriggerEvent::TunnelRecv);
            },
            None => {},
        }
        assert(self@ =~= before.then_reporting(self@.endpoint, received_events(r)));
        r
    }

    fn report_emitted(&mut self, e: Emitted)
        ensures
            final(self).machinery() == old(self).machinery(),
            final(self).endpoint == old(self).endpoint,
            final(self)@ == old(self)@.then_reporting(
                old(self)@.endpoint,
                match e {
                    // That it was queued has been reported already.
                    Emitted::Data => seq![TriggerEvent::TunnelSent],
                    Emitted::Padding => seq![TriggerEvent::TunnelSent],
                    Emitted::Control => seq![],
                },
            ),
    {
        let ghost before = self@;
        match e {
            Emitted::Data | Emitted::Padding => {
                self.pending.push(TriggerEvent::TunnelSent);
            },
            Emitted::Control => {},
        }
        assert(self@ =~= before.then_reporting(
            before.endpoint,
            match e {
                Emitted::Control => seq![],
                _ => seq![TriggerEvent::TunnelSent],
            },
        ));
    }

    fn flush_and_report(&mut self, now: Instant, outbox: &mut Vec<Vec<u8>>) -> (r: Result<
        (),
        TransportError,
    >)
        requires
            old(self).wf(),
        ensures
            final(self).wf(),
            final(self).machinery() == old(self).machinery(),
            transport::extends(old(outbox)@, final(outbox)@),
            flushes_and_reports(
                old(self)@,
                now,
                final(self)@,
                transport::added(old(outbox)@, final(outbox)@),
                match r {
                    Ok(()) => None,
                    Err(e) => Some(e),
                },
            ),
    {
        let ghost before = self@;
        let emitted = match self.endpoint.flush(now, outbox) {
            Ok(emitted) => emitted,
            Err(e) => {
                assert(self@ =~= before.then_reporting(self@.endpoint, seq![]));
                return Err(e);
            },
        };
        let ghost flushed = self.endpoint;
        let ghost n = emitted@.len();
        let mut i: usize = 0;
        assert(self@ =~= before.then_reporting(self@.endpoint, sent_events(0)));
        while i < emitted.len()
            invariant
                i <= emitted@.len() == n,
                self.endpoint == flushed,
                self.engine == old(self).engine,
                emitted@ == Seq::new(n, |k: int| Emitted::Data),
                self@ == before.then_reporting(flushed@, sent_events(i as nat)),
            decreases n - i,
        {
            assert(emitted@[i as int] == Emitted::Data);
            self.report_emitted(emitted[i]);
            assert(sent_events((i + 1) as nat) =~= sent_events(i as nat).push(
                TriggerEvent::TunnelSent,
            ));
            assert(self@ =~= before.then_reporting(flushed@, sent_events((i + 1) as nat)));
            i += 1;
        }
        Ok(())
    }

    /// Queue the packets that this end originates, and send what the block state allows. A packet
    /// is reported once when it is queued and once more when it leaves. The datagrams go behind
    /// `outbox`, also those made before a failure.
    pub fn originate(&mut self, packets: &[Vec<u8>], now: Instant, outbox: &mut Vec<Vec<u8>>) -> (r:
        Result<(), TransportError>)
        requires
            old(self).wf(),
        ensures
            final(self).wf(),
            final(self).machinery() == old(self).machinery(),
            transport::extends(old(outbox)@, final(outbox)@),
            originates(
                old(self)@,
                transport::contents(packets@),
                now,
                final(self)@,
                transport::added(old(outbox)@, final(outbox)@),
                match r {
                    Ok(()) => None,
                    Err(e) => Some(e),
                },
            ),
    {
        let ghost before = self@;
        let ghost sent = outbox@;
        let ghost all = transport::contents(packets@);
        let mut i: usize = 0;
        assert(all.take(0) =~= Seq::empty());
        assert(self@ =~= before.queued(all.take(0)));
        while i < packets.len()
            invariant
                i <= packets@.len() == all.len(),
                all == transport::contents(packets@),
                before == old(self)@,
                sent == old(outbox)@,
                outbox@ == sent,
                self.wf(),
                self.engine == old(self).engine,
                forall|k: int| 0 <= k < i ==> (#[trigger] all[k]).len() <= MAX_PAYLOAD,
                self@ == before.queued(all.take(i as int)),
            decreases packets@.len() - i,
        {
            let ghost at = self@;
            assert(all[i as int] == packets@[i as int]@);
            match self.endpoint.queue(&packets[i]) {
                Ok(()) => {},
                Err(e) => {
                    assert(self@ =~= at);
                    assert(transport::added(sent, outbox@) =~= Seq::empty());
                    return Err(e);
                },
            }
            self.pending.push(TriggerEvent::NormalSent);
            assert(all.take(i + 1) =~= all.take(i as int).push(all[i as int]));
            assert(self@ =~= before.queued(all.take(i + 1)));
            i += 1;
        }
        assert(all.take(i as int) =~= all);
        self.flush_and_report(now, outbox)
    }

    /// The events that the machines have not been told of yet, and `None` where there are none.
    /// They are handed over as one batch: the machines evaluate a whole batch against one
    /// timestamp, and a later event may supersede an action that an earlier one produced.
    pub fn take_events(&mut self) -> (events: Option<Vec<TriggerEvent>>)
        requires
            old(self).wf(),
        ensures
            final(self).wf(),
            final(self).machinery() == old(self).machinery(),
            old(self)@.pending.len() == 0 ==> events is None && final(self)@ == old(self)@,
            old(self)@.pending.len() > 0 ==> events is Some && events->Some_0@ == old(self)@.pending
                && final(self)@ == (SessionState { pending: Seq::empty(), ..old(self)@ }),
    {
        if self.pending.len() == 0 {
            return None;
        }
        let mut events: Vec<TriggerEvent> = Vec::new();
        events.append(&mut self.pending);
        assert(events@ =~= old(self)@.pending);
        Some(events)
    }

    /// Schedule whatever the machines ask for in answer to a batch.
    pub fn apply_actions(&mut self, actions: &[Action], now: Instant)
        requires
            old(self).wf(),
            now.nanos < CLOCK_LIMIT,
            forall|i: int| 0 <= i < actions@.len() ==> spans_fit(#[trigger] actions@[i]),
        ensures
            final(self).wf(),
            final(self).machinery() == old(self).machinery(),
            final(self)@ == old(self)@.all_scheduled(actions@, now),
    {
        let ghost before = self@;
        let mut i: usize = 0;
        assert(actions@.take(0) =~= Seq::empty());
        while i < actions.len()
            invariant
                i <= actions@.len(),
                now.nanos < CLOCK_LIMIT,
                forall|i: int| 0 <= i < actions@.len() ==> spans_fit(#[trigger] actions@[i]),
                self.wf(),
                self.engine == old(self).engine,
                self@ == before.all_scheduled(actions@.take(i as int), now),
            decreases actions@.len() - i,
        {
            assert(actions@.take(i + 1).drop_last() =~= actions@.take(i as int));
            assert(actions@.take(i + 1).last() == actions@[i as int]);
            self.apply_action(actions[i], now);
            i += 1;
        }
        assert(actions@.take(i as int) =~= actions@);
    }

    fn apply_action(&mut self, action: Action, now: Instant)
        requires
            old(self).wf(),
            now.nanos < CLOCK_LIMIT,
            spans_fit(action),
        ensures
            final(self).wf(),
            final(self).machinery() == old(self).machinery(),
            final(self)@ == old(self)@.scheduled(action, now),
    {
        match action {
            Action::SendPadding { machine, timeout, replace, bypass } => {
                self.timers.schedule_padding(
                    machine,
                    Padding { at: now.after(timeout), bypass, replace },
                );
            },
            Action::BlockOutgoing { machine, timeout, duration, replace: _, bypass } => {
                self.timers.schedule_block(
                    machine,
                    Block { at: now.after(timeout), duration, bypass },
                );
            },
            Action::Cancel { machine, timer } => match timer {
                Timer::Action => self.timers.cancel(machine),
                Timer::Internal => self.timers.cancel_internal(machine),
                Timer::All => {
                    self.timers.cancel(machine);
                    self.timers.cancel_internal(machine);
                },
            },
            Action::UpdateTimer { machine, duration, replace: _ } => {
                self.timers.schedule_internal(machine, now.after(duration));
                self.pending.push(TriggerEvent::TimerBegin { machine });
            },
        }
    }

    /// How long the loop may sleep: until the next scheduled action rather than spinning, and
    /// never longer than [`MAX_IDLE_NANOS`].
    pub fn wake_after(&self, now: Instant) -> (d: Duration)
        ensures
            exists|t: Option<Instant>| #[trigger] self@.timers.next(t) && d == idle_span(t, now),
    {
        let t = self.timers.next_deadline();
        assert(self@.timers.next(t));
        let span = match t {
            Some(t) => t.duration_since(now),
            None => return Duration { nanos: MAX_IDLE_NANOS },
        };
        if span.nanos < MAX_IDLE_NANOS {
            span
        } else {
            Duration { nanos: MAX_IDLE_NANOS }
        }
    }
}

/// How long to sleep at `now` when the next timer is due at `t`.
pub open spec fn idle_span(t: Option<Instant>, now: Instant) -> Duration {
    match t {
        Some(t) => if t.spec_since(now).nanos < MAX_IDLE_NANOS {
            t.spec_since(now)
        } else {
            Duration { nanos: MAX_IDLE_NANOS }
        },
        None => Duration { nanos: MAX_IDLE_NANOS },
    }
}

impl<S> SessionState<S> {
    /// With `packets` waiting behind those that wait already, each reported as queued.
    pub open spec fn queued(self, packets: Seq<Seq<u8>>) -> SessionState<S> {
        SessionState {
            endpoint: EndpointState { egress: self.endpoint.egress + packets, ..self.endpoint },
            pending: self.pending + queued_events(packets.len()),
            ..self
        }
    }
}

/// Whether every packet fits in a frame.
pub open spec fn packets_fit(packets: Seq<Seq<u8>>) -> bool {
    forall|i: int| 0 <= i < packets.len() ==> (#[trigger] packets[i]).len() <= MAX_PAYLOAD
}

/// Whether originating `packets` may take `before` to `after`, hand out `datagrams` and have the
/// outcome `error`. The first packet that is too large ends it before anything is sent.
pub open spec fn originates<S: Seal>(
    before: SessionState<S>,
    packets: Seq<Seq<u8>>,
    now: Instant,
    after: SessionState<S>,
    datagrams: Seq<Seq<u8>>,
    error: Option<TransportError>,
) -> bool {
    if packets_fit(packets) {
        flushes_and_reports(before.queued(packets), now, after, datagrams, error)
    } else {
        exists|k: int|
            0 <= k < packets.len() && packets_fit(packets.take(k)) && (#[trigger] packets[k]).len()
                > MAX_PAYLOAD && after == before.queued(packets.take(k)) && datagrams == Seq::<
                Seq<u8>,
            >::empty() && error == Some(
                TransportError::PacketTooLarge { len: packets[k].len() as usize },
            )
    }
}

impl<S: Seal> Session<S> {
    /// One padding timer that has fired.
    fn fire_padding(
        &mut self,
        machine: usize,
        p: Padding,
        now: Instant,
        outbox: &mut Vec<Vec<u8>>,
    ) -> (r: Result<(), TransportError>)
        requires
            old(self).wf(),
        ensures
            final(self).wf(),
            final(self).machinery() == old(self).machinery(),
            transport::extends(old(outbox)@, final(outbox)@),
            padding_fires(
                old(self)@,
                machine,
                p,
                now,
                final(self)@,
                transport::added(old(outbox)@, final(outbox)@),
                match r {
                    Ok(()) => None,
                    Err(e) => Some(e),
                },
            ),
    {
        let ghost before = self@;
        let ghost sent = outbox@;
        if p.replace && self.endpoint.has_queued() {
            match self.flush_and_report(now, outbox) {
                Ok(()) => {},
                Err(e) => return Err(e),
            }
            self.pending.push(TriggerEvent::PaddingSent { machine });
            proof {
                let n = transport::added(sent, outbox@).len();
                assert(self@ =~= before.then_reporting(
                    self@.endpoint,
                    sent_events(n).push(TriggerEvent::PaddingSent { machine }),
                ));
            }
            return Ok(());
        }
        match self.endpoint.send_padding(now, p.bypass, outbox) {
            Ok(true) => {
                self.pending.push(TriggerEvent::PaddingSent { machine });
                self.pending.push(TriggerEvent::TunnelSent);
                assert(self@ =~= before.then_reporting(
                    self@.endpoint,
                    seq![TriggerEvent::PaddingSent { machine }, TriggerEvent::TunnelSent],
                ));
                Ok(())
            },
            Ok(false) => {
                assert(self@ =~= before.then_reporting(self@.endpoint, seq![]));
                Ok(())
            },
            Err(e) => {
                assert(self@ =~= before.then_reporting(self@.endpoint, seq![]));
                Err(e)
            },
        }
    }

    /// The padding timers in `list` that have fired, one after the other.
    fn fire_paddings(
        &mut self,
        list: &[(usize, Padding)],
        now: Instant,
        outbox: &mut Vec<Vec<u8>>,
    ) -> (r: Result<(), TransportError>)
        requires
            old(self).wf(),
        ensures
            final(self).wf(),
            final(self).machinery() == old(self).machinery(),
            final(self)@.timers == old(self)@.timers,
            final(self)@.endpoint.stats.blocked_for == old(self)@.endpoint.stats.blocked_for,
            transport::extends(old(outbox)@, final(outbox)@),
            paddings_fire(
                old(self)@,
                list@,
                now,
                final(self)@,
                transport::added(old(outbox)@, final(outbox)@),
                match r {
                    Ok(()) => None,
                    Err(e) => Some(e),
                },
            ),
    {
        let ghost before = self@;
        let ghost sent = outbox@;
        let mut i: usize = 0;
        assert(list@.take(0) =~= Seq::empty());
        assert(transport::added(sent, outbox@) =~= Seq::empty());
        while i < list.len()
            invariant
                i <= list@.len(),
                before == old(self)@,
                sent == old(outbox)@,
                self.wf(),
                self.machinery() == old(self).machinery(),
                self@.timers == before.timers,
                self@.endpoint.stats.blocked_for == before.endpoint.stats.blocked_for,
                transport::extends(sent, outbox@),
                paddings_fire(
                    before,
                    list@.take(i as int),
                    now,
                    self@,
                    transport::added(sent, outbox@),
                    None,
                ),
            decreases list@.len() - i,
        {
            let ghost mid = self@;
            let ghost boxed = outbox@;
            let (machine, p) = list[i];
            let r = self.fire_padding(machine, p, now, outbox);
            proof {
                let now_list = list@.take(i + 1);
                assert(now_list.drop_last() =~= list@.take(i as int));
                assert(now_list.last() == list@[i as int]);
                let first = transport::added(sent, boxed);
                let rest = transport::added(boxed, outbox@);
                lemma_added_twice(sent, boxed, outbox@);
                let error: Option<TransportError> = match r {
                    Ok(()) => None,
                    Err(e) => Some(e),
                };
                assert(padding_fires(
                    mid,
                    now_list.last().0,
                    now_list.last().1,
                    now,
                    self@,
                    rest,
                    error,
                ));
                assert(transport::added(sent, outbox@) == first + rest);
                assert(paddings_fire(
                    before,
                    now_list,
                    now,
                    self@,
                    transport::added(sent, outbox@),
                    error,
                ));
                if error is Some {
                    lemma_failure_stays(
                        before,
                        list@,
                        i + 1,
                        now,
                        self@,
                        transport::added(sent, outbox@),
                        error,
                    );
                }
            }
            match r {
                Ok(()) => {},
                Err(e) => return Err(e),
            }
            i += 1;
        }
        assert(list@.take(i as int) =~= list@);
        Ok(())
    }

    /// Fire the timers that are due. The datagrams go behind `outbox`, also those made before a
    /// failure.
    pub fn fire_timers(&mut self, now: Instant, outbox: &mut Vec<Vec<u8>>) -> (r: Result<
        (),
        TransportError,
    >)
        requires
            old(self).wf(),
            now.nanos < CLOCK_LIMIT,
            old(self)@.endpoint.stats.blocked_for.nanos < CLOCK_LIMIT,
        ensures
            final(self).wf(),
            final(self).machinery() == old(self).machinery(),
            transport::extends(old(outbox)@, final(outbox)@),
            fires(
                old(self)@,
                now,
                final(self)@,
                transport::added(old(outbox)@, final(outbox)@),
                match r {
                    Ok(()) => None,
                    Err(e) => Some(e),
                },
            ),
    {
        let ghost before = self@;
        let ghost sent = outbox@;
        let ghost mut way: Firing<S> = Firing {
            unblocked: before,
            released: Seq::empty(),
            paddings: Seq::empty(),
            padded: before,
            cover: Seq::empty(),
            blocks: Seq::empty(),
            internals: Seq::empty(),
        };
        // Blocking that has run its course.
        if self.blocking_active && !self.endpoint.is_blocked(now) {
            self.blocking_active = false;
            self.pending.push(TriggerEvent::BlockingEnd);
            // Traffic held during the block leaves now.
            match self.flush_and_report(now, outbox) {
                Ok(()) => {},
                Err(e) => {
                    assert(fires_along(
                        before,
                        now,
                        way,
                        self@,
                        transport::added(sent, outbox@),
                        Some(e),
                    ));
                    return Err(e);
                },
            }
        } else {
            assert(transport::added(sent, outbox@) =~= Seq::empty());
        }
        let ghost unblocked = self@;
        let ghost released_box = outbox@;
        let ghost released = transport::added(sent, outbox@);
        let paddings = self.timers.due_padding(now);
        let padded = self.fire_paddings(&paddings, now, outbox);
        proof {
            lemma_added_twice(sent, released_box, outbox@);
            way = Firing {
                unblocked,
                released,
                paddings: paddings@,
                padded: self@,
                cover: transport::added(released_box, outbox@),
                blocks: Seq::empty(),
                internals: Seq::empty(),
            };
        }
        match padded {
            Ok(()) => {},
            Err(e) => {
                assert(fires_along(
                    before,
                    now,
                    way,
                    self@,
                    transport::added(sent, outbox@),
                    Some(e),
                ));
                return Err(e);
            },
        }
        let ghost after_padding = self@;
        let blocks = self.timers.due_blocks(now);
        let internals = self.timers.due_internal(now);
        let ghost drained = self@;
        let mut i: usize = 0;
        assert(blocks@.take(0) =~= Seq::empty());
        while i < blocks.len()
            invariant
                i <= blocks@.len(),
                now.nanos < CLOCK_LIMIT,
                drained.timers.block == timers::remaining(after_padding.timers.block, now),
                timers::lists_due(blocks@, after_padding.timers.block, now),
                blocks_fit(after_padding.timers.block),
                self.wf(),
                self.machinery() == old(self).machinery(),
                self@ == drained.blocks_begun(blocks@.take(i as int), now),
                self@.timers == drained.timers,
                self@.endpoint.stats.blocked_for.nanos < CLOCK_LIMIT + i * SPAN_LIMIT,
            decreases blocks@.len() - i,
        {
            let (machine, b) = blocks[i];
            proof {
                let e = blocks@[i as int];
                assert(after_padding.timers.block.contains_key(e.0));
                assert(b.duration.nanos < SPAN_LIMIT);
                assert(blocks@.take(i + 1).drop_last() =~= blocks@.take(i as int));
                assert(blocks@.take(i + 1).last() == blocks@[i as int]);
            }
            let ghost at = self@;
            self.endpoint.block_outgoing(now, b.duration, b.bypass);
            self.blocking_active = true;
            self.pending.push(TriggerEvent::BlockingBegin { machine });
            assert(self@ =~= at.block_begun(machine, b, now));
            i += 1;
        }
        assert(blocks@.take(i as int) =~= blocks@);
        let ghost begun = self@;
        let mut j: usize = 0;
        assert(self@ =~= begun.timers_ended(internals@.take(0)));
        while j < internals.len()
            invariant
                j <= internals@.len(),
                self.wf(),
                self.machinery() == old(self).machinery(),
                self@ == begun.timers_ended(internals@.take(j as int)),
            decreases internals@.len() - j,
        {
            let (machine, _) = internals[j];
            self.pending.push(TriggerEvent::TimerEnd { machine });
            assert(self@ =~= begun.timers_ended(internals@.take(j + 1)));
            j += 1;
        }
        assert(internals@.take(j as int) =~= internals@);
        proof {
            way = Firing { blocks: blocks@, internals: internals@, ..way };
            assert(fires_along(before, now, way, self@, transport::added(sent, outbox@), None));
        }
        Ok(())
    }
}

/// The way through one turn of the loop.
pub struct Turn<S> {
    /// The state once the timers have fired, and what left then.
    pub fired: SessionState<S>,
    pub first: Seq<Seq<u8>>,
    /// The state once traffic has been originated, and what left then.
    pub originated: SessionState<S>,
    pub rest: Seq<Seq<u8>>,
}

/// Whether handing `events` over to the machines may take `before` to `after`: everything that is
/// pending, as one batch, and nothing where nothing is.
pub open spec fn hands_over<S>(
    before: SessionState<S>,
    after: SessionState<S>,
    events: Option<Seq<TriggerEvent>>,
) -> bool {
    if before.pending.len() == 0 {
        events is None && after == before
    } else {
        events == Some(before.pending) && after == (SessionState {
            pending: Seq::empty(),
            ..before
        })
    }
}

/// Whether one turn of the loop along `way`, in which this end originates `packets`, may take
/// `before` to `after`, hand out `datagrams` and have the outcome `r`: the timers fire, then
/// traffic is originated, then the batch of events is handed over. The first failure ends it.
pub open spec fn turns_along<S: Seal>(
    before: SessionState<S>,
    packets: Seq<Seq<u8>>,
    now: Instant,
    way: Turn<S>,
    after: SessionState<S>,
    datagrams: Seq<Seq<u8>>,
    r: Result<Option<Seq<TriggerEvent>>, TransportError>,
) -> bool {
    ||| r is Err && fires(before, now, after, datagrams, Some(r->Err_0))
    ||| {
        &&& fires(before, now, way.fired, way.first, None)
        &&& datagrams == way.first + way.rest
        &&& match r {
            Err(e) => originates(way.fired, packets, now, after, way.rest, Some(e)),
            Ok(events) => originates(way.fired, packets, now, way.originated, way.rest, None)
                && hands_over(way.originated, after, events),
        }
    }
}

/// Whether one turn of the loop may take `before` to `after`, hand out `datagrams` and have the
/// outcome `r`.
pub open spec fn turns<S: Seal>(
    before: SessionState<S>,
    packets: Seq<Seq<u8>>,
    now: Instant,
    after: SessionState<S>,
    datagrams: Seq<Seq<u8>>,
    r: Result<Option<Seq<TriggerEvent>>, TransportError>,
) -> bool {
    exists|way: Turn<S>| #[trigger]
        turns_along(before, packets, now, way, after, datagrams, r)
}

impl<S: Seal> Session<S> {
    /// One turn of the loop: fire the timers, originate `packets`, and hand out the events for the
    /// machines, whose answer is for [`Session::apply_actions`]. The datagrams go behind `outbox`,
    /// also those made before a failure.
    pub fn turn(&mut self, packets: &[Vec<u8>], now: Instant, outbox: &mut Vec<Vec<u8>>) -> (r:
        Result<Option<Vec<TriggerEvent>>, TransportError>)
        requires
            old(self).wf(),
            now.nanos < CLOCK_LIMIT,
            old(self)@.endpoint.stats.blocked_for.nanos < CLOCK_LIMIT,
        ensures
            final(self).wf(),
            final(self).machinery() == old(self).machinery(),
            transport::extends(old(outbox)@, final(outbox)@),
            turns(
                old(self)@,
                transport::contents(packets@),
                now,
                final(self)@,
                transport::added(old(outbox)@, final(outbox)@),
                match r {
                    Ok(Some(events)) => Ok(Some(events@)),
                    Ok(None) => Ok(None),
                    Err(e) => Err(e),
                },
            ),
    {
        let ghost before = self@;
        let ghost sent = outbox@;
        let ghost all = transport::contents(packets@);
        let ghost mut way: Turn<S> = Turn {
            fired: before,
            first: Seq::empty(),
            originated: before,
            rest: Seq::empty(),
        };
        match self.fire_timers(now, outbox) {
            Ok(()) => {},
            Err(e) => {
                assert(turns_along(
                    before,
                    all,
                    now,
                    way,
                    self@,
                    transport::added(sent, outbox@),
                    Err(e),
                ));
                return Err(e);
            },
        }
        let ghost fired = self@;
        let ghost boxed = outbox@;
        let originated = self.originate(packets, now, outbox);
        proof {
            lemma_added_twice(sent, boxed, outbox@);
            way = Turn {
                fired,
                first: transport::added(sent, boxed),
                originated: self@,
                rest: transport::added(boxed, outbox@),
            };
        }
        match originated {
            Ok(()) => {},
            Err(e) => {
                assert(turns_along(
                    before,
                    all,
                    now,
                    way,
                    self@,
                    transport::added(sent, outbox@),
                    Err(e),
                ));
                return Err(e);
            },
        }
        let events = self.take_events();
        let ghost batch: Option<Seq<TriggerEvent>> = if events is Some {
            Some(events->Some_0@)
        } else {
            None
        };
        assert(turns_along(
            before,
            all,
            now,
            way,
            self@,
            transport::added(sent, outbox@),
            Ok(batch),
        ));
        Ok(events)
    }
}

/// What is added in two steps is what the first step adds and then what the second step adds.
proof fn lemma_added_twice(a: Seq<Vec<u8>>, b: Seq<Vec<u8>>, c: Seq<Vec<u8>>)
    requires
        transport::extends(a, b),
        transport::extends(b, c),
    ensures
        transport::extends(a, c),
        transport::added(a, c) == transport::added(a, b) + transport::added(b, c),
{
    assert(c.take(a.len() as int) =~= c.take(b.len() as int).take(a.len() as int));
    assert(transport::added(a, c) =~= transport::added(a, b) + transport::added(b, c)) by {
        assert forall|i: int| 0 <= i < b.len() implies c[i] == b[i] by {
            assert(c.take(b.len() as int)[i] == b[i]);
        }
    }
}

/// Once a padding timer has failed, the later ones change nothing.
proof fn lemma_failure_stays<S: Seal>(
    before: SessionState<S>,
    list: Seq<(usize, Padding)>,
    n: int,
    now: Instant,
    after: SessionState<S>,
    datagrams: Seq<Seq<u8>>,
    error: Option<TransportError>,
)
    requires
        0 <= n <= list.len(),
        error is Some,
        paddings_fire(before, list.take(n), now, after, datagrams, error),
    ensures
        paddings_fire(before, list, now, after, datagrams, error),
    decreases list.len() - n,
{
    if n < list.len() {
        assert(list.take(n + 1).drop_last() =~= list.take(n));
        lemma_failure_stays(before, list, n + 1, now, after, datagrams, error);
    } else {
        assert(list.take(n) =~= list);
    }
}

/// The end of the tunnel, as it is named in a report.
pub open spec fn role_name(role: Role) -> Seq<char> {
    match role {
        Role::Client => "Client"@,
        Role::Server => "Server"@,
    }
}

/// What is reported once a session is over.
pub open spec fn report_text(who: Seq<char>, level: DefenseLevel, role: Role, s: Stats) -> Seq<
    char,
> {
    "\n"@ + who + ": level "@ + level.name() + " role "@ + role_name(role) + "\n  sent    "@
        + text::decimal(s.data_out as nat) + " data, "@ + text::decimal(s.padding_out as nat)
        + " padding"@ + "\n  received "@ + text::decimal(s.data_in as nat) + " data, "@
        + text::decimal(s.padding_in as nat) + " padding"@ + "\n  dropped "@ + text::decimal(
        s.dropped as nat,
    )
}

pub fn report(who: &str, level: DefenseLevel, role: Role, stats: Stats) -> (s: String)
    ensures
        s@ == report_text(who@, level, role, stats),
{
    let mut s = String::new();
    s.append("\n");
    s.append(who);
    s.append(": level ");
    s.append(level.as_str());
    s.append(" role ");
    s.append(
        match role {
            Role::Client => "Client",
            Role::Server => "Server",
        },
    );
    s.append("\n  sent    ");
    text::push_decimal(&mut s, stats.data_out as u128);
    s.append(" data, ");
    text::push_decimal(&mut s, stats.padding_out as u128);
    s.append(" padding");
    s.append("\n  received ");
    text::push_decimal(&mut s, stats.data_in as u128);
    s.append(" data, ");
    text::push_decimal(&mut s, stats.padding_in as u128);
    s.append(" padding");
    s.append("\n  dropped ");
    text::push_decimal(&mut s, stats.dropped as u128);
    assert(s@ =~= report_text(who@, level, role, stats));
    s
}

/// How often `e` occurs among `events`.
pub open spec fn tally(events: Seq<TriggerEvent>, e: TriggerEvent) -> nat
    decreases events.len(),
{
    if events.len() == 0 {
        0
    } else {
        tally(events.drop_last(), e) + if events.last() == e {
            1nat
        } else {
            0
        }
    }
}

proof fn lemma_tally_add(a: Seq<TriggerEvent>, b: Seq<TriggerEvent>, e: TriggerEvent)
    ensures
        tally(a + b, e) == tally(a, e) + tally(b, e),
    decreases b.len(),
{
    if b.len() == 0 {
        assert(a + b =~= a);
    } else {
        lemma_tally_add(a, b.drop_last(), e);
        assert((a + b).drop_last() =~= a + b.drop_last());
        assert((a + b).last() == b.last());
    }
}

proof fn lemma_tally_push(a: Seq<TriggerEvent>, last: TriggerEvent, e: TriggerEvent)
    ensures
        tally(a.push(last), e) == tally(a, e) + if last == e {
            1nat
        } else {
            0
        },
{
    assert(a.push(last).drop_last() =~= a);
}

proof fn lemma_tally_sent(n: nat, e: TriggerEvent)
    ensures
        tally(sent_events(n), e) == if e == TriggerEvent::TunnelSent {
            n
        } else {
            0
        },
        tally(queued_events(n), e) == if e == TriggerEvent::NormalSent {
            n
        } else {
            0
        },
    decreases n,
{
    if n > 0 {
        let m = (n - 1) as nat;
        lemma_tally_sent(m, e);
        assert(sent_events(n).drop_last() =~= sent_events(m));
        assert(queued_events(n).drop_last() =~= queued_events(m));
    }
}

/// How often `e`, which is `NormalSent` or `TunnelSent`, is reported where `n` datagrams leave
/// and nothing is queued.
spec fn departures(n: nat, e: TriggerEvent) -> nat {
    if e == TriggerEvent::TunnelSent {
        n
    } else {
        0
    }
}

proof fn lemma_tally_flush<S: Seal>(
    before: SessionState<S>,
    now: Instant,
    after: SessionState<S>,
    datagrams: Seq<Seq<u8>>,
    e: TriggerEvent,
)
    requires
        flushes_and_reports(before, now, after, datagrams, None),
    ensures
        tally(after.pending, e) == tally(before.pending, e) + departures(datagrams.len(), e),
{
    lemma_tally_add(before.pending, sent_events(datagrams.len()), e);
    lemma_tally_sent(datagrams.len(), e);
}

proof fn lemma_tally_padding<S: Seal>(
    before: SessionState<S>,
    machine: usize,
    p: Padding,
    now: Instant,
    after: SessionState<S>,
    datagrams: Seq<Seq<u8>>,
    e: TriggerEvent,
)
    requires
        padding_fires(before, machine, p, now, after, datagrams, None),
        e == TriggerEvent::NormalSent || e == TriggerEvent::TunnelSent,
    ensures
        tally(after.pending, e) == tally(before.pending, e) + departures(datagrams.len(), e),
{
    let sent = TriggerEvent::PaddingSent { machine };
    if p.replace && before.endpoint.egress.len() > 0 {
        let n = datagrams.len();
        lemma_tally_add(before.pending, sent_events(n).push(sent), e);
        lemma_tally_push(sent_events(n), sent, e);
        lemma_tally_sent(n, e);
    } else if datagrams.len() > 0 {
        let two = seq![sent, TriggerEvent::TunnelSent];
        lemma_tally_add(before.pending, two, e);
        assert(two =~= Seq::<TriggerEvent>::empty().push(sent).push(TriggerEvent::TunnelSent));
        lemma_tally_push(Seq::<TriggerEvent>::empty().push(sent), TriggerEvent::TunnelSent, e);
        lemma_tally_push(Seq::<TriggerEvent>::empty(), sent, e);
    } else {
        assert(before.pending + Seq::<TriggerEvent>::empty() =~= before.pending);
    }
}

proof fn lemma_tally_paddings<S: Seal>(
    before: SessionState<S>,
    list: Seq<(usize, Padding)>,
    now: Instant,
    after: SessionState<S>,
    datagrams: Seq<Seq<u8>>,
    e: TriggerEvent,
)
    requires
        paddings_fire(before, list, now, after, datagrams, None),
        e == TriggerEvent::NormalSent || e == TriggerEvent::TunnelSent,
    ensures
        tally(after.pending, e) == tally(before.pending, e) + departures(datagrams.len(), e),
    decreases list.len(),
{
    if list.len() > 0 {
        let (mid, first, rest) = choose|
            mid: SessionState<S>,
            first: Seq<Seq<u8>>,
            rest: Seq<Seq<u8>>,
        |
            paddings_fire(before, list.drop_last(), now, mid, first, None)
                && #[trigger] padding_fires(
                mid,
                list.last().0,
                list.last().1,
                now,
                after,
                rest,
                None,
            ) && datagrams == #[trigger] (first + rest);
        lemma_tally_paddings(before, list.drop_last(), now, mid, first, e);
        lemma_tally_padding(mid, list.last().0, list.last().1, now, after, rest, e);
    }
}

proof fn lemma_tally_blocks<S>(
    before: SessionState<S>,
    list: Seq<(usize, Block)>,
    now: Instant,
    e: TriggerEvent,
)
    requires
        e == TriggerEvent::NormalSent || e == TriggerEvent::TunnelSent,
    ensures
        tally(before.blocks_begun(list, now).pending, e) == tally(before.pending, e),
    decreases list.len(),
{
    if list.len() > 0 {
        lemma_tally_blocks(before, list.drop_last(), now, e);
        lemma_tally_push(
            before.blocks_begun(list.drop_last(), now).pending,
            TriggerEvent::BlockingBegin { machine: list.last().0 },
            e,
        );
    }
}

proof fn lemma_tally_ends(list: Seq<(usize, Instant)>, e: TriggerEvent)
    requires
        e == TriggerEvent::NormalSent || e == TriggerEvent::TunnelSent,
    ensures
        tally(
            Seq::new(list.len(), |i: int| TriggerEvent::TimerEnd { machine: list[i].0 }),
            e,
        ) == 0,
    decreases list.len(),
{
    if list.len() > 0 {
        let l = list.drop_last();
        lemma_tally_ends(l, e);
        let ends = Seq::new(list.len(), |i: int| TriggerEvent::TimerEnd { machine: list[i].0 });
        assert(ends.drop_last() =~= Seq::new(
            l.len(),
            |i: int| TriggerEvent::TimerEnd { machine: l[i].0 },
        ));
    }
}

proof fn lemma_tally_fired<S: Seal>(
    before: SessionState<S>,
    now: Instant,
    after: SessionState<S>,
    datagrams: Seq<Seq<u8>>,
    e: TriggerEvent,
)
    requires
        fires(before, now, after, datagrams, None),
        e == TriggerEvent::NormalSent || e == TriggerEvent::TunnelSent,
    ensures
        tally(after.pending, e) == tally(before.pending, e) + departures(datagrams.len(), e),
{
    let way = choose|way: Firing<S>| #[trigger]
        fires_along(before, now, way, after, datagrams, None);
    if before.blocking_active && !before.endpoint.blocked(now) {
        let told = SessionState {
            blocking_active: false,
            pending: before.pending.push(TriggerEvent::BlockingEnd),
            ..before
        };
        lemma_tally_push(before.pending, TriggerEvent::BlockingEnd, e);
        lemma_tally_flush(told, now, way.unblocked, way.released, e);
    }
    let taken = SessionState {
        timers: TimersState {
            padding: timers::remaining(way.unblocked.timers.padding, now),
            ..way.unblocked.timers
        },
        ..way.unblocked
    };
    lemma_tally_paddings(taken, way.paddings, now, way.padded, way.cover, e);
    let drained = SessionState {
        timers: TimersState {
            block: timers::remaining(way.padded.timers.block, now),
            internal: timers::remaining(way.padded.timers.internal, now),
            ..way.padded.timers
        },
        ..way.padded
    };
    lemma_tally_blocks(drained, way.blocks, now, e);
    let ends = Seq::new(
        way.internals.len(),
        |i: int| TriggerEvent::TimerEnd { machine: way.internals[i].0 },
    );
    lemma_tally_ends(way.internals, e);
    lemma_tally_add(drained.blocks_begun(way.blocks, now).pending, ends, e);
}

/// When the timers fire without a failure, the machines are told `TunnelSent` exactly once for
/// each datagram that leaves, and `NormalSent` not at all: what is released then was reported
/// when it was queued.
pub proof fn law_fired_datagrams_are_reported<S: Seal>(
    before: SessionState<S>,
    now: Instant,
    after: SessionState<S>,
    datagrams: Seq<Seq<u8>>,
)
    requires
        fires(before, now, after, datagrams, None),
    ensures
        tally(after.pending, TriggerEvent::TunnelSent) == tally(
            before.pending,
            TriggerEvent::TunnelSent,
        ) + datagrams.len(),
        tally(after.pending, TriggerEvent::NormalSent) == tally(
            before.pending,
            TriggerEvent::NormalSent,
        ),
{
    lemma_tally_fired(before, now, after, datagrams, TriggerEvent::TunnelSent);
    lemma_tally_fired(before, now, after, datagrams, TriggerEvent::NormalSent);
}

/// When traffic is originated without a failure, the machines are told `NormalSent` exactly once
/// for each packet, held or not, and `TunnelSent` exactly once for each datagram that leaves.
pub proof fn law_originated_datagrams_are_reported<S: Seal>(
    before: SessionState<S>,
    packets: Seq<Seq<u8>>,
    now: Instant,
    after: SessionState<S>,
    datagrams: Seq<Seq<u8>>,
)
    requires
        originates(before, packets, now, after, datagrams, None),
    ensures
        tally(after.pending, TriggerEvent::NormalSent) == tally(
            before.pending,
            TriggerEvent::NormalSent,
        ) + packets.len(),
        tally(after.pending, TriggerEvent::TunnelSent) == tally(
            before.pending,
            TriggerEvent::TunnelSent,
        ) + datagrams.len(),
{
    let (normal, tunnel) = (TriggerEvent::NormalSent, TriggerEvent::TunnelSent);
    let queued = before.queued(packets);
    lemma_tally_add(before.pending, queued_events(packets.len()), normal);
    lemma_tally_add(before.pending, queued_events(packets.len()), tunnel);
    lemma_tally_sent(packets.len(), normal);
    lemma_tally_sent(packets.len(), tunnel);
    lemma_tally_flush(queued, now, after, datagrams, normal);
    lemma_tally_flush(queued, now, after, datagrams, tunnel);
}

/// The events of a batch, and none where there is no batch.
pub open spec fn batch_of(events: Option<Seq<TriggerEvent>>) -> Seq<TriggerEvent> {
    match events {
        Some(events) => events,
        None => Seq::empty(),
    }
}

/// A turn of the loop that succeeds leaves nothing unreported. Its batch tells the machines, over
/// and above what was pending, `NormalSent` exactly once for each packet that was originated and
/// `TunnelSent` exactly once for each datagram that left.
pub proof fn law_turn_reports_everything<S: Seal>(
    before: SessionState<S>,
    packets: Seq<Seq<u8>>,
    now: Instant,
    after: SessionState<S>,
    datagrams: Seq<Seq<u8>>,
    events: Option<Seq<TriggerEvent>>,
)
    requires
        turns(before, packets, now, after, datagrams, Ok(events)),
    ensures
        after.pending.len() == 0,
        tally(batch_of(events), TriggerEvent::NormalSent) == tally(
            before.pending,
            TriggerEvent::NormalSent,
        ) + packets.len(),
        tally(batch_of(events), TriggerEvent::TunnelSent) == tally(
            before.pending,
            TriggerEvent::TunnelSent,
        ) + datagrams.len(),
{
    let way = choose|way: Turn<S>| #[trigger]
        turns_along(before, packets, now, way, after, datagrams, Ok(events));
    law_fired_datagrams_are_reported(before, now, way.fired, way.first);
    law_originated_datagrams_are_reported(way.fired, packets, now, way.originated, way.rest);
    assert(batch_of(events) =~= way.originated.pending);
}

/// Whether `after` reports everything that `before` reports, and more.
spec fn reports_on<S>(before: SessionState<S>, after: SessionState<S>) -> bool {
    transport::extends(before.pending, after.pending)
}

proof fn lemma_paddings_keep_timers<S: Seal>(
    before: SessionState<S>,
    list: Seq<(usize, Padding)>,
    now: Instant,
    after: SessionState<S>,
    datagrams: Seq<Seq<u8>>,
    error: Option<TransportError>,
)
    requires
        paddings_fire(before, list, now, after, datagrams, error),
    ensures
        after.timers == before.timers,
        after.blocking_active == before.blocking_active,
    decreases list.len(),
{
    if list.len() > 0 {
        if error is Some && paddings_fire(before, list.drop_last(), now, after, datagrams, error) {
            lemma_paddings_keep_timers(before, list.drop_last(), now, after, datagrams, error);
        } else {
            let (mid, first, rest) = choose|
                mid: SessionState<S>,
                first: Seq<Seq<u8>>,
                rest: Seq<Seq<u8>>,
            |
                paddings_fire(before, list.drop_last(), now, mid, first, None)
                    && #[trigger] padding_fires(
                    mid,
                    list.last().0,
                    list.last().1,
                    now,
                    after,
                    rest,
                    error,
                ) && datagrams == #[trigger] (first + rest);
            lemma_paddings_keep_timers(before, list.drop_last(), now, mid, first, None);
        }
    }
}

proof fn lemma_blocks_reported<S>(before: SessionState<S>, list: Seq<(usize, Block)>, now: Instant)
    ensures
        before.blocks_begun(list, now).timers == before.timers,
        reports_on(before, before.blocks_begun(list, now)),
        list.len() > 0 ==> before.blocks_begun(list, now).blocking_active,
        forall|i: int|
            0 <= i < list.len() ==> before.blocks_begun(list, now).pending.contains(
                TriggerEvent::BlockingBegin { machine: (#[trigger] list[i]).0 },
            ),
    decreases list.len(),
{
    if list.len() > 0 {
        let l = list.drop_last();
        let mid = before.blocks_begun(l, now);
        let end = before.blocks_begun(list, now);
        lemma_blocks_reported(before, l, now);
        let begin = TriggerEvent::BlockingBegin { machine: list.last().0 };
        assert(end.pending == mid.pending.push(begin));
        assert(end.pending.take(before.pending.len() as int) =~= mid.pending.take(
            before.pending.len() as int,
        ));
        assert(end.pending[mid.pending.len() as int] == begin);
        assert forall|i: int| 0 <= i < list.len() implies end.pending.contains(
            TriggerEvent::BlockingBegin { machine: (#[trigger] list[i]).0 },
        ) by {
            if i < l.len() {
                let e = TriggerEvent::BlockingBegin { machine: l[i].0 };
                assert(mid.pending.contains(e));
                let k = choose|k: int| 0 <= k < mid.pending.len() && mid.pending[k] == e;
                assert(end.pending[k] == e);
            }
        }
    }
}

/// When the timers fire without a failure, no timer that was due is left, and every timer that
/// was not due still is. A block that was due is reported to its machine as begun, and an internal
/// timer that was due as ended.
pub proof fn law_due_timers_are_dealt_with<S: Seal>(
    before: SessionState<S>,
    now: Instant,
    after: SessionState<S>,
    datagrams: Seq<Seq<u8>>,
    machine: usize,
)
    requires
        fires(before, now, after, datagrams, None),
    ensures
        after.timers == (TimersState {
            padding: timers::remaining(before.timers.padding, now),
            block: timers::remaining(before.timers.block, now),
            internal: timers::remaining(before.timers.internal, now),
        }),
        before.timers.block.contains_key(machine) && before.timers.block[machine].at.nanos
            <= now.nanos ==> after.blocking_active && after.pending.contains(
            TriggerEvent::BlockingBegin { machine },
        ),
        before.timers.internal.contains_key(machine) && before.timers.internal[machine].nanos
            <= now.nanos ==> after.pending.contains(TriggerEvent::TimerEnd { machine }),
{
    let way = choose|way: Firing<S>| #[trigger]
        fires_along(before, now, way, after, datagrams, None);
    let taken = SessionState {
        timers: TimersState {
            padding: timers::remaining(way.unblocked.timers.padding, now),
            ..way.unblocked.timers
        },
        ..way.unblocked
    };
    lemma_paddings_keep_timers(taken, way.paddings, now, way.padded, way.cover, None);
    let drained = SessionState {
        timers: TimersState {
            block: timers::remaining(way.padded.timers.block, now),
            internal: timers::remaining(way.padded.timers.internal, now),
            ..way.padded.timers
        },
        ..way.padded
    };
    lemma_blocks_reported(drained, way.blocks, now);
    let begun = drained.blocks_begun(way.blocks, now);
    if before.timers.block.contains_key(machine) && before.timers.block[machine].at.nanos
        <= now.nanos {
        let e = TriggerEvent::BlockingBegin { machine };
        let m = way.padded.timers.block;
        assert(m.contains_key(machine) && timers::Due::due_at(m[machine]).nanos <= now.nanos);
        let i = choose|i: int|
            0 <= i < way.blocks.len() && (#[trigger] way.blocks[i]).0 == machine;
        assert(begun.pending.contains(e));
        let k = choose|k: int| 0 <= k < begun.pending.len() && begun.pending[k] == e;
        assert(after.pending[k] == e);
    }
    if before.timers.internal.contains_key(machine) && before.timers.internal[machine].nanos
        <= now.nanos {
        let m = way.padded.timers.internal;
        assert(m.contains_key(machine) && timers::Due::due_at(m[machine]).nanos <= now.nanos);
        let i = choose|i: int|
            0 <= i < way.internals.len() && (#[trigger] way.internals[i]).0 == machine;
        assert(after.pending[begun.pending.len() + i] == (TriggerEvent::TimerEnd { machine }));
    }
}

/// A machine's internal timer is reported when it is armed, and is due after the span that the
/// machine asked for.
pub proof fn law_armed_timer_is_reported<S>(
    before: SessionState<S>,
    machine: usize,
    duration: Duration,
    replace: bool,
    now: Instant,
)
    ensures
        ({
            let after = before.scheduled(
                Action::UpdateTimer { machine, duration, replace },
                now,
            );
            &&& after.pending == before.pending.push(TriggerEvent::TimerBegin { machine })
            &&& after.timers.internal.contains_key(machine)
            &&& after.timers.internal[machine] == now.spec_after(duration)
        }),
{
}

/// A padding timer that is honoured is reported to its machine as `PaddingSent`, also where a
/// real packet that was queued already stood in for the padding.
pub proof fn law_honoured_padding_is_reported<S: Seal>(
    before: SessionState<S>,
    machine: usize,
    p: Padding,
    now: Instant,
    after: SessionState<S>,
    datagrams: Seq<Seq<u8>>,
)
    requires
        padding_fires(before, machine, p, now, after, datagrams, None),
        datagrams.len() > 0 || (p.replace && before.endpoint.egress.len() > 0),
    ensures
        after.pending.contains(TriggerEvent::PaddingSent { machine }),
{
    let sent = TriggerEvent::PaddingSent { machine };
    if p.replace && before.endpoint.egress.len() > 0 {
        assert(after.pending.last() == sent);
    } else {
        assert(after.pending[before.pending.len() as int] == sent);
    }
}

/// A block that begins is reported to its machine, and from then on the session knows that a
/// block is on and outgoing traffic is held for at least as long as was asked for.
pub proof fn law_begun_block_is_reported_and_holds<S>(
    before: SessionState<S>,
    machine: usize,
    b: Block,
    now: Instant,
    at: Instant,
)
    requires
        now.can_advance(b.duration),
        at.nanos < now.nanos + b.duration.nanos,
    ensures
        before.block_begun(machine, b, now).blocking_active,
        before.block_begun(machine, b, now).pending.last() == (TriggerEvent::BlockingBegin {
            machine,
        }),
        before.block_begun(machine, b, now).endpoint.blocked(at),
{
}

/// A block that has run its course is reported as over, once, before anything that was held
/// leaves.
pub proof fn law_ended_block_is_reported_first<S: Seal>(
    before: SessionState<S>,
    now: Instant,
    after: SessionState<S>,
    datagrams: Seq<Seq<u8>>,
    error: Option<TransportError>,
)
    requires
        block_ends(before, now, after, datagrams, error),
        before.blocking_active,
        !before.endpoint.blocked(now),
    ensures
        !after.blocking_active,
        after.pending[before.pending.len() as int] == TriggerEvent::BlockingEnd,
        after.pending.take(before.pending.len() as int) == before.pending,
{
    assert(after.pending.take(before.pending.len() as int) =~= before.pending);
}

/// Whether a machine has the same timers in `a` and in `b`.
pub open spec fn same_timers(a: TimersState, b: TimersState, machine: usize) -> bool {
    &&& a.padding.contains_key(machine) == b.padding.contains_key(machine)
    &&& a.padding.contains_key(machine) ==> a.padding[machine] == b.padding[machine]
    &&& a.block.contains_key(machine) == b.block.contains_key(machine)
    &&& a.block.contains_key(machine) ==> a.block[machine] == b.block[machine]
    &&& a.internal.contains_key(machine) == b.internal.contains_key(machine)
    &&& a.internal.contains_key(machine) ==> a.internal[machine] == b.internal[machine]
}

/// Cancelling takes away what it names and nothing else: the pending action, of either kind, the
/// internal timer, or both; and only those of the machine that it names.
pub proof fn law_cancel_takes_what_it_names<S>(
    before: SessionState<S>,
    machine: usize,
    timer: Timer,
    now: Instant,
    other: usize,
)
    ensures
        ({
            let after = before.scheduled(Action::Cancel { machine, timer }, now);
            &&& timer == Timer::Action || timer == Timer::All ==> {
                &&& !after.timers.padding.contains_key(machine)
                &&& !after.timers.block.contains_key(machine)
            }
            &&& timer == Timer::Internal || timer == Timer::All
                ==> !after.timers.internal.contains_key(machine)
            &&& timer == Timer::Action ==> after.timers.internal == before.timers.internal
            &&& timer == Timer::Internal ==> after.timers.padding == before.timers.padding
                && after.timers.block == before.timers.block
            &&& other != machine ==> same_timers(before.timers, after.timers, other)
            &&& after.endpoint == before.endpoint
            &&& after.pending == before.pending
            &&& after.blocking_active == before.blocking_active
        }),
{
}

/// Padding that a machine asks for is its one pending action from then on, due after the span that
/// it asked for, with the flags that it asked for. Nothing else changes.
pub proof fn law_asked_padding_is_pending<S>(
    before: SessionState<S>,
    machine: usize,
    timeout: Duration,
    replace: bool,
    bypass: bool,
    now: Instant,
    other: usize,
)
    requires
        now.can_advance(timeout),
    ensures
        ({
            let after = before.scheduled(
                Action::SendPadding { machine, timeout, replace, bypass },
                now,
            );
            &&& after.timers.padding.contains_key(machine)
            &&& after.timers.padding[machine].at.nanos == now.nanos + timeout.nanos
            &&& after.timers.padding[machine].bypass == bypass
            &&& after.timers.padding[machine].replace == replace
            &&& !after.timers.block.contains_key(machine)
            &&& after.timers.internal == before.timers.internal
            &&& other != machine ==> same_timers(before.timers, after.timers, other)
            &&& after.endpoint == before.endpoint
            &&& after.pending == before.pending
            &&& after.blocking_active == before.blocking_active
        }),
{
}

/// A block that a machine asks for is its one pending action from then on, due after the span that
/// it asked for, with the duration and the flag that it asked for. Nothing else changes.
pub proof fn law_asked_block_is_pending<S>(
    before: SessionState<S>,
    machine: usize,
    timeout: Duration,
    duration: Duration,
    replace: bool,
    bypass: bool,
    now: Instant,
    other: usize,
)
    requires
        now.can_advance(timeout),
    ensures
        ({
            let after = before.scheduled(
                Action::BlockOutgoing { machine, timeout, duration, replace, bypass },
                now,
            );
            &&& after.timers.block.contains_key(machine)
            &&& after.timers.block[machine].at.nanos == now.nanos + timeout.nanos
            &&& after.timers.block[machine].duration == duration
            &&& after.timers.block[machine].bypass == bypass
            &&& !after.timers.padding.contains_key(machine)
            &&& after.timers.internal == before.timers.internal
            &&& other != machine ==> same_timers(before.timers, after.timers, other)
            &&& after.endpoint == before.endpoint
            &&& after.pending == before.pending
            &&& after.blocking_active == before.blocking_active
        }),
{
}

/// An internal timer that a machine asks for runs out after the span that it asked for, and the
/// machine is told that it is armed. Its pending action stays, and nothing else changes.
pub proof fn law_asked_timer_is_armed<S>(
    before: SessionState<S>,
    machine: usize,
    duration: Duration,
    replace: bool,
    now: Instant,
    other: usize,
)
    requires
        now.can_advance(duration),
    ensures
        ({
            let after = before.scheduled(Action::UpdateTimer { machine, duration, replace }, now);
            &&& after.timers.internal.contains_key(machine)
            &&& after.timers.internal[machine].nanos == now.nanos + duration.nanos
            &&& after.timers.padding == before.timers.padding
            &&& after.timers.block == before.timers.block
            &&& other != machine ==> same_timers(before.timers, after.timers, other)
            &&& after.pending.len() == before.pending.len() + 1
            &&& after.pending.drop_last() == before.pending
            &&& after.pending.last() == (TriggerEvent::TimerBegin { machine })
            &&& after.endpoint == before.endpoint
            &&& after.blocking_active == before.blocking_active
        }),
{
    let after = before.scheduled(Action::UpdateTimer { machine, duration, replace }, now);
    assert(after.pending.drop_last() =~= before.pending);
}

/// The machine that an action is for.
pub open spec fn machine_of(action: Action) -> usize {
    match action {
        Action::Cancel { machine, .. } => machine,
        Action::SendPadding { machine, .. } => machine,
        Action::BlockOutgoing { machine, .. } => machine,
        Action::UpdateTimer { machine, .. } => machine,
    }
}

/// A batch of actions leaves the timers of every machine alone that none of them is for, and it
/// sends nothing.
pub proof fn law_actions_touch_only_their_machines<S>(
    before: SessionState<S>,
    list: Seq<Action>,
    now: Instant,
    machine: usize,
)
    requires
        forall|i: int| 0 <= i < list.len() ==> machine_of(#[trigger] list[i]) != machine,
    ensures
        same_timers(before.timers, before.all_scheduled(list, now).timers, machine),
        before.all_scheduled(list, now).endpoint == before.endpoint,
        before.all_scheduled(list, now).blocking_active == before.blocking_active,
    decreases list.len(),
{
    if list.len() > 0 {
        let rest = list.drop_last();
        assert forall|i: int| 0 <= i < rest.len() implies machine_of(#[trigger] rest[i])
            != machine by {
            assert(rest[i] == list[i]);
        }
        law_actions_touch_only_their_machines(before, rest, now, machine);
        assert(machine_of(list[list.len() - 1]) != machine);
    }
}

/// Of the actions in a batch that are for one machine, the last has the last word: what it asks for
/// is what the machine has pending once the batch has been dealt with.
pub proof fn law_last_action_of_a_machine_counts<S>(
    before: SessionState<S>,
    list: Seq<Action>,
    now: Instant,
    i: int,
)
    requires
        0 <= i < list.len(),
        forall|j: int| i < j < list.len() ==> machine_of(#[trigger] list[j]) != machine_of(list[i]),
        forall|j: int| 0 <= j < list.len() ==> spans_fit(#[trigger] list[j]),
        now.nanos < CLOCK_LIMIT,
    ensures
        ({
            let after = before.all_scheduled(list, now).timers;
            let m = machine_of(list[i]);
            match list[i] {
                Action::SendPadding { timeout, replace, bypass, .. } => {
                    &&& after.padding.contains_key(m)
                    &&& after.padding[m].at.nanos == now.nanos + timeout.nanos
                    &&& after.padding[m].bypass == bypass
                    &&& after.padding[m].replace == replace
                    &&& !after.block.contains_key(m)
                },
                Action::BlockOutgoing { timeout, duration, bypass, .. } => {
                    &&& after.block.contains_key(m)
                    &&& after.block[m].at.nanos == now.nanos + timeout.nanos
                    &&& after.block[m].duration == duration
                    &&& after.block[m].bypass == bypass
                    &&& !after.padding.contains_key(m)
                },
                Action::UpdateTimer { duration, .. } => {
                    &&& after.internal.contains_key(m)
                    &&& after.internal[m].nanos == now.nanos + duration.nanos
                },
                Action::Cancel { timer, .. } => {
                    &&& timer != Timer::Internal ==> !after.padding.contains_key(m)
                        && !after.block.contains_key(m)
                    &&& timer != Timer::Action ==> !after.internal.contains_key(m)
                },
            }
        }),
    decreases list.len(),
{
    let rest = list.drop_last();
    let n = list.len() - 1;
    assert(spans_fit(list[i]));
    if i < n {
        assert(machine_of(list[n]) != machine_of(list[i]));
        assert forall|j: int| i < j < rest.len() implies machine_of(#[trigger] rest[j])
            != machine_of(rest[i]) by {
            assert(rest[j] == list[j]);
        }
        assert forall|j: int| 0 <= j < rest.len() implies spans_fit(#[trigger] rest[j]) by {
            assert(rest[j] == list[j]);
        }
        law_last_action_of_a_machine_counts(before, rest, now, i);
    }
}

/// Whether a block holds cover traffic back at `now`: it has not ended, and it is not both
/// bypassable and met by cover traffic that is marked to bypass.
pub open spec fn holds_back<S>(e: EndpointState<S>, now: Instant, bypass: bool) -> bool {
    &&& e.blocked_until matches Some(t) && now.nanos < t.nanos
    &&& !(bypass && e.block_bypassable)
}

/// Whether the padding of machine `m` goes out at `now`: it is due, and no block holds it back.
pub open spec fn goes_out<S>(before: SessionState<S>, now: Instant, m: usize) -> bool {
    &&& before.timers.padding.contains_key(m)
    &&& before.timers.padding[m].at.nanos <= now.nanos
    &&& !holds_back(before.endpoint, now, before.timers.padding[m].bypass)
}

/// Whether the entry of machine `m` in `list` goes out.
spec fn listed<S>(
    list: Seq<(usize, Padding)>,
    e: EndpointState<S>,
    now: Instant,
    m: usize,
) -> bool {
    exists|i: int|
        0 <= i < list.len() && (#[trigger] list[i]).0 == m && !holds_back(e, now, list[i].1.bypass)
}

/// The machines whose entries in `list` go out.
spec fn outgoing<S>(list: Seq<(usize, Padding)>, e: EndpointState<S>, now: Instant) -> Set<usize>
    decreases list.len(),
{
    if list.len() == 0 {
        Set::empty()
    } else {
        let rest = outgoing(list.drop_last(), e, now);
        if holds_back(e, now, list.last().1.bypass) {
            rest
        } else {
            rest.insert(list.last().0)
        }
    }
}

proof fn lemma_outgoing<S>(list: Seq<(usize, Padding)>, e: EndpointState<S>, now: Instant)
    requires
        forall|i: int, j: int|
            0 <= i < j < list.len() ==> (#[trigger] list[i]).0 != (#[trigger] list[j]).0,
    ensures
        outgoing(list, e, now).finite(),
        forall|m: usize| #[trigger] outgoing(list, e, now).contains(m) <==> listed(list, e, now, m),
    decreases list.len(),
{
    if list.len() > 0 {
        let rest = list.drop_last();
        let n = list.len() - 1;
        assert forall|i: int, j: int| 0 <= i < j < rest.len() implies (#[trigger] rest[i]).0 != (
        #[trigger] rest[j]).0 by {
            assert(rest[i] == list[i] && rest[j] == list[j]);
        }
        lemma_outgoing(rest, e, now);
        assert forall|m: usize| #[trigger] outgoing(list, e, now).contains(m) <==> listed(
            list,
            e,
            now,
            m,
        ) by {
            if listed(rest, e, now, m) {
                let i = choose|i: int|
                    0 <= i < rest.len() && (#[trigger] rest[i]).0 == m && !holds_back(
                        e,
                        now,
                        rest[i].1.bypass,
                    );
                assert(list[i] == rest[i]);
            }
            if listed(list, e, now, m) {
                let i = choose|i: int|
                    0 <= i < list.len() && (#[trigger] list[i]).0 == m && !holds_back(
                        e,
                        now,
                        list[i].1.bypass,
                    );
                if i < n {
                    assert(rest[i] == list[i]);
                }
            }
            if m == list[n].0 && !holds_back(e, now, list[n].1.bypass) {
                assert(listed(list, e, now, m));
            }
        }
    }
}

/// Where nothing is queued, each padding timer that fires sends one datagram, and is reported to
/// its machine once, unless a block holds it back.
proof fn lemma_paddings_go_out<S: Seal>(
    before: SessionState<S>,
    list: Seq<(usize, Padding)>,
    now: Instant,
    after: SessionState<S>,
    datagrams: Seq<Seq<u8>>,
    m: usize,
)
    requires
        paddings_fire(before, list, now, after, datagrams, None),
        before.endpoint.egress.len() == 0,
        forall|i: int, j: int|
            0 <= i < j < list.len() ==> (#[trigger] list[i]).0 != (#[trigger] list[j]).0,
    ensures
        after.endpoint.egress.len() == 0,
        after.endpoint.blocked_until == before.endpoint.blocked_until,
        after.endpoint.block_bypassable == before.endpoint.block_bypassable,
        datagrams.len() == outgoing(list, before.endpoint, now).len(),
        tally(after.pending, TriggerEvent::PaddingSent { machine: m }) == tally(
            before.pending,
            TriggerEvent::PaddingSent { machine: m },
        ) + if outgoing(list, before.endpoint, now).contains(m) {
            1nat
        } else {
            0
        },
    decreases list.len(),
{
    if list.len() > 0 {
        let rest_list = list.drop_last();
        let (mid, first, rest) = choose|
            mid: SessionState<S>,
            first: Seq<Seq<u8>>,
            rest: Seq<Seq<u8>>,
        |
            paddings_fire(before, rest_list, now, mid, first, None) && #[trigger] padding_fires(
                mid,
                list.last().0,
                list.last().1,
                now,
                after,
                rest,
                None,
            ) && datagrams == #[trigger] (first + rest);
        assert forall|i: int, j: int| 0 <= i < j < rest_list.len() implies (
        #[trigger] rest_list[i]).0 != (#[trigger] rest_list[j]).0 by {
            assert(rest_list[i] == list[i] && rest_list[j] == list[j]);
        }
        lemma_paddings_go_out(before, rest_list, now, mid, first, m);
        lemma_outgoing(rest_list, before.endpoint, now);
        let machine = list.last().0;
        let p = list.last().1;
        let e = TriggerEvent::PaddingSent { machine: m };
        assert(!outgoing(rest_list, before.endpoint, now).contains(machine)) by {
            if listed(rest_list, before.endpoint, now, machine) {
                let i = choose|i: int|
                    0 <= i < rest_list.len() && (#[trigger] rest_list[i]).0 == machine
                        && !holds_back(before.endpoint, now, rest_list[i].1.bypass);
                assert(list[i].0 == list[list.len() - 1].0);
            }
        }
        if holds_back(before.endpoint, now, p.bypass) {
            assert(rest.len() == 0);
            assert(after.pending =~= mid.pending);
        } else {
            assert(rest.len() == 1);
            let two = seq![TriggerEvent::PaddingSent { machine }, TriggerEvent::TunnelSent];
            lemma_tally_add(mid.pending, two, e);
            let none = Seq::<TriggerEvent>::empty();
            assert(two =~= none.push(TriggerEvent::PaddingSent { machine }).push(
                TriggerEvent::TunnelSent,
            ));
            lemma_tally_push(
                none.push(TriggerEvent::PaddingSent { machine }),
                TriggerEvent::TunnelSent,
                e,
            );
            lemma_tally_push(none, TriggerEvent::PaddingSent { machine }, e);
        }
    }
}

proof fn lemma_begun_tally<S>(
    before: SessionState<S>,
    list: Seq<(usize, Block)>,
    now: Instant,
    e: TriggerEvent,
)
    requires
        forall|i: int, j: int|
            0 <= i < j < list.len() ==> (#[trigger] list[i]).0 != (#[trigger] list[j]).0,
    ensures
        tally(before.blocks_begun(list, now).pending, e) == tally(before.pending, e) + if (exists|
            i: int,
        |
            0 <= i < list.len() && e == (TriggerEvent::BlockingBegin {
                machine: (#[trigger] list[i]).0,
            })) {
            1nat
        } else {
            0
        },
    decreases list.len(),
{
    if list.len() > 0 {
        let rest = list.drop_last();
        let n = list.len() - 1;
        assert forall|i: int, j: int| 0 <= i < j < rest.len() implies (#[trigger] rest[i]).0 != (
        #[trigger] rest[j]).0 by {
            assert(rest[i] == list[i] && rest[j] == list[j]);
        }
        lemma_begun_tally(before, rest, now, e);
        let begin = TriggerEvent::BlockingBegin { machine: list.last().0 };
        lemma_tally_push(before.blocks_begun(rest, now).pending, begin, e);
        let in_rest = exists|i: int|
            0 <= i < rest.len() && e == (TriggerEvent::BlockingBegin {
                machine: (#[trigger] rest[i]).0,
            });
        if in_rest {
            let i = choose|i: int|
                0 <= i < rest.len() && e == (TriggerEvent::BlockingBegin {
                    machine: (#[trigger] rest[i]).0,
                });
            assert(list[i] == rest[i]);
            assert(list[i].0 != list[n].0);
        }
        if exists|i: int|
            0 <= i < list.len() && e == (TriggerEvent::BlockingBegin {
                machine: (#[trigger] list[i]).0,
            }) {
            let i = choose|i: int|
                0 <= i < list.len() && e == (TriggerEvent::BlockingBegin {
                    machine: (#[trigger] list[i]).0,
                });
            if i < n {
                assert(rest[i] == list[i]);
            }
        }
        if e == begin {
            assert(list[n].0 == list.last().0);
        }
    }
}

proof fn lemma_ended_tally(list: Seq<(usize, Instant)>, e: TriggerEvent)
    requires
        forall|i: int, j: int|
            0 <= i < j < list.len() ==> (#[trigger] list[i]).0 != (#[trigger] list[j]).0,
    ensures
        tally(
            Seq::new(list.len(), |i: int| TriggerEvent::TimerEnd { machine: list[i].0 }),
            e,
        ) == if (exists|i: int|
            0 <= i < list.len() && e == (TriggerEvent::TimerEnd {
                machine: (#[trigger] list[i]).0,
            })) {
            1nat
        } else {
            0
        },
    decreases list.len(),
{
    let ends = Seq::new(list.len(), |i: int| TriggerEvent::TimerEnd { machine: list[i].0 });
    if list.len() > 0 {
        let rest = list.drop_last();
        let n = list.len() - 1;
        assert forall|i: int, j: int| 0 <= i < j < rest.len() implies (#[trigger] rest[i]).0 != (
        #[trigger] rest[j]).0 by {
            assert(rest[i] == list[i] && rest[j] == list[j]);
        }
        lemma_ended_tally(rest, e);
        assert(ends.drop_last() =~= Seq::new(
            rest.len(),
            |i: int| TriggerEvent::TimerEnd { machine: rest[i].0 },
        ));
        if exists|i: int|
            0 <= i < rest.len() && e == (TriggerEvent::TimerEnd {
                machine: (#[trigger] rest[i]).0,
            }) {
            let i = choose|i: int|
                0 <= i < rest.len() && e == (TriggerEvent::TimerEnd {
                    machine: (#[trigger] rest[i]).0,
                });
            assert(list[i] == rest[i]);
            assert(list[i].0 != list[n].0);
        }
        if exists|i: int|
            0 <= i < list.len() && e == (TriggerEvent::TimerEnd {
                machine: (#[trigger] list[i]).0,
            }) {
            let i = choose|i: int|
                0 <= i < list.len() && e == (TriggerEvent::TimerEnd {
                    machine: (#[trigger] list[i]).0,
                });
            if i < n {
                assert(rest[i] == list[i]);
            }
        }
        if e == ends.last() {
            assert(list[n].0 == list.last().0);
        }
    }
}

/// What the padding timers report is that something was sent.
proof fn lemma_paddings_report_only_sending<S: Seal>(
    before: SessionState<S>,
    list: Seq<(usize, Padding)>,
    now: Instant,
    after: SessionState<S>,
    datagrams: Seq<Seq<u8>>,
    e: TriggerEvent,
)
    requires
        paddings_fire(before, list, now, after, datagrams, None),
        !(e is TunnelSent) && !(e is PaddingSent),
    ensures
        tally(after.pending, e) == tally(before.pending, e),
        after.blocking_active == before.blocking_active,
    decreases list.len(),
{
    if list.len() > 0 {
        let (mid, first, rest) = choose|
            mid: SessionState<S>,
            first: Seq<Seq<u8>>,
            rest: Seq<Seq<u8>>,
        |
            paddings_fire(before, list.drop_last(), now, mid, first, None)
                && #[trigger] padding_fires(
                mid,
                list.last().0,
                list.last().1,
                now,
                after,
                rest,
                None,
            ) && datagrams == #[trigger] (first + rest);
        lemma_paddings_report_only_sending(before, list.drop_last(), now, mid, first, e);
        let p = list.last().1;
        let sent = TriggerEvent::PaddingSent { machine: list.last().0 };
        if p.replace && mid.endpoint.egress.len() > 0 {
            let n = rest.len();
            lemma_tally_add(mid.pending, sent_events(n).push(sent), e);
            lemma_tally_push(sent_events(n), sent, e);
            lemma_tally_sent(n, e);
        } else if rest.len() > 0 {
            let two = seq![sent, TriggerEvent::TunnelSent];
            let none = Seq::<TriggerEvent>::empty();
            lemma_tally_add(mid.pending, two, e);
            assert(two =~= none.push(sent).push(TriggerEvent::TunnelSent));
            lemma_tally_push(none.push(sent), TriggerEvent::TunnelSent, e);
            lemma_tally_push(none, sent, e);
        } else {
            assert(mid.pending + Seq::<TriggerEvent>::empty() =~= mid.pending);
        }
    }
}

/// What a firing of the timers tells the machines, event by event and exactly: a block once as
/// begun where it was due, an internal timer once as ended where it was due, the end of blocking
/// once where a block that the machines know of has run out, and no event of any other kind but
/// that something was sent.
pub proof fn law_fired_events_are_exact<S: Seal>(
    before: SessionState<S>,
    now: Instant,
    after: SessionState<S>,
    datagrams: Seq<Seq<u8>>,
    e: TriggerEvent,
)
    requires
        fires(before, now, after, datagrams, None),
        !(e is TunnelSent) && !(e is PaddingSent),
    ensures
        tally(after.pending, e) == tally(before.pending, e) + match e {
            TriggerEvent::BlockingBegin { machine } => if before.timers.block.contains_key(machine)
                && before.timers.block[machine].at.nanos <= now.nanos {
                1nat
            } else {
                0
            },
            TriggerEvent::TimerEnd { machine } => if before.timers.internal.contains_key(machine)
                && before.timers.internal[machine].nanos <= now.nanos {
                1
            } else {
                0
            },
            TriggerEvent::BlockingEnd => if before.blocking_active
                && !(before.endpoint.blocked_until matches Some(t) && now.nanos < t.nanos) {
                1
            } else {
                0
            },
            _ => 0,
        },
        after.blocking_active <==> {
            ||| before.blocking_active && (before.endpoint.blocked_until matches Some(t)
                && now.nanos < t.nanos)
            ||| exists|m: usize| #[trigger]
                before.timers.block.contains_key(m) && before.timers.block[m].at.nanos <= now.nanos
        },
{
    let way = choose|way: Firing<S>| #[trigger]
        fires_along(before, now, way, after, datagrams, None);
    let ended = before.blocking_active && !before.endpoint.blocked(now);
    if ended {
        let told = SessionState {
            blocking_active: false,
            pending: before.pending.push(TriggerEvent::BlockingEnd),
            ..before
        };
        lemma_tally_push(before.pending, TriggerEvent::BlockingEnd, e);
        lemma_tally_flush(told, now, way.unblocked, way.released, e);
    }
    let taken = SessionState {
        timers: TimersState {
            padding: timers::remaining(way.unblocked.timers.padding, now),
            ..way.unblocked.timers
        },
        ..way.unblocked
    };
    lemma_paddings_report_only_sending(taken, way.paddings, now, way.padded, way.cover, e);
    lemma_paddings_keep_timers(taken, way.paddings, now, way.padded, way.cover, None);
    let drained = SessionState {
        timers: TimersState {
            block: timers::remaining(way.padded.timers.block, now),
            internal: timers::remaining(way.padded.timers.internal, now),
            ..way.padded.timers
        },
        ..way.padded
    };
    lemma_begun_tally(drained, way.blocks, now, e);
    lemma_blocks_reported(drained, way.blocks, now);
    lemma_ended_tally(way.internals, e);
    let ends = Seq::new(
        way.internals.len(),
        |i: int| TriggerEvent::TimerEnd { machine: way.internals[i].0 },
    );
    lemma_tally_add(drained.blocks_begun(way.blocks, now).pending, ends, e);
    let blocks = before.timers.block;
    let internals = before.timers.internal;
    assert(way.padded.timers.block == blocks);
    assert(way.padded.timers.internal == internals);
    assert forall|m: usize|
        (exists|i: int| 0 <= i < way.blocks.len() && (#[trigger] way.blocks[i]).0 == m) <==> (
        #[trigger] blocks.contains_key(m) && blocks[m].at.nanos <= now.nanos) by {
        if blocks.contains_key(m) && blocks[m].at.nanos <= now.nanos {
            assert(timers::Due::due_at(blocks[m]).nanos <= now.nanos);
        }
    }
    assert forall|m: usize|
        (exists|i: int| 0 <= i < way.internals.len() && (#[trigger] way.internals[i]).0 == m) <==> (
        #[trigger] internals.contains_key(m) && internals[m].nanos <= now.nanos) by {
        if internals.contains_key(m) && internals[m].nanos <= now.nanos {
            assert(timers::Due::due_at(internals[m]).nanos <= now.nanos);
        }
    }
    if e is BlockingBegin {
        let m = e->BlockingBegin_machine;
        let seen = exists|i: int|
            0 <= i < way.blocks.len() && e == (TriggerEvent::BlockingBegin {
                machine: (#[trigger] way.blocks[i]).0,
            });
        if blocks.contains_key(m) && blocks[m].at.nanos <= now.nanos {
            let i = choose|i: int| 0 <= i < way.blocks.len() && (#[trigger] way.blocks[i]).0 == m;
            assert(seen);
        }
        if seen {
            let i = choose|i: int|
                0 <= i < way.blocks.len() && e == (TriggerEvent::BlockingBegin {
                    machine: (#[trigger] way.blocks[i]).0,
                });
            assert(blocks.contains_key(m));
        }
    }
    if e is TimerEnd {
        let m = e->TimerEnd_machine;
        let seen = exists|i: int|
            0 <= i < way.internals.len() && e == (TriggerEvent::TimerEnd {
                machine: (#[trigger] way.internals[i]).0,
            });
        if internals.contains_key(m) && internals[m].nanos <= now.nanos {
            let i = choose|i: int|
                0 <= i < way.internals.len() && (#[trigger] way.internals[i]).0 == m;
            assert(seen);
        }
        if seen {
            let i = choose|i: int|
                0 <= i < way.internals.len() && e == (TriggerEvent::TimerEnd {
                    machine: (#[trigger] way.internals[i]).0,
                });
            assert(internals.contains_key(m));
        }
    }
    lemma_blocks_keep_active(drained, way.blocks, now);
    if way.blocks.len() > 0 {
        let m = way.blocks[0].0;
        assert(blocks.contains_key(m) && blocks[m].at.nanos <= now.nanos);
    }
    if exists|m: usize| #[trigger] blocks.contains_key(m) && blocks[m].at.nanos <= now.nanos {
        let m = choose|m: usize| #[trigger]
            blocks.contains_key(m) && blocks[m].at.nanos <= now.nanos;
        let i = choose|i: int| 0 <= i < way.blocks.len() && (#[trigger] way.blocks[i]).0 == m;
        assert(way.blocks.len() > 0);
    }
}

proof fn lemma_blocks_keep_active<S>(
    before: SessionState<S>,
    list: Seq<(usize, Block)>,
    now: Instant,
)
    ensures
        list.len() == 0 ==> before.blocks_begun(list, now) == before,
{
}

/// Where nothing is queued, the timers send one datagram for each machine whose padding is due and
/// not held back, tell each of those machines once that its padding was sent, and send nothing
/// else.
pub proof fn law_due_padding_goes_out_once<S: Seal>(
    before: SessionState<S>,
    now: Instant,
    after: SessionState<S>,
    datagrams: Seq<Seq<u8>>,
    m: usize,
)
    requires
        fires(before, now, after, datagrams, None),
        before.endpoint.egress.len() == 0,
    ensures
        tally(after.pending, TriggerEvent::PaddingSent { machine: m }) == tally(
            before.pending,
            TriggerEvent::PaddingSent { machine: m },
        ) + if goes_out(before, now, m) {
            1nat
        } else {
            0
        },
        exists|senders: Set<usize>|
            {
                &&& #[trigger] senders.finite()
                &&& senders.len() == datagrams.len()
                &&& forall|k: usize| #[trigger] senders.contains(k) <==> goes_out(before, now, k)
            },
{
    let way = choose|way: Firing<S>| #[trigger]
        fires_along(before, now, way, after, datagrams, None);
    let e = TriggerEvent::PaddingSent { machine: m };
    if before.blocking_active && !before.endpoint.blocked(now) {
        let told = SessionState {
            blocking_active: false,
            pending: before.pending.push(TriggerEvent::BlockingEnd),
            ..before
        };
        lemma_tally_push(before.pending, TriggerEvent::BlockingEnd, e);
        lemma_tally_flush(told, now, way.unblocked, way.released, e);
    }
    assert(way.released.len() == 0);
    let taken = SessionState {
        timers: TimersState {
            padding: timers::remaining(way.unblocked.timers.padding, now),
            ..way.unblocked.timers
        },
        ..way.unblocked
    };
    lemma_paddings_go_out(taken, way.paddings, now, way.padded, way.cover, m);
    lemma_outgoing(way.paddings, taken.endpoint, now);
    let senders = outgoing(way.paddings, taken.endpoint, now);
    let drained = SessionState {
        timers: TimersState {
            block: timers::remaining(way.padded.timers.block, now),
            internal: timers::remaining(way.padded.timers.internal, now),
            ..way.padded.timers
        },
        ..way.padded
    };
    lemma_begun_tally(drained, way.blocks, now, e);
    lemma_ended_tally(way.internals, e);
    let ends = Seq::new(
        way.internals.len(),
        |i: int| TriggerEvent::TimerEnd { machine: way.internals[i].0 },
    );
    lemma_tally_add(drained.blocks_begun(way.blocks, now).pending, ends, e);
    let pads = before.timers.padding;
    assert forall|k: usize| #[trigger] senders.contains(k) <==> goes_out(before, now, k) by {
        if listed(way.paddings, taken.endpoint, now, k) {
            let i = choose|i: int|
                0 <= i < way.paddings.len() && (#[trigger] way.paddings[i]).0 == k && !holds_back(
                    taken.endpoint,
                    now,
                    way.paddings[i].1.bypass,
                );
            assert(pads.contains_key(k) && pads[k] == way.paddings[i].1);
        }
        if goes_out(before, now, k) {
            assert(timers::Due::due_at(pads[k]).nanos <= now.nanos);
            let i = choose|i: int|
                0 <= i < way.paddings.len() && (#[trigger] way.paddings[i]).0 == k;
            assert(way.paddings[i].1 == pads[k]);
            assert(listed(way.paddings, taken.endpoint, now, k));
        }
    }
    assert(datagrams.len() == senders.len());
}

/// The requests that the blocks in `list` make when they begin at `now`.
spec fn requests_of(list: Seq<(usize, Block)>, now: Instant) -> Seq<transport::BlockRequest> {
    list.map_values(
        |e: (usize, Block)|
            transport::BlockRequest { at: now, duration: e.1.duration, bypassable: e.1.bypass },
    )
}

proof fn lemma_begun_blocks_are_requests<S>(
    before: SessionState<S>,
    list: Seq<(usize, Block)>,
    now: Instant,
)
    ensures
        before.blocks_begun(list, now).endpoint == before.endpoint.after_requests(
            requests_of(list, now),
        ),
        before.blocks_begun(list, now).timers == before.timers,
    decreases list.len(),
{
    if list.len() > 0 {
        lemma_begun_blocks_are_requests(before, list.drop_last(), now);
        assert(requests_of(list, now).drop_last() =~= requests_of(list.drop_last(), now));
    }
}

/// Padding timers leave a block that lasts as it is; one that has run out they may forget.
proof fn lemma_paddings_keep_blocks<S: Seal>(
    before: SessionState<S>,
    list: Seq<(usize, Padding)>,
    now: Instant,
    after: SessionState<S>,
    datagrams: Seq<Seq<u8>>,
)
    requires
        paddings_fire(before, list, now, after, datagrams, None),
    ensures
        after.endpoint.blocked_until == before.endpoint.blocked_until
            || after.endpoint.blocked_until is None,
        after.endpoint.block_bypassable == before.endpoint.block_bypassable,
    decreases list.len(),
{
    if list.len() > 0 {
        let (mid, first, rest) = choose|
            mid: SessionState<S>,
            first: Seq<Seq<u8>>,
            rest: Seq<Seq<u8>>,
        |
            paddings_fire(before, list.drop_last(), now, mid, first, None)
                && #[trigger] padding_fires(
                mid,
                list.last().0,
                list.last().1,
                now,
                after,
                rest,
                None,
            ) && datagrams == #[trigger] (first + rest);
        lemma_paddings_keep_blocks(before, list.drop_last(), now, mid, first);
    }
}

/// A block that is due and outlasts everything else begins as its machine asked: outgoing traffic
/// is held for exactly its duration from then on, and cover traffic marked to bypass goes through
/// exactly where the machine said so.
pub proof fn law_due_block_begins_as_asked<S: Seal>(
    before: SessionState<S>,
    now: Instant,
    after: SessionState<S>,
    datagrams: Seq<Seq<u8>>,
    machine: usize,
)
    requires
        fires(before, now, after, datagrams, None),
        before.timers.block.contains_key(machine),
        before.timers.block[machine].at.nanos <= now.nanos,
        forall|k: usize| #[trigger]
            before.timers.block.contains_key(k) ==> now.can_advance(
                before.timers.block[k].duration,
            ),
        forall|k: usize| #[trigger]
            before.timers.block.contains_key(k) && k != machine
                && before.timers.block[k].at.nanos <= now.nanos
                ==> before.timers.block[k].duration.nanos
                < before.timers.block[machine].duration.nanos,
        before.endpoint.blocked_until matches Some(t) ==> t.nanos < now.nanos
            + before.timers.block[machine].duration.nanos,
    ensures
        after.endpoint.blocked_until matches Some(t) && t.nanos == now.nanos
            + before.timers.block[machine].duration.nanos,
        after.endpoint.block_bypassable == before.timers.block[machine].bypass,
{
    let way = choose|way: Firing<S>| #[trigger]
        fires_along(before, now, way, after, datagrams, None);
    let taken = SessionState {
        timers: TimersState {
            padding: timers::remaining(way.unblocked.timers.padding, now),
            ..way.unblocked.timers
        },
        ..way.unblocked
    };
    lemma_paddings_keep_timers(taken, way.paddings, now, way.padded, way.cover, None);
    lemma_paddings_keep_blocks(taken, way.paddings, now, way.padded, way.cover);
    let drained = SessionState {
        timers: TimersState {
            block: timers::remaining(way.padded.timers.block, now),
            internal: timers::remaining(way.padded.timers.internal, now),
            ..way.padded.timers
        },
        ..way.padded
    };
    let blocks = before.timers.block;
    assert(way.padded.timers.block == blocks);
    lemma_begun_blocks_are_requests(drained, way.blocks, now);
    let requests = requests_of(way.blocks, now);
    assert(timers::Due::due_at(blocks[machine]).nanos <= now.nanos);
    let i = choose|i: int| 0 <= i < way.blocks.len() && (#[trigger] way.blocks[i]).0 == machine;
    assert(way.blocks[i].1 == blocks[machine]);
    assert forall|j: int| 0 <= j < requests.len() implies (#[trigger] requests[j]).at.can_advance(
        requests[j].duration,
    ) by {
        let b = way.blocks[j];
        assert(blocks.contains_key(b.0) && blocks[b.0] == b.1);
    }
    assert forall|j: int| 0 <= j < requests.len() && j != i implies (#[trigger] requests[j]).end()
        < requests[i].end() by {
        let b = way.blocks[j];
        assert(blocks.contains_key(b.0) && blocks[b.0] == b.1);
        assert(timers::Due::due_at(b.1).nanos <= now.nanos);
        assert(b.0 != machine);
    }
    assert(transport::governs(drained.endpoint, requests, i));
    transport::law_furthest_request_governs(drained.endpoint, requests, i);
}

/// A block that a machine asks for holds cover traffic back from the moment it begins until it
/// ends, unless the machine declared it bypassable and the cover traffic is marked to bypass:
/// exactly then the padding that another machine asks for leaves, and exactly then is it reported.
pub proof fn law_asked_block_holds_cover_traffic<S: Seal>(
    start: SessionState<S>,
    blocker: usize,
    timeout: Duration,
    duration: Duration,
    replaces: bool,
    bypassable: bool,
    asked: Instant,
    began: Instant,
    begun: SessionState<S>,
    released: Seq<Seq<u8>>,
    padder: usize,
    delay: Duration,
    replace: bool,
    marked: bool,
    wanted: Instant,
    now: Instant,
    after: SessionState<S>,
    datagrams: Seq<Seq<u8>>,
)
    requires
        asked.can_advance(timeout),
        asked.nanos + timeout.nanos <= began.nanos,
        began.can_advance(duration),
        start.endpoint.blocked_until matches Some(t) ==> t.nanos < began.nanos + duration.nanos,
        forall|k: usize| #[trigger]
            start.timers.block.contains_key(k) ==> start.timers.block[k].at.nanos > began.nanos
                && began.can_advance(start.timers.block[k].duration),
        fires(
            start.scheduled(
                Action::BlockOutgoing {
                    machine: blocker,
                    timeout,
                    duration,
                    replace: replaces,
                    bypass: bypassable,
                },
                asked,
            ),
            began,
            begun,
            released,
            None,
        ),
        begun.endpoint.egress.len() == 0,
        forall|k: usize| #[trigger]
            begun.timers.padding.contains_key(k) ==> begun.timers.padding[k].at.nanos > now.nanos,
        wanted.can_advance(delay),
        wanted.nanos + delay.nanos <= now.nanos,
        now.nanos < began.nanos + duration.nanos,
        fires(
            begun.scheduled(
                Action::SendPadding { machine: padder, timeout: delay, replace, bypass: marked },
                wanted,
            ),
            now,
            after,
            datagrams,
            None,
        ),
    ensures
        datagrams.len() == if bypassable && marked {
            1nat
        } else {
            0
        },
        tally(after.pending, TriggerEvent::PaddingSent { machine: padder }) == tally(
            begun.pending,
            TriggerEvent::PaddingSent { machine: padder },
        ) + datagrams.len(),
        tally(after.pending, TriggerEvent::TunnelSent) == tally(
            begun.pending,
            TriggerEvent::TunnelSent,
        ) + datagrams.len(),
{
    let s1 = start.scheduled(
        Action::BlockOutgoing {
            machine: blocker,
            timeout,
            duration,
            replace: replaces,
            bypass: bypassable,
        },
        asked,
    );
    law_asked_block_is_pending(
        start,
        blocker,
        timeout,
        duration,
        replaces,
        bypassable,
        asked,
        blocker,
    );
    assert forall|k: usize| #[trigger] s1.timers.block.contains_key(k) && k != blocker implies
        start.timers.block.contains_key(k) && s1.timers.block[k] == start.timers.block[k] by {
        law_asked_block_is_pending(
            start,
            blocker,
            timeout,
            duration,
            replaces,
            bypassable,
            asked,
            k,
        );
    }
    law_due_block_begins_as_asked(s1, began, begun, released, blocker);
    let s2 = begun.scheduled(
        Action::SendPadding { machine: padder, timeout: delay, replace, bypass: marked },
        wanted,
    );
    law_asked_padding_is_pending(begun, padder, delay, replace, marked, wanted, padder);
    assert forall|k: usize| #[trigger] goes_out(s2, now, k) <==> k == padder && bypassable
        && marked by {
        law_asked_padding_is_pending(begun, padder, delay, replace, marked, wanted, k);
    }
    law_due_padding_goes_out_once(s2, now, after, datagrams, padder);
    law_fired_datagrams_are_reported(s2, now, after, datagrams);
    let senders = choose|senders: Set<usize>|
        {
            &&& #[trigger] senders.finite()
            &&& senders.len() == datagrams.len()
            &&& forall|k: usize| #[trigger] senders.contains(k) <==> goes_out(s2, now, k)
        };
    if bypassable && marked {
        assert(senders =~= Set::<usize>::empty().insert(padder));
    } else {
        assert(senders =~= Set::<usize>::empty());
    }
}

/// What the machines are told of a datagram that arrived: that it came through the tunnel, and
/// then whether it was data or padding; of a datagram that was dropped, nothing.
pub proof fn law_received_is_reported(r: Option<Received>)
    ensures
        r is None <==> received_events(r).len() == 0,
        r is Some ==> received_events(r)[0] == TriggerEvent::TunnelRecv,
        r matches Some(Received::Data(_)) ==> received_events(r).len() == 2 && received_events(
            r,
        )[1] == TriggerEvent::NormalRecv,
        r matches Some(Received::Padding) ==> received_events(r).len() == 2 && received_events(
            r,
        )[1] == TriggerEvent::PaddingRecv,
        r matches Some(Received::Control(_)) ==> received_events(r).len() == 1,
        r matches Some(Received::Close) ==> received_events(r).len() == 1,
{
}

/// Packets that an end originates go behind those that wait, in their order, and leave at once
/// with them unless a block holds them; then they wait, and nothing leaves. A packet that is too
/// large stops those behind it, and nothing is sent then.
pub proof fn law_originated_packets_leave_or_wait<S: Seal>(
    before: SessionState<S>,
    packets: Seq<Seq<u8>>,
    now: Instant,
    after: SessionState<S>,
    datagrams: Seq<Seq<u8>>,
    error: Option<TransportError>,
    i: int,
)
    requires
        originates(before, packets, now, after, datagrams, error),
        0 <= i < packets.len(),
    ensures
        ({
            let fit = forall|k: int|
                0 <= k < packets.len() ==> (#[trigger] packets[k]).len() <= 1197;
            let held = before.endpoint.blocked_until matches Some(t) && now.nanos < t.nanos;
            &&& fit && held ==> {
                &&& datagrams.len() == 0
                &&& error is None
                &&& after.endpoint.egress == before.endpoint.egress + packets
            }
            &&& fit && !held && error is None ==> {
                &&& datagrams.len() == before.endpoint.egress.len() + packets.len()
                &&& after.endpoint.egress.len() == 0
            }
            &&& packets[i].len() > 1197 && (forall|k: int|
                0 <= k < i ==> (#[trigger] packets[k]).len() <= 1197) ==> {
                &&& error == Some(
                    TransportError::PacketTooLarge { len: packets[i].len() as usize },
                )
                &&& datagrams.len() == 0
                &&& after.endpoint.egress == before.endpoint.egress + packets.take(i)
            }
            &&& after.timers == before.timers
            &&& after.blocking_active == before.blocking_active
        }),
{
    if packets[i].len() > 1197 && (forall|k: int|
        0 <= k < i ==> (#[trigger] packets[k]).len() <= 1197) {
        assert(!packets_fit(packets));
        let k = choose|k: int|
            0 <= k < packets.len() && packets_fit(packets.take(k)) && (#[trigger] packets[k]).len()
                > MAX_PAYLOAD && after == before.queued(packets.take(k)) && datagrams == Seq::<
                Seq<u8>,
            >::empty() && error == Some(
                TransportError::PacketTooLarge { len: packets[k].len() as usize },
            );
        if k > i {
            assert(packets.take(k)[i] == packets[i]);
        }
        assert(k == i);
    }
}

/// When a block that the machines know of has run out, firing the timers sends everything that it
/// held.
pub proof fn law_held_packets_leave_when_the_block_ends<S: Seal>(
    before: SessionState<S>,
    now: Instant,
    after: SessionState<S>,
    datagrams: Seq<Seq<u8>>,
)
    requires
        fires(before, now, after, datagrams, None),
        before.blocking_active,
        !(before.endpoint.blocked_until matches Some(t) && now.nanos < t.nanos),
    ensures
        datagrams.len() >= before.endpoint.egress.len(),
        after.endpoint.egress.len() == 0,
{
    let way = choose|way: Firing<S>| #[trigger]
        fires_along(before, now, way, after, datagrams, None);
    let taken = SessionState {
        timers: TimersState {
            padding: timers::remaining(way.unblocked.timers.padding, now),
            ..way.unblocked.timers
        },
        ..way.unblocked
    };
    assert(way.unblocked.endpoint.egress.len() == 0);
    lemma_paddings_leave_queue(taken, way.paddings, now, way.padded, way.cover);
    let drained = SessionState {
        timers: TimersState {
            block: timers::remaining(way.padded.timers.block, now),
            internal: timers::remaining(way.padded.timers.internal, now),
            ..way.padded.timers
        },
        ..way.padded
    };
    lemma_blocks_leave_queue(drained, way.blocks, now);
}

/// While a block lasts, firing the timers sends none of what it holds.
pub proof fn law_held_packets_stay_while_the_block_lasts<S: Seal>(
    before: SessionState<S>,
    now: Instant,
    after: SessionState<S>,
    datagrams: Seq<Seq<u8>>,
)
    requires
        fires(before, now, after, datagrams, None),
        before.endpoint.blocked_until matches Some(t) && now.nanos < t.nanos,
    ensures
        after.endpoint.egress == before.endpoint.egress,
{
    let way = choose|way: Firing<S>| #[trigger]
        fires_along(before, now, way, after, datagrams, None);
    let taken = SessionState {
        timers: TimersState {
            padding: timers::remaining(way.unblocked.timers.padding, now),
            ..way.unblocked.timers
        },
        ..way.unblocked
    };
    lemma_paddings_leave_queue(taken, way.paddings, now, way.padded, way.cover);
    let drained = SessionState {
        timers: TimersState {
            block: timers::remaining(way.padded.timers.block, now),
            internal: timers::remaining(way.padded.timers.internal, now),
            ..way.padded.timers
        },
        ..way.padded
    };
    lemma_blocks_leave_queue(drained, way.blocks, now);
}

/// Padding timers leave an empty queue empty, and a queue that is held as it is.
proof fn lemma_paddings_leave_queue<S: Seal>(
    before: SessionState<S>,
    list: Seq<(usize, Padding)>,
    now: Instant,
    after: SessionState<S>,
    datagrams: Seq<Seq<u8>>,
)
    requires
        paddings_fire(before, list, now, after, datagrams, None),
    ensures
        before.endpoint.egress.len() == 0 ==> after.endpoint.egress.len() == 0,
        before.endpoint.blocked(now) ==> after.endpoint.egress == before.endpoint.egress
            && after.endpoint.blocked(now),
    decreases list.len(),
{
    if list.len() > 0 {
        let (mid, first, rest) = choose|
            mid: SessionState<S>,
            first: Seq<Seq<u8>>,
            rest: Seq<Seq<u8>>,
        |
            paddings_fire(before, list.drop_last(), now, mid, first, None)
                && #[trigger] padding_fires(
                mid,
                list.last().0,
                list.last().1,
                now,
                after,
                rest,
                None,
            ) && datagrams == #[trigger] (first + rest);
        lemma_paddings_leave_queue(before, list.drop_last(), now, mid, first);
    }
}

proof fn lemma_blocks_leave_queue<S>(
    before: SessionState<S>,
    list: Seq<(usize, Block)>,
    now: Instant,
)
    ensures
        before.blocks_begun(list, now).endpoint.egress == before.endpoint.egress,
    decreases list.len(),
{
    if list.len() > 0 {
        lemma_blocks_leave_queue(before, list.drop_last(), now);
    }
}

/// How long the loop may sleep: never more than 5 ms, never past a timer, not at all where a timer
/// is due, and less than 5 ms only because of a timer.
pub proof fn law_sleep_ends_at_the_next_timer(
    timers: TimersState,
    next: Option<Instant>,
    now: Instant,
    m: usize,
)
    requires
        timers.next(next),
    ensures
        ({
            let d = idle_span(next, now);
            &&& d.nanos <= 5_000_000
            &&& timers.padding.contains_key(m) ==> d.nanos == 0 || now.nanos + d.nanos
                <= timers.padding[m].at.nanos
            &&& timers.block.contains_key(m) ==> d.nanos == 0 || now.nanos + d.nanos
                <= timers.block[m].at.nanos
            &&& timers.internal.contains_key(m) ==> d.nanos == 0 || now.nanos + d.nanos
                <= timers.internal[m].nanos
            &&& d.nanos == 0 ==> (next matches Some(t) && t.nanos <= now.nanos)
            &&& 0 < d.nanos < 5_000_000 ==> (next matches Some(t) && t.nanos == now.nanos
                + d.nanos)
        }),
{
    timers::law_next_deadline_is_the_first(timers, next, m);
}

/// The lines of a report: what was sent, real packets before cover traffic, what was received in
/// the same order, and at the end how many datagrams were dropped.
pub proof fn law_report_lines(who: Seq<char>, level: DefenseLevel, role: Role, s: Stats)
    ensures
        ({
            let t = report_text(who, level, role, s);
            let dropped = "\n  dropped "@ + text::decimal(s.dropped as nat);
            &&& text::has_line(
                t,
                "  sent    "@ + (text::decimal(s.data_out as nat) + " data, "@ + text::decimal(
                    s.padding_out as nat,
                ) + " padding"@),
            )
            &&& text::has_line(
                t,
                "  received "@ + (text::decimal(s.data_in as nat) + " data, "@ + text::decimal(
                    s.padding_in as nat,
                ) + " padding"@),
            )
            &&& t.len() >= dropped.len()
            &&& t.skip(t.len() - dropped.len()) == dropped
        }),
{
    reveal_strlit("\n  sent    ");
    reveal_strlit("  sent    ");
    reveal_strlit("\n  received ");
    reveal_strlit("  received ");
    reveal_strlit("\n  dropped ");
    let t = report_text(who, level, role, s);
    let none = Seq::<char>::empty();
    let out = text::decimal(s.data_out as nat) + " data, "@ + text::decimal(s.padding_out as nat)
        + " padding"@;
    let back = text::decimal(s.data_in as nat) + " data, "@ + text::decimal(s.padding_in as nat)
        + " padding"@;
    let dropped = "\n  dropped "@ + text::decimal(s.dropped as nat);
    let h = "\n"@ + who + ": level "@ + level.name() + " role "@ + role_name(role);
    let h1 = h + "\n  sent    "@ + text::decimal(s.data_out as nat) + " data, "@ + text::decimal(
        s.padding_out as nat,
    ) + " padding"@;
    assert(h1 =~= h + "\n  sent    "@ + out);
    let h2 = h1 + "\n  received "@ + text::decimal(s.data_in as nat) + " data, "@ + text::decimal(
        s.padding_in as nat,
    ) + " padding"@;
    assert(h2 =~= h1 + "\n  received "@ + back);
    assert(t =~= h2 + dropped);
    assert(t.skip(t.len() - dropped.len()) =~= dropped);
    assert("\n  received "@.skip(1) =~= "  received "@);
    assert("\n  sent    "@.skip(1) =~= "  sent    "@);
    assert(t =~= h1 + "\n  received "@ + back + dropped + none);
    text::lemma_line(t, h1, "\n  received "@, back, dropped, none);
    let rest = back + dropped;
    assert(t =~= h + "\n  sent    "@ + out + "\n  received "@ + rest);
    text::lemma_line(t, h, "\n  sent    "@, out, "\n  received "@, rest);
}

/// What a padding timer that fires does. Where real packets wait and may stand in for the padding,
/// they are flushed, all of them or, held by a block, none, and the machine is told that its
/// padding was sent either way. Otherwise one datagram of cover traffic leaves and the machine is
/// told so, unless a block holds it back; then nothing happens.
pub proof fn law_firing_one_padding<S: Seal>(
    before: SessionState<S>,
    machine: usize,
    p: Padding,
    now: Instant,
    after: SessionState<S>,
    datagrams: Seq<Seq<u8>>,
)
    requires
        padding_fires(before, machine, p, now, after, datagrams, None),
    ensures
        ({
            let told = TriggerEvent::PaddingSent { machine };
            let more = tally(after.pending, told) - tally(before.pending, told);
            let held = before.endpoint.blocked_until matches Some(t) && now.nanos < t.nanos;
            let waiting = before.endpoint.egress.len();
            &&& p.replace && waiting > 0 ==> {
                &&& more == 1
                &&& held ==> datagrams.len() == 0 && after.endpoint.egress == before.endpoint.egress
                &&& !held ==> datagrams.len() == waiting && after.endpoint.egress.len() == 0
            }
            &&& !(p.replace && waiting > 0) ==> {
                &&& holds_back(before.endpoint, now, p.bypass) ==> datagrams.len() == 0 && more == 0
                &&& !holds_back(before.endpoint, now, p.bypass) ==> datagrams.len() == 1 && more
                    == 1
                &&& after.endpoint.egress == before.endpoint.egress
            }
            &&& tally(after.pending, TriggerEvent::TunnelSent) == tally(
                before.pending,
                TriggerEvent::TunnelSent,
            ) + datagrams.len()
            &&& after.timers == before.timers
            &&& after.blocking_active == before.blocking_active
        }),
{
    let told = TriggerEvent::PaddingSent { machine };
    lemma_tally_padding(before, machine, p, now, after, datagrams, TriggerEvent::TunnelSent);
    let none = Seq::<TriggerEvent>::empty();
    if p.replace && before.endpoint.egress.len() > 0 {
        let n = datagrams.len();
        lemma_tally_add(before.pending, sent_events(n).push(told), told);
        lemma_tally_push(sent_events(n), told, told);
        lemma_tally_sent(n, told);
    } else if datagrams.len() > 0 {
        let two = seq![told, TriggerEvent::TunnelSent];
        lemma_tally_add(before.pending, two, told);
        assert(two =~= none.push(told).push(TriggerEvent::TunnelSent));
        lemma_tally_push(none.push(told), TriggerEvent::TunnelSent, told);
        lemma_tally_push(none, told, told);
    } else {
        assert(before.pending + none =~= before.pending);
    }
}

/// What is reported is reported behind what was reported before: firing the timers takes nothing
/// back.
pub proof fn law_firing_takes_nothing_back<S: Seal>(
    before: SessionState<S>,
    now: Instant,
    after: SessionState<S>,
    datagrams: Seq<Seq<u8>>,
)
    requires
        fires(before, now, after, datagrams, None),
    ensures
        before.pending.len() <= after.pending.len(),
        after.pending.take(before.pending.len() as int) == before.pending,
{
    let way = choose|way: Firing<S>| #[trigger]
        fires_along(before, now, way, after, datagrams, None);
    let n = before.pending.len() as int;
    assert(way.unblocked.pending.take(n) =~= before.pending);
    let taken = SessionState {
        timers: TimersState {
            padding: timers::remaining(way.unblocked.timers.padding, now),
            ..way.unblocked.timers
        },
        ..way.unblocked
    };
    lemma_paddings_report_behind(taken, way.paddings, now, way.padded, way.cover);
    let m = way.unblocked.pending.len() as int;
    assert(way.padded.pending.take(n) =~= way.padded.pending.take(m).take(n));
    let drained = SessionState {
        timers: TimersState {
            block: timers::remaining(way.padded.timers.block, now),
            internal: timers::remaining(way.padded.timers.internal, now),
            ..way.padded.timers
        },
        ..way.padded
    };
    lemma_blocks_reported(drained, way.blocks, now);
    let k = way.padded.pending.len() as int;
    let begun = drained.blocks_begun(way.blocks, now);
    assert(begun.pending.take(n) =~= begun.pending.take(k).take(n));
    assert(after.pending.take(n) =~= begun.pending.take(n));
}

proof fn lemma_paddings_report_behind<S: Seal>(
    before: SessionState<S>,
    list: Seq<(usize, Padding)>,
    now: Instant,
    after: SessionState<S>,
    datagrams: Seq<Seq<u8>>,
)
    requires
        paddings_fire(before, list, now, after, datagrams, None),
    ensures
        before.pending.len() <= after.pending.len(),
        after.pending.take(before.pending.len() as int) == before.pending,
    decreases list.len(),
{
    let n = before.pending.len() as int;
    if list.len() > 0 {
        let (mid, first, rest) = choose|
            mid: SessionState<S>,
            first: Seq<Seq<u8>>,
            rest: Seq<Seq<u8>>,
        |
            paddings_fire(before, list.drop_last(), now, mid, first, None)
                && #[trigger] padding_fires(
                mid,
                list.last().0,
                list.last().1,
                now,
                after,
                rest,
                None,
            ) && datagrams == #[trigger] (first + rest);
        lemma_paddings_report_behind(before, list.drop_last(), now, mid, first);
        assert(after.pending.take(n) =~= mid.pending.take(n));
    } else {
        assert(after.pending.take(n) =~= before.pending);
    }
}

/// The order in which sending is reported: a machine hears of its padding before the tunnel does,
/// and where real packets stand in for it, after them.
pub proof fn law_padding_is_reported_in_order<S: Seal>(
    before: SessionState<S>,
    machine: usize,
    p: Padding,
    now: Instant,
    after: SessionState<S>,
    datagrams: Seq<Seq<u8>>,
    i: int,
)
    requires
        padding_fires(before, machine, p, now, after, datagrams, None),
    ensures
        ({
            let n = before.pending.len() as int;
            let stood_in = p.replace && before.endpoint.egress.len() > 0;
            &&& after.pending.take(n) == before.pending
            &&& !stood_in && datagrams.len() == 0 ==> after.pending.len() == n
            &&& !stood_in && datagrams.len() > 0 ==> {
                &&& after.pending.len() == n + 2
                &&& after.pending[n] == (TriggerEvent::PaddingSent { machine })
                &&& after.pending[n + 1] == TriggerEvent::TunnelSent
            }
            &&& stood_in ==> {
                &&& after.pending.len() == n + datagrams.len() + 1
                &&& n <= i < n + datagrams.len() ==> after.pending[i] == TriggerEvent::TunnelSent
                &&& after.pending.last() == (TriggerEvent::PaddingSent { machine })
            }
        }),
{
    assert(after.pending.take(before.pending.len() as int) =~= before.pending);
}

/// The order in which originating is reported: first that each packet was queued, then that each
/// datagram left.
pub proof fn law_originating_is_reported_in_order<S: Seal>(
    before: SessionState<S>,
    packets: Seq<Seq<u8>>,
    now: Instant,
    after: SessionState<S>,
    datagrams: Seq<Seq<u8>>,
    i: int,
)
    requires
        originates(before, packets, now, after, datagrams, None),
    ensures
        ({
            let n = before.pending.len() as int;
            &&& after.pending.len() == n + packets.len() + datagrams.len()
            &&& after.pending.take(n) == before.pending
            &&& n <= i < n + packets.len() ==> after.pending[i] == TriggerEvent::NormalSent
            &&& n + packets.len() <= i < after.pending.len() ==> after.pending[i]
                == TriggerEvent::TunnelSent
        }),
{
    assert(after.pending.take(before.pending.len() as int) =~= before.pending);
}

/// Whether every event from place `from` up to place `to` is one that reports sending.
pub open spec fn only_sending(events: Seq<TriggerEvent>, from: int, to: int) -> bool {
    forall|i: int|
        from <= i < to ==> (#[trigger] events[i]) is TunnelSent || events[i] is PaddingSent
}

proof fn lemma_paddings_add_only_sending<S: Seal>(
    before: SessionState<S>,
    list: Seq<(usize, Padding)>,
    now: Instant,
    after: SessionState<S>,
    datagrams: Seq<Seq<u8>>,
)
    requires
        paddings_fire(before, list, now, after, datagrams, None),
    ensures
        before.pending.len() <= after.pending.len(),
        forall|i: int| 0 <= i < before.pending.len() ==> after.pending[i] == before.pending[i],
        only_sending(after.pending, before.pending.len() as int, after.pending.len() as int),
    decreases list.len(),
{
    if list.len() > 0 {
        let (mid, first, rest) = choose|
            mid: SessionState<S>,
            first: Seq<Seq<u8>>,
            rest: Seq<Seq<u8>>,
        |
            paddings_fire(before, list.drop_last(), now, mid, first, None)
                && #[trigger] padding_fires(
                mid,
                list.last().0,
                list.last().1,
                now,
                after,
                rest,
                None,
            ) && datagrams == #[trigger] (first + rest);
        lemma_paddings_add_only_sending(before, list.drop_last(), now, mid, first);
        let m = mid.pending.len() as int;
        assert forall|i: int| 0 <= i < m implies after.pending[i] == mid.pending[i] by {}
        assert(only_sending(after.pending, m, after.pending.len() as int));
    }
}

proof fn lemma_blocks_add_only_beginnings<S>(
    before: SessionState<S>,
    list: Seq<(usize, Block)>,
    now: Instant,
)
    ensures
        before.blocks_begun(list, now).pending.len() == before.pending.len() + list.len(),
        forall|i: int|
            0 <= i < before.pending.len() ==> before.blocks_begun(list, now).pending[i]
                == before.pending[i],
        forall|i: int|
            0 <= i < list.len() ==> before.blocks_begun(list, now).pending[before.pending.len() + i]
                == (TriggerEvent::BlockingBegin { machine: (#[trigger] list[i]).0 }),
    decreases list.len(),
{
    if list.len() > 0 {
        let rest = list.drop_last();
        lemma_blocks_add_only_beginnings(before, rest, now);
        let end = before.blocks_begun(list, now).pending;
        let mid = before.blocks_begun(rest, now).pending;
        assert forall|i: int| 0 <= i < list.len() implies end[before.pending.len() + i] == (
        TriggerEvent::BlockingBegin { machine: (#[trigger] list[i]).0 }) by {
            if i < rest.len() {
                assert(rest[i] == list[i]);
                assert(end[before.pending.len() + i] == mid[before.pending.len() + i]);
            }
        }
    }
}

/// Whether the events from place `n` on are, where `ended`, that a block has ended, then, up to
/// place `sent`, what was sent, then, up to place `begun`, blocks that begin, and then internal
/// timers that end.
pub open spec fn in_firing_order(
    events: Seq<TriggerEvent>,
    n: int,
    ended: bool,
    sent: int,
    begun: int,
) -> bool {
    let start = n + if ended {
        1int
    } else {
        0
    };
    &&& start <= sent <= begun <= events.len()
    &&& ended ==> events[n] is BlockingEnd
    &&& only_sending(events, start, sent)
    &&& forall|i: int| sent <= i < begun ==> (#[trigger] events[i]) is BlockingBegin
    &&& forall|i: int| begun <= i < events.len() ==> (#[trigger] events[i]) is TimerEnd
}

/// Whether a block that the machines know of has run out.
pub open spec fn block_is_over<S>(s: SessionState<S>, now: Instant) -> bool {
    s.blocking_active && !(s.endpoint.blocked_until matches Some(t) && now.nanos < t.nanos)
}

/// The order in which a firing of the timers is reported: that a block has ended comes first, then
/// what was sent, then the blocks that begin, then the internal timers that end.
pub proof fn law_firing_is_reported_in_order<S: Seal>(
    before: SessionState<S>,
    now: Instant,
    after: SessionState<S>,
    datagrams: Seq<Seq<u8>>,
)
    requires
        fires(before, now, after, datagrams, None),
    ensures
        exists|sent: int, begun: int| #[trigger]
            in_firing_order(
                after.pending,
                before.pending.len() as int,
                block_is_over(before, now),
                sent,
                begun,
            ),
{
    let way = choose|way: Firing<S>| #[trigger]
        fires_along(before, now, way, after, datagrams, None);
    let taken = SessionState {
        timers: TimersState {
            padding: timers::remaining(way.unblocked.timers.padding, now),
            ..way.unblocked.timers
        },
        ..way.unblocked
    };
    lemma_paddings_add_only_sending(taken, way.paddings, now, way.padded, way.cover);
    let drained = SessionState {
        timers: TimersState {
            block: timers::remaining(way.padded.timers.block, now),
            internal: timers::remaining(way.padded.timers.internal, now),
            ..way.padded.timers
        },
        ..way.padded
    };
    lemma_blocks_add_only_beginnings(drained, way.blocks, now);
    let all_begun = drained.blocks_begun(way.blocks, now);
    let n = before.pending.len() as int;
    let ended = before.blocking_active && !before.endpoint.blocked(now);
    let start = n + if ended {
        1int
    } else {
        0
    };
    let sent = way.padded.pending.len() as int;
    let begun = all_begun.pending.len() as int;
    assert forall|i: int| 0 <= i < begun implies after.pending[i] == all_begun.pending[i] by {}
    assert forall|i: int| 0 <= i < sent implies after.pending[i] == way.padded.pending[i] by {
        assert(all_begun.pending[i] == drained.pending[i]);
    }
    let m = way.unblocked.pending.len() as int;
    assert forall|i: int| 0 <= i < m implies after.pending[i] == way.unblocked.pending[i] by {
        assert(way.padded.pending[i] == taken.pending[i]);
    }
    if ended {
        assert(way.unblocked.pending[n] == TriggerEvent::BlockingEnd);
    }
    assert forall|i: int| start <= i < sent implies (#[trigger] after.pending[i]) is TunnelSent
        || after.pending[i] is PaddingSent by {
        if i < m {
            assert(way.unblocked.pending[i] == TriggerEvent::TunnelSent);
        } else {
            assert(way.padded.pending[i] is TunnelSent || way.padded.pending[i] is PaddingSent);
        }
    }
    assert(only_sending(after.pending, start, sent));
    assert forall|i: int| sent <= i < begun implies (
    #[trigger] after.pending[i]) is BlockingBegin by {
        let b = way.blocks[i - sent];
        assert(all_begun.pending[drained.pending.len() + (i - sent)] == (
        TriggerEvent::BlockingBegin { machine: b.0 }));
    }
    assert(ended == block_is_over(before, now));
    assert(in_firing_order(after.pending, n, ended, sent, begun));
}

} // verus!
