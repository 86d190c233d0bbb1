//! The flat values that cross the C boundary to the packet-tunnel extension, and what each call
//! across it decides.
//!
//! Deliberately narrow: the tunnel hands over a JSON policy, starts an engine, then pumps events
//! and drains actions. [`TadAction`] is a flat struct rather than a tagged union. A union costs a
//! few bytes less per action and considerably more work to unpack safely; at the rate at which a
//! tunnel drains actions the bytes do not matter and the clarity does.
//!
//! A pointer that may be null is an `Option` here, or a flag where only its nullness counts.

use vstd::prelude::*;

use crate::engine;
use crate::engine::{Action, Engine, EngineError, Refusal, Timer, TriggerEvent};
use crate::policy::{DefenseLevel, Policy, PolicyError, Role};
use crate::time::Duration;

verus! {

#[derive(Clone, Copy, Debug, PartialEq, Eq, Structural)]
pub enum TadResult {
    Success,
    NullPointer,
    NotUtf8,
    MalformedPolicy,
    /// The requested level is below a profile-enforced floor.
    BelowEnforcedFloor,
    /// The peer cannot run the required machines and the policy fails closed.
    PeerUnsupported,
    /// `enforced` was claimed by a non-profile source.
    EnforcedWithoutProfile,
    MachineError,
    NothingToRun,
    /// `actions_out` was too small; `tad_engine_num_machines` gives the needed size.
    BufferTooSmall,
}

impl TadResult {
    pub open spec fn code(self) -> u32 {
        match self {
            TadResult::Success => 0,
            TadResult::NullPointer => 1,
            TadResult::NotUtf8 => 2,
            TadResult::MalformedPolicy => 3,
            TadResult::BelowEnforcedFloor => 4,
            TadResult::PeerUnsupported => 5,
            TadResult::EnforcedWithoutProfile => 6,
            TadResult::MachineError => 7,
            TadResult::NothingToRun => 8,
            TadResult::BufferTooSmall => 9,
        }
    }

    /// The number that stands for the result on the C side.
    pub fn to_u32(self) -> (v: u32)
        ensures
            v == self.code(),
    {
        match self {
            TadResult::Success => 0,
            TadResult::NullPointer => 1,
            TadResult::NotUtf8 => 2,
            TadResult::MalformedPolicy => 3,
            TadResult::BelowEnforcedFloor => 4,
            TadResult::PeerUnsupported => 5,
            TadResult::EnforcedWithoutProfile => 6,
            TadResult::MachineError => 7,
            TadResult::NothingToRun => 8,
            TadResult::BufferTooSmall => 9,
        }
    }
}

#[derive(Clone, Copy, Debug, PartialEq, Eq, Structural)]
pub enum TadEventType {
    NormalRecv,
    PaddingRecv,
    TunnelRecv,
    NormalSent,
    PaddingSent,
    TunnelSent,
    BlockingBegin,
    BlockingEnd,
    TimerBegin,
    TimerEnd,
}

impl TadEventType {
    pub open spec fn code(self) -> u32 {
        match self {
            TadEventType::NormalRecv => 0,
            TadEventType::PaddingRecv => 1,
            TadEventType::TunnelRecv => 2,
            TadEventType::NormalSent => 3,
            TadEventType::PaddingSent => 4,
            TadEventType::TunnelSent => 5,
            TadEventType::BlockingBegin => 6,
            TadEventType::BlockingEnd => 7,
            TadEventType::TimerBegin => 8,
            TadEventType::TimerEnd => 9,
        }
    }

    /// The number that stands for the event on the C side.
    pub fn to_u32(self) -> (v: u32)
        ensures
            v == self.code(),
    {
        match self {
            TadEventType::NormalRecv => 0,
            TadEventType::PaddingRecv => 1,
            TadEventType::TunnelRecv => 2,
            TadEventType::NormalSent => 3,
            TadEventType::PaddingSent => 4,
            TadEventType::TunnelSent => 5,
            TadEventType::BlockingBegin => 6,
            TadEventType::BlockingEnd => 7,
            TadEventType::TimerBegin => 8,
            TadEventType::TimerEnd => 9,
        }
    }

    /// The event of this type for machine `machine`, which only some events carry.
    pub open spec fn event(self, machine: usize) -> TriggerEvent {
        match self {
            TadEventType::NormalRecv => TriggerEvent::NormalRecv,
            TadEventType::PaddingRecv => TriggerEvent::PaddingRecv,
            TadEventType::TunnelRecv => TriggerEvent::TunnelRecv,
            TadEventType::NormalSent => TriggerEvent::NormalSent,
            TadEventType::PaddingSent => TriggerEvent::PaddingSent { machine },
            TadEventType::TunnelSent => TriggerEvent::TunnelSent,
            TadEventType::BlockingBegin => TriggerEvent::BlockingBegin { machine },
            TadEventType::BlockingEnd => TriggerEvent::BlockingEnd,
            TadEventType::TimerBegin => TriggerEvent::TimerBegin { machine },
            TadEventType::TimerEnd => TriggerEvent::TimerEnd { machine },
        }
    }
}

#[derive(Clone, Copy, Debug, PartialEq, Eq, Structural)]
pub struct TadEvent {
    pub event_type: u32,
    /// Only read for events that carry one: PaddingSent, BlockingBegin, TimerBegin, TimerEnd.
    /// Ignored otherwise.
    pub machine: usize,
}

#[derive(Clone, Copy, Debug, PartialEq, Eq, Structural)]
pub struct TadAction {
    /// 0 = Cancel, 1 = SendPadding, 2 = BlockOutgoing, 3 = UpdateTimer.
    pub tag: u32,
    pub machine: usize,
    /// Cancel only: 0 = Action, 1 = Internal, 2 = All.
    pub timer: u32,
    pub timeout_nanos: u64,
    /// BlockOutgoing: how long to block. UpdateTimer: the new duration.
    pub duration_nanos: u64,
    pub replace: bool,
    pub bypass: bool,
}

impl TadAction {
    pub open spec fn blank() -> TadAction {
        TadAction {
            tag: 0,
            machine: 0,
            timer: 0,
            timeout_nanos: 0,
            duration_nanos: 0,
            replace: false,
            bypass: false,
        }
    }

    pub fn zeroed() -> (a: TadAction)
        ensures
            a == TadAction::blank(),
    {
        TadAction {
            tag: 0,
            machine: 0,
            timer: 0,
            timeout_nanos: 0,
            duration_nanos: 0,
            replace: false,
            bypass: false,
        }
    }
}

/// A span in nanoseconds, and the largest number that there is where it does not fit.
pub open spec fn clipped(d: Duration) -> u64 {
    if d.nanos <= u64::MAX {
        d.nanos as u64
    } else {
        u64::MAX
    }
}

fn nanos(d: Duration) -> (n: u64)
    ensures
        n == clipped(d),
{
    if d.nanos <= u64::MAX as u128 {
        d.nanos as u64
    } else {
        u64::MAX
    }
}

/// The result that reports a policy error.
pub open spec fn result_of_policy_error(e: PolicyError) -> TadResult {
    match e {
        PolicyError::BelowEnforcedFloor { .. } => TadResult::BelowEnforcedFloor,
        PolicyError::PeerUnsupported(_) => TadResult::PeerUnsupported,
        PolicyError::EnforcedWithoutProfile => TadResult::EnforcedWithoutProfile,
        _ => TadResult::MalformedPolicy,
    }
}

pub fn policy_result(e: &PolicyError) -> (r: TadResult)
    ensures
        r == result_of_policy_error(*e),
{
    match e {
        PolicyError::BelowEnforcedFloor { .. } => TadResult::BelowEnforcedFloor,
        PolicyError::PeerUnsupported(_) => TadResult::PeerUnsupported,
        PolicyError::EnforcedWithoutProfile => TadResult::EnforcedWithoutProfile,
        _ => TadResult::MalformedPolicy,
    }
}

/// The result that reports an engine error.
pub open spec fn result_of_refusal(e: Refusal) -> TadResult {
    match e {
        Refusal::Policy(p) => result_of_policy_error(p),
        Refusal::NothingToRun => TadResult::NothingToRun,
        Refusal::Machines(_) => TadResult::MachineError,
    }
}

pub fn engine_result(e: &EngineError) -> (r: TadResult)
    ensures
        r == result_of_refusal(e@),
{
    match e {
        EngineError::Policy(p) => policy_result(p),
        EngineError::NothingToRun => TadResult::NothingToRun,
        EngineError::Machines(_) => TadResult::MachineError,
    }
}

/// The level that a number on the C side stands for.
pub open spec fn raw_level(raw: u32) -> Option<DefenseLevel> {
    if raw == 0 {
        Some(DefenseLevel::Off)
    } else if raw == 1 {
        Some(DefenseLevel::Light)
    } else if raw == 2 {
        Some(DefenseLevel::Moderate)
    } else if raw == 3 {
        Some(DefenseLevel::Heavy)
    } else {
        None
    }
}

pub fn level_from_raw(raw: u32) -> (l: Option<DefenseLevel>)
    ensures
        l == raw_level(raw),
{
    match raw {
        0 => Some(DefenseLevel::Off),
        1 => Some(DefenseLevel::Light),
        2 => Some(DefenseLevel::Moderate),
        3 => Some(DefenseLevel::Heavy),
        _ => None,
    }
}

pub fn level_to_raw(l: DefenseLevel) -> (raw: u32)
    ensures
        raw == l.strength(),
{
    match l {
        DefenseLevel::Off => 0,
        DefenseLevel::Light => 1,
        DefenseLevel::Moderate => 2,
        DefenseLevel::Heavy => 3,
    }
}

/// The numbers on the C side and the levels stand for each other, one for one.
pub proof fn law_raw_levels(l: DefenseLevel, raw: u32)
    ensures
        raw_level(l.strength() as u32) == Some(l),
        raw_level(raw) == Some(l) <==> raw == l.strength(),
{
}

/// Parse a JSON policy. `json` is `None` for a null pointer, `Some(None)` for bytes that are not
/// UTF-8, and otherwise what the JSON reader made of the text.
pub fn tad_policy_parse(
    json: Option<Option<Result<Policy, String>>>,
    out_is_null: bool,
) -> (r: Result<Policy, TadResult>)
    ensures
        match json {
            None => r == Err::<Policy, TadResult>(TadResult::NullPointer),
            Some(text) => if out_is_null {
                r == Err::<Policy, TadResult>(TadResult::NullPointer)
            } else {
                match text {
                    None => r == Err::<Policy, TadResult>(TadResult::NotUtf8),
                    Some(Err(_)) => r == Err::<Policy, TadResult>(TadResult::MalformedPolicy),
                    Some(Ok(p)) => match p.fault() {
                        None => r == Ok::<Policy, TadResult>(p),
                        Some(e) => r == Err::<Policy, TadResult>(result_of_policy_error(e)),
                    },
                }
            },
        },
{
    let text = match json {
        None => return Err(TadResult::NullPointer),
        Some(text) => text,
    };
    if out_is_null {
        return Err(TadResult::NullPointer);
    }
    let parsed = match text {
        None => return Err(TadResult::NotUtf8),
        Some(parsed) => parsed,
    };
    match Policy::from_json(parsed) {
        Ok(p) => Ok(p),
        Err(e) => Err(policy_result(&e)),
    }
}

/// Whether the user interface must present the defense control as locked.
pub fn tad_policy_is_locked(policy: Option<&Policy>) -> (locked: bool)
    ensures
        locked == (policy matches Some(p) && p.pinned()),
{
    match policy {
        None => false,
        Some(p) => p.is_locked(),
    }
}

/// The enforced floor, as a raw level. Only meaningful when locked.
pub fn tad_policy_floor(policy: Option<&Policy>) -> (raw: u32)
    ensures
        raw == match policy {
            None => 0,
            Some(p) => p.level.strength(),
        },
{
    match policy {
        None => 0,
        Some(p) => level_to_raw(p.level),
    }
}

/// Start an engine.
pub fn tad_engine_start(
    policy: Option<&Policy>,
    requested_level: u32,
    peer_supports: bool,
    out_is_null: bool,
) -> (r: Result<Engine, TadResult>)
    ensures
        policy is None || out_is_null ==> r is Err && r->Err_0 == TadResult::NullPointer,
        policy is Some && !out_is_null ==> match raw_level(requested_level) {
            None => r is Err && r->Err_0 == TadResult::MalformedPolicy,
            Some(level) => match engine::start_fault(
                *policy->Some_0,
                level,
                peer_supports,
                Role::Client,
            ) {
                Some(f) => r is Err && r->Err_0 == result_of_refusal(f),
                None => match r {
                    Ok(e) => e.started(*policy->Some_0, level, Role::Client),
                    Err(e) => level is Moderate && e == TadResult::MachineError,
                },
            },
        },
{
    let policy = match policy {
        None => return Err(TadResult::NullPointer),
        Some(policy) => policy,
    };
    if out_is_null {
        return Err(TadResult::NullPointer);
    }
    let level = match level_from_raw(requested_level) {
        None => return Err(TadResult::MalformedPolicy),
        Some(level) => level,
    };
    match Engine::start(policy, level, peer_supports) {
        Ok(e) => Ok(e),
        Err(e) => Err(engine_result(&e)),
    }
}

/// The number of running machines, and therefore the capacity that `actions_out` needs.
pub fn tad_engine_num_machines(engine: Option<&Engine>) -> (n: usize)
    ensures
        n == match engine {
            None => 0,
            Some(e) => e.size(),
        },
{
    match engine {
        None => 0,
        Some(e) => e.num_machines(),
    }
}

/// Whether the tunnel should pad every packet to a constant size.
pub fn tad_engine_constant_packet_size(engine: Option<&Engine>) -> (b: bool)
    ensures
        b == (engine matches Some(e) && e.pads_to_constant_size()),
{
    match engine {
        None => false,
        Some(e) => e.constant_packet_size(),
    }
}

/// Which pointers that were handed over together with events are null, and how much room there
/// is for actions.
#[derive(Clone, Copy, Debug, PartialEq, Eq, Structural)]
pub struct OnEventsCall {
    pub events_is_null: bool,
    pub num_events: usize,
    pub actions_out_is_null: bool,
    pub actions_capacity: usize,
    pub num_actions_out_is_null: bool,
}

/// Feed events: the first half, before the machines run. `machines` is how many machines the
/// engine runs, and `None` for a null engine. `Success` where the call can go on.
pub fn tad_engine_on_events(machines: Option<usize>, call: OnEventsCall) -> (r: TadResult)
    ensures
        r == match machines {
            None => TadResult::NullPointer,
            Some(n) => if call.num_actions_out_is_null {
                TadResult::NullPointer
            } else if call.num_events > 0 && call.events_is_null {
                TadResult::NullPointer
            } else if call.actions_capacity < n {
                TadResult::BufferTooSmall
            } else if call.actions_capacity > 0 && call.actions_out_is_null {
                TadResult::NullPointer
            } else {
                TadResult::Success
            },
        },
{
    let n: usize = match machines {
        None => return TadResult::NullPointer,
        Some(n) => n,
    };
    if call.num_actions_out_is_null {
        return TadResult::NullPointer;
    }
    if call.num_events > 0 && call.events_is_null {
        return TadResult::NullPointer;
    }
    if call.actions_capacity < n {
        return TadResult::BufferTooSmall;
    }
    if call.actions_capacity > 0 && call.actions_out_is_null {
        return TadResult::NullPointer;
    }
    TadResult::Success
}

/// The event that `e` stands for, and `None` where its type is unknown.
pub open spec fn event_of(e: TadEvent) -> Option<TriggerEvent> {
    let machine = e.machine;
    if e.event_type == 0 {
        Some(TriggerEvent::NormalRecv)
    } else if e.event_type == 1 {
        Some(TriggerEvent::PaddingRecv)
    } else if e.event_type == 2 {
        Some(TriggerEvent::TunnelRecv)
    } else if e.event_type == 3 {
        Some(TriggerEvent::NormalSent)
    } else if e.event_type == 4 {
        Some(TriggerEvent::PaddingSent { machine })
    } else if e.event_type == 5 {
        Some(TriggerEvent::TunnelSent)
    } else if e.event_type == 6 {
        Some(TriggerEvent::BlockingBegin { machine })
    } else if e.event_type == 7 {
        Some(TriggerEvent::BlockingEnd)
    } else if e.event_type == 8 {
        Some(TriggerEvent::TimerBegin { machine })
    } else if e.event_type == 9 {
        Some(TriggerEvent::TimerEnd { machine })
    } else {
        None
    }
}

pub fn to_trigger_event(e: &TadEvent) -> (r: Option<TriggerEvent>)
    ensures
        r == event_of(*e),
{
    let machine: usize = e.machine;
    match e.event_type {
        0 => Some(TriggerEvent::NormalRecv),
        1 => Some(TriggerEvent::PaddingRecv),
        2 => Some(TriggerEvent::TunnelRecv),
        3 => Some(TriggerEvent::NormalSent),
        4 => Some(TriggerEvent::PaddingSent { machine }),
        5 => Some(TriggerEvent::TunnelSent),
        6 => Some(TriggerEvent::BlockingBegin { machine }),
        7 => Some(TriggerEvent::BlockingEnd),
        8 => Some(TriggerEvent::TimerBegin { machine }),
        9 => Some(TriggerEvent::TimerEnd { machine }),
        // An unknown event type is dropped rather than guessed at: feeding the framework a wrong
        // event is worse than feeding it none.
        _ => None,
    }
}

/// Every event type, under its number, stands for the event of its name.
pub proof fn law_event_types(t: TadEventType, machine: usize)
    ensures
        event_of(TadEvent { event_type: t.code(), machine }) == Some(t.event(machine)),
{
}

/// The known events among `events`, in their order.
pub open spec fn translated(events: Seq<TadEvent>) -> Seq<TriggerEvent>
    decreases events.len(),
{
    if events.len() == 0 {
        Seq::empty()
    } else {
        match event_of(events.last()) {
            Some(e) => translated(events.drop_last()).push(e),
            None => translated(events.drop_last()),
        }
    }
}

/// The events to feed to the machines.
pub fn translate(events: &[TadEvent]) -> (out: Vec<TriggerEvent>)
    ensures
        out@ == translated(events@),
{
    let mut out: Vec<TriggerEvent> = Vec::new();
    let mut i: usize = 0;
    assert(events@.take(0) =~= Seq::empty());
    while i < events.len()
        invariant
            i <= events@.len(),
            out@ == translated(events@.take(i as int)),
        decreases events@.len() - i,
    {
        assert(events@.take(i + 1).drop_last() =~= events@.take(i as int));
        match to_trigger_event(&events[i]) {
            Some(e) => out.push(e),
            None => {},
        }
        i += 1;
    }
    assert(events@.take(i as int) =~= events@);
    out
}

/// The flat form of an action: what the action does not carry is zero.
pub open spec fn c_action(a: Action) -> TadAction {
    match a {
        Action::Cancel { machine, timer } => TadAction {
            tag: 0,
            machine,
            timer: match timer {
                Timer::Action => 0,
                Timer::Internal => 1,
                Timer::All => 2,
            },
            ..TadAction::blank()
        },
        Action::SendPadding { machine, timeout, replace, bypass } => TadAction {
            tag: 1,
            machine,
            timeout_nanos: clipped(timeout),
            replace,
            bypass,
            ..TadAction::blank()
        },
        Action::BlockOutgoing { machine, timeout, duration, replace, bypass } => TadAction {
            tag: 2,
            machine,
            timeout_nanos: clipped(timeout),
            duration_nanos: clipped(duration),
            replace,
            bypass,
            ..TadAction::blank()
        },
        Action::UpdateTimer { machine, duration, replace } => TadAction {
            tag: 3,
            machine,
            duration_nanos: clipped(duration),
            replace,
            ..TadAction::blank()
        },
    }
}

pub fn to_c_action(a: &Action) -> (out: TadAction)
    ensures
        out == c_action(*a),
{
    let mut out = TadAction::zeroed();
    match *a {
        Action::Cancel { machine, timer } => {
            out.tag = 0;
            out.machine = machine;
            out.timer = match timer {
                Timer::Action => 0,
                Timer::Internal => 1,
                Timer::All => 2,
            };
        },
        Action::SendPadding { machine, timeout, replace, bypass } => {
            out.tag = 1;
            out.machine = machine;
            out.timeout_nanos = nanos(timeout);
            out.replace = replace;
            out.bypass = bypass;
        },
        Action::BlockOutgoing { machine, timeout, duration, replace, bypass } => {
            out.tag = 2;
            out.machine = machine;
            out.timeout_nanos = nanos(timeout);
            out.duration_nanos = nanos(duration);
            out.replace = replace;
            out.bypass = bypass;
        },
        Action::UpdateTimer { machine, duration, replace } => {
            out.tag = 3;
            out.machine = machine;
            out.duration_nanos = nanos(duration);
            out.replace = replace;
        },
    }
    out
}

/// Two actions whose spans fit in 64 bits have the same flat form only if they are the same
/// action: nothing is lost on the way to the C side.
pub proof fn law_flat_actions_lose_nothing(a: Action, b: Action)
    requires
        spans_fit(a),
        spans_fit(b),
        c_action(a) == c_action(b),
    ensures
        a == b,
{
}

/// Whether every span that the action carries is below 2^64 nanoseconds.
pub open spec fn spans_fit(a: Action) -> bool {
    match a {
        Action::Cancel { .. } => true,
        Action::SendPadding { timeout, .. } => timeout.nanos <= u64::MAX,
        Action::BlockOutgoing { timeout, duration, .. } => timeout.nanos <= u64::MAX
            && duration.nanos <= u64::MAX,
        Action::UpdateTimer { duration, .. } => duration.nanos <= u64::MAX,
    }
}

/// How many of `n` actions there is room for.
pub open spec fn drained_len(n: nat, capacity: usize) -> nat {
    if n < capacity {
        n
    } else {
        capacity as nat
    }
}

/// Drain actions: the second half, once the machines have run. The actions in flat form, as many
/// as there is room for.
pub fn drain_actions(actions: &[Action], capacity: usize) -> (out: Vec<TadAction>)
    ensures
        out@ == Seq::new(
            drained_len(actions@.len(), capacity),
            |i: int| c_action(actions@[i]),
        ),
{
    let n: usize = if actions.len() < capacity {
        actions.len()
    } else {
        capacity
    };
    let mut out: Vec<TadAction> = Vec::new();
    let mut i: usize = 0;
    while i < n
        invariant
            i <= n <= actions@.len(),
            out@ =~= Seq::new(i as nat, |k: int| c_action(actions@[k])),
        decreases n - i,
    {
        out.push(to_c_action(&actions[i]));
        i += 1;
    }
    out
}

/// An engine yields at most one action for each of its machines, so a call that was let through
/// has room for all of them.
pub proof fn law_admitted_call_drains_everything(n: nat, machines: usize, call: OnEventsCall)
    requires
        n <= machines,
        machines <= call.actions_capacity,
    ensures
        drained_len(n, call.actions_capacity) == n,
{
}

/// The number of each result and of each event on the C side.
pub proof fn law_numbers_on_the_c_side(r: TadResult, e: TadEventType)
    ensures
        r.code() == match r {
            TadResult::Success => 0u32,
            TadResult::NullPointer => 1,
            TadResult::NotUtf8 => 2,
            TadResult::MalformedPolicy => 3,
            TadResult::BelowEnforcedFloor => 4,
            TadResult::PeerUnsupported => 5,
            TadResult::EnforcedWithoutProfile => 6,
            TadResult::MachineError => 7,
            TadResult::NothingToRun => 8,
            TadResult::BufferTooSmall => 9,
        },
        e.code() == match e {
            TadEventType::NormalRecv => 0u32,
            TadEventType::PaddingRecv => 1,
            TadEventType::TunnelRecv => 2,
            TadEventType::NormalSent => 3,
            TadEventType::PaddingSent => 4,
            TadEventType::TunnelSent => 5,
            TadEventType::BlockingBegin => 6,
            TadEventType::BlockingEnd => 7,
            TadEventType::TimerBegin => 8,
            TadEventType::TimerEnd => 9,
        },
{
}

/// The event of each type: the one of the same name, for the machine that was named where the
/// event carries one.
pub proof fn law_events_by_name(machine: usize)
    ensures
        TadEventType::NormalRecv.event(machine) == TriggerEvent::NormalRecv,
        TadEventType::PaddingRecv.event(machine) == TriggerEvent::PaddingRecv,
        TadEventType::TunnelRecv.event(machine) == TriggerEvent::TunnelRecv,
        TadEventType::NormalSent.event(machine) == TriggerEvent::NormalSent,
        TadEventType::PaddingSent.event(machine) == (TriggerEvent::PaddingSent { machine }),
        TadEventType::TunnelSent.event(machine) == TriggerEvent::TunnelSent,
        TadEventType::BlockingBegin.event(machine) == (TriggerEvent::BlockingBegin { machine }),
        TadEventType::BlockingEnd.event(machine) == TriggerEvent::BlockingEnd,
        TadEventType::TimerBegin.event(machine) == (TriggerEvent::TimerBegin { machine }),
        TadEventType::TimerEnd.event(machine) == (TriggerEvent::TimerEnd { machine }),
{
}

/// A number that stands for no event is passed over, and no other is: events that were translated
/// stay in their order.
pub proof fn law_unknown_events_are_passed_over(events: Seq<TadEvent>, e: TadEvent)
    ensures
        event_of(e) is None <==> e.event_type > 9,
        translated(Seq::empty()).len() == 0,
        e.event_type > 9 ==> translated(events.push(e)) == translated(events),
        e.event_type <= 9 ==> {
            &&& translated(events.push(e)).len() == translated(events).len() + 1
            &&& translated(events.push(e)).drop_last() == translated(events)
            &&& Some(translated(events.push(e)).last()) == event_of(e)
        },
{
    assert(events.push(e).drop_last() =~= events);
    if event_of(e) is Some {
        assert(translated(events).push(event_of(e)->Some_0).drop_last() =~= translated(events));
    }
}

/// The flat form of an action, field by field. A span of 2^64 nanoseconds or more becomes the
/// largest number that there is.
pub proof fn law_flat_actions(a: Action)
    ensures
        ({
            let c = c_action(a);
            match a {
                Action::Cancel { machine, timer } => {
                    &&& c.tag == 0
                    &&& c.machine == machine
                    &&& timer == Timer::Action ==> c.timer == 0
                    &&& timer == Timer::Internal ==> c.timer == 1
                    &&& timer == Timer::All ==> c.timer == 2
                    &&& c.timeout_nanos == 0 && c.duration_nanos == 0 && !c.replace && !c.bypass
                },
                Action::SendPadding { machine, timeout, replace, bypass } => {
                    &&& c.tag == 1
                    &&& c.machine == machine
                    &&& timeout.nanos < 0x1_0000_0000_0000_0000 ==> c.timeout_nanos == timeout.nanos
                    &&& timeout.nanos >= 0x1_0000_0000_0000_0000 ==> c.timeout_nanos
                        == 0xffff_ffff_ffff_ffff
                    &&& c.replace == replace && c.bypass == bypass
                    &&& c.timer == 0 && c.duration_nanos == 0
                },
                Action::BlockOutgoing { machine, timeout, duration, replace, bypass } => {
                    &&& c.tag == 2
                    &&& c.machine == machine
                    &&& timeout.nanos < 0x1_0000_0000_0000_0000 ==> c.timeout_nanos == timeout.nanos
                    &&& timeout.nanos >= 0x1_0000_0000_0000_0000 ==> c.timeout_nanos
                        == 0xffff_ffff_ffff_ffff
                    &&& duration.nanos < 0x1_0000_0000_0000_0000 ==> c.duration_nanos
                        == duration.nanos
                    &&& duration.nanos >= 0x1_0000_0000_0000_0000 ==> c.duration_nanos
                        == 0xffff_ffff_ffff_ffff
                    &&& c.replace == replace && c.bypass == bypass
                    &&& c.timer == 0
                },
                Action::UpdateTimer { machine, duration, replace } => {
                    &&& c.tag == 3
                    &&& c.machine == machine
                    &&& duration.nanos < 0x1_0000_0000_0000_0000 ==> c.duration_nanos
                        == duration.nanos
                    &&& duration.nanos >= 0x1_0000_0000_0000_0000 ==> c.duration_nanos
                        == 0xffff_ffff_ffff_ffff
                    &&& c.replace == replace
                    &&& c.timer == 0 && c.timeout_nanos == 0 && !c.bypass
                },
            }
        }),
{
}

/// Which result reports which error: the refusals that a user can act on have one each, and
/// everything else that is wrong with a policy is a malformed policy.
pub proof fn law_results_of_errors(e: PolicyError, f: Refusal)
    ensures
        result_of_policy_error(e) == TadResult::BelowEnforcedFloor <==> e is BelowEnforcedFloor,
        result_of_policy_error(e) == TadResult::PeerUnsupported <==> e is PeerUnsupported,
        result_of_policy_error(e) == TadResult::EnforcedWithoutProfile
            <==> e is EnforcedWithoutProfile,
        e is UnknownLevel || e is FractionOutOfRange || e is Malformed ==> result_of_policy_error(e)
            == TadResult::MalformedPolicy,
        f matches Refusal::Policy(p) ==> result_of_refusal(f) == result_of_policy_error(p),
        f is NothingToRun <==> result_of_refusal(f) == TadResult::NothingToRun,
        f is Machines <==> result_of_refusal(f) == TadResult::MachineError,
{
}

/// As many actions are drained as there are and as there is room for, whichever is less.
pub proof fn law_drained_actions(n: nat, capacity: usize)
    ensures
        drained_len(n, capacity) <= n,
        drained_len(n, capacity) <= capacity,
        drained_len(n, capacity) == n || drained_len(n, capacity) == capacity,
{
}

} // verus!
