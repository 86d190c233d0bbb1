//! The calls that the packet-tunnel extension makes, including the paths it must handle: a locked
//! policy, a refused downgrade, and a peer that cannot hold up its half.

use dvpn::engine::{Action, EngineError, Timer, TriggerEvent};
use dvpn::ffi::{
    drain_actions, engine_result, level_from_raw, level_to_raw, policy_result,
    tad_engine_constant_packet_size, tad_engine_num_machines, tad_engine_on_events,
    tad_engine_start, tad_policy_floor, tad_policy_is_locked, tad_policy_parse, to_c_action,
    to_trigger_event, translate, OnEventsCall, TadAction, TadEvent, TadEventType, TadResult,
};
use dvpn::policy::{DefenseLevel, Fraction, Policy, PolicyError, PolicySource};
use dvpn::time::Duration;

const LEVEL_OFF: u32 = 0;
const LEVEL_HEAVY: u32 = 3;

/// What the JSON reader makes of a policy text that gives level, enforcement and source.
fn read(json: &str) -> Result<Policy, String> {
    let v: serde_json::Value = serde_json::from_str(json).map_err(|e| e.to_string())?;
    let level = match v["level"].as_str() {
        Some("off") => DefenseLevel::Off,
        Some("light") => DefenseLevel::Light,
        Some("moderate") => DefenseLevel::Moderate,
        Some("heavy") => DefenseLevel::Heavy,
        _ => return Err("unknown or missing level".to_string()),
    };
    let source = match v["source"].as_str() {
        None | Some("default") => PolicySource::Default,
        Some("user") => PolicySource::User,
        Some("profile") => PolicySource::Profile,
        Some(_) => return Err("unknown source".to_string()),
    };
    let enforced = v["enforced"].as_bool().unwrap_or(false);
    Ok(Policy { level, enforced, source, ..Policy::default() })
}

fn parse(json: &str) -> Result<Policy, TadResult> {
    tad_policy_parse(Some(Some(read(json))), false)
}

#[test]
fn a_downgrade_is_refused_across_the_boundary() {
    let policy = parse(r#"{"level":"moderate","enforced":true,"source":"profile"}"#).unwrap();
    let r = tad_engine_start(Some(&policy), LEVEL_OFF, true, false);
    assert_eq!(r.err(), Some(TadResult::BelowEnforcedFloor));
}

#[test]
fn an_unsupported_peer_is_refused_across_the_boundary() {
    let policy = parse(r#"{"level":"heavy","enforced":true,"source":"profile"}"#).unwrap();
    let r = tad_engine_start(Some(&policy), LEVEL_HEAVY, false, false);
    assert_eq!(r.err(), Some(TadResult::PeerUnsupported));
}

#[test]
fn enforcement_claimed_without_a_profile_is_rejected() {
    assert_eq!(
        parse(r#"{"level":"heavy","enforced":true,"source":"user"}"#).unwrap_err(),
        TadResult::EnforcedWithoutProfile
    );
}

#[test]
fn null_and_undersized_buffers_are_handled() {
    assert_eq!(tad_policy_parse(None, false).unwrap_err(), TadResult::NullPointer);

    let policy = parse(r#"{"level":"light","source":"user"}"#).unwrap();
    let engine = match tad_engine_start(Some(&policy), 1, true, false) {
        Ok(engine) => engine,
        Err(r) => panic!("{r:?}"),
    };

    let call = OnEventsCall {
        events_is_null: true,
        num_events: 0,
        actions_out_is_null: true,
        actions_capacity: 0,
        num_actions_out_is_null: false,
    };
    let r = tad_engine_on_events(Some(engine.num_machines()), call);
    assert_eq!(r, TadResult::BufferTooSmall, "capacity 0 < num_machines");
}

#[test]
fn null_pointers_are_told_apart_from_bad_input() {
    let read_ok = read(r#"{"level":"light"}"#);
    assert_eq!(tad_policy_parse(Some(Some(read_ok)), true).unwrap_err(), TadResult::NullPointer);
    assert_eq!(tad_policy_parse(Some(None), false).unwrap_err(), TadResult::NotUtf8);
    assert_eq!(parse("{").unwrap_err(), TadResult::MalformedPolicy);

    assert!(!tad_policy_is_locked(None));
    assert_eq!(tad_policy_floor(None), 0);
    assert_eq!(tad_engine_num_machines(None), 0);
    assert!(!tad_engine_constant_packet_size(None));

    let p = Policy::default();
    assert_eq!(tad_engine_start(None, 1, true, false).err(), Some(TadResult::NullPointer));
    assert_eq!(tad_engine_start(Some(&p), 1, true, true).err(), Some(TadResult::NullPointer));
    assert_eq!(tad_engine_start(Some(&p), 4, true, false).err(), Some(TadResult::MalformedPolicy));
    assert_eq!(tad_engine_start(Some(&p), 0, true, false).err(), Some(TadResult::NothingToRun));
}

#[test]
fn each_null_pointer_of_a_pump_is_reported() {
    let good = OnEventsCall {
        events_is_null: false,
        num_events: 1,
        actions_out_is_null: false,
        actions_capacity: 2,
        num_actions_out_is_null: false,
    };
    assert_eq!(tad_engine_on_events(Some(2), good), TadResult::Success);
    assert_eq!(tad_engine_on_events(None, good), TadResult::NullPointer);
    for bad in [
        OnEventsCall { events_is_null: true, ..good },
        OnEventsCall { actions_out_is_null: true, ..good },
        OnEventsCall { num_actions_out_is_null: true, ..good },
    ] {
        assert_eq!(tad_engine_on_events(Some(2), bad), TadResult::NullPointer);
    }
    assert_eq!(tad_engine_on_events(Some(3), good), TadResult::BufferTooSmall);
    // No events need no buffer of events.
    let quiet = OnEventsCall { events_is_null: true, num_events: 0, ..good };
    assert_eq!(tad_engine_on_events(Some(2), quiet), TadResult::Success);
}

#[test]
fn results_have_the_numbers_of_the_header() {
    let all = [
        TadResult::Success,
        TadResult::NullPointer,
        TadResult::NotUtf8,
        TadResult::MalformedPolicy,
        TadResult::BelowEnforcedFloor,
        TadResult::PeerUnsupported,
        TadResult::EnforcedWithoutProfile,
        TadResult::MachineError,
        TadResult::NothingToRun,
        TadResult::BufferTooSmall,
    ];
    for (i, r) in all.iter().enumerate() {
        assert_eq!(r.to_u32() as usize, i);
    }
}

#[test]
fn every_error_has_its_result() {
    let frac = Fraction { bits: 2.0f64.to_bits() };
    assert_eq!(
        policy_result(&PolicyError::FractionOutOfRange("max_padding_frac", frac)),
        TadResult::MalformedPolicy
    );
    assert_eq!(
        policy_result(&PolicyError::UnknownLevel("x".to_string())),
        TadResult::MalformedPolicy
    );
    assert_eq!(policy_result(&PolicyError::Malformed("x".to_string())), TadResult::MalformedPolicy);
    assert_eq!(
        engine_result(&EngineError::Policy(PolicyError::PeerUnsupported(DefenseLevel::Heavy))),
        TadResult::PeerUnsupported
    );
    assert_eq!(engine_result(&EngineError::NothingToRun), TadResult::NothingToRun);
    assert_eq!(engine_result(&EngineError::Machines("x".to_string())), TadResult::MachineError);
}

#[test]
fn raw_levels_and_levels_stand_for_each_other() {
    for raw in 0u32..4 {
        assert_eq!(level_to_raw(level_from_raw(raw).unwrap()), raw);
    }
    assert_eq!(level_from_raw(4), None);
    assert_eq!(level_from_raw(u32::MAX), None);
}

#[test]
fn event_numbers_stand_for_events() {
    let machine: usize = 7;
    let table = [
        (TadEventType::NormalRecv, TriggerEvent::NormalRecv),
        (TadEventType::PaddingRecv, TriggerEvent::PaddingRecv),
        (TadEventType::TunnelRecv, TriggerEvent::TunnelRecv),
        (TadEventType::NormalSent, TriggerEvent::NormalSent),
        (TadEventType::PaddingSent, TriggerEvent::PaddingSent { machine }),
        (TadEventType::TunnelSent, TriggerEvent::TunnelSent),
        (TadEventType::BlockingBegin, TriggerEvent::BlockingBegin { machine }),
        (TadEventType::BlockingEnd, TriggerEvent::BlockingEnd),
        (TadEventType::TimerBegin, TriggerEvent::TimerBegin { machine }),
        (TadEventType::TimerEnd, TriggerEvent::TimerEnd { machine }),
    ];
    for (i, (kind, event)) in table.iter().enumerate() {
        assert_eq!(kind.to_u32() as usize, i);
        let flat = TadEvent { event_type: kind.to_u32(), machine };
        assert_eq!(to_trigger_event(&flat), Some(*event));
    }
    // An unknown number is dropped and the others keep their order.
    let events = [
        TadEvent { event_type: 5, machine },
        TadEvent { event_type: 10, machine },
        TadEvent { event_type: 0, machine },
    ];
    assert_eq!(translate(&events), vec![TriggerEvent::TunnelSent, TriggerEvent::NormalRecv]);
}

#[test]
fn actions_flatten_field_by_field() {
    assert_eq!(
        to_c_action(&Action::Cancel { machine: 3, timer: Timer::All }),
        TadAction { tag: 0, machine: 3, timer: 2, ..TadAction::zeroed() }
    );
    assert_eq!(
        to_c_action(&Action::Cancel { machine: 3, timer: Timer::Internal }),
        TadAction { tag: 0, machine: 3, timer: 1, ..TadAction::zeroed() }
    );
    assert_eq!(
        to_c_action(&Action::SendPadding {
            machine: 1,
            timeout: Duration::from_millis(2),
            replace: true,
            bypass: false,
        }),
        TadAction {
            tag: 1,
            machine: 1,
            timeout_nanos: 2_000_000,
            replace: true,
            ..TadAction::zeroed()
        }
    );
    assert_eq!(
        to_c_action(&Action::BlockOutgoing {
            machine: 2,
            timeout: Duration::from_nanos(5),
            duration: Duration::from_nanos(u128::MAX),
            replace: false,
            bypass: true,
        }),
        TadAction {
            tag: 2,
            machine: 2,
            timeout_nanos: 5,
            duration_nanos: u64::MAX,
            bypass: true,
            ..TadAction::zeroed()
        }
    );
    assert_eq!(
        to_c_action(&Action::UpdateTimer {
            machine: 4,
            duration: Duration::from_nanos(9),
            replace: true,
        }),
        TadAction { tag: 3, machine: 4, duration_nanos: 9, replace: true, ..TadAction::zeroed() }
    );
}

#[test]
fn no_more_actions_are_drained_than_there_is_room_for() {
    let actions = [
        Action::Cancel { machine: 0, timer: Timer::Action },
        Action::Cancel { machine: 1, timer: Timer::Action },
    ];
    assert_eq!(drain_actions(&actions, 5).len(), 2);
    let one = drain_actions(&actions, 1);
    assert_eq!(one, vec![TadAction::zeroed()]);
    assert!(drain_actions(&actions, 0).is_empty());
}
