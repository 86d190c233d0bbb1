//! The enforcement semantics: a policy that a configuration profile delivers is an authoritative
//! floor, not a suggestion.

use std::str::FromStr;
use std::time::Instant;

use dvpn::engine::{is_steady, seed_from, Engine, EngineError};
use dvpn::policy::{DefenseLevel, Fraction, Policy, PolicyError, PolicySource, Role};
use maybenot::Framework;

const PROFILE_JSON: &str = r#"{
    "level": "moderate",
    "enforced": true,
    "require_peer_support": true,
    "max_padding_frac": 0.5,
    "max_blocking_frac": 0.2,
    "constant_packet_size": true,
    "source": "profile"
}"#;

/// What the JSON reader makes of a policy text. What is absent keeps its default.
fn read(json: &str) -> Result<Policy, String> {
    let v: serde_json::Value = serde_json::from_str(json).map_err(|e| e.to_string())?;
    let mut p = Policy::default();
    p.level = match v["level"].as_str() {
        Some("off") => DefenseLevel::Off,
        Some("light") => DefenseLevel::Light,
        Some("moderate") => DefenseLevel::Moderate,
        Some("heavy") => DefenseLevel::Heavy,
        _ => return Err("unknown or missing level".to_string()),
    };
    if let Some(b) = v["enforced"].as_bool() {
        p.enforced = b;
    }
    if let Some(b) = v["require_peer_support"].as_bool() {
        p.require_peer_support = b;
    }
    if let Some(f) = v["max_padding_frac"].as_f64() {
        p.max_padding_frac = Fraction { bits: f.to_bits() };
    }
    if let Some(f) = v["max_blocking_frac"].as_f64() {
        p.max_blocking_frac = Fraction { bits: f.to_bits() };
    }
    if let Some(b) = v["constant_packet_size"].as_bool() {
        p.constant_packet_size = b;
    }
    match v["source"].as_str() {
        None => {}
        Some("default") => p.source = PolicySource::Default,
        Some("user") => p.source = PolicySource::User,
        Some("profile") => p.source = PolicySource::Profile,
        Some(_) => return Err("unknown source".to_string()),
    }
    Ok(p)
}

fn from_json(json: &str) -> Result<Policy, PolicyError> {
    Policy::from_json(read(json))
}

#[test]
fn a_profile_policy_parses_and_locks() {
    let p = from_json(PROFILE_JSON).expect("parses");
    assert_eq!(p.level, DefenseLevel::Moderate);
    assert!(p.enforced);
    assert!(p.is_locked(), "a profile-sourced enforced policy locks the UI");
    assert!(p.constant_packet_size);
}

#[test]
fn the_user_may_raise_the_level_but_not_lower_it() {
    let p = from_json(PROFILE_JSON).unwrap();

    assert_eq!(p.resolve(DefenseLevel::Heavy).unwrap(), DefenseLevel::Heavy);
    assert_eq!(p.resolve(DefenseLevel::Moderate).unwrap(), DefenseLevel::Moderate);

    for below in [DefenseLevel::Light, DefenseLevel::Off] {
        match p.resolve(below) {
            Err(PolicyError::BelowEnforcedFloor { requested, floor }) => {
                assert_eq!(requested, below);
                assert_eq!(floor, DefenseLevel::Moderate);
            }
            other => panic!("expected refusal for {below:?}, got {other:?}"),
        }
    }
}

#[test]
fn refusal_is_explicit_rather_than_a_silent_clamp() {
    // Clamping would be easier and worse: the user would move the control, see it snap back, and
    // learn nothing. An error forces the caller to explain.
    let p = from_json(PROFILE_JSON).unwrap();
    assert!(p.resolve(DefenseLevel::Off).is_err());
    assert!(Engine::start(&p, DefenseLevel::Off, true).is_err());
}

#[test]
fn only_a_profile_may_claim_enforcement() {
    // Otherwise the app's own settings screen could assert authority over the person using it,
    // which is not enforcement, just a locked door with the key taped to it.
    let sneaky = r#"{"level":"heavy","enforced":true,"source":"user"}"#;
    assert_eq!(from_json(sneaky).unwrap_err(), PolicyError::EnforcedWithoutProfile);

    // `source` defaults to "default", which is likewise not a profile.
    let also_sneaky = r#"{"level":"heavy","enforced":true}"#;
    assert_eq!(from_json(also_sneaky).unwrap_err(), PolicyError::EnforcedWithoutProfile);
}

#[test]
fn an_unenforced_policy_lets_the_user_do_anything() {
    let p = from_json(r#"{"level":"moderate","source":"user"}"#).unwrap();
    assert!(!p.is_locked());
    assert_eq!(p.resolve(DefenseLevel::Off).unwrap(), DefenseLevel::Off);
}

#[test]
fn fail_closed_when_the_peer_cannot_hold_up_its_half() {
    let p = from_json(PROFILE_JSON).unwrap();
    match Engine::start(&p, DefenseLevel::Moderate, false) {
        Err(e) => assert!(
            e.message("").contains("peer does not support"),
            "unexpected error: {e:?}"
        ),
        Ok(_) => panic!("should refuse to run a peer-dependent level against a bare peer"),
    }
    // With require_peer_support off, it runs anyway: the operator's choice, but the client
    // machines will be largely inert.
    let lenient = from_json(
        r#"{"level":"moderate","enforced":true,"require_peer_support":false,"source":"profile"}"#,
    )
    .unwrap();
    assert!(Engine::start(&lenient, DefenseLevel::Moderate, false).is_ok());
}

#[test]
fn a_level_with_no_peer_requirement_starts_against_any_peer() {
    let p = from_json(r#"{"level":"light","enforced":true,"source":"profile"}"#).unwrap();
    assert!(!DefenseLevel::Light.requires_peer());
    assert!(Engine::start(&p, DefenseLevel::Light, false).is_ok());
}

#[test]
fn fractions_are_validated() {
    assert!(matches!(
        from_json(r#"{"level":"light","max_padding_frac":1.5}"#),
        Err(PolicyError::FractionOutOfRange("max_padding_frac", _))
    ));
    assert!(matches!(
        from_json(r#"{"level":"light","max_blocking_frac":-0.1}"#),
        Err(PolicyError::FractionOutOfRange("max_blocking_frac", _))
    ));
}

#[test]
fn off_has_nothing_to_run() {
    let p = from_json(r#"{"level":"off","source":"user"}"#).unwrap();
    assert!(matches!(
        Engine::start(&p, DefenseLevel::Off, true),
        Err(EngineError::NothingToRun)
    ));
}

#[test]
fn every_level_builds_the_machines_it_claims() {
    for level in [DefenseLevel::Light, DefenseLevel::Moderate, DefenseLevel::Heavy] {
        for role in [Role::Client, Role::Server] {
            let specs = level.machines(role);
            if specs.is_empty() {
                continue;
            }
            let machines = Engine::machines_for(specs)
                .unwrap_or_else(|e| panic!("{} {:?}: {e:?}", level.as_str(), role));
            assert!(
                !machines.is_empty(),
                "{} {:?} produced no machines",
                level.as_str(),
                role
            );
        }
    }
}

#[test]
fn malformed_json_is_rejected_not_defaulted() {
    assert!(matches!(from_json("{ not json"), Err(PolicyError::Malformed(_))));
    assert!(matches!(
        from_json(r#"{"level":"paranoid"}"#),
        Err(PolicyError::Malformed(_))
    ));
}

#[test]
fn the_default_policy_is_off_and_binds_nobody() {
    let p = Policy::default();
    assert_eq!(p.level, DefenseLevel::Off);
    assert!(!p.enforced && !p.is_locked());
    assert!(p.require_peer_support && p.constant_packet_size);
    assert_eq!(f64::from_bits(p.max_padding_frac.bits), 0.5);
    assert_eq!(f64::from_bits(p.max_blocking_frac.bits), 0.2);
    assert_eq!(p.source, PolicySource::Default);
    assert!(p.validate().is_ok());
}

#[test]
fn the_fraction_bounds_are_those_of_the_numbers() {
    let numbers: [f64; 14] = [
        0.0,
        -0.0,
        1.0,
        0.5,
        0.2,
        f64::MIN_POSITIVE,
        5e-324,
        1.0000000000000002,
        -5e-324,
        2.0,
        f64::MAX,
        f64::INFINITY,
        f64::NEG_INFINITY,
        f64::NAN,
    ];
    for v in numbers {
        let padding = Policy { max_padding_frac: Fraction { bits: v.to_bits() }, ..Policy::default() };
        assert_eq!(padding.validate().is_ok(), (0.0..=1.0).contains(&v), "{v}");
        let blocking =
            Policy { max_blocking_frac: Fraction { bits: v.to_bits() }, ..Policy::default() };
        assert_eq!(blocking.validate().is_ok(), (0.0..=1.0).contains(&v), "{v}");
    }
}

#[test]
fn enforcement_is_checked_before_the_fractions() {
    let p = Policy {
        enforced: true,
        max_padding_frac: Fraction { bits: 2.0f64.to_bits() },
        ..Policy::default()
    };
    assert_eq!(p.validate(), Err(PolicyError::EnforcedWithoutProfile));
}

#[test]
fn level_names_read_back() {
    for level in
        [DefenseLevel::Off, DefenseLevel::Light, DefenseLevel::Moderate, DefenseLevel::Heavy]
    {
        assert_eq!(DefenseLevel::parse(level.as_str()), Ok(level));
        let loud = format!(" \t{}\n", level.as_str().to_uppercase());
        assert_eq!(DefenseLevel::from_str(&loud), Ok(level));
    }
    assert_eq!(
        DefenseLevel::parse(" Paranoid "),
        Err(PolicyError::UnknownLevel("paranoid".to_string()))
    );
    assert!(DefenseLevel::Off < DefenseLevel::Light);
    assert!(DefenseLevel::Moderate < DefenseLevel::Heavy);
}

#[test]
fn policy_errors_say_what_is_wrong() {
    assert_eq!(
        PolicyError::UnknownLevel("x".to_string()).message(""),
        "unknown defense level: x"
    );
    assert_eq!(
        PolicyError::EnforcedWithoutProfile.message(""),
        "only a profile-delivered policy may set enforced = true"
    );
    let bits: u64 = 1.5f64.to_bits();
    assert_eq!(
        PolicyError::FractionOutOfRange("max_padding_frac", Fraction { bits }).message("1.5"),
        "max_padding_frac must be in [0.0, 1.0], got 1.5"
    );
    assert_eq!(
        PolicyError::BelowEnforcedFloor {
            requested: DefenseLevel::Off,
            floor: DefenseLevel::Moderate
        }
        .message(""),
        "defense level off is below the enforced floor moderate"
    );
    assert_eq!(
        PolicyError::PeerUnsupported(DefenseLevel::Heavy).message(""),
        "peer does not support the machines required for level heavy"
    );
    assert_eq!(PolicyError::Malformed("eof".to_string()).message(""), "malformed policy: eof");
    assert_eq!(
        EngineError::from(PolicyError::EnforcedWithoutProfile).message(""),
        "only a profile-delivered policy may set enforced = true"
    );
    assert_eq!(EngineError::Machines("m".to_string()).message(""), "machine error: m");
    assert_eq!(EngineError::NothingToRun.message(""), "defense level has no machines");
}

#[test]
fn every_machine_name_builds_as_many_machines_as_it_stands_for() {
    let one = [
        "noop",
        "netflow",
        "interspace_client",
        "interspace_server",
        "break_pad_client",
        "break_pad_server",
        "scrambler_client",
    ];
    for spec in one {
        assert_eq!(Engine::machines_for(&[spec]).unwrap().len(), 1, "{spec}");
    }
    let server = "scrambler_server 4.0 2.0 1.0 8.0";
    assert_eq!(Engine::machines_for(&[server]).unwrap().len(), 2);
    assert_eq!(Engine::machines_for(&["netflow", server, "noop"]).unwrap().len(), 4);
    assert_eq!(Engine::machines_for(&[]).unwrap().len(), 0);
}

#[test]
fn unknown_machines_are_named_in_the_error() {
    match Engine::machines_for(&["netflow", "no_such_machine", "scrambler_server"]) {
        Err(EngineError::Machines(t)) => assert_eq!(t, "invalid static machine: no_such_machine"),
        other => panic!("unexpected {:?}", other.map(|m| m.len())),
    }
    match Engine::machines_for(&["scrambler_server"]) {
        Err(EngineError::Machines(t)) => {
            assert_eq!(t, "invalid scrambler server defense: scrambler_server")
        }
        other => panic!("unexpected {:?}", other.map(|m| m.len())),
    }
    match Engine::machines_for(&[""]) {
        Err(EngineError::Machines(t)) => assert_eq!(t, "invalid static machine: "),
        other => panic!("unexpected {:?}", other.map(|m| m.len())),
    }
    // Parameters of the wrong number are refused for the family that they belong to.
    let families = [
        ("tamaraw 1.0", "invalid tamaraw defense: tamaraw 1.0"),
        ("regulator_client  1", "invalid regulator client defense: regulator_client  1"),
        ("regulator_server 1 2", "invalid regulator server defense: regulator_server 1 2"),
        ("front 1 2 3 4 5", "invalid front defense: front 1 2 3 4 5"),
        ("scrambler_server 4.0", "invalid scrambler server defense: scrambler_server 4.0"),
        ("a tamaraw front x", "invalid tamaraw defense: a tamaraw front x"),
        ("tamaraw", "invalid static machine: tamaraw"),
        ("netflow ", "invalid static machine: netflow "),
    ];
    for (spec, complaint) in families {
        match Engine::machines_for(&[spec]) {
            Err(EngineError::Machines(t)) => assert_eq!(t, complaint),
            other => panic!("unexpected {:?} for {spec:?}", other.map(|m| m.len())),
        }
    }
}

fn serialized(machines: &[maybenot::Machine]) -> Vec<String> {
    machines.iter().map(|m| m.serialize()).collect()
}

#[test]
fn machines_without_chance_are_always_the_same() {
    let specs = ["netflow", "scrambler_server 4.0 2.0 1.0 8.0", "scrambler_client"];
    let a = Engine::machines_for(&specs).unwrap();
    let b = Engine::machines_from(&specs, &[[7; 32], [8; 32], [9; 32]]).unwrap();
    assert_eq!(serialized(&a), serialized(&b));

    // They come in the order of their specifications.
    let mut parts: Vec<String> = Vec::new();
    for spec in specs {
        parts.extend(serialized(&Engine::machines_for(&[spec]).unwrap()));
    }
    assert_eq!(serialized(&a), parts);
    assert_ne!(parts[0], parts[1]);

    // An engine runs those of its level.
    let p = from_json(PROFILE_JSON).unwrap();
    let e = Engine::start_with_role(&p, DefenseLevel::Heavy, true, Role::Server).unwrap();
    let heavy = Engine::machines_for(DefenseLevel::Heavy.machines(Role::Server)).unwrap();
    assert_eq!(serialized(e.machines()), serialized(&heavy));
}

#[test]
fn drawn_machines_follow_from_their_seeds() {
    let seeds: Vec<[u8; 32]> = (0..32u8).map(|i| [i; 32]).collect();
    assert!(seeds.iter().all(is_steady));
    assert_eq!(seed_from(Ok(seeds[3])), Some(seeds[3]));
    assert_eq!(seed_from(Err(getrandom::Error::UNSUPPORTED)), None);
    for spec in ["interspace_client", "interspace_server"] {
        let mut outcomes: Vec<Vec<String>> = Vec::new();
        for seed in &seeds {
            let a = Engine::machines_from(&[spec], &[*seed]).unwrap();
            let b = Engine::machines_from(&[spec], &[*seed]).unwrap();
            assert_eq!(serialized(&a), serialized(&b), "{spec}");
            outcomes.push(serialized(&a));
        }
        outcomes.sort();
        outcomes.dedup();
        // The client's machine has two choices of two, the server's is never twice the same.
        let expected = if spec == "interspace_client" { 4 } else { 32 };
        assert_eq!(outcomes.len(), expected, "{spec}");
    }
}

#[test]
fn without_a_draw_there_are_no_drawn_machines() {
    let specs = ["netflow", "interspace_client"];
    let seed = [4u8; 32];
    let made = Engine::machines_drawn(&specs, &[None, Some(seed)]).unwrap();
    let expected = Engine::machines_from(&specs, &[[0; 32], seed]).unwrap();
    assert_eq!(serialized(&made), serialized(&expected));
    match Engine::machines_drawn(&specs, &[Some(seed), None]) {
        Err(EngineError::Machines(t)) => {
            assert_eq!(t, "no randomness to draw the machines with")
        }
        other => panic!("unexpected {:?}", other.map(|m| m.len())),
    }
    match Engine::machines_drawn(&["nothing"], &[None]) {
        Err(EngineError::Machines(t)) => assert_eq!(t, "invalid static machine: nothing"),
        other => panic!("unexpected {:?}", other.map(|m| m.len())),
    }
}

#[test]
fn an_engine_runs_the_machines_it_was_given() {
    let p = from_json(PROFILE_JSON).unwrap();
    let drawn = Engine::machines_from(&["interspace_server"], &[[5; 32]]).unwrap();
    let e = Engine::start_with_machines(
        &p,
        DefenseLevel::Moderate,
        false,
        Role::Server,
        drawn.clone(),
    )
    .unwrap();
    assert_eq!((e.level(), e.role()), (DefenseLevel::Moderate, Role::Server));
    assert_eq!(serialized(e.machines()), serialized(&drawn));
    // What stands in the way of any engine stands in the way of this one.
    assert!(matches!(
        Engine::start_with_machines(&p, DefenseLevel::Moderate, false, Role::Client, drawn),
        Err(EngineError::Policy(PolicyError::PeerUnsupported(DefenseLevel::Moderate)))
    ));
}

#[test]
fn an_engine_does_not_start_under_fractions_out_of_range() {
    // A policy that was not validated reaches the engine all the same.
    let p = Policy { level: DefenseLevel::Light, ..Policy::default() };
    let bits = |x: f64| Fraction { bits: x.to_bits() };
    for bad in [1.5, -0.1, f64::NAN, f64::INFINITY] {
        let padding = Policy { max_padding_frac: bits(bad), ..p };
        match Engine::start(&padding, DefenseLevel::Light, true) {
            Err(EngineError::Machines(t)) => {
                assert_eq!(t, "max_padding_frac has to be between [0.0, 1.0]")
            }
            other => panic!("{bad}: {:?}", other.map(|e| e.num_machines())),
        }
        let blocking = Policy { max_blocking_frac: bits(bad), ..p };
        match Engine::start(&blocking, DefenseLevel::Light, true) {
            Err(EngineError::Machines(t)) => {
                assert_eq!(t, "max_blocking_frac has to be between [0.0, 1.0]")
            }
            other => panic!("{bad}: {:?}", other.map(|e| e.num_machines())),
        }
        // The framework says the same.
        let e = Framework::new(Vec::<maybenot::Machine>::new(), bad, 0.5, Instant::now(), rand::rng())
            .map(|_| ())
            .unwrap_err();
        assert_eq!(e.to_string(), "max_padding_frac has to be between [0.0, 1.0]");
    }
    for good in [0.0, -0.0, 1.0] {
        let edge = Policy { max_padding_frac: bits(good), ..p };
        assert!(Engine::start(&edge, DefenseLevel::Light, true).is_ok());
    }
}

#[test]
fn a_started_engine_carries_its_policy() {
    let p = from_json(PROFILE_JSON).unwrap();
    let e = Engine::start(&p, DefenseLevel::Heavy, true).unwrap();
    assert_eq!(e.level(), DefenseLevel::Heavy);
    assert_eq!(e.role(), Role::Client);
    assert!(e.constant_packet_size() && e.locked());
    assert_eq!(e.num_machines(), 1);
    assert_eq!(e.machines().len(), 1);
    assert_eq!(e.max_padding_frac(), p.max_padding_frac);
    assert_eq!(e.max_blocking_frac(), p.max_blocking_frac);

    // The server's end does not ask for a peer.
    let s = Engine::start_with_role(&p, DefenseLevel::Heavy, false, Role::Server).unwrap();
    assert_eq!(s.role(), Role::Server);
    assert_eq!(s.num_machines(), 2);
    // And Light has nothing to run there.
    let light = Policy { level: DefenseLevel::Light, ..p };
    assert!(matches!(
        Engine::start_with_role(&light, DefenseLevel::Light, true, Role::Server),
        Err(EngineError::NothingToRun)
    ));
}
