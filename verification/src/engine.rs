//! The defense engine: which machines run, under which policy, and the vocabulary in which the
//! tunnel and the machines speak to each other.
//!
//! The engine owns no I/O. The packet tunnel feeds it events and executes the actions it
//! returns. The contract that the tunnel must honour (get this wrong and the machines
//! mis-schedule):
//!
//! - `TunnelRecv` for every incoming tunnel packet, then `NormalRecv` or `PaddingRecv` once it has
//!   been classified as one of the two. A datagram that fails authentication is no tunnel packet.
//! - `NormalSent` when a real outgoing packet is queued, `TunnelSent` when it leaves.
//! - `PaddingSent { machine }` whenever a `SendPadding` action is honoured, **including when the
//!   padding was replaced** by an already-queued packet.
//! - `BlockingBegin` and `BlockingEnd` around honoured `BlockOutgoing` actions.

use maybenot_machines::{get_machine, StaticMachine};
use rand_chacha::rand_core::{RngCore, SeedableRng};
use rand_chacha::ChaCha12Rng;
use vstd::prelude::*;

use crate::crypto;
use crate::policy;
use crate::policy::{DefenseLevel, Fraction, Policy, PolicyError, Role};
use crate::text;
use crate::time::Duration;

verus! {

/// What the tunnel tells the machines. A machine is known by its number.
#[derive(Clone, Copy, Debug, PartialEq, Eq, Structural)]
pub enum TriggerEvent {
    NormalRecv,
    PaddingRecv,
    TunnelRecv,
    NormalSent,
    PaddingSent { machine: usize },
    TunnelSent,
    BlockingBegin { machine: usize },
    BlockingEnd,
    TimerBegin { machine: usize },
    TimerEnd { machine: usize },
}

/// Which of a machine's timers.
#[derive(Clone, Copy, Debug, PartialEq, Eq, Structural)]
pub enum Timer {
    /// The timer of the pending action.
    Action,
    /// The internal timer.
    Internal,
    /// Both.
    All,
}

/// An action that the tunnel must carry out.
#[derive(Clone, Copy, Debug, PartialEq, Eq, Structural)]
pub enum Action {
    Cancel { machine: usize, timer: Timer },
    /// Inject a padding packet after `timeout`.
    SendPadding { machine: usize, timeout: Duration, replace: bool, bypass: bool },
    /// Hold outgoing traffic for `duration`, starting after `timeout`.
    BlockOutgoing {
        machine: usize,
        timeout: Duration,
        duration: Duration,
        replace: bool,
        bypass: bool,
    },
    UpdateTimer { machine: usize, duration: Duration, replace: bool },
}

#[derive(Debug)]
pub enum EngineError {
    Policy(PolicyError),
    /// A machine specification in the level definition did not parse or validate.
    Machines(String),
    /// The level has no machines, so there is nothing to run.
    NothingToRun,
}

/// What an [`EngineError`] says, its text taken by the characters.
#[verifier::ext_equal]
pub enum Refusal {
    Policy(PolicyError),
    Machines(Seq<char>),
    NothingToRun,
}

impl View for EngineError {
    type V = Refusal;

    open spec fn view(&self) -> Refusal {
        match *self {
            EngineError::Policy(e) => Refusal::Policy(e),
            EngineError::Machines(s) => Refusal::Machines(s@),
            EngineError::NothingToRun => Refusal::NothingToRun,
        }
    }
}

impl EngineError {
    /// The error in words. `fraction` is how the number that it may carry is written.
    pub open spec fn text(self, fraction: Seq<char>) -> Seq<char> {
        match self {
            EngineError::Policy(e) => e.text(fraction),
            EngineError::Machines(s) => "machine error: "@ + s@,
            EngineError::NothingToRun => "defense level has no machines"@,
        }
    }

    /// The error in words. `fraction` is how the number that it may carry is written.
    pub fn message(&self, fraction: &str) -> (s: String)
        ensures
            s@ == self.text(fraction@),
    {
        match self {
            EngineError::Policy(e) => e.message(fraction),
            EngineError::Machines(t) => {
                let mut s = String::new();
                s.append("machine error: ");
                s.append(t.as_str());
                assert(s@ =~= "machine error: "@ + t@);
                s
            },
            EngineError::NothingToRun => {
                let mut s = String::new();
                s.append("defense level has no machines");
                assert(s@ =~= "defense level has no machines"@);
                s
            },
        }
    }
}

impl From<PolicyError> for EngineError {
    fn from(e: PolicyError) -> (t: EngineError) {
        EngineError::Policy(e)
    }
}

impl vstd::std_specs::convert::FromSpecImpl<PolicyError> for EngineError {
    open spec fn obeys_from_spec() -> bool {
        true
    }

    open spec fn from_spec(e: PolicyError) -> EngineError {
        EngineError::Policy(e)
    }
}

/// A Maybenot machine, carried and never looked into.
#[verifier::external_type_specification]
#[verifier::external_body]
pub struct ExMachine(maybenot::Machine);

/// Whether `part` occurs in `s`.
pub open spec fn occurs(s: Seq<char>, part: Seq<char>) -> bool {
    exists|i: int|
        0 <= i && i + part.len() <= s.len() && #[trigger] s.subrange(i, i + part.len()) == part
}

/// How many words there are in `s`, that is, runs of characters that are not whitespace.
pub open spec fn words(s: Seq<char>) -> nat
    decreases s.len(),
{
    if s.len() == 0 {
        0
    } else {
        let rest = s.drop_last();
        let begins = !text::is_whitespace(s.last()) && (rest.len() == 0 || text::is_whitespace(
            rest.last(),
        ));
        words(rest) + if begins {
            1nat
        } else {
            0
        }
    }
}

/// The family of parameterised machines that a specification belongs to, if any, and how many
/// words a specification of that family has.
pub open spec fn family(spec: Seq<char>) -> Option<(Seq<char>, nat)> {
    if occurs(spec, "tamaraw "@) {
        Some(("tamaraw"@, 3))
    } else if occurs(spec, "regulator_client "@) {
        Some(("regulator client"@, 3))
    } else if occurs(spec, "regulator_server "@) {
        Some(("regulator server"@, 6))
    } else if occurs(spec, "front "@) {
        Some(("front"@, 5))
    } else if occurs(spec, "scrambler_server"@) {
        Some(("scrambler server"@, 5))
    } else {
        None
    }
}

/// Whether a specification can be handed to the machine library: the one parameterised machine of
/// the level table, a name without parameters, or a text that is refused for its shape. The
/// parameters of the others are floating-point numbers on some of which the library panics.
pub open spec fn admissible(spec: Seq<char>) -> bool {
    ||| spec == "scrambler_server 4.0 2.0 1.0 8.0"@
    ||| match family(spec) {
        Some((_, n)) => words(spec) != n,
        None => true,
    }
}

/// Whether the machine library draws the machines of a specification at random.
pub open spec fn by_chance(spec: Seq<char>) -> bool {
    spec == "interspace_client"@ || spec == "interspace_server"@
}

/// How many machines an admissible specification stands for, and 0 where it stands for none.
pub open spec fn machine_count(spec: Seq<char>) -> nat {
    if spec == "scrambler_server 4.0 2.0 1.0 8.0"@ {
        2
    } else if spec == "noop"@ || spec == "netflow"@ || spec == "interspace_client"@ || spec
        == "interspace_server"@ || spec == "break_pad_client"@ || spec == "break_pad_server"@
        || spec == "scrambler_client"@ {
        1
    } else {
        0
    }
}

/// What is said of an admissible specification that stands for no machine.
pub open spec fn machine_complaint(spec: Seq<char>) -> Seq<char> {
    match family(spec) {
        Some((name, _)) => "invalid "@ + name + " defense: "@ + spec,
        None => "invalid static machine: "@ + spec,
    }
}

/// The 128 bytes with which the generator that is made from `seed` begins.
pub uninterp spec fn generated(seed: Seq<u8>) -> Seq<u8>;

/// `fill_bytes` of `rand_chacha` on 128 bytes, on a `ChaCha12Rng` that was just made by
/// `from_seed`. The bytes are given a name and nothing is said of them: they are a function of
/// the seed, the same on every machine.
#[verifier::external_body]
fn generate(seed: &[u8; 32]) -> (bytes: [u8; 128])
    ensures
        bytes@ == generated(seed@),
{
    let mut bytes = [0u8; 128];
    ChaCha12Rng::from_seed(*seed).fill_bytes(&mut bytes);
    bytes
}

/// Whether the four bytes at place `k` of `bytes` are all zero.
pub open spec fn zero_word(bytes: Seq<u8>, k: int) -> bool {
    bytes[4 * k] == 0 && bytes[4 * k + 1] == 0 && bytes[4 * k + 2] == 0 && bytes[4 * k + 3] == 0
}

/// Whether the generator that is made from `seed` begins with 32 words none of which is zero.
pub open spec fn steady(seed: Seq<u8>) -> bool {
    forall|k: int| 0 <= k < 32 ==> !#[trigger] zero_word(generated(seed), k)
}

/// Whether machines can be drawn from `seed`: on a seed that is not steady `interspace_server`
/// may come out with a parameter of zero, to which the machine library answers with a panic.
pub fn is_steady(seed: &[u8; 32]) -> (b: bool)
    ensures
        b == steady(seed@),
{
    let bytes = generate(seed);
    let mut k: usize = 0;
    while k < 32
        invariant
            k <= 32,
            bytes@ == generated(seed@),
            forall|j: int| 0 <= j < k ==> !#[trigger] zero_word(generated(seed@), j),
        decreases 32 - k,
    {
        if bytes[4 * k] == 0 && bytes[4 * k + 1] == 0 && bytes[4 * k + 2] == 0 && bytes[4 * k + 3]
            == 0 {
            assert(zero_word(generated(seed@), k as int));
            return false;
        }
        k += 1;
    }
    true
}

/// Whether `spec` can be handed to the machine library together with `seed`.
pub open spec fn buildable(spec: Seq<char>, seed: Seq<u8>) -> bool {
    admissible(spec) && (spec == "interspace_server"@ ==> steady(seed))
}

/// The machines that a specification stands for, drawn with the generator that is made from
/// `seed`.
pub uninterp spec fn built_machines(spec: Seq<char>, seed: Seq<u8>) -> Seq<maybenot::Machine>;

/// `get_machine` of `maybenot-machines` on what `StaticMachine::from_str` makes of `spec`, with a
/// `ChaCha12Rng` made from `seed`. Which specifications are known, how many machines each stands
/// for and what is said of the others is stated for the admissible ones. The machines are given a
/// name: they are a function of the specification and the seed.
///
/// A machine that does not pass `Machine::new` ends in a panic. Of all that it looks at, only the
/// Pareto parameters that `interspace_server` draws can fail: the other parameters are fixed, or
/// drawn from ranges that do not reach 0. A Pareto parameter is made of eight bytes of the
/// generator and fails where it is 0, which is only where the upper four of those bytes are. What
/// `interspace_server` draws takes at most 13 times eight bytes, all within the first 128.
#[verifier::external_body]
fn build_machines(spec: &str, seed: &[u8; 32]) -> (machines: Result<
    Vec<maybenot::Machine>,
    String,
>)
    requires
        buildable(spec@, seed@),
    ensures
        machine_count(spec@) > 0 ==> machines is Ok && machines->Ok_0@ == built_machines(
            spec@,
            seed@,
        ) && machines->Ok_0@.len() == machine_count(spec@),
        machine_count(spec@) == 0 ==> machines is Err && machines->Err_0@ == machine_complaint(
            spec@,
        ),
{
    let parsed: StaticMachine = spec.parse().map_err(|e| format!("{e}"))?;
    Ok(get_machine(&[parsed], &mut ChaCha12Rng::from_seed(*seed)))
}

/// The seed that is handed over where nothing is drawn.
pub open spec fn no_seed() -> Seq<u8> {
    Seq::new(32, |i: int| 0u8)
}

/// The machines that a specification stands for: drawn from `seed` where they are drawn at all.
pub open spec fn machines_of(spec: Seq<char>, seed: Seq<u8>) -> Seq<maybenot::Machine> {
    built_machines(
        spec,
        if by_chance(spec) {
            seed
        } else {
            no_seed()
        },
    )
}

/// The machines that a list of specifications stands for, in order, each drawn from its own seed.
pub open spec fn machine_set(specs: Seq<Seq<char>>, seeds: Seq<[u8; 32]>) -> Seq<
    maybenot::Machine,
>
    decreases specs.len(),
{
    if specs.len() == 0 {
        Seq::empty()
    } else {
        machine_set(specs.drop_last(), seeds.drop_last()) + machines_of(
            specs.last(),
            seeds.last()@,
        )
    }
}

/// Whether some machine of a list of specifications is drawn at random.
pub open spec fn draws(specs: Seq<Seq<char>>) -> bool {
    exists|i: int| 0 <= i < specs.len() && by_chance(#[trigger] specs[i])
}

/// Whether `spec` can be handed to the machine library with what was drawn for it.
pub open spec fn buildable_from(spec: Seq<char>, drawn: Option<[u8; 32]>) -> bool {
    admissible(spec) && (spec == "interspace_server"@ ==> (drawn matches Some(seed) ==> steady(
        seed@,
    )))
}

/// Whether nothing was drawn for some specification whose machines are drawn at random.
pub open spec fn undrawn(specs: Seq<Seq<char>>, drawn: Seq<Option<[u8; 32]>>) -> bool {
    exists|i: int| 0 <= i < specs.len() && by_chance(#[trigger] specs[i]) && drawn[i] is None
}

/// The seeds that were drawn.
pub open spec fn seeds_of(drawn: Seq<Option<[u8; 32]>>) -> Seq<[u8; 32]> {
    drawn.map_values(|d: Option<[u8; 32]>| d->Some_0)
}

/// How many machines a list of specifications stands for.
pub open spec fn total_count(specs: Seq<Seq<char>>) -> nat
    decreases specs.len(),
{
    if specs.len() == 0 {
        0
    } else {
        total_count(specs.drop_last()) + machine_count(specs.last())
    }
}

/// Whether every specification stands for a machine.
pub open spec fn all_known(specs: Seq<Seq<char>>) -> bool {
    forall|i: int| 0 <= i < specs.len() ==> machine_count(#[trigger] specs[i]) > 0
}

/// What is said where the system gives no randomness to draw machines with.
pub open spec fn no_randomness() -> Seq<char> {
    "no randomness to draw the machines with"@
}

/// Whether `e` is what is said of the first specification that stands for no machine.
pub open spec fn complains(specs: Seq<Seq<char>>, e: Refusal) -> bool {
    exists|i: int|
        0 <= i < specs.len() && all_known(specs.take(i)) && machine_count(#[trigger] specs[i]) == 0
            && e == Refusal::Machines(machine_complaint(specs[i]))
}

/// The machines that run, and the policy that they run under.
pub struct Engine {
    machines: Vec<maybenot::Machine>,
    level: DefenseLevel,
    role: Role,
    constant_packet_size: bool,
    locked: bool,
    max_padding_frac: Fraction,
    max_blocking_frac: Fraction,
}

/// Why an engine does not start, and `None` where nothing stands in its way.
pub open spec fn start_fault(
    policy: Policy,
    requested: DefenseLevel,
    peer_supports: bool,
    role: Role,
) -> Option<Refusal> {
    match policy.resolved(requested) {
        Err(e) => Some(Refusal::Policy(e)),
        Ok(level) => if role == Role::Client && !policy.admits_peer(level, peer_supports) {
            Some(Refusal::Policy(PolicyError::PeerUnsupported(level)))
        } else if level.specs(role).len() == 0 {
            Some(Refusal::NothingToRun)
        } else if !policy.max_padding_frac.in_unit_interval() {
            Some(Refusal::Machines("max_padding_frac has to be between [0.0, 1.0]"@))
        } else if !policy.max_blocking_frac.in_unit_interval() {
            Some(Refusal::Machines("max_blocking_frac has to be between [0.0, 1.0]"@))
        } else {
            None
        },
    }
}

impl Engine {
    pub closed spec fn runs(self) -> DefenseLevel {
        self.level
    }

    pub closed spec fn end(self) -> Role {
        self.role
    }

    pub closed spec fn pads_to_constant_size(self) -> bool {
        self.constant_packet_size
    }

    pub closed spec fn pinned(self) -> bool {
        self.locked
    }

    /// The machines that run, in the order in which they are numbered.
    pub closed spec fn held(self) -> Seq<maybenot::Machine> {
        self.machines@
    }

    pub open spec fn size(self) -> nat {
        self.held().len()
    }

    pub closed spec fn padding_cap(self) -> Fraction {
        self.max_padding_frac
    }

    pub closed spec fn blocking_cap(self) -> Fraction {
        self.max_blocking_frac
    }

    /// Build the machine set for a level from one seed for each specification. A seed counts only
    /// where the machines are drawn at random.
    pub fn machines_from(specs: &[&str], seeds: &[[u8; 32]]) -> (r: Result<
        Vec<maybenot::Machine>,
        EngineError,
    >)
        requires
            seeds@.len() == specs@.len(),
            forall|i: int|
                0 <= i < specs@.len() ==> buildable(
                    #[trigger] policy::texts(specs@)[i],
                    seeds@[i]@,
                ),
        ensures
            all_known(policy::texts(specs@)) ==> r is Ok && r->Ok_0@ == machine_set(
                policy::texts(specs@),
                seeds@,
            ) && r->Ok_0@.len() == total_count(policy::texts(specs@)),
            !all_known(policy::texts(specs@)) ==> r is Err && complains(
                policy::texts(specs@),
                r->Err_0@,
            ),
    {
        let ghost all = policy::texts(specs@);
        let blank = [0u8; 32];
        assert(blank@ =~= no_seed());
        let mut machines: Vec<maybenot::Machine> = Vec::new();
        let mut i: usize = 0;
        assert(all.take(0) =~= Seq::empty());
        while i < specs.len()
            invariant
                i <= specs@.len(),
                seeds@.len() == specs@.len(),
                blank@ == no_seed(),
                all == policy::texts(specs@),
                forall|k: int|
                    0 <= k < specs@.len() ==> buildable(#[trigger] all[k], seeds@[k]@),
                all_known(all.take(i as int)),
                machines@ == machine_set(all.take(i as int), seeds@.take(i as int)),
                machines@.len() == total_count(all.take(i as int)),
            decreases specs@.len() - i,
        {
            let spec = specs[i];
            assert(spec@ == all[i as int]);
            assert(buildable(all[i as int], seeds@[i as int]@));
            let seed = if is_drawn(spec) {
                &seeds[i]
            } else {
                &blank
            };
            let mut built = match build_machines(spec, seed) {
                Ok(built) => built,
                Err(complaint) => {
                    assert(machine_count(all[i as int]) == 0);
                    return Err(EngineError::Machines(complaint));
                },
            };
            machines.append(&mut built);
            proof {
                let next = all.take(i + 1);
                assert(next.drop_last() =~= all.take(i as int));
                assert(seeds@.take(i + 1).drop_last() =~= seeds@.take(i as int));
                assert forall|k: int| 0 <= k < next.len() implies machine_count(#[trigger] next[k])
                    > 0 by {
                    if k < i {
                        assert(next[k] == all.take(i as int)[k]);
                    }
                }
            }
            i += 1;
        }
        assert(all.take(i as int) =~= all);
        assert(seeds@.take(i as int) =~= seeds@);
        Ok(machines)
    }

    /// Build the machine set for a level from what was drawn for each specification: a seed, or
    /// nothing. A draw counts only where the machines are drawn at random, and without one there
    /// are no machines.
    pub fn machines_drawn(specs: &[&str], draws: &[Option<[u8; 32]>]) -> (r: Result<
        Vec<maybenot::Machine>,
        EngineError,
    >)
        requires
            draws@.len() == specs@.len(),
            forall|i: int|
                0 <= i < specs@.len() ==> buildable_from(
                    #[trigger] policy::texts(specs@)[i],
                    draws@[i],
                ),
        ensures
            undrawn(policy::texts(specs@), draws@) ==> r is Err && r->Err_0@ == Refusal::Machines(
                no_randomness(),
            ),
            !undrawn(policy::texts(specs@), draws@) && all_known(policy::texts(specs@)) ==> r is Ok
                && r->Ok_0@ == machine_set(policy::texts(specs@), seeds_of(draws@))
                && r->Ok_0@.len() == total_count(policy::texts(specs@)),
            !undrawn(policy::texts(specs@), draws@) && !all_known(policy::texts(specs@)) ==> r is Err
                && complains(policy::texts(specs@), r->Err_0@),
    {
        let ghost all = policy::texts(specs@);
        let mut seeds: Vec<[u8; 32]> = Vec::new();
        let mut i: usize = 0;
        while i < specs.len()
            invariant
                i <= specs@.len(),
                draws@.len() == specs@.len(),
                seeds@.len() == i,
                all == policy::texts(specs@),
                forall|k: int| 0 <= k < specs@.len() ==> buildable_from(#[trigger] all[k], draws@[k]),
                forall|k: int| 0 <= k < i ==> buildable(#[trigger] all[k], seeds@[k]@),
                forall|k: int|
                    0 <= k < i ==> (by_chance(#[trigger] all[k]) ==> draws@[k] == Some(seeds@[k])),
            decreases specs@.len() - i,
        {
            let spec = specs[i];
            assert(spec@ == all[i as int]);
            assert(buildable_from(all[i as int], draws@[i as int]));
            let mut seed = [0u8; 32];
            if is_drawn(spec) {
                match draws[i] {
                    Some(drawn) => {
                        seed = drawn;
                    },
                    None => {
                        assert(undrawn(all, draws@));
                        let mut complaint = String::new();
                        complaint.append("no randomness to draw the machines with");
                        assert(complaint@ =~= no_randomness());
                        return Err(EngineError::Machines(complaint));
                    },
                }
            }
            seeds.push(seed);
            i += 1;
        }
        proof {
            assert(!undrawn(all, draws@));
            lemma_only_drawn_seeds_count(all, seeds@, seeds_of(draws@));
        }
        Engine::machines_from(specs, &seeds)
    }

    /// Build the machine set for a level.
    ///
    /// Exposed separately so that the server side can build its counterpart set from the same
    /// definitions. Where machines are drawn at random, each is drawn from fresh seeds, and it is
    /// for the system's random number source to say whether there are any;
    /// [`Engine::machines_drawn`] says what is made of them.
    pub fn machines_for(specs: &[&str]) -> (r: Result<Vec<maybenot::Machine>, EngineError>)
        requires
            forall|i: int| 0 <= i < specs@.len() ==> admissible(#[trigger] policy::texts(specs@)[i]),
        ensures
            match r {
                Ok(machines) => {
                    &&& all_known(policy::texts(specs@))
                    &&& machines@.len() == total_count(policy::texts(specs@))
                    &&& exists|seeds: Seq<[u8; 32]>|
                        seeds.len() == specs@.len() && machines@ == #[trigger] machine_set(
                            policy::texts(specs@),
                            seeds,
                        )
                },
                Err(e) => {
                    ||| complains(policy::texts(specs@), e@)
                    ||| draws(policy::texts(specs@)) && e@ == Refusal::Machines(no_randomness())
                },
            },
    {
        let ghost all = policy::texts(specs@);
        let mut given: Vec<Option<[u8; 32]>> = Vec::new();
        while given.len() < specs.len()
            invariant
                given@.len() <= specs@.len(),
                all == policy::texts(specs@),
                forall|k: int| 0 <= k < specs@.len() ==> admissible(#[trigger] all[k]),
                forall|k: int|
                    0 <= k < given@.len() ==> buildable_from(#[trigger] all[k], given@[k]),
            decreases specs@.len() - given@.len(),
        {
            let spec = specs[given.len()];
            assert(spec@ == all[given@.len() as int]);
            assert(admissible(all[given@.len() as int]));
            let drawn = if is_drawn(spec) {
                draw_seed()
            } else {
                None
            };
            given.push(drawn);
        }
        let r = Engine::machines_drawn(specs, &given);
        proof {
            if undrawn(all, given@) {
                assert(draws(all));
            }
        }
        r
    }

    /// Why an engine does not start, if something stands in its way before any machine is built.
    fn cleared(
        policy: &Policy,
        requested: DefenseLevel,
        peer_supports: bool,
        role: Role,
    ) -> (r: Result<DefenseLevel, EngineError>)
        ensures
            match start_fault(*policy, requested, peer_supports, role) {
                Some(f) => r is Err && r->Err_0@ == f,
                None => r is Ok && r->Ok_0 == requested,
            },
    {
        let level = match policy.resolve(requested) {
            Ok(level) => level,
            Err(e) => return Err(EngineError::Policy(e)),
        };
        if role == Role::Client {
            match policy.preflight(level, peer_supports) {
                Ok(()) => {},
                Err(e) => return Err(EngineError::Policy(e)),
            }
        }
        let specs = level.machines(role);
        assert(policy::texts(specs@).len() == specs@.len());
        if specs.len() == 0 {
            return Err(EngineError::NothingToRun);
        }
        if !policy.max_padding_frac.is_in_unit_interval() {
            let mut complaint = String::new();
            complaint.append("max_padding_frac has to be between [0.0, 1.0]");
            assert(complaint@ =~= "max_padding_frac has to be between [0.0, 1.0]"@);
            return Err(EngineError::Machines(complaint));
        }
        if !policy.max_blocking_frac.is_in_unit_interval() {
            let mut complaint = String::new();
            complaint.append("max_blocking_frac has to be between [0.0, 1.0]");
            assert(complaint@ =~= "max_blocking_frac has to be between [0.0, 1.0]"@);
            return Err(EngineError::Machines(complaint));
        }
        Ok(level)
    }

    fn running(policy: &Policy, level: DefenseLevel, role: Role, machines: Vec<maybenot::Machine>)
        -> (e: Engine)
        ensures
            e.runs_under(*policy, level, role),
            e.held() == machines@,
    {
        Engine {
            machines,
            level,
            role,
            constant_packet_size: policy.constant_packet_size,
            locked: policy.is_locked(),
            max_padding_frac: policy.max_padding_frac,
            max_blocking_frac: policy.max_blocking_frac,
        }
    }

    /// Start a client-side engine at `requested`, subject to `policy`.
    ///
    /// Refuses with [`PolicyError::BelowEnforcedFloor`] if the request undercuts an enforced
    /// floor, and with [`PolicyError::PeerUnsupported`] if the peer cannot hold up its half.
    pub fn start(policy: &Policy, requested: DefenseLevel, peer_supports: bool) -> (r: Result<
        Engine,
        EngineError,
    >)
        ensures
            match start_fault(*policy, requested, peer_supports, Role::Client) {
                Some(f) => r is Err && r->Err_0@ == f,
                None => match r {
                    Ok(e) => e.started(*policy, requested, Role::Client),
                    Err(e) => requested is Moderate && e@ == Refusal::Machines(no_randomness()),
                },
            },
    {
        Engine::start_with_role(policy, requested, peer_supports, Role::Client)
    }

    /// Whether the engine runs at `level`, at one end of the tunnel, as `policy` says.
    pub open spec fn runs_under(self, policy: Policy, level: DefenseLevel, role: Role) -> bool {
        &&& self.runs() == level
        &&& self.end() == role
        &&& self.pads_to_constant_size() == policy.constant_packet_size
        &&& self.pinned() == policy.pinned()
        &&& self.padding_cap() == policy.max_padding_frac
        &&& self.blocking_cap() == policy.max_blocking_frac
    }

    /// Whether this is an engine that `policy` starts at `level` for one end of the tunnel: its
    /// machines are those of the level table, in order, drawn from some seeds where they are drawn.
    pub open spec fn started(self, policy: Policy, level: DefenseLevel, role: Role) -> bool {
        &&& self.runs_under(policy, level, role)
        &&& self.size() == total_count(level.specs(role))
        &&& exists|seeds: Seq<[u8; 32]>|
            seeds.len() == level.specs(role).len() && self.held() == #[trigger] machine_set(
                level.specs(role),
                seeds,
            )
    }

    /// Start an engine for either end of the tunnel.
    ///
    /// The VPN server runs this library too, with [`Role::Server`]; that is what makes the
    /// defense two-sided, and it is why this is a feature of a VPN that you operate rather than
    /// something that a client can bolt on alone.
    ///
    /// The machines of [`DefenseLevel::Moderate`] are drawn at random. Whether there is any
    /// randomness is for the system to say; [`Engine::start_with_machines`] says what is made of
    /// the machines.
    pub fn start_with_role(
        policy: &Policy,
        requested: DefenseLevel,
        peer_supports: bool,
        role: Role,
    ) -> (r: Result<Engine, EngineError>)
        ensures
            match start_fault(*policy, requested, peer_supports, role) {
                Some(f) => r is Err && r->Err_0@ == f,
                None => match r {
                    Ok(e) => e.started(*policy, requested, role),
                    Err(e) => requested is Moderate && e@ == Refusal::Machines(no_randomness()),
                },
            },
    {
        let level = match Engine::cleared(policy, requested, peer_supports, role) {
            Ok(level) => level,
            Err(e) => return Err(e),
        };
        let specs = level.machines(role);
        proof {
            lemma_level_specs(level, role);
            assert(policy::texts(specs@).len() == specs@.len());
        }
        match Engine::machines_for(specs) {
            Ok(machines) => Ok(Engine::running(policy, level, role, machines)),
            Err(e) => Err(e),
        }
    }

    /// Start an engine for either end of the tunnel with the machines `machines`.
    pub fn start_with_machines(
        policy: &Policy,
        requested: DefenseLevel,
        peer_supports: bool,
        role: Role,
        machines: Vec<maybenot::Machine>,
    ) -> (r: Result<Engine, EngineError>)
        ensures
            match start_fault(*policy, requested, peer_supports, role) {
                Some(f) => r is Err && r->Err_0@ == f,
                None => r is Ok && r->Ok_0.runs_under(*policy, requested, role)
                    && r->Ok_0.held() == machines@,
            },
    {
        match Engine::cleared(policy, requested, peer_supports, role) {
            Ok(level) => Ok(Engine::running(policy, level, role, machines)),
            Err(e) => Err(e),
        }
    }

    pub fn level(&self) -> (l: DefenseLevel)
        ensures
            l == self.runs(),
    {
        self.level
    }

    pub fn role(&self) -> (r: Role)
        ensures
            r == self.end(),
    {
        self.role
    }

    /// Whether the tunnel should pad every packet to a constant size.
    pub fn constant_packet_size(&self) -> (b: bool)
        ensures
            b == self.pads_to_constant_size(),
    {
        self.constant_packet_size
    }

    /// Whether a profile pinned this configuration, that is, the control is locked.
    pub fn locked(&self) -> (b: bool)
        ensures
            b == self.pinned(),
    {
        self.locked
    }

    pub fn num_machines(&self) -> (n: usize)
        ensures
            n == self.size(),
    {
        self.machines.len()
    }

    /// The machines to run, in the order in which they are numbered.
    pub fn machines(&self) -> (m: &[maybenot::Machine])
        ensures
            m@ == self.held(),
    {
        &self.machines
    }

    /// Fraction of traffic that may be padding.
    pub fn max_padding_frac(&self) -> (f: Fraction)
        ensures
            f == self.padding_cap(),
    {
        self.max_padding_frac
    }

    /// Fraction of time that outgoing traffic may be blocked.
    pub fn max_blocking_frac(&self) -> (f: Fraction)
        ensures
            f == self.blocking_cap(),
    {
        self.max_blocking_frac
    }
}

/// Whether the machine library draws the machines of `spec` at random.
fn is_drawn(spec: &str) -> (b: bool)
    ensures
        b == by_chance(spec@),
{
    let name = text::chars_of(spec);
    text::spells(&name, "interspace_client") || text::spells(&name, "interspace_server")
}

/// How often a seed is drawn anew before giving up. One in about 2^27 is not steady.
const DRAWS: usize = 4;

/// What the random number source gave, where it is a steady seed.
pub fn seed_from(source: Result<[u8; 32], getrandom::Error>) -> (seed: Option<[u8; 32]>)
    ensures
        seed == match source {
            Ok(bytes) => if steady(bytes@) {
                Some(bytes)
            } else {
                None
            },
            Err(_) => None,
        },
{
    match source {
        Ok(bytes) => if is_steady(&bytes) {
            Some(bytes)
        } else {
            None
        },
        Err(_) => None,
    }
}

/// A fresh steady seed, if the system's random number source gives one. Whether it does is for
/// the source to say, and [`seed_from`] says what is made of its answer.
fn draw_seed() -> (seed: Option<[u8; 32]>)
    ensures
        seed matches Some(s) ==> steady(s@),
{
    let mut n: usize = 0;
    while n < DRAWS
        invariant
            n <= DRAWS,
        decreases DRAWS - n,
    {
        let seed = seed_from(crypto::random_bytes());
        if seed.is_some() {
            return seed;
        }
        n += 1;
    }
    None
}

/// A text without a character that `part` has does not have `part` in it.
proof fn lemma_does_not_occur(s: Seq<char>, part: Seq<char>, k: int)
    requires
        0 <= k < part.len(),
        forall|i: int| 0 <= i < s.len() ==> #[trigger] s[i] != part[k],
    ensures
        !occurs(s, part),
{
    if occurs(s, part) {
        let i = choose|i: int|
            0 <= i && i + part.len() <= s.len() && #[trigger] s.subrange(i, i + part.len())
                == part;
        assert(s.subrange(i, i + part.len())[k] == s[i + k]);
    }
}

/// A text without a space, and without a character of `scrambler_server`, belongs to no family.
proof fn lemma_no_family(s: Seq<char>, k: int)
    requires
        forall|i: int| 0 <= i < s.len() ==> #[trigger] s[i] != ' ',
        0 <= k < 16,
        forall|i: int| 0 <= i < s.len() ==> #[trigger] s[i] != "scrambler_server"@[k],
    ensures
        family(s) is None,
{
    reveal_strlit("tamaraw ");
    reveal_strlit("regulator_client ");
    reveal_strlit("regulator_server ");
    reveal_strlit("front ");
    reveal_strlit("scrambler_server");
    lemma_does_not_occur(s, "tamaraw "@, 7);
    lemma_does_not_occur(s, "regulator_client "@, 16);
    lemma_does_not_occur(s, "regulator_server "@, 16);
    lemma_does_not_occur(s, "front "@, 5);
    lemma_does_not_occur(s, "scrambler_server"@, k);
}

/// Every machine in the level table is known to the machine library, and those of one level are
/// drawn at random.
pub proof fn lemma_level_specs(level: DefenseLevel, role: Role)
    ensures
        all_known(level.specs(role)),
        forall|i: int| 0 <= i < level.specs(role).len() ==> admissible(#[trigger] level.specs(role)[i]),
        draws(level.specs(role)) == (level is Moderate),
{
    reveal_strlit("netflow");
    reveal_strlit("interspace_client");
    reveal_strlit("interspace_server");
    reveal_strlit("scrambler_client");
    reveal_strlit("scrambler_server");
    reveal_strlit("scrambler_server 4.0 2.0 1.0 8.0");
    let specs = level.specs(role);
    match level {
        DefenseLevel::Off => {},
        DefenseLevel::Light => {
            lemma_no_family("netflow"@, 13);
        },
        DefenseLevel::Moderate => {
            lemma_no_family("interspace_client"@, 5);
            lemma_no_family("interspace_server"@, 5);
            assert(by_chance(specs[0]));
        },
        DefenseLevel::Heavy => {
            lemma_no_family("scrambler_client"@, 13);
        },
    }
    if !(level is Moderate) {
        assert("interspace_client"@.len() == 17 && "interspace_server"@.len() == 17);
        assert forall|i: int| 0 <= i < specs.len() implies !by_chance(#[trigger] specs[i]) by {
            assert(specs[i].len() != 17);
        }
    }
}

/// Seeds that agree wherever machines are drawn at random give the same machines.
proof fn lemma_only_drawn_seeds_count(
    specs: Seq<Seq<char>>,
    a: Seq<[u8; 32]>,
    b: Seq<[u8; 32]>,
)
    requires
        a.len() == specs.len(),
        b.len() == specs.len(),
        forall|i: int| 0 <= i < specs.len() ==> (by_chance(#[trigger] specs[i]) ==> a[i] == b[i]),
    ensures
        machine_set(specs, a) == machine_set(specs, b),
    decreases specs.len(),
{
    if specs.len() > 0 {
        let rest = specs.drop_last();
        assert forall|i: int| 0 <= i < rest.len() && by_chance(#[trigger] rest[i]) implies
            a.drop_last()[i] == b.drop_last()[i] by {
            assert(rest[i] == specs[i]);
        }
        assert(specs[specs.len() - 1] == specs.last());
        lemma_only_drawn_seeds_count(rest, a.drop_last(), b.drop_last());
    }
}

/// Where nothing is drawn at random, the same specifications always stand for the same machines.
pub proof fn law_machines_without_chance_are_fixed(
    specs: Seq<Seq<char>>,
    a: Seq<[u8; 32]>,
    b: Seq<[u8; 32]>,
)
    requires
        !draws(specs),
    ensures
        machine_set(specs, a) == machine_set(specs, b),
    decreases specs.len(),
{
    if specs.len() > 0 {
        let rest = specs.drop_last();
        assert forall|i: int| 0 <= i < rest.len() implies !by_chance(#[trigger] rest[i]) by {
            assert(rest[i] == specs[i]);
        }
        assert(!by_chance(specs[specs.len() - 1]));
        law_machines_without_chance_are_fixed(rest, a.drop_last(), b.drop_last());
    }
}

/// Two engines that start at one level for one end of the tunnel, under whatever policies, run the
/// same machines, except at the level whose machines are drawn at random.
pub proof fn law_engines_of_a_level_agree(
    p: Policy,
    q: Policy,
    level: DefenseLevel,
    role: Role,
    a: Engine,
    b: Engine,
)
    requires
        a.started(p, level, role),
        b.started(q, level, role),
        !(level is Moderate),
    ensures
        a.held() == b.held(),
{
    let specs = level.specs(role);
    lemma_level_specs(level, role);
    let s = choose|seeds: Seq<[u8; 32]>|
        seeds.len() == specs.len() && a.held() == #[trigger] machine_set(specs, seeds);
    let t = choose|seeds: Seq<[u8; 32]>|
        seeds.len() == specs.len() && b.held() == #[trigger] machine_set(specs, seeds);
    law_machines_without_chance_are_fixed(specs, s, t);
}

/// An engine that starts runs the level that was asked for, at or above an enforced floor, and
/// at least one machine. A client that must have a counterpart does not start without one.
pub proof fn law_engine_starts_defended(
    policy: Policy,
    requested: DefenseLevel,
    peer_supports: bool,
    role: Role,
    engine: Engine,
)
    requires
        start_fault(policy, requested, peer_supports, role) is None,
        engine.started(policy, requested, role),
    ensures
        engine.runs() == requested,
        policy.enforced ==> policy.level.strength() <= engine.runs().strength(),
        engine.size() >= 1,
        role == Role::Client && requested.needs_peer() && policy.require_peer_support
            ==> peer_supports,
{
    let specs = requested.specs(role);
    lemma_level_specs(requested, role);
    assert(specs.len() == 1);
    assert(specs.drop_last() =~= Seq::empty());
    assert(machine_count(specs[0]) > 0);
}

/// Exactly what stands in the way of an engine, in the order in which it is looked for: a request
/// below an enforced floor; at the client's end, a level that needs a peer, against a peer without
/// machines, under a policy that asks for one; a level without machines at this end; fractions that
/// are not between 0 and 1.
pub proof fn law_what_stands_in_the_way(
    p: Policy,
    level: DefenseLevel,
    peer_supports: bool,
    role: Role,
)
    ensures
        ({
            let f = start_fault(p, level, peer_supports, role);
            let below = p.enforced && level.strength() < p.level.strength();
            let alone = role == Role::Client && (level == DefenseLevel::Moderate || level
                == DefenseLevel::Heavy) && !peer_supports && p.require_peer_support;
            let idle = level == DefenseLevel::Off || (level == DefenseLevel::Light && role
                == Role::Server);
            &&& below ==> f == Some(
                Refusal::Policy(
                    PolicyError::BelowEnforcedFloor { requested: level, floor: p.level },
                ),
            )
            &&& !below && alone ==> f == Some(Refusal::Policy(PolicyError::PeerUnsupported(level)))
            &&& !below && !alone && idle ==> f == Some(Refusal::NothingToRun)
            &&& !below && !alone && !idle && !p.max_padding_frac.in_unit_interval() ==> f == Some(
                Refusal::Machines("max_padding_frac has to be between [0.0, 1.0]"@),
            )
            &&& !below && !alone && !idle && p.max_padding_frac.in_unit_interval()
                && !p.max_blocking_frac.in_unit_interval() ==> f == Some(
                Refusal::Machines("max_blocking_frac has to be between [0.0, 1.0]"@),
            )
            &&& f is None <==> !below && !alone && !idle && p.max_padding_frac.in_unit_interval()
                && p.max_blocking_frac.in_unit_interval()
        }),
{
}

/// The machines of two lists of specifications, one behind the other, are those of the first and
/// then those of the second.
pub proof fn law_machine_sets_add_up(
    a: Seq<Seq<char>>,
    s: Seq<[u8; 32]>,
    b: Seq<Seq<char>>,
    t: Seq<[u8; 32]>,
)
    requires
        a.len() == s.len(),
        b.len() == t.len(),
    ensures
        machine_set(a + b, s + t) == machine_set(a, s) + machine_set(b, t),
        total_count(a + b) == total_count(a) + total_count(b),
    decreases b.len(),
{
    if b.len() == 0 {
        assert(a + b =~= a);
        assert(s + t =~= s);
        assert(machine_set(a, s) + machine_set(b, t) =~= machine_set(a, s));
    } else {
        law_machine_sets_add_up(a, s, b.drop_last(), t.drop_last());
        assert((a + b).drop_last() =~= a + b.drop_last());
        assert((s + t).drop_last() =~= s + t.drop_last());
        assert((a + b).last() == b.last());
        assert((s + t).last() == t.last());
        assert(machine_set(a + b, s + t) =~= machine_set(a, s) + machine_set(b, t));
    }
}

/// The machines of one specification are what the machine library builds of it, from the seed
/// where it draws them, and from zeros where it does not.
pub proof fn law_machines_of_one_specification(spec: Seq<char>, seed: [u8; 32])
    ensures
        machine_set(seq![spec], seq![seed]) == built_machines(
            spec,
            if spec == "interspace_client"@ || spec == "interspace_server"@ {
                seed@
            } else {
                Seq::new(32, |i: int| 0u8)
            },
        ),
        total_count(seq![spec]) == machine_count(spec),
{
    let (one, s) = (seq![spec], seq![seed]);
    assert(one.drop_last() =~= Seq::empty());
    assert(one.last() == spec);
    assert(s.last() == seed);
    assert(machine_set(one.drop_last(), s.drop_last()) =~= Seq::empty());
    assert(total_count(one.drop_last()) == 0);
    assert(machine_set(one, s) =~= machines_of(spec, seed@));
}

/// A steady seed starts the generator with no eight bytes, at a place that eight divides, whose
/// upper four are all zero.
pub proof fn law_steady_seeds(seed: Seq<u8>, k: int)
    requires
        steady(seed),
        0 <= k < 16,
    ensures
        ({
            let g = generated(seed);
            g[8 * k + 4] != 0 || g[8 * k + 5] != 0 || g[8 * k + 6] != 0 || g[8 * k + 7] != 0
        }),
{
    assert(!zero_word(generated(seed), 2 * k + 1));
}

/// The complaint about a list of specifications is about the first that stands for no machine.
pub proof fn law_first_unknown_machine_is_named(specs: Seq<Seq<char>>, e: Refusal, i: int)
    requires
        complains(specs, e),
        0 <= i < specs.len(),
        machine_count(specs[i]) == 0,
        forall|k: int| 0 <= k < i ==> machine_count(#[trigger] specs[k]) > 0,
    ensures
        e == Refusal::Machines(machine_complaint(specs[i])),
{
    let k = choose|k: int|
        0 <= k < specs.len() && all_known(specs.take(k)) && machine_count(#[trigger] specs[k]) == 0
            && e == Refusal::Machines(machine_complaint(specs[k]));
    if i < k {
        assert(specs.take(k)[i] == specs[i]);
    }
}

/// What was drawn for each specification is the seed that its machines are drawn from.
pub proof fn law_drawn_seeds(drawn: Seq<Option<[u8; 32]>>, i: int)
    requires
        0 <= i < drawn.len(),
        drawn[i] is Some,
    ensures
        seeds_of(drawn).len() == drawn.len(),
        Some(seeds_of(drawn)[i]) == drawn[i],
{
}

} // verus!
