//! The policy layer: what makes the defense *enforceable* rather than merely available.
//!
//! A policy arrives from one of two places, and the difference is the whole point. A
//! [`PolicySource::Profile`] is the dictionary that a configuration profile populated, which the
//! user cannot edit without removing the profile; a [`PolicySource::User`] is the app's own
//! settings. A profile-sourced policy with `enforced = true` establishes a *floor*. The user may
//! raise the defense level above it; any attempt to go below is refused rather than silently
//! clamped, so that the control can be shown as locked and the reason explained.

use vstd::arithmetic::power2::*;
use vstd::prelude::*;

use crate::text;

verus! {

/// How much cover traffic the defense is allowed to generate.
///
/// Ordered: a higher level is strictly more protective and strictly more expensive.
#[derive(Clone, Copy, Debug, PartialEq, Eq, PartialOrd, Ord, Structural)]
pub enum DefenseLevel {
    /// No machines. The tunnel is a plain tunnel.
    Off,
    /// Coarsen NetFlow records only. Negligible overhead; does not defend against website
    /// fingerprinting.
    Light,
    /// Interspace. General-purpose website-fingerprinting defense.
    Moderate,
    /// Scrambler. Aimed at traffic with strong shape signal (video, large page loads).
    Heavy,
}

/// Which end of the tunnel an engine is running on.
///
/// The same library runs on the phone and on the VPN server; only the machine set differs.
#[derive(Clone, Copy, Debug, PartialEq, Eq, Structural)]
pub enum Role {
    Client,
    Server,
}

/// The characters of each string.
pub open spec fn texts(list: Seq<&str>) -> Seq<Seq<char>> {
    list.map_values(|s: &str| s@)
}

impl DefenseLevel {
    /// The place of the level in the order of protection.
    pub open spec fn strength(self) -> int {
        match self {
            DefenseLevel::Off => 0,
            DefenseLevel::Light => 1,
            DefenseLevel::Moderate => 2,
            DefenseLevel::Heavy => 3,
        }
    }

    pub open spec fn name(self) -> Seq<char> {
        match self {
            DefenseLevel::Off => "off"@,
            DefenseLevel::Light => "light"@,
            DefenseLevel::Moderate => "moderate"@,
            DefenseLevel::Heavy => "heavy"@,
        }
    }

    /// The level that a text names, whatever its case and the whitespace around it.
    pub open spec fn named(s: Seq<char>) -> Option<DefenseLevel> {
        let name = text::lowered(text::trimmed(s));
        if name == "off"@ {
            Some(DefenseLevel::Off)
        } else if name == "light"@ {
            Some(DefenseLevel::Light)
        } else if name == "moderate"@ {
            Some(DefenseLevel::Moderate)
        } else if name == "heavy"@ {
            Some(DefenseLevel::Heavy)
        } else {
            None
        }
    }

    pub open spec fn client_specs(self) -> Seq<Seq<char>> {
        match self {
            DefenseLevel::Off => seq![],
            DefenseLevel::Light => seq!["netflow"@],
            DefenseLevel::Moderate => seq!["interspace_client"@],
            DefenseLevel::Heavy => seq!["scrambler_client"@],
        }
    }

    pub open spec fn server_specs(self) -> Seq<Seq<char>> {
        match self {
            DefenseLevel::Off => seq![],
            DefenseLevel::Light => seq![],
            DefenseLevel::Moderate => seq!["interspace_server"@],
            DefenseLevel::Heavy => seq!["scrambler_server 4.0 2.0 1.0 8.0"@],
        }
    }

    pub open spec fn specs(self, role: Role) -> Seq<Seq<char>> {
        match role {
            Role::Client => self.client_specs(),
            Role::Server => self.server_specs(),
        }
    }

    /// Whether the level is meaningless without machines at the other end.
    pub open spec fn needs_peer(self) -> bool {
        self is Moderate || self is Heavy
    }

    fn rank(self) -> (n: u8)
        ensures
            n == self.strength(),
    {
        match self {
            DefenseLevel::Off => 0,
            DefenseLevel::Light => 1,
            DefenseLevel::Moderate => 2,
            DefenseLevel::Heavy => 3,
        }
    }

    pub fn as_str(self) -> (s: &'static str)
        ensures
            s@ == self.name(),
    {
        match self {
            DefenseLevel::Off => "off",
            DefenseLevel::Light => "light",
            DefenseLevel::Moderate => "moderate",
            DefenseLevel::Heavy => "heavy",
        }
    }

    /// Client-side machine specifications for this level, in `maybenot-machines` string form.
    pub fn client_machines(self) -> (list: &'static [&'static str])
        ensures
            texts(list@) == self.client_specs(),
    {
        let list: &'static [&'static str] = match self {
            DefenseLevel::Off => &[],
            DefenseLevel::Light => &["netflow"],
            DefenseLevel::Moderate => &["interspace_client"],
            DefenseLevel::Heavy => &["scrambler_client"],
        };
        assert(texts(list@) =~= self.client_specs());
        list
    }

    /// Machines that the *peer* must run for this level to actually defend anything.
    ///
    /// Maybenot machines are paired: the client shapes what it sends, the server shapes what it
    /// sends back. Downstream traffic carries most of the website-fingerprinting signal, so a
    /// client-only deployment defends roughly the direction that matters least.
    pub fn server_machines(self) -> (list: &'static [&'static str])
        ensures
            texts(list@) == self.server_specs(),
    {
        let list: &'static [&'static str] = match self {
            DefenseLevel::Off => &[],
            // NetFlow coarsening is symmetric and self-contained; no peer machine.
            DefenseLevel::Light => &[],
            DefenseLevel::Moderate => &["interspace_server"],
            DefenseLevel::Heavy => &["scrambler_server 4.0 2.0 1.0 8.0"],
        };
        assert(texts(list@) =~= self.server_specs());
        list
    }

    /// Machine specifications for one end of the tunnel.
    pub fn machines(self, role: Role) -> (list: &'static [&'static str])
        ensures
            texts(list@) == self.specs(role),
    {
        match role {
            Role::Client => self.client_machines(),
            Role::Server => self.server_machines(),
        }
    }

    /// Whether this level is meaningless without peer-side machines.
    pub fn requires_peer(self) -> (r: bool)
        ensures
            r == self.needs_peer(),
            r == (self.server_specs().len() > 0),
    {
        let list = self.server_machines();
        assert(texts(list@).len() == list@.len());
        list.len() != 0
    }

    /// Reads the name of a level.
    pub fn parse(s: &str) -> (r: Result<DefenseLevel, PolicyError>)
        ensures
            match DefenseLevel::named(s@) {
                Some(level) => r == Ok::<DefenseLevel, PolicyError>(level),
                None => r matches Err(PolicyError::UnknownLevel(t)) && t@ == text::lowered(
                    text::trimmed(s@),
                ),
            },
    {
        let all = text::chars_of(s);
        let name = text::to_lower(text::trim(&all));
        if text::spells(&name, "off") {
            Ok(DefenseLevel::Off)
        } else if text::spells(&name, "light") {
            Ok(DefenseLevel::Light)
        } else if text::spells(&name, "moderate") {
            Ok(DefenseLevel::Moderate)
        } else if text::spells(&name, "heavy") {
            Ok(DefenseLevel::Heavy)
        } else {
            Err(PolicyError::UnknownLevel(text::string_of(&name)))
        }
    }
}

impl std::str::FromStr for DefenseLevel {
    type Err = PolicyError;

    fn from_str(s: &str) -> (r: Result<DefenseLevel, PolicyError>)
        ensures
            match DefenseLevel::named(s@) {
                Some(level) => r == Ok::<DefenseLevel, PolicyError>(level),
                None => r matches Err(PolicyError::UnknownLevel(t)) && t@ == text::lowered(
                    text::trimmed(s@),
                ),
            },
    {
        DefenseLevel::parse(s)
    }
}

#[derive(Clone, Copy, Debug, PartialEq, Eq, Structural)]
pub enum PolicySource {
    /// Built-in fallback used when nothing else supplied a policy.
    Default,
    /// The app's own settings.
    User,
    /// A configuration profile.
    Profile,
}

/// A number as its IEEE 754 double-precision bit pattern: one bit of sign, eleven of exponent,
/// fifty-two of mantissa.
#[derive(Clone, Copy, Debug, PartialEq, Eq, Structural)]
pub struct Fraction {
    pub bits: u64,
}

impl Fraction {
    pub open spec fn negative(self) -> bool {
        self.bits >= 0x8000_0000_0000_0000
    }

    pub open spec fn exponent(self) -> nat {
        (self.bits / 0x10_0000_0000_0000 % 2048) as nat
    }

    pub open spec fn mantissa(self) -> nat {
        (self.bits % 0x10_0000_0000_0000) as nat
    }

    /// Whether the pattern stands for a number at all, and a finite one.
    pub open spec fn finite(self) -> bool {
        self.exponent() < 2047
    }

    /// The size of a finite number without its sign, in units of 2^-1074, the smallest step that
    /// there is.
    pub open spec fn magnitude(self) -> nat {
        if self.exponent() == 0 {
            self.mantissa()
        } else {
            ((pow2(52) + self.mantissa()) * pow2((self.exponent() - 1) as nat)) as nat
        }
    }

    /// Whether the number is at least 0 and at most 1.
    pub open spec fn in_unit_interval(self) -> bool {
        &&& self.finite()
        &&& self.negative() ==> self.magnitude() == 0
        &&& self.magnitude() <= pow2(1074)
    }

    /// One half.
    pub fn half() -> (f: Fraction)
        ensures
            f.bits == 0x3FE0_0000_0000_0000,
    {
        Fraction { bits: 0x3FE0_0000_0000_0000 }
    }

    /// The double-precision number closest to one fifth.
    pub fn fifth() -> (f: Fraction)
        ensures
            f.bits == 0x3FC9_9999_9999_999A,
    {
        Fraction { bits: 0x3FC9_9999_9999_999A }
    }

    pub(crate) fn is_in_unit_interval(self) -> (r: bool)
        ensures
            r == self.in_unit_interval(),
    {
        proof {
            lemma_unit_interval(self);
        }
        self.bits <= 0x3FF0_0000_0000_0000 || self.bits == 0x8000_0000_0000_0000
    }
}

/// The patterns of the numbers from 0 to 1: negative zero, and everything from zero up to the
/// pattern of one.
pub proof fn lemma_unit_interval(f: Fraction)
    ensures
        f.in_unit_interval() <==> f.bits <= 0x3FF0_0000_0000_0000 || f.bits
            == 0x8000_0000_0000_0000,
{
    let e = f.exponent();
    let m = f.mantissa();
    lemma_pow2_pos(52);
    assert(pow2(52) == 0x10_0000_0000_0000) by {
        lemma2_to64_rest();
    }
    assert(f.bits == (if f.negative() { 2048int } else { 0 }) * 0x10_0000_0000_0000 + e
        * 0x10_0000_0000_0000 + m);
    if e == 0 {
        lemma_pow2_strictly_increases(52, 1074);
    } else {
        let p = pow2((e - 1) as nat);
        lemma_pow2_pos((e - 1) as nat);
        let whole = pow2(52) + m;
        assert(whole * p >= p) by (nonlinear_arith)
            requires
                whole >= 1,
                p >= 1,
        ;
        if e <= 1022 {
            lemma_pow2_adds(53, (e - 1) as nat);
            lemma_pow2_adds(1, 52);
            lemma2_to64();
            assert(pow2(53) == 2 * pow2(52));
            assert(whole * p <= pow2(53) * p) by (nonlinear_arith)
                requires
                    whole <= pow2(53),
                    p >= 1,
            ;
            if 53 + (e - 1) < 1074 {
                lemma_pow2_strictly_increases((53 + (e - 1)) as nat, 1074);
            }
        } else {
            lemma_pow2_adds(52, (e - 1) as nat);
            if e == 1023 {
                assert(whole * p == pow2(52) * p + m * p) by (nonlinear_arith)
                    requires
                        whole == pow2(52) + m,
                ;
                assert(m >= 1 ==> m * p >= 1) by (nonlinear_arith)
                    requires
                        p >= 1,
                ;
                assert(m == 0 ==> m * p == 0) by (nonlinear_arith);
            } else {
                lemma_pow2_strictly_increases(1074, (52 + (e - 1)) as nat);
                assert(whole * p >= pow2(52) * p) by (nonlinear_arith)
                    requires
                        whole >= pow2(52),
                        p >= 1,
                ;
            }
        }
    }
}

#[derive(Clone, Debug, PartialEq)]
pub enum PolicyError {
    UnknownLevel(String),
    /// `enforced` was set by something other than a configuration profile. Only a
    /// profile-sourced policy may bind the user, otherwise the app's own settings could claim to
    /// be enforcing against the person operating them.
    EnforcedWithoutProfile,
    FractionOutOfRange(&'static str, Fraction),
    /// The user asked for a level below the enforced floor.
    BelowEnforcedFloor { requested: DefenseLevel, floor: DefenseLevel },
    /// The peer cannot run the machines this level needs, and the policy says fail closed.
    PeerUnsupported(DefenseLevel),
    Malformed(String),
}

impl PolicyError {
    /// The error in words. `fraction` is how the number that it may carry is written.
    pub open spec fn text(self, fraction: Seq<char>) -> Seq<char> {
        match self {
            PolicyError::UnknownLevel(s) => "unknown defense level: "@ + s@,
            PolicyError::EnforcedWithoutProfile =>
            "only a profile-delivered policy may set enforced = true"@,
            PolicyError::FractionOutOfRange(k, v) => k@ + " must be in [0.0, 1.0], got "@
                + fraction,
            PolicyError::BelowEnforcedFloor { requested, floor } => "defense level "@
                + requested.name() + " is below the enforced floor "@ + floor.name(),
            PolicyError::PeerUnsupported(l) =>
            "peer does not support the machines required for level "@ + l.name(),
            PolicyError::Malformed(s) => "malformed policy: "@ + s@,
        }
    }

    /// The error in words. `fraction` is how the number that it may carry is written.
    pub fn message(&self, fraction: &str) -> (s: String)
        ensures
            s@ == self.text(fraction@),
    {
        let mut s = String::new();
        match self {
            PolicyError::UnknownLevel(t) => {
                s.append("unknown defense level: ");
                s.append(t.as_str());
            },
            PolicyError::EnforcedWithoutProfile => {
                s.append("only a profile-delivered policy may set enforced = true");
            },
            PolicyError::FractionOutOfRange(k, _) => {
                s.append(k);
                s.append(" must be in [0.0, 1.0], got ");
                s.append(fraction);
            },
            PolicyError::BelowEnforcedFloor { requested, floor } => {
                s.append("defense level ");
                s.append(requested.as_str());
                s.append(" is below the enforced floor ");
                s.append(floor.as_str());
            },
            PolicyError::PeerUnsupported(l) => {
                s.append("peer does not support the machines required for level ");
                s.append(l.as_str());
            },
            PolicyError::Malformed(t) => {
                s.append("malformed policy: ");
                s.append(t.as_str());
            },
        }
        assert(s@ =~= self.text(fraction@));
        s
    }
}

/// A policy, as a configuration profile or the app's settings deliver it.
#[derive(Clone, Copy, Debug, PartialEq, Structural)]
pub struct Policy {
    /// The floor when `enforced`, otherwise the default that the app starts at.
    pub level: DefenseLevel,
    /// Whether the user may not go below `level`. Only meaningful from a profile.
    pub enforced: bool,
    /// Refuse to connect rather than run a level that the peer cannot support.
    pub require_peer_support: bool,
    /// Fraction of traffic that may be padding, passed to Maybenot as a hard cap.
    pub max_padding_frac: Fraction,
    /// Fraction of time that outgoing traffic may be blocked, passed to Maybenot.
    pub max_blocking_frac: Fraction,
    /// Pad every tunnel packet to a constant size. This is a transport-layer setting, not a
    /// Maybenot machine.
    pub constant_packet_size: bool,
    pub source: PolicySource,
}

impl Default for Policy {
    fn default() -> (p: Policy)
        ensures
            p.level == DefenseLevel::Off,
            !p.enforced,
            p.require_peer_support,
            p.max_padding_frac.bits == 0x3FE0_0000_0000_0000,
            p.max_blocking_frac.bits == 0x3FC9_9999_9999_999A,
            p.constant_packet_size,
            p.source == PolicySource::Default,
    {
        Policy {
            level: DefenseLevel::Off,
            enforced: false,
            require_peer_support: true,
            max_padding_frac: Fraction::half(),
            max_blocking_frac: Fraction::fifth(),
            constant_packet_size: true,
            source: PolicySource::Default,
        }
    }
}

impl Policy {
    /// Why the policy is not valid, and `None` where it is.
    pub open spec fn fault(self) -> Option<PolicyError> {
        if self.enforced && self.source != PolicySource::Profile {
            Some(PolicyError::EnforcedWithoutProfile)
        } else if !self.max_padding_frac.in_unit_interval() {
            Some(PolicyError::FractionOutOfRange("max_padding_frac", self.max_padding_frac))
        } else if !self.max_blocking_frac.in_unit_interval() {
            Some(PolicyError::FractionOutOfRange("max_blocking_frac", self.max_blocking_frac))
        } else {
            None
        }
    }

    /// The level to run when the user asks for `requested`.
    pub open spec fn resolved(self, requested: DefenseLevel) -> Result<DefenseLevel, PolicyError> {
        if self.enforced && requested.strength() < self.level.strength() {
            Err(PolicyError::BelowEnforcedFloor { requested, floor: self.level })
        } else {
            Ok(requested)
        }
    }

    /// Whether the control is to be shown as locked.
    pub open spec fn pinned(self) -> bool {
        self.enforced && self.source == PolicySource::Profile
    }

    /// Whether `level` may be started against a peer that does or does not have the machines.
    pub open spec fn admits_peer(self, level: DefenseLevel, peer_supports: bool) -> bool {
        !level.needs_peer() || peer_supports || !self.require_peer_support
    }

    /// Validate a policy that was delivered as JSON. `parsed` is what the JSON reader made of the
    /// text: the policy, or its complaint.
    pub fn from_json(parsed: Result<Policy, String>) -> (r: Result<Policy, PolicyError>)
        ensures
            match parsed {
                Err(complaint) => r == Err::<Policy, PolicyError>(
                    PolicyError::Malformed(complaint),
                ),
                Ok(p) => match p.fault() {
                    None => r == Ok::<Policy, PolicyError>(p),
                    Some(e) => r == Err::<Policy, PolicyError>(e),
                },
            },
    {
        match parsed {
            Err(complaint) => Err(PolicyError::Malformed(complaint)),
            Ok(p) => match p.validate() {
                Ok(()) => Ok(p),
                Err(e) => Err(e),
            },
        }
    }

    pub fn validate(&self) -> (r: Result<(), PolicyError>)
        ensures
            match self.fault() {
                None => r is Ok,
                Some(e) => r == Err::<(), PolicyError>(e),
            },
    {
        if self.enforced && self.source != PolicySource::Profile {
            return Err(PolicyError::EnforcedWithoutProfile);
        }
        if !self.max_padding_frac.is_in_unit_interval() {
            return Err(
                PolicyError::FractionOutOfRange("max_padding_frac", self.max_padding_frac),
            );
        }
        if !self.max_blocking_frac.is_in_unit_interval() {
            return Err(
                PolicyError::FractionOutOfRange("max_blocking_frac", self.max_blocking_frac),
            );
        }
        Ok(())
    }

    /// Resolve the level to actually run, given what the user asked for.
    ///
    /// Raising above an enforced floor is always allowed: enforcement sets a minimum, not a
    /// maximum. Going below is refused, never silently clamped, so the caller has to decide what
    /// to show the user.
    pub fn resolve(&self, requested: DefenseLevel) -> (r: Result<DefenseLevel, PolicyError>)
        ensures
            r == self.resolved(requested),
    {
        if !self.enforced {
            return Ok(requested);
        }
        if requested.rank() < self.level.rank() {
            return Err(PolicyError::BelowEnforcedFloor { requested, floor: self.level });
        }
        Ok(requested)
    }

    /// Whether the user interface should present the defense control as locked.
    pub fn is_locked(&self) -> (b: bool)
        ensures
            b == self.pinned(),
    {
        self.enforced && self.source == PolicySource::Profile
    }

    /// Gate the connection on peer capability.
    ///
    /// With `require_peer_support` set, a level whose machines need a peer counterpart will not
    /// start against a peer that lacks them. That is the fail-closed choice: better no tunnel
    /// than a tunnel that the user believes is defended and is not.
    pub fn preflight(&self, level: DefenseLevel, peer_supports: bool) -> (r: Result<
        (),
        PolicyError,
    >)
        ensures
            self.admits_peer(level, peer_supports) ==> r is Ok,
            !self.admits_peer(level, peer_supports) ==> r == Err::<(), PolicyError>(
                PolicyError::PeerUnsupported(level),
            ),
    {
        if level.requires_peer() && !peer_supports && self.require_peer_support {
            return Err(PolicyError::PeerUnsupported(level));
        }
        Ok(())
    }
}

/// An enforced floor is never undercut and never clamped to: whatever is run is what was asked
/// for, and it is at least as protective as the floor.
pub proof fn law_enforced_floor_holds(p: Policy, requested: DefenseLevel)
    ensures
        p.resolved(requested) matches Ok(level) ==> level == requested && (p.enforced
            ==> p.level.strength() <= level.strength()),
        p.resolved(requested) is Err ==> p.enforced && requested.strength() < p.level.strength(),
{
}

/// Raising the level above a floor, or asking for the floor itself, is always allowed.
pub proof fn law_raising_is_allowed(p: Policy, requested: DefenseLevel)
    requires
        p.level.strength() <= requested.strength(),
    ensures
        p.resolved(requested) == Ok::<DefenseLevel, PolicyError>(requested),
{
}

/// In a valid policy enforcement comes from a profile, so it is exactly the enforced policies
/// that lock the control.
pub proof fn law_only_a_profile_enforces(p: Policy)
    requires
        p.fault() is None,
    ensures
        p.enforced ==> p.source == PolicySource::Profile,
        p.pinned() == p.enforced,
{
}

/// The machines come in pairs: a level that needs machines at the server's end has some at the
/// client's end too, and one that needs none has none there.
pub proof fn law_levels_are_paired(level: DefenseLevel)
    ensures
        level.needs_peer() <==> level.server_specs().len() > 0,
        level.needs_peer() ==> level.client_specs().len() > 0,
        level == DefenseLevel::Off <==> level.client_specs().len() == 0,
{
}

/// The name of a level reads back as that level, in either case and with whitespace around it.
pub proof fn law_level_names_read_back(level: DefenseLevel, s: Seq<char>)
    requires
        text::lowered(text::trimmed(s)) == level.name(),
    ensures
        DefenseLevel::named(s) == Some(level),
{
    reveal_strlit("off");
    reveal_strlit("light");
    reveal_strlit("moderate");
    reveal_strlit("heavy");
    assert("off"@.len() == 3);
    assert("light"@.len() == 5);
    assert("moderate"@.len() == 8);
    assert("heavy"@.len() == 5);
    assert("light"@[0] == 'l');
    assert("heavy"@[0] == 'h');
}

/// What `as_str` gives for a level reads back as that level.
pub proof fn law_level_name_round_trip(level: DefenseLevel)
    ensures
        DefenseLevel::named(level.name()) == Some(level),
{
    reveal_strlit("off");
    reveal_strlit("light");
    reveal_strlit("moderate");
    reveal_strlit("heavy");
    let s = level.name();
    assert(text::trimmed(s) == s);
    assert(text::lowered(s) =~= s);
    law_level_names_read_back(level, s);
}

/// The machines of each level, by name, at either end.
pub proof fn law_level_machines(level: DefenseLevel)
    ensures
        level == DefenseLevel::Off ==> level.client_specs().len() == 0
            && level.server_specs().len() == 0,
        level == DefenseLevel::Light ==> level.client_specs() == seq!["netflow"@]
            && level.server_specs().len() == 0,
        level == DefenseLevel::Moderate ==> level.client_specs() == seq!["interspace_client"@]
            && level.server_specs() == seq!["interspace_server"@],
        level == DefenseLevel::Heavy ==> level.client_specs() == seq!["scrambler_client"@]
            && level.server_specs() == seq!["scrambler_server 4.0 2.0 1.0 8.0"@],
        level.specs(Role::Client) == level.client_specs(),
        level.specs(Role::Server) == level.server_specs(),
{
}

/// No two levels run the same machines at the client's end.
pub proof fn law_no_two_levels_run_the_same(a: DefenseLevel, b: DefenseLevel)
    requires
        a.client_specs() == b.client_specs(),
    ensures
        a == b,
{
    reveal_strlit("netflow");
    reveal_strlit("interspace_client");
    reveal_strlit("scrambler_client");
    assert("netflow"@.len() == 7);
    assert("interspace_client"@.len() == 17);
    assert("scrambler_client"@.len() == 16);
    if a.client_specs().len() > 0 {
        assert(a.client_specs()[0] == b.client_specs()[0]);
    }
}

/// A level that needs a peer runs, at the client's end, the client half of the family of machines
/// whose server half runs at the other end.
pub proof fn law_ends_run_halves_of_one_family(level: DefenseLevel)
    requires
        level.needs_peer(),
    ensures
        level.client_specs().len() == 1,
        level.server_specs().len() == 1,
        exists|family: Seq<char>|
            {
                &&& family.len() > 0
                &&& level.client_specs()[0] == #[trigger] (family + "_client"@)
                &&& level.server_specs()[0].take(family.len() as int + 7) == family + "_server"@
            },
{
    reveal_strlit("interspace_client");
    reveal_strlit("interspace_server");
    reveal_strlit("scrambler_client");
    reveal_strlit("scrambler_server 4.0 2.0 1.0 8.0");
    reveal_strlit("_client");
    reveal_strlit("_server");
    reveal_strlit("interspace");
    reveal_strlit("scrambler");
    let family = if level == DefenseLevel::Moderate {
        "interspace"@
    } else {
        "scrambler"@
    };
    assert(level.client_specs()[0] =~= family + "_client"@);
    assert(level.server_specs()[0].take(family.len() as int + 7) =~= family + "_server"@);
}

/// The levels in the order of protection: each is stronger than the one before it.
pub proof fn law_levels_are_ordered(a: DefenseLevel, b: DefenseLevel)
    ensures
        DefenseLevel::Off.strength() < DefenseLevel::Light.strength()
            < DefenseLevel::Moderate.strength() < DefenseLevel::Heavy.strength(),
        a.strength() == b.strength() <==> a == b,
{
}

/// Exactly the levels from `Moderate` on are meaningless without machines at the other end.
pub proof fn law_which_levels_need_a_peer(level: DefenseLevel)
    ensures
        level.needs_peer() <==> DefenseLevel::Moderate.strength() <= level.strength(),
{
}

/// The name of each level, letter for letter.
pub proof fn law_level_names(level: DefenseLevel)
    ensures
        level.name() == match level {
            DefenseLevel::Off => seq!['o', 'f', 'f'],
            DefenseLevel::Light => seq!['l', 'i', 'g', 'h', 't'],
            DefenseLevel::Moderate => seq!['m', 'o', 'd', 'e', 'r', 'a', 't', 'e'],
            DefenseLevel::Heavy => seq!['h', 'e', 'a', 'v', 'y'],
        },
{
    reveal_strlit("off");
    reveal_strlit("light");
    reveal_strlit("moderate");
    reveal_strlit("heavy");
    assert(DefenseLevel::Off.name() =~= seq!['o', 'f', 'f']);
    assert(DefenseLevel::Light.name() =~= seq!['l', 'i', 'g', 'h', 't']);
    assert(DefenseLevel::Moderate.name() =~= seq!['m', 'o', 'd', 'e', 'r', 'a', 't', 'e']);
    assert(DefenseLevel::Heavy.name() =~= seq!['h', 'e', 'a', 'v', 'y']);
}

/// A text names a level exactly where it is the level's name once whitespace around it is taken
/// away and capitals are made small; everything else names none.
pub proof fn law_named_is_the_name(s: Seq<char>, level: DefenseLevel)
    ensures
        DefenseLevel::named(s) == Some(level) <==> text::lowered(text::trimmed(s)) == level.name(),
{
    if text::lowered(text::trimmed(s)) == level.name() {
        law_level_names_read_back(level, s);
    }
}

/// A policy is valid exactly where enforcement comes from a profile, if there is any, and both
/// fractions are between 0 and 1. What is wrong is said of the field that is wrong.
pub proof fn law_valid_policies(p: Policy)
    ensures
        p.fault() is None <==> {
            &&& p.enforced ==> p.source == PolicySource::Profile
            &&& p.max_padding_frac.in_unit_interval()
            &&& p.max_blocking_frac.in_unit_interval()
        },
        p.fault() == Some(PolicyError::EnforcedWithoutProfile) <==> p.enforced && p.source
            != PolicySource::Profile,
        p.fault() matches Some(PolicyError::FractionOutOfRange(k, v)) ==> {
            &&& !v.in_unit_interval()
            &&& k@ == "max_padding_frac"@ && v == p.max_padding_frac || (k@ == "max_blocking_frac"@
                && v == p.max_blocking_frac && p.max_padding_frac.in_unit_interval())
        },
        p.fault() matches Some(e) ==> e is EnforcedWithoutProfile || e is FractionOutOfRange,
{
}

/// The numbers from 0 to 1 are those whose patterns go from that of 0 to that of 1, and negative
/// zero.
pub proof fn law_unit_interval(f: Fraction)
    ensures
        f.bits <= 0x3FF0_0000_0000_0000 ==> f.in_unit_interval(),
        f.bits == 0x8000_0000_0000_0000 ==> f.in_unit_interval(),
        0x3FF0_0000_0000_0000 < f.bits < 0x8000_0000_0000_0000 ==> !f.in_unit_interval(),
        0x8000_0000_0000_0000 < f.bits ==> !f.in_unit_interval(),
{
    lemma_unit_interval(f);
}

/// A request is refused only below an enforced floor, and the refusal names the request and the
/// floor.
pub proof fn law_refusals_name_request_and_floor(p: Policy, requested: DefenseLevel)
    ensures
        p.resolved(requested) is Err <==> p.enforced && requested.strength() < p.level.strength(),
        p.resolved(requested) matches Err(e) ==> e == (PolicyError::BelowEnforcedFloor {
            requested,
            floor: p.level,
        }),
{
}

/// A peer without machines stands in the way of a level exactly where the level needs a peer and
/// the policy asks for one. A peer that has the machines never does.
pub proof fn law_peers_that_are_refused(p: Policy, level: DefenseLevel)
    ensures
        p.admits_peer(level, true),
        p.admits_peer(level, false) <==> level == DefenseLevel::Off || level == DefenseLevel::Light
            || !p.require_peer_support,
{
}

/// The control is locked only where a profile enforces.
pub proof fn law_only_enforced_profiles_lock(p: Policy)
    ensures
        p.pinned() ==> p.enforced && p.source == PolicySource::Profile,
        p.enforced && p.source == PolicySource::Profile ==> p.pinned(),
{
}

/// A list of strings stands for the characters of each, in order.
pub proof fn law_texts(list: Seq<&str>, i: int)
    requires
        0 <= i < list.len(),
    ensures
        texts(list).len() == list.len(),
        texts(list)[i] == list[i]@,
{
}

} // verus!
