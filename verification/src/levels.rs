//! The one table that both ends must agree on.
//!
//! Levels cross the wire as integers and are hashed into the handshake, so this mapping is
//! protocol, not preference. Changing what a level means without changing the machine hash would
//! let two peers agree on "level 2" while running different defenses, the silent mismatch that
//! the handshake exists to catch.

use vstd::prelude::*;
use vstd::utf8::*;

use crate::crypto;
use crate::order;
use crate::policy;
use crate::policy::{DefenseLevel, Role};
use crate::wire;
use crate::wire::LevelMask;

verus! {

/// The number of a level on the wire.
pub open spec fn code(l: DefenseLevel) -> u8 {
    match l {
        DefenseLevel::Off => 0,
        DefenseLevel::Light => 1,
        DefenseLevel::Moderate => 2,
        DefenseLevel::Heavy => 3,
    }
}

/// The level that a number on the wire stands for.
pub open spec fn of_code(v: u8) -> Option<DefenseLevel> {
    if v == 0 {
        Some(DefenseLevel::Off)
    } else if v == 1 {
        Some(DefenseLevel::Light)
    } else if v == 2 {
        Some(DefenseLevel::Moderate)
    } else if v == 3 {
        Some(DefenseLevel::Heavy)
    } else {
        None
    }
}

/// Whether an end in the given role can run `level` as a defense: it has machines for it, or the
/// level needs none from it.
pub open spec fn runnable(level: DefenseLevel, role: Role) -> bool {
    level != DefenseLevel::Off && (level.specs(role).len() > 0 || !level.needs_peer())
}

/// The machines that a given role runs at the level with number `v`.
pub open spec fn specs_of(role: Role, v: u8) -> Seq<Seq<char>> {
    match of_code(v) {
        Some(l) => l.specs(role),
        None => Seq::empty(),
    }
}

/// The hash of a list of machine specifications.
pub open spec fn specs_digest(specs: Seq<Seq<char>>) -> Seq<u8> {
    crypto::blake3_digest(wire::machines_message(encoded(specs)))
}

/// Whether the level with number `v` is meaningless without machines at the other end.
pub open spec fn needs_peer(v: u8) -> bool {
    of_code(v) matches Some(l) && l.needs_peer()
}

pub fn to_u8(l: DefenseLevel) -> (v: u8)
    ensures
        v == code(l),
{
    match l {
        DefenseLevel::Off => 0,
        DefenseLevel::Light => 1,
        DefenseLevel::Moderate => 2,
        DefenseLevel::Heavy => 3,
    }
}

pub fn from_u8(v: u8) -> (l: Option<DefenseLevel>)
    ensures
        l == of_code(v),
{
    match v {
        0 => Some(DefenseLevel::Off),
        1 => Some(DefenseLevel::Light),
        2 => Some(DefenseLevel::Moderate),
        3 => Some(DefenseLevel::Heavy),
        _ => None,
    }
}

/// Reads the name of a level.
pub fn parse(s: &str) -> (l: Option<DefenseLevel>)
    ensures
        l == DefenseLevel::named(s@),
{
    match DefenseLevel::parse(s) {
        Ok(l) => Some(l),
        Err(_) => None,
    }
}

/// The levels that either role can run: all but `Off`.
pub open spec fn supported_mask() -> LevelMask {
    LevelMask(0b1110)
}

/// Every level that this build can run in the given role.
pub fn supported(role: Role) -> (m: LevelMask)
    ensures
        m == supported_mask(),
        forall|v: u8|
            v < 8 ==> (#[trigger] m.bit(v) <==> (of_code(v) matches Some(l) && runnable(l, role))),
{
    let mut m = LevelMask::default();
    assert forall|v: u8| v < 8 implies !#[trigger] m.bit(v) by {
        assert(0u8 & (1u8 << v) == 0) by (bit_vector);
    }
    m = support(m, DefenseLevel::Light, role);
    m = support(m, DefenseLevel::Moderate, role);
    m = support(m, DefenseLevel::Heavy, role);
    proof {
        let b = m.0;
        assert(!m.bit(0) && m.bit(1) && m.bit(2) && m.bit(3) && !m.bit(4) && !m.bit(5) && !m.bit(6)
            && !m.bit(7));
        assert(b == 0b1110) by (bit_vector)
            requires
                b & (1u8 << 0u8) == 0,
                b & (1u8 << 1u8) != 0,
                b & (1u8 << 2u8) != 0,
                b & (1u8 << 3u8) != 0,
                b & (1u8 << 4u8) == 0,
                b & (1u8 << 5u8) == 0,
                b & (1u8 << 6u8) == 0,
                b & (1u8 << 7u8) == 0,
        ;
    }
    m
}

/// `m` with `l` added where the role can run it. A level with no machines for this role is still
/// supported when the level needs no counterpart: there is simply nothing to run.
fn support(m: LevelMask, l: DefenseLevel, role: Role) -> (out: LevelMask)
    requires
        l != DefenseLevel::Off,
    ensures
        forall|v: u8|
            v < 8 ==> (#[trigger] out.bit(v) <==> m.bit(v) || (v == code(l) && runnable(l, role))),
{
    let specs = l.machines(role);
    assert(policy::texts(specs@).len() == specs@.len());
    if specs.len() != 0 || !l.requires_peer() {
        m.with(to_u8(l))
    } else {
        m
    }
}

/// Hash of the machine set that a given role runs at a given level.
pub fn hash_for(role: Role, level: u8) -> (hash: [u8; 32])
    ensures
        hash@ == specs_digest(specs_of(role, level)),
{
    match from_u8(level) {
        Some(l) => {
            let specs = l.machines(role);
            proof {
                lemma_bytes_of(specs@);
            }
            wire::machines_hash(specs)
        },
        None => {
            let none: &[&str] = &[];
            proof {
                lemma_bytes_of(none@);
                assert(policy::texts(none@) =~= Seq::empty());
            }
            wire::machines_hash(none)
        },
    }
}

proof fn lemma_bytes_of(specs: Seq<&str>)
    ensures
        order::bytes_of(specs) == encoded(policy::texts(specs)),
{
    assert(order::bytes_of(specs) =~= encoded(policy::texts(specs)));
}

pub fn requires_peer(level: u8) -> (r: bool)
    ensures
        r == needs_peer(level),
{
    match from_u8(level) {
        Some(l) => l.requires_peer(),
        None => false,
    }
}

/// Level numbers and levels stand for each other, one for one, and the numbers are in the order
/// of protection.
pub proof fn law_level_codes(l: DefenseLevel, k: DefenseLevel, v: u8)
    ensures
        of_code(code(l)) == Some(l),
        of_code(v) == Some(l) <==> v == code(l),
        code(l) < code(k) <==> l.strength() < k.strength(),
{
}

/// The machines of a list of specifications, as bytes.
pub open spec fn encoded(specs: Seq<Seq<char>>) -> Seq<Seq<u8>> {
    specs.map_values(|s: Seq<char>| encode_utf8(s))
}

/// Two levels that need a counterpart are never hashed from the same message at the server's end,
/// so agreeing on the message means agreeing on the level.
pub proof fn law_levels_have_distinct_machines(l: DefenseLevel, k: DefenseLevel)
    requires
        l.needs_peer(),
        k.needs_peer(),
        wire::machines_message(encoded(l.server_specs())) == wire::machines_message(
            encoded(k.server_specs()),
        ),
    ensures
        l == k,
{
    lemma_server_spec_lengths();
    let (a, b) = (encoded(l.server_specs()), encoded(k.server_specs()));
    wire::law_machines_message_tells_sets_apart(a, b);
    a.to_multiset_ensures();
    b.to_multiset_ensures();
    assert(a.contains(a[0]));
    assert(b.to_multiset().count(a[0]) > 0);
    assert(b.contains(a[0]));
    assert(b[0] == a[0]);
}

proof fn lemma_server_spec_lengths()
    ensures
        encoded(DefenseLevel::Moderate.server_specs())[0].len() == 17,
        encoded(DefenseLevel::Heavy.server_specs())[0].len() == 32,
{
    reveal_strlit("interspace_server");
    reveal_strlit("scrambler_server 4.0 2.0 1.0 8.0");
    is_ascii_chars_encode_utf8("interspace_server"@);
    is_ascii_chars_encode_utf8("scrambler_server 4.0 2.0 1.0 8.0"@);
}

/// The number of each level, which is its place in the order of protection; no other number stands
/// for a level.
pub proof fn law_level_numbers(l: DefenseLevel, v: u8)
    ensures
        code(DefenseLevel::Off) == 0,
        code(DefenseLevel::Light) == 1,
        code(DefenseLevel::Moderate) == 2,
        code(DefenseLevel::Heavy) == 3,
        code(l) == l.strength(),
        of_code(v) is Some <==> v <= 3,
        needs_peer(v) <==> v == 2 || v == 3,
{
}

/// Which machines a number stands for: those of its level, and none where it stands for no level.
pub proof fn law_machines_of_a_number(l: DefenseLevel, role: Role, v: u8)
    ensures
        specs_of(role, code(l)) == l.specs(role),
        v > 3 ==> specs_of(role, v).len() == 0,
{
}

/// Every level but `Off` is offered, and no number that stands for none.
pub proof fn law_offered_levels(v: u8)
    requires
        v < 8,
    ensures
        supported_mask().bit(v) <==> 1 <= v <= 3,
{
    wire::law_mask_bits(supported_mask());
    assert(v == 0 || v == 1 || v == 2 || v == 3 || v == 4 || v == 5 || v == 6 || v == 7);
}

/// The hash of a list of machines is taken of the bytes of its specifications.
pub proof fn law_hashed_specifications(specs: Seq<Seq<char>>, i: int)
    requires
        0 <= i < specs.len(),
    ensures
        specs_digest(specs) == crypto::blake3_digest(wire::machines_message(encoded(specs))),
        encoded(specs).len() == specs.len(),
        encoded(specs)[i] == encode_utf8(specs[i]),
{
}

} // verus!
