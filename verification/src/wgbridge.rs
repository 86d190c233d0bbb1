//! Bridges a real WireGuard endpoint into the shaped tunnel.
//!
//! WireGuard has no field for padding machines and no hook to add them. So it is left entirely
//! alone, and its datagrams are carried inside a transport that shapes.
//!
//! ```text
//!   wg client --udp--> wg-client relay ==shaped==> wg-server relay --udp--> wg server
//!   (Endpoint =            (this)                      (this)
//!    127.0.0.1:51820)
//! ```
//!
//! From WireGuard's point of view nothing unusual is happening: it sends to a UDP address and gets
//! replies. From an observer's point of view the WireGuard handshake and data messages, whose
//! sizes are distinctive and well documented, are gone, replaced by a stream of identical frames
//! mixed with cover traffic.
//!
//! The bridge is generic in the type of an address; whoever owns the socket decides what that is.

use vstd::prelude::*;

use crate::bytes;
use crate::text;
use crate::wire::MAX_PAYLOAD;

verus! {

/// How many datagrams are read from WireGuard in one turn of the session loop. Bounded so that
/// one busy peer cannot starve the rest of the loop: the defense's timers still need to fire on
/// time.
pub const BATCH: usize = 32;

pub struct WgBridge<A> {
    fixed_target: Option<A>,
    learned: Option<A>,
    oversize: u64,
    forwarded: u64,
    delivered: u64,
}

/// What a [`WgBridge`] is at one moment.
pub struct BridgeState<A> {
    /// Server side: the real WireGuard endpoint to forward to.
    pub fixed_target: Option<A>,
    /// Client side: where the local WireGuard sends from, learned from first contact.
    pub learned: Option<A>,
    pub oversize: nat,
    pub forwarded: nat,
    pub delivered: nat,
}

impl<A> BridgeState<A> {
    /// Where datagrams that come out of the tunnel are sent.
    pub open spec fn target(self) -> Option<A> {
        match self.fixed_target {
            Some(a) => Some(a),
            None => self.learned,
        }
    }

    /// Once a datagram has come from `from`: the address is learned where it is the first, unless
    /// there is a fixed one.
    pub open spec fn contacted(self, from: A) -> BridgeState<A> {
        if self.fixed_target is None && self.learned is None {
            BridgeState { learned: Some(from), ..self }
        } else {
            self
        }
    }

    /// Once datagrams have come from `contacts`, one after the other.
    pub open spec fn contacted_by(self, contacts: Seq<A>) -> BridgeState<A>
        decreases contacts.len(),
    {
        if contacts.len() == 0 {
            self
        } else {
            self.contacted_by(contacts.drop_last()).contacted(contacts.last())
        }
    }

    /// The counters in words.
    pub open spec fn text(self) -> Seq<char> {
        "bridge: "@ + text::decimal(self.forwarded) + " forwarded into the tunnel, "@
            + text::decimal(self.delivered) + " delivered out, "@ + text::decimal(self.oversize)
            + " dropped as oversize"@
    }
}

impl<A> View for WgBridge<A> {
    type V = BridgeState<A>;

    closed spec fn view(&self) -> BridgeState<A> {
        BridgeState {
            fixed_target: self.fixed_target,
            learned: self.learned,
            oversize: self.oversize as nat,
            forwarded: self.forwarded as nat,
            delivered: self.delivered as nat,
        }
    }
}

impl<A: Copy> WgBridge<A> {
    /// Client side: wait for the local WireGuard client and learn its address.
    pub fn listening() -> (b: WgBridge<A>)
        ensures
            b@ == (BridgeState::<A> {
                fixed_target: None,
                learned: None,
                oversize: 0,
                forwarded: 0,
                delivered: 0,
            }),
    {
        WgBridge { fixed_target: None, learned: None, oversize: 0, forwarded: 0, delivered: 0 }
    }

    /// Server side: forward to a known WireGuard endpoint.
    pub fn forwarding(target: A) -> (b: WgBridge<A>)
        ensures
            b@ == (BridgeState {
                fixed_target: Some(target),
                learned: None,
                oversize: 0,
                forwarded: 0,
                delivered: 0,
            }),
    {
        WgBridge {
            fixed_target: Some(target),
            learned: None,
            oversize: 0,
            forwarded: 0,
            delivered: 0,
        }
    }

    /// Where a datagram that came out of the tunnel is to be sent. Before the local WireGuard has
    /// spoken there is nowhere to send; dropping is correct then, since WireGuard retries its
    /// handshake.
    pub fn target(&self) -> (t: Option<A>)
        ensures
            t == self@.target(),
    {
        match self.fixed_target {
            Some(a) => Some(a),
            None => self.learned,
        }
    }

    /// Take one datagram from WireGuard. `None` where it does not fit in a frame: the MTU is
    /// wrong then, the failure that presents as "small requests work, downloads stall", so it is
    /// counted and named rather than silently dropped.
    pub fn take_datagram(&mut self, from: A, datagram: &[u8]) -> (packet: Option<Vec<u8>>)
        requires
            old(self)@.oversize < u64::MAX,
            old(self)@.forwarded < u64::MAX,
        ensures
            datagram@.len() > MAX_PAYLOAD ==> {
                &&& packet is None
                &&& final(self)@ == (BridgeState {
                    oversize: old(self)@.oversize + 1,
                    ..old(self)@.contacted(from)
                })
            },
            datagram@.len() <= MAX_PAYLOAD ==> {
                &&& packet is Some
                &&& packet->Some_0@ == datagram@
                &&& final(self)@ == (BridgeState {
                    forwarded: old(self)@.forwarded + 1,
                    ..old(self)@.contacted(from)
                })
            },
    {
        if self.fixed_target.is_none() && self.learned.is_none() {
            self.learned = Some(from);
        }
        if datagram.len() > MAX_PAYLOAD {
            self.oversize = self.oversize + 1;
            return None;
        }
        self.forwarded = self.forwarded + 1;
        let mut packet: Vec<u8> = Vec::new();
        bytes::extend(&mut packet, datagram);
        assert(packet@ =~= datagram@);
        Some(packet)
    }

    /// One datagram that came out of the tunnel has been sent on to WireGuard.
    pub fn delivered(&mut self)
        requires
            old(self)@.delivered < u64::MAX,
        ensures
            final(self)@ == (BridgeState { delivered: old(self)@.delivered + 1, ..old(self)@ }),
    {
        self.delivered = self.delivered + 1;
    }

    pub fn report(&self) -> (s: String)
        ensures
            s@ == self@.text(),
    {
        let mut s = String::new();
        s.append("bridge: ");
        text::push_decimal(&mut s, self.forwarded as u128);
        s.append(" forwarded into the tunnel, ");
        text::push_decimal(&mut s, self.delivered as u128);
        s.append(" delivered out, ");
        text::push_decimal(&mut s, self.oversize as u128);
        s.append(" dropped as oversize");
        assert(s@ =~= self@.text());
        s
    }
}

/// What is said of a datagram of `n` bytes that does not fit in a frame.
pub open spec fn oversize_text(n: nat) -> Seq<char> {
    "bridge: dropped a "@ + text::decimal(n) + "-byte datagram (limit "@ + text::decimal(
        MAX_PAYLOAD as nat,
    ) + "). Lower the WireGuard MTU — dvpn-wgconf computes the right value."@
}

pub fn oversize_notice(n: usize) -> (s: String)
    ensures
        s@ == oversize_text(n as nat),
{
    let mut s = String::new();
    s.append("bridge: dropped a ");
    text::push_decimal(&mut s, n as u128);
    s.append("-byte datagram (limit ");
    text::push_decimal(&mut s, MAX_PAYLOAD as u128);
    s.append("). Lower the WireGuard MTU — dvpn-wgconf computes the right value.");
    assert(s@ =~= oversize_text(n as nat));
    s
}

/// A bridge with a fixed target sends there and nowhere else, whoever makes contact; one without
/// sends to whoever made contact first, whoever makes contact after that.
pub proof fn law_target_is_fixed_or_first_contact<A>(s: BridgeState<A>, contacts: Seq<A>)
    requires
        contacts.len() > 0,
    ensures
        s.contacted_by(contacts).fixed_target == s.fixed_target,
        s.contacted_by(contacts).target() == match s.target() {
            Some(a) => Some(a),
            None => Some(contacts[0]),
        },
    decreases contacts.len(),
{
    if contacts.len() > 1 {
        law_target_is_fixed_or_first_contact(s, contacts.drop_last());
    } else {
        assert(contacts.drop_last() =~= Seq::empty());
        assert(s.contacted_by(contacts.drop_last()) == s);
    }
}

} // verus!
