//! WireGuard configuration generation, sized for the shaped transport.
//!
//! A WireGuard data message is 32 bytes of overhead (4 type and reserved, 4 receiver index, 8
//! counter, 16 Poly1305 tag) around an inner packet that is first padded up to a multiple of 16.
//! When that message travels inside a frame it has to fit in [`MAX_PAYLOAD`].
//!
//! Getting this wrong does not fail loudly. It fails as "large downloads stall", the path MTU
//! black hole that eats an afternoon, so the number is computed here rather than copied from a
//! forum post.

use vstd::prelude::*;

use crate::crypto;
use crate::text;
use crate::wire::MAX_PAYLOAD;

verus! {

/// WireGuard data-message overhead: type and reserved, receiver index, counter, AEAD tag.
pub const WG_OVERHEAD: usize = 4 + 4 + 8 + 16;

/// What an inner packet of `n` bytes becomes: padded up to a multiple of 16, then wrapped.
pub open spec fn message_len(n: nat) -> nat {
    ((n + 15) / 16 * 16 + WG_OVERHEAD) as nat
}

/// Largest inner IP packet that still fits, once WireGuard's own framing and its 16-byte padding
/// are accounted for. WireGuard pads the inner packet up to a multiple of 16 before sealing, so
/// the usable MTU is the largest multiple of 16 that fits, not the raw remainder.
pub fn shaped_mtu() -> (mtu: usize)
    ensures
        mtu == 1152,
        mtu % 16 == 0,
        mtu + WG_OVERHEAD <= MAX_PAYLOAD < mtu + 16 + WG_OVERHEAD,
{
    let budget: usize = MAX_PAYLOAD - WG_OVERHEAD;
    budget - budget % 16
}

/// A packet fits in a frame, as WireGuard sends it, exactly where it is no longer than the MTU.
pub proof fn law_mtu_is_exact(n: nat)
    ensures
        message_len(n) <= MAX_PAYLOAD <==> n <= 1152,
{
}

/// A WireGuard keypair, base64 as the tooling expects.
#[derive(Clone, Debug)]
pub struct KeyPair {
    pub private: String,
    pub public: String,
}

impl KeyPair {
    /// Whether this is the pair of the secret key `secret`.
    pub open spec fn of_secret(self, secret: Seq<u8>) -> bool {
        &&& self.private@ == crypto::base64_text(secret)
        &&& self.public@ == crypto::base64_text(crypto::x25519_public(secret))
    }
}

/// The system's random number source gave nothing. A key generator that quietly falls back to a
/// weaker source is worse than one that stops, because nothing downstream can tell the
/// difference.
#[derive(Clone, Copy, Debug, PartialEq, Eq, Structural)]
pub struct NoEntropy;

/// What the random number source gave: its bytes as they are, or that there are none.
pub fn drawn(source: Result<[u8; 32], getrandom::Error>) -> (r: Result<[u8; 32], NoEntropy>)
    ensures
        r == match source {
            Ok(bytes) => Ok::<[u8; 32], NoEntropy>(bytes),
            Err(_) => Err(NoEntropy),
        },
{
    match source {
        Ok(bytes) => Ok(bytes),
        Err(_) => Err(NoEntropy),
    }
}

/// 32 bytes from the system's random number source. Which bytes, and whether there are any, is
/// for the source to say; [`drawn`] says what is made of its answer.
fn random_32() -> Result<[u8; 32], NoEntropy> {
    drawn(crypto::random_bytes())
}

/// The pair of a secret key.
pub fn keypair_of(secret: &[u8; 32]) -> (k: KeyPair)
    ensures
        k.of_secret(secret@),
{
    let public = crypto::x25519_public_key(secret);
    KeyPair { private: crypto::base64_encode(secret), public: crypto::base64_encode(&public) }
}

/// The text of a pre-shared key.
pub fn psk_of(bytes: &[u8; 32]) -> (psk: String)
    ensures
        psk@ == crypto::base64_text(bytes@),
{
    crypto::base64_encode(bytes)
}

/// The pair of the secret key that was drawn, and no pair exactly where none was.
pub fn keypair_from(secret: Result<[u8; 32], NoEntropy>) -> (k: Result<KeyPair, NoEntropy>)
    ensures
        match secret {
            Ok(secret) => k is Ok && k->Ok_0.of_secret(secret@),
            Err(_) => k is Err,
        },
{
    match secret {
        Ok(secret) => Ok(keypair_of(&secret)),
        Err(e) => Err(e),
    }
}

/// The text of the pre-shared key that was drawn, and no text exactly where none was.
pub fn psk_from(bytes: Result<[u8; 32], NoEntropy>) -> (psk: Result<String, NoEntropy>)
    ensures
        match bytes {
            Ok(bytes) => psk is Ok && psk->Ok_0@ == crypto::base64_text(bytes@),
            Err(_) => psk is Err,
        },
{
    match bytes {
        Ok(bytes) => Ok(psk_of(&bytes)),
        Err(e) => Err(e),
    }
}

/// A fresh pair. It is the pair of some secret key; which one, and whether the source gives one,
/// is for the source to say, and [`keypair_from`] says what is made of it.
pub fn generate_keypair() -> (k: Result<KeyPair, NoEntropy>)
    ensures
        k matches Ok(k) ==> exists|secret: [u8; 32]| k.of_secret(#[trigger] secret@),
{
    keypair_from(random_32())
}

/// A fresh 32-byte pre-shared key.
///
/// WireGuard mixes this into the handshake as an extra symmetric secret. It is optional, costs
/// nothing, and is the cheapest hedge available against a future adversary who records traffic
/// now and breaks X25519 later.
pub fn generate_psk() -> (psk: Result<String, NoEntropy>)
    ensures
        psk matches Ok(s) ==> exists|bytes: [u8; 32]| s@ == crypto::base64_text(#[trigger] bytes@),
{
    psk_from(random_32())
}

/// A DNSforge resolver tier.
///
/// Addresses resolved live on 2026-09-13 rather than copied from a published list. That mattered:
/// several third-party listings still give 176.9.93.198 and 176.9.1.117 for the base tier, which
/// is not where `dnsforge.de` points any more.
#[derive(Clone, Copy, Debug, PartialEq, Eq)]
pub struct Resolver {
    pub name: &'static str,
    pub hostname: &'static str,
    pub v4: [&'static str; 2],
    pub v6: [&'static str; 2],
    pub note: &'static str,
}

impl Resolver {
    /// Whether these are the resolver's entries.
    pub open spec fn reads(
        self,
        name: Seq<char>,
        hostname: Seq<char>,
        v4: (Seq<char>, Seq<char>),
        v6: (Seq<char>, Seq<char>),
        note: Seq<char>,
    ) -> bool {
        &&& self.name@ == name
        &&& self.hostname@ == hostname
        &&& self.v4@[0]@ == v4.0 && self.v4@[1]@ == v4.1
        &&& self.v6@[0]@ == v6.0 && self.v6@[1]@ == v6.1
        &&& self.note@ == note
    }

    pub open spec fn is_base(self) -> bool {
        self.reads(
            "dnsforge base"@,
            "dnsforge.de"@,
            ("49.12.67.122"@, "91.99.154.175"@),
            ("2a01:4f8:c013:29d::122"@, "2a01:4f8:c010:8c35::175"@),
            "Ads, trackers and malware blocked. The default tier."@,
        )
    }

    pub open spec fn is_hard(self) -> bool {
        self.reads(
            "dnsforge hard"@,
            "hard.dnsforge.de"@,
            ("49.12.222.213"@, "88.198.122.154"@),
            ("2a01:4f8:c17:2c61::213"@, "2a01:4f8:c013:5ec0::154"@),
            "Aggressive: ~2.8M domains, no allowance for breakage."@,
        )
    }

    pub open spec fn is_clean(self) -> bool {
        self.reads(
            "dnsforge clean"@,
            "clean.dnsforge.de"@,
            ("49.12.223.2"@, "49.12.43.208"@),
            ("2a01:4f8:c17:4fbc::2"@, "2a01:4f8:c012:ed89::208"@),
            "Base plus adult content and gambling, with SafeSearch forced."@,
        )
    }

    /// The text of the `DNS =` line.
    pub open spec fn dns_text(self, include_v6: bool) -> Seq<char> {
        let v4 = self.v4@[0]@ + ", "@ + self.v4@[1]@;
        if include_v6 {
            v4 + ", "@ + self.v6@[0]@ + ", "@ + self.v6@[1]@
        } else {
            v4
        }
    }

    /// The `DNS =` line. WireGuard takes plain resolver addresses: there is no field for a
    /// DNS-over-HTTPS URL, so encryption of DNS comes from the tunnel carrying it, not from this
    /// line.
    pub fn dns_line(&self, include_v6: bool) -> (s: String)
        ensures
            s@ == self.dns_text(include_v6),
    {
        let mut s = String::new();
        s.append(self.v4[0]);
        s.append(", ");
        s.append(self.v4[1]);
        if include_v6 {
            s.append(", ");
            s.append(self.v6[0]);
            s.append(", ");
            s.append(self.v6[1]);
        }
        assert(s@ =~= self.dns_text(include_v6));
        s
    }
}

/// The default tier.
pub fn base() -> (r: Resolver)
    ensures
        r.is_base(),
{
    Resolver {
        name: "dnsforge base",
        hostname: "dnsforge.de",
        v4: ["49.12.67.122", "91.99.154.175"],
        v6: ["2a01:4f8:c013:29d::122", "2a01:4f8:c010:8c35::175"],
        note: "Ads, trackers and malware blocked. The default tier.",
    }
}

/// The aggressive tier.
pub fn hard() -> (r: Resolver)
    ensures
        r.is_hard(),
{
    Resolver {
        name: "dnsforge hard",
        hostname: "hard.dnsforge.de",
        v4: ["49.12.222.213", "88.198.122.154"],
        v6: ["2a01:4f8:c17:2c61::213", "2a01:4f8:c013:5ec0::154"],
        note: "Aggressive: ~2.8M domains, no allowance for breakage.",
    }
}

/// The tier with SafeSearch.
pub fn clean() -> (r: Resolver)
    ensures
        r.is_clean(),
{
    Resolver {
        name: "dnsforge clean",
        hostname: "clean.dnsforge.de",
        v4: ["49.12.223.2", "49.12.43.208"],
        v6: ["2a01:4f8:c17:4fbc::2", "2a01:4f8:c012:ed89::208"],
        note: "Base plus adult content and gambling, with SafeSearch forced.",
    }
}

/// The tier that a text names, whatever its case and the whitespace around it.
pub fn resolver(name: &str) -> (r: Option<Resolver>)
    ensures
        ({
            let tier = text::lowered(text::trimmed(name@));
            if tier == "base"@ || tier == "default"@ {
                r matches Some(r) && r.is_base()
            } else if tier == "hard"@ {
                r matches Some(r) && r.is_hard()
            } else if tier == "clean"@ {
                r matches Some(r) && r.is_clean()
            } else {
                r is None
            }
        }),
{
    let all = text::chars_of(name);
    let tier = text::to_lower(text::trim(&all));
    if text::spells(&tier, "base") || text::spells(&tier, "default") {
        Some(base())
    } else if text::spells(&tier, "hard") {
        Some(hard())
    } else if text::spells(&tier, "clean") {
        Some(clean())
    } else {
        None
    }
}

#[derive(Clone, Debug)]
pub struct Peer {
    pub name: String,
    pub keys: KeyPair,
    pub psk: String,
    pub v4: String,
    pub v6: String,
}

#[derive(Clone, Debug)]
pub struct Network {
    pub v4_prefix: String,
    pub v6_prefix: String,
    pub listen_port: u16,
}

/// `s` as a string of its own.
fn owned(s: &str) -> (out: String)
    ensures
        out@ == s@,
{
    let mut out = String::new();
    out.append(s);
    assert(out@ =~= s@);
    out
}

impl Default for Network {
    fn default() -> (n: Network)
        ensures
            n.v4_prefix@ == "10.13.13"@,
            n.v6_prefix@ == "fd0d:daita:vpn"@,
            n.listen_port == 51820,
    {
        Network {
            // RFC 1918 space unlikely to collide with a home or office LAN.
            v4_prefix: owned("10.13.13"),
            // RFC 4193 unique-local.
            v6_prefix: owned("fd0d:daita:vpn"),
            listen_port: 51820,
        }
    }
}

impl Network {
    pub open spec fn v4_text(self, index: u8) -> Seq<char> {
        self.v4_prefix@ + "."@ + text::decimal(index as nat)
    }

    pub open spec fn v6_text(self, index: u8) -> Seq<char> {
        self.v6_prefix@ + "::"@ + text::hexadecimal(index as nat)
    }

    pub fn address(&self, index: u8) -> (a: (String, String))
        ensures
            a.0@ == self.v4_text(index),
            a.1@ == self.v6_text(index),
    {
        let mut v4 = owned(self.v4_prefix.as_str());
        v4.append(".");
        text::push_decimal(&mut v4, index as u128);
        let mut v6 = owned(self.v6_prefix.as_str());
        v6.append("::");
        text::push_hexadecimal(&mut v6, index as u128);
        (v4, v6)
    }
}

/// What stands above the sections of the client configuration.
pub open spec fn client_head(resolver: Resolver, shaped: bool) -> Seq<char> {
    "# DAITA VPN — WireGuard client\n#\n"@ + (if shaped {
        "# Endpoint points at the local shaping relay, NOT at the server. Start the\n# relay first:  dvpn-node wg-client --connect <server>:5601 --wg-listen 127.0.0.1:51820\n# Without the relay running, this tunnel will not come up at all.\n"@
    } else {
        "# DIRECT MODE: no traffic-analysis defense. This is a plain WireGuard tunnel\n# with filtered DNS. Packet sizes and timing are exposed exactly as usual.\n"@
    }) + "#\n# DNS: "@ + resolver.name@ + " ("@ + resolver.note@ + ")\n# MTU "@ + text::decimal(1152)
        + " = "@ + text::decimal(MAX_PAYLOAD as nat) + " (frame payload) - "@ + text::decimal(
        WG_OVERHEAD as nat,
    ) + " (WireGuard) rounded down to a multiple of 16.\n"@
}

/// The client configuration, line by line.
pub open spec fn client_text(
    client: Peer,
    server_public: Seq<char>,
    endpoint: Seq<char>,
    resolver: Resolver,
    shaped: bool,
) -> Seq<char> {
    client_head(resolver, shaped) + "\n[Interface]"@
        + "\nPrivateKey = "@ + client.keys.private@ + "\nAddress = "@ + client.v4@ + "/32, "@
        + client.v6@ + "/128"@ + "\nDNS = "@ + resolver.dns_text(true) + "\nMTU = "@
        + text::decimal(1152) + "\n"@ + "\n[Peer]"@ + "\nPublicKey = "@ + server_public
        + "\nPresharedKey = "@ + client.psk@ + "\nEndpoint = "@ + endpoint
        + "\nAllowedIPs = 0.0.0.0/0, ::/0"@ + "\nPersistentKeepalive = 25"@ + "\n"@
}

/// Build the client configuration.
///
/// `endpoint` is where the WireGuard client sends: the shaping relay on loopback when the defense
/// is in use, or the server directly when it is not. That single line is the whole difference
/// between a defended tunnel and a plain one, which is exactly why it is labelled in the output
/// rather than left for the reader to infer.
///
/// The keepalive keeps NAT state alive. It is not cover traffic and must not be mistaken for it: a
/// fixed 25-second beacon is itself a recognisable pattern.
pub fn client_config(
    client: &Peer,
    server_public: &str,
    endpoint: &str,
    resolver: Resolver,
    _net: &Network,
    shaped: bool,
) -> (s: String)
    ensures
        s@ == client_text(*client, server_public@, endpoint@, resolver, shaped),
{
    let mtu: usize = shaped_mtu();
    let dns = resolver.dns_line(true);
    let mut s = String::new();
    s.append("# DAITA VPN — WireGuard client\n#\n");
    if shaped {
        s.append(
            "# Endpoint points at the local shaping relay, NOT at the server. Start the\n# relay first:  dvpn-node wg-client --connect <server>:5601 --wg-listen 127.0.0.1:51820\n# Without the relay running, this tunnel will not come up at all.\n",
        );
    } else {
        s.append(
            "# DIRECT MODE: no traffic-analysis defense. This is a plain WireGuard tunnel\n# with filtered DNS. Packet sizes and timing are exposed exactly as usual.\n",
        );
    }
    s.append("#\n# DNS: ");
    s.append(resolver.name);
    s.append(" (");
    s.append(resolver.note);
    s.append(")\n# MTU ");
    text::push_decimal(&mut s, mtu as u128);
    s.append(" = ");
    text::push_decimal(&mut s, MAX_PAYLOAD as u128);
    s.append(" (frame payload) - ");
    text::push_decimal(&mut s, WG_OVERHEAD as u128);
    s.append(" (WireGuard) rounded down to a multiple of 16.\n");
    s.append("\n[Interface]");
    s.append("\nPrivateKey = ");
    s.append(client.keys.private.as_str());
    s.append("\nAddress = ");
    s.append(client.v4.as_str());
    s.append("/32, ");
    s.append(client.v6.as_str());
    s.append("/128");
    s.append("\nDNS = ");
    s.append(dns.as_str());
    s.append("\nMTU = ");
    text::push_decimal(&mut s, mtu as u128);
    s.append("\n");
    s.append("\n[Peer]");
    s.append("\nPublicKey = ");
    s.append(server_public);
    s.append("\nPresharedKey = ");
    s.append(client.psk.as_str());
    s.append("\nEndpoint = ");
    s.append(endpoint);
    s.append("\nAllowedIPs = 0.0.0.0/0, ::/0");
    s.append("\nPersistentKeepalive = 25");
    s.append("\n");
    assert(s@ =~= client_text(*client, server_public@, endpoint@, resolver, shaped));
    s
}

/// The entry of one client in the server configuration.
pub open spec fn peer_text(c: Peer) -> Seq<char> {
    "\n[Peer]"@ + "\n# "@ + c.name@ + "\nPublicKey = "@ + c.keys.public@ + "\nPresharedKey = "@
        + c.psk@ + "\nAllowedIPs = "@ + c.v4@ + "/32, "@ + c.v6@ + "/128"@ + "\n"@
}

pub open spec fn peers_text(clients: Seq<Peer>) -> Seq<char>
    decreases clients.len(),
{
    if clients.len() == 0 {
        Seq::empty()
    } else {
        peers_text(clients.drop_last()) + peer_text(clients.last())
    }
}

/// What stands above the sections of the server configuration.
pub open spec fn server_head() -> Seq<char> {
    "# DAITA VPN — WireGuard server\n#\n# When the defense is in use, this listens on loopback and the shaping relay\n# forwards to it:  dvpn-node wg-server --listen 0.0.0.0:5601 --wg-forward 127.0.0.1:51820\n# Do not expose this port directly in that configuration.\n"@
}

/// What stands between the server's own section and those of its clients.
pub open spec fn server_notes() -> Seq<char> {
    "\n# Routing and NAT are yours to set up; these run as root via wg-quick.\n# PostUp = iptables -A FORWARD -i %i -j ACCEPT; iptables -t nat -A POSTROUTING -o eth0 -j MASQUERADE\n# PostDown = iptables -D FORWARD -i %i -j ACCEPT; iptables -t nat -D POSTROUTING -o eth0 -j MASQUERADE\n"@
}

/// The server configuration, line by line.
pub open spec fn server_text(server: Peer, clients: Seq<Peer>, net: Network) -> Seq<char> {
    server_head() + "\n[Interface]"@ + "\nPrivateKey = "@ + server.keys.private@ + "\nAddress = "@ + server.v4@
        + "/24, "@ + server.v6@ + "/64"@ + "\nListenPort = "@ + text::decimal(
        net.listen_port as nat,
    ) + "\nMTU = "@ + text::decimal(1152) + "\n"@
        + server_notes() + peers_text(clients)
}

pub fn server_config(server: &Peer, clients: &[Peer], net: &Network) -> (s: String)
    ensures
        s@ == server_text(*server, clients@, *net),
{
    let mtu: usize = shaped_mtu();
    let mut s = String::new();
    s.append(
        "# DAITA VPN — WireGuard server\n#\n# When the defense is in use, this listens on loopback and the shaping relay\n# forwards to it:  dvpn-node wg-server --listen 0.0.0.0:5601 --wg-forward 127.0.0.1:51820\n# Do not expose this port directly in that configuration.\n",
    );
    s.append("\n[Interface]");
    s.append("\nPrivateKey = ");
    s.append(server.keys.private.as_str());
    s.append("\nAddress = ");
    s.append(server.v4.as_str());
    s.append("/24, ");
    s.append(server.v6.as_str());
    s.append("/64");
    s.append("\nListenPort = ");
    text::push_decimal(&mut s, net.listen_port as u128);
    s.append("\nMTU = ");
    text::push_decimal(&mut s, mtu as u128);
    s.append("\n");
    s.append(
        "\n# Routing and NAT are yours to set up; these run as root via wg-quick.\n# PostUp = iptables -A FORWARD -i %i -j ACCEPT; iptables -t nat -A POSTROUTING -o eth0 -j MASQUERADE\n# PostDown = iptables -D FORWARD -i %i -j ACCEPT; iptables -t nat -D POSTROUTING -o eth0 -j MASQUERADE\n",
    );
    let ghost head = s@;
    let mut i: usize = 0;
    assert(clients@.take(0) =~= Seq::empty());
    while i < clients.len()
        invariant
            i <= clients@.len(),
            s@ =~= head + peers_text(clients@.take(i as int)),
        decreases clients@.len() - i,
    {
        let c = &clients[i];
        s.append("\n[Peer]");
        s.append("\n# ");
        s.append(c.name.as_str());
        s.append("\nPublicKey = ");
        s.append(c.keys.public.as_str());
        s.append("\nPresharedKey = ");
        s.append(c.psk.as_str());
        s.append("\nAllowedIPs = ");
        s.append(c.v4.as_str());
        s.append("/32, ");
        s.append(c.v6.as_str());
        s.append("/128");
        s.append("\n");
        assert(clients@.take(i + 1).drop_last() =~= clients@.take(i as int));
        assert(clients@.take(i + 1).last() == *c);
        i += 1;
    }
    assert(clients@.take(i as int) =~= clients@);
    assert(s@ =~= server_text(*server, clients@, *net));
    s
}

/// The most clients that one network has addresses for.
pub const MAX_CLIENTS: u8 = 250;

/// Whether `p` is the peer with the given name, place in the network and secret key.
pub open spec fn keyed(
    p: Peer,
    name: Seq<char>,
    net: Network,
    index: u8,
    secret: Seq<u8>,
) -> bool {
    &&& p.name@ == name
    &&& p.v4@ == net.v4_text(index)
    &&& p.v6@ == net.v6_text(index)
    &&& p.keys.of_secret(secret)
}

/// Whether `p` is the peer with the given name and place in the network, under fresh keys.
pub open spec fn placed(p: Peer, name: Seq<char>, net: Network, index: u8) -> bool {
    exists|secret: [u8; 32]| keyed(p, name, net, index, #[trigger] secret@)
}

/// The server of a network under the secret key that was drawn, and no server exactly where none
/// was. It has the first address.
pub fn server_from(net: &Network, secret: Result<[u8; 32], NoEntropy>) -> (r: Result<
    Peer,
    NoEntropy,
>)
    ensures
        match secret {
            Ok(secret) => r is Ok && keyed(r->Ok_0, "server"@, *net, 1, secret@) && r->Ok_0.psk@
                == Seq::<char>::empty(),
            Err(_) => r is Err,
        },
{
    let keys = match keypair_from(secret) {
        Ok(keys) => keys,
        Err(e) => return Err(e),
    };
    let (v4, v6) = net.address(1);
    Ok(Peer { name: owned("server"), keys, psk: String::new(), v4, v6 })
}

/// The server of a network, under fresh keys. Whether there are any is for the source to say, and
/// [`server_from`] says what is made of them.
pub fn generate_server(net: &Network) -> (r: Result<Peer, NoEntropy>)
    ensures
        r matches Ok(p) ==> placed(p, "server"@, *net, 1) && p.psk@ == Seq::<char>::empty(),
{
    server_from(net, random_32())
}

/// The name of the client at place `i`, which counts from zero; the names count from one.
pub open spec fn client_name(i: int) -> Seq<char> {
    "client-"@ + text::decimal((i + 1) as nat)
}

/// The client at place `i` of a network, under the secret key and the pre-shared key that were
/// drawn, and no client exactly where one of them was not. Its address is behind the server's.
pub fn client_from(
    net: &Network,
    i: u8,
    secret: Result<[u8; 32], NoEntropy>,
    psk: Result<[u8; 32], NoEntropy>,
) -> (r: Result<Peer, NoEntropy>)
    requires
        i < MAX_CLIENTS,
    ensures
        match (secret, psk) {
            (Ok(secret), Ok(psk)) => {
                &&& r is Ok
                &&& keyed(r->Ok_0, client_name(i as int), *net, (i + 2) as u8, secret@)
                &&& r->Ok_0.psk@ == crypto::base64_text(psk@)
            },
            _ => r is Err,
        },
{
    let keys = match keypair_from(secret) {
        Ok(keys) => keys,
        Err(e) => return Err(e),
    };
    let psk = match psk_from(psk) {
        Ok(psk) => psk,
        Err(e) => return Err(e),
    };
    let (v4, v6) = net.address(i + 2);
    let mut name = owned("client-");
    text::push_decimal(&mut name, (i + 1) as u128);
    Ok(Peer { name, keys, psk, v4, v6 })
}

/// Whether `list` are the clients of a network under the keys `draws`: the client at place `i` has
/// the secret key at `2 * i` and the pre-shared key behind it.
pub open spec fn clients_under(list: Seq<Peer>, net: Network, draws: Seq<[u8; 32]>) -> bool {
    &&& draws.len() == 2 * list.len()
    &&& forall|i: int|
        0 <= i < list.len() ==> {
            &&& keyed(#[trigger] list[i], client_name(i), net, (i + 2) as u8, draws[2 * i]@)
            &&& list[i].psk@ == crypto::base64_text(draws[2 * i + 1]@)
        }
}

/// Whether every draw gave its bytes.
pub open spec fn all_drawn(draws: Seq<Result<[u8; 32], NoEntropy>>) -> bool {
    forall|i: int| 0 <= i < draws.len() ==> #[trigger] draws[i] is Ok
}

/// The bytes of each draw.
pub open spec fn bytes_drawn(draws: Seq<Result<[u8; 32], NoEntropy>>) -> Seq<[u8; 32]> {
    draws.map_values(|d: Result<[u8; 32], NoEntropy>| d->Ok_0)
}

/// The clients of a network under the keys that were drawn, two for each, and no clients exactly
/// where one of the draws gave nothing.
pub fn clients_from(net: &Network, draws: &[Result<[u8; 32], NoEntropy>]) -> (r: Result<
    Vec<Peer>,
    NoEntropy,
>)
    requires
        draws@.len() % 2 == 0,
        draws@.len() <= 2 * MAX_CLIENTS,
    ensures
        r is Ok <==> all_drawn(draws@),
        r matches Ok(list) ==> clients_under(list@, *net, bytes_drawn(draws@)),
{
    let mut list: Vec<Peer> = Vec::new();
    let mut i: u8 = 0;
    while 2 * (i as usize) < draws.len()
        invariant
            draws@.len() % 2 == 0,
            draws@.len() <= 2 * MAX_CLIENTS,
            list@.len() == i,
            2 * i <= draws@.len(),
            all_drawn(draws@.take(2 * i)),
            clients_under(list@, *net, bytes_drawn(draws@.take(2 * i))),
        decreases draws@.len() - 2 * i,
    {
        let at: usize = 2 * (i as usize);
        let (secret, psk) = (draws[at], draws[at + 1]);
        let ghost before = list@;
        let client = match client_from(net, i, secret, psk) {
            Ok(client) => client,
            Err(e) => {
                assert(draws@[at as int] is Err || draws@[at + 1] is Err);
                return Err(e);
            },
        };
        list.push(client);
        proof {
            let old_draws = draws@.take(2 * i);
            let new_draws = draws@.take(2 * i + 2);
            assert forall|k: int| 0 <= k < new_draws.len() implies #[trigger] new_draws[k] is Ok by {
                if k < 2 * i {
                    assert(new_draws[k] == old_draws[k]);
                }
            }
            assert forall|k: int| 0 <= k < list@.len() implies {
                &&& keyed(
                    #[trigger] list@[k],
                    client_name(k),
                    *net,
                    (k + 2) as u8,
                    bytes_drawn(new_draws)[2 * k]@,
                )
                &&& list@[k].psk@ == crypto::base64_text(bytes_drawn(new_draws)[2 * k + 1]@)
            } by {
                if k < i {
                    assert(list@[k] == before[k]);
                    assert(bytes_drawn(new_draws)[2 * k] == bytes_drawn(old_draws)[2 * k]);
                    assert(bytes_drawn(new_draws)[2 * k + 1] == bytes_drawn(old_draws)[2 * k + 1]);
                }
            }
        }
        i += 1;
    }
    assert(draws@.take(2 * i) =~= draws@);
    Ok(list)
}

/// The clients of a network, each under fresh keys, with the addresses behind the server's. Where
/// none is asked for, nothing is drawn and there is nothing to fail; otherwise whether there are
/// keys is for the source to say, and [`clients_from`] says what is made of them.
pub fn generate_clients(net: &Network, clients: u8) -> (r: Result<Vec<Peer>, NoEntropy>)
    requires
        clients <= MAX_CLIENTS,
    ensures
        clients == 0 ==> r is Ok,
        r matches Ok(list) ==> list@.len() == clients && exists|draws: Seq<[u8; 32]>| #[trigger]
            clients_under(list@, *net, draws),
{
    let mut draws: Vec<Result<[u8; 32], NoEntropy>> = Vec::new();
    while draws.len() < 2 * (clients as usize)
        invariant
            draws@.len() <= 2 * clients,
            clients <= MAX_CLIENTS,
        decreases 2 * clients - draws@.len(),
    {
        draws.push(random_32());
    }
    clients_from(net, &draws)
}

/// Where the WireGuard client sends: to the relay in shaped mode, to the server otherwise. This is
/// the whole difference between a defended tunnel and a plain one, so it follows from the mode
/// rather than being left to the operator to remember.
pub fn client_endpoint<'a>(shaped: bool, relay: &'a str, server: &'a str) -> (e: &'a str)
    ensures
        e@ == if shaped {
            relay@
        } else {
            server@
        },
{
    if shaped {
        relay
    } else {
        server
    }
}

/// No two places in a network have an address in common.
pub proof fn law_addresses_are_distinct(net: Network, i: u8, j: u8)
    requires
        i != j,
    ensures
        net.v4_text(i) != net.v4_text(j),
        net.v6_text(i) != net.v6_text(j),
{
    let p = net.v4_prefix@ + "."@;
    let q = net.v6_prefix@ + "::"@;
    if net.v4_text(i) == net.v4_text(j) {
        assert(net.v4_text(i).skip(p.len() as int) =~= text::decimal(i as nat));
        assert(net.v4_text(j).skip(p.len() as int) =~= text::decimal(j as nat));
        text::lemma_numeral_injective(i as nat, j as nat, 10);
    }
    if net.v6_text(i) == net.v6_text(j) {
        assert(net.v6_text(i).skip(q.len() as int) =~= text::hexadecimal(i as nat));
        assert(net.v6_text(j).skip(q.len() as int) =~= text::hexadecimal(j as nat));
        text::lemma_numeral_injective(i as nat, j as nat, 16);
    }
}

/// The literals that start a line of a configuration, without the line end before them.
proof fn lemma_keys()
    ensures
        "\n[Interface]"@ == seq!['\n'] + "[Interface]"@,
        "\n[Peer]"@ == seq!['\n'] + "[Peer]"@,
        "\nPrivateKey = "@ == seq!['\n'] + "PrivateKey = "@,
        "\nPublicKey = "@ == seq!['\n'] + "PublicKey = "@,
        "\nPresharedKey = "@ == seq!['\n'] + "PresharedKey = "@,
        "\nAddress = "@ == seq!['\n'] + "Address = "@,
        "\nDNS = "@ == seq!['\n'] + "DNS = "@,
        "\nMTU = "@ == seq!['\n'] + "MTU = "@,
        "\nListenPort = "@ == seq!['\n'] + "ListenPort = "@,
        "\nEndpoint = "@ == seq!['\n'] + "Endpoint = "@,
        "\nAllowedIPs = "@ == seq!['\n'] + "AllowedIPs = "@,
        "\nAllowedIPs = 0.0.0.0/0, ::/0"@ == seq!['\n'] + "AllowedIPs = 0.0.0.0/0, ::/0"@,
        "\nPersistentKeepalive = 25"@ == seq!['\n'] + "PersistentKeepalive = 25"@,
        "\n# "@ == seq!['\n'] + "# "@,
        "\n"@ == seq!['\n'],
{
    reveal_strlit("\n[Interface]");
    reveal_strlit("[Interface]");
    reveal_strlit("\n[Peer]");
    reveal_strlit("[Peer]");
    reveal_strlit("\nPrivateKey = ");
    reveal_strlit("PrivateKey = ");
    reveal_strlit("\nPublicKey = ");
    reveal_strlit("PublicKey = ");
    reveal_strlit("\nPresharedKey = ");
    reveal_strlit("PresharedKey = ");
    reveal_strlit("\nAddress = ");
    reveal_strlit("Address = ");
    reveal_strlit("\nDNS = ");
    reveal_strlit("DNS = ");
    reveal_strlit("\nMTU = ");
    reveal_strlit("MTU = ");
    reveal_strlit("\nListenPort = ");
    reveal_strlit("ListenPort = ");
    reveal_strlit("\nEndpoint = ");
    reveal_strlit("Endpoint = ");
    reveal_strlit("\nAllowedIPs = ");
    reveal_strlit("AllowedIPs = ");
    reveal_strlit("\nAllowedIPs = 0.0.0.0/0, ::/0");
    reveal_strlit("AllowedIPs = 0.0.0.0/0, ::/0");
    reveal_strlit("\nPersistentKeepalive = 25");
    reveal_strlit("PersistentKeepalive = 25");
    reveal_strlit("\n# ");
    reveal_strlit("# ");
    reveal_strlit("\n");
    assert("\n[Interface]"@ =~= seq!['\n'] + "[Interface]"@);
    assert("\n[Peer]"@ =~= seq!['\n'] + "[Peer]"@);
    assert("\nPrivateKey = "@ =~= seq!['\n'] + "PrivateKey = "@);
    assert("\nPublicKey = "@ =~= seq!['\n'] + "PublicKey = "@);
    assert("\nPresharedKey = "@ =~= seq!['\n'] + "PresharedKey = "@);
    assert("\nAddress = "@ =~= seq!['\n'] + "Address = "@);
    assert("\nDNS = "@ =~= seq!['\n'] + "DNS = "@);
    assert("\nMTU = "@ =~= seq!['\n'] + "MTU = "@);
    assert("\nListenPort = "@ =~= seq!['\n'] + "ListenPort = "@);
    assert("\nEndpoint = "@ =~= seq!['\n'] + "Endpoint = "@);
    assert("\nAllowedIPs = "@ =~= seq!['\n'] + "AllowedIPs = "@);
    assert("\nAllowedIPs = 0.0.0.0/0, ::/0"@ =~= seq!['\n'] + "AllowedIPs = 0.0.0.0/0, ::/0"@);
    assert("\nPersistentKeepalive = 25"@ =~= seq!['\n'] + "PersistentKeepalive = 25"@);
    assert("\n# "@ =~= seq!['\n'] + "# "@);
    assert("\n"@ =~= seq!['\n']);
}

/// A line, as `key` starts it behind a line end and `value` goes on, in a text that goes on with a
/// line end; and the text taken apart before that line instead of behind it.
proof fn lemma_key_line(
    t: Seq<char>,
    before: Seq<char>,
    key: Seq<char>,
    bare: Seq<char>,
    value: Seq<char>,
    rest: Seq<char>,
)
    requires
        t == (before + key + value) + rest,
        key == seq!['\n'] + bare,
        rest.len() > 0,
        rest[0] == '\n',
    ensures
        text::has_line(t, bare + value),
        t == before + (key + value + rest),
        (key + value + rest).len() > 0,
        (key + value + rest)[0] == '\n',
{
    let none = Seq::<char>::empty();
    assert(key.skip(1) =~= bare);
    assert(t =~= before + key + value + rest + none);
    text::lemma_line(t, before, key, value, rest, none);
    assert(t =~= before + (key + value + rest));
}

/// A line that is nothing but its key.
proof fn lemma_bare_line(
    t: Seq<char>,
    before: Seq<char>,
    key: Seq<char>,
    bare: Seq<char>,
    rest: Seq<char>,
)
    requires
        t == (before + key) + rest,
        key == seq!['\n'] + bare,
        rest.len() > 0,
        rest[0] == '\n',
    ensures
        text::has_line(t, bare),
        t == before + (key + rest),
        (key + rest).len() > 0,
        (key + rest)[0] == '\n',
{
    let none = Seq::<char>::empty();
    assert(before + key + none =~= before + key);
    assert(bare + none =~= bare);
    lemma_key_line(t, before, key, bare, none, rest);
    assert(key + none + rest =~= key + rest);
}

/// The lines of a client's configuration: its own private key, addresses and pre-shared key, the
/// resolver's addresses, the MTU that fits a frame, the server's public key and the endpoint.
pub proof fn law_client_config_lines(
    client: Peer,
    server_public: Seq<char>,
    endpoint: Seq<char>,
    resolver: Resolver,
    shaped: bool,
)
    ensures
        ({
            let t = client_text(client, server_public, endpoint, resolver, shaped);
            &&& text::has_line(t, "[Interface]"@)
            &&& text::has_line(t, "PrivateKey = "@ + client.keys.private@)
            &&& text::has_line(
                t,
                "Address = "@ + (client.v4@ + "/32, "@ + client.v6@ + "/128"@),
            )
            &&& text::has_line(t, "DNS = "@ + resolver.dns_text(true))
            &&& text::has_line(t, "MTU = "@ + text::decimal(1152))
            &&& text::has_line(t, "[Peer]"@)
            &&& text::has_line(t, "PublicKey = "@ + server_public)
            &&& text::has_line(t, "PresharedKey = "@ + client.psk@)
            &&& text::has_line(t, "Endpoint = "@ + endpoint)
            &&& text::has_line(t, "AllowedIPs = 0.0.0.0/0, ::/0"@)
            &&& text::has_line(t, "PersistentKeepalive = 25"@)
        }),
{
    lemma_keys();
    let t = client_text(client, server_public, endpoint, resolver, shaped);
    let private = client.keys.private@;
    let address = client.v4@ + "/32, "@ + client.v6@ + "/128"@;
    let dns = resolver.dns_text(true);
    let mtu = text::decimal(1152);
    let h = client_head(resolver, shaped);
    let h1 = h + "\n[Interface]"@;
    let h2 = h1 + "\nPrivateKey = "@ + private;
    let h3 = h2 + "\nAddress = "@ + client.v4@ + "/32, "@ + client.v6@ + "/128"@;
    let h4 = h3 + "\nDNS = "@ + dns;
    let h5 = h4 + "\nMTU = "@ + mtu;
    let h6 = h5 + "\n"@;
    let h7 = h6 + "\n[Peer]"@;
    let h8 = h7 + "\nPublicKey = "@ + server_public;
    let h9 = h8 + "\nPresharedKey = "@ + client.psk@;
    let h10 = h9 + "\nEndpoint = "@ + endpoint;
    let h11 = h10 + "\nAllowedIPs = 0.0.0.0/0, ::/0"@;
    let h12 = h11 + "\nPersistentKeepalive = 25"@;
    assert(t == h12 + "\n"@);
    // From the last line up.
    let r = "\n"@;
    lemma_bare_line(t, h11, "\nPersistentKeepalive = 25"@, "PersistentKeepalive = 25"@, r);
    let r = "\nPersistentKeepalive = 25"@ + r;
    lemma_bare_line(t, h10, "\nAllowedIPs = 0.0.0.0/0, ::/0"@, "AllowedIPs = 0.0.0.0/0, ::/0"@, r);
    let r = "\nAllowedIPs = 0.0.0.0/0, ::/0"@ + r;
    lemma_key_line(t, h9, "\nEndpoint = "@, "Endpoint = "@, endpoint, r);
    let r = "\nEndpoint = "@ + endpoint + r;
    lemma_key_line(t, h8, "\nPresharedKey = "@, "PresharedKey = "@, client.psk@, r);
    let r = "\nPresharedKey = "@ + client.psk@ + r;
    lemma_key_line(t, h7, "\nPublicKey = "@, "PublicKey = "@, server_public, r);
    let r = "\nPublicKey = "@ + server_public + r;
    lemma_bare_line(t, h6, "\n[Peer]"@, "[Peer]"@, r);
    let r = "\n[Peer]"@ + r;
    lemma_move(t, h5, "\n"@, r);
    let r = "\n"@ + r;
    lemma_key_line(t, h4, "\nMTU = "@, "MTU = "@, mtu, r);
    let r = "\nMTU = "@ + mtu + r;
    lemma_key_line(t, h3, "\nDNS = "@, "DNS = "@, dns, r);
    let r = "\nDNS = "@ + dns + r;
    lemma_together(h2, "\nAddress = "@, client.v4@, "/32, "@, client.v6@, "/128"@);
    lemma_key_line(t, h2, "\nAddress = "@, "Address = "@, address, r);
    let r = "\nAddress = "@ + address + r;
    lemma_key_line(t, h1, "\nPrivateKey = "@, "PrivateKey = "@, private, r);
    let r = "\nPrivateKey = "@ + private + r;
    lemma_bare_line(t, h, "\n[Interface]"@, "[Interface]"@, r);
}

proof fn lemma_move(t: Seq<char>, before: Seq<char>, piece: Seq<char>, rest: Seq<char>)
    requires
        t == (before + piece) + rest,
        piece == seq!['\n'],
    ensures
        t == before + (piece + rest),
        (piece + rest).len() > 0,
        (piece + rest)[0] == '\n',
{
    assert(t =~= before + (piece + rest));
}

proof fn lemma_together(
    h: Seq<char>,
    key: Seq<char>,
    a: Seq<char>,
    b: Seq<char>,
    c: Seq<char>,
    d: Seq<char>,
)
    ensures
        h + key + a + b + c + d == h + key + (a + b + c + d),
{
    assert(h + key + a + b + c + d =~= h + key + (a + b + c + d));
}

/// The lines of the server's own section: its private key, its addresses with the whole network
/// behind them, the port and the MTU that fits a frame.
pub proof fn law_server_config_lines(server: Peer, clients: Seq<Peer>, net: Network)
    ensures
        ({
            let t = server_text(server, clients, net);
            &&& text::has_line(t, "[Interface]"@)
            &&& text::has_line(t, "PrivateKey = "@ + server.keys.private@)
            &&& text::has_line(
                t,
                "Address = "@ + (server.v4@ + "/24, "@ + server.v6@ + "/64"@),
            )
            &&& text::has_line(t, "ListenPort = "@ + text::decimal(net.listen_port as nat))
            &&& text::has_line(t, "MTU = "@ + text::decimal(1152))
        }),
{
    lemma_keys();
    let t = server_text(server, clients, net);
    let private = server.keys.private@;
    let address = server.v4@ + "/24, "@ + server.v6@ + "/64"@;
    let port = text::decimal(net.listen_port as nat);
    let mtu = text::decimal(1152);
    let h = server_head();
    let h1 = h + "\n[Interface]"@;
    let h2 = h1 + "\nPrivateKey = "@ + private;
    let h3 = h2 + "\nAddress = "@ + server.v4@ + "/24, "@ + server.v6@ + "/64"@;
    let h4 = h3 + "\nListenPort = "@ + port;
    let h5 = h4 + "\nMTU = "@ + mtu;
    let r = "\n"@ + server_notes() + peers_text(clients);
    assert(t == h5 + "\n"@ + server_notes() + peers_text(clients));
    assert(t =~= h5 + r);
    lemma_key_line(t, h4, "\nMTU = "@, "MTU = "@, mtu, r);
    let r = "\nMTU = "@ + mtu + r;
    lemma_key_line(t, h3, "\nListenPort = "@, "ListenPort = "@, port, r);
    let r = "\nListenPort = "@ + port + r;
    lemma_together(h2, "\nAddress = "@, server.v4@, "/24, "@, server.v6@, "/64"@);
    lemma_key_line(t, h2, "\nAddress = "@, "Address = "@, address, r);
    let r = "\nAddress = "@ + address + r;
    lemma_key_line(t, h1, "\nPrivateKey = "@, "PrivateKey = "@, private, r);
    let r = "\nPrivateKey = "@ + private + r;
    lemma_bare_line(t, h, "\n[Interface]"@, "[Interface]"@, r);
}

/// What the client at `i` adds to the server configuration, behind what stands there for the
/// server and the clients before it.
pub open spec fn section(server: Peer, clients: Seq<Peer>, net: Network, i: int) -> Seq<char> {
    server_text(server, clients.take(i + 1), net).skip(
        server_text(server, clients.take(i), net).len() as int,
    )
}

/// The entry of each client in the server configuration holds that client's own name, public key,
/// pre-shared key and addresses, each on a line, and nothing else. It stands behind the entries of
/// the clients before it and does not depend on them, on the clients behind it, on the server or
/// on the network. The line with the pre-shared key is also in that client's own configuration.
pub proof fn law_each_client_has_its_own_entry(
    server: Peer,
    clients: Seq<Peer>,
    net: Network,
    i: int,
    other_server: Peer,
    others: Seq<Peer>,
    other_net: Network,
    j: int,
    server_public: Seq<char>,
    endpoint: Seq<char>,
    resolver: Resolver,
    shaped: bool,
)
    requires
        0 <= i < clients.len(),
        0 <= j < others.len(),
        clients[i] == others[j],
    ensures
        ({
            let t = server_text(server, clients, net);
            let c = clients[i];
            let e = section(server, clients, net, i);
            let before = server_text(server, clients.take(i), net);
            &&& before.len() + e.len() <= t.len()
            &&& t.take(before.len() as int) == before
            &&& t.subrange(before.len() as int, (before.len() + e.len()) as int) == e
            &&& e == section(other_server, others, other_net, j)
            &&& text::has_line(e, "# "@ + c.name@)
            &&& text::has_line(e, "PublicKey = "@ + c.keys.public@)
            &&& text::has_line(e, "PresharedKey = "@ + c.psk@)
            &&& text::has_line(e, "AllowedIPs = "@ + (c.v4@ + "/32, "@ + c.v6@ + "/128"@))
            &&& e.len() == c.name@.len() + c.keys.public@.len() + c.psk@.len() + c.v4@.len()
                + c.v6@.len() + 63
            &&& text::has_line(
                client_text(c, server_public, endpoint, resolver, shaped),
                "PresharedKey = "@ + c.psk@,
            )
        }),
{
    let c = clients[i];
    let t = server_text(server, clients, net);
    lemma_section(server, clients, net, i);
    lemma_section(other_server, others, other_net, j);
    lemma_peers_prefix(clients, i);
    lemma_peers_prefix(clients, i + 1);
    let before = server_text(server, clients.take(i), net);
    let through = server_text(server, clients.take(i + 1), net);
    let own = server_text(server, Seq::empty(), net);
    assert(own + Seq::<char>::empty() =~= own);
    lemma_server_text(server, clients, net);
    lemma_server_text(server, clients.take(i), net);
    lemma_server_text(server, clients.take(i + 1), net);
    assert(t.take(before.len() as int) =~= before);
    assert(t.take(through.len() as int) =~= through);
    let e = section(server, clients, net, i);
    assert(through == before + e);
    assert(t.subrange(before.len() as int, (before.len() + e.len()) as int) =~= e);
    lemma_peer_lines(c);
    law_client_config_lines(c, server_public, endpoint, resolver, shaped);
}

/// The server's own part of the configuration, then the entries.
proof fn lemma_server_text(server: Peer, clients: Seq<Peer>, net: Network)
    ensures
        server_text(server, clients, net) == server_text(server, Seq::empty(), net) + peers_text(
            clients,
        ),
{
    let own = server_text(server, Seq::empty(), net);
    assert(peers_text(Seq::empty()) =~= Seq::<char>::empty());
    assert(server_text(server, clients, net) =~= own + peers_text(clients));
}

proof fn lemma_section(server: Peer, clients: Seq<Peer>, net: Network, i: int)
    requires
        0 <= i < clients.len(),
    ensures
        section(server, clients, net, i) == peer_text(clients[i]),
        server_text(server, clients.take(i + 1), net) == server_text(server, clients.take(i), net)
            + peer_text(clients[i]),
{
    lemma_server_text(server, clients.take(i), net);
    lemma_server_text(server, clients.take(i + 1), net);
    assert(clients.take(i + 1).drop_last() =~= clients.take(i));
    assert(clients.take(i + 1).last() == clients[i]);
    let before = server_text(server, clients.take(i), net);
    assert(server_text(server, clients.take(i + 1), net) =~= before + peer_text(clients[i]));
    assert(section(server, clients, net, i) =~= peer_text(clients[i]));
}

/// The entries of the first clients stand first.
proof fn lemma_peers_prefix(clients: Seq<Peer>, n: int)
    requires
        0 <= n <= clients.len(),
    ensures
        peers_text(clients.take(n)).len() <= peers_text(clients).len(),
        peers_text(clients).take(peers_text(clients.take(n)).len() as int) == peers_text(
            clients.take(n),
        ),
    decreases clients.len(),
{
    if n == clients.len() {
        assert(clients.take(n) =~= clients);
        assert(peers_text(clients).take(peers_text(clients).len() as int) =~= peers_text(clients));
    } else {
        let rest = clients.drop_last();
        lemma_peers_prefix(rest, n);
        assert(rest.take(n) =~= clients.take(n));
        let p = peers_text(clients.take(n));
        assert(peers_text(clients).take(p.len() as int) =~= peers_text(rest).take(p.len() as int));
    }
}

proof fn lemma_peer_lines(c: Peer)
    ensures
        text::has_line(peer_text(c), "# "@ + c.name@),
        text::has_line(peer_text(c), "PublicKey = "@ + c.keys.public@),
        text::has_line(peer_text(c), "PresharedKey = "@ + c.psk@),
        text::has_line(peer_text(c), "AllowedIPs = "@ + (c.v4@ + "/32, "@ + c.v6@ + "/128"@)),
        peer_text(c).len() == c.name@.len() + c.keys.public@.len() + c.psk@.len() + c.v4@.len()
            + c.v6@.len() + 63,
{
    lemma_keys();
    let t = peer_text(c);
    let allowed = c.v4@ + "/32, "@ + c.v6@ + "/128"@;
    let h1 = "\n[Peer]"@;
    let h2 = h1 + "\n# "@ + c.name@;
    let h3 = h2 + "\nPublicKey = "@ + c.keys.public@;
    let h4 = h3 + "\nPresharedKey = "@ + c.psk@;
    lemma_together(h4, "\nAllowedIPs = "@, c.v4@, "/32, "@, c.v6@, "/128"@);
    let r = "\n"@;
    assert(t == (h4 + "\nAllowedIPs = "@ + allowed) + r);
    lemma_key_line(t, h4, "\nAllowedIPs = "@, "AllowedIPs = "@, allowed, r);
    let r = "\nAllowedIPs = "@ + allowed + r;
    lemma_key_line(t, h3, "\nPresharedKey = "@, "PresharedKey = "@, c.psk@, r);
    let r = "\nPresharedKey = "@ + c.psk@ + r;
    lemma_key_line(t, h2, "\nPublicKey = "@, "PublicKey = "@, c.keys.public@, r);
    let r = "\nPublicKey = "@ + c.keys.public@ + r;
    lemma_key_line(t, h1, "\n# "@, "# "@, c.name@, r);
    reveal_strlit("\n[Peer]");
    reveal_strlit("\n# ");
    reveal_strlit("\nPublicKey = ");
    reveal_strlit("\nPresharedKey = ");
    reveal_strlit("\nAllowedIPs = ");
    reveal_strlit("/32, ");
    reveal_strlit("/128");
    reveal_strlit("\n");
}

/// The `DNS =` line names the two IPv4 resolvers and, where asked for, the two IPv6 resolvers
/// behind them.
pub proof fn law_dns_line(r: Resolver)
    ensures
        r.dns_text(false) == r.v4@[0]@ + ", "@ + r.v4@[1]@,
        r.dns_text(true) == r.dns_text(false) + ", "@ + r.v6@[0]@ + ", "@ + r.v6@[1]@,
{
}

/// The addresses of the three tiers.
pub proof fn law_tiers(b: Resolver, h: Resolver, c: Resolver)
    requires
        b.is_base(),
        h.is_hard(),
        c.is_clean(),
    ensures
        b.hostname@ == "dnsforge.de"@,
        b.v4@[0]@ == "49.12.67.122"@ && b.v4@[1]@ == "91.99.154.175"@,
        b.v6@[0]@ == "2a01:4f8:c013:29d::122"@ && b.v6@[1]@ == "2a01:4f8:c010:8c35::175"@,
        h.hostname@ == "hard.dnsforge.de"@,
        h.v4@[0]@ == "49.12.222.213"@ && h.v4@[1]@ == "88.198.122.154"@,
        h.v6@[0]@ == "2a01:4f8:c17:2c61::213"@ && h.v6@[1]@ == "2a01:4f8:c013:5ec0::154"@,
        c.hostname@ == "clean.dnsforge.de"@,
        c.v4@[0]@ == "49.12.223.2"@ && c.v4@[1]@ == "49.12.43.208"@,
        c.v6@[0]@ == "2a01:4f8:c17:4fbc::2"@ && c.v6@[1]@ == "2a01:4f8:c012:ed89::208"@,
{
}

/// A peer's keys are those of its secret: the private key is the secret itself, the public key the
/// X25519 public key of that secret, both in base64; and its addresses are its place in the network.
pub proof fn law_keyed_peers(
    p: Peer,
    name: Seq<char>,
    net: Network,
    index: u8,
    secret: Seq<u8>,
)
    requires
        keyed(p, name, net, index, secret),
    ensures
        p.name@ == name,
        p.keys.private@ == crypto::base64_text(secret),
        p.keys.public@ == crypto::base64_text(crypto::x25519_public(secret)),
        p.v4@ == net.v4_prefix@ + "."@ + text::decimal(index as nat),
        p.v6@ == net.v6_prefix@ + "::"@ + text::hexadecimal(index as nat),
{
}

/// The clients of a network: the one at place `i` counts from one in its name and from two in its
/// address, and has the keys that were drawn for it and for no other.
pub proof fn law_generated_clients(
    list: Seq<Peer>,
    net: Network,
    draws: Seq<[u8; 32]>,
    i: int,
    j: int,
)
    requires
        clients_under(list, net, draws),
        0 <= i < list.len(),
        0 <= j < list.len(),
        list.len() <= 250,
    ensures
        draws.len() == 2 * list.len(),
        list[i].name@ == "client-"@ + text::decimal((i + 1) as nat),
        list[i].v4@ == net.v4_prefix@ + "."@ + text::decimal((i + 2) as nat),
        list[i].v6@ == net.v6_prefix@ + "::"@ + text::hexadecimal((i + 2) as nat),
        list[i].keys.private@ == crypto::base64_text(draws[2 * i]@),
        list[i].keys.public@ == crypto::base64_text(crypto::x25519_public(draws[2 * i]@)),
        list[i].psk@ == crypto::base64_text(draws[2 * i + 1]@),
        i != j ==> list[i].v4@ != list[j].v4@ && list[i].v6@ != list[j].v6@,
        list[i].v4@ != net.v4_prefix@ + "."@ + text::decimal(1),
{
    assert(keyed(list[i], client_name(i), net, (i + 2) as u8, draws[2 * i]@));
    assert(keyed(list[j], client_name(j), net, (j + 2) as u8, draws[2 * j]@));
    if i != j {
        law_addresses_are_distinct(net, (i + 2) as u8, (j + 2) as u8);
    }
    law_addresses_are_distinct(net, (i + 2) as u8, 1);
}

} // verus!
