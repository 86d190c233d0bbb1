//! Configuration generation.

use base64::engine::general_purpose::STANDARD as B64;
use base64::Engine as Base64Engine;
use dvpn::wgconf::{
    base, clean, client_config, client_endpoint, client_from, clients_from, drawn, generate_clients,
    generate_keypair, generate_psk, generate_server, hard, keypair_from, keypair_of, psk_from,
    psk_of, resolver, server_config, server_from, shaped_mtu, KeyPair, Network, NoEntropy, Peer,
    MAX_CLIENTS, WG_OVERHEAD,
};
use dvpn::wire::MAX_PAYLOAD;
use x25519_dalek::{PublicKey, StaticSecret};

#[test]
fn the_mtu_leaves_room_for_wireguard_inside_a_frame() {
    let mtu = shaped_mtu();
    assert_eq!(mtu % 16, 0, "WireGuard pads to a multiple of 16");
    assert!(mtu + WG_OVERHEAD <= MAX_PAYLOAD, "a full-MTU packet would not fit in a frame");
    assert!(
        mtu + 16 + WG_OVERHEAD > MAX_PAYLOAD,
        "the MTU is smaller than it needs to be; a whole 16-byte block is being wasted"
    );
}

#[test]
fn keys_are_the_shape_wireguard_expects() {
    let k = generate_keypair().unwrap();
    let priv_bytes = B64.decode(&k.private).unwrap();
    let pub_bytes = B64.decode(&k.public).unwrap();
    assert_eq!(priv_bytes.len(), 32);
    assert_eq!(pub_bytes.len(), 32);
    assert_eq!(B64.decode(generate_psk().unwrap()).unwrap().len(), 32);
}

#[test]
fn two_keypairs_are_not_the_same() {
    // Cheap, but a generator seeded from a constant is a real and quiet disaster.
    let a = generate_keypair().unwrap();
    let b = generate_keypair().unwrap();
    assert_ne!(a.private, b.private);
    assert_ne!(a.public, b.public);
}

#[test]
fn the_public_key_derives_from_the_private_one() {
    let k = generate_keypair().unwrap();
    let mut sk = [0u8; 32];
    sk.copy_from_slice(&B64.decode(&k.private).unwrap());
    let derived = PublicKey::from(&StaticSecret::from(sk));
    assert_eq!(B64.encode(derived.to_bytes()), k.public);
}

fn is_v4(a: &str) -> bool {
    let parts: Vec<&str> = a.split('.').collect();
    parts.len() == 4 && parts.iter().all(|p| p.parse::<u8>().is_ok() && !p.starts_with('+'))
}

fn is_v6(a: &str) -> bool {
    let hextet = |g: &str| {
        !g.is_empty() && g.len() <= 4 && g.chars().all(|c| c.is_ascii_hexdigit())
    };
    match a.split_once("::") {
        None => false,
        Some((head, tail)) => {
            let n = head.split(':').count() + tail.split(':').count();
            n < 8 && head.split(':').all(hextet) && tail.split(':').all(hextet)
        }
    }
}

#[test]
fn resolver_tiers_are_distinct_and_populated() {
    for r in [base(), hard(), clean()] {
        assert!(r.v4.iter().all(|a| is_v4(a)), "{}", r.name);
        assert!(r.v6.iter().all(|a| is_v6(a)), "{}", r.name);
    }
    assert_ne!(base().v4, hard().v4);
    assert_ne!(base().v4, clean().v4);
    assert_eq!(resolver("base"), Some(base()));
    assert_eq!(resolver("nonsense"), None);
}

#[test]
fn the_dns_line_is_addresses_not_a_url() {
    // WireGuard has no DoH field; a URL here silently produces a broken tunnel.
    let line = base().dns_line(true);
    assert!(!line.contains("http"));
    assert_eq!(line.split(", ").count(), 4);
}

#[test]
fn a_shaped_client_config_points_at_the_relay_and_says_so() {
    let net = Network::default();
    let (v4, v6) = net.address(2);
    let peer = Peer {
        name: "phone".into(),
        keys: generate_keypair().unwrap(),
        psk: generate_psk().unwrap(),
        v4,
        v6,
    };
    let cfg = client_config(&peer, "SERVERPUB", "127.0.0.1:51820", hard(), &net, true);
    assert!(cfg.contains("Endpoint = 127.0.0.1:51820"));
    assert!(cfg.contains("shaping relay"));
    assert!(cfg.contains(&format!("MTU = {}", shaped_mtu())));
    assert!(cfg.contains("AllowedIPs = 0.0.0.0/0, ::/0"));

    let direct = client_config(&peer, "SERVERPUB", "vpn.example.com:51820", hard(), &net, false);
    assert!(direct.contains("no traffic-analysis defense"));
}

#[test]
fn a_known_secret_has_its_known_pair() {
    // RFC 7748, section 6.1.
    let secret: [u8; 32] = [
        0x77, 0x07, 0x6d, 0x0a, 0x73, 0x18, 0xa5, 0x7d, 0x3c, 0x16, 0xc1, 0x72, 0x51, 0xb2, 0x66,
        0x45, 0xdf, 0x4c, 0x2f, 0x87, 0xeb, 0xc0, 0x99, 0x2a, 0xb1, 0x77, 0xfb, 0xa5, 0x1d, 0xb9,
        0x2c, 0x2a,
    ];
    let public: [u8; 32] = [
        0x85, 0x20, 0xf0, 0x09, 0x89, 0x30, 0xa7, 0x54, 0x74, 0x8b, 0x7d, 0xdc, 0xb4, 0x3e, 0xf7,
        0x5a, 0x0d, 0xbf, 0x3a, 0x0d, 0x26, 0x38, 0x1a, 0xf4, 0xeb, 0xa4, 0xa9, 0x8e, 0xaa, 0x9b,
        0x4e, 0x6a,
    ];
    let k = keypair_of(&secret);
    assert_eq!(k.private, B64.encode(secret));
    assert_eq!(k.public, B64.encode(public));
}

#[test]
fn keys_are_written_in_standard_base64() {
    assert_eq!(psk_of(&[0u8; 32]), "AAAAAAAAAAAAAAAAAAAAAAAAAAAAAAAAAAAAAAAAAAA=");
    assert_eq!(psk_of(&[0xff; 32]), "//////////////////////////////////////////8=");
    assert_eq!(psk_of(&[0xfb; 32]), "+/v7+/v7+/v7+/v7+/v7+/v7+/v7+/v7+/v7+/v7+/s=");
}

#[test]
fn tiers_go_by_name() {
    assert_eq!(resolver(" Default\n"), Some(base()));
    assert_eq!(resolver("HARD"), Some(hard()));
    assert_eq!(resolver("clean"), Some(clean()));
    assert_eq!(resolver(""), None);
    assert_eq!(hard().dns_line(false), "49.12.222.213, 88.198.122.154");
    assert_eq!(
        clean().dns_line(true),
        "49.12.223.2, 49.12.43.208, 2a01:4f8:c17:4fbc::2, 2a01:4f8:c012:ed89::208"
    );
}

#[test]
fn addresses_count_in_decimal_and_hexadecimal() {
    let net = Network::default();
    assert_eq!(net.listen_port, 51820);
    assert_eq!(net.address(1), ("10.13.13.1".to_string(), "fd0d:daita:vpn::1".to_string()));
    assert_eq!(net.address(0), ("10.13.13.0".to_string(), "fd0d:daita:vpn::0".to_string()));
    assert_eq!(net.address(251), ("10.13.13.251".to_string(), "fd0d:daita:vpn::fb".to_string()));
    for i in 0u8..=255 {
        for j in 0u8..i {
            let (a, b) = (net.address(i), net.address(j));
            assert!(a.0 != b.0 && a.1 != b.1);
        }
    }
}

fn peer(name: &str) -> Peer {
    Peer {
        name: name.to_string(),
        keys: KeyPair { private: "PRIV".to_string(), public: "PUB".to_string() },
        psk: "PSK".to_string(),
        v4: "10.0.0.2".to_string(),
        v6: "fd00::2".to_string(),
    }
}

#[test]
fn the_client_config_reads_line_by_line() {
    let cfg =
        client_config(&peer("phone"), "SPUB", "host:1", base(), &Network::default(), false);
    let expected = "# DAITA VPN — WireGuard client\n#\n\
        # DIRECT MODE: no traffic-analysis defense. This is a plain WireGuard tunnel\n\
        # with filtered DNS. Packet sizes and timing are exposed exactly as usual.\n\
        #\n\
        # DNS: dnsforge base (Ads, trackers and malware blocked. The default tier.)\n\
        # MTU 1152 = 1197 (frame payload) - 32 (WireGuard) rounded down to a multiple of 16.\n\
        \n\
        [Interface]\n\
        PrivateKey = PRIV\n\
        Address = 10.0.0.2/32, fd00::2/128\n\
        DNS = 49.12.67.122, 91.99.154.175, 2a01:4f8:c013:29d::122, 2a01:4f8:c010:8c35::175\n\
        MTU = 1152\n\
        \n\
        [Peer]\n\
        PublicKey = SPUB\n\
        PresharedKey = PSK\n\
        Endpoint = host:1\n\
        AllowedIPs = 0.0.0.0/0, ::/0\n\
        PersistentKeepalive = 25\n";
    assert_eq!(cfg, expected);
}

#[test]
fn the_server_config_lists_every_client() {
    let cfg = server_config(&peer("server"), &[peer("a"), peer("b")], &Network::default());
    assert!(cfg.contains("[Interface]\nPrivateKey = PRIV\nAddress = 10.0.0.2/24, fd00::2/64\n"));
    assert!(cfg.contains("ListenPort = 51820\nMTU = 1152\n"));
    assert!(cfg.ends_with(
        "\n[Peer]\n# a\nPublicKey = PUB\nPresharedKey = PSK\n\
         AllowedIPs = 10.0.0.2/32, fd00::2/128\n\
         \n[Peer]\n# b\nPublicKey = PUB\nPresharedKey = PSK\n\
         AllowedIPs = 10.0.0.2/32, fd00::2/128\n"
    ));
}

#[test]
fn generated_peers_have_their_places() {
    let net = Network::default();
    let server = generate_server(&net).unwrap();
    assert_eq!((server.name.as_str(), server.psk.as_str()), ("server", ""));
    assert_eq!(server.v4, "10.13.13.1");
    let clients = generate_clients(&net, MAX_CLIENTS).unwrap();
    assert_eq!(clients.len(), 250);
    assert_eq!(clients[0].name, "client-1");
    assert_eq!(clients[0].v4, "10.13.13.2");
    assert_eq!(clients[249].name, "client-250");
    assert_eq!(clients[249].v6, "fd0d:daita:vpn::fb");
    assert_ne!(clients[0].psk, clients[1].psk);
    assert!(generate_clients(&net, 0).unwrap().is_empty());
    assert_eq!(client_endpoint(true, "relay", "server"), "relay");
    assert_eq!(client_endpoint(false, "relay", "server"), "server");
}

#[test]
fn what_is_made_of_the_random_number_source_is_fixed() {
    assert_eq!(drawn(Ok([9u8; 32])), Ok([9u8; 32]));
    assert_eq!(drawn(Err(getrandom::Error::UNSUPPORTED)), Err(NoEntropy));

    let secret = [1u8; 32];
    let expected = keypair_of(&secret);
    let k = keypair_from(Ok(secret)).unwrap();
    assert_eq!((k.private, k.public), (expected.private, expected.public));
    assert!(matches!(keypair_from(Err(NoEntropy)), Err(NoEntropy)));
    assert_eq!(psk_from(Ok([0xff; 32])), Ok(psk_of(&[0xff; 32])));
    assert_eq!(psk_from(Err(NoEntropy)), Err(NoEntropy));
}

#[test]
fn drawn_keys_make_the_peers() {
    let net = Network::default();
    let secret = [1u8; 32];
    let server = server_from(&net, Ok(secret)).unwrap();
    assert_eq!((server.name.as_str(), server.v4.as_str()), ("server", "10.13.13.1"));
    assert_eq!(server.keys.public, keypair_of(&secret).public);
    assert_eq!(server.psk, "");
    assert!(matches!(server_from(&net, Err(NoEntropy)), Err(NoEntropy)));

    let psk = [2u8; 32];
    let client = client_from(&net, 8, Ok(secret), Ok(psk)).unwrap();
    assert_eq!((client.name.as_str(), client.v4.as_str()), ("client-9", "10.13.13.10"));
    assert_eq!(client.v6, "fd0d:daita:vpn::a");
    assert_eq!(client.keys.private, keypair_of(&secret).private);
    assert_eq!(client.psk, psk_of(&psk));
    assert!(matches!(client_from(&net, 8, Err(NoEntropy), Ok(psk)), Err(NoEntropy)));
    assert!(matches!(client_from(&net, 8, Ok(secret), Err(NoEntropy)), Err(NoEntropy)));
}

#[test]
fn each_client_has_the_keys_that_were_drawn_for_it() {
    let net = Network::default();
    let draws: Vec<Result<[u8; 32], NoEntropy>> = (1..=6u8).map(|i| Ok([i; 32])).collect();
    let clients = clients_from(&net, &draws).unwrap();
    assert_eq!(clients.len(), 3);
    for (i, client) in clients.iter().enumerate() {
        let secret = [2 * i as u8 + 1; 32];
        let psk = [2 * i as u8 + 2; 32];
        let expected = keypair_of(&secret);
        assert_eq!(client.name, format!("client-{}", i + 1));
        assert_eq!(client.v4, format!("10.13.13.{}", i + 2));
        assert_eq!(client.keys.private, expected.private);
        assert_eq!(client.keys.public, expected.public);
        assert_eq!(client.psk, psk_of(&psk));
    }
    for missing in 0..6 {
        let mut short = draws.clone();
        short[missing] = Err(NoEntropy);
        assert!(matches!(clients_from(&net, &short), Err(NoEntropy)), "{missing}");
    }
    assert!(clients_from(&net, &[]).unwrap().is_empty());
}
