//! Carrying WireGuard's datagrams.

use dvpn::wgbridge::{oversize_notice, WgBridge, BATCH};
use dvpn::wire::MAX_PAYLOAD;

#[test]
fn the_client_side_learns_where_wireguard_is() {
    let mut b: WgBridge<u16> = WgBridge::listening();
    assert_eq!(b.target(), None);
    assert_eq!(b.take_datagram(7, b"handshake"), Some(b"handshake".to_vec()));
    assert_eq!(b.target(), Some(7));
    // The first contact is kept, whoever speaks up later.
    assert_eq!(b.take_datagram(9, b"again"), Some(b"again".to_vec()));
    assert_eq!(b.target(), Some(7));
}

#[test]
fn the_server_side_sends_to_its_target_only() {
    let mut b: WgBridge<u16> = WgBridge::forwarding(51820);
    assert_eq!(b.target(), Some(51820));
    b.take_datagram(7, b"x");
    assert_eq!(b.target(), Some(51820));
}

#[test]
fn what_does_not_fit_is_counted_and_named() {
    let mut b: WgBridge<u16> = WgBridge::listening();
    assert_eq!(b.take_datagram(1, &vec![0u8; MAX_PAYLOAD + 1]), None);
    assert_eq!(b.target(), Some(1), "contact was made all the same");
    assert_eq!(b.take_datagram(1, &vec![3u8; MAX_PAYLOAD]), Some(vec![3u8; MAX_PAYLOAD]));
    b.delivered();
    b.delivered();
    assert_eq!(
        b.report(),
        "bridge: 1 forwarded into the tunnel, 2 delivered out, 1 dropped as oversize"
    );
    assert_eq!(
        oversize_notice(1198),
        "bridge: dropped a 1198-byte datagram (limit 1197). Lower the WireGuard MTU — \
         dvpn-wgconf computes the right value."
    );
    assert_eq!(BATCH, 32);
}
