use wg_dbusd::net::{IpAddress, SocketAddress};
use wg_dbusd::peer::{AllowedIp, HandshakeTime, Peer, PeerInfo, PeerProperty};

fn sample() -> PeerInfo {
    PeerInfo {
        public_key: [0u8; 32],
        endpoint: None,
        persistent_keepalive_interval: 0,
        last_handshake_time: HandshakeTime { secs: 0, nanos: 0 },
        rx_bytes: 0,
        tx_bytes: 0,
        allowed_ips: vec![],
        protocol_version: 1,
    }
}

#[test]
fn peer_defaults() {
    let p = Peer::from(sample());
    assert_eq!(p.public_key(), "AAAAAAAAAAAAAAAAAAAAAAAAAAAAAAAAAAAAAAAAAAA=");
    assert_eq!(p.endpoint(), "");
    assert_eq!(p.persistent_keepalive_interval(), 0);
    assert_eq!(p.last_handshake_time(), 0);
    assert_eq!(p.rx_bytes(), 0);
    assert_eq!(p.tx_bytes(), 0);
    assert!(p.allowed_ips().is_empty());
    assert_eq!(p.protocol_version(), 1);
}

#[test]
fn peer_properties_as_text() {
    let mut info = sample();
    info.endpoint = Some(SocketAddress::V4 { ip: [192, 0, 2, 7], port: 51820 });
    info.last_handshake_time = HandshakeTime { secs: 1_700_000_000, nanos: 999_999_999 };
    info.allowed_ips = vec![
        AllowedIp { family: 2, ipaddr: IpAddress::V4([10, 24, 24, 3]), cidr_mask: 32 },
        AllowedIp { family: 10, ipaddr: IpAddress::V6([0, 0, 0, 0, 0, 0, 0, 1]), cidr_mask: 128 },
        AllowedIp { family: 10, ipaddr: IpAddress::V6([0; 8]), cidr_mask: 0 },
    ];
    info.persistent_keepalive_interval = 25;
    info.rx_bytes = 1234;
    info.tx_bytes = 5678;
    let p = Peer::from(info);
    assert_eq!(p.endpoint(), "192.0.2.7:51820");
    assert_eq!(p.last_handshake_time(), 1_700_000_000);
    assert_eq!(p.allowed_ips(), vec!["10.24.24.3/32", "::1/128", "::/0"]);
    assert_eq!(p.persistent_keepalive_interval(), 25);
    assert_eq!(p.rx_bytes(), 1234);
    assert_eq!(p.tx_bytes(), 5678);
}

#[test]
fn peer_update_steps_in_order() {
    let mut p = Peer::from(sample());
    let mut new = sample();
    new.endpoint = Some(SocketAddress::V4 { ip: [10, 0, 0, 1], port: 1 });
    new.last_handshake_time = HandshakeTime { secs: 5, nanos: 0 };
    new.rx_bytes = 10;
    new.tx_bytes = 20;
    new.allowed_ips = vec![AllowedIp { family: 2, ipaddr: IpAddress::V4([10, 0, 0, 0]), cidr_mask: 8 }];
    new.protocol_version = 2;
    let mut seen = Vec::new();
    while let Some(prop) = p.update(&new) {
        seen.push((prop, prop.emits_changed_signal()));
    }
    assert_eq!(
        seen,
        vec![
            (PeerProperty::Endpoint, true),
            (PeerProperty::LastHandshakeTime, true),
            (PeerProperty::RxBytes, false),
            (PeerProperty::TxBytes, false),
            (PeerProperty::AllowedIps, true),
            (PeerProperty::ProtocolVersion, true),
        ]
    );
    assert_eq!(p.endpoint(), "10.0.0.1:1");
    assert_eq!(p.rx_bytes(), 10);
    assert_eq!(p.tx_bytes(), 20);
    assert_eq!(p.allowed_ips(), vec!["10.0.0.0/8"]);
    assert_eq!(p.protocol_version(), 2);
    assert_eq!(p.update(&new), None);
}

#[test]
fn peer_key_and_keepalive_changes() {
    let mut p = Peer::from(sample());
    let mut new = sample();
    new.public_key = [1u8; 32];
    new.persistent_keepalive_interval = 25;
    assert_eq!(p.update(&new), Some(PeerProperty::PublicKey));
    assert_eq!(p.public_key(), "AQEBAQEBAQEBAQEBAQEBAQEBAQEBAQEBAQEBAQEBAQE=");
    assert_eq!(p.update(&new), Some(PeerProperty::PersistentKeepaliveInterval));
    assert_eq!(p.update(&new), None);
}

#[test]
fn handshake_nanoseconds_are_a_change_but_not_shown() {
    let mut p = Peer::from(sample());
    let mut new = sample();
    new.last_handshake_time = HandshakeTime { secs: 0, nanos: 5 };
    assert_eq!(p.update(&new), Some(PeerProperty::LastHandshakeTime));
    assert_eq!(p.last_handshake_time(), 0);
}

#[test]
fn endpoint_flowinfo_is_a_change() {
    let mut info = sample();
    info.endpoint = Some(SocketAddress::V6 { ip: [0xfe80, 0, 0, 0, 0, 0, 0, 1], port: 9, flowinfo: 0, scope_id: 2 });
    let mut p = Peer::from(info);
    let mut new = sample();
    new.endpoint = Some(SocketAddress::V6 { ip: [0xfe80, 0, 0, 0, 0, 0, 0, 1], port: 9, flowinfo: 1, scope_id: 2 });
    assert_eq!(p.update(&new), Some(PeerProperty::Endpoint));
    assert_eq!(p.endpoint(), "[fe80::1%2]:9");
    assert_eq!(p.update(&new), None);
}

#[test]
fn new_peer_refresh_is_quiet() {
    let mut info = sample();
    info.endpoint = Some(SocketAddress::V4 { ip: [10, 0, 0, 1], port: 1 });
    info.allowed_ips = vec![AllowedIp { family: 2, ipaddr: IpAddress::V4([10, 0, 0, 0]), cidr_mask: 8 }];
    let mut p = Peer::from(info);
    let mut same = sample();
    same.endpoint = Some(SocketAddress::V4 { ip: [10, 0, 0, 1], port: 1 });
    same.allowed_ips = vec![AllowedIp { family: 2, ipaddr: IpAddress::V4([10, 0, 0, 0]), cidr_mask: 8 }];
    assert_eq!(p.update(&same), None);
}
