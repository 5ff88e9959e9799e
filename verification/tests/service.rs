use wg_dbusd::peer::{HandshakeTime, PeerInfo};
use wg_dbusd::service::{
    device_object_path, names_peer, peer_object_path, peer_object_paths, ObjectAction, ObjectKind,
    Service, OBJECT_PATH,
};

const KEY_AB: &str = "abababababababababababababababababababababababababababababababab";

#[test]
fn object_paths() {
    assert_eq!(OBJECT_PATH, "/io/github/thokis/WireGuard1");
    assert_eq!(device_object_path("wg0"), "/io/github/thokis/WireGuard1/Devices/wg0");
    assert_eq!(
        peer_object_path("wg0", &[0xab; 32]),
        format!("/io/github/thokis/WireGuard1/Devices/wg0/Peers/{}", KEY_AB)
    );
    let mut key = [0u8; 32];
    for (i, b) in key.iter_mut().enumerate() {
        *b = i as u8;
    }
    assert_eq!(
        peer_object_path("wg1", &key),
        "/io/github/thokis/WireGuard1/Devices/wg1/Peers/000102030405060708090a0b0c0d0e0f101112131415161718191a1b1c1d1e1f"
    );
}

#[test]
fn peer_paths_of_a_device() {
    let peer = |k: u8| PeerInfo {
        public_key: [k; 32],
        endpoint: None,
        persistent_keepalive_interval: 0,
        last_handshake_time: HandshakeTime { secs: 0, nanos: 0 },
        rx_bytes: 0,
        tx_bytes: 0,
        allowed_ips: vec![],
        protocol_version: 1,
    };
    let paths = peer_object_paths("wg0", &vec![peer(0xab), peer(0)]);
    assert_eq!(
        paths,
        vec![peer_object_path("wg0", &[0xab; 32]), peer_object_path("wg0", &[0; 32])]
    );
}

#[test]
fn classifies_paths() {
    assert!(names_peer(&peer_object_path("wg0", &[1; 32])));
    assert!(!names_peer(&device_object_path("wg0")));
    assert!(!names_peer(""));
    assert!(names_peer("/Peers/"));
}

#[test]
fn first_cycle_serves_everything() {
    let mut s = Service::new();
    s.begin_cycle();
    let d = s.place_device("wg0");
    assert_eq!(d.object_path, device_object_path("wg0"));
    assert_eq!(d.action, ObjectAction::Serve);
    let p = s.place_peer("wg0", &[0xab; 32]);
    assert_eq!(p.action, ObjectAction::Serve);
    s.mark_served(&d.object_path);
    s.mark_served(&p.object_path);
    assert!(s.is_served(&d.object_path));
    assert!(s.stale_objects().is_empty());
}

#[test]
fn failed_serve_is_retried() {
    let mut s = Service::new();
    s.begin_cycle();
    let d = s.place_device("wg0");
    assert_eq!(d.action, ObjectAction::Serve);
    // serving failed: not marked
    assert!(s.stale_objects().is_empty());
    s.begin_cycle();
    assert_eq!(s.place_device("wg0").action, ObjectAction::Serve);
}

#[test]
fn second_cycle_updates_and_prunes_peers_first() {
    let mut s = Service::new();
    s.begin_cycle();
    for placement in [
        s.place_device("wg0"),
        s.place_peer("wg0", &[1; 32]),
        s.place_peer("wg0", &[2; 32]),
        s.place_device("wg1"),
        s.place_peer("wg1", &[3; 32]),
    ] {
        s.mark_served(&placement.object_path);
    }
    // wg1 and its peer disappear, as does one peer of wg0
    s.begin_cycle();
    assert_eq!(s.place_device("wg0").action, ObjectAction::Update);
    assert_eq!(s.place_peer("wg0", &[1; 32]).action, ObjectAction::Update);
    assert_eq!(s.place_peer("wg0", &[4; 32]).action, ObjectAction::Serve);
    let stale = s.stale_objects();
    let got: Vec<(String, ObjectKind)> =
        stale.iter().map(|o| (o.object_path.clone(), o.kind)).collect();
    assert_eq!(got.len(), 3);
    // peers (longer paths) come first, the device last
    assert_eq!(got[2], (device_object_path("wg1"), ObjectKind::Device));
    assert!(got[..2].contains(&(peer_object_path("wg0", &[2; 32]), ObjectKind::Peer)));
    assert!(got[..2].contains(&(peer_object_path("wg1", &[3; 32]), ObjectKind::Peer)));
    for o in &stale {
        s.mark_removed(&o.object_path);
    }
    assert!(!s.is_served(&device_object_path("wg1")));
    assert!(s.is_served(&device_object_path("wg0")));
    assert!(s.is_served(&peer_object_path("wg0", &[1; 32])));
    assert!(!s.is_served(&peer_object_path("wg0", &[4; 32])));
}

#[test]
fn stale_longest_first() {
    let mut s = Service::new();
    s.begin_cycle();
    for name in ["a", "abc", "ab", "abcd"] {
        let p = s.place_device(name);
        s.mark_served(&p.object_path);
    }
    s.begin_cycle();
    let stale: Vec<String> = s.stale_objects().into_iter().map(|o| o.object_path).collect();
    assert_eq!(
        stale,
        vec![
            device_object_path("abcd"),
            device_object_path("abc"),
            device_object_path("ab"),
            device_object_path("a"),
        ]
    );
}

#[test]
fn placing_twice_keeps_one_entry() {
    let mut s = Service::new();
    s.begin_cycle();
    let p = s.place_device("wg0");
    s.mark_served(&p.object_path);
    s.mark_served(&p.object_path);
    s.mark_removed(&p.object_path);
    assert!(!s.is_served(&p.object_path));
    s.mark_removed(&p.object_path);
    assert!(!s.is_served(&p.object_path));
}

#[test]
fn repeated_cycle_is_quiet() {
    let mut s = Service::new();
    for cycle in 0..2 {
        s.begin_cycle();
        for placement in [
            s.place_device("wg0"),
            s.place_peer("wg0", &[1; 32]),
            s.place_peer("wg0", &[2; 32]),
        ] {
            if cycle == 0 {
                assert_eq!(placement.action, ObjectAction::Serve);
                s.mark_served(&placement.object_path);
            } else {
                assert_eq!(placement.action, ObjectAction::Update);
            }
        }
        assert!(s.stale_objects().is_empty());
    }
}

#[test]
fn dropped_device_goes_with_its_peers() {
    let mut s = Service::new();
    s.begin_cycle();
    for placement in [s.place_device("wg0"), s.place_peer("wg0", &[1; 32])] {
        s.mark_served(&placement.object_path);
    }
    s.begin_cycle();
    let stale = s.stale_objects();
    assert_eq!(stale.len(), 2);
    assert_eq!(stale[0].object_path, peer_object_path("wg0", &[1; 32]));
    assert_eq!(stale[0].kind, ObjectKind::Peer);
    assert_eq!(stale[1].object_path, device_object_path("wg0"));
    assert_eq!(stale[1].kind, ObjectKind::Device);
    for o in &stale {
        s.mark_removed(&o.object_path);
    }
    assert!(s.stale_objects().is_empty());
    assert!(!s.is_served(&device_object_path("wg0")));
}
