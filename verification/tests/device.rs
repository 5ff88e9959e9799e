use wg_dbusd::device::{Device, DeviceInfo, DeviceProperty};

fn sample() -> DeviceInfo {
    DeviceInfo {
        ifindex: 0,
        ifname: "wg0".to_string(),
        public_key: None,
        listen_port: 0,
        fwmark: 0,
    }
}

#[test]
fn public_key_none_is_empty() {
    assert_eq!(Device::from(sample()).public_key(), "");
}

#[test]
fn public_key_some_is_44_char_base64() {
    let mut wg = sample();
    wg.public_key = Some([0u8; 32]);
    assert_eq!(Device::from(wg).public_key().len(), 44);
}

#[test]
fn public_key_is_standard_base64() {
    let mut wg = sample();
    wg.public_key = Some([0u8; 32]);
    assert_eq!(
        Device::from(wg).public_key(),
        "AAAAAAAAAAAAAAAAAAAAAAAAAAAAAAAAAAAAAAAAAAA="
    );
    let mut key = [0u8; 32];
    for (i, b) in key.iter_mut().enumerate() {
        *b = i as u8;
    }
    let mut wg = sample();
    wg.public_key = Some(key);
    assert_eq!(
        Device::from(wg).public_key(),
        "AAECAwQFBgcICQoLDA0ODxAREhMUFRYXGBkaGxwdHh8="
    );
}

#[test]
fn constant_properties() {
    let mut wg = sample();
    wg.ifindex = 7;
    wg.ifname = "wg-home".to_string();
    wg.listen_port = 51820;
    wg.fwmark = 0x1234;
    let d = Device::from(wg);
    assert_eq!(d.if_index(), 7);
    assert_eq!(d.if_name(), "wg-home");
    assert_eq!(d.listen_port(), 51820);
    assert_eq!(d.fw_mark(), 0x1234);
    assert!(d.peers().is_empty());
}

#[test]
fn new_keeps_peer_paths() {
    let paths = vec!["/a/Peers/00".to_string(), "/a/Peers/01".to_string()];
    let d = Device::new(sample(), paths.clone());
    assert_eq!(d.peers(), &paths);
}

#[test]
fn update_reports_each_change_in_order_then_stops() {
    let mut d = Device::from(sample());
    let mut new = sample();
    new.ifindex = 9;
    new.ifname = "other".to_string();
    new.public_key = Some([1u8; 32]);
    new.listen_port = 51820;
    new.fwmark = 5;
    let paths = vec!["/p".to_string()];
    assert_eq!(d.update(&new, &paths), Some(DeviceProperty::PublicKey));
    assert_eq!(d.update(&new, &paths), Some(DeviceProperty::ListenPort));
    assert_eq!(d.update(&new, &paths), Some(DeviceProperty::FwMark));
    assert_eq!(d.update(&new, &paths), Some(DeviceProperty::Peers));
    assert_eq!(d.update(&new, &paths), None);
    assert_eq!(d.listen_port(), 51820);
    assert_eq!(d.fw_mark(), 5);
    assert_eq!(d.peers(), &paths);
    assert_eq!(d.public_key(), "AQEBAQEBAQEBAQEBAQEBAQEBAQEBAQEBAQEBAQEBAQE=");
    // the index and the name are constant
    assert_eq!(d.if_index(), 0);
    assert_eq!(d.if_name(), "wg0");
}

#[test]
fn update_without_change_reports_nothing() {
    let mut d = Device::from(sample());
    assert_eq!(d.update(&sample(), &vec![]), None);
    assert_eq!(d.public_key(), "");
}

#[test]
fn update_takes_only_the_first_change() {
    let mut d = Device::from(sample());
    let mut new = sample();
    new.fwmark = 3;
    new.listen_port = 4;
    assert_eq!(d.update(&new, &vec![]), Some(DeviceProperty::ListenPort));
    // the firewall mark is still the old one until the next step
    assert_eq!(d.fw_mark(), 0);
    assert_eq!(d.update(&new, &vec![]), Some(DeviceProperty::FwMark));
    assert_eq!(d.fw_mark(), 3);
}

#[test]
fn removing_the_key_is_a_change() {
    let mut wg = sample();
    wg.public_key = Some([2u8; 32]);
    let mut d = Device::from(wg);
    assert_eq!(d.update(&sample(), &vec![]), Some(DeviceProperty::PublicKey));
    assert_eq!(d.public_key(), "");
}

#[test]
fn distinct_keys_have_distinct_texts() {
    let mut a = sample();
    a.public_key = Some([1u8; 32]);
    let mut b = sample();
    let mut k = [1u8; 32];
    k[31] = 2;
    b.public_key = Some(k);
    assert_ne!(Device::from(a).public_key(), Device::from(b).public_key());
}

#[test]
fn new_device_refresh_is_quiet() {
    let mut wg = sample();
    wg.public_key = Some([3u8; 32]);
    wg.listen_port = 51820;
    let paths = vec!["/p/Peers/01".to_string()];
    let mut d = Device::new(wg, paths.clone());
    let mut same = sample();
    same.public_key = Some([3u8; 32]);
    same.listen_port = 51820;
    assert_eq!(d.update(&same, &paths), None);
    assert_eq!(d.update(&same, &paths), None);
}
