use wg_dbusd::net::{ip_address_text, socket_address_text, IpAddress, SocketAddress};

fn v6(g: [u16; 8]) -> String {
    ip_address_text(&IpAddress::V6(g))
}

#[test]
fn ipv4_dotted_decimal() {
    assert_eq!(ip_address_text(&IpAddress::V4([10, 24, 24, 3])), "10.24.24.3");
    assert_eq!(ip_address_text(&IpAddress::V4([0, 0, 0, 0])), "0.0.0.0");
    assert_eq!(ip_address_text(&IpAddress::V4([255, 255, 255, 255])), "255.255.255.255");
}

#[test]
fn ipv6_unspecified_and_loopback() {
    assert_eq!(v6([0; 8]), "::");
    assert_eq!(v6([0, 0, 0, 0, 0, 0, 0, 1]), "::1");
    assert_eq!(v6([1, 0, 0, 0, 0, 0, 0, 0]), "1::");
}

#[test]
fn ipv6_compresses_first_longest_zero_run() {
    assert_eq!(v6([0x2001, 0xdb8, 0, 0, 0, 0, 0, 1]), "2001:db8::1");
    assert_eq!(v6([1, 0, 0, 2, 0, 0, 3, 4]), "1::2:0:0:3:4");
    assert_eq!(v6([1, 0, 0, 2, 0, 0, 0, 3]), "1:0:0:2::3");
}

#[test]
fn ipv6_single_zero_group_is_not_compressed() {
    assert_eq!(v6([1, 0, 2, 3, 4, 5, 6, 7]), "1:0:2:3:4:5:6:7");
}

#[test]
fn ipv6_lowercase_hex_without_leading_zeros() {
    assert_eq!(
        v6([0xabcd, 0xef, 0x0f0f, 0x10, 0xffff, 0x1, 0x20, 0xfe80]),
        "abcd:ef:f0f:10:ffff:1:20:fe80"
    );
}

#[test]
fn ipv6_mapped_ipv4() {
    assert_eq!(v6([0, 0, 0, 0, 0, 0xffff, 0xc0a8, 0x0001]), "::ffff:192.168.0.1");
    // an IPv4-compatible address is not written with a dotted quad
    assert_eq!(v6([0, 0, 0, 0, 0, 0, 0xc0a8, 0x0001]), "::c0a8:1");
}

#[test]
fn socket_addresses() {
    assert_eq!(
        socket_address_text(&SocketAddress::V4 { ip: [10, 0, 0, 1], port: 51820 }),
        "10.0.0.1:51820"
    );
    assert_eq!(
        socket_address_text(&SocketAddress::V6 {
            ip: [0x2001, 0xdb8, 0, 0, 0, 0, 0, 1],
            port: 51820,
            flowinfo: 7,
            scope_id: 0
        }),
        "[2001:db8::1]:51820"
    );
    assert_eq!(
        socket_address_text(&SocketAddress::V6 {
            ip: [0xfe80, 0, 0, 0, 0, 0, 0, 1],
            port: 443,
            flowinfo: 0,
            scope_id: 3
        }),
        "[fe80::1%3]:443"
    );
    assert_eq!(
        socket_address_text(&SocketAddress::V6 {
            ip: [0, 0, 0, 0, 0, 0xffff, 0xc0a8, 1],
            port: 1,
            flowinfo: 0,
            scope_id: 0
        }),
        "[::ffff:192.168.0.1]:1"
    );
}
