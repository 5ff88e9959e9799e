//! The published state of one WireGuard peer.
//!
//! A `Peer` holds what the bus shows of a peer. The preshared key has no
//! place here and is never shown.

use vstd::prelude::*;
use crate::net::{
    IpAddress, SocketAddress, ip_text, ipv6_text, socket_text, push_ip, socket_address_text,
};
use crate::strings::same_key;
use crate::text::{
    base64_of_key, base64_standard, decimal, decimal_value, is_decimal_digit, lemma_base64_injective,
    lemma_base64_len, lemma_decimal_denotes, push_char, push_decimal,
};

verus! {

/// A point in time as seconds and nanoseconds since the Unix epoch.
#[derive(Clone, Copy, Debug, PartialEq, Eq, Structural)]
pub struct HandshakeTime {
    pub secs: u64,
    pub nanos: u32,
}

/// A network that a peer may send from: an address and a prefix length.
#[derive(Clone, Copy, Debug)]
pub struct AllowedIp {
    pub family: u16,
    pub ipaddr: IpAddress,
    pub cidr_mask: u8,
}

/// What the kernel reports of a WireGuard peer, apart from its preshared key.
pub struct PeerInfo {
    pub public_key: [u8; 32],
    pub endpoint: Option<SocketAddress>,
    pub persistent_keepalive_interval: u16,
    pub last_handshake_time: HandshakeTime,
    pub rx_bytes: u64,
    pub tx_bytes: u64,
    pub allowed_ips: Vec<AllowedIp>,
    pub protocol_version: u32,
}

/// The state of one WireGuard peer as published on the bus.
pub struct Peer {
    peer: PeerInfo,
}

/// The abstract value of a `Peer`, and of a `PeerInfo`.
pub struct PeerView {
    pub public_key: [u8; 32],
    pub endpoint: Option<SocketAddress>,
    pub persistent_keepalive_interval: u16,
    pub last_handshake_time: HandshakeTime,
    pub rx_bytes: u64,
    pub tx_bytes: u64,
    pub allowed_ips: Seq<AllowedIp>,
    pub protocol_version: u32,
}

/// A property of a peer.
#[derive(Clone, Copy, Debug, PartialEq, Eq, Structural)]
pub enum PeerProperty {
    PublicKey,
    Endpoint,
    PersistentKeepaliveInterval,
    LastHandshakeTime,
    RxBytes,
    TxBytes,
    AllowedIps,
    ProtocolVersion,
}

impl View for PeerInfo {
    type V = PeerView;

    open spec fn view(&self) -> PeerView {
        PeerView {
            public_key: self.public_key,
            endpoint: self.endpoint,
            persistent_keepalive_interval: self.persistent_keepalive_interval,
            last_handshake_time: self.last_handshake_time,
            rx_bytes: self.rx_bytes,
            tx_bytes: self.tx_bytes,
            allowed_ips: self.allowed_ips@,
            protocol_version: self.protocol_version,
        }
    }
}

impl View for Peer {
    type V = PeerView;

    closed spec fn view(&self) -> PeerView {
        self.peer@
    }
}

/// Whether a change of the property is announced with `PropertiesChanged`:
/// the byte counters change all the time and are not.
pub open spec fn peer_property_signalled(p: PeerProperty) -> bool {
    !(p is RxBytes || p is TxBytes)
}

/// The property `p` of `v` differs from the new report `n`.
pub open spec fn peer_differs(v: PeerView, p: PeerProperty, n: PeerView) -> bool {
    match p {
        PeerProperty::PublicKey => v.public_key != n.public_key,
        PeerProperty::Endpoint => v.endpoint != n.endpoint,
        PeerProperty::PersistentKeepaliveInterval => v.persistent_keepalive_interval
            != n.persistent_keepalive_interval,
        PeerProperty::LastHandshakeTime => v.last_handshake_time != n.last_handshake_time,
        PeerProperty::RxBytes => v.rx_bytes != n.rx_bytes,
        PeerProperty::TxBytes => v.tx_bytes != n.tx_bytes,
        PeerProperty::AllowedIps => v.allowed_ips != n.allowed_ips,
        PeerProperty::ProtocolVersion => v.protocol_version != n.protocol_version,
    }
}

/// The position of a property in the order in which an update checks them.
pub open spec fn peer_rank(p: PeerProperty) -> int {
    match p {
        PeerProperty::PublicKey => 0,
        PeerProperty::Endpoint => 1,
        PeerProperty::PersistentKeepaliveInterval => 2,
        PeerProperty::LastHandshakeTime => 3,
        PeerProperty::RxBytes => 4,
        PeerProperty::TxBytes => 5,
        PeerProperty::AllowedIps => 6,
        PeerProperty::ProtocolVersion => 7,
    }
}

/// The first property, in update order, that differs from the new report.
pub open spec fn peer_first_change(v: PeerView, n: PeerView) -> Option<PeerProperty> {
    if peer_differs(v, PeerProperty::PublicKey, n) {
        Some(PeerProperty::PublicKey)
    } else if peer_differs(v, PeerProperty::Endpoint, n) {
        Some(PeerProperty::Endpoint)
    } else if peer_differs(v, PeerProperty::PersistentKeepaliveInterval, n) {
        Some(PeerProperty::PersistentKeepaliveInterval)
    } else if peer_differs(v, PeerProperty::LastHandshakeTime, n) {
        Some(PeerProperty::LastHandshakeTime)
    } else if peer_differs(v, PeerProperty::RxBytes, n) {
        Some(PeerProperty::RxBytes)
    } else if peer_differs(v, PeerProperty::TxBytes, n) {
        Some(PeerProperty::TxBytes)
    } else if peer_differs(v, PeerProperty::AllowedIps, n) {
        Some(PeerProperty::AllowedIps)
    } else if peer_differs(v, PeerProperty::ProtocolVersion, n) {
        Some(PeerProperty::ProtocolVersion)
    } else {
        None
    }
}

/// `v` with the property `p` taken from the new report `n`.
pub open spec fn peer_assign(v: PeerView, p: PeerProperty, n: PeerView) -> PeerView {
    match p {
        PeerProperty::PublicKey => PeerView { public_key: n.public_key, ..v },
        PeerProperty::Endpoint => PeerView { endpoint: n.endpoint, ..v },
        PeerProperty::PersistentKeepaliveInterval => PeerView {
            persistent_keepalive_interval: n.persistent_keepalive_interval,
            ..v
        },
        PeerProperty::LastHandshakeTime => PeerView {
            last_handshake_time: n.last_handshake_time,
            ..v
        },
        PeerProperty::RxBytes => PeerView { rx_bytes: n.rx_bytes, ..v },
        PeerProperty::TxBytes => PeerView { tx_bytes: n.tx_bytes, ..v },
        PeerProperty::AllowedIps => PeerView { allowed_ips: n.allowed_ips, ..v },
        PeerProperty::ProtocolVersion => PeerView { protocol_version: n.protocol_version, ..v },
    }
}

/// The peer after at most `steps` update steps against the same report.
pub open spec fn peer_after_updates(v: PeerView, n: PeerView, steps: nat) -> PeerView
    decreases steps,
{
    if steps == 0 {
        v
    } else {
        match peer_first_change(v, n) {
            None => v,
            Some(p) => peer_after_updates(peer_assign(v, p, n), n, (steps - 1) as nat),
        }
    }
}

/// The text of an allowed network: the address, `/`, and the prefix length.
pub open spec fn allowed_ip_text(a: AllowedIp) -> Seq<char> {
    ip_text(a.ipaddr) + seq!['/'] + decimal(a.cidr_mask as nat)
}

/// The text of an endpoint: the socket address, or empty when there is none.
pub open spec fn endpoint_text(e: Option<SocketAddress>) -> Seq<char> {
    match e {
        Some(a) => socket_text(a),
        None => seq![],
    }
}

impl PeerProperty {
    /// Whether a change of this property is announced with `PropertiesChanged`.
    pub fn emits_changed_signal(&self) -> (r: bool)
        ensures
            r == peer_property_signalled(*self),
            r <==> !(*self == PeerProperty::RxBytes || *self == PeerProperty::TxBytes),
    {
        match self {
            PeerProperty::RxBytes | PeerProperty::TxBytes => false,
            _ => true,
        }
    }
}

/// Whether two byte quads are the same.
fn same_octets(x: &[u8; 4], y: &[u8; 4]) -> (r: bool)
    ensures
        r == (*x == *y),
{
    let mut i: usize = 0;
    while i < 4
        invariant
            i <= 4,
            forall|j: int| 0 <= j < i ==> x[j] == y[j],
        decreases 4 - i,
    {
        if x[i] != y[i] {
            proof {
                assert(x@[i as int] != y@[i as int]);
            }
            return false;
        }
        i += 1;
    }
    proof {
        assert(*x =~= *y);
    }
    true
}

/// Whether two sets of eight groups are the same.
fn same_groups(x: &[u16; 8], y: &[u16; 8]) -> (r: bool)
    ensures
        r == (*x == *y),
{
    let mut i: usize = 0;
    while i < 8
        invariant
            i <= 8,
            forall|j: int| 0 <= j < i ==> x[j] == y[j],
        decreases 8 - i,
    {
        if x[i] != y[i] {
            proof {
                assert(x@[i as int] != y@[i as int]);
            }
            return false;
        }
        i += 1;
    }
    proof {
        assert(*x =~= *y);
    }
    true
}

/// Whether two IP addresses are the same.
pub fn same_ip(a: &IpAddress, b: &IpAddress) -> (r: bool)
    ensures
        r == (*a == *b),
{
    match a {
        IpAddress::V4(x) => match b {
            IpAddress::V4(y) => same_octets(x, y),
            IpAddress::V6(_) => false,
        },
        IpAddress::V6(x) => match b {
            IpAddress::V4(_) => false,
            IpAddress::V6(y) => same_groups(x, y),
        },
    }
}

/// Whether two endpoints are the same, flow information included.
pub fn same_endpoint(a: &Option<SocketAddress>, b: &Option<SocketAddress>) -> (r: bool)
    ensures
        r == (*a == *b),
{
    match (a, b) {
        (None, None) => true,
        (
            Some(SocketAddress::V4 { ip: ip1, port: p1 }),
            Some(SocketAddress::V4 { ip: ip2, port: p2 }),
        ) => *p1 == *p2 && same_ip(&IpAddress::V4(*ip1), &IpAddress::V4(*ip2)),
        (
            Some(SocketAddress::V6 { ip: ip1, port: p1, flowinfo: f1, scope_id: s1 }),
            Some(SocketAddress::V6 { ip: ip2, port: p2, flowinfo: f2, scope_id: s2 }),
        ) => *p1 == *p2 && *f1 == *f2 && *s1 == *s2 && same_ip(
            &IpAddress::V6(*ip1),
            &IpAddress::V6(*ip2),
        ),
        _ => false,
    }
}

/// Whether two lists of allowed networks are the same, in the same order.
pub fn same_allowed_ips(a: &Vec<AllowedIp>, b: &Vec<AllowedIp>) -> (r: bool)
    ensures
        r == (a@ == b@),
{
    if a.len() != b.len() {
        return false;
    }
    let mut i: usize = 0;
    while i < a.len()
        invariant
            i <= a.len() == b.len(),
            forall|j: int| 0 <= j < i ==> a@[j] == b@[j],
        decreases a.len() - i,
    {
        let x = &a[i];
        let y = &b[i];
        if x.family != y.family || x.cidr_mask != y.cidr_mask || !same_ip(&x.ipaddr, &y.ipaddr) {
            return false;
        }
        i += 1;
    }
    proof {
        assert(a@ =~= b@);
    }
    true
}

/// A copy of a list of allowed networks.
fn copy_allowed_ips(a: &Vec<AllowedIp>) -> (r: Vec<AllowedIp>)
    ensures
        r@ == a@,
{
    let mut r: Vec<AllowedIp> = Vec::new();
    let mut i: usize = 0;
    while i < a.len()
        invariant
            i <= a.len(),
            r@ == a@.subrange(0, i as int),
        decreases a.len() - i,
    {
        let x = &a[i];
        r.push(AllowedIp { family: x.family, ipaddr: x.ipaddr, cidr_mask: x.cidr_mask });
        proof {
            assert(r@ =~= a@.subrange(0, i + 1));
        }
        i += 1;
    }
    proof {
        assert(a@.subrange(0, a@.len() as int) =~= a@);
    }
    r
}

impl Peer {
    /// A peer published from a kernel report.
    pub fn from(peer: PeerInfo) -> (r: Peer)
        ensures
            r@ == peer@,
    {
        Peer { peer }
    }

    /// One step of a refresh against a new report: takes over the first
    /// property, in the order public key, endpoint, keepalive interval, last
    /// handshake, received bytes, sent bytes, allowed networks, protocol
    /// version, whose value differs, and returns it; returns `None`, changing
    /// nothing, when the peer already shows the report. Whether to signal the
    /// change is `PeerProperty::emits_changed_signal`.
    pub fn update(&mut self, peer: &PeerInfo) -> (changed: Option<PeerProperty>)
        ensures
            changed == peer_first_change(old(self)@, peer@),
            final(self)@ == match changed {
                None => old(self)@,
                Some(p) => peer_assign(old(self)@, p, peer@),
            },
            final(self)@.public_key == if changed == Some(PeerProperty::PublicKey) {
                peer.public_key
            } else {
                old(self)@.public_key
            },
            final(self)@.endpoint == if changed == Some(PeerProperty::Endpoint) {
                peer.endpoint
            } else {
                old(self)@.endpoint
            },
            final(self)@.persistent_keepalive_interval == if changed == Some(
                PeerProperty::PersistentKeepaliveInterval,
            ) {
                peer.persistent_keepalive_interval
            } else {
                old(self)@.persistent_keepalive_interval
            },
            final(self)@.last_handshake_time == if changed == Some(PeerProperty::LastHandshakeTime) {
                peer.last_handshake_time
            } else {
                old(self)@.last_handshake_time
            },
            final(self)@.rx_bytes == if changed == Some(PeerProperty::RxBytes) {
                peer.rx_bytes
            } else {
                old(self)@.rx_bytes
            },
            final(self)@.tx_bytes == if changed == Some(PeerProperty::TxBytes) {
                peer.tx_bytes
            } else {
                old(self)@.tx_bytes
            },
            final(self)@.allowed_ips == if changed == Some(PeerProperty::AllowedIps) {
                peer.allowed_ips@
            } else {
                old(self)@.allowed_ips
            },
            final(self)@.protocol_version == if changed == Some(PeerProperty::ProtocolVersion) {
                peer.protocol_version
            } else {
                old(self)@.protocol_version
            },
    {
        if !same_key(&self.peer.public_key, &peer.public_key) {
            self.peer.public_key = peer.public_key;
            return Some(PeerProperty::PublicKey);
        }
        if !same_endpoint(&self.peer.endpoint, &peer.endpoint) {
            self.peer.endpoint = peer.endpoint;
            return Some(PeerProperty::Endpoint);
        }
        if self.peer.persistent_keepalive_interval != peer.persistent_keepalive_interval {
            self.peer.persistent_keepalive_interval = peer.persistent_keepalive_interval;
            return Some(PeerProperty::PersistentKeepaliveInterval);
        }
        if self.peer.last_handshake_time != peer.last_handshake_time {
            self.peer.last_handshake_time = peer.last_handshake_time;
            return Some(PeerProperty::LastHandshakeTime);
        }
        if self.peer.rx_bytes != peer.rx_bytes {
            self.peer.rx_bytes = peer.rx_bytes;
            return Some(PeerProperty::RxBytes);
        }
        if self.peer.tx_bytes != peer.tx_bytes {
            self.peer.tx_bytes = peer.tx_bytes;
            return Some(PeerProperty::TxBytes);
        }
        if !same_allowed_ips(&self.peer.allowed_ips, &peer.allowed_ips) {
            self.peer.allowed_ips = copy_allowed_ips(&peer.allowed_ips);
            return Some(PeerProperty::AllowedIps);
        }
        if self.peer.protocol_version != peer.protocol_version {
            self.peer.protocol_version = peer.protocol_version;
            return Some(PeerProperty::ProtocolVersion);
        }
        None
    }

    /// The public key in base64.
    pub fn public_key(&self) -> (r: String)
        ensures
            r@ == base64_standard(self@.public_key@),
    {
        base64_of_key(&self.peer.public_key)
    }

    /// The endpoint as `address:port`, or the empty string when there is none.
    pub fn endpoint(&self) -> (r: String)
        ensures
            r@ == endpoint_text(self@.endpoint),
            self@.endpoint is None ==> r@ == Seq::<char>::empty(),
            forall|a: SocketAddress| self@.endpoint == Some(a) ==> r@ == socket_text(a),
            forall|ip: [u8; 4], port: u16|
                self@.endpoint == Some(SocketAddress::V4 { ip, port }) ==> r@ == decimal(
                    ip[0] as nat,
                ) + seq!['.'] + decimal(ip[1] as nat) + seq!['.'] + decimal(ip[2] as nat) + seq!['.']
                    + decimal(ip[3] as nat) + seq![':'] + decimal(port as nat),
            forall|ip: [u16; 8], port: u16, flowinfo: u32, scope_id: u32|
                self@.endpoint == Some(SocketAddress::V6 { ip, port, flowinfo, scope_id }) ==> {
                    &&& r@[0] == '['
                    &&& r@.subrange(1, 1 + ipv6_text(ip@).len() as int) == ipv6_text(ip@)
                    &&& r@.subrange(r@.len() - decimal(port as nat).len() - 2, r@.len() as int)
                        == seq![']', ':'] + decimal(port as nat)
                },
    {
        let r = match &self.peer.endpoint {
            Some(a) => socket_address_text(a),
            None => String::new(),
        };
        proof {
            if let Some(a) = self@.endpoint {
                lemma_socket_text_shape(a);
            }
        }
        r
    }

    /// The persistent keepalive interval in seconds, `0` when off.
    pub fn persistent_keepalive_interval(&self) -> (r: u16)
        ensures
            r == self@.persistent_keepalive_interval,
    {
        self.peer.persistent_keepalive_interval
    }

    /// The last handshake as whole seconds since the Unix epoch, `0` for never.
    pub fn last_handshake_time(&self) -> (r: u64)
        ensures
            r == self@.last_handshake_time.secs,
    {
        self.peer.last_handshake_time.secs
    }

    /// Bytes received from the peer.
    pub fn rx_bytes(&self) -> (r: u64)
        ensures
            r == self@.rx_bytes,
    {
        self.peer.rx_bytes
    }

    /// Bytes sent to the peer.
    pub fn tx_bytes(&self) -> (r: u64)
        ensures
            r == self@.tx_bytes,
    {
        self.peer.tx_bytes
    }

    /// The allowed networks as `address/prefix` texts, in order.
    pub fn allowed_ips(&self) -> (r: Vec<String>)
        ensures
            r@.len() == self@.allowed_ips.len(),
            forall|i: int|
                0 <= i < r@.len() ==> #[trigger] r@[i]@ == allowed_ip_text(self@.allowed_ips[i]),
            forall|i: int|
                0 <= i < r@.len() ==> #[trigger] r@[i]@ == ip_text(self@.allowed_ips[i].ipaddr)
                    + seq!['/'] + decimal(self@.allowed_ips[i].cidr_mask as nat),
            forall|i: int|
                0 <= i < r@.len() && self@.allowed_ips[i].ipaddr is V4 ==> #[trigger] r@[i]@
                    == decimal((self@.allowed_ips[i].ipaddr->V4_0)[0] as nat) + seq!['.'] + decimal(
                    (self@.allowed_ips[i].ipaddr->V4_0)[1] as nat,
                ) + seq!['.'] + decimal((self@.allowed_ips[i].ipaddr->V4_0)[2] as nat) + seq!['.']
                    + decimal((self@.allowed_ips[i].ipaddr->V4_0)[3] as nat) + seq!['/'] + decimal(
                    self@.allowed_ips[i].cidr_mask as nat,
                ),
    {
        let ips = &self.peer.allowed_ips;
        let mut r: Vec<String> = Vec::new();
        let mut i: usize = 0;
        while i < ips.len()
            invariant
                i <= ips.len(),
                ips@ == self@.allowed_ips,
                r@.len() == i,
                forall|j: int| 0 <= j < i ==> #[trigger] r@[j]@ == allowed_ip_text(ips@[j]),
            decreases ips.len() - i,
        {
            let mut s = String::new();
            push_ip(&mut s, &ips[i].ipaddr);
            push_char(&mut s, '/');
            push_decimal(&mut s, ips[i].cidr_mask as u64);
            proof {
                assert(s@ =~= allowed_ip_text(ips@[i as int]));
            }
            r.push(s);
            i += 1;
        }
        r
    }

    /// The protocol version.
    pub fn protocol_version(&self) -> (r: u32)
        ensures
            r == self@.protocol_version,
    {
        self.peer.protocol_version
    }
}

/// The text of a socket address: an IPv4 one is the dotted octets, `:` and
/// the port; an IPv6 one is bracketed, so that its own colons are not read as
/// the port's, and ends with `]:` and the port, whatever its scope id.
pub proof fn lemma_socket_text_shape(a: SocketAddress)
    ensures
        match a {
            SocketAddress::V4 { ip, port } => socket_text(a) == decimal(ip[0] as nat) + seq!['.']
                + decimal(ip[1] as nat) + seq!['.'] + decimal(ip[2] as nat) + seq!['.'] + decimal(
                ip[3] as nat,
            ) + seq![':'] + decimal(port as nat),
            SocketAddress::V6 { ip, port, .. } => {
                let t = socket_text(a);
                &&& t[0] == '['
                &&& t.subrange(1, 1 + ipv6_text(ip@).len() as int) == ipv6_text(ip@)
                &&& t.subrange(t.len() - decimal(port as nat).len() - 2, t.len() as int) == seq![
                    ']',
                    ':',
                ] + decimal(port as nat)
            },
        },
{
    match a {
        SocketAddress::V4 { ip, port } => {
            assert(ip@[0] == ip[0] && ip@[1] == ip[1] && ip@[2] == ip[2] && ip@[3] == ip[3]);
        },
        SocketAddress::V6 { ip, port, scope_id, .. } => {
            let t = socket_text(a);
            let mid = ipv6_text(ip@);
            let sc = if scope_id == 0 {
                Seq::<char>::empty()
            } else {
                seq!['%'] + decimal(scope_id as nat)
            };
            let tail = seq![']', ':'] + decimal(port as nat);
            assert(t =~= seq!['['] + mid + sc + tail);
            assert(t.subrange(1, 1 + mid.len() as int) =~= mid);
            assert(t.subrange(t.len() - tail.len(), t.len() as int) =~= tail);
        },
    }
}

/// Which peer property changes are announced: the public key, endpoint,
/// keepalive interval, last handshake, allowed networks and protocol version
/// are; the two byte counters are not.
pub proof fn lemma_signalled_properties()
    ensures
        peer_property_signalled(PeerProperty::PublicKey),
        peer_property_signalled(PeerProperty::Endpoint),
        peer_property_signalled(PeerProperty::PersistentKeepaliveInterval),
        peer_property_signalled(PeerProperty::LastHandshakeTime),
        peer_property_signalled(PeerProperty::AllowedIps),
        peer_property_signalled(PeerProperty::ProtocolVersion),
        !peer_property_signalled(PeerProperty::RxBytes),
        !peer_property_signalled(PeerProperty::TxBytes),
{
}

/// The text of an allowed IPv4 network is made only of decimal digits, dots
/// and one slash: each octet is written unsigned, with the digits denoting
/// its value.
pub proof fn lemma_ipv4_network_text(a: AllowedIp, o: [u8; 4])
    requires
        a.ipaddr == IpAddress::V4(o),
    ensures
        allowed_ip_text(a) == decimal(o[0] as nat) + seq!['.'] + decimal(o[1] as nat) + seq!['.']
            + decimal(o[2] as nat) + seq!['.'] + decimal(o[3] as nat) + seq!['/'] + decimal(
            a.cidr_mask as nat,
        ),
        forall|i: int|
            0 <= i < allowed_ip_text(a).len() ==> {
                let c = #[trigger] allowed_ip_text(a)[i];
                is_decimal_digit(c) || c == '.' || c == '/'
            },
        forall|k: int| 0 <= k < 4 ==> decimal_value(decimal(#[trigger] o[k] as nat)) == o[k],
{
    assert(o@[0] == o[0] && o@[1] == o[1] && o@[2] == o[2] && o@[3] == o[3]);
    lemma_decimal_denotes(o[0] as nat);
    lemma_decimal_denotes(o[1] as nat);
    lemma_decimal_denotes(o[2] as nat);
    lemma_decimal_denotes(o[3] as nat);
    lemma_decimal_denotes(a.cidr_mask as nat);
    let t = allowed_ip_text(a);
    let d0 = decimal(o[0] as nat);
    let d1 = decimal(o[1] as nat);
    let d2 = decimal(o[2] as nat);
    let d3 = decimal(o[3] as nat);
    let dm = decimal(a.cidr_mask as nat);
    assert forall|i: int| 0 <= i < t.len() implies {
        let c = #[trigger] t[i];
        is_decimal_digit(c) || c == '.' || c == '/'
    } by {
        let e1 = d0.len() as int;
        let e2 = e1 + 1 + d1.len();
        let e3 = e2 + 1 + d2.len();
        let e4 = e3 + 1 + d3.len();
        if i < e1 {
            assert(t[i] == d0[i]);
        } else if i == e1 {
        } else if i < e2 {
            assert(t[i] == d1[i - e1 - 1]);
        } else if i == e2 {
        } else if i < e3 {
            assert(t[i] == d2[i - e2 - 1]);
        } else if i == e3 {
        } else if i < e4 {
            assert(t[i] == d3[i - e3 - 1]);
        } else if i == e4 {
        } else {
            assert(t[i] == dm[i - e4 - 1]);
        }
    }
}

/// A refresh step changes only the property it reports, which it takes from
/// the report; every other property keeps its old value.
pub proof fn lemma_peer_step_changes_only_reported(v: PeerView, n: PeerView, p: PeerProperty)
    ensures
        ({
            let w = peer_assign(v, p, n);
            &&& w.public_key == if p == PeerProperty::PublicKey {
                n.public_key
            } else {
                v.public_key
            }
            &&& w.endpoint == if p == PeerProperty::Endpoint {
                n.endpoint
            } else {
                v.endpoint
            }
            &&& w.persistent_keepalive_interval == if p == PeerProperty::PersistentKeepaliveInterval {
                n.persistent_keepalive_interval
            } else {
                v.persistent_keepalive_interval
            }
            &&& w.last_handshake_time == if p == PeerProperty::LastHandshakeTime {
                n.last_handshake_time
            } else {
                v.last_handshake_time
            }
            &&& w.rx_bytes == if p == PeerProperty::RxBytes {
                n.rx_bytes
            } else {
                v.rx_bytes
            }
            &&& w.tx_bytes == if p == PeerProperty::TxBytes {
                n.tx_bytes
            } else {
                v.tx_bytes
            }
            &&& w.allowed_ips == if p == PeerProperty::AllowedIps {
                n.allowed_ips
            } else {
                v.allowed_ips
            }
            &&& w.protocol_version == if p == PeerProperty::ProtocolVersion {
                n.protocol_version
            } else {
                v.protocol_version
            }
        }),
{
}

/// A peer's public key text is 44 base64 characters and determines the key.
pub proof fn lemma_peer_key_text(a: [u8; 32], b: [u8; 32])
    ensures
        base64_standard(a@).len() == 44,
        base64_standard(a@) == base64_standard(b@) ==> a == b,
{
    lemma_base64_len(a@);
    if base64_standard(a@) == base64_standard(b@) {
        lemma_base64_injective(a@, b@);
        assert(a =~= b);
    }
}

/// A peer just published from a report already shows it: refreshing it
/// against the same report reports nothing, so no property change is
/// signalled.
pub proof fn lemma_new_peer_is_synced(n: PeerView)
    ensures
        peer_first_change(n, n) is None,
{
}

/// A peer that has reported nothing against a report keeps reporting nothing
/// against it: a repeated refresh signals no change.
pub proof fn lemma_synced_peer_stays_quiet(v: PeerView, n: PeerView, steps: nat)
    requires
        peer_first_change(v, n) is None,
    ensures
        peer_after_updates(v, n, steps) == v,
    decreases steps,
{
    if steps > 0 {
        lemma_synced_peer_stays_quiet(v, n, (steps - 1) as nat);
    }
}

/// An update step reports a property only when its value differs from the
/// new report, and afterwards the peer shows the new value of that property.
pub proof fn lemma_peer_update_reports_changes(v: PeerView, n: PeerView)
    ensures
        match peer_first_change(v, n) {
            None => true,
            Some(p) => peer_differs(v, p, n) && !peer_differs(peer_assign(v, p, n), p, n),
        },
{
}

/// An update step reports nothing exactly when the peer already shows the
/// new report.
pub proof fn lemma_peer_idle_iff_synced(v: PeerView, n: PeerView)
    ensures
        peer_first_change(v, n) is None <==> v == n,
{
}

/// Each update step is followed by one that reports a later property or
/// nothing.
pub proof fn lemma_peer_update_advances(v: PeerView, n: PeerView)
    requires
        peer_first_change(v, n) is Some,
    ensures
        ({
            let p = peer_first_change(v, n)->0;
            match peer_first_change(peer_assign(v, p, n), n) {
                None => true,
                Some(q) => peer_rank(p) < peer_rank(q),
            }
        }),
{
}

/// Eight update steps against one report always leave the peer showing it
/// exactly: a refresh reports each property at most once and then stops.
pub proof fn lemma_peer_refresh_converges(v: PeerView, n: PeerView)
    ensures
        peer_after_updates(v, n, 8) == n,
{
    reveal_with_fuel(peer_after_updates, 9);
}

} // verus!
