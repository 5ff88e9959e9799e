//! The published state of one WireGuard interface.
//!
//! A `Device` holds what the bus shows of an interface: its index and name
//! (constant), its public key, listen port and firewall mark, and the object
//! paths of its peers. The private key has no place here and is never shown.

use vstd::prelude::*;
use crate::text::{base64_of_key, base64_standard, lemma_base64_injective, lemma_base64_len};
use crate::strings::{same_key, same_texts, texts};

verus! {

/// What the kernel reports of a WireGuard interface, apart from its private
/// key and its peers.
pub struct DeviceInfo {
    pub ifindex: u32,
    pub ifname: String,
    pub public_key: Option<[u8; 32]>,
    pub listen_port: u16,
    pub fwmark: u32,
}

/// The state of one WireGuard interface as published on the bus.
pub struct Device {
    info: DeviceInfo,
    peer_object_paths: Vec<String>,
}

/// The abstract value of a `Device`.
pub struct DeviceView {
    pub ifindex: u32,
    pub ifname: Seq<char>,
    pub public_key: Option<[u8; 32]>,
    pub listen_port: u16,
    pub fwmark: u32,
    pub peers: Seq<Seq<char>>,
}

/// A property of a device that can change after it is published.
#[derive(Clone, Copy, Debug, PartialEq, Eq, Structural)]
pub enum DeviceProperty {
    PublicKey,
    ListenPort,
    FwMark,
    Peers,
}

impl View for Device {
    type V = DeviceView;

    closed spec fn view(&self) -> DeviceView {
        DeviceView {
            ifindex: self.info.ifindex,
            ifname: self.info.ifname@,
            public_key: self.info.public_key,
            listen_port: self.info.listen_port,
            fwmark: self.info.fwmark,
            peers: texts(self.peer_object_paths@),
        }
    }
}

/// The text of a public key: its base64, or empty when there is none.
pub open spec fn key_text(key: Option<[u8; 32]>) -> Seq<char> {
    match key {
        Some(k) => base64_standard(k@),
        None => seq![],
    }
}

/// The value of a device published from the report `info` with the peer
/// paths `peers`.
pub open spec fn device_view_of(info: DeviceInfo, peers: Seq<Seq<char>>) -> DeviceView {
    DeviceView {
        ifindex: info.ifindex,
        ifname: info.ifname@,
        public_key: info.public_key,
        listen_port: info.listen_port,
        fwmark: info.fwmark,
        peers: peers,
    }
}

/// The property `p` of `v` differs from the new report.
pub open spec fn device_differs(
    v: DeviceView,
    p: DeviceProperty,
    info: DeviceInfo,
    peers: Seq<Seq<char>>,
) -> bool {
    match p {
        DeviceProperty::PublicKey => v.public_key != info.public_key,
        DeviceProperty::ListenPort => v.listen_port != info.listen_port,
        DeviceProperty::FwMark => v.fwmark != info.fwmark,
        DeviceProperty::Peers => v.peers != peers,
    }
}

/// The position of a property in the order in which an update checks them.
pub open spec fn device_rank(p: DeviceProperty) -> int {
    match p {
        DeviceProperty::PublicKey => 0,
        DeviceProperty::ListenPort => 1,
        DeviceProperty::FwMark => 2,
        DeviceProperty::Peers => 3,
    }
}

/// The first property, in update order, that differs from the new report.
pub open spec fn device_first_change(
    v: DeviceView,
    info: DeviceInfo,
    peers: Seq<Seq<char>>,
) -> Option<DeviceProperty> {
    if device_differs(v, DeviceProperty::PublicKey, info, peers) {
        Some(DeviceProperty::PublicKey)
    } else if device_differs(v, DeviceProperty::ListenPort, info, peers) {
        Some(DeviceProperty::ListenPort)
    } else if device_differs(v, DeviceProperty::FwMark, info, peers) {
        Some(DeviceProperty::FwMark)
    } else if device_differs(v, DeviceProperty::Peers, info, peers) {
        Some(DeviceProperty::Peers)
    } else {
        None
    }
}

/// `v` with the property `p` taken from the new report.
pub open spec fn device_assign(
    v: DeviceView,
    p: DeviceProperty,
    info: DeviceInfo,
    peers: Seq<Seq<char>>,
) -> DeviceView {
    match p {
        DeviceProperty::PublicKey => DeviceView { public_key: info.public_key, ..v },
        DeviceProperty::ListenPort => DeviceView { listen_port: info.listen_port, ..v },
        DeviceProperty::FwMark => DeviceView { fwmark: info.fwmark, ..v },
        DeviceProperty::Peers => DeviceView { peers: peers, ..v },
    }
}

/// `v` shows every changeable property of the new report.
pub open spec fn device_synced(v: DeviceView, info: DeviceInfo, peers: Seq<Seq<char>>) -> bool {
    &&& v.public_key == info.public_key
    &&& v.listen_port == info.listen_port
    &&& v.fwmark == info.fwmark
    &&& v.peers == peers
}

/// The device after at most `steps` update steps against the same report.
pub open spec fn device_after_updates(
    v: DeviceView,
    info: DeviceInfo,
    peers: Seq<Seq<char>>,
    steps: nat,
) -> DeviceView
    decreases steps,
{
    if steps == 0 {
        v
    } else {
        match device_first_change(v, info, peers) {
            None => v,
            Some(p) => device_after_updates(
                device_assign(v, p, info, peers),
                info,
                peers,
                (steps - 1) as nat,
            ),
        }
    }
}

impl Device {
    /// A device published from a kernel report, with no peer paths yet.
    pub fn from(device: DeviceInfo) -> (r: Device)
        ensures
            r@ == device_view_of(device, Seq::empty()),
            r@.ifindex == device.ifindex,
            r@.ifname == device.ifname@,
            r@.public_key == device.public_key,
            r@.listen_port == device.listen_port,
            r@.fwmark == device.fwmark,
            r@.peers == Seq::<Seq<char>>::empty(),
    {
        let r = Device { info: device, peer_object_paths: Vec::new() };
        proof {
            assert(texts(r.peer_object_paths@) =~= Seq::<Seq<char>>::empty());
        }
        r
    }

    /// A device published from a kernel report and the object paths of its peers.
    pub fn new(device: DeviceInfo, peer_object_paths: Vec<String>) -> (r: Device)
        ensures
            r@ == device_view_of(device, texts(peer_object_paths@)),
            r@.ifindex == device.ifindex,
            r@.ifname == device.ifname@,
            r@.public_key == device.public_key,
            r@.listen_port == device.listen_port,
            r@.fwmark == device.fwmark,
            r@.peers == texts(peer_object_paths@),
            r@.peers.len() == peer_object_paths@.len(),
            forall|i: int| 0 <= i < r@.peers.len() ==> #[trigger] r@.peers[i] == peer_object_paths@[i]@,
    {
        Device { info: device, peer_object_paths }
    }

    /// One step of a refresh against a new report: takes over the first
    /// property, in the order public key, listen port, firewall mark, peers,
    /// whose value differs, and returns it so that its change can be
    /// signalled; returns `None`, changing nothing, when the device already
    /// shows the report. The index and name never change.
    pub fn update(&mut self, device: &DeviceInfo, peer_object_paths: &Vec<String>) -> (changed:
        Option<DeviceProperty>)
        ensures
            changed == device_first_change(old(self)@, *device, texts(peer_object_paths@)),
            final(self)@ == match changed {
                None => old(self)@,
                Some(p) => device_assign(old(self)@, p, *device, texts(peer_object_paths@)),
            },
            final(self)@.ifindex == old(self)@.ifindex,
            final(self)@.ifname == old(self)@.ifname,
            final(self)@.public_key == if changed == Some(DeviceProperty::PublicKey) {
                device.public_key
            } else {
                old(self)@.public_key
            },
            final(self)@.listen_port == if changed == Some(DeviceProperty::ListenPort) {
                device.listen_port
            } else {
                old(self)@.listen_port
            },
            final(self)@.fwmark == if changed == Some(DeviceProperty::FwMark) {
                device.fwmark
            } else {
                old(self)@.fwmark
            },
            final(self)@.peers == if changed == Some(DeviceProperty::Peers) {
                texts(peer_object_paths@)
            } else {
                old(self)@.peers
            },
    {
        let same_public_key = match (&self.info.public_key, &device.public_key) {
            (Some(a), Some(b)) => same_key(a, b),
            (None, None) => true,
            _ => false,
        };
        if !same_public_key {
            self.info.public_key = device.public_key;
            return Some(DeviceProperty::PublicKey);
        }
        if self.info.listen_port != device.listen_port {
            self.info.listen_port = device.listen_port;
            return Some(DeviceProperty::ListenPort);
        }
        if self.info.fwmark != device.fwmark {
            self.info.fwmark = device.fwmark;
            return Some(DeviceProperty::FwMark);
        }
        if !same_texts(&self.peer_object_paths, peer_object_paths) {
            self.peer_object_paths = peer_object_paths.clone();
            proof {
                assert(texts(self.peer_object_paths@) =~= texts(peer_object_paths@));
            }
            return Some(DeviceProperty::Peers);
        }
        None
    }

    /// The interface index.
    pub fn if_index(&self) -> (r: u32)
        ensures
            r == self@.ifindex,
    {
        self.info.ifindex
    }

    /// The interface name.
    pub fn if_name(&self) -> (r: &str)
        ensures
            r@ == self@.ifname,
    {
        self.info.ifname.as_str()
    }

    /// The public key in base64, or the empty string when there is none.
    pub fn public_key(&self) -> (r: String)
        ensures
            r@ == key_text(self@.public_key),
    {
        match &self.info.public_key {
            Some(k) => base64_of_key(k),
            None => String::new(),
        }
    }

    /// The UDP port the interface listens on.
    pub fn listen_port(&self) -> (r: u16)
        ensures
            r == self@.listen_port,
    {
        self.info.listen_port
    }

    /// The firewall mark.
    pub fn fw_mark(&self) -> (r: u32)
        ensures
            r == self@.fwmark,
    {
        self.info.fwmark
    }

    /// The object paths of the interface's peers.
    pub fn peers(&self) -> (r: &Vec<String>)
        ensures
            texts(r@) == self@.peers,
    {
        &self.peer_object_paths
    }
}

/// The text of a public key is empty when there is none, and 44 base64
/// characters when there is one.
pub proof fn lemma_key_text_len(key: Option<[u8; 32]>)
    ensures
        key_text(key).len() == if key is Some {
            44int
        } else {
            0int
        },
{
    if let Some(k) = key {
        lemma_base64_len(k@);
    }
}

/// The text of a public key determines the key: equal texts come from equal
/// keys, and the empty text only from no key.
pub proof fn lemma_key_text_determines_key(a: Option<[u8; 32]>, b: Option<[u8; 32]>)
    requires
        key_text(a) == key_text(b),
    ensures
        a == b,
{
    lemma_key_text_len(a);
    lemma_key_text_len(b);
    if let (Some(x), Some(y)) = (a, b) {
        lemma_base64_injective(x@, y@);
        assert(x =~= y);
    }
}

/// A device published from a report shows that report's index, name, key,
/// port and mark, whatever its peer paths, and exactly those peer paths.
pub proof fn lemma_device_view_of_fields(info: DeviceInfo, peers: Seq<Seq<char>>)
    ensures
        device_view_of(info, peers).ifindex == info.ifindex,
        device_view_of(info, peers).ifname == info.ifname@,
        device_view_of(info, peers).public_key == info.public_key,
        device_view_of(info, peers).listen_port == info.listen_port,
        device_view_of(info, peers).fwmark == info.fwmark,
        device_view_of(info, peers).peers == peers,
{
}

/// A refresh step changes only the property it reports, which it takes from
/// the report; the index, the name and every other property keep their value.
pub proof fn lemma_device_step_changes_only_reported(
    v: DeviceView,
    p: DeviceProperty,
    info: DeviceInfo,
    peers: Seq<Seq<char>>,
)
    ensures
        ({
            let w = device_assign(v, p, info, peers);
            &&& w.ifindex == v.ifindex
            &&& w.ifname == v.ifname
            &&& w.public_key == if p == DeviceProperty::PublicKey {
                info.public_key
            } else {
                v.public_key
            }
            &&& w.listen_port == if p == DeviceProperty::ListenPort {
                info.listen_port
            } else {
                v.listen_port
            }
            &&& w.fwmark == if p == DeviceProperty::FwMark {
                info.fwmark
            } else {
                v.fwmark
            }
            &&& w.peers == if p == DeviceProperty::Peers {
                peers
            } else {
                v.peers
            }
        }),
{
}

/// A device just published from a report already shows it: refreshing it
/// against the same report and peer paths reports nothing, so no property
/// change is signalled.
pub proof fn lemma_new_device_is_synced(info: DeviceInfo, peers: Seq<Seq<char>>)
    ensures
        device_synced(device_view_of(info, peers), info, peers),
        device_first_change(device_view_of(info, peers), info, peers) is None,
{
}

/// A device that has reported nothing against a report keeps reporting
/// nothing against it: a repeated refresh signals no change.
pub proof fn lemma_synced_device_stays_quiet(
    v: DeviceView,
    info: DeviceInfo,
    peers: Seq<Seq<char>>,
    steps: nat,
)
    requires
        device_first_change(v, info, peers) is None,
    ensures
        device_after_updates(v, info, peers, steps) == v,
    decreases steps,
{
    if steps > 0 {
        lemma_synced_device_stays_quiet(v, info, peers, (steps - 1) as nat);
    }
}

/// An update step reports a property only when its value differs from the
/// new report, and afterwards the device shows the new value of that
/// property; the index and name are never touched.
pub proof fn lemma_device_update_reports_changes(
    v: DeviceView,
    info: DeviceInfo,
    peers: Seq<Seq<char>>,
)
    ensures
        match device_first_change(v, info, peers) {
            None => true,
            Some(p) => {
                let w = device_assign(v, p, info, peers);
                &&& device_differs(v, p, info, peers)
                &&& !device_differs(w, p, info, peers)
                &&& w.ifindex == v.ifindex
                &&& w.ifname == v.ifname
            },
        },
{
}

/// An update step reports nothing exactly when the device already shows the
/// new report.
pub proof fn lemma_device_idle_iff_synced(v: DeviceView, info: DeviceInfo, peers: Seq<Seq<char>>)
    ensures
        device_first_change(v, info, peers) is None <==> device_synced(v, info, peers),
{
}

/// Each update step is followed by one that reports a later property or
/// nothing.
pub proof fn lemma_device_update_advances(v: DeviceView, info: DeviceInfo, peers: Seq<Seq<char>>)
    requires
        device_first_change(v, info, peers) is Some,
    ensures
        ({
            let p = device_first_change(v, info, peers)->0;
            match device_first_change(device_assign(v, p, info, peers), info, peers) {
                None => true,
                Some(q) => device_rank(p) < device_rank(q),
            }
        }),
{
}

/// Four update steps against one report always leave the device showing it,
/// with its index and name unchanged: a refresh emits at most one change per
/// property and then stops.
pub proof fn lemma_device_refresh_converges(v: DeviceView, info: DeviceInfo, peers: Seq<Seq<char>>)
    ensures
        device_synced(device_after_updates(v, info, peers, 4), info, peers),
        device_after_updates(v, info, peers, 4).ifindex == v.ifindex,
        device_after_updates(v, info, peers, 4).ifname == v.ifname,
        device_first_change(device_after_updates(v, info, peers, 4), info, peers) is None,
{
    reveal_with_fuel(device_after_updates, 5);
}

} // verus!
