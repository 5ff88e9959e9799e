//! Reconciliation of the published object tree with the kernel's WireGuard
//! state.
//!
//! Every interface is published at `<root>/Devices/<ifname>` and every peer at
//! `<root>/Devices/<ifname>/Peers/<hex of its public key>`. A cycle starts
//! with nothing desired, places every object the kernel reports (asking to
//! serve it when it is not served yet, else to refresh it), and ends by
//! removing every served object that is no longer desired, longest path
//! first, so that a device's peers go before the device.

use vstd::prelude::*;
use vstd::string::*;
use crate::peer::PeerInfo;
use crate::strings::texts;
use crate::text::{hex_lower, hex_of_key, lemma_hex_lower_injective, lemma_hex_lower_len};
use vstd::utf8::encode_utf8;

verus! {

/// The well-known bus name of the service.
pub const BUS_NAME: &'static str = "io.github.thokis.WireGuard1";

/// The object path under which all objects are published.
pub const OBJECT_PATH: &'static str = "/io/github/thokis/WireGuard1";

/// The text of `OBJECT_PATH`.
pub open spec fn object_root() -> Seq<char> {
    OBJECT_PATH@
}

/// The path segment before an interface name.
pub open spec fn devices_segment() -> Seq<char> {
    seq!['/', 'D', 'e', 'v', 'i', 'c', 'e', 's', '/']
}

/// The path segment before a peer's key.
pub open spec fn peers_segment() -> Seq<char> {
    seq!['/', 'P', 'e', 'e', 'r', 's', '/']
}

/// The object path of the interface named `ifname`.
pub open spec fn device_path_text(ifname: Seq<char>) -> Seq<char> {
    object_root() + devices_segment() + ifname
}

/// The object path of the peer with public key `key` on the interface named
/// `ifname`.
pub open spec fn peer_path_text(ifname: Seq<char>, key: Seq<u8>) -> Seq<char> {
    device_path_text(ifname) + peers_segment() + hex_lower(key)
}

/// The object path names a peer: it holds `/Peers/`.
pub open spec fn is_peer_path(p: Seq<char>) -> bool {
    exists|i: int| 0 <= i && i + 7 <= p.len() && #[trigger] p.subrange(i, i + 7) == peers_segment()
}

/// The object path of an interface.
pub fn device_object_path(ifname: &str) -> (r: String)
    ensures
        r@ == device_path_text(ifname@),
{
    let mut s = String::from_str(OBJECT_PATH);
    s.append("/Devices/");
    s.append(ifname);
    proof {
        reveal_strlit("/Devices/");
        assert(s@ =~= device_path_text(ifname@));
    }
    s
}

/// The object path of a peer of an interface.
pub fn peer_object_path(ifname: &str, public_key: &[u8; 32]) -> (r: String)
    ensures
        r@ == peer_path_text(ifname@, public_key@),
{
    let mut s = device_object_path(ifname);
    s.append("/Peers/");
    let key = hex_of_key(public_key);
    s.append(key.as_str());
    proof {
        reveal_strlit("/Peers/");
        assert(s@ =~= peer_path_text(ifname@, public_key@));
    }
    s
}

/// The object paths of the given peers of an interface, in order.
pub fn peer_object_paths(ifname: &str, peers: &Vec<PeerInfo>) -> (r: Vec<String>)
    ensures
        r@.len() == peers@.len(),
        forall|i: int|
            0 <= i < r@.len() ==> #[trigger] r@[i]@ == peer_path_text(
                ifname@,
                peers@[i].public_key@,
            ),
{
    let mut r: Vec<String> = Vec::new();
    let mut i: usize = 0;
    while i < peers.len()
        invariant
            i <= peers@.len(),
            r@.len() == i,
            forall|j: int|
                0 <= j < i ==> #[trigger] r@[j]@ == peer_path_text(ifname@, peers@[j].public_key@),
        decreases peers.len() - i,
    {
        r.push(peer_object_path(ifname, &peers[i].public_key));
        i += 1;
    }
    r
}

/// Whether an object path names a peer.
pub fn names_peer(path: &str) -> (r: bool)
    ensures
        r == is_peer_path(path@),
{
    let n = path.unicode_len();
    let seg = "/Peers/";
    proof {
        reveal_strlit("/Peers/");
        assert(seg@ =~= peers_segment());
    }
    if n < 7 {
        return false;
    }
    let mut i: usize = 0;
    while i <= n - 7
        invariant
            n == path@.len(),
            i <= n - 6,
            n >= 7,
            seg@ == peers_segment(),
            forall|k: int|
                0 <= k < i && k + 7 <= n ==> #[trigger] path@.subrange(k, k + 7) != peers_segment(),
        decreases n - i,
    {
        let mut j: usize = 0;
        let mut all = true;
        while j < 7
            invariant
                j <= 7,
                i + 7 <= n,
                n == path@.len(),
                seg@ == peers_segment(),
                all <==> (forall|m: int| 0 <= m < j ==> path@[i + m] == peers_segment()[m]),
            decreases 7 - j,
        {
            if path.get_char(i + j) != seg.get_char(j) {
                all = false;
            }
            j += 1;
        }
        if all {
            proof {
                assert(path@.subrange(i as int, i + 7) =~= peers_segment());
            }
            return true;
        }
        proof {
            let m = choose|m: int| 0 <= m < 7 && path@[i + m] != peers_segment()[m];
            assert(path@.subrange(i as int, i + 7)[m] != peers_segment()[m]);
        }
        i += 1;
    }
    false
}

/// What a cycle asks of the bus for an object the kernel reports.
#[derive(Clone, Copy, Debug, PartialEq, Eq, Structural)]
pub enum ObjectAction {
    /// The object is not served: serve it, and report success with `mark_served`.
    Serve,
    /// The object is served: refresh its properties.
    Update,
}

/// An object the kernel reports, with its path and what to do with it.
pub struct Placement {
    pub object_path: String,
    pub action: ObjectAction,
}

/// The kind of a served object.
#[derive(Clone, Copy, Debug, PartialEq, Eq, Structural)]
pub enum ObjectKind {
    Device,
    Peer,
}

/// A served object that the kernel no longer reports.
pub struct StaleObject {
    pub object_path: String,
    pub kind: ObjectKind,
}

/// The paths of a sequence of stale objects.
pub open spec fn stale_paths(s: Seq<StaleObject>) -> Seq<Seq<char>> {
    s.map_values(|o: StaleObject| o.object_path@)
}

/// The length of a path in UTF-8 bytes, as `str::len` reports it.
pub open spec fn byte_len(p: Seq<char>) -> usize {
    encode_utf8(p).len() as usize
}

/// The paths come in order of non-increasing length.
pub open spec fn longest_first(s: Seq<Seq<char>>) -> bool {
    forall|i: int, j: int| 0 <= i < j < s.len() ==> byte_len(#[trigger] s[j]) <= byte_len(#[trigger] s[i])
}

/// The paths this cycle wants served, and the paths that are served.
pub struct ServiceView {
    pub desired: Set<Seq<char>>,
    pub served: Set<Seq<char>>,
}

impl ServiceView {
    /// A new cycle: nothing is desired yet.
    pub open spec fn begun(self) -> ServiceView {
        ServiceView { desired: Set::empty(), served: self.served }
    }

    /// The path is desired.
    pub open spec fn placed(self, path: Seq<char>) -> ServiceView {
        ServiceView { desired: self.desired.insert(path), served: self.served }
    }

    /// The path is served.
    pub open spec fn with_served(self, path: Seq<char>) -> ServiceView {
        ServiceView { desired: self.desired, served: self.served.insert(path) }
    }

    /// The path is no longer served.
    pub open spec fn with_removed(self, path: Seq<char>) -> ServiceView {
        ServiceView { desired: self.desired, served: self.served.remove(path) }
    }

    /// The served paths that are not desired.
    pub open spec fn stale(self) -> Set<Seq<char>> {
        self.served.difference(self.desired)
    }
}

/// The bookkeeping of which objects are wanted and which are served.
pub struct Service {
    desired_object_paths: Vec<String>,
    served_object_paths: Vec<String>,
}

impl View for Service {
    type V = ServiceView;

    closed spec fn view(&self) -> ServiceView {
        ServiceView {
            desired: texts(self.desired_object_paths@).to_set(),
            served: texts(self.served_object_paths@).to_set(),
        }
    }
}

/// Whether the list holds the text.
fn holds(v: &Vec<String>, s: &String) -> (r: Option<usize>)
    ensures
        match r {
            Some(i) => i < v@.len() && v@[i as int]@ == s@,
            None => !texts(v@).contains(s@),
        },
{
    let mut i: usize = 0;
    while i < v.len()
        invariant
            i <= v@.len(),
            forall|j: int| 0 <= j < i ==> v@[j]@ != s@,
        decreases v.len() - i,
    {
        if v[i] == *s {
            return Some(i);
        }
        i += 1;
    }
    proof {
        assert forall|j: int| 0 <= j < texts(v@).len() implies texts(v@)[j] != s@ by {
            assert(texts(v@)[j] == v@[j]@);
        }
    }
    None
}

/// Adds the text to a list that lacks it.
proof fn lemma_push_text(v: Seq<String>, s: String)
    requires
        texts(v).no_duplicates(),
        !texts(v).contains(s@),
    ensures
        texts(v.push(s)).no_duplicates(),
        texts(v.push(s)).to_set() == texts(v).to_set().insert(s@),
{
    assert(texts(v.push(s)) =~= texts(v).push(s@));
    assert(texts(v).push(s@).to_set() =~= texts(v).to_set().insert(s@)) by {
        assert forall|x: Seq<char>| texts(v).push(s@).contains(x) <==> texts(v).to_set().insert(s@).contains(x) by {
            if texts(v).contains(x) {
                let k = choose|k: int| 0 <= k < texts(v).len() && texts(v)[k] == x;
                assert(texts(v).push(s@)[k] == x);
            }
            if texts(v).push(s@).contains(x) && x != s@ {
                let k = choose|k: int| 0 <= k < texts(v).push(s@).len() && texts(v).push(s@)[k] == x;
                assert(texts(v)[k] == x);
            }
            if x == s@ {
                assert(texts(v).push(s@)[texts(v).len() as int] == x);
            }
        }
    }
}

/// Takes the text at `i` out of a list without duplicates.
proof fn lemma_remove_text(v: Seq<String>, i: int)
    requires
        texts(v).no_duplicates(),
        0 <= i < v.len(),
    ensures
        texts(v.remove(i)).no_duplicates(),
        texts(v.remove(i)).to_set() == texts(v).to_set().remove(v[i]@),
{
    let t = texts(v);
    assert(t[i] == v[i]@);
    assert(texts(v.remove(i)) =~= t.remove(i));
    assert forall|x: Seq<char>| t.remove(i).contains(x) <==> t.to_set().remove(v[i]@).contains(x) by {
        if t.remove(i).contains(x) {
            let k = choose|k: int| 0 <= k < t.remove(i).len() && t.remove(i)[k] == x;
            if k < i {
                assert(t[k] == x);
                assert(k != i);
            } else {
                assert(t[k + 1] == x);
            }
        }
        if t.to_set().remove(v[i]@).contains(x) {
            let k = choose|k: int| 0 <= k < t.len() && t[k] == x;
            assert(k != i);
            if k < i {
                assert(t.remove(i)[k] == x);
            } else {
                assert(t.remove(i)[k - 1] == x);
            }
        }
    }
    assert(t.remove(i).to_set() =~= t.to_set().remove(v[i]@));
}

/// Inserting an element adds it to the set of elements, and keeps the
/// elements distinct when it is new.
proof fn lemma_seq_insert<A>(s: Seq<A>, j: int, x: A)
    requires
        0 <= j <= s.len(),
    ensures
        s.insert(j, x).to_set() == s.to_set().insert(x),
        s.no_duplicates() && !s.contains(x) ==> s.insert(j, x).no_duplicates(),
{
    let t = s.insert(j, x);
    assert forall|y: A| t.contains(y) <==> s.to_set().insert(x).contains(y) by {
        if t.contains(y) {
            let k = choose|k: int| 0 <= k < t.len() && t[k] == y;
            if k < j {
                assert(s[k] == y);
            } else if k > j {
                assert(s[k - 1] == y);
            }
        }
        if s.contains(y) {
            let k = choose|k: int| 0 <= k < s.len() && s[k] == y;
            if k < j {
                assert(t[k] == y);
            } else {
                assert(t[k + 1] == y);
            }
        }
        if y == x {
            assert(t[j] == y);
        }
    }
    assert(t.to_set() =~= s.to_set().insert(x));
    if s.no_duplicates() && !s.contains(x) {
        assert forall|a: int, b: int| 0 <= a < t.len() && 0 <= b < t.len() && a != b implies t[a]
            != t[b] by {
            if a != j && b != j {
                let a2 = if a < j { a } else { a - 1 };
                let b2 = if b < j { b } else { b - 1 };
                assert(t[a] == s[a2]);
                assert(t[b] == s[b2]);
            } else if a == j {
                let b2 = if b < j { b } else { b - 1 };
                assert(t[b] == s[b2]);
            } else {
                let a2 = if a < j { a } else { a - 1 };
                assert(t[a] == s[a2]);
            }
        }
    }
}

/// Inserts a stale object after every longer path and before every shorter
/// one, keeping the list longest first.
fn insert_longest_first(r: &mut Vec<StaleObject>, o: StaleObject) -> (j: usize)
    requires
        longest_first(stale_paths(old(r)@)),
    ensures
        j <= old(r)@.len(),
        final(r)@ == old(r)@.insert(j as int, o),
        longest_first(stale_paths(final(r)@)),
{
    let ghost paths = stale_paths(r@);
    let n = o.object_path.as_str().len();
    let mut j: usize = 0;
    while j < r.len() && r[j].object_path.as_str().len() >= n
        invariant
            j <= r@.len(),
            paths == stale_paths(r@),
            n == byte_len(o.object_path@),
            forall|k: int| 0 <= k < j ==> byte_len(#[trigger] paths[k]) >= n,
        decreases r.len() - j,
    {
        j += 1;
    }
    proof {
        if j < paths.len() {
            assert(paths[j as int] == r@[j as int].object_path@);
        }
    }
    r.insert(j, o);
    proof {
        let p2 = stale_paths(r@);
        assert(p2 =~= paths.insert(j as int, o.object_path@));
        assert forall|a: int, b: int| 0 <= a < b < p2.len() implies byte_len(#[trigger] p2[b])
            <= byte_len(#[trigger] p2[a]) by {
            if b < j {
                assert(p2[a] == paths[a] && p2[b] == paths[b]);
            } else if b == j {
                assert(p2[a] == paths[a]);
            } else if a == j {
                assert(p2[b] == paths[b - 1]);
                if j < paths.len() {
                    assert(byte_len(paths[j as int]) < n);
                    assert(byte_len(paths[b - 1]) <= byte_len(paths[j as int]));
                }
            } else if a < j {
                assert(p2[a] == paths[a] && p2[b] == paths[b - 1]);
                assert(byte_len(paths[b - 1]) <= byte_len(paths[a]));
            } else {
                assert(p2[a] == paths[a - 1] && p2[b] == paths[b - 1]);
            }
        }
    }
    j
}

impl Service {
    /// The bookkeeping of the list and the sets: no path is held twice.
    pub closed spec fn wf(&self) -> bool {
        &&& texts(self.desired_object_paths@).no_duplicates()
        &&& texts(self.served_object_paths@).no_duplicates()
    }

    /// Nothing desired, nothing served.
    pub fn new() -> (r: Service)
        ensures
            r.wf(),
            r@.desired == Set::<Seq<char>>::empty(),
            r@.served == Set::<Seq<char>>::empty(),
    {
        let r = Service { desired_object_paths: Vec::new(), served_object_paths: Vec::new() };
        proof {
            assert(texts(r.desired_object_paths@) =~= Seq::<Seq<char>>::empty());
            assert(texts(r.served_object_paths@) =~= Seq::<Seq<char>>::empty());
            assert(texts(r.desired_object_paths@).to_set() =~= Set::<Seq<char>>::empty());
            assert(texts(r.served_object_paths@).to_set() =~= Set::<Seq<char>>::empty());
        }
        r
    }

    /// Starts a cycle: forgets what the previous cycle desired.
    pub fn begin_cycle(&mut self)
        requires
            old(self).wf(),
        ensures
            final(self).wf(),
            final(self)@ == old(self)@.begun(),
    {
        self.desired_object_paths.clear();
        proof {
            assert(texts(self.desired_object_paths@) =~= Seq::<Seq<char>>::empty());
            assert(texts(self.desired_object_paths@).to_set() =~= Set::<Seq<char>>::empty());
        }
    }

    /// Marks the path desired, and says whether to serve or refresh it.
    fn place(&mut self, path: String) -> (p: Placement)
        requires
            old(self).wf(),
        ensures
            final(self).wf(),
            p.object_path@ == path@,
            final(self)@ == old(self)@.placed(path@),
            (p.action == ObjectAction::Serve) <==> !old(self)@.served.contains(path@),
    {
        if holds(&self.desired_object_paths, &path).is_none() {
            proof {
                lemma_push_text(self.desired_object_paths@, path);
            }
            self.desired_object_paths.push(path.clone());
        } else {
            proof {
                let i = choose|i: int| 0 <= i < self.desired_object_paths@.len() && self.desired_object_paths@[i]@ == path@;
                assert(texts(self.desired_object_paths@)[i] == path@);
                assert(texts(self.desired_object_paths@).to_set().insert(path@) =~= texts(self.desired_object_paths@).to_set());
            }
        }
        let served = holds(&self.served_object_paths, &path);
        proof {
            if let Some(i) = served {
                assert(texts(self.served_object_paths@)[i as int] == path@);
            }
        }
        let action = match served {
            Some(_) => ObjectAction::Update,
            None => ObjectAction::Serve,
        };
        Placement { object_path: path, action }
    }

    /// Places the interface named `ifname`.
    pub fn place_device(&mut self, ifname: &str) -> (p: Placement)
        requires
            old(self).wf(),
        ensures
            final(self).wf(),
            p.object_path@ == device_path_text(ifname@),
            final(self)@ == old(self)@.placed(p.object_path@),
            (p.action == ObjectAction::Serve) <==> !old(self)@.served.contains(p.object_path@),
    {
        self.place(device_object_path(ifname))
    }

    /// Places the peer with key `public_key` of the interface named `ifname`.
    pub fn place_peer(&mut self, ifname: &str, public_key: &[u8; 32]) -> (p: Placement)
        requires
            old(self).wf(),
        ensures
            final(self).wf(),
            p.object_path@ == peer_path_text(ifname@, public_key@),
            final(self)@ == old(self)@.placed(p.object_path@),
            (p.action == ObjectAction::Serve) <==> !old(self)@.served.contains(p.object_path@),
    {
        self.place(peer_object_path(ifname, public_key))
    }

    /// Records that the object at the path is now served.
    pub fn mark_served(&mut self, object_path: &String)
        requires
            old(self).wf(),
        ensures
            final(self).wf(),
            final(self)@ == old(self)@.with_served(object_path@),
    {
        match holds(&self.served_object_paths, object_path) {
            None => {
                let s = object_path.clone();
                proof {
                    lemma_push_text(self.served_object_paths@, s);
                }
                self.served_object_paths.push(s);
            },
            Some(i) => {
                proof {
                    assert(texts(self.served_object_paths@)[i as int] == object_path@);
                    assert(texts(self.served_object_paths@).to_set().insert(object_path@) =~= texts(self.served_object_paths@).to_set());
                }
            },
        }
    }

    /// Records that the object at the path is no longer served.
    pub fn mark_removed(&mut self, object_path: &String)
        requires
            old(self).wf(),
        ensures
            final(self).wf(),
            final(self)@ == old(self)@.with_removed(object_path@),
    {
        match holds(&self.served_object_paths, object_path) {
            None => {
                proof {
                    assert(texts(self.served_object_paths@).to_set().remove(object_path@) =~= texts(self.served_object_paths@).to_set());
                }
            },
            Some(i) => {
                proof {
                    lemma_remove_text(self.served_object_paths@, i as int);
                }
                self.served_object_paths.remove(i);
            },
        }
    }

    /// The served objects that the cycle did not place, longest path first,
    /// so that every peer comes before its interface; an object whose path
    /// holds `/Peers/` is a peer.
    pub fn stale_objects(&self) -> (r: Vec<StaleObject>)
        requires
            self.wf(),
        ensures
            stale_paths(r@).no_duplicates(),
            stale_paths(r@).to_set() == self@.stale(),
            longest_first(stale_paths(r@)),
            forall|k: int|
                0 <= k < r@.len() ==> ((#[trigger] r@[k]).kind == ObjectKind::Peer
                    <==> is_peer_path(r@[k].object_path@)),
    {
        let served = &self.served_object_paths;
        let ghost t = texts(served@);
        let ghost d = self@.desired;
        let mut r: Vec<StaleObject> = Vec::new();
        let mut i: usize = 0;
        proof {
            assert(stale_paths(r@) =~= Seq::<Seq<char>>::empty());
            assert(t.take(0).to_set().difference(d) =~= Set::<Seq<char>>::empty());
            assert(stale_paths(r@).to_set() =~= Set::<Seq<char>>::empty());
        }
        while i < served.len()
            invariant
                i <= served@.len(),
                t == texts(served@),
                t.no_duplicates(),
                d == self@.desired,
                d == texts(self.desired_object_paths@).to_set(),
                stale_paths(r@).no_duplicates(),
                stale_paths(r@).to_set() == t.take(i as int).to_set().difference(d),
                longest_first(stale_paths(r@)),
                forall|k: int|
                    0 <= k < r@.len() ==> ((#[trigger] r@[k]).kind == ObjectKind::Peer
                        <==> is_peer_path(r@[k].object_path@)),
            decreases served.len() - i,
        {
            let ghost x = t[i as int];
            let ghost old_r = r@;
            proof {
                assert(t.take(i + 1) =~= t.take(i as int).push(x));
                assert(t.take(i as int).push(x) =~= t.take(i as int).insert(i as int, x));
                lemma_seq_insert(t.take(i as int), i as int, x);
                assert(served@[i as int]@ == x);
            }
            let found = holds(&self.desired_object_paths, &served[i]);
            proof {
                if let Some(k) = found {
                    assert(texts(self.desired_object_paths@)[k as int] == x);
                }
            }
            if found.is_none() {
                let path = served[i].clone();
                let kind = if names_peer(path.as_str()) {
                    ObjectKind::Peer
                } else {
                    ObjectKind::Device
                };
                let o = StaleObject { object_path: path, kind };
                let j = insert_longest_first(&mut r, o);
                proof {
                    assert(!t.take(i as int).contains(x)) by {
                        if t.take(i as int).contains(x) {
                            let k = choose|k: int| 0 <= k < i && t.take(i as int)[k] == x;
                            assert(t[k] == t[i as int]);
                        }
                    }
                    assert(!stale_paths(old_r).contains(x)) by {
                        if stale_paths(old_r).contains(x) {
                            let k = choose|k: int| 0 <= k < stale_paths(old_r).len() && stale_paths(old_r)[k] == x;
                            assert(stale_paths(old_r).to_set().contains(x));
                        }
                    }
                    assert(stale_paths(r@) =~= stale_paths(old_r).insert(j as int, x));
                    lemma_seq_insert(stale_paths(old_r), j as int, x);
                    assert(!d.contains(x));
                    assert(t.take(i + 1).to_set().difference(d) =~= t.take(i as int).to_set().difference(d).insert(x));
                    assert forall|k: int| 0 <= k < r@.len() implies ((#[trigger] r@[k]).kind == ObjectKind::Peer
                        <==> is_peer_path(r@[k].object_path@)) by {
                        if k < j {
                            assert(r@[k] == old_r[k]);
                        } else if k > j {
                            assert(r@[k] == old_r[k - 1]);
                        }
                    }
                }
            } else {
                proof {
                    assert(d.contains(x));
                    assert(t.take(i + 1).to_set().difference(d) =~= t.take(i as int).to_set().difference(d));
                }
            }
            i += 1;
        }
        proof {
            assert(t.take(served@.len() as int) =~= t);
        }
        r
    }

    /// Whether the object at the path is served.
    pub fn is_served(&self, object_path: &String) -> (r: bool)
        ensures
            r == self@.served.contains(object_path@),
    {
        match holds(&self.served_object_paths, object_path) {
            None => false,
            Some(i) => {
                proof {
                    assert(texts(self.served_object_paths@)[i as int] == object_path@);
                }
                true
            },
        }
    }
}

/// The view after placing each path in turn.
pub open spec fn place_all(v: ServiceView, paths: Seq<Seq<char>>) -> ServiceView
    decreases paths.len(),
{
    if paths.len() == 0 {
        v
    } else {
        place_all(v, paths.drop_last()).placed(paths.last())
    }
}

/// The view after marking each path served in turn.
pub open spec fn serve_all(v: ServiceView, paths: Seq<Seq<char>>) -> ServiceView
    decreases paths.len(),
{
    if paths.len() == 0 {
        v
    } else {
        serve_all(v, paths.drop_last()).with_served(paths.last())
    }
}

/// The view after marking each path removed in turn.
pub open spec fn remove_all(v: ServiceView, paths: Seq<Seq<char>>) -> ServiceView
    decreases paths.len(),
{
    if paths.len() == 0 {
        v
    } else {
        remove_all(v, paths.drop_last()).with_removed(paths.last())
    }
}

/// The elements of a sequence are those of its front and its last element.
proof fn lemma_to_set_drop_last<A>(s: Seq<A>)
    requires
        s.len() > 0,
    ensures
        s.to_set() == s.drop_last().to_set().insert(s.last()),
{
    assert(s =~= s.drop_last().insert(s.len() - 1, s.last()));
    lemma_seq_insert(s.drop_last(), s.len() - 1, s.last());
}

proof fn lemma_place_all(v: ServiceView, paths: Seq<Seq<char>>)
    ensures
        place_all(v, paths).desired == v.desired.union(paths.to_set()),
        place_all(v, paths).served == v.served,
    decreases paths.len(),
{
    if paths.len() == 0 {
        assert(v.desired.union(paths.to_set()) =~= v.desired);
    } else {
        lemma_place_all(v, paths.drop_last());
        lemma_to_set_drop_last(paths);
        assert(v.desired.union(paths.drop_last().to_set()).insert(paths.last()) =~= v.desired.union(
            paths.to_set(),
        ));
    }
}

proof fn lemma_serve_all(v: ServiceView, paths: Seq<Seq<char>>)
    ensures
        serve_all(v, paths).served == v.served.union(paths.to_set()),
        serve_all(v, paths).desired == v.desired,
    decreases paths.len(),
{
    if paths.len() == 0 {
        assert(v.served.union(paths.to_set()) =~= v.served);
    } else {
        lemma_serve_all(v, paths.drop_last());
        lemma_to_set_drop_last(paths);
        assert(v.served.union(paths.drop_last().to_set()).insert(paths.last()) =~= v.served.union(
            paths.to_set(),
        ));
    }
}

proof fn lemma_remove_all(v: ServiceView, paths: Seq<Seq<char>>)
    ensures
        remove_all(v, paths).served == v.served.difference(paths.to_set()),
        remove_all(v, paths).desired == v.desired,
    decreases paths.len(),
{
    if paths.len() == 0 {
        assert(v.served.difference(paths.to_set()) =~= v.served);
    } else {
        lemma_remove_all(v, paths.drop_last());
        lemma_to_set_drop_last(paths);
        assert(v.served.difference(paths.drop_last().to_set()).remove(paths.last())
            =~= v.served.difference(paths.to_set()));
    }
}

/// A reconcile cycle in which every bus call succeeds leaves the bus in sync
/// with the kernel: after starting a cycle, placing every object the kernel
/// reports, marking served each one that was to be served, and removing
/// every stale object, exactly the reported objects are served, whatever
/// was served before. (Marking an object that is already served changes
/// nothing, so marking them all is the same as marking those placed with
/// `Serve`.)
pub proof fn lemma_cycle_converges(
    v: ServiceView,
    reported: Seq<Seq<char>>,
    removed: Seq<Seq<char>>,
)
    requires
        removed.to_set() == serve_all(place_all(v.begun(), reported), reported).stale(),
    ensures
        ({
            let end = remove_all(serve_all(place_all(v.begun(), reported), reported), removed);
            &&& end.desired == reported.to_set()
            &&& end.served == reported.to_set()
        }),
{
    let placed = place_all(v.begun(), reported);
    lemma_place_all(v.begun(), reported);
    let up = serve_all(placed, reported);
    lemma_serve_all(placed, reported);
    lemma_remove_all(up, removed);
    assert(Set::<Seq<char>>::empty().union(reported.to_set()) =~= reported.to_set());
    let end = remove_all(up, removed);
    assert(end.served =~= reported.to_set());
}

/// Removing every stale object leaves served only objects that are desired,
/// namely those that were both served and desired, and nothing stale: a
/// second pruning pass removes nothing.
pub proof fn lemma_prune_leaves_desired(v: ServiceView, removed: Seq<Seq<char>>)
    requires
        removed.to_set() == v.stale(),
    ensures
        remove_all(v, removed).served == v.served.intersect(v.desired),
        remove_all(v, removed).served.subset_of(v.desired),
        remove_all(v, removed).desired == v.desired,
        remove_all(v, removed).stale() == Set::<Seq<char>>::empty(),
{
    lemma_remove_all(v, removed);
    assert(v.served.difference(v.stale()) =~= v.served.intersect(v.desired));
    assert(remove_all(v, removed).stale() =~= Set::<Seq<char>>::empty());
}

/// A cycle over unchanged kernel state after a successful one is quiet: when
/// exactly the reported objects are served, every object is placed for a
/// refresh (none is served anew), nothing served changes, and nothing is
/// stale, so nothing is removed.
pub proof fn lemma_second_cycle_is_quiet(v: ServiceView, reported: Seq<Seq<char>>)
    requires
        v.served == reported.to_set(),
    ensures
        forall|k: int|
            0 <= k < reported.len() ==> #[trigger] place_all(v.begun(), reported.take(k)).served.contains(
                reported[k],
            ),
        place_all(v.begun(), reported).served == v.served,
        place_all(v.begun(), reported).desired == reported.to_set(),
        place_all(v.begun(), reported).stale() == Set::<Seq<char>>::empty(),
{
    assert forall|k: int| 0 <= k < reported.len() implies #[trigger] place_all(
        v.begun(),
        reported.take(k),
    ).served.contains(reported[k]) by {
        lemma_place_all(v.begun(), reported.take(k));
        assert(reported.to_set().contains(reported[k]));
    }
    lemma_place_all(v.begun(), reported);
    assert(Set::<Seq<char>>::empty().union(reported.to_set()) =~= reported.to_set());
    assert(place_all(v.begun(), reported).stale() =~= Set::<Seq<char>>::empty());
}

/// Two successful cycles over the same kernel state: the first leaves exactly
/// the reported objects served, and the second then serves nothing anew,
/// removes nothing and leaves the bookkeeping as it was.
pub proof fn lemma_repeated_cycle_is_quiet(
    v: ServiceView,
    reported: Seq<Seq<char>>,
    removed: Seq<Seq<char>>,
)
    requires
        removed.to_set() == serve_all(place_all(v.begun(), reported), reported).stale(),
    ensures
        ({
            let first = remove_all(serve_all(place_all(v.begun(), reported), reported), removed);
            let second = place_all(first.begun(), reported);
            &&& forall|k: int|
                0 <= k < reported.len() ==> #[trigger] place_all(
                    first.begun(),
                    reported.take(k),
                ).served.contains(reported[k])
            &&& second == first
            &&& second.stale() == Set::<Seq<char>>::empty()
        }),
{
    lemma_cycle_converges(v, reported, removed);
    let first = remove_all(serve_all(place_all(v.begun(), reported), reported), removed);
    lemma_second_cycle_is_quiet(first, reported);
}

/// An object that the kernel no longer reports is gone after a successful
/// cycle: if it was served, the cycle removes it.
pub proof fn lemma_dropped_object_removed(
    v: ServiceView,
    reported: Seq<Seq<char>>,
    removed: Seq<Seq<char>>,
    path: Seq<char>,
)
    requires
        removed.to_set() == serve_all(place_all(v.begun(), reported), reported).stale(),
        !reported.contains(path),
    ensures
        v.served.contains(path) ==> removed.contains(path),
        !remove_all(serve_all(place_all(v.begun(), reported), reported), removed).served.contains(
            path,
        ),
{
    lemma_cycle_converges(v, reported, removed);
    let placed = place_all(v.begun(), reported);
    lemma_place_all(v.begun(), reported);
    lemma_serve_all(placed, reported);
    if v.served.contains(path) {
        assert(removed.to_set().contains(path));
    }
}

/// The served objects that a cycle removes are never ones it placed.
pub proof fn lemma_stale_not_placed(v: ServiceView, path: Seq<char>)
    requires
        v.stale().contains(path),
    ensures
        !v.desired.contains(path),
        v.served.contains(path),
{
}

/// `a` is a proper prefix of `b`.
pub open spec fn is_proper_prefix(a: Seq<char>, b: Seq<char>) -> bool {
    a.len() < b.len() && b.subrange(0, a.len() as int) == a
}

proof fn lemma_encode_utf8_append(a: Seq<char>, b: Seq<char>)
    ensures
        encode_utf8(a + b) == encode_utf8(a) + encode_utf8(b),
    decreases a.len(),
{
    if a.len() > 0 {
        assert((a + b).drop_first() =~= a.drop_first() + b);
        assert((a + b)[0] == a[0]);
        lemma_encode_utf8_append(a.drop_first(), b);
        assert(encode_utf8(a + b) =~= encode_utf8(a) + encode_utf8(b));
    } else {
        assert(a + b =~= b);
        assert(encode_utf8(a) =~= Seq::<u8>::empty());
        assert(encode_utf8(a) + encode_utf8(b) =~= encode_utf8(b));
    }
}

proof fn lemma_encode_utf8_len(a: Seq<char>)
    ensures
        encode_utf8(a).len() >= a.len(),
    decreases a.len(),
{
    if a.len() > 0 {
        lemma_encode_utf8_len(a.drop_first());
    }
}

/// In a removal order, no path comes before a path that extends it: every
/// peer is removed before its interface. (Byte lengths are taken as
/// `str::len` reports them, so they must fit in `usize`.)
pub proof fn lemma_longest_first_children_first(s: Seq<Seq<char>>, i: int, j: int)
    requires
        longest_first(s),
        0 <= i < j < s.len(),
        encode_utf8(s[j]).len() <= usize::MAX,
    ensures
        !is_proper_prefix(s[i], s[j]),
{
    if is_proper_prefix(s[i], s[j]) {
        let rest = s[j].subrange(s[i].len() as int, s[j].len() as int);
        assert(s[j] =~= s[i] + rest);
        lemma_encode_utf8_append(s[i], rest);
        lemma_encode_utf8_len(rest);
        assert(byte_len(s[j]) <= byte_len(s[i]));
    }
}

/// When an interface and one of its peers are both stale, the removal order
/// takes the peer first.
pub proof fn lemma_stale_peer_before_device(
    s: Seq<Seq<char>>,
    i: int,
    j: int,
    ifname: Seq<char>,
    key: Seq<u8>,
)
    requires
        longest_first(s),
        0 <= i < s.len(),
        0 <= j < s.len(),
        s[i] == device_path_text(ifname),
        s[j] == peer_path_text(ifname, key),
        encode_utf8(s[j]).len() <= usize::MAX,
    ensures
        j < i,
{
    lemma_peer_path_extends_device_path(ifname, key);
    if i < j {
        lemma_longest_first_children_first(s, i, j);
    }
    assert(i != j);
}

/// A peer's path extends its interface's path.
pub proof fn lemma_peer_path_extends_device_path(ifname: Seq<char>, key: Seq<u8>)
    ensures
        is_proper_prefix(device_path_text(ifname), peer_path_text(ifname, key)),
{
    let d = device_path_text(ifname);
    let p = peer_path_text(ifname, key);
    assert(p.subrange(0, d.len() as int) =~= d);
}

/// Every peer path is classified as a peer.
pub proof fn lemma_peer_path_is_peer(ifname: Seq<char>, key: Seq<u8>)
    ensures
        is_peer_path(peer_path_text(ifname, key)),
{
    let d = device_path_text(ifname);
    let p = peer_path_text(ifname, key);
    assert(p.subrange(d.len() as int, d.len() + 7 as int) =~= peers_segment());
}

/// Distinct interfaces have distinct paths, and distinct peers (by interface
/// and key) have distinct paths: the hex of a key names exactly one key.
pub proof fn lemma_object_paths_distinct(n1: Seq<char>, k1: Seq<u8>, n2: Seq<char>, k2: Seq<u8>)
    requires
        k1.len() == 32,
        k2.len() == 32,
    ensures
        device_path_text(n1) == device_path_text(n2) ==> n1 == n2,
        peer_path_text(n1, k1) == peer_path_text(n2, k2) ==> n1 == n2 && k1 == k2,
{
    let r = object_root() + devices_segment();
    if device_path_text(n1) == device_path_text(n2) {
        assert(n1 =~= device_path_text(n1).subrange(r.len() as int, device_path_text(n1).len() as int));
        assert(n2 =~= device_path_text(n2).subrange(r.len() as int, device_path_text(n2).len() as int));
    }
    if peer_path_text(n1, k1) == peer_path_text(n2, k2) {
        lemma_hex_lower_len(k1);
        lemma_hex_lower_len(k2);
        let p = peer_path_text(n1, k1);
        assert(p.len() == r.len() + n1.len() + 7 + 64);
        assert(peer_path_text(n2, k2).len() == r.len() + n2.len() + 7 + 64);
        assert(n1.len() == n2.len());
        assert(n1 =~= p.subrange(r.len() as int, (r.len() + n1.len()) as int));
        assert(n2 =~= peer_path_text(n2, k2).subrange(r.len() as int, (r.len() + n2.len()) as int));
        let e = p.len() as int;
        assert(hex_lower(k1) =~= p.subrange(e - 64, e));
        assert(hex_lower(k2) =~= peer_path_text(n2, k2).subrange(e - 64, e));
        lemma_hex_lower_injective(k1, k2);
    }
}

/// The path of an interface whose name holds no `/` is classified as an
/// interface, and differs from every peer path. (Interface names never hold
/// `/`.)
pub proof fn lemma_device_path_is_device(ifname: Seq<char>, n2: Seq<char>, k2: Seq<u8>)
    requires
        !ifname.contains('/'),
    ensures
        !is_peer_path(device_path_text(ifname)),
        device_path_text(ifname) != peer_path_text(n2, k2),
{
    reveal_strlit("/io/github/thokis/WireGuard1");
    let pre = object_root() + devices_segment();
    let d = device_path_text(ifname);
    assert(pre.len() == 37);
    assert forall|k: int| 0 <= k < 37 implies pre[k] != 'P' by {
        if k < 28 {
            assert(pre[k] == object_root()[k]);
        } else {
            assert(pre[k] == devices_segment()[k - 28]);
        }
    }
    if is_peer_path(d) {
        let i = choose|i: int| 0 <= i && i + 7 <= d.len() && #[trigger] d.subrange(i, i + 7) == peers_segment();
        assert(d.subrange(i, i + 7)[1] == 'P');
        assert(d.subrange(i, i + 7)[6] == '/');
        if i + 6 >= 37 {
            assert(d[i + 6] == ifname[i + 6 - 37]);
        } else {
            assert(d[i + 1] == pre[i + 1]);
        }
    }
    if d == peer_path_text(n2, k2) {
        let q = device_path_text(n2);
        assert(d.subrange(0, q.len() as int) =~= q);
        assert(d[q.len() as int] == '/');
        assert(q.len() >= 37);
        assert(d.len() == 37 + ifname.len());
        assert(q.len() < d.len());
        assert(d[q.len() as int] == ifname[q.len() - 37]);
        assert(ifname.contains('/'));
    }
}

} // verus!
