//! Peer discovery: the payload of an advertisement, and what was heard.
//!
//! A device advertises its 32-byte node id and, in the bytes that remain, a
//! display name in UTF-8. A scanning peer learns both without connecting.
//!
//! ```text
//!   [node id: 32 bytes][display name: UTF-8]
//! ```

use vstd::prelude::*;
use vstd::slice::slice_subrange;
use vstd::utf8::{
    decode_utf8, decode_utf8_encode_utf8, encode_utf8, encode_utf8_decode_utf8,
    encode_utf8_valid_utf8, valid_utf8,
};

verus! {

/// Company identifier under which the payload is advertised. It is a private
/// convention of this mesh, not an assigned number.
pub const NEUTRINO_MANUFACTURER_ID: u16 = 0x0E1E;

/// Length of the node id that starts a payload.
pub const NODE_ID_LEN: usize = 32;

/// A peer that was heard: its node id and the name that it advertised.
#[derive(Debug, Clone, PartialEq, Eq)]
pub struct DiscoveredPeer {
    pub node_id: [u8; 32],
    pub display_name: String,
}

/// The payload of an advertisement.
pub open spec fn payload_of(node_id: Seq<u8>, name: Seq<char>) -> Seq<u8> {
    node_id + encode_utf8(name)
}

/// What a payload says, if it is long enough and its name is text.
pub open spec fn payload_contents(bytes: Seq<u8>) -> Option<(Seq<u8>, Seq<char>)> {
    if bytes.len() < NODE_ID_LEN || !valid_utf8(bytes.skip(32)) {
        None
    } else {
        Some((bytes.take(32), decode_utf8(bytes.skip(32))))
    }
}

/// Writes a payload. The caller sees to it that the name is short enough for
/// the advertisement.
pub fn encode_discovery_payload(node_id: &[u8; 32], display_name: &str) -> (payload: Vec<u8>)
    ensures
        payload@ == payload_of(node_id@, display_name@),
{
    let mut out: Vec<u8> = Vec::new();
    out.extend_from_slice(node_id.as_slice());
    out.extend_from_slice(display_name.as_bytes());
    assert(out@ =~= payload_of(node_id@, display_name@));
    out
}

/// Calls [`core::str::from_utf8`], which gives the text that `bytes` encode,
/// or an error where they are not valid UTF-8.
#[verifier::external_body]
fn text_of(bytes: &[u8]) -> (text: Option<&str>)
    ensures
        text is Some <==> valid_utf8(bytes@),
        text matches Some(t) ==> t@ == decode_utf8(bytes@),
{
    core::str::from_utf8(bytes).ok()
}

/// Reads a payload. `None` if it is too short to hold a node id or its name is
/// not valid UTF-8.
pub fn decode_discovery_payload(bytes: &[u8]) -> (contents: Option<([u8; 32], String)>)
    ensures
        match contents {
            Some((node_id, name)) => payload_contents(bytes@) == Some((node_id@, name@)),
            None => payload_contents(bytes@) is None,
        },
{
    if bytes.len() < NODE_ID_LEN {
        return None;
    }
    let mut node_id: [u8; 32] = [0u8; 32];
    let mut i: usize = 0;
    while i < NODE_ID_LEN
        invariant
            0 <= i <= NODE_ID_LEN,
            NODE_ID_LEN <= bytes@.len(),
            forall|k: int| 0 <= k < i ==> node_id@[k] == bytes@[k],
        decreases NODE_ID_LEN - i,
    {
        node_id[i] = bytes[i];
        i += 1;
    }
    assert(node_id@ =~= bytes@.take(32));
    let rest = slice_subrange(bytes, NODE_ID_LEN, bytes.len());
    assert(rest@ =~= bytes@.skip(32));
    match text_of(rest) {
        Some(name) => Some((node_id, name.to_owned())),
        None => None,
    }
}

/// Reading a payload gives back what was written.
pub proof fn law_payload_round_trip(node_id: Seq<u8>, name: Seq<char>)
    requires
        node_id.len() == NODE_ID_LEN,
    ensures
        payload_contents(payload_of(node_id, name)) == Some((node_id, name)),
{
    let bytes = payload_of(node_id, name);
    encode_utf8_valid_utf8(name);
    encode_utf8_decode_utf8(name);
    assert(bytes.take(32) =~= node_id);
    assert(bytes.skip(32) =~= encode_utf8(name));
}

/// Writing what was read gives back the payload: no two payloads say the same.
pub proof fn law_payload_is_canonical(bytes: Seq<u8>)
    ensures
        payload_contents(bytes) matches Some((node_id, name)) ==> payload_of(node_id, name)
            == bytes,
{
    if payload_contents(bytes) is Some {
        decode_utf8_encode_utf8(bytes.skip(32));
        assert(bytes.take(32) + bytes.skip(32) =~= bytes);
    }
}

/// Whether two peers have the same node id.
fn same_id(a: &[u8; 32], b: &[u8; 32]) -> (same: bool)
    ensures
        same == (a@ == b@),
{
    let mut i: usize = 0;
    while i < NODE_ID_LEN
        invariant
            0 <= i <= NODE_ID_LEN,
            forall|k: int| 0 <= k < i ==> a@[k] == b@[k],
        decreases NODE_ID_LEN - i,
    {
        if a[i] != b[i] {
            return false;
        }
        i += 1;
    }
    assert(a@ =~= b@);
    true
}

/// Where the peer with this id stands in `peers`.
pub open spec fn is_at(peers: Seq<DiscoveredPeer>, id: Seq<u8>, i: int) -> bool {
    0 <= i < peers.len() && peers[i].node_id@ == id
}

/// No peer occurs twice.
pub open spec fn distinct(peers: Seq<DiscoveredPeer>) -> bool {
    forall|i: int, j: int|
        0 <= i < j < peers.len() ==> (#[trigger] peers[i]).node_id@ != (
        #[trigger] peers[j]).node_id@
}

/// The names of `peers`, by their ids.
pub open spec fn names(peers: Seq<DiscoveredPeer>) -> Map<Seq<u8>, Seq<char>> {
    Map::new(
        |id: Seq<u8>| exists|i: int| is_at(peers, id, i),
        |id: Seq<u8>| peers[choose|i: int| is_at(peers, id, i)].display_name@,
    )
}

proof fn lemma_name_at(peers: Seq<DiscoveredPeer>, i: int)
    requires
        distinct(peers),
        0 <= i < peers.len(),
    ensures
        names(peers).dom().contains(peers[i].node_id@),
        names(peers)[peers[i].node_id@] == peers[i].display_name@,
{
    let id = peers[i].node_id@;
    assert(is_at(peers, id, i));
    let j = choose|j: int| is_at(peers, id, j);
    assert(is_at(peers, id, j));
    if i < j {
        assert(peers[i].node_id@ != peers[j].node_id@);
    } else if j < i {
        assert(peers[j].node_id@ != peers[i].node_id@);
    }
}

/// The peers that were heard so far.
pub struct DiscoverySink {
    pub peers: Vec<DiscoveredPeer>,
}

impl View for DiscoverySink {
    type V = Map<Seq<u8>, Seq<char>>;

    /// The name that each peer advertised last.
    open spec fn view(&self) -> Map<Seq<u8>, Seq<char>> {
        names(self.peers@)
    }
}

/// Whether it is known already that `id` goes by `name`.
pub open spec fn is_known(known: Map<Seq<u8>, Seq<char>>, id: Seq<u8>, name: Seq<char>) -> bool {
    known.dom().contains(id) && known[id] == name
}

impl DiscoverySink {
    pub open spec fn wf(self) -> bool {
        distinct(self.peers@)
    }

    /// Nothing heard yet.
    pub fn new() -> (sink: Self)
        ensures
            sink.wf(),
            sink@ == Map::<Seq<u8>, Seq<char>>::empty(),
    {
        let sink = DiscoverySink { peers: Vec::new() };
        assert(sink@ =~= Map::<Seq<u8>, Seq<char>>::empty());
        sink
    }

    fn position(&self, node_id: &[u8; 32]) -> (pos: Option<usize>)
        ensures
            match pos {
                Some(i) => is_at(self.peers@, node_id@, i as int),
                None => forall|i: int| !is_at(self.peers@, node_id@, i),
            },
    {
        let mut i: usize = 0;
        while i < self.peers.len()
            invariant
                0 <= i <= self.peers@.len(),
                forall|k: int| 0 <= k < i ==> !is_at(self.peers@, node_id@, k),
            decreases self.peers@.len() - i,
        {
            if same_id(&self.peers[i].node_id, node_id) {
                return Some(i);
            }
            i += 1;
        }
        None
    }

    /// A copy of all peers.
    fn snapshot(&self) -> (peers: Vec<DiscoveredPeer>)
        ensures
            peers@ == self.peers@,
    {
        let mut out: Vec<DiscoveredPeer> = Vec::new();
        let mut i: usize = 0;
        while i < self.peers.len()
            invariant
                0 <= i <= self.peers@.len(),
                out@ == self.peers@.take(i as int),
            decreases self.peers@.len() - i,
        {
            let peer = &self.peers[i];
            out.push(
                DiscoveredPeer {
                    node_id: peer.node_id,
                    display_name: peer.display_name.clone(),
                },
            );
            assert(self.peers@.take(i + 1) =~= self.peers@.take(i as int).push(
                self.peers@[i as int],
            ));
            i += 1;
        }
        assert(self.peers@.take(i as int) =~= self.peers@);
        out
    }

    /// Takes in what was heard. If it is news, gives all peers as they are
    /// known now, each once; their order is of no meaning. A peer that is
    /// heard again under the same name is no news.
    pub fn observe(&mut self, node_id: [u8; 32], display_name: String) -> (news: Option<
        Vec<DiscoveredPeer>,
    >)
        requires
            old(self).wf(),
        ensures
            final(self).wf(),
            news is None <==> is_known(old(self)@, node_id@, display_name@),
            news is None <==> old(self)@.dom().contains(node_id@) && old(self)@[node_id@]
                == display_name@,
            final(self)@ == old(self)@.insert(node_id@, display_name@),
            news matches Some(peers) ==> distinct(peers@) && names(peers@) == final(self)@,
            news matches Some(peers) ==> peers@ == final(self).peers@,
    {
        let ghost p0 = self.peers@;
        let ghost id = node_id@;
        let ghost name = display_name@;
        match self.position(&node_id) {
            Some(i) => {
                proof {
                    lemma_name_at(p0, i as int);
                }
                if self.peers[i].display_name == display_name {
                    assert(self@ =~= self@.insert(id, name));
                    return None;
                }
                self.peers[i] = DiscoveredPeer { node_id, display_name };
                proof {
                    let p = self.peers@;
                    assert(distinct(p)) by {
                        assert forall|a: int, b: int| 0 <= a < b < p.len() implies (
                        #[trigger] p[a]).node_id@ != (#[trigger] p[b]).node_id@ by {
                            assert(p0[a].node_id@ != p0[b].node_id@);
                        }
                    }
                    lemma_inserted(p0, p, i as int, id, name);
                }
            },
            None => {
                self.peers.push(DiscoveredPeer { node_id, display_name });
                proof {
                    let p = self.peers@;
                    assert(distinct(p)) by {
                        assert forall|a: int, b: int| 0 <= a < b < p.len() implies (
                        #[trigger] p[a]).node_id@ != (#[trigger] p[b]).node_id@ by {
                            if b < p0.len() {
                                assert(p0[a].node_id@ != p0[b].node_id@);
                            } else {
                                assert(!is_at(p0, id, a));
                            }
                        }
                    }
                    lemma_inserted(p0, p, p0.len() as int, id, name);
                }
            },
        }
        Some(self.snapshot())
    }
}

/// Setting entry `at`, the only one with this id, inserts into the map.
proof fn lemma_inserted(
    before: Seq<DiscoveredPeer>,
    after: Seq<DiscoveredPeer>,
    at: int,
    id: Seq<u8>,
    name: Seq<char>,
)
    requires
        distinct(before),
        distinct(after),
        0 <= at < after.len(),
        before.len() <= after.len() <= before.len() + 1,
        after.len() > before.len() ==> at == before.len(),
        at < before.len() ==> before[at].node_id@ == id,
        after[at].node_id@ == id,
        after[at].display_name@ == name,
        forall|i: int| 0 <= i < before.len() && i != at ==> after[i] == before[i],
    ensures
        names(after) == names(before).insert(id, name),
{
    let m = names(before).insert(id, name);
    lemma_name_at(after, at);
    assert forall|x: Seq<u8>| #[trigger]
        names(after).dom().contains(x) == m.dom().contains(x) && (m.dom().contains(x)
            ==> names(after)[x] == m[x]) by {
        if x != id {
            if names(after).dom().contains(x) {
                let i = choose|i: int| is_at(after, x, i);
                assert(is_at(after, x, i));
                assert(i != at);
                assert(is_at(before, x, i));
                lemma_name_at(before, i);
                lemma_name_at(after, i);
            }
            if names(before).dom().contains(x) {
                let i = choose|i: int| is_at(before, x, i);
                assert(is_at(before, x, i));
                assert(i != at);
                assert(is_at(after, x, i));
                lemma_name_at(before, i);
                lemma_name_at(after, i);
            }
        }
    }
    assert(names(after).dom() =~= m.dom());
    assert(names(after) =~= m);
}

/// Hearing the same twice is news at most once.
pub proof fn law_hearing_again_is_no_news(
    known: Map<Seq<u8>, Seq<char>>,
    id: Seq<u8>,
    name: Seq<char>,
)
    ensures
        is_known(known.insert(id, name), id, name),
        known.insert(id, name).insert(id, name) == known.insert(id, name),
{
    assert(known.insert(id, name).insert(id, name) =~= known.insert(id, name));
}

/// What is heard of one peer changes nothing about the others.
pub proof fn law_peers_do_not_affect_each_other(
    known: Map<Seq<u8>, Seq<char>>,
    id: Seq<u8>,
    name: Seq<char>,
    other: Seq<u8>,
    other_name: Seq<char>,
)
    requires
        id != other,
    ensures
        is_known(known.insert(id, name), other, other_name) <==> is_known(
            known,
            other,
            other_name,
        ),
        known.insert(id, name).insert(other, other_name) == known.insert(other, other_name).insert(
            id,
            name,
        ),
{
    assert(known.insert(id, name).insert(other, other_name) =~= known.insert(
        other,
        other_name,
    ).insert(id, name));
}

/// A payload is the node id and behind it the name in UTF-8. What is read of
/// bytes is their first 32 and the text that the others encode; nothing is
/// read exactly if there are fewer, or if the others encode no text.
pub proof fn law_payload_layout(node_id: Seq<u8>, name: Seq<char>, bytes: Seq<u8>)
    requires
        node_id.len() == 32,
    ensures
        payload_of(node_id, name).take(32) == node_id,
        payload_of(node_id, name).skip(32) == encode_utf8(name),
        payload_contents(bytes) is Some <==> bytes.len() >= 32 && valid_utf8(bytes.skip(32)),
        payload_contents(bytes) matches Some((id, text)) ==> id == bytes.take(32)
            && encode_utf8(text) == bytes.skip(32),
{
    assert(payload_of(node_id, name).take(32) =~= node_id);
    assert(payload_of(node_id, name).skip(32) =~= encode_utf8(name));
    if payload_contents(bytes) is Some {
        decode_utf8_encode_utf8(bytes.skip(32));
    }
}

/// The peers that are known are those in the list, each under the name that it
/// has there.
pub proof fn law_known_peers_are_those_listed(
    peers: Seq<DiscoveredPeer>,
    id: Seq<u8>,
    name: Seq<char>,
)
    ensures
        distinct(peers) <==> forall|i: int, j: int|
            0 <= i < peers.len() && 0 <= j < peers.len() && i != j ==> (
            #[trigger] peers[i]).node_id@ != (#[trigger] peers[j]).node_id@,
        distinct(peers) ==> (is_known(names(peers), id, name) <==> exists|i: int|
            0 <= i < peers.len() && (#[trigger] peers[i]).node_id@ == id
                && peers[i].display_name@ == name),
{
    if distinct(peers) {
        assert forall|i: int, j: int|
            0 <= i < peers.len() && 0 <= j < peers.len() && i != j implies (
        #[trigger] peers[i]).node_id@ != (#[trigger] peers[j]).node_id@ by {
            if j < i {
                assert(peers[j].node_id@ != peers[i].node_id@);
            }
        }
        if is_known(names(peers), id, name) {
            let i = choose|i: int| is_at(peers, id, i);
            assert(is_at(peers, id, i));
            lemma_name_at(peers, i);
        }
        if exists|i: int|
            0 <= i < peers.len() && (#[trigger] peers[i]).node_id@ == id
                && peers[i].display_name@ == name {
            let i = choose|i: int|
                0 <= i < peers.len() && (#[trigger] peers[i]).node_id@ == id
                    && peers[i].display_name@ == name;
            lemma_name_at(peers, i);
        }
    }
}

} // verus!
