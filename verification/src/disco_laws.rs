//! What becomes of the disco keys that the peers are reached under.

use vstd::prelude::*;

use crate::endpoint_disco::EndpointDisco;
use crate::node::{DiscoKey, NodeId, NodeKey, NodeView, PeerId};
use crate::peer_db::{found_by_stable_id, listed_is_found, EntryView, KeyView};
use crate::peer_laws::{from_control_shape, slot_of, storing_fills_one_slot};
use crate::peer_tracker::{after_delta, published, PeerState, PeersView, Touched};
use crate::search::{first_where_is, first_where_is_first};
use crate::tailnet_lock::{verdict, AuthorityView};

verus! {

/// Whether `key` is the key of zero bytes, which stands for no key.
pub open spec fn is_no_key(key: DiscoKey) -> bool {
    key.hi == 0 && key.lo == 0
}

/// The key that the peer with the node key `key` advertised last.
pub open spec fn advertised_key(p: PeersView, key: NodeKey) -> Option<DiscoKey> {
    if p.disco.contains_key(key) {
        p.disco[key].tsmp
    } else {
        None
    }
}

/// The key that control sent last for the node key `key`.
pub open spec fn control_key(p: PeersView, key: NodeKey) -> Option<DiscoKey> {
    if p.disco.contains_key(key) {
        p.disco[key].control
    } else {
        None
    }
}

/// Whether the key in use for the node key `key` is the one that the peer advertised.
pub open spec fn prefers_advertised(p: PeersView, key: NodeKey) -> bool {
    p.disco.contains_key(key) && p.disco[key].tsmp_active
}

proof fn stored_in_place(p: PeersView, id: PeerId, d: EndpointDisco)
    requires
        p.db.wf(),
        p.db.has(KeyView::Id(id)),
    ensures
        ({
            let entry = p.db.find(KeyView::Id(id))->0;
            let out = p.store(entry.node, d).db;
            &&& out.find(KeyView::Id(id)) == Some(
                EntryView {
                    id,
                    node: NodeView {
                        disco_key: if d.tsmp_active {
                            d.tsmp
                        } else {
                            d.control
                        },
                        ..entry.node
                    },
                    inactive_disco_key: d.other(),
                },
            )
            &&& out.entries.len() == p.db.entries.len()
            &&& forall|i: int|
                0 <= i < p.db.entries.len() && p.db.entries[i].id != id ==> #[trigger] out.entries[i]
                    == p.db.entries[i]
        }),
{
    let db = p.db;
    let key = KeyView::Id(id);
    let entry = db.find(key)->0;
    found_by_stable_id(db, key);
    storing_fills_one_slot(p, entry.node, d);
    let out = p.store(entry.node, d).db;
    let w = |i: int| KeyView::StableId(entry.node.stable_id).selects(db.entries[i]);
    first_where_is_first(w, db.entries.len() as int);
    let at = slot_of(db, entry.node);
    assert(w(at));
    assert(db.entries[at] == entry);
    let q = |i: int| key.selects(out.entries[i]);
    assert(q(at));
    assert forall|j: int| 0 <= j < at implies !#[trigger] q(j) by {
        assert(db.entries[j].id != db.entries[at].id);
    }
    first_where_is(q, out.entries.len() as int, at);
}

/// A key that a stored peer advertises is taken where it is a key at all and not the one that the
/// peer advertised last, and only there. From then on the peer is reached under it; what control
/// sent is remembered; nothing else of the peer and nothing of another peer changes.
pub proof fn an_advertised_key_is_taken(p: PeersView, id: PeerId, key: DiscoKey)
    requires
        p.db.wf(),
    ensures
        p.advertised(id, key) is Some <==> !is_no_key(key) && p.db.has(KeyView::Id(id))
            && advertised_key(p, p.db.find(KeyView::Id(id))->0.node.node_key) != Some(key),
        p.advertised(id, key) is Some ==> ({
            let after = p.advertised(id, key)->0;
            let before = p.db.find(KeyView::Id(id))->0;
            let found = after.db.find(KeyView::Id(id));
            &&& found is Some
            &&& found->0.node == NodeView { disco_key: Some(key), ..before.node }
            &&& advertised_key(after, before.node.node_key) == Some(key)
            &&& control_key(after, before.node.node_key) == control_key(p, before.node.node_key)
            &&& prefers_advertised(after, before.node.node_key)
            &&& found->0.inactive_disco_key == (if control_key(p, before.node.node_key) == Some(
                key,
            ) {
                None
            } else {
                control_key(p, before.node.node_key)
            })
            &&& after.db.entries.len() == p.db.entries.len()
            &&& forall|i: int|
                0 <= i < p.db.entries.len() && p.db.entries[i].id != id
                    ==> #[trigger] after.db.entries[i] == p.db.entries[i]
            &&& forall|k: NodeKey|
                k != before.node.node_key ==> (#[trigger] after.disco.contains_key(k))
                    == p.disco.contains_key(k) && after.disco[k] == p.disco[k]
        }),
{
    if p.advertised(id, key) is Some {
        let entry = p.db.find(KeyView::Id(id))->0;
        let nk = entry.node.node_key;
        let d = p.disco_of(nk).after_tsmp(Some(key));
        stored_in_place(PeersView { db: p.db, disco: p.disco.insert(nk, d) }, id, d);
    }
}

/// A key under which a frame of a stored peer was opened is taken up where it is one of the peer's
/// two keys and not the one in use, and only there. From then on the peer is reached under it; both
/// keys stay known; nothing else of the peer and nothing of another peer changes.
pub proof fn an_observed_key_is_taken_up(p: PeersView, id: PeerId, key: DiscoKey)
    requires
        p.db.wf(),
    ensures
        p.observed(id, key) is Some <==> p.db.has(KeyView::Id(id)) && ({
            let nk = p.db.find(KeyView::Id(id))->0.node.node_key;
            &&& control_key(p, nk) == Some(key) || advertised_key(p, nk) == Some(key)
            &&& (if prefers_advertised(p, nk) {
                advertised_key(p, nk)
            } else {
                control_key(p, nk)
            }) != Some(key)
        }),
        p.observed(id, key) is Some ==> ({
            let after = p.observed(id, key)->0;
            let before = p.db.find(KeyView::Id(id))->0;
            let nk = before.node.node_key;
            let found = after.db.find(KeyView::Id(id));
            &&& found is Some
            &&& found->0.node == NodeView { disco_key: Some(key), ..before.node }
            &&& advertised_key(after, nk) == advertised_key(p, nk)
            &&& control_key(after, nk) == control_key(p, nk)
            &&& found->0.inactive_disco_key == (if control_key(p, nk) == Some(key) {
                if advertised_key(p, nk) == Some(key) {
                    None
                } else {
                    advertised_key(p, nk)
                }
            } else {
                control_key(p, nk)
            })
            &&& after.db.entries.len() == p.db.entries.len()
            &&& forall|i: int|
                0 <= i < p.db.entries.len() && p.db.entries[i].id != id
                    ==> #[trigger] after.db.entries[i] == p.db.entries[i]
            &&& forall|k: NodeKey|
                k != nk ==> (#[trigger] after.disco.contains_key(k)) == p.disco.contains_key(k)
                    && after.disco[k] == p.disco[k]
        }),
{
    if p.observed(id, key) is Some {
        let entry = p.db.find(KeyView::Id(id))->0;
        let nk = entry.node.node_key;
        let d = p.disco_of(nk).switched(key);
        stored_in_place(PeersView { db: p.db, disco: p.disco.insert(nk, d) }, id, d);
    }
}

/// Where a peer's key was taken, the peers are published as they then are, with that peer named as
/// stored and nobody as dropped; and else nothing is published.
pub proof fn a_taken_key_is_published(
    change: Option<PeersView>,
    peer: PeerId,
    peers: PeersView,
    state: Option<PeerState>,
)
    requires
        published(change, peer, peers, state),
    ensures
        state is Some == change is Some,
        state is Some ==> {
            &&& change == Some(peers)
            &&& state->0.peers@ == peers.db
            &&& forall|id: PeerId| #[trigger] state->0.upserts@.contains(id) <==> id == peer
            &&& forall|id: PeerId| !#[trigger] state->0.deletions@.contains(id)
        },
{
}

/// A node that control sends and that is stored is reached under the key that it advertised, where
/// that is the one in use; else under the key that control sends; and where control sends none,
/// under the one that it advertised, in use or not. What control sent is remembered.
pub proof fn a_sent_node_is_reached_under_its_key(
    p: PeersView,
    lock: Option<AuthorityView>,
    node: NodeView,
)
    requires
        p.db.wf(),
        p.db.next_id < u64::MAX,
        verdict(lock, node).admitted,
        control_key(p, node.node_key) is Some ==> !is_no_key(control_key(p, node.node_key)->0),
    ensures
        ({
            let after = after_delta(p, lock, seq![node], Seq::empty()).peers;
            let found = after.db.find(KeyView::StableId(node.stable_id));
            let nk = node.node_key;
            let sent = if node.disco_key is Some && is_no_key(node.disco_key->0) {
                None
            } else {
                node.disco_key
            };
            &&& found is Some
            &&& found->0.node.node_key == nk
            &&& found->0.node.disco_key == (if sent is Some && !prefers_advertised(p, nk) {
                sent
            } else if prefers_advertised(p, nk) || control_key(p, nk) is Some {
                advertised_key(p, nk)
            } else {
                None
            })
            &&& control_key(after, nk) == sent
            &&& advertised_key(after, nk) == advertised_key(p, nk)
            &&& found->0.inactive_disco_key is Some ==> found->0.inactive_disco_key
                != found->0.node.disco_key && (found->0.inactive_disco_key == sent
                || found->0.inactive_disco_key == advertised_key(p, nk))
            &&& sent is Some && found->0.node.disco_key != sent ==> found->0.inactive_disco_key
                == sent
            &&& advertised_key(p, nk) is Some && found->0.node.disco_key != advertised_key(p, nk)
                ==> found->0.inactive_disco_key == advertised_key(p, nk)
        }),
{
    let one = seq![node];
    let start = Touched::start(p);
    assert(one.drop_last() =~= Seq::<NodeView>::empty());
    assert(start.upsert_judged(lock, one.drop_last()) == start);
    assert(start.upsert_judged(lock, one) == start.upsert(node));
    let q = p.from_control(node);
    from_control_shape(p, node);
    let key = KeyView::StableId(node.stable_id);
    let w = |i: int| key.selects(p.db.entries[i]);
    first_where_is_first(w, p.db.entries.len() as int);
    let at = slot_of(p.db, node);
    let v = |i: int| key.selects(q.db.entries[i]);
    assert(v(at));
    assert forall|j: int| 0 <= j < at implies !#[trigger] v(j) by {
        assert(q.db.entries[j] == p.db.entries[j]);
        assert(!w(j));
    }
    first_where_is(v, q.db.entries.len() as int, at);
    listed_is_found(q.db, KeyView::NodeKey(node.node_key), at);
    let d = p.resolved(node);
    assert(q.db.has(KeyView::NodeKey(node.node_key)));
    let after = after_delta(p, lock, one, Seq::empty()).peers;
    assert(after.disco == q.pruned().disco);
    assert(after.disco.contains_key(node.node_key) == d.has_key());
}

proof fn sending_touches_one_key(t: Touched, node: NodeView, key: NodeKey)
    requires
        key != node.node_key,
    ensures
        t.upsert(node).peers.disco.contains_key(key) == t.peers.disco.contains_key(key),
        t.upsert(node).peers.disco[key] == t.peers.disco[key],
{
}

proof fn judging_touches_sent_keys(
    t: Touched,
    lock: Option<AuthorityView>,
    nodes: Seq<NodeView>,
    key: NodeKey,
)
    requires
        forall|j: int| 0 <= j < nodes.len() ==> (#[trigger] nodes[j]).node_key != key,
    ensures
        t.upsert_judged(lock, nodes).peers.disco.contains_key(key) == t.peers.disco.contains_key(
            key,
        ),
        t.upsert_judged(lock, nodes).peers.disco[key] == t.peers.disco[key],
    decreases nodes.len(),
{
    if nodes.len() > 0 {
        let short = nodes.drop_last();
        assert forall|j: int| 0 <= j < short.len() implies (#[trigger] short[j]).node_key != key by {
            assert(nodes[j].node_key != key);
        }
        judging_touches_sent_keys(t, lock, short, key);
        assert(nodes[nodes.len() - 1].node_key != key);
        sending_touches_one_key(t.upsert_judged(lock, short), nodes.last(), key);
    }
}

proof fn removals_touch_no_key(t: Touched, ids: Seq<NodeId>)
    ensures
        t.evict_ids(ids).peers.disco == t.peers.disco,
    decreases ids.len(),
{
    if ids.len() > 0 {
        removals_touch_no_key(t, ids.drop_last());
    }
}

/// The disco keys on record for a node key that a delta does not send stay as they are while a peer
/// with that node key is stored, and go when none is.
pub proof fn disco_keys_stay_with_their_peer(
    p: PeersView,
    lock: Option<AuthorityView>,
    upsert: Seq<NodeView>,
    remove: Seq<NodeId>,
    key: NodeKey,
)
    requires
        forall|j: int| 0 <= j < upsert.len() ==> (#[trigger] upsert[j]).node_key != key,
    ensures
        ({
            let after = after_delta(p, lock, upsert, remove).peers;
            &&& after.disco.contains_key(key) <==> p.disco.contains_key(key) && after.db.has(
                KeyView::NodeKey(key),
            )
            &&& after.disco.contains_key(key) ==> after.disco[key] == p.disco[key]
        }),
{
    let start = Touched::start(p);
    judging_touches_sent_keys(start, lock, upsert, key);
    removals_touch_no_key(start.upsert_judged(lock, upsert), remove);
}

} // verus!
