//! What becomes of the stored peers when control sends nodes, and when the lock changes.

use vstd::prelude::*;

use crate::node::{NodeId, NodeView, PeerId};
use crate::peer_db::{
    flagged, flagged_elements, found_by_stable_id, keep_is_wf, remove_is_wf, DbView, EntryView,
    KeyView,
};
use crate::peer_laws::{from_control_shape, slot_of};
use crate::peer_tracker::{
    after_delta, after_full, dropped_ids, reevaluated, retain_flags, retained, stored_nodes,
    PeersView, Touched,
};
use crate::search::{first_where_is, first_where_is_first, first_where_none};
use crate::tailnet_lock::{kept, verdict, AuthorityView};

verus! {

/// Whether `after` is `sent` in every field but the disco key.
pub open spec fn is_as_sent(sent: NodeView, after: NodeView) -> bool {
    &&& after.id == sent.id
    &&& after.stable_id == sent.stable_id
    &&& after.hostname == sent.hostname
    &&& after.tailnet == sent.tailnet
    &&& after.user_id == sent.user_id
    &&& after.ipv4 == sent.ipv4
    &&& after.ipv6 == sent.ipv6
    &&& after.service_addresses == sent.service_addresses
    &&& after.node_key == sent.node_key
    &&& after.node_key_expiry == sent.node_key_expiry
    &&& after.online == sent.online
    &&& after.last_seen == sent.last_seen
    &&& after.key_signature == sent.key_signature
    &&& after.accepted_routes == sent.accepted_routes
    &&& after.underlay_addresses == sent.underlay_addresses
    &&& after.derp_region == sent.derp_region
    &&& after.cap == sent.cap
    &&& after.cap_map == sent.cap_map
    &&& after.unsigned_peer_api_only == sent.unsigned_peer_api_only
}

/// Whether the `k`th of `nodes` is the last with its stable id.
pub open spec fn last_sent(nodes: Seq<NodeView>, k: int) -> bool {
    &&& 0 <= k < nodes.len()
    &&& forall|j: int|
        k < j < nodes.len() ==> (#[trigger] nodes[j]).stable_id != nodes[k].stable_id
}

/// Whether none of `nodes` has the stable id `stable_id`.
pub open spec fn not_sent(nodes: Seq<NodeView>, stable_id: Seq<char>) -> bool {
    forall|j: int| 0 <= j < nodes.len() ==> (#[trigger] nodes[j]).stable_id != stable_id
}

proof fn stable_id_at(db: DbView, stable_id: Seq<char>, i: int)
    requires
        db.wf(),
        0 <= i < db.entries.len(),
        db.entries[i].node.stable_id == stable_id,
    ensures
        db.index_of(KeyView::StableId(stable_id)) == Some(i),
        db.find(KeyView::StableId(stable_id)) == Some(db.entries[i]),
{
    let key = KeyView::StableId(stable_id);
    let q = |j: int| key.selects(db.entries[j]);
    assert(q(i));
    assert forall|j: int| 0 <= j < i implies !#[trigger] q(j) by {
        assert(db.entries[j].node.stable_id != db.entries[i].node.stable_id);
    }
    first_where_is(q, db.entries.len() as int, i);
}

proof fn stable_id_nowhere(db: DbView, stable_id: Seq<char>)
    requires
        forall|i: int| 0 <= i < db.entries.len() ==> (#[trigger] db.entries[i]).node.stable_id != stable_id,
    ensures
        db.find(KeyView::StableId(stable_id)) is None,
{
    let key = KeyView::StableId(stable_id);
    let q = |j: int| key.selects(db.entries[j]);
    first_where_none(q, db.entries.len() as int);
}

proof fn stable_id_found(db: DbView, stable_id: Seq<char>)
    ensures
        match db.index_of(KeyView::StableId(stable_id)) {
            Some(i) => 0 <= i < db.entries.len() && db.entries[i].node.stable_id == stable_id
                && db.find(KeyView::StableId(stable_id)) == Some(db.entries[i]),
            None => db.find(KeyView::StableId(stable_id)) is None && forall|i: int|
                0 <= i < db.entries.len() ==> (#[trigger] db.entries[i]).node.stable_id
                    != stable_id,
        },
{
    let key = KeyView::StableId(stable_id);
    let q = |j: int| key.selects(db.entries[j]);
    first_where_is_first(q, db.entries.len() as int);
    match db.index_of(key) {
        Some(i) => {
            assert(q(i));
        },
        None => {
            assert forall|i: int| 0 <= i < db.entries.len() implies (
            #[trigger] db.entries[i]).node.stable_id != stable_id by {
                assert(!q(i));
            }
        },
    }
}

proof fn one_upsert(t: Touched, node: NodeView, stable_id: Seq<char>)
    requires
        t.peers.db.wf(),
        t.peers.db.next_id < u64::MAX,
    ensures
        ({
            let db = t.peers.db;
            let after = t.upsert(node);
            let out = after.peers.db;
            let found = out.find(KeyView::StableId(stable_id));
            let before = db.find(KeyView::StableId(stable_id));
            &&& out.wf()
            &&& db.next_id <= out.next_id <= db.next_id + 1
            &&& after.deletions == t.deletions
            &&& stable_id == node.stable_id ==> {
                &&& found is Some
                &&& is_as_sent(node, found->0.node)
                &&& before is Some ==> found->0.id == before->0.id
                &&& before is None ==> found->0.id == PeerId(db.next_id as u64)
                &&& after.upserts == t.upserts.insert(found->0.id)
            }
            &&& stable_id != node.stable_id ==> found == before
        }),
{
    let db = t.peers.db;
    let out = t.upsert(node).peers.db;
    from_control_shape(t.peers, node);
    stable_id_found(db, node.stable_id);
    stable_id_found(db, stable_id);
    let at = slot_of(db, node);
    if stable_id == node.stable_id {
        stable_id_at(out, stable_id, at);
    } else {
        match db.index_of(KeyView::StableId(stable_id)) {
            Some(i) => {
                assert(out.entries[i] == db.entries[i]);
                stable_id_at(out, stable_id, i);
            },
            None => {
                assert forall|i: int| 0 <= i < out.entries.len() implies (
                #[trigger] out.entries[i]).node.stable_id != stable_id by {
                    if i != at {
                        assert(out.entries[i] == db.entries[i]);
                    }
                }
                stable_id_nowhere(out, stable_id);
            },
        }
    }
}

proof fn one_eviction(t: Touched, key: KeyView, stable_id: Seq<char>)
    requires
        t.peers.db.wf(),
    ensures
        ({
            let db = t.peers.db;
            let out = t.evict(key).peers.db;
            let found = out.find(KeyView::StableId(stable_id));
            let before = db.find(KeyView::StableId(stable_id));
            &&& out.wf()
            &&& out.next_id == db.next_id
            &&& match db.find(key) {
                Some(e) if e.node.stable_id == stable_id => found is None,
                _ => found == before,
            }
            &&& match db.find(key) {
                Some(e) => t.evict(key).deletions == t.deletions.insert(e.id),
                None => t.evict(key) == t,
            }
        }),
{
    let db = t.peers.db;
    let out = t.evict(key).peers.db;
    remove_is_wf(db, key);
    let p = |i: int| key.selects(db.entries[i]);
    first_where_is_first(p, db.entries.len() as int);
    match db.index_of(key) {
        Some(at) => {
            stable_id_found(db, stable_id);
            match db.index_of(KeyView::StableId(stable_id)) {
                Some(i) => {
                    if i == at {
                        assert forall|j: int| 0 <= j < out.entries.len() implies (
                        #[trigger] out.entries[j]).node.stable_id != stable_id by {
                            let m = if j < at {
                                j
                            } else {
                                j + 1
                            };
                            assert(out.entries[j] == db.entries[m]);
                            assert(db.entries[m].node.stable_id != db.entries[at].node.stable_id);
                        }
                        stable_id_nowhere(out, stable_id);
                    } else {
                        assert(db.entries[at].node.stable_id != db.entries[i].node.stable_id);
                        let m = if i < at {
                            i
                        } else {
                            i - 1
                        };
                        assert(out.entries[m] == db.entries[i]);
                        stable_id_at(out, stable_id, m);
                    }
                },
                None => {
                    assert forall|j: int| 0 <= j < out.entries.len() implies (
                    #[trigger] out.entries[j]).node.stable_id != stable_id by {
                        let m = if j < at {
                            j
                        } else {
                            j + 1
                        };
                        assert(out.entries[j] == db.entries[m]);
                    }
                    stable_id_nowhere(out, stable_id);
                },
            }
        },
        None => {},
    }
}

proof fn judged_effect(t: Touched, lock: Option<AuthorityView>, nodes: Seq<NodeView>, stable_id: Seq<char>)
    requires
        t.peers.db.wf(),
        t.peers.db.next_id + nodes.len() <= u64::MAX,
    ensures
        ({
            let db = t.peers.db;
            let out = t.upsert_judged(lock, nodes).peers.db;
            let found = out.find(KeyView::StableId(stable_id));
            let before = db.find(KeyView::StableId(stable_id));
            &&& out.wf()
            &&& out.next_id <= db.next_id + nodes.len()
            &&& not_sent(nodes, stable_id) ==> found == before
            &&& forall|k: int|
                #![trigger nodes[k]]
                last_sent(nodes, k) && nodes[k].stable_id == stable_id ==> if verdict(
                    lock,
                    nodes[k],
                ).admitted {
                    found is Some && is_as_sent(nodes[k], found->0.node)
                } else {
                    found is None
                }
            &&& before is Some && (forall|j: int|
                0 <= j < nodes.len() && (#[trigger] nodes[j]).stable_id == stable_id ==> verdict(
                    lock,
                    nodes[j],
                ).admitted) ==> found is Some && found->0.id == before->0.id
        }),
    decreases nodes.len(),
{
    if nodes.len() > 0 {
        let short = nodes.drop_last();
        let n = nodes.len() - 1;
        let node = nodes.last();
        let mid = t.upsert_judged(lock, short);
        judged_effect(t, lock, short, stable_id);
        let admitted = verdict(lock, node).admitted;
        if admitted {
            one_upsert(mid, node, stable_id);
        } else {
            one_eviction(mid, KeyView::StableId(node.stable_id), stable_id);
            stable_id_found(mid.peers.db, node.stable_id);
            stable_id_found(mid.peers.db, stable_id);
        }
        assert(nodes[n] == node);
        if not_sent(nodes, stable_id) {
            assert forall|j: int| 0 <= j < short.len() implies (#[trigger] short[j]).stable_id
                != stable_id by {
                assert(nodes[j].stable_id != stable_id);
            }
        }
        let found = t.upsert_judged(lock, nodes).peers.db.find(KeyView::StableId(stable_id));
        let between = mid.peers.db.find(KeyView::StableId(stable_id));
        assert forall|k: int|
            #![trigger nodes[k]]
            last_sent(nodes, k) && nodes[k].stable_id == stable_id implies if verdict(
            lock,
            nodes[k],
        ).admitted {
            found is Some && is_as_sent(nodes[k], found->0.node)
        } else {
            found is None
        } by {
            if k < n {
                assert(nodes[n].stable_id != nodes[k].stable_id);
                assert(short[k] == nodes[k]);
                assert forall|j: int| k < j < short.len() implies (#[trigger] short[j]).stable_id
                    != short[k].stable_id by {
                    assert(nodes[j].stable_id != nodes[k].stable_id);
                }
                assert(last_sent(short, k));
                assert(found == between);
            }
        }
        if forall|j: int|
            0 <= j < nodes.len() && (#[trigger] nodes[j]).stable_id == stable_id ==> verdict(
                lock,
                nodes[j],
            ).admitted {
            assert forall|j: int|
                0 <= j < short.len() && (#[trigger] short[j]).stable_id == stable_id implies verdict(
                lock,
                short[j],
            ).admitted by {
                assert(nodes[j] == short[j]);
            }
        }
    }
}

proof fn evictions_effect(t: Touched, ids: Seq<NodeId>, stable_id: Seq<char>)
    requires
        t.peers.db.wf(),
    ensures
        ({
            let db = t.peers.db;
            let out = t.evict_ids(ids).peers.db;
            let found = out.find(KeyView::StableId(stable_id));
            let before = db.find(KeyView::StableId(stable_id));
            &&& out.wf()
            &&& before is None ==> found is None
            &&& found is Some ==> found == before
            &&& before is Some && !ids.contains(before->0.node.id) ==> found == before
        }),
    decreases ids.len(),
{
    if ids.len() > 0 {
        let short = ids.drop_last();
        let mid = t.evict_ids(short);
        evictions_effect(t, short, stable_id);
        let key = KeyView::NodeId(ids.last());
        one_eviction(mid, key, stable_id);
        let before = t.peers.db.find(KeyView::StableId(stable_id));
        if before is Some && !ids.contains(before->0.node.id) {
            assert(ids[ids.len() - 1] != before->0.node.id);
            assert forall|j: int| 0 <= j < short.len() implies short[j] != before->0.node.id by {
                assert(ids[j] == short[j]);
            }
            if mid.peers.db.has(key) {
                found_by_stable_id(mid.peers.db, key);
            }
        }
    }
}

/// A node that a delta sends, that the lock admits and that the delta does not remove is stored as
/// it was sent: the entry under its stable id is the last node sent with it, in every field but the
/// disco key, which is what the peer's disco keys make of it.
pub proof fn a_delta_stores_what_was_sent(
    p: PeersView,
    lock: Option<AuthorityView>,
    upsert: Seq<NodeView>,
    remove: Seq<NodeId>,
    k: int,
)
    requires
        p.db.wf(),
        p.db.next_id + upsert.len() <= u64::MAX,
        last_sent(upsert, k),
        verdict(lock, upsert[k]).admitted,
        !remove.contains(upsert[k].id),
    ensures
        match after_delta(p, lock, upsert, remove).peers.db.find(
            KeyView::StableId(upsert[k].stable_id),
        ) {
            Some(entry) => is_as_sent(upsert[k], entry.node),
            None => false,
        },
{
    let start = Touched::start(p);
    judged_effect(start, lock, upsert, upsert[k].stable_id);
    evictions_effect(start.upsert_judged(lock, upsert), remove, upsert[k].stable_id);
}

/// A node whose last entry in a delta the lock refuses is not stored, even where it was before.
pub proof fn a_delta_drops_what_is_refused(
    p: PeersView,
    lock: Option<AuthorityView>,
    upsert: Seq<NodeView>,
    remove: Seq<NodeId>,
    k: int,
)
    requires
        p.db.wf(),
        p.db.next_id + upsert.len() <= u64::MAX,
        last_sent(upsert, k),
        !verdict(lock, upsert[k]).admitted,
    ensures
        !after_delta(p, lock, upsert, remove).peers.db.has(KeyView::StableId(upsert[k].stable_id)),
{
    let start = Touched::start(p);
    judged_effect(start, lock, upsert, upsert[k].stable_id);
    evictions_effect(start.upsert_judged(lock, upsert), remove, upsert[k].stable_id);
}

/// A stored peer that a delta neither sends nor removes stays as it is, in everything.
pub proof fn a_delta_leaves_the_others(
    p: PeersView,
    lock: Option<AuthorityView>,
    upsert: Seq<NodeView>,
    remove: Seq<NodeId>,
    i: int,
)
    requires
        p.db.wf(),
        p.db.next_id + upsert.len() <= u64::MAX,
        0 <= i < p.db.entries.len(),
        not_sent(upsert, p.db.entries[i].node.stable_id),
        !remove.contains(p.db.entries[i].node.id),
    ensures
        after_delta(p, lock, upsert, remove).peers.db.find(
            KeyView::StableId(p.db.entries[i].node.stable_id),
        ) == Some(p.db.entries[i]),
{
    let start = Touched::start(p);
    let stable_id = p.db.entries[i].node.stable_id;
    stable_id_at(p.db, stable_id, i);
    judged_effect(start, lock, upsert, stable_id);
    evictions_effect(start.upsert_judged(lock, upsert), remove, stable_id);
}

/// A delta makes nobody: whoever is stored after it was stored before, or was sent and is admitted.
pub proof fn a_delta_makes_nobody(
    p: PeersView,
    lock: Option<AuthorityView>,
    upsert: Seq<NodeView>,
    remove: Seq<NodeId>,
    stable_id: Seq<char>,
)
    requires
        p.db.wf(),
        p.db.next_id + upsert.len() <= u64::MAX,
        not_sent(upsert, stable_id),
        !p.db.has(KeyView::StableId(stable_id)),
    ensures
        !after_delta(p, lock, upsert, remove).peers.db.has(KeyView::StableId(stable_id)),
{
    let start = Touched::start(p);
    judged_effect(start, lock, upsert, stable_id);
    evictions_effect(start.upsert_judged(lock, upsert), remove, stable_id);
}

/// A peer that control sends again stays the same peer, under the same number.
pub proof fn a_delta_keeps_the_numbers(
    p: PeersView,
    lock: Option<AuthorityView>,
    upsert: Seq<NodeView>,
    remove: Seq<NodeId>,
    i: int,
)
    requires
        p.db.wf(),
        p.db.next_id + upsert.len() <= u64::MAX,
        0 <= i < p.db.entries.len(),
        forall|j: int|
            0 <= j < upsert.len() && (#[trigger] upsert[j]).stable_id
                == p.db.entries[i].node.stable_id ==> verdict(lock, upsert[j]).admitted,
    ensures
        match after_delta(p, lock, upsert, remove).peers.db.find(
            KeyView::StableId(p.db.entries[i].node.stable_id),
        ) {
            Some(entry) => entry.id == p.db.entries[i].id,
            None => true,
        },
{
    let start = Touched::start(p);
    let stable_id = p.db.entries[i].node.stable_id;
    stable_id_at(p.db, stable_id, i);
    judged_effect(start, lock, upsert, stable_id);
    evictions_effect(start.upsert_judged(lock, upsert), remove, stable_id);
}

/// Whether every peer of `db` with the node number `id` has the stable id `stable_id`.
pub open spec fn is_only(db: DbView, id: NodeId, stable_id: Seq<char>) -> bool {
    forall|i: int|
        0 <= i < db.entries.len() && (#[trigger] db.entries[i]).node.id == id
            ==> db.entries[i].node.stable_id == stable_id
}

proof fn judged_keeps_only(
    t: Touched,
    lock: Option<AuthorityView>,
    nodes: Seq<NodeView>,
    id: NodeId,
    stable_id: Seq<char>,
)
    requires
        t.peers.db.wf(),
        t.peers.db.next_id + nodes.len() <= u64::MAX,
        is_only(t.peers.db, id, stable_id),
        forall|j: int|
            0 <= j < nodes.len() && (#[trigger] nodes[j]).id == id ==> nodes[j].stable_id
                == stable_id,
    ensures
        is_only(t.upsert_judged(lock, nodes).peers.db, id, stable_id),
        t.upsert_judged(lock, nodes).peers.db.wf(),
    decreases nodes.len(),
{
    judged_effect(t, lock, nodes, stable_id);
    if nodes.len() > 0 {
        let short = nodes.drop_last();
        let node = nodes.last();
        assert forall|j: int| 0 <= j < short.len() && (#[trigger] short[j]).id
            == id implies short[j].stable_id == stable_id by {
            assert(nodes[j] == short[j]);
        }
        judged_keeps_only(t, lock, short, id, stable_id);
        judged_effect(t, lock, short, stable_id);
        let mid = t.upsert_judged(lock, short);
        let db = mid.peers.db;
        let out = t.upsert_judged(lock, nodes).peers.db;
        assert(nodes[nodes.len() - 1] == node);
        if verdict(lock, node).admitted {
            from_control_shape(mid.peers, node);
            let at = slot_of(db, node);
            stable_id_found(db, node.stable_id);
            assert forall|i: int| 0 <= i < out.entries.len() && (#[trigger] out.entries[i]).node.id
                == id implies out.entries[i].node.stable_id == stable_id by {
                if i != at {
                    assert(out.entries[i] == db.entries[i]);
                }
            }
        } else {
            evicting_keeps_only(mid, KeyView::StableId(node.stable_id), id, stable_id);
        }
    }
}

proof fn evicting_keeps_only(t: Touched, key: KeyView, id: NodeId, stable_id: Seq<char>)
    requires
        is_only(t.peers.db, id, stable_id),
    ensures
        is_only(t.evict(key).peers.db, id, stable_id),
{
    let db = t.peers.db;
    let out = t.evict(key).peers.db;
    let p = |i: int| key.selects(db.entries[i]);
    first_where_is_first(p, db.entries.len() as int);
    match db.index_of(key) {
        Some(at) => {
            assert forall|j: int| 0 <= j < out.entries.len() && (#[trigger] out.entries[j]).node.id
                == id implies out.entries[j].node.stable_id == stable_id by {
                let m = if j < at {
                    j
                } else {
                    j + 1
                };
                assert(out.entries[j] == db.entries[m]);
            }
        },
        None => {},
    }
}

proof fn evictions_remove(t: Touched, ids: Seq<NodeId>, id: NodeId, stable_id: Seq<char>)
    requires
        t.peers.db.wf(),
        is_only(t.peers.db, id, stable_id),
    ensures
        t.evict_ids(ids).peers.db.wf(),
        is_only(t.evict_ids(ids).peers.db, id, stable_id),
        ids.contains(id) ==> forall|i: int|
            0 <= i < t.evict_ids(ids).peers.db.entries.len() ==> (
            #[trigger] t.evict_ids(ids).peers.db.entries[i]).node.id != id,
    decreases ids.len(),
{
    if ids.len() > 0 {
        let short = ids.drop_last();
        let mid = t.evict_ids(short);
        evictions_remove(t, short, id, stable_id);
        let key = KeyView::NodeId(ids.last());
        one_eviction(mid, key, stable_id);
        evicting_keeps_only(mid, key, id, stable_id);
        let db = mid.peers.db;
        let out = t.evict_ids(ids).peers.db;
        let p = |i: int| key.selects(db.entries[i]);
        first_where_is_first(p, db.entries.len() as int);
        if ids.contains(id) {
            assert forall|j: int| 0 <= j < out.entries.len() implies (
            #[trigger] out.entries[j]).node.id != id by {
                if short.contains(id) {
                    match db.index_of(key) {
                        Some(at) => {
                            let m = if j < at {
                                j
                            } else {
                                j + 1
                            };
                            assert(out.entries[j] == db.entries[m]);
                        },
                        None => {},
                    }
                } else {
                    let k = choose|k: int| 0 <= k < ids.len() && ids[k] == id;
                    if k < short.len() {
                        assert(short[k] == id);
                    }
                    assert(ids.last() == id);
                    match db.index_of(key) {
                        Some(at) => {
                            assert(p(at));
                            let m = if j < at {
                                j
                            } else {
                                j + 1
                            };
                            assert(out.entries[j] == db.entries[m]);
                            if out.entries[j].node.id == id {
                                assert(db.entries[m].node.stable_id
                                    == db.entries[at].node.stable_id);
                                if m < at {
                                    assert(db.entries[m].node.stable_id
                                        != db.entries[at].node.stable_id);
                                } else {
                                    assert(db.entries[at].node.stable_id
                                        != db.entries[m].node.stable_id);
                                }
                            }
                        },
                        None => {
                            assert(!p(j));
                        },
                    }
                }
            }
        }
    }
}

/// A node that a delta removes is gone, even where the same delta sends it, as long as no two nodes
/// share its number.
pub proof fn a_delta_drops_what_it_removes(
    p: PeersView,
    lock: Option<AuthorityView>,
    upsert: Seq<NodeView>,
    remove: Seq<NodeId>,
    id: NodeId,
    stable_id: Seq<char>,
)
    requires
        p.db.wf(),
        p.db.next_id + upsert.len() <= u64::MAX,
        remove.contains(id),
        is_only(p.db, id, stable_id),
        forall|j: int|
            0 <= j < upsert.len() && (#[trigger] upsert[j]).id == id ==> upsert[j].stable_id
                == stable_id,
    ensures
        !after_delta(p, lock, upsert, remove).peers.db.has(KeyView::NodeId(id)),
{
    let start = Touched::start(p);
    judged_keeps_only(start, lock, upsert, id, stable_id);
    let mid = start.upsert_judged(lock, upsert);
    evictions_remove(mid, remove, id, stable_id);
    let out = mid.evict_ids(remove).peers.db;
    let key = KeyView::NodeId(id);
    let q = |j: int| key.selects(out.entries[j]);
    first_where_none(q, out.entries.len() as int);
}

proof fn kept_effect(t: Touched, nodes: Seq<NodeView>, keep: Seq<bool>, stable_id: Seq<char>)
    requires
        t.peers.db.wf(),
        t.peers.db.next_id + nodes.len() <= u64::MAX,
    ensures
        ({
            let db = t.peers.db;
            let out = t.upsert_kept(nodes, keep).peers.db;
            let found = out.find(KeyView::StableId(stable_id));
            let before = db.find(KeyView::StableId(stable_id));
            &&& out.wf()
            &&& out.next_id <= db.next_id + nodes.len()
            &&& before is Some ==> found is Some && found->0.id == before->0.id
            &&& (forall|j: int|
                0 <= j < nodes.len() && keep[j] ==> (#[trigger] nodes[j]).stable_id != stable_id)
                ==> found == before
            &&& forall|k: int|
                0 <= k < nodes.len() && keep[k] && (#[trigger] nodes[k]).stable_id == stable_id && (
                forall|j: int|
                    k < j < nodes.len() && keep[j] ==> (#[trigger] nodes[j]).stable_id != stable_id)
                    ==> found is Some && is_as_sent(nodes[k], found->0.node)
        }),
    decreases nodes.len(),
{
    if nodes.len() > 0 {
        let short = nodes.drop_last();
        let n = nodes.len() - 1;
        let node = nodes.last();
        let mid = t.upsert_kept(short, keep);
        kept_effect(t, short, keep, stable_id);
        if keep[n] {
            one_upsert(mid, node, stable_id);
        }
        assert(nodes[n] == node);
        let found = t.upsert_kept(nodes, keep).peers.db.find(KeyView::StableId(stable_id));
        if forall|j: int|
            0 <= j < nodes.len() && keep[j] ==> (#[trigger] nodes[j]).stable_id != stable_id {
            assert forall|j: int| 0 <= j < short.len() && keep[j] implies (
            #[trigger] short[j]).stable_id != stable_id by {
                assert(nodes[j] == short[j]);
            }
            assert(keep[n] ==> nodes[n].stable_id != stable_id);
        }
        assert forall|k: int|
            0 <= k < nodes.len() && keep[k] && (#[trigger] nodes[k]).stable_id == stable_id && (
            forall|j: int|
                k < j < nodes.len() && keep[j] ==> (#[trigger] nodes[j]).stable_id
                    != stable_id) implies found is Some && is_as_sent(nodes[k], found->0.node) by {
            if k < n {
                assert(short[k] == nodes[k]);
                assert forall|j: int| k < j < short.len() && keep[j] implies (
                #[trigger] short[j]).stable_id != stable_id by {
                    assert(nodes[j] == short[j]);
                }
                assert(keep[n] ==> nodes[n].stable_id != stable_id);
            }
        }
    }
}

proof fn flagged_have_the_flag(entries: Seq<EntryView>, flags: Seq<bool>, want: bool, k: int) -> (i:
    int)
    requires
        0 <= k < flagged(entries, flags, want).len(),
    ensures
        0 <= i < entries.len(),
        flags[i] == want,
        entries[i] == flagged(entries, flags, want)[k],
    decreases entries.len(),
{
    let short = entries.drop_last();
    if k < flagged(short, flags, want).len() {
        flagged_have_the_flag(short, flags, want, k)
    } else {
        entries.len() - 1
    }
}

proof fn keeping_by_stable_id(db: DbView, flags: Seq<bool>, stable_id: Seq<char>)
    requires
        db.wf(),
        flags.len() == db.entries.len(),
    ensures
        db.keep(flags).wf(),
        match db.index_of(KeyView::StableId(stable_id)) {
            Some(i) => 0 <= i < db.entries.len() && db.keep(flags).find(
                KeyView::StableId(stable_id),
            ) == (if flags[i] {
                Some(db.entries[i])
            } else {
                None
            }),
            None => db.keep(flags).find(KeyView::StableId(stable_id)) is None,
        },
{
    keep_is_wf(db, flags);
    flagged_elements(db.entries, flags, true);
    let out = db.keep(flags);
    stable_id_found(db, stable_id);
    stable_id_found(out, stable_id);
    match db.index_of(KeyView::StableId(stable_id)) {
        Some(i) => {
            if flags[i] {
                let m = choose|m: int|
                    0 <= m < out.entries.len() && out.entries[m] == db.entries[i];
                stable_id_at(out, stable_id, m);
            } else {
                match out.index_of(KeyView::StableId(stable_id)) {
                    Some(m) => {
                        let j = flagged_have_the_flag(db.entries, flags, true, m);
                        if j < i {
                            assert(db.entries[j].node.stable_id != db.entries[i].node.stable_id);
                        } else if i < j {
                            assert(db.entries[i].node.stable_id != db.entries[j].node.stable_id);
                        }
                    },
                    None => {},
                }
            }
        },
        None => {
            match out.index_of(KeyView::StableId(stable_id)) {
                Some(m) => {
                    let j = flagged_have_the_flag(db.entries, flags, true, m);
                    assert(db.entries[j].node.stable_id == stable_id);
                },
                None => {},
            }
        },
    }
}

/// A full list is what is stored afterwards: each node on it that is kept, as it was sent in every
/// field but the disco key; of several with one stable id the last.
pub proof fn a_full_list_stores_what_was_sent(
    p: PeersView,
    lock: Option<AuthorityView>,
    nodes: Seq<NodeView>,
    k: int,
)
    requires
        p.db.wf(),
        p.db.next_id + nodes.len() <= u64::MAX,
        0 <= k < nodes.len(),
        kept(lock, nodes)[k],
        forall|j: int|
            k < j < nodes.len() && (#[trigger] nodes[j]).stable_id == nodes[k].stable_id ==> !kept(
                lock,
                nodes,
            )[j],
    ensures
        match after_full(p, lock, nodes).peers.db.find(KeyView::StableId(nodes[k].stable_id)) {
            Some(entry) => is_as_sent(nodes[k], entry.node),
            None => false,
        },
{
    let keep = kept(lock, nodes);
    let flags = retain_flags(p.db.entries, nodes, keep);
    let start = Touched {
        peers: PeersView { db: p.db.keep(flags), disco: p.disco },
        upserts: Set::empty(),
        deletions: dropped_ids(p.db.entries, flags),
    };
    keeping_by_stable_id(p.db, flags, nodes[k].stable_id);
    kept_effect(start, nodes, keep, nodes[k].stable_id);
}

/// A peer that is not on a full list, or only in entries that are not kept, is gone after it.
pub proof fn a_full_list_drops_everybody_else(
    p: PeersView,
    lock: Option<AuthorityView>,
    nodes: Seq<NodeView>,
    stable_id: Seq<char>,
)
    requires
        p.db.wf(),
        p.db.next_id + nodes.len() <= u64::MAX,
        forall|j: int|
            0 <= j < nodes.len() && (#[trigger] nodes[j]).stable_id == stable_id ==> !kept(
                lock,
                nodes,
            )[j],
    ensures
        !after_full(p, lock, nodes).peers.db.has(KeyView::StableId(stable_id)),
{
    let keep = kept(lock, nodes);
    let flags = retain_flags(p.db.entries, nodes, keep);
    let start = Touched {
        peers: PeersView { db: p.db.keep(flags), disco: p.disco },
        upserts: Set::empty(),
        deletions: dropped_ids(p.db.entries, flags),
    };
    keeping_by_stable_id(p.db, flags, stable_id);
    stable_id_found(p.db, stable_id);
    assert(!retained(nodes, keep, stable_id));
    kept_effect(start, nodes, keep, stable_id);
}

/// A peer that is on a full list again stays the same peer, under the same number.
pub proof fn a_full_list_keeps_the_numbers(
    p: PeersView,
    lock: Option<AuthorityView>,
    nodes: Seq<NodeView>,
    i: int,
    k: int,
)
    requires
        p.db.wf(),
        p.db.next_id + nodes.len() <= u64::MAX,
        0 <= i < p.db.entries.len(),
        0 <= k < nodes.len(),
        kept(lock, nodes)[k],
        nodes[k].stable_id == p.db.entries[i].node.stable_id,
    ensures
        match after_full(p, lock, nodes).peers.db.find(KeyView::StableId(nodes[k].stable_id)) {
            Some(entry) => entry.id == p.db.entries[i].id,
            None => false,
        },
{
    let keep = kept(lock, nodes);
    let flags = retain_flags(p.db.entries, nodes, keep);
    let start = Touched {
        peers: PeersView { db: p.db.keep(flags), disco: p.disco },
        upserts: Set::empty(),
        deletions: dropped_ids(p.db.entries, flags),
    };
    stable_id_at(p.db, nodes[k].stable_id, i);
    keeping_by_stable_id(p.db, flags, nodes[k].stable_id);
    assert(retained(nodes, keep, nodes[k].stable_id));
    kept_effect(start, nodes, keep, nodes[k].stable_id);
}

/// When the lock changes, a stored peer that is kept under it stays exactly as it is; one that is
/// not is gone, and told as dropped. Without a lock everybody stays.
pub proof fn a_new_lock_drops_whom_it_does_not_keep(
    p: PeersView,
    lock: Option<AuthorityView>,
    i: int,
)
    requires
        p.db.wf(),
        0 <= i < p.db.entries.len(),
    ensures
        ({
            let stays = lock is None || kept(
                lock,
                p.db.entries.map_values(|e: EntryView| e.node),
            )[i];
            let (after, gone) = reevaluated(p, lock);
            let entry = p.db.entries[i];
            &&& after.db.find(KeyView::StableId(entry.node.stable_id)) == (if stays {
                Some(entry)
            } else {
                None
            })
            &&& gone.contains(entry.id) == !stays
        }),
{
    let nodes = stored_nodes(p.db.entries);
    assert(nodes =~= p.db.entries.map_values(|e: EntryView| e.node));
    let flags = kept(lock, nodes);
    let entry = p.db.entries[i];
    stable_id_at(p.db, entry.node.stable_id, i);
    keeping_by_stable_id(p.db, flags, entry.node.stable_id);
    flagged_elements(p.db.entries, flags, false);
    let out = flagged(p.db.entries, flags, false);
    let ids = out.map_values(|e: EntryView| e.id);
    let gone = dropped_ids(p.db.entries, flags);
    if !flags[i] {
        let k = choose|k: int| 0 <= k < out.len() && out[k] == entry;
        assert(ids[k] == entry.id);
        assert(gone.contains(entry.id));
    } else if gone.contains(entry.id) {
        let k = choose|k: int| 0 <= k < ids.len() && ids[k] == entry.id;
        let j = flagged_have_the_flag(p.db.entries, flags, false, k);
        if j < i {
            assert(p.db.entries[j].id != p.db.entries[i].id);
        } else if i < j {
            assert(p.db.entries[i].id != p.db.entries[j].id);
        }
    }
}

/// A change of the lock brings in nobody.
pub proof fn a_new_lock_makes_nobody(
    p: PeersView,
    lock: Option<AuthorityView>,
    stable_id: Seq<char>,
)
    requires
        p.db.wf(),
        !p.db.has(KeyView::StableId(stable_id)),
    ensures
        !reevaluated(p, lock).0.db.has(KeyView::StableId(stable_id)),
{
    let flags = kept(lock, stored_nodes(p.db.entries));
    stable_id_found(p.db, stable_id);
    keeping_by_stable_id(p.db, flags, stable_id);
}

/// A delta of one node names its peer and nobody else: as stored where the lock admits it, and,
/// where it does not, as dropped if it was stored.
pub proof fn a_sent_node_names_its_peer_alone(
    p: PeersView,
    lock: Option<AuthorityView>,
    node: NodeView,
)
    requires
        p.db.wf(),
        p.db.next_id < u64::MAX,
    ensures
        ({
            let after = after_delta(p, lock, seq![node], Seq::empty());
            let before = p.db.find(KeyView::StableId(node.stable_id));
            let found = after.peers.db.find(KeyView::StableId(node.stable_id));
            let admitted = verdict(lock, node).admitted;
            &&& forall|id: PeerId| #[trigger]
                after.upserts.contains(id) <==> admitted && found is Some && id == found->0.id
            &&& forall|id: PeerId| #[trigger]
                after.deletions.contains(id) <==> !admitted && before is Some && id == before->0.id
        }),
{
    let one = seq![node];
    let start = Touched::start(p);
    assert(one.drop_last() =~= Seq::<NodeView>::empty());
    assert(start.upsert_judged(lock, one.drop_last()) == start);
    if verdict(lock, node).admitted {
        assert(start.upsert_judged(lock, one) == start.upsert(node));
        one_upsert(start, node, node.stable_id);
    } else {
        assert(start.upsert_judged(lock, one) == start.evict(KeyView::StableId(node.stable_id)));
        one_eviction(start, KeyView::StableId(node.stable_id), node.stable_id);
    }
}

/// Whether `id` is the number of a kept one of the first `n` nodes in `db`.
pub open spec fn is_of_kept(
    db: DbView,
    nodes: Seq<NodeView>,
    keep: Seq<bool>,
    n: int,
    id: PeerId,
) -> bool {
    exists|k: int|
        0 <= k < n && keep[k] && db.has(KeyView::StableId((#[trigger] nodes[k]).stable_id))
            && db.find(KeyView::StableId(nodes[k].stable_id))->0.id == id
}

proof fn kept_are_named(t: Touched, nodes: Seq<NodeView>, keep: Seq<bool>)
    requires
        t.peers.db.wf(),
        t.peers.db.next_id + nodes.len() <= u64::MAX,
        t.upserts == Set::<PeerId>::empty(),
    ensures
        forall|id: PeerId| #[trigger]
            t.upsert_kept(nodes, keep).upserts.contains(id) <==> is_of_kept(
                t.upsert_kept(nodes, keep).peers.db,
                nodes,
                keep,
                nodes.len() as int,
                id,
            ),
        t.upsert_kept(nodes, keep).deletions == t.deletions,
    decreases nodes.len(),
{
    let after = t.upsert_kept(nodes, keep);
    let out = after.peers.db;
    if nodes.len() > 0 {
        let short = nodes.drop_last();
        let n = nodes.len() - 1;
        let node = nodes.last();
        let mid = t.upsert_kept(short, keep);
        kept_are_named(t, short, keep);
        kept_effect(t, short, keep, node.stable_id);
        assert(nodes[n] == node);
        if keep[n] {
            one_upsert(mid, node, node.stable_id);
        }
        assert forall|id: PeerId| #[trigger] after.upserts.contains(id) <==> is_of_kept(
            out,
            nodes,
            keep,
            nodes.len() as int,
            id,
        ) by {
            if after.upserts.contains(id) {
                if mid.upserts.contains(id) {
                    let k = choose|k: int|
                        0 <= k < short.len() && keep[k] && mid.peers.db.has(
                            KeyView::StableId((#[trigger] short[k]).stable_id),
                        ) && mid.peers.db.find(KeyView::StableId(short[k].stable_id))->0.id == id;
                    assert(nodes[k] == short[k]);
                    if keep[n] {
                        one_upsert(mid, node, nodes[k].stable_id);
                    }
                    assert(out.has(KeyView::StableId(nodes[k].stable_id)));
                } else {
                    assert(keep[n]);
                    assert(out.has(KeyView::StableId(nodes[n].stable_id)));
                }
            }
            if is_of_kept(out, nodes, keep, nodes.len() as int, id) {
                let k = choose|k: int|
                    0 <= k < nodes.len() && keep[k] && out.has(
                        KeyView::StableId((#[trigger] nodes[k]).stable_id),
                    ) && out.find(KeyView::StableId(nodes[k].stable_id))->0.id == id;
                if k < n {
                    assert(short[k] == nodes[k]);
                    kept_effect(t, short, keep, nodes[k].stable_id);
                    one_is_stored(t, short, keep, k);
                    if keep[n] {
                        one_upsert(mid, node, nodes[k].stable_id);
                    }
                    assert(is_of_kept(mid.peers.db, short, keep, short.len() as int, id));
                }
            }
        }
    } else {
        assert forall|id: PeerId| #[trigger] after.upserts.contains(id) <==> is_of_kept(
            out,
            nodes,
            keep,
            nodes.len() as int,
            id,
        ) by {}
    }
}

proof fn one_is_stored(t: Touched, nodes: Seq<NodeView>, keep: Seq<bool>, k: int)
    requires
        t.peers.db.wf(),
        t.peers.db.next_id + nodes.len() <= u64::MAX,
        0 <= k < nodes.len(),
        keep[k],
    ensures
        t.upsert_kept(nodes, keep).peers.db.has(KeyView::StableId(nodes[k].stable_id)),
    decreases nodes.len(),
{
    let short = nodes.drop_last();
    let mid = t.upsert_kept(short, keep);
    kept_effect(t, short, keep, nodes[k].stable_id);
    if keep[nodes.len() - 1] {
        one_upsert(mid, nodes.last(), nodes[k].stable_id);
    }
    if k < short.len() {
        assert(short[k] == nodes[k]);
        one_is_stored(t, short, keep, k);
    }
}

/// A full list names as stored exactly the peers of the nodes on it that are kept.
pub proof fn a_full_list_names_the_kept(
    p: PeersView,
    lock: Option<AuthorityView>,
    nodes: Seq<NodeView>,
    id: PeerId,
)
    requires
        p.db.wf(),
        p.db.next_id + nodes.len() <= u64::MAX,
    ensures
        after_full(p, lock, nodes).upserts.contains(id) <==> is_of_kept(
            after_full(p, lock, nodes).peers.db,
            nodes,
            kept(lock, nodes),
            nodes.len() as int,
            id,
        ),
{
    let keep = kept(lock, nodes);
    let flags = retain_flags(p.db.entries, nodes, keep);
    let start = Touched {
        peers: PeersView { db: p.db.keep(flags), disco: p.disco },
        upserts: Set::empty(),
        deletions: dropped_ids(p.db.entries, flags),
    };
    keep_is_wf(p.db, flags);
    kept_are_named(start, nodes, keep);
}

} // verus!
