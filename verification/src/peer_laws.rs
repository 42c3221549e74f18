//! What holds of the stored peers, whatever control and the peers send.

use vstd::prelude::*;

use crate::endpoint_disco::{meant, EndpointDisco};
use crate::node::{DiscoKey, NodeId, NodeKey, NodeView, PeerId, Timestamp};
use crate::peer_db::{
    flagged, flagged_elements, found_by_stable_id, keep_is_wf, remove_is_wf, set_inactive_is_wf,
    upsert_is_wf, DbView, EntryView, KeyView,
};
use crate::peer_tracker::{
    after_delta, after_full, after_liveness, after_patches, dropped_ids, merged, online_steps,
    reevaluated, retain_flags, retained, seen_steps, stored_nodes, ChangeView, PeersView, Touched,
};
use crate::search::{first_where_is, first_where_is_first};
use crate::tailnet_lock::{
    judging_twice_drops_nobody, keeping, keeps, kept, obsolete_of, verdict, AuthorityView,
};

verus! {

/// Whether every stored peer is one that the lock admits.
pub open spec fn all_admitted(lock: Option<AuthorityView>, db: DbView) -> bool {
    forall|i: int|
        0 <= i < db.entries.len() ==> verdict(lock, (#[trigger] db.entries[i]).node).admitted
}

/// Where in the list `node` is stored.
pub open spec fn slot_of(db: DbView, node: NodeView) -> int {
    match db.index_of(KeyView::StableId(node.stable_id)) {
        Some(i) => i,
        None => db.entries.len() as int,
    }
}

/// The entry that `node` becomes with the disco keys `disco`.
pub open spec fn entry_for(db: DbView, node: NodeView, disco: EndpointDisco) -> EntryView {
    EntryView {
        id: db.upsert_id(node),
        node: PeersView::carrying(node, disco),
        inactive_disco_key: disco.other(),
    }
}

/// Storing a node puts its entry into its slot and leaves every other entry alone.
pub proof fn storing_fills_one_slot(p: PeersView, node: NodeView, disco: EndpointDisco)
    requires
        p.db.wf(),
        p.db.room_for(node),
    ensures
        p.store(node, disco).db.wf(),
        p.store(node, disco).disco == p.disco,
        0 <= slot_of(p.db, node) <= p.db.entries.len(),
        p.store(node, disco).db.entries == (if slot_of(p.db, node) < p.db.entries.len() {
            p.db.entries.update(slot_of(p.db, node), entry_for(p.db, node, disco))
        } else {
            p.db.entries.push(entry_for(p.db, node, disco))
        }),
{
    let n = PeersView::carrying(node, disco);
    let key = KeyView::StableId(node.stable_id);
    let w = |i: int| key.selects(p.db.entries[i]);
    first_where_is_first(w, p.db.entries.len() as int);
    upsert_is_wf(p.db, n);
    let mid = p.db.upsert(n);
    let id = p.db.upsert_id(n);
    let k = slot_of(p.db, node);
    set_inactive_is_wf(mid, id, disco.other());
    let sel = KeyView::Id(id);
    let q = |i: int| sel.selects(mid.entries[i]);
    assert(mid.entries[k].id == id);
    assert forall|j: int| 0 <= j < k implies !#[trigger] q(j) by {
        assert(mid.entries[j].id != mid.entries[k].id);
    }
    assert(q(k));
    first_where_is(q, mid.entries.len() as int, k);
    let after = p.store(node, disco).db;
    assert(after.entries[k] == entry_for(p.db, node, disco));
    if k < p.db.entries.len() {
        assert(after.entries =~= p.db.entries.update(k, entry_for(p.db, node, disco)));
    } else {
        assert(after.entries =~= p.db.entries.push(entry_for(p.db, node, disco)));
    }
}

/// A stored node is found by its stable id, reached under the active one of its disco keys, with
/// the other one registered.
pub proof fn the_stored_key_is_the_active_key(p: PeersView, node: NodeView, disco: EndpointDisco)
    requires
        p.db.wf(),
        p.db.room_for(node),
    ensures
        match p.store(node, disco).db.find(KeyView::StableId(node.stable_id)) {
            Some(entry) => entry.node == PeersView::carrying(node, disco) && entry.node.disco_key
                == disco.active() && entry.inactive_disco_key == disco.other(),
            None => false,
        },
{
    storing_fills_one_slot(p, node, disco);
    let key = KeyView::StableId(node.stable_id);
    let w = |i: int| key.selects(p.db.entries[i]);
    first_where_is_first(w, p.db.entries.len() as int);
    let after = p.store(node, disco).db;
    let k = slot_of(p.db, node);
    let q = |i: int| key.selects(after.entries[i]);
    assert(after.entries[k] == entry_for(p.db, node, disco));
    assert forall|j: int| 0 <= j < k implies !#[trigger] q(j) by {
        assert(after.entries[j] == p.db.entries[j]);
        assert(!w(j));
    }
    assert(q(k));
    first_where_is(q, after.entries.len() as int, k);
}

/// The peers that control sent something for are stored under the key that its disco state makes
/// active, and that state is on record.
pub proof fn control_stores_the_active_key(p: PeersView, node: NodeView)
    requires
        p.db.wf(),
        p.db.room_for(node),
    ensures
        p.from_control(node).disco_of(node.node_key).active() == p.resolved(node).active() || !p.resolved(
            node,
        ).has_key(),
        match p.from_control(node).db.find(KeyView::StableId(node.stable_id)) {
            Some(entry) => entry.node.disco_key == p.resolved(node).active(),
            None => false,
        },
{
    let d = p.resolved(node);
    let q = PeersView {
        db: p.db,
        disco: if d.has_key() {
            p.disco.insert(node.node_key, d)
        } else {
            p.disco.remove(node.node_key)
        },
    };
    the_stored_key_is_the_active_key(q, node, d);
}

/// Control saying again what it said before changes no disco key: a key that the peer advertised
/// in the meantime stays active.
pub proof fn restating_a_key_changes_nothing(p: PeersView, node: NodeView)
    requires
        p.db.wf(),
        p.db.room_for(node),
        p.disco_of(node.node_key).control == meant(node.disco_key),
    ensures
        p.resolved(node) == p.disco_of(node.node_key),
        match p.from_control(node).db.find(KeyView::StableId(node.stable_id)) {
            Some(entry) => entry.node.disco_key == p.disco_of(node.node_key).active(),
            None => false,
        },
{
    control_stores_the_active_key(p, node);
}

/// Control changing its mind is recorded, and does not preempt a key that the peer advertised.
pub proof fn an_advertised_key_survives_control(p: PeersView, node: NodeView)
    requires
        p.db.wf(),
        p.db.room_for(node),
        p.disco_of(node.node_key).tsmp_active,
        p.disco_of(node.node_key).tsmp is Some,
    ensures
        p.from_control(node).disco_of(node.node_key).control == meant(node.disco_key),
        match p.from_control(node).db.find(KeyView::StableId(node.stable_id)) {
            Some(entry) => entry.node.disco_key == p.disco_of(node.node_key).tsmp,
            None => false,
        },
{
    control_stores_the_active_key(p, node);
}

/// A key that a peer advertised is the one it is reached under from then on.
pub proof fn an_advertised_key_is_used(p: PeersView, id: PeerId, key: DiscoKey)
    requires
        p.db.wf(),
        p.advertised(id, key) is Some,
    ensures
        p.db.has(KeyView::Id(id)),
        match p.advertised(id, key)->0.db.find(
            KeyView::StableId(p.db.find(KeyView::Id(id))->0.node.stable_id),
        ) {
            Some(entry) => entry.node.disco_key == Some(key),
            None => false,
        },
        p.advertised(id, key)->0.db.entries.len() == p.db.entries.len(),
{
    let entry = p.db.find(KeyView::Id(id))->0;
    found_by_stable_id(p.db, KeyView::Id(id));
    let d = p.disco_of(entry.node.node_key).after_tsmp(Some(key));
    let q = PeersView { db: p.db, disco: p.disco.insert(entry.node.node_key, d) };
    the_stored_key_is_the_active_key(q, entry.node, d);
    storing_fills_one_slot(q, entry.node, d);
    first_where_is_first(
        |i: int| KeyView::StableId(entry.node.stable_id).selects(p.db.entries[i]),
        p.db.entries.len() as int,
    );
}

/// A key under which a frame was opened is used from then on where it is in one of the peer's
/// slots, and changes nothing where it is in neither.
pub proof fn only_known_keys_are_taken_up(p: PeersView, id: PeerId, key: DiscoKey)
    requires
        p.db.wf(),
    ensures
        p.observed(id, key) is Some ==> p.db.has(KeyView::Id(id)) && p.disco_of(
            p.db.find(KeyView::Id(id))->0.node.node_key,
        ).holds(key) && (match p.observed(id, key)->0.db.find(
            KeyView::StableId(p.db.find(KeyView::Id(id))->0.node.stable_id),
        ) {
            Some(entry) => entry.node.disco_key == Some(key),
            None => false,
        }),
{
    if p.observed(id, key) is Some {
        let entry = p.db.find(KeyView::Id(id))->0;
        found_by_stable_id(p.db, KeyView::Id(id));
        let d = p.disco_of(entry.node.node_key).switched(key);
        let q = PeersView { db: p.db, disco: p.disco.insert(entry.node.node_key, d) };
        the_stored_key_is_the_active_key(q, entry.node, d);
    }
}

/// After any update, every disco key on record belongs to the node key of a stored peer.
pub proof fn disco_keys_do_not_outlive_their_peer(t: Touched, key: NodeKey)
    requires
        t.pruned().peers.disco.dom().contains(key),
    ensures
        t.pruned().peers.db.has(KeyView::NodeKey(key)),
{
}

/// What control sends keeps the peers well formed, and uses at most one number.
pub proof fn from_control_shape(p: PeersView, node: NodeView)
    requires
        p.db.wf(),
        p.db.room_for(node),
    ensures
        p.from_control(node).db.wf(),
        p.from_control(node).db.next_id <= p.db.next_id + 1,
        0 <= slot_of(p.db, node) <= p.db.entries.len(),
        p.from_control(node).db.entries == (if slot_of(p.db, node) < p.db.entries.len() {
            p.db.entries.update(slot_of(p.db, node), entry_for(p.db, node, p.resolved(node)))
        } else {
            p.db.entries.push(entry_for(p.db, node, p.resolved(node)))
        }),
{
    let d = p.resolved(node);
    let q = PeersView {
        db: p.db,
        disco: if d.has_key() {
            p.disco.insert(node.node_key, d)
        } else {
            p.disco.remove(node.node_key)
        },
    };
    storing_fills_one_slot(q, node, d);
}

/// Whether a kept node from `from` on has the stable id `stable_id`.
spec fn still_to_come(
    nodes: Seq<NodeView>,
    keep: Seq<bool>,
    from: int,
    stable_id: Seq<char>,
) -> bool {
    exists|k: int|
        from <= k < nodes.len() && keep[k] && (#[trigger] nodes[k]).stable_id == stable_id
}

proof fn full_prefix(
    start: Touched,
    lock: Option<AuthorityView>,
    nodes: Seq<NodeView>,
    n: int,
)
    requires
        0 <= n <= nodes.len(),
        start.peers.db.wf(),
        start.peers.db.next_id + nodes.len() <= u64::MAX,
        forall|i: int|
            0 <= i < start.peers.db.entries.len() ==> retained(
                nodes,
                kept(lock, nodes),
                (#[trigger] start.peers.db.entries[i]).node.stable_id,
            ),
    ensures
        ({
            let db = start.upsert_kept(nodes.take(n), kept(lock, nodes)).peers.db;
            &&& db.wf()
            &&& db.next_id + (nodes.len() - n) <= u64::MAX
            &&& forall|i: int|
                0 <= i < db.entries.len() ==> retained(
                    nodes,
                    kept(lock, nodes),
                    (#[trigger] db.entries[i]).node.stable_id,
                ) && (verdict(lock, db.entries[i].node).admitted || still_to_come(
                    nodes,
                    kept(lock, nodes),
                    n,
                    db.entries[i].node.stable_id,
                ))
            &&& forall|k: int|
                0 <= k < n && kept(lock, nodes)[k] ==> db.has(
                    KeyView::StableId((#[trigger] nodes[k]).stable_id),
                )
        }),
    decreases n,
{
    let keep = kept(lock, nodes);
    if n == 0 {
        assert(nodes.take(0) =~= Seq::<NodeView>::empty());
        let db = start.peers.db;
        assert forall|i: int| 0 <= i < db.entries.len() implies still_to_come(
            nodes,
            keep,
            0,
            (#[trigger] db.entries[i]).node.stable_id,
        ) by {
            let s = db.entries[i].node.stable_id;
            assert(retained(nodes, keep, s));
            let k = choose|k: int|
                0 <= k < nodes.len() && keep[k] && (#[trigger] nodes[k]).stable_id == s;
            assert(nodes[k].stable_id == s);
        }
    } else {
        full_prefix(start, lock, nodes, n - 1);
        assert(nodes.take(n).drop_last() =~= nodes.take(n - 1));
        let before = start.upsert_kept(nodes.take(n - 1), keep);
        let after = start.upsert_kept(nodes.take(n), keep);
        let db = before.peers.db;
        let node = nodes[n - 1];
        if keep[n - 1] {
            assert(verdict(lock, node).admitted);
            from_control_shape(before.peers, node);
            let out = after.peers.db;
            let at = slot_of(db, node);
            let key = KeyView::StableId(node.stable_id);
            let w = |i: int| key.selects(db.entries[i]);
            first_where_is_first(w, db.entries.len() as int);
            let e = entry_for(db, node, before.peers.resolved(node));
            assert(out.entries[at] == e);
            assert forall|i: int| 0 <= i < out.entries.len() implies retained(
                nodes,
                keep,
                (#[trigger] out.entries[i]).node.stable_id,
            ) && (verdict(lock, out.entries[i].node).admitted || still_to_come(
                nodes,
                keep,
                n,
                out.entries[i].node.stable_id,
            )) by {
                if i == at {
                    assert(nodes[n - 1].stable_id == e.node.stable_id);
                    assert(verdict(lock, e.node) == verdict(lock, node));
                } else {
                    assert(out.entries[i] == db.entries[i]);
                    if !verdict(lock, db.entries[i].node).admitted {
                        let s = db.entries[i].node.stable_id;
                        let k = choose|k: int|
                            n - 1 <= k < nodes.len() && keep[k] && (
                            #[trigger] nodes[k]).stable_id == s;
                        if k == n - 1 {
                            assert(s == node.stable_id);
                            if at < db.entries.len() {
                                assert(w(at));
                                if i < at {
                                    assert(db.entries[i].node.stable_id
                                        != db.entries[at].node.stable_id);
                                } else {
                                    assert(db.entries[at].node.stable_id
                                        != db.entries[i].node.stable_id);
                                }
                            } else {
                                assert(!w(i));
                            }
                        }
                        assert(nodes[k].stable_id == s);
                    }
                }
            }
            assert forall|k: int| 0 <= k < n && keep[k] implies out.has(
                KeyView::StableId((#[trigger] nodes[k]).stable_id),
            ) by {
                let want = KeyView::StableId(nodes[k].stable_id);
                let q = |i: int| want.selects(out.entries[i]);
                first_where_is_first(q, out.entries.len() as int);
                if nodes[k].stable_id == node.stable_id {
                    assert(q(at));
                } else {
                    let b = |i: int| want.selects(db.entries[i]);
                    first_where_is_first(b, db.entries.len() as int);
                    assert(db.has(want));
                    let j = db.index_of(want)->0;
                    assert(b(j));
                    if at < db.entries.len() {
                        assert(w(at));
                    }
                    assert(j != at);
                    assert(q(j));
                }
            }
        } else {
            assert forall|i: int| 0 <= i < db.entries.len() && !verdict(
                lock,
                (#[trigger] db.entries[i]).node,
            ).admitted implies still_to_come(nodes, keep, n, db.entries[i].node.stable_id) by {
                let s = db.entries[i].node.stable_id;
                let k = choose|k: int|
                    n - 1 <= k < nodes.len() && keep[k] && (#[trigger] nodes[k]).stable_id == s;
                assert(nodes[k].stable_id == s);
            }
        }
    }
}

proof fn full_start_is_retained(
    db: DbView,
    nodes: Seq<NodeView>,
    keep: Seq<bool>,
)
    requires
        db.wf(),
    ensures
        db.keep(retain_flags(db.entries, nodes, keep)).wf(),
        forall|i: int|
            0 <= i < db.keep(retain_flags(db.entries, nodes, keep)).entries.len() ==> retained(
                nodes,
                keep,
                (#[trigger] db.keep(retain_flags(db.entries, nodes, keep)).entries[i]).node.stable_id,
            ),
{
    let flags = retain_flags(db.entries, nodes, keep);
    keep_is_wf(db, flags);
    kept_are_flagged(db.entries, flags);
    let out = db.keep(flags).entries;
    assert forall|i: int| 0 <= i < out.len() implies retained(
        nodes,
        keep,
        (#[trigger] out[i]).node.stable_id,
    ) by {
        let k = choose|k: int| 0 <= k < db.entries.len() && flags[k] && db.entries[k] == out[i];
        assert(flags[k] == retained(nodes, keep, db.entries[k].node.stable_id));
    }
}

/// Every entry that is kept had its flag set.
proof fn kept_are_flagged(entries: Seq<EntryView>, flags: Seq<bool>)
    ensures
        forall|i: int|
            #![trigger flagged(entries, flags, true)[i]]
            0 <= i < flagged(entries, flags, true).len() ==> exists|k: int|
                0 <= k < entries.len() && flags[k] && entries[k] == flagged(entries, flags, true)[i],
    decreases entries.len(),
{
    if entries.len() > 0 {
        let short = entries.drop_last();
        kept_are_flagged(short, flags);
        let out = flagged(entries, flags, true);
        let before = flagged(short, flags, true);
        assert forall|i: int|
            #![trigger out[i]]
            0 <= i < out.len() implies exists|k: int|
            0 <= k < entries.len() && flags[k] && entries[k] == out[i] by {
            if i < before.len() {
                assert(out[i] == before[i]);
                let k = choose|k: int| 0 <= k < short.len() && flags[k] && short[k] == before[i];
                assert(entries[k] == out[i]);
            } else {
                assert(entries[entries.len() - 1] == out[i]);
            }
        }
    }
}

/// The lock is a chokepoint for a full update: whoever was stored before, every peer that is
/// stored after it is one that the lock admits, and the stable ids that are stored are exactly
/// those of the kept nodes.
pub proof fn a_full_update_stores_the_kept_nodes(
    p: PeersView,
    lock: Option<AuthorityView>,
    nodes: Seq<NodeView>,
    stable_id: Seq<char>,
)
    requires
        p.db.wf(),
        p.db.next_id + nodes.len() <= u64::MAX,
    ensures
        after_full(p, lock, nodes).peers.db.wf(),
        all_admitted(lock, after_full(p, lock, nodes).peers.db),
        after_full(p, lock, nodes).peers.db.has(KeyView::StableId(stable_id)) <==> retained(
            nodes,
            kept(lock, nodes),
            stable_id,
        ),
{
    let keep = kept(lock, nodes);
    let flags = retain_flags(p.db.entries, nodes, keep);
    let start = Touched {
        peers: PeersView { db: p.db.keep(flags), disco: p.disco },
        upserts: Set::empty(),
        deletions: dropped_ids(p.db.entries, flags),
    };
    full_start_is_retained(p.db, nodes, keep);
    full_prefix(start, lock, nodes, nodes.len() as int);
    assert(nodes.take(nodes.len() as int) =~= nodes);
    let db = start.upsert_kept(nodes, keep).peers.db;
    assert forall|i: int| 0 <= i < db.entries.len() implies verdict(
        lock,
        (#[trigger] db.entries[i]).node,
    ).admitted by {
        assert(!still_to_come(nodes, keep, nodes.len() as int, db.entries[i].node.stable_id));
    }
    let key = KeyView::StableId(stable_id);
    let q = |i: int| key.selects(db.entries[i]);
    first_where_is_first(q, db.entries.len() as int);
    if db.has(key) {
        let i = db.index_of(key)->0;
        assert(q(i));
        assert(retained(nodes, keep, db.entries[i].node.stable_id));
    }
    if retained(nodes, keep, stable_id) {
        let k = choose|k: int|
            0 <= k < nodes.len() && keep[k] && (#[trigger] nodes[k]).stable_id == stable_id;
        assert(db.has(KeyView::StableId(nodes[k].stable_id)));
    }
}

proof fn upsert_keeps_admitted(p: PeersView, lock: Option<AuthorityView>, node: NodeView)
    requires
        p.db.wf(),
        p.db.room_for(node),
        all_admitted(lock, p.db),
        verdict(lock, node).admitted,
    ensures
        all_admitted(lock, p.from_control(node).db),
        p.from_control(node).db.wf(),
        p.from_control(node).db.next_id <= p.db.next_id + 1,
{
    from_control_shape(p, node);
    let out = p.from_control(node).db;
    let at = slot_of(p.db, node);
    let e = entry_for(p.db, node, p.resolved(node));
    assert(verdict(lock, e.node) == verdict(lock, node));
    assert forall|i: int| 0 <= i < out.entries.len() implies verdict(
        lock,
        (#[trigger] out.entries[i]).node,
    ).admitted by {
        if i == at {
            assert(out.entries[i] == e);
        } else {
            assert(out.entries[i] == p.db.entries[i]);
        }
    }
}

proof fn remove_keeps_admitted(lock: Option<AuthorityView>, db: DbView, key: KeyView)
    requires
        db.wf(),
        all_admitted(lock, db),
    ensures
        all_admitted(lock, db.remove(key)),
        db.remove(key).wf(),
        db.remove(key).next_id == db.next_id,
{
    remove_is_wf(db, key);
    let w = |i: int| key.selects(db.entries[i]);
    first_where_is_first(w, db.entries.len() as int);
    match db.index_of(key) {
        Some(k) => {
            let out = db.remove(key);
            assert forall|i: int| 0 <= i < out.entries.len() implies verdict(
                lock,
                (#[trigger] out.entries[i]).node,
            ).admitted by {
                let a = if i < k {
                    i
                } else {
                    i + 1
                };
                assert(out.entries[i] == db.entries[a]);
            }
        },
        None => {},
    }
}

proof fn judged_keeps_admitted(t: Touched, lock: Option<AuthorityView>, nodes: Seq<NodeView>)
    requires
        t.peers.db.wf(),
        t.peers.db.next_id + nodes.len() <= u64::MAX,
        all_admitted(lock, t.peers.db),
    ensures
        all_admitted(lock, t.upsert_judged(lock, nodes).peers.db),
        t.upsert_judged(lock, nodes).peers.db.wf(),
        t.upsert_judged(lock, nodes).peers.db.next_id <= t.peers.db.next_id + nodes.len(),
    decreases nodes.len(),
{
    if nodes.len() > 0 {
        judged_keeps_admitted(t, lock, nodes.drop_last());
        let before = t.upsert_judged(lock, nodes.drop_last());
        let node = nodes.last();
        if verdict(lock, node).admitted {
            upsert_keeps_admitted(before.peers, lock, node);
        } else {
            remove_keeps_admitted(lock, before.peers.db, KeyView::StableId(node.stable_id));
        }
    }
}

proof fn evictions_keep_admitted(t: Touched, lock: Option<AuthorityView>, ids: Seq<NodeId>)
    requires
        t.peers.db.wf(),
        all_admitted(lock, t.peers.db),
    ensures
        all_admitted(lock, t.evict_ids(ids).peers.db),
        t.evict_ids(ids).peers.db.wf(),
    decreases ids.len(),
{
    if ids.len() > 0 {
        evictions_keep_admitted(t, lock, ids.drop_last());
        remove_keeps_admitted(
            lock,
            t.evict_ids(ids.drop_last()).peers.db,
            KeyView::NodeId(ids.last()),
        );
    }
}

/// A delta stores nobody whom the lock does not admit.
pub proof fn a_delta_stores_admitted_nodes_only(
    p: PeersView,
    lock: Option<AuthorityView>,
    upsert: Seq<NodeView>,
    remove: Seq<NodeId>,
)
    requires
        p.db.wf(),
        p.db.next_id + upsert.len() <= u64::MAX,
        all_admitted(lock, p.db),
    ensures
        all_admitted(lock, after_delta(p, lock, upsert, remove).peers.db),
{
    let start = Touched::start(p);
    judged_keeps_admitted(start, lock, upsert);
    evictions_keep_admitted(start.upsert_judged(lock, upsert), lock, remove);
}

/// A delta that sends a node which the lock refuses leaves no entry with its stable id, even where
/// the node was stored before.
pub proof fn a_refused_node_loses_its_entry(
    p: PeersView,
    lock: Option<AuthorityView>,
    node: NodeView,
)
    requires
        p.db.wf(),
        !verdict(lock, node).admitted,
    ensures
        !after_delta(p, lock, seq![node], Seq::empty()).peers.db.has(
            KeyView::StableId(node.stable_id),
        ),
{
    let one = seq![node];
    assert(one.drop_last() =~= Seq::<NodeView>::empty());
    let start = Touched::start(p);
    assert(start.upsert_judged(lock, one.drop_last()) == start);
    assert(start.upsert_judged(lock, one) == start.evict(KeyView::StableId(node.stable_id)));
    crate::peer_db::a_removed_peer_is_gone(p.db, KeyView::StableId(node.stable_id));
}

proof fn patch_keeps(t: Touched, lock: Option<AuthorityView>, change: ChangeView)
    requires
        t.peers.db.wf(),
    ensures
        t.patch(lock, change).peers.db.wf(),
        all_admitted(lock, t.peers.db) ==> all_admitted(lock, t.patch(lock, change).peers.db),
        forall|s: Seq<char>|
            #![trigger t.patch(lock, change).peers.db.has(KeyView::StableId(s))]
            t.patch(lock, change).peers.db.has(KeyView::StableId(s)) ==> t.peers.db.has(
                KeyView::StableId(s),
            ),
{
    let db = t.peers.db;
    let key = KeyView::NodeId(change.id);
    if db.has(key) {
        found_by_stable_id(db, key);
        let entry = db.find(key)->0;
        let node = merged(entry.node, change, t.peers.disco_of(entry.node.node_key).control);
        if verdict(lock, node).admitted {
            from_control_shape(t.peers, node);
            if all_admitted(lock, db) {
                upsert_keeps_admitted(t.peers, lock, node);
            }
            let out = t.peers.from_control(node).db;
            let at = slot_of(db, node);
            let mine = KeyView::StableId(node.stable_id);
            let w = |i: int| mine.selects(db.entries[i]);
            first_where_is_first(w, db.entries.len() as int);
            assert(at < db.entries.len());
            assert(w(at));
            assert forall|s: Seq<char>|
                #![trigger out.has(KeyView::StableId(s))]
                out.has(KeyView::StableId(s)) implies db.has(KeyView::StableId(s)) by {
                let want = KeyView::StableId(s);
                let q = |i: int| want.selects(out.entries[i]);
                first_where_is_first(q, out.entries.len() as int);
                let j = out.index_of(want)->0;
                assert(q(j));
                assert(want.selects(db.entries[j]));
                crate::peer_db::listed_is_found(db, want, j);
            }
        } else {
            remove_is_wf(db, key);
            if all_admitted(lock, db) {
                remove_keeps_admitted(lock, db, key);
            }
            let out = db.remove(key);
            let w = |i: int| key.selects(db.entries[i]);
            first_where_is_first(w, db.entries.len() as int);
            let k = db.index_of(key)->0;
            assert forall|s: Seq<char>|
                #![trigger out.has(KeyView::StableId(s))]
                out.has(KeyView::StableId(s)) implies db.has(KeyView::StableId(s)) by {
                let want = KeyView::StableId(s);
                let q = |i: int| want.selects(out.entries[i]);
                first_where_is_first(q, out.entries.len() as int);
                let j = out.index_of(want)->0;
                assert(q(j));
                let a = if j < k {
                    j
                } else {
                    j + 1
                };
                assert(out.entries[j] == db.entries[a]);
                crate::peer_db::listed_is_found(db, want, a);
            }
        }
    }
}

proof fn patches_keep(t: Touched, lock: Option<AuthorityView>, changes: Seq<ChangeView>)
    requires
        t.peers.db.wf(),
    ensures
        t.patch_all(lock, changes).peers.db.wf(),
        all_admitted(lock, t.peers.db) ==> all_admitted(
            lock,
            t.patch_all(lock, changes).peers.db,
        ),
        forall|s: Seq<char>|
            #![trigger t.patch_all(lock, changes).peers.db.has(KeyView::StableId(s))]
            t.patch_all(lock, changes).peers.db.has(KeyView::StableId(s)) ==> t.peers.db.has(
                KeyView::StableId(s),
            ),
    decreases changes.len(),
{
    if changes.len() > 0 {
        patches_keep(t, lock, changes.drop_last());
        patch_keeps(t.patch_all(lock, changes.drop_last()), lock, changes.last());
    }
}

/// Patches store nobody whom the lock does not admit, and never make a peer.
pub proof fn patches_change_known_peers_only(
    p: PeersView,
    lock: Option<AuthorityView>,
    changes: Seq<ChangeView>,
    stable_id: Seq<char>,
)
    requires
        p.db.wf(),
    ensures
        all_admitted(lock, p.db) ==> all_admitted(
            lock,
            after_patches(p, lock, changes).peers.db,
        ),
        after_patches(p, lock, changes).peers.db.has(KeyView::StableId(stable_id)) ==> p.db.has(
            KeyView::StableId(stable_id),
        ),
{
    patches_keep(Touched::start(p), lock, changes);
}

proof fn keep_matches_keeping(
    lock: Option<AuthorityView>,
    obsolete: Set<Seq<u8>>,
    entries: Seq<EntryView>,
    flags: Seq<bool>,
)
    requires
        flags.len() >= entries.len(),
        forall|i: int|
            0 <= i < entries.len() ==> flags[i] == keeps(
                lock,
                obsolete,
                (#[trigger] entries[i]).node,
            ),
    ensures
        stored_nodes(flagged(entries, flags, true)) == keeping(
            lock,
            obsolete,
            stored_nodes(entries),
        ),
    decreases entries.len(),
{
    if entries.len() > 0 {
        let short = entries.drop_last();
        assert forall|i: int| 0 <= i < short.len() implies flags[i] == keeps(
            lock,
            obsolete,
            (#[trigger] short[i]).node,
        ) by {
            assert(entries[i] == short[i]);
        }
        keep_matches_keeping(lock, obsolete, short, flags);
        assert(stored_nodes(entries).drop_last() =~= stored_nodes(short));
        assert(stored_nodes(entries).last() == entries.last().node);
        let n = entries.len() - 1;
        assert(flags[n] == keeps(lock, obsolete, entries[n].node));
        if flags[n] {
            assert(stored_nodes(flagged(entries, flags, true)) =~= stored_nodes(
                flagged(short, flags, true),
            ).push(entries.last().node));
        }
    } else {
        assert(stored_nodes(flagged(entries, flags, true)) =~= Seq::<NodeView>::empty());
        assert(stored_nodes(entries) =~= Seq::<NodeView>::empty());
    }
}

proof fn nobody_flagged(entries: Seq<EntryView>, flags: Seq<bool>)
    requires
        forall|i: int| 0 <= i < entries.len() ==> #[trigger] flags[i],
    ensures
        flagged(entries, flags, false) == Seq::<EntryView>::empty(),
    decreases entries.len(),
{
    if entries.len() > 0 {
        nobody_flagged(entries.drop_last(), flags);
        assert(flags[entries.len() - 1]);
    }
}

/// Judging the stored peers leaves only peers that the lock admits, and judging them again drops
/// nobody more.
pub proof fn reevaluation_settles_at_once(p: PeersView, lock: Option<AuthorityView>)
    requires
        p.db.wf(),
    ensures
        all_admitted(lock, reevaluated(p, lock).0.db),
        reevaluated(reevaluated(p, lock).0, lock) == (
            reevaluated(p, lock).0,
            Set::<PeerId>::empty(),
        ),
{
    let nodes = stored_nodes(p.db.entries);
    let flags = kept(lock, nodes);
    let gone = dropped_ids(p.db.entries, flags);
    let obsolete = obsolete_of(lock, nodes);
    assert forall|i: int| 0 <= i < p.db.entries.len() implies flags[i] == keeps(
        lock,
        obsolete,
        (#[trigger] p.db.entries[i]).node,
    ) by {
        assert(nodes[i] == p.db.entries[i].node);
    }
    if lock is Some {
        if gone == Set::<PeerId>::empty() {
            assert forall|i: int| 0 <= i < p.db.entries.len() implies verdict(
                lock,
                (#[trigger] p.db.entries[i]).node,
            ).admitted by {
                if !flags[i] {
                    flagged_elements(p.db.entries, flags, false);
                    let out = flagged(p.db.entries, flags, false);
                    let k = choose|k: int| 0 <= k < out.len() && out[k] == p.db.entries[i];
                    let ids = out.map_values(|e: EntryView| e.id);
                    assert(ids[k] == p.db.entries[i].id);
                    assert(gone.contains(ids[k]));
                }
            }
        } else {
            let after = reevaluated(p, lock).0;
            let rest = stored_nodes(after.db.entries);
            keep_matches_keeping(lock, obsolete, p.db.entries, flags);
            let again = kept(lock, rest);
            assert forall|i: int| 0 <= i < after.db.entries.len() implies #[trigger] again[i] by {
                judging_twice_drops_nobody(lock, nodes, i);
            }
            nobody_flagged(after.db.entries, again);
            assert(dropped_ids(after.db.entries, again) =~= Set::<PeerId>::empty());
            assert forall|i: int| 0 <= i < after.db.entries.len() implies verdict(
                lock,
                (#[trigger] after.db.entries[i]).node,
            ).admitted by {
                assert(again[i]);
                assert(rest[i] == after.db.entries[i].node);
            }
        }
    }
}

/// Whether `b` is `a` but for who is online and who was seen.
pub open spec fn same_but_liveness(a: EntryView, b: EntryView) -> bool {
    b == EntryView {
        node: NodeView { online: b.node.online, last_seen: b.node.last_seen, ..a.node },
        ..a
    }
}

proof fn liveness_upsert(db: DbView, key: KeyView, node: NodeView)
    requires
        db.wf(),
        db.has(key),
        node == (NodeView {
            online: node.online,
            last_seen: node.last_seen,
            ..db.find(key)->0.node
        }),
    ensures
        db.upsert(node).wf(),
        db.upsert(node).entries.len() == db.entries.len(),
        forall|i: int|
            #![trigger db.upsert(node).entries[i]]
            0 <= i < db.entries.len() ==> db.upsert(node).entries[i] == db.entries[i] || (db.upsert(
                node,
            ).entries[i].node == node && same_but_liveness(
                db.entries[i],
                db.upsert(node).entries[i],
            ) && db.entries[i].node == db.find(key)->0.node),
{
    found_by_stable_id(db, key);
    upsert_is_wf(db, node);
    let mine = KeyView::StableId(node.stable_id);
    let w = |i: int| mine.selects(db.entries[i]);
    first_where_is_first(w, db.entries.len() as int);
    let at = db.index_of(mine)->0;
    assert(db.entries[at] == db.find(key)->0);
}

/// Saying who is online changes nothing but that.
pub proof fn online_changes_touch_online_only(
    db: DbView,
    online: Seq<(NodeId, bool)>,
    i: int,
)
    requires
        db.wf(),
        0 <= i < db.entries.len(),
    ensures
        online_steps(db, online).0.wf(),
        online_steps(db, online).0.entries.len() == db.entries.len(),
        same_but_liveness(db.entries[i], online_steps(db, online).0.entries[i]),
        online_steps(db, online).0.entries[i].node.last_seen == db.entries[i].node.last_seen,
    decreases online.len(),
{
    if online.len() > 0 {
        online_changes_touch_online_only(db, online.drop_last(), i);
        let before = online_steps(db, online.drop_last()).0;
        let (id, value) = online.last();
        let key = KeyView::NodeId(id);
        if before.has(key) {
            let node = NodeView { online: Some(value), ..before.find(key)->0.node };
            liveness_upsert(before, key, node);
            let after = online_steps(db, online).0;
            if after == before.upsert(node) {
                assert(after.entries[i] == before.upsert(node).entries[i]);
            }
        }
    }
}

/// Saying who was seen changes nothing but when; in particular nobody goes offline by it.
pub proof fn sightings_touch_last_seen_only(
    db: DbView,
    seen: Seq<(NodeId, bool)>,
    now: Timestamp,
    i: int,
)
    requires
        db.wf(),
        0 <= i < db.entries.len(),
    ensures
        seen_steps(db, seen, now).0.wf(),
        seen_steps(db, seen, now).0.entries.len() == db.entries.len(),
        same_but_liveness(db.entries[i], seen_steps(db, seen, now).0.entries[i]),
        seen_steps(db, seen, now).0.entries[i].node.online == db.entries[i].node.online,
    decreases seen.len(),
{
    if seen.len() > 0 {
        sightings_touch_last_seen_only(db, seen.drop_last(), now, i);
        let before = seen_steps(db, seen.drop_last(), now).0;
        let (id, value) = seen.last();
        let key = KeyView::NodeId(id);
        let last_seen = if value {
            Some(now)
        } else {
            None
        };
        if before.has(key) {
            let node = NodeView { last_seen, ..before.find(key)->0.node };
            liveness_upsert(before, key, node);
            let after = seen_steps(db, seen, now).0;
            if after == before.upsert(node) {
                assert(after.entries[i] == before.upsert(node).entries[i]);
            }
        }
    }
}

/// Neither list makes, drops or replaces a peer.
pub proof fn liveness_changes_keep_the_peers(
    db: DbView,
    online: Seq<(NodeId, bool)>,
    seen: Seq<(NodeId, bool)>,
    now: Timestamp,
    i: int,
)
    requires
        db.wf(),
        0 <= i < db.entries.len(),
    ensures
        after_liveness(db, online, seen, now).0.entries.len() == db.entries.len(),
        same_but_liveness(db.entries[i], after_liveness(db, online, seen, now).0.entries[i]),
{
    online_changes_touch_online_only(db, online, i);
    sightings_touch_last_seen_only(online_steps(db, online).0, seen, now, i);
}

} // verus!
