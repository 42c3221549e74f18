//! What is published of a change is true of the stored peers.

use vstd::prelude::*;

use crate::node::{NodeId, NodeView, PeerId, Timestamp};
use crate::peer_db::{
    flagged, flagged_elements, found_by_stable_id, keep_is_wf, listed_is_found, remove_is_wf,
    DbView, EntryView, KeyView,
};
use crate::peer_laws::{entry_for, from_control_shape, slot_of};
use crate::peer_tracker::{
    after_full, after_liveness, after_patches, after_peer_changes, after_state_update,
    after_update, change_views, dropped_ids, merged, newcomers, retain_flags, views_of, ChangeView,
    PeerChange, PeerUpdate, PeersView, StateUpdate, Touched,
};
use crate::search::{first_where_is, first_where_is_first};
use crate::tailnet_lock::{kept, verdict, AuthorityView};

verus! {

/// Whether what was touched tells the truth: whoever was dropped is not stored, under a number that
/// is not handed out again, and whoever was stored is stored or was dropped later.
pub open spec fn is_true_to_peers(t: Touched) -> bool {
    &&& forall|id: PeerId| #[trigger]
        t.deletions.contains(id) ==> id.0 < t.peers.db.next_id && !t.peers.db.has(KeyView::Id(id))
    &&& forall|id: PeerId| #[trigger]
        t.upserts.contains(id) ==> t.peers.db.has(KeyView::Id(id)) || t.deletions.contains(id)
}

proof fn stored_number(db: DbView, id: PeerId) -> (k: int)
    requires
        db.has(KeyView::Id(id)),
    ensures
        0 <= k < db.entries.len(),
        db.entries[k].id == id,
{
    let key = KeyView::Id(id);
    let p = |i: int| key.selects(db.entries[i]);
    first_where_is_first(p, db.entries.len() as int);
    let k = db.index_of(key)->0;
    assert(p(k));
    k
}

proof fn upsert_tells(t: Touched, node: NodeView)
    requires
        t.peers.db.wf(),
        t.peers.db.room_for(node),
        is_true_to_peers(t),
    ensures
        t.upsert(node).peers.db.wf(),
        t.upsert(node).peers.db.next_id <= t.peers.db.next_id + 1,
        is_true_to_peers(t.upsert(node)),
        t.upsert(node).peers.db.has(KeyView::Id(t.peers.from_control_id(node))),
        forall|id: PeerId|
            t.peers.db.has(KeyView::Id(id)) ==> #[trigger] t.upsert(node).peers.db.has(
                KeyView::Id(id),
            ),
{
    let db = t.peers.db;
    let after = t.upsert(node);
    let out = after.peers.db;
    let at = slot_of(db, node);
    let e = entry_for(db, node, t.peers.resolved(node));
    from_control_shape(t.peers, node);
    let key = KeyView::StableId(node.stable_id);
    let p = |i: int| key.selects(db.entries[i]);
    first_where_is_first(p, db.entries.len() as int);
    assert(out.entries[at] == e);
    assert(out.entries[at].id.0 < out.next_id);
    if at < db.entries.len() {
        assert(e.id == db.entries[at].id);
    }
    assert(out.next_id >= db.next_id);
    listed_is_found(out, KeyView::Id(e.id), at);
    assert forall|id: PeerId| db.has(KeyView::Id(id)) implies #[trigger] out.has(
        KeyView::Id(id),
    ) by {
        let k = stored_number(db, id);
        if k == at {
            assert(e.id == id);
        } else {
            assert(out.entries[k] == db.entries[k]);
        }
        listed_is_found(out, KeyView::Id(id), k);
    }
    assert forall|id: PeerId| #[trigger] after.deletions.contains(id) implies id.0 < out.next_id
        && !out.has(KeyView::Id(id)) by {
        if out.has(KeyView::Id(id)) {
            let k = stored_number(out, id);
            if k != at {
                assert(out.entries[k] == db.entries[k]);
                listed_is_found(db, KeyView::Id(id), k);
            } else if at < db.entries.len() {
                listed_is_found(db, KeyView::Id(id), at);
            }
        }
    }
}

proof fn evict_tells(t: Touched, key: KeyView)
    requires
        t.peers.db.wf(),
        is_true_to_peers(t),
    ensures
        t.evict(key).peers.db.wf(),
        t.evict(key).peers.db.next_id == t.peers.db.next_id,
        is_true_to_peers(t.evict(key)),
{
    let db = t.peers.db;
    let after = t.evict(key);
    let out = after.peers.db;
    remove_is_wf(db, key);
    if db.has(key) {
        let p = |i: int| key.selects(db.entries[i]);
        first_where_is_first(p, db.entries.len() as int);
        let k = db.index_of(key)->0;
        let gone = db.entries[k].id;
        assert forall|id: PeerId| #[trigger] out.has(KeyView::Id(id)) implies db.has(
            KeyView::Id(id),
        ) && id != gone by {
            let j = stored_number(out, id);
            let a = if j < k {
                j
            } else {
                j + 1
            };
            assert(out.entries[j] == db.entries[a]);
            if a < k {
                assert(db.entries[a].id != db.entries[k].id);
            } else {
                assert(db.entries[k].id != db.entries[a].id);
            }
            listed_is_found(db, KeyView::Id(id), a);
        }
        assert forall|id: PeerId| #[trigger]
            after.upserts.contains(id) implies out.has(KeyView::Id(id)) || after.deletions.contains(
            id,
        ) by {
            if id != gone && db.has(KeyView::Id(id)) {
                let a = stored_number(db, id);
                let j = if a < k {
                    a
                } else {
                    a - 1
                };
                assert(out.entries[j] == db.entries[a]);
                listed_is_found(out, KeyView::Id(id), j);
            }
        }
        assert(gone.0 < db.next_id);
    }
}

proof fn stored_nodes_tell(t: Touched, nodes: Seq<NodeView>, keep: Seq<bool>)
    requires
        t.peers.db.wf(),
        t.peers.db.next_id + nodes.len() <= u64::MAX,
        is_true_to_peers(t),
        forall|id: PeerId| #[trigger]
            t.upserts.contains(id) ==> t.peers.db.has(KeyView::Id(id)),
    ensures
        t.upsert_kept(nodes, keep).peers.db.wf(),
        t.upsert_kept(nodes, keep).peers.db.next_id <= t.peers.db.next_id + nodes.len(),
        is_true_to_peers(t.upsert_kept(nodes, keep)),
        forall|id: PeerId| #[trigger]
            t.upsert_kept(nodes, keep).upserts.contains(id) ==> t.upsert_kept(
                nodes,
                keep,
            ).peers.db.has(KeyView::Id(id)),
        t.upsert_kept(nodes, keep).deletions == t.deletions,
    decreases nodes.len(),
{
    if nodes.len() > 0 {
        stored_nodes_tell(t, nodes.drop_last(), keep);
        let before = t.upsert_kept(nodes.drop_last(), keep);
        if keep[nodes.len() - 1] {
            upsert_tells(before, nodes.last());
        }
    }
}

proof fn judged_nodes_tell(t: Touched, lock: Option<AuthorityView>, nodes: Seq<NodeView>)
    requires
        t.peers.db.wf(),
        t.peers.db.next_id + nodes.len() <= u64::MAX,
        is_true_to_peers(t),
    ensures
        t.upsert_judged(lock, nodes).peers.db.wf(),
        t.upsert_judged(lock, nodes).peers.db.next_id <= t.peers.db.next_id + nodes.len(),
        is_true_to_peers(t.upsert_judged(lock, nodes)),
    decreases nodes.len(),
{
    if nodes.len() > 0 {
        judged_nodes_tell(t, lock, nodes.drop_last());
        let before = t.upsert_judged(lock, nodes.drop_last());
        if verdict(lock, nodes.last()).admitted {
            upsert_tells(before, nodes.last());
        } else {
            evict_tells(before, KeyView::StableId(nodes.last().stable_id));
        }
    }
}

proof fn removals_tell(t: Touched, ids: Seq<NodeId>)
    requires
        t.peers.db.wf(),
        is_true_to_peers(t),
    ensures
        t.evict_ids(ids).peers.db.wf(),
        is_true_to_peers(t.evict_ids(ids)),
    decreases ids.len(),
{
    if ids.len() > 0 {
        removals_tell(t, ids.drop_last());
        evict_tells(t.evict_ids(ids.drop_last()), KeyView::NodeId(ids.last()));
    }
}

proof fn patches_tell(t: Touched, lock: Option<AuthorityView>, changes: Seq<ChangeView>)
    requires
        t.peers.db.wf(),
        is_true_to_peers(t),
    ensures
        t.patch_all(lock, changes).peers.db.wf(),
        is_true_to_peers(t.patch_all(lock, changes)),
    decreases changes.len(),
{
    if changes.len() > 0 {
        patches_tell(t, lock, changes.drop_last());
        let before = t.patch_all(lock, changes.drop_last());
        let change = changes.last();
        let key = KeyView::NodeId(change.id);
        if before.peers.db.has(key) {
            found_by_stable_id(before.peers.db, key);
            let entry = before.peers.db.find(key)->0;
            let node = merged(
                entry.node,
                change,
                before.peers.disco_of(entry.node.node_key).control,
            );
            if verdict(lock, node).admitted {
                upsert_tells(before, node);
            } else {
                evict_tells(before, key);
            }
        }
    }
}

/// Patches go the same way whatever was touched before, and add to what was.
proof fn patches_add(t: Touched, lock: Option<AuthorityView>, changes: Seq<ChangeView>)
    ensures
        ({
            let alone = Touched::start(t.peers).patch_all(lock, changes);
            let all = t.patch_all(lock, changes);
            &&& all.peers == alone.peers
            &&& all.upserts == t.upserts.union(alone.upserts)
            &&& all.deletions == t.deletions.union(alone.deletions)
        }),
    decreases changes.len(),
{
    let alone = Touched::start(t.peers).patch_all(lock, changes);
    let all = t.patch_all(lock, changes);
    if changes.len() > 0 {
        patches_add(t, lock, changes.drop_last());
    }
    assert(all.upserts =~= t.upserts.union(alone.upserts));
    assert(all.deletions =~= t.deletions.union(alone.deletions));
}

proof fn full_updates_tell(p: PeersView, lock: Option<AuthorityView>, nodes: Seq<NodeView>)
    requires
        p.db.wf(),
        p.db.next_id + nodes.len() <= u64::MAX,
    ensures
        after_full(p, lock, nodes).peers.db.wf(),
        is_true_to_peers(after_full(p, lock, nodes)),
        after_full(p, lock, nodes).upserts.disjoint(after_full(p, lock, nodes).deletions),
{
    let keep = kept(lock, nodes);
    let flags = retain_flags(p.db.entries, nodes, keep);
    let start = Touched {
        peers: PeersView { db: p.db.keep(flags), disco: p.disco },
        upserts: Set::empty(),
        deletions: dropped_ids(p.db.entries, flags),
    };
    let entries = p.db.entries;
    let stay = flagged(entries, flags, true);
    let gone = flagged(entries, flags, false);
    keep_is_wf(p.db, flags);
    assert forall|id: PeerId| #[trigger] start.deletions.contains(id) implies id.0
        < start.peers.db.next_id && !start.peers.db.has(KeyView::Id(id)) by {
        let ids = gone.map_values(|e: EntryView| e.id);
        let g = choose|g: int| 0 <= g < ids.len() && ids[g] == id;
        let a = flag_of(entries, flags, false, g);
        assert(entries[a].id == id);
        if start.peers.db.has(KeyView::Id(id)) {
            let s = stored_number(start.peers.db, id);
            let b = flag_of(entries, flags, true, s);
            assert(entries[b].id == id);
            if a < b {
                assert(entries[a].id != entries[b].id);
            } else if b < a {
                assert(entries[b].id != entries[a].id);
            }
        }
    }
    stored_nodes_tell(start, nodes, keep);
}

/// Where a flagged element comes from.
proof fn flag_of(entries: Seq<EntryView>, flags: Seq<bool>, want: bool, k: int) -> (i: int)
    requires
        0 <= k < flagged(entries, flags, want).len(),
    ensures
        0 <= i < entries.len(),
        flags[i] == want,
        entries[i] == flagged(entries, flags, want)[k],
    decreases entries.len(),
{
    let short = entries.drop_last();
    if k < flagged(short, flags, want).len() {
        flag_of(short, flags, want, k)
    } else {
        entries.len() - 1
    }
}

proof fn updates_tell(p: PeersView, lock: Option<AuthorityView>, update: PeerUpdate)
    requires
        p.db.wf(),
        p.db.next_id + newcomers(update) <= u64::MAX,
    ensures
        after_update(p, lock, update).peers.db.wf(),
        is_true_to_peers(after_update(p, lock, update)),
{
    match update {
        PeerUpdate::Full(nodes) => {
            full_updates_tell(p, lock, views_of(nodes@));
        },
        PeerUpdate::Delta { upsert, remove } => {
            let start = Touched::start(p);
            judged_nodes_tell(start, lock, views_of(upsert@));
            removals_tell(start.upsert_judged(lock, views_of(upsert@)), remove@);
        },
    }
}

/// What is published of a response of control is true of the peers that are stored after it: a peer
/// among the dropped ones is not stored, and a peer among the stored ones is, unless the response
/// dropped it again.
pub proof fn publications_are_true(
    p: PeersView,
    lock: Option<AuthorityView>,
    update: Option<PeerUpdate>,
    patches: Seq<ChangeView>,
)
    requires
        p.db.wf(),
        update is Some ==> p.db.next_id + newcomers(update->0) <= u64::MAX,
    ensures
        is_true_to_peers(after_peer_changes(p, lock, update, patches)),
{
    let first = match update {
        Some(u) => after_update(p, lock, u),
        None => Touched::start(p),
    };
    match update {
        Some(u) => {
            updates_tell(p, lock, u);
        },
        None => {},
    }
    if patches.len() > 0 {
        let second = after_patches(first.peers, lock, patches);
        patches_tell(first, lock, patches);
        patches_tell(Touched::start(first.peers), lock, patches);
        patches_add(first, lock, patches);
        let both = first.patch_all(lock, patches);
        let out = after_peer_changes(p, lock, update, patches);
        assert(out.peers.db == both.peers.db);
        assert forall|id: PeerId| #[trigger] out.deletions.contains(id) implies id.0
            < out.peers.db.next_id && !out.peers.db.has(KeyView::Id(id)) by {
            assert(both.deletions.contains(id));
        }
        assert forall|id: PeerId| #[trigger] out.upserts.contains(id) implies out.peers.db.has(
            KeyView::Id(id),
        ) || out.deletions.contains(id) by {
            assert(both.upserts.contains(id));
            if second.upserts.contains(id) {
                assert(second.peers.db.has(KeyView::Id(id)) || second.deletions.contains(id));
            }
        }
    }
}

/// A full update names no peer both as stored and as dropped.
pub proof fn a_full_update_names_each_peer_once(
    p: PeersView,
    lock: Option<AuthorityView>,
    nodes: Seq<NodeView>,
)
    requires
        p.db.wf(),
        p.db.next_id + nodes.len() <= u64::MAX,
    ensures
        after_full(p, lock, nodes).upserts.disjoint(after_full(p, lock, nodes).deletions),
{
    full_updates_tell(p, lock, nodes);
}

/// Whether no two patches are for the same node.
pub open spec fn for_different_nodes(changes: Seq<ChangeView>) -> bool {
    forall|i: int, j: int|
        0 <= i < j < changes.len() ==> (#[trigger] changes[i]).id != (#[trigger] changes[j]).id
}

/// Whether every peer that was stored is, with a node that one of `changes` is for.
spec fn stored_for(t: Touched, changes: Seq<ChangeView>) -> bool {
    forall|id: PeerId| #[trigger]
        t.upserts.contains(id) ==> exists|k: int, j: int|
            #![trigger t.peers.db.entries[k], changes[j]]
            0 <= k < t.peers.db.entries.len() && t.peers.db.entries[k].id == id && 0 <= j
                < changes.len() && t.peers.db.entries[k].node.id == changes[j].id
}

proof fn patches_store_for(p: PeersView, lock: Option<AuthorityView>, changes: Seq<ChangeView>)
    requires
        p.db.wf(),
        for_different_nodes(changes),
    ensures
        stored_for(Touched::start(p).patch_all(lock, changes), changes),
    decreases changes.len(),
{
    if changes.len() > 0 {
        let short = changes.drop_last();
        let change = changes.last();
        let before = Touched::start(p).patch_all(lock, short);
        let after = Touched::start(p).patch_all(lock, changes);
        assert(for_different_nodes(short)) by {
            assert forall|i: int, j: int| 0 <= i < j < short.len() implies (#[trigger] short[i]).id
                != (#[trigger] short[j]).id by {
                assert(changes[i].id != changes[j].id);
            }
        }
        patches_store_for(p, lock, short);
        patches_tell(Touched::start(p), lock, short);
        let db = before.peers.db;
        let out = after.peers.db;
        let key = KeyView::NodeId(change.id);
        let w = |i: int| key.selects(db.entries[i]);
        first_where_is_first(w, db.entries.len() as int);
        if db.has(key) {
            found_by_stable_id(db, key);
            let at = db.index_of(key)->0;
            assert(w(at));
            let entry = db.entries[at];
            let node = merged(entry.node, change, before.peers.disco_of(entry.node.node_key).control);
            let admitted = verdict(lock, node).admitted;
            if admitted {
                from_control_shape(before.peers, node);
                let mine = KeyView::StableId(node.stable_id);
                let v = |i: int| mine.selects(db.entries[i]);
                first_where_is_first(v, db.entries.len() as int);
                let slot = slot_of(db, node);
                assert(v(slot));
                if slot < at {
                    assert(db.entries[slot].node.stable_id != db.entries[at].node.stable_id);
                } else if at < slot {
                    assert(db.entries[at].node.stable_id != db.entries[slot].node.stable_id);
                }
                assert(slot == at);
                assert(out.entries[at].id == entry.id && out.entries[at].node.id == change.id);
            }
            assert forall|id: PeerId| #[trigger] after.upserts.contains(id) implies exists|
                k: int,
                j: int,
            |
                #![trigger out.entries[k], changes[j]]
                0 <= k < out.entries.len() && out.entries[k].id == id && 0 <= j < changes.len()
                    && out.entries[k].node.id == changes[j].id by {
                let n = changes.len() - 1;
                if admitted && id == entry.id {
                    assert(out.entries[at].node.id == changes[n].id);
                } else {
                    assert(before.upserts.contains(id));
                    let (k, j) = choose|k: int, j: int|
                        #![trigger db.entries[k], short[j]]
                        0 <= k < db.entries.len() && db.entries[k].id == id && 0 <= j < short.len()
                            && db.entries[k].node.id == short[j].id;
                    assert(changes[j].id != changes[n].id);
                    assert(k != at);
                    let m = if admitted || k < at {
                        k
                    } else {
                        k - 1
                    };
                    assert(out.entries[m] == db.entries[k]);
                    assert(out.entries[m].node.id == changes[j].id);
                }
            }
        } else {
            assert forall|id: PeerId| #[trigger] after.upserts.contains(id) implies exists|
                k: int,
                j: int,
            |
                #![trigger out.entries[k], changes[j]]
                0 <= k < out.entries.len() && out.entries[k].id == id && 0 <= j < changes.len()
                    && out.entries[k].node.id == changes[j].id by {
                assert(before.upserts.contains(id));
                let (k, j) = choose|k: int, j: int|
                    #![trigger db.entries[k], short[j]]
                    0 <= k < db.entries.len() && db.entries[k].id == id && 0 <= j < short.len()
                        && db.entries[k].node.id == short[j].id;
                assert(out.entries[k].node.id == changes[j].id);
            }
        }
    }
}

/// Patches for different nodes name no peer both as stored and as dropped.
pub proof fn patches_name_each_peer_once(
    p: PeersView,
    lock: Option<AuthorityView>,
    changes: Seq<ChangeView>,
)
    requires
        p.db.wf(),
        for_different_nodes(changes),
    ensures
        after_patches(p, lock, changes).upserts.disjoint(
            after_patches(p, lock, changes).deletions,
        ),
{
    let t = Touched::start(p).patch_all(lock, changes);
    patches_store_for(p, lock, changes);
    patches_tell(Touched::start(p), lock, changes);
    assert forall|id: PeerId| t.upserts.contains(id) implies !t.deletions.contains(id) by {
        let (k, j) = choose|k: int, j: int|
            #![trigger t.peers.db.entries[k], changes[j]]
            0 <= k < t.peers.db.entries.len() && t.peers.db.entries[k].id == id && 0 <= j
                < changes.len() && t.peers.db.entries[k].node.id == changes[j].id;
        listed_is_found(t.peers.db, KeyView::Id(id), k);
    }
}

/// A response whose update names no peer twice, and whose patches are for different nodes, names no
/// peer both as stored and as dropped, even where a patch drops a peer that the update stored.
pub proof fn a_response_names_each_peer_once(
    p: PeersView,
    lock: Option<AuthorityView>,
    update: Option<PeerUpdate>,
    patches: Seq<ChangeView>,
)
    requires
        p.db.wf(),
        update is Some ==> p.db.next_id + newcomers(update->0) <= u64::MAX,
        update is Some ==> after_update(p, lock, update->0).upserts.disjoint(
            after_update(p, lock, update->0).deletions,
        ),
        for_different_nodes(patches),
    ensures
        after_peer_changes(p, lock, update, patches).upserts.disjoint(
            after_peer_changes(p, lock, update, patches).deletions,
        ),
{
    let first = match update {
        Some(u) => after_update(p, lock, u),
        None => Touched::start(p),
    };
    match update {
        Some(u) => {
            updates_tell(p, lock, u);
        },
        None => {},
    }
    patches_name_each_peer_once(first.peers, lock, patches);
}

/// Whether everything that is otherwise than in `base` is told: who is gone is among the dropped,
/// and who is new or changed is among the stored.
pub open spec fn tells_all(base: DbView, t: Touched) -> bool {
    &&& forall|id: PeerId| #[trigger]
        base.has(KeyView::Id(id)) && !t.peers.db.has(KeyView::Id(id)) ==> t.deletions.contains(id)
    &&& forall|id: PeerId| #[trigger]
        t.peers.db.has(KeyView::Id(id)) && t.peers.db.find(KeyView::Id(id)) != base.find(
            KeyView::Id(id),
        ) ==> t.upserts.contains(id)
}

proof fn number_at(db: DbView, k: int)
    requires
        db.wf(),
        0 <= k < db.entries.len(),
    ensures
        db.find(KeyView::Id(db.entries[k].id)) == Some(db.entries[k]),
{
    let key = KeyView::Id(db.entries[k].id);
    let p = |i: int| key.selects(db.entries[i]);
    assert(p(k));
    assert forall|j: int| 0 <= j < k implies !#[trigger] p(j) by {
        assert(db.entries[j].id != db.entries[k].id);
    }
    first_where_is(p, db.entries.len() as int, k);
}

proof fn upsert_tells_all(base: DbView, t: Touched, node: NodeView)
    requires
        t.peers.db.wf(),
        t.peers.db.room_for(node),
        tells_all(base, t),
    ensures
        tells_all(base, t.upsert(node)),
{
    let db = t.peers.db;
    let after = t.upsert(node);
    let out = after.peers.db;
    let at = slot_of(db, node);
    let e = entry_for(db, node, t.peers.resolved(node));
    from_control_shape(t.peers, node);
    let key = KeyView::StableId(node.stable_id);
    let p = |i: int| key.selects(db.entries[i]);
    first_where_is_first(p, db.entries.len() as int);
    assert(out.entries[at] == e);
    assert forall|id: PeerId| #[trigger] base.has(KeyView::Id(id)) && !out.has(
        KeyView::Id(id),
    ) implies after.deletions.contains(id) by {
        if db.has(KeyView::Id(id)) {
            let k = stored_number(db, id);
            assert(out.entries[k].id == id);
            listed_is_found(out, KeyView::Id(id), k);
        }
    }
    assert forall|id: PeerId| #[trigger] out.has(KeyView::Id(id)) && out.find(KeyView::Id(id))
        != base.find(KeyView::Id(id)) implies after.upserts.contains(id) by {
        let k = stored_number(out, id);
        number_at(out, k);
        if k != at {
            assert(out.entries[k] == db.entries[k]);
            number_at(db, k);
            assert(db.has(KeyView::Id(id)));
        }
    }
}

proof fn evict_tells_all(base: DbView, t: Touched, key: KeyView)
    requires
        t.peers.db.wf(),
        tells_all(base, t),
    ensures
        tells_all(base, t.evict(key)),
{
    let db = t.peers.db;
    let after = t.evict(key);
    let out = after.peers.db;
    remove_is_wf(db, key);
    let p = |i: int| key.selects(db.entries[i]);
    first_where_is_first(p, db.entries.len() as int);
    match db.index_of(key) {
        Some(at) => {
            assert forall|id: PeerId| #[trigger] base.has(KeyView::Id(id)) && !out.has(
                KeyView::Id(id),
            ) implies after.deletions.contains(id) by {
                if db.has(KeyView::Id(id)) {
                    let k = stored_number(db, id);
                    if k != at {
                        let m = if k < at {
                            k
                        } else {
                            k - 1
                        };
                        assert(out.entries[m] == db.entries[k]);
                        listed_is_found(out, KeyView::Id(id), m);
                    }
                }
            }
            assert forall|id: PeerId| #[trigger] out.has(KeyView::Id(id)) && out.find(
                KeyView::Id(id),
            ) != base.find(KeyView::Id(id)) implies after.upserts.contains(id) by {
                let m = stored_number(out, id);
                number_at(out, m);
                let k = if m < at {
                    m
                } else {
                    m + 1
                };
                assert(out.entries[m] == db.entries[k]);
                number_at(db, k);
                assert(db.has(KeyView::Id(id)));
            }
        },
        None => {},
    }
}

proof fn kept_nodes_tell_all(base: DbView, t: Touched, nodes: Seq<NodeView>, keep: Seq<bool>)
    requires
        t.peers.db.wf(),
        t.peers.db.next_id + nodes.len() <= u64::MAX,
        tells_all(base, t),
    ensures
        t.upsert_kept(nodes, keep).peers.db.wf(),
        t.upsert_kept(nodes, keep).peers.db.next_id <= t.peers.db.next_id + nodes.len(),
        tells_all(base, t.upsert_kept(nodes, keep)),
    decreases nodes.len(),
{
    if nodes.len() > 0 {
        let short = nodes.drop_last();
        kept_nodes_tell_all(base, t, short, keep);
        let before = t.upsert_kept(short, keep);
        if keep[nodes.len() - 1] {
            from_control_shape(before.peers, nodes.last());
            upsert_tells_all(base, before, nodes.last());
        }
    }
}

proof fn judged_nodes_tell_all(
    base: DbView,
    t: Touched,
    lock: Option<AuthorityView>,
    nodes: Seq<NodeView>,
)
    requires
        t.peers.db.wf(),
        t.peers.db.next_id + nodes.len() <= u64::MAX,
        tells_all(base, t),
    ensures
        t.upsert_judged(lock, nodes).peers.db.wf(),
        t.upsert_judged(lock, nodes).peers.db.next_id <= t.peers.db.next_id + nodes.len(),
        tells_all(base, t.upsert_judged(lock, nodes)),
    decreases nodes.len(),
{
    if nodes.len() > 0 {
        let short = nodes.drop_last();
        judged_nodes_tell_all(base, t, lock, short);
        let before = t.upsert_judged(lock, short);
        let node = nodes.last();
        if verdict(lock, node).admitted {
            from_control_shape(before.peers, node);
            upsert_tells_all(base, before, node);
        } else {
            remove_is_wf(before.peers.db, KeyView::StableId(node.stable_id));
            evict_tells_all(base, before, KeyView::StableId(node.stable_id));
        }
    }
}

proof fn removals_tell_all(base: DbView, t: Touched, ids: Seq<NodeId>)
    requires
        t.peers.db.wf(),
        tells_all(base, t),
    ensures
        t.evict_ids(ids).peers.db.wf(),
        tells_all(base, t.evict_ids(ids)),
    decreases ids.len(),
{
    if ids.len() > 0 {
        removals_tell_all(base, t, ids.drop_last());
        let before = t.evict_ids(ids.drop_last());
        remove_is_wf(before.peers.db, KeyView::NodeId(ids.last()));
        evict_tells_all(base, before, KeyView::NodeId(ids.last()));
    }
}

proof fn patches_tell_all(
    base: DbView,
    t: Touched,
    lock: Option<AuthorityView>,
    changes: Seq<ChangeView>,
)
    requires
        t.peers.db.wf(),
        tells_all(base, t),
    ensures
        t.patch_all(lock, changes).peers.db.wf(),
        tells_all(base, t.patch_all(lock, changes)),
    decreases changes.len(),
{
    if changes.len() > 0 {
        patches_tell_all(base, t, lock, changes.drop_last());
        let before = t.patch_all(lock, changes.drop_last());
        let change = changes.last();
        let key = KeyView::NodeId(change.id);
        if before.peers.db.has(key) {
            found_by_stable_id(before.peers.db, key);
            let entry = before.peers.db.find(key)->0;
            let node = merged(
                entry.node,
                change,
                before.peers.disco_of(entry.node.node_key).control,
            );
            if verdict(lock, node).admitted {
                from_control_shape(before.peers, node);
                upsert_tells_all(base, before, node);
            } else {
                remove_is_wf(before.peers.db, key);
                evict_tells_all(base, before, key);
            }
        }
    }
}

proof fn full_updates_tell_all(p: PeersView, lock: Option<AuthorityView>, nodes: Seq<NodeView>)
    requires
        p.db.wf(),
        p.db.next_id + nodes.len() <= u64::MAX,
    ensures
        tells_all(p.db, after_full(p, lock, nodes)),
{
    let keep = kept(lock, nodes);
    let flags = retain_flags(p.db.entries, nodes, keep);
    let start = Touched {
        peers: PeersView { db: p.db.keep(flags), disco: p.disco },
        upserts: Set::empty(),
        deletions: dropped_ids(p.db.entries, flags),
    };
    let entries = p.db.entries;
    let stay = flagged(entries, flags, true);
    let gone = flagged(entries, flags, false);
    keep_is_wf(p.db, flags);
    flagged_elements(entries, flags, true);
    flagged_elements(entries, flags, false);
    assert forall|id: PeerId| #[trigger] p.db.has(KeyView::Id(id)) && !start.peers.db.has(
        KeyView::Id(id),
    ) implies start.deletions.contains(id) by {
        let k = stored_number(p.db, id);
        if flags[k] {
            let m = choose|m: int| 0 <= m < stay.len() && stay[m] == entries[k];
            listed_is_found(start.peers.db, KeyView::Id(id), m);
        } else {
            let m = choose|m: int| 0 <= m < gone.len() && gone[m] == entries[k];
            let ids = gone.map_values(|e: EntryView| e.id);
            assert(ids[m] == id);
        }
    }
    assert forall|id: PeerId| #[trigger] start.peers.db.has(KeyView::Id(id)) implies
        start.peers.db.find(KeyView::Id(id)) == p.db.find(KeyView::Id(id)) by {
        let m = stored_number(start.peers.db, id);
        number_at(start.peers.db, m);
        let k = flag_of(entries, flags, true, m);
        number_at(p.db, k);
    }
    kept_nodes_tell_all(p.db, start, nodes, keep);
}

/// Nothing changes untold: whoever a response of control takes away from the stored peers is among
/// the dropped ones that are published, and whoever it brings in or alters is among the stored
/// ones.
pub proof fn nothing_changes_untold(
    p: PeersView,
    lock: Option<AuthorityView>,
    update: Option<PeerUpdate>,
    patches: Seq<ChangeView>,
)
    requires
        p.db.wf(),
        update is Some ==> p.db.next_id + newcomers(update->0) <= u64::MAX,
    ensures
        tells_all(p.db, after_peer_changes(p, lock, update, patches)),
{
    let first = match update {
        Some(u) => after_update(p, lock, u),
        None => Touched::start(p),
    };
    match update {
        Some(PeerUpdate::Full(nodes)) => {
            full_updates_tell_all(p, lock, views_of(nodes@));
            updates_tell(p, lock, update->0);
        },
        Some(PeerUpdate::Delta { upsert, remove }) => {
            let start = Touched::start(p);
            judged_nodes_tell_all(p.db, start, lock, views_of(upsert@));
            removals_tell_all(p.db, start.upsert_judged(lock, views_of(upsert@)), remove@);
            updates_tell(p, lock, update->0);
        },
        None => {},
    }
    if patches.len() > 0 {
        let start = Touched::start(first.peers);
        let second = after_patches(first.peers, lock, patches);
        patches_tell_all(first.peers.db, start, lock, patches);
        patches_tell(start, lock, patches);
        let out = after_peer_changes(p, lock, update, patches);
        assert forall|id: PeerId| #[trigger] p.db.has(KeyView::Id(id)) && !out.peers.db.has(
            KeyView::Id(id),
        ) implies out.deletions.contains(id) by {
            if !first.peers.db.has(KeyView::Id(id)) {
                assert(first.deletions.contains(id));
                if second.upserts.contains(id) {
                    assert(second.deletions.contains(id));
                }
            }
        }
        assert forall|id: PeerId| #[trigger] out.peers.db.has(KeyView::Id(id)) && out.peers.db.find(
            KeyView::Id(id),
        ) != p.db.find(KeyView::Id(id)) implies out.upserts.contains(id) by {
            if out.peers.db.find(KeyView::Id(id)) == first.peers.db.find(KeyView::Id(id)) {
                assert(first.peers.db.has(KeyView::Id(id)));
                assert(first.upserts.contains(id));
                assert(!second.deletions.contains(id));
            }
        }
    }
}

/// A response that carries both an update and patches has the patches applied on top of the update;
/// what it says of who is online and who was seen comes before either. It is published where it
/// carries an update or patches, and else where who is online or was seen changed.
pub proof fn a_response_is_taken_in_order(
    p: PeersView,
    lock: Option<AuthorityView>,
    update: StateUpdate,
    now: Timestamp,
)
    ensures
        ({
            let (db, alive) = after_liveness(
                p.db,
                update.online_change@,
                update.peer_seen_change@,
                now,
            );
            let live = PeersView { db, disco: p.disco };
            let between = match update.peer_update {
                Some(u) => after_update(live, lock, u).peers,
                None => live,
            };
            let patches = update.peer_patches@.map_values(|c: PeerChange| c@);
            let (after, told) = after_state_update(p, lock, update, now);
            &&& after.peers == (if patches.len() == 0 {
                between
            } else {
                after_patches(between, lock, patches).peers
            })
            &&& told == (update.peer_update is Some || update.peer_patches@.len() > 0 || alive)
        }),
{
    assert(change_views(update.peer_patches@) =~= update.peer_patches@.map_values(
        |c: PeerChange| c@,
    ));
}

} // verus!
