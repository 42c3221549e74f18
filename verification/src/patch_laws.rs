//! What becomes of the stored peers when control patches them, field by field.

use vstd::prelude::*;

use crate::liveness_laws::found_at;
use crate::node::{NodeId, NodeView, PeerId};
use crate::peer_db::{listed_is_found, remove_is_wf, KeyView};
use crate::peer_laws::{from_control_shape, slot_of};
use crate::peer_tracker::{after_patches, merged, ChangeView, PeersView, Touched};
use crate::search::{first_where_is, first_where_is_first, first_where_none};
use crate::tailnet_lock::{verdict, AuthorityView};

verus! {

/// Whether `after` is `before` with what `change` carries: each field that it carries is the
/// change's, and each that it does not is as it was. What a change cannot carry is as it was too.
/// Of the disco key nothing is said here.
pub open spec fn takes(before: NodeView, change: ChangeView, after: NodeView) -> bool {
    &&& after.underlay_addresses == (match change.underlay_addresses {
        Some(a) => a,
        None => before.underlay_addresses,
    })
    &&& after.derp_region == (match change.derp_region {
        Some(r) => Some(r),
        None => before.derp_region,
    })
    &&& after.cap == (match change.cap {
        Some(c) => c,
        None => before.cap,
    })
    &&& after.cap_map == (match change.cap_map {
        Some(m) => m,
        None => before.cap_map,
    })
    &&& after.node_key_expiry == (match change.node_key_expiry {
        Some(t) => Some(t),
        None => before.node_key_expiry,
    })
    &&& after.online == (match change.online {
        Some(o) => Some(o),
        None => before.online,
    })
    &&& after.last_seen == (match change.last_seen {
        Some(t) => Some(t),
        None => before.last_seen,
    })
    &&& after.node_key == (match change.node_key {
        Some(k) => k,
        None => before.node_key,
    })
    &&& after.key_signature == (match change.key_signature {
        Some(s) => s,
        None => before.key_signature,
    })
    &&& after.id == before.id
    &&& after.stable_id == before.stable_id
    &&& after.hostname == before.hostname
    &&& after.tailnet == before.tailnet
    &&& after.user_id == before.user_id
    &&& after.ipv4 == before.ipv4
    &&& after.ipv6 == before.ipv6
    &&& after.service_addresses == before.service_addresses
    &&& after.accepted_routes == before.accepted_routes
    &&& after.unsigned_peer_api_only == before.unsigned_peer_api_only
}

/// `node` under the node key and the signature that `change` carries, as far as it carries them.
pub open spec fn rekeyed(node: NodeView, change: ChangeView) -> NodeView {
    NodeView {
        node_key: match change.node_key {
            Some(k) => k,
            None => node.node_key,
        },
        key_signature: match change.key_signature {
            Some(s) => s,
            None => node.key_signature,
        },
        ..node
    }
}

proof fn only_key_and_signature_are_judged(lock: Option<AuthorityView>, a: NodeView, b: NodeView)
    requires
        a.node_key == b.node_key,
        a.key_signature == b.key_signature,
    ensures
        verdict(lock, a) == verdict(lock, b),
{
}

proof fn one_patch(t: Touched, lock: Option<AuthorityView>, change: ChangeView)
    requires
        t.peers.db.wf(),
    ensures
        ({
            let db = t.peers.db;
            let after = t.patch(lock, change);
            let out = after.peers.db;
            &&& out.wf()
            &&& match db.index_of(KeyView::NodeId(change.id)) {
                Some(at) => {
                    let entry = db.entries[at];
                    &&& 0 <= at < db.entries.len()
                    &&& entry.node.id == change.id
                    &&& verdict(lock, rekeyed(entry.node, change)).admitted ==> {
                        &&& out.entries == db.entries.update(at, out.entries[at])
                        &&& out.entries[at].id == entry.id
                        &&& takes(entry.node, change, out.entries[at].node)
                        &&& after.upserts == t.upserts.insert(entry.id)
                        &&& after.deletions == t.deletions
                    }
                    &&& !verdict(lock, rekeyed(entry.node, change)).admitted ==> {
                        &&& out.entries == db.entries.remove(at)
                        &&& after.upserts == t.upserts
                        &&& after.deletions == t.deletions.insert(entry.id)
                    }
                },
                None => after == t,
            }
        }),
{
    let db = t.peers.db;
    found_at(db, change.id);
    match db.index_of(KeyView::NodeId(change.id)) {
        Some(at) => {
            let entry = db.entries[at];
            let node = merged(entry.node, change, t.peers.disco_of(entry.node.node_key).control);
            only_key_and_signature_are_judged(lock, node, rekeyed(entry.node, change));
            if verdict(lock, node).admitted {
                from_control_shape(t.peers, node);
                assert(slot_of(db, node) == at);
            } else {
                remove_is_wf(db, KeyView::NodeId(change.id));
            }
        },
        None => {},
    }
}

proof fn a_patch_leaves_other_nodes(
    t: Touched,
    lock: Option<AuthorityView>,
    change: ChangeView,
    id: NodeId,
)
    requires
        t.peers.db.wf(),
        change.id != id,
    ensures
        t.patch(lock, change).peers.db.find(KeyView::NodeId(id)) == t.peers.db.find(
            KeyView::NodeId(id),
        ),
{
    one_patch(t, lock, change);
    let db = t.peers.db;
    let out = t.patch(lock, change).peers.db;
    let key = KeyView::NodeId(id);
    let p = |i: int| key.selects(db.entries[i]);
    let q = |i: int| key.selects(out.entries[i]);
    first_where_is_first(p, db.entries.len() as int);
    match db.index_of(KeyView::NodeId(change.id)) {
        Some(at) => {
            let stays = verdict(lock, rekeyed(db.entries[at].node, change)).admitted;
            assert forall|j: int| 0 <= j < out.entries.len() implies #[trigger] q(j) == p(
                if stays || j < at {
                    j
                } else {
                    j + 1
                },
            ) by {}
            match db.index_of(key) {
                Some(i) => {
                    assert(p(i));
                    assert(i != at);
                    let m = if stays || i < at {
                        i
                    } else {
                        i - 1
                    };
                    assert(q(m));
                    assert forall|j: int| 0 <= j < m implies !#[trigger] q(j) by {
                        assert(!p(
                            if stays || j < at {
                                j
                            } else {
                                j + 1
                            },
                        ));
                    }
                    first_where_is(q, out.entries.len() as int, m);
                },
                None => {
                    first_where_none(q, out.entries.len() as int);
                },
            }
        },
        None => {},
    }
}

proof fn a_patch_brings_nobody_back(
    t: Touched,
    lock: Option<AuthorityView>,
    change: ChangeView,
    id: PeerId,
)
    requires
        t.peers.db.wf(),
        !t.peers.db.has(KeyView::Id(id)),
    ensures
        !t.patch(lock, change).peers.db.has(KeyView::Id(id)),
{
    one_patch(t, lock, change);
    let db = t.peers.db;
    let out = t.patch(lock, change).peers.db;
    let key = KeyView::Id(id);
    let q = |i: int| key.selects(out.entries[i]);
    first_where_is_first(q, out.entries.len() as int);
    if out.has(key) {
        let j = out.index_of(key)->0;
        assert(q(j));
        match db.index_of(KeyView::NodeId(change.id)) {
            Some(at) => {
                let stays = verdict(lock, rekeyed(db.entries[at].node, change)).admitted;
                listed_is_found(
                    db,
                    key,
                    if stays || j < at {
                        j
                    } else {
                        j + 1
                    },
                );
            },
            None => {
                listed_is_found(db, key, j);
            },
        }
    }
}

proof fn patches_leave_other_nodes(
    t: Touched,
    lock: Option<AuthorityView>,
    changes: Seq<ChangeView>,
    id: NodeId,
)
    requires
        t.peers.db.wf(),
        forall|i: int| 0 <= i < changes.len() ==> (#[trigger] changes[i]).id != id,
    ensures
        t.patch_all(lock, changes).peers.db.wf(),
        t.patch_all(lock, changes).peers.db.find(KeyView::NodeId(id)) == t.peers.db.find(
            KeyView::NodeId(id),
        ),
    decreases changes.len(),
{
    if changes.len() > 0 {
        let short = changes.drop_last();
        assert forall|i: int| 0 <= i < short.len() implies (#[trigger] short[i]).id != id by {
            assert(changes[i].id != id);
        }
        patches_leave_other_nodes(t, lock, short, id);
        assert(changes[changes.len() - 1].id != id);
        let before = t.patch_all(lock, short);
        one_patch(before, lock, changes.last());
        a_patch_leaves_other_nodes(before, lock, changes.last(), id);
    }
}

proof fn a_patch_takes_effect(
    t: Touched,
    lock: Option<AuthorityView>,
    changes: Seq<ChangeView>,
    k: int,
)
    requires
        t.peers.db.wf(),
        0 <= k < changes.len(),
        forall|i: int| 0 <= i < changes.len() && i != k ==> (#[trigger] changes[i]).id != changes[k].id,
        t.peers.db.has(KeyView::NodeId(changes[k].id)),
    ensures
        t.patch_all(lock, changes).peers.db.wf(),
        ({
            let entry = t.peers.db.find(KeyView::NodeId(changes[k].id))->0;
            let after = t.patch_all(lock, changes);
            let found = after.peers.db.find(KeyView::NodeId(changes[k].id));
            if verdict(lock, rekeyed(entry.node, changes[k])).admitted {
                &&& found is Some
                &&& found->0.id == entry.id
                &&& takes(entry.node, changes[k], found->0.node)
                &&& after.upserts.contains(entry.id)
            } else {
                &&& !after.peers.db.has(KeyView::Id(entry.id))
                &&& after.deletions.contains(entry.id)
            }
        }),
    decreases changes.len(),
{
    let short = changes.drop_last();
    let before = t.patch_all(lock, short);
    let last = changes.last();
    let id = changes[k].id;
    let entry = t.peers.db.find(KeyView::NodeId(id))->0;
    if k < short.len() {
        assert forall|i: int| 0 <= i < short.len() && i != k implies (#[trigger] short[i]).id
            != short[k].id by {
            assert(changes[i].id != changes[k].id);
        }
        a_patch_takes_effect(t, lock, short, k);
        assert(changes[changes.len() - 1].id != id);
        one_patch(before, lock, last);
        a_patch_leaves_other_nodes(before, lock, last, id);
        if !verdict(lock, rekeyed(entry.node, changes[k])).admitted {
            a_patch_brings_nobody_back(before, lock, last, entry.id);
        }
    } else {
        assert forall|i: int| 0 <= i < short.len() implies (#[trigger] short[i]).id != id by {
            assert(changes[i].id != changes[k].id);
        }
        patches_leave_other_nodes(t, lock, short, id);
        one_patch(before, lock, last);
        let db = before.peers.db;
        found_at(db, id);
        let at = db.index_of(KeyView::NodeId(id))->0;
        let out = t.patch_all(lock, changes).peers.db;
        if verdict(lock, rekeyed(entry.node, last)).admitted {
            let key = KeyView::NodeId(id);
            let q = |i: int| key.selects(out.entries[i]);
            assert(q(at));
            assert forall|j: int| 0 <= j < at implies !#[trigger] q(j) by {
                assert(db.entries[j].node.id != db.entries[at].node.id);
            }
            first_where_is(q, out.entries.len() as int, at);
        } else {
            let key = KeyView::Id(entry.id);
            let q = |i: int| key.selects(out.entries[i]);
            assert forall|j: int| 0 <= j < out.entries.len() implies !#[trigger] q(j) by {
                let m = if j < at {
                    j
                } else {
                    j + 1
                };
                assert(out.entries[j] == db.entries[m]);
                assert(db.entries[m].id != db.entries[at].id);
            }
            first_where_none(q, out.entries.len() as int);
        }
    }
}

/// A patch for a stored node, where no other patch is for that node, takes effect in every field:
/// where the lock admits the node under the key and the signature that the patch leaves it with,
/// the entry that the node's number finds afterwards is the same peer, with each field that the
/// patch carries as the patch has it and each other one as before, and the peer is told as stored.
/// Where the lock does not admit it, the peer is gone, and told as dropped.
pub proof fn a_patch_sets_what_it_carries(
    p: PeersView,
    lock: Option<AuthorityView>,
    changes: Seq<ChangeView>,
    k: int,
)
    requires
        p.db.wf(),
        0 <= k < changes.len(),
        forall|i: int| 0 <= i < changes.len() && i != k ==> (#[trigger] changes[i]).id != changes[k].id,
        p.db.has(KeyView::NodeId(changes[k].id)),
    ensures
        ({
            let entry = p.db.find(KeyView::NodeId(changes[k].id))->0;
            let after = after_patches(p, lock, changes);
            let found = after.peers.db.find(KeyView::NodeId(changes[k].id));
            if verdict(lock, rekeyed(entry.node, changes[k])).admitted {
                &&& found is Some
                &&& found->0.id == entry.id
                &&& takes(entry.node, changes[k], found->0.node)
                &&& after.upserts.contains(entry.id)
            } else {
                &&& !after.peers.db.has(KeyView::Id(entry.id))
                &&& after.deletions.contains(entry.id)
            }
        }),
{
    a_patch_takes_effect(Touched::start(p), lock, changes, k);
}

/// Patches leave every node that none of them is for as it is, disco keys included.
pub proof fn patches_leave_the_unmentioned(
    p: PeersView,
    lock: Option<AuthorityView>,
    changes: Seq<ChangeView>,
    id: NodeId,
)
    requires
        p.db.wf(),
        forall|i: int| 0 <= i < changes.len() ==> (#[trigger] changes[i]).id != id,
    ensures
        after_patches(p, lock, changes).peers.db.find(KeyView::NodeId(id)) == p.db.find(
            KeyView::NodeId(id),
        ),
{
    patches_leave_other_nodes(Touched::start(p), lock, changes, id);
}

/// A patch that says nothing of the disco key and of the node key leaves the key that the peer is
/// reached under as it is, whether control sent that key or the peer advertised it. A patch that
/// carries a disco key is followed where the peer has advertised none under the node key that the
/// patch leaves it with.
pub proof fn a_patch_moves_the_disco_key_only_where_it_carries_one(
    p: PeersView,
    lock: Option<AuthorityView>,
    change: ChangeView,
)
    requires
        p.db.wf(),
        p.db.has(KeyView::NodeId(change.id)),
        verdict(lock, rekeyed(p.db.find(KeyView::NodeId(change.id))->0.node, change)).admitted,
    ensures
        ({
            let before = p.db.find(KeyView::NodeId(change.id))->0.node;
            let after = after_patches(p, lock, seq![change]).peers.db.find(
                KeyView::NodeId(change.id),
            )->0.node;
            let known = p.disco_of(before.node_key);
            let key = rekeyed(before, change).node_key;
            &&& change.disco_key is None && change.node_key is None && before.disco_key == (
            if known.tsmp_active {
                known.tsmp
            } else {
                known.control
            }) && (known.control is Some ==> !(known.control->0.hi == 0 && known.control->0.lo
                == 0)) ==> after.disco_key == before.disco_key
            &&& change.disco_key is Some && !(change.disco_key->0.hi == 0
                && change.disco_key->0.lo == 0) && (!p.disco.dom().contains(key)
                || !p.disco[key].tsmp_active) ==> after.disco_key == change.disco_key
            &&& change.disco_key is Some && p.disco.dom().contains(key)
                && p.disco[key].tsmp_active && p.disco[key].tsmp is Some ==> after.disco_key
                == p.disco[key].tsmp
        }),
{
    let db = p.db;
    let one = seq![change];
    let start = Touched::start(p);
    assert(one.drop_last() =~= Seq::<ChangeView>::empty());
    assert(start.patch_all(lock, one.drop_last()) == start);
    assert(start.patch_all(lock, one) == start.patch(lock, change));
    one_patch(start, lock, change);
    found_at(db, change.id);
    let at = db.index_of(KeyView::NodeId(change.id))->0;
    let entry = db.entries[at];
    let node = merged(entry.node, change, p.disco_of(entry.node.node_key).control);
    only_key_and_signature_are_judged(lock, node, rekeyed(entry.node, change));
    from_control_shape(p, node);
    assert(slot_of(db, node) == at);
    let out = start.patch(lock, change).peers.db;
    let key = KeyView::NodeId(change.id);
    let q = |i: int| key.selects(out.entries[i]);
    assert(q(at));
    assert forall|j: int| 0 <= j < at implies !#[trigger] q(j) by {
        assert(db.entries[j].node.id != db.entries[at].node.id);
    }
    first_where_is(q, out.entries.len() as int, at);
    assert(out.entries[at].node.disco_key == p.resolved(node).active());
}

/// A patch names the peer that it is for and nobody else: as stored where the lock admits it, as
/// dropped where it does not. A patch for a node that is not stored changes nothing.
pub proof fn a_patch_names_its_peer_alone(
    p: PeersView,
    lock: Option<AuthorityView>,
    change: ChangeView,
)
    requires
        p.db.wf(),
    ensures
        ({
            let after = after_patches(p, lock, seq![change]);
            let found = p.db.find(KeyView::NodeId(change.id));
            let admitted = found is Some && verdict(lock, rekeyed(found->0.node, change)).admitted;
            &&& forall|id: PeerId| #[trigger]
                after.upserts.contains(id) <==> admitted && id == found->0.id
            &&& forall|id: PeerId| #[trigger]
                after.deletions.contains(id) <==> found is Some && !admitted && id == found->0.id
            &&& found is None ==> after.peers.db == p.db
        }),
{
    let one = seq![change];
    let start = Touched::start(p);
    assert(one.drop_last() =~= Seq::<ChangeView>::empty());
    assert(start.patch_all(lock, one.drop_last()) == start);
    assert(start.patch_all(lock, one) == start.patch(lock, change));
    one_patch(start, lock, change);
    found_at(p.db, change.id);
}

/// Patches are applied in turn, also where several are for one node: the last one is applied to what
/// the ones before it left, and leaves every other node as they left it.
pub proof fn patches_are_applied_in_turn(
    p: PeersView,
    lock: Option<AuthorityView>,
    changes: Seq<ChangeView>,
    id: NodeId,
)
    requires
        p.db.wf(),
        changes.len() > 0,
    ensures
        ({
            let last = changes.last();
            let between = after_patches(p, lock, changes.drop_last());
            let after = after_patches(p, lock, changes);
            let before = between.peers.db.find(KeyView::NodeId(last.id));
            let found = after.peers.db.find(KeyView::NodeId(last.id));
            &&& before is None ==> after.peers.db == between.peers.db
            &&& before is Some && verdict(lock, rekeyed(before->0.node, last)).admitted ==> found is Some
                && found->0.id == before->0.id && takes(before->0.node, last, found->0.node)
                && after.upserts.contains(before->0.id)
            &&& before is Some && !verdict(lock, rekeyed(before->0.node, last)).admitted
                ==> !after.peers.db.has(KeyView::Id(before->0.id)) && after.deletions.contains(
                before->0.id,
            )
            &&& id != last.id ==> after.peers.db.find(KeyView::NodeId(id))
                == between.peers.db.find(KeyView::NodeId(id))
            &&& between.upserts.subset_of(after.upserts)
            &&& between.deletions.subset_of(after.deletions)
        }),
{
    let start = Touched::start(p);
    let short = changes.drop_last();
    let mid = start.patch_all(lock, short);
    let last = changes.last();
    patches_stay_well_formed(start, lock, short);
    one_patch(mid, lock, last);
    found_at(mid.peers.db, last.id);
    let one = seq![last];
    assert(one.drop_last() =~= Seq::<ChangeView>::empty());
    assert(mid.patch_all(lock, one.drop_last()) == mid);
    assert(mid.patch_all(lock, one) == mid.patch(lock, last));
    if mid.peers.db.has(KeyView::NodeId(last.id)) {
        a_patch_takes_effect(mid, lock, one, 0);
    }
    if id != last.id {
        a_patch_leaves_other_nodes(mid, lock, last, id);
    }
}

proof fn patches_stay_well_formed(t: Touched, lock: Option<AuthorityView>, changes: Seq<ChangeView>)
    requires
        t.peers.db.wf(),
    ensures
        t.patch_all(lock, changes).peers.db.wf(),
    decreases changes.len(),
{
    if changes.len() > 0 {
        patches_stay_well_formed(t, lock, changes.drop_last());
        one_patch(t.patch_all(lock, changes.drop_last()), lock, changes.last());
    }
}

} // verus!
