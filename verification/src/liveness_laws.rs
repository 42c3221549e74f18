//! What becomes of the stored peers when control says who is online and who was seen.
//!
//! A node's number stands for the first stored peer that carries it.

use vstd::prelude::*;

use crate::node::{NodeId, NodeView, Timestamp};
use crate::peer_db::{upsert_is_wf, DbView, EntryView, KeyView};
use crate::peer_tracker::{
    after_liveness, online_step, online_steps, seen_step, seen_steps,
};
use crate::search::{first_where_is, first_where_is_first};

verus! {

/// Whether the `i`th peer is the first with its node's number.
pub open spec fn stands_for_its_node(db: DbView, i: int) -> bool {
    &&& 0 <= i < db.entries.len()
    &&& forall|j: int|
        0 <= j < i ==> (#[trigger] db.entries[j]).node.id != db.entries[i].node.id
}

/// Whether the `k`th of `changes` is the last that speaks of `id`.
pub open spec fn last_word(changes: Seq<(NodeId, bool)>, id: NodeId, k: int) -> bool {
    &&& 0 <= k < changes.len()
    &&& changes[k].0 == id
    &&& forall|j: int| k < j < changes.len() ==> (#[trigger] changes[j]).0 != id
}

/// Whether none of `changes` speaks of `id`.
pub open spec fn unmentioned(changes: Seq<(NodeId, bool)>, id: NodeId) -> bool {
    forall|j: int| 0 <= j < changes.len() ==> (#[trigger] changes[j]).0 != id
}

/// Whether no two of `changes` speak of the same node, as where they come out of a map.
pub open spec fn each_once(changes: Seq<(NodeId, bool)>) -> bool {
    forall|i: int, j: int|
        0 <= i < j < changes.len() ==> (#[trigger] changes[i]).0 != (#[trigger] changes[j]).0
}

/// A node's number finds the first peer that carries it.
pub proof fn found_at(db: DbView, id: NodeId)
    requires
        db.wf(),
    ensures
        match db.index_of(KeyView::NodeId(id)) {
            Some(at) => stands_for_its_node(db, at) && db.entries[at].node.id == id && db.find(
                KeyView::NodeId(id),
            ) == Some(db.entries[at]) && db.index_of(
                KeyView::StableId(db.entries[at].node.stable_id),
            ) == Some(at),
            None => db.find(KeyView::NodeId(id)) is None && forall|i: int|
                0 <= i < db.entries.len() ==> (#[trigger] db.entries[i]).node.id != id,
        },
{
    let key = KeyView::NodeId(id);
    let p = |i: int| key.selects(db.entries[i]);
    first_where_is_first(p, db.entries.len() as int);
    match db.index_of(key) {
        Some(at) => {
            assert(p(at));
            assert forall|j: int| 0 <= j < at implies (#[trigger] db.entries[j]).node.id != id by {
                assert(!p(j));
            }
            let mine = KeyView::StableId(db.entries[at].node.stable_id);
            let q = |i: int| mine.selects(db.entries[i]);
            assert(q(at));
            assert forall|j: int| 0 <= j < at implies !#[trigger] q(j) by {
                assert(db.entries[j].node.stable_id != db.entries[at].node.stable_id);
            }
            first_where_is(q, db.entries.len() as int, at);
        },
        None => {
            assert forall|i: int| 0 <= i < db.entries.len() implies (
            #[trigger] db.entries[i]).node.id != id by {
                assert(!p(i));
            }
        },
    }
}

proof fn one_online_step(db: DbView, id: NodeId, online: bool)
    requires
        db.wf(),
    ensures
        ({
            let (after, changed) = online_step(db, id, online);
            &&& after.wf()
            &&& after.entries.len() == db.entries.len()
            &&& !changed ==> after == db
            &&& changed ==> exists|i: int|
                0 <= i < db.entries.len() && db.entries[i].node.id == id && (
                #[trigger] after.entries[i]).node.online != db.entries[i].node.online
            &&& forall|i: int|
                0 <= i < db.entries.len() ==> #[trigger] after.entries[i] == (
                if db.entries[i].node.id == id && stands_for_its_node(db, i) {
                    EntryView {
                        node: NodeView { online: Some(online), ..db.entries[i].node },
                        ..db.entries[i]
                    }
                } else {
                    db.entries[i]
                })
        }),
{
    found_at(db, id);
    let (after, changed) = online_step(db, id, online);
    match db.index_of(KeyView::NodeId(id)) {
        Some(at) => {
            let node = NodeView { online: Some(online), ..db.entries[at].node };
            upsert_is_wf(db, node);
            assert forall|i: int|
                0 <= i < db.entries.len() && db.entries[i].node.id == id && stands_for_its_node(
                    db,
                    i,
                ) implies i == at by {
                if i < at {
                    assert(db.entries[i].node.id != db.entries[at].node.id);
                } else if at < i {
                    assert(db.entries[at].node.id != db.entries[i].node.id);
                }
            }
            if changed {
                assert(after.entries[at].node.online != db.entries[at].node.online);
            }
        },
        None => {},
    }
}

proof fn one_seen_step(db: DbView, id: NodeId, seen: bool, now: Timestamp)
    requires
        db.wf(),
    ensures
        ({
            let (after, changed) = seen_step(db, id, seen, now);
            &&& after.wf()
            &&& after.entries.len() == db.entries.len()
            &&& !changed ==> after == db
            &&& changed ==> exists|i: int|
                0 <= i < db.entries.len() && db.entries[i].node.id == id && (
                #[trigger] after.entries[i]).node.last_seen != db.entries[i].node.last_seen
            &&& forall|i: int|
                0 <= i < db.entries.len() ==> #[trigger] after.entries[i] == (
                if db.entries[i].node.id == id && stands_for_its_node(db, i) {
                    EntryView {
                        node: NodeView {
                            last_seen: if seen {
                                Some(now)
                            } else {
                                None
                            },
                            ..db.entries[i].node
                        },
                        ..db.entries[i]
                    }
                } else {
                    db.entries[i]
                })
        }),
{
    found_at(db, id);
    let (after, changed) = seen_step(db, id, seen, now);
    match db.index_of(KeyView::NodeId(id)) {
        Some(at) => {
            let last_seen = if seen {
                Some(now)
            } else {
                None
            };
            let node = NodeView { last_seen, ..db.entries[at].node };
            upsert_is_wf(db, node);
            assert forall|i: int|
                0 <= i < db.entries.len() && db.entries[i].node.id == id && stands_for_its_node(
                    db,
                    i,
                ) implies i == at by {
                if i < at {
                    assert(db.entries[i].node.id != db.entries[at].node.id);
                } else if at < i {
                    assert(db.entries[at].node.id != db.entries[i].node.id);
                }
            }
            if changed {
                assert(after.entries[at].node.last_seen != db.entries[at].node.last_seen);
            }
        },
        None => {},
    }
}

/// Whether `b` holds the peers of `a`, each with its node's number.
spec fn same_nodes(a: DbView, b: DbView) -> bool {
    a.entries.len() == b.entries.len() && forall|i: int|
        0 <= i < a.entries.len() ==> (#[trigger] b.entries[i]).node.id == a.entries[i].node.id
}

proof fn same_nodes_stand(a: DbView, b: DbView, i: int)
    requires
        same_nodes(a, b),
        0 <= i < a.entries.len(),
    ensures
        stands_for_its_node(a, i) == stands_for_its_node(b, i),
{
    if stands_for_its_node(a, i) {
        assert forall|j: int| 0 <= j < i implies (#[trigger] b.entries[j]).node.id
            != b.entries[i].node.id by {
            assert(a.entries[j].node.id != a.entries[i].node.id);
        }
    }
    if stands_for_its_node(b, i) {
        assert forall|j: int| 0 <= j < i implies (#[trigger] a.entries[j]).node.id
            != a.entries[i].node.id by {
            assert(b.entries[j].node.id != b.entries[i].node.id);
        }
    }
}

proof fn online_effect(db: DbView, changes: Seq<(NodeId, bool)>)
    requires
        db.wf(),
    ensures
        ({
            let (after, changed) = online_steps(db, changes);
            &&& after.wf()
            &&& same_nodes(db, after)
            &&& !changed ==> after == db
            &&& changed && each_once(changes) ==> exists|i: int|
                0 <= i < db.entries.len() && (#[trigger] after.entries[i]).node.online
                    != db.entries[i].node.online
            &&& forall|i: int|
                0 <= i < db.entries.len() ==> #[trigger] after.entries[i] == (EntryView {
                    node: NodeView { online: after.entries[i].node.online, ..db.entries[i].node },
                    ..db.entries[i]
                })
            &&& forall|i: int|
                0 <= i < db.entries.len() && (!stands_for_its_node(db, i) || unmentioned(
                    changes,
                    db.entries[i].node.id,
                )) ==> (#[trigger] after.entries[i]).node.online == db.entries[i].node.online
            &&& forall|i: int, k: int|
                #![trigger after.entries[i], changes[k]]
                stands_for_its_node(db, i) && last_word(changes, db.entries[i].node.id, k)
                    ==> after.entries[i].node.online == Some(changes[k].1)
        }),
    decreases changes.len(),
{
    let (after, changed) = online_steps(db, changes);
    if changes.len() > 0 {
        let short = changes.drop_last();
        let n = changes.len() - 1;
        let (before, earlier) = online_steps(db, short);
        let (id, value) = changes.last();
        online_effect(db, short);
        one_online_step(before, id, value);
        let here = online_step(before, id, value).1;
        assert forall|i: int|
            0 <= i < db.entries.len() && (!stands_for_its_node(db, i) || unmentioned(
                changes,
                db.entries[i].node.id,
            )) implies (#[trigger] after.entries[i]).node.online == db.entries[i].node.online by {
            same_nodes_stand(db, before, i);
            assert(before.entries[i].node.id == db.entries[i].node.id);
            if unmentioned(changes, db.entries[i].node.id) {
                assert(changes[n].0 != db.entries[i].node.id);
                assert forall|j: int| 0 <= j < short.len() implies (#[trigger] short[j]).0
                    != db.entries[i].node.id by {
                    assert(changes[j].0 != db.entries[i].node.id);
                }
            }
        }
        assert forall|i: int, k: int|
            #![trigger after.entries[i], changes[k]]
            stands_for_its_node(db, i) && last_word(
                changes,
                db.entries[i].node.id,
                k,
            ) implies after.entries[i].node.online == Some(changes[k].1) by {
            same_nodes_stand(db, before, i);
            assert(before.entries[i].node.id == db.entries[i].node.id);
            if k < n {
                assert(changes[n].0 != db.entries[i].node.id);
                assert(short[k] == changes[k]);
                assert forall|j: int| k < j < short.len() implies (#[trigger] short[j]).0
                    != db.entries[i].node.id by {
                    assert(changes[j].0 != db.entries[i].node.id);
                }
                assert(last_word(short, db.entries[i].node.id, k));
                assert(before.entries[i].node.online == Some(short[k].1));
            }
        }
        if changed && each_once(changes) {
            if here {
                let i = choose|i: int|
                    0 <= i < before.entries.len() && before.entries[i].node.id == id && (
                    #[trigger] after.entries[i]).node.online != before.entries[i].node.online;
                assert(before.entries[i].node.id == db.entries[i].node.id);
                assert forall|j: int| 0 <= j < short.len() implies (#[trigger] short[j]).0 != id by {
                    assert(changes[j].0 != changes[n].0);
                }
                assert(unmentioned(short, db.entries[i].node.id));
                assert(before.entries[i].node.online == db.entries[i].node.online);
                assert(after.entries[i].node.online != db.entries[i].node.online);
            } else {
                assert(each_once(short)) by {
                    assert forall|i: int, j: int| 0 <= i < j < short.len() implies (
                    #[trigger] short[i]).0 != (#[trigger] short[j]).0 by {
                        assert(changes[i].0 != changes[j].0);
                    }
                }
                assert(after == before);
            }
        }
    }
}

proof fn seen_effect(db: DbView, changes: Seq<(NodeId, bool)>, now: Timestamp)
    requires
        db.wf(),
    ensures
        ({
            let (after, changed) = seen_steps(db, changes, now);
            &&& after.wf()
            &&& same_nodes(db, after)
            &&& !changed ==> after == db
            &&& changed && each_once(changes) ==> exists|i: int|
                0 <= i < db.entries.len() && (#[trigger] after.entries[i]).node.last_seen
                    != db.entries[i].node.last_seen
            &&& forall|i: int|
                0 <= i < db.entries.len() ==> #[trigger] after.entries[i] == (EntryView {
                    node: NodeView {
                        last_seen: after.entries[i].node.last_seen,
                        ..db.entries[i].node
                    },
                    ..db.entries[i]
                })
            &&& forall|i: int|
                0 <= i < db.entries.len() && (!stands_for_its_node(db, i) || unmentioned(
                    changes,
                    db.entries[i].node.id,
                )) ==> (#[trigger] after.entries[i]).node.last_seen == db.entries[i].node.last_seen
            &&& forall|i: int, k: int|
                #![trigger after.entries[i], changes[k]]
                stands_for_its_node(db, i) && last_word(changes, db.entries[i].node.id, k)
                    ==> after.entries[i].node.last_seen == (if changes[k].1 {
                    Some(now)
                } else {
                    None
                })
        }),
    decreases changes.len(),
{
    let (after, changed) = seen_steps(db, changes, now);
    if changes.len() > 0 {
        let short = changes.drop_last();
        let n = changes.len() - 1;
        let (before, earlier) = seen_steps(db, short, now);
        let (id, value) = changes.last();
        seen_effect(db, short, now);
        one_seen_step(before, id, value, now);
        let here = seen_step(before, id, value, now).1;
        assert forall|i: int|
            0 <= i < db.entries.len() && (!stands_for_its_node(db, i) || unmentioned(
                changes,
                db.entries[i].node.id,
            )) implies (#[trigger] after.entries[i]).node.last_seen
            == db.entries[i].node.last_seen by {
            same_nodes_stand(db, before, i);
            assert(before.entries[i].node.id == db.entries[i].node.id);
            if unmentioned(changes, db.entries[i].node.id) {
                assert(changes[n].0 != db.entries[i].node.id);
                assert forall|j: int| 0 <= j < short.len() implies (#[trigger] short[j]).0
                    != db.entries[i].node.id by {
                    assert(changes[j].0 != db.entries[i].node.id);
                }
            }
        }
        assert forall|i: int, k: int|
            #![trigger after.entries[i], changes[k]]
            stands_for_its_node(db, i) && last_word(
                changes,
                db.entries[i].node.id,
                k,
            ) implies after.entries[i].node.last_seen == (if changes[k].1 {
            Some(now)
        } else {
            None
        }) by {
            same_nodes_stand(db, before, i);
            assert(before.entries[i].node.id == db.entries[i].node.id);
            if k < n {
                assert(changes[n].0 != db.entries[i].node.id);
                assert(short[k] == changes[k]);
                assert forall|j: int| k < j < short.len() implies (#[trigger] short[j]).0
                    != db.entries[i].node.id by {
                    assert(changes[j].0 != db.entries[i].node.id);
                }
                assert(last_word(short, db.entries[i].node.id, k));
                assert(before.entries[i].node.last_seen == (if short[k].1 {
                    Some(now)
                } else {
                    None
                }));
            }
        }
        if changed && each_once(changes) {
            if here {
                let i = choose|i: int|
                    0 <= i < before.entries.len() && before.entries[i].node.id == id && (
                    #[trigger] after.entries[i]).node.last_seen != before.entries[i].node.last_seen;
                assert(before.entries[i].node.id == db.entries[i].node.id);
                assert forall|j: int| 0 <= j < short.len() implies (#[trigger] short[j]).0 != id by {
                    assert(changes[j].0 != changes[n].0);
                }
                assert(unmentioned(short, db.entries[i].node.id));
                assert(before.entries[i].node.last_seen == db.entries[i].node.last_seen);
                assert(after.entries[i].node.last_seen != db.entries[i].node.last_seen);
            } else {
                assert(each_once(short)) by {
                    assert forall|i: int, j: int| 0 <= i < j < short.len() implies (
                    #[trigger] short[i]).0 != (#[trigger] short[j]).0 by {
                        assert(changes[i].0 != changes[j].0);
                    }
                }
                assert(after == before);
            }
        }
    }
}

/// A peer is online exactly as control said last, in either direction, and no sighting changes
/// that.
pub proof fn the_last_word_on_being_online_stands(
    db: DbView,
    online: Seq<(NodeId, bool)>,
    seen: Seq<(NodeId, bool)>,
    now: Timestamp,
    i: int,
    k: int,
)
    requires
        db.wf(),
        stands_for_its_node(db, i),
        last_word(online, db.entries[i].node.id, k),
    ensures
        after_liveness(db, online, seen, now).0.entries[i].node.online == Some(online[k].1),
{
    online_effect(db, online);
    let mid = online_steps(db, online).0;
    seen_effect(mid, seen, now);
    let after = seen_steps(mid, seen, now).0;
    assert(mid.entries[i].node.online == Some(online[k].1));
    assert(after.entries[i].node.online == mid.entries[i].node.online);
}

/// A peer that no online change speaks of is as online as before.
pub proof fn nobody_else_goes_on_or_offline(
    db: DbView,
    online: Seq<(NodeId, bool)>,
    seen: Seq<(NodeId, bool)>,
    now: Timestamp,
    i: int,
)
    requires
        db.wf(),
        0 <= i < db.entries.len(),
        !stands_for_its_node(db, i) || unmentioned(online, db.entries[i].node.id),
    ensures
        after_liveness(db, online, seen, now).0.entries[i].node.online
            == db.entries[i].node.online,
{
    online_effect(db, online);
    let mid = online_steps(db, online).0;
    seen_effect(mid, seen, now);
    let after = seen_steps(mid, seen, now).0;
    assert(mid.entries[i].node.online == db.entries[i].node.online);
    assert(after.entries[i].node.online == mid.entries[i].node.online);
}

/// A peer that was seen was last seen now, and one that does not count as seen any more was never
/// seen, as control said last.
pub proof fn the_last_sighting_stands(
    db: DbView,
    online: Seq<(NodeId, bool)>,
    seen: Seq<(NodeId, bool)>,
    now: Timestamp,
    i: int,
    k: int,
)
    requires
        db.wf(),
        stands_for_its_node(db, i),
        last_word(seen, db.entries[i].node.id, k),
    ensures
        after_liveness(db, online, seen, now).0.entries[i].node.last_seen == (if seen[k].1 {
            Some(now)
        } else {
            None
        }),
{
    online_effect(db, online);
    let mid = online_steps(db, online).0;
    same_nodes_stand(db, mid, i);
    assert(mid.entries[i].node.id == db.entries[i].node.id);
    seen_effect(mid, seen, now);
    let after = seen_steps(mid, seen, now).0;
    assert(after.entries[i].node.last_seen == (if seen[k].1 {
        Some(now)
    } else {
        None
    }));
}

/// A peer that no sighting speaks of was last seen when it was before.
pub proof fn nobody_else_is_seen(
    db: DbView,
    online: Seq<(NodeId, bool)>,
    seen: Seq<(NodeId, bool)>,
    now: Timestamp,
    i: int,
)
    requires
        db.wf(),
        0 <= i < db.entries.len(),
        !stands_for_its_node(db, i) || unmentioned(seen, db.entries[i].node.id),
    ensures
        after_liveness(db, online, seen, now).0.entries[i].node.last_seen
            == db.entries[i].node.last_seen,
{
    online_effect(db, online);
    let mid = online_steps(db, online).0;
    same_nodes_stand(db, mid, i);
    assert(mid.entries[i].node.id == db.entries[i].node.id);
    seen_effect(mid, seen, now);
    let after = seen_steps(mid, seen, now).0;
    assert(mid.entries[i].node.last_seen == db.entries[i].node.last_seen);
    assert(after.entries[i].node.last_seen == mid.entries[i].node.last_seen);
}

/// Nothing but being online and being seen changes, of any peer.
pub proof fn liveness_is_all_that_changes(
    db: DbView,
    online: Seq<(NodeId, bool)>,
    seen: Seq<(NodeId, bool)>,
    now: Timestamp,
)
    requires
        db.wf(),
    ensures
        after_liveness(db, online, seen, now).0.entries.len() == db.entries.len(),
        forall|i: int|
            0 <= i < db.entries.len() ==> #[trigger] after_liveness(
                db,
                online,
                seen,
                now,
            ).0.entries[i] == (EntryView {
                node: NodeView {
                    online: after_liveness(db, online, seen, now).0.entries[i].node.online,
                    last_seen: after_liveness(db, online, seen, now).0.entries[i].node.last_seen,
                    ..db.entries[i].node
                },
                ..db.entries[i]
            }),
{
    online_effect(db, online);
    let mid = online_steps(db, online).0;
    seen_effect(mid, seen, now);
    let after = seen_steps(mid, seen, now).0;
    assert forall|i: int| 0 <= i < db.entries.len() implies #[trigger] after.entries[i] == (
    EntryView {
        node: NodeView {
            online: after.entries[i].node.online,
            last_seen: after.entries[i].node.last_seen,
            ..db.entries[i].node
        },
        ..db.entries[i]
    }) by {
        assert(mid.entries[i] == (EntryView {
            node: NodeView { online: mid.entries[i].node.online, ..db.entries[i].node },
            ..db.entries[i]
        }));
    }
}

/// Where nothing is said to have changed, the peers are as before. Where each node is spoken of at
/// most once in each list, something is said to have changed exactly where some peer's node differs
/// from before.
pub proof fn changes_are_told_truly(
    db: DbView,
    online: Seq<(NodeId, bool)>,
    seen: Seq<(NodeId, bool)>,
    now: Timestamp,
)
    requires
        db.wf(),
    ensures
        !after_liveness(db, online, seen, now).1 ==> after_liveness(db, online, seen, now).0 == db,
        each_once(online) && each_once(seen) ==> (after_liveness(db, online, seen, now).1
            <==> exists|i: int|
            0 <= i < db.entries.len() && (#[trigger] after_liveness(
                db,
                online,
                seen,
                now,
            ).0.entries[i]).node != db.entries[i].node),
{
    online_effect(db, online);
    let (mid, first) = online_steps(db, online);
    seen_effect(mid, seen, now);
    let (after, second) = seen_steps(mid, seen, now);
    if each_once(online) && each_once(seen) {
        if first {
            let i = choose|i: int|
                0 <= i < db.entries.len() && (#[trigger] mid.entries[i]).node.online
                    != db.entries[i].node.online;
            assert(after.entries[i].node.online == mid.entries[i].node.online);
            assert(after.entries[i].node != db.entries[i].node);
        } else if second {
            let i = choose|i: int|
                0 <= i < mid.entries.len() && (#[trigger] after.entries[i]).node.last_seen
                    != mid.entries[i].node.last_seen;
            assert(after.entries[i].node != db.entries[i].node);
        }
    }
}

} // verus!
