//! Whom the tailnet lock keeps, said of the signatures that the peers present.

use vstd::prelude::*;

use crate::node::{node_key_bytes_injective, NodeView};
use crate::rotation::{
    groups_settle_apart, keys_apart, live, loses, obsolete_after, settle, survives, told,
    DetailsView, TrackerView,
};
use crate::search::first_where_is_first;
use crate::tailnet_lock::{chains_of, kept, obsolete_of, verdict, AuthorityView};

verus! {

/// The key of a peer and the chain that it presents.
struct Presented {
    key: Seq<u8>,
    chain: DetailsView,
}

spec fn folded(items: Seq<Option<Presented>>) -> TrackerView
    decreases items.len(),
{
    if items.len() == 0 {
        TrackerView { obsolete: Set::empty(), groups: Seq::empty() }
    } else {
        match items.last() {
            Some(c) => folded(items.drop_last()).add(c.key, c.chain),
            None => folded(items.drop_last()),
        }
    }
}

spec fn rotated(items: Seq<Option<Presented>>, key: Seq<u8>) -> bool {
    exists|i: int|
        0 <= i < items.len() && (#[trigger] items[i]) is Some && items[i]->0.chain.prev.contains(key)
}

spec fn apart(items: Seq<Option<Presented>>) -> bool {
    forall|i: int, j: int|
        0 <= i < j < items.len() && (#[trigger] items[i]) is Some && (#[trigger] items[j]) is Some
            ==> items[i]->0.key != items[j]->0.key
}

spec fn sits(items: Seq<Option<Presented>>, t: TrackerView, i: int, g: int, m: int) -> bool {
    &&& 0 <= i < items.len()
    &&& items[i] is Some
    &&& items[i]->0.chain.kind is Direct
    &&& 0 <= g < t.groups.len()
    &&& 0 <= m < t.groups[g].members.len()
    &&& t.groups[g].wrapping == items[i]->0.chain.wrapping
    &&& t.groups[g].members[m].key == items[i]->0.key
    &&& t.groups[g].members[m].depth == items[i]->0.chain.prev.len()
}

spec fn is_seated(items: Seq<Option<Presented>>, t: TrackerView, g: int, m: int) -> bool {
    exists|i: int| sits(items, t, i, g, m)
}

spec fn in_order(items: Seq<Option<Presented>>, t: TrackerView) -> bool {
    &&& t.wf()
    &&& forall|key: Seq<u8>| #[trigger] t.obsolete.contains(key) <==> rotated(items, key)
    &&& forall|g: int, m: int|
        0 <= g < t.groups.len() && 0 <= m < t.groups[g].members.len() ==> #[trigger] is_seated(
            items,
            t,
            g,
            m,
        )
    &&& forall|i: int|
        0 <= i < items.len() && (#[trigger] items[i]) is Some && items[i]->0.chain.kind is Direct
            ==> exists|g: int, m: int| sits(items, t, i, g, m)
    &&& forall|g: int, m: int, h: int, n: int|
        #![trigger t.groups[g].members[m], t.groups[h].members[n]]
        0 <= g < t.groups.len() && 0 <= m < t.groups[g].members.len() && 0 <= h < t.groups.len()
            && 0 <= n < t.groups[h].members.len() && (g != h || m != n)
            ==> t.groups[g].members[m].key != t.groups[h].members[n].key
}

proof fn folding_is_in_order(items: Seq<Option<Presented>>)
    requires
        apart(items),
    ensures
        in_order(items, folded(items)),
    decreases items.len(),
{
    let t = folded(items);
    if items.len() == 0 {
        assert forall|key: Seq<u8>| #[trigger] t.obsolete.contains(key) implies rotated(
            items,
            key,
        ) by {}
    } else {
        let short = items.drop_last();
        let n = items.len() - 1;
        let before = folded(short);
        assert(apart(short)) by {
            assert forall|i: int, j: int|
                0 <= i < j < short.len() && (#[trigger] short[i]) is Some && (
                #[trigger] short[j]) is Some implies short[i]->0.key != short[j]->0.key by {
                assert(items[i] == short[i] && items[j] == short[j]);
            }
        }
        folding_is_in_order(short);
        assert forall|key: Seq<u8>| rotated(items, key) == (rotated(short, key) || (
        items[n] is Some && items[n]->0.chain.prev.contains(key))) by {
            if rotated(items, key) {
                let i = choose|i: int|
                    0 <= i < items.len() && (#[trigger] items[i]) is Some
                        && items[i]->0.chain.prev.contains(key);
                if i < n {
                    assert(short[i] == items[i]);
                }
            }
            if rotated(short, key) {
                let i = choose|i: int|
                    0 <= i < short.len() && (#[trigger] short[i]) is Some
                        && short[i]->0.chain.prev.contains(key);
                assert(items[i] == short[i]);
            }
        }
        match items[n] {
            None => {
                assert forall|i: int, g: int, m: int| #[trigger]
                    sits(short, before, i, g, m) implies sits(items, t, i, g, m) by {
                    assert(items[i] == short[i]);
                }
                assert forall|i: int|
                    0 <= i < items.len() && (#[trigger] items[i]) is Some
                        && items[i]->0.chain.kind is Direct implies exists|g: int, m: int|
                    sits(items, t, i, g, m) by {
                    assert(short[i] == items[i]);
                    let (g, m) = choose|g: int, m: int| sits(short, before, i, g, m);
                    assert(sits(items, t, i, g, m));
                }
                assert forall|g: int, m: int|
                    0 <= g < t.groups.len() && 0 <= m
                        < t.groups[g].members.len() implies #[trigger] is_seated(items, t, g, m) by {
                    assert(is_seated(short, before, g, m));
                    let i = choose|i: int| sits(short, before, i, g, m);
                    assert(sits(items, t, i, g, m));
                }
            },
            Some(c) => {
                adding_is_in_order(short, before, items, c);
            },
        }
    }
}

proof fn adding_is_in_order(
    short: Seq<Option<Presented>>,
    before: TrackerView,
    items: Seq<Option<Presented>>,
    c: Presented,
)
    requires
        items.len() > 0,
        short == items.drop_last(),
        items.last() == Some(c),
        apart(items),
        in_order(short, before),
        forall|key: Seq<u8>|
            rotated(items, key) == (rotated(short, key) || c.chain.prev.contains(key)),
    ensures
        in_order(items, before.add(c.key, c.chain)),
{
    let t = before.add(c.key, c.chain);
    let n = items.len() - 1;
    assert(items[n] == Some(c));
    let p = |i: int| before.groups[i].wrapping == c.chain.wrapping;
    first_where_is_first(p, before.groups.len() as int);
    assert forall|key: Seq<u8>| #[trigger] t.obsolete.contains(key) <==> rotated(items, key) by {
        assert(c.chain.prev.to_set().contains(key) == c.chain.prev.contains(key));
        assert(before.obsolete.contains(key) == rotated(short, key));
    }
    if c.chain.kind is Direct {
        let (at, slot) = match before.group_of(c.chain.wrapping) {
            Some(g) => (g, before.groups[g].members.len() as int),
            None => (before.groups.len() as int, 0),
        };
        assert(sits(items, t, n, at, slot));
        assert forall|g: int, m: int|
            #![trigger t.groups[g].members[m]]
            0 <= g < t.groups.len() && 0 <= m < t.groups[g].members.len() && (g != at || m
                != slot) implies 0 <= g < before.groups.len() && 0 <= m
            < before.groups[g].members.len() && t.groups[g].members[m]
            == before.groups[g].members[m] && t.groups[g].wrapping == before.groups[g].wrapping by {
            match before.group_of(c.chain.wrapping) {
                Some(k) => {
                    assert(p(k));
                },
                None => {},
            }
        }
        assert forall|i: int, g: int, m: int| #[trigger]
            sits(short, before, i, g, m) implies sits(items, t, i, g, m) by {
            assert(items[i] == short[i]);
            match before.group_of(c.chain.wrapping) {
                Some(k) => {
                    assert(p(k));
                },
                None => {},
            }
        }
        assert forall|g: int, m: int|
            0 <= g < t.groups.len() && 0 <= m < t.groups[g].members.len() implies #[trigger] is_seated(
            items,
            t,
            g,
            m,
        ) by {
            if g != at || m != slot {
                assert(before.groups[g].members[m] == t.groups[g].members[m]);
                assert(is_seated(short, before, g, m));
                let i = choose|i: int| sits(short, before, i, g, m);
                assert(sits(items, t, i, g, m));
            }
        }
        assert forall|i: int|
            0 <= i < items.len() && (#[trigger] items[i]) is Some
                && items[i]->0.chain.kind is Direct implies exists|g: int, m: int|
            sits(items, t, i, g, m) by {
            if i < n {
                assert(short[i] == items[i]);
                let (g, m) = choose|g: int, m: int| sits(short, before, i, g, m);
                assert(sits(items, t, i, g, m));
            }
        }
        assert forall|g: int, m: int, h: int, k: int|
            #![trigger t.groups[g].members[m], t.groups[h].members[k]]
            0 <= g < t.groups.len() && 0 <= m < t.groups[g].members.len() && 0 <= h
                < t.groups.len() && 0 <= k < t.groups[h].members.len() && (g != h || m
                != k) implies t.groups[g].members[m].key != t.groups[h].members[k].key by {
            if (g != at || m != slot) && (h != at || k != slot) {
                assert(before.groups[g].members[m].key != before.groups[h].members[k].key);
            } else if g != at || m != slot {
                assert(before.groups[g].members[m] == t.groups[g].members[m]);
                assert(is_seated(short, before, g, m));
                let i = choose|i: int| sits(short, before, i, g, m);
                assert(short[i] == items[i]);
                assert(items[i]->0.key != items[n]->0.key);
            } else {
                assert(before.groups[h].members[k] == t.groups[h].members[k]);
                assert(is_seated(short, before, h, k));
                let i = choose|i: int| sits(short, before, i, h, k);
                assert(short[i] == items[i]);
                assert(items[i]->0.key != items[n]->0.key);
            }
        }
        assert(t.wf()) by {
            assert forall|i: int, j: int| 0 <= i < j < t.groups.len() implies (
            #[trigger] t.groups[i]).wrapping != (#[trigger] t.groups[j]).wrapping by {
                match before.group_of(c.chain.wrapping) {
                    Some(k) => {
                        assert(p(k));
                        assert(before.groups[i].wrapping != before.groups[j].wrapping);
                    },
                    None => {
                        if j < before.groups.len() {
                            assert(before.groups[i].wrapping != before.groups[j].wrapping);
                        } else {
                            assert(!p(i));
                        }
                    },
                }
            }
        }
    } else {
        assert(t.groups == before.groups);
        assert forall|i: int, g: int, m: int| #[trigger]
            sits(short, before, i, g, m) implies sits(items, t, i, g, m) by {
            assert(items[i] == short[i]);
        }
        assert forall|g: int, m: int|
            0 <= g < t.groups.len() && 0 <= m < t.groups[g].members.len() implies #[trigger] is_seated(
            items,
            t,
            g,
            m,
        ) by {
            assert(is_seated(short, before, g, m));
            let i = choose|i: int| sits(short, before, i, g, m);
            assert(sits(items, t, i, g, m));
        }
        assert forall|i: int|
            0 <= i < items.len() && (#[trigger] items[i]) is Some
                && items[i]->0.chain.kind is Direct implies exists|g: int, m: int|
            sits(items, t, i, g, m) by {
            assert(i < n);
            assert(short[i] == items[i]);
            let (g, m) = choose|g: int, m: int| sits(short, before, i, g, m);
            assert(sits(items, t, i, g, m));
        }
    }
}

spec fn beaten(items: Seq<Option<Presented>>, i: int, j: int) -> bool {
    &&& 0 <= i < items.len()
    &&& 0 <= j < items.len()
    &&& i != j
    &&& items[i] is Some
    &&& items[j] is Some
    &&& items[i]->0.chain.kind is Direct
    &&& items[j]->0.chain.kind is Direct
    &&& items[i]->0.chain.wrapping == items[j]->0.chain.wrapping
    &&& !rotated(items, items[j]->0.key)
    &&& items[i]->0.chain.prev.len() <= items[j]->0.chain.prev.len()
}

proof fn settled(items: Seq<Option<Presented>>, key: Seq<u8>)
    requires
        apart(items),
    ensures
        settle(folded(items).groups, folded(items).obsolete).contains(key) <==> rotated(items, key)
            || exists|i: int, j: int| #[trigger]
            beaten(items, i, j) && items[i]->0.key == key,
{
    let t = folded(items);
    folding_is_in_order(items);
    assert(keys_apart(t.groups));
    groups_settle_apart(t.groups, t.obsolete, key);
    assert(t.obsolete.contains(key) == rotated(items, key));
    if !rotated(items, key) {
        if exists|g: int|
            0 <= g < t.groups.len() && loses((#[trigger] t.groups[g]).members, t.obsolete, key) {
            let g = choose|g: int|
                0 <= g < t.groups.len() && loses(
                    (#[trigger] t.groups[g]).members,
                    t.obsolete,
                    key,
                );
            let ms = t.groups[g].members;
            let m = choose|m: int| #[trigger]
                live(ms, t.obsolete, m) && !survives(ms, t.obsolete, m) && ms[m].key == key;
            let k = choose|k: int|
                k != m && #[trigger] live(ms, t.obsolete, k) && !(ms[k].depth < ms[m].depth);
            assert(t.groups[g].members[m].key != t.groups[g].members[k].key);
            assert(is_seated(items, t, g, m));
            assert(is_seated(items, t, g, k));
            let i = choose|i: int| sits(items, t, i, g, m);
            let j = choose|j: int| sits(items, t, j, g, k);
            assert(!t.obsolete.contains(ms[k].key));
            assert(beaten(items, i, j));
        }
        if exists|i: int, j: int| #[trigger] beaten(items, i, j) && items[i]->0.key == key {
            let (i, j) = choose|i: int, j: int| #[trigger]
                beaten(items, i, j) && items[i]->0.key == key;
            let (g, m) = choose|g: int, m: int| sits(items, t, i, g, m);
            let (h, k) = choose|h: int, k: int| sits(items, t, j, h, k);
            if g < h {
                assert(t.groups[g].wrapping != t.groups[h].wrapping);
            } else if h < g {
                assert(t.groups[h].wrapping != t.groups[g].wrapping);
            }
            let ms = t.groups[g].members;
            if i < j {
                assert(items[i]->0.key != items[j]->0.key);
            } else {
                assert(items[j]->0.key != items[i]->0.key);
            }
            assert(m != k);
            assert(!t.obsolete.contains(ms[k].key));
            assert(live(ms, t.obsolete, m));
            assert(live(ms, t.obsolete, k));
            assert(!survives(ms, t.obsolete, m));
            assert(loses(ms, t.obsolete, key));
        }
    }
}

proof fn told_is_folded(chains: Seq<(Seq<u8>, DetailsView)>)
    ensures
        told(chains) == folded(chains.map_values(|c: (Seq<u8>, DetailsView)| Some(Presented { key: c.0, chain: c.1 }))),
    decreases chains.len(),
{
    let items = chains.map_values(|c: (Seq<u8>, DetailsView)| Some(Presented { key: c.0, chain: c.1 }));
    if chains.len() > 0 {
        told_is_folded(chains.drop_last());
        assert(items.drop_last() =~= chains.drop_last().map_values(
            |c: (Seq<u8>, DetailsView)| Some(Presented { key: c.0, chain: c.1 }),
        ));
        assert(items.last() == Some(
            Presented { key: chains.last().0, chain: chains.last().1 },
        ));
    }
}

/// Whether one of the chains has rotated `key` away.
pub open spec fn is_rotated_away(chains: Seq<(Seq<u8>, DetailsView)>, key: Seq<u8>) -> bool {
    exists|i: int| 0 <= i < chains.len() && (#[trigger] chains[i]).1.prev.contains(key)
}

/// Whether the `j`th chain stands in the way of the `i`th: both start from a direct signature under
/// one wrapping key, the `j`th peer's key is not rotated away, and its chain is at least as long.
pub open spec fn is_beaten(chains: Seq<(Seq<u8>, DetailsView)>, i: int, j: int) -> bool {
    &&& 0 <= j < chains.len()
    &&& i != j
    &&& chains[i].1.kind is Direct
    &&& chains[j].1.kind is Direct
    &&& chains[i].1.wrapping == chains[j].1.wrapping
    &&& !is_rotated_away(chains, chains[j].0)
    &&& chains[i].1.prev.len() <= chains[j].1.prev.len()
}

/// Where every peer presents its own key, the key of a peer is obsolete exactly where some chain
/// has rotated it away, or where another peer's chain stands in its way. So of two clones with
/// equally long chains neither stays.
pub proof fn who_is_obsolete(chains: Seq<(Seq<u8>, DetailsView)>, i: int)
    requires
        0 <= i < chains.len(),
        forall|a: int, b: int|
            0 <= a < b < chains.len() ==> (#[trigger] chains[a]).0 != (#[trigger] chains[b]).0,
    ensures
        obsolete_after(chains).contains(chains[i].0) <==> is_rotated_away(chains, chains[i].0)
            || exists|j: int| is_beaten(chains, i, j),
{
    let items = chains.map_values(|c: (Seq<u8>, DetailsView)| Some(Presented { key: c.0, chain: c.1 }));
    told_is_folded(chains);
    assert(apart(items)) by {
        assert forall|a: int, b: int|
            0 <= a < b < items.len() && (#[trigger] items[a]) is Some && (
            #[trigger] items[b]) is Some implies items[a]->0.key != items[b]->0.key by {
            assert(chains[a].0 != chains[b].0);
        }
    }
    let key = chains[i].0;
    settled(items, key);
    assert forall|k: Seq<u8>| rotated(items, k) == #[trigger] is_rotated_away(chains, k) by {
        if rotated(items, k) {
            let a = choose|a: int|
                0 <= a < items.len() && (#[trigger] items[a]) is Some
                    && items[a]->0.chain.prev.contains(k);
            assert(chains[a].1.prev.contains(k));
        }
        if is_rotated_away(chains, k) {
            let a = choose|a: int| 0 <= a < chains.len() && (#[trigger] chains[a]).1.prev.contains(k);
            assert(items[a]->0.chain.prev.contains(k));
        }
    }
    if exists|a: int, b: int| #[trigger] beaten(items, a, b) && items[a]->0.key == key {
        let (a, b) = choose|a: int, b: int| #[trigger]
            beaten(items, a, b) && items[a]->0.key == key;
        if a < i {
            assert(chains[a].0 != chains[i].0);
        } else if i < a {
            assert(chains[i].0 != chains[a].0);
        }
        assert(is_rotated_away(chains, chains[b].0) == rotated(items, chains[b].0));
        assert(is_beaten(chains, i, b));
    }
    if exists|j: int| is_beaten(chains, i, j) {
        let j = choose|j: int| is_beaten(chains, i, j);
        assert(is_rotated_away(chains, chains[j].0) == rotated(items, chains[j].0));
        assert(beaten(items, i, j));
    }
}

/// Whether the lock admits `node` by its own signature: there is no lock, or one that trusts no
/// key, or the node's signature is on the list of those that it authorizes for the node's key.
pub open spec fn is_admitted(lock: Option<AuthorityView>, node: NodeView) -> bool {
    ||| lock is None
    ||| lock->0.trusted_keys == 0
    ||| node.key_signature.len() > 0 && exists|i: int| is_listed(lock->0, node, i)
}

/// Whether the `i`th authorized signature is the one that `node` presents.
pub open spec fn is_listed(lock: AuthorityView, node: NodeView, i: int) -> bool {
    &&& 0 <= i < lock.authorized.len()
    &&& lock.authorized[i].node_key == node.node_key
    &&& lock.authorized[i].signature == node.key_signature
}

/// A peer is admitted by its own signature alone, and what is known of its chain is what the lock
/// lists first for that signature.
pub proof fn who_is_admitted(lock: Option<AuthorityView>, node: NodeView)
    ensures
        verdict(lock, node).admitted <==> is_admitted(lock, node),
        forall|i: int|
            lock is Some && lock->0.trusted_keys > 0 && node.key_signature.len() > 0
                && #[trigger] is_listed(lock->0, node, i) && (forall|j: int|
                0 <= j < i ==> !#[trigger] is_listed(lock->0, node, j)) ==> verdict(
                lock,
                node,
            ).rotation == lock->0.authorized[i].rotation,
        lock is None || lock->0.trusted_keys == 0 ==> verdict(lock, node).rotation is None,
{
    if lock is Some {
        let a = lock->0;
        let p = |i: int|
            a.authorized[i].node_key == node.node_key && a.authorized[i].signature
                == node.key_signature;
        first_where_is_first(p, a.authorized.len() as int);
        match a.listed(node.node_key, node.key_signature) {
            Some(k) => {
                assert(is_listed(a, node, k));
                assert forall|i: int|
                    #[trigger] is_listed(a, node, i) && (forall|j: int|
                        0 <= j < i ==> !#[trigger] is_listed(a, node, j)) implies i == k by {
                    if k < i {
                        assert(!is_listed(a, node, k));
                    } else if i < k {
                        assert(!p(i));
                    }
                }
            },
            None => {
                assert forall|i: int| !is_listed(a, node, i) by {
                    if 0 <= i < a.authorized.len() {
                        assert(!p(i));
                    }
                }
            },
        }
    }
}

spec fn entries_of(lock: Option<AuthorityView>, nodes: Seq<NodeView>) -> Seq<Option<Presented>> {
    nodes.map_values(
        |n: NodeView|
            if verdict(lock, n).admitted && verdict(lock, n).rotation is Some {
                Some(
                    Presented {
                        key: n.node_key.bytes(),
                        chain: verdict(lock, n).rotation->0,
                    },
                )
            } else {
                None
            },
    )
}

proof fn chains_are_folded(lock: Option<AuthorityView>, nodes: Seq<NodeView>)
    ensures
        chains_of(lock, nodes) == folded(entries_of(lock, nodes)),
    decreases nodes.len(),
{
    if nodes.len() > 0 {
        chains_are_folded(lock, nodes.drop_last());
        assert(entries_of(lock, nodes).drop_last() =~= entries_of(lock, nodes.drop_last()));
    }
}

/// The chain that `node` presents, where the lock admits it with one.
pub open spec fn chain_of(lock: Option<AuthorityView>, node: NodeView) -> Option<DetailsView> {
    if verdict(lock, node).admitted {
        verdict(lock, node).rotation
    } else {
        None
    }
}

/// Whether an admitted one of `nodes` has rotated the key of `node` away.
pub open spec fn is_superseded(
    lock: Option<AuthorityView>,
    nodes: Seq<NodeView>,
    node: NodeView,
) -> bool {
    exists|j: int|
        0 <= j < nodes.len() && chain_of(lock, #[trigger] nodes[j]) is Some && chain_of(
            lock,
            nodes[j],
        )->0.prev.contains(node.node_key.bytes())
}

/// Whether the chain of the `j`th of `nodes` stands in the way of that of the `i`th.
pub open spec fn is_outdone(
    lock: Option<AuthorityView>,
    nodes: Seq<NodeView>,
    i: int,
    j: int,
) -> bool {
    &&& 0 <= j < nodes.len()
    &&& i != j
    &&& chain_of(lock, nodes[i]) is Some
    &&& chain_of(lock, nodes[j]) is Some
    &&& chain_of(lock, nodes[i])->0.kind is Direct
    &&& chain_of(lock, nodes[j])->0.kind is Direct
    &&& chain_of(lock, nodes[i])->0.wrapping == chain_of(lock, nodes[j])->0.wrapping
    &&& chain_of(lock, nodes[i])->0.prev.len() <= chain_of(lock, nodes[j])->0.prev.len()
    &&& !is_superseded(lock, nodes, nodes[j])
}

/// Of nodes with different keys, one is kept exactly where the lock admits it, no admitted one has
/// rotated its key away, and no other one's chain stands in its way.
pub proof fn who_is_kept(lock: Option<AuthorityView>, nodes: Seq<NodeView>, i: int)
    requires
        0 <= i < nodes.len(),
        forall|a: int, b: int|
            0 <= a < b < nodes.len() ==> (#[trigger] nodes[a]).node_key != (
            #[trigger] nodes[b]).node_key,
    ensures
        kept(lock, nodes).len() == nodes.len(),
        kept(lock, nodes)[i] <==> is_admitted(lock, nodes[i]) && !is_superseded(
            lock,
            nodes,
            nodes[i],
        ) && !exists|j: int| is_outdone(lock, nodes, i, j),
{
    let items = entries_of(lock, nodes);
    chains_are_folded(lock, nodes);
    who_is_admitted(lock, nodes[i]);
    assert(apart(items)) by {
        assert forall|a: int, b: int|
            0 <= a < b < items.len() && (#[trigger] items[a]) is Some && (
            #[trigger] items[b]) is Some implies items[a]->0.key != items[b]->0.key by {
            assert(nodes[a].node_key != nodes[b].node_key);
            if items[a]->0.key == items[b]->0.key {
                node_key_bytes_injective(nodes[a].node_key, nodes[b].node_key);
            }
        }
    }
    let key = nodes[i].node_key.bytes();
    settled(items, key);
    assert forall|n: NodeView| rotated(items, n.node_key.bytes()) == #[trigger] is_superseded(
        lock,
        nodes,
        n,
    ) by {
        let k = n.node_key.bytes();
        if rotated(items, k) {
            let a = choose|a: int|
                0 <= a < items.len() && (#[trigger] items[a]) is Some
                    && items[a]->0.chain.prev.contains(k);
            assert(chain_of(lock, nodes[a]) is Some);
        }
        if is_superseded(lock, nodes, n) {
            let a = choose|a: int|
                0 <= a < nodes.len() && chain_of(lock, #[trigger] nodes[a]) is Some && chain_of(
                    lock,
                    nodes[a],
                )->0.prev.contains(k);
            assert(items[a]->0.chain.prev.contains(k));
        }
    }
    assert(is_superseded(lock, nodes, nodes[i]) == rotated(items, key));
    if exists|a: int, b: int| #[trigger] beaten(items, a, b) && items[a]->0.key == key {
        let (a, b) = choose|a: int, b: int| #[trigger]
            beaten(items, a, b) && items[a]->0.key == key;
        node_key_bytes_injective(nodes[a].node_key, nodes[i].node_key);
        if a < i {
            assert(nodes[a].node_key != nodes[i].node_key);
        } else if i < a {
            assert(nodes[i].node_key != nodes[a].node_key);
        }
        assert(is_superseded(lock, nodes, nodes[b]) == rotated(
            items,
            nodes[b].node_key.bytes(),
        ));
        assert(is_outdone(lock, nodes, i, b));
    }
    if exists|j: int| is_outdone(lock, nodes, i, j) {
        let j = choose|j: int| is_outdone(lock, nodes, i, j);
        assert(is_superseded(lock, nodes, nodes[j]) == rotated(
            items,
            nodes[j].node_key.bytes(),
        ));
        assert(beaten(items, i, j));
    }
    assert(obsolete_of(lock, nodes).contains(key) == settle(
        folded(items).groups,
        folded(items).obsolete,
    ).contains(key));
}

} // verus!
