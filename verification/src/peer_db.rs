//! The peers of the current netmap.

use vstd::prelude::*;

use crate::addr::{IpAddr, IpPrefix};
use crate::node::{DiscoKey, Node, NodeId, NodeKey, NodeView, PeerId};
use crate::search::{first_where, first_where_is, first_where_is_first, first_where_none};
use crate::text::str_eq;

verus! {

/// A peer and what is known of it beside its node.
pub struct PeerEntry {
    /// The peer's number; a peer keeps it for as long as it stays in the netmap.
    pub id: PeerId,
    /// The node, as it is to be reached now.
    pub node: Node,
    /// A second disco key under which the peer's frames are still recognised.
    pub inactive_disco_key: Option<DiscoKey>,
}

/// The model of a [`PeerEntry`].
#[verifier::ext_equal]
pub struct EntryView {
    pub id: PeerId,
    pub node: NodeView,
    pub inactive_disco_key: Option<DiscoKey>,
}

impl View for PeerEntry {
    type V = EntryView;

    open spec fn view(&self) -> EntryView {
        EntryView { id: self.id, node: self.node@, inactive_disco_key: self.inactive_disco_key }
    }
}

/// The models of a list of entries.
pub open spec fn entry_views(entries: Seq<PeerEntry>) -> Seq<EntryView> {
    entries.map_values(|e: PeerEntry| e@)
}

/// What a peer can be looked up by.
#[derive(Clone, Copy, Debug)]
pub enum PeerKey<'a> {
    /// The peer's number in this process.
    Id(PeerId),
    /// Control's number for the node.
    NodeId(NodeId),
    /// The node's public key.
    NodeKey(NodeKey),
    /// The node's stable id.
    StableId(&'a str),
    /// A name, bare or full, in any case, with or without a trailing dot.
    Name(&'a str),
    /// A tailnet address.
    Ip(IpAddr),
    /// The disco key that the peer is reached under.
    Disco(DiscoKey),
}

/// The model of a [`PeerKey`].
pub enum KeyView {
    Id(PeerId),
    NodeId(NodeId),
    NodeKey(NodeKey),
    StableId(Seq<char>),
    Name(Seq<char>),
    Ip(IpAddr),
    Disco(DiscoKey),
}

impl KeyView {
    /// Whether the key selects `entry`.
    pub open spec fn selects(self, entry: EntryView) -> bool {
        match self {
            KeyView::Id(id) => entry.id == id,
            KeyView::NodeId(id) => entry.node.id == id,
            KeyView::NodeKey(key) => entry.node.node_key == key,
            KeyView::StableId(id) => entry.node.stable_id == id,
            KeyView::Name(name) => entry.node.named(name),
            KeyView::Ip(ip) => entry.node.owns(ip),
            KeyView::Disco(key) => entry.node.disco_key == Some(key),
        }
    }
}

impl<'a> PeerKey<'a> {
    /// The model of the key.
    pub open spec fn view(&self) -> KeyView {
        match *self {
            PeerKey::Id(id) => KeyView::Id(id),
            PeerKey::NodeId(id) => KeyView::NodeId(id),
            PeerKey::NodeKey(key) => KeyView::NodeKey(key),
            PeerKey::StableId(id) => KeyView::StableId(id@),
            PeerKey::Name(name) => KeyView::Name(name@),
            PeerKey::Ip(ip) => KeyView::Ip(ip),
            PeerKey::Disco(key) => KeyView::Disco(key),
        }
    }

    fn selects(&self, entry: &PeerEntry) -> (r: bool)
        ensures
            r == self@.selects(entry@),
    {
        match *self {
            PeerKey::Id(id) => entry.id == id,
            PeerKey::NodeId(id) => entry.node.id == id,
            PeerKey::NodeKey(key) => entry.node.node_key == key,
            PeerKey::StableId(id) => str_eq(&entry.node.stable_id, id),
            PeerKey::Name(name) => entry.node.matches_name(name),
            PeerKey::Ip(ip) => entry.node.owns_ip(ip),
            PeerKey::Disco(key) => entry.node.disco_key == Some(key),
        }
    }
}

/// Which of a peer's two disco keys was met.
#[derive(Clone, Copy, Debug, PartialEq, Eq, Structural)]
pub enum DiscoKeyMatch {
    /// The key that the peer is reached under.
    Active,
    /// The other key that the peer is known by.
    Inactive,
}

/// The model of a [`PeerDb`]: the peers in the order in which they came, and the next number to
/// hand out.
#[verifier::ext_equal]
pub struct DbView {
    pub entries: Seq<EntryView>,
    pub next_id: nat,
}

impl DbView {
    /// No two peers share a number or a stable id, and no number was handed out twice.
    pub open spec fn wf(self) -> bool {
        &&& forall|i: int, j: int|
            0 <= i < j < self.entries.len() ==> (#[trigger] self.entries[i]).id != (
            #[trigger] self.entries[j]).id && self.entries[i].node.stable_id
                != self.entries[j].node.stable_id
        &&& forall|i: int|
            0 <= i < self.entries.len() ==> (#[trigger] self.entries[i]).id.0 < self.next_id
    }

    /// The index of the first peer that `key` selects.
    pub open spec fn index_of(self, key: KeyView) -> Option<int> {
        first_where(|i: int| key.selects(self.entries[i]), self.entries.len() as int)
    }

    /// The first peer that `key` selects.
    pub open spec fn find(self, key: KeyView) -> Option<EntryView> {
        match self.index_of(key) {
            Some(i) => Some(self.entries[i]),
            None => None,
        }
    }

    /// Whether `key` selects a peer.
    pub open spec fn has(self, key: KeyView) -> bool {
        self.find(key) is Some
    }

    /// Whether `node` can be stored: it replaces a peer, or there is a number left for it.
    pub open spec fn room_for(self, node: NodeView) -> bool {
        self.has(KeyView::StableId(node.stable_id)) || self.next_id < u64::MAX
    }

    /// The number that an upsert of `node` stores it under.
    pub open spec fn upsert_id(self, node: NodeView) -> PeerId {
        match self.find(KeyView::StableId(node.stable_id)) {
            Some(entry) => entry.id,
            None => PeerId(self.next_id as u64),
        }
    }

    /// The peers after `node` replaced the one with its stable id, or joined them.
    pub open spec fn upsert(self, node: NodeView) -> DbView {
        match self.index_of(KeyView::StableId(node.stable_id)) {
            Some(i) => DbView {
                entries: self.entries.update(i, EntryView { node, ..self.entries[i] }),
                next_id: self.next_id,
            },
            None => DbView {
                entries: self.entries.push(
                    EntryView {
                        id: PeerId(self.next_id as u64),
                        node,
                        inactive_disco_key: None,
                    },
                ),
                next_id: self.next_id + 1,
            },
        }
    }

    /// The peers without the first one that `key` selects.
    pub open spec fn remove(self, key: KeyView) -> DbView {
        match self.index_of(key) {
            Some(i) => DbView { entries: self.entries.remove(i), next_id: self.next_id },
            None => self,
        }
    }

    /// The peers whose flag is set.
    pub open spec fn keep(self, flags: Seq<bool>) -> DbView {
        DbView { entries: flagged(self.entries, flags, true), next_id: self.next_id }
    }

    /// The peers with `key` as the inactive disco key of the peer `id`.
    pub open spec fn set_inactive(self, id: PeerId, key: Option<DiscoKey>) -> DbView {
        match self.index_of(KeyView::Id(id)) {
            Some(i) => DbView {
                entries: self.entries.update(
                    i,
                    EntryView { inactive_disco_key: key, ..self.entries[i] },
                ),
                next_id: self.next_id,
            },
            None => self,
        }
    }

    /// The peer that is known by `key`: the first that is reached under it, else the first that
    /// has it as its other key.
    pub open spec fn known_by(self, key: DiscoKey) -> Option<(EntryView, DiscoKeyMatch)> {
        match self.find(KeyView::Disco(key)) {
            Some(entry) => Some((entry, DiscoKeyMatch::Active)),
            None => match first_where(
                |i: int| self.entries[i].inactive_disco_key == Some(key),
                self.entries.len() as int,
            ) {
                Some(i) => Some((self.entries[i], DiscoKeyMatch::Inactive)),
                None => None,
            },
        }
    }
}

/// The elements whose flag is `want`, in order.
pub open spec fn flagged(entries: Seq<EntryView>, flags: Seq<bool>, want: bool) -> Seq<EntryView>
    decreases entries.len(),
{
    if entries.len() == 0 {
        Seq::empty()
    } else {
        let before = flagged(entries.drop_last(), flags, want);
        if flags[entries.len() - 1] == want {
            before.push(entries.last())
        } else {
            before
        }
    }
}

/// Every flagged element stands in the list, and every element with the flag is flagged.
pub proof fn flagged_elements(entries: Seq<EntryView>, flags: Seq<bool>, want: bool)
    ensures
        flagged(entries, flags, want).len() <= entries.len(),
        forall|k: int|
            0 <= k < flagged(entries, flags, want).len() ==> entries.contains(
                #[trigger] flagged(entries, flags, want)[k],
            ),
        forall|i: int|
            0 <= i < entries.len() && flags[i] == want ==> flagged(entries, flags, want).contains(
                #[trigger] entries[i],
            ),
    decreases entries.len(),
{
    if entries.len() > 0 {
        let n = entries.len() - 1;
        let before = flagged(entries.drop_last(), flags, want);
        let all = flagged(entries, flags, want);
        flagged_elements(entries.drop_last(), flags, want);
        assert forall|k: int| 0 <= k < all.len() implies entries.contains(#[trigger] all[k]) by {
            if k < before.len() {
                assert(all[k] == before[k]);
                let i = choose|i: int| 0 <= i < n && entries.drop_last()[i] == before[k];
                assert(entries[i] == all[k]);
            } else {
                assert(entries[n] == all[k]);
            }
        }
        assert forall|i: int| 0 <= i < entries.len() && flags[i] == want implies all.contains(
            #[trigger] entries[i],
        ) by {
            if i < n {
                assert(entries.drop_last()[i] == entries[i]);
                let k = choose|k: int| 0 <= k < before.len() && before[k] == entries[i];
                assert(all[k] == entries[i]);
            } else {
                assert(all[all.len() - 1] == entries[i]);
            }
        }
    }
}

/// Keeping some of the peers keeps the database well formed.
pub proof fn keep_is_wf(db: DbView, flags: Seq<bool>)
    requires
        db.wf(),
    ensures
        db.keep(flags).wf(),
    decreases db.entries.len(),
{
    if db.entries.len() > 0 {
        let n = db.entries.len() - 1;
        let short = DbView { entries: db.entries.drop_last(), next_id: db.next_id };
        assert(short.wf()) by {
            assert forall|i: int, j: int| 0 <= i < j < short.entries.len() implies (
            #[trigger] short.entries[i]).id != (#[trigger] short.entries[j]).id
                && short.entries[i].node.stable_id != short.entries[j].node.stable_id by {
                assert(db.entries[i].id != db.entries[j].id);
            }
            assert forall|i: int| 0 <= i < short.entries.len() implies (
            #[trigger] short.entries[i]).id.0 < short.next_id by {
                assert(db.entries[i].id.0 < db.next_id);
            }
        }
        keep_is_wf(short, flags);
        flagged_elements(short.entries, flags, true);
        let before = flagged(short.entries, flags, true);
        if flags[n] {
            let all = before.push(db.entries.last());
            assert forall|i: int, j: int| 0 <= i < j < all.len() implies (#[trigger] all[i]).id != (
            #[trigger] all[j]).id && all[i].node.stable_id != all[j].node.stable_id by {
                if j == before.len() {
                    assert(all[i] == before[i]);
                    let k = choose|k: int| 0 <= k < n && short.entries[k] == before[i];
                    assert(db.entries[k].id != db.entries[n].id);
                } else {
                    assert(all[i] == before[i] && all[j] == before[j]);
                }
            }
            assert forall|i: int| 0 <= i < all.len() implies (#[trigger] all[i]).id.0
                < db.next_id by {
                if i < before.len() {
                    assert(all[i] == before[i]);
                } else {
                    assert(db.entries[n].id.0 < db.next_id);
                }
            }
        }
    }
}

/// An upsert keeps the database well formed.
pub proof fn upsert_is_wf(db: DbView, node: NodeView)
    requires
        db.wf(),
        db.room_for(node),
    ensures
        db.upsert(node).wf(),
{
    let key = KeyView::StableId(node.stable_id);
    let p = |i: int| key.selects(db.entries[i]);
    first_where_is_first(p, db.entries.len() as int);
    let after = db.upsert(node);
    assert forall|i: int, j: int| 0 <= i < j < after.entries.len() implies (
    #[trigger] after.entries[i]).id != (#[trigger] after.entries[j]).id
        && after.entries[i].node.stable_id != after.entries[j].node.stable_id by {
        match db.index_of(key) {
            Some(k) => {
                assert(p(k));
                assert(db.entries[i].id != db.entries[j].id);
            },
            None => {
                if j == db.entries.len() {
                    assert(!p(i));
                    assert(db.entries[i].id.0 < db.next_id);
                } else {
                    assert(db.entries[i].id != db.entries[j].id);
                }
            },
        }
    }
    assert forall|i: int| 0 <= i < after.entries.len() implies (#[trigger] after.entries[i]).id.0
        < after.next_id by {
        if i < db.entries.len() {
            assert(db.entries[i].id.0 < db.next_id);
        }
    }
}

/// What was upserted is found, under the number that the upsert gave it.
pub proof fn an_upsert_is_found(db: DbView, node: NodeView)
    requires
        db.wf(),
        db.room_for(node),
    ensures
        match db.upsert(node).find(KeyView::StableId(node.stable_id)) {
            Some(entry) => entry.node == node && entry.id == db.upsert_id(node),
            None => false,
        },
        match db.upsert(node).find(KeyView::Id(db.upsert_id(node))) {
            Some(entry) => entry.node == node,
            None => false,
        },
{
    let key = KeyView::StableId(node.stable_id);
    let p = |i: int| key.selects(db.entries[i]);
    first_where_is_first(p, db.entries.len() as int);
    upsert_is_wf(db, node);
    let after = db.upsert(node);
    let k = match db.index_of(key) {
        Some(i) => i,
        None => db.entries.len() as int,
    };
    let q = |i: int| key.selects(after.entries[i]);
    let by_id = KeyView::Id(db.upsert_id(node));
    let s = |i: int| by_id.selects(after.entries[i]);
    assert forall|j: int| 0 <= j < k implies !#[trigger] q(j) && !#[trigger] s(j) by {
        assert(after.entries[j] == db.entries[j]);
        assert(!p(j));
        assert(after.entries[j].id != after.entries[k].id);
    }
    assert(q(k));
    assert(s(k));
    first_where_is(q, after.entries.len() as int, k);
    first_where_is(s, after.entries.len() as int, k);
}

/// An upsert leaves every peer with another stable id as it was.
pub proof fn an_upsert_leaves_the_others(db: DbView, node: NodeView, stable_id: Seq<char>)
    requires
        db.wf(),
        stable_id != node.stable_id,
    ensures
        db.upsert(node).find(KeyView::StableId(stable_id)) == db.find(KeyView::StableId(stable_id)),
{
    let key = KeyView::StableId(stable_id);
    let mine = KeyView::StableId(node.stable_id);
    let after = db.upsert(node);
    let m = |i: int| mine.selects(db.entries[i]);
    first_where_is_first(m, db.entries.len() as int);
    let p = |i: int| key.selects(db.entries[i]);
    let q = |i: int| key.selects(after.entries[i]);
    first_where_is_first(p, db.entries.len() as int);
    match db.index_of(mine) {
        Some(k) => {
            assert(m(k));
        },
        None => {},
    }
    assert forall|i: int| 0 <= i < db.entries.len() implies p(i) == #[trigger] q(i) by {}
    match db.index_of(key) {
        Some(i) => {
            assert(p(i) == q(i));
            assert forall|j: int| 0 <= j < i implies !#[trigger] q(j) by {
                assert(!p(j));
            }
            first_where_is(q, after.entries.len() as int, i);
        },
        None => {
            assert forall|j: int| 0 <= j < after.entries.len() implies !#[trigger] q(j) by {
                if j < db.entries.len() {
                    assert(!p(j));
                }
            }
            first_where_none(q, after.entries.len() as int);
        },
    }
}

/// A peer that is found by any key is found by its stable id, and is the same peer.
pub proof fn found_by_stable_id(db: DbView, key: KeyView)
    requires
        db.wf(),
        db.has(key),
    ensures
        db.find(KeyView::StableId(db.find(key)->0.node.stable_id)) == db.find(key),
        db.find(KeyView::Id(db.find(key)->0.id)) == db.find(key),
        key.selects(db.find(key)->0),
        db.entries.contains(db.find(key)->0),
{
    let p = |i: int| key.selects(db.entries[i]);
    first_where_is_first(p, db.entries.len() as int);
    let k = db.index_of(key)->0;
    assert(p(k));
    let stable = KeyView::StableId(db.entries[k].node.stable_id);
    let by_id = KeyView::Id(db.entries[k].id);
    let q = |i: int| stable.selects(db.entries[i]);
    let s = |i: int| by_id.selects(db.entries[i]);
    assert forall|j: int| 0 <= j < k implies !#[trigger] q(j) && !#[trigger] s(j) by {
        assert(db.entries[j].id != db.entries[k].id);
    }
    assert(q(k) && s(k));
    first_where_is(q, db.entries.len() as int, k);
    first_where_is(s, db.entries.len() as int, k);
}

/// A peer in the list is found by every key that selects it, or an earlier one is.
pub proof fn listed_is_found(db: DbView, key: KeyView, i: int)
    requires
        0 <= i < db.entries.len(),
        key.selects(db.entries[i]),
    ensures
        db.has(key),
{
    let p = |i: int| key.selects(db.entries[i]);
    first_where_is_first(p, db.entries.len() as int);
    assert(p(i));
}

/// Removing a peer keeps the database well formed.
pub proof fn remove_is_wf(db: DbView, key: KeyView)
    requires
        db.wf(),
    ensures
        db.remove(key).wf(),
{
    let p = |i: int| key.selects(db.entries[i]);
    first_where_is_first(p, db.entries.len() as int);
    match db.index_of(key) {
        Some(k) => {
            let after = db.remove(key);
            assert forall|i: int, j: int| 0 <= i < j < after.entries.len() implies (
            #[trigger] after.entries[i]).id != (#[trigger] after.entries[j]).id
                && after.entries[i].node.stable_id != after.entries[j].node.stable_id by {
                let a = if i < k {
                    i
                } else {
                    i + 1
                };
                let b = if j < k {
                    j
                } else {
                    j + 1
                };
                assert(after.entries[i] == db.entries[a]);
                assert(after.entries[j] == db.entries[b]);
            }
            assert forall|i: int| 0 <= i < after.entries.len() implies (
            #[trigger] after.entries[i]).id.0 < after.next_id by {
                let a = if i < k {
                    i
                } else {
                    i + 1
                };
                assert(after.entries[i] == db.entries[a]);
            }
        },
        None => {},
    }
}

/// A peer that was removed by its stable id or its number is not found by it again.
pub proof fn a_removed_peer_is_gone(db: DbView, key: KeyView)
    requires
        db.wf(),
        key is StableId || key is Id,
    ensures
        !db.remove(key).has(key),
{
    let p = |i: int| key.selects(db.entries[i]);
    first_where_is_first(p, db.entries.len() as int);
    match db.index_of(key) {
        Some(k) => {
            assert(p(k));
            let after = db.remove(key);
            let q = |i: int| key.selects(after.entries[i]);
            assert forall|j: int| 0 <= j < after.entries.len() implies !#[trigger] q(j) by {
                if j < k {
                    assert(after.entries[j] == db.entries[j]);
                    assert(db.entries[j].id != db.entries[k].id);
                } else {
                    assert(after.entries[j] == db.entries[j + 1]);
                    assert(db.entries[k].id != db.entries[j + 1].id);
                }
            }
            first_where_none(q, after.entries.len() as int);
        },
        None => {},
    }
}

/// Registering an inactive disco key keeps the database well formed.
pub proof fn set_inactive_is_wf(db: DbView, id: PeerId, key: Option<DiscoKey>)
    requires
        db.wf(),
    ensures
        db.set_inactive(id, key).wf(),
{
    let sel = KeyView::Id(id);
    let p = |i: int| sel.selects(db.entries[i]);
    first_where_is_first(p, db.entries.len() as int);
    match db.index_of(sel) {
        Some(k) => {
            let after = db.set_inactive(id, key);
            assert forall|i: int, j: int| 0 <= i < j < after.entries.len() implies (
            #[trigger] after.entries[i]).id != (#[trigger] after.entries[j]).id
                && after.entries[i].node.stable_id != after.entries[j].node.stable_id by {
                assert(db.entries[i].id != db.entries[j].id);
            }
            assert forall|i: int| 0 <= i < after.entries.len() implies (
            #[trigger] after.entries[i]).id.0 < after.next_id by {
                assert(db.entries[i].id.0 < db.next_id);
            }
        },
        None => {},
    }
}

/// A number halved `n` times.
pub open spec fn halved(x: nat, n: nat) -> nat
    decreases n,
{
    if n == 0 {
        x
    } else {
        halved(x / 2, (n - 1) as nat)
    }
}

/// Whether `prefix` covers `ip`: the same family, and the same leading bits.
pub open spec fn covers(prefix: IpPrefix, ip: IpAddr) -> bool {
    match (prefix.addr, ip) {
        (IpAddr::V4(a), IpAddr::V4(b)) => prefix.len <= 32 && halved(
            a.number(),
            (32 - prefix.len) as nat,
        ) == halved(b.number(), (32 - prefix.len) as nat),
        (IpAddr::V6(a), IpAddr::V6(b)) => prefix.len <= 128 && halved(
            a.bits as nat,
            (128 - prefix.len) as nat,
        ) == halved(b.bits as nat, (128 - prefix.len) as nat),
        _ => false,
    }
}

fn same_after_halving(x: u128, y: u128, n: u8) -> (r: bool)
    ensures
        r == (halved(x as nat, n as nat) == halved(y as nat, n as nat)),
{
    let mut a: u128 = x;
    let mut b: u128 = y;
    let mut k: u8 = n;
    while k > 0
        invariant
            halved(a as nat, k as nat) == halved(x as nat, n as nat),
            halved(b as nat, k as nat) == halved(y as nat, n as nat),
        decreases k,
    {
        a = a / 2;
        b = b / 2;
        k = k - 1;
    }
    a == b
}

fn prefix_covers(prefix: &IpPrefix, ip: IpAddr) -> (r: bool)
    ensures
        r == covers(*prefix, ip),
{
    match (prefix.addr, ip) {
        (IpAddr::V4(a), IpAddr::V4(b)) => prefix.len <= 32 && same_after_halving(
            a.to_number() as u128,
            b.to_number() as u128,
            32 - prefix.len,
        ),
        (IpAddr::V6(a), IpAddr::V6(b)) => prefix.len <= 128 && same_after_halving(
            a.bits,
            b.bits,
            128 - prefix.len,
        ),
        _ => false,
    }
}

/// The larger of two lengths.
pub open spec fn longer(a: int, b: int) -> int {
    if a >= b {
        a
    } else {
        b
    }
}

/// The length of the longest of `routes` that covers `ip`, or -1.
pub open spec fn route_len(routes: Seq<IpPrefix>, ip: IpAddr) -> int
    decreases routes.len(),
{
    if routes.len() == 0 {
        -1
    } else {
        longer(
            route_len(routes.drop_last(), ip),
            if covers(routes.last(), ip) {
                routes.last().len as int
            } else {
                -1
            },
        )
    }
}

/// How specifically `node` accepts packets to `ip`: by its own address, or by the longest of its
/// routes that covers it; -1 where it does not.
pub open spec fn reach(node: NodeView, ip: IpAddr) -> int {
    longer(
        if node.owns(ip) {
            if ip is V4 {
                32
            } else {
                128
            }
        } else {
            -1
        },
        route_len(node.accepted_routes, ip),
    )
}

/// How specifically any of the peers accepts packets to `ip`.
pub open spec fn best_reach(entries: Seq<EntryView>, ip: IpAddr) -> int
    decreases entries.len(),
{
    if entries.len() == 0 {
        -1
    } else {
        longer(best_reach(entries.drop_last(), ip), reach(entries.last().node, ip))
    }
}

/// The peers that accept packets to `ip` at the length `len`.
pub open spec fn at_reach(entries: Seq<EntryView>, ip: IpAddr, len: int) -> Seq<EntryView>
    decreases entries.len(),
{
    if entries.len() == 0 {
        Seq::empty()
    } else {
        let before = at_reach(entries.drop_last(), ip, len);
        if reach(entries.last().node, ip) == len {
            before.push(entries.last())
        } else {
            before
        }
    }
}

/// The peers that accept packets to `ip` most specifically.
pub open spec fn routed(entries: Seq<EntryView>, ip: IpAddr) -> Seq<EntryView> {
    if best_reach(entries, ip) < 0 {
        Seq::empty()
    } else {
        at_reach(entries, ip, best_reach(entries, ip))
    }
}

/// No peer accepts packets to `ip` more specifically than `best_reach`.
proof fn best_reach_is_best(entries: Seq<EntryView>, ip: IpAddr)
    ensures
        forall|i: int|
            0 <= i < entries.len() ==> reach((#[trigger] entries[i]).node, ip) <= best_reach(
                entries,
                ip,
            ),
    decreases entries.len(),
{
    if entries.len() > 0 {
        best_reach_is_best(entries.drop_last(), ip);
        assert forall|i: int| 0 <= i < entries.len() implies reach((#[trigger] entries[i]).node, ip)
            <= best_reach(entries, ip) by {
            if i < entries.len() - 1 {
                assert(entries[i] == entries.drop_last()[i]);
            }
        }
    }
}

proof fn at_reach_elements(entries: Seq<EntryView>, ip: IpAddr, len: int)
    ensures
        forall|e: EntryView|
            #[trigger] at_reach(entries, ip, len).contains(e) <==> entries.contains(e) && reach(
                e.node,
                ip,
            ) == len,
    decreases entries.len(),
{
    if entries.len() > 0 {
        let short = entries.drop_last();
        let before = at_reach(short, ip, len);
        let all = at_reach(entries, ip, len);
        at_reach_elements(short, ip, len);
        assert forall|e: EntryView| #[trigger] all.contains(e) <==> entries.contains(e) && reach(
            e.node,
            ip,
        ) == len by {
            if all.contains(e) {
                let k = choose|k: int| 0 <= k < all.len() && all[k] == e;
                if k < before.len() {
                    assert(before[k] == e);
                    assert(before.contains(e));
                    let i = choose|i: int| 0 <= i < short.len() && short[i] == e;
                    assert(entries[i] == e);
                } else {
                    assert(entries[entries.len() - 1] == e);
                }
            }
            if entries.contains(e) && reach(e.node, ip) == len {
                let i = choose|i: int| 0 <= i < entries.len() && entries[i] == e;
                if i < short.len() {
                    assert(short[i] == e);
                    assert(before.contains(e));
                    let k = choose|k: int| 0 <= k < before.len() && before[k] == e;
                    assert(all[k] == e);
                } else {
                    assert(all[all.len() - 1] == e);
                }
            }
        }
    }
}

/// Most specific wins: exactly those peers are routed to that accept packets to `ip` and that no
/// peer outdoes.
pub proof fn the_most_specific_route_wins(entries: Seq<EntryView>, ip: IpAddr, e: EntryView)
    ensures
        routed(entries, ip).contains(e) <==> entries.contains(e) && reach(e.node, ip) >= 0 && forall|
            i: int,
        |
            0 <= i < entries.len() ==> reach((#[trigger] entries[i]).node, ip) <= reach(e.node, ip),
{
    best_reach_is_best(entries, ip);
    at_reach_elements(entries, ip, best_reach(entries, ip));
    if entries.contains(e) && reach(e.node, ip) >= 0 && (forall|i: int|
        0 <= i < entries.len() ==> reach((#[trigger] entries[i]).node, ip) <= reach(e.node, ip)) {
        best_reach_is_met(entries, ip);
        let k = choose|k: int| 0 <= k < entries.len() && entries[k] == e;
        assert(reach(entries[k].node, ip) <= best_reach(entries, ip));
    }
}

proof fn best_reach_is_met(entries: Seq<EntryView>, ip: IpAddr)
    ensures
        best_reach(entries, ip) >= 0 ==> exists|i: int|
            0 <= i < entries.len() && reach((#[trigger] entries[i]).node, ip) == best_reach(
                entries,
                ip,
            ),
    decreases entries.len(),
{
    if entries.len() > 0 {
        let short = entries.drop_last();
        best_reach_is_met(short, ip);
        if best_reach(entries, ip) >= 0 {
            if best_reach(short, ip) >= reach(entries.last().node, ip) {
                let i = choose|i: int|
                    0 <= i < short.len() && reach((#[trigger] short[i]).node, ip) == best_reach(
                        short,
                        ip,
                    );
                assert(entries[i] == short[i]);
            } else {
                assert(entries[entries.len() - 1] == entries.last());
            }
        }
    }
}

fn reach_of(node: &Node, ip: IpAddr) -> (r: i16)
    ensures
        r == reach(node@, ip),
        -1 <= r <= 255,
{
    let mut best: i16 = if node.owns_ip(ip) {
        if ip.is_ipv4() {
            32
        } else {
            128
        }
    } else {
        -1
    };
    let ghost own = best as int;
    let ghost routes = node@.accepted_routes;
    let mut i: usize = 0;
    while i < node.accepted_routes.len()
        invariant
            i <= node.accepted_routes@.len(),
            routes == node.accepted_routes@,
            -1 <= own <= 128,
            -1 <= best <= 255,
            best == longer(own, route_len(routes.take(i as int), ip)),
        decreases node.accepted_routes@.len() - i,
    {
        assert(routes.take(i + 1).drop_last() =~= routes.take(i as int));
        if prefix_covers(&node.accepted_routes[i], ip) {
            let len: i16 = node.accepted_routes[i].len as i16;
            if len > best {
                best = len;
            }
        }
        i = i + 1;
    }
    assert(routes.take(routes.len() as int) =~= routes);
    best
}

/// The peers of the current netmap, looked up by number, key, name or address.
pub struct PeerDb {
    entries: Vec<PeerEntry>,
    next_id: u64,
}

impl View for PeerDb {
    type V = DbView;

    closed spec fn view(&self) -> DbView {
        DbView { entries: entry_views(self.entries@), next_id: self.next_id as nat }
    }
}

impl PeerDb {
    /// The next number to hand out fits, whatever was stored.
    pub proof fn numbers_fit(&self)
        ensures
            self@.next_id <= u64::MAX,
    {
    }

    /// A database without peers.
    pub fn new() -> (r: Self)
        ensures
            r@ == (DbView { entries: Seq::empty(), next_id: 0 }),
            r@.wf(),
    {
        let r = PeerDb { entries: Vec::new(), next_id: 0 };
        assert(r@.entries =~= Seq::empty());
        r
    }

    /// The peers, in the order in which they came.
    pub fn peers(&self) -> (r: &Vec<PeerEntry>)
        ensures
            entry_views(r@) == self@.entries,
            r@.len() == self@.entries.len(),
    {
        &self.entries
    }

    fn position(&self, key: PeerKey) -> (r: Option<usize>)
        ensures
            match r {
                Some(i) => self@.index_of(key@) == Some(i as int) && i < self.entries@.len(),
                None => self@.index_of(key@) is None,
            },
    {
        let ghost p = |i: int| key@.selects(self@.entries[i]);
        let mut i: usize = 0;
        while i < self.entries.len()
            invariant
                i <= self.entries@.len(),
                self@.entries.len() == self.entries@.len(),
                p == (|i: int| key@.selects(self@.entries[i])),
                forall|j: int| 0 <= j < i ==> !#[trigger] p(j),
            decreases self.entries@.len() - i,
        {
            assert(self@.entries[i as int] == self.entries@[i as int]@);
            if key.selects(&self.entries[i]) {
                assert(p(i as int));
                proof {
                    first_where_is(p, self@.entries.len() as int, i as int);
                }
                return Some(i);
            }
            i = i + 1;
        }
        proof {
            first_where_none(p, self@.entries.len() as int);
        }
        None
    }

    /// The first peer that `key` selects.
    pub fn get(&self, key: PeerKey) -> (r: Option<&PeerEntry>)
        ensures
            match r {
                Some(entry) => self@.find(key@) == Some(entry@),
                None => self@.find(key@) is None,
            },
    {
        match self.position(key) {
            Some(i) => Some(&self.entries[i]),
            None => None,
        }
    }

    /// The number of the first peer that `key` selects.
    pub fn has(&self, key: PeerKey) -> (r: Option<PeerId>)
        ensures
            r == (match self@.find(key@) {
                Some(entry) => Some(entry.id),
                None => None,
            }),
    {
        match self.get(key) {
            Some(entry) => Some(entry.id),
            None => None,
        }
    }

    /// Stores `node`: in place of the peer with its stable id, under that peer's number, or as a
    /// new peer under a number that was never used.
    pub fn upsert(&mut self, node: &Node) -> (r: PeerId)
        requires
            old(self)@.wf(),
            old(self)@.room_for(node@),
        ensures
            final(self)@ == old(self)@.upsert(node@),
            r == old(self)@.upsert_id(node@),
            final(self)@.wf(),
    {
        proof {
            upsert_is_wf(self@, node@);
        }
        let ghost before = self@;
        match self.position(PeerKey::StableId(&node.stable_id)) {
            Some(i) => {
                let id = self.entries[i].id;
                let inactive_disco_key = self.entries[i].inactive_disco_key;
                assert(before.entries[i as int] == self.entries@[i as int]@);
                self.entries[i] = PeerEntry { id, node: node.copy(), inactive_disco_key };
                assert(self@.entries =~= before.upsert(node@).entries);
                id
            },
            None => {
                let id = PeerId(self.next_id);
                self.entries.push(PeerEntry { id, node: node.copy(), inactive_disco_key: None });
                self.next_id = self.next_id + 1;
                assert(self@.entries =~= before.upsert(node@).entries);
                id
            },
        }
    }

    /// Takes the first peer that `key` selects out of the database.
    pub fn remove(&mut self, key: PeerKey) -> (r: Option<PeerEntry>)
        requires
            old(self)@.wf(),
        ensures
            final(self)@ == old(self)@.remove(key@),
            match r {
                Some(entry) => old(self)@.find(key@) == Some(entry@),
                None => old(self)@.find(key@) is None,
            },
            final(self)@.wf(),
    {
        proof {
            remove_is_wf(self@, key@);
        }
        let ghost before = self@;
        match self.position(key) {
            Some(i) => {
                assert(before.entries[i as int] == self.entries@[i as int]@);
                let entry = self.entries.remove(i);
                assert(self@.entries =~= before.remove(key@).entries);
                Some(entry)
            },
            None => None,
        }
    }

    /// Keeps the peers whose flag is set, and returns the numbers of the others.
    pub fn retain(&mut self, flags: &Vec<bool>) -> (r: Vec<PeerId>)
        requires
            old(self)@.wf(),
            flags@.len() == old(self)@.entries.len(),
        ensures
            final(self)@ == old(self)@.keep(flags@),
            r@ == flagged(old(self)@.entries, flags@, false).map_values(|e: EntryView| e.id),
            final(self)@.wf(),
    {
        proof {
            keep_is_wf(self@, flags@);
        }
        let ghost all = self@.entries;
        let ghost before = self@;
        let mut kept: Vec<PeerEntry> = Vec::new();
        let mut dropped: Vec<PeerId> = Vec::new();
        let n: usize = self.entries.len();
        let mut i: usize = 0;
        while i < n
            invariant
                i <= n,
                n == self.entries@.len(),
                all == entry_views(self.entries@),
                flags@.len() == n,
                entry_views(kept@) == flagged(all.take(i as int), flags@, true),
                dropped@ == flagged(all.take(i as int), flags@, false).map_values(
                    |e: EntryView| e.id,
                ),
                self.next_id == before.next_id,
            decreases n - i,
        {
            assert(all.take(i + 1).drop_last() =~= all.take(i as int));
            assert(all.take(i + 1).last() == self.entries@[i as int]@);
            let ghost old_kept = kept@;
            let ghost old_dropped = dropped@;
            if flags[i] {
                let e = PeerEntry {
                    id: self.entries[i].id,
                    node: self.entries[i].node.copy(),
                    inactive_disco_key: self.entries[i].inactive_disco_key,
                };
                kept.push(e);
                assert(entry_views(kept@) =~= entry_views(old_kept).push(e@));
            } else {
                dropped.push(self.entries[i].id);
                assert(dropped@ =~= flagged(all.take(i + 1), flags@, false).map_values(
                    |e: EntryView| e.id,
                ));
            }
            i = i + 1;
        }
        assert(all.take(n as int) =~= all);
        self.entries = kept;
        dropped
    }

    /// Registers `key` as the other key that the peer `id` is known by.
    pub fn set_inactive_disco_key(&mut self, id: PeerId, key: Option<DiscoKey>)
        requires
            old(self)@.wf(),
        ensures
            final(self)@ == old(self)@.set_inactive(id, key),
            final(self)@.wf(),
    {
        proof {
            set_inactive_is_wf(self@, id, key);
        }
        let ghost before = self@;
        match self.position(PeerKey::Id(id)) {
            Some(i) => {
                let e = PeerEntry {
                    id: self.entries[i].id,
                    node: self.entries[i].node.copy(),
                    inactive_disco_key: key,
                };
                assert(before.entries[i as int] == self.entries@[i as int]@);
                self.entries[i] = e;
                assert(self@.entries =~= before.set_inactive(id, key).entries);
            },
            None => {},
        }
    }

    /// The peer that is known by the disco key `key`, and which of its keys that is.
    pub fn peer_by_known_disco_key(&self, key: DiscoKey) -> (r: Option<(&PeerEntry, DiscoKeyMatch)>)
        ensures
            match r {
                Some((entry, matched)) => self@.known_by(key) == Some((entry@, matched)),
                None => self@.known_by(key) is None,
            },
    {
        match self.get(PeerKey::Disco(key)) {
            Some(entry) => {
                return Some((entry, DiscoKeyMatch::Active));
            },
            None => {},
        }
        let ghost p = |i: int| self@.entries[i].inactive_disco_key == Some(key);
        let mut i: usize = 0;
        while i < self.entries.len()
            invariant
                i <= self.entries@.len(),
                self@.entries.len() == self.entries@.len(),
                self@.find(KeyView::Disco(key)) is None,
                p == (|i: int| self@.entries[i].inactive_disco_key == Some(key)),
                forall|j: int| 0 <= j < i ==> !#[trigger] p(j),
            decreases self.entries@.len() - i,
        {
            assert(self@.entries[i as int] == self.entries@[i as int]@);
            if self.entries[i].inactive_disco_key == Some(key) {
                assert(p(i as int));
                proof {
                    first_where_is(p, self@.entries.len() as int, i as int);
                }
                return Some((&self.entries[i], DiscoKeyMatch::Inactive));
            }
            i = i + 1;
        }
        proof {
            first_where_none(p, self@.entries.len() as int);
        }
        None
    }

    /// The peers that accept packets to `ip` most specifically.
    pub fn get_route(&self, ip: IpAddr) -> (r: Vec<Node>)
        ensures
            r@.map_values(|n: Node| n@) == routed(self@.entries, ip).map_values(
                |e: EntryView| e.node,
            ),
    {
        let ghost all = self@.entries;
        let n: usize = self.entries.len();
        let mut best: i16 = -1;
        let mut i: usize = 0;
        while i < n
            invariant
                i <= n,
                n == self.entries@.len(),
                all == entry_views(self.entries@),
                -1 <= best <= 255,
                best == best_reach(all.take(i as int), ip),
            decreases n - i,
        {
            assert(all.take(i + 1).drop_last() =~= all.take(i as int));
            assert(all[i as int] == self.entries@[i as int]@);
            let here: i16 = reach_of(&self.entries[i].node, ip);
            if here > best {
                best = here;
            }
            i = i + 1;
        }
        assert(all.take(n as int) =~= all);
        let mut out: Vec<Node> = Vec::new();
        if best < 0 {
            assert(out@.map_values(|n: Node| n@) =~= routed(all, ip).map_values(
                |e: EntryView| e.node,
            ));
            return out;
        }
        let mut k: usize = 0;
        while k < n
            invariant
                k <= n,
                n == self.entries@.len(),
                all == entry_views(self.entries@),
                out@.map_values(|n: Node| n@) == at_reach(
                    all.take(k as int),
                    ip,
                    best as int,
                ).map_values(|e: EntryView| e.node),
            decreases n - k,
        {
            assert(all.take(k + 1).drop_last() =~= all.take(k as int));
            assert(all[k as int] == self.entries@[k as int]@);
            if reach_of(&self.entries[k].node, ip) == best {
                let ghost before = out@;
                let node = self.entries[k].node.copy();
                out.push(node);
                assert(out@.map_values(|n: Node| n@) =~= before.map_values(|n: Node| n@).push(
                    node@,
                ));
                assert(at_reach(all.take(k + 1), ip, best as int).map_values(|e: EntryView| e.node)
                    =~= at_reach(all.take(k as int), ip, best as int).map_values(
                    |e: EntryView| e.node,
                ).push(node@));
            }
            k = k + 1;
        }
        out
    }

    /// A copy of the database.
    pub fn snapshot(&self) -> (r: PeerDb)
        ensures
            r@ == self@,
    {
        let mut entries: Vec<PeerEntry> = Vec::new();
        let n: usize = self.entries.len();
        let mut i: usize = 0;
        while i < n
            invariant
                i <= n,
                n == self.entries@.len(),
                entry_views(entries@) == entry_views(self.entries@).take(i as int),
            decreases n - i,
        {
            let ghost before = entries@;
            let e = PeerEntry {
                id: self.entries[i].id,
                node: self.entries[i].node.copy(),
                inactive_disco_key: self.entries[i].inactive_disco_key,
            };
            entries.push(e);
            i = i + 1;
            assert(entry_views(entries@) =~= entry_views(before).push(e@));
            assert(entry_views(entries@) =~= entry_views(self.entries@).take(i as int));
        }
        let r = PeerDb { entries, next_id: self.next_id };
        assert(r@.entries =~= self@.entries);
        r
    }
}

} // verus!
