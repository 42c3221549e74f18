//! Which packet filter is in force.
//!
//! Control sends the filter and the peers. A peer that tailnet lock does not cover may reach the
//! peerAPI and nothing else, so a filter that grants such a peer network access is not to be
//! trusted in any part: while it does, everything is denied. The filter itself is set aside, not
//! dropped, and comes back as soon as it grants no such peer anything. Where incoming connections
//! are blocked, packets to this node's own addresses are refused on top of either.

use vstd::prelude::*;

use crate::addr::{IpAddr, IpPrefix, Ipv4Addr};
use crate::node::{Node, NodeId, NodeView};
use crate::overlay::{addresses, self_node_addresses, the_overlay_addresses};
use crate::peer_tracker::{views_of, PeerUpdate};

verus! {

/// A peer that tailnet lock does not cover, and the prefixes it may use.
#[derive(Debug)]
struct UnlockedPeer {
    id: NodeId,
    routes: Vec<IpPrefix>,
}

/// The peers that tailnet lock does not cover.
#[derive(Debug)]
pub struct UnlockedPeers {
    rows: Vec<UnlockedPeer>,
}

/// The peers in `rows`, by their number.
spec fn by_id(rows: Seq<UnlockedPeer>) -> Map<NodeId, Seq<IpPrefix>>
    decreases rows.len(),
{
    if rows.len() == 0 {
        Map::empty()
    } else {
        by_id(rows.drop_last()).insert(rows.last().id, rows.last().routes@)
    }
}

spec fn ascending(rows: Seq<UnlockedPeer>) -> bool {
    forall|i: int, j: int|
        0 <= i < j < rows.len() ==> (#[trigger] rows[i]).id < (#[trigger] rows[j]).id
}

proof fn by_id_holds_the_rows(rows: Seq<UnlockedPeer>)
    requires
        ascending(rows),
    ensures
        forall|i: int|
            0 <= i < rows.len() ==> by_id(rows).contains_key((#[trigger] rows[i]).id)
                && by_id(rows)[rows[i].id] == rows[i].routes@,
        forall|id: NodeId| #[trigger]
            by_id(rows).contains_key(id) ==> exists|i: int|
                0 <= i < rows.len() && (#[trigger] rows[i]).id == id,
    decreases rows.len(),
{
    if rows.len() > 0 {
        let short = rows.drop_last();
        assert forall|i: int, j: int| 0 <= i < j < short.len() implies (#[trigger] short[i]).id < (
        #[trigger] short[j]).id by {
            assert(short[i] == rows[i] && short[j] == rows[j]);
        }
        by_id_holds_the_rows(short);
        assert forall|i: int| 0 <= i < rows.len() implies by_id(rows).contains_key(
            (#[trigger] rows[i]).id,
        ) && by_id(rows)[rows[i].id] == rows[i].routes@ by {
            if i < short.len() {
                assert(short[i] == rows[i]);
                assert(rows[rows.len() - 1].id != rows[i].id);
            }
        }
        assert forall|id: NodeId| #[trigger] by_id(rows).contains_key(id) implies exists|i: int|
            0 <= i < rows.len() && (#[trigger] rows[i]).id == id by {
            if id == rows.last().id {
                assert(rows[rows.len() - 1].id == id);
            } else {
                assert(by_id(short).contains_key(id));
                let k = choose|k: int| 0 <= k < short.len() && (#[trigger] short[k]).id == id;
                assert(rows[k].id == id);
            }
        }
    }
}

fn prefixes_eq(a: &Vec<IpPrefix>, b: &Vec<IpPrefix>) -> (r: bool)
    ensures
        r == (a@ == b@),
{
    if a.len() != b.len() {
        return false;
    }
    let mut i: usize = 0;
    while i < a.len()
        invariant
            i <= a@.len(),
            a@.len() == b@.len(),
            forall|j: int| 0 <= j < i ==> a@[j] == b@[j],
        decreases a@.len() - i,
    {
        if a[i] != b[i] {
            return false;
        }
        i = i + 1;
    }
    assert(a@ =~= b@);
    true
}

impl View for UnlockedPeers {
    type V = Map<NodeId, Seq<IpPrefix>>;

    closed spec fn view(&self) -> Map<NodeId, Seq<IpPrefix>> {
        by_id(self.rows@)
    }
}

impl UnlockedPeers {
    /// The peers are listed in the order of their numbers, each once.
    pub closed spec fn wf(&self) -> bool {
        ascending(self.rows@)
    }

    /// No peers.
    pub fn new() -> (r: Self)
        ensures
            r.wf(),
            r@ == Map::<NodeId, Seq<IpPrefix>>::empty(),
    {
        UnlockedPeers { rows: Vec::new() }
    }

    /// A list of the same peers.
    pub fn copy(&self) -> (r: Self)
        requires
            self.wf(),
        ensures
            r.wf(),
            r@ == self@,
    {
        let mut out = UnlockedPeers { rows: Vec::new() };
        let ghost all = self.rows@;
        let mut i: usize = 0;
        assert(all.take(0) =~= Seq::<UnlockedPeer>::empty());
        while i < self.rows.len()
            invariant
                i <= self.rows@.len(),
                all == self.rows@,
                ascending(all),
                out.wf(),
                out@ == by_id(all.take(i as int)),
                out.rows@.len() == i,
                forall|j: int| 0 <= j < i ==> (#[trigger] out.rows@[j]).id == all[j].id,
            decreases self.rows@.len() - i,
        {
            let row = UnlockedPeer {
                id: self.rows[i].id,
                routes: self.rows[i].routes.clone(),
            };
            assert(row.routes@ =~= all[i as int].routes@);
            assert(all.take(i + 1).drop_last() =~= all.take(i as int));
            let ghost before = out.rows@;
            out.rows.push(row);
            assert(out.rows@.drop_last() =~= before);
            i = i + 1;
        }
        assert(all.take(all.len() as int) =~= all);
        out
    }

    fn position(&self, id: NodeId) -> (r: Option<usize>)
        requires
            self.wf(),
        ensures
            match r {
                Some(i) => i < self.rows@.len() && self.rows@[i as int].id == id
                    && self@.contains_key(id) && self@[id] == self.rows@[i as int].routes@,
                None => !self@.contains_key(id),
            },
    {
        proof {
            by_id_holds_the_rows(self.rows@);
        }
        let mut i: usize = 0;
        while i < self.rows.len()
            invariant
                i <= self.rows@.len(),
                forall|j: int| 0 <= j < i ==> (#[trigger] self.rows@[j]).id != id,
                forall|j: int|
                    0 <= j < self.rows@.len() ==> self@.contains_key((#[trigger] self.rows@[j]).id)
                        && self@[self.rows@[j].id] == self.rows@[j].routes@,
            decreases self.rows@.len() - i,
        {
            if self.rows[i].id == id {
                return Some(i);
            }
            i = i + 1;
        }
        None
    }

    /// Takes a peer off the list.
    pub fn remove(&mut self, id: NodeId)
        requires
            old(self).wf(),
        ensures
            final(self).wf(),
            final(self)@ == old(self)@.remove(id),
    {
        let mut out: Vec<UnlockedPeer> = Vec::new();
        let ghost all = self.rows@;
        let mut i: usize = 0;
        assert(all.take(0) =~= Seq::<UnlockedPeer>::empty());
        assert(by_id(out@) =~= by_id(all.take(0)).remove(id));
        while i < self.rows.len()
            invariant
                i <= self.rows@.len(),
                all == self.rows@,
                ascending(all),
                ascending(out@),
                by_id(out@) == by_id(all.take(i as int)).remove(id),
                forall|k: int| 0 <= k < out@.len() ==> (#[trigger] out@[k]).id != id && exists|j: int|
                    0 <= j < i && (#[trigger] all[j]).id == out@[k].id,
            decreases self.rows@.len() - i,
        {
            assert(all.take(i + 1).drop_last() =~= all.take(i as int));
            let row = &self.rows[i];
            if row.id != id {
                let kept = UnlockedPeer { id: row.id, routes: row.routes.clone() };
                assert(kept.routes@ =~= all[i as int].routes@);
                let ghost before = out@;
                out.push(kept);
                assert(out@.drop_last() =~= before);
                assert(by_id(out@) =~= by_id(all.take(i + 1)).remove(id));
                assert forall|k: int| 0 <= k < out@.len() implies (#[trigger] out@[k]).id != id
                    && exists|j: int| 0 <= j < i + 1 && (#[trigger] all[j]).id == out@[k].id by {
                    if k < before.len() {
                        assert(out@[k] == before[k]);
                        let j = choose|j: int|
                            0 <= j < i && (#[trigger] all[j]).id == before[k].id;
                        assert(all[j].id == out@[k].id);
                    } else {
                        assert(all[i as int].id == out@[k].id);
                    }
                }
                assert(ascending(out@)) by {
                    assert forall|x: int, y: int| 0 <= x < y < out@.len() implies (
                    #[trigger] out@[x]).id < (#[trigger] out@[y]).id by {
                        if y == before.len() {
                            assert(out@[x] == before[x]);
                            let j = choose|j: int|
                                0 <= j < i && (#[trigger] all[j]).id == before[x].id;
                            assert(all[j].id < all[i as int].id);
                        } else {
                            assert(out@[x] == before[x] && out@[y] == before[y]);
                        }
                    }
                }
            } else {
                assert(by_id(out@) =~= by_id(all.take(i + 1)).remove(id));
            }
            i = i + 1;
        }
        assert(all.take(all.len() as int) =~= all);
        self.rows = out;
    }

    /// Lists a peer, in place of what was listed of it before.
    pub fn insert(&mut self, id: NodeId, routes: &Vec<IpPrefix>)
        requires
            old(self).wf(),
        ensures
            final(self).wf(),
            final(self)@ == old(self)@.insert(id, routes@),
    {
        let ghost given = self@;
        self.remove(id);
        let copy = routes.clone();
        assert(copy@ =~= routes@);
        let ghost before = self.rows@;
        let mut k: usize = 0;
        while k < self.rows.len() && self.rows[k].id < id
            invariant
                k <= self.rows@.len(),
                self.rows@ == before,
                forall|j: int| 0 <= j < k ==> (#[trigger] before[j]).id < id,
            decreases self.rows@.len() - k,
        {
            k = k + 1;
        }
        proof {
            by_id_holds_the_rows(before);
            assert forall|j: int| k <= j < before.len() implies (#[trigger] before[j]).id > id by {
                assert(by_id(before).contains_key(before[j].id));
                assert(before[k as int].id <= before[j].id);
            }
        }
        let row = UnlockedPeer { id, routes: copy };
        self.rows.insert(k, row);
        proof {
            let rows = self.rows@;
            assert forall|x: int, y: int| 0 <= x < y < rows.len() implies (#[trigger] rows[x]).id
                < (#[trigger] rows[y]).id by {
                if x < k {
                    assert(rows[x] == before[x]);
                }
                if x > k {
                    assert(rows[x] == before[x - 1]);
                }
                if y < k {
                    assert(rows[y] == before[y]);
                }
                if y > k {
                    assert(rows[y] == before[y - 1]);
                }
            }
            by_id_holds_the_rows(rows);
            assert forall|other: NodeId| #[trigger] by_id(rows).contains_key(other) == (other == id
                || given.contains_key(other)) by {
                if by_id(rows).contains_key(other) && other != id {
                    let i = choose|i: int| 0 <= i < rows.len() && (#[trigger] rows[i]).id == other;
                    let j = if i < k { i } else { i - 1 };
                    assert(rows[i] == before[j]);
                    assert(by_id(before).contains_key(other));
                }
                if other == id {
                    assert(rows[k as int].id == id);
                } else if given.contains_key(other) {
                    assert(by_id(before).contains_key(other));
                    let j = choose|j: int| 0 <= j < before.len() && (#[trigger] before[j]).id
                        == other;
                    let i = if j < k { j } else { j + 1 };
                    assert(rows[i] == before[j]);
                }
            }
            assert forall|other: NodeId| #[trigger] by_id(rows).contains_key(other) implies by_id(
                rows,
            )[other] == given.insert(id, routes@)[other] by {
                let i = choose|i: int| 0 <= i < rows.len() && (#[trigger] rows[i]).id == other;
                if i == k {
                    assert(rows[k as int].routes@ == routes@);
                } else {
                    let j = if i < k { i } else { i - 1 };
                    assert(rows[i] == before[j]);
                    assert(by_id(before)[other] == before[j].routes@);
                }
            }
            assert(self@ =~= given.insert(id, routes@));
        }
    }

    fn within(&self, other: &UnlockedPeers) -> (r: bool)
        requires
            self.wf(),
            other.wf(),
        ensures
            r == (forall|id: NodeId| #[trigger]
                self@.contains_key(id) ==> other@.contains_key(id) && other@[id] == self@[id]),
    {
        proof {
            by_id_holds_the_rows(self.rows@);
        }
        let mut i: usize = 0;
        while i < self.rows.len()
            invariant
                i <= self.rows@.len(),
                self.wf(),
                other.wf(),
                forall|j: int|
                    0 <= j < self.rows@.len() ==> self@.contains_key((#[trigger] self.rows@[j]).id)
                        && self@[self.rows@[j].id] == self.rows@[j].routes@,
                forall|j: int|
                    0 <= j < i ==> other@.contains_key((#[trigger] self.rows@[j]).id)
                        && other@[self.rows@[j].id] == self@[self.rows@[j].id],
            decreases self.rows@.len() - i,
        {
            assert(self@.contains_key(self.rows@[i as int].id));
            match other.position(self.rows[i].id) {
                Some(k) => {
                    if !prefixes_eq(&other.rows[k].routes, &self.rows[i].routes) {
                        return false;
                    }
                },
                None => {
                    return false;
                },
            }
            i = i + 1;
        }
        assert forall|id: NodeId| #[trigger] self@.contains_key(id) implies other@.contains_key(id)
            && other@[id] == self@[id] by {
            let k = choose|k: int| 0 <= k < self.rows@.len() && (#[trigger] self.rows@[k]).id == id;
            assert(self.rows@[k].id == id);
        }
        true
    }

    /// Whether two lists hold the same peers with the same prefixes.
    pub fn same(&self, other: &UnlockedPeers) -> (r: bool)
        requires
            self.wf(),
            other.wf(),
        ensures
            r == (self@ == other@),
    {
        let r = self.within(other) && other.within(self);
        proof {
            if r {
                assert(self@.dom() =~= other@.dom());
                assert(self@ =~= other@);
            }
        }
        r
    }

    /// The prefixes of all the peers, in the order of the peers' numbers.
    pub fn prefixes(&self) -> (r: Vec<IpPrefix>)
        requires
            self.wf(),
        ensures
            exists|ids: Seq<NodeId>|
                numbers_of(self@, ids) && r@ == #[trigger] joined(self@, ids),
    {
        let mut out: Vec<IpPrefix> = Vec::new();
        let ghost all = self.rows@;
        let ghost mut ids: Seq<NodeId> = Seq::empty();
        proof {
            by_id_holds_the_rows(all);
        }
        let mut i: usize = 0;
        while i < self.rows.len()
            invariant
                i <= self.rows@.len(),
                all == self.rows@,
                forall|j: int|
                    0 <= j < all.len() ==> self@.contains_key((#[trigger] all[j]).id)
                        && self@[all[j].id] == all[j].routes@,
                ids.len() == i,
                forall|j: int| 0 <= j < i ==> #[trigger] ids[j] == all[j].id,
                out@ == joined(self@, ids),
            decreases self.rows@.len() - i,
        {
            let ghost before = ids;
            out.extend_from_slice(self.rows[i].routes.as_slice());
            proof {
                ids = ids.push(all[i as int].id);
                assert(ids.drop_last() =~= before);
                assert(self@[all[i as int].id] == all[i as int].routes@);
            }
            assert(out@ =~= joined(self@, ids));
            i = i + 1;
        }
        proof {
            assert forall|id: NodeId| #[trigger] ids.contains(id) <==> self@.contains_key(id) by {
                if ids.contains(id) {
                    let j = choose|j: int| 0 <= j < ids.len() && ids[j] == id;
                    assert(self@.contains_key(all[j].id));
                }
                if self@.contains_key(id) {
                    let j = choose|j: int| 0 <= j < all.len() && (#[trigger] all[j]).id == id;
                    assert(ids[j] == id);
                }
            }
            assert forall|x: int, y: int| 0 <= x < y < ids.len() implies #[trigger] ids[x]
                < #[trigger] ids[y] by {
                assert(all[x].id < all[y].id);
            }
            assert(numbers_of(self@, ids));
        }
        out
    }
}

/// Whether `ids` are the numbers of `peers`, in order.
pub open spec fn numbers_of(peers: Map<NodeId, Seq<IpPrefix>>, ids: Seq<NodeId>) -> bool {
    &&& forall|i: int, j: int| 0 <= i < j < ids.len() ==> #[trigger] ids[i] < #[trigger] ids[j]
    &&& forall|id: NodeId| #[trigger] ids.contains(id) <==> peers.contains_key(id)
}

/// The prefixes of the peers `ids`, one after the other.
pub open spec fn joined(
    peers: Map<NodeId, Seq<IpPrefix>>,
    ids: Seq<NodeId>,
) -> Seq<IpPrefix>
    decreases ids.len(),
{
    if ids.len() == 0 {
        Seq::empty()
    } else {
        joined(peers, ids.drop_last()) + peers[ids.last()]
    }
}

/// The unlocked ones among `nodes`, on top of `peers`.
pub open spec fn unlocked_among(
    peers: Map<NodeId, Seq<IpPrefix>>,
    nodes: Seq<NodeView>,
) -> Map<NodeId, Seq<IpPrefix>>
    decreases nodes.len(),
{
    if nodes.len() == 0 {
        peers
    } else {
        let before = unlocked_among(peers, nodes.drop_last());
        if nodes.last().unsigned_peer_api_only {
            before.insert(nodes.last().id, nodes.last().accepted_routes)
        } else {
            before
        }
    }
}

/// `peers` after `nodes` came or changed: the locked ones among them are unlocked no more.
pub open spec fn unlocked_after(
    peers: Map<NodeId, Seq<IpPrefix>>,
    nodes: Seq<NodeView>,
) -> Map<NodeId, Seq<IpPrefix>>
    decreases nodes.len(),
{
    if nodes.len() == 0 {
        peers
    } else {
        let before = unlocked_after(peers, nodes.drop_last());
        if nodes.last().unsigned_peer_api_only {
            before.insert(nodes.last().id, nodes.last().accepted_routes)
        } else {
            before.remove(nodes.last().id)
        }
    }
}

/// `peers` without those called `gone`.
pub open spec fn unlocked_without(
    peers: Map<NodeId, Seq<IpPrefix>>,
    gone: Seq<NodeId>,
) -> Map<NodeId, Seq<IpPrefix>>
    decreases gone.len(),
{
    if gone.len() == 0 {
        peers
    } else {
        unlocked_without(peers, gone.drop_last()).remove(gone.last())
    }
}

/// The unlocked peers after an update.
pub open spec fn retracked(
    peers: Map<NodeId, Seq<IpPrefix>>,
    update: Option<PeerUpdate>,
) -> Map<NodeId, Seq<IpPrefix>> {
    match update {
        None => peers,
        Some(PeerUpdate::Full(nodes)) => unlocked_among(Map::empty(), views_of(nodes@)),
        Some(PeerUpdate::Delta { upsert, remove }) => unlocked_without(
            unlocked_after(peers, views_of(upsert@)),
            remove@,
        ),
    }
}

/// The filter that is published.
#[derive(Clone, Copy, Debug, PartialEq, Eq, Structural)]
pub enum FilterChoice {
    /// The one that control sent.
    Compiled,
    /// One that denies everything.
    DenyAll,
}

/// What is published: a filter, and on top of it a shield over these addresses.
#[derive(Debug)]
pub struct Publication {
    pub filter: FilterChoice,
    pub shield: Option<Vec<IpAddr>>,
}

/// The model of a [`Publication`].
#[verifier::ext_equal]
pub struct PublicationView {
    pub filter: FilterChoice,
    pub shield: Option<Seq<IpAddr>>,
}

impl View for Publication {
    type V = PublicationView;

    open spec fn view(&self) -> PublicationView {
        PublicationView {
            filter: self.filter,
            shield: match self.shield {
                Some(v) => Some(v@),
                None => None,
            },
        }
    }
}

/// Keeps track of what the filter in force depends on.
#[derive(Debug)]
pub struct PacketfilterUpdater {
    /// Whether incoming connections are blocked.
    pub block_incoming: bool,
    /// Whether IPv6 is enabled on the overlay.
    pub enable_ipv6: bool,
    /// This node's own addresses; kept only while incoming connections are blocked.
    pub self_addrs: Vec<IpAddr>,
    /// The peers that tailnet lock does not cover.
    pub unlocked: UnlockedPeers,
    /// Whether the filter grants one of them network access.
    pub unlocked_nodes_permitted: bool,
}

/// The model of a [`PacketfilterUpdater`].
#[verifier::ext_equal]
pub struct UpdaterView {
    pub block_incoming: bool,
    pub enable_ipv6: bool,
    pub self_addrs: Seq<IpAddr>,
    pub unlocked: Map<NodeId, Seq<IpPrefix>>,
    pub permitted: bool,
}

impl UpdaterView {
    /// What is published now.
    pub open spec fn published(self) -> PublicationView {
        PublicationView {
            filter: if self.permitted {
                FilterChoice::DenyAll
            } else {
                FilterChoice::Compiled
            },
            shield: if self.block_incoming {
                Some(self.self_addrs)
            } else {
                None
            },
        }
    }

    /// The state after what control says of this node and of the peers.
    pub open spec fn told(self, node: Option<NodeView>, update: Option<PeerUpdate>) -> UpdaterView {
        UpdaterView {
            self_addrs: match node {
                Some(n) => if self.block_incoming {
                    addresses(n, self.enable_ipv6)
                } else {
                    self.self_addrs
                },
                None => self.self_addrs,
            },
            unlocked: retracked(self.unlocked, update),
            ..self
        }
    }
}

impl View for PacketfilterUpdater {
    type V = UpdaterView;

    open spec fn view(&self) -> UpdaterView {
        UpdaterView {
            block_incoming: self.block_incoming,
            enable_ipv6: self.enable_ipv6,
            self_addrs: self.self_addrs@,
            unlocked: self.unlocked@,
            permitted: self.unlocked_nodes_permitted,
        }
    }
}

/// The model of an optional node.
pub open spec fn node_view(node: Option<&Node>) -> Option<NodeView> {
    match node {
        Some(n) => Some(n@),
        None => None,
    }
}

/// The value behind an optional reference.
pub open spec fn update_of(update: Option<&PeerUpdate>) -> Option<PeerUpdate> {
    match update {
        Some(u) => Some(*u),
        None => None,
    }
}

impl PacketfilterUpdater {
    /// The list of unlocked peers is in order.
    pub open spec fn wf(&self) -> bool {
        self.unlocked.wf()
    }

    /// The updater before the first update.
    pub fn new(block_incoming: bool, enable_ipv6: bool) -> (r: Self)
        ensures
            r.wf(),
            r@ == (UpdaterView {
                block_incoming,
                enable_ipv6,
                self_addrs: Seq::empty(),
                unlocked: Map::empty(),
                permitted: false,
            }),
    {
        PacketfilterUpdater {
            block_incoming,
            enable_ipv6,
            self_addrs: Vec::new(),
            unlocked: UnlockedPeers::new(),
            unlocked_nodes_permitted: false,
        }
    }

    /// The filter to publish.
    pub fn published_filter(&self) -> (r: Publication)
        ensures
            r@ == self@.published(),
    {
        if self.unlocked_nodes_permitted {
            self.wrap_for_publication(FilterChoice::DenyAll)
        } else {
            self.wrap_for_publication(FilterChoice::Compiled)
        }
    }

    /// Puts the shield on top of `filter`, where incoming connections are blocked.
    pub fn wrap_for_publication(&self, filter: FilterChoice) -> (r: Publication)
        ensures
            r@ == (PublicationView {
                filter,
                shield: if self@.block_incoming {
                    Some(self@.self_addrs)
                } else {
                    None
                },
            }),
    {
        if self.block_incoming {
            let shield = self.self_addrs.clone();
            assert(shield@ =~= self.self_addrs@);
            Publication { filter, shield: Some(shield) }
        } else {
            Publication { filter, shield: None }
        }
    }

    /// Keeps track of the unlocked peers, and says whether anything about them changed. A full list
    /// of peers replaces; a delta adds, changes and removes.
    pub fn track_unlocked_peers(&mut self, peer_update: Option<&PeerUpdate>) -> (r: bool)
        requires
            old(self).wf(),
        ensures
            final(self).wf(),
            final(self)@ == (UpdaterView {
                unlocked: retracked(old(self)@.unlocked, update_of(peer_update)),
                ..old(self)@
            }),
            r == (final(self)@.unlocked != old(self)@.unlocked),
    {
        let update = match peer_update {
            Some(u) => u,
            None => {
                return false;
            },
        };
        let ghost given = self.unlocked@;
        let before = self.unlocked.copy();
        match update {
            PeerUpdate::Full(nodes) => {
                let mut fresh = UnlockedPeers::new();
                let ghost views = views_of(nodes@);
                let mut i: usize = 0;
                assert(views.take(0) =~= Seq::<NodeView>::empty());
                while i < nodes.len()
                    invariant
                        i <= nodes@.len(),
                        views == views_of(nodes@),
                        fresh.wf(),
                        fresh@ == unlocked_among(Map::empty(), views.take(i as int)),
                    decreases nodes@.len() - i,
                {
                    assert(views[i as int] == nodes@[i as int]@);
                    assert(views.take(i + 1).drop_last() =~= views.take(i as int));
                    if nodes[i].unsigned_peer_api_only {
                        fresh.insert(nodes[i].id, &nodes[i].accepted_routes);
                    }
                    i = i + 1;
                }
                assert(views.take(views.len() as int) =~= views);
                self.unlocked = fresh;
            },
            PeerUpdate::Delta { upsert, remove } => {
                let mut now = self.unlocked.copy();
                let ghost views = views_of(upsert@);
                let mut i: usize = 0;
                assert(views.take(0) =~= Seq::<NodeView>::empty());
                while i < upsert.len()
                    invariant
                        i <= upsert@.len(),
                        views == views_of(upsert@),
                        now.wf(),
                        now@ == unlocked_after(given, views.take(i as int)),
                    decreases upsert@.len() - i,
                {
                    assert(views[i as int] == upsert@[i as int]@);
                    assert(views.take(i + 1).drop_last() =~= views.take(i as int));
                    if upsert[i].unsigned_peer_api_only {
                        now.insert(upsert[i].id, &upsert[i].accepted_routes);
                    } else {
                        now.remove(upsert[i].id);
                    }
                    i = i + 1;
                }
                assert(views.take(views.len() as int) =~= views);
                let ghost added = now@;
                let mut k: usize = 0;
                assert(remove@.take(0) =~= Seq::<NodeId>::empty());
                while k < remove.len()
                    invariant
                        k <= remove@.len(),
                        now.wf(),
                        now@ == unlocked_without(added, remove@.take(k as int)),
                    decreases remove@.len() - k,
                {
                    assert(remove@.take(k + 1).drop_last() =~= remove@.take(k as int));
                    now.remove(remove[k]);
                    k = k + 1;
                }
                assert(remove@.take(remove@.len() as int) =~= remove@);
                self.unlocked = now;
            },
        }
        !self.unlocked.same(&before)
    }

    /// Takes what the filter now says of the unlocked peers, and says whether that changed.
    pub fn reassess_unlocked_nodes(&mut self, permitted: bool) -> (r: bool)
        ensures
            final(self)@ == (UpdaterView { permitted, ..old(self)@ }),
            old(self).wf() ==> final(self).wf(),
            r == (permitted != old(self)@.permitted),
    {
        if permitted == self.unlocked_nodes_permitted {
            return false;
        }
        self.unlocked_nodes_permitted = permitted;
        true
    }

    /// Takes what control says of this node and of the peers, and whether it sent a filter. Where
    /// the filter is to be judged again, returns the prefixes of the unlocked peers: the filter is
    /// asked whether it permits any of them, and [`PacketfilterUpdater::judged`] takes the answer.
    pub fn handle(
        &mut self,
        node: Option<&Node>,
        peer_update: Option<&PeerUpdate>,
        filter_changed: bool,
    ) -> (r: Option<Vec<IpPrefix>>)
        requires
            old(self).wf(),
        ensures
            final(self).wf(),
            final(self)@ == old(self)@.told(node_view(node), update_of(peer_update)),
            r is Some == (filter_changed || final(self)@.unlocked != old(self)@.unlocked),
            r is Some ==> exists|ids: Seq<NodeId>|
                numbers_of(final(self)@.unlocked, ids) && r->0@ == #[trigger] joined(
                    final(self)@.unlocked,
                    ids,
                ),
    {
        match node {
            Some(n) => {
                if self.block_incoming {
                    self.self_addrs = self_node_addresses(n, self.enable_ipv6);
                }
            },
            None => {},
        }
        let peers_changed = self.track_unlocked_peers(peer_update);
        if !filter_changed && !peers_changed {
            return None;
        }
        Some(self.unlocked.prefixes())
    }

    /// Takes what the filter says of the unlocked peers, and returns what is to be published, if
    /// anything is.
    pub fn judged(&mut self, permitted: bool, filter_changed: bool) -> (r: Option<Publication>)
        ensures
            final(self)@ == (UpdaterView { permitted, ..old(self)@ }),
            old(self).wf() ==> final(self).wf(),
            r is Some == (filter_changed || permitted != old(self)@.permitted),
            r is Some ==> r->0@ == final(self)@.published(),
    {
        let verdict_changed = self.reassess_unlocked_nodes(permitted);
        if !filter_changed && !verdict_changed {
            return None;
        }
        Some(self.published_filter())
    }
}

/// A filter that grants an unlocked peer network access is not in force in any part, and one that
/// does not is in force as it was sent.
pub proof fn an_untrusted_filter_is_ignored_wholesale(u: UpdaterView, permitted: bool)
    ensures
        (UpdaterView { permitted, ..u }).published().filter == (if permitted {
            FilterChoice::DenyAll
        } else {
            FilterChoice::Compiled
        }),
{
}

/// A filter that was set aside is in force again once it grants no unlocked peer anything.
pub proof fn a_filter_set_aside_comes_back(u: UpdaterView)
    ensures
        (UpdaterView { permitted: false, ..UpdaterView { permitted: true, ..u } }).published()
            == (UpdaterView { permitted: false, ..u }).published(),
{
}

proof fn among_holds_unlocked_only(
    peers: Map<NodeId, Seq<IpPrefix>>,
    nodes: Seq<NodeView>,
    id: NodeId,
)
    ensures
        unlocked_among(peers, nodes).contains_key(id) <==> peers.contains_key(id) || exists|i: int|
            0 <= i < nodes.len() && (#[trigger] nodes[i]).id == id
                && nodes[i].unsigned_peer_api_only,
    decreases nodes.len(),
{
    if nodes.len() > 0 {
        let short = nodes.drop_last();
        among_holds_unlocked_only(peers, short, id);
        if exists|i: int|
            0 <= i < nodes.len() && (#[trigger] nodes[i]).id == id
                && nodes[i].unsigned_peer_api_only {
            let i = choose|i: int|
                0 <= i < nodes.len() && (#[trigger] nodes[i]).id == id
                    && nodes[i].unsigned_peer_api_only;
            if i < short.len() {
                assert(short[i].id == id);
            }
        }
        if exists|i: int|
            0 <= i < short.len() && (#[trigger] short[i]).id == id
                && short[i].unsigned_peer_api_only {
            let i = choose|i: int|
                0 <= i < short.len() && (#[trigger] short[i]).id == id
                    && short[i].unsigned_peer_api_only;
            assert(nodes[i].id == id);
        }
        if nodes.last().unsigned_peer_api_only && nodes.last().id == id {
            assert(nodes[nodes.len() - 1].id == id);
        }
    }
}

/// After a full list of peers exactly the unlocked ones on it are kept track of.
pub proof fn a_full_list_replaces_the_unlocked_peers(
    peers: Map<NodeId, Seq<IpPrefix>>,
    nodes: Vec<Node>,
    id: NodeId,
)
    ensures
        retracked(peers, Some(PeerUpdate::Full(nodes))).contains_key(id) <==> exists|i: int|
            0 <= i < views_of(nodes@).len() && (#[trigger] views_of(nodes@)[i]).id == id
                && views_of(nodes@)[i].unsigned_peer_api_only,
{
    among_holds_unlocked_only(Map::empty(), views_of(nodes@), id);
}

proof fn without_holds_none_of_them(
    peers: Map<NodeId, Seq<IpPrefix>>,
    gone: Seq<NodeId>,
    id: NodeId,
)
    ensures
        unlocked_without(peers, gone).contains_key(id) <==> peers.contains_key(id)
            && !gone.contains(id),
    decreases gone.len(),
{
    if gone.len() > 0 {
        let short = gone.drop_last();
        without_holds_none_of_them(peers, short, id);
        if gone.contains(id) {
            let i = choose|i: int| 0 <= i < gone.len() && gone[i] == id;
            if i < short.len() {
                assert(short[i] == id);
            }
        }
        if short.contains(id) {
            let i = choose|i: int| 0 <= i < short.len() && short[i] == id;
            assert(gone[i] == id);
        }
        if gone.last() == id {
            assert(gone[gone.len() - 1] == id);
        }
    }
}

/// A peer that is removed is not kept track of, whatever else the delta says.
pub proof fn a_removed_peer_is_not_unlocked(
    peers: Map<NodeId, Seq<IpPrefix>>,
    upsert: Vec<Node>,
    remove: Vec<NodeId>,
    id: NodeId,
)
    requires
        remove@.contains(id),
    ensures
        !retracked(peers, Some(PeerUpdate::Delta { upsert, remove })).contains_key(id),
{
    without_holds_none_of_them(unlocked_after(peers, views_of(upsert@)), remove@, id);
}

proof fn among_carries_the_last_routes(
    peers: Map<NodeId, Seq<IpPrefix>>,
    nodes: Seq<NodeView>,
    k: int,
)
    requires
        0 <= k < nodes.len(),
        nodes[k].unsigned_peer_api_only,
        forall|j: int|
            k < j < nodes.len() && (#[trigger] nodes[j]).id == nodes[k].id
                ==> !nodes[j].unsigned_peer_api_only,
    ensures
        unlocked_among(peers, nodes).contains_key(nodes[k].id),
        unlocked_among(peers, nodes)[nodes[k].id] == nodes[k].accepted_routes,
    decreases nodes.len(),
{
    let short = nodes.drop_last();
    if k < short.len() {
        assert forall|j: int| k < j < short.len() && (#[trigger] short[j]).id == short[k].id
            implies !short[j].unsigned_peer_api_only by {
            assert(nodes[j] == short[j]);
        }
        among_carries_the_last_routes(peers, short, k);
        assert(nodes[nodes.len() - 1] == nodes.last());
    }
}

proof fn after_follows_the_last_entry(
    peers: Map<NodeId, Seq<IpPrefix>>,
    nodes: Seq<NodeView>,
    k: int,
)
    requires
        0 <= k < nodes.len(),
        forall|j: int| k < j < nodes.len() ==> (#[trigger] nodes[j]).id != nodes[k].id,
    ensures
        unlocked_after(peers, nodes).contains_key(nodes[k].id) == nodes[k].unsigned_peer_api_only,
        nodes[k].unsigned_peer_api_only ==> unlocked_after(peers, nodes)[nodes[k].id]
            == nodes[k].accepted_routes,
    decreases nodes.len(),
{
    let short = nodes.drop_last();
    if k < short.len() {
        assert forall|j: int| k < j < short.len() implies (#[trigger] short[j]).id
            != short[k].id by {
            assert(nodes[j] == short[j]);
        }
        after_follows_the_last_entry(peers, short, k);
        assert(nodes[nodes.len() - 1].id != nodes[k].id);
    }
}

proof fn after_keeps_the_unmentioned(
    peers: Map<NodeId, Seq<IpPrefix>>,
    nodes: Seq<NodeView>,
    id: NodeId,
)
    requires
        forall|j: int| 0 <= j < nodes.len() ==> (#[trigger] nodes[j]).id != id,
    ensures
        unlocked_after(peers, nodes).contains_key(id) == peers.contains_key(id),
        peers.contains_key(id) ==> unlocked_after(peers, nodes)[id] == peers[id],
    decreases nodes.len(),
{
    if nodes.len() > 0 {
        let short = nodes.drop_last();
        assert forall|j: int| 0 <= j < short.len() implies (#[trigger] short[j]).id != id by {
            assert(nodes[j] == short[j]);
        }
        after_keeps_the_unmentioned(peers, short, id);
        assert(nodes[nodes.len() - 1].id != id);
    }
}

proof fn without_keeps_the_routes(
    peers: Map<NodeId, Seq<IpPrefix>>,
    gone: Seq<NodeId>,
    id: NodeId,
)
    requires
        !gone.contains(id),
    ensures
        peers.contains_key(id) ==> unlocked_without(peers, gone)[id] == peers[id],
    decreases gone.len(),
{
    if gone.len() > 0 {
        let short = gone.drop_last();
        assert(gone[gone.len() - 1] != id);
        assert forall|i: int| 0 <= i < short.len() implies short[i] != id by {
            assert(gone[i] == short[i]);
        }
        without_keeps_the_routes(peers, short, id);
    }
}

/// A peer that a full list names as unlocked is kept track of under the routes of the last such
/// entry.
pub proof fn a_full_list_carries_the_routes(
    peers: Map<NodeId, Seq<IpPrefix>>,
    nodes: Vec<Node>,
    k: int,
)
    requires
        0 <= k < nodes@.len(),
        nodes@[k].unsigned_peer_api_only,
        forall|j: int|
            k < j < nodes@.len() && (#[trigger] nodes@[j]).id == nodes@[k].id
                ==> !nodes@[j].unsigned_peer_api_only,
    ensures
        retracked(peers, Some(PeerUpdate::Full(nodes))).contains_key(nodes@[k].id),
        retracked(peers, Some(PeerUpdate::Full(nodes)))[nodes@[k].id]
            == nodes@[k].accepted_routes@,
{
    let views = views_of(nodes@);
    assert forall|j: int| k < j < views.len() && (#[trigger] views[j]).id == views[k].id
        implies !views[j].unsigned_peer_api_only by {
        assert(views[j] == nodes@[j]@);
    }
    among_carries_the_last_routes(Map::empty(), views, k);
}

/// After a full list nobody is kept track of whom it does not name as unlocked.
pub proof fn a_full_list_drops_everybody_else(
    peers: Map<NodeId, Seq<IpPrefix>>,
    nodes: Vec<Node>,
    id: NodeId,
)
    requires
        forall|j: int|
            0 <= j < nodes@.len() && (#[trigger] nodes@[j]).id == id
                ==> !nodes@[j].unsigned_peer_api_only,
    ensures
        !retracked(peers, Some(PeerUpdate::Full(nodes))).contains_key(id),
{
    let views = views_of(nodes@);
    among_holds_unlocked_only(Map::empty(), views, id);
    assert forall|j: int| 0 <= j < views.len() && (#[trigger] views[j]).id == id
        implies !views[j].unsigned_peer_api_only by {
        assert(views[j] == nodes@[j]@);
    }
}

/// A peer that a delta names and does not remove is as its last entry says: where that is unlocked,
/// it is kept track of under that entry's routes; where it is locked, it is kept track of no more.
pub proof fn the_last_entry_decides_who_is_unlocked(
    peers: Map<NodeId, Seq<IpPrefix>>,
    upsert: Vec<Node>,
    remove: Vec<NodeId>,
    k: int,
)
    requires
        0 <= k < upsert@.len(),
        forall|j: int| k < j < upsert@.len() ==> (#[trigger] upsert@[j]).id != upsert@[k].id,
        !remove@.contains(upsert@[k].id),
    ensures
        retracked(peers, Some(PeerUpdate::Delta { upsert, remove })).contains_key(upsert@[k].id)
            == upsert@[k].unsigned_peer_api_only,
        upsert@[k].unsigned_peer_api_only ==> retracked(
            peers,
            Some(PeerUpdate::Delta { upsert, remove }),
        )[upsert@[k].id] == upsert@[k].accepted_routes@,
{
    let views = views_of(upsert@);
    assert forall|j: int| k < j < views.len() implies (#[trigger] views[j]).id != views[k].id by {
        assert(views[j] == upsert@[j]@);
    }
    after_follows_the_last_entry(peers, views, k);
    let added = unlocked_after(peers, views);
    without_holds_none_of_them(added, remove@, upsert@[k].id);
    without_keeps_the_routes(added, remove@, upsert@[k].id);
}

/// A peer that a delta neither names nor removes is kept track of as before.
pub proof fn a_delta_leaves_the_unmentioned(
    peers: Map<NodeId, Seq<IpPrefix>>,
    upsert: Vec<Node>,
    remove: Vec<NodeId>,
    id: NodeId,
)
    requires
        forall|j: int| 0 <= j < upsert@.len() ==> (#[trigger] upsert@[j]).id != id,
        !remove@.contains(id),
    ensures
        retracked(peers, Some(PeerUpdate::Delta { upsert, remove })).contains_key(id)
            == peers.contains_key(id),
        peers.contains_key(id) ==> retracked(peers, Some(PeerUpdate::Delta { upsert, remove }))[id]
            == peers[id],
{
    let views = views_of(upsert@);
    assert forall|j: int| 0 <= j < views.len() implies (#[trigger] views[j]).id != id by {
        assert(views[j] == upsert@[j]@);
    }
    after_keeps_the_unmentioned(peers, views, id);
    let added = unlocked_after(peers, views);
    without_holds_none_of_them(added, remove@, id);
    without_keeps_the_routes(added, remove@, id);
}

/// Without an update of the peers the same ones are kept track of.
pub proof fn no_update_leaves_the_unlocked_peers(peers: Map<NodeId, Seq<IpPrefix>>)
    ensures
        retracked(peers, None) == peers,
{
}

/// What control says of this node and of the peers changes neither the verdict on the filter nor
/// what the node was set up with. While incoming connections are blocked, the shield is over the
/// addresses that control last named for this node: its own two, that of MagicDNS and those of its
/// services; without IPv6 only the IPv4 ones among them.
pub proof fn news_of_this_node_moves_the_shield_only(
    u: UpdaterView,
    node: NodeView,
    update: Option<PeerUpdate>,
    ip: IpAddr,
)
    ensures
        u.told(Some(node), update).permitted == u.permitted,
        u.told(Some(node), update).block_incoming == u.block_incoming,
        u.told(Some(node), update).enable_ipv6 == u.enable_ipv6,
        u.told(None, update) == (UpdaterView { unlocked: u.told(None, update).unlocked, ..u }),
        u.told(Some(node), update).published().shield is Some == u.block_incoming,
        u.block_incoming ==> (u.told(Some(node), update).published().shield->0.contains(ip) <==> (
        ip is V4 || u.enable_ipv6) && (ip == IpAddr::V4(node.ipv4) || ip == IpAddr::V6(node.ipv6)
            || ip == IpAddr::V4(Ipv4Addr { a: 100, b: 100, c: 100, d: 100 })
            || node.service_addresses.contains(ip))),
{
    the_overlay_addresses(node, u.enable_ipv6, ip);
}

/// The prefixes to judge the filter by are those of the unlocked peers: each prefix of each of
/// them, and no other.
pub proof fn every_unlocked_prefix_is_judged(
    peers: Map<NodeId, Seq<IpPrefix>>,
    ids: Seq<NodeId>,
    prefix: IpPrefix,
)
    requires
        numbers_of(peers, ids),
    ensures
        joined(peers, ids).contains(prefix) <==> exists|id: NodeId| #[trigger]
            peers.contains_key(id) && peers[id].contains(prefix),
{
    joined_holds_them_all(peers, ids, prefix);
    if joined(peers, ids).contains(prefix) {
        let i = choose|i: int|
            0 <= i < ids.len() && peers[#[trigger] ids[i]].contains(prefix);
        assert(ids.contains(ids[i]));
        assert(peers.contains_key(ids[i]));
    }
    if exists|id: NodeId| #[trigger] peers.contains_key(id) && peers[id].contains(prefix) {
        let id = choose|id: NodeId| #[trigger]
            peers.contains_key(id) && peers[id].contains(prefix);
        assert(ids.contains(id));
        let i = choose|i: int| 0 <= i < ids.len() && ids[i] == id;
        assert(peers[ids[i]].contains(prefix));
    }
}

proof fn joined_holds_them_all(
    peers: Map<NodeId, Seq<IpPrefix>>,
    ids: Seq<NodeId>,
    prefix: IpPrefix,
)
    ensures
        joined(peers, ids).contains(prefix) <==> exists|i: int|
            0 <= i < ids.len() && peers[#[trigger] ids[i]].contains(prefix),
    decreases ids.len(),
{
    if ids.len() > 0 {
        let short = ids.drop_last();
        let before = joined(peers, short);
        let last = peers[ids.last()];
        let all = before + last;
        joined_holds_them_all(peers, short, prefix);
        if all.contains(prefix) {
            let k = choose|k: int| 0 <= k < all.len() && all[k] == prefix;
            if k < before.len() {
                assert(before[k] == prefix);
                let i = choose|i: int|
                    0 <= i < short.len() && peers[#[trigger] short[i]].contains(prefix);
                assert(peers[ids[i]].contains(prefix));
            } else {
                assert(last[k - before.len()] == prefix);
                assert(peers[ids[ids.len() - 1]].contains(prefix));
            }
        }
        if exists|i: int| 0 <= i < ids.len() && peers[#[trigger] ids[i]].contains(prefix) {
            let i = choose|i: int|
                0 <= i < ids.len() && peers[#[trigger] ids[i]].contains(prefix);
            if i < short.len() {
                assert(peers[short[i]].contains(prefix));
                let k = choose|k: int| 0 <= k < before.len() && before[k] == prefix;
                assert(all[k] == prefix);
            } else {
                let k = choose|k: int| 0 <= k < last.len() && last[k] == prefix;
                assert(all[before.len() + k] == prefix);
            }
        }
    } else {
        assert(!joined(peers, ids).contains(prefix));
    }
}

} // verus!
