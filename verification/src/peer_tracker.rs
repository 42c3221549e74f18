//! The peers that this node knows, and how control's updates change them.
//!
//! Every node that control sends passes the tailnet lock before it is stored, and has its disco
//! key resolved against what the peer said of itself. Requests that come before the first update
//! wait for it.

use std::collections::HashMap;

use vstd::prelude::*;

use crate::addr::{IpAddr, SocketAddr};
use crate::endpoint_disco::{
    disco_key_from_control, disco_key_is_zero, meant, DiscoTable, EndpointDisco,
};
use crate::id_set::IdSet;
use crate::node::{
    copy_texts, opt_text, DiscoKey, Node, NodeId, NodeKey, NodeView, PeerId, Timestamp, UserId,
};
use crate::peer_db::{
    entry_views, flagged, found_by_stable_id, listed_is_found, routed, upsert_is_wf, DbView,
    EntryView, KeyView, PeerDb, PeerEntry, PeerKey,
};
use crate::search::first_where_is_first;
use crate::tailnet_lock::{
    kept, lock_view, node_views, tka_keep_verdicts, tka_snapshot_admits, verdict, Authority,
    AuthorityView,
};
use crate::text::{str_eq, texts};

verus! {

/// A user of the tailnet.
#[derive(Debug)]
pub struct UserProfile {
    /// The user's number.
    pub id: UserId,
    /// The name the user logs in with; empty where control sent none.
    pub login_name: String,
    /// The name the user goes by.
    pub display_name: Option<String>,
}

/// The model of a [`UserProfile`].
#[verifier::ext_equal]
pub struct ProfileView {
    pub id: UserId,
    pub login_name: Seq<char>,
    pub display_name: Option<Seq<char>>,
}

impl View for UserProfile {
    type V = ProfileView;

    open spec fn view(&self) -> ProfileView {
        ProfileView {
            id: self.id,
            login_name: self.login_name@,
            display_name: opt_text(self.display_name),
        }
    }
}

impl ProfileView {
    /// What to call the user: the login name, else the display name.
    pub open spec fn label(self) -> Option<Seq<char>> {
        if self.login_name.len() > 0 {
            Some(self.login_name)
        } else {
            self.display_name
        }
    }
}

impl UserProfile {
    /// What to call the user: the login name, else the display name.
    pub fn best_label(&self) -> (r: Option<String>)
        ensures
            opt_text(r) == self@.label(),
    {
        if !self.login_name.as_str().is_empty() {
            Some(self.login_name.clone())
        } else {
            match &self.display_name {
                Some(name) => Some(name.clone()),
                None => None,
            }
        }
    }

    fn copy(&self) -> (r: UserProfile)
        ensures
            r@ == self@,
    {
        let display_name = match &self.display_name {
            Some(name) => Some(name.clone()),
            None => None,
        };
        UserProfile { id: self.id, login_name: self.login_name.clone(), display_name }
    }
}

/// Fields of one node that control changed. What is `None` stays as it is.
#[derive(Debug)]
pub struct PeerChange {
    /// Control's number for the node.
    pub id: NodeId,
    pub derp_region: Option<u32>,
    pub cap: Option<u32>,
    pub cap_map: Option<Vec<String>>,
    pub underlay_addresses: Option<Vec<SocketAddr>>,
    pub node_key: Option<NodeKey>,
    pub key_signature: Option<Vec<u8>>,
    pub disco_key: Option<DiscoKey>,
    pub node_key_expiry: Option<Timestamp>,
    pub online: Option<bool>,
    pub last_seen: Option<Timestamp>,
}

/// The model of a [`PeerChange`].
#[verifier::ext_equal]
pub struct ChangeView {
    pub id: NodeId,
    pub derp_region: Option<u32>,
    pub cap: Option<u32>,
    pub cap_map: Option<Seq<Seq<char>>>,
    pub underlay_addresses: Option<Seq<SocketAddr>>,
    pub node_key: Option<NodeKey>,
    pub key_signature: Option<Seq<u8>>,
    pub disco_key: Option<DiscoKey>,
    pub node_key_expiry: Option<Timestamp>,
    pub online: Option<bool>,
    pub last_seen: Option<Timestamp>,
}

impl View for PeerChange {
    type V = ChangeView;

    open spec fn view(&self) -> ChangeView {
        ChangeView {
            id: self.id,
            derp_region: self.derp_region,
            cap: self.cap,
            cap_map: match self.cap_map {
                Some(m) => Some(texts(m@)),
                None => None,
            },
            underlay_addresses: match self.underlay_addresses {
                Some(a) => Some(a@),
                None => None,
            },
            node_key: self.node_key,
            key_signature: match self.key_signature {
                Some(s) => Some(s@),
                None => None,
            },
            disco_key: self.disco_key,
            node_key_expiry: self.node_key_expiry,
            online: self.online,
            last_seen: self.last_seen,
        }
    }
}

/// A change of the set of peers.
#[derive(Debug)]
pub enum PeerUpdate {
    /// These nodes are the peers now.
    Full(Vec<Node>),
    /// These nodes are new or changed, and those are gone.
    Delta { upsert: Vec<Node>, remove: Vec<NodeId> },
}

/// What a response of control says of the peers.
#[derive(Debug)]
pub struct StateUpdate {
    pub peer_update: Option<PeerUpdate>,
    pub peer_patches: Vec<PeerChange>,
    pub user_profiles: Vec<UserProfile>,
    /// Nodes that went online or offline.
    pub online_change: Vec<(NodeId, bool)>,
    /// Nodes that were seen, or are not to count as seen any more.
    pub peer_seen_change: Vec<(NodeId, bool)>,
}

/// `new` where it is there, else `old`.
pub open spec fn patched_with<T>(old_value: T, new_value: Option<T>) -> T {
    match new_value {
        Some(v) => v,
        None => old_value,
    }
}

/// `new` where it is there, else `old`.
pub open spec fn patched_opt<T>(old_value: Option<T>, new_value: Option<T>) -> Option<T> {
    match new_value {
        Some(v) => Some(v),
        None => old_value,
    }
}

/// `node` with the fields that `change` carries. `control_key` is the disco key that control last
/// sent for it: the stored node may carry one that the peer advertised instead.
pub open spec fn merged(
    node: NodeView,
    change: ChangeView,
    control_key: Option<DiscoKey>,
) -> NodeView {
    NodeView {
        underlay_addresses: patched_with(node.underlay_addresses, change.underlay_addresses),
        derp_region: patched_opt(node.derp_region, change.derp_region),
        cap: patched_with(node.cap, change.cap),
        cap_map: patched_with(node.cap_map, change.cap_map),
        disco_key: patched_opt(control_key, change.disco_key),
        node_key_expiry: patched_opt(node.node_key_expiry, change.node_key_expiry),
        online: patched_opt(node.online, change.online),
        last_seen: patched_opt(node.last_seen, change.last_seen),
        node_key: patched_with(node.node_key, change.node_key),
        key_signature: patched_with(node.key_signature, change.key_signature),
        ..node
    }
}

fn merge(node: &Node, change: &PeerChange, control_key: Option<DiscoKey>) -> (r: Node)
    ensures
        r@ == merged(node@, change@, control_key),
{
    let mut n = node.copy();
    match &change.underlay_addresses {
        Some(a) => {
            n.underlay_addresses = a.clone();
            assert(n.underlay_addresses@ =~= a@);
        },
        None => {},
    }
    match change.derp_region {
        Some(r) => {
            n.derp_region = Some(r);
        },
        None => {},
    }
    match change.cap {
        Some(c) => {
            n.cap = c;
        },
        None => {},
    }
    match &change.cap_map {
        Some(m) => {
            n.cap_map = copy_texts(m);
        },
        None => {},
    }
    n.disco_key = control_key;
    match change.disco_key {
        Some(k) => {
            n.disco_key = Some(k);
        },
        None => {},
    }
    match change.node_key_expiry {
        Some(t) => {
            n.node_key_expiry = Some(t);
        },
        None => {},
    }
    match change.online {
        Some(o) => {
            n.online = Some(o);
        },
        None => {},
    }
    match change.last_seen {
        Some(t) => {
            n.last_seen = Some(t);
        },
        None => {},
    }
    match change.node_key {
        Some(k) => {
            n.node_key = k;
        },
        None => {},
    }
    match &change.key_signature {
        Some(s) => {
            n.key_signature = s.clone();
        },
        None => {},
    }
    n
}

/// The stored peers and their disco keys.
#[verifier::ext_equal]
pub struct PeersView {
    pub db: DbView,
    pub disco: Map<NodeKey, EndpointDisco>,
}

impl PeersView {
    /// The disco keys of the node key `key`.
    pub open spec fn disco_of(self, key: NodeKey) -> EndpointDisco {
        if self.disco.dom().contains(key) {
            self.disco[key]
        } else {
            EndpointDisco::empty()
        }
    }

    /// `node` as it is stored with the disco keys `disco`: reached under the active one.
    pub open spec fn carrying(node: NodeView, disco: EndpointDisco) -> NodeView {
        NodeView { disco_key: disco.active(), ..node }
    }

    /// After `node` was stored with the disco keys `disco`.
    pub open spec fn store(self, node: NodeView, disco: EndpointDisco) -> PeersView {
        let n = Self::carrying(node, disco);
        PeersView {
            db: self.db.upsert(n).set_inactive(self.db.upsert_id(n), disco.other()),
            disco: self.disco,
        }
    }

    /// The disco keys of `node` after control sent it. What control says again changes nothing.
    pub open spec fn resolved(self, node: NodeView) -> EndpointDisco {
        let d = self.disco_of(node.node_key);
        if d.control == meant(node.disco_key) {
            d
        } else {
            d.after_control(meant(node.disco_key))
        }
    }

    /// After control sent `node`.
    pub open spec fn from_control(self, node: NodeView) -> PeersView {
        let d = self.resolved(node);
        PeersView {
            db: self.db,
            disco: if d.has_key() {
                self.disco.insert(node.node_key, d)
            } else {
                self.disco.remove(node.node_key)
            },
        }.store(node, d)
    }

    /// The number that `node` is stored under when control sends it.
    pub open spec fn from_control_id(self, node: NodeView) -> PeerId {
        self.db.upsert_id(node)
    }

    /// Without the disco keys of node keys that no stored peer has.
    pub open spec fn pruned(self) -> PeersView {
        PeersView {
            db: self.db,
            disco: self.disco.restrict(
                Set::new(|k: NodeKey| self.db.has(KeyView::NodeKey(k))),
            ),
        }
    }

    /// After the peer `id` advertised `key`; `None` where that is refused or nothing new.
    pub open spec fn advertised(self, id: PeerId, key: DiscoKey) -> Option<PeersView> {
        match self.db.find(KeyView::Id(id)) {
            Some(entry) => {
                let nk = entry.node.node_key;
                let d = self.disco_of(nk).after_tsmp(Some(key));
                if key.zero() || self.disco_of(nk).tsmp == Some(key) {
                    None
                } else {
                    Some(
                        PeersView { db: self.db, disco: self.disco.insert(nk, d) }.store(
                            entry.node,
                            d,
                        ),
                    )
                }
            },
            None => None,
        }
    }

    /// After a frame of the peer `id` was opened under `key`; `None` where that is refused or
    /// moves nothing.
    pub open spec fn observed(self, id: PeerId, key: DiscoKey) -> Option<PeersView> {
        match self.db.find(KeyView::Id(id)) {
            Some(entry) => {
                let nk = entry.node.node_key;
                let d = self.disco_of(nk);
                if d.holds(key) && d.active() != Some(key) {
                    Some(
                        PeersView {
                            db: self.db,
                            disco: self.disco.insert(nk, d.switched(key)),
                        }.store(entry.node, d.switched(key)),
                    )
                } else {
                    None
                }
            },
            None => None,
        }
    }
}

/// The peers, and which of them an update has touched.
#[verifier::ext_equal]
pub struct Touched {
    pub peers: PeersView,
    pub upserts: Set<PeerId>,
    pub deletions: Set<PeerId>,
}

impl Touched {
    /// Nothing touched yet.
    pub open spec fn start(peers: PeersView) -> Touched {
        Touched { peers, upserts: Set::empty(), deletions: Set::empty() }
    }

    /// After control sent `node`.
    pub open spec fn upsert(self, node: NodeView) -> Touched {
        Touched {
            peers: self.peers.from_control(node),
            upserts: self.upserts.insert(self.peers.from_control_id(node)),
            deletions: self.deletions,
        }
    }

    /// After the first peer that `key` selects was dropped.
    pub open spec fn evict(self, key: KeyView) -> Touched {
        match self.peers.db.find(key) {
            Some(entry) => Touched {
                peers: PeersView { db: self.peers.db.remove(key), disco: self.peers.disco },
                upserts: self.upserts,
                deletions: self.deletions.insert(entry.id),
            },
            None => self,
        }
    }

    /// Without disco keys of peers that are gone.
    pub open spec fn pruned(self) -> Touched {
        Touched { peers: self.peers.pruned(), ..self }
    }

    /// After control sent those of `nodes` whose flag is set.
    pub open spec fn upsert_kept(self, nodes: Seq<NodeView>, keep: Seq<bool>) -> Touched
        decreases nodes.len(),
    {
        if nodes.len() == 0 {
            self
        } else {
            let before = self.upsert_kept(nodes.drop_last(), keep);
            if keep[nodes.len() - 1] {
                before.upsert(nodes.last())
            } else {
                before
            }
        }
    }

    /// After control sent `nodes`, each judged by its own signature. One that is refused loses its
    /// stored entry as well.
    pub open spec fn upsert_judged(
        self,
        lock: Option<AuthorityView>,
        nodes: Seq<NodeView>,
    ) -> Touched
        decreases nodes.len(),
    {
        if nodes.len() == 0 {
            self
        } else {
            let before = self.upsert_judged(lock, nodes.drop_last());
            let node = nodes.last();
            if verdict(lock, node).admitted {
                before.upsert(node)
            } else {
                before.evict(KeyView::StableId(node.stable_id))
            }
        }
    }

    /// After control said that the nodes `ids` are gone.
    pub open spec fn evict_ids(self, ids: Seq<NodeId>) -> Touched
        decreases ids.len(),
    {
        if ids.len() == 0 {
            self
        } else {
            self.evict_ids(ids.drop_last()).evict(KeyView::NodeId(ids.last()))
        }
    }

    /// After one patch. A patch never makes a peer, and a patched node has to pass the lock again.
    pub open spec fn patch(self, lock: Option<AuthorityView>, change: ChangeView) -> Touched {
        match self.peers.db.find(KeyView::NodeId(change.id)) {
            Some(entry) => {
                let node = merged(
                    entry.node,
                    change,
                    self.peers.disco_of(entry.node.node_key).control,
                );
                if verdict(lock, node).admitted {
                    self.upsert(node)
                } else {
                    self.evict(KeyView::NodeId(change.id))
                }
            },
            None => self,
        }
    }

    /// After the patches in turn.
    pub open spec fn patch_all(
        self,
        lock: Option<AuthorityView>,
        changes: Seq<ChangeView>,
    ) -> Touched
        decreases changes.len(),
    {
        if changes.len() == 0 {
            self
        } else {
            self.patch_all(lock, changes.drop_last()).patch(lock, changes.last())
        }
    }
}

/// Whether a kept node has the stable id `stable_id`.
pub open spec fn retained(
    nodes: Seq<NodeView>,
    keep: Seq<bool>,
    stable_id: Seq<char>,
) -> bool {
    exists|i: int|
        0 <= i < nodes.len() && keep[i] && (#[trigger] nodes[i]).stable_id == stable_id
}

/// Which stored peers a full update keeps.
pub open spec fn retain_flags(
    entries: Seq<EntryView>,
    nodes: Seq<NodeView>,
    keep: Seq<bool>,
) -> Seq<bool> {
    entries.map_values(|e: EntryView| retained(nodes, keep, e.node.stable_id))
}

/// The numbers of the entries whose flag is not set.
pub open spec fn dropped_ids(entries: Seq<EntryView>, flags: Seq<bool>) -> Set<PeerId> {
    flagged(entries, flags, false).map_values(|e: EntryView| e.id).to_set()
}

/// The models of a list of owned nodes.
pub open spec fn views_of(nodes: Seq<Node>) -> Seq<NodeView> {
    nodes.map_values(|n: Node| n@)
}

/// After a full update: whoever is not among the kept nodes is dropped, and the kept ones are
/// stored.
pub open spec fn after_full(
    peers: PeersView,
    lock: Option<AuthorityView>,
    nodes: Seq<NodeView>,
) -> Touched {
    let keep = kept(lock, nodes);
    let flags = retain_flags(peers.db.entries, nodes, keep);
    Touched {
        peers: PeersView { db: peers.db.keep(flags), disco: peers.disco },
        upserts: Set::empty(),
        deletions: dropped_ids(peers.db.entries, flags),
    }.upsert_kept(nodes, keep).pruned()
}

/// After a delta: the sent nodes first, then the removals.
pub open spec fn after_delta(
    peers: PeersView,
    lock: Option<AuthorityView>,
    upsert: Seq<NodeView>,
    remove: Seq<NodeId>,
) -> Touched {
    Touched::start(peers).upsert_judged(lock, upsert).evict_ids(remove).pruned()
}

/// After an update of the set of peers.
pub open spec fn after_update(
    peers: PeersView,
    lock: Option<AuthorityView>,
    update: PeerUpdate,
) -> Touched {
    match update {
        PeerUpdate::Full(nodes) => after_full(peers, lock, views_of(nodes@)),
        PeerUpdate::Delta { upsert, remove } => after_delta(
            peers,
            lock,
            views_of(upsert@),
            remove@,
        ),
    }
}

/// How many numbers an update can use up.
pub open spec fn newcomers(update: PeerUpdate) -> nat {
    match update {
        PeerUpdate::Full(nodes) => nodes@.len(),
        PeerUpdate::Delta { upsert, .. } => upsert@.len(),
    }
}

/// After patches.
pub open spec fn after_patches(
    peers: PeersView,
    lock: Option<AuthorityView>,
    changes: Seq<ChangeView>,
) -> Touched {
    Touched::start(peers).patch_all(lock, changes).pruned()
}

/// The stored nodes.
pub open spec fn stored_nodes(entries: Seq<EntryView>) -> Seq<NodeView> {
    entries.map_values(|e: EntryView| e.node)
}

/// After the stored peers were judged again: the peers, and who was dropped.
pub open spec fn reevaluated(
    peers: PeersView,
    lock: Option<AuthorityView>,
) -> (PeersView, Set<PeerId>) {
    let flags = kept(lock, stored_nodes(peers.db.entries));
    let gone = dropped_ids(peers.db.entries, flags);
    if lock is None || gone == Set::<PeerId>::empty() {
        (peers, Set::empty())
    } else {
        (PeersView { db: peers.db.keep(flags), disco: peers.disco }.pruned(), gone)
    }
}

/// After control said that a node went online or offline: the peers, and whether that was new.
pub open spec fn online_step(db: DbView, id: NodeId, online: bool) -> (DbView, bool) {
    match db.find(KeyView::NodeId(id)) {
        Some(entry) if entry.node.online != Some(online) => (
            db.upsert(NodeView { online: Some(online), ..entry.node }),
            true,
        ),
        _ => (db, false),
    }
}

/// After control said that a node was seen, or that it does not count as seen any more.
pub open spec fn seen_step(db: DbView, id: NodeId, seen: bool, now: Timestamp) -> (DbView, bool) {
    let last_seen = if seen {
        Some(now)
    } else {
        None
    };
    match db.find(KeyView::NodeId(id)) {
        Some(entry) if entry.node.last_seen != last_seen => (
            db.upsert(NodeView { last_seen, ..entry.node }),
            true,
        ),
        _ => (db, false),
    }
}

/// After a list of online changes.
pub open spec fn online_steps(db: DbView, changes: Seq<(NodeId, bool)>) -> (DbView, bool)
    decreases changes.len(),
{
    if changes.len() == 0 {
        (db, false)
    } else {
        let (before, changed) = online_steps(db, changes.drop_last());
        let (after, here) = online_step(before, changes.last().0, changes.last().1);
        (after, changed || here)
    }
}

/// After a list of sightings.
pub open spec fn seen_steps(
    db: DbView,
    changes: Seq<(NodeId, bool)>,
    now: Timestamp,
) -> (DbView, bool)
    decreases changes.len(),
{
    if changes.len() == 0 {
        (db, false)
    } else {
        let (before, changed) = seen_steps(db, changes.drop_last(), now);
        let (after, here) = seen_step(before, changes.last().0, changes.last().1, now);
        (after, changed || here)
    }
}

/// After both lists, and whether any node changed.
pub open spec fn after_liveness(
    db: DbView,
    online: Seq<(NodeId, bool)>,
    seen: Seq<(NodeId, bool)>,
    now: Timestamp,
) -> (DbView, bool) {
    let (a, x) = online_steps(db, online);
    let (b, y) = seen_steps(a, seen, now);
    (b, x || y)
}

/// The peers of this node.
pub struct PeerTracker {
    peer_db: PeerDb,
    endpoint_disco: DiscoTable,
    tka_authority: Option<Authority>,
    seen_state_update: bool,
    pending_requests: Vec<Pending>,
    user_profiles: HashMap<UserId, UserProfile>,
}

/// A question about the peers.
#[derive(Debug)]
pub enum Request {
    /// The peer with a name.
    PeerByName(String),
    /// The peers that accept packets to an address.
    AcceptedRoute(IpAddr),
    /// The peer with a tailnet address.
    TailnetIp(IpAddr),
    /// All peers with their numbers.
    Status,
    /// The node behind a source address, and its user.
    WhoIs(SocketAddr),
}

/// The model of a [`Request`].
pub enum RequestView {
    PeerByName(Seq<char>),
    AcceptedRoute(IpAddr),
    TailnetIp(IpAddr),
    Status,
    WhoIs(SocketAddr),
}

impl View for Request {
    type V = RequestView;

    open spec fn view(&self) -> RequestView {
        match *self {
            Request::PeerByName(name) => RequestView::PeerByName(name@),
            Request::AcceptedRoute(ip) => RequestView::AcceptedRoute(ip),
            Request::TailnetIp(ip) => RequestView::TailnetIp(ip),
            Request::Status => RequestView::Status,
            Request::WhoIs(addr) => RequestView::WhoIs(addr),
        }
    }
}

/// A request that waits for the first update, and the ticket of whoever asked.
struct Pending {
    ticket: u64,
    request: Request,
}

/// A node and the user that owns it.
#[derive(Debug)]
pub struct WhoIs {
    pub node: Node,
    pub user: Option<String>,
}

/// The answer to a [`Request`].
#[derive(Debug)]
pub enum Reply {
    Peer(Option<Node>),
    Peers(Vec<Node>),
    Status(Vec<(PeerId, Node)>),
    WhoIs(Option<WhoIs>),
}

/// The model of a [`Reply`].
pub enum ReplyView {
    Peer(Option<NodeView>),
    Peers(Seq<NodeView>),
    Status(Seq<(PeerId, NodeView)>),
    WhoIs(Option<(NodeView, Option<Seq<char>>)>),
}

impl View for Reply {
    type V = ReplyView;

    open spec fn view(&self) -> ReplyView {
        match *self {
            Reply::Peer(None) => ReplyView::Peer(None),
            Reply::Peer(Some(n)) => ReplyView::Peer(Some(n@)),
            Reply::Peers(v) => ReplyView::Peers(views_of(v@)),
            Reply::Status(v) => ReplyView::Status(status_views(v@)),
            Reply::WhoIs(None) => ReplyView::WhoIs(None),
            Reply::WhoIs(Some(w)) => ReplyView::WhoIs(Some((w.node@, opt_text(w.user)))),
        }
    }
}

/// The models of numbered nodes.
pub open spec fn status_views(v: Seq<(PeerId, Node)>) -> Seq<(PeerId, NodeView)> {
    v.map_values(|p: (PeerId, Node)| (p.0, p.1@))
}

/// What a tracker keeps besides the peers: whether an update has come, who waits for one, and the
/// users.
#[verifier::ext_equal]
pub struct DeskView {
    pub seen: bool,
    pub pending: Seq<(u64, RequestView)>,
    pub profiles: Map<UserId, ProfileView>,
}

spec fn pending_views(v: Seq<Pending>) -> Seq<(u64, RequestView)> {
    v.map_values(|p: Pending| (p.ticket, p.request@))
}

spec fn profile_views(m: Map<UserId, UserProfile>) -> Map<UserId, ProfileView> {
    m.map_values(|p: UserProfile| p@)
}

/// The answer to `request` from the peers `db` and the users `profiles`.
pub open spec fn answered(
    db: DbView,
    profiles: Map<UserId, ProfileView>,
    request: RequestView,
) -> ReplyView {
    match request {
        RequestView::PeerByName(name) => ReplyView::Peer(node_of(db.find(KeyView::Name(name)))),
        RequestView::AcceptedRoute(ip) => ReplyView::Peers(stored_nodes(routed(db.entries, ip))),
        RequestView::TailnetIp(ip) => ReplyView::Peer(node_of(db.find(KeyView::Ip(ip)))),
        RequestView::Status => ReplyView::Status(
            db.entries.map_values(|e: EntryView| (e.id, e.node)),
        ),
        RequestView::WhoIs(addr) => ReplyView::WhoIs(
            match db.find(KeyView::Ip(addr.ip)) {
                Some(entry) => Some((entry.node, user_label(profiles, entry.node.user_id))),
                None => None,
            },
        ),
    }
}

/// The node of an entry.
pub open spec fn node_of(entry: Option<EntryView>) -> Option<NodeView> {
    match entry {
        Some(e) => Some(e.node),
        None => None,
    }
}

/// What to call the user `id`, where control has said who that is.
pub open spec fn user_label(profiles: Map<UserId, ProfileView>, id: UserId) -> Option<Seq<char>> {
    if profiles.dom().contains(id) {
        profiles[id].label()
    } else {
        None
    }
}

impl PeerTracker {
    /// The stored peers and their disco keys.
    pub closed spec fn peers(&self) -> PeersView {
        PeersView { db: self.peer_db@, disco: self.endpoint_disco@ }
    }

    /// The lock that is enforced.
    pub closed spec fn lock(&self) -> Option<AuthorityView> {
        lock_view(self.tka_authority)
    }

    /// What is kept besides the peers.
    pub closed spec fn desk(&self) -> DeskView {
        DeskView {
            seen: self.seen_state_update,
            pending: pending_views(self.pending_requests@),
            profiles: profile_views(self.user_profiles@),
        }
    }

    /// The stored peers are well formed.
    pub closed spec fn wf(&self) -> bool {
        self.peer_db@.wf() && self.endpoint_disco.wf()
    }

    /// The peers of a valid tracker are valid: no two share a number or a stable id, and every
    /// number fits.
    pub proof fn valid_peers(&self)
        requires
            self.wf(),
        ensures
            self.peers().db.wf(),
            self.peers().db.next_id <= u64::MAX,
            self.peers().disco.dom().finite(),
    {
        self.peer_db.numbers_fit();
        self.endpoint_disco.rows_are_finite();
    }

    /// A tracker without peers, under the lock `authority`.
    pub fn new(authority: Option<Authority>) -> (r: Self)
        ensures
            r.wf(),
            r.peers().db.entries == Seq::<EntryView>::empty(),
            r.peers().db.next_id == 0,
            r.peers().disco == Map::<NodeKey, EndpointDisco>::empty(),
            r.lock() == lock_view(authority),
            r.desk() == (DeskView {
                seen: false,
                pending: Seq::empty(),
                profiles: Map::empty(),
            }),
    {
        let r = PeerTracker {
            peer_db: PeerDb::new(),
            endpoint_disco: DiscoTable::new(),
            tka_authority: authority,
            seen_state_update: false,
            pending_requests: Vec::new(),
            user_profiles: HashMap::new(),
        };
        assert(r.desk().pending =~= Seq::empty());
        assert(r.desk().profiles =~= Map::empty());
        r
    }

    /// Whether the lock admits `node`, judged by its own signature.
    pub fn tka_admits(&self, node: &Node) -> (r: bool)
        ensures
            r == verdict(self.lock(), node@).admitted,
    {
        match &self.tka_authority {
            Some(a) => tka_snapshot_admits(Some(a), node).admitted,
            None => tka_snapshot_admits(None, node).admitted,
        }
    }

    fn store_disco(&mut self, node: &Node, disco: EndpointDisco) -> (r: PeerId)
        requires
            old(self).wf(),
            old(self).peers().db.room_for(node@),
        ensures
            final(self).wf(),
            final(self).peers() == old(self).peers().store(node@, disco),
            r == old(self).peers().db.upsert_id(node@),
            final(self).lock() == old(self).lock(),
            final(self).desk() == old(self).desk(),
    {
        let ghost before = self.peers();
        let mut n = node.copy();
        n.disco_key = disco.key();
        assert(n@ == PeersView::carrying(node@, disco));
        assert(before.db.room_for(n@));
        let id = self.peer_db.upsert(&n);
        self.peer_db.set_inactive_disco_key(id, disco.inactive_key());
        id
    }

    fn disco_at(&self, key: NodeKey) -> (r: EndpointDisco)
        ensures
            r == self.peers().disco_of(key),
    {
        match self.endpoint_disco.get(key) {
            Some(d) => d,
            None => EndpointDisco::new(),
        }
    }

    /// Learns the disco key that the peer `peer` advertised, and says whether it was new.
    ///
    /// The zero key is never learned, an unknown peer stays unknown, and a key that the peer has
    /// advertised before changes nothing. Restating the key that control sent is news: it is the
    /// peer itself that says so.
    pub fn learn_disco_key(&mut self, peer: PeerId, key: DiscoKey) -> (r: bool)
        requires
            old(self).wf(),
        ensures
            final(self).wf(),
            final(self).lock() == old(self).lock(),
            final(self).desk() == old(self).desk(),
            match old(self).peers().advertised(peer, key) {
                Some(after) => r && final(self).peers() == after,
                None => !r && final(self).peers() == old(self).peers(),
            },
    {
        if disco_key_is_zero(&key) {
            return false;
        }
        let ghost before = self.peers();
        let node = match self.peer_db.get(PeerKey::Id(peer)) {
            Some(entry) => entry.node.copy(),
            None => {
                return false;
            },
        };
        proof {
            found_by_stable_id(before.db, KeyView::Id(peer));
        }
        let mut disco = self.disco_at(node.node_key);
        if disco.key_from_tsmp() == Some(key) {
            return false;
        }
        disco.update_from_tsmp(Some(key));
        self.endpoint_disco.set(node.node_key, disco);
        self.store_disco(&node, disco);
        true
    }

    /// Takes note that a frame of the peer `peer` was opened under `key`, and says whether that
    /// moved the peer's active key.
    ///
    /// A peer that is not known, a peer without disco keys, and a key in neither slot change
    /// nothing.
    pub fn observe_disco_key(&mut self, peer: PeerId, key: DiscoKey) -> (r: bool)
        requires
            old(self).wf(),
        ensures
            final(self).wf(),
            final(self).lock() == old(self).lock(),
            final(self).desk() == old(self).desk(),
            match old(self).peers().observed(peer, key) {
                Some(after) => r && final(self).peers() == after,
                None => !r && final(self).peers() == old(self).peers(),
            },
    {
        let ghost before = self.peers();
        let node = match self.peer_db.get(PeerKey::Id(peer)) {
            Some(entry) => entry.node.copy(),
            None => {
                return false;
            },
        };
        proof {
            found_by_stable_id(before.db, KeyView::Id(peer));
        }
        let mut disco = match self.endpoint_disco.get(node.node_key) {
            Some(d) => d,
            None => {
                return false;
            },
        };
        match disco.check_and_update(key) {
            Some(true) => {
                self.endpoint_disco.set(node.node_key, disco);
                self.store_disco(&node, disco);
                true
            },
            _ => false,
        }
    }

    fn upsert_from_control(&mut self, node: &Node) -> (r: PeerId)
        requires
            old(self).wf(),
            old(self).peers().db.room_for(node@),
        ensures
            final(self).wf(),
            final(self).peers() == old(self).peers().from_control(node@),
            r == old(self).peers().from_control_id(node@),
            final(self).lock() == old(self).lock(),
            final(self).desk() == old(self).desk(),
    {
        let from_control = disco_key_from_control(node.disco_key);
        let mut disco = self.disco_at(node.node_key);
        if disco.key_from_control() != from_control {
            disco.update_from_control(from_control);
        }
        if disco.is_empty() {
            self.endpoint_disco.remove(node.node_key);
        } else {
            self.endpoint_disco.set(node.node_key, disco);
        }
        self.store_disco(node, disco)
    }

    /// The disco key that control last sent for the node key `node_key`.
    pub fn control_disco_key(&self, node_key: NodeKey) -> (r: Option<DiscoKey>)
        ensures
            r == self.peers().disco_of(node_key).control,
    {
        self.disco_at(node_key).key_from_control()
    }

    fn prune_endpoint_disco(&mut self)
        requires
            old(self).wf(),
        ensures
            final(self).wf(),
            final(self).peers() == old(self).peers().pruned(),
            final(self).lock() == old(self).lock(),
            final(self).desk() == old(self).desk(),
    {
        let ghost before = self.peers();
        let mut present: Vec<NodeKey> = Vec::new();
        let entries = self.peer_db.peers();
        let ghost all = before.db.entries;
        let mut i: usize = 0;
        while i < entries.len()
            invariant
                i <= entries@.len(),
                entry_views(entries@) == all,
                all.len() == entries@.len(),
                present@.len() == i,
                forall|j: int| 0 <= j < i ==> present@[j] == all[j].node.node_key,
            decreases entries@.len() - i,
        {
            assert(all[i as int] == entries@[i as int]@);
            present.push(entries[i].node.node_key);
            i = i + 1;
        }
        self.endpoint_disco.retain_keys(&present);
        proof {
            let want = Set::new(|k: NodeKey| before.db.has(KeyView::NodeKey(k)));
            assert forall|k: NodeKey| present@.to_set().contains(k) == want.contains(k) by {
                let key = KeyView::NodeKey(k);
                let p = |i: int| key.selects(before.db.entries[i]);
                first_where_is_first(p, all.len() as int);
                if present@.contains(k) {
                    let j = choose|j: int| 0 <= j < present@.len() && present@[j] == k;
                    listed_is_found(before.db, key, j);
                }
                if before.db.has(key) {
                    let j = before.db.index_of(key)->0;
                    assert(p(j));
                    assert(present@[j] == k);
                }
            }
            assert(present@.to_set() =~= want);
        }
    }

    /// Applies a change of the set of peers, and returns the peers that it stored and those that
    /// it dropped.
    ///
    /// Under a lock a full update stores the nodes that are kept of the whole batch, and a delta
    /// those that are admitted by their own signature; whoever is refused does not keep an entry
    /// from before.
    pub fn apply_peer_update(&mut self, update: &PeerUpdate) -> (r: (IdSet, IdSet))
        requires
            old(self).wf(),
            old(self).peers().db.next_id + newcomers(*update) <= u64::MAX,
        ensures
            final(self).wf(),
            final(self).lock() == old(self).lock(),
            final(self).desk() == old(self).desk(),
            (Touched { peers: final(self).peers(), upserts: r.0@, deletions: r.1@ })
                == after_update(old(self).peers(), old(self).lock(), *update),
    {
        let r = match update {
            PeerUpdate::Full(nodes) => self.apply_full(nodes),
            PeerUpdate::Delta { upsert, remove } => self.apply_delta(upsert, remove),
        };
        self.prune_endpoint_disco();
        r
    }

    fn apply_full(&mut self, nodes: &Vec<Node>) -> (r: (IdSet, IdSet))
        requires
            old(self).wf(),
            old(self).peers().db.next_id + nodes@.len() <= u64::MAX,
        ensures
            final(self).wf(),
            final(self).lock() == old(self).lock(),
            final(self).desk() == old(self).desk(),
            (Touched { peers: final(self).peers(), upserts: r.0@, deletions: r.1@ }).pruned()
                == after_full(old(self).peers(), old(self).lock(), views_of(nodes@)),
    {
        let ghost before = self.peers();
        let ghost lock = self.lock();
        let ghost views = views_of(nodes@);
        let refs = references(nodes);
        let keep = match &self.tka_authority {
            Some(a) => tka_keep_verdicts(Some(a), &refs),
            None => tka_keep_verdicts(None, &refs),
        };
        assert(keep@ == kept(lock, views));
        let flags = self.retain_marks(nodes, &keep);
        let dropped = self.peer_db.retain(&flags);
        let deletions = IdSet::from_ids(&dropped);
        let mut upserts = IdSet::new();
        let ghost start = Touched {
            peers: PeersView { db: before.db.keep(flags@), disco: before.disco },
            upserts: Set::empty(),
            deletions: deletions@,
        };
        assert(start.deletions =~= dropped_ids(before.db.entries, flags@));
        let n: usize = nodes.len();
        let mut i: usize = 0;
        assert(views.take(0) =~= Seq::<NodeView>::empty());
        while i < n
            invariant
                i <= n,
                n == nodes@.len(),
                views == views_of(nodes@),
                keep@ == kept(lock, views),
                self.wf(),
                self.lock() == lock,
                self.desk() == old(self).desk(),
                self.peers().db.next_id + (n - i) <= u64::MAX,
                (Touched { peers: self.peers(), upserts: upserts@, deletions: deletions@ })
                    == start.upsert_kept(views.take(i as int), keep@),
            decreases n - i,
        {
            assert(views.take(i + 1).drop_last() =~= views.take(i as int));
            assert(views[i as int] == nodes@[i as int]@);
            if keep[i] {
                let id = self.upsert_from_control(&nodes[i]);
                upserts.insert(id);
            }
            i = i + 1;
        }
        assert(views.take(n as int) =~= views);
        (upserts, deletions)
    }

    fn retain_marks(&self, nodes: &Vec<Node>, keep: &Vec<bool>) -> (r: Vec<bool>)
        requires
            keep@.len() == nodes@.len(),
        ensures
            r@ == retain_flags(self.peers().db.entries, views_of(nodes@), keep@),
    {
        let ghost all = self.peers().db.entries;
        let entries = self.peer_db.peers();
        let mut marks: Vec<bool> = Vec::new();
        let mut i: usize = 0;
        while i < entries.len()
            invariant
                i <= entries@.len(),
                keep@.len() == nodes@.len(),
                entry_views(entries@) == all,
                all.len() == entries@.len(),
                marks@ == retain_flags(all, views_of(nodes@), keep@).take(i as int),
            decreases entries@.len() - i,
        {
            assert(all[i as int] == entries@[i as int]@);
            marks.push(is_retained(nodes, keep, &entries[i].node.stable_id));
            i = i + 1;
            assert(marks@ =~= retain_flags(all, views_of(nodes@), keep@).take(i as int));
        }
        assert(marks@ =~= retain_flags(all, views_of(nodes@), keep@));
        marks
    }

    fn evict(&mut self, key: PeerKey, deletions: &mut IdSet)
        requires
            old(self).wf(),
        ensures
            final(self).wf(),
            final(self).lock() == old(self).lock(),
            final(self).desk() == old(self).desk(),
            final(self).peers().db.next_id == old(self).peers().db.next_id,
            forall|u: Set<PeerId>|
                (Touched {
                    peers: final(self).peers(),
                    upserts: u,
                    deletions: final(deletions)@,
                }) == #[trigger] (Touched {
                    peers: old(self).peers(),
                    upserts: u,
                    deletions: old(deletions)@,
                }).evict(key@),
    {
        match self.peer_db.remove(key) {
            Some(entry) => {
                deletions.insert(entry.id);
            },
            None => {},
        }
    }

    fn apply_delta(&mut self, upsert: &Vec<Node>, remove: &Vec<NodeId>) -> (r: (IdSet, IdSet))
        requires
            old(self).wf(),
            old(self).peers().db.next_id + upsert@.len() <= u64::MAX,
        ensures
            final(self).wf(),
            final(self).lock() == old(self).lock(),
            final(self).desk() == old(self).desk(),
            (Touched { peers: final(self).peers(), upserts: r.0@, deletions: r.1@ }).pruned()
                == after_delta(old(self).peers(), old(self).lock(), views_of(upsert@), remove@),
    {
        let ghost lock = self.lock();
        let ghost views = views_of(upsert@);
        let ghost start = Touched::start(self.peers());
        let mut upserts = IdSet::new();
        let mut deletions = IdSet::new();
        let n: usize = upsert.len();
        let mut i: usize = 0;
        assert(views.take(0) =~= Seq::<NodeView>::empty());
        while i < n
            invariant
                i <= n,
                n == upsert@.len(),
                views == views_of(upsert@),
                self.wf(),
                self.lock() == lock,
                self.desk() == old(self).desk(),
                self.peers().db.next_id + (n - i) <= u64::MAX,
                (Touched { peers: self.peers(), upserts: upserts@, deletions: deletions@ })
                    == start.upsert_judged(lock, views.take(i as int)),
            decreases n - i,
        {
            assert(views.take(i + 1).drop_last() =~= views.take(i as int));
            assert(views[i as int] == upsert@[i as int]@);
            if self.tka_admits(&upsert[i]) {
                let id = self.upsert_from_control(&upsert[i]);
                upserts.insert(id);
            } else {
                let ghost mid = Touched {
                    peers: self.peers(),
                    upserts: upserts@,
                    deletions: deletions@,
                };
                self.evict(PeerKey::StableId(&upsert[i].stable_id), &mut deletions);
                assert((Touched {
                    peers: self.peers(),
                    upserts: upserts@,
                    deletions: deletions@,
                }) == mid.evict(KeyView::StableId(views[i as int].stable_id)));
            }
            i = i + 1;
        }
        assert(views.take(n as int) =~= views);
        let ghost judged = start.upsert_judged(lock, views);
        let m: usize = remove.len();
        let mut k: usize = 0;
        assert(remove@.take(0) =~= Seq::<NodeId>::empty());
        while k < m
            invariant
                k <= m,
                m == remove@.len(),
                self.wf(),
                self.lock() == lock,
                self.desk() == old(self).desk(),
                (Touched { peers: self.peers(), upserts: upserts@, deletions: deletions@ })
                    == judged.evict_ids(remove@.take(k as int)),
            decreases m - k,
        {
            assert(remove@.take(k + 1).drop_last() =~= remove@.take(k as int));
            let ghost mid = Touched {
                peers: self.peers(),
                upserts: upserts@,
                deletions: deletions@,
            };
            self.evict(PeerKey::NodeId(remove[k]), &mut deletions);
            assert((Touched {
                peers: self.peers(),
                upserts: upserts@,
                deletions: deletions@,
            }) == mid.evict(KeyView::NodeId(remove@[k as int])));
            k = k + 1;
        }
        assert(remove@.take(m as int) =~= remove@);
        (upserts, deletions)
    }

    /// Judges the stored peers again under the lock that is enforced now, and drops those that it
    /// does not keep. Returns who was dropped.
    ///
    /// Peers that were stored before the lock was known have not been judged by it. Without a lock
    /// nobody is dropped.
    pub fn tka_reevaluate_peer_db(&mut self) -> (r: IdSet)
        requires
            old(self).wf(),
        ensures
            final(self).wf(),
            final(self).lock() == old(self).lock(),
            final(self).desk() == old(self).desk(),
            (final(self).peers(), r@) == reevaluated(old(self).peers(), old(self).lock()),
    {
        let ghost before = self.peers();
        let ghost all = before.db.entries;
        let flags = match &self.tka_authority {
            Some(a) => {
                let entries = self.peer_db.peers();
                let refs = entry_references(entries);
                assert(node_views(refs@) =~= stored_nodes(all));
                tka_keep_verdicts(Some(a), &refs)
            },
            None => {
                return IdSet::new();
            },
        };
        assert(flags@ == kept(self.lock(), stored_nodes(all)));
        let mut evicted = IdSet::new();
        let entries = self.peer_db.peers();
        let ghost ids = flagged(all, flags@, false).map_values(|e: EntryView| e.id);
        let mut any: bool = false;
        let mut i: usize = 0;
        while i < entries.len()
            invariant
                i <= entries@.len(),
                entry_views(entries@) == all,
                flags@.len() == entries@.len(),
                all.len() == entries@.len(),
                any == (flagged(all.take(i as int), flags@, false).len() > 0),
            decreases entries@.len() - i,
        {
            assert(all.take(i + 1).drop_last() =~= all.take(i as int));
            if !flags[i] {
                any = true;
            }
            i = i + 1;
        }
        assert(all.take(all.len() as int) =~= all);
        if !any {
            assert(dropped_ids(all, flags@) =~= Set::<PeerId>::empty());
            return evicted;
        }
        assert(dropped_ids(all, flags@) != Set::<PeerId>::empty()) by {
            assert(dropped_ids(all, flags@).contains(ids[0]));
        }
        let dropped = self.peer_db.retain(&flags);
        evicted = IdSet::from_ids(&dropped);
        self.prune_endpoint_disco();
        evicted
    }

    /// Applies patches to stored nodes, and returns the peers that were stored again and those
    /// that were dropped.
    ///
    /// A patch for a node that is not stored is ignored. A patched node has to pass the lock, or
    /// it is dropped.
    pub fn apply_peer_patches(&mut self, patches: &Vec<PeerChange>) -> (r: (IdSet, IdSet))
        requires
            old(self).wf(),
        ensures
            final(self).wf(),
            final(self).lock() == old(self).lock(),
            final(self).desk() == old(self).desk(),
            (Touched { peers: final(self).peers(), upserts: r.0@, deletions: r.1@ })
                == after_patches(old(self).peers(), old(self).lock(), change_views(patches@)),
    {
        let ghost lock = self.lock();
        let ghost views = change_views(patches@);
        let ghost start = Touched::start(self.peers());
        let mut upserts = IdSet::new();
        let mut deletions = IdSet::new();
        let n: usize = patches.len();
        let mut i: usize = 0;
        assert(views.take(0) =~= Seq::<ChangeView>::empty());
        while i < n
            invariant
                i <= n,
                n == patches@.len(),
                views == change_views(patches@),
                self.wf(),
                self.lock() == lock,
                self.desk() == old(self).desk(),
                (Touched { peers: self.peers(), upserts: upserts@, deletions: deletions@ })
                    == start.patch_all(lock, views.take(i as int)),
            decreases n - i,
        {
            assert(views.take(i + 1).drop_last() =~= views.take(i as int));
            assert(views[i as int] == patches@[i as int]@);
            let ghost mid = Touched {
                peers: self.peers(),
                upserts: upserts@,
                deletions: deletions@,
            };
            self.apply_patch(&patches[i], &mut upserts, &mut deletions);
            assert((Touched { peers: self.peers(), upserts: upserts@, deletions: deletions@ })
                == mid.patch(lock, views[i as int]));
            i = i + 1;
        }
        assert(views.take(n as int) =~= views);
        self.prune_endpoint_disco();
        (upserts, deletions)
    }

    fn apply_patch(&mut self, patch: &PeerChange, upserts: &mut IdSet, deletions: &mut IdSet)
        requires
            old(self).wf(),
        ensures
            final(self).wf(),
            final(self).lock() == old(self).lock(),
            final(self).desk() == old(self).desk(),
            (Touched {
                peers: final(self).peers(),
                upserts: final(upserts)@,
                deletions: final(deletions)@,
            }) == (Touched {
                peers: old(self).peers(),
                upserts: old(upserts)@,
                deletions: old(deletions)@,
            }).patch(old(self).lock(), patch@),
    {
        let existing = match self.peer_db.get(PeerKey::NodeId(patch.id)) {
            Some(entry) => entry.node.copy(),
            None => {
                return;
            },
        };
        proof {
            found_by_stable_id(self.peers().db, KeyView::NodeId(patch.id));
        }
        let control_key = self.control_disco_key(existing.node_key);
        let node = merge(&existing, patch, control_key);
        if !self.tka_admits(&node) {
            let ghost u = upserts@;
            let ghost mid = Touched {
                peers: self.peers(),
                upserts: u,
                deletions: deletions@,
            };
            self.evict(PeerKey::NodeId(patch.id), deletions);
            assert((Touched { peers: self.peers(), upserts: u, deletions: deletions@ })
                == mid.evict(KeyView::NodeId(patch.id)));
            return;
        }
        let id = self.upsert_from_control(&node);
        upserts.insert(id);
    }

    /// Applies what control says of who is online and who was seen, and says whether any stored
    /// node changed.
    ///
    /// The two are distinct: the first list is all that sets `online`, and the second all that
    /// sets `last_seen`, to `now` or to nothing. Neither makes a peer.
    pub fn apply_liveness_changes(
        &mut self,
        online_change: &Vec<(NodeId, bool)>,
        peer_seen_change: &Vec<(NodeId, bool)>,
        now: Timestamp,
    ) -> (r: bool)
        requires
            old(self).wf(),
        ensures
            final(self).wf(),
            final(self).lock() == old(self).lock(),
            final(self).desk() == old(self).desk(),
            final(self).peers().disco == old(self).peers().disco,
            (final(self).peers().db, r) == after_liveness(
                old(self).peers().db,
                online_change@,
                peer_seen_change@,
                now,
            ),
    {
        let ghost db = self.peers().db;
        let ghost disco = self.peers().disco;
        let mut changed: bool = false;
        let n: usize = online_change.len();
        let mut i: usize = 0;
        assert(online_change@.take(0) =~= Seq::<(NodeId, bool)>::empty());
        while i < n
            invariant
                i <= n,
                n == online_change@.len(),
                self.wf(),
                self.lock() == old(self).lock(),
                self.desk() == old(self).desk(),
                self.peers().disco == disco,
                (self.peers().db, changed) == online_steps(db, online_change@.take(i as int)),
            decreases n - i,
        {
            assert(online_change@.take(i + 1).drop_last() =~= online_change@.take(i as int));
            let (node_id, online) = online_change[i];
            let found = match self.peer_db.get(PeerKey::NodeId(node_id)) {
                Some(entry) => Some(entry.node.copy()),
                None => None,
            };
            match found {
                Some(mut node) => {
                    if node.online != Some(online) {
                        proof {
                            found_by_stable_id(self.peers().db, KeyView::NodeId(node_id));
                        }
                        node.online = Some(online);
                        self.peer_db.upsert(&node);
                        changed = true;
                    }
                },
                None => {},
            }
            i = i + 1;
        }
        assert(online_change@.take(n as int) =~= online_change@);
        let ghost mid = self.peers().db;
        let ghost first = changed;
        let m: usize = peer_seen_change.len();
        let mut k: usize = 0;
        assert(peer_seen_change@.take(0) =~= Seq::<(NodeId, bool)>::empty());
        while k < m
            invariant
                k <= m,
                m == peer_seen_change@.len(),
                self.wf(),
                self.lock() == old(self).lock(),
                self.desk() == old(self).desk(),
                self.peers().disco == disco,
                self.peers().db == seen_steps(mid, peer_seen_change@.take(k as int), now).0,
                changed == (first || seen_steps(mid, peer_seen_change@.take(k as int), now).1),
            decreases m - k,
        {
            assert(peer_seen_change@.take(k + 1).drop_last() =~= peer_seen_change@.take(k as int));
            let (node_id, seen) = peer_seen_change[k];
            let last_seen = if seen {
                Some(now)
            } else {
                None
            };
            let found = match self.peer_db.get(PeerKey::NodeId(node_id)) {
                Some(entry) => Some(entry.node.copy()),
                None => None,
            };
            match found {
                Some(mut node) => {
                    if node.last_seen != last_seen {
                        proof {
                            found_by_stable_id(self.peers().db, KeyView::NodeId(node_id));
                        }
                        node.last_seen = last_seen;
                        self.peer_db.upsert(&node);
                        changed = true;
                    }
                },
                None => {},
            }
            k = k + 1;
        }
        assert(peer_seen_change@.take(m as int) =~= peer_seen_change@);
        changed
    }
}

/// What the subscribers of the peers are told: who was stored, who was dropped, and everyone who
/// is there.
pub struct PeerState {
    pub upserts: IdSet,
    pub deletions: IdSet,
    pub peers: PeerDb,
}

/// Asks for the peers to be published again as they are, because a preference of this node has
/// changed.
#[derive(Debug, Clone, Copy)]
pub struct RepublishState;

/// The answers for those who waited, each with its ticket.
pub open spec fn reply_views(v: Seq<(u64, Reply)>) -> Seq<(u64, ReplyView)> {
    v.map_values(|p: (u64, Reply)| (p.0, p.1@))
}

/// The answers to `pending`, in order.
pub open spec fn answers_to(
    db: DbView,
    profiles: Map<UserId, ProfileView>,
    pending: Seq<(u64, RequestView)>,
) -> Seq<(u64, ReplyView)> {
    pending.map_values(|p: (u64, RequestView)| (p.0, answered(db, profiles, p.1)))
}

/// What is to be done after a response of control.
pub struct UpdateOutcome {
    /// What to publish, where anything changed.
    pub publish: Option<PeerState>,
    /// The answers to the requests that waited for the first update.
    pub replies: Vec<(u64, Reply)>,
}

/// The users after control sent `profiles`: what it sent last for a user holds.
pub open spec fn with_profiles(
    known: Map<UserId, ProfileView>,
    profiles: Seq<ProfileView>,
) -> Map<UserId, ProfileView>
    decreases profiles.len(),
{
    if profiles.len() == 0 {
        known
    } else {
        with_profiles(known, profiles.drop_last()).insert(profiles.last().id, profiles.last())
    }
}

/// The models of a list of users.
pub open spec fn user_views(v: Seq<UserProfile>) -> Seq<ProfileView> {
    v.map_values(|p: UserProfile| p@)
}

/// What the peers become of a response that carries an update or patches: the update first, then
/// the patches on top. A peer that the patches stored does not count as dropped by the update, nor
/// one that they dropped as stored by it.
pub open spec fn after_peer_changes(
    peers: PeersView,
    lock: Option<AuthorityView>,
    update: Option<PeerUpdate>,
    patches: Seq<ChangeView>,
) -> Touched {
    let first = match update {
        Some(u) => after_update(peers, lock, u),
        None => Touched::start(peers),
    };
    if patches.len() == 0 {
        first
    } else {
        let second = after_patches(first.peers, lock, patches);
        Touched {
            peers: second.peers,
            upserts: first.upserts.difference(second.deletions).union(second.upserts),
            deletions: first.deletions.difference(second.upserts).union(second.deletions),
        }
    }
}

/// Whether a response of control says anything of the set of peers.
pub open spec fn changes_peers(update: StateUpdate) -> bool {
    update.peer_update is Some || update.peer_patches@.len() > 0
}

/// The peers after a response of control, and whether to publish them.
pub open spec fn after_state_update(
    peers: PeersView,
    lock: Option<AuthorityView>,
    update: StateUpdate,
    now: Timestamp,
) -> (Touched, bool) {
    let (db, alive) = after_liveness(
        peers.db,
        update.online_change@,
        update.peer_seen_change@,
        now,
    );
    let live = PeersView { db, disco: peers.disco };
    if changes_peers(update) {
        (
            after_peer_changes(live, lock, update.peer_update, change_views(update.peer_patches@)),
            true,
        )
    } else {
        (Touched::start(live), alive)
    }
}

/// How many numbers a response can use up.
pub open spec fn newcomers_of(update: StateUpdate) -> nat {
    match update.peer_update {
        Some(u) => newcomers(u),
        None => 0,
    }
}

proof fn liveness_uses_no_number(
    db: DbView,
    online: Seq<(NodeId, bool)>,
    seen: Seq<(NodeId, bool)>,
    now: Timestamp,
)
    requires
        db.wf(),
    ensures
        after_liveness(db, online, seen, now).0.next_id == db.next_id,
        after_liveness(db, online, seen, now).0.wf(),
{
    online_uses_no_number(db, online);
    seen_uses_no_number(online_steps(db, online).0, seen, now);
}

proof fn online_uses_no_number(db: DbView, online: Seq<(NodeId, bool)>)
    requires
        db.wf(),
    ensures
        online_steps(db, online).0.next_id == db.next_id,
        online_steps(db, online).0.wf(),
    decreases online.len(),
{
    if online.len() > 0 {
        online_uses_no_number(db, online.drop_last());
        let before = online_steps(db, online.drop_last()).0;
        let key = KeyView::NodeId(online.last().0);
        if before.has(key) {
            found_by_stable_id(before, key);
            let node = NodeView {
                online: Some(online.last().1),
                ..before.find(key)->0.node
            };
            upsert_is_wf(before, node);
        }
    }
}

proof fn seen_uses_no_number(db: DbView, seen: Seq<(NodeId, bool)>, now: Timestamp)
    requires
        db.wf(),
    ensures
        seen_steps(db, seen, now).0.next_id == db.next_id,
        seen_steps(db, seen, now).0.wf(),
    decreases seen.len(),
{
    if seen.len() > 0 {
        seen_uses_no_number(db, seen.drop_last(), now);
        let before = seen_steps(db, seen.drop_last(), now).0;
        let key = KeyView::NodeId(seen.last().0);
        if before.has(key) {
            found_by_stable_id(before, key);
            let last_seen = if seen.last().1 {
                Some(now)
            } else {
                None
            };
            let node = NodeView { last_seen, ..before.find(key)->0.node };
            upsert_is_wf(before, node);
        }
    }
}

impl PeerTracker {
    /// Puts the lock `authority` in force, or lifts it.
    pub fn set_authority(&mut self, authority: Option<Authority>)
        requires
            old(self).wf(),
        ensures
            final(self).wf(),
            final(self).lock() == lock_view(authority),
            final(self).peers() == old(self).peers(),
            final(self).desk() == old(self).desk(),
    {
        self.tka_authority = authority;
    }

    /// The stored peers, for lookups.
    pub fn peer_db(&self) -> (r: &PeerDb)
        ensures
            r@ == self.peers().db,
    {
        &self.peer_db
    }

    /// How many node keys have disco keys on record.
    pub fn endpoint_disco_len(&self) -> (r: usize)
        requires
            self.wf(),
        ensures
            r == self.peers().disco.dom().len(),
            self.peers().disco.dom().finite(),
    {
        self.endpoint_disco.len()
    }

    /// The disco keys of the node key `key`, where there are any.
    pub fn endpoint_disco(&self, key: NodeKey) -> (r: Option<EndpointDisco>)
        ensures
            match r {
                Some(d) => self.peers().disco.dom().contains(key) && self.peers().disco[key] == d,
                None => !self.peers().disco.dom().contains(key),
            },
    {
        self.endpoint_disco.get(key)
    }

    /// What to call the user `user_id`.
    pub fn resolve_user(&self, user_id: UserId) -> (r: Option<String>)
        ensures
            opt_text(r) == user_label(self.desk().profiles, user_id),
    {
        broadcast use vstd::std_specs::hash::group_hash_axioms;

        match self.user_profiles.get(&user_id) {
            Some(profile) => profile.best_label(),
            None => None,
        }
    }

    fn answer(&self, request: &Request) -> (r: Reply)
        ensures
            r@ == answered(self.peers().db, self.desk().profiles, request@),
    {
        match request {
            Request::PeerByName(name) => {
                let found = match self.peer_db.get(PeerKey::Name(name)) {
                    Some(entry) => Some(entry.node.copy()),
                    None => None,
                };
                Reply::Peer(found)
            },
            Request::AcceptedRoute(ip) => {
                let nodes = self.peer_db.get_route(*ip);
                assert(views_of(nodes@) =~= stored_nodes(routed(self.peers().db.entries, *ip)));
                Reply::Peers(nodes)
            },
            Request::TailnetIp(ip) => {
                let found = match self.peer_db.get(PeerKey::Ip(*ip)) {
                    Some(entry) => Some(entry.node.copy()),
                    None => None,
                };
                Reply::Peer(found)
            },
            Request::Status => {
                let rows = self.status_peers_with_ids();
                Reply::Status(rows)
            },
            Request::WhoIs(addr) => {
                let found = match self.peer_db.get(PeerKey::Ip(addr.ip)) {
                    Some(entry) => {
                        let user = self.resolve_user(entry.node.user_id);
                        Some(WhoIs { node: entry.node.copy(), user })
                    },
                    None => None,
                };
                Reply::WhoIs(found)
            },
        }
    }

    /// All peers with their numbers.
    pub fn status_peers_with_ids(&self) -> (r: Vec<(PeerId, Node)>)
        ensures
            status_views(r@) == self.peers().db.entries.map_values(
                |e: EntryView| (e.id, e.node),
            ),
    {
        let ghost all = self.peers().db.entries;
        let ghost want = all.map_values(|e: EntryView| (e.id, e.node));
        let entries = self.peer_db.peers();
        let mut rows: Vec<(PeerId, Node)> = Vec::new();
        let mut i: usize = 0;
        while i < entries.len()
            invariant
                i <= entries@.len(),
                entry_views(entries@) == all,
                all.len() == entries@.len(),
                want == all.map_values(|e: EntryView| (e.id, e.node)),
                status_views(rows@) == want.take(i as int),
            decreases entries@.len() - i,
        {
            assert(all[i as int] == entries@[i as int]@);
            let ghost before = rows@;
            let row = (entries[i].id, entries[i].node.copy());
            rows.push(row);
            i = i + 1;
            assert(status_views(rows@) =~= status_views(before).push((row.0, row.1@)));
            assert(status_views(rows@) =~= want.take(i as int));
        }
        assert(want.take(want.len() as int) =~= want);
        rows
    }

    /// All peers.
    pub fn all_peers(&self) -> (r: Vec<Node>)
        ensures
            views_of(r@) == stored_nodes(self.peers().db.entries),
    {
        let ghost all = self.peers().db.entries;
        let entries = self.peer_db.peers();
        let mut nodes: Vec<Node> = Vec::new();
        let mut i: usize = 0;
        while i < entries.len()
            invariant
                i <= entries@.len(),
                entry_views(entries@) == all,
                all.len() == entries@.len(),
                views_of(nodes@) == stored_nodes(all).take(i as int),
            decreases entries@.len() - i,
        {
            assert(all[i as int] == entries@[i as int]@);
            let ghost before = nodes@;
            let node = entries[i].node.copy();
            nodes.push(node);
            i = i + 1;
            assert(views_of(nodes@) =~= views_of(before).push(node@));
            assert(views_of(nodes@) =~= stored_nodes(all).take(i as int));
        }
        assert(stored_nodes(all).take(all.len() as int) =~= stored_nodes(all));
        nodes
    }

    /// The peers as watchers of the netmap see them.
    pub fn watch_netmap(&self) -> (r: Vec<Node>)
        ensures
            views_of(r@) == stored_nodes(self.peers().db.entries),
    {
        self.all_peers()
    }

    fn ask(&mut self, ticket: u64, request: Request) -> (r: Option<Reply>)
        requires
            old(self).wf(),
        ensures
            final(self).wf(),
            final(self).lock() == old(self).lock(),
            final(self).peers() == old(self).peers(),
            asked(old(self).peers().db, old(self).desk(), final(self).desk(), ticket, request@, r),
    {
        if !self.seen_state_update {
            let ghost before = self.pending_requests@;
            let ghost asked_for = request@;
            self.pending_requests.push(Pending { ticket, request });
            assert(pending_views(self.pending_requests@) =~= pending_views(before).push(
                (ticket, asked_for),
            ));
            return None;
        }
        let reply = self.answer(&request);
        Some(reply)
    }

    /// Looks a peer up by name. `None` keeps the request until the first update has come; its
    /// answer then carries `ticket`.
    pub fn peer_by_name(&mut self, ticket: u64, name: String) -> (r: Option<Reply>)
        requires
            old(self).wf(),
        ensures
            final(self).wf(),
            final(self).lock() == old(self).lock(),
            final(self).peers() == old(self).peers(),
            asked(
                old(self).peers().db,
                old(self).desk(),
                final(self).desk(),
                ticket,
                RequestView::PeerByName(name@),
                r,
            ),
    {
        self.ask(ticket, Request::PeerByName(name))
    }

    /// Looks up the peers that accept packets to `ip` most specifically.
    pub fn peer_by_accepted_route(&mut self, ticket: u64, ip: IpAddr) -> (r: Option<Reply>)
        requires
            old(self).wf(),
        ensures
            final(self).wf(),
            final(self).lock() == old(self).lock(),
            final(self).peers() == old(self).peers(),
            asked(
                old(self).peers().db,
                old(self).desk(),
                final(self).desk(),
                ticket,
                RequestView::AcceptedRoute(ip),
                r,
            ),
    {
        self.ask(ticket, Request::AcceptedRoute(ip))
    }

    /// Looks up the peer with the tailnet address `ip`.
    pub fn peer_by_tailnet_ip(&mut self, ticket: u64, ip: IpAddr) -> (r: Option<Reply>)
        requires
            old(self).wf(),
        ensures
            final(self).wf(),
            final(self).lock() == old(self).lock(),
            final(self).peers() == old(self).peers(),
            asked(
                old(self).peers().db,
                old(self).desk(),
                final(self).desk(),
                ticket,
                RequestView::TailnetIp(ip),
                r,
            ),
    {
        self.ask(ticket, Request::TailnetIp(ip))
    }

    /// Lists the peers with their numbers.
    pub fn get_status(&mut self, ticket: u64) -> (r: Option<Reply>)
        requires
            old(self).wf(),
        ensures
            final(self).wf(),
            final(self).lock() == old(self).lock(),
            final(self).peers() == old(self).peers(),
            asked(
                old(self).peers().db,
                old(self).desk(),
                final(self).desk(),
                ticket,
                RequestView::Status,
                r,
            ),
    {
        self.ask(ticket, Request::Status)
    }

    /// Looks up the node behind the source address `addr`, whatever its port, and its user.
    pub fn whois(&mut self, ticket: u64, addr: SocketAddr) -> (r: Option<Reply>)
        requires
            old(self).wf(),
        ensures
            final(self).wf(),
            final(self).lock() == old(self).lock(),
            final(self).peers() == old(self).peers(),
            asked(
                old(self).peers().db,
                old(self).desk(),
                final(self).desk(),
                ticket,
                RequestView::WhoIs(addr),
                r,
            ),
    {
        self.ask(ticket, Request::WhoIs(addr))
    }

    /// Answers the requests that waited for the first update. From the second update on nobody
    /// waits.
    pub fn service_pending_requests(&mut self) -> (r: Vec<(u64, Reply)>)
        requires
            old(self).wf(),
        ensures
            final(self).wf(),
            final(self).lock() == old(self).lock(),
            final(self).peers() == old(self).peers(),
            serviced(old(self).peers().db, old(self).desk(), final(self).desk(), r@),
    {
        let mut replies: Vec<(u64, Reply)> = Vec::new();
        if self.seen_state_update {
            assert(reply_views(replies@) =~= Seq::empty());
            return replies;
        }
        let ghost desk = self.desk();
        let ghost db = self.peers().db;
        let ghost want = answers_to(db, desk.profiles, desk.pending);
        let mut i: usize = 0;
        while i < self.pending_requests.len()
            invariant
                i <= self.pending_requests@.len(),
                self.wf(),
                self.lock() == old(self).lock(),
                self.peers() == old(self).peers(),
                self.desk() == desk,
                desk == old(self).desk(),
                db == self.peers().db,
                want == answers_to(db, desk.profiles, desk.pending),
                reply_views(replies@) == want.take(i as int),
            decreases self.pending_requests@.len() - i,
        {
            assert(desk.pending[i as int] == (
                self.pending_requests@[i as int].ticket,
                self.pending_requests@[i as int].request@,
            ));
            let ghost before = replies@;
            let reply = self.answer(&self.pending_requests[i].request);
            let ticket: u64 = self.pending_requests[i].ticket;
            let ghost row = (ticket, reply@);
            replies.push((ticket, reply));
            i = i + 1;
            assert(reply_views(replies@) =~= reply_views(before).push(row));
            assert(reply_views(replies@) =~= want.take(i as int));
        }
        assert(want.take(want.len() as int) =~= want);
        self.seen_state_update = true;
        self.pending_requests = Vec::new();
        assert(self.desk().pending =~= Seq::empty());
        replies
    }

    fn publication(&self, upserts: IdSet, deletions: IdSet) -> (r: PeerState)
        ensures
            r.upserts@ == upserts@,
            r.deletions@ == deletions@,
            r.peers@ == self.peers().db,
    {
        PeerState { upserts, deletions, peers: self.peer_db.snapshot() }
    }

    fn keep_profiles(&mut self, profiles: &Vec<UserProfile>)
        requires
            old(self).wf(),
        ensures
            final(self).wf(),
            final(self).lock() == old(self).lock(),
            final(self).peers() == old(self).peers(),
            final(self).desk() == (DeskView {
                profiles: with_profiles(old(self).desk().profiles, user_views(profiles@)),
                ..old(self).desk()
            }),
    {
        broadcast use vstd::std_specs::hash::group_hash_axioms;

        let ghost desk = self.desk();
        let ghost views = user_views(profiles@);
        let n: usize = profiles.len();
        let mut i: usize = 0;
        assert(views.take(0) =~= Seq::<ProfileView>::empty());
        while i < n
            invariant
                i <= n,
                n == profiles@.len(),
                views == user_views(profiles@),
                self.wf(),
                self.lock() == old(self).lock(),
                self.peers() == old(self).peers(),
                desk == old(self).desk(),
                self.desk() == (DeskView {
                    profiles: with_profiles(desk.profiles, views.take(i as int)),
                    ..desk
                }),
            decreases n - i,
        {
            assert(views.take(i + 1).drop_last() =~= views.take(i as int));
            let ghost before = self.user_profiles@;
            let profile = profiles[i].copy();
            let ghost view = profile@;
            assert(views[i as int] == view);
            self.user_profiles.insert(profile.id, profile);
            assert(profile_views(self.user_profiles@) =~= profile_views(before).insert(
                view.id,
                view,
            ));
            i = i + 1;
        }
        assert(views.take(n as int) =~= views);
    }

    /// Takes a response of control.
    ///
    /// Users are noted first, whatever else comes. Then who is online and who was seen; then the
    /// change of the set of peers, and the patches on top of it. Where anything has changed, the
    /// requests that waited are answered and the peers are to be published. `now` is the time to
    /// record for those who were seen.
    pub fn handle_state_update(&mut self, update: &StateUpdate, now: Timestamp) -> (r:
        UpdateOutcome)
        requires
            old(self).wf(),
            old(self).peers().db.next_id + newcomers_of(*update) <= u64::MAX,
        ensures
            final(self).wf(),
            final(self).lock() == old(self).lock(),
            final(self).peers() == after_state_update(
                old(self).peers(),
                old(self).lock(),
                *update,
                now,
            ).0.peers,
            match r.publish {
                Some(state) => after_state_update(
                    old(self).peers(),
                    old(self).lock(),
                    *update,
                    now,
                ) == (
                    Touched {
                        peers: final(self).peers(),
                        upserts: state.upserts@,
                        deletions: state.deletions@,
                    },
                    true,
                ) && state.peers@ == final(self).peers().db,
                None => !after_state_update(
                    old(self).peers(),
                    old(self).lock(),
                    *update,
                    now,
                ).1,
            },
            final(self).desk().profiles == with_profiles(
                old(self).desk().profiles,
                user_views(update.user_profiles@),
            ),
            match r.publish {
                Some(_) => serviced(
                    final(self).peers().db,
                    DeskView { profiles: final(self).desk().profiles, ..old(self).desk() },
                    final(self).desk(),
                    r.replies@,
                ),
                None => r.replies@.len() == 0 && final(self).desk().seen == old(self).desk().seen
                    && final(self).desk().pending == old(self).desk().pending,
            },
    {
        let ghost start = self.peers();
        self.keep_profiles(&update.user_profiles);
        let alive = self.apply_liveness_changes(
            &update.online_change,
            &update.peer_seen_change,
            now,
        );
        proof {
            liveness_uses_no_number(
                start.db,
                update.online_change@,
                update.peer_seen_change@,
                now,
            );
        }
        let ghost live = self.peers();
        if update.peer_update.is_none() && update.peer_patches.len() == 0 {
            if !alive {
                return UpdateOutcome { publish: None, replies: Vec::new() };
            }
            let replies = self.service_pending_requests();
            let state = self.publication(IdSet::new(), IdSet::new());
            return UpdateOutcome { publish: Some(state), replies };
        }
        let (mut upserts, mut deletions) = match &update.peer_update {
            Some(u) => self.apply_peer_update(u),
            None => (IdSet::new(), IdSet::new()),
        };
        if update.peer_patches.len() > 0 {
            let (patch_upserts, patch_deletions) = self.apply_peer_patches(&update.peer_patches);
            deletions.remove_all(&patch_upserts);
            upserts.remove_all(&patch_deletions);
            upserts.extend(&patch_upserts);
            deletions.extend(&patch_deletions);
        }
        let replies = self.service_pending_requests();
        let state = self.publication(upserts, deletions);
        UpdateOutcome { publish: Some(state), replies }
    }

    /// Takes a disco key that a peer advertised; where it is news, the peers are to be published.
    pub fn handle_advertisement(&mut self, peer: PeerId, key: DiscoKey) -> (r: Option<PeerState>)
        requires
            old(self).wf(),
        ensures
            final(self).wf(),
            final(self).lock() == old(self).lock(),
            final(self).desk() == old(self).desk(),
            published(old(self).peers().advertised(peer, key), peer, final(self).peers(), r),
            r is None ==> final(self).peers() == old(self).peers(),
    {
        if !self.learn_disco_key(peer, key) {
            return None;
        }
        let mut upserts = IdSet::new();
        upserts.insert(peer);
        assert(upserts@ =~= set![peer]);
        Some(self.publication(upserts, IdSet::new()))
    }

    /// Takes the sender key of a disco frame; where it moved the active key, the peers are to be
    /// published.
    pub fn handle_disco_observed(&mut self, peer: PeerId, key: DiscoKey) -> (r: Option<PeerState>)
        requires
            old(self).wf(),
        ensures
            final(self).wf(),
            final(self).lock() == old(self).lock(),
            final(self).desk() == old(self).desk(),
            published(old(self).peers().observed(peer, key), peer, final(self).peers(), r),
            r is None ==> final(self).peers() == old(self).peers(),
    {
        if !self.observe_disco_key(peer, key) {
            return None;
        }
        let mut upserts = IdSet::new();
        upserts.insert(peer);
        assert(upserts@ =~= set![peer]);
        Some(self.publication(upserts, IdSet::new()))
    }

    /// Judges the stored peers under the lock in force; where anyone was dropped, the peers are to
    /// be published.
    pub fn handle_authority_changed(&mut self) -> (r: Option<PeerState>)
        requires
            old(self).wf(),
        ensures
            final(self).wf(),
            final(self).lock() == old(self).lock(),
            final(self).desk() == old(self).desk(),
            final(self).peers() == reevaluated(old(self).peers(), old(self).lock()).0,
            match r {
                Some(state) => state.upserts@ == Set::<PeerId>::empty() && state.deletions@
                    == reevaluated(old(self).peers(), old(self).lock()).1 && state.peers@
                    == final(self).peers().db && state.deletions@ != Set::<PeerId>::empty(),
                None => reevaluated(old(self).peers(), old(self).lock()).1
                    == Set::<PeerId>::empty(),
            },
    {
        let deletions = self.tka_reevaluate_peer_db();
        if deletions.is_empty() {
            return None;
        }
        Some(self.publication(IdSet::new(), deletions))
    }

    /// The peers as they are, for publication.
    pub fn handle_republish(&self, _request: RepublishState) -> (r: PeerState)
        ensures
            r.upserts@ == Set::<PeerId>::empty(),
            r.deletions@ == Set::<PeerId>::empty(),
            r.peers@ == self.peers().db,
    {
        self.publication(IdSet::new(), IdSet::new())
    }
}

/// What becomes of a request: it is answered, or kept until the first update.
pub open spec fn asked(
    db: DbView,
    before: DeskView,
    after: DeskView,
    ticket: u64,
    request: RequestView,
    reply: Option<Reply>,
) -> bool {
    if before.seen {
        &&& reply is Some
        &&& reply->0@ == answered(db, before.profiles, request)
        &&& after == before
    } else {
        &&& reply is None
        &&& after == DeskView { pending: before.pending.push((ticket, request)), ..before }
    }
}

/// What becomes of the waiting requests at an update.
pub open spec fn serviced(
    db: DbView,
    before: DeskView,
    after: DeskView,
    replies: Seq<(u64, Reply)>,
) -> bool {
    if before.seen {
        &&& replies.len() == 0
        &&& after == before
    } else {
        &&& reply_views(replies) == answers_to(db, before.profiles, before.pending)
        &&& after == DeskView { seen: true, pending: Seq::empty(), ..before }
    }
}

/// What is published of one peer's change of key: that peer, where the change was taken.
pub open spec fn published(
    change: Option<PeersView>,
    peer: PeerId,
    peers: PeersView,
    state: Option<PeerState>,
) -> bool {
    match (change, state) {
        (Some(after), Some(s)) => peers == after && s.upserts@ == set![peer] && s.deletions@
            == Set::<PeerId>::empty() && s.peers@ == after.db,
        (None, None) => true,
        _ => false,
    }
}

/// The models of a list of patches.
pub open spec fn change_views(v: Seq<PeerChange>) -> Seq<ChangeView> {
    v.map_values(|c: PeerChange| c@)
}

fn references<'a>(nodes: &'a Vec<Node>) -> (r: Vec<&'a Node>)
    ensures
        node_views(r@) == views_of(nodes@),
{
    let mut refs: Vec<&'a Node> = Vec::new();
    let mut i: usize = 0;
    while i < nodes.len()
        invariant
            i <= nodes@.len(),
            refs@.len() == i,
            forall|j: int| 0 <= j < i ==> refs@[j]@ == nodes@[j]@,
        decreases nodes@.len() - i,
    {
        refs.push(&nodes[i]);
        i = i + 1;
    }
    assert(node_views(refs@) =~= views_of(nodes@));
    refs
}

fn entry_references<'a>(entries: &'a Vec<PeerEntry>) -> (r: Vec<&'a Node>)
    ensures
        r@.len() == entries@.len(),
        node_views(r@) == stored_nodes(entry_views(entries@)),
{
    let mut refs: Vec<&'a Node> = Vec::new();
    let mut i: usize = 0;
    while i < entries.len()
        invariant
            i <= entries@.len(),
            refs@.len() == i,
            forall|j: int| 0 <= j < i ==> refs@[j]@ == entries@[j].node@,
        decreases entries@.len() - i,
    {
        refs.push(&entries[i].node);
        i = i + 1;
    }
    assert(node_views(refs@) =~= stored_nodes(entry_views(entries@)));
    refs
}

fn is_retained(nodes: &Vec<Node>, keep: &Vec<bool>, stable_id: &str) -> (r: bool)
    requires
        keep@.len() == nodes@.len(),
    ensures
        r == retained(views_of(nodes@), keep@, stable_id@),
{
    let ghost views = views_of(nodes@);
    let mut i: usize = 0;
    while i < nodes.len()
        invariant
            i <= nodes@.len(),
            keep@.len() == nodes@.len(),
            views == views_of(nodes@),
            forall|j: int|
                0 <= j < i ==> !(keep@[j] && (#[trigger] views[j]).stable_id == stable_id@),
        decreases nodes@.len() - i,
    {
        assert(views[i as int] == nodes@[i as int]@);
        if keep[i] && str_eq(&nodes[i].stable_id, stable_id) {
            return true;
        }
        i = i + 1;
    }
    false
}

} // verus!
