//! Which peers the tailnet lock admits.
//!
//! Verifying a signature chain is the lock's own work. What it found is held here as plain values:
//! how many keys the lock trusts, and which node keys it authorizes under which signatures.

use vstd::prelude::*;

use crate::node::{Node, NodeKey, NodeView};
use crate::rotation::{
    at_most_one_member_survives, copy_details, live, loses, obsolete_keys_only_grow, settle,
    settle_group, survives, DetailsView, GroupView, MemberView, RotationDetails, RotationTracker,
    TrackerView,
};
use crate::search::{first_where, first_where_is, first_where_is_first, first_where_none};
use crate::text::bytes_eq;

verus! {

/// A signature that the lock authorizes.
#[derive(Debug)]
pub struct AuthorizedKey {
    /// The node key that is signed.
    pub node_key: NodeKey,
    /// The signature, as the node presents it.
    pub signature: Vec<u8>,
    /// What the signature's chain says of earlier keys, where it is a rotation.
    pub rotation: Option<RotationDetails>,
}

/// The lock as this crate reads it. A signature that is not listed is one that the lock does not
/// authorize.
#[derive(Debug)]
pub struct Authority {
    /// How many keys the lock trusts.
    pub trusted_keys: usize,
    /// The signatures that it authorizes.
    pub authorized: Vec<AuthorizedKey>,
}

/// The model of an [`AuthorizedKey`].
#[verifier::ext_equal]
pub struct AuthorizedView {
    pub node_key: NodeKey,
    pub signature: Seq<u8>,
    pub rotation: Option<DetailsView>,
}

/// The model of an [`Authority`].
#[verifier::ext_equal]
pub struct AuthorityView {
    pub trusted_keys: nat,
    pub authorized: Seq<AuthorizedView>,
}

/// The model of optional details.
pub open spec fn opt_details(d: Option<RotationDetails>) -> Option<DetailsView> {
    match d {
        Some(x) => Some(x@),
        None => None,
    }
}

impl View for AuthorizedKey {
    type V = AuthorizedView;

    open spec fn view(&self) -> AuthorizedView {
        AuthorizedView {
            node_key: self.node_key,
            signature: self.signature@,
            rotation: opt_details(self.rotation),
        }
    }
}

impl View for Authority {
    type V = AuthorityView;

    open spec fn view(&self) -> AuthorityView {
        AuthorityView {
            trusted_keys: self.trusted_keys as nat,
            authorized: self.authorized@.map_values(|k: AuthorizedKey| k@),
        }
    }
}

impl AuthorityView {
    /// The index of the listed signature `signature` of `node_key`.
    pub open spec fn listed(self, node_key: NodeKey, signature: Seq<u8>) -> Option<int> {
        first_where(
            |i: int|
                self.authorized[i].node_key == node_key && self.authorized[i].signature
                    == signature,
            self.authorized.len() as int,
        )
    }
}

/// The model of a lock that may not be there.
pub open spec fn lock_view(authority: Option<Authority>) -> Option<AuthorityView> {
    match authority {
        Some(a) => Some(a@),
        None => None,
    }
}

/// What the lock says of one peer: whether it is admitted, and what its signature's chain says of
/// earlier keys.
#[derive(Debug)]
pub struct TkaVerdict {
    pub admitted: bool,
    pub rotation: Option<RotationDetails>,
}

/// The model of a [`TkaVerdict`].
#[verifier::ext_equal]
pub struct VerdictView {
    pub admitted: bool,
    pub rotation: Option<DetailsView>,
}

impl View for TkaVerdict {
    type V = VerdictView;

    open spec fn view(&self) -> VerdictView {
        VerdictView { admitted: self.admitted, rotation: opt_details(self.rotation) }
    }
}

impl TkaVerdict {
    /// Admitted, with nothing said of earlier keys.
    pub fn accept() -> (r: Self)
        ensures
            r@ == (VerdictView { admitted: true, rotation: None }),
    {
        TkaVerdict { admitted: true, rotation: None }
    }

    /// Dropped.
    pub fn drop() -> (r: Self)
        ensures
            r@ == (VerdictView { admitted: false, rotation: None }),
    {
        TkaVerdict { admitted: false, rotation: None }
    }
}

/// What the lock says of `node`. Without a lock every peer is admitted; so it is under a lock that
/// trusts no key, which no verified lock is. Otherwise a peer needs a signature, and the lock has
/// to authorize it.
pub open spec fn verdict(lock: Option<AuthorityView>, node: NodeView) -> VerdictView {
    match lock {
        None => VerdictView { admitted: true, rotation: None },
        Some(a) => if a.trusted_keys == 0 {
            VerdictView { admitted: true, rotation: None }
        } else if node.key_signature.len() == 0 {
            VerdictView { admitted: false, rotation: None }
        } else {
            match a.listed(node.node_key, node.key_signature) {
                Some(i) => VerdictView { admitted: true, rotation: a.authorized[i].rotation },
                None => VerdictView { admitted: false, rotation: None },
            }
        },
    }
}

/// Judges one peer by its own signature.
pub fn tka_snapshot_admits(authority: Option<&Authority>, node: &Node) -> (r: TkaVerdict)
    ensures
        r@ == verdict(
            match authority {
                Some(a) => Some(a@),
                None => None,
            },
            node@,
        ),
{
    let auth = match authority {
        Some(a) => a,
        None => {
            return TkaVerdict::accept();
        },
    };
    if auth.trusted_keys == 0 {
        return TkaVerdict::accept();
    }
    if node.key_signature.len() == 0 {
        return TkaVerdict::drop();
    }
    let ghost all = auth@.authorized;
    let ghost p = |i: int|
        auth@.authorized[i].node_key == node.node_key && auth@.authorized[i].signature
            == node.key_signature@;
    let mut i: usize = 0;
    while i < auth.authorized.len()
        invariant
            i <= auth.authorized@.len(),
            all == auth@.authorized,
            all.len() == auth.authorized@.len(),
            authority == Some(auth),
            auth.trusted_keys != 0,
            node.key_signature@.len() != 0,
            p == (|i: int|
                auth@.authorized[i].node_key == node.node_key && auth@.authorized[i].signature
                    == node.key_signature@),
            forall|j: int| 0 <= j < i ==> !#[trigger] p(j),
        decreases auth.authorized@.len() - i,
    {
        assert(all[i as int] == auth.authorized@[i as int]@);
        if auth.authorized[i].node_key == node.node_key && bytes_eq(
            &auth.authorized[i].signature,
            &node.key_signature,
        ) {
            assert(p(i as int));
            proof {
                first_where_is(p, all.len() as int, i as int);
            }
            let rotation = match &auth.authorized[i].rotation {
                Some(d) => Some(copy_details(d)),
                None => None,
            };
            return TkaVerdict { admitted: true, rotation };
        }
        i = i + 1;
    }
    proof {
        first_where_none(p, all.len() as int);
    }
    TkaVerdict::drop()
}

/// The models of a list of nodes.
pub open spec fn node_views(nodes: Seq<&Node>) -> Seq<NodeView> {
    nodes.map_values(|n: &Node| n@)
}

/// The rotation chains of the admitted peers among `nodes`.
pub open spec fn chains_of(lock: Option<AuthorityView>, nodes: Seq<NodeView>) -> TrackerView
    decreases nodes.len(),
{
    if nodes.len() == 0 {
        TrackerView { obsolete: Set::empty(), groups: Seq::empty() }
    } else {
        let before = chains_of(lock, nodes.drop_last());
        let v = verdict(lock, nodes.last());
        if v.admitted && v.rotation is Some {
            before.add(nodes.last().node_key.bytes(), v.rotation->0)
        } else {
            before
        }
    }
}

/// The node keys that the chains of `nodes` make obsolete.
pub open spec fn obsolete_of(lock: Option<AuthorityView>, nodes: Seq<NodeView>) -> Set<Seq<u8>> {
    settle(chains_of(lock, nodes).groups, chains_of(lock, nodes).obsolete)
}

/// Whether `node` is kept in a batch in which `obsolete` are the obsolete keys.
pub open spec fn keeps(
    lock: Option<AuthorityView>,
    obsolete: Set<Seq<u8>>,
    node: NodeView,
) -> bool {
    verdict(lock, node).admitted && !obsolete.contains(node.node_key.bytes())
}

/// Which of `nodes` are kept: those that the lock admits by their own signature and whose key no
/// other chain of the batch has made obsolete.
pub open spec fn kept(lock: Option<AuthorityView>, nodes: Seq<NodeView>) -> Seq<bool> {
    nodes.map_values(|n: NodeView| keeps(lock, obsolete_of(lock, nodes), n))
}

/// Judges a whole batch of peers: one flag for each, in order.
pub fn tka_keep_verdicts(authority: Option<&Authority>, nodes: &Vec<&Node>) -> (r: Vec<bool>)
    ensures
        r@ == kept(
            match authority {
                Some(a) => Some(a@),
                None => None,
            },
            node_views(nodes@),
        ),
{
    let ghost lock = match authority {
        Some(a) => Some(a@),
        None => None,
    };
    let ghost views = node_views(nodes@);
    let n: usize = nodes.len();
    let mut admitted: Vec<bool> = Vec::new();
    let mut rotation = RotationTracker::new();
    assert(rotation@ =~= chains_of(lock, views.take(0)));
    let mut i: usize = 0;
    while i < n
        invariant
            i <= n,
            n == nodes@.len(),
            views == node_views(nodes@),
            lock == (match authority {
                Some(a) => Some(a@),
                None => None,
            }),
            admitted@.len() == i,
            forall|j: int| 0 <= j < i ==> admitted@[j] == verdict(lock, views[j]).admitted,
            rotation@ == chains_of(lock, views.take(i as int)),
            rotation@.wf(),
        decreases n - i,
    {
        assert(views.take(i + 1).drop_last() =~= views.take(i as int));
        assert(views[i as int] == nodes@[i as int]@);
        let v = tka_snapshot_admits(authority, nodes[i]);
        admitted.push(v.admitted);
        if v.admitted {
            match &v.rotation {
                Some(details) => {
                    rotation.add(nodes[i].node_key.to_bytes(), details);
                },
                None => {},
            }
        }
        i = i + 1;
    }
    assert(views.take(n as int) =~= views);
    let obsolete = rotation.obsolete_keys();
    let mut out: Vec<bool> = Vec::new();
    let mut k: usize = 0;
    while k < n
        invariant
            k <= n,
            n == nodes@.len(),
            views == node_views(nodes@),
            admitted@.len() == n,
            forall|j: int| 0 <= j < n ==> admitted@[j] == verdict(lock, views[j]).admitted,
            obsolete@ == obsolete_of(lock, views),
            out@ == kept(lock, views).take(k as int),
        decreases n - k,
    {
        assert(views[k as int] == nodes@[k as int]@);
        let key = nodes[k].node_key.to_bytes();
        out.push(admitted[k] && !obsolete.contains(&key));
        k = k + 1;
        assert(out@ =~= kept(lock, views).take(k as int));
    }
    assert(kept(lock, views).take(n as int) =~= kept(lock, views));
    out
}

/// Whether peers have to be signed: there is a lock, and it trusts a key.
pub open spec fn enforced(lock: Option<AuthorityView>) -> bool {
    match lock {
        Some(a) => a.trusted_keys > 0,
        None => false,
    }
}

/// Without an enforced lock every peer is kept.
pub proof fn everyone_is_kept_without_a_lock(
    lock: Option<AuthorityView>,
    nodes: Seq<NodeView>,
    i: int,
)
    requires
        !enforced(lock),
        0 <= i < nodes.len(),
    ensures
        kept(lock, nodes)[i],
{
    no_chains_without_a_lock(lock, nodes);
}

proof fn no_chains_without_a_lock(lock: Option<AuthorityView>, nodes: Seq<NodeView>)
    requires
        !enforced(lock),
    ensures
        chains_of(lock, nodes) == (TrackerView { obsolete: Set::empty(), groups: Seq::empty() }),
    decreases nodes.len(),
{
    if nodes.len() > 0 {
        no_chains_without_a_lock(lock, nodes.drop_last());
    }
}

/// Under an enforced lock a peer that is kept presents a signature that the lock authorizes for
/// its own node key. An unsigned peer, and one with another node's signature, is not kept.
pub proof fn kept_peers_are_authorized(
    lock: Option<AuthorityView>,
    nodes: Seq<NodeView>,
    i: int,
)
    requires
        enforced(lock),
        0 <= i < nodes.len(),
        kept(lock, nodes)[i],
    ensures
        nodes[i].key_signature.len() > 0,
        exists|k: int|
            0 <= k < (lock->0).authorized.len() && (#[trigger] (lock->0).authorized[k]).node_key
                == nodes[i].node_key && (lock->0).authorized[k].signature == nodes[i].key_signature,
{
    let a = lock->0;
    let p = |k: int|
        a.authorized[k].node_key == nodes[i].node_key && a.authorized[k].signature
            == nodes[i].key_signature;
    first_where_is_first(p, a.authorized.len() as int);
    let k = a.listed(nodes[i].node_key, nodes[i].key_signature)->0;
    assert(a.authorized[k].node_key == nodes[i].node_key);
}

/// The verdict on a peer is that of its own signature: where no chain rotates, the others in the
/// batch do not matter.
pub proof fn each_peer_is_judged_by_its_own_signature(
    lock: Option<AuthorityView>,
    nodes: Seq<NodeView>,
    i: int,
)
    requires
        0 <= i < nodes.len(),
        !verdict(lock, nodes[i]).admitted,
    ensures
        !kept(lock, nodes)[i],
{
}

/// The members of the group of `wrapping`, in the order of `nodes`.
spec fn members_of(
    lock: Option<AuthorityView>,
    nodes: Seq<NodeView>,
    wrapping: Seq<u8>,
) -> Seq<MemberView>
    decreases nodes.len(),
{
    if nodes.len() == 0 {
        Seq::empty()
    } else {
        let before = members_of(lock, nodes.drop_last(), wrapping);
        let v = verdict(lock, nodes.last());
        if v.admitted && v.rotation is Some && v.rotation->0.kind is Direct
            && v.rotation->0.wrapping == wrapping {
            before.push(
                MemberView {
                    key: nodes.last().node_key.bytes(),
                    depth: v.rotation->0.prev.len(),
                },
            )
        } else {
            before
        }
    }
}

proof fn groups_are_members(lock: Option<AuthorityView>, nodes: Seq<NodeView>)
    ensures
        chains_of(lock, nodes).wf(),
        forall|g: int|
            0 <= g < chains_of(lock, nodes).groups.len() ==> (#[trigger] chains_of(
                lock,
                nodes,
            ).groups[g]).members == members_of(lock, nodes, chains_of(lock, nodes).groups[g].wrapping),
        forall|w: Seq<u8>|
            members_of(lock, nodes, w).len() > 0 ==> #[trigger] chains_of(lock, nodes).group_of(
                w,
            ) is Some,
    decreases nodes.len(),
{
    if nodes.len() > 0 {
        let before = chains_of(lock, nodes.drop_last());
        let after = chains_of(lock, nodes);
        groups_are_members(lock, nodes.drop_last());
        let v = verdict(lock, nodes.last());
        if v.admitted && v.rotation is Some {
            let d = v.rotation->0;
            let p = |i: int| before.groups[i].wrapping == d.wrapping;
            first_where_is_first(p, before.groups.len() as int);
            if d.kind is Direct {
                match before.group_of(d.wrapping) {
                    Some(k) => {
                        assert(p(k));
                    },
                    None => {
                        assert(members_of(lock, nodes.drop_last(), d.wrapping).len() == 0);
                        assert(members_of(lock, nodes.drop_last(), d.wrapping) =~= Seq::empty());
                    },
                }
                assert forall|g: int| 0 <= g < after.groups.len() implies (
                #[trigger] after.groups[g]).members == members_of(
                    lock,
                    nodes,
                    after.groups[g].wrapping,
                ) by {
                    match before.group_of(d.wrapping) {
                        Some(k) => {
                            if g != k {
                                assert(after.groups[g] == before.groups[g]);
                                if g < k {
                                    assert(before.groups[g].wrapping != before.groups[k].wrapping);
                                } else {
                                    assert(before.groups[k].wrapping != before.groups[g].wrapping);
                                }
                            } else {
                                assert(before.groups[k].members == members_of(
                                    lock,
                                    nodes.drop_last(),
                                    d.wrapping,
                                ));
                            }
                        },
                        None => {
                            if g < before.groups.len() {
                                assert(after.groups[g] == before.groups[g]);
                                assert(!p(g));
                            } else {
                                assert(after.groups[g].members =~= members_of(
                                    lock,
                                    nodes,
                                    d.wrapping,
                                ));
                            }
                        },
                    }
                }
                assert forall|i: int, j: int| 0 <= i < j < after.groups.len() implies (
                #[trigger] after.groups[i]).wrapping != (#[trigger] after.groups[j]).wrapping by {
                    match before.group_of(d.wrapping) {
                        Some(k) => {
                            assert(before.groups[i].wrapping != before.groups[j].wrapping);
                        },
                        None => {
                            if j < before.groups.len() {
                                assert(before.groups[i].wrapping != before.groups[j].wrapping);
                            } else {
                                assert(!p(i));
                            }
                        },
                    }
                }
            }
            assert forall|w: Seq<u8>| members_of(lock, nodes, w).len() > 0 implies #[trigger] after.group_of(
                w,
            ) is Some by {
                let q = |i: int| after.groups[i].wrapping == w;
                first_where_is_first(q, after.groups.len() as int);
                let at = if d.kind is Direct && d.wrapping == w {
                    match before.group_of(w) {
                        Some(k) => k,
                        None => before.groups.len() as int,
                    }
                } else {
                    let b = |i: int| before.groups[i].wrapping == w;
                    first_where_is_first(b, before.groups.len() as int);
                    assert(before.group_of(w) is Some);
                    assert(b(before.group_of(w)->0));
                    before.group_of(w)->0
                };
                assert(q(at));
            }
        }
    }
}

/// The members of `s` whose key is not in `gone`.
spec fn staying(s: Seq<MemberView>, gone: Set<Seq<u8>>) -> Seq<MemberView>
    decreases s.len(),
{
    if s.len() == 0 {
        Seq::empty()
    } else {
        let before = staying(s.drop_last(), gone);
        if gone.contains(s.last().key) {
            before
        } else {
            before.push(s.last())
        }
    }
}

proof fn staying_is_drawn(s: Seq<MemberView>, gone: Set<Seq<u8>>)
    ensures
        forall|k: int|
            0 <= k < staying(s, gone).len() ==> s.contains(#[trigger] staying(s, gone)[k])
                && !gone.contains(staying(s, gone)[k].key),
    decreases s.len(),
{
    if s.len() > 0 {
        let short = s.drop_last();
        staying_is_drawn(short, gone);
        assert forall|k: int| 0 <= k < staying(s, gone).len() implies s.contains(
            #[trigger] staying(s, gone)[k],
        ) && !gone.contains(staying(s, gone)[k].key) by {
            if k < staying(short, gone).len() {
                assert(staying(s, gone)[k] == staying(short, gone)[k]);
                let i = choose|i: int| 0 <= i < short.len() && short[i] == staying(short, gone)[k];
                assert(s[i] == staying(s, gone)[k]);
            } else {
                assert(s[s.len() - 1] == staying(s, gone)[k]);
            }
        }
    }
}

proof fn at_most_one_stays(s: Seq<MemberView>, gone: Set<Seq<u8>>)
    requires
        forall|i: int, j: int|
            0 <= i < j < s.len() ==> gone.contains((#[trigger] s[i]).key) || gone.contains(
                (#[trigger] s[j]).key,
            ),
    ensures
        staying(s, gone).len() <= 1,
    decreases s.len(),
{
    if s.len() > 0 {
        let short = s.drop_last();
        let last = s.len() - 1;
        assert forall|i: int, j: int| 0 <= i < j < short.len() implies gone.contains(
            (#[trigger] short[i]).key,
        ) || gone.contains((#[trigger] short[j]).key) by {
            assert(gone.contains(s[i].key) || gone.contains(s[j].key));
        }
        at_most_one_stays(short, gone);
        if !gone.contains(s[last].key) && staying(short, gone).len() > 0 {
            staying_is_drawn(short, gone);
            let m = staying(short, gone)[0];
            let i = choose|i: int| 0 <= i < short.len() && short[i] == m;
            assert(gone.contains(s[i].key) || gone.contains(s[last].key));
        }
    }
}

/// The nodes that are kept in a batch in which `obsolete` are the obsolete keys.
pub open spec fn keeping(
    lock: Option<AuthorityView>,
    obsolete: Set<Seq<u8>>,
    nodes: Seq<NodeView>,
) -> Seq<NodeView>
    decreases nodes.len(),
{
    if nodes.len() == 0 {
        Seq::empty()
    } else {
        let before = keeping(lock, obsolete, nodes.drop_last());
        if keeps(lock, obsolete, nodes.last()) {
            before.push(nodes.last())
        } else {
            before
        }
    }
}

proof fn members_of_kept(
    lock: Option<AuthorityView>,
    obsolete: Set<Seq<u8>>,
    nodes: Seq<NodeView>,
    w: Seq<u8>,
)
    ensures
        members_of(lock, keeping(lock, obsolete, nodes), w) == staying(
            members_of(lock, nodes, w),
            obsolete,
        ),
    decreases nodes.len(),
{
    if nodes.len() > 0 {
        let short = nodes.drop_last();
        members_of_kept(lock, obsolete, short, w);
        let before = keeping(lock, obsolete, short);
        let ms = members_of(lock, nodes, w);
        let old_ms = members_of(lock, short, w);
        if keeps(lock, obsolete, nodes.last()) {
            assert(before.push(nodes.last()).drop_last() =~= before);
        }
        if ms.len() > old_ms.len() {
            assert(ms.drop_last() =~= old_ms);
        }
    }
}

proof fn settled_singletons(groups: Seq<GroupView>, obsolete: Set<Seq<u8>>)
    requires
        forall|g: int| 0 <= g < groups.len() ==> (#[trigger] groups[g]).members.len() <= 1,
    ensures
        settle(groups, obsolete) == obsolete,
    decreases groups.len(),
{
    if groups.len() > 0 {
        let short = groups.drop_last();
        assert forall|g: int| 0 <= g < short.len() implies (#[trigger] short[g]).members.len()
            <= 1 by {
            assert(short[g] == groups[g]);
        }
        settled_singletons(short, obsolete);
        let last = groups[groups.len() - 1];
        assert forall|key: Seq<u8>| !loses(last.members, obsolete, key) by {
            if loses(last.members, obsolete, key) {
                let i = choose|i: int| #[trigger]
                    live(last.members, obsolete, i) && !survives(last.members, obsolete, i)
                        && last.members[i].key == key;
                assert(i == 0);
            }
        }
        assert(settle_group(obsolete, last) =~= obsolete);
    }
}

proof fn rotated_away_by_kept(
    lock: Option<AuthorityView>,
    obsolete: Set<Seq<u8>>,
    nodes: Seq<NodeView>,
)
    ensures
        chains_of(lock, keeping(lock, obsolete, nodes)).obsolete.subset_of(
            chains_of(lock, nodes).obsolete,
        ),
    decreases nodes.len(),
{
    if nodes.len() > 0 {
        let short = nodes.drop_last();
        rotated_away_by_kept(lock, obsolete, short);
        let before = keeping(lock, obsolete, short);
        if keeps(lock, obsolete, nodes.last()) {
            assert(before.push(nodes.last()).drop_last() =~= before);
        }
    }
}

proof fn keeping_elements(lock: Option<AuthorityView>, obsolete: Set<Seq<u8>>, nodes: Seq<NodeView>)
    ensures
        forall|i: int|
            0 <= i < keeping(lock, obsolete, nodes).len() ==> keeps(
                lock,
                obsolete,
                #[trigger] keeping(lock, obsolete, nodes)[i],
            ),
    decreases nodes.len(),
{
    if nodes.len() > 0 {
        keeping_elements(lock, obsolete, nodes.drop_last());
        let before = keeping(lock, obsolete, nodes.drop_last());
        let all = keeping(lock, obsolete, nodes);
        assert forall|i: int| 0 <= i < all.len() implies keeps(lock, obsolete, #[trigger] all[i]) by {
            if i < before.len() {
                assert(all[i] == before[i]);
            }
        }
    }
}

/// Judging again the peers that were kept drops none of them.
pub proof fn judging_twice_drops_nobody(lock: Option<AuthorityView>, nodes: Seq<NodeView>, i: int)
    requires
        0 <= i < keeping(lock, obsolete_of(lock, nodes), nodes).len(),
    ensures
        kept(lock, keeping(lock, obsolete_of(lock, nodes), nodes))[i],
{
    let gone = obsolete_of(lock, nodes);
    let rest = keeping(lock, gone, nodes);
    let t = chains_of(lock, nodes);
    let u = chains_of(lock, rest);
    groups_are_members(lock, nodes);
    groups_are_members(lock, rest);
    keeping_elements(lock, gone, nodes);
    assert forall|g: int| 0 <= g < u.groups.len() implies (#[trigger] u.groups[g]).members.len()
        <= 1 by {
        let w = u.groups[g].wrapping;
        members_of_kept(lock, gone, nodes, w);
        let ms = members_of(lock, nodes, w);
        if ms.len() > 0 {
            assert(t.group_of(w) is Some);
            let p = |k: int| t.groups[k].wrapping == w;
            first_where_is_first(p, t.groups.len() as int);
            let k = t.group_of(w)->0;
            assert(p(k));
            assert(t.groups[k].members == ms);
            assert forall|a: int, b: int| 0 <= a < b < ms.len() implies gone.contains(
                (#[trigger] ms[a]).key,
            ) || gone.contains((#[trigger] ms[b]).key) by {
                at_most_one_member_survives(t.groups, t.obsolete, k, a, b);
            }
        }
        at_most_one_stays(ms, gone);
    }
    settled_singletons(u.groups, u.obsolete);
    rotated_away_by_kept(lock, gone, nodes);
    obsolete_keys_only_grow(t.groups, t.obsolete);
    let node = rest[i];
    assert(keeps(lock, gone, node));
    assert(!u.obsolete.contains(node.node_key.bytes()));
}

} // verus!
