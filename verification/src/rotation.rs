//! Which node keys a key rotation has made obsolete.
//!
//! Two rules. Every earlier key that a rotation chain names is obsolete. And among the chains
//! rooted in a direct signature that share one wrapping key, which is the mark of a cloned node,
//! only the longest survives; where the longest is not alone, none does. Chains rooted in a
//! credential are exempt from the second rule: several nodes may join under one reusable key.

use vstd::prelude::*;

use crate::search::{first_where, first_where_is, first_where_is_first, first_where_none};
use crate::text::bytes_eq;

verus! {

/// The kind of signature at the root of a chain.
#[derive(Clone, Copy, Debug, PartialEq, Eq, Structural)]
pub enum SigKind {
    /// A trusted key signed the node key.
    Direct,
    /// An earlier node key signed the node key.
    Rotation,
    /// A trusted key signed a credential.
    Credential,
}

/// What a rotation chain says of the keys before the current one.
#[derive(Debug)]
pub struct RotationDetails {
    /// The node keys that were rotated away.
    pub prev_node_keys: Vec<Vec<u8>>,
    /// The kind of signature at the root.
    pub initial_sig_kind: SigKind,
    /// The key that the root signature hands rotation over to.
    pub initial_wrapping_pubkey: Vec<u8>,
}

/// The model of [`RotationDetails`].
#[verifier::ext_equal]
pub struct DetailsView {
    pub prev: Seq<Seq<u8>>,
    pub kind: SigKind,
    pub wrapping: Seq<u8>,
}

/// The views of a list of byte strings.
pub open spec fn byte_views(v: Seq<Vec<u8>>) -> Seq<Seq<u8>> {
    v.map_values(|k: Vec<u8>| k@)
}

impl View for RotationDetails {
    type V = DetailsView;

    open spec fn view(&self) -> DetailsView {
        DetailsView {
            prev: byte_views(self.prev_node_keys@),
            kind: self.initial_sig_kind,
            wrapping: self.initial_wrapping_pubkey@,
        }
    }
}

/// A copy of `details`.
pub fn copy_details(details: &RotationDetails) -> (r: RotationDetails)
    ensures
        r@ == details@,
{
    let n: usize = details.prev_node_keys.len();
    let mut prev: Vec<Vec<u8>> = Vec::new();
    let mut i: usize = 0;
    while i < n
        invariant
            i <= n,
            n == details.prev_node_keys@.len(),
            byte_views(prev@) == byte_views(details.prev_node_keys@).take(i as int),
        decreases n - i,
    {
        let ghost before = prev@;
        let key = details.prev_node_keys[i].clone();
        prev.push(key);
        i = i + 1;
        assert(byte_views(prev@) =~= byte_views(before).push(key@));
        assert(byte_views(prev@) =~= byte_views(details.prev_node_keys@).take(i as int));
    }
    let r = RotationDetails {
        prev_node_keys: prev,
        initial_sig_kind: details.initial_sig_kind,
        initial_wrapping_pubkey: details.initial_wrapping_pubkey.clone(),
    };
    assert(r@ =~= details@);
    r
}

/// A set of keys.
pub struct KeySet {
    keys: Vec<Vec<u8>>,
}

impl View for KeySet {
    type V = Set<Seq<u8>>;

    closed spec fn view(&self) -> Set<Seq<u8>> {
        byte_views(self.keys@).to_set()
    }
}

impl KeySet {
    /// The set without keys.
    pub fn new() -> (r: Self)
        ensures
            r@ == Set::<Seq<u8>>::empty(),
    {
        let r = KeySet { keys: Vec::new() };
        assert(r@ =~= Set::<Seq<u8>>::empty());
        r
    }

    /// Whether `key` is in the set.
    pub fn contains(&self, key: &[u8]) -> (r: bool)
        ensures
            r == self@.contains(key@),
    {
        let mut i: usize = 0;
        while i < self.keys.len()
            invariant
                i <= self.keys@.len(),
                forall|j: int| 0 <= j < i ==> self.keys@[j]@ != key@,
            decreases self.keys@.len() - i,
        {
            if bytes_eq(&self.keys[i], key) {
                assert(byte_views(self.keys@)[i as int] == key@);
                return true;
            }
            i = i + 1;
        }
        assert forall|j: int| 0 <= j < byte_views(self.keys@).len() implies byte_views(
            self.keys@,
        )[j] != key@ by {
            assert(byte_views(self.keys@)[j] == self.keys@[j]@);
        }
        false
    }

    /// Whether the set holds no key.
    pub fn is_empty(&self) -> (r: bool)
        ensures
            r == (self@ == Set::<Seq<u8>>::empty()),
    {
        if self.keys.len() == 0 {
            assert(self@ =~= Set::<Seq<u8>>::empty());
            true
        } else {
            assert(byte_views(self.keys@)[0] == self.keys@[0]@);
            assert(self@.contains(self.keys@[0]@));
            false
        }
    }

    /// Puts `key` into the set.
    pub fn insert(&mut self, key: &[u8])
        ensures
            final(self)@ == old(self)@.insert(key@),
    {
        if self.contains(key) {
            assert(self@.insert(key@) =~= self@);
            return;
        }
        let ghost before = self.keys@;
        let mut copy: Vec<u8> = Vec::new();
        copy.extend_from_slice(key);
        assert(copy@ =~= key@);
        self.keys.push(copy);
        assert(byte_views(self.keys@) =~= byte_views(before).push(key@));
        assert forall|k: Seq<u8>| self@.contains(k) == (k == key@ || byte_views(before).to_set().contains(k)) by {
            let old_views = byte_views(before);
            let new_views = old_views.push(key@);
            if new_views.contains(k) {
                let i = choose|i: int| 0 <= i < new_views.len() && new_views[i] == k;
                if i < old_views.len() {
                    assert(old_views[i] == k);
                }
            }
            if old_views.contains(k) {
                let i = choose|i: int| 0 <= i < old_views.len() && old_views[i] == k;
                assert(new_views[i] == k);
            }
            assert(new_views[old_views.len() as int] == key@);
        }
        assert(self@ =~= byte_views(before).to_set().insert(key@));
    }
}

struct SigRotation {
    node_key: Vec<u8>,
    num_prev_keys: usize,
}

struct WrappingGroup {
    wrapping_key: Vec<u8>,
    members: Vec<SigRotation>,
}

/// One peer in a group: its key, and how many keys its chain has rotated away.
#[verifier::ext_equal]
pub struct MemberView {
    pub key: Seq<u8>,
    pub depth: nat,
}

/// The peers whose direct chains share a wrapping key.
#[verifier::ext_equal]
pub struct GroupView {
    pub wrapping: Seq<u8>,
    pub members: Seq<MemberView>,
}

/// What a [`RotationTracker`] has been told.
#[verifier::ext_equal]
pub struct TrackerView {
    pub obsolete: Set<Seq<u8>>,
    pub groups: Seq<GroupView>,
}

impl TrackerView {
    /// The index of the group of `wrapping`.
    pub open spec fn group_of(self, wrapping: Seq<u8>) -> Option<int> {
        first_where(|i: int| self.groups[i].wrapping == wrapping, self.groups.len() as int)
    }

    /// No two groups share a wrapping key.
    pub open spec fn wf(self) -> bool {
        forall|i: int, j: int|
            0 <= i < j < self.groups.len() ==> (#[trigger] self.groups[i]).wrapping != (
            #[trigger] self.groups[j]).wrapping
    }

    /// After the peer `node_key` was recorded with its chain.
    pub open spec fn add(self, node_key: Seq<u8>, details: DetailsView) -> TrackerView {
        let obsolete = self.obsolete.union(details.prev.to_set());
        let member = MemberView { key: node_key, depth: details.prev.len() };
        if details.kind !is Direct {
            TrackerView { obsolete, groups: self.groups }
        } else {
            match self.group_of(details.wrapping) {
                Some(i) => TrackerView {
                    obsolete,
                    groups: self.groups.update(
                        i,
                        GroupView {
                            wrapping: details.wrapping,
                            members: self.groups[i].members.push(member),
                        },
                    ),
                },
                None => TrackerView {
                    obsolete,
                    groups: self.groups.push(
                        GroupView { wrapping: details.wrapping, members: seq![member] },
                    ),
                },
            }
        }
    }
}

/// Whether member `i` is still in play: its key was not rotated away.
pub open spec fn live(members: Seq<MemberView>, obsolete: Set<Seq<u8>>, i: int) -> bool {
    0 <= i < members.len() && !obsolete.contains(members[i].key)
}

/// Whether member `i` survives its group: it is in play, and its chain is longer than that of
/// every other member in play.
pub open spec fn survives(members: Seq<MemberView>, obsolete: Set<Seq<u8>>, i: int) -> bool {
    live(members, obsolete, i) && forall|j: int|
        j != i && #[trigger] live(members, obsolete, j) ==> members[j].depth < members[i].depth
}

/// Whether `key` belongs to a member in play that does not survive.
pub open spec fn loses(members: Seq<MemberView>, obsolete: Set<Seq<u8>>, key: Seq<u8>) -> bool {
    exists|i: int| #[trigger]
        live(members, obsolete, i) && !survives(members, obsolete, i) && members[i].key == key
}

/// The obsolete keys after one group was settled.
pub open spec fn settle_group(obsolete: Set<Seq<u8>>, group: GroupView) -> Set<Seq<u8>> {
    Set::new(|key: Seq<u8>| obsolete.contains(key) || loses(group.members, obsolete, key))
}

/// The obsolete keys after the groups were settled in turn.
pub open spec fn settle(groups: Seq<GroupView>, obsolete: Set<Seq<u8>>) -> Set<Seq<u8>>
    decreases groups.len(),
{
    if groups.len() == 0 {
        obsolete
    } else {
        settle_group(settle(groups.drop_last(), obsolete), groups.last())
    }
}

/// Collects the rotation chains of the admitted peers of one netmap.
pub struct RotationTracker {
    obsolete: KeySet,
    groups: Vec<WrappingGroup>,
}

impl SigRotation {
    closed spec fn view(&self) -> MemberView {
        MemberView { key: self.node_key@, depth: self.num_prev_keys as nat }
    }
}

spec fn member_views(members: Seq<SigRotation>) -> Seq<MemberView> {
    members.map_values(|m: SigRotation| m@)
}

impl WrappingGroup {
    closed spec fn view(&self) -> GroupView {
        GroupView { wrapping: self.wrapping_key@, members: member_views(self.members@) }
    }
}

impl View for RotationTracker {
    type V = TrackerView;

    closed spec fn view(&self) -> TrackerView {
        TrackerView {
            obsolete: self.obsolete@,
            groups: self.groups@.map_values(|g: WrappingGroup| g@),
        }
    }
}

proof fn add_is_wf(t: TrackerView, node_key: Seq<u8>, details: DetailsView)
    requires
        t.wf(),
    ensures
        t.add(node_key, details).wf(),
{
    let p = |i: int| t.groups[i].wrapping == details.wrapping;
    first_where_is_first(p, t.groups.len() as int);
    let after = t.add(node_key, details);
    assert forall|i: int, j: int| 0 <= i < j < after.groups.len() implies (
    #[trigger] after.groups[i]).wrapping != (#[trigger] after.groups[j]).wrapping by {
        match t.group_of(details.wrapping) {
            Some(k) => {
                assert(p(k));
                assert(t.groups[i].wrapping != t.groups[j].wrapping);
            },
            None => {
                if j < t.groups.len() {
                    assert(t.groups[i].wrapping != t.groups[j].wrapping);
                } else {
                    assert(!p(i));
                }
            },
        }
    }
}

impl RotationTracker {
    /// A tracker that was told nothing.
    pub fn new() -> (r: Self)
        ensures
            r@.obsolete == Set::<Seq<u8>>::empty(),
            r@.groups == Seq::<GroupView>::empty(),
            r@.wf(),
    {
        let r = RotationTracker { obsolete: KeySet::new(), groups: Vec::new() };
        assert(r@.groups =~= Seq::<GroupView>::empty());
        r
    }

    /// Records the admitted peer `node_key` and the chain that its signature carries.
    pub fn add(&mut self, node_key: Vec<u8>, details: &RotationDetails)
        requires
            old(self)@.wf(),
        ensures
            final(self)@ == old(self)@.add(node_key@, details@),
            final(self)@.wf(),
    {
        let ghost before = self@;
        proof {
            add_is_wf(before, node_key@, details@);
        }
        let n: usize = details.prev_node_keys.len();
        let mut i: usize = 0;
        while i < n
            invariant
                i <= n,
                n == details.prev_node_keys@.len(),
                self@.obsolete == before.obsolete.union(details@.prev.take(i as int).to_set()),
                self.groups@.map_values(|g: WrappingGroup| g@) == before.groups,
            decreases n - i,
        {
            let key: &Vec<u8> = &details.prev_node_keys[i];
            let ghost prev = details@.prev;
            assert(prev[i as int] == key@);
            self.obsolete.insert(key);
            proof {
                let a = prev.take(i as int);
                let b = prev.take(i + 1);
                assert(b =~= a.push(key@));
                assert forall|k: Seq<u8>| b.contains(k) == (a.contains(k) || k == key@) by {
                    if a.contains(k) {
                        let x = choose|x: int| 0 <= x < a.len() && a[x] == k;
                        assert(b[x] == k);
                    }
                    assert(b[i as int] == key@);
                    if b.contains(k) {
                        let x = choose|x: int| 0 <= x < b.len() && b[x] == k;
                        if x < i {
                            assert(a[x] == k);
                        }
                    }
                }
                assert(self@.obsolete =~= before.obsolete.union(b.to_set()));
            }
            i = i + 1;
        }
        assert(details@.prev.take(n as int) =~= details@.prev);
        if details.initial_sig_kind != SigKind::Direct {
            return;
        }
        let member = SigRotation { node_key, num_prev_keys: n };
        let ghost groups = before.groups;
        let ghost p = |i: int| groups[i].wrapping == details@.wrapping;
        let mut g: usize = 0;
        while g < self.groups.len()
            invariant
                g <= self.groups@.len(),
                self.groups@.len() == groups.len(),
                groups == self.groups@.map_values(|g: WrappingGroup| g@),
                p == (|i: int| groups[i].wrapping == details@.wrapping),
                forall|j: int| 0 <= j < g ==> !#[trigger] p(j),
                self@.obsolete == before.obsolete.union(details@.prev.to_set()),
                before.groups == groups,
                before == old(self)@,
                before.add(node_key@, details@).wf(),
                member@ == (MemberView { key: member@.key, depth: details@.prev.len() }),
                details@.kind is Direct,
                member.node_key@ == node_key@,
            decreases self.groups@.len() - g,
        {
            assert(groups[g as int] == self.groups@[g as int]@);
            if bytes_eq(&self.groups[g].wrapping_key, &details.initial_wrapping_pubkey) {
                assert(p(g as int));
                proof {
                    first_where_is(p, groups.len() as int, g as int);
                }
                let ghost old_members = self.groups@[g as int].members@;
                let ghost m = member@;
                self.groups[g].members.push(member);
                assert(member_views(self.groups@[g as int].members@) =~= member_views(
                    old_members,
                ).push(m));
                assert(self@.groups =~= before.add(node_key@, details@).groups);
                return;
            }
            g = g + 1;
        }
        proof {
            first_where_none(p, groups.len() as int);
        }
        let ghost m = member@;
        let mut members: Vec<SigRotation> = Vec::new();
        members.push(member);
        assert(member_views(members@) =~= seq![m]);
        let wrapping_key = details.initial_wrapping_pubkey.clone();
        self.groups.push(WrappingGroup { wrapping_key, members });
        assert(self@.groups =~= before.add(node_key@, details@).groups);
    }

    /// The keys to drop on top of what each peer's own signature says.
    ///
    /// The groups are settled in the order in which their wrapping keys first came; what one group
    /// makes obsolete is out of play in the ones after it.
    pub fn obsolete_keys(self) -> (r: KeySet)
        ensures
            r@ == settle(self@.groups, self@.obsolete),
    {
        let ghost all = self@.groups;
        let ghost start = self@.obsolete;
        let mut obsolete = self.obsolete;
        let groups = self.groups;
        let mut g: usize = 0;
        while g < groups.len()
            invariant
                g <= groups@.len(),
                all == groups@.map_values(|g: WrappingGroup| g@),
                obsolete@ == settle(all.take(g as int), start),
            decreases groups@.len() - g,
        {
            assert(all.take(g + 1).drop_last() =~= all.take(g as int));
            assert(all[g as int] == groups@[g as int]@);
            settle_one(&mut obsolete, &groups[g].members);
            assert(obsolete@ =~= settle(all.take(g + 1), start));
            g = g + 1;
        }
        assert(all.take(all.len() as int) =~= all);
        obsolete
    }
}

fn settle_one(obsolete: &mut KeySet, members: &Vec<SigRotation>)
    ensures
        forall|k: Seq<u8>|
            final(obsolete)@.contains(k) == (old(obsolete)@.contains(k) || loses(
                member_views(members@),
                old(obsolete)@,
                k,
            )),
{
    let ghost start = obsolete@;
    let ghost ms = member_views(members@);
    let n: usize = members.len();
    let mut in_play: Vec<bool> = Vec::new();
    let mut deepest: usize = 0;
    let mut any: bool = false;
    let mut alone: bool = true;
    let mut i: usize = 0;
    while i < n
        invariant
            i <= n,
            n == members@.len(),
            ms == member_views(members@),
            obsolete@ == start,
            in_play@.len() == i,
            forall|j: int| 0 <= j < i ==> in_play@[j] == live(ms, start, j),
            !any ==> forall|j: int| 0 <= j < i ==> !#[trigger] live(ms, start, j),
            any ==> deepest < i && live(ms, start, deepest as int),
            any ==> forall|j: int|
                0 <= j < i && #[trigger] live(ms, start, j) ==> ms[j].depth <= ms[deepest as int].depth,
            any && alone ==> forall|j: int|
                0 <= j < i && j != deepest && #[trigger] live(ms, start, j) ==> ms[j].depth
                    < ms[deepest as int].depth,
            any && !alone ==> exists|j: int|
                j != deepest && #[trigger] live(ms, start, j) && ms[j].depth
                    == ms[deepest as int].depth,
        decreases n - i,
    {
        assert(ms[i as int] == members@[i as int]@);
        let here = !obsolete.contains(&members[i].node_key);
        in_play.push(here);
        assert(here == live(ms, start, i as int));
        if here {
            if !any {
                any = true;
                deepest = i;
                alone = true;
            } else {
                assert(ms[deepest as int] == members@[deepest as int]@);
                if members[i].num_prev_keys > members[deepest].num_prev_keys {
                    deepest = i;
                    alone = true;
                } else if members[i].num_prev_keys == members[deepest].num_prev_keys {
                    alone = false;
                    assert(live(ms, start, i as int));
                }
            }
        }
        i = i + 1;
    }
    assert forall|j: int| #[trigger] live(ms, start, j) implies survives(ms, start, j) == (any
        && alone && j == deepest) by {
        assert(any);
        if j != deepest {
            assert(live(ms, start, deepest as int));
        } else if !alone {
            let o = choose|o: int|
                o != deepest && #[trigger] live(ms, start, o) && ms[o].depth
                    == ms[deepest as int].depth;
            assert(live(ms, start, o));
        }
    }
    let mut k: usize = 0;
    while k < n
        invariant
            k <= n,
            n == members@.len(),
            ms == member_views(members@),
            in_play@.len() == n,
            forall|j: int| 0 <= j < n ==> in_play@[j] == live(ms, start, j),
            forall|j: int| #[trigger]
                live(ms, start, j) ==> survives(ms, start, j) == (any && alone && j == deepest),
            forall|key: Seq<u8>|
                #![trigger obsolete@.contains(key)]
                obsolete@.contains(key) == (start.contains(key) || exists|j: int|
                    j < k && #[trigger] live(ms, start, j) && !survives(ms, start, j) && ms[j].key
                        == key),
        decreases n - k,
    {
        assert(ms[k as int] == members@[k as int]@);
        let ghost prior = obsolete@;
        if in_play[k] && !(any && alone && k == deepest) {
            assert(live(ms, start, k as int) && !survives(ms, start, k as int));
            obsolete.insert(&members[k].node_key);
        } else {
            assert(!(live(ms, start, k as int) && !survives(ms, start, k as int)));
        }
        assert forall|key: Seq<u8>|
            #![trigger obsolete@.contains(key)]
            obsolete@.contains(key) == (start.contains(key) || exists|j: int|
                j < k + 1 && #[trigger] live(ms, start, j) && !survives(ms, start, j) && ms[j].key
                    == key) by {
            assert(prior.contains(key) == (start.contains(key) || exists|j: int|
                j < k && #[trigger] live(ms, start, j) && !survives(ms, start, j) && ms[j].key
                    == key));
        }
        k = k + 1;
    }
    assert forall|key: Seq<u8>|
        obsolete@.contains(key) == (start.contains(key) || loses(ms, start, key)) by {
        if loses(ms, start, key) {
            let j = choose|j: int| #[trigger]
                live(ms, start, j) && !survives(ms, start, j) && ms[j].key == key;
            assert(j < n);
        }
    }
}

/// Whatever was obsolete stays obsolete.
pub proof fn obsolete_keys_only_grow(groups: Seq<GroupView>, obsolete: Set<Seq<u8>>)
    ensures
        obsolete.subset_of(settle(groups, obsolete)),
    decreases groups.len(),
{
    if groups.len() > 0 {
        obsolete_keys_only_grow(groups.drop_last(), obsolete);
    }
}

/// Every key that a recorded chain rotated away is obsolete, whatever its root.
pub proof fn rotated_keys_are_obsolete(
    t: TrackerView,
    node_key: Seq<u8>,
    details: DetailsView,
    key: Seq<u8>,
)
    requires
        details.prev.contains(key),
    ensures
        settle(t.add(node_key, details).groups, t.add(node_key, details).obsolete).contains(key),
{
    let after = t.add(node_key, details);
    obsolete_keys_only_grow(after.groups, after.obsolete);
    assert(details.prev.to_set().contains(key));
    assert(after.obsolete.contains(key));
}

/// A chain that is not rooted in a direct signature joins no group, so it makes no peer lose.
pub proof fn credential_chains_join_no_group(t: TrackerView, node_key: Seq<u8>, details: DetailsView)
    requires
        details.kind !is Direct,
    ensures
        t.add(node_key, details).groups == t.groups,
{
}

/// At most one member of a group outlives it: of any two, one is obsolete.
pub proof fn at_most_one_member_survives(
    groups: Seq<GroupView>,
    obsolete: Set<Seq<u8>>,
    g: int,
    i: int,
    j: int,
)
    requires
        0 <= g < groups.len(),
        0 <= i < j < groups[g].members.len(),
    ensures
        settle(groups, obsolete).contains(groups[g].members[i].key) || settle(
            groups,
            obsolete,
        ).contains(groups[g].members[j].key),
    decreases groups.len(),
{
    let n = groups.len() - 1;
    let short = groups.drop_last();
    if g < n {
        assert(short[g] == groups[g]);
        at_most_one_member_survives(short, obsolete, g, i, j);
    } else {
        let ob = settle(short, obsolete);
        let ms = groups[g].members;
        if live(ms, ob, i) && live(ms, ob, j) {
            if ms[i].depth <= ms[j].depth {
                assert(!survives(ms, ob, i));
                assert(loses(ms, ob, ms[i].key));
            } else {
                assert(!survives(ms, ob, j));
                assert(loses(ms, ob, ms[j].key));
            }
        }
    }
}

/// Whether no key is a member of two groups.
pub open spec fn keys_apart(groups: Seq<GroupView>) -> bool {
    forall|a: int, b: int, i: int, j: int|
        0 <= a < b < groups.len() && 0 <= i < groups[a].members.len() && 0 <= j
            < groups[b].members.len() ==> (#[trigger] groups[a].members[i]).key != (
        #[trigger] groups[b].members[j]).key
}

/// Where no key is in two groups, a key is obsolete exactly where it was rotated away, or lost in
/// its own group.
pub proof fn groups_settle_apart(groups: Seq<GroupView>, obsolete: Set<Seq<u8>>, key: Seq<u8>)
    requires
        keys_apart(groups),
    ensures
        settle(groups, obsolete).contains(key) <==> obsolete.contains(key) || exists|g: int|
            0 <= g < groups.len() && loses((#[trigger] groups[g]).members, obsolete, key),
    decreases groups.len(),
{
    if groups.len() > 0 {
        let n = groups.len() - 1;
        let short = groups.drop_last();
        assert(keys_apart(short)) by {
            assert forall|a: int, b: int, i: int, j: int|
                0 <= a < b < short.len() && 0 <= i < short[a].members.len() && 0 <= j
                    < short[b].members.len() implies (#[trigger] short[a].members[i]).key != (
            #[trigger] short[b].members[j]).key by {
                assert(groups[a].members[i].key != groups[b].members[j].key);
            }
        }
        let ob = settle(short, obsolete);
        let ms = groups[n].members;
        assert forall|i: int| 0 <= i < ms.len() implies live(ms, ob, i) == #[trigger] live(
            ms,
            obsolete,
            i,
        ) by {
            let k = ms[i].key;
            groups_settle_apart(short, obsolete, k);
            if ob.contains(k) && !obsolete.contains(k) {
                let g = choose|g: int|
                    0 <= g < short.len() && loses((#[trigger] short[g]).members, obsolete, k);
                let m = choose|m: int| #[trigger]
                    live(short[g].members, obsolete, m) && !survives(
                        short[g].members,
                        obsolete,
                        m,
                    ) && short[g].members[m].key == k;
                assert(groups[g].members[m].key != groups[n].members[i].key);
            }
        }
        assert forall|i: int| survives(ms, ob, i) == survives(ms, obsolete, i) by {
            if survives(ms, ob, i) {
                assert(live(ms, obsolete, i));
                assert forall|j: int| j != i && #[trigger] live(ms, obsolete, j) implies ms[j].depth
                    < ms[i].depth by {
                    assert(live(ms, ob, j));
                }
            }
            if survives(ms, obsolete, i) {
                assert(live(ms, ob, i));
                assert forall|j: int| j != i && #[trigger] live(ms, ob, j) implies ms[j].depth
                    < ms[i].depth by {
                    assert(live(ms, obsolete, j));
                }
            }
        }
        assert(loses(ms, ob, key) == loses(ms, obsolete, key)) by {
            if loses(ms, ob, key) {
                let i = choose|i: int| #[trigger]
                    live(ms, ob, i) && !survives(ms, ob, i) && ms[i].key == key;
                assert(live(ms, obsolete, i));
            }
            if loses(ms, obsolete, key) {
                let i = choose|i: int| #[trigger]
                    live(ms, obsolete, i) && !survives(ms, obsolete, i) && ms[i].key == key;
                assert(live(ms, ob, i));
            }
        }
        groups_settle_apart(short, obsolete, key);
        if settle(groups, obsolete).contains(key) && !obsolete.contains(key) {
            if ob.contains(key) {
                let g = choose|g: int|
                    0 <= g < short.len() && loses((#[trigger] short[g]).members, obsolete, key);
                assert(groups[g] == short[g]);
            } else {
                assert(loses(groups[n].members, obsolete, key));
            }
        }
        if exists|g: int|
            0 <= g < groups.len() && loses((#[trigger] groups[g]).members, obsolete, key) {
            let g = choose|g: int|
                0 <= g < groups.len() && loses((#[trigger] groups[g]).members, obsolete, key);
            if g < n {
                assert(short[g] == groups[g]);
            }
        }
    }
}

/// The order in which the groups are settled does not matter, where no key is in two of them.
pub proof fn settling_order_does_not_matter(
    groups: Seq<GroupView>,
    other: Seq<GroupView>,
    obsolete: Set<Seq<u8>>,
)
    requires
        keys_apart(groups),
        keys_apart(other),
        forall|g: GroupView| groups.contains(g) <==> other.contains(g),
    ensures
        settle(groups, obsolete) == settle(other, obsolete),
{
    assert forall|key: Seq<u8>| settle(groups, obsolete).contains(key) == settle(
        other,
        obsolete,
    ).contains(key) by {
        groups_settle_apart(groups, obsolete, key);
        groups_settle_apart(other, obsolete, key);
        if exists|g: int|
            0 <= g < groups.len() && loses((#[trigger] groups[g]).members, obsolete, key) {
            let g = choose|g: int|
                0 <= g < groups.len() && loses((#[trigger] groups[g]).members, obsolete, key);
            assert(groups.contains(groups[g]));
            let h = choose|h: int| 0 <= h < other.len() && other[h] == groups[g];
            assert(loses(other[h].members, obsolete, key));
        }
        if exists|g: int|
            0 <= g < other.len() && loses((#[trigger] other[g]).members, obsolete, key) {
            let g = choose|g: int|
                0 <= g < other.len() && loses((#[trigger] other[g]).members, obsolete, key);
            assert(other.contains(other[g]));
            let h = choose|h: int| 0 <= h < groups.len() && groups[h] == other[g];
            assert(loses(groups[h].members, obsolete, key));
        }
    }
    assert(settle(groups, obsolete) =~= settle(other, obsolete));
}

/// What a tracker has been told after `chains`, each the key of a peer and its chain, in turn.
pub open spec fn told(chains: Seq<(Seq<u8>, DetailsView)>) -> TrackerView
    decreases chains.len(),
{
    if chains.len() == 0 {
        TrackerView { obsolete: Set::empty(), groups: Seq::empty() }
    } else {
        told(chains.drop_last()).add(chains.last().0, chains.last().1)
    }
}

/// The obsolete keys once a tracker has been told `chains`.
pub open spec fn obsolete_after(chains: Seq<(Seq<u8>, DetailsView)>) -> Set<Seq<u8>> {
    settle(told(chains).groups, told(chains).obsolete)
}

/// Every key that any of the chains has rotated away is obsolete, whatever else was told.
pub proof fn every_rotated_key_is_obsolete(
    chains: Seq<(Seq<u8>, DetailsView)>,
    i: int,
    key: Seq<u8>,
)
    requires
        0 <= i < chains.len(),
        chains[i].1.prev.contains(key),
    ensures
        obsolete_after(chains).contains(key),
{
    rotated_keys_are_told(chains, i, key);
    obsolete_keys_only_grow(told(chains).groups, told(chains).obsolete);
}

proof fn rotated_keys_are_told(chains: Seq<(Seq<u8>, DetailsView)>, i: int, key: Seq<u8>)
    requires
        0 <= i < chains.len(),
        chains[i].1.prev.contains(key),
    ensures
        told(chains).obsolete.contains(key),
    decreases chains.len(),
{
    if i < chains.len() - 1 {
        assert(chains.drop_last()[i] == chains[i]);
        rotated_keys_are_told(chains.drop_last(), i, key);
    } else {
        assert(chains[i].1.prev.to_set().contains(key));
    }
}

/// Where the peer of chain `i`, which is a direct one, stands: its group, and its place there.
proof fn place_of(chains: Seq<(Seq<u8>, DetailsView)>, i: int) -> (at: (int, int))
    requires
        0 <= i < chains.len(),
        chains[i].1.kind is Direct,
    ensures
        told(chains).wf(),
        0 <= at.0 < told(chains).groups.len(),
        told(chains).groups[at.0].wrapping == chains[i].1.wrapping,
        0 <= at.1 < told(chains).groups[at.0].members.len(),
        told(chains).groups[at.0].members[at.1].key == chains[i].0,
        i == chains.len() - 1 ==> at.1 == told(chains).groups[at.0].members.len() - 1,
        i < chains.len() - 1 && chains.last().1.kind is Direct && chains.last().1.wrapping
            == chains[i].1.wrapping ==> at.1 < told(chains).groups[at.0].members.len() - 1,
    decreases chains.len(),
{
    told_is_wf(chains);
    let short = chains.drop_last();
    let before = told(short);
    let last = chains.last();
    let p = |g: int| before.groups[g].wrapping == last.1.wrapping;
    first_where_is_first(p, before.groups.len() as int);
    if i < chains.len() - 1 {
        assert(short[i] == chains[i]);
        let at = place_of(short, i);
        if last.1.kind is Direct && last.1.wrapping == chains[i].1.wrapping {
            assert(p(at.0));
            let g = before.group_of(last.1.wrapping)->0;
            assert(p(g));
            if g < at.0 {
                assert(before.groups[g].wrapping != before.groups[at.0].wrapping);
            }
        } else if last.1.kind is Direct {
            match before.group_of(last.1.wrapping) {
                Some(g) => {
                    assert(p(g));
                },
                None => {},
            }
        }
        at
    } else {
        match before.group_of(last.1.wrapping) {
            Some(g) => (g, before.groups[g].members.len() as int),
            None => (before.groups.len() as int, 0int),
        }
    }
}

proof fn told_is_wf(chains: Seq<(Seq<u8>, DetailsView)>)
    ensures
        told(chains).wf(),
    decreases chains.len(),
{
    if chains.len() > 0 {
        told_is_wf(chains.drop_last());
        add_is_wf(told(chains.drop_last()), chains.last().0, chains.last().1);
    }
}

proof fn clones_share_a_group(chains: Seq<(Seq<u8>, DetailsView)>, i: int, j: int) -> (at: (
    int,
    int,
    int,
))
    requires
        0 <= i < j < chains.len(),
        chains[i].1.kind is Direct,
        chains[j].1.kind is Direct,
        chains[i].1.wrapping == chains[j].1.wrapping,
    ensures
        0 <= at.0 < told(chains).groups.len(),
        told(chains).groups[at.0].wrapping == chains[i].1.wrapping,
        0 <= at.1 < at.2 < told(chains).groups[at.0].members.len(),
        told(chains).groups[at.0].members[at.1].key == chains[i].0,
        told(chains).groups[at.0].members[at.2].key == chains[j].0,
    decreases chains.len(),
{
    let short = chains.drop_last();
    let before = told(short);
    let last = chains.last();
    let p = |g: int| before.groups[g].wrapping == last.1.wrapping;
    first_where_is_first(p, before.groups.len() as int);
    if j < chains.len() - 1 {
        assert(short[i] == chains[i] && short[j] == chains[j]);
        let at = clones_share_a_group(short, i, j);
        if last.1.kind is Direct {
            match before.group_of(last.1.wrapping) {
                Some(g) => {
                    assert(p(g));
                },
                None => {},
            }
        }
        at
    } else {
        let a = place_of(chains, i);
        let b = place_of(chains, j);
        if a.0 < b.0 {
            assert(told(chains).groups[a.0].wrapping != told(chains).groups[b.0].wrapping);
        } else if b.0 < a.0 {
            assert(told(chains).groups[b.0].wrapping != told(chains).groups[a.0].wrapping);
        }
        (a.0, a.1, b.1)
    }
}

/// Of two peers whose direct chains share a wrapping key, at most one has a key that is not
/// obsolete, whatever else was told and in whatever order.
pub proof fn clones_do_not_both_survive(chains: Seq<(Seq<u8>, DetailsView)>, i: int, j: int)
    requires
        0 <= i < j < chains.len(),
        chains[i].1.kind is Direct,
        chains[j].1.kind is Direct,
        chains[i].1.wrapping == chains[j].1.wrapping,
    ensures
        obsolete_after(chains).contains(chains[i].0) || obsolete_after(chains).contains(
            chains[j].0,
        ),
{
    let at = clones_share_a_group(chains, i, j);
    at_most_one_member_survives(told(chains).groups, told(chains).obsolete, at.0, at.1, at.2);
}

} // verus!
