//! The disco keys of one peer.
//!
//! A peer's disco key comes from two sources. Control sends one with the node; and the peer itself
//! advertises one inside the tunnel, which covers the time until control has caught up. Both are
//! kept side by side, and one of them is active: the one that frames to the peer are sealed to.

use vstd::prelude::*;

use crate::node::{DiscoKey, NodeKey};
use crate::search::{first_where, first_where_is, first_where_is_first, first_where_none};

verus! {

/// Whether `key` is the all-zero key, which stands for "no key".
pub fn disco_key_is_zero(key: &DiscoKey) -> (r: bool)
    ensures
        r == key.zero(),
{
    key.hi == 0 && key.lo == 0
}

/// A key as control means it: the zero key is no key.
pub open spec fn meant(key: Option<DiscoKey>) -> Option<DiscoKey> {
    match key {
        Some(k) if k.zero() => None,
        _ => key,
    }
}

/// Reads a disco key that control sent.
pub fn disco_key_from_control(key: Option<DiscoKey>) -> (r: Option<DiscoKey>)
    ensures
        r == meant(key),
{
    match key {
        Some(k) => if disco_key_is_zero(&k) {
            None
        } else {
            Some(k)
        },
        None => None,
    }
}

/// The two disco keys that a peer can present, and which of them is active.
#[derive(Clone, Copy, Debug, PartialEq, Eq, Structural)]
pub struct EndpointDisco {
    /// The key that control sent.
    pub control: Option<DiscoKey>,
    /// The key that the peer advertised itself.
    pub tsmp: Option<DiscoKey>,
    /// Whether the advertised key is the active one.
    pub tsmp_active: bool,
}

impl EndpointDisco {
    /// No key from either source.
    pub open spec fn empty() -> EndpointDisco {
        EndpointDisco { control: None, tsmp: None, tsmp_active: false }
    }

    /// The active key.
    pub open spec fn active(self) -> Option<DiscoKey> {
        if self.tsmp_active {
            self.tsmp
        } else {
            self.control
        }
    }

    /// The key in the other slot, where it is another key.
    pub open spec fn other(self) -> Option<DiscoKey> {
        let k = if self.tsmp_active {
            self.control
        } else {
            self.tsmp
        };
        if k == self.active() {
            None
        } else {
            k
        }
    }

    /// After control sent `key`.
    pub open spec fn after_control(self, key: Option<DiscoKey>) -> EndpointDisco {
        EndpointDisco {
            control: key,
            tsmp: self.tsmp,
            tsmp_active: self.tsmp_active || key is None,
        }
    }

    /// After the peer advertised `key`.
    pub open spec fn after_tsmp(self, key: Option<DiscoKey>) -> EndpointDisco {
        EndpointDisco { control: self.control, tsmp: key, tsmp_active: key is Some }
    }

    /// Whether either slot holds a key.
    pub open spec fn has_key(self) -> bool {
        self.control is Some || self.tsmp is Some
    }

    /// Whether `key` is in either slot.
    pub open spec fn holds(self, key: DiscoKey) -> bool {
        self.control == Some(key) || self.tsmp == Some(key)
    }

    /// With the slot of `key` active; control's where both hold it.
    pub open spec fn switched(self, key: DiscoKey) -> EndpointDisco {
        EndpointDisco { tsmp_active: self.control != Some(key), ..self }
    }

    /// No key from either source.
    pub fn new() -> (r: Self)
        ensures
            r == EndpointDisco::empty(),
    {
        EndpointDisco { control: None, tsmp: None, tsmp_active: false }
    }

    /// The active key.
    pub fn key(&self) -> (r: Option<DiscoKey>)
        ensures
            r == self.active(),
    {
        if self.tsmp_active {
            self.tsmp
        } else {
            self.control
        }
    }

    /// The key that control sent, active or not.
    pub fn key_from_control(&self) -> (r: Option<DiscoKey>)
        ensures
            r == self.control,
    {
        self.control
    }

    /// The key that the peer advertised, active or not.
    pub fn key_from_tsmp(&self) -> (r: Option<DiscoKey>)
        ensures
            r == self.tsmp,
    {
        self.tsmp
    }

    /// Records what control says now.
    ///
    /// Control's key always goes into control's slot, but it takes the active slot only where no
    /// advertised key holds it: what a peer says of itself is better evidence than the slower of
    /// the two sources. Where control has no key any more, the advertised one becomes active.
    pub fn update_from_control(&mut self, key: Option<DiscoKey>)
        ensures
            *final(self) == old(self).after_control(key),
    {
        self.control = key;
        self.tsmp_active = self.tsmp_active || key.is_none();
    }

    /// Records what the peer says now.
    pub fn update_from_tsmp(&mut self, key: Option<DiscoKey>)
        ensures
            *final(self) == old(self).after_tsmp(key),
    {
        self.tsmp = key;
        self.tsmp_active = key.is_some();
    }

    /// The peer's other known key: that of the inactive slot, where it differs from the active
    /// one.
    pub fn inactive_key(&self) -> (r: Option<DiscoKey>)
        ensures
            r == self.other(),
    {
        let inactive = if self.tsmp_active {
            self.control
        } else {
            self.tsmp
        };
        if inactive == self.key() {
            None
        } else {
            inactive
        }
    }

    /// Accepts `key`, under which a frame from the peer was opened, and makes it active.
    ///
    /// `None` refuses a key that is in neither slot, and changes nothing: a peer cannot move
    /// itself onto a key that nobody announced. `Some` says whether the active key moved.
    pub fn check_and_update(&mut self, key: DiscoKey) -> (r: Option<bool>)
        ensures
            r is None <==> !old(self).holds(key) && old(self).active() != Some(key),
            r is None ==> *final(self) == *old(self),
            r == Some(false) <==> old(self).active() == Some(key),
            r == Some(false) ==> *final(self) == *old(self),
            r is Some ==> final(self).active() == Some(key),
            r == Some(true) ==> *final(self) == old(self).switched(key),
            final(self).control == old(self).control,
            final(self).tsmp == old(self).tsmp,
    {
        if self.key() == Some(key) {
            return Some(false);
        }
        if self.control == Some(key) {
            self.tsmp_active = false;
            return Some(true);
        }
        if self.tsmp == Some(key) {
            self.tsmp_active = true;
            return Some(true);
        }
        None
    }

    /// Whether neither source has given a key.
    pub fn is_empty(&self) -> (r: bool)
        ensures
            r == !self.has_key(),
    {
        self.control.is_none() && self.tsmp.is_none()
    }
}

/// Control changing its mind never takes the active slot from a key that the peer advertised.
pub proof fn control_does_not_preempt_an_advertised_key(
    disco: EndpointDisco,
    key: Option<DiscoKey>,
)
    requires
        disco.tsmp_active,
    ensures
        disco.after_control(key).active() == disco.active(),
        disco.after_control(key).control == key,
{
}

/// What the peer advertised last is active, and survives control dropping its own key.
pub proof fn an_advertised_key_is_active(
    disco: EndpointDisco,
    key: DiscoKey,
    later: Option<DiscoKey>,
)
    ensures
        disco.after_tsmp(Some(key)).active() == Some(key),
        disco.after_tsmp(Some(key)).after_control(later).active() == Some(key),
{
}

/// The other key is never the active one, and both are in the slots.
pub proof fn the_other_key_differs(disco: EndpointDisco)
    ensures
        disco.other() is Some ==> disco.other() != disco.active() && disco.holds(disco.other()->0),
        disco.active() is Some ==> disco.holds(disco.active()->0),
{
}

/// The disco keys of every peer, by node key.
pub struct DiscoTable {
    rows: Vec<(NodeKey, EndpointDisco)>,
}

spec fn at_key(rows: Seq<(NodeKey, EndpointDisco)>, key: NodeKey) -> spec_fn(int) -> bool {
    |i: int| rows[i].0 == key
}

spec fn row_of(rows: Seq<(NodeKey, EndpointDisco)>, key: NodeKey) -> Option<int> {
    first_where(at_key(rows, key), rows.len() as int)
}

spec fn table(rows: Seq<(NodeKey, EndpointDisco)>) -> Map<NodeKey, EndpointDisco> {
    Map::new(|k: NodeKey| row_of(rows, k) is Some, |k: NodeKey| rows[row_of(rows, k)->0].1)
}

spec fn distinct(rows: Seq<(NodeKey, EndpointDisco)>) -> bool {
    forall|i: int, j: int| 0 <= i < j < rows.len() ==> (#[trigger] rows[i]).0 != (#[trigger] rows[j]).0
}

proof fn row_lookup(rows: Seq<(NodeKey, EndpointDisco)>, key: NodeKey)
    ensures
        match row_of(rows, key) {
            Some(i) => 0 <= i < rows.len() && rows[i].0 == key,
            None => forall|i: int| 0 <= i < rows.len() ==> (#[trigger] rows[i]).0 != key,
        },
{
    let p = at_key(rows, key);
    first_where_is_first(p, rows.len() as int);
    if row_of(rows, key) is None {
        assert forall|i: int| 0 <= i < rows.len() implies (#[trigger] rows[i]).0 != key by {
            assert(!p(i));
        }
    }
}

proof fn row_is(rows: Seq<(NodeKey, EndpointDisco)>, i: int)
    requires
        distinct(rows),
        0 <= i < rows.len(),
    ensures
        row_of(rows, rows[i].0) == Some(i),
{
    let p = at_key(rows, rows[i].0);
    assert forall|j: int| 0 <= j < i implies !#[trigger] p(j) by {
        assert(rows[j].0 != rows[i].0);
    }
    first_where_is(p, rows.len() as int, i);
}

proof fn rows_are_counted(rows: Seq<(NodeKey, EndpointDisco)>)
    requires
        distinct(rows),
    ensures
        table(rows).dom().finite(),
        table(rows).dom().len() == rows.len(),
{
    let keys = rows.map_values(|row: (NodeKey, EndpointDisco)| row.0);
    keys.unique_seq_to_set();
    assert forall|k: NodeKey| table(rows).dom().contains(k) == keys.to_set().contains(k) by {
        row_lookup(rows, k);
        if table(rows).dom().contains(k) {
            assert(keys[row_of(rows, k)->0] == k);
        }
        if keys.contains(k) {
            let i = choose|i: int| 0 <= i < keys.len() && keys[i] == k;
            assert(rows[i].0 == k);
        }
    }
    assert(table(rows).dom() =~= keys.to_set());
}

impl View for DiscoTable {
    type V = Map<NodeKey, EndpointDisco>;

    closed spec fn view(&self) -> Map<NodeKey, EndpointDisco> {
        table(self.rows@)
    }
}

impl DiscoTable {
    /// Every node key has at most one row.
    pub closed spec fn wf(&self) -> bool {
        distinct(self.rows@)
    }

    /// A table without rows.
    pub fn new() -> (r: Self)
        ensures
            r.wf(),
            r@ == Map::<NodeKey, EndpointDisco>::empty(),
    {
        let r = DiscoTable { rows: Vec::new() };
        assert(r@ =~= Map::<NodeKey, EndpointDisco>::empty());
        r
    }

    /// A valid table is finite.
    pub proof fn rows_are_finite(&self)
        requires
            self.wf(),
        ensures
            self@.dom().finite(),
    {
        rows_are_counted(self.rows@);
    }

    /// How many peers have disco keys.
    pub fn len(&self) -> (r: usize)
        requires
            self.wf(),
        ensures
            r == self@.dom().len(),
            self@.dom().finite(),
    {
        proof {
            rows_are_counted(self.rows@);
        }
        self.rows.len()
    }

    fn position(&self, key: NodeKey) -> (r: Option<usize>)
        ensures
            match r {
                Some(i) => i < self.rows@.len() && row_of(self.rows@, key) == Some(i as int),
                None => row_of(self.rows@, key) is None,
            },
    {
        let ghost rows = self.rows@;
        let ghost p = at_key(rows, key);
        let mut i: usize = 0;
        while i < self.rows.len()
            invariant
                i <= self.rows@.len(),
                rows == self.rows@,
                p == at_key(rows, key),
                forall|j: int| 0 <= j < i ==> !#[trigger] p(j),
            decreases self.rows@.len() - i,
        {
            if self.rows[i].0 == key {
                assert(p(i as int));
                proof {
                    first_where_is(p, rows.len() as int, i as int);
                }
                return Some(i);
            }
            i = i + 1;
        }
        proof {
            first_where_none(p, rows.len() as int);
        }
        None
    }

    /// The disco keys of the peer with the node key `key`.
    pub fn get(&self, key: NodeKey) -> (r: Option<EndpointDisco>)
        ensures
            match r {
                Some(disco) => self@.dom().contains(key) && self@[key] == disco,
                None => !self@.dom().contains(key),
            },
    {
        match self.position(key) {
            Some(i) => Some(self.rows[i].1),
            None => None,
        }
    }

    /// Stores the disco keys of the peer with the node key `key`.
    pub fn set(&mut self, key: NodeKey, disco: EndpointDisco)
        requires
            old(self).wf(),
        ensures
            final(self).wf(),
            final(self)@ == old(self)@.insert(key, disco),
    {
        let ghost before = self.rows@;
        match self.position(key) {
            Some(i) => {
                proof {
                    row_lookup(before, key);
                }
                self.rows[i] = (key, disco);
                assert(self.rows@ =~= before.update(i as int, (key, disco)));
                assert(distinct(self.rows@)) by {
                    assert forall|a: int, b: int| 0 <= a < b < self.rows@.len() implies (
                    #[trigger] self.rows@[a]).0 != (#[trigger] self.rows@[b]).0 by {
                        assert(before[a].0 != before[b].0);
                    }
                }
            },
            None => {
                proof {
                    row_lookup(before, key);
                }
                self.rows.push((key, disco));
                assert(distinct(self.rows@)) by {
                    assert forall|a: int, b: int| 0 <= a < b < self.rows@.len() implies (
                    #[trigger] self.rows@[a]).0 != (#[trigger] self.rows@[b]).0 by {
                        if b < before.len() {
                            assert(before[a].0 != before[b].0);
                        }
                    }
                }
            },
        }
        proof {
            let after = self.rows@;
            let m = table(after);
            let want = table(before).insert(key, disco);
            assert forall|k: NodeKey|
                #![trigger m.dom().contains(k)]
                m.dom().contains(k) == want.dom().contains(k) && (m.dom().contains(k) ==> m[k]
                    == want[k]) by {
                row_lookup(before, k);
                row_lookup(after, k);
                if k == key {
                    let at = match row_of(before, key) {
                        Some(i) => i,
                        None => before.len() as int,
                    };
                    assert(after[at] == (key, disco));
                    row_is(after, at);
                } else {
                    match row_of(before, k) {
                        Some(i) => {
                            assert(after[i] == before[i]);
                            row_is(after, i);
                        },
                        None => {
                            match row_of(after, k) {
                                Some(i) => {
                                    if i < before.len() {
                                        assert(after[i].0 == before[i].0);
                                    }
                                },
                                None => {},
                            }
                        },
                    }
                }
            }
            assert(m.dom() =~= want.dom());
            assert(m =~= want);
        }
    }

    /// Keeps the rows whose flag in `keep` is set.
    fn retain(&mut self, keep: &Vec<bool>)
        requires
            old(self).wf(),
            keep@.len() == old(self).rows@.len(),
        ensures
            final(self).wf(),
            forall|k: NodeKey|
                #![trigger final(self)@.dom().contains(k)]
                final(self)@.dom().contains(k) <==> old(self)@.dom().contains(k) && keep@[row_of(
                    old(self).rows@,
                    k,
                )->0],
            forall|k: NodeKey| #[trigger]
                final(self)@.dom().contains(k) ==> final(self)@[k] == old(self)@[k],
    {
        let ghost before = self.rows@;
        let mut rows: Vec<(NodeKey, EndpointDisco)> = Vec::new();
        let ghost mut from: Seq<int> = Seq::empty();
        let n: usize = self.rows.len();
        let mut i: usize = 0;
        while i < n
            invariant
                i <= n,
                n == self.rows@.len(),
                self.rows@ == before,
                keep@.len() == n,
                rows@.len() == from.len(),
                forall|a: int|
                    0 <= a < from.len() ==> 0 <= (#[trigger] from[a]) < i && keep@[from[a]] && rows@[a]
                        == before[from[a]],
                forall|a: int, b: int|
                    0 <= a < b < from.len() ==> (#[trigger] from[a]) < (#[trigger] from[b]),
                forall|r: int| 0 <= r < i && keep@[r] ==> #[trigger] from.contains(r),
            decreases n - i,
        {
            if keep[i] {
                let ghost old_from = from;
                rows.push(self.rows[i]);
                proof {
                    from = from.push(i as int);
                    assert forall|r: int| 0 <= r < i + 1 && keep@[r] implies #[trigger] from.contains(
                        r,
                    ) by {
                        if r < i {
                            assert(old_from.contains(r));
                            let a = choose|a: int| 0 <= a < old_from.len() && old_from[a] == r;
                            assert(from[a] == r);
                        } else {
                            assert(from[old_from.len() as int] == r);
                        }
                    }
                }
            }
            i = i + 1;
        }
        self.rows = rows;
        proof {
            let after = self.rows@;
            assert(distinct(after)) by {
                assert forall|a: int, b: int| 0 <= a < b < after.len() implies (
                #[trigger] after[a]).0 != (#[trigger] after[b]).0 by {
                    assert(from[a] < from[b]);
                    assert(before[from[a]].0 != before[from[b]].0);
                }
            }
            assert forall|k: NodeKey|
                #![trigger self@.dom().contains(k)]
                (self@.dom().contains(k) <==> table(before).dom().contains(k) && keep@[row_of(
                    before,
                    k,
                )->0]) && (self@.dom().contains(k) ==> self@[k] == table(before)[k]) by {
                row_lookup(before, k);
                row_lookup(after, k);
                match row_of(after, k) {
                    Some(a) => {
                        assert(after[a] == before[from[a]]);
                        row_is(before, from[a]);
                    },
                    None => {
                        match row_of(before, k) {
                            Some(r) => {
                                if keep@[r] {
                                    assert(from.contains(r));
                                    let a = choose|a: int| 0 <= a < from.len() && from[a] == r;
                                    assert(after[a] == before[r]);
                                }
                            },
                            None => {},
                        }
                    },
                }
            }
        }
    }

    /// Drops the row of `key`.
    pub fn remove(&mut self, key: NodeKey)
        requires
            old(self).wf(),
        ensures
            final(self).wf(),
            final(self)@ == old(self)@.remove(key),
    {
        let ghost before = self.rows@;
        let mut keep: Vec<bool> = Vec::new();
        let mut i: usize = 0;
        while i < self.rows.len()
            invariant
                i <= self.rows@.len(),
                self.rows@ == before,
                keep@.len() == i,
                forall|j: int| 0 <= j < i ==> keep@[j] == (before[j].0 != key),
            decreases self.rows@.len() - i,
        {
            keep.push(self.rows[i].0 != key);
            i = i + 1;
        }
        self.retain(&keep);
        proof {
            assert forall|k: NodeKey|
                self@.dom().contains(k) == table(before).remove(key).dom().contains(k) by {
                row_lookup(before, k);
            }
            assert(self@ =~= table(before).remove(key));
        }
    }

    /// Drops the rows of the node keys that are not in `present`.
    pub fn retain_keys(&mut self, present: &Vec<NodeKey>)
        requires
            old(self).wf(),
        ensures
            final(self).wf(),
            final(self)@ == old(self)@.restrict(present@.to_set()),
    {
        let ghost before = self.rows@;
        let mut keep: Vec<bool> = Vec::new();
        let mut i: usize = 0;
        while i < self.rows.len()
            invariant
                i <= self.rows@.len(),
                self.rows@ == before,
                keep@.len() == i,
                forall|j: int| 0 <= j < i ==> keep@[j] == present@.contains(before[j].0),
            decreases self.rows@.len() - i,
        {
            let here = holds_key(present, self.rows[i].0);
            keep.push(here);
            i = i + 1;
        }
        self.retain(&keep);
        proof {
            let want = table(before).restrict(present@.to_set());
            assert forall|k: NodeKey| self@.dom().contains(k) == want.dom().contains(k) by {
                row_lookup(before, k);
            }
            assert(self@ =~= want);
        }
    }
}

fn holds_key(keys: &Vec<NodeKey>, key: NodeKey) -> (r: bool)
    ensures
        r == keys@.contains(key),
{
    let mut i: usize = 0;
    while i < keys.len()
        invariant
            i <= keys@.len(),
            forall|j: int| 0 <= j < i ==> keys@[j] != key,
        decreases keys@.len() - i,
    {
        if keys[i] == key {
            return true;
        }
        i = i + 1;
    }
    false
}

} // verus!
