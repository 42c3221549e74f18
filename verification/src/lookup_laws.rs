//! What the lookups of peers owe: by number, key, name and address, and by route.

use vstd::arithmetic::div_mod::lemma_div_denominator;
use vstd::arithmetic::power2::{lemma2_to64, lemma_pow2_pos, lemma_pow2_unfold, pow2};
use vstd::prelude::*;

use crate::addr::{IpAddr, IpPrefix, Ipv4Addr, SocketAddr};
use crate::dns_laws::answers_to;
use crate::node::{canonical, DiscoKey, NodeView, PeerId, UserId};
use crate::peer_db::{
    at_reach, best_reach, covers, flagged, halved, reach, route_len, routed, the_most_specific_route_wins, DbView,
    DiscoKeyMatch, EntryView, KeyView,
};
use crate::peer_tracker::{
    answered, asked, reply_views, serviced, stored_nodes, with_profiles, DeskView, ProfileView, Reply,
    ReplyView, RequestView,
};
use crate::search::{first_where_is, first_where_is_first, first_where_none};

verus! {

/// Whether `entry` is one that `key` asks for.
pub open spec fn is_meant(key: KeyView, entry: EntryView) -> bool {
    match key {
        KeyView::Id(id) => entry.id == id,
        KeyView::NodeId(id) => entry.node.id == id,
        KeyView::NodeKey(k) => entry.node.node_key == k,
        KeyView::StableId(id) => entry.node.stable_id == id,
        KeyView::Name(name) => answers_to(entry.node, name),
        KeyView::Ip(ip) => ip == IpAddr::V4(entry.node.ipv4) || ip == IpAddr::V6(entry.node.ipv6),
        KeyView::Disco(k) => entry.node.disco_key == Some(k),
    }
}

/// A lookup finds the first peer that is meant.
pub proof fn the_first_one_meant_is_found(db: DbView, key: KeyView, i: int)
    requires
        0 <= i < db.entries.len(),
        is_meant(key, db.entries[i]),
        forall|j: int| 0 <= j < i ==> !is_meant(key, #[trigger] db.entries[j]),
    ensures
        db.find(key) == Some(db.entries[i]),
{
    let p = |i: int| key.selects(db.entries[i]);
    assert(p(i));
    assert forall|j: int| 0 <= j < i implies !#[trigger] p(j) by {
        assert(!is_meant(key, db.entries[j]));
    }
    first_where_is(p, db.entries.len() as int, i);
}

/// A lookup finds nobody where nobody is meant.
pub proof fn nobody_is_found_where_nobody_is_meant(db: DbView, key: KeyView)
    requires
        forall|j: int| 0 <= j < db.entries.len() ==> !is_meant(key, #[trigger] db.entries[j]),
    ensures
        db.find(key) is None,
{
    let p = |i: int| key.selects(db.entries[i]);
    assert forall|j: int| 0 <= j < db.entries.len() implies !#[trigger] p(j) by {
        assert(!is_meant(key, db.entries[j]));
    }
    first_where_none(p, db.entries.len() as int);
}

/// Of the peers that a disco key may stand for, the first that is reached under it comes before the
/// first that is merely known by it.
pub proof fn a_key_in_use_comes_first(db: DbView, key: DiscoKey, i: int)
    requires
        0 <= i < db.entries.len(),
    ensures
        db.entries[i].node.disco_key == Some(key) && (forall|j: int|
            0 <= j < i ==> (#[trigger] db.entries[j]).node.disco_key != Some(key)) ==> db.known_by(
            key,
        ) == Some((db.entries[i], DiscoKeyMatch::Active)),
        db.entries[i].inactive_disco_key == Some(key) && (forall|j: int|
            0 <= j < i ==> (#[trigger] db.entries[j]).inactive_disco_key != Some(key)) && (forall|
            j: int,
        |
            0 <= j < db.entries.len() ==> (#[trigger] db.entries[j]).node.disco_key != Some(key))
            ==> db.known_by(key) == Some((db.entries[i], DiscoKeyMatch::Inactive)),
{
    if db.entries[i].node.disco_key == Some(key) && (forall|j: int|
        0 <= j < i ==> (#[trigger] db.entries[j]).node.disco_key != Some(key)) {
        the_first_one_meant_is_found(db, KeyView::Disco(key), i);
    }
    if db.entries[i].inactive_disco_key == Some(key) && (forall|j: int|
        0 <= j < i ==> (#[trigger] db.entries[j]).inactive_disco_key != Some(key)) && (forall|j: int|
        0 <= j < db.entries.len() ==> (#[trigger] db.entries[j]).node.disco_key != Some(key)) {
        nobody_is_found_where_nobody_is_meant(db, KeyView::Disco(key));
        let p = |i: int| db.entries[i].inactive_disco_key == Some(key);
        assert(p(i));
        first_where_is(p, db.entries.len() as int, i);
    }
}

/// A key that no peer is reached under or known by is nobody's.
pub proof fn a_stray_key_is_nobodys(db: DbView, key: DiscoKey)
    requires
        forall|j: int|
            0 <= j < db.entries.len() ==> (#[trigger] db.entries[j]).node.disco_key != Some(key)
                && db.entries[j].inactive_disco_key != Some(key),
    ensures
        db.known_by(key) is None,
{
    nobody_is_found_where_nobody_is_meant(db, KeyView::Disco(key));
    let p = |i: int| db.entries[i].inactive_disco_key == Some(key);
    first_where_none(p, db.entries.len() as int);
}

/// Whether two characters are the same but for the case of an ASCII letter.
pub open spec fn same_letter(c: char, d: char) -> bool {
    ||| c == d
    ||| 'A' <= c && c <= 'Z' && d as u32 == c as u32 + 32
    ||| 'A' <= d && d <= 'Z' && c as u32 == d as u32 + 32
}

/// Names are the same name exactly where they are the same but for the case of ASCII letters; a
/// trailing dot makes no difference.
pub proof fn case_does_not_matter(a: Seq<char>, b: Seq<char>)
    requires
        a.len() > 0 ==> a.last() != '.',
        b.len() > 0 ==> b.last() != '.',
    ensures
        canonical(a) == canonical(b) <==> a.len() == b.len() && forall|i: int|
            0 <= i < a.len() ==> same_letter(#[trigger] a[i], b[i]),
        canonical(a.push('.')) == canonical(a),
{
    let x = canonical(a);
    let y = canonical(b);
    if x == y {
        assert(x.len() == a.len() && y.len() == b.len());
        assert forall|i: int| 0 <= i < a.len() implies same_letter(#[trigger] a[i], b[i]) by {
            assert(x[i] == y[i]);
        }
    }
    if a.len() == b.len() && forall|i: int|
        0 <= i < a.len() ==> same_letter(#[trigger] a[i], b[i]) {
        assert forall|i: int| 0 <= i < a.len() implies x[i] == y[i] by {
            assert(same_letter(a[i], b[i]));
        }
        assert(x =~= y);
    }
    assert(a.push('.').drop_last() =~= a);
}

/// An IPv4 address as a number.
pub open spec fn as_number(ip: Ipv4Addr) -> nat {
    (ip.a * pow2(24) + ip.b * pow2(16) + ip.c * pow2(8) + ip.d) as nat
}

/// Whether `prefix` holds `ip`: both are of one family, and agree in the bits that the prefix
/// fixes.
pub open spec fn is_in(ip: IpAddr, prefix: IpPrefix) -> bool {
    match (prefix.addr, ip) {
        (IpAddr::V4(a), IpAddr::V4(b)) => prefix.len <= 32 && as_number(a) / pow2(
            (32 - prefix.len) as nat,
        ) == as_number(b) / pow2((32 - prefix.len) as nat),
        (IpAddr::V6(a), IpAddr::V6(b)) => prefix.len <= 128 && a.bits as nat / pow2(
            (128 - prefix.len) as nat,
        ) == b.bits as nat / pow2((128 - prefix.len) as nat),
        _ => false,
    }
}

/// Whether `node` accepts packets to `ip` by a prefix of `len` bits: by its own address, which is
/// the whole of it, or by one of its routes.
pub open spec fn accepts(node: NodeView, ip: IpAddr, len: int) -> bool {
    ||| ip == IpAddr::V4(node.ipv4) && len == 32
    ||| ip == IpAddr::V6(node.ipv6) && len == 128
    ||| exists|r: int|
        0 <= r < node.accepted_routes.len() && is_in(ip, #[trigger] node.accepted_routes[r])
            && node.accepted_routes[r].len == len
}

/// Whether `entry` accepts packets to `ip` by a prefix than which none of `entries` has a longer
/// one.
pub open spec fn is_routed_to(entries: Seq<EntryView>, ip: IpAddr, entry: EntryView) -> bool {
    exists|len: int| #[trigger]
        accepts(entry.node, ip, len) && forall|i: int, l: int|
            0 <= i < entries.len() && #[trigger] accepts(entries[i].node, ip, l) ==> l <= len
}

proof fn halving_is_dividing(x: nat, n: nat)
    ensures
        halved(x, n) == x / pow2(n),
    decreases n,
{
    lemma2_to64();
    if n > 0 {
        let m = (n - 1) as nat;
        halving_is_dividing(x / 2, m);
        lemma_pow2_unfold(n);
        lemma_pow2_pos(m);
        lemma_div_denominator(x as int, 2, pow2(m) as int);
        assert((x / 2) / pow2(m) == x / (2 * pow2(m)));
    } else {
        assert(x / 1 == x);
    }
}

proof fn covering_is_holding(prefix: IpPrefix, ip: IpAddr)
    ensures
        covers(prefix, ip) == is_in(ip, prefix),
{
    lemma2_to64();
    match (prefix.addr, ip) {
        (IpAddr::V4(a), IpAddr::V4(b)) => {
            if prefix.len <= 32 {
                halving_is_dividing(a.number(), (32 - prefix.len) as nat);
                halving_is_dividing(b.number(), (32 - prefix.len) as nat);
                assert(as_number(a) == a.number());
                assert(as_number(b) == b.number());
            }
        },
        (IpAddr::V6(a), IpAddr::V6(b)) => {
            if prefix.len <= 128 {
                halving_is_dividing(a.bits as nat, (128 - prefix.len) as nat);
                halving_is_dividing(b.bits as nat, (128 - prefix.len) as nat);
            }
        },
        _ => {},
    }
}

proof fn route_len_is_longest(routes: Seq<IpPrefix>, ip: IpAddr)
    ensures
        forall|r: int|
            0 <= r < routes.len() && is_in(ip, #[trigger] routes[r]) ==> routes[r].len <= route_len(
                routes,
                ip,
            ),
        route_len(routes, ip) >= -1,
        route_len(routes, ip) >= 0 ==> exists|r: int|
            0 <= r < routes.len() && is_in(ip, #[trigger] routes[r]) && routes[r].len == route_len(
                routes,
                ip,
            ),
    decreases routes.len(),
{
    if routes.len() > 0 {
        let short = routes.drop_last();
        let n = routes.len() - 1;
        route_len_is_longest(short, ip);
        covering_is_holding(routes.last(), ip);
        assert(routes[n] == routes.last());
        assert forall|r: int| 0 <= r < routes.len() && is_in(
            ip,
            #[trigger] routes[r],
        ) implies routes[r].len <= route_len(routes, ip) by {
            if r < n {
                assert(short[r] == routes[r]);
            }
        }
        if route_len(routes, ip) >= 0 {
            if route_len(routes, ip) == route_len(short, ip) {
                let r = choose|r: int|
                    0 <= r < short.len() && is_in(ip, #[trigger] short[r]) && short[r].len
                        == route_len(short, ip);
                assert(routes[r] == short[r]);
            } else {
                assert(is_in(ip, routes[n]));
            }
        }
    }
}

proof fn reach_is_longest(node: NodeView, ip: IpAddr)
    ensures
        forall|l: int| #[trigger] accepts(node, ip, l) ==> 0 <= l <= reach(node, ip),
        reach(node, ip) >= 0 ==> accepts(node, ip, reach(node, ip)),
{
    route_len_is_longest(node.accepted_routes, ip);
}

proof fn at_reach_is_filtering(
    all: Seq<EntryView>,
    part: Seq<EntryView>,
    ip: IpAddr,
    len: int,
)
    requires
        forall|i: int|
            0 <= i < part.len() ==> (reach((#[trigger] part[i]).node, ip) == len) == is_routed_to(
                all,
                ip,
                part[i],
            ),
    ensures
        at_reach(part, ip, len) == part.filter(|e: EntryView| is_routed_to(all, ip, e)),
    decreases part.len(),
{
    reveal(Seq::filter);
    if part.len() > 0 {
        let short = part.drop_last();
        assert forall|i: int| 0 <= i < short.len() implies (reach((#[trigger] short[i]).node, ip)
            == len) == is_routed_to(all, ip, short[i]) by {
            assert(part[i] == short[i]);
        }
        at_reach_is_filtering(all, short, ip, len);
        assert(part[part.len() - 1] == part.last());
    }
}

/// A packet is routed to the peers that accept it by the longest prefix, all of them and in the
/// order in which they are stored.
pub proof fn the_longest_prefix_wins(entries: Seq<EntryView>, ip: IpAddr)
    ensures
        routed(entries, ip) == entries.filter(|e: EntryView| is_routed_to(entries, ip, e)),
{
    let best = best_reach(entries, ip);
    assert forall|i: int| 0 <= i < entries.len() implies (reach(
        (#[trigger] entries[i]).node,
        ip,
    ) == best && best >= 0) == is_routed_to(entries, ip, entries[i]) by {
        let e = entries[i];
        the_most_specific_route_wins(entries, ip, e);
        reach_is_longest(e.node, ip);
        if is_routed_to(entries, ip, e) {
            let len = choose|len: int| #[trigger]
                accepts(e.node, ip, len) && forall|k: int, l: int|
                    0 <= k < entries.len() && #[trigger] accepts(entries[k].node, ip, l) ==> l
                        <= len;
            assert(accepts(entries[i].node, ip, reach(e.node, ip)));
            assert forall|k: int| 0 <= k < entries.len() implies reach(
                (#[trigger] entries[k]).node,
                ip,
            ) <= reach(e.node, ip) by {
                reach_is_longest(entries[k].node, ip);
                if reach(entries[k].node, ip) >= 0 {
                    assert(accepts(entries[k].node, ip, reach(entries[k].node, ip)));
                }
            }
            best_is_reached(entries, ip, i);
        }
        if reach(e.node, ip) == best && best >= 0 {
            assert forall|k: int, l: int|
                0 <= k < entries.len() && #[trigger] accepts(entries[k].node, ip, l) implies l
                <= best by {
                reach_is_longest(entries[k].node, ip);
                no_reach_is_beyond_the_best(entries, ip, k);
            }
        }
    }
    if best >= 0 {
        at_reach_is_filtering(entries, entries, ip, best);
    } else {
        nothing_to_filter(entries, entries, ip);
    }
}

proof fn no_reach_is_beyond_the_best(entries: Seq<EntryView>, ip: IpAddr, k: int)
    requires
        0 <= k < entries.len(),
    ensures
        reach(entries[k].node, ip) <= best_reach(entries, ip),
    decreases entries.len(),
{
    let short = entries.drop_last();
    if k < short.len() {
        no_reach_is_beyond_the_best(short, ip, k);
    }
}

proof fn best_is_reached(entries: Seq<EntryView>, ip: IpAddr, i: int)
    requires
        0 <= i < entries.len(),
        reach(entries[i].node, ip) >= 0,
        forall|k: int|
            0 <= k < entries.len() ==> reach((#[trigger] entries[k]).node, ip) <= reach(
                entries[i].node,
                ip,
            ),
    ensures
        best_reach(entries, ip) == reach(entries[i].node, ip),
{
    no_reach_is_beyond_the_best(entries, ip, i);
    best_is_bounded(entries, ip, reach(entries[i].node, ip));
}

proof fn best_is_bounded(entries: Seq<EntryView>, ip: IpAddr, bound: int)
    requires
        bound >= -1,
        forall|k: int|
            0 <= k < entries.len() ==> reach((#[trigger] entries[k]).node, ip) <= bound,
    ensures
        best_reach(entries, ip) <= bound,
    decreases entries.len(),
{
    if entries.len() > 0 {
        let short = entries.drop_last();
        assert forall|k: int| 0 <= k < short.len() implies reach((#[trigger] short[k]).node, ip)
            <= bound by {
            assert(entries[k] == short[k]);
        }
        best_is_bounded(short, ip, bound);
        assert(entries[entries.len() - 1] == entries.last());
    }
}

proof fn nothing_to_filter(all: Seq<EntryView>, part: Seq<EntryView>, ip: IpAddr)
    requires
        forall|i: int| 0 <= i < part.len() ==> !is_routed_to(all, ip, #[trigger] part[i]),
    ensures
        part.filter(|e: EntryView| is_routed_to(all, ip, e)) == Seq::<EntryView>::empty(),
    decreases part.len(),
{
    reveal(Seq::filter);
    if part.len() > 0 {
        let short = part.drop_last();
        assert forall|i: int| 0 <= i < short.len() implies !is_routed_to(
            all,
            ip,
            #[trigger] short[i],
        ) by {
            assert(part[i] == short[i]);
        }
        nothing_to_filter(all, short, ip);
        assert(part[part.len() - 1] == part.last());
    }
}

/// What to call a user: the login name; where that is empty, the display name if there is one.
pub open spec fn called(profiles: Map<UserId, ProfileView>, id: UserId) -> Option<Seq<char>> {
    if !profiles.contains_key(id) {
        None
    } else if profiles[id].login_name.len() > 0 {
        Some(profiles[id].login_name)
    } else {
        profiles[id].display_name
    }
}

/// Each request is answered from the stored peers: a name and an address with the first peer that
/// has it, a source address with that peer and its user whatever the port, a destination with the
/// peers that it is routed to, and a request for all with all of them under their numbers.
pub proof fn requests_are_answered_from_the_peers(
    db: DbView,
    profiles: Map<UserId, ProfileView>,
    name: Seq<char>,
    ip: IpAddr,
    port: u16,
)
    ensures
        answered(db, profiles, RequestView::PeerByName(name)) == ReplyView::Peer(
            match db.find(KeyView::Name(name)) {
                Some(e) => Some(e.node),
                None => None,
            },
        ),
        answered(db, profiles, RequestView::TailnetIp(ip)) == ReplyView::Peer(
            match db.find(KeyView::Ip(ip)) {
                Some(e) => Some(e.node),
                None => None,
            },
        ),
        answered(db, profiles, RequestView::WhoIs(SocketAddr { ip, port })) == ReplyView::WhoIs(
            match db.find(KeyView::Ip(ip)) {
                Some(e) => Some((e.node, called(profiles, e.node.user_id))),
                None => None,
            },
        ),
        match answered(db, profiles, RequestView::AcceptedRoute(ip)) {
            ReplyView::Peers(nodes) => nodes == entries_routed(db, ip).map_values(
                |e: EntryView| e.node,
            ),
            _ => false,
        },
        match answered(db, profiles, RequestView::Status) {
            ReplyView::Status(rows) => rows.len() == db.entries.len() && forall|i: int|
                0 <= i < rows.len() ==> #[trigger] rows[i] == (
                    db.entries[i].id,
                    db.entries[i].node,
                ),
            _ => false,
        },
{
    the_longest_prefix_wins(db.entries, ip);
    assert(stored_nodes(routed(db.entries, ip)) =~= entries_routed(
        db,
        ip,
    ).map_values(|e: EntryView| e.node));
}

/// The peers that a packet to `ip` is routed to.
pub open spec fn entries_routed(db: DbView, ip: IpAddr) -> Seq<EntryView> {
    db.entries.filter(|e: EntryView| is_routed_to(db.entries, ip, e))
}

/// A request is answered at once where an update has come, and else waits behind those that wait
/// already.
pub proof fn requests_wait_for_the_first_update(
    db: DbView,
    before: DeskView,
    after: DeskView,
    ticket: u64,
    request: RequestView,
    reply: Option<Reply>,
)
    requires
        asked(db, before, after, ticket, request, reply),
    ensures
        reply is Some == before.seen,
        reply is Some ==> reply->0@ == answered(db, before.profiles, request) && after.pending
            == before.pending,
        reply is None ==> after.pending.len() == before.pending.len() + 1 && after.pending.last()
            == (ticket, request) && after.pending.drop_last() == before.pending,
        after.seen == before.seen,
        after.profiles == before.profiles,
{
    assert(before.pending.push((ticket, request)).drop_last() =~= before.pending);
}

/// The first update answers every request that waits, under the ticket that it came with and in the
/// order in which they came. Nobody waits from then on, and no later update answers anything.
pub proof fn the_first_update_answers_everyone(
    db: DbView,
    before: DeskView,
    after: DeskView,
    replies: Seq<(u64, Reply)>,
)
    requires
        serviced(db, before, after, replies),
    ensures
        after.seen,
        after.profiles == before.profiles,
        before.seen ==> replies.len() == 0 && after.pending == before.pending,
        !before.seen ==> {
            &&& after.pending.len() == 0
            &&& replies.len() == before.pending.len()
            &&& forall|i: int|
                0 <= i < replies.len() ==> (#[trigger] replies[i]).0 == before.pending[i].0
                    && replies[i].1@ == answered(db, before.profiles, before.pending[i].1)
        },
{
    if !before.seen {
        let rows = reply_views(replies);
        assert(rows.len() == before.pending.len());
        assert forall|i: int| 0 <= i < replies.len() implies (#[trigger] replies[i]).0
            == before.pending[i].0 && replies[i].1@ == answered(
            db,
            before.profiles,
            before.pending[i].1,
        ) by {
            assert(rows[i] == (replies[i].0, replies[i].1@));
        }
    }
}

/// The users are known as control last described them; a user that it does not describe stays as
/// known.
pub proof fn users_are_as_last_described(
    known: Map<UserId, ProfileView>,
    profiles: Seq<ProfileView>,
)
    ensures
        forall|k: int|
            0 <= k < profiles.len() && (forall|j: int|
                k < j < profiles.len() ==> (#[trigger] profiles[j]).id != profiles[k].id)
                ==> with_profiles(known, profiles).contains_key((#[trigger] profiles[k]).id)
                && with_profiles(known, profiles)[profiles[k].id] == profiles[k],
        forall|id: UserId|
            (forall|j: int| 0 <= j < profiles.len() ==> (#[trigger] profiles[j]).id != id) ==> (
            #[trigger] with_profiles(known, profiles).contains_key(id)) == known.contains_key(id)
                && (known.contains_key(id) ==> with_profiles(known, profiles)[id] == known[id]),
    decreases profiles.len(),
{
    if profiles.len() > 0 {
        let short = profiles.drop_last();
        let n = profiles.len() - 1;
        users_are_as_last_described(known, short);
        assert(profiles[n] == profiles.last());
        assert forall|k: int|
            0 <= k < profiles.len() && (forall|j: int|
                k < j < profiles.len() ==> (#[trigger] profiles[j]).id
                    != profiles[k].id) implies with_profiles(known, profiles).contains_key(
            (#[trigger] profiles[k]).id,
        ) && with_profiles(known, profiles)[profiles[k].id] == profiles[k] by {
            if k < n {
                assert(profiles[n].id != profiles[k].id);
                assert(short[k] == profiles[k]);
                assert forall|j: int| k < j < short.len() implies (#[trigger] short[j]).id
                    != short[k].id by {
                    assert(profiles[j].id != profiles[k].id);
                }
                assert(with_profiles(known, short).contains_key(short[k].id));
            }
        }
        assert forall|id: UserId|
            (forall|j: int| 0 <= j < profiles.len() ==> (#[trigger] profiles[j]).id
                != id) implies (#[trigger] with_profiles(known, profiles).contains_key(id))
            == known.contains_key(id) && (known.contains_key(id) ==> with_profiles(
            known,
            profiles,
        )[id] == known[id]) by {
            assert(profiles[n].id != id);
            assert forall|j: int| 0 <= j < short.len() implies (#[trigger] short[j]).id != id by {
                assert(profiles[j].id != id);
            }
            assert(with_profiles(known, short).contains_key(id) == known.contains_key(id));
        }
    }
}

/// Whether `b` holds the peers of `a` that are not `gone`, unchanged and in their order, and nobody
/// else.
pub open spec fn is_without(a: DbView, b: DbView, gone: int) -> bool {
    &&& b.entries.len() == a.entries.len() - 1
    &&& forall|i: int| 0 <= i < gone ==> #[trigger] b.entries[i] == a.entries[i]
    &&& forall|i: int| gone <= i < b.entries.len() ==> #[trigger] b.entries[i] == a.entries[i + 1]
}

/// Removing by a key takes away the first peer that is meant and leaves the others as they are;
/// where nobody is meant, nothing changes. No number is handed out again.
pub proof fn a_removal_takes_one_peer(db: DbView, key: KeyView, i: int)
    ensures
        0 <= i < db.entries.len() && is_meant(key, db.entries[i]) && (forall|j: int|
            0 <= j < i ==> !is_meant(key, #[trigger] db.entries[j])) ==> is_without(
            db,
            db.remove(key),
            i,
        ),
        (forall|j: int| 0 <= j < db.entries.len() ==> !is_meant(key, #[trigger] db.entries[j]))
            ==> db.remove(key) == db,
        db.remove(key).next_id == db.next_id,
{
    let p = |i: int| key.selects(db.entries[i]);
    if 0 <= i < db.entries.len() && is_meant(key, db.entries[i]) && (forall|j: int|
        0 <= j < i ==> !is_meant(key, #[trigger] db.entries[j])) {
        assert(p(i));
        assert forall|j: int| 0 <= j < i implies !#[trigger] p(j) by {
            assert(!is_meant(key, db.entries[j]));
        }
        first_where_is(p, db.entries.len() as int, i);
    }
    if forall|j: int| 0 <= j < db.entries.len() ==> !is_meant(key, #[trigger] db.entries[j]) {
        nobody_is_found_where_nobody_is_meant(db, key);
    }
}

/// Storing a node replaces the node of the peer with its stable id, which keeps its number and its
/// place; or, where there is none, adds it at the end under a number that was never used. Nobody
/// else changes.
pub proof fn an_upsert_stores_one_peer(db: DbView, node: NodeView, i: int)
    requires
        db.wf(),
        db.next_id < u64::MAX,
    ensures
        0 <= i < db.entries.len() && db.entries[i].node.stable_id == node.stable_id ==> {
            let after = db.upsert(node);
            &&& after.entries.len() == db.entries.len()
            &&& after.entries[i].node == node
            &&& after.entries[i].id == db.entries[i].id
            &&& after.entries[i].inactive_disco_key == db.entries[i].inactive_disco_key
            &&& forall|j: int|
                0 <= j < db.entries.len() && j != i ==> #[trigger] after.entries[j] == db.entries[j]
            &&& after.next_id == db.next_id
            &&& db.upsert_id(node) == db.entries[i].id
        },
        (forall|j: int|
            0 <= j < db.entries.len() ==> (#[trigger] db.entries[j]).node.stable_id
                != node.stable_id) ==> {
            let after = db.upsert(node);
            &&& after.entries.len() == db.entries.len() + 1
            &&& after.entries.last().node == node
            &&& after.entries.last().id.0 == db.next_id
            &&& after.entries.last().inactive_disco_key is None
            &&& after.entries.drop_last() == db.entries
            &&& after.next_id == db.next_id + 1
            &&& db.upsert_id(node).0 == db.next_id
        },
{
    let key = KeyView::StableId(node.stable_id);
    if 0 <= i < db.entries.len() && db.entries[i].node.stable_id == node.stable_id {
        assert forall|j: int| 0 <= j < i implies !is_meant(key, #[trigger] db.entries[j]) by {
            assert(db.entries[j].node.stable_id != db.entries[i].node.stable_id);
        }
        let p = |i: int| key.selects(db.entries[i]);
        assert(p(i));
        first_where_is(p, db.entries.len() as int, i);
    }
    if forall|j: int|
        0 <= j < db.entries.len() ==> (#[trigger] db.entries[j]).node.stable_id != node.stable_id {
        let p = |i: int| key.selects(db.entries[i]);
        first_where_none(p, db.entries.len() as int);
        assert(db.upsert(node).entries.drop_last() =~= db.entries);
    }
}

/// The other key that a peer is known by is set for that peer alone, and nothing else of it
/// changes.
pub proof fn the_other_key_is_set_for_one_peer(
    db: DbView,
    id: PeerId,
    key: Option<DiscoKey>,
    i: int,
)
    requires
        db.wf(),
        0 <= i < db.entries.len(),
    ensures
        db.set_inactive(id, key).entries.len() == db.entries.len(),
        db.set_inactive(id, key).next_id == db.next_id,
        db.set_inactive(id, key).entries[i].id == db.entries[i].id,
        db.set_inactive(id, key).entries[i].node == db.entries[i].node,
        db.set_inactive(id, key).entries[i].inactive_disco_key == (if db.entries[i].id == id {
            key
        } else {
            db.entries[i].inactive_disco_key
        }),
{
    let by_id = KeyView::Id(id);
    let p = |k: int| by_id.selects(db.entries[k]);
    first_where_is_first(p, db.entries.len() as int);
    match db.index_of(by_id) {
        Some(k) => {
            assert(p(k));
            if k < i {
                assert(db.entries[k].id != db.entries[i].id);
            } else if i < k {
                assert(db.entries[i].id != db.entries[k].id);
            }
        },
        None => {
            assert(!p(i));
        },
    }
}

/// Of the peers, those whose flag is set stay, unchanged and in their order, and the others go.
pub proof fn flagged_peers_stay(entries: Seq<EntryView>, flags: Seq<bool>, want: bool)
    requires
        flags.len() >= entries.len(),
    ensures
        entries.len() == 0 ==> flagged(entries, flags, want).len() == 0,
        forall|e: EntryView| #[trigger]
            flagged(entries.push(e), flags, want) == (if flags[entries.len() as int] == want {
                flagged(entries, flags, want).push(e)
            } else {
                flagged(entries, flags, want)
            }),
{
    assert forall|e: EntryView| #[trigger] flagged(entries.push(e), flags, want) == (if flags[
    entries.len() as int] == want {
        flagged(entries, flags, want).push(e)
    } else {
        flagged(entries, flags, want)
    }) by {
        assert(entries.push(e).drop_last() =~= entries);
    }
}

} // verus!
