//! What a call of an operation does, said of its arguments and of what it leaves behind.

use vstd::prelude::*;

use crate::addr::{IpAddr, IpPrefix, Ipv4Addr, SocketAddr};
use crate::clock::{seen_at, soa_serial_at};
use crate::disco_laws::{
    advertised_key, an_advertised_key_is_taken, an_observed_key_is_taken_up, control_key, is_no_key,
    prefers_advertised,
};
use crate::dns_laws::{
    a_routed_name_goes_to_its_resolvers, an_address_question_is_answered,
    an_ipv6_address_question_is_answered, is_foreign, is_the_route, is_unknown,
    other_names_go_to_the_recursive_resolvers, the_first_record_of_a_family_answers,
};
use crate::dns_message::{frame, framed_len, framing_round_trips, ClientTransport};
use crate::dns_names::under;
use crate::forward::{given, ForwardWalk, UpstreamAnswer};
use crate::http::{self, head_end};
use crate::http_laws::{
    a_file_is_put_under_its_name, answers_of_the_exit_node_are_not_cut, is_status,
    the_name_stands_behind_the_route, who_may_send_a_file,
};
use crate::id_set::IdSet;
use crate::liveness_laws::{
    changes_are_told_truly, each_once, last_word, nobody_else_goes_on_or_offline,
    stands_for_its_node, the_last_sighting_stands, the_last_word_on_being_online_stands,
    unmentioned,
};
use crate::lookup_laws::{
    called, entries_routed, requests_are_answered_from_the_peers, requests_wait_for_the_first_update,
    the_first_update_answers_everyone, users_are_as_last_described,
};
use crate::magic_dns::{
    decide, decide_at, Decision, DnsConfig, DnsQueryResult, DnsView, Question, RDataView, Rcode,
};
use crate::multiderp::{
    goes_on, DataplaneReply, DerpRegion, DerpRunner, DiscoFrame, DiscoRoute, Multiderp, Outbound,
    Phase, RegionId, RunnerStep, TransportId,
};
use crate::netmon::{Input, Step, Supervisor};
use crate::node::{DiscoKey, Node, NodeId, PeerId, Timestamp, UserId};
use crate::packetfilter::{
    a_delta_leaves_the_unmentioned, a_removed_peer_is_not_unlocked, every_unlocked_prefix_is_judged,
    joined, numbers_of, the_last_entry_decides_who_is_unlocked, FilterChoice, PacketfilterUpdater,
    Publication,
};
use crate::patch_laws::{
    a_patch_sets_what_it_carries, patches_leave_the_unmentioned, rekeyed, takes,
};
use crate::peer_db::{EntryView, KeyView, PeerDb};
use crate::peer_tracker::{
    after_peer_changes, after_state_update, change_views, newcomers, newcomers_of, user_views,
    views_of, DeskView, PeerChange, PeerState, PeerTracker, PeerUpdate, PeersView, Reply, ReplyView,
    RequestView, StateUpdate, UpdateOutcome,
};
use crate::peerapi::{
    classify_route, gate_taildrop, plain_names_are_kept, put_step, takes_connection, BodyReader,
    BodyStep, GateDecision, HeaderReader, PutStep, Route,
};
use crate::peerapi_doh::{
    delegated_answer, dns_probe, serve_query, DnsProbe, DohRequest, DohRequestView, PostBody, Served,
};
use crate::publication::nothing_changes_untold;
use crate::relay_laws::refusals_say_so;
use crate::rotation_laws::{is_admitted, who_is_admitted};
use crate::tailnet_lock::{kept, verdict, Authority};
use crate::update_laws::{
    a_delta_leaves_the_others, a_delta_stores_what_was_sent, a_new_lock_drops_whom_it_does_not_keep,
    is_as_sent,
};

verus! {

/// Applying patches: the node that one of them is for, and no other one is, is stored afterwards as
/// the same peer, with every field that the patch carries as the patch has it and every other one
/// as before; unless the lock refuses it under the key and the signature that it is left with, in
/// which case it is gone.
pub proof fn applied_patches_take_effect(
    tracker: &mut PeerTracker,
    patches: &Vec<PeerChange>,
    r: (IdSet, IdSet),
    k: int,
)
    requires
        old(tracker).wf(),
        call_ensures(PeerTracker::apply_peer_patches, (tracker, patches), r),
        0 <= k < patches@.len(),
        forall|i: int|
            0 <= i < patches@.len() && i != k ==> (#[trigger] patches@[i]).id != patches@[k].id,
        old(tracker).peers().db.has(KeyView::NodeId(patches@[k].id)),
    ensures
        ({
            let before = old(tracker).peers().db.find(KeyView::NodeId(patches@[k].id))->0;
            let after = final(tracker).peers().db;
            let found = after.find(KeyView::NodeId(patches@[k].id));
            if verdict(old(tracker).lock(), rekeyed(before.node, patches@[k]@)).admitted {
                &&& found is Some
                &&& found->0.id == before.id
                &&& takes(before.node, patches@[k]@, found->0.node)
                &&& r.0@.contains(before.id)
            } else {
                &&& !after.has(KeyView::Id(before.id))
                &&& r.1@.contains(before.id)
            }
        }),
{
    old(tracker).valid_peers();
    let changes = change_views(patches@);
    assert forall|i: int| 0 <= i < changes.len() && i != k implies (#[trigger] changes[i]).id
        != changes[k].id by {
        assert(changes[i] == patches@[i]@);
        assert(patches@[i].id != patches@[k].id);
    }
    assert(changes[k] == patches@[k]@);
    a_patch_sets_what_it_carries(old(tracker).peers(), old(tracker).lock(), changes, k);
}

/// Applying patches leaves every node that none of them is for as it is.
pub proof fn applied_patches_leave_the_others(
    tracker: &mut PeerTracker,
    patches: &Vec<PeerChange>,
    r: (IdSet, IdSet),
    id: NodeId,
)
    requires
        old(tracker).wf(),
        call_ensures(PeerTracker::apply_peer_patches, (tracker, patches), r),
        forall|i: int| 0 <= i < patches@.len() ==> (#[trigger] patches@[i]).id != id,
    ensures
        final(tracker).peers().db.find(KeyView::NodeId(id)) == old(tracker).peers().db.find(
            KeyView::NodeId(id),
        ),
{
    old(tracker).valid_peers();
    let changes = change_views(patches@);
    assert forall|i: int| 0 <= i < changes.len() implies (#[trigger] changes[i]).id != id by {
        assert(changes[i] == patches@[i]@);
    }
    patches_leave_the_unmentioned(old(tracker).peers(), old(tracker).lock(), changes, id);
}

/// Applying a delta: a node that it sends once, does not remove and that the lock admits is stored
/// as it was sent; a stored peer that it neither sends nor removes stays as it is.
pub proof fn an_applied_delta_takes_effect(
    tracker: &mut PeerTracker,
    update: &PeerUpdate,
    upsert: Vec<Node>,
    remove: Vec<NodeId>,
    r: (IdSet, IdSet),
    k: int,
    i: int,
)
    requires
        old(tracker).wf(),
        *update == (PeerUpdate::Delta { upsert, remove }),
        old(tracker).peers().db.next_id + newcomers(*update) <= u64::MAX,
        call_ensures(PeerTracker::apply_peer_update, (tracker, update), r),
    ensures
        0 <= k < upsert@.len() && verdict(old(tracker).lock(), upsert@[k]@).admitted
            && !remove@.contains(upsert@[k].id) && (forall|j: int|
            k < j < upsert@.len() ==> (#[trigger] upsert@[j]).stable_id@
                != upsert@[k].stable_id@) ==> match final(tracker).peers().db.find(
            KeyView::StableId(upsert@[k].stable_id@),
        ) {
            Some(entry) => is_as_sent(upsert@[k]@, entry.node),
            None => false,
        },
        0 <= i < old(tracker).peers().db.entries.len() && !remove@.contains(
            old(tracker).peers().db.entries[i].node.id,
        ) && (forall|j: int|
            0 <= j < upsert@.len() ==> (#[trigger] upsert@[j]).stable_id@
                != old(tracker).peers().db.entries[i].node.stable_id)
            ==> final(tracker).peers().db.find(
            KeyView::StableId(old(tracker).peers().db.entries[i].node.stable_id),
        ) == Some(old(tracker).peers().db.entries[i]),
{
    old(tracker).valid_peers();
    let p = old(tracker).peers();
    let lock = old(tracker).lock();
    let views = views_of(upsert@);
    assert(forall|j: int| 0 <= j < views.len() ==> #[trigger] views[j] == upsert@[j]@);
    if 0 <= k < upsert@.len() && verdict(lock, upsert@[k]@).admitted && !remove@.contains(
        upsert@[k].id,
    ) && (forall|j: int|
        k < j < upsert@.len() ==> (#[trigger] upsert@[j]).stable_id@ != upsert@[k].stable_id@) {
        assert forall|j: int| k < j < views.len() implies (#[trigger] views[j]).stable_id
            != views[k].stable_id by {
            assert(upsert@[j].stable_id@ != upsert@[k].stable_id@);
        }
        a_delta_stores_what_was_sent(p, lock, views, remove@, k);
    }
    if 0 <= i < p.db.entries.len() && !remove@.contains(p.db.entries[i].node.id) && (forall|j: int|
        0 <= j < upsert@.len() ==> (#[trigger] upsert@[j]).stable_id@
            != p.db.entries[i].node.stable_id) {
        assert forall|j: int| 0 <= j < views.len() implies (#[trigger] views[j]).stable_id
            != p.db.entries[i].node.stable_id by {
            assert(upsert@[j].stable_id@ != p.db.entries[i].node.stable_id);
        }
        a_delta_leaves_the_others(p, lock, views, remove@, i);
    }
}

/// Applying what control says of who is online and who was seen: a peer is online as was said last,
/// in either direction, and was seen as was said last; one of whom nothing is said stays as it is.
pub proof fn applied_liveness_takes_effect(
    tracker: &mut PeerTracker,
    online: &Vec<(NodeId, bool)>,
    seen: &Vec<(NodeId, bool)>,
    now: Timestamp,
    r: bool,
    i: int,
    k: int,
)
    requires
        old(tracker).wf(),
        call_ensures(PeerTracker::apply_liveness_changes, (tracker, online, seen, now), r),
        0 <= i < old(tracker).peers().db.entries.len(),
    ensures
        ({
            let db = old(tracker).peers().db;
            let after = final(tracker).peers().db;
            &&& stands_for_its_node(db, i) && last_word(online@, db.entries[i].node.id, k)
                ==> after.entries[i].node.online == Some(online@[k].1)
            &&& unmentioned(online@, db.entries[i].node.id) ==> after.entries[i].node.online
                == db.entries[i].node.online
            &&& stands_for_its_node(db, i) && last_word(seen@, db.entries[i].node.id, k)
                ==> after.entries[i].node.last_seen == (if seen@[k].1 {
                Some(now)
            } else {
                None
            })
        }),
{
    old(tracker).valid_peers();
    let db = old(tracker).peers().db;
    if stands_for_its_node(db, i) && last_word(online@, db.entries[i].node.id, k) {
        the_last_word_on_being_online_stands(db, online@, seen@, now, i, k);
    }
    if unmentioned(online@, db.entries[i].node.id) {
        nobody_else_goes_on_or_offline(db, online@, seen@, now, i);
    }
    if stands_for_its_node(db, i) && last_word(seen@, db.entries[i].node.id, k) {
        the_last_sighting_stands(db, online@, seen@, now, i, k);
    }
}

/// Applying what control says of who is online and who was seen, of each node at most once, says
/// that something changed exactly where a stored node differs from before.
pub proof fn applied_liveness_is_told_truly(
    tracker: &mut PeerTracker,
    online: &Vec<(NodeId, bool)>,
    seen: &Vec<(NodeId, bool)>,
    now: Timestamp,
    r: bool,
)
    requires
        old(tracker).wf(),
        call_ensures(PeerTracker::apply_liveness_changes, (tracker, online, seen, now), r),
        each_once(online@),
        each_once(seen@),
    ensures
        r <==> exists|i: int|
            0 <= i < old(tracker).peers().db.entries.len() && (
            #[trigger] final(tracker).peers().db.entries[i]).node
                != old(tracker).peers().db.entries[i].node,
{
    old(tracker).valid_peers();
    changes_are_told_truly(old(tracker).peers().db, online@, seen@, now);
}

/// Keeping track of the unlocked peers over a delta: one that it removes is tracked no more; one
/// that it names is tracked as its last entry says, under that entry's routes, and not where that
/// entry is locked; every other is tracked as before. The call says whether any of that is new.
pub proof fn a_tracked_delta_takes_effect(
    updater: &mut PacketfilterUpdater,
    update: &PeerUpdate,
    upsert: Vec<Node>,
    remove: Vec<NodeId>,
    r: bool,
    k: int,
    id: NodeId,
)
    requires
        old(updater).wf(),
        *update == (PeerUpdate::Delta { upsert, remove }),
        call_ensures(PacketfilterUpdater::track_unlocked_peers, (updater, Some(update)), r),
    ensures
        ({
            let before = old(updater)@.unlocked;
            let after = final(updater)@.unlocked;
            &&& remove@.contains(id) ==> !after.contains_key(id)
            &&& !remove@.contains(id) && 0 <= k < upsert@.len() && upsert@[k].id == id && (forall|
                j: int,
            |
                k < j < upsert@.len() ==> (#[trigger] upsert@[j]).id != id) ==> after.contains_key(
                id,
            ) == upsert@[k].unsigned_peer_api_only && (upsert@[k].unsigned_peer_api_only
                ==> after[id] == upsert@[k].accepted_routes@)
            &&& !remove@.contains(id) && (forall|j: int|
                0 <= j < upsert@.len() ==> (#[trigger] upsert@[j]).id != id) ==> after.contains_key(
                id,
            ) == before.contains_key(id) && (before.contains_key(id) ==> after[id] == before[id])
            &&& r == (after != before)
        }),
{
    let before = old(updater)@.unlocked;
    if remove@.contains(id) {
        a_removed_peer_is_not_unlocked(before, upsert, remove, id);
    } else {
        if 0 <= k < upsert@.len() && upsert@[k].id == id && (forall|j: int|
            k < j < upsert@.len() ==> (#[trigger] upsert@[j]).id != id) {
            the_last_entry_decides_who_is_unlocked(before, upsert, remove, k);
        }
        if forall|j: int| 0 <= j < upsert@.len() ==> (#[trigger] upsert@[j]).id != id {
            a_delta_leaves_the_unmentioned(before, upsert, remove, id);
        }
    }
}

/// What the filter is judged by is every prefix of every unlocked peer, and no other; it is judged
/// again exactly where it changed or the unlocked peers did.
pub proof fn the_filter_is_judged_by_all_unlocked_prefixes(
    updater: &mut PacketfilterUpdater,
    node: Option<&Node>,
    update: Option<&PeerUpdate>,
    filter_changed: bool,
    r: Option<Vec<IpPrefix>>,
    prefix: IpPrefix,
)
    requires
        old(updater).wf(),
        call_ensures(PacketfilterUpdater::handle, (updater, node, update, filter_changed), r),
    ensures
        r is Some <==> filter_changed || final(updater)@.unlocked != old(updater)@.unlocked,
        r is Some ==> (r->0@.contains(prefix) <==> exists|id: NodeId| #[trigger]
            final(updater)@.unlocked.contains_key(id) && final(updater)@.unlocked[id].contains(
                prefix,
            )),
{
    if r is Some {
        let peers = final(updater)@.unlocked;
        let ids = choose|ids: Seq<NodeId>|
            numbers_of(peers, ids) && r->0@ == #[trigger] joined(peers, ids);
        every_unlocked_prefix_is_judged(peers, ids, prefix);
    }
}

/// While the filter grants an unlocked peer anything, everything is denied; once it does not, the
/// filter that control sent is in force again. What changes is published, and nothing else.
pub proof fn a_verdict_is_published(
    updater: &mut PacketfilterUpdater,
    permitted: bool,
    filter_changed: bool,
    r: Option<Publication>,
)
    requires
        call_ensures(PacketfilterUpdater::judged, (updater, permitted, filter_changed), r),
    ensures
        r is Some <==> filter_changed || permitted != old(updater)@.permitted,
        r is Some ==> r->0.filter == (if permitted {
            FilterChoice::DenyAll
        } else {
            FilterChoice::Compiled
        }),
        r is Some ==> r->0.shield is Some == old(updater)@.block_incoming,
        r is Some && r->0.shield is Some ==> r->0.shield->0@ == old(updater)@.self_addrs,
        final(updater)@.permitted == permitted,
        final(updater)@.unlocked == old(updater)@.unlocked,
{
    if r is Some {
        assert(r->0@ == final(updater)@.published());
    }
}

/// Deciding a question that nobody here answers, for a name under no route: it is forwarded to
/// every IPv4 one of the recursive resolvers, in their order.
pub proof fn a_decided_question_goes_to_every_resolver(
    view: &DnsView,
    q: &Question,
    buf: &[u8],
    serial: u32,
    r: Decision,
)
    requires
        call_ensures(decide_at, (view, q, buf, serial), r),
        view@.cfg.magic_dns,
        view@.accept_dns,
        is_foreign(view@, q@),
        is_unknown(view@, q@),
        forall|i: int|
            0 <= i < view@.cfg.routes.len() ==> !under(
                q@.canon,
                (#[trigger] view@.cfg.routes[i]).suffix,
            ),
    ensures
        ({
            let listed = if view.cfg.fallback_resolvers@.len() > 0 {
                view.cfg.fallback_resolvers@
            } else {
                view.cfg.resolvers@
            };
            let asked = listed.filter(|a: SocketAddr| a.ip is V4);
            match r {
                Decision::Forward { upstreams, query, recursive, .. } => upstreams@ == asked
                    && query@ == buf@ && recursive && asked.len() > 0,
                Decision::Reply(reply) => asked.len() == 0 && reply.rcode == Rcode::ServFail,
            }
        }),
{
    other_names_go_to_the_recursive_resolvers(view@, q@, buf@, serial);
    assert(r@ == view@.decision(q@, buf@, serial));
}

/// Deciding a question that nobody here answers, for a name under a route: it is forwarded to every
/// IPv4 one of that route's resolvers, in their order.
pub proof fn a_decided_question_goes_down_its_route(
    view: &DnsView,
    q: &Question,
    buf: &[u8],
    serial: u32,
    r: Decision,
    i: int,
)
    requires
        call_ensures(decide_at, (view, q, buf, serial), r),
        view@.cfg.magic_dns,
        view@.accept_dns,
        is_foreign(view@, q@),
        is_unknown(view@, q@),
        is_the_route(view@.cfg.routes, q@.canon, i),
    ensures
        ({
            let listed = view.cfg.routes@[i].upstreams@;
            let asked = listed.filter(|a: SocketAddr| a.ip is V4);
            match r {
                Decision::Forward { upstreams, query, recursive, .. } => upstreams@ == asked
                    && query@ == buf@ && !recursive && asked.len() > 0,
                Decision::Reply(reply) => asked.len() == 0 && reply.rcode == (if listed.len()
                    == 0 {
                    Rcode::NxDomain
                } else {
                    Rcode::ServFail
                }),
            }
        }),
{
    a_routed_name_goes_to_its_resolvers(view@, q@, buf@, serial, i);
    assert(r@ == view@.decision(q@, buf@, serial));
    assert(view@.cfg.routes[i] == view.cfg.routes@[i]@);
}

/// Resolving a name that no node answers to: the first record of exactly that name and of the
/// wanted family says what it resolves to, in either family.
pub proof fn a_record_is_resolved(
    view: &DnsView,
    canon: &str,
    want_v4: bool,
    r: Option<IpAddr>,
    i: int,
)
    requires
        call_ensures(DnsView::resolve_addr, (view, canon, want_v4), r),
        view@.node_by_name(canon@) is None,
        forall|d: int|
            0 <= d < view@.cfg.search_domains.len() ==> view@.node_by_name(
                canon@.push('.') + #[trigger] view@.cfg.search_domains[d],
            ) is None,
        0 <= i < view.cfg.extra_records@.len(),
        view.cfg.extra_records@[i].name@ == canon@,
        view.cfg.extra_records@[i].addr is V4 == want_v4,
        forall|j: int|
            0 <= j < i && (#[trigger] view.cfg.extra_records@[j]).name@ == canon@
                ==> view.cfg.extra_records@[j].addr is V4 != want_v4,
    ensures
        r == Some(view.cfg.extra_records@[i].addr),
{
    let records = view@.cfg.extra_records;
    assert(records[i] == view.cfg.extra_records@[i]@);
    assert forall|j: int| 0 <= j < i && (#[trigger] records[j]).name == canon@ implies
        records[j].addr is V4 != want_v4 by {
        assert(records[j] == view.cfg.extra_records@[j]@);
        assert(view.cfg.extra_records@[j].name@ == canon@);
    }
    the_first_record_of_a_family_answers(view@, canon@, want_v4, i);
}

/// Deciding a question for an address of such a name: it is answered with the record's address, for
/// IPv6 while IPv6 is on.
pub proof fn a_question_for_a_record_is_answered(
    view: &DnsView,
    q: &Question,
    buf: &[u8],
    serial: u32,
    r: Decision,
    i: int,
)
    requires
        call_ensures(decide_at, (view, q, buf, serial), r),
        view@.cfg.magic_dns,
        view@.accept_dns,
        q.qclass == 1,
        q.qtype is A || (q.qtype is Aaaa && view.enable_ipv6),
        view@.node_by_name(q@.canon) is None,
        forall|d: int|
            0 <= d < view@.cfg.search_domains.len() ==> view@.node_by_name(
                q@.canon.push('.') + #[trigger] view@.cfg.search_domains[d],
            ) is None,
        0 <= i < view@.cfg.extra_records.len(),
        view@.cfg.extra_records[i].name == q@.canon,
        view@.cfg.extra_records[i].addr is V4 == (q.qtype is A),
        forall|j: int|
            0 <= j < i && (#[trigger] view@.cfg.extra_records[j]).name == q@.canon
                ==> view@.cfg.extra_records[j].addr is V4 != (q.qtype is A),
    ensures
        match r {
            Decision::Reply(reply) => reply.rcode == Rcode::NoError && reply.answers@.len() == 1
                && reply.answers@[0]@ == (match view@.cfg.extra_records[i].addr {
                IpAddr::V4(ip) => RDataView::A(ip),
                IpAddr::V6(ip) => RDataView::Aaaa(ip),
            }),
            Decision::Forward { .. } => false,
        },
{
    the_first_record_of_a_family_answers(view@, q@.canon, q.qtype is A, i);
    match view@.cfg.extra_records[i].addr {
        IpAddr::V4(ip) => {
            an_address_question_is_answered(view@, q@, buf@, serial, ip);
        },
        IpAddr::V6(ip) => {
            an_ipv6_address_question_is_answered(view@, q@, buf@, serial, ip);
        },
    }
    assert(r@ == view@.decision(q@, buf@, serial));
    match r {
        Decision::Reply(reply) => {
            assert(reply@.answers.len() == reply.answers@.len());
            assert(reply@.answers[0] == reply.answers@[0]@);
        },
        Decision::Forward { .. } => {},
    }
}

/// A runner away from home closes its connection ten seconds after the last traffic, unless it is
/// told by then that it is home; a runner at home never does.
pub proof fn idle_connections_are_closed(
    runner: &mut DerpRunner,
    quiet: &mut DerpRunner,
    now: u64,
    end: Option<u64>,
    home: bool,
    step: RunnerStep,
)
    requires
        old(runner).wf(),
        old(runner).phase is Connected,
        now + 10_000_000_000 <= u64::MAX,
        call_ensures(DerpRunner::received, (runner, now), ()),
        call_ensures(DerpRunner::deadline, (&*final(runner),), end),
        *old(quiet) == *final(runner),
        call_ensures(DerpRunner::timed_out, (quiet, home), step),
    ensures
        end == (if old(runner).home {
            None
        } else {
            Some((now + 10_000_000_000) as u64)
        }),
        home ==> step is Wait && final(quiet).phase is Connected && final(quiet).home,
        !home ==> step is Close && final(quiet).phase is Idle && !final(quiet).home,
{
}

/// Something to send makes a waiting runner connect, and what was to be sent is handed out once the
/// connection stands, for it to be sent.
pub proof fn what_starts_a_connection_is_sent_over_it(
    runner: &mut DerpRunner,
    later: &mut DerpRunner,
    packets: Option<Outbound>,
    now: u64,
    step: RunnerStep,
    queue: (Option<Outbound>, Option<DiscoFrame>),
)
    requires
        old(runner).wf(),
        old(runner).phase is Idle,
        now + 10_000_000_000 <= u64::MAX,
        call_ensures(DerpRunner::outbound, (runner, packets, now), step),
        *old(later) == *final(runner),
        call_ensures(DerpRunner::queued, (later,), queue),
    ensures
        step is Connect,
        queue.0 == packets,
        queue.1 is None,
        final(later).phase is Connecting,
{
}

/// The same holds of a frame of the path-discovery protocol.
pub proof fn a_frame_that_starts_a_connection_is_sent_over_it(
    runner: &mut DerpRunner,
    later: &mut DerpRunner,
    frame: Option<DiscoFrame>,
    now: u64,
    step: RunnerStep,
    queue: (Option<Outbound>, Option<DiscoFrame>),
)
    requires
        old(runner).wf(),
        old(runner).phase is Idle,
        now + 10_000_000_000 <= u64::MAX,
        call_ensures(DerpRunner::disco, (runner, frame, now), step),
        *old(later) == *final(runner),
        call_ensures(DerpRunner::queued, (later,), queue),
    ensures
        step is Connect,
        queue.0 is None,
        queue.1 == frame,
        final(later).phase is Connecting,
{
}

/// Over a standing connection packets and frames are sent at once, and count as traffic; where no
/// more will come the connection is closed.
pub proof fn a_standing_connection_sends_at_once(
    runner: &mut DerpRunner,
    other: &mut DerpRunner,
    packets: Option<Outbound>,
    frame: Option<DiscoFrame>,
    now: u64,
    x: RunnerStep,
    y: RunnerStep,
)
    requires
        old(runner).wf(),
        old(runner).phase is Connected,
        old(other).wf(),
        old(other).phase is Connected,
        now + 10_000_000_000 <= u64::MAX,
        call_ensures(DerpRunner::outbound, (runner, packets, now), x),
        call_ensures(DerpRunner::disco, (other, frame, now), y),
    ensures
        packets is Some ==> x == RunnerStep::SendPackets(packets->0) && final(runner).phase == (
        Phase::Connected { last_activity: now }),
        packets is None ==> x is Close && !(final(runner).phase is Connected),
        frame is Some ==> y == RunnerStep::SendDisco(frame->0) && final(other).phase == (
        Phase::Connected { last_activity: now }),
        frame is None ==> y is Close && !(final(other).phase is Connected),
{
}

/// A runner that waits and is told that it is home connects; one that is connected stays so
/// whatever it is told. A failure sends a home runner back to connecting and another back to
/// waiting.
pub proof fn becoming_home_connects(
    runner: &mut DerpRunner,
    broken: &mut DerpRunner,
    home: bool,
    step: RunnerStep,
)
    requires
        old(runner).wf(),
        call_ensures(DerpRunner::home_changed, (runner, home), step),
        call_ensures(DerpRunner::failed, (broken,), ()),
    ensures
        final(runner).home == home,
        old(runner).phase is Idle && home ==> step is Connect && final(runner).phase is Connecting,
        old(runner).phase is Idle && !home ==> step is Wait && final(runner).phase is Idle,
        !(old(runner).phase is Idle) ==> step is Wait && final(runner).phase == old(runner).phase,
        final(broken).home == old(broken).home,
        old(broken).home ==> final(broken).phase is Connecting,
        !old(broken).home ==> final(broken).phase is Idle,
{
}

/// A runner goes on after its connection ended exactly while this node runs and both of the
/// dataplane's channels are open.
pub proof fn runners_go_on_while_the_node_runs(
    shutdown: bool,
    up_closed: bool,
    down_closed: bool,
    r: bool,
)
    requires
        call_ensures(goes_on, (shutdown, up_closed, down_closed), r),
    ensures
        r <==> !shutdown && !up_closed && !down_closed,
{
}

/// A region that is learnt and then given a transport has a runner with that transport, home where
/// it is the home region; frames for it are relayed from then on. No other region is touched.
pub proof fn a_region_with_a_transport_is_relayed_to(
    relays: &mut Multiderp,
    later: &mut Multiderp,
    id: RegionId,
    region: DerpRegion,
    transport: TransportId,
    needed: bool,
    started: bool,
    route: DiscoRoute,
    found: Option<TransportId>,
    other: RegionId,
)
    requires
        old(relays).wf(),
        call_ensures(Multiderp::learn_region, (relays, id, region), needed),
        *old(later) == *final(relays),
        call_ensures(
            Multiderp::ensure_region,
            (later, id, DataplaneReply::Transport(transport), false),
            started,
        ),
        call_ensures(Multiderp::disco_route, (&*final(later), id), route),
        call_ensures(Multiderp::transport_id_for_region, (&*final(later), id), found),
    ensures
        needed <==> !old(relays).derps@.contains_key(id),
        started == needed,
        route is Relay,
        needed ==> found == Some(transport) && final(later).derps@[id].home == (
        old(relays).current_home_derp == Some(id)),
        !needed ==> found == Some(old(relays).derps@[id].transport_id),
        final(later).regions@.contains_key(id) && final(later).regions@[id] == region,
        other != id ==> final(later).derps@.contains_key(other)
            == old(relays).derps@.contains_key(other) && final(later).derps@[other]
            == old(relays).derps@[other],
        other != id ==> final(later).regions@.contains_key(other)
            == old(relays).regions@.contains_key(other),
{
}

/// A region for which the dataplane has nothing to give stays without a runner, and a frame for it
/// is not relayed; a frame for a region that is not on the map goes nowhere.
pub proof fn a_region_without_a_transport_waits(
    relays: &mut Multiderp,
    id: RegionId,
    reply: DataplaneReply,
    shutting_down: bool,
    started: bool,
    route: DiscoRoute,
)
    requires
        old(relays).wf(),
        reply is Stopped ==> shutting_down,
        !(reply is Transport),
        call_ensures(Multiderp::ensure_region, (relays, id, reply, shutting_down), started),
        call_ensures(Multiderp::disco_route, (&*final(relays), id), route),
    ensures
        !started,
        final(relays).derps@ == old(relays).derps@,
        !old(relays).regions@.contains_key(id) ==> route is UnknownRegion,
        old(relays).regions@.contains_key(id) && !old(relays).derps@.contains_key(id)
            ==> route is NotEstablished,
{
}

/// After a measurement the region with the least latency is home, and its runner alone is told so;
/// where nothing was measured, home stays what it was.
pub proof fn the_nearest_region_becomes_home(
    relays: &mut Multiderp,
    best: Option<RegionId>,
    id: RegionId,
)
    requires
        old(relays).wf(),
        call_ensures(Multiderp::measured, (relays, best), ()),
    ensures
        best is Some ==> final(relays).current_home_derp == best,
        best is None ==> final(relays).current_home_derp == old(relays).current_home_derp,
        final(relays).derps@.contains_key(id) == old(relays).derps@.contains_key(id),
        final(relays).derps@.contains_key(id) ==> final(relays).derps@[id].transport_id
            == old(relays).derps@[id].transport_id,
        final(relays).derps@.contains_key(id) ==> final(relays).derps@[id].home == (
        final(relays).current_home_derp == Some(id)),
{
}

/// A rebind that was done puts off the next by a second: a link change before then owes one, due at
/// the end of that second.
pub proof fn an_owed_rebind_is_due_in_a_second(
    supervisor: &mut Supervisor,
    later: &mut Supervisor,
    now: u64,
    soon: u64,
    first: Step,
    second: Step,
    due: Option<u64>,
)
    requires
        old(supervisor).wf(),
        now + 1_000_000_000 <= u64::MAX,
        soon < now + 1_000_000_000,
        call_ensures(Supervisor::rebound, (supervisor, now), first),
        *old(later) == *final(supervisor),
        call_ensures(Supervisor::step, (later, Input::LinkChange, soon), second),
        call_ensures(Supervisor::deadline, (&*final(later),), due),
    ensures
        first is MeasureNow,
        second is Wait,
        due == Some((now + 1_000_000_000) as u64),
{
}

/// A body is handed out in order and to its declared length: what was read along with the head
/// first, then no more than the stream owes; it ends when all of it was handed out.
pub proof fn a_body_is_handed_out_to_its_length(
    seed: Vec<u8>,
    length: u64,
    reader: &mut BodyReader,
    room: usize,
    step: BodyStep,
)
    requires
        call_ensures(BodyReader::new, (seed, length), *old(reader)),
        call_ensures(BodyReader::step, (reader, room), step),
        room > 0,
    ensures
        old(reader).wf(),
        match step {
            BodyStep::Bytes(bytes) => 0 < bytes@.len() <= room && bytes@.len() <= length
                && bytes@ == seed@.take(bytes@.len() as int) && final(reader).left()
                == length - bytes@.len(),
            BodyStep::Read(want) => seed@.len() == 0 && 0 < want <= room && want <= length,
            BodyStep::End => length == 0,
        },
{
    match step {
        BodyStep::Bytes(bytes) => {
            let n = bytes@.len() as int;
            let ahead = old(reader).ahead();
            assert(ahead.take(n) =~= bytes@);
            assert(ahead.take(n) =~= seed@.take(n));
        },
        _ => {},
    }
}

/// A file is stored where its source may send it and it declares a length, refused for want of one,
/// and forbidden, whatever it declares, where its source may not send it.
pub proof fn files_are_stored_or_refused(
    view: &DnsView,
    src: SocketAddr,
    store_configured: bool,
    length: Option<u64>,
    gate: GateDecision,
    step: PutStep,
)
    requires
        call_ensures(gate_taildrop, (view, src, store_configured), gate),
        call_ensures(put_step, (view, src, store_configured, length), step),
    ensures
        gate is Allow <==> store_configured && view@.self_node is Some
            && view@.self_node->0.cap_map.contains("https://tailscale.com/cap/file-sharing"@)
            && view@.node_by_ip(src.ip) is Some,
        gate is Deny ==> step is Forbidden,
        gate is Allow && length is None ==> step is BadRequest,
        gate is Allow && length is Some ==> step == PutStep::Store(length->0),
{
    who_may_send_a_file(view@, src.ip, store_configured);
}

/// Connections are taken while fewer than 512 are under way.
pub proof fn connections_are_bounded(in_flight: usize, r: bool)
    requires
        call_ensures(takes_connection, (in_flight,), r),
    ensures
        r <==> in_flight < 512,
{
}

/// What the exit node answered reaches the client whole; where it answered nothing, the fallback
/// does.
pub proof fn the_exit_nodes_answer_is_passed_on(
    query: &[u8],
    resp: Option<Vec<u8>>,
    fallback: Vec<u8>,
    client: ClientTransport,
    r: Vec<u8>,
)
    requires
        call_ensures(delegated_answer, (query, resp, fallback, client), r),
    ensures
        resp is None || resp->0@.len() == 0 ==> r@ == fallback@,
        resp is Some && resp->0@.len() > 0 ==> r@.len() == resp->0@.len() && forall|i: int|
            0 <= i < r@.len() && i != 2 ==> #[trigger] r@[i] == resp->0@[i],
        resp is Some && resp->0@.len() > 0 && client is Tcp ==> r@ == resp->0@,
{
    if resp is Some {
        answers_of_the_exit_node_are_not_cut(query@, resp->0@, client);
    }
}

/// A peer that is not granted the internet is forbidden before its query is looked at.
pub proof fn ungranted_peers_are_forbidden(
    view: &DnsView,
    accepts: Option<bool>,
    src: IpAddr,
    question: Option<&Question>,
    query: &[u8],
    filtered: bool,
    egress: bool,
    serial: u32,
    r: Served,
)
    requires
        call_ensures(
            serve_query,
            (view, accepts, src, question, query, filtered, egress, serial),
            r,
        ),
        accepts != Some(true) || view@.peers is None || !view@.peers->0.has(KeyView::Ip(src)),
    ensures
        match r {
            Served::Forbidden(bytes) => is_status(bytes@, "HTTP/1.1 403 Forbidden"@),
            Served::Dns(_) => false,
        },
{
    reveal_strlit("HTTP/1.1 ");
    reveal_strlit("403 Forbidden");
    reveal_strlit("HTTP/1.1 403 Forbidden");
    assert("HTTP/1.1 "@ + "403 Forbidden"@ =~= "HTTP/1.1 403 Forbidden"@);
    assert(r@ is Forbidden);
}

/// The packet that the filter is asked about for a peer opens a TCP connection from that peer to
/// port 53.
pub proof fn the_probe_is_a_dns_connection(src: IpAddr, r: DnsProbe)
    requires
        call_ensures(dns_probe, (src,), r),
    ensures
        r.src == src,
        r.port == 53,
        r.tcp_flags == 2,
        r.dst is V4 == src is V4,
{
}

/// The body of a request is whole once as many bytes are there as it declares, and is then exactly
/// those.
pub proof fn a_posted_query_is_its_body(body: &PostBody, r: Option<DohRequest>)
    requires
        call_ensures(PostBody::poll, (body,), r),
    ensures
        body.body@.len() >= body.len ==> match r {
            Some(DohRequest::Query(q)) => q@ == body.body@.take(body.len as int),
            _ => false,
        },
        body.body@.len() < body.len && body.buffered > 8192 ==> r == Some(DohRequest::TooLarge),
        body.body@.len() < body.len && body.buffered <= 8192 ==> r is None,
{
    if r is Some {
        match r->0 {
            DohRequest::Query(q) => {
                assert(r->0@ == DohRequestView::Query(q@));
            },
            _ => {},
        }
    }
}

/// What is framed is read back: the prefix gives the length of the message, which follows it. Only
/// a message that is too long for the prefix is not framed, and only an empty one is not read.
pub proof fn framed_messages_are_read_back(
    msg: &[u8],
    out: Option<Vec<u8>>,
    len: Option<usize>,
)
    requires
        call_ensures(frame, (msg,), out),
        out is Some ==> call_ensures(framed_len, (out->0@[0], out->0@[1]), len),
    ensures
        out is None <==> msg@.len() > 65535,
        out is Some ==> out->0@.skip(2) == msg@,
        out is Some && msg@.len() > 0 ==> len == Some(msg@.len() as usize),
        out is Some && msg@.len() == 0 ==> len is None,
{
    if out is Some {
        framing_round_trips(msg@);
    }
}

/// A walk over the upstreams holds the first refusal that it is offered and relays it in the end
/// where no answer came; and else the fallback.
pub proof fn a_held_refusal_is_relayed_in_the_end(
    walk: &mut ForwardWalk,
    upstream: SocketAddr,
    answer: Option<UpstreamAnswer>,
    offered: Option<Vec<u8>>,
    fallback: Vec<u8>,
    r: Vec<u8>,
)
    requires
        call_ensures(ForwardWalk::offer, (walk, upstream, answer), offered),
        call_ensures(ForwardWalk::finish, (*final(walk), fallback), r),
    ensures
        old(walk).held() is Some ==> final(walk).held() == old(walk).held(),
        old(walk).held() is None && final(walk).held() is Some ==> final(walk).held() == given(
            answer,
        ) && offered is None && answer is Some && answer->0.from.ip == upstream.ip,
        final(walk).held() is None ==> r@ == fallback@,
        offered is Some ==> answer is Some && answer->0.from.ip == upstream.ip && final(walk).held()
            == old(walk).held(),
{
}

/// What control says of the configuration and of this node replaces what was known of both; no
/// configuration is one that is off. The peers, the exit node and what the node was set up with
/// stay.
pub proof fn a_new_configuration_replaces_the_old(
    view: &mut DnsView,
    cfg: Option<DnsConfig>,
    node: Option<Node>,
    accept_dns: bool,
)
    requires
        call_ensures(DnsView::on_state_update, (view, cfg, node, accept_dns), ()),
    ensures
        cfg is Some ==> final(view)@.cfg == cfg->0@,
        cfg is None ==> !final(view)@.cfg.magic_dns,
        node is Some ==> final(view)@.self_node == Some(node->0@),
        node is None ==> final(view)@.self_node is None,
        final(view)@.accept_dns == accept_dns,
        final(view)@.peers == old(view)@.peers,
        final(view)@.exit_doh == old(view)@.exit_doh,
        final(view)@.enable_ipv6 == old(view)@.enable_ipv6,
{
}

/// The peers, this node's configuration and the exit node are taken as they are told, each without
/// a change to the others; before anything is told nothing is known and nothing is served.
pub proof fn what_is_told_is_taken(
    view: &mut DnsView,
    other: &mut DnsView,
    fresh: DnsView,
    enable_ipv6: bool,
    accept_dns: bool,
    peers: PeerDb,
    exit_doh: Option<SocketAddr>,
)
    requires
        call_ensures(DnsView::new, (enable_ipv6, accept_dns), fresh),
        call_ensures(DnsView::on_peer_state, (view, peers, accept_dns), ()),
        call_ensures(DnsView::on_exit_node, (other, exit_doh), ()),
    ensures
        !fresh@.cfg.magic_dns && fresh@.peers is None && fresh@.self_node is None
            && fresh@.exit_doh is None && fresh@.enable_ipv6 == enable_ipv6 && fresh@.accept_dns
            == accept_dns,
        final(view)@.peers == Some(peers@),
        final(view)@.accept_dns == accept_dns,
        final(view)@.cfg == old(view)@.cfg,
        final(view)@.self_node == old(view)@.self_node,
        final(view)@.exit_doh == old(view)@.exit_doh,
        final(view)@.enable_ipv6 == old(view)@.enable_ipv6,
        final(other)@.exit_doh == exit_doh,
        final(other)@.peers == old(other)@.peers,
        final(other)@.cfg == old(other)@.cfg,
        final(other)@.self_node == old(other)@.self_node,
        final(other)@.accept_dns == old(other)@.accept_dns,
        final(other)@.enable_ipv6 == old(other)@.enable_ipv6,
{
}

/// What decodes to no question is not decided; what does is.
pub proof fn only_questions_are_decided(
    view: &DnsView,
    question: Option<&Question>,
    buf: &[u8],
    r: Option<Decision>,
)
    requires
        call_ensures(decide, (view, question, buf), r),
    ensures
        r is Some <==> question is Some,
{
}

/// The lock admits a node by its own signature alone.
pub proof fn nodes_are_admitted_by_their_signature(tracker: &PeerTracker, node: &Node, r: bool)
    requires
        call_ensures(PeerTracker::tka_admits, (tracker, node), r),
    ensures
        r <==> is_admitted(tracker.lock(), node@),
{
    who_is_admitted(tracker.lock(), node@);
}

/// Judging the stored peers again: one that is kept stays exactly as it is, and one that is not is
/// gone and named as dropped. Without a lock everybody stays.
pub proof fn a_judged_peer_stays_or_goes(tracker: &mut PeerTracker, r: IdSet, i: int)
    requires
        old(tracker).wf(),
        call_ensures(PeerTracker::tka_reevaluate_peer_db, (tracker,), r),
        0 <= i < old(tracker).peers().db.entries.len(),
    ensures
        ({
            let db = old(tracker).peers().db;
            let lock = old(tracker).lock();
            let entry = db.entries[i];
            let stays = lock is None || kept(lock, db.entries.map_values(|e: EntryView| e.node))[i];
            &&& final(tracker).peers().db.find(KeyView::StableId(entry.node.stable_id)) == (
            if stays {
                Some(entry)
            } else {
                None
            })
            &&& r@.contains(entry.id) == !stays
        }),
{
    old(tracker).valid_peers();
    a_new_lock_drops_whom_it_does_not_keep(old(tracker).peers(), old(tracker).lock(), i);
}

/// After a change of the lock the peers are published exactly where somebody was dropped, and then
/// as they are, with nobody named as stored.
pub proof fn drops_are_published(tracker: &mut PeerTracker, r: Option<PeerState>, i: int)
    requires
        old(tracker).wf(),
        call_ensures(PeerTracker::handle_authority_changed, (tracker,), r),
        0 <= i < old(tracker).peers().db.entries.len(),
    ensures
        ({
            let db = old(tracker).peers().db;
            let lock = old(tracker).lock();
            let stays = lock is None || kept(lock, db.entries.map_values(|e: EntryView| e.node))[i];
            &&& !stays ==> r is Some && r->0.deletions@.contains(db.entries[i].id)
            &&& r is Some ==> r->0.peers@ == final(tracker).peers().db && r->0.upserts@
                == Set::<PeerId>::empty() && (r->0.deletions@.contains(db.entries[i].id)
                ==> !stays)
        }),
{
    old(tracker).valid_peers();
    a_new_lock_drops_whom_it_does_not_keep(old(tracker).peers(), old(tracker).lock(), i);
}

/// A key that a peer advertises, where it is news, is what the peer is reached under from then on,
/// and the peers are published with that peer named as stored; and else nothing changes.
pub proof fn an_advertisement_is_taken_and_published(
    tracker: &mut PeerTracker,
    peer: PeerId,
    key: DiscoKey,
    r: Option<PeerState>,
)
    requires
        old(tracker).wf(),
        call_ensures(PeerTracker::handle_advertisement, (tracker, peer, key), r),
    ensures
        r is Some <==> !is_no_key(key) && old(tracker).peers().db.has(KeyView::Id(peer))
            && advertised_key(
            old(tracker).peers(),
            old(tracker).peers().db.find(KeyView::Id(peer))->0.node.node_key,
        ) != Some(key),
        r is None ==> final(tracker).peers() == old(tracker).peers(),
        r is Some ==> {
            &&& final(tracker).peers().db.has(KeyView::Id(peer))
            &&& final(tracker).peers().db.find(KeyView::Id(peer))->0.node.disco_key == Some(key)
            &&& r->0.peers@ == final(tracker).peers().db
            &&& r->0.upserts@.contains(peer)
        },
{
    old(tracker).valid_peers();
    an_advertised_key_is_taken(old(tracker).peers(), peer, key);
}

/// A key under which a frame of a peer was opened, where it is the peer's other key, is what the
/// peer is reached under from then on, and the peers are published; and else nothing changes.
pub proof fn an_observed_key_is_taken_and_published(
    tracker: &mut PeerTracker,
    peer: PeerId,
    key: DiscoKey,
    r: Option<PeerState>,
)
    requires
        old(tracker).wf(),
        call_ensures(PeerTracker::handle_disco_observed, (tracker, peer, key), r),
    ensures
        r is Some <==> old(tracker).peers().db.has(KeyView::Id(peer)) && ({
            let p = old(tracker).peers();
            let nk = p.db.find(KeyView::Id(peer))->0.node.node_key;
            &&& control_key(p, nk) == Some(key) || advertised_key(p, nk) == Some(key)
            &&& (if prefers_advertised(p, nk) {
                advertised_key(p, nk)
            } else {
                control_key(p, nk)
            }) != Some(key)
        }),
        r is None ==> final(tracker).peers() == old(tracker).peers(),
        r is Some ==> {
            &&& final(tracker).peers().db.has(KeyView::Id(peer))
            &&& final(tracker).peers().db.find(KeyView::Id(peer))->0.node.disco_key == Some(key)
            &&& r->0.peers@ == final(tracker).peers().db
            &&& r->0.upserts@.contains(peer)
        },
{
    old(tracker).valid_peers();
    an_observed_key_is_taken_up(old(tracker).peers(), peer, key);
}

/// A response of control is published exactly where it carries an update or patches, or changes who
/// is online or was seen; what is published is the peers as they then are, and everybody who waited
/// is answered with it. Where nothing is published, no peer has changed and nobody is answered.
pub proof fn a_response_is_published_where_it_matters(
    tracker: &mut PeerTracker,
    update: &StateUpdate,
    now: Timestamp,
    r: UpdateOutcome,
)
    requires
        old(tracker).wf(),
        old(tracker).peers().db.next_id + newcomers_of(*update) <= u64::MAX,
        call_ensures(PeerTracker::handle_state_update, (tracker, update, now), r),
    ensures
        update.peer_update is Some || update.peer_patches@.len() > 0 ==> r.publish is Some,
        r.publish is Some ==> r.publish->0.peers@ == final(tracker).peers().db
            && final(tracker).desk().seen && (!old(tracker).desk().seen ==> r.replies@.len()
            == old(tracker).desk().pending.len() && final(tracker).desk().pending.len() == 0),
        r.publish is None ==> final(tracker).peers().db == old(tracker).peers().db
            && r.replies@.len() == 0 && final(tracker).desk().pending
            == old(tracker).desk().pending,
{
    old(tracker).valid_peers();
    changes_are_told_truly(
        old(tracker).peers().db,
        update.online_change@,
        update.peer_seen_change@,
        now,
    );
    if r.publish is Some {
        the_first_update_answers_everyone(
            final(tracker).peers().db,
            DeskView { profiles: final(tracker).desk().profiles, ..old(tracker).desk() },
            final(tracker).desk(),
            r.replies@,
        );
    }
}

/// Every peer that a response of control takes away, brings in or alters, beyond who is online and
/// who was seen, is named in what is published.
pub proof fn a_response_tells_what_it_changes(
    tracker: &mut PeerTracker,
    update: &StateUpdate,
    now: Timestamp,
    r: UpdateOutcome,
    id: PeerId,
)
    requires
        old(tracker).wf(),
        old(tracker).peers().db.next_id + newcomers_of(*update) <= u64::MAX,
        update.online_change@.len() == 0,
        update.peer_seen_change@.len() == 0,
        call_ensures(PeerTracker::handle_state_update, (tracker, update, now), r),
    ensures
        ({
            let before = old(tracker).peers().db;
            let after = final(tracker).peers().db;
            &&& before.has(KeyView::Id(id)) && !after.has(KeyView::Id(id)) ==> r.publish is Some
                && r.publish->0.deletions@.contains(id)
            &&& after.has(KeyView::Id(id)) && after.find(KeyView::Id(id)) != before.find(
                KeyView::Id(id),
            ) ==> r.publish is Some && r.publish->0.upserts@.contains(id)
        }),
{
    old(tracker).valid_peers();
    let p = old(tracker).peers();
    let lock = old(tracker).lock();
    let patches = change_views(update.peer_patches@);
    if update.peer_update is Some || update.peer_patches@.len() > 0 {
        nothing_changes_untold(p, lock, update.peer_update, patches);
        assert(p =~= (PeersView { db: p.db, disco: p.disco }));
        assert(after_state_update(p, lock, *update, now).0 == after_peer_changes(
            p,
            lock,
            update.peer_update,
            patches,
        ));
    }
}

/// The response code of an outcome is the low half of the response's fourth byte, and 0 for one
/// that is too short to have one.
pub proof fn an_outcome_has_the_responses_code(
    response: Vec<u8>,
    consulted: Vec<SocketAddr>,
    r: DnsQueryResult,
)
    requires
        call_ensures(DnsQueryResult::new, (response, consulted), r),
    ensures
        r.response@ == response@,
        r.resolvers_consulted@ == consulted@,
        r.rcode == (if response@.len() >= 12 {
            response@[3] & 0x0F
        } else {
            0
        }),
{
    refusals_say_so(response@);
}

/// The serial goes up by one with every second, round and round, and is 0 before the epoch. The
/// time that is recorded for something seen is the time of the reading, where the reading is one of
/// the calendar.
pub proof fn clocks_are_read_as_they_stand(
    secs: u64,
    nanos: u32,
    serial: u32,
    next: u32,
    early: u32,
    time: Timestamp,
)
    requires
        secs < u64::MAX,
        call_ensures(soa_serial_at, (Some((secs, nanos)),), serial),
        call_ensures(soa_serial_at, (Some(((secs + 1) as u64, nanos)),), next),
        call_ensures(soa_serial_at, (None,), early),
        call_ensures(seen_at, (Some((secs, nanos)),), time),
    ensures
        next == (serial + 1) % 0x1_0000_0000,
        secs < 0x1_0000_0000 ==> serial == secs,
        early == 0,
        secs <= 8_210_266_876_799 && nanos < 1_000_000_000 ==> time.secs == secs && time.nanos
            == nanos,
{
}

/// A head is read to its first empty line; one that does not end within 16384 bytes is given up,
/// and until then more is to be read.
pub proof fn heads_are_read_to_their_end(reader: &HeaderReader, r: Option<usize>)
    requires
        call_ensures(HeaderReader::poll, (reader,), r),
    ensures
        head_end(reader.buf@) is Some ==> r is Some && r->0 == head_end(reader.buf@)->0,
        head_end(reader.buf@) is None ==> r == (if reader.buf@.len() > 16384 {
            Some(0usize)
        } else {
            None
        }),
{
}

/// A new tracker has no peers, knows no users and has nobody waiting; a lock that is put in force
/// changes no peer by itself.
pub proof fn a_tracker_starts_empty(
    authority: Option<Authority>,
    fresh: PeerTracker,
    tracker: &mut PeerTracker,
    other: Option<Authority>,
)
    requires
        call_ensures(PeerTracker::new, (authority,), fresh),
        old(tracker).wf(),
        call_ensures(PeerTracker::set_authority, (tracker, other), ()),
    ensures
        fresh.wf(),
        fresh.peers().db.entries.len() == 0,
        fresh.desk().pending.len() == 0,
        !fresh.desk().seen,
        other is None ==> final(tracker).lock() is None,
        other is Some ==> final(tracker).lock() == Some(other->0@),
        final(tracker).peers() == old(tracker).peers(),
        final(tracker).desk() == old(tracker).desk(),
{
}

/// A file that is put under a name without escapes is put under that name.
pub proof fn a_plain_file_name_is_kept(
    method: &str,
    path: &str,
    name: Seq<char>,
    tail: Seq<char>,
    r: Route,
)
    requires
        call_ensures(classify_route, (method, path), r),
        method@ == "PUT"@,
        path@ == "/v0/put/"@ + name + tail,
        !name.contains('?'),
        !name.contains('%'),
        tail.len() > 0 ==> tail[0] == '?',
    ensures
        match r {
            Route::TaildropPut { name: stored } => stored@ == name,
            _ => false,
        },
{
    let h = http::RequestView { method: method@, path: path@, headers: Seq::empty() };
    a_file_is_put_under_its_name(h, name, tail);
    the_name_stands_behind_the_route(path@, name, tail);
    plain_names_are_kept(name);
    assert(r@ is TaildropPut);
}

/// The unlocked peers are kept track of in the same way whatever else control says along with the
/// update.
pub proof fn unlocked_peers_are_tracked_whatever_else_comes(
    updater: &mut PacketfilterUpdater,
    other: &mut PacketfilterUpdater,
    node: Option<&Node>,
    update: Option<&PeerUpdate>,
    filter_changed: bool,
    r: Option<Vec<IpPrefix>>,
    changed: bool,
)
    requires
        old(updater).wf(),
        old(other).wf(),
        old(updater)@.unlocked == old(other)@.unlocked,
        call_ensures(PacketfilterUpdater::handle, (updater, node, update, filter_changed), r),
        call_ensures(PacketfilterUpdater::track_unlocked_peers, (other, update), changed),
    ensures
        final(updater)@.unlocked == final(other)@.unlocked,
        r is Some <==> filter_changed || changed,
        update is None ==> !changed && final(other)@.unlocked == old(other)@.unlocked,
{
}

/// Once an update has come, each request is answered at once: a name and an address with the first
/// peer that has it, a source address with that peer and what its user is called, a destination with
/// the peers that it is routed to.
pub proof fn requests_are_answered_at_once(
    by_name: &mut PeerTracker,
    by_ip: &mut PeerTracker,
    by_source: &mut PeerTracker,
    by_route: &mut PeerTracker,
    ticket: u64,
    name: String,
    ip: IpAddr,
    port: u16,
    named: Option<Reply>,
    owner: Option<Reply>,
    source: Option<Reply>,
    routed: Option<Reply>,
)
    requires
        old(by_name).wf(),
        old(by_ip).wf(),
        old(by_source).wf(),
        old(by_route).wf(),
        old(by_name).desk().seen,
        old(by_ip).desk().seen,
        old(by_source).desk().seen,
        old(by_route).desk().seen,
        call_ensures(PeerTracker::peer_by_name, (by_name, ticket, name), named),
        call_ensures(PeerTracker::peer_by_tailnet_ip, (by_ip, ticket, ip), owner),
        call_ensures(PeerTracker::whois, (by_source, ticket, SocketAddr { ip, port }), source),
        call_ensures(PeerTracker::peer_by_accepted_route, (by_route, ticket, ip), routed),
    ensures
        named is Some && named->0@ == ReplyView::Peer(
            match old(by_name).peers().db.find(KeyView::Name(name@)) {
                Some(e) => Some(e.node),
                None => None,
            },
        ),
        owner is Some && owner->0@ == ReplyView::Peer(
            match old(by_ip).peers().db.find(KeyView::Ip(ip)) {
                Some(e) => Some(e.node),
                None => None,
            },
        ),
        source is Some && source->0@ == ReplyView::WhoIs(
            match old(by_source).peers().db.find(KeyView::Ip(ip)) {
                Some(e) => Some((e.node, called(old(by_source).desk().profiles, e.node.user_id))),
                None => None,
            },
        ),
        routed is Some && routed->0@ == ReplyView::Peers(
            entries_routed(old(by_route).peers().db, ip).map_values(|e: EntryView| e.node),
        ),
{
    requests_are_answered_from_the_peers(
        old(by_name).peers().db,
        old(by_name).desk().profiles,
        name@,
        ip,
        port,
    );
    requests_are_answered_from_the_peers(
        old(by_ip).peers().db,
        old(by_ip).desk().profiles,
        name@,
        ip,
        port,
    );
    requests_are_answered_from_the_peers(
        old(by_source).peers().db,
        old(by_source).desk().profiles,
        name@,
        ip,
        port,
    );
    requests_are_answered_from_the_peers(
        old(by_route).peers().db,
        old(by_route).desk().profiles,
        name@,
        ip,
        port,
    );
}

/// A request that comes before the first update waits, and is answered when the first update comes.
pub proof fn an_early_request_is_answered_by_the_first_update(
    tracker: &mut PeerTracker,
    later: &mut PeerTracker,
    ticket: u64,
    name: String,
    early: Option<Reply>,
    replies: Vec<(u64, Reply)>,
)
    requires
        old(tracker).wf(),
        !old(tracker).desk().seen,
        call_ensures(PeerTracker::peer_by_name, (tracker, ticket, name), early),
        *old(later) == *final(tracker),
        call_ensures(PeerTracker::service_pending_requests, (later,), replies),
    ensures
        early is None,
        replies@.len() == old(tracker).desk().pending.len() + 1,
        replies@.last().0 == ticket,
        replies@.last().1@ == ReplyView::Peer(
            match old(tracker).peers().db.find(KeyView::Name(name@)) {
                Some(e) => Some(e.node),
                None => None,
            },
        ),
        final(later).desk().seen,
        final(later).desk().pending.len() == 0,
{
    requests_wait_for_the_first_update(
        old(tracker).peers().db,
        old(tracker).desk(),
        final(tracker).desk(),
        ticket,
        RequestView::PeerByName(name@),
        early,
    );
    the_first_update_answers_everyone(
        old(later).peers().db,
        old(later).desk(),
        final(later).desk(),
        replies@,
    );
    requests_are_answered_from_the_peers(
        old(tracker).peers().db,
        old(tracker).desk().profiles,
        name@,
        IpAddr::V4(Ipv4Addr { a: 0, b: 0, c: 0, d: 0 }),
        0,
    );
}

/// The users that a response of control describes are known as it describes them last, whether or
/// not anything is published; the others stay as known.
pub proof fn described_users_are_known(
    tracker: &mut PeerTracker,
    update: &StateUpdate,
    now: Timestamp,
    r: UpdateOutcome,
    k: int,
    id: UserId,
)
    requires
        old(tracker).wf(),
        old(tracker).peers().db.next_id + newcomers_of(*update) <= u64::MAX,
        call_ensures(PeerTracker::handle_state_update, (tracker, update, now), r),
    ensures
        ({
            let users = update.user_profiles@;
            let known = final(tracker).desk().profiles;
            &&& 0 <= k < users.len() && (forall|j: int|
                k < j < users.len() ==> (#[trigger] users[j]).id != users[k].id)
                ==> known.contains_key(users[k].id) && known[users[k].id] == users[k]@
            &&& (forall|j: int| 0 <= j < users.len() ==> (#[trigger] users[j]).id != id)
                ==> known.contains_key(id) == old(tracker).desk().profiles.contains_key(id) && (
            known.contains_key(id) ==> known[id] == old(tracker).desk().profiles[id])
        }),
{
    let users = update.user_profiles@;
    let views = user_views(users);
    users_are_as_last_described(old(tracker).desk().profiles, views);
    assert(forall|j: int| 0 <= j < views.len() ==> #[trigger] views[j] == users[j]@);
    if 0 <= k < users.len() && (forall|j: int|
        k < j < users.len() ==> (#[trigger] users[j]).id != users[k].id) {
        assert forall|j: int| k < j < views.len() implies (#[trigger] views[j]).id
            != views[k].id by {
            assert(users[j].id != users[k].id);
        }
    }
    if forall|j: int| 0 <= j < users.len() ==> (#[trigger] users[j]).id != id {
        assert forall|j: int| 0 <= j < views.len() implies (#[trigger] views[j]).id != id by {
            assert(users[j].id != id);
        }
        assert(final(tracker).desk().profiles.contains_key(id)
            == old(tracker).desk().profiles.contains_key(id));
    }
}

/// A connection that has just been made counts as traffic.
pub proof fn a_new_connection_counts_as_traffic(
    runner: &mut DerpRunner,
    now: u64,
    end: Option<u64>,
)
    requires
        old(runner).wf(),
        old(runner).phase == (Phase::Connecting { packets: None, disco: None }),
        now + 10_000_000_000 <= u64::MAX,
        call_ensures(DerpRunner::connected, (runner, now), ()),
        call_ensures(DerpRunner::deadline, (&*final(runner),), end),
    ensures
        final(runner).phase is Connected,
        final(runner).home == old(runner).home,
        old(runner).home ==> end is None,
        !old(runner).home ==> end == Some((now + 10_000_000_000) as u64),
{
}

} // verus!
