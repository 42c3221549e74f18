//! What the relays, the link supervisor and the overlay owe, said of what they are given.

use vstd::prelude::*;

use crate::addr::{IpAddr, Ipv4Addr, SocketAddr};
use crate::multiderp::{
    addrs_in_order, for_dataplane, key_of, peer_of, region_addrs, resting, stun_addrs,
    told_of_home, DerpRegion, DerpServer, Phase, RegionEntry, RegionId, RelayedFrame,
};
use crate::netmon::{first_input, Input, Ready, Step, Supervisor};
use crate::node::{NodeKey, NodeView};
use crate::overlay::{addresses, with_services};
use crate::peer_db::{DbView, KeyView};
use crate::search::{first_where_is, first_where_none};

verus! {

/// Where a server is probed: at its fixed IPv4 address, on its port; one without either is not.
pub open spec fn probe_of(server: DerpServer) -> Option<SocketAddr> {
    if server.ipv4 is FixedAddr && server.stun_port is Some {
        Some(
            SocketAddr {
                ip: IpAddr::V4(server.ipv4->FixedAddr_0),
                port: server.stun_port->0,
            },
        )
    } else {
        None
    }
}

/// The servers of a region are probed in their order, each that can be once for every time that it
/// is listed.
pub proof fn every_fixed_server_is_probed(servers: Seq<DerpServer>)
    ensures
        stun_addrs(servers) == servers.filter_map(|s: DerpServer| probe_of(s)),
    decreases servers.len(),
{
    if servers.len() > 0 {
        every_fixed_server_is_probed(servers.drop_last());
        let f = |s: DerpServer| probe_of(s);
        match f(servers.last()) {
            Some(a) => {
                assert(stun_addrs(servers.drop_last()).push(a) =~= stun_addrs(servers.drop_last())
                    + seq![a]);
            },
            None => {},
        }
    }
}

/// The regions are probed one after the other, each with all of its servers.
pub proof fn every_region_is_probed(regions: Seq<DerpRegion>, region: DerpRegion)
    ensures
        region_addrs(regions.push(region)) == region_addrs(regions) + region.servers@.filter_map(
            |s: DerpServer| probe_of(s),
        ),
        region_addrs(Seq::empty()) == Seq::<SocketAddr>::empty(),
{
    every_fixed_server_is_probed(region.servers@);
    assert(regions.push(region).drop_last() =~= regions);
}

/// The regions of the relay map are probed one after the other, each with all of its servers.
pub proof fn every_mapped_region_is_probed(
    regions: Map<RegionId, DerpRegion>,
    ids: Seq<RegionId>,
    id: RegionId,
)
    ensures
        addrs_in_order(regions, ids.push(id)) == addrs_in_order(regions, ids)
            + regions[id].servers@.filter_map(|s: DerpServer| probe_of(s)),
        addrs_in_order(regions, Seq::empty()) == Seq::<SocketAddr>::empty(),
{
    every_fixed_server_is_probed(regions[id].servers@);
    assert(ids.push(id).drop_last() =~= ids);
}

/// After a measurement exactly the home region's runner is told that it is home; no runner comes,
/// goes or changes its transport.
pub proof fn exactly_one_region_is_home(
    derps: Map<RegionId, RegionEntry>,
    home: Option<RegionId>,
    id: RegionId,
)
    ensures
        told_of_home(derps, home).contains_key(id) == derps.contains_key(id),
        derps.contains_key(id) ==> told_of_home(derps, home)[id].home == (home == Some(id)),
        derps.contains_key(id) ==> told_of_home(derps, home)[id].transport_id
            == derps[id].transport_id,
{
}

/// Without a connection a home region's runner connects with nothing queued, and another waits.
pub proof fn home_connects_and_others_wait()
    ensures
        resting(true) == (Phase::Connecting { packets: None, disco: None }),
        resting(false) is Idle,
{
}

/// Every frame of a batch goes to the dataplane, in order, but those that look like path discovery
/// and that the direct socket, where there is one, took.
pub proof fn frames_that_are_not_taken_go_on(frames: Seq<RelayedFrame>, sock_bound: bool)
    ensures
        for_dataplane(frames, sock_bound) == frames.filter(
            |f: RelayedFrame| !(sock_bound && f.looks_like_disco && f.taken),
        ).map_values(|f: RelayedFrame| f.bytes),
    decreases frames.len(),
{
    reveal(Seq::filter);
    let p = |f: RelayedFrame| !(sock_bound && f.looks_like_disco && f.taken);
    let bytes = |f: RelayedFrame| f.bytes;
    if frames.len() > 0 {
        let short = frames.drop_last();
        frames_that_are_not_taken_go_on(short, sock_bound);
        assert(frames.filter(p) == (if p(frames.last()) {
            short.filter(p).push(frames.last())
        } else {
            short.filter(p)
        }));
        assert(for_dataplane(frames, sock_bound) =~= frames.filter(p).map_values(bytes));
    } else {
        assert(for_dataplane(frames, sock_bound) =~= frames.filter(p).map_values(bytes));
    }
}

/// Packets for a peer go to the key of the node that is stored under its number.
pub proof fn packets_go_to_the_peers_key(db: DbView, i: int)
    requires
        db.wf(),
        0 <= i < db.entries.len(),
    ensures
        key_of(Some(db), db.entries[i].id) == Some(db.entries[i].node.node_key),
        key_of(None, db.entries[i].id) is None,
{
    let key = KeyView::Id(db.entries[i].id);
    let p = |k: int| key.selects(db.entries[k]);
    assert(p(i));
    assert forall|j: int| 0 <= j < i implies !#[trigger] p(j) by {
        assert(db.entries[j].id != db.entries[i].id);
    }
    first_where_is(p, db.entries.len() as int, i);
}

/// Packets from a key come from the first peer whose node has it, and from nobody where none has.
pub proof fn packets_come_from_the_keys_peer(db: DbView, key: NodeKey, i: int)
    ensures
        0 <= i < db.entries.len() && db.entries[i].node.node_key == key && (forall|j: int|
            0 <= j < i ==> (#[trigger] db.entries[j]).node.node_key != key) ==> peer_of(
            Some(db),
            key,
        ) == Some(db.entries[i].id),
        (forall|j: int| 0 <= j < db.entries.len() ==> (#[trigger] db.entries[j]).node.node_key != key)
            ==> peer_of(Some(db), key) is None,
        peer_of(None, key) is None,
{
    let by_key = KeyView::NodeKey(key);
    let p = |k: int| by_key.selects(db.entries[k]);
    if 0 <= i < db.entries.len() && db.entries[i].node.node_key == key && (forall|j: int|
        0 <= j < i ==> (#[trigger] db.entries[j]).node.node_key != key) {
        assert(p(i));
        first_where_is(p, db.entries.len() as int, i);
    }
    if forall|j: int|
        0 <= j < db.entries.len() ==> (#[trigger] db.entries[j]).node.node_key != key {
        first_where_none(p, db.entries.len() as int);
    }
}

/// A link change leads to a rebind at once where no rebind was done yet or a second has passed
/// since the last; and else one is owed, and nothing is done now.
pub proof fn a_settled_link_is_rebound(s: Supervisor, now: u64)
    ensures
        s.last_rebind is None || now >= s.last_rebind->0 + 1_000_000_000 ==> s.next(
            Input::LinkChange,
            now,
        ) == (Supervisor { last_rebind: s.last_rebind, pending: false }, Step::Rebind),
        s.last_rebind is Some && now < s.last_rebind->0 + 1_000_000_000 ==> s.next(
            Input::LinkChange,
            now,
        ) == (Supervisor { last_rebind: s.last_rebind, pending: true }, Step::Wait),
{
}

/// A deadline leads to a rebind exactly where one is owed; a shutdown that is none and a deadline
/// with nothing owed change nothing; the end of the stream of link changes ends the supervisor.
pub proof fn other_inputs_of_the_supervisor(s: Supervisor, now: u64)
    ensures
        s.next(Input::Deadline, now) == (
            Supervisor { last_rebind: s.last_rebind, pending: false },
            if s.pending {
                Step::Rebind
            } else {
                Step::Wait
            },
        ),
        s.next(Input::Shutdown(false), now) == (s, Step::Wait),
        s.next(Input::Shutdown(true), now) == (s, Step::Stop),
        s.next(Input::StreamClosed, now) == (s, Step::Stop),
{
}

/// Of several inputs that are ready, the shutdown signal comes first, then the link, then the
/// deadline.
pub proof fn inputs_have_their_order(ready: Ready)
    ensures
        match first_input(ready) {
            Some(Input::Shutdown(v)) => ready.shutdown == Some(v),
            Some(Input::LinkChange) => ready.shutdown is None && ready.link == Some(true),
            Some(Input::StreamClosed) => ready.shutdown is None && ready.link == Some(false),
            Some(Input::Deadline) => ready.shutdown is None && ready.link is None
                && ready.deadline,
            None => ready.shutdown is None && ready.link is None && !ready.deadline,
        },
{
    if ready.link is Some {
        let up = ready.link->0;
        assert(ready.link == Some(up));
    }
}

/// This node's addresses start with its own, IPv4 before IPv6, and that of MagicDNS; its IPv6
/// address is one of them only where IPv6 is enabled. Those of its services follow, and no address
/// is added that is listed already.
pub proof fn own_addresses_come_first(node: NodeView, enable_ipv6: bool)
    ensures
        ({
            let all = addresses(node, enable_ipv6);
            let dns = IpAddr::V4(Ipv4Addr { a: 100, b: 100, c: 100, d: 100 });
            let own: int = if enable_ipv6 {
                3
            } else {
                2
            };
            &&& all.len() >= own
            &&& all[0] == IpAddr::V4(node.ipv4)
            &&& enable_ipv6 ==> all[1] == IpAddr::V6(node.ipv6)
            &&& all[own - 1] == dns
            &&& forall|i: int, j: int|
                own <= j < all.len() && 0 <= i < j ==> #[trigger] all[i] != #[trigger] all[j]
        }),
{
    let base = if enable_ipv6 {
        seq![
            IpAddr::V4(node.ipv4),
            IpAddr::V6(node.ipv6),
            IpAddr::V4(Ipv4Addr { a: 100, b: 100, c: 100, d: 100 }),
        ]
    } else {
        seq![
            IpAddr::V4(node.ipv4),
            IpAddr::V4(Ipv4Addr { a: 100, b: 100, c: 100, d: 100 }),
        ]
    };
    services_are_added_once(base, node.service_addresses, enable_ipv6);
    assert(addresses(node, enable_ipv6) == with_services(
        base,
        node.service_addresses,
        enable_ipv6,
    ));
}

proof fn services_are_added_once(base: Seq<IpAddr>, vips: Seq<IpAddr>, enable_ipv6: bool)
    ensures
        ({
            let all = with_services(base, vips, enable_ipv6);
            &&& all.len() >= base.len()
            &&& forall|i: int| 0 <= i < base.len() ==> all[i] == #[trigger] base[i]
            &&& forall|i: int, j: int|
                base.len() <= j < all.len() && 0 <= i < j ==> #[trigger] all[i]
                    != #[trigger] all[j]
        }),
    decreases vips.len(),
{
    if vips.len() > 0 {
        services_are_added_once(base, vips.drop_last(), enable_ipv6);
        let before = with_services(base, vips.drop_last(), enable_ipv6);
        let all = with_services(base, vips, enable_ipv6);
        assert forall|i: int, j: int|
            base.len() <= j < all.len() && 0 <= i < j implies #[trigger] all[i]
            != #[trigger] all[j] by {
            if j == before.len() {
                assert(before[i] == all[i]);
            } else {
                assert(before[i] != before[j]);
            }
        }
    }
}

} // verus!
