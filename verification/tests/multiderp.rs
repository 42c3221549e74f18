//! The relays.

use ts_runtime::addr::{Ipv4Addr, Ipv6Addr, SocketAddr};
use ts_runtime::clock::{seen_at, soa_serial, soa_serial_at, unix_time};
use ts_runtime::multiderp::{
    demux_relayed_disco, goes_on, lookup_node_key, lookup_peer_id, stun_servers_from_regions,
    DataplaneReply, DerpRegion, DerpRunner, DerpServer, DiscoFrame, DiscoRoute, IpUsage, Multiderp,
    Outbound, Phase, RelayedFrame, RunnerStep, INACTIVITY_TIMEOUT,
};
use ts_runtime::node::{Node, NodeKey, PeerId, Timestamp};
use ts_runtime::peer_db::PeerDb;

fn relayed(bytes: &[u8], taken: bool) -> RelayedFrame {
    RelayedFrame {
        bytes: bytes.to_vec(),
        looks_like_disco: bytes[0] != 0x04,
        taken,
    }
}

const DISCO_FRAME: &[u8] = b"TS\xf0\x9f\x92\xac sealed";

#[test]
fn relayed_call_me_maybe_is_demuxed_not_forwarded() {
    let wg = [0x04u8, 0, 0, 0, 1, 2, 3, 4];
    let batch = vec![relayed(DISCO_FRAME, true), relayed(&wg, false)];
    let to_dataplane = demux_relayed_disco(batch, true);
    assert_eq!(to_dataplane.len(), 1, "only the data frame reaches the dataplane");
    assert_eq!(to_dataplane[0], wg);
}

#[test]
fn without_direct_sock_all_frames_forwarded() {
    let wg = [0x04u8, 9, 9];
    let batch = vec![relayed(DISCO_FRAME, false), relayed(&wg, false)];
    let out = demux_relayed_disco(batch, false);
    assert_eq!(out.len(), 2, "no demux without a direct socket; all frames pass through");
    assert_eq!(out, vec![DISCO_FRAME.to_vec(), wg.to_vec()]);
}

#[test]
fn frames_that_the_socket_does_not_take_are_data() {
    let out = demux_relayed_disco(vec![relayed(DISCO_FRAME, false)], true);
    assert_eq!(out, vec![DISCO_FRAME.to_vec()]);
}

fn server(ipv4: IpUsage, stun_port: Option<u16>) -> DerpServer {
    DerpServer { ipv4, stun_port }
}

fn region(servers: Vec<DerpServer>) -> DerpRegion {
    DerpRegion { servers }
}

#[test]
fn stun_servers_from_regions_returns_only_fixed_v4_with_port() {
    let fixed = Ipv4Addr::new(203, 0, 113, 5);
    let r = region(vec![
        server(IpUsage::FixedAddr(fixed), Some(3478)),
        server(IpUsage::UseDns, Some(3478)),
        server(IpUsage::Disable, Some(3478)),
        server(IpUsage::FixedAddr(Ipv4Addr::new(198, 51, 100, 9)), None),
    ]);
    let got = stun_servers_from_regions(&vec![r]);
    assert_eq!(got, vec![SocketAddr::v4(203, 0, 113, 5, 3478)]);
}

#[test]
fn stun_servers_from_regions_empty_when_no_fixed_v4() {
    let r = region(vec![server(IpUsage::UseDns, Some(3478)), server(IpUsage::Disable, None)]);
    assert!(stun_servers_from_regions(&vec![r]).is_empty());
}

#[test]
fn every_region_is_probed_once() {
    let mut derps = Multiderp::new();
    assert!(derps.stun_servers_v4().is_empty());
    for d in [1, 2, 3, 2] {
        let fixed = IpUsage::FixedAddr(Ipv4Addr::new(203, 0, 113, d));
        derps.learn_region(d as u32, region(vec![server(fixed, Some(3478))]));
    }
    let mut got: Vec<String> =
        derps.stun_servers_v4().iter().map(|addr| format!("{addr:?}")).collect();
    got.sort();
    let want: Vec<String> =
        (1..4).map(|d| format!("{:?}", SocketAddr::v4(203, 0, 113, d, 3478))).collect();
    assert_eq!(got, want);
}

#[test]
fn regions_get_one_runner_each() {
    let mut derps = Multiderp::new();
    assert_eq!(derps.disco_route(5), DiscoRoute::UnknownRegion);
    assert!(derps.learn_region(5, region(vec![])));
    assert_eq!(derps.disco_route(5), DiscoRoute::NotEstablished);
    assert!(!derps.ensure_region(5, DataplaneReply::Failed, false));
    assert!(!derps.ensure_region(5, DataplaneReply::Stopped, true));
    assert_eq!(derps.transport_id_for_region(5), None);
    assert!(derps.ensure_region(5, DataplaneReply::Transport(77), false));
    assert_eq!(derps.transport_id_for_region(5), Some(77));
    assert_eq!(derps.disco_route(5), DiscoRoute::Relay);
    assert!(!derps.learn_region(5, region(vec![])));
    assert!(!derps.ensure_region(5, DataplaneReply::Transport(78), false));
    assert_eq!(derps.transport_id_for_region(5), Some(77));
}

#[test]
fn exactly_the_home_region_is_told_so() {
    let mut derps = Multiderp::new();
    for id in [1, 2] {
        derps.learn_region(id, region(vec![]));
        derps.ensure_region(id, DataplaneReply::Transport(id as u64), false);
    }
    let home = |derps: &Multiderp| -> Vec<bool> {
        [1, 2, 3].iter().map(|id| derps.derps.get(id).is_some_and(|e| e.home)).collect()
    };
    derps.measured(None);
    assert_eq!(home(&derps), vec![false, false, false]);
    derps.measured(Some(1));
    assert_eq!(home(&derps), vec![true, false, false]);
    derps.measured(Some(1));
    assert_eq!(home(&derps), vec![true, false, false], "home stays home");
    derps.measured(Some(3));
    assert_eq!(home(&derps), vec![false, false, false], "it has no runner yet");
    derps.ensure_region(3, DataplaneReply::Transport(3), false);
    assert_eq!(home(&derps), vec![false, false, true]);
    derps.measured(None);
    assert_eq!(derps.current_home_derp, Some(3));
}

fn packets(byte: u8) -> Outbound {
    Outbound {
        peer: PeerId(1),
        packets: vec![vec![byte]],
    }
}

fn frame() -> DiscoFrame {
    DiscoFrame {
        to: NodeKey { hi: 1, lo: 2 },
        frame: vec![3],
    }
}

#[test]
fn away_from_home_connections_come_and_go() {
    let mut runner = DerpRunner::new(false);
    assert!(matches!(runner.phase, Phase::Idle));
    assert!(matches!(runner.outbound(Some(packets(1)), 0), RunnerStep::Connect));
    match runner.queued() {
        (Some(queued), None) => assert_eq!(queued.packets, vec![vec![1]]),
        _ => panic!("the packets are queued"),
    }
    runner.connected(10);
    assert_eq!(runner.deadline(), Some(10 + INACTIVITY_TIMEOUT));
    runner.received(20);
    assert_eq!(runner.deadline(), Some(20 + INACTIVITY_TIMEOUT));
    assert!(matches!(runner.disco(Some(frame()), 30), RunnerStep::SendDisco(_)));
    assert_eq!(runner.deadline(), Some(30 + INACTIVITY_TIMEOUT));
    assert!(matches!(runner.timed_out(false), RunnerStep::Close));
    assert!(matches!(runner.phase, Phase::Idle));
    assert!(matches!(runner.disco(Some(frame()), 40), RunnerStep::Connect));
    runner.failed();
    assert!(matches!(runner.phase, Phase::Idle));
}

#[test]
fn at_home_the_connection_stays() {
    let mut runner = DerpRunner::new(true);
    assert!(matches!(runner.phase, Phase::Connecting { .. }));
    runner.connected(10);
    assert_eq!(runner.deadline(), None);
    assert!(matches!(runner.home_changed(false), RunnerStep::Wait));
    assert_eq!(runner.deadline(), Some(10 + INACTIVITY_TIMEOUT));
    assert!(matches!(runner.timed_out(true), RunnerStep::Wait), "home again by then");
    assert!(matches!(runner.outbound(None, 20), RunnerStep::Close));
    assert!(matches!(runner.phase, Phase::Connecting { .. }), "and connects again");
    let mut away = DerpRunner::new(false);
    assert!(matches!(away.home_changed(false), RunnerStep::Wait));
    assert!(matches!(away.home_changed(true), RunnerStep::Connect));
    assert!(goes_on(false, false, false));
    assert!(!goes_on(true, false, false) && !goes_on(false, true, false));
    assert!(!goes_on(false, false, true));
}

#[test]
fn keys_and_peers_are_looked_up_both_ways() {
    let key = NodeKey { hi: 9, lo: 9 };
    let node = Node {
        id: 1,
        stable_id: "n1".to_string(),
        hostname: "host".to_string(),
        tailnet: None,
        user_id: 0,
        ipv4: Ipv4Addr::new(100, 64, 0, 1),
        ipv6: Ipv6Addr { bits: 1 },
        service_addresses: vec![],
        node_key: key,
        node_key_expiry: None,
        online: None,
        last_seen: None,
        key_signature: vec![],
        disco_key: None,
        accepted_routes: vec![],
        underlay_addresses: vec![],
        derp_region: None,
        cap: 0,
        cap_map: vec![],
        unsigned_peer_api_only: false,
    };
    let mut db = PeerDb::new();
    let id = db.upsert(&node);
    assert_eq!(lookup_peer_id(Some(&db), key), Some(id));
    assert_eq!(lookup_node_key(Some(&db), id), Some(key));
    assert_eq!(lookup_peer_id(None, key), None);
    assert_eq!(lookup_node_key(None, id), None);
    assert_eq!(lookup_peer_id(Some(&db), NodeKey { hi: 0, lo: 9 }), None);
}

#[test]
fn clocks_read_as_serials_and_sightings() {
    let (secs, nanos) = unix_time().expect("the clock is past the epoch");
    assert!(secs > 1_600_000_000 && nanos < 1_000_000_000);
    assert!(soa_serial() >= secs as u32);
    assert_eq!(soa_serial_at(Some((1_700_000_000, 5))), 1_700_000_000);
    assert_eq!(soa_serial_at(Some((0x1_0000_0007, 0))), 7);
    assert_eq!(soa_serial_at(None), 0);
    assert_eq!(
        seen_at(Some((1_700_000_000, 5))),
        Timestamp {
            secs: 1_700_000_000,
            nanos: 5
        }
    );
    assert_eq!(seen_at(None), Timestamp { secs: 0, nanos: 0 });
    assert_eq!(seen_at(Some((u64::MAX / 2, 0))), Timestamp { secs: 0, nanos: 0 });
}
