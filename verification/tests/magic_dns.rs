//! Queries and what is decided on them.

use std::sync::Arc;

use tokio::sync::Semaphore;
use ts_runtime::addr::{IpAddr, Ipv4Addr, Ipv6Addr, SocketAddr};
use ts_runtime::clock::{soa_serial_at, unix_time};
use ts_runtime::dns_message::{
    check_response_size_and_set_tc, servfail_response, ClientTransport, UpstreamTransport,
};
use ts_runtime::dns_names::{
    is_ip6_arpa, is_tailnet_cgnat, qualify, reverse_zone_of, suffix_matches,
};
use ts_runtime::forward::{ask_with_tcp_retry, TcpRetry};
use ts_runtime::magic_dns::{
    authoritative_zone_for, bound_forwards, decide, decide_at, forward_plan, is_tailnet_name, magic_dns_ip,
    recursive_plan, resolvers_consulted, serve_step, Decision, DnsConfig, DnsQueryResult,
    DnsReply, DnsRoute, DnsView, ExtraRecord, QType, Query, Question, RData, Rcode, RecursivePlan,
    ServeStep, MAX_INFLIGHT_FORWARDS,
};
use ts_runtime::node::{Node, NodeKey};
use ts_runtime::peer_db::PeerDb;

const DNS_SUBDOMAIN_RESOLVE: &str = "dns-subdomain-resolve";

fn v6(hi: u16, lo: u16) -> Ipv6Addr {
    Ipv6Addr {
        bits: ((hi as u128) << 112) | lo as u128,
    }
}

fn test_node() -> Node {
    Node {
        id: 1,
        stable_id: "n1".to_string(),
        hostname: "host".to_string(),
        tailnet: Some("user.ts.net".to_string()),
        user_id: 0,
        ipv4: Ipv4Addr::new(100, 64, 0, 1),
        ipv6: v6(0xfd7a, 1),
        service_addresses: vec![],
        node_key: NodeKey { hi: 0, lo: 0 },
        node_key_expiry: None,
        online: None,
        last_seen: None,
        key_signature: vec![],
        disco_key: None,
        accepted_routes: vec![],
        underlay_addresses: vec![],
        derp_region: None,
        cap: 0,
        cap_map: vec![],
        unsigned_peer_api_only: false,
    }
}

fn db_of(node: &Node) -> PeerDb {
    let mut db = PeerDb::new();
    db.upsert(node);
    db
}

fn view_with_peer() -> DnsView {
    let mut view = DnsView::new(false, true);
    view.cfg.magic_dns = true;
    view.cfg.search_domains = vec!["user.ts.net".to_string()];
    view.peers = Some(db_of(&test_node()));
    view
}

fn udp(a: u8, b: u8, c: u8, d: u8) -> SocketAddr {
    SocketAddr::v4(a, b, c, d, 53)
}

fn route(suffix: &str, upstreams: Vec<SocketAddr>) -> DnsRoute {
    DnsRoute {
        suffix: suffix.to_string(),
        upstreams,
    }
}

fn view_with_routes(
    routes: Vec<DnsRoute>,
    resolvers: Vec<SocketAddr>,
    fallback: Vec<SocketAddr>,
) -> DnsView {
    let mut view = DnsView::new(false, true);
    view.cfg.magic_dns = true;
    view.cfg.search_domains = vec!["user.ts.net".to_string()];
    view.cfg.routes = routes;
    view.cfg.resolvers = resolvers;
    view.cfg.fallback_resolvers = fallback;
    view
}

fn build_query(id: u16, labels: &[&str], qtype: u16, qclass: u16) -> Vec<u8> {
    let mut buf: Vec<u8> = Vec::new();
    buf.extend_from_slice(&id.to_be_bytes());
    buf.extend_from_slice(&0u16.to_be_bytes());
    buf.extend_from_slice(&1u16.to_be_bytes());
    buf.extend_from_slice(&[0; 6]);
    for label in labels {
        buf.push(label.len() as u8);
        buf.extend_from_slice(label.as_bytes());
    }
    buf.push(0);
    buf.extend_from_slice(&qtype.to_be_bytes());
    buf.extend_from_slice(&qclass.to_be_bytes());
    buf
}

fn build_edns_query(
    id: u16,
    labels: &[&str],
    qtype: u16,
    qclass: u16,
    udp_size: u16,
) -> Vec<u8> {
    let mut buf = build_query(id, labels, qtype, qclass);
    buf[11] = 1;
    buf.push(0);
    buf.extend_from_slice(&41u16.to_be_bytes());
    buf.extend_from_slice(&udp_size.to_be_bytes());
    buf.extend_from_slice(&0u32.to_be_bytes());
    buf.extend_from_slice(&0u16.to_be_bytes());
    buf
}

fn qtype_of(n: u16) -> QType {
    match n {
        1 => QType::A,
        28 => QType::Aaaa,
        12 => QType::Ptr,
        other => QType::Other(other),
    }
}

fn ptr_v4(labels: &[&str]) -> Option<Ipv4Addr> {
    if labels.len() != 6 || labels[4] != "in-addr" || labels[5] != "arpa" {
        return None;
    }
    let octets: Vec<u8> = labels[..4].iter().map(|l| l.parse().unwrap()).collect();
    Some(Ipv4Addr::new(octets[3], octets[2], octets[1], octets[0]))
}

fn question(labels: &[&str], qtype: u16, qclass: u16) -> Question {
    Question {
        canon: labels.join(".").to_ascii_lowercase(),
        ptr_v4: ptr_v4(labels),
        qtype: qtype_of(qtype),
        qclass,
    }
}

fn ask(view: &DnsView, id: u16, labels: &[&str], qtype: u16, qclass: u16) -> Decision {
    let q = question(labels, qtype, qclass);
    decide(view, Some(&q), &build_query(id, labels, qtype, qclass)).expect("decides")
}

fn answer(view: &DnsView, id: u16, labels: &[&str], qtype: u16, qclass: u16) -> DnsReply {
    match ask(view, id, labels, qtype, qclass) {
        Decision::Reply(reply) => reply,
        Decision::Forward { .. } => panic!("unexpected forward in authoritative-only test"),
    }
}

fn forwards_to(decision: Decision) -> Vec<SocketAddr> {
    match decision {
        Decision::Forward { upstreams, .. } => upstreams,
        Decision::Reply(_) => panic!("expected forward"),
    }
}

fn code(reply: &DnsReply) -> u8 {
    match reply.rcode {
        Rcode::NoError => 0,
        Rcode::ServFail => 2,
        Rcode::NxDomain => 3,
        Rcode::NotImpl => 4,
        Rcode::Refused => 5,
    }
}

fn reply_code(decision: Decision) -> u8 {
    match decision {
        Decision::Reply(reply) => code(&reply),
        Decision::Forward { .. } => panic!("must not be forwarded"),
    }
}

fn zone(reply: &DnsReply) -> Option<String> {
    reply.soa.as_ref().map(|soa| soa.zone.join("."))
}

#[test]
fn a_query_for_known_peer_answers_v4() {
    let view = view_with_peer();
    let resp = answer(&view, 0x1234, &["host", "user", "ts", "net"], 1, 1);
    assert_eq!(code(&resp), 0, "NoError");
    assert_eq!(resp.answers, vec![RData::A(Ipv4Addr::new(100, 64, 0, 1))]);
}

#[test]
fn aaaa_query_for_known_peer_is_nodata_when_ipv6_off() {
    let view = view_with_peer();
    assert!(!view.enable_ipv6, "default gate is off");
    let resp = answer(&view, 0x5, &["host", "user", "ts", "net"], 28, 1);
    assert_eq!(code(&resp), 0, "NoError (NODATA)");
    assert_eq!(resp.answers.len(), 0, "empty answer");
}

#[test]
fn a_query_still_resolves_when_ipv6_off() {
    let view = view_with_peer();
    let resp = answer(&view, 0x6, &["host", "user", "ts", "net"], 1, 1);
    assert_eq!(code(&resp), 0, "NoError");
    assert_eq!(resp.answers, vec![RData::A(Ipv4Addr::new(100, 64, 0, 1))]);
}

#[test]
fn aaaa_query_for_known_peer_answers_v6_when_ipv6_on() {
    let mut view = view_with_peer();
    view.enable_ipv6 = true;
    let resp = answer(&view, 0x5, &["host", "user", "ts", "net"], 28, 1);
    assert_eq!(code(&resp), 0, "NoError");
    assert_eq!(resp.answers, vec![RData::Aaaa(v6(0xfd7a, 1))]);
}

#[test]
fn aaaa_for_unknown_tailnet_name_is_nxdomain_not_forwarded_with_ipv6_off() {
    let mut view = view_with_peer();
    view.cfg.fallback_resolvers = vec![udp(9, 9, 9, 9)];
    let decision = ask(&view, 0x5A, &["ghost", "user", "ts", "net"], 28, 1);
    assert_eq!(reply_code(decision), 3, "NxDomain");
}

#[test]
fn bare_hostname_resolves() {
    let view = view_with_peer();
    let resp = answer(&view, 0x7, &["host"], 1, 1);
    assert_eq!(code(&resp), 0);
    assert_eq!(resp.answers.len(), 1);
}

#[test]
fn unknown_off_tailnet_name_with_no_upstream_is_servfail() {
    let view = view_with_peer();
    let resp = answer(&view, 0x9, &["nope", "example", "com"], 1, 1);
    assert_eq!(code(&resp), 2, "ServFail");
    assert_eq!(resp.answers.len(), 0);
}

#[test]
fn magic_dns_off_is_refused() {
    let mut view = view_with_peer();
    view.cfg.magic_dns = false;
    let resp = answer(&view, 0xAB, &["host", "user", "ts", "net"], 1, 1);
    assert_eq!(code(&resp), 5, "Refused");
    assert_eq!(resp.answers.len(), 0);
}

#[test]
fn accept_dns_false_refuses_otherwise_answerable_query() {
    let mut view = view_with_peer();
    assert!(view.cfg.magic_dns, "MagicDNS itself is on");
    view.accept_dns = false;
    let resp = answer(&view, 0xDD, &["host", "user", "ts", "net"], 1, 1);
    assert_eq!(code(&resp), 5, "Refused");
    assert_eq!(resp.answers.len(), 0);

    view.accept_dns = true;
    let resp = answer(&view, 0xDD, &["host", "user", "ts", "net"], 1, 1);
    assert_eq!(code(&resp), 0, "NoError");
    assert_eq!(resp.answers, vec![RData::A(Ipv4Addr::new(100, 64, 0, 1))]);
}

#[test]
fn default_view_serves_nothing() {
    let view = DnsView::new(false, false);
    let resp = answer(&view, 0x1, &["host", "user", "ts", "net"], 1, 1);
    assert_eq!(code(&resp), 5, "Refused");
}

#[test]
fn unsupported_qtype_on_tailnet_name_is_nodata_not_refused() {
    let view = view_with_peer();
    let resp = answer(&view, 0x1, &["host", "user", "ts", "net"], 16, 1);
    assert_eq!(code(&resp), 0, "NoError (NODATA), not Refused");
    assert_eq!(resp.answers.len(), 0, "no answer records (NODATA)");
}

#[test]
fn unsupported_qtype_off_tailnet_forwards_or_servfails() {
    let view = view_with_peer();
    let resp = answer(&view, 0x1, &["example", "com"], 65, 1);
    assert_eq!(code(&resp), 2, "SERVFAIL");
}

#[test]
fn unimplemented_qtype_on_tailnet_name_is_notimp() {
    let view = view_with_peer();
    for qtype in [2u16, 6, 13, 252] {
        let resp = answer(&view, 0x1, &["host", "user", "ts", "net"], qtype, 1);
        assert_eq!(code(&resp), 4, "qtype {qtype} on a tailnet name must be NOTIMP");
        assert_eq!(resp.answers.len(), 0, "NOTIMP carries no answer records");
    }
}

#[test]
fn unimplemented_qtype_off_tailnet_still_forwards_not_notimp() {
    let view = view_with_peer();
    let resp = answer(&view, 0x1, &["example", "com"], 2, 1);
    assert_eq!(code(&resp), 2, "off-tailnet NS -> SERVFAIL, not NOTIMP");
}

#[test]
fn malformed_query_is_dropped() {
    let mut buf = build_query(0x1, &["host"], 1, 1);
    buf[2] = 0x80;
    assert!(decide(&view_with_peer(), None, &buf).is_none());
}

#[test]
fn ptr_for_known_ip_answers_fqdn() {
    let view = view_with_peer();
    let resp = answer(&view, 0x33, &["1", "0", "64", "100", "in-addr", "arpa"], 12, 1);
    assert_eq!(code(&resp), 0, "NoError");
    let fqdn: Vec<String> = ["host", "user", "ts", "net"].iter().map(|s| s.to_string()).collect();
    assert_eq!(resp.answers, vec![RData::Ptr(fqdn)]);
}

#[test]
fn ptr_for_unknown_public_ip_off_tailnet_is_servfail() {
    let view = view_with_peer();
    let resp = answer(&view, 0x34, &["9", "9", "9", "9", "in-addr", "arpa"], 12, 1);
    assert_eq!(code(&resp), 2, "ServFail");
}

#[test]
fn ptr_for_unknown_tailnet_ip_is_nxdomain_not_forwarded() {
    let mut view = view_with_peer();
    view.cfg.fallback_resolvers = vec![udp(9, 9, 9, 9)];
    let decision = ask(&view, 0x35, &["9", "0", "64", "100", "in-addr", "arpa"], 12, 1);
    assert_eq!(reply_code(decision), 3, "NxDomain");
}

#[test]
fn exotic_qtype_for_tailnet_cgnat_reverse_is_nxdomain_not_forwarded() {
    let mut view = view_with_peer();
    view.cfg.fallback_resolvers = vec![udp(9, 9, 9, 9)];
    let decision = ask(&view, 0x36, &["9", "0", "64", "100", "in-addr", "arpa"], 16, 1);
    assert_eq!(reply_code(decision), 3, "NxDomain");
}

#[test]
fn exotic_qtype_for_ip6_arpa_is_nxdomain_not_forwarded() {
    let view = view_with_routes(vec![], vec![udp(9, 9, 9, 9)], vec![]);
    let labels = [
        "1", "0", "0", "0", "0", "0", "0", "0", "0", "0", "0", "0", "0", "0", "0", "0", "a", "7",
        "d", "f", "ip6", "arpa",
    ];
    assert_eq!(reply_code(ask(&view, 0x37, &labels, 16, 1)), 3, "NxDomain");
}

#[test]
fn address_queries_for_tailnet_reverse_names_are_never_forwarded() {
    let view = view_with_routes(vec![], vec![udp(9, 9, 9, 9)], vec![]);
    for qtype in [1u16, 28] {
        let decision = ask(&view, 0x38, &["9", "0", "64", "100", "in-addr", "arpa"], qtype, 1);
        assert_eq!(reply_code(decision), 3);
        assert_eq!(reply_code(ask(&view, 0x39, &["1", "ip6", "arpa"], qtype, 1)), 3);
    }
    let public = ask(&view, 0x3A, &["9", "9", "9", "9", "in-addr", "arpa"], 1, 1);
    assert_eq!(forwards_to(public), vec![udp(9, 9, 9, 9)]);
}

#[test]
fn is_tailnet_cgnat_classifies_range() {
    assert!(is_tailnet_cgnat(Ipv4Addr::new(100, 64, 0, 0)));
    assert!(is_tailnet_cgnat(Ipv4Addr::new(100, 64, 0, 1)));
    assert!(is_tailnet_cgnat(Ipv4Addr::new(100, 127, 255, 255)));
    assert!(!is_tailnet_cgnat(Ipv4Addr::new(100, 63, 255, 255)));
    assert!(!is_tailnet_cgnat(Ipv4Addr::new(100, 128, 0, 0)));
    assert!(!is_tailnet_cgnat(Ipv4Addr::new(9, 9, 9, 9)));
    assert!(is_tailnet_cgnat(Ipv4Addr::new(100, 100, 100, 100)));
}

#[test]
fn self_node_resolves_when_no_peer_match() {
    let mut view = DnsView::new(false, true);
    view.cfg.magic_dns = true;
    view.self_node = Some(test_node());
    let resp = answer(&view, 0x44, &["host", "user", "ts", "net"], 1, 1);
    assert_eq!(code(&resp), 0);
    assert_eq!(resp.answers, vec![RData::A(Ipv4Addr::new(100, 64, 0, 1))]);
}

#[test]
fn partially_qualified_name_resolves_via_search_domain() {
    let mut view = view_with_peer();
    view.cfg.search_domains = vec!["ts.net".to_string()];
    let resp = answer(&view, 0x55, &["host", "user"], 1, 1);
    assert_eq!(code(&resp), 0, "NoError via search-domain expansion");
    assert_eq!(resp.answers, vec![RData::A(Ipv4Addr::new(100, 64, 0, 1))]);
}

fn record(name: &str, a: u8, b: u8, c: u8, d: u8) -> ExtraRecord {
    ExtraRecord {
        name: name.to_string(),
        addr: IpAddr::V4(Ipv4Addr::new(a, b, c, d)),
    }
}

#[test]
fn extra_record_a_answers_when_no_peer_match() {
    let mut view = view_with_peer();
    view.cfg.extra_records = vec![record("static.user.ts.net", 100, 64, 0, 9)];
    let resp = answer(&view, 0x77, &["static", "user", "ts", "net"], 1, 1);
    assert_eq!(code(&resp), 0, "NoError from extra record");
    assert_eq!(resp.answers, vec![RData::A(Ipv4Addr::new(100, 64, 0, 9))]);
}

#[test]
fn extra_record_matches_query_case_insensitively() {
    let mut view = view_with_peer();
    view.cfg.extra_records = vec![record("static.user.ts.net", 100, 64, 0, 9)];
    let resp = answer(&view, 0x7A, &["Static", "User", "TS", "net"], 1, 1);
    assert_eq!(code(&resp), 0, "NoError: case-insensitive match");
    assert_eq!(resp.answers, vec![RData::A(Ipv4Addr::new(100, 64, 0, 9))]);
}

#[test]
fn extra_record_not_expanded_by_search_domain() {
    let mut view = view_with_peer();
    view.cfg.extra_records = vec![record("static.user.ts.net", 100, 64, 0, 9)];
    let resp = answer(&view, 0x7B, &["static"], 1, 1);
    assert_eq!(code(&resp), 2, "ServFail");
}

#[test]
fn extra_record_aaaa_family_is_isolated() {
    let mut view = view_with_peer();
    view.cfg.extra_records = vec![record("v4only.user.ts.net", 100, 64, 0, 9)];
    let resp = answer(&view, 0x78, &["v4only", "user", "ts", "net"], 28, 1);
    assert_eq!(code(&resp), 3, "NxDomain: A record does not satisfy AAAA");
}

#[test]
fn extra_record_ignored_when_magic_dns_off() {
    let mut view = view_with_peer();
    view.cfg.magic_dns = false;
    view.cfg.extra_records = vec![record("static.user.ts.net", 100, 64, 0, 9)];
    let resp = answer(&view, 0x79, &["static", "user", "ts", "net"], 1, 1);
    assert_eq!(code(&resp), 5, "Refused");
}

fn view_with_subdomain_host() -> DnsView {
    let mut node = test_node();
    node.cap_map.push(DNS_SUBDOMAIN_RESOLVE.to_string());
    let mut view = view_with_peer();
    view.peers = Some(db_of(&node));
    view
}

#[test]
fn subdomain_of_a_subdomain_host_resolves_to_it() {
    let view = view_with_subdomain_host();
    let resp = answer(&view, 0x90, &["my", "host", "user", "ts", "net"], 1, 1);
    assert_eq!(code(&resp), 0, "NoError from the subdomain host");
    assert_eq!(resp.answers, vec![RData::A(Ipv4Addr::new(100, 64, 0, 1))]);
}

#[test]
fn a_multi_label_subdomain_of_a_subdomain_host_resolves() {
    let view = view_with_subdomain_host();
    let resp = answer(&view, 0x91, &["be", "my", "host", "user", "ts", "net"], 1, 1);
    assert_eq!(code(&resp), 0, "NoError: the walk is not depth-limited");
    assert_eq!(resp.answers, vec![RData::A(Ipv4Addr::new(100, 64, 0, 1))]);
}

#[test]
fn subdomain_of_a_peer_without_the_attribute_is_nxdomain() {
    let view = view_with_peer();
    assert!(
        !view.node_by_name("host.user.ts.net").expect("peer is present").resolves_subdomains(),
        "the plain test peer carries no node attribute"
    );
    let resp = answer(&view, 0x92, &["my", "host", "user", "ts", "net"], 1, 1);
    assert_eq!(code(&resp), 3, "NxDomain");
    assert_eq!(resp.answers.len(), 0);
}

#[test]
fn an_exact_match_beats_the_subdomain_host() {
    let mut view = view_with_subdomain_host();
    view.cfg.extra_records = vec![record("my.host.user.ts.net", 100, 64, 0, 9)];
    let resp = answer(&view, 0x93, &["my", "host", "user", "ts", "net"], 1, 1);
    assert_eq!(code(&resp), 0, "NoError");
    assert_eq!(resp.answers, vec![RData::A(Ipv4Addr::new(100, 64, 0, 9))]);
}

#[test]
fn the_subdomain_walk_stops_at_the_tailnet_zone() {
    let mut zone_node = test_node();
    zone_node.hostname = "user".to_string();
    zone_node.tailnet = Some("ts.net".to_string());
    zone_node.cap_map.push(DNS_SUBDOMAIN_RESOLVE.to_string());
    assert_eq!(zone_node.fqdn(), "user.ts.net", "the zone apex itself");
    let mut view = view_with_peer();
    view.peers = Some(db_of(&zone_node));
    for labels in [
        ["nothing", "user", "ts", "net"].as_slice(),
        ["deeper", "nothing", "user", "ts", "net"].as_slice(),
    ] {
        let resp = answer(&view, 0x94, labels, 1, 1);
        assert_eq!(code(&resp), 3, "NxDomain: the walk stopped at {:?}", labels);
        assert_eq!(resp.answers.len(), 0);
    }
}

#[test]
fn the_subdomain_walk_does_not_search_expand_a_bare_label() {
    let mut suffix_node = test_node();
    suffix_node.hostname = "com".to_string();
    suffix_node.cap_map.push(DNS_SUBDOMAIN_RESOLVE.to_string());
    let mut view = view_with_peer();
    view.peers = Some(db_of(&suffix_node));
    let resp = answer(&view, 0x95, &["www", "example", "com"], 1, 1);
    assert_eq!(code(&resp), 2, "ServFail, NOT the peer named 'com'");
    assert_eq!(resp.answers.len(), 0);
    let resp = answer(&view, 0x96, &["www", "com", "user", "ts", "net"], 1, 1);
    assert_eq!(code(&resp), 0, "NoError from com.user.ts.net");
    assert_eq!(resp.answers, vec![RData::A(Ipv4Addr::new(100, 64, 0, 1))]);
}

#[test]
fn aaaa_for_a_subdomain_host_follows_the_ipv6_gate() {
    let mut view = view_with_subdomain_host();
    let labels = ["my", "host", "user", "ts", "net"];
    let resp = answer(&view, 0x97, &labels, 28, 1);
    assert_eq!(code(&resp), 0, "NoError (NODATA) while IPv6 is off");
    assert_eq!(resp.answers.len(), 0);
    view.enable_ipv6 = true;
    let resp = answer(&view, 0x97, &labels, 28, 1);
    assert_eq!(code(&resp), 0, "NoError");
    assert_eq!(resp.answers, vec![RData::Aaaa(v6(0xfd7a, 1))]);
}

#[test]
fn a_subdomain_of_the_self_node_resolves_when_it_has_the_attribute() {
    let mut self_node = test_node();
    self_node.hostname = "me".to_string();
    self_node.cap_map.push(DNS_SUBDOMAIN_RESOLVE.to_string());
    let mut view = view_with_peer();
    view.peers = None;
    view.self_node = Some(self_node);
    let resp = answer(&view, 0x98, &["a", "b", "me", "user", "ts", "net"], 1, 1);
    assert_eq!(code(&resp), 0, "NoError from the self node");
    assert_eq!(resp.answers, vec![RData::A(Ipv4Addr::new(100, 64, 0, 1))]);
}

#[test]
fn non_in_class_on_tailnet_name_is_nodata_not_answered_as_in() {
    let view = view_with_peer();
    let resp = answer(&view, 0x66, &["host", "user", "ts", "net"], 1, 3);
    assert_eq!(code(&resp), 0, "NoError (NODATA)");
    assert_eq!(resp.answers.len(), 0);
}

#[test]
fn non_in_class_off_tailnet_forwards_or_servfails() {
    let view = view_with_peer();
    let resp = answer(&view, 0x66, &["example", "com"], 1, 3);
    assert_eq!(code(&resp), 2, "SERVFAIL, not Refused");
}

#[test]
fn split_dns_route_forwards_to_matching_upstream() {
    let view = view_with_routes(vec![route("corp.example", vec![udp(10, 0, 0, 53)])], vec![], vec![]);
    let decision = ask(&view, 0x100, &["api", "corp", "example"], 1, 1);
    assert_eq!(forwards_to(decision), vec![udp(10, 0, 0, 53)]);
}

#[test]
fn exotic_qtype_off_tailnet_forwards_to_upstream() {
    let view = view_with_routes(vec![route("corp.example", vec![udp(10, 0, 0, 53)])], vec![], vec![]);
    let buf = build_query(0x102, &["api", "corp", "example"], 65, 1);
    let q = question(&["api", "corp", "example"], 65, 1);
    match decide(&view, Some(&q), &buf).expect("decides") {
        Decision::Forward { upstreams, query, .. } => {
            assert_eq!(upstreams, vec![udp(10, 0, 0, 53)]);
            assert_eq!(query, buf, "the exotic-qtype query is forwarded verbatim");
        }
        Decision::Reply(_) => panic!("an off-tailnet HTTPS-record query must forward, not reply"),
    }
}

#[test]
fn non_in_class_off_tailnet_forwards_to_upstream() {
    let view = view_with_routes(vec![route("corp.example", vec![udp(10, 0, 0, 53)])], vec![], vec![]);
    let decision = ask(&view, 0x103, &["api", "corp", "example"], 1, 3);
    assert_eq!(forwards_to(decision), vec![udp(10, 0, 0, 53)]);
}

#[test]
fn forward_inflight_cap_fails_closed_when_saturated() {
    let inflight = Arc::new(Semaphore::new(MAX_INFLIGHT_FORWARDS));
    let mut held = Vec::with_capacity(MAX_INFLIGHT_FORWARDS);
    for _ in 0..MAX_INFLIGHT_FORWARDS {
        held.push(
            inflight.clone().try_acquire_owned().expect("permits available below the cap"),
        );
    }
    assert!(
        inflight.clone().try_acquire_owned().is_err(),
        "a saturated forward pool must refuse a new permit (fail closed)"
    );
    drop(held.pop());
    assert!(
        inflight.clone().try_acquire_owned().is_ok(),
        "releasing a permit must let the next forward proceed"
    );
}

#[test]
fn longest_suffix_route_wins() {
    let view = view_with_routes(
        vec![
            route("example", vec![udp(10, 0, 0, 1)]),
            route("corp.example", vec![udp(10, 0, 0, 2)]),
        ],
        vec![],
        vec![],
    );
    let decision = ask(&view, 0x101, &["api", "corp", "example"], 1, 1);
    assert_eq!(forwards_to(decision), vec![udp(10, 0, 0, 2)], "longer suffix wins");
}

#[test]
fn negative_route_is_nxdomain_not_forwarded() {
    let view = view_with_routes(vec![route("blocked.example", vec![])], vec![udp(8, 8, 8, 8)], vec![]);
    let decision = ask(&view, 0x102, &["x", "blocked", "example"], 1, 1);
    assert_eq!(reply_code(decision), 3, "NxDomain: negative route is not forwarded");
}

#[test]
fn unrouted_name_forwards_to_fallback_then_global() {
    let view = view_with_routes(vec![], vec![udp(8, 8, 8, 8)], vec![udp(1, 1, 1, 1)]);
    let decision = ask(&view, 0x103, &["example", "com"], 1, 1);
    assert_eq!(forwards_to(decision), vec![udp(1, 1, 1, 1)], "fallback preferred");
}

#[test]
fn unrouted_name_forwards_to_global_when_no_fallback() {
    let view = view_with_routes(vec![], vec![udp(8, 8, 8, 8)], vec![]);
    let decision = ask(&view, 0x104, &["example", "com"], 1, 1);
    assert_eq!(forwards_to(decision), vec![udp(8, 8, 8, 8)]);
}

#[test]
fn tailnet_name_is_never_forwarded() {
    let view = view_with_routes(vec![], vec![udp(8, 8, 8, 8)], vec![udp(1, 1, 1, 1)]);
    let decision = ask(&view, 0x105, &["ghost", "user", "ts", "net"], 1, 1);
    assert_eq!(reply_code(decision), 3, "NxDomain: tailnet name not leaked upstream");
}

#[test]
fn no_resolvers_off_tailnet_is_servfail_not_nxdomain() {
    let view = view_with_routes(vec![], vec![], vec![]);
    assert_eq!(reply_code(ask(&view, 0x106, &["example", "com"], 1, 1)), 2, "ServFail");
}

#[test]
fn route_with_only_ipv6_upstreams_off_tailnet_is_servfail() {
    let upstream = SocketAddr {
        ip: IpAddr::V6(v6(0x2001, 0x53)),
        port: 53,
    };
    let view = view_with_routes(vec![route("corp.example", vec![upstream])], vec![], vec![]);
    let decision = ask(&view, 0x108, &["host", "corp", "example"], 1, 1);
    assert_eq!(reply_code(decision), 2, "ServFail");
}

#[test]
fn overlay_match_wins_over_forwarding() {
    let mut view = view_with_peer();
    view.cfg.resolvers = vec![udp(8, 8, 8, 8)];
    let resp = answer(&view, 0x107, &["host", "user", "ts", "net"], 1, 1);
    assert_eq!(code(&resp), 0, "authoritative answer wins");
    assert_eq!(resp.answers.len(), 1);
}

#[test]
fn ipv6_reverse_ptr_is_nxdomain_not_forwarded() {
    let view = view_with_routes(vec![], vec![udp(8, 8, 8, 8)], vec![udp(1, 1, 1, 1)]);
    let labels = vec![
        "1", "0", "0", "0", "0", "0", "0", "0", "0", "0", "0", "0", "0", "0", "0", "0", "0", "0",
        "0", "0", "0", "0", "0", "0", "0", "0", "0", "0", "a", "7", "d", "f", "ip6", "arpa",
    ];
    assert_eq!(reply_code(ask(&view, 0x200, &labels, 12, 1)), 3, "NxDomain");
}

#[test]
fn an_authoritative_answer_over_the_advertised_size_is_marked() {
    let view = view_with_peer();
    let labels = ["host", "user", "ts", "net"];
    let buf = build_edns_query(0x40D, &labels, 1, 1, 20);
    let reply = answer(&view, 0x40D, &labels, 1, 1);
    assert_eq!(reply.answers, vec![RData::A(Ipv4Addr::new(100, 64, 0, 1))]);
    let mut resp = build_query(0x40D, &labels, 1, 1);
    resp[2] |= 0x80;
    resp[7] = 1;
    resp.extend_from_slice(&[0xC0, 12, 0, 1, 0, 1, 0, 0, 0, 5, 0, 4, 100, 64, 0, 1]);
    assert!(resp.len() > 20, "the answer overflows the advertised 20 bytes");
    let marked = check_response_size_and_set_tc(&buf, resp.clone(), ClientTransport::Udp);
    assert_ne!(marked[2] & 0x02, 0, "a composed answer can overflow a small advertised buffer");
    assert_eq!(marked.len(), resp.len(), "the body is left intact");
    assert_eq!(marked[3..], resp[3..], "only the flags byte carrying TC may differ");
}

#[test]
fn suffix_matches_handles_boundaries_and_empty() {
    assert!(suffix_matches("corp", "corp"));
    assert!(suffix_matches("a.corp", "corp"));
    assert!(suffix_matches("a.b.corp", "corp"));
    assert!(!suffix_matches("acorp", "corp"));
    assert!(!suffix_matches("anything.example", ""));
    assert!(!suffix_matches("", ""));
}

#[test]
fn empty_search_domain_does_not_capture_everything() {
    let mut view = view_with_routes(vec![], vec![udp(8, 8, 8, 8)], vec![]);
    view.cfg.search_domains = vec![String::new()];
    let decision = ask(&view, 0x400, &["example", "com"], 1, 1);
    assert_eq!(forwards_to(decision), vec![udp(8, 8, 8, 8)]);
}

#[test]
fn empty_route_suffix_does_not_capture_everything() {
    let view = view_with_routes(vec![route("", vec![udp(10, 9, 9, 9)])], vec![udp(8, 8, 8, 8)], vec![]);
    let decision = ask(&view, 0x401, &["example", "com"], 1, 1);
    assert_eq!(forwards_to(decision), vec![udp(8, 8, 8, 8)]);
}

#[test]
fn recursive_forward_is_flagged_route_forward_is_not() {
    let view = view_with_routes(
        vec![route("corp.example", vec![udp(10, 0, 0, 53)])],
        vec![udp(8, 8, 8, 8)],
        vec![],
    );
    match ask(&view, 0x500, &["api", "corp", "example"], 1, 1) {
        Decision::Forward { recursive, .. } => {
            assert!(!recursive, "split-DNS route is not a recursive forward")
        }
        Decision::Reply(_) => panic!("expected route forward"),
    }
    match ask(&view, 0x501, &["example", "com"], 1, 1) {
        Decision::Forward { recursive, .. } => {
            assert!(recursive, "unrouted name is a recursive forward")
        }
        Decision::Reply(_) => panic!("expected recursive forward"),
    }
}

#[test]
fn recursive_plan_keeps_udp_without_exit_node() {
    let view = view_with_routes(vec![], vec![udp(8, 8, 8, 8)], vec![]);
    let default = vec![udp(8, 8, 8, 8)];
    assert_eq!(recursive_plan(&view, default.clone()), RecursivePlan::Udp(default));
}

#[test]
fn recursive_plan_delegates_to_doh_with_exit_node() {
    let mut view = view_with_routes(vec![], vec![udp(8, 8, 8, 8)], vec![]);
    let doh = SocketAddr::v4(100, 64, 0, 5, 8080);
    view.exit_doh = Some(doh);
    assert_eq!(recursive_plan(&view, vec![udp(8, 8, 8, 8)]), RecursivePlan::Doh(doh));
}

#[test]
fn recursive_plan_keeps_use_with_exit_node_resolvers_local() {
    let mut view = view_with_routes(vec![], vec![udp(10, 0, 0, 53), udp(8, 8, 8, 8)], vec![]);
    view.cfg.resolvers_with_exit_node = vec![udp(10, 0, 0, 53)];
    view.exit_doh = Some(SocketAddr::v4(100, 64, 0, 5, 8080));
    assert_eq!(
        recursive_plan(&view, vec![udp(8, 8, 8, 8)]),
        RecursivePlan::Udp(vec![udp(10, 0, 0, 53)])
    );
}

fn now_unix() -> u32 {
    std::time::SystemTime::now()
        .duration_since(std::time::UNIX_EPOCH)
        .expect("clock after the epoch")
        .as_secs() as u32
}

#[test]
fn nxdomain_for_tailnet_name_carries_the_search_domain_soa() {
    let view = view_with_peer();
    let resp = answer(&view, 0x1111, &["nope", "user", "ts", "net"], 1, 1);
    assert_eq!(code(&resp), 3, "NXDOMAIN");
    assert_eq!(resp.answers.len(), 0);
    assert_eq!(zone(&resp).as_deref(), Some("user.ts.net"));
    let serial = resp.soa.unwrap().serial;
    assert!(serial.abs_diff(now_unix()) < 60, "SERIAL should be about now, got {serial}");
}

#[test]
fn nodata_aaaa_for_known_peer_carries_the_soa() {
    let view = view_with_peer();
    assert!(!view.enable_ipv6, "default gate is off");
    let resp = answer(&view, 0x2222, &["host", "user", "ts", "net"], 28, 1);
    assert_eq!(code(&resp), 0, "NoError (NODATA)");
    assert_eq!(resp.answers.len(), 0);
    assert_eq!(zone(&resp).as_deref(), Some("user.ts.net"));
}

#[test]
fn cgnat_reverse_miss_carries_the_reverse_zone_soa() {
    let view = view_with_peer();
    let resp = answer(&view, 0x3333, &["9", "0", "64", "100", "in-addr", "arpa"], 12, 1);
    assert_eq!(code(&resp), 3, "NXDOMAIN");
    assert_eq!(resp.answers.len(), 0);
    assert_eq!(zone(&resp).as_deref(), Some("64.100.in-addr.arpa"));
}

#[test]
fn exotic_qtype_cgnat_reverse_nxdomain_carries_the_soa() {
    let view = view_with_peer();
    let resp = answer(&view, 0x4444, &["9", "0", "64", "100", "in-addr", "arpa"], 16, 1);
    assert_eq!(code(&resp), 3, "NXDOMAIN");
    assert_eq!(zone(&resp).as_deref(), Some("64.100.in-addr.arpa"));
}

#[test]
fn negative_route_nxdomain_carries_the_route_zone_soa() {
    let view = view_with_routes(vec![route("corp.example", vec![])], vec![], vec![]);
    let resp = answer(&view, 0x5555, &["intranet", "corp", "example"], 1, 1);
    assert_eq!(code(&resp), 3, "NXDOMAIN");
    assert_eq!(zone(&resp).as_deref(), Some("corp.example"));
}

#[test]
fn non_authoritative_negative_answers_carry_no_soa() {
    let view = view_with_peer();
    let servfail = answer(&view, 0x6, &["example", "com"], 1, 1);
    assert_eq!(code(&servfail), 2, "ServFail");
    assert_eq!(servfail.soa, None, "SERVFAIL carries no SOA");

    let mut labels: Vec<&str> = vec!["1"; 32];
    labels.push("ip6");
    labels.push("arpa");
    let ip6 = answer(&view, 0x7, &labels, 12, 1);
    assert_eq!(code(&ip6), 3, "NXDOMAIN");
    assert_eq!(ip6.soa, None, "ip6.arpa NXDOMAIN carries no SOA");

    let mut off = view_with_peer();
    off.cfg.magic_dns = false;
    let refused = answer(&off, 0x8, &["host", "user", "ts", "net"], 1, 1);
    assert_eq!(code(&refused), 5, "Refused");
    assert_eq!(refused.soa, None, "REFUSED carries no SOA");
}

#[test]
fn nodata_for_an_unserved_qtype_carries_no_soa() {
    let view = view_with_peer();
    let resp = answer(&view, 0x9, &["host", "user", "ts", "net"], 16, 1);
    assert_eq!((code(&resp), resp.answers.len()), (0, 0), "NODATA");
    assert_eq!(resp.soa, None);
}

#[test]
fn the_longest_authoritative_zone_wins() {
    let mut view = view_with_routes(vec![route("sub.user.ts.net", vec![])], vec![], vec![]);
    view.cfg.search_domains = vec!["user.ts.net".to_string()];
    let resp = answer(&view, 0xD, &["nope", "sub", "user", "ts", "net"], 1, 1);
    assert_eq!(code(&resp), 3, "NXDOMAIN");
    assert_eq!(zone(&resp).as_deref(), Some("sub.user.ts.net"));
}

#[test]
fn a_short_name_outside_every_zone_gets_no_soa() {
    let mut view = view_with_peer();
    view.enable_ipv6 = false;
    let resp = answer(&view, 0xE, &["host"], 28, 1);
    assert_eq!((code(&resp), resp.answers.len()), (0, 0), "NODATA");
    assert_eq!(resp.soa, None, "no zone contains a single-label name");
}

#[test]
fn a_positive_answer_names_no_zone() {
    let resp = answer(&view_with_peer(), 0xA, &["host", "user", "ts", "net"], 1, 1);
    assert_eq!((code(&resp), resp.answers.len()), (0, 1));
    assert_eq!(resp.soa, None);
}

#[test]
fn the_serial_is_the_one_that_is_given() {
    let view = view_with_peer();
    let labels = ["nope", "user", "ts", "net"];
    let q = question(&labels, 1, 1);
    match decide_at(&view, &q, &build_query(1, &labels, 1, 1), 77) {
        Decision::Reply(reply) => assert_eq!(reply.soa.unwrap().serial, 77),
        Decision::Forward { .. } => panic!("a tailnet name is not forwarded"),
    }
}

#[test]
fn serials_follow_the_clock() {
    assert_eq!(soa_serial_at(None), 0);
    assert_eq!(soa_serial_at(Some((1_700_000_000, 5))), 1_700_000_000);
    assert_eq!(soa_serial_at(Some((0x1_0000_0007, 0))), 7);
    let (secs, nanos) = unix_time().expect("clock after the epoch");
    assert!((secs as u32).abs_diff(now_unix()) < 60);
    assert!(nanos < 1_000_000_000);
}

#[test]
fn reverse_zones_and_qualified_names() {
    assert_eq!(reverse_zone_of(Ipv4Addr::new(100, 64, 0, 9)), "64.100.in-addr.arpa");
    assert_eq!(reverse_zone_of(Ipv4Addr::new(100, 127, 0, 9)), "127.100.in-addr.arpa");
    assert_eq!(qualify("host", "user.ts.net"), "host.user.ts.net");
    assert!(is_ip6_arpa("1.0.ip6.arpa"));
    assert!(is_ip6_arpa("ip6.arpa"));
    assert!(!is_ip6_arpa("xip6.arpa"));
    assert_eq!(magic_dns_ip(), Ipv4Addr::new(100, 100, 100, 100));
}

#[test]
fn zones_hold_the_names_under_them() {
    let view = view_with_peer();
    assert!(is_tailnet_name(&view, "user.ts.net"));
    assert!(is_tailnet_name(&view, "a.user.ts.net"));
    assert!(!is_tailnet_name(&view, "auser.ts.net"));
    let q = question(&["9", "9", "64", "100", "in-addr", "arpa"], 12, 1);
    assert_eq!(authoritative_zone_for(&view, &q).as_deref(), Some("64.100.in-addr.arpa"));
    let q = question(&["example", "com"], 1, 1);
    assert_eq!(authoritative_zone_for(&view, &q), None);
}

#[test]
fn steps_name_the_resolvers_they_go_to() {
    let mut view = view_with_routes(
        vec![route("corp.example", vec![udp(10, 0, 0, 53)])],
        vec![udp(8, 8, 8, 8)],
        vec![],
    );
    view.exit_doh = Some(SocketAddr::v4(100, 64, 0, 5, 8080));
    let step_for = |labels: &[&str]| {
        let q = question(labels, 1, 1);
        serve_step(&view, Some(&q), &build_query(7, labels, 1, 1), 1)
    };

    let routed = step_for(&["api", "corp", "example"]);
    assert_eq!(resolvers_consulted(&routed), vec![udp(10, 0, 0, 53)]);
    match routed {
        ServeStep::Udp { query, retry, servfail, .. } => {
            assert_eq!(query, build_query(7, &["api", "corp", "example"], 1, 1));
            assert_eq!(retry, TcpRetry::Enabled);
            assert_eq!(servfail.rcode, Rcode::ServFail);
        }
        _ => panic!("a route keeps its own resolvers"),
    }

    let recursive = step_for(&["example", "com"]);
    assert_eq!(resolvers_consulted(&recursive), vec![SocketAddr::v4(100, 64, 0, 5, 8080)]);
    assert!(matches!(recursive, ServeStep::Doh { .. }));

    let local = step_for(&["x", "user", "ts", "net"]);
    assert!(resolvers_consulted(&local).is_empty());
    assert!(matches!(local, ServeStep::Reply(_)));

    let dropped = serve_step(&view, None, &[1, 2], 1);
    assert!(matches!(dropped, ServeStep::Drop));
    assert!(resolvers_consulted(&dropped).is_empty());
}

#[test]
fn a_route_is_planned_as_it_stands() {
    let mut view = view_with_routes(vec![], vec![], vec![]);
    view.exit_doh = Some(SocketAddr::v4(100, 64, 0, 5, 8080));
    assert_eq!(
        forward_plan(&view, vec![udp(10, 0, 0, 53)], false),
        RecursivePlan::Udp(vec![udp(10, 0, 0, 53)])
    );
}

#[test]
fn programmatic_queries_are_normalized() {
    let query = |name: &str, qtype: u16| {
        Query {
            name: name.to_string(),
            qtype,
        }
        .question()
    };
    assert_eq!(query("example.com.", 1), (vec!["example".to_string(), "com".to_string()], QType::A));
    assert_eq!(query("a..b", 28), (vec!["a".to_string(), "b".to_string()], QType::Aaaa));
    assert_eq!(query("x", 12).1, QType::Ptr);
    assert_eq!(query("", 65), (vec![], QType::Other(65)));
}

#[test]
fn results_carry_the_code_of_the_response() {
    let failed = DnsQueryResult::new(servfail_response(), vec![]);
    assert_eq!(failed.rcode, 2);
    assert_eq!(failed.response.len(), 12);
    assert_eq!(failed.response[2], 0x80);
    let short = DnsQueryResult::new(vec![1], vec![udp(8, 8, 8, 8)]);
    assert_eq!(short.rcode, 0);
    assert_eq!(short.resolvers_consulted, vec![udp(8, 8, 8, 8)]);
}

#[test]
fn views_follow_what_control_says() {
    let mut view = DnsView::new(true, false);
    let mut cfg = DnsConfig::empty();
    cfg.magic_dns = true;
    view.on_state_update(Some(cfg), Some(test_node()), true);
    assert!(view.cfg.magic_dns && view.accept_dns && view.enable_ipv6);
    view.on_peer_state(db_of(&test_node()), false);
    assert!(!view.accept_dns);
    assert!(view.node_by_ip(IpAddr::V4(Ipv4Addr::new(100, 64, 0, 1))).is_some());
    view.on_exit_node(Some(udp(100, 64, 0, 5)));
    assert_eq!(view.exit_doh, Some(udp(100, 64, 0, 5)));
    view.on_state_update(None, None, true);
    assert!(!view.cfg.magic_dns, "no configuration serves nothing");
    assert!(view.self_node.is_none());
    assert_eq!(view.exit_doh, Some(udp(100, 64, 0, 5)), "the exit node stays");
}

#[test]
fn the_node_attribute_turns_the_tcp_retry_off() {
    let mut view = view_with_peer();
    assert_eq!(view.upstream_tcp_retry(), TcpRetry::Enabled, "on is the default");
    let mut node = test_node();
    view.self_node = Some(node.copy());
    assert_eq!(view.upstream_tcp_retry(), TcpRetry::Enabled, "still on without the attribute");
    node.cap_map.push("dns-forwarder-disable-tcp-retries".to_string());
    view.self_node = Some(node);
    assert_eq!(view.upstream_tcp_retry(), TcpRetry::Disabled);

    let query = [0x04, 0x03, 0, 0, 0, 1, 0, 0, 0, 0, 0, 0, 3, b'b', b'i', b'g', 0, 0, 16, 0, 1];
    let upstream = udp(198, 51, 100, 1);
    let mut truncated = query.to_vec();
    truncated[2] |= 0x82;
    truncated.extend_from_slice(b"the part that fit");
    let answer = ask_with_tcp_retry(
        upstream,
        &query,
        view.upstream_tcp_retry(),
        Some((upstream, truncated.clone())),
        Some(vec![0]),
    )
    .expect("the upstream answered");
    assert_eq!(answer.resp, truncated, "relayed truncated, as control asked");
    assert_eq!(answer.via, UpstreamTransport::Udp);
}

#[test]
fn forwards_beyond_the_cap_are_dropped_and_replies_are_not() {
    let view = view_with_routes(vec![], vec![udp(8, 8, 8, 8)], vec![]);
    let step_for = |labels: &[&str]| {
        let q = question(labels, 1, 1);
        serve_step(&view, Some(&q), &build_query(7, labels, 1, 1), 1)
    };
    let forward = || step_for(&["example", "com"]);
    assert_eq!(bound_forwards(forward(), 0), forward());
    assert_eq!(bound_forwards(forward(), MAX_INFLIGHT_FORWARDS - 1), forward());
    assert_eq!(bound_forwards(forward(), MAX_INFLIGHT_FORWARDS), ServeStep::Drop);
    let reply = || step_for(&["x", "user", "ts", "net"]);
    assert!(matches!(reply(), ServeStep::Reply(_)));
    assert_eq!(bound_forwards(reply(), MAX_INFLIGHT_FORWARDS), reply());
    assert_eq!(bound_forwards(ServeStep::Drop, 0), ServeStep::Drop);
}
