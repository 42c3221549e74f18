//! DNS over HTTP: requests, answers and who gets one.

use base64::Engine;
use ts_runtime::addr::{IpAddr, Ipv4Addr, Ipv6Addr, SocketAddr};
use ts_runtime::base64url::decode;
use ts_runtime::dns_message::ClientTransport;
use ts_runtime::http::find_header_end;
use ts_runtime::magic_dns::{DnsReply, DnsView, QType, Question, RData, Rcode};
use ts_runtime::node::{Node, NodeKey};
use ts_runtime::peer_db::PeerDb;
use ts_runtime::peerapi_doh::{
    conn_step, delegated_answer, dns_probe, dns_response, dns_source_allowed, doh_request,
    encode_formerr, internet_probe_dst, parse_get, parse_response_head, read_request, serve_query,
    server_decide, server_decide_at, ConnStep, DohError, DohRequest, DohStart, PostBody, ReadStep,
    ResponseReader, Served, ServerDecision, MAX_CLIENT_RESPONSE, MAX_REQUEST,
};

fn v6(hi: u16, lo: u16) -> Ipv6Addr {
    Ipv6Addr {
        bits: ((hi as u128) << 112) | lo as u128,
    }
}

fn peer_node(hostname: &str) -> Node {
    Node {
        id: 1,
        stable_id: "n1".to_string(),
        hostname: hostname.to_string(),
        tailnet: Some("user.ts.net".to_string()),
        user_id: 0,
        ipv4: Ipv4Addr::new(100, 64, 0, 1),
        ipv6: v6(0xfd7a, 1),
        service_addresses: vec![],
        node_key: NodeKey { hi: 0, lo: 0 },
        node_key_expiry: None,
        online: None,
        last_seen: None,
        key_signature: vec![],
        disco_key: None,
        accepted_routes: vec![],
        underlay_addresses: vec![],
        derp_region: None,
        cap: 0,
        cap_map: vec![],
        unsigned_peer_api_only: false,
    }
}

fn query_for(id: u16, labels: &[&str]) -> Vec<u8> {
    let mut buf: Vec<u8> = Vec::new();
    buf.extend_from_slice(&id.to_be_bytes());
    buf.extend_from_slice(&[0, 0, 0, 1, 0, 0, 0, 0, 0, 0]);
    for label in labels {
        buf.push(label.len() as u8);
        buf.extend_from_slice(label.as_bytes());
    }
    buf.push(0);
    buf.extend_from_slice(&[0, 1, 0, 1]);
    buf
}

fn question(labels: &[&str]) -> Question {
    Question {
        canon: labels.join("."),
        ptr_v4: None,
        qtype: QType::A,
        qclass: 1,
    }
}

fn view() -> DnsView {
    let mut view = DnsView::new(false, true);
    view.cfg.magic_dns = true;
    view.cfg.search_domains = vec!["user.ts.net".to_string()];
    view.cfg.fallback_resolvers = vec![SocketAddr::v4(9, 9, 9, 9, 53)];
    view
}

fn view_with_peer() -> DnsView {
    let mut db = PeerDb::new();
    db.upsert(&peer_node("host"));
    let mut v = view();
    v.peers = Some(db);
    v
}

fn decide_for(v: &DnsView, id: u16, labels: &[&str], filtered: bool, egress: bool) -> ServerDecision {
    server_decide(v, Some(&question(labels)), &query_for(id, labels), filtered, egress)
}

fn replied(decision: ServerDecision) -> DnsReply {
    match decision {
        ServerDecision::Reply(reply) => reply,
        _ => panic!("expected a reply"),
    }
}

#[test]
fn find_header_end_locates_terminator() {
    assert_eq!(find_header_end(b"GET / HTTP/1.1\r\n\r\n"), Some(18));
    assert_eq!(find_header_end(b"GET / HTTP/1.1\r\nX: 1\r\n\r\nBODY"), Some(24));
    assert_eq!(find_header_end(b"GET / HTTP/1.1\r\n"), None);
}

#[test]
fn parse_get_decodes_base64url_dns_param() {
    let raw = [0xab, 0xcd, 0x01, 0x00];
    let encoded = base64::engine::general_purpose::URL_SAFE_NO_PAD.encode(raw);
    match parse_get(Some(&format!("dns={encoded}"))) {
        DohRequest::Query(b) => assert_eq!(b, raw),
        _ => panic!("expected Query"),
    }
}

#[test]
fn parse_get_rejects_missing_or_bad_param() {
    assert!(matches!(parse_get(None), DohRequest::BadRequest));
    assert!(matches!(parse_get(Some("foo=bar")), DohRequest::BadRequest));
    assert!(matches!(parse_get(Some("dns=!!!notbase64!!!")), DohRequest::BadRequest));
}

#[test]
fn parse_get_takes_the_first_dns_param() {
    assert_eq!(parse_get(Some("x=1&dns=AQ&dns=Ag")), DohRequest::Query(vec![1]));
    assert_eq!(parse_get(Some("dns=")), DohRequest::Query(vec![]));
    assert_eq!(parse_get(Some("xdns=AQ")), DohRequest::BadRequest);
    let engine = &base64::engine::general_purpose::URL_SAFE_NO_PAD;
    let largest = engine.encode(vec![7; MAX_REQUEST]);
    assert_eq!(parse_get(Some(&format!("dns={largest}"))), DohRequest::Query(vec![7; MAX_REQUEST]));
    let larger = engine.encode(vec![7; MAX_REQUEST + 1]);
    assert_eq!(parse_get(Some(&format!("dns={larger}"))), DohRequest::TooLarge);
}

#[test]
fn only_canonical_base64_is_decoded() {
    assert_eq!(decode("AQ"), Some(vec![1]));
    assert_eq!(decode("AR"), None, "bits that belong to no byte");
    assert_eq!(decode("AQ=="), None, "padding");
    assert_eq!(decode("A"), None);
    assert_eq!(decode("+/8"), None, "the other alphabet");
    assert_eq!(decode("-_8"), Some(vec![0xfb, 0xff]));
    assert_eq!(decode(""), Some(vec![]));
    let engine = &base64::engine::general_purpose::URL_SAFE_NO_PAD;
    for n in 0..70u8 {
        let bytes: Vec<u8> = (0..n).map(|i| i.wrapping_mul(37)).collect();
        assert_eq!(decode(&engine.encode(&bytes)), Some(bytes));
    }
}

#[test]
fn parse_response_head_returns_content_length_on_200() {
    let head = b"HTTP/1.1 200 OK\r\nContent-Type: application/dns-message\r\nContent-Length: 42\r\nConnection: close\r\n\r\n";
    assert_eq!(parse_response_head(head).unwrap(), 42);
}

#[test]
fn parse_response_head_rejects_non_200() {
    let head = b"HTTP/1.1 404 Not Found\r\nContent-Length: 0\r\n\r\n";
    assert_eq!(parse_response_head(head), Err(DohError::Status(Some(404))));
}

#[test]
fn parse_response_head_rejects_missing_length() {
    let head = b"HTTP/1.1 200 OK\r\nContent-Type: application/dns-message\r\n\r\n";
    assert_eq!(parse_response_head(head), Err(DohError::MissingLength));
}

#[test]
fn parse_response_head_rejects_oversized_body() {
    let head = format!("HTTP/1.1 200 OK\r\nContent-Length: {}\r\n\r\n", MAX_CLIENT_RESPONSE + 1);
    assert_eq!(parse_response_head(head.as_bytes()), Err(DohError::BodyTooLarge));
}

#[test]
fn parse_response_head_rejects_body_too_large_to_frame_over_tcp() {
    let head = b"HTTP/1.1 200 OK\r\nContent-Length: 65536\r\n\r\n";
    assert!(parse_response_head(head).is_err());
    let head = b"HTTP/1.1 200 OK\r\nContent-Length: 65535\r\n\r\n";
    let len = parse_response_head(head).expect("65,535 bytes is a legal DNS message");
    assert_eq!(len, 65_535);
    assert!(u16::try_from(len).is_ok());
}

#[test]
fn a_malformed_response_head_is_refused() {
    assert_eq!(parse_response_head(b"not http"), Err(DohError::Malformed));
    assert_eq!(parse_response_head(b"HTTP/1.1 200 OK\r\n"), Err(DohError::Malformed));
}

#[test]
fn encode_formerr_sets_response_and_rcode() {
    let msg = encode_formerr(0x1234);
    assert_eq!(&msg[0..2], &[0x12, 0x34]);
    assert_eq!(msg[2] & 0x80, 0x80, "QR response bit set");
    assert_eq!(msg[3] & 0x0F, 0x01, "FORMERR rcode");
    assert_eq!(msg.len(), 12);
}

#[test]
fn filtered_name_is_refused() {
    let decision = decide_for(&view(), 0x1, &["blocked", "example", "com"], true, true);
    assert_eq!(replied(decision).rcode, Rcode::Refused);
}

#[test]
fn recursive_query_refused_when_egress_disabled() {
    let decision = decide_for(&view(), 0x2, &["example", "com"], false, false);
    assert_eq!(replied(decision).rcode, Rcode::Refused);
}

#[test]
fn recursive_query_forwards_when_egress_enabled() {
    match decide_for(&view(), 0x3, &["example", "com"], false, true) {
        ServerDecision::Forward { upstreams, query, servfail } => {
            assert_eq!(upstreams, vec![SocketAddr::v4(9, 9, 9, 9, 53)]);
            assert_eq!(query, query_for(0x3, &["example", "com"]));
            assert_eq!(servfail.rcode, Rcode::ServFail);
        }
        _ => panic!("expected forward when egress enabled"),
    }
}

#[test]
fn authoritative_answer_is_not_gated() {
    let decision = decide_for(&view(), 0x4, &["host", "user", "ts", "net"], false, false);
    assert_eq!(replied(decision).rcode, Rcode::NxDomain, "NXDOMAIN, not REFUSED");
}

#[test]
fn a_subdomain_host_answers_here_like_any_other_peer_name() {
    let mut node = peer_node("host");
    node.cap_map.push("dns-subdomain-resolve".to_string());
    let mut db = PeerDb::new();
    db.upsert(&node);
    let mut v = view();
    v.peers = Some(db);
    let reply = replied(decide_for(&v, 0x9, &["my", "host", "user", "ts", "net"], false, false));
    assert_eq!(reply.rcode, Rcode::NoError, "NoError from the subdomain host");
    assert_eq!(reply.answers, vec![RData::A(Ipv4Addr::new(100, 64, 0, 1))]);
}

#[test]
fn unparseable_body_is_formerr() {
    match server_decide(&view(), None, &[0xAB, 0xCD, 0xFF], false, true) {
        ServerDecision::Malformed(resp) => {
            assert_eq!(&resp[0..2], &[0xAB, 0xCD]);
            assert_eq!(resp[3] & 0x0F, 1, "FORMERR");
        }
        _ => panic!("garbage must not forward"),
    }
    match server_decide_at(&view(), None, &[0xAB], false, true, 0) {
        ServerDecision::Malformed(resp) => assert_eq!(&resp[0..2], &[0, 0]),
        _ => panic!("garbage must not forward"),
    }
}

#[test]
fn probe_destination_is_off_tailnet_per_family() {
    assert_eq!(
        internet_probe_dst(IpAddr::V4(Ipv4Addr::new(100, 64, 0, 1))),
        IpAddr::V4(Ipv4Addr::new(0, 0, 0, 0))
    );
    assert_eq!(internet_probe_dst(IpAddr::V6(v6(0xfd7a, 1))), IpAddr::V6(v6(0x2000, 0)));
}

/// A rule of a packet filter: a source, a destination prefix and a range of ports.
struct Rule {
    src: IpAddr,
    dst: (u128, u8, bool),
    ports: std::ops::RangeInclusive<u16>,
}

fn number(ip: IpAddr) -> (u128, u8, bool) {
    match ip {
        IpAddr::V4(ip) => (ip.to_number() as u128, 32, true),
        IpAddr::V6(ip) => (ip.bits, 128, false),
    }
}

/// What a filter with the one rule says of the probe for `src`.
fn accepts(rule: &Rule, src: IpAddr) -> Option<bool> {
    let probe = dns_probe(src);
    let (dst, width, v4) = number(probe.dst);
    let (net, len, net_v4) = rule.dst;
    let covered = v4 == net_v4 && (len == 0 || (dst >> (width - len)) == (net >> (width - len)));
    Some(rule.src == probe.src && covered && rule.ports.contains(&probe.port) && probe.tcp_flags == 2)
}

fn v4_net(a: u8, b: u8, c: u8, d: u8, len: u8) -> (u128, u8, bool) {
    (Ipv4Addr::new(a, b, c, d).to_number() as u128, len, true)
}

const PEER: IpAddr = IpAddr::V4(Ipv4Addr {
    a: 100,
    b: 64,
    c: 0,
    d: 1,
});

fn serve(v: &DnsView, accepts: Option<bool>, src: IpAddr, id: u16, labels: &[&str]) -> Served {
    serve_query(v, accepts, src, Some(&question(labels)), &query_for(id, labels), false, true, 1)
}

#[test]
fn a_peer_the_acl_grants_internet_is_answered() {
    let v = view_with_peer();
    let rule = Rule {
        src: PEER,
        dst: v4_net(0, 0, 0, 0, 0),
        ports: 53..=53,
    };
    assert!(dns_source_allowed(&v, accepts(&rule, PEER), PEER));
    match serve(&v, accepts(&rule, PEER), PEER, 0x10, &["example", "com"]) {
        Served::Dns(ServerDecision::Forward { .. }) => {}
        _ => panic!("an ACL-granted peer must still get its answer"),
    }
}

#[test]
fn a_peer_the_acl_denies_gets_403_and_no_resolution() {
    let v = view_with_peer();
    let rule = Rule {
        src: PEER,
        dst: v4_net(100, 64, 0, 0, 10),
        ports: 0..=u16::MAX,
    };
    assert!(!dns_source_allowed(&v, accepts(&rule, PEER), PEER));
    assert!(matches!(
        decide_for(&v, 0x11, &["example", "com"], false, true),
        ServerDecision::Forward { .. }
    ));
    match serve(&v, accepts(&rule, PEER), PEER, 0x11, &["example", "com"]) {
        Served::Forbidden(bytes) => assert_eq!(
            bytes,
            b"HTTP/1.1 403 Forbidden\r\nContent-Length: 0\r\nConnection: close\r\n\r\n"
        ),
        Served::Dns(_) => panic!("the peer is not to be answered"),
    }
    assert!(matches!(
        serve(&v, accepts(&rule, PEER), PEER, 0x12, &["host", "user", "ts", "net"]),
        Served::Forbidden(_)
    ));
}

#[test]
fn a_source_that_is_no_known_peer_is_refused() {
    let v = view_with_peer();
    let stranger = IpAddr::V4(Ipv4Addr::new(198, 51, 100, 7));
    assert!(!dns_source_allowed(&v, Some(true), stranger));
    assert!(!dns_source_allowed(&view(), Some(true), PEER), "no peers are known yet");
}

#[test]
fn no_compiled_filter_yet_refuses() {
    let v = view_with_peer();
    assert!(!dns_source_allowed(&v, None, PEER));
}

#[test]
fn an_ipv6_peer_is_checked_against_the_global_unicast_probe() {
    let v = view_with_peer();
    let src = IpAddr::V6(v6(0xfd7a, 1));
    let internet = Rule {
        src,
        dst: (v6(0x2000, 0).bits, 3, false),
        ports: 53..=53,
    };
    assert!(dns_source_allowed(&v, accepts(&internet, src), src));
    let tailnet_only = Rule {
        src,
        dst: (v6(0xfd7a, 0).bits, 48, false),
        ports: 0..=u16::MAX,
    };
    assert!(!dns_source_allowed(&v, accepts(&tailnet_only, src), src));
}

#[test]
fn a_rule_on_another_port_does_not_open_dns() {
    let v = view_with_peer();
    let rule = Rule {
        src: PEER,
        dst: v4_net(0, 0, 0, 0, 0),
        ports: 443..=443,
    };
    assert!(!dns_source_allowed(&v, accepts(&rule, PEER), PEER));
}

#[test]
fn requests_are_decided_by_their_heads() {
    let start = |seed: &[u8]| read_request(seed, find_header_end(seed).unwrap());
    let done = |seed: &[u8]| match start(seed) {
        DohStart::Done(request) => request,
        DohStart::Body(_) => panic!("no body is expected"),
    };
    assert_eq!(done(b"GET /dns-query?dns=AQ HTTP/1.1\r\n\r\n"), DohRequest::Query(vec![1]));
    assert_eq!(done(b"GET /dns-query HTTP/1.1\r\n\r\n"), DohRequest::BadRequest);
    assert_eq!(done(b"GET /else HTTP/1.1\r\n\r\n"), DohRequest::NotFound);
    assert_eq!(done(b"PUT /dns-query HTTP/1.1\r\n\r\n"), DohRequest::BadRequest);
    assert_eq!(done(b"POST /dns-query HTTP/1.1\r\n\r\n"), DohRequest::BadRequest);
    assert_eq!(done(b"\xff\r\n\r\n"), DohRequest::BadRequest);
    assert_eq!(
        done(b"POST /dns-query HTTP/1.1\r\nContent-Length: 8193\r\n\r\n"),
        DohRequest::TooLarge
    );
    assert_eq!(
        done(b"POST /dns-query HTTP/1.1\r\nContent-Length: 4\r\nContent-Type: text/plain\r\n\r\n"),
        DohRequest::BadRequest
    );
    let post = b"POST /dns-query?x HTTP/1.1\r\nContent-Length: 4\r\nContent-Type: Application/DNS-Message\r\n\r\n";
    assert!(matches!(start(post), DohStart::Body(4)));
}

#[test]
fn requests_are_bounded_with_their_heads() {
    let head = |len: usize| {
        format!("POST /dns-query HTTP/1.1\r\nContent-Length: {len}\r\nContent-Type: application/dns-message\r\n\r\n")
    };
    let end = head(8000).len();
    let largest = MAX_REQUEST - end;
    assert!(matches!(read_request(head(largest).as_bytes(), end), DohStart::Body(n) if n == largest));
    assert!(matches!(
        read_request(head(largest + 1).as_bytes(), end),
        DohStart::Done(DohRequest::TooLarge)
    ));
    let get = format!("GET /dns-query?dns={} HTTP/1.1\r\n\r\n", "A".repeat(MAX_REQUEST));
    assert!(matches!(
        read_request(get.as_bytes(), get.len()),
        DohStart::Done(DohRequest::TooLarge)
    ));
}

#[test]
fn bodies_are_read_to_their_length() {
    let mut body = PostBody::new(b"HEADab", 4, 4);
    assert_eq!(body.poll(), None);
    body.feed(b"cdEXTRA");
    assert_eq!(body.poll(), Some(DohRequest::Query(b"abcd".to_vec())));
    assert_eq!(PostBody::new(b"HEAD", 4, 0).poll(), Some(DohRequest::Query(vec![])));
    let crowded = PostBody::new(&[0; MAX_REQUEST + 1], MAX_REQUEST, 2);
    assert_eq!(crowded.poll(), Some(DohRequest::TooLarge));
    let whole = PostBody::new(&[0; MAX_REQUEST + 2], MAX_REQUEST, 2);
    assert_eq!(whole.poll(), Some(DohRequest::Query(vec![0, 0])));
}

#[test]
fn connections_are_answered_by_their_requests() {
    let status = |request: DohRequest| match conn_step(Some(request)) {
        ConnStep::Answer(bytes) => {
            String::from_utf8(bytes).unwrap().lines().next().unwrap().to_string()
        }
        _ => panic!("expected an answer"),
    };
    assert_eq!(status(DohRequest::TooLarge), "HTTP/1.1 413 Payload Too Large");
    assert_eq!(status(DohRequest::BadRequest), "HTTP/1.1 400 Bad Request");
    assert_eq!(status(DohRequest::NotFound), "HTTP/1.1 404 Not Found");
    assert!(matches!(conn_step(None), ConnStep::Close));
    match conn_step(Some(DohRequest::Query(vec![1, 2]))) {
        ConnStep::Resolve(q) => assert_eq!(q, vec![1, 2]),
        _ => panic!("a query is resolved"),
    }
}

#[test]
fn messages_go_out_under_exact_heads() {
    assert_eq!(
        dns_response(b"abc"),
        b"HTTP/1.1 200 OK\r\nContent-Type: application/dns-message\r\nContent-Length: 3\r\nConnection: close\r\n\r\nabc"
    );
    assert_eq!(
        doh_request("100.64.0.5:8080", b"query"),
        b"POST /dns-query HTTP/1.1\r\nHost: 100.64.0.5:8080\r\nContent-Type: application/dns-message\r\nAccept: application/dns-message\r\nContent-Length: 5\r\nConnection: close\r\n\r\nquery"
    );
}

fn read_all(chunks: &[&[u8]]) -> Result<Vec<u8>, DohError> {
    let mut reader = ResponseReader::new();
    for chunk in chunks {
        match reader.feed(chunk) {
            ReadStep::More(next) => reader = next,
            ReadStep::Done(body) => return Ok(body),
            ReadStep::Failed(e) => return Err(e),
        }
    }
    match reader.feed(&[]) {
        ReadStep::Failed(e) => Err(e),
        _ => panic!("a closed connection ends the reading"),
    }
}

#[test]
fn what_one_side_writes_the_other_reads() {
    let msg: Vec<u8> = (0..=255).collect();
    let wire = dns_response(&msg);
    assert_eq!(read_all(&[&wire]), Ok(msg.clone()));
    let bytes: Vec<&[u8]> = wire.chunks(1).collect();
    assert_eq!(read_all(&bytes), Ok(msg.clone()));
    let request = doh_request("h", &msg);
    let end = find_header_end(&request).unwrap();
    match read_request(&request, end) {
        DohStart::Body(len) => assert_eq!(
            PostBody::new(&request, end, len).poll(),
            Some(DohRequest::Query(msg))
        ),
        DohStart::Done(_) => panic!("a query follows"),
    }
}

#[test]
fn answers_of_every_size_are_read_back() {
    for len in [0, 1, 9, 10, 512, MAX_CLIENT_RESPONSE] {
        let msg = vec![0xA5; len];
        let wire = dns_response(&msg);
        assert_eq!(parse_response_head(&wire), Ok(len));
        let cut: Vec<&[u8]> = wire.chunks(97).collect();
        assert_eq!(read_all(&cut), Ok(msg));
    }
}

#[test]
fn queries_are_read_back_from_partial_requests() {
    let msg = vec![7; 8000];
    let request = doh_request("[fd7a::1]:80", &msg);
    let end = find_header_end(&request).unwrap();
    assert_eq!(request.len(), end + msg.len());
    for n in [end, end + 1, end + 100, request.len()] {
        let seed = &request[..n];
        assert_eq!(find_header_end(seed), Some(end));
        assert!(matches!(read_request(seed, end), DohStart::Body(8000)));
    }
    assert_eq!(find_header_end(&request[..end - 1]), None);
}

#[test]
fn refusals_are_read_with_their_status() {
    let cases = [
        (DohRequest::TooLarge, 413),
        (DohRequest::BadRequest, 400),
        (DohRequest::NotFound, 404),
    ];
    for (request, code) in cases {
        match conn_step(Some(request)) {
            ConnStep::Answer(wire) => {
                assert_eq!(parse_response_head(&wire), Err(DohError::Status(Some(code))));
                assert_eq!(read_all(&[&wire]), Err(DohError::Status(Some(code))));
            }
            _ => panic!("expected an answer"),
        }
    }
}

#[test]
fn responses_that_cannot_be_relayed_are_refused() {
    let head: &[u8] = b"HTTP/1.1 200 OK\r\nContent-Length: 4\r\n\r\n";
    assert_eq!(read_all(&[head, b"ab"]), Err(DohError::Eof));
    assert_eq!(read_all(&[b"HTTP/1.1 200"]), Err(DohError::Eof));
    assert_eq!(read_all(&[head, b"ab", b"cdef"]), Ok(b"abcd".to_vec()));
    assert_eq!(read_all(&[head, b"ab", &[0; 65534]]), Err(DohError::BodyTooLarge));
    assert_eq!(read_all(&[&[b'x'; 65536]]), Err(DohError::HeadTooLarge));
    assert_eq!(
        read_all(&[b"HTTP/1.1 500 Oops\r\n\r\n"]),
        Err(DohError::Status(Some(500)))
    );
}

#[test]
fn delegated_answers_fall_back_when_there_is_none() {
    let query = query_for(1, &["example", "com"]);
    let fallback = vec![9; 12];
    let mut answer = query.clone();
    answer[2] |= 0x80;
    answer.resize(900, 0xAB);
    let udp = delegated_answer(&query, Some(answer.clone()), fallback.clone(), ClientTransport::Udp);
    assert_eq!(udp[2] & 0x02, 2, "too large for the client's datagram");
    let tcp = delegated_answer(&query, Some(answer.clone()), fallback.clone(), ClientTransport::Tcp);
    assert_eq!(tcp, answer);
    let empty = delegated_answer(&query, Some(vec![]), fallback.clone(), ClientTransport::Udp);
    assert_eq!(empty, fallback);
    let none = delegated_answer(&query, None, fallback.clone(), ClientTransport::Udp);
    assert_eq!(none, fallback);
}
