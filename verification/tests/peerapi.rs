//! The peerAPI: routes, gates and bodies.

use ts_runtime::addr::{IpAddr, Ipv4Addr, Ipv6Addr, SocketAddr};
use ts_runtime::decimal::{parse_number, push_decimal};
use ts_runtime::http::{declared_length, find_header_end, header_value, Header, RequestHead};
use ts_runtime::magic_dns::DnsView;
use ts_runtime::node::{Node, NodeKey};
use ts_runtime::peer_db::PeerDb;
use ts_runtime::peerapi::{
    classify_route, gate_taildrop, parse_range_offset, percent_decode, put_response, put_step,
    route_head, route_read, route_request, route_response, source_is_known_node,
    taildrop_ok_response, takes_connection, BodyReader, BodyStep, GateDecision, HeaderReader,
    PutOutcome, PutStep, Route, Routed, MAX_HEADERS, MAX_INFLIGHT,
};
use ts_runtime::text::{eq_ignore_case, split_on, trim};

fn node_at(stable: &str, ipv4: Ipv4Addr) -> Node {
    Node {
        id: 1,
        stable_id: stable.to_string(),
        hostname: stable.to_string(),
        tailnet: Some("user.ts.net".to_string()),
        user_id: 0,
        ipv4,
        ipv6: Ipv6Addr {
            bits: (0xfd7a << 112) | 1,
        },
        service_addresses: vec![],
        node_key: NodeKey { hi: 0, lo: 0 },
        node_key_expiry: None,
        online: None,
        last_seen: None,
        key_signature: vec![],
        disco_key: None,
        accepted_routes: vec![],
        underlay_addresses: vec![],
        derp_region: None,
        cap: 0,
        cap_map: vec![],
        unsigned_peer_api_only: false,
    }
}

fn view_with(node_has_cap: bool, peer_ips: &[Ipv4Addr]) -> DnsView {
    let mut self_node = node_at("self", Ipv4Addr::new(100, 64, 0, 1));
    if node_has_cap {
        self_node.cap_map.push("https://tailscale.com/cap/file-sharing".to_string());
    }
    let mut db = PeerDb::new();
    for (i, ip) in peer_ips.iter().enumerate() {
        db.upsert(&node_at(&format!("peer{i}"), *ip));
    }
    let mut view = DnsView::new(false, false);
    view.self_node = Some(self_node);
    view.peers = Some(db);
    view
}

fn src(a: u8, b: u8, c: u8, d: u8) -> SocketAddr {
    SocketAddr::v4(a, b, c, d, 41234)
}

fn header(name: &str, value: &str) -> Header {
    Header {
        name: name.to_string(),
        value: value.as_bytes().to_vec(),
    }
}

#[test]
fn percent_decode_decodes_escapes() {
    assert_eq!(percent_decode("photo.jpg"), "photo.jpg");
    assert_eq!(percent_decode("my%20file.txt"), "my file.txt");
    assert_eq!(percent_decode("a%2Fb"), "a/b");
    assert_eq!(percent_decode("100%done"), "100%done");
}

#[test]
fn percent_decode_keeps_what_is_no_escape() {
    assert_eq!(percent_decode("a%4"), "a%4");
    assert_eq!(percent_decode("%"), "%");
    assert_eq!(percent_decode("%41"), "A");
    assert_eq!(percent_decode("%e2%82%ac"), "\u{20ac}");
    assert_eq!(percent_decode("%ff"), "\u{fffd}");
    assert_eq!(percent_decode("\u{20ac}"), "\u{20ac}");
}

#[test]
fn parse_range_offset_reads_resume_start() {
    let buf = b"PUT /v0/put/x HTTP/1.1\r\nRange: bytes=1024-\r\n\r\n";
    match route_request(buf) {
        Routed::Put { offset, .. } => assert_eq!(offset, 1024),
        _ => panic!("expected a file transfer"),
    }
    assert_eq!(parse_range_offset(&vec![header("Range", "bytes=1024-")]), 1024);
}

#[test]
fn parse_range_offset_defaults_zero() {
    assert_eq!(parse_range_offset(&vec![header("Content-Length", "3")]), 0);
    assert_eq!(parse_range_offset(&vec![header("Range", "items=1-2")]), 0);
    let buf = b"PUT /v0/put/x HTTP/1.1\r\nContent-Length: 3\r\n\r\n";
    match route_request(buf) {
        Routed::Put { offset, content_length, .. } => {
            assert_eq!(offset, 0);
            assert_eq!(content_length, Some(3));
        }
        _ => panic!("expected a file transfer"),
    }
    let buf2 = b"PUT /v0/put/x HTTP/1.1\r\nRange: items=1-2\r\n\r\n";
    match route_request(buf2) {
        Routed::Put { offset, content_length, .. } => {
            assert_eq!(offset, 0);
            assert_eq!(content_length, None);
        }
        _ => panic!("expected a file transfer"),
    }
}

#[test]
fn range_offsets_are_lenient() {
    for (value, want) in [
        ("bytes=7", 0),
        ("bytes=x-", 0),
        (" bytes= 9 -20", 9),
        ("bytes=+5-", 5),
        ("bytes=99999999999999999999-", 0),
    ] {
        assert_eq!(parse_range_offset(&vec![header("RANGE", value)]), want, "{value}");
    }
}

#[test]
fn gate_denies_without_store() {
    let v = view_with(true, &[Ipv4Addr::new(100, 64, 0, 9)]);
    assert_eq!(gate_taildrop(&v, src(100, 64, 0, 9), false), GateDecision::Deny);
}

#[test]
fn gate_denies_when_node_lacks_file_sharing_cap() {
    let v = view_with(false, &[Ipv4Addr::new(100, 64, 0, 9)]);
    assert_eq!(gate_taildrop(&v, src(100, 64, 0, 9), true), GateDecision::Deny);
}

#[test]
fn gate_denies_unknown_source_ip() {
    let v = view_with(true, &[Ipv4Addr::new(100, 64, 0, 9)]);
    assert_eq!(gate_taildrop(&v, src(198, 51, 100, 7), true), GateDecision::Deny);
}

#[test]
fn gate_allows_known_peer_with_node_cap_and_store() {
    let v = view_with(true, &[Ipv4Addr::new(100, 64, 0, 9)]);
    assert_eq!(gate_taildrop(&v, src(100, 64, 0, 9), true), GateDecision::Allow);
}

#[test]
fn this_node_may_send_itself_files() {
    let v = view_with(true, &[]);
    assert!(source_is_known_node(&v, IpAddr::V4(Ipv4Addr::new(100, 64, 0, 1))));
    assert_eq!(gate_taildrop(&v, src(100, 64, 0, 1), true), GateDecision::Allow);
    let mut nobody = DnsView::new(false, false);
    nobody.cfg.magic_dns = true;
    assert_eq!(gate_taildrop(&nobody, src(100, 64, 0, 1), true), GateDecision::Deny);
}

#[test]
fn classify_route_maps_put_to_taildrop() {
    assert_eq!(
        classify_route("PUT", "/v0/put/photo.jpg"),
        Route::TaildropPut {
            name: "photo.jpg".to_string()
        }
    );
    assert_eq!(
        classify_route("PUT", "/v0/put/my%20file.txt"),
        Route::TaildropPut {
            name: "my file.txt".to_string()
        }
    );
    assert_eq!(
        classify_route("PUT", "/v0/put/a.bin?x=1"),
        Route::TaildropPut {
            name: "a.bin".to_string()
        }
    );
}

#[test]
fn classify_route_non_put_on_taildrop_is_405() {
    assert_eq!(classify_route("GET", "/v0/put/photo.jpg"), Route::TaildropMethodNotAllowed);
    assert_eq!(classify_route("POST", "/v0/put/photo.jpg"), Route::TaildropMethodNotAllowed);
}

#[test]
fn classify_route_dns_query_falls_through_to_doh() {
    assert_eq!(classify_route("POST", "/dns-query"), Route::DohOrOther);
    assert_eq!(classify_route("GET", "/dns-query?dns=abc"), Route::DohOrOther);
    assert_eq!(classify_route("GET", "/something-else"), Route::DohOrOther);
}

#[test]
fn taildrop_ok_response_is_exact() {
    let resp = taildrop_ok_response();
    let text = String::from_utf8(resp).unwrap();
    assert!(text.starts_with("HTTP/1.1 200 OK\r\n"));
    assert!(text.contains("Content-Length: 3\r\n"));
    assert!(text.ends_with("\r\n\r\n{}\n"));
    assert_eq!(
        text,
        "HTTP/1.1 200 OK\r\nContent-Type: application/json\r\nContent-Length: 3\r\nConnection: close\r\n\r\n{}\n"
    );
}

#[test]
fn dns_query_post_is_not_taildrop_405_or_404() {
    assert_eq!(classify_route("POST", "/dns-query"), Route::DohOrOther);
    assert_eq!(classify_route("POST", "/dns-query?x=1"), Route::DohOrOther);
}

fn status_line(resp: &[u8]) -> String {
    String::from_utf8_lossy(resp).lines().next().unwrap_or("").to_string()
}

/// The answer to a request, where `stored` says how storing its file ends.
fn taildrop_request_path(
    method: &str,
    path: &str,
    content_length: Option<u64>,
    store_configured: bool,
    stored: PutOutcome,
    view: &DnsView,
    from: SocketAddr,
) -> String {
    let mut headers = vec![];
    if let Some(n) = content_length {
        headers.push(header("content-length", &n.to_string()));
    }
    let routed = route_head(Some(RequestHead {
        method: method.to_string(),
        path: path.to_string(),
        headers,
    }));
    if let Some(answer) = route_response(&routed) {
        return status_line(&answer);
    }
    match routed {
        Routed::Put { content_length, .. } => {
            let outcome = match put_step(view, from, store_configured, content_length) {
                PutStep::Forbidden => PutOutcome::Forbidden,
                PutStep::BadRequest => PutOutcome::BadRequest,
                PutStep::Store(_) => stored,
            };
            status_line(&put_response(outcome))
        }
        _ => "DOH".to_string(),
    }
}

#[test]
fn put_request_denied_by_gate_is_403() {
    let view = view_with(true, &[Ipv4Addr::new(100, 64, 0, 9)]);
    let no_cap = view_with(false, &[Ipv4Addr::new(100, 64, 0, 9)]);
    let from = src(100, 64, 0, 9);
    let line = taildrop_request_path(
        "PUT", "/v0/put/x.txt", Some(1), false, PutOutcome::Stored, &view, from,
    );
    assert_eq!(line, "HTTP/1.1 403 Forbidden");
    let line = taildrop_request_path(
        "PUT", "/v0/put/x.txt", Some(1), true, PutOutcome::Stored, &no_cap, from,
    );
    assert_eq!(line, "HTTP/1.1 403 Forbidden");
}

#[test]
fn get_on_taildrop_path_is_405() {
    let view = view_with(true, &[Ipv4Addr::new(100, 64, 0, 9)]);
    let line = taildrop_request_path(
        "GET", "/v0/put/x.txt", Some(1), true, PutOutcome::Stored, &view, src(100, 64, 0, 9),
    );
    assert_eq!(line, "HTTP/1.1 405 Method Not Allowed");
}

#[test]
fn every_outcome_of_a_transfer_has_its_status() {
    let view = view_with(true, &[Ipv4Addr::new(100, 64, 0, 9)]);
    let from = src(100, 64, 0, 9);
    for (outcome, line) in [
        (PutOutcome::Stored, "HTTP/1.1 200 OK"),
        (PutOutcome::InvalidFileName, "HTTP/1.1 400 Bad Request"),
        (PutOutcome::FileExists, "HTTP/1.1 409 Conflict"),
        (PutOutcome::Io, "HTTP/1.1 500 Internal Server Error"),
    ] {
        let got =
            taildrop_request_path("PUT", "/v0/put/x", Some(1), true, outcome, &view, from);
        assert_eq!(got, line);
    }
    let no_length =
        taildrop_request_path("PUT", "/v0/put/x", None, true, PutOutcome::Stored, &view, from);
    assert_eq!(no_length, "HTTP/1.1 400 Bad Request");
    assert_eq!(
        String::from_utf8(put_response(PutOutcome::FileExists)).unwrap(),
        "HTTP/1.1 409 Conflict\r\nContent-Length: 0\r\nConnection: close\r\n\r\n"
    );
}

#[test]
fn heads_are_routed_as_they_are_parsed() {
    assert_eq!(route_request(b"garbage\x00\r\n\r\n"), Routed::BadRequest);
    assert_eq!(route_request(b"GET /dns-query HTTP/1.1\r\n"), Routed::BadRequest);
    assert_eq!(route_request(b"GET /dns-query HTTP/1.1\r\n\r\n"), Routed::Doh);
    assert_eq!(route_request(b"GET /v0/put/x HTTP/1.1\r\n\r\n"), Routed::MethodNotAllowed);
    assert_eq!(
        route_request(b"PUT /v0/put/a%20b HTTP/1.1\r\ncontent-LENGTH: 5 \r\n\r\n"),
        Routed::Put {
            name: "a b".to_string(),
            offset: 0,
            content_length: Some(5)
        }
    );
    let many: String = (0..33).map(|i| format!("h{i}: v\r\n")).collect();
    let crowded = format!("GET / HTTP/1.1\r\n{many}\r\n");
    assert_eq!(route_request(crowded.as_bytes()), Routed::BadRequest);
    assert!(route_response(&Routed::Doh).is_none());
    assert_eq!(
        status_line(&route_response(&Routed::BadRequest).unwrap()),
        "HTTP/1.1 400 Bad Request"
    );
}

#[test]
fn heads_are_read_chunk_by_chunk() {
    let mut reader = HeaderReader::new();
    assert_eq!(reader.poll(), None);
    reader.feed(b"GET / HTTP/1.1\r\n");
    assert_eq!(reader.poll(), None);
    reader.feed(b"\r\nBODY");
    assert_eq!(reader.poll(), Some(18));
    assert_eq!(&reader.buf[18..], b"BODY");

    let mut endless = HeaderReader::new();
    endless.feed(&vec![b'x'; MAX_HEADERS]);
    assert_eq!(endless.poll(), None);
    endless.feed(b"x");
    assert_eq!(endless.poll(), Some(0));
    assert_eq!(route_read(&endless.buf, 0), Routed::BadRequest);
    let mut unended = b"GET /dns-query HTTP/1.1\n\n".to_vec();
    assert_eq!(route_read(&unended, 0), Routed::Doh);
    unended.resize(MAX_HEADERS + 1, b'x');
    assert_eq!(route_read(&unended, 0), Routed::BadRequest);

    assert_eq!(HeaderReader::new().closed(), None);
    let mut partial = HeaderReader::new();
    partial.feed(b"GET");
    assert_eq!(partial.closed(), Some((b"GET".to_vec(), 0)));
}

/// Reads a body with a buffer of `room` bytes, off a stream that has `stream` to give.
fn read_body(mut reader: BodyReader, stream: &[u8], room: usize) -> Vec<u8> {
    let mut out = Vec::new();
    let mut at = 0;
    loop {
        match reader.step(room) {
            BodyStep::Bytes(bytes) => out.extend_from_slice(&bytes),
            BodyStep::Read(want) => {
                let n = want.min(stream.len() - at);
                if n == 0 {
                    return out;
                }
                out.extend_from_slice(&stream[at..at + n]);
                at += n;
                reader.took(n);
            }
            BodyStep::End => return out,
        }
    }
}

#[test]
fn body_reader_caps_at_content_length() {
    let out = read_body(BodyReader::new(Vec::new(), 8), b"01234567OVERFLOW1234", 4);
    assert_eq!(out, b"01234567");
    assert_eq!(out.len(), 8);
}

#[test]
fn body_reader_includes_seed_then_caps() {
    let out = read_body(BodyReader::new(b"abc".to_vec(), 6), b"XXXXXXXXXX", 4);
    assert_eq!(out, b"abcXXX");
}

#[test]
fn a_body_ends_where_it_was_declared_to() {
    assert_eq!(read_body(BodyReader::new(b"abcdef".to_vec(), 4), b"zz", 3), b"abcd");
    assert_eq!(read_body(BodyReader::new(vec![], 0), b"zz", 3), b"");
    assert_eq!(read_body(BodyReader::new(b"a".to_vec(), 5), b"b", 3), b"ab");
}

#[test]
fn fields_are_found_whatever_their_case() {
    let headers = vec![
        header("X-A", "1"),
        header("x-a", "2"),
        Header {
            name: "Bad".to_string(),
            value: vec![0xff],
        },
        header("Content-Length", " +12 "),
    ];
    assert_eq!(header_value(&headers, "x-A"), Some("1".to_string()));
    assert_eq!(header_value(&headers, "bad"), None);
    assert_eq!(header_value(&headers, "none"), None);
    assert_eq!(declared_length(&headers, 12), Some(12));
    assert_eq!(declared_length(&headers, 11), None);
    assert!(eq_ignore_case("Content-Type", "content-TYPE"));
    assert!(!eq_ignore_case("a", "ab"));
}

#[test]
fn numbers_are_written_and_read_in_decimal() {
    for n in [0u64, 7, 10, 409, 65535, u64::MAX] {
        let mut s = String::new();
        push_decimal(&mut s, n);
        assert_eq!(s, n.to_string());
        let chars: Vec<char> = s.chars().collect();
        assert_eq!(parse_number(&chars, u64::MAX), Some(n));
    }
    for bad in ["", "+", "-1", "1x", "18446744073709551616", "++1"] {
        let chars: Vec<char> = bad.chars().collect();
        assert_eq!(parse_number(&chars, u64::MAX), None, "{bad}");
    }
    let spaced: Vec<char> = "\u{3000}\t a b \n".chars().collect();
    assert_eq!(trim(&spaced).into_iter().collect::<String>(), "a b");
    assert_eq!(split_on("a..b", '.'), vec!["a", "", "b"]);
    assert_eq!(find_header_end(b"\r\n\r\n"), Some(4));
}

#[test]
fn connections_beyond_the_cap_are_closed() {
    assert!(takes_connection(0));
    assert!(takes_connection(MAX_INFLIGHT - 1));
    assert!(!takes_connection(MAX_INFLIGHT));
}
