//! Sizes, truncation and matching of DNS messages.

use ts_runtime::dns_message::{
    cap_response, check_response_size_and_set_tc, client_udp_limit, did_not_fit_the_datagram,
    find_opt_record, frame, framed_len, is_soft_error, question_range, response_matches_query,
    response_rcode, servfail_response, ClientTransport, UpstreamTransport, MAX_UPSTREAM_RESPONSE,
    NO_EDNS_UDP_LIMIT, RCODE_REFUSED, RCODE_SERVFAIL,
};

/// How many bytes the receive buffer of the overlay's UDP sockets holds.
const UDP_RECEIVE_RING: usize = 4096;

fn build_query(id: u16, labels: &[&str], qtype: u16, qclass: u16) -> Vec<u8> {
    let mut buf: Vec<u8> = Vec::new();
    buf.extend_from_slice(&id.to_be_bytes());
    buf.extend_from_slice(&0u16.to_be_bytes());
    buf.extend_from_slice(&1u16.to_be_bytes());
    buf.extend_from_slice(&[0; 6]);
    for label in labels {
        buf.push(label.len() as u8);
        buf.extend_from_slice(label.as_bytes());
    }
    buf.push(0);
    buf.extend_from_slice(&qtype.to_be_bytes());
    buf.extend_from_slice(&qclass.to_be_bytes());
    buf
}

fn build_edns_query(
    id: u16,
    labels: &[&str],
    qtype: u16,
    qclass: u16,
    udp_size: u16,
) -> Vec<u8> {
    let mut buf = build_query(id, labels, qtype, qclass);
    buf[11] = 1;
    buf.push(0);
    buf.extend_from_slice(&41u16.to_be_bytes());
    buf.extend_from_slice(&udp_size.to_be_bytes());
    buf.extend_from_slice(&0u32.to_be_bytes());
    buf.extend_from_slice(&0u16.to_be_bytes());
    buf
}

fn build_edns_query_with_option(
    id: u16,
    labels: &[&str],
    qtype: u16,
    qclass: u16,
    udp_size: u16,
    option_code: u16,
    option_data: &[u8],
) -> Vec<u8> {
    let mut buf = build_edns_query(id, labels, qtype, qclass, udp_size);
    let rdata_len = 4 + option_data.len();
    let rdlength_at = buf.len() - 2;
    buf[rdlength_at..].copy_from_slice(&(rdata_len as u16).to_be_bytes());
    buf.extend_from_slice(&option_code.to_be_bytes());
    buf.extend_from_slice(&(option_data.len() as u16).to_be_bytes());
    buf.extend_from_slice(option_data);
    buf
}

#[test]
fn response_matches_query_validates_id_and_qr() {
    let query = build_query(0x1234, &["a", "com"], 1, 1);
    let mut good = query.clone();
    good[2] |= 0x80;
    assert!(response_matches_query(&query, &good));
    assert!(!response_matches_query(&query, &query));
    let mut wrong_id = good.clone();
    wrong_id[0] ^= 0xFF;
    assert!(!response_matches_query(&query, &wrong_id));
    assert!(!response_matches_query(&query, &[0u8; 2]));
    assert!(!response_matches_query(&[0u8; 3], &good));
}

#[test]
fn response_matches_query_rejects_mismatched_question() {
    let query = build_query(0x1234, &["a", "com"], 1, 1);
    let mut wrong_question = build_query(0x1234, &["b", "com"], 1, 1);
    wrong_question[2] |= 0x80;
    assert!(!response_matches_query(&query, &wrong_question), "different QNAME must be rejected");
    let mut wrong_qtype = build_query(0x1234, &["a", "com"], 28, 1);
    wrong_qtype[2] |= 0x80;
    assert!(!response_matches_query(&query, &wrong_qtype), "different QTYPE must be rejected");
    let mut good = query.clone();
    good[2] |= 0x80;
    assert!(response_matches_query(&query, &good), "matching question accepted");
}

#[test]
fn a_tcp_fetched_answer_is_relayed_whole_to_a_tcp_client() {
    let query = build_edns_query(0x405, &["big", "example", "com"], 16, 1, 4096);
    let mut big = query.clone();
    big[2] |= 0x80;
    big.resize(MAX_UPSTREAM_RESPONSE + 5000, 0xAB);

    let out = cap_response(&query, big.clone(), ClientTransport::Tcp, UpstreamTransport::Tcp);
    assert_eq!(out, big, "TCP end to end: the whole answer, unchopped and unmarked");

    let out = cap_response(&query, big, ClientTransport::Udp, UpstreamTransport::Tcp);
    assert_eq!(out.len(), MAX_UPSTREAM_RESPONSE);
    assert_ne!(out[2] & 0x02, 0, "and is marked truncated");
}

#[test]
fn client_udp_limit_is_not_applied_to_a_tcp_client() {
    let query = build_query(0x310, &["example", "com"], 1, 1);
    let mut answer = query.clone();
    answer[2] |= 0x80;
    answer.resize(900, 0xAB);

    let udp = cap_response(&query, answer.clone(), ClientTransport::Udp, UpstreamTransport::Udp);
    assert_ne!(udp[2] & 0x02, 0, "a UDP client that advertised 512 bytes is told");
    assert_eq!(udp.len(), 900, "and the body is left intact either way");

    let tcp = cap_response(&query, answer, ClientTransport::Tcp, UpstreamTransport::Udp);
    assert_eq!(tcp[2] & 0x02, 0, "the same answer over TCP is NOT marked");
    assert_eq!(tcp.len(), 900, "and is relayed whole");
}

#[test]
fn a_chopped_answer_is_marked_truncated_on_both_transports() {
    let query = build_edns_query(0x311, &["example", "com"], 1, 1, 4096);
    let mut big = query.clone();
    big[2] |= 0x80;
    big.resize(MAX_UPSTREAM_RESPONSE + 500, 0xAB);

    let out = cap_response(&query, big, ClientTransport::Tcp, UpstreamTransport::Udp);
    assert_eq!(out.len(), MAX_UPSTREAM_RESPONSE, "capped to one datagram");
    assert_ne!(out[2] & 0x02, 0, "TC is set for a TCP client too");
}

#[test]
fn cap_response_sets_tc_when_truncated() {
    let query = build_edns_query(0x300, &["example", "com"], 1, 1, 4096);
    let mut big = query.clone();
    big[2] |= 0x80;
    big.resize(MAX_UPSTREAM_RESPONSE + 500, 0xAB);

    let out = cap_response(&query, big, ClientTransport::Udp, UpstreamTransport::Udp);
    assert_eq!(out.len(), MAX_UPSTREAM_RESPONSE, "capped to one datagram");
    assert_ne!(out[2] & 0x02, 0, "TC bit set on truncation");
}

#[test]
fn cap_response_leaves_small_response_untouched() {
    let query = build_query(0x301, &["example", "com"], 1, 1);
    let mut small = query.clone();
    small[2] |= 0x80;
    let before = small.clone();
    let out = cap_response(&query, small, ClientTransport::Udp, UpstreamTransport::Udp);
    assert_eq!(out, before, "small response unchanged");
    assert_eq!(out[2] & 0x02, 0, "TC bit not set when no truncation");
}

#[test]
fn cap_is_a_relay_bound_not_the_read_bound() {
    assert!(UDP_RECEIVE_RING > MAX_UPSTREAM_RESPONSE);
    let query = build_edns_query(0x302, &["example", "com"], 1, 1, 4096);
    let mut largest = query.clone();
    largest[2] |= 0x80;
    largest.resize(MAX_UPSTREAM_RESPONSE, 0xAB);
    let before = largest.clone();
    let out = cap_response(&query, largest, ClientTransport::Udp, UpstreamTransport::Udp);
    assert_eq!(out, before, "an answer at the cap must be relayed verbatim");
    assert_eq!(out[2] & 0x02, 0, "TC must not be set on a datagram that was never chopped");
}

#[test]
fn full_ring_datagram_is_chopped_and_marked_truncated() {
    let query = build_edns_query(0x303, &["example", "com"], 1, 1, 4096);
    let mut full_ring = query.clone();
    full_ring[2] |= 0x80;
    full_ring.resize(UDP_RECEIVE_RING, 0xAB);
    let out = cap_response(&query, full_ring, ClientTransport::Udp, UpstreamTransport::Udp);
    assert_eq!(out.len(), 4095);
    assert_ne!(out[2] & 0x02, 0, "TC bit set on the chopped answer");
}

#[test]
fn forwarded_reply_over_512_sets_tc_for_a_plain_query() {
    let query = build_query(0x400, &["example", "com"], 1, 1);
    let mut reply = query.clone();
    reply[2] |= 0x80;
    reply.resize(900, 0xAB);
    let out = cap_response(&query, reply.clone(), ClientTransport::Udp, UpstreamTransport::Udp);
    assert_ne!(out[2] & 0x02, 0, "a 900-byte reply to a non-EDNS query must have TC set");
    assert_eq!(out.len(), 900, "the body is left intact, not chopped");
    assert_eq!(out[3..], reply[3..], "only the flags byte carrying TC may differ");
}

#[test]
fn forwarded_reply_under_advertised_edns_size_leaves_tc_clear() {
    let query = build_edns_query(0x401, &["example", "com"], 1, 1, 4096);
    let mut reply = query.clone();
    reply[2] |= 0x80;
    reply.resize(900, 0xAB);
    let before = reply.clone();
    let out = cap_response(&query, reply, ClientTransport::Udp, UpstreamTransport::Udp);
    assert_eq!(out, before, "a reply within the advertised buffer is verbatim");
    assert_eq!(out[2] & 0x02, 0, "TC must stay clear");
}

#[test]
fn client_udp_limit_reads_the_opt_record() {
    let plain = build_query(0x402, &["example", "com"], 1, 1);
    assert_eq!(client_udp_limit(&plain), NO_EDNS_UDP_LIMIT);

    let edns = build_edns_query(0x403, &["example", "com"], 1, 1, 1232);
    assert_eq!(client_udp_limit(&edns), 1232);

    let tiny = build_edns_query(0x404, &["example", "com"], 1, 1, 64);
    assert_eq!(client_udp_limit(&tiny), 64);

    let mut trailing_rr = build_edns_query(0x405, &["example", "com"], 1, 1, 2048);
    trailing_rr.extend_from_slice(&[0, 0, 16, 0, 1, 0, 0, 0, 0, 0, 1, 0]);
    trailing_rr[11] = 2;
    assert_eq!(client_udp_limit(&trailing_rr), NO_EDNS_UDP_LIMIT);

    let cookie = build_edns_query_with_option(0x406, &["example", "com"], 1, 1, 4096, 10, &[0; 8]);
    assert_eq!(client_udp_limit(&cookie), NO_EDNS_UDP_LIMIT);

    let mut future_version = build_edns_query(0x407, &["example", "com"], 1, 1, 4096);
    let ttl_at = future_version.len() - 6;
    future_version[ttl_at + 1] = 1;
    assert_eq!(client_udp_limit(&future_version), NO_EDNS_UDP_LIMIT);

    let mut named = build_edns_query(0x408, &["example", "com"], 1, 1, 4096);
    let name_at = named.len() - 11;
    named[name_at] = 0xC0;
    assert_eq!(client_udp_limit(&named), NO_EDNS_UDP_LIMIT);

    let mut no_ar = build_edns_query(0x409, &["example", "com"], 1, 1, 4096);
    no_ar[11] = 0;
    assert_eq!(client_udp_limit(&no_ar), NO_EDNS_UDP_LIMIT);

    let mut chopped = build_edns_query(0x40A, &["example", "com"], 1, 1, 4096);
    chopped.truncate(chopped.len() - 8);
    assert_eq!(client_udp_limit(&chopped), NO_EDNS_UDP_LIMIT);
}

#[test]
fn an_opt_record_carrying_options_is_not_honoured() {
    let query = build_edns_query_with_option(0x40B, &["example", "com"], 1, 1, 4096, 10, &[0; 8]);
    let mut reply = query.clone();
    reply[2] |= 0x80;
    reply.resize(900, 0xAB);
    let out = cap_response(&query, reply, ClientTransport::Udp, UpstreamTransport::Udp);
    assert_ne!(out[2] & 0x02, 0, "the 512-byte limit applies");
    assert_eq!(out.len(), 900, "the body is left intact, not chopped");
}

#[test]
fn an_advertised_size_below_512_is_not_floored() {
    let query = build_edns_query(0x40C, &["example", "com"], 1, 1, 200);
    let mut reply = query.clone();
    reply[2] |= 0x80;
    reply.resize(300, 0xAB);
    let out = cap_response(&query, reply, ClientTransport::Udp, UpstreamTransport::Udp);
    assert_ne!(out[2] & 0x02, 0, "300 bytes overflows the 200 the client asked for");
    assert_eq!(out.len(), 300, "the body is left intact, not chopped");
}

#[test]
fn a_peers_doh_answer_is_never_marked_truncated_for_size() {
    let query = build_query(0x5, &["example", "com"], 1, 1);
    let mut answer = query.clone();
    answer[2] |= 0x80;
    answer.resize(900, 0xAB);
    let transport = ts_runtime::peerapi_doh::peer_client_transport();
    let out = check_response_size_and_set_tc(&query, answer.clone(), transport);
    assert_eq!(out, answer, "the DoH server relays the peer's answer byte-for-byte");
    assert_eq!(out[2] & 0x02, 0, "TC is the requesting peer's call to make, not ours");
}

#[test]
fn capping_twice_changes_nothing_more() {
    let query = build_query(0x300, &["example", "com"], 1, 1);
    let mut big = query.clone();
    big[2] |= 0x80;
    big.resize(5000, 0xAB);
    let once = cap_response(&query, big, ClientTransport::Udp, UpstreamTransport::Udp);
    let twice = cap_response(&query, once.clone(), ClientTransport::Udp, UpstreamTransport::Udp);
    assert_eq!(once, twice);
    assert!(did_not_fit_the_datagram(&once));
}

#[test]
fn codes_and_questions_are_read_off_the_header() {
    let query = build_query(0x1234, &["a", "com"], 1, 1);
    assert_eq!(question_range(&query), Some(12..23));
    assert_eq!(question_range(&query[..20]), None);
    assert_eq!(response_rcode(&query), Some(0));
    assert_eq!(response_rcode(&[0, 0, 0]), None);
    assert_eq!(response_rcode(&[5; 11]), None);
    assert_eq!(response_rcode(&[5; 12]), Some(5));
    assert!(!did_not_fit_the_datagram(&[0xFF; 11]));
    assert!(did_not_fit_the_datagram(&[0xFF; 12]));
    let mut refused = query.clone();
    refused[3] = RCODE_REFUSED;
    assert!(is_soft_error(&refused));
    refused[3] = RCODE_SERVFAIL;
    assert!(is_soft_error(&refused));
    refused[3] = 3;
    assert!(!is_soft_error(&refused));
    assert_eq!(find_opt_record(&build_edns_query(1, &["a"], 1, 1, 1232)), Some(1232));
    assert_eq!(find_opt_record(&query), None);
    assert_eq!(servfail_response(), vec![0, 0, 0x80, 2, 0, 0, 0, 0, 0, 0, 0, 0]);
}

#[test]
fn an_answer_that_fits_is_not_truncated() {
    let mut msg = build_query(1, &["a"], 1, 1);
    assert!(!did_not_fit_the_datagram(&msg));
    msg[2] |= 0x02;
    assert!(did_not_fit_the_datagram(&msg));
    msg[2] = 0;
    msg.resize(MAX_UPSTREAM_RESPONSE, 0);
    assert!(!did_not_fit_the_datagram(&msg));
    msg.push(0);
    assert!(did_not_fit_the_datagram(&msg));
}

#[test]
fn messages_are_framed_by_their_length() {
    let framed = frame(&[7; 300]).expect("fits");
    assert_eq!(&framed[..2], &[1, 44]);
    assert_eq!(framed_len(framed[0], framed[1]), Some(300));
    assert_eq!(&framed[2..], &[7; 300]);
    assert_eq!(frame(&vec![0; 65536]), None);
    assert_eq!(framed_len(0, 0), None);
}
