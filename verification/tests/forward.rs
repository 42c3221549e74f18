//! Which upstream answer a forwarded query ends with.

use ts_runtime::addr::SocketAddr;
use ts_runtime::dns_message::{
    frame, framed_len, ClientTransport, UpstreamTransport, MAX_UPSTREAM_RESPONSE, RCODE_REFUSED,
    RCODE_SERVFAIL,
};
use ts_runtime::forward::{
    ask_with_tcp_retry, forward_walk, wants_tcp_retry, ForwardWalk, TcpRetry, UpstreamAnswer,
};

fn build_query(id: u16, labels: &[&str], qtype: u16, qclass: u16) -> Vec<u8> {
    let mut buf: Vec<u8> = Vec::new();
    buf.extend_from_slice(&id.to_be_bytes());
    buf.extend_from_slice(&0u16.to_be_bytes());
    buf.extend_from_slice(&1u16.to_be_bytes());
    buf.extend_from_slice(&[0; 6]);
    for label in labels {
        buf.push(label.len() as u8);
        buf.extend_from_slice(label.as_bytes());
    }
    buf.push(0);
    buf.extend_from_slice(&qtype.to_be_bytes());
    buf.extend_from_slice(&qclass.to_be_bytes());
    buf
}

fn build_edns_query(id: u16, labels: &[&str], qtype: u16, qclass: u16, size: u16) -> Vec<u8> {
    let mut buf = build_query(id, labels, qtype, qclass);
    buf[11] = 1;
    buf.push(0);
    buf.extend_from_slice(&41u16.to_be_bytes());
    buf.extend_from_slice(&size.to_be_bytes());
    buf.extend_from_slice(&0u32.to_be_bytes());
    buf.extend_from_slice(&0u16.to_be_bytes());
    buf
}

fn upstream_addr(n: u8) -> SocketAddr {
    SocketAddr::v4(198, 51, 100, n, 53)
}

fn upstream_response(query: &[u8], rcode: u8, ancount: u16, tail: &[u8]) -> Vec<u8> {
    let mut resp = query.to_vec();
    resp[2] |= 0x80;
    resp[3] = (resp[3] & 0xF0) | rcode;
    resp[6..8].copy_from_slice(&ancount.to_be_bytes());
    resp.extend_from_slice(tail);
    resp
}

type ScriptedUpstream = (SocketAddr, Option<(SocketAddr, Vec<u8>)>);

fn over_udp(given: &Option<(SocketAddr, Vec<u8>)>) -> Option<UpstreamAnswer> {
    given.as_ref().map(|(from, resp)| UpstreamAnswer {
        from: *from,
        resp: resp.clone(),
        via: UpstreamTransport::Udp,
    })
}

/// Walks the scripted upstreams one by one, and returns the response and who was asked. The same
/// script in one go must come to the same.
fn run_forward_walk(
    script: &[ScriptedUpstream],
    query: &[u8],
    fallback: Vec<u8>,
) -> (Vec<u8>, Vec<SocketAddr>) {
    let upstreams: Vec<SocketAddr> = script.iter().map(|(upstream, _)| *upstream).collect();
    let given: Vec<Option<UpstreamAnswer>> = script.iter().map(|(_, a)| over_udp(a)).collect();
    let at_once = forward_walk(&upstreams, query, fallback.clone(), ClientTransport::Udp, &given);

    let mut asked = Vec::new();
    let mut walk = ForwardWalk::new(query, ClientTransport::Udp);
    for (upstream, answer) in script {
        asked.push(*upstream);
        if let Some(resp) = walk.offer(*upstream, over_udp(answer)) {
            assert_eq!(resp, at_once);
            return (resp, asked);
        }
    }
    let resp = walk.finish(fallback);
    assert_eq!(resp, at_once);
    (resp, asked)
}

#[test]
fn refused_first_upstream_does_not_end_the_walk() {
    let query = build_query(0x201, &["api", "example", "com"], 1, 1);
    let (first, second) = (upstream_addr(1), upstream_addr(2));
    let refusal = upstream_response(&query, RCODE_REFUSED, 0, b"refused");
    let answer = upstream_response(&query, 0, 1, b"the real answer");
    let fallback = upstream_response(&query, RCODE_SERVFAIL, 0, b"synthesized");
    let (got, asked) = run_forward_walk(
        &[(first, Some((first, refusal))), (second, Some((second, answer.clone())))],
        &query,
        fallback,
    );
    assert_eq!(asked, vec![first, second]);
    assert_eq!(got, answer);
}

#[test]
fn servfail_first_upstream_does_not_end_the_walk() {
    let query = build_query(0x202, &["api", "example", "com"], 1, 1);
    let (first, second) = (upstream_addr(1), upstream_addr(2));
    let soft_fail = upstream_response(&query, RCODE_SERVFAIL, 0, b"servfail");
    let answer = upstream_response(&query, 0, 1, b"the real answer");
    let fallback = upstream_response(&query, RCODE_SERVFAIL, 0, b"synthesized");
    let (got, asked) = run_forward_walk(
        &[(first, Some((first, soft_fail))), (second, Some((second, answer.clone())))],
        &query,
        fallback,
    );
    assert_eq!(asked, vec![first, second], "SERVFAIL is a soft error too");
    assert_eq!(got, answer);
}

#[test]
fn nxdomain_ends_the_walk_at_the_first_upstream() {
    let query = build_query(0x203, &["nope", "example", "com"], 1, 1);
    let (first, second) = (upstream_addr(1), upstream_addr(2));
    let nxdomain = upstream_response(&query, 3, 0, b"no such name");
    let late = upstream_response(&query, 0, 1, b"late");
    let fallback = upstream_response(&query, RCODE_SERVFAIL, 0, b"synthesized");
    let (got, asked) = run_forward_walk(
        &[(first, Some((first, nxdomain.clone()))), (second, Some((second, late)))],
        &query,
        fallback,
    );
    assert_eq!(asked, vec![first], "NXDOMAIN is an answer: stop asking");
    assert_eq!(got, nxdomain);
}

#[test]
fn every_upstream_refusing_returns_the_first_refusal_verbatim() {
    let query = build_query(0x204, &["api", "example", "com"], 1, 1);
    let (first, second) = (upstream_addr(1), upstream_addr(2));
    let first_refusal =
        upstream_response(&query, RCODE_REFUSED, 0, b"first refusal + extended error");
    let second_refusal = upstream_response(&query, RCODE_REFUSED, 0, b"second refusal");
    let fallback = upstream_response(&query, RCODE_SERVFAIL, 0, b"synthesized");
    let (got, asked) = run_forward_walk(
        &[
            (first, Some((first, first_refusal.clone()))),
            (second, Some((second, second_refusal.clone()))),
        ],
        &query,
        fallback.clone(),
    );
    assert_eq!(asked, vec![first, second], "every upstream is given its turn");
    assert_eq!(got, first_refusal);
    assert_ne!(got, fallback);
    assert_ne!(got, second_refusal, "the FIRST refusal is the one kept");
}

#[test]
fn every_upstream_soft_failing_returns_the_upstream_servfail_not_the_fallback() {
    let query = build_query(0x205, &["api", "example", "com"], 1, 1);
    let (first, second) = (upstream_addr(1), upstream_addr(2));
    let upstream_servfail =
        upstream_response(&query, RCODE_SERVFAIL, 0, b"upstream servfail + extended error");
    let refusal = upstream_response(&query, RCODE_REFUSED, 0, b"second refusal");
    let fallback = upstream_response(&query, RCODE_SERVFAIL, 0, b"synthesized");
    let (got, _asked) = run_forward_walk(
        &[
            (first, Some((first, upstream_servfail.clone()))),
            (second, Some((second, refusal))),
        ],
        &query,
        fallback.clone(),
    );
    assert_eq!(got, upstream_servfail);
    assert_ne!(got, fallback, "not the locally synthesized SERVFAIL");
}

#[test]
fn lone_refusing_upstream_still_has_its_refusal_relayed() {
    let query = build_query(0x206, &["api", "example", "com"], 1, 1);
    let only = upstream_addr(1);
    let refusal = upstream_response(&query, RCODE_REFUSED, 0, b"refused");
    let fallback = upstream_response(&query, RCODE_SERVFAIL, 0, b"synthesized");
    let (got, asked) = run_forward_walk(&[(only, Some((only, refusal.clone())))], &query, fallback);
    assert_eq!(asked, vec![only]);
    assert_eq!(got, refusal);
}

#[test]
fn wrong_transaction_id_response_is_discarded_not_remembered_as_a_soft_error() {
    let query = build_query(0x207, &["api", "example", "com"], 1, 1);
    let only = upstream_addr(1);
    let mut poisoned = upstream_response(&query, RCODE_REFUSED, 0, b"injected");
    poisoned[0] ^= 0xFF;
    let fallback = upstream_response(&query, RCODE_SERVFAIL, 0, b"synthesized");
    let (got, _asked) =
        run_forward_walk(&[(only, Some((only, poisoned.clone())))], &query, fallback.clone());
    assert_ne!(got, poisoned, "a mismatched transaction id must never be relayed");
    assert_eq!(got, fallback);
}

#[test]
fn off_path_source_response_is_discarded_not_remembered_as_a_soft_error() {
    let query = build_query(0x208, &["api", "example", "com"], 1, 1);
    let (only, off_path) = (upstream_addr(1), upstream_addr(9));
    let poisoned = upstream_response(&query, RCODE_REFUSED, 0, b"injected");
    let fallback = upstream_response(&query, RCODE_SERVFAIL, 0, b"synthesized");
    let (got, _asked) =
        run_forward_walk(&[(only, Some((off_path, poisoned.clone())))], &query, fallback.clone());
    assert_ne!(got, poisoned, "a datagram from an unqueried source must never be relayed");
    assert_eq!(got, fallback);
}

#[test]
fn silent_upstream_is_skipped_for_the_next_one() {
    let query = build_query(0x209, &["api", "example", "com"], 1, 1);
    let (first, second) = (upstream_addr(1), upstream_addr(2));
    let answer = upstream_response(&query, 0, 1, b"the real answer");
    let fallback = upstream_response(&query, RCODE_SERVFAIL, 0, b"synthesized");
    let (got, asked) = run_forward_walk(
        &[(first, None), (second, Some((second, answer.clone())))],
        &query,
        fallback,
    );
    assert_eq!(asked, vec![first, second]);
    assert_eq!(got, answer);
}

#[test]
fn a_truncated_udp_answer_is_retried_over_tcp_to_the_same_resolver() {
    let query = build_query(0x400, &["big", "example", "com"], 16, 1);
    let upstream = upstream_addr(1);
    let mut truncated = upstream_response(&query, 0, 1, b"the part that fit");
    truncated[2] |= 0x02;
    let whole = upstream_response(&query, 0, 40, &[0xAB; 8000]);
    assert!(wants_tcp_retry(upstream, &query, TcpRetry::Enabled, upstream, &truncated));
    let answer = ask_with_tcp_retry(
        upstream,
        &query,
        TcpRetry::Enabled,
        Some((upstream, truncated)),
        Some(whole.clone()),
    )
    .expect("the upstream answered");
    assert_eq!(answer.resp, whole, "the TCP answer replaces the truncated datagram");
    assert_eq!(answer.via, UpstreamTransport::Tcp);
    assert_eq!(answer.from, upstream, "the retry goes to the SAME resolver");
}

#[test]
fn a_failed_tcp_retry_relays_the_truncated_udp_answer() {
    let query = build_query(0x401, &["big", "example", "com"], 16, 1);
    let upstream = upstream_addr(1);
    let mut truncated = upstream_response(&query, 0, 1, b"the part that fit");
    truncated[2] |= 0x02;
    let answer = ask_with_tcp_retry(
        upstream,
        &query,
        TcpRetry::Enabled,
        Some((upstream, truncated.clone())),
        None,
    )
    .expect("a failed retry must not lose the answer we already had");
    assert_eq!(answer.resp, truncated);
    assert_eq!(answer.via, UpstreamTransport::Udp);
}

#[test]
fn an_answer_that_is_not_truncated_is_never_retried() {
    let query = build_query(0x402, &["example", "com"], 1, 1);
    let upstream = upstream_addr(1);
    let fits = upstream_response(&query, 0, 1, b"a small answer");
    assert!(!wants_tcp_retry(upstream, &query, TcpRetry::Enabled, upstream, &fits));
    let answer = ask_with_tcp_retry(
        upstream,
        &query,
        TcpRetry::Enabled,
        Some((upstream, fits.clone())),
        None,
    )
    .expect("the upstream answered");
    assert_eq!(answer.resp, fits);
    assert_eq!(answer.via, UpstreamTransport::Udp);
}

#[test]
fn an_oversize_answer_is_retried_even_with_tc_clear() {
    let query = build_edns_query(0x407, &["big", "example", "com"], 16, 1, 4096);
    let upstream = upstream_addr(1);
    let mut full_ring = upstream_response(&query, 0, 1, b"");
    full_ring.resize(MAX_UPSTREAM_RESPONSE + 1, 0xAB);
    assert_eq!(full_ring[2] & 0x02, 0, "the upstream did not mark it truncated");
    let whole = upstream_response(&query, 0, 40, &[0xAB; 8000]);
    let answer = ask_with_tcp_retry(
        upstream,
        &query,
        TcpRetry::Enabled,
        Some((upstream, full_ring)),
        Some(whole.clone()),
    )
    .expect("the upstream answered");
    assert_eq!(answer.resp, whole);
    assert_eq!(answer.via, UpstreamTransport::Tcp);
}

#[test]
fn a_forged_truncated_datagram_does_not_buy_a_tcp_connection() {
    let query = build_query(0x404, &["example", "com"], 1, 1);
    let upstream = upstream_addr(1);
    let mut from_elsewhere = upstream_response(&query, 0, 1, b"injected");
    from_elsewhere[2] |= 0x02;
    assert!(!wants_tcp_retry(upstream, &query, TcpRetry::Enabled, upstream_addr(9), &from_elsewhere));
    let answer = ask_with_tcp_retry(
        upstream,
        &query,
        TcpRetry::Enabled,
        Some((upstream_addr(9), from_elsewhere)),
        Some(vec![1]),
    )
    .expect("the datagram is still handed on for the walk to discard");
    assert_eq!(answer.via, UpstreamTransport::Udp);

    let other_question = build_query(0x404, &["other", "example", "com"], 1, 1);
    let mut wrong_question = upstream_response(&other_question, 0, 1, b"injected");
    wrong_question[2] |= 0x02;
    assert!(!wants_tcp_retry(upstream, &query, TcpRetry::Enabled, upstream, &wrong_question));
    let answer = ask_with_tcp_retry(
        upstream,
        &query,
        TcpRetry::Enabled,
        Some((upstream, wrong_question)),
        None,
    )
    .expect("the datagram is still handed on for the walk to discard");
    assert_eq!(answer.via, UpstreamTransport::Udp);
}

#[test]
fn the_switch_turns_the_tcp_retry_off() {
    let query = build_query(0x403, &["big", "example", "com"], 16, 1);
    let upstream = upstream_addr(1);
    let mut truncated = upstream_response(&query, 0, 1, b"the part that fit");
    truncated[2] |= 0x02;
    assert!(!wants_tcp_retry(upstream, &query, TcpRetry::Disabled, upstream, &truncated));
    let answer = ask_with_tcp_retry(
        upstream,
        &query,
        TcpRetry::Disabled,
        Some((upstream, truncated.clone())),
        Some(vec![1]),
    )
    .expect("the upstream answered");
    assert_eq!(answer.resp, truncated);
    assert_eq!(answer.via, UpstreamTransport::Udp);
    assert!(ask_with_tcp_retry(upstream, &query, TcpRetry::Enabled, None, None).is_none());
}

#[test]
fn tcp_exchange_frames_the_query_and_reads_the_framed_answer() {
    let query = build_query(0x406, &["big", "example", "com"], 16, 1);
    let answer = upstream_response(&query, 0, 40, &[0xAB; 8000]);
    let framed = frame(&query).expect("a query fits the prefix");
    assert_eq!(framed_len(framed[0], framed[1]), Some(query.len()));
    assert_eq!(&framed[2..], &query[..], "and the query follows it verbatim");
    let framed = frame(&answer).expect("an answer fits the prefix");
    assert_eq!(framed_len(framed[0], framed[1]), Some(answer.len()));
    assert_eq!(&framed[2..], &answer[..]);
}
