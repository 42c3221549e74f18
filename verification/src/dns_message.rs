//! DNS messages as bytes: the few header fields the forwarder reads and the one bit it sets.
//!
//! A message starts with a 12-byte header: the transaction id in bytes 0 and 1, flags in bytes 2
//! and 3 (`QR` is bit 7 and `TC` bit 1 of byte 2, the response code the low half of byte 3), and
//! the count of additional records in bytes 10 and 11.

use vstd::prelude::*;

use crate::text::bytes_eq;

verus! {

/// The byte length of a fixed DNS header.
pub const DNS_HEADER_LEN: usize = 12;

/// The most a forwarded response may hold where it has to cross a datagram.
pub const MAX_UPSTREAM_RESPONSE: usize = 4095;

/// The largest message a UDP client that advertised no buffer size accepts (RFC 1035 4.2.1). It is
/// no floor under an advertised size.
pub const NO_EDNS_UDP_LIMIT: usize = 512;

/// The record type of an EDNS(0) OPT pseudo-record (RFC 6891 6.1.2).
pub const OPT_RR_TYPE: u16 = 41;

/// The size of an OPT record without options: root name, type, class, TTL and a zero length.
pub const OPT_FIXED_BYTES: usize = 11;

/// Response code 2: the resolver could not process the query.
pub const RCODE_SERVFAIL: u8 = 2;

/// Response code 5: the resolver will not answer the query.
pub const RCODE_REFUSED: u8 = 5;

/// The transport over which the client being answered reached this node.
///
/// It decides one thing: only an answer that goes back in a datagram can be too large for the
/// client.
#[derive(Clone, Copy, Debug, PartialEq, Eq, Structural)]
pub enum ClientTransport {
    /// The advertised (or 512-byte) datagram limit applies.
    Udp,
    /// No datagram limit applies.
    Tcp,
}

/// The hop over which an upstream answer was fetched.
#[derive(Clone, Copy, Debug, PartialEq, Eq, Structural)]
pub enum UpstreamTransport {
    /// One datagram.
    Udp,
    /// A length-prefixed message on a stream.
    Tcp,
}

/// Two bytes as a big-endian number.
pub open spec fn be16(hi: u8, lo: u8) -> u16 {
    (hi * 256 + lo) as u16
}

/// Reads a big-endian number.
pub fn read_be16(hi: u8, lo: u8) -> (r: u16)
    ensures
        r == be16(hi, lo),
{
    (hi as u16) * 256 + (lo as u16)
}

/// The UDP payload size that the OPT record of `packet` advertises.
///
/// Only an OPT record in the last 11 bytes counts, with a root name, EDNS version 0 and no
/// options, in a message that counts at least one additional record.
pub open spec fn opt_payload_size(packet: Seq<u8>) -> Option<u16> {
    let at = packet.len() - OPT_FIXED_BYTES;
    if packet.len() >= DNS_HEADER_LEN + OPT_FIXED_BYTES && be16(packet[10], packet[11]) != 0
        && packet[at] == 0 && be16(packet[at + 1], packet[at + 2]) == OPT_RR_TYPE && packet[at + 6]
        == 0 && be16(packet[at + 9], packet[at + 10]) == 0 {
        Some(be16(packet[at + 3], packet[at + 4]))
    } else {
        None
    }
}

/// The payload size from the EDNS(0) OPT record of `packet`, where it carries one that counts.
///
/// A query with any EDNS option (a cookie, a client subnet) has a non-zero option length, so the
/// size that it advertises is not honoured.
pub fn find_opt_record(packet: &[u8]) -> (r: Option<u16>)
    ensures
        r == opt_payload_size(packet@),
{
    let n: usize = packet.len();
    if n < DNS_HEADER_LEN + OPT_FIXED_BYTES {
        return None;
    }
    if read_be16(packet[10], packet[11]) == 0 {
        return None;
    }
    let at: usize = n - OPT_FIXED_BYTES;
    if packet[at] != 0 {
        return None;
    }
    if read_be16(packet[at + 1], packet[at + 2]) != OPT_RR_TYPE {
        return None;
    }
    let requested_size: u16 = read_be16(packet[at + 3], packet[at + 4]);
    if packet[at + 6] != 0 {
        return None;
    }
    if read_be16(packet[at + 9], packet[at + 10]) != 0 {
        return None;
    }
    Some(requested_size)
}

/// The largest datagram that the sender of `query` accepts.
pub open spec fn udp_limit(query: Seq<u8>) -> int {
    match opt_payload_size(query) {
        Some(size) => size as int,
        None => NO_EDNS_UDP_LIMIT as int,
    }
}

/// The largest UDP response that the sender of `query` accepts: the advertised size as it stands,
/// or 512 bytes.
pub fn client_udp_limit(query: &[u8]) -> (r: usize)
    ensures
        r == udp_limit(query@),
{
    match find_opt_record(query) {
        Some(size) => size as usize,
        None => NO_EDNS_UDP_LIMIT,
    }
}

/// `msg` with its truncation bit set; a message that ends before the flags is left alone.
pub open spec fn with_tc(msg: Seq<u8>) -> Seq<u8> {
    if msg.len() > 2 {
        msg.update(2, msg[2] | 0x02)
    } else {
        msg
    }
}

/// Whether the truncation bit of `msg` is set.
pub open spec fn tc_set(msg: Seq<u8>) -> bool {
    msg.len() > 2 && msg[2] & 0x02 != 0
}

fn set_tc(msg: &mut Vec<u8>)
    ensures
        final(msg)@ == with_tc(old(msg)@),
{
    if msg.len() > 2 {
        let flags: u8 = msg[2];
        msg[2] = flags | 0x02;
    }
}

/// `resp` as a client on `client` gets it: marked truncated, and otherwise untouched, where it is
/// larger than a datagram client said it accepts.
pub open spec fn size_checked(query: Seq<u8>, resp: Seq<u8>, client: ClientTransport) -> Seq<u8> {
    if client is Udp && resp.len() > udp_limit(query) {
        with_tc(resp)
    } else {
        resp
    }
}

/// Marks `resp` truncated where it is larger than the UDP payload size that `query` advertised.
///
/// The body is left intact: the bit tells a stub resolver to retry over TCP. A TCP client has no
/// datagram to overflow and is never told so.
pub fn check_response_size_and_set_tc(
    query: &[u8],
    resp: Vec<u8>,
    client: ClientTransport,
) -> (r: Vec<u8>)
    ensures
        r@ == size_checked(query@, resp@, client),
{
    if client == ClientTransport::Tcp {
        return resp;
    }
    let mut resp = resp;
    if resp.len() > client_udp_limit(query) {
        set_tc(&mut resp);
    }
    resp
}

/// Whether an answer fetched over `via` for a client on `client` travels in a datagram anywhere.
pub open spec fn crosses_datagram(client: ClientTransport, via: UpstreamTransport) -> bool {
    client is Udp || via is Udp
}

/// What is relayed of an upstream answer `resp`.
pub open spec fn capped(
    query: Seq<u8>,
    resp: Seq<u8>,
    client: ClientTransport,
    via: UpstreamTransport,
) -> Seq<u8> {
    if crosses_datagram(client, via) && resp.len() > MAX_UPSTREAM_RESPONSE {
        size_checked(query, with_tc(resp.take(MAX_UPSTREAM_RESPONSE as int)), client)
    } else {
        size_checked(query, resp, client)
    }
}

/// Prepares an upstream answer for the client.
///
/// The two bounds compose. An answer that crosses a datagram on either hop is cut to
/// [`MAX_UPSTREAM_RESPONSE`] bytes and marked truncated; one that travelled over TCP end to end is
/// not. Then the client's own limit is applied, which marks and never cuts.
pub fn cap_response(
    query: &[u8],
    resp: Vec<u8>,
    client: ClientTransport,
    via: UpstreamTransport,
) -> (r: Vec<u8>)
    ensures
        r@ == capped(query@, resp@, client, via),
{
    let mut resp = resp;
    let crosses = client == ClientTransport::Udp || via == UpstreamTransport::Udp;
    if crosses && resp.len() > MAX_UPSTREAM_RESPONSE {
        let ghost whole = resp@;
        resp.truncate(MAX_UPSTREAM_RESPONSE);
        assert(resp@ =~= whole.take(MAX_UPSTREAM_RESPONSE as int));
        set_tc(&mut resp);
    }
    check_response_size_and_set_tc(query, resp, client)
}

/// Setting the truncation bit sets it, changes no other byte and no other bit of its byte, keeps
/// the length, and does nothing the second time.
pub proof fn setting_tc_touches_one_bit(msg: Seq<u8>)
    ensures
        with_tc(msg).len() == msg.len(),
        forall|i: int| 0 <= i < msg.len() && i != 2 ==> with_tc(msg)[i] == msg[i],
        msg.len() > 2 ==> tc_set(with_tc(msg)) && with_tc(msg)[2] & 0xFD == msg[2] & 0xFD,
        with_tc(with_tc(msg)) == with_tc(msg),
{
    if msg.len() > 2 {
        let b = msg[2];
        assert((b | 0x02) & 0x02 != 0 && (b | 0x02) & 0xFD == b & 0xFD && (b | 0x02) | 0x02 == b
            | 0x02) by (bit_vector);
        assert(with_tc(with_tc(msg)) =~= with_tc(msg));
    }
}

/// A relayed answer that crossed a datagram fits one; one that did not is relayed whole and
/// unmarked.
pub proof fn capping_bounds_datagrams_only(
    query: Seq<u8>,
    resp: Seq<u8>,
    client: ClientTransport,
    via: UpstreamTransport,
)
    ensures
        crosses_datagram(client, via) ==> capped(query, resp, client, via).len()
            <= MAX_UPSTREAM_RESPONSE,
        !crosses_datagram(client, via) ==> capped(query, resp, client, via) == resp,
        resp.len() <= MAX_UPSTREAM_RESPONSE ==> capped(query, resp, client, via).len()
            == resp.len(),
{
}

/// An answer that loses bytes, or that is larger than its UDP client accepts, is marked truncated.
pub proof fn a_cut_or_oversize_answer_is_marked(
    query: Seq<u8>,
    resp: Seq<u8>,
    client: ClientTransport,
    via: UpstreamTransport,
)
    ensures
        capped(query, resp, client, via).len() < resp.len() ==> tc_set(
            capped(query, resp, client, via),
        ),
        client is Udp && capped(query, resp, client, via).len() > 2 && capped(
            query,
            resp,
            client,
            via,
        ).len() > udp_limit(query) ==> tc_set(capped(query, resp, client, via)),
{
    setting_tc_touches_one_bit(resp);
    let cut = resp.take(MAX_UPSTREAM_RESPONSE as int);
    if resp.len() > MAX_UPSTREAM_RESPONSE {
        setting_tc_touches_one_bit(cut);
        setting_tc_touches_one_bit(with_tc(cut));
    }
}

/// Capping an answer that was capped changes nothing more.
pub proof fn capping_twice_is_capping_once(
    query: Seq<u8>,
    resp: Seq<u8>,
    client: ClientTransport,
    via: UpstreamTransport,
)
    ensures
        capped(query, capped(query, resp, client, via), client, via) == capped(
            query,
            resp,
            client,
            via,
        ),
{
    setting_tc_touches_one_bit(resp);
    let cut = resp.take(MAX_UPSTREAM_RESPONSE as int);
    if resp.len() > MAX_UPSTREAM_RESPONSE {
        setting_tc_touches_one_bit(cut);
        setting_tc_touches_one_bit(with_tc(cut));
    }
}

/// Where the name that starts at `off` ends: the index after its root label. `None` where a label
/// is longer than 63 bytes (compression pointers are), or the name runs past the message.
pub open spec fn name_end(msg: Seq<u8>, off: int) -> Option<int>
    decreases msg.len() - off,
{
    if off < 0 || off >= msg.len() || msg[off] >= 64 {
        None
    } else if msg[off] == 0 {
        Some(off + 1)
    } else if off + 1 + msg[off] > msg.len() {
        None
    } else {
        name_end(msg, off + 1 + msg[off])
    }
}

/// Where the first question of `msg` ends: after its name, type and class.
pub open spec fn question_end(msg: Seq<u8>) -> Option<int> {
    match name_end(msg, DNS_HEADER_LEN as int) {
        Some(end) if end + 4 <= msg.len() => Some(end + 4),
        _ => None,
    }
}

/// The bytes of the first question of `msg`.
pub open spec fn question_bytes(msg: Seq<u8>) -> Option<Seq<u8>> {
    match question_end(msg) {
        Some(end) => Some(msg.subrange(DNS_HEADER_LEN as int, end)),
        None => None,
    }
}

/// The index range of the first question (name, type and class) of `msg`.
pub fn question_range(msg: &[u8]) -> (r: Option<std::ops::Range<usize>>)
    ensures
        match r {
            Some(range) => range.start == DNS_HEADER_LEN && question_end(msg@) == Some(
                range.end as int,
            ) && range.start <= range.end <= msg@.len(),
            None => question_end(msg@) is None,
        },
{
    let n: usize = msg.len();
    let mut off: usize = DNS_HEADER_LEN;
    loop
        invariant_except_break
            name_end(msg@, DNS_HEADER_LEN as int) == name_end(msg@, off as int),
        invariant
            n == msg@.len(),
            DNS_HEADER_LEN <= off,
        ensures
            DNS_HEADER_LEN <= off <= n,
            name_end(msg@, DNS_HEADER_LEN as int) == Some(off as int),
        decreases n - off,
    {
        if off >= n {
            return None;
        }
        let len: u8 = msg[off];
        assert((len & 0xC0 != 0) == (len >= 64)) by (bit_vector);
        if len & 0xC0 != 0 {
            return None;
        }
        if len == 0 {
            off = off + 1;
            break;
        }
        if (len as usize) > n - off - 1 {
            return None;
        }
        off = off + 1 + (len as usize);
    }
    if n - off < 4 {
        return None;
    }
    Some(DNS_HEADER_LEN..off + 4)
}

/// Whether `resp` is a response to `query`: the same transaction id, the response bit, and the
/// same question, byte for byte.
pub open spec fn answers(query: Seq<u8>, resp: Seq<u8>) -> bool {
    &&& query.len() >= DNS_HEADER_LEN
    &&& resp.len() >= DNS_HEADER_LEN
    &&& query[0] == resp[0]
    &&& query[1] == resp[1]
    &&& resp[2] >= 128
    &&& question_bytes(query) is Some
    &&& question_bytes(query) == question_bytes(resp)
}

/// Whether `resp` is a plausible response to `query`.
///
/// Anything else that arrives while an answer is awaited is not relayed: matching the id alone
/// would let a sender that guesses it answer another question.
pub fn response_matches_query(query: &[u8], resp: &[u8]) -> (r: bool)
    ensures
        r == answers(query@, resp@),
{
    if query.len() < DNS_HEADER_LEN || resp.len() < DNS_HEADER_LEN {
        return false;
    }
    let flags: u8 = resp[2];
    assert((flags & 0x80 != 0) == (flags >= 128)) by (bit_vector);
    if query[0] != resp[0] || query[1] != resp[1] || flags & 0x80 == 0 {
        return false;
    }
    match (question_range(query), question_range(resp)) {
        (Some(q), Some(a)) => {
            let same = bytes_eq(
                vstd::slice::slice_subrange(query, q.start, q.end),
                vstd::slice::slice_subrange(resp, a.start, a.end),
            );
            same
        },
        _ => false,
    }
}

/// The response code of `msg`, where it has a header.
pub open spec fn rcode_of(msg: Seq<u8>) -> Option<u8> {
    if msg.len() >= DNS_HEADER_LEN {
        Some((msg[3] % 16) as u8)
    } else {
        None
    }
}

/// The response code of `msg`: the low half of header byte 3, or `None` for a message too short to
/// have a header.
pub fn response_rcode(msg: &[u8]) -> (r: Option<u8>)
    ensures
        r == rcode_of(msg@),
{
    if msg.len() >= DNS_HEADER_LEN {
        let b: u8 = msg[3];
        assert(b & 0x0F == b % 16) by (bit_vector);
        Some(b & 0x0F)
    } else {
        None
    }
}

/// Whether `msg` says that its resolver could not answer, rather than what the answer is.
pub open spec fn soft_error(msg: Seq<u8>) -> bool {
    rcode_of(msg) == Some(RCODE_SERVFAIL) || rcode_of(msg) == Some(RCODE_REFUSED)
}

/// Whether `msg` carries a response code that another resolver may do better than: SERVFAIL or
/// REFUSED.
pub fn is_soft_error(msg: &[u8]) -> (r: bool)
    ensures
        r == soft_error(msg@),
{
    match response_rcode(msg) {
        Some(code) => code == RCODE_SERVFAIL || code == RCODE_REFUSED,
        None => false,
    }
}

/// Whether an upstream answer did not fit the datagram it came in: its resolver says so, or it is
/// longer than what is relayed of one. A message too short to have a header is no answer.
pub open spec fn did_not_fit(msg: Seq<u8>) -> bool {
    msg.len() > MAX_UPSTREAM_RESPONSE || (msg.len() >= DNS_HEADER_LEN && tc_set(msg))
}

/// Whether `msg` is an answer that a retry over TCP can better.
pub fn did_not_fit_the_datagram(msg: &[u8]) -> (r: bool)
    ensures
        r == did_not_fit(msg@),
{
    msg.len() > MAX_UPSTREAM_RESPONSE || (msg.len() >= DNS_HEADER_LEN && msg[2] & 0x02 != 0)
}

/// An answer that fits is relayed to every client without a cut, and one that is cut had asked for
/// a retry.
pub proof fn a_cut_answer_did_not_fit(
    query: Seq<u8>,
    resp: Seq<u8>,
    client: ClientTransport,
    via: UpstreamTransport,
)
    ensures
        capped(query, resp, client, via).len() < resp.len() ==> did_not_fit(resp),
{
}

/// A bare response header that says SERVFAIL: the response bit, response code 2, and nothing else.
pub fn servfail_response() -> (r: Vec<u8>)
    ensures
        r@ == seq![0u8, 0, 0x80, 0x02, 0, 0, 0, 0, 0, 0, 0, 0],
        rcode_of(r@) == Some(RCODE_SERVFAIL),
{
    let r: Vec<u8> = vec![0, 0, 0x80, 0x02, 0, 0, 0, 0, 0, 0, 0, 0];
    assert(r@ =~= seq![0u8, 0, 0x80, 0x02, 0, 0, 0, 0, 0, 0, 0, 0]);
    r
}

/// `msg` under the two-byte length prefix that DNS over TCP puts before every message
/// (RFC 1035 4.2.2).
pub open spec fn framed(msg: Seq<u8>) -> Seq<u8> {
    seq![(msg.len() / 256) as u8, (msg.len() % 256) as u8] + msg
}

/// Frames `msg` for a stream, prefix and message in one buffer; `None` for a message too long to
/// frame.
pub fn frame(msg: &[u8]) -> (r: Option<Vec<u8>>)
    ensures
        match r {
            Some(out) => msg@.len() <= 0xFFFF && out@ == framed(msg@),
            None => msg@.len() > 0xFFFF,
        },
{
    let n: usize = msg.len();
    if n > 0xFFFF {
        return None;
    }
    let mut out: Vec<u8> = Vec::new();
    out.push((n / 256) as u8);
    out.push((n % 256) as u8);
    out.extend_from_slice(msg);
    assert(out@ =~= framed(msg@));
    Some(out)
}

/// The length of the message that follows the prefix `hi`, `lo`; a message of no bytes is refused.
pub fn framed_len(hi: u8, lo: u8) -> (r: Option<usize>)
    ensures
        match r {
            Some(n) => n == be16(hi, lo) && n > 0,
            None => be16(hi, lo) == 0,
        },
{
    let n: u16 = read_be16(hi, lo);
    if n == 0 {
        None
    } else {
        Some(n as usize)
    }
}

/// What is read off a stream is what was framed: the prefix gives the length of the message behind
/// it.
pub proof fn framing_round_trips(msg: Seq<u8>)
    requires
        msg.len() <= 0xFFFF,
    ensures
        be16(framed(msg)[0], framed(msg)[1]) == msg.len(),
        framed(msg).skip(2) == msg,
{
    assert(framed(msg).skip(2) =~= msg);
}

} // verus!
