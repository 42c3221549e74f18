//! DNS over HTTP between a node and its exit node.
//!
//! The server half answers the DNS queries of peers that use this node as their exit node; the
//! client half hands this node's own queries to its exit node. The server answers nobody that the
//! packet filter does not grant the internet through this node, resolves recursively only where
//! the operator has opted in, and never marks an answer as truncated: the size of a datagram is the
//! business of the peer that asked.

use vstd::prelude::*;
use vstd::utf8::{encode_utf8, encode_utf8_decode_utf8, encode_utf8_valid_utf8};

use crate::addr::{IpAddr, Ipv4Addr, Ipv6Addr, SocketAddr};
use crate::base64url::{
    decode, decoded, decoding_undoes_encoding, encoded, encodings_stay_in_the_alphabet,
};
use crate::clock::{serial_of, soa_serial};
use crate::decimal::{decimal, decimal_reads_back, is_digit, push_decimal};
use crate::dns_message::{check_response_size_and_set_tc, size_checked, ClientTransport};
use crate::http::{
    a_written_head_ends, a_written_length_is_read, are_plain, content_length, declared_length, field,
    fields_of, find_header_end, head_end, head_text, header_value, header_views, is_line, is_request,
    is_response, is_visible, is_word, lines_of, ok_fields, ok_head, ok_head_text,
    ok_heads_are_written_out, parse_request, parse_response, request_head, request_line,
    request_view, response_head, response_view, status_fields, status_line, status_response,
    status_text, statuses_are_written_out, Header, HeaderView, RequestHead, RequestView,
    ResponseHead, ResponseView, MAX_HEADER_FIELDS,
};
use crate::magic_dns::{
    bare, decide_at, Decision, DecisionView, DnsReply, DnsReplyView, DnsView, Question,
    QuestionView, Rcode, ViewModel,
};
use crate::peer_db::{KeyView, PeerKey};
use crate::peerapi::bytes_of;
use crate::search::{first_where, first_where_is, first_where_none};
use crate::text::{
    after, chars_of, eq_ignore_case, find_char, first_index, first_index_is_first, lower_all,
    push_all, split, split_on, str_eq, string_of, strip_start, texts, trim, trimmed,
};

verus! {

/// How large a request for one query may be, its head and its body together.
pub const MAX_REQUEST: usize = 8192;

/// How large an answer may be: no larger DNS message can be framed over TCP.
pub const MAX_CLIENT_RESPONSE: usize = 65535;

/// How many seconds this node waits for its exit node.
pub const CLIENT_TIMEOUT_SECS: u64 = 5;

/// The flag of a TCP segment that opens a connection.
pub const TCP_SYN_FLAG: u8 = 2;

/// The transport that a peer is answered as: its own datagrams are its own business.
pub fn peer_client_transport() -> (r: ClientTransport)
    ensures
        r == ClientTransport::Tcp,
{
    ClientTransport::Tcp
}

/// What is made of a request to the DNS route.
#[derive(Debug, PartialEq, Eq)]
pub enum DohRequest {
    /// A query to resolve.
    Query(Vec<u8>),
    /// The request is too large.
    TooLarge,
    /// The request is malformed, or of a method that is not served.
    BadRequest,
    /// The path is another.
    NotFound,
}

/// The model of a [`DohRequest`].
pub enum DohRequestView {
    Query(Seq<u8>),
    TooLarge,
    BadRequest,
    NotFound,
}

impl View for DohRequest {
    type V = DohRequestView;

    open spec fn view(&self) -> DohRequestView {
        match *self {
            DohRequest::Query(q) => DohRequestView::Query(q@),
            DohRequest::TooLarge => DohRequestView::TooLarge,
            DohRequest::BadRequest => DohRequestView::BadRequest,
            DohRequest::NotFound => DohRequestView::NotFound,
        }
    }
}

/// The value of the first parameter called `dns`.
pub open spec fn dns_param(query: Seq<char>) -> Option<Seq<char>> {
    let parts = split(query, '&');
    match first_where(|i: int| after(parts[i], "dns="@) is Some, parts.len() as int) {
        Some(i) => after(parts[i], "dns="@),
        None => None,
    }
}

/// What a request by GET asks, by the query behind its path.
pub open spec fn get_request(query: Option<Seq<char>>) -> DohRequestView {
    match query {
        None => DohRequestView::BadRequest,
        Some(q) => match dns_param(q) {
            None => DohRequestView::BadRequest,
            Some(text) => match decoded(text) {
                None => DohRequestView::BadRequest,
                Some(bytes) => if bytes.len() <= MAX_REQUEST {
                    DohRequestView::Query(bytes)
                } else {
                    DohRequestView::TooLarge
                },
            },
        },
    }
}

fn find_dns_param(query: &str) -> (r: Option<Vec<char>>)
    ensures
        match r {
            Some(v) => dns_param(query@) == Some(v@),
            None => dns_param(query@) is None,
        },
{
    let parts = split_on(query, '&');
    let ghost all = split(query@, '&');
    let ghost p = |i: int| after(all[i], "dns="@) is Some;
    let mut i: usize = 0;
    while i < parts.len()
        invariant
            i <= parts@.len(),
            texts(parts@) == all,
            all == split(query@, '&'),
            p == (|i: int| after(all[i], "dns="@) is Some),
            forall|j: int| 0 <= j < i ==> !#[trigger] p(j),
        decreases parts@.len() - i,
    {
        assert(all[i as int] == parts@[i as int]@);
        match strip_start(&chars_of(&parts[i]), "dns=") {
            Some(v) => {
                proof {
                    assert(p(i as int));
                    first_where_is(p, all.len() as int, i as int);
                }
                return Some(v);
            },
            None => {},
        }
        assert(!p(i as int));
        i = i + 1;
    }
    proof {
        first_where_none(p, all.len() as int);
    }
    None
}

/// Reads the query of a request by GET: the parameter `dns`, in base64 for URLs without padding.
pub fn parse_get(query_str: Option<&str>) -> (r: DohRequest)
    ensures
        r@ == get_request(
            match query_str {
                Some(q) => Some(q@),
                None => None,
            },
        ),
{
    let query = match query_str {
        Some(q) => q,
        None => {
            return DohRequest::BadRequest;
        },
    };
    let param = match find_dns_param(query) {
        Some(v) => v,
        None => {
            return DohRequest::BadRequest;
        },
    };
    let n: usize = param.len();
    let text = string_of(&param, 0, n);
    assert(text@ =~= param@);
    match decode(&text) {
        Some(bytes) => if bytes.len() <= MAX_REQUEST {
            DohRequest::Query(bytes)
        } else {
            DohRequest::TooLarge
        },
        None => DohRequest::BadRequest,
    }
}

/// What a request by its head comes to, before its body is read.
pub enum DohStart {
    /// The head decides.
    Done(DohRequest),
    /// A body of this many bytes follows.
    Body(usize),
}

/// The model of a [`DohStart`].
pub enum DohStartView {
    Done(DohRequestView),
    Body(nat),
}

impl View for DohStart {
    type V = DohStartView;

    open spec fn view(&self) -> DohStartView {
        match *self {
            DohStart::Done(r) => DohStartView::Done(r@),
            DohStart::Body(n) => DohStartView::Body(n as nat),
        }
    }
}

/// The query behind the path.
pub open spec fn query_of(path: Seq<char>) -> Option<Seq<char>> {
    if path.contains('?') {
        Some(path.skip(first_index(path, '?') + 1))
    } else {
        None
    }
}

/// Whether the head declares the body a DNS message.
pub open spec fn declares_dns(headers: Seq<HeaderView>) -> bool {
    match field(headers, "content-type"@) {
        Some(v) => lower_all(trimmed(v)) == lower_all("application/dns-message"@),
        None => false,
    }
}

/// What a request with the head `head`, of `head_len` bytes, comes to before its body is read.
/// `None` stands for a malformed head.
pub open spec fn doh_start(head: Option<RequestView>, head_len: nat) -> DohStartView {
    match head {
        None => DohStartView::Done(DohRequestView::BadRequest),
        Some(h) => if h.path.take(first_index(h.path, '?')) != "/dns-query"@ {
            DohStartView::Done(DohRequestView::NotFound)
        } else if h.method == "GET"@ {
            if head_len > MAX_REQUEST {
                DohStartView::Done(DohRequestView::TooLarge)
            } else {
                DohStartView::Done(get_request(query_of(h.path)))
            }
        } else if h.method == "POST"@ {
            match content_length(h.headers, usize::MAX as nat) {
                None => DohStartView::Done(DohRequestView::BadRequest),
                Some(len) => if head_len + len > MAX_REQUEST {
                    DohStartView::Done(DohRequestView::TooLarge)
                } else if !declares_dns(h.headers) {
                    DohStartView::Done(DohRequestView::BadRequest)
                } else {
                    DohStartView::Body(len)
                },
            }
        } else {
            DohStartView::Done(DohRequestView::BadRequest)
        },
    }
}

fn is_dns_message(headers: &Vec<Header>) -> (r: bool)
    ensures
        r == declares_dns(header_views(headers@)),
{
    match header_value(headers, "content-type") {
        Some(v) => {
            let chars = trim(&chars_of(&v));
            let n: usize = chars.len();
            let kind = string_of(&chars, 0, n);
            assert(kind@ =~= chars@);
            eq_ignore_case(&kind, "application/dns-message")
        },
        None => false,
    }
}

/// Decides on a request by its head, which ends at `header_end`.
pub fn start_request(head: Option<RequestHead>, header_end: usize) -> (r: DohStart)
    ensures
        r@ == doh_start(request_view(head), header_end as nat),
{
    let head = match head {
        Some(h) => h,
        None => {
            return DohStart::Done(DohRequest::BadRequest);
        },
    };
    let path = chars_of(&head.path);
    let n: usize = path.len();
    assert(path@.skip(0) =~= path@);
    let mark = find_char(&path, 0, '?');
    proof {
        first_index_is_first(path@, '?');
    }
    let raw = string_of(&path, 0, mark);
    assert(raw@ =~= path@.take(first_index(path@, '?')));
    if !str_eq(&raw, "/dns-query") {
        return DohStart::Done(DohRequest::NotFound);
    }
    if str_eq(&head.method, "GET") {
        if header_end > MAX_REQUEST {
            return DohStart::Done(DohRequest::TooLarge);
        }
        if mark == n {
            return DohStart::Done(parse_get(None));
        }
        let query = string_of(&path, mark + 1, n);
        assert(query@ =~= path@.skip(mark + 1));
        return DohStart::Done(parse_get(Some(&query)));
    }
    if !str_eq(&head.method, "POST") {
        return DohStart::Done(DohRequest::BadRequest);
    }
    let len: usize = match declared_length(&head.headers, usize::MAX as u64) {
        Some(len) => len as usize,
        None => {
            return DohStart::Done(DohRequest::BadRequest);
        },
    };
    if len > MAX_REQUEST || header_end > MAX_REQUEST - len {
        return DohStart::Done(DohRequest::TooLarge);
    }
    if !is_dns_message(&head.headers) {
        return DohStart::Done(DohRequest::BadRequest);
    }
    DohStart::Body(len)
}

/// Whether `buf` is the head of the request that hands a query of `len` bytes to the exit node at
/// `host`, and `rest` behind it.
pub open spec fn is_handed_over(buf: Seq<u8>, host: Seq<char>, len: nat, rest: Seq<u8>) -> bool {
    &&& is_visible(host)
    &&& encode_utf8(doh_request_head(host, len)).len() + len <= MAX_REQUEST
    &&& buf == encode_utf8(doh_request_head(host, len)) + rest
}

/// Decides on the request that `seed` starts with, whose head ends at `header_end`, as far as its
/// head goes. Of a request of this library's own client it is the length of the query that is to be
/// read.
pub fn read_request(seed: &[u8], header_end: usize) -> (r: DohStart)
    ensures
        r@ == doh_start(request_head(seed@, MAX_HEADER_FIELDS as nat), header_end as nat),
        forall|host: Seq<char>, len: nat, rest: Seq<u8>| #[trigger]
            is_handed_over(seed@, host, len, rest) && header_end == encode_utf8(
                doh_request_head(host, len),
            ).len() ==> r@ == DohStartView::Body(len),
{
    let head = parse_request(seed, MAX_HEADER_FIELDS);
    proof {
        assert forall|host: Seq<char>, len: nat, rest: Seq<u8>| #[trigger]
            is_handed_over(seed@, host, len, rest) && header_end == encode_utf8(
                doh_request_head(host, len),
            ).len() implies doh_start(request_view(head), header_end as nat) == DohStartView::Body(
            len,
        ) by {
            requests_are_written_out(host, len);
            requests_are_understood(host, len, header_end as nat);
            assert(is_request(
                seed@,
                "POST"@,
                "/dns-query"@,
                request_fields(host, len),
                rest,
            ));
        }
    }
    start_request(head, header_end)
}

/// Reads the body of a request, chunk by chunk.
#[derive(Debug)]
pub struct PostBody {
    /// What is read of the body.
    pub body: Vec<u8>,
    /// How long the body is.
    pub len: usize,
    /// How many bytes came with the head.
    pub buffered: usize,
}

impl PostBody {
    /// The reader of a body of `len` bytes, where `seed` is read and the head in it ends at
    /// `header_end`.
    pub fn new(seed: &[u8], header_end: usize, len: usize) -> (r: Self)
        requires
            header_end <= seed@.len(),
        ensures
            r.body@ == seed@.skip(header_end as int),
            r.len == len,
            r.buffered == seed@.len(),
    {
        let n: usize = seed.len();
        let part = vstd::slice::slice_subrange(seed, header_end, n);
        let mut body: Vec<u8> = Vec::new();
        body.extend_from_slice(part);
        assert(body@ =~= seed@.skip(header_end as int));
        PostBody { body, len, buffered: n }
    }

    /// The request, once the body is whole; too large, where more came with the head than a request
    /// may hold and the body is still not whole; `None` while more is to be read.
    pub fn poll(&self) -> (r: Option<DohRequest>)
        ensures
            match r {
                Some(request) => request@ == (if self.body@.len() >= self.len {
                    DohRequestView::Query(self.body@.take(self.len as int))
                } else {
                    DohRequestView::TooLarge
                }) && (self.body@.len() >= self.len || self.buffered > MAX_REQUEST),
                None => self.body@.len() < self.len && self.buffered <= MAX_REQUEST,
            },
    {
        if self.body.len() >= self.len {
            let mut query: Vec<u8> = Vec::new();
            let part = vstd::slice::slice_subrange(self.body.as_slice(), 0, self.len);
            query.extend_from_slice(part);
            assert(query@ =~= self.body@.take(self.len as int));
            return Some(DohRequest::Query(query));
        }
        if self.buffered > MAX_REQUEST {
            return Some(DohRequest::TooLarge);
        }
        None
    }

    /// Takes a chunk that was read. A peer that closes instead has sent no whole request, and is
    /// not answered.
    pub fn feed(&mut self, chunk: &[u8])
        ensures
            final(self).body@ == old(self).body@ + chunk@,
            final(self).len == old(self).len,
            final(self).buffered == old(self).buffered,
    {
        self.body.extend_from_slice(chunk);
        assert(self.body@ =~= old(self).body@ + chunk@);
    }
}

/// What to do with a connection once its request is read.
#[derive(Debug)]
pub enum ConnStep {
    /// Close it: the peer sent no whole request.
    Close,
    /// Answer it, and close it.
    Answer(Vec<u8>),
    /// Resolve the query.
    Resolve(Vec<u8>),
}

/// The model of a [`ConnStep`].
pub enum ConnStepView {
    Close,
    Answer(Seq<u8>),
    Resolve(Seq<u8>),
}

impl View for ConnStep {
    type V = ConnStepView;

    open spec fn view(&self) -> ConnStepView {
        match *self {
            ConnStep::Close => ConnStepView::Close,
            ConnStep::Answer(a) => ConnStepView::Answer(a@),
            ConnStep::Resolve(q) => ConnStepView::Resolve(q@),
        }
    }
}

/// What to do with a connection once its request is read.
pub open spec fn conn_steps(request: Option<DohRequestView>) -> ConnStepView {
    match request {
        None => ConnStepView::Close,
        Some(DohRequestView::TooLarge) => ConnStepView::Answer(
            encode_utf8(status_text("413 Payload Too Large"@)),
        ),
        Some(DohRequestView::BadRequest) => ConnStepView::Answer(
            encode_utf8(status_text("400 Bad Request"@)),
        ),
        Some(DohRequestView::NotFound) => ConnStepView::Answer(
            encode_utf8(status_text("404 Not Found"@)),
        ),
        Some(DohRequestView::Query(q)) => ConnStepView::Resolve(q),
    }
}

/// Decides on a connection once its request is read; `None` where the peer closed it before.
pub fn conn_step(request: Option<DohRequest>) -> (r: ConnStep)
    ensures
        r@ == conn_steps(
            match request {
                Some(q) => Some(q@),
                None => None,
            },
        ),
{
    match request {
        None => ConnStep::Close,
        Some(DohRequest::TooLarge) => ConnStep::Answer(
            bytes_of(&status_response("413 Payload Too Large")),
        ),
        Some(DohRequest::BadRequest) => ConnStep::Answer(
            bytes_of(&status_response("400 Bad Request")),
        ),
        Some(DohRequest::NotFound) => ConnStep::Answer(bytes_of(&status_response("404 Not Found"))),
        Some(DohRequest::Query(q)) => ConnStep::Resolve(q),
    }
}

/// A packet to ask the packet filter about.
#[derive(Clone, Copy, Debug, PartialEq, Eq, Structural)]
pub struct DnsProbe {
    pub src: IpAddr,
    pub dst: IpAddr,
    pub port: u16,
    pub tcp_flags: u8,
}

/// An address of the family of `src` that is of no tailnet and of no private network.
pub open spec fn off_tailnet(src: IpAddr) -> IpAddr {
    match src {
        IpAddr::V4(_) => IpAddr::V4(Ipv4Addr { a: 0, b: 0, c: 0, d: 0 }),
        IpAddr::V6(_) => IpAddr::V6(
            Ipv6Addr { bits: 0x2000_0000_0000_0000_0000_0000_0000_0000 },
        ),
    }
}

/// The destination that stands for the internet, for a peer at `src`: only a rule that grants the
/// internet matches it.
pub fn internet_probe_dst(src: IpAddr) -> (r: IpAddr)
    ensures
        r == off_tailnet(src),
{
    match src {
        IpAddr::V4(_) => IpAddr::V4(Ipv4Addr { a: 0, b: 0, c: 0, d: 0 }),
        IpAddr::V6(_) => IpAddr::V6(
            Ipv6Addr { bits: 0x2000_0000_0000_0000_0000_0000_0000_0000 },
        ),
    }
}

/// The packet that the filter is asked about for a peer at `src`: one that opens a TCP connection
/// to the DNS port of the internet.
pub fn dns_probe(src: IpAddr) -> (r: DnsProbe)
    ensures
        r == (DnsProbe { src, dst: off_tailnet(src), port: 53, tcp_flags: TCP_SYN_FLAG }),
{
    DnsProbe { src, dst: internet_probe_dst(src), port: 53, tcp_flags: TCP_SYN_FLAG }
}

impl ViewModel {
    /// Whether a peer at `src` is answered, where the filter says `accepts` of its probe, if there
    /// is a filter.
    pub open spec fn answers_peer(self, accepts: Option<bool>, src: IpAddr) -> bool {
        self.peers is Some && self.peers->0.has(KeyView::Ip(src)) && accepts == Some(true)
    }
}

/// Decides whether the DNS queries of a peer at `src` are answered at all: it is a known peer, and
/// the live packet filter accepts the packet of [`dns_probe`]. `accepts` is what the filter says of
/// that packet, and nothing where no filter is compiled yet.
pub fn dns_source_allowed(view: &DnsView, accepts: Option<bool>, src: IpAddr) -> (r: bool)
    ensures
        r == view@.answers_peer(accepts, src),
{
    let known = match &view.peers {
        Some(db) => db.get(PeerKey::Ip(src)).is_some(),
        None => false,
    };
    if !known {
        return false;
    }
    match accepts {
        Some(yes) => yes,
        None => false,
    }
}

/// The reply to what is no query: a header with the identifier and the code for a format error.
pub open spec fn formerr(id: u16) -> Seq<u8> {
    seq![
        (id / 256) as u8,
        (id % 256) as u8,
        0x80,
        0x01,
        0,
        0,
        0,
        0,
        0,
        0,
        0,
        0,
    ]
}

/// Writes the reply to what is no query.
pub fn encode_formerr(id: u16) -> (r: Vec<u8>)
    ensures
        r@ == formerr(id),
{
    let mut msg: Vec<u8> = Vec::new();
    msg.push((id / 256) as u8);
    msg.push((id % 256) as u8);
    msg.push(0x80);
    msg.push(0x01);
    msg.push(0);
    msg.push(0);
    msg.push(0);
    msg.push(0);
    msg.push(0);
    msg.push(0);
    msg.push(0);
    msg.push(0);
    assert(msg@ =~= formerr(id));
    msg
}

/// The identifier of a query, as far as it has one.
pub open spec fn id_of(query: Seq<u8>) -> u16 {
    if query.len() >= 2 {
        (query[0] * 256 + query[1]) as u16
    } else {
        0
    }
}

/// What the server does with a query.
#[derive(Debug)]
pub enum ServerDecision {
    /// Send these bytes.
    Malformed(Vec<u8>),
    /// Send this reply.
    Reply(DnsReply),
    /// Forward the query, and answer with what comes of that.
    Forward { upstreams: Vec<SocketAddr>, query: Vec<u8>, servfail: DnsReply },
}

/// The model of a [`ServerDecision`].
pub enum ServerView {
    Malformed(Seq<u8>),
    Reply(DnsReplyView),
    Forward { upstreams: Seq<SocketAddr>, query: Seq<u8>, servfail: DnsReplyView },
}

impl View for ServerDecision {
    type V = ServerView;

    open spec fn view(&self) -> ServerView {
        match *self {
            ServerDecision::Malformed(b) => ServerView::Malformed(b@),
            ServerDecision::Reply(r) => ServerView::Reply(r@),
            ServerDecision::Forward { upstreams, query, servfail } => ServerView::Forward {
                upstreams: upstreams@,
                query: query@,
                servfail: servfail@,
            },
        }
    }
}

impl ViewModel {
    /// What the server does with the query `query`, whose question is `question`. `filtered` says
    /// that exit nodes are not to answer for the name, and `egress` that this node resolves for
    /// its peers.
    pub open spec fn server_decision(
        self,
        question: Option<QuestionView>,
        query: Seq<u8>,
        filtered: bool,
        egress: bool,
        serial: u32,
    ) -> ServerView {
        match question {
            None => ServerView::Malformed(formerr(id_of(query))),
            Some(q) => if filtered {
                ServerView::Reply(bare(Rcode::Refused))
            } else {
                match self.decision(q, query, serial) {
                    DecisionView::Reply(r) => ServerView::Reply(r),
                    DecisionView::Forward { upstreams, query, servfail, .. } => if egress {
                        ServerView::Forward { upstreams, query, servfail }
                    } else {
                        ServerView::Reply(bare(Rcode::Refused))
                    },
                }
            },
        }
    }
}

/// The model of an optional question.
pub open spec fn question_view(question: Option<&Question>) -> Option<QuestionView> {
    match question {
        Some(q) => Some(q@),
        None => None,
    }
}

fn refused() -> (r: DnsReply)
    ensures
        r@ == bare(Rcode::Refused),
{
    let r = DnsReply { rcode: Rcode::Refused, answers: Vec::new(), soa: None };
    assert(r@.answers =~= Seq::empty());
    r
}

/// Decides a peer's query, publishing `serial` in negative answers. Names that exit nodes do not
/// answer for are refused first; a query that would be forwarded is refused unless this node
/// resolves for its peers. `question` is what the query decodes to, and nothing where it is none.
pub fn server_decide_at(
    view: &DnsView,
    question: Option<&Question>,
    query: &[u8],
    filtered: bool,
    forward_exit_egress: bool,
    serial: u32,
) -> (r: ServerDecision)
    ensures
        r@ == view@.server_decision(
            question_view(question),
            query@,
            filtered,
            forward_exit_egress,
            serial,
        ),
{
    let q = match question {
        Some(q) => q,
        None => {
            let id: u16 = if query.len() >= 2 {
                query[0] as u16 * 256 + query[1] as u16
            } else {
                0
            };
            return ServerDecision::Malformed(encode_formerr(id));
        },
    };
    if filtered {
        return ServerDecision::Reply(refused());
    }
    match decide_at(view, q, query, serial) {
        Decision::Reply(reply) => ServerDecision::Reply(reply),
        Decision::Forward { upstreams, query, servfail, recursive: _ } => if forward_exit_egress {
            ServerDecision::Forward { upstreams, query, servfail }
        } else {
            ServerDecision::Reply(refused())
        },
    }
}

/// Decides a peer's query, with the serial of the clock.
pub fn server_decide(
    view: &DnsView,
    question: Option<&Question>,
    query: &[u8],
    filtered: bool,
    forward_exit_egress: bool,
) -> (r: ServerDecision)
    ensures
        exists|reading: Option<(u64, u32)>|
            r@ == view@.server_decision(
                question_view(question),
                query@,
                filtered,
                forward_exit_egress,
                #[trigger] serial_of(reading),
            ),
{
    let serial: u32 = soa_serial();
    server_decide_at(view, question, query, filtered, forward_exit_egress, serial)
}

/// What a peer that asks gets.
#[derive(Debug)]
pub enum Served {
    /// Nothing: these bytes refuse it.
    Forbidden(Vec<u8>),
    /// What is decided on its query.
    Dns(ServerDecision),
}

/// The model of a [`Served`].
pub enum ServedView {
    Forbidden(Seq<u8>),
    Dns(ServerView),
}

impl View for Served {
    type V = ServedView;

    open spec fn view(&self) -> ServedView {
        match *self {
            Served::Forbidden(b) => ServedView::Forbidden(b@),
            Served::Dns(d) => ServedView::Dns(d@),
        }
    }
}

/// Answers the query of a peer at `src`: the peer is judged first, and only then its query.
pub fn serve_query(
    view: &DnsView,
    accepts: Option<bool>,
    src: IpAddr,
    question: Option<&Question>,
    query: &[u8],
    filtered: bool,
    forward_exit_egress: bool,
    serial: u32,
) -> (r: Served)
    ensures
        r@ == (if view@.answers_peer(accepts, src) {
            ServedView::Dns(
                view@.server_decision(
                    question_view(question),
                    query@,
                    filtered,
                    forward_exit_egress,
                    serial,
                ),
            )
        } else {
            ServedView::Forbidden(encode_utf8(status_text("403 Forbidden"@)))
        }),
{
    if !dns_source_allowed(view, accepts, src) {
        return Served::Forbidden(bytes_of(&status_response("403 Forbidden")));
    }
    Served::Dns(
        server_decide_at(view, question, query, filtered, forward_exit_egress, serial),
    )
}

/// The head of the response that carries a DNS message of `len` bytes.
pub open spec fn answer_head(len: nat) -> Seq<u8> {
    encode_utf8(ok_head_text("application/dns-message"@, len))
}

/// The response that carries the DNS message `msg`.
pub open spec fn answer_bytes(msg: Seq<u8>) -> Seq<u8> {
    answer_head(msg.len()) + msg
}

/// Writes the response that carries the DNS message `msg`.
pub fn dns_response(msg: &[u8]) -> (r: Vec<u8>)
    ensures
        r@ == answer_bytes(msg@),
{
    let mut out = bytes_of(&ok_head("application/dns-message", msg.len() as u64));
    let ghost head = out@;
    out.extend_from_slice(msg);
    assert(out@ =~= head + msg@);
    out
}

/// The head of the request that hands a query of `len` bytes to the exit node at `host`.
pub open spec fn doh_request_head(host: Seq<char>, len: nat) -> Seq<char> {
    "POST /dns-query HTTP/1.1\r\nHost: "@ + host
        + "\r\nContent-Type: application/dns-message\r\nAccept: application/dns-message\r\nContent-Length: "@
        + decimal(len) + "\r\nConnection: close\r\n\r\n"@
}

/// The fields of the request that hands a query of `len` bytes to the exit node at `host`.
pub open spec fn request_fields(host: Seq<char>, len: nat) -> Seq<(Seq<char>, Seq<char>)> {
    seq![
        ("Host"@, host),
        ("Content-Type"@, "application/dns-message"@),
        ("Accept"@, "application/dns-message"@),
        ("Content-Length"@, decimal(len)),
        ("Connection"@, "close"@),
    ]
}

proof fn requests_are_written_out(host: Seq<char>, len: nat)
    requires
        is_visible(host),
    ensures
        doh_request_head(host, len) == head_text(
            request_line("POST"@, "/dns-query"@),
            request_fields(host, len),
        ),
        is_word("POST"@),
        is_visible("/dns-query"@),
        is_line(request_line("POST"@, "/dns-query"@)),
        are_plain(request_fields(host, len)),
{
    let fields = request_fields(host, len);
    let dns = "application/dns-message"@;
    let end = "\r\n"@;
    let colon = ": "@;
    reveal_strlit("\r\n");
    reveal_strlit(": ");
    reveal_strlit(" ");
    reveal_strlit("POST");
    reveal_strlit("/dns-query");
    reveal_strlit(" HTTP/1.1");
    reveal_strlit("Host");
    reveal_strlit("Content-Type");
    reveal_strlit("Accept");
    reveal_strlit("Content-Length");
    reveal_strlit("Connection");
    reveal_strlit("close");
    reveal_strlit("application/dns-message");
    reveal_strlit("POST /dns-query HTTP/1.1\r\nHost: ");
    reveal_strlit(
        "\r\nContent-Type: application/dns-message\r\nAccept: application/dns-message\r\nContent-Length: ",
    );
    reveal_strlit("\r\nConnection: close\r\n\r\n");
    reveal_with_fuel(lines_of, 6);
    let four = fields.drop_last();
    let three = four.drop_last();
    let two = three.drop_last();
    let one = two.drop_last();
    assert(one.drop_last() =~= Seq::<(Seq<char>, Seq<char>)>::empty());
    assert("POST /dns-query HTTP/1.1\r\nHost: "@ =~= request_line("POST"@, "/dns-query"@) + end
        + "Host"@ + colon);
    assert("\r\nContent-Type: application/dns-message\r\nAccept: application/dns-message\r\nContent-Length: "@
        =~= end + "Content-Type"@ + colon + dns + end + "Accept"@ + colon + dns + end
        + "Content-Length"@ + colon);
    assert("\r\nConnection: close\r\n\r\n"@ =~= end + "Connection"@ + colon + "close"@ + end + end);
    assert(doh_request_head(host, len) =~= head_text(
        request_line("POST"@, "/dns-query"@),
        fields,
    ));
    decimal_reads_back(len);
    assert(is_visible(decimal(len))) by {
        assert forall|i: int| 0 <= i < decimal(len).len() implies '!' <= #[trigger] decimal(len)[i]
            <= '~' by {
            assert(is_digit(decimal(len)[i]));
        }
    }
}

proof fn requests_are_understood(host: Seq<char>, len: nat, head_len: nat)
    requires
        head_len + len <= MAX_REQUEST,
    ensures
        doh_start(
            Some(
                RequestView {
                    method: "POST"@,
                    path: "/dns-query"@,
                    headers: fields_of(request_fields(host, len)),
                },
            ),
            head_len,
        ) == DohStartView::Body(len),
{
    let fields = request_fields(host, len);
    let headers = fields_of(fields);
    let path = "/dns-query"@;
    let dns = "application/dns-message"@;
    reveal_strlit("POST");
    reveal_strlit("GET");
    reveal_strlit("/dns-query");
    reveal_strlit("Host");
    reveal_strlit("Content-Type");
    reveal_strlit("Accept");
    reveal_strlit("content-type");
    reveal_strlit("content-length");
    reveal_strlit("application/dns-message");
    first_index_is_first(path, '?');
    assert(path.take(path.len() as int) =~= path);
    assert("POST"@.len() != "GET"@.len());
    assert forall|j: int| 0 <= j < 3 implies lower_all((#[trigger] fields[j]).0) != lower_all(
        "content-length"@,
    ) by {
        assert(lower_all(fields[j].0).len() != lower_all("content-length"@).len());
    }
    a_written_length_is_read(fields, 3, len, usize::MAX as nat);
    let p = |i: int| lower_all(headers[i].name) == lower_all("content-type"@);
    assert(lower_all("Content-Type"@) =~= lower_all("content-type"@));
    assert(lower_all("Host"@).len() != lower_all("content-type"@).len());
    assert(p(1) && !p(0));
    first_where_is(p, headers.len() as int, 1);
    encode_utf8_valid_utf8(dns);
    encode_utf8_decode_utf8(dns);
    assert(trimmed(dns) == dns);
}

/// Writes the request that hands `query` to the exit node at `host`.
pub fn doh_request(host: &str, query: &[u8]) -> (r: Vec<u8>)
    ensures
        r@ == encode_utf8(doh_request_head(host@, query@.len())) + query@,
{
    let mut s = String::new();
    push_all(&mut s, "POST /dns-query HTTP/1.1\r\nHost: ");
    push_all(&mut s, host);
    push_all(
        &mut s,
        "\r\nContent-Type: application/dns-message\r\nAccept: application/dns-message\r\nContent-Length: ",
    );
    push_decimal(&mut s, query.len() as u64);
    push_all(&mut s, "\r\nConnection: close\r\n\r\n");
    assert(s@ =~= doh_request_head(host@, query@.len()));
    let mut out = bytes_of(&s);
    let ghost head = out@;
    out.extend_from_slice(query);
    assert(out@ =~= head + query@);
    out
}

/// What is wrong with a response of the exit node.
#[derive(Clone, Copy, Debug, PartialEq, Eq, Structural)]
pub enum DohError {
    /// The head is malformed.
    Malformed,
    /// The status is another than success.
    Status(Option<u16>),
    /// The head declares no length.
    MissingLength,
    /// The head is too long.
    HeadTooLarge,
    /// The body is too long.
    BodyTooLarge,
    /// The exit node closed the connection before the response was whole.
    Eof,
}

/// The length of the body of a response with the head `head`; `None` stands for a malformed head.
pub open spec fn response_length(head: Option<ResponseView>) -> Result<nat, DohError> {
    match head {
        None => Err(DohError::Malformed),
        Some(h) => if h.code != Some(200u16) {
            Err(DohError::Status(h.code))
        } else {
            match content_length(h.headers, usize::MAX as nat) {
                None => Err(DohError::MissingLength),
                Some(n) => if n > MAX_CLIENT_RESPONSE {
                    Err(DohError::BodyTooLarge)
                } else {
                    Ok(n)
                },
            }
        },
    }
}

/// The model of a length or an error.
pub open spec fn length_view(r: Result<usize, DohError>) -> Result<nat, DohError> {
    match r {
        Ok(n) => Ok(n as nat),
        Err(e) => Err(e),
    }
}

/// Reads the length of the body off the head of a response.
pub fn length_of(head: Option<ResponseHead>) -> (r: Result<usize, DohError>)
    ensures
        length_view(r) == response_length(response_view(head)),
{
    let head = match head {
        Some(h) => h,
        None => {
            return Err(DohError::Malformed);
        },
    };
    match head.code {
        Some(code) => {
            if code != 200 {
                return Err(DohError::Status(head.code));
            }
        },
        None => {
            return Err(DohError::Status(head.code));
        },
    }
    match declared_length(&head.headers, usize::MAX as u64) {
        Some(n) => if n > MAX_CLIENT_RESPONSE as u64 {
            Err(DohError::BodyTooLarge)
        } else {
            Ok(n as usize)
        },
        None => Err(DohError::MissingLength),
    }
}

/// Whether `buf` is the head of the response that carries a DNS message of `len` bytes, and `rest`
/// behind it.
pub open spec fn is_answer(buf: Seq<u8>, len: nat, rest: Seq<u8>) -> bool {
    len <= MAX_CLIENT_RESPONSE && buf == answer_head(len) + rest
}

/// Whether `buf` is a bodyless response with the status `code`, which is none of success, and
/// `rest` behind it.
pub open spec fn is_refusal(buf: Seq<u8>, code: u16, reason: Seq<char>, rest: Seq<u8>) -> bool {
    &&& 100 <= code <= 999
    &&& code != 200
    &&& is_line(reason)
    &&& buf == encode_utf8(status_text(decimal(code as nat) + " "@ + reason)) + rest
}

proof fn answers_are_written_out(len: nat)
    requires
        len <= usize::MAX,
    ensures
        answer_head(len) == encode_utf8(
            head_text(status_line(200, "OK"@), ok_fields("application/dns-message"@, len)),
        ),
        is_line("OK"@),
        is_line(status_line(200, "OK"@)),
        are_plain(ok_fields("application/dns-message"@, len)),
        content_length(
            fields_of(ok_fields("application/dns-message"@, len)),
            usize::MAX as nat,
        ) == Some(len),
{
    reveal_strlit("application/dns-message");
    ok_heads_are_written_out("application/dns-message"@, len, usize::MAX as nat);
}

/// Reads the length of the body off the response that `buf` starts with. The length of an answer
/// is read as it was written, and so is the status of a refusal.
pub fn parse_response_head(buf: &[u8]) -> (r: Result<usize, DohError>)
    ensures
        length_view(r) == response_length(response_head(buf@, MAX_HEADER_FIELDS as nat)),
        forall|len: nat, rest: Seq<u8>| #[trigger]
            is_answer(buf@, len, rest) ==> length_view(r) == Ok::<nat, DohError>(len),
        forall|code: u16, reason: Seq<char>, rest: Seq<u8>| #[trigger]
            is_refusal(buf@, code, reason, rest) ==> r == Err::<usize, DohError>(
                DohError::Status(Some(code)),
            ),
{
    let head = parse_response(buf, MAX_HEADER_FIELDS);
    proof {
        assert forall|len: nat, rest: Seq<u8>| #[trigger] is_answer(buf@, len, rest) implies (
        response_length(response_view(head)) == Ok::<nat, DohError>(len)) by {
            answers_are_written_out(len);
            assert(is_response(
                buf@,
                200,
                "OK"@,
                ok_fields("application/dns-message"@, len),
                rest,
            ));
        }
        assert forall|code: u16, reason: Seq<char>, rest: Seq<u8>| #[trigger]
            is_refusal(buf@, code, reason, rest) implies (response_length(response_view(head))
            == Err::<nat, DohError>(DohError::Status(Some(code)))) by {
            statuses_are_written_out(code, reason);
            assert(is_response(buf@, code, reason, status_fields(), rest));
        }
    }
    length_of(head)
}

/// Reads a response of the exit node, chunk by chunk.
#[derive(Debug)]
pub enum ResponseReader {
    /// The head is being read.
    Head(Vec<u8>),
    /// The body is being read: what there is of it, and how long it is.
    Body(Vec<u8>, usize),
}

/// The model of a [`ResponseReader`].
pub enum ReaderView {
    Head(Seq<u8>),
    Body(Seq<u8>, nat),
}

impl View for ResponseReader {
    type V = ReaderView;

    open spec fn view(&self) -> ReaderView {
        match *self {
            ResponseReader::Head(buf) => ReaderView::Head(buf@),
            ResponseReader::Body(body, len) => ReaderView::Body(body@, len as nat),
        }
    }
}

/// What comes of a step of a [`ResponseReader`].
#[derive(Debug)]
pub enum ReadStep {
    /// Read on.
    More(ResponseReader),
    /// The answer.
    Done(Vec<u8>),
    /// There is no answer.
    Failed(DohError),
}

/// The model of a [`ReadStep`].
pub enum ReadStepView {
    More(ReaderView),
    Done(Seq<u8>),
    Failed(DohError),
}

impl View for ReadStep {
    type V = ReadStepView;

    open spec fn view(&self) -> ReadStepView {
        match *self {
            ReadStep::More(r) => ReadStepView::More(r@),
            ReadStep::Done(b) => ReadStepView::Done(b@),
            ReadStep::Failed(e) => ReadStepView::Failed(e),
        }
    }
}

/// What comes of a body: the answer once it is whole.
pub open spec fn body_step(body: Seq<u8>, len: nat) -> ReadStepView {
    if body.len() >= len {
        ReadStepView::Done(body.take(len as int))
    } else {
        ReadStepView::More(ReaderView::Body(body, len))
    }
}

/// What comes of what is read of a response, where `length` is what its head, once it has ended,
/// says of the length.
pub open spec fn head_step(buf: Seq<u8>, length: Result<nat, DohError>) -> ReadStepView {
    match head_end(buf) {
        Some(end) => match length {
            Ok(n) => body_step(buf.skip(end), n),
            Err(e) => ReadStepView::Failed(e),
        },
        None => if buf.len() > MAX_CLIENT_RESPONSE {
            ReadStepView::Failed(DohError::HeadTooLarge)
        } else {
            ReadStepView::More(ReaderView::Head(buf))
        },
    }
}

fn after_body(body: Vec<u8>, len: usize) -> (r: ReadStep)
    ensures
        r@ == body_step(body@, len as nat),
{
    if body.len() >= len {
        let ghost whole = body@;
        let mut body = body;
        body.truncate(len);
        assert(body@ =~= whole.take(len as int));
        return ReadStep::Done(body);
    }
    ReadStep::More(ResponseReader::Body(body, len))
}

/// Goes on from what is read of a response, where `length` is what its head says of the length.
pub fn after_head(buf: Vec<u8>, length: Result<usize, DohError>) -> (r: ReadStep)
    ensures
        r@ == head_step(buf@, length_view(length)),
{
    match find_header_end(&buf) {
        Some(end) => match length {
            Ok(n) => {
                let whole: usize = buf.len();
                let part = vstd::slice::slice_subrange(buf.as_slice(), end, whole);
                let mut body: Vec<u8> = Vec::new();
                body.extend_from_slice(part);
                assert(body@ =~= buf@.skip(end as int));
                after_body(body, n)
            },
            Err(e) => ReadStep::Failed(e),
        },
        None => if buf.len() > MAX_CLIENT_RESPONSE {
            ReadStep::Failed(DohError::HeadTooLarge)
        } else {
            ReadStep::More(ResponseReader::Head(buf))
        },
    }
}

impl ReaderView {
    /// What comes of a chunk.
    pub open spec fn fed(self, chunk: Seq<u8>) -> ReadStepView {
        match self {
            ReaderView::Head(buf) => head_step(
                buf + chunk,
                response_length(response_head(buf + chunk, MAX_HEADER_FIELDS as nat)),
            ),
            ReaderView::Body(body, len) => if body.len() + chunk.len() > MAX_CLIENT_RESPONSE {
                ReadStepView::Failed(DohError::BodyTooLarge)
            } else {
                body_step(body + chunk, len)
            },
        }
    }
}

/// The state of a reader that has read the first `n` bytes of the response that carries `msg`.
pub open spec fn reading(msg: Seq<u8>, n: int) -> ReaderView {
    let end = answer_head(msg.len()).len();
    if n < end {
        ReaderView::Head(answer_bytes(msg).take(n))
    } else {
        ReaderView::Body(msg.take(n - end), msg.len())
    }
}

/// Whether `chunk` is what follows the first `n` bytes of the response that carries `msg`.
pub open spec fn follows(chunk: Seq<u8>, msg: Seq<u8>, n: int) -> bool {
    let all = answer_bytes(msg);
    &&& msg.len() <= MAX_CLIENT_RESPONSE
    &&& 0 <= n < n + chunk.len() <= all.len()
    &&& chunk == all.subrange(n, n + chunk.len())
}

proof fn answers_read_on(msg: Seq<u8>, n: int, chunk: Seq<u8>, length: Result<nat, DohError>)
    requires
        follows(chunk, msg, n),
        n < answer_head(msg.len()).len(),
        n + chunk.len() >= answer_head(msg.len()).len() ==> length == Ok::<nat, DohError>(
            msg.len(),
        ),
    ensures
        head_step(answer_bytes(msg).take(n) + chunk, length) == (if n + chunk.len()
            == answer_bytes(msg).len() {
            ReadStepView::Done(msg)
        } else {
            ReadStepView::More(reading(msg, n + chunk.len()))
        }),
{
    let all = answer_bytes(msg);
    let head = answer_head(msg.len());
    let m = n + chunk.len();
    let buf = all.take(n) + chunk;
    let first = status_line(200, "OK"@);
    let fields = ok_fields("application/dns-message"@, msg.len());
    answers_are_written_out(msg.len());
    assert(buf =~= all.take(m));
    if m < head.len() {
        a_written_head_ends(first, fields, Seq::empty());
        assert(buf =~= head.take(m));
        answer_heads_are_short(msg.len());
    } else {
        let rest = msg.take(m - head.len());
        assert(buf =~= head + rest);
        a_written_head_ends(first, fields, rest);
        assert(buf.skip(head.len() as int) =~= rest);
        if m == all.len() {
            assert(rest =~= msg);
            assert(rest.take(msg.len() as int) =~= msg);
        }
    }
}

proof fn answer_heads_are_short(len: nat)
    requires
        len <= MAX_CLIENT_RESPONSE,
    ensures
        answer_head(len).len() <= MAX_CLIENT_RESPONSE,
{
    answers_are_written_out(len);
    a_written_head_ends(
        status_line(200, "OK"@),
        ok_fields("application/dns-message"@, len),
        Seq::empty(),
    );
    reveal_strlit("HTTP/1.1 200 OK\r\nContent-Type: ");
    reveal_strlit("application/dns-message");
    reveal_strlit("\r\nContent-Length: ");
    reveal_strlit("\r\nConnection: close\r\n\r\n");
    reveal_with_fuel(decimal, 5);
    assert(decimal(len).len() <= 5);
    ok_heads_are_written_out("application/dns-message"@, len, len);
}

impl ResponseReader {
    /// A reader that has read nothing.
    pub fn new() -> (r: Self)
        ensures
            r@ == ReaderView::Head(Seq::empty()),
    {
        ResponseReader::Head(Vec::new())
    }

    /// Takes a chunk that was read; an empty one says that the exit node closed the connection. An
    /// answer comes out as it was written, however it is cut into chunks.
    pub fn feed(self, chunk: &[u8]) -> (r: ReadStep)
        ensures
            chunk@.len() == 0 ==> r@ == ReadStepView::Failed(DohError::Eof),
            chunk@.len() > 0 ==> r@ == self@.fed(chunk@),
            forall|msg: Seq<u8>, n: int| #[trigger]
                follows(chunk@, msg, n) && self@ == reading(msg, n) ==> r@ == (if n + chunk@.len()
                    == answer_bytes(msg).len() {
                    ReadStepView::Done(msg)
                } else {
                    ReadStepView::More(reading(msg, n + chunk@.len()))
                }),
    {
        if chunk.len() == 0 {
            return ReadStep::Failed(DohError::Eof);
        }
        match self {
            ResponseReader::Head(buf) => {
                let mut buf = buf;
                let ghost before = buf@;
                buf.extend_from_slice(chunk);
                assert(buf@ =~= before + chunk@);
                let length = if find_header_end(&buf).is_some() {
                    parse_response_head(&buf)
                } else {
                    Err(DohError::Malformed)
                };
                proof {
                    assert forall|msg: Seq<u8>, n: int| #[trigger]
                        follows(chunk@, msg, n) && self@ == reading(msg, n) implies head_step(
                        buf@,
                        length_view(length),
                    ) == (if n + chunk@.len() == answer_bytes(msg).len() {
                        ReadStepView::Done(msg)
                    } else {
                        ReadStepView::More(reading(msg, n + chunk@.len()))
                    }) by {
                        let all = answer_bytes(msg);
                        let head = answer_head(msg.len());
                        let m = n + chunk@.len();
                        if m >= head.len() {
                            let rest = msg.take(m - head.len());
                            answers_are_written_out(msg.len());
                            a_written_head_ends(
                                status_line(200, "OK"@),
                                ok_fields("application/dns-message"@, msg.len()),
                                rest,
                            );
                            assert(buf@ =~= head + rest);
                            assert(is_answer(buf@, msg.len(), rest));
                        }
                        answers_read_on(msg, n, chunk@, length_view(length));
                    }
                }
                after_head(buf, length)
            },
            ResponseReader::Body(body, len) => {
                let mut body = body;
                let ghost before = body@;
                body.extend_from_slice(chunk);
                assert(body@ =~= before + chunk@);
                proof {
                    assert forall|msg: Seq<u8>, n: int| #[trigger]
                        follows(chunk@, msg, n) && self@ == reading(msg, n) implies body@.len()
                        <= MAX_CLIENT_RESPONSE && body_step(body@, len as nat) == (if n
                        + chunk@.len() == answer_bytes(msg).len() {
                        ReadStepView::Done(msg)
                    } else {
                        ReadStepView::More(reading(msg, n + chunk@.len()))
                    }) by {
                        let end = answer_head(msg.len()).len();
                        assert(body@ =~= msg.take(n + chunk@.len() - end));
                        if n + chunk@.len() == answer_bytes(msg).len() {
                            assert(body@.take(msg.len() as int) =~= msg);
                        }
                    }
                }
                if body.len() > MAX_CLIENT_RESPONSE {
                    return ReadStep::Failed(DohError::BodyTooLarge);
                }
                after_body(body, len)
            },
        }
    }
}

/// The answer to `query` where the exit node answered `resp`, if it did: marked as truncated where
/// it does not fit what the client can take. Anything else is answered with `fallback`, never by a
/// resolver of this node.
pub fn delegated_answer(
    query: &[u8],
    resp: Option<Vec<u8>>,
    fallback: Vec<u8>,
    client: ClientTransport,
) -> (r: Vec<u8>)
    ensures
        r@ == (match resp {
            Some(bytes) => if bytes@.len() > 0 {
                size_checked(query@, bytes@, client)
            } else {
                fallback@
            },
            None => fallback@,
        }),
{
    match resp {
        Some(bytes) => if bytes.len() > 0 {
            check_response_size_and_set_tc(query, bytes, client)
        } else {
            fallback
        },
        None => fallback,
    }
}

/// A peer is answered only where the packet filter grants it the internet through this node, and
/// never before a filter is compiled.
pub proof fn only_granted_peers_are_answered(m: ViewModel, accepts: Option<bool>, src: IpAddr)
    requires
        m.answers_peer(accepts, src),
    ensures
        accepts == Some(true),
        m.peers is Some,
        m.peers->0.has(KeyView::Ip(src)),
{
}

/// Nothing is forwarded for a peer unless this node resolves for its peers, and no name that exit
/// nodes do not answer for is.
pub proof fn nothing_is_forwarded_without_consent(
    m: ViewModel,
    question: Option<QuestionView>,
    query: Seq<u8>,
    filtered: bool,
    egress: bool,
    serial: u32,
)
    requires
        !egress || filtered,
    ensures
        !(m.server_decision(question, query, filtered, egress, serial) is Forward),
{
}

/// What is answered here is answered to peers too, whether or not this node resolves for them.
pub proof fn answers_here_are_not_gated(
    m: ViewModel,
    q: QuestionView,
    query: Seq<u8>,
    egress: bool,
    serial: u32,
)
    requires
        m.decision(q, query, serial) is Reply,
    ensures
        m.server_decision(Some(q), query, false, egress, serial) == ServerView::Reply(
            m.decision(q, query, serial)->Reply_0,
        ),
{
}

/// An answer never holds more than a DNS message may, and exactly what the head declared.
pub proof fn answers_are_as_long_as_declared(body: Seq<u8>, len: nat)
    requires
        body_step(body, len) is Done,
    ensures
        body_step(body, len)->Done_0.len() == len,
        body_step(body, len)->Done_0 == body.take(len as int),
{
}

/// The bodies of a whole response come out the same however they are cut into chunks, as long as
/// no more is sent than was declared.
pub proof fn chunks_add_up(body: Seq<u8>, len: nat, x: Seq<u8>, y: Seq<u8>)
    requires
        len <= MAX_CLIENT_RESPONSE,
        body.len() + x.len() < len,
        body.len() + x.len() + y.len() <= len,
    ensures
        ReaderView::Body(body, len).fed(x) == ReadStepView::More(ReaderView::Body(body + x, len)),
        ReaderView::Body(body + x, len).fed(y) == ReaderView::Body(body, len).fed(x + y),
{
    assert(body + x + y =~= body + (x + y));
}

/// A query that is sent by GET as its encoding is read as that query.
pub proof fn a_get_reads_back(query: Seq<u8>)
    requires
        query.len() <= MAX_REQUEST,
    ensures
        get_request(Some("dns="@ + encoded(query))) == DohRequestView::Query(query),
{
    let text = "dns="@ + encoded(query);
    decoding_undoes_encoding(query);
    reveal_strlit("dns=");
    assert forall|i: int| 0 <= i < text.len() implies text[i] != '&' by {
        if i >= 4 {
            encodings_stay_in_the_alphabet(query, i - 4);
        }
    }
    unsplit(text, '&');
    let parts = split(text, '&');
    assert(text.take(4) =~= "dns="@);
    assert(text.skip(4) =~= encoded(query));
    let p = |i: int| after(parts[i], "dns="@) is Some;
    assert(p(0));
    first_where_is(p, parts.len() as int, 0);
}

/// The request that hands a query over is posted to the DNS route of the exit node, and says what
/// it carries, what it takes back, how long the query is, and that the connection is closed after
/// it.
pub proof fn a_query_is_posted_in_full(host: Seq<char>, len: nat)
    requires
        is_visible(host),
    ensures
        doh_request_head(host, len) == head_text(
            "POST"@ + " "@ + "/dns-query"@ + " HTTP/1.1"@,
            seq![
                ("Host"@, host),
                ("Content-Type"@, "application/dns-message"@),
                ("Accept"@, "application/dns-message"@),
                ("Content-Length"@, decimal(len)),
                ("Connection"@, "close"@),
            ],
        ),
{
    requests_are_written_out(host, len);
}

/// However much of the request that hands over `query` is read, once its head is whole the head
/// ends where it was written to end, and what is read behind it is what was written of the query.
pub proof fn a_post_carries_its_query(host: Seq<char>, query: Seq<u8>, n: int)
    requires
        is_visible(host),
        encode_utf8(doh_request_head(host, query.len())).len() <= n <= encode_utf8(
            doh_request_head(host, query.len()),
        ).len() + query.len(),
    ensures
        ({
            let head = encode_utf8(doh_request_head(host, query.len()));
            let seed = (head + query).take(n);
            &&& head_end(seed) == Some(head.len() as int)
            &&& seed.skip(head.len() as int) == query.take(n - head.len())
            &&& head.len() + query.len() <= MAX_REQUEST ==> is_handed_over(
                seed,
                host,
                query.len(),
                query.take(n - head.len()),
            )
        }),
{
    let head = encode_utf8(doh_request_head(host, query.len()));
    let seed = (head + query).take(n);
    let rest = query.take(n - head.len());
    requests_are_written_out(host, query.len());
    a_written_head_ends(
        request_line("POST"@, "/dns-query"@),
        request_fields(host, query.len()),
        rest,
    );
    assert(seed =~= head + rest);
    assert(seed.skip(head.len() as int) =~= rest);
}

proof fn unsplit(s: Seq<char>, sep: char)
    requires
        forall|i: int| 0 <= i < s.len() ==> s[i] != sep,
    ensures
        split(s, sep) == seq![s],
    decreases s.len(),
{
    if s.len() > 0 {
        unsplit(s.drop_last(), sep);
        assert(s.drop_last().push(s.last()) =~= s);
        assert(split(s, sep) =~= seq![s]);
    } else {
        assert(s =~= Seq::<char>::empty());
    }
}

} // verus!
