//! The peerAPI: the HTTP server that a node offers its peers, and its file transfers.
//!
//! One server answers every route. A request's head is read first and decides the route; the route
//! then takes the body. What cannot be answered is refused: a head that is too long or malformed,
//! a method that the route does not have, a file from a source that may not send one.

use vstd::prelude::*;
use vstd::utf8::{
    char_u32_cast, decode_utf8, encode_scalar, encode_utf8, encode_utf8_decode_utf8, encode_utf8_valid_utf8,
    valid_utf8,
};

use crate::addr::{IpAddr, SocketAddr};
use crate::decimal::{parse_number, parsed};
use crate::http::{
    content_length, declared_length, field, find_header_end, head_end, header_value,
    header_views, ok_head, ok_head_text, parse_request, request_head, request_view,
    status_response, status_text, Header, HeaderView, RequestHead, RequestView, MAX_HEADER_FIELDS,
};
use crate::magic_dns::{DnsView, ViewModel};
use crate::peer_db::{KeyView, PeerKey};
use crate::text::{
    after, chars_of, find_char, first_index, first_index_is_first, push_all, str_eq, string_of,
    strip_start, sub_chars, trim, trimmed,
};

verus! {

/// How many requests may be under way at once; further connections are dropped.
pub const MAX_INFLIGHT: usize = 512;

/// How many seconds a connection may take.
pub const REQUEST_TIMEOUT_SECS: u64 = 300;

/// How many bytes of a head are read before it is given up.
pub const MAX_HEADERS: usize = 16384;

/// The capability that lets this node take part in file transfers.
pub open spec fn file_sharing_cap() -> Seq<char> {
    "https://tailscale.com/cap/file-sharing"@
}

/// What a hexadecimal digit stands for.
pub open spec fn hex_value(b: u8) -> Option<int> {
    if 48 <= b <= 57 {
        Some(b - 48)
    } else if 65 <= b <= 70 {
        Some(b - 55)
    } else if 97 <= b <= 102 {
        Some(b - 87)
    } else {
        None
    }
}

fn hex_digit(b: u8) -> (r: Option<u8>)
    ensures
        match r {
            Some(n) => hex_value(b) == Some(n as int) && n < 16,
            None => hex_value(b) is None,
        },
{
    if 48 <= b && b <= 57 {
        Some(b - 48)
    } else if 65 <= b && b <= 70 {
        Some(b - 55)
    } else if 97 <= b && b <= 102 {
        Some(b - 87)
    } else {
        None
    }
}

/// Whether an escape, a percent sign and two hexadecimal digits, stands at the start of `bytes`.
pub open spec fn escape_first(bytes: Seq<u8>) -> bool {
    bytes.len() >= 3 && bytes[0] == 37 && hex_value(bytes[1]) is Some && hex_value(bytes[2]) is Some
}

/// `bytes` with each escape replaced by the byte it stands for; everything else stays.
pub open spec fn unescaped(bytes: Seq<u8>) -> Seq<u8>
    decreases bytes.len(),
{
    if bytes.len() == 0 {
        Seq::empty()
    } else if escape_first(bytes) {
        seq![(hex_value(bytes[1])->0 * 16 + hex_value(bytes[2])->0) as u8] + unescaped(
            bytes.skip(3),
        )
    } else {
        seq![bytes[0]] + unescaped(bytes.skip(1))
    }
}

/// The text that `bytes` encode, where what is not UTF-8 is replaced.
pub uninterp spec fn utf8_lossy(bytes: Seq<u8>) -> Seq<char>;

/// `String::from_utf8_lossy` of the standard library: the text that the bytes encode, with
/// replacement characters for what is not UTF-8. Bytes that are UTF-8 throughout are decoded as
/// they are; for others the text is a function of the bytes, and which one is not said here.
#[verifier::external_body]
fn lossy_text(bytes: &[u8]) -> (r: String)
    ensures
        r@ == utf8_lossy(bytes@),
        valid_utf8(bytes@) ==> r@ == decode_utf8(bytes@),
{
    String::from_utf8_lossy(bytes).into_owned()
}

/// The escapes of `s` replaced by the bytes they stand for.
fn unescape(s: &str) -> (r: Vec<u8>)
    ensures
        r@ == unescaped(encode_utf8(s@)),
{
    let bytes = s.as_bytes();
    let n: usize = bytes.len();
    let mut out: Vec<u8> = Vec::new();
    let mut i: usize = 0;
    assert(bytes@.skip(0) =~= bytes@);
    assert(out@ + unescaped(bytes@) =~= unescaped(bytes@));
    while i < n
        invariant
            i <= n,
            n == bytes@.len(),
            out@ + unescaped(bytes@.skip(i as int)) == unescaped(bytes@),
        decreases n - i,
    {
        let ghost rest = bytes@.skip(i as int);
        let ghost before = out@;
        if bytes[i] == 37 && n - i > 2 {
            match (hex_digit(bytes[i + 1]), hex_digit(bytes[i + 2])) {
                (Some(hi), Some(lo)) => {
                    assert(rest.skip(3) =~= bytes@.skip(i + 3));
                    assert(escape_first(rest));
                    let b: u8 = hi * 16 + lo;
                    out.push(b);
                    assert(out@ + unescaped(rest.skip(3)) =~= before + unescaped(rest));
                    i = i + 3;
                    continue ;
                },
                _ => {},
            }
        }
        assert(!escape_first(rest));
        assert(rest.skip(1) =~= bytes@.skip(i + 1));
        out.push(bytes[i]);
        assert(out@ + unescaped(rest.skip(1)) =~= before + unescaped(rest));
        i = i + 1;
    }
    assert(bytes@.skip(n as int) =~= Seq::<u8>::empty());
    assert(out@ =~= unescaped(bytes@));
    out
}

/// Decodes the escapes of a path segment. What is no escape stays as it is.
pub fn percent_decode(s: &str) -> (r: String)
    ensures
        r@ == utf8_lossy(unescaped(encode_utf8(s@))),
        valid_utf8(unescaped(encode_utf8(s@))) ==> r@ == decode_utf8(
            unescaped(encode_utf8(s@)),
        ),
{
    lossy_text(&unescape(s))
}

/// Bytes without a percent sign hold no escape.
pub proof fn nothing_to_unescape(bytes: Seq<u8>)
    requires
        !bytes.contains(37u8),
    ensures
        unescaped(bytes) == bytes,
    decreases bytes.len(),
{
    if bytes.len() > 0 {
        assert(bytes.contains(bytes[0]));
        let rest = bytes.skip(1);
        assert forall|i: int| 0 <= i < rest.len() implies rest[i] != 37u8 by {
            assert(bytes.contains(bytes[i + 1]));
        }
        nothing_to_unescape(rest);
        assert(unescaped(bytes) =~= bytes);
    }
}

proof fn scalar_is_no_percent(v: u32)
    requires
        v != 37,
    ensures
        !encode_scalar(v).contains(37u8),
{
    assert(v <= 0x7f && v != 37 ==> (v & 0x7f) as u8 != 37) by (bit_vector);
    assert((0xc0u8 | ((v >> 6) & 0x1f) as u8) >= 0x80) by (bit_vector);
    assert((0xe0u8 | ((v >> 12) & 0x0f) as u8) >= 0x80) by (bit_vector);
    assert((0xf0u8 | ((v >> 18) & 0x7) as u8) >= 0x80) by (bit_vector);
    assert((0x80u8 | (v & 0x3f) as u8) >= 0x80) by (bit_vector);
    assert((0x80u8 | ((v >> 6) & 0x3f) as u8) >= 0x80) by (bit_vector);
    assert((0x80u8 | ((v >> 12) & 0x3f) as u8) >= 0x80) by (bit_vector);
}

proof fn encoding_holds_no_percent(s: Seq<char>)
    requires
        !s.contains('%'),
    ensures
        !encode_utf8(s).contains(37u8),
    decreases s.len(),
{
    if s.len() > 0 {
        let rest = s.drop_first();
        assert(s.contains(s[0]));
        assert forall|i: int| 0 <= i < rest.len() implies rest[i] != '%' by {
            assert(s.contains(s[i + 1]));
        }
        encoding_holds_no_percent(rest);
        let c = s[0];
        char_u32_cast(c, c as u32);
        let first = encode_scalar(c as u32);
        scalar_is_no_percent(c as u32);
        let all = encode_utf8(s);
        assert forall|i: int| 0 <= i < all.len() implies all[i] != 37u8 by {
            if i < first.len() {
                assert(first.contains(first[i]));
            } else {
                assert(encode_utf8(rest).contains(encode_utf8(rest)[i - first.len()]));
            }
        }
    }
}

/// A name without a percent sign is decoded to itself.
pub proof fn plain_names_are_kept(s: Seq<char>)
    requires
        !s.contains('%'),
    ensures
        valid_utf8(unescaped(encode_utf8(s))),
        decode_utf8(unescaped(encode_utf8(s))) == s,
{
    encoding_holds_no_percent(s);
    nothing_to_unescape(encode_utf8(s));
    encode_utf8_valid_utf8(s);
    encode_utf8_decode_utf8(s);
}

/// Where a request goes, by its method and path.
#[derive(Debug, PartialEq, Eq)]
pub enum Route {
    /// A file is sent under this name.
    TaildropPut { name: String },
    /// The path is that of a file transfer, the method is not.
    TaildropMethodNotAllowed,
    /// Anything else: the DNS route looks at it.
    DohOrOther,
}

/// The model of a [`Route`].
pub enum RouteTo {
    TaildropPut { name: Seq<char> },
    TaildropMethodNotAllowed,
    DohOrOther,
}

impl View for Route {
    type V = RouteTo;

    open spec fn view(&self) -> RouteTo {
        match *self {
            Route::TaildropPut { name } => RouteTo::TaildropPut { name: name@ },
            Route::TaildropMethodNotAllowed => RouteTo::TaildropMethodNotAllowed,
            Route::DohOrOther => RouteTo::DohOrOther,
        }
    }
}

/// The path without its query.
pub open spec fn without_query(path: Seq<char>) -> Seq<char> {
    path.take(first_index(path, '?'))
}

/// The bytes of the name of the file that `path` is for, behind the eight characters of its route
/// and before its query, with their escapes decoded.
pub open spec fn file_bytes(path: Seq<char>) -> Seq<u8> {
    unescaped(encode_utf8(without_query(path).skip(8)))
}

/// Whether `text` is what `bytes` encode, where they encode anything.
pub open spec fn is_text_of(text: Seq<char>, bytes: Seq<u8>) -> bool {
    valid_utf8(bytes) ==> text == decode_utf8(bytes)
}

/// The route of a request.
pub open spec fn route_of(method: Seq<char>, path: Seq<char>) -> RouteTo {
    match after(without_query(path), "/v0/put/"@) {
        Some(name) => if method != "PUT"@ {
            RouteTo::TaildropMethodNotAllowed
        } else {
            RouteTo::TaildropPut { name: utf8_lossy(unescaped(encode_utf8(name))) }
        },
        None => RouteTo::DohOrOther,
    }
}

/// Classifies a request by its method and its path, which may have a query behind it.
pub fn classify_route(method: &str, full_path: &str) -> (r: Route)
    ensures
        r@ == route_of(method@, full_path@),
        r is TaildropPut ==> is_text_of(r->name@, file_bytes(full_path@)),
{
    let chars = chars_of(full_path);
    assert(chars@.skip(0) =~= chars@);
    let end = find_char(&chars, 0, '?');
    let raw = sub_chars(&chars, 0, end);
    assert(raw@ =~= without_query(full_path@));
    proof {
        reveal_strlit("/v0/put/");
    }
    match strip_start(&raw, "/v0/put/") {
        Some(rest) => {
            if !str_eq(method, "PUT") {
                return Route::TaildropMethodNotAllowed;
            }
            let n: usize = rest.len();
            let encoded_name = string_of(&rest, 0, n);
            assert(encoded_name@ =~= rest@);
            Route::TaildropPut { name: percent_decode(&encoded_name) }
        },
        None => Route::DohOrOther,
    }
}

/// The offset that a range field asks for: the number before the first hyphen, behind `bytes=`.
/// Anything else is an offset of 0.
pub open spec fn range_offset(headers: Seq<HeaderView>) -> nat {
    match field(headers, "range"@) {
        Some(v) => match after(trimmed(v), "bytes="@) {
            Some(rest) => if rest.contains('-') {
                match parsed(trimmed(rest.take(first_index(rest, '-'))), u64::MAX as nat) {
                    Some(n) => n,
                    None => 0,
                }
            } else {
                0
            },
            None => 0,
        },
        None => 0,
    }
}

/// Reads the offset at which a transfer is resumed.
pub fn parse_range_offset(headers: &Vec<Header>) -> (r: u64)
    ensures
        r == range_offset(header_views(headers@)),
{
    let value = match header_value(headers, "range") {
        Some(v) => v,
        None => {
            return 0;
        },
    };
    let rest = match strip_start(&trim(&chars_of(&value)), "bytes=") {
        Some(rest) => rest,
        None => {
            return 0;
        },
    };
    assert(rest@.skip(0) =~= rest@);
    let hyphen = find_char(&rest, 0, '-');
    proof {
        first_index_is_first(rest@, '-');
    }
    if hyphen == rest.len() {
        return 0;
    }
    let start = sub_chars(&rest, 0, hyphen);
    assert(start@ =~= rest@.take(first_index(rest@, '-')));
    match parse_number(&trim(&start), u64::MAX) {
        Some(n) => n,
        None => 0,
    }
}

/// What becomes of a request whose head is read.
#[derive(Debug, PartialEq, Eq)]
pub enum Routed {
    /// The head is malformed.
    BadRequest,
    /// The route does not have this method.
    MethodNotAllowed,
    /// A file is sent under `name`, from `offset` on. Without a length its end is unknown.
    Put { name: String, offset: u64, content_length: Option<u64> },
    /// The DNS route takes the request.
    Doh,
}

/// The model of a [`Routed`].
pub enum RoutedView {
    BadRequest,
    MethodNotAllowed,
    Put { name: Seq<char>, offset: nat, content_length: Option<nat> },
    Doh,
}

impl View for Routed {
    type V = RoutedView;

    open spec fn view(&self) -> RoutedView {
        match *self {
            Routed::BadRequest => RoutedView::BadRequest,
            Routed::MethodNotAllowed => RoutedView::MethodNotAllowed,
            Routed::Put { name, offset, content_length } => RoutedView::Put {
                name: name@,
                offset: offset as nat,
                content_length: match content_length {
                    Some(n) => Some(n as nat),
                    None => None,
                },
            },
            Routed::Doh => RoutedView::Doh,
        }
    }
}

/// What becomes of a request with the head `head`.
pub open spec fn routed(head: Option<RequestView>) -> RoutedView {
    match head {
        None => RoutedView::BadRequest,
        Some(h) => match route_of(h.method, h.path) {
            RouteTo::TaildropPut { name } => RoutedView::Put {
                name,
                offset: range_offset(h.headers),
                content_length: content_length(h.headers, u64::MAX as nat),
            },
            RouteTo::TaildropMethodNotAllowed => RoutedView::MethodNotAllowed,
            RouteTo::DohOrOther => RoutedView::Doh,
        },
    }
}

/// Routes a request by its head; `None` stands for a malformed one.
pub fn route_head(head: Option<RequestHead>) -> (r: Routed)
    ensures
        r@ == routed(request_view(head)),
        r is Put ==> head is Some && is_text_of(r->name@, file_bytes(head->0.path@)),
{
    let head = match head {
        Some(h) => h,
        None => {
            return Routed::BadRequest;
        },
    };
    match classify_route(&head.method, &head.path) {
        Route::TaildropPut { name } => Routed::Put {
            name,
            offset: parse_range_offset(&head.headers),
            content_length: declared_length(&head.headers, u64::MAX),
        },
        Route::TaildropMethodNotAllowed => Routed::MethodNotAllowed,
        Route::DohOrOther => Routed::Doh,
    }
}

/// Routes the request that `seed` starts with.
pub fn route_request(seed: &[u8]) -> (r: Routed)
    ensures
        r@ == routed(request_head(seed@, MAX_HEADER_FIELDS as nat)),
{
    route_head(parse_request(seed, MAX_HEADER_FIELDS))
}

/// What becomes of what was read off a connection, of which the head ends at `end`; an end of 0
/// stands for none. A head that does not end within [`MAX_HEADERS`] bytes is malformed.
pub open spec fn routed_read(read: Seq<u8>, end: int) -> RoutedView {
    if end == 0 && read.len() > MAX_HEADERS {
        RoutedView::BadRequest
    } else {
        routed(request_head(read, MAX_HEADER_FIELDS as nat))
    }
}

/// Routes what a [`HeaderReader`] read.
pub fn route_read(read: &[u8], header_end: usize) -> (r: Routed)
    ensures
        r@ == routed_read(read@, header_end as int),
{
    if header_end == 0 && read.len() > MAX_HEADERS {
        return Routed::BadRequest;
    }
    route_request(read)
}

/// The bytes of `s`.
pub fn bytes_of(s: &str) -> (r: Vec<u8>)
    ensures
        r@ == encode_utf8(s@),
{
    let mut out: Vec<u8> = Vec::new();
    out.extend_from_slice(s.as_bytes());
    assert(out@ =~= encode_utf8(s@));
    out
}

/// The answer to a request that goes no further.
pub open spec fn route_answer(to: RoutedView) -> Option<Seq<u8>> {
    match to {
        RoutedView::BadRequest => Some(encode_utf8(status_text("400 Bad Request"@))),
        RoutedView::MethodNotAllowed => Some(encode_utf8(status_text("405 Method Not Allowed"@))),
        RoutedView::Put { .. } => None,
        RoutedView::Doh => None,
    }
}

/// The model of an optional answer.
pub open spec fn answer_view(answer: Option<Vec<u8>>) -> Option<Seq<u8>> {
    match answer {
        Some(a) => Some(a@),
        None => None,
    }
}

/// Writes the answer to a request that goes no further.
pub fn route_response(to: &Routed) -> (r: Option<Vec<u8>>)
    ensures
        answer_view(r) == route_answer(to@),
{
    match to {
        Routed::BadRequest => Some(bytes_of(&status_response("400 Bad Request"))),
        Routed::MethodNotAllowed => Some(bytes_of(&status_response("405 Method Not Allowed"))),
        Routed::Put { .. } => None,
        Routed::Doh => None,
    }
}

/// Reads a head off a stream, chunk by chunk.
#[derive(Debug)]
pub struct HeaderReader {
    pub buf: Vec<u8>,
}

impl HeaderReader {
    /// A reader that has read nothing.
    pub fn new() -> (r: Self)
        ensures
            r.buf@ == Seq::<u8>::empty(),
    {
        HeaderReader { buf: Vec::new() }
    }

    /// Where the head ends, once enough is read; `None` while more is to be read. A head that does
    /// not end within [`MAX_HEADERS`] bytes has its end at 0, and is then no whole head.
    pub fn poll(&self) -> (r: Option<usize>)
        ensures
            match r {
                Some(end) => head_end(self.buf@) == Some(end as int) || (head_end(self.buf@) is None
                    && end == 0 && self.buf@.len() > MAX_HEADERS),
                None => head_end(self.buf@) is None && self.buf@.len() <= MAX_HEADERS,
            },
    {
        match find_header_end(&self.buf) {
            Some(end) => Some(end),
            None => if self.buf.len() > MAX_HEADERS {
                Some(0)
            } else {
                None
            },
        }
    }

    /// Takes a chunk that was read.
    pub fn feed(&mut self, chunk: &[u8])
        ensures
            final(self).buf@ == old(self).buf@ + chunk@,
    {
        self.buf.extend_from_slice(chunk);
        assert(self.buf@ =~= old(self).buf@ + chunk@);
    }

    /// What is left when the peer closes before the head ends: what was read, with its end at 0, or
    /// nothing where nothing was read.
    pub fn closed(self) -> (r: Option<(Vec<u8>, usize)>)
        ensures
            match r {
                Some((buf, end)) => buf@ == self.buf@ && end == 0 && self.buf@.len() > 0,
                None => self.buf@.len() == 0,
            },
    {
        if self.buf.len() == 0 {
            None
        } else {
            Some((self.buf, 0))
        }
    }
}

/// Decides whether a connection is served while `in_flight` others are; one beyond that is closed.
pub fn takes_connection(in_flight: usize) -> (r: bool)
    ensures
        r == (in_flight < MAX_INFLIGHT),
{
    in_flight < MAX_INFLIGHT
}

/// Whether a file may be sent.
#[derive(Clone, Copy, Debug, PartialEq, Eq, Structural)]
pub enum GateDecision {
    Allow,
    Deny,
}

impl ViewModel {
    /// Whether `ip` is an address of a peer or of this node.
    pub open spec fn knows(self, ip: IpAddr) -> bool {
        self.node_by_ip(ip) is Some
    }

    /// Whether a file may be sent from `src`.
    pub open spec fn takes_files_from(self, src: IpAddr, store_configured: bool) -> bool {
        &&& store_configured
        &&& self.self_node is Some
        &&& self.self_node->0.has_attr(file_sharing_cap())
        &&& self.knows(src)
    }
}

/// Whether `ip` belongs to a peer or to this node.
pub fn source_is_known_node(view: &DnsView, ip: IpAddr) -> (r: bool)
    ensures
        r == view@.knows(ip),
{
    match &view.peers {
        Some(db) => match db.get(PeerKey::Ip(ip)) {
            Some(_) => {
                return true;
            },
            None => {},
        },
        None => {},
    }
    match &view.self_node {
        Some(n) => n.owns_ip(ip),
        None => false,
    }
}

/// Decides whether a file may be sent from `src`: files have a place to go, this node holds the
/// file sharing capability, and the source is a known node.
pub fn gate_taildrop(view: &DnsView, src: SocketAddr, store_configured: bool) -> (r: GateDecision)
    ensures
        r == (if view@.takes_files_from(src.ip, store_configured) {
            GateDecision::Allow
        } else {
            GateDecision::Deny
        }),
{
    if !store_configured {
        return GateDecision::Deny;
    }
    let node_ok = match &view.self_node {
        Some(n) => n.has_node_attr("https://tailscale.com/cap/file-sharing"),
        None => false,
    };
    if !node_ok {
        return GateDecision::Deny;
    }
    if !source_is_known_node(view, src.ip) {
        return GateDecision::Deny;
    }
    GateDecision::Allow
}

/// What to do with a file that is sent.
#[derive(Clone, Copy, Debug, PartialEq, Eq, Structural)]
pub enum PutStep {
    /// Refuse it.
    Forbidden,
    /// Refuse it, for want of a length.
    BadRequest,
    /// Store this many bytes of body.
    Store(u64),
}

/// Decides on a file that is sent: first whether the source may send one, and only then whether the
/// request is one that can be taken.
pub fn put_step(
    view: &DnsView,
    src: SocketAddr,
    store_configured: bool,
    content_length: Option<u64>,
) -> (r: PutStep)
    ensures
        r == (if !view@.takes_files_from(src.ip, store_configured) {
            PutStep::Forbidden
        } else {
            match content_length {
                Some(n) => PutStep::Store(n),
                None => PutStep::BadRequest,
            }
        }),
{
    if gate_taildrop(view, src, store_configured) == GateDecision::Deny {
        return PutStep::Forbidden;
    }
    match content_length {
        Some(n) => PutStep::Store(n),
        None => PutStep::BadRequest,
    }
}

/// How storing a file, or refusing it, ended.
#[derive(Clone, Copy, Debug, PartialEq, Eq, Structural)]
pub enum PutOutcome {
    Stored,
    Forbidden,
    BadRequest,
    InvalidFileName,
    FileExists,
    Io,
}

/// The answer to a file that was sent.
pub open spec fn put_answer(outcome: PutOutcome) -> Seq<u8> {
    match outcome {
        PutOutcome::Stored => encode_utf8(ok_head_text("application/json"@, 3) + "{}\n"@),
        PutOutcome::Forbidden => encode_utf8(status_text("403 Forbidden"@)),
        PutOutcome::BadRequest => encode_utf8(status_text("400 Bad Request"@)),
        PutOutcome::InvalidFileName => encode_utf8(status_text("400 Bad Request"@)),
        PutOutcome::FileExists => encode_utf8(status_text("409 Conflict"@)),
        PutOutcome::Io => encode_utf8(status_text("500 Internal Server Error"@)),
    }
}

/// Writes the answer to a file that was stored: an empty JSON object and a line end.
pub fn taildrop_ok_response() -> (r: Vec<u8>)
    ensures
        r@ == put_answer(PutOutcome::Stored),
{
    let mut s = ok_head("application/json", 3);
    push_all(&mut s, "{}\n");
    bytes_of(&s)
}

/// Writes the answer to a file that was sent.
pub fn put_response(outcome: PutOutcome) -> (r: Vec<u8>)
    ensures
        r@ == put_answer(outcome),
{
    let status = match outcome {
        PutOutcome::Stored => {
            return taildrop_ok_response();
        },
        PutOutcome::Forbidden => "403 Forbidden",
        PutOutcome::BadRequest => "400 Bad Request",
        PutOutcome::InvalidFileName => "400 Bad Request",
        PutOutcome::FileExists => "409 Conflict",
        PutOutcome::Io => "500 Internal Server Error",
    };
    bytes_of(&status_response(status))
}

/// What a reader of a body does next.
#[derive(Debug)]
pub enum BodyStep {
    /// Hand out these bytes.
    Bytes(Vec<u8>),
    /// Read at most this many bytes off the stream and hand them out.
    Read(usize),
    /// The body has ended.
    End,
}

/// Hands out exactly the declared length of a body: first what was read along with the head, then
/// what the stream brings.
#[derive(Debug)]
pub struct BodyReader {
    seed: Vec<u8>,
    at: usize,
    remaining: u64,
}

impl BodyReader {
    /// The reader keeps its place in what was read along with the head.
    pub closed spec fn wf(&self) -> bool {
        self.at <= self.seed@.len()
    }

    /// What is still to be handed out of what was read along with the head.
    pub closed spec fn ahead(&self) -> Seq<u8> {
        self.seed@.skip(self.at as int)
    }

    /// How many bytes the stream still owes.
    pub closed spec fn owed(&self) -> nat {
        self.remaining as nat
    }

    /// How many bytes of the body are still to be handed out.
    pub open spec fn left(&self) -> nat {
        self.ahead().len() + self.owed()
    }

    /// A reader of a body of `content_length` bytes, of which `seed` is already read. Bytes of
    /// `seed` beyond the length are no part of the body.
    pub fn new(seed: Vec<u8>, content_length: u64) -> (r: Self)
        ensures
            r.wf(),
            r.left() == content_length,
            r.ahead() == (if seed@.len() > content_length {
                seed@.take(content_length as int)
            } else {
                seed@
            }),
    {
        let mut seed = seed;
        let ghost given = seed@;
        if seed.len() as u64 > content_length {
            seed.truncate(content_length as usize);
        }
        let remaining: u64 = content_length - seed.len() as u64;
        let r = BodyReader { seed, at: 0, remaining };
        assert(r.ahead() =~= seed@);
        r
    }

    /// The next step of a reader with room for `room` bytes. Bytes that it hands out are counted.
    pub fn step(&mut self, room: usize) -> (r: BodyStep)
        requires
            old(self).wf(),
        ensures
            final(self).wf(),
            final(self).owed() == old(self).owed(),
            match r {
                BodyStep::Bytes(bytes) => old(self).ahead().len() > 0 && old(self).ahead()
                    == bytes@ + final(self).ahead() && bytes@.len() == (if room
                    < old(self).ahead().len() {
                    room as nat
                } else {
                    old(self).ahead().len()
                }),
                BodyStep::Read(want) => old(self).ahead().len() == 0 && old(self).owed() > 0
                    && final(self).ahead() == old(self).ahead() && want == (if room
                    < old(self).owed() {
                    room as nat
                } else {
                    old(self).owed()
                }),
                BodyStep::End => old(self).left() == 0 && final(self).ahead()
                    == old(self).ahead(),
            },
    {
        let n: usize = self.seed.len();
        if self.at < n {
            let avail: usize = n - self.at;
            let take: usize = if room < avail {
                room
            } else {
                avail
            };
            let mut bytes: Vec<u8> = Vec::new();
            let part = vstd::slice::slice_subrange(self.seed.as_slice(), self.at, self.at + take);
            bytes.extend_from_slice(part);
            self.at = self.at + take;
            assert(bytes@ =~= old(self).seed@.subrange(old(self).at as int, self.at as int));
            assert(old(self).ahead() =~= bytes@ + self.ahead());
            return BodyStep::Bytes(bytes);
        }
        if self.remaining == 0 {
            return BodyStep::End;
        }
        let want: usize = if (room as u64) < self.remaining {
            room
        } else {
            self.remaining as usize
        };
        BodyStep::Read(want)
    }

    /// Counts `n` bytes that were read off the stream.
    pub fn took(&mut self, n: usize)
        requires
            old(self).wf(),
            n <= old(self).owed(),
        ensures
            final(self).wf(),
            final(self).ahead() == old(self).ahead(),
            final(self).owed() == old(self).owed() - n,
    {
        self.remaining = self.remaining - n as u64;
    }
}

/// A file goes nowhere unless this node takes files, and takes them from that source.
pub proof fn files_come_from_known_nodes_only(m: ViewModel, src: IpAddr, store_configured: bool)
    requires
        m.takes_files_from(src, store_configured),
    ensures
        store_configured,
        m.self_node is Some,
        m.self_node->0.owns(src) || (m.peers is Some && m.peers->0.has(KeyView::Ip(src))),
{
}

/// A request that is not for the file route never becomes a file transfer, nor a refusal of one.
pub proof fn other_paths_are_left_to_the_dns_route(h: RequestView)
    requires
        after(without_query(h.path), "/v0/put/"@) is None,
    ensures
        routed(Some(h)) is Doh,
{
}

} // verus!
