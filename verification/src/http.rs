//! The pieces of HTTP/1.1 that the peerAPI and its clients speak.
//!
//! Heads are parsed by the `httparse` crate; this module looks into what it found, and writes the
//! heads that go out.

use vstd::prelude::*;
use vstd::utf8::{
    decode_utf8, encode_utf8, encode_utf8_decode_utf8, encode_utf8_valid_utf8, is_ascii_chars,
    is_ascii_chars_encode_utf8, valid_utf8,
};

use crate::decimal::{
    decimal, decimal_reads_back, is_digit, parse_number, parsed, push_decimal, unsigned,
};
use crate::search::{first_where, first_where_is, first_where_none};
use crate::text::{chars_of, eq_ignore_case, lower_all, push_all, trim, trimmed};

verus! {

/// How many header fields a head may have.
pub const MAX_HEADER_FIELDS: usize = 32;

/// A header field.
#[derive(Debug)]
pub struct Header {
    pub name: String,
    pub value: Vec<u8>,
}

/// The model of a [`Header`].
#[verifier::ext_equal]
pub struct HeaderView {
    pub name: Seq<char>,
    pub value: Seq<u8>,
}

impl View for Header {
    type V = HeaderView;

    open spec fn view(&self) -> HeaderView {
        HeaderView { name: self.name@, value: self.value@ }
    }
}

/// The models of a list of header fields.
pub open spec fn header_views(v: Seq<Header>) -> Seq<HeaderView> {
    v.map_values(|h: Header| h@)
}

/// The head of a request.
#[derive(Debug)]
pub struct RequestHead {
    pub method: String,
    pub path: String,
    pub headers: Vec<Header>,
}

/// The model of a [`RequestHead`].
#[verifier::ext_equal]
pub struct RequestView {
    pub method: Seq<char>,
    pub path: Seq<char>,
    pub headers: Seq<HeaderView>,
}

impl View for RequestHead {
    type V = RequestView;

    open spec fn view(&self) -> RequestView {
        RequestView {
            method: self.method@,
            path: self.path@,
            headers: header_views(self.headers@),
        }
    }
}

/// The head of a response.
#[derive(Debug)]
pub struct ResponseHead {
    pub code: Option<u16>,
    pub headers: Vec<Header>,
}

/// The model of a [`ResponseHead`].
#[verifier::ext_equal]
pub struct ResponseView {
    pub code: Option<u16>,
    pub headers: Seq<HeaderView>,
}

impl View for ResponseHead {
    type V = ResponseView;

    open spec fn view(&self) -> ResponseView {
        ResponseView { code: self.code, headers: header_views(self.headers@) }
    }
}

/// The head of the request that `buf` starts with, where it holds a whole one with at most
/// `max_headers` fields.
pub uninterp spec fn request_head(buf: Seq<u8>, max_headers: nat) -> Option<RequestView>;

/// The head of the response that `buf` starts with, where it holds a whole one with at most
/// `max_headers` fields.
pub uninterp spec fn response_head(buf: Seq<u8>, max_headers: nat) -> Option<ResponseView>;

/// The model of an optional request head.
pub open spec fn request_view(head: Option<RequestHead>) -> Option<RequestView> {
    match head {
        Some(h) => Some(h@),
        None => None,
    }
}

/// The model of an optional response head.
pub open spec fn response_view(head: Option<ResponseHead>) -> Option<ResponseView> {
    match head {
        Some(h) => Some(h@),
        None => None,
    }
}

/// The lines of header fields, each a name and a value.
pub open spec fn lines_of(fields: Seq<(Seq<char>, Seq<char>)>) -> Seq<char>
    decreases fields.len(),
{
    if fields.len() == 0 {
        Seq::empty()
    } else {
        lines_of(fields.drop_last()) + fields.last().0 + ": "@ + fields.last().1 + "\r\n"@
    }
}

/// The models of header fields, each a name and a value.
pub open spec fn fields_of(fields: Seq<(Seq<char>, Seq<char>)>) -> Seq<HeaderView> {
    fields.map_values(
        |f: (Seq<char>, Seq<char>)| HeaderView { name: f.0, value: encode_utf8(f.1) },
    )
}

/// Whether `s` is a word of letters, digits and hyphens.
pub open spec fn is_word(s: Seq<char>) -> bool {
    s.len() > 0 && forall|i: int|
        0 <= i < s.len() ==> {
            ||| 'a' <= #[trigger] s[i] <= 'z'
            ||| 'A' <= s[i] <= 'Z'
            ||| '0' <= s[i] <= '9'
            ||| s[i] == '-'
        }
}

/// Whether `s` is made of visible ASCII characters, at least one.
pub open spec fn is_visible(s: Seq<char>) -> bool {
    s.len() > 0 && forall|i: int| 0 <= i < s.len() ==> '!' <= #[trigger] s[i] <= '~'
}

/// Whether every field has a word for a name and a visible value.
pub open spec fn are_plain(fields: Seq<(Seq<char>, Seq<char>)>) -> bool {
    forall|i: int|
        0 <= i < fields.len() ==> is_word((#[trigger] fields[i]).0) && is_visible(fields[i].1)
}

/// Whether `s` holds visible ASCII characters and spaces only.
pub open spec fn is_line(s: Seq<char>) -> bool {
    forall|i: int| 0 <= i < s.len() ==> ' ' <= #[trigger] s[i] <= '~'
}

/// A head, as it is written: its first line, its fields and an empty line.
pub open spec fn head_text(first: Seq<char>, fields: Seq<(Seq<char>, Seq<char>)>) -> Seq<char> {
    first + "\r\n"@ + lines_of(fields) + "\r\n"@
}

/// The first line of a request.
pub open spec fn request_line(method: Seq<char>, path: Seq<char>) -> Seq<char> {
    method + " "@ + path + " HTTP/1.1"@
}

/// The first line of a response.
pub open spec fn status_line(code: u16, reason: Seq<char>) -> Seq<char> {
    "HTTP/1.1 "@ + decimal(code as nat) + " "@ + reason
}

/// Whether `buf` is the head of a request, written out, and `rest` behind it.
pub open spec fn is_request(
    buf: Seq<u8>,
    method: Seq<char>,
    path: Seq<char>,
    fields: Seq<(Seq<char>, Seq<char>)>,
    rest: Seq<u8>,
) -> bool {
    &&& is_word(method)
    &&& is_visible(path)
    &&& are_plain(fields)
    &&& buf == encode_utf8(head_text(request_line(method, path), fields)) + rest
}

/// Whether `buf` is the head of a response, written out, and `rest` behind it.
pub open spec fn is_response(
    buf: Seq<u8>,
    code: u16,
    reason: Seq<char>,
    fields: Seq<(Seq<char>, Seq<char>)>,
    rest: Seq<u8>,
) -> bool {
    &&& 100 <= code <= 999
    &&& is_line(reason)
    &&& are_plain(fields)
    &&& buf == encode_utf8(head_text(status_line(code, reason), fields)) + rest
}

/// `Request::parse` of the `httparse` crate, given room for `max_headers` header fields: the
/// method, the path and the fields of the head at the start of `buf`. `None` where the head is
/// malformed, has too many fields or is not whole. What it finds is a function of the bytes and
/// the room. Of a head of plain fields that is written out in full it finds what was written;
/// what it makes of other bytes is not stated.
#[verifier::external_body]
pub(crate) fn parse_request(buf: &[u8], max_headers: usize) -> (r: Option<RequestHead>)
    ensures
        request_view(r) == request_head(buf@, max_headers as nat),
        forall|method: Seq<char>, path: Seq<char>, fields: Seq<(Seq<char>, Seq<char>)>, rest: Seq<u8>|
            #[trigger] is_request(buf@, method, path, fields, rest) && fields.len() <= max_headers
                ==> request_view(r) == Some(
                RequestView { method, path, headers: fields_of(fields) },
            ),
{
    let mut room = vec![httparse::EMPTY_HEADER; max_headers];
    let mut head = httparse::Request::new(&mut room);
    match head.parse(buf) {
        Ok(httparse::Status::Complete(_)) => Some(RequestHead {
            method: head.method.unwrap_or_default().to_owned(),
            path: head.path.unwrap_or_default().to_owned(),
            headers: head.headers.iter().map(|h| Header {
                name: h.name.to_owned(),
                value: h.value.to_vec(),
            }).collect(),
        }),
        Ok(httparse::Status::Partial) | Err(_) => None,
    }
}

/// `Response::parse` of the `httparse` crate, given room for `max_headers` header fields: the
/// status code and the fields of the head at the start of `buf`. `None` where the head is
/// malformed, has too many fields or is not whole. What it finds is a function of the bytes and
/// the room. Of a head of plain fields that is written out in full it finds what was written;
/// what it makes of other bytes is not stated.
#[verifier::external_body]
pub(crate) fn parse_response(buf: &[u8], max_headers: usize) -> (r: Option<ResponseHead>)
    ensures
        response_view(r) == response_head(buf@, max_headers as nat),
        forall|code: u16, reason: Seq<char>, fields: Seq<(Seq<char>, Seq<char>)>, rest: Seq<u8>|
            #[trigger] is_response(buf@, code, reason, fields, rest) && fields.len() <= max_headers
                ==> response_view(r) == Some(
                ResponseView { code: Some(code), headers: fields_of(fields) },
            ),
{
    let mut room = vec![httparse::EMPTY_HEADER; max_headers];
    let mut head = httparse::Response::new(&mut room);
    match head.parse(buf) {
        Ok(httparse::Status::Complete(_)) => Some(ResponseHead {
            code: head.code,
            headers: head.headers.iter().map(|h| Header {
                name: h.name.to_owned(),
                value: h.value.to_vec(),
            }).collect(),
        }),
        Ok(httparse::Status::Partial) | Err(_) => None,
    }
}

/// `str::from_utf8` of the standard library: the text that the bytes encode, where they are UTF-8.
#[verifier::external_body]
pub(crate) fn utf8_text(bytes: &[u8]) -> (r: Option<String>)
    ensures
        r is Some == valid_utf8(bytes@),
        r is Some ==> r->0@ == decode_utf8(bytes@),
{
    std::str::from_utf8(bytes).ok().map(str::to_owned)
}

/// The value of the first field called `name`, whatever the case, where it is UTF-8.
pub open spec fn field(headers: Seq<HeaderView>, name: Seq<char>) -> Option<Seq<char>> {
    match first_where(
        |i: int| lower_all(headers[i].name) == lower_all(name),
        headers.len() as int,
    ) {
        Some(i) => if valid_utf8(headers[i].value) {
            Some(decode_utf8(headers[i].value))
        } else {
            None
        },
        None => None,
    }
}

/// Looks up a header field, whatever the case of its name.
pub fn header_value(headers: &Vec<Header>, name: &str) -> (r: Option<String>)
    ensures
        match r {
            Some(v) => field(header_views(headers@), name@) == Some(v@),
            None => field(header_views(headers@), name@) is None,
        },
{
    let ghost all = header_views(headers@);
    let ghost p = |i: int| lower_all(all[i].name) == lower_all(name@);
    let mut i: usize = 0;
    while i < headers.len()
        invariant
            i <= headers@.len(),
            all == header_views(headers@),
            p == (|i: int| lower_all(all[i].name) == lower_all(name@)),
            forall|j: int| 0 <= j < i ==> !#[trigger] p(j),
        decreases headers@.len() - i,
    {
        assert(all[i as int] == headers@[i as int]@);
        if eq_ignore_case(&headers[i].name, name) {
            proof {
                assert(p(i as int));
                first_where_is(p, all.len() as int, i as int);
            }
            return utf8_text(&headers[i].value);
        }
        assert(!p(i as int));
        i = i + 1;
    }
    proof {
        first_where_none(p, all.len() as int);
    }
    None
}

/// The length that the head declares for the body, where it is a number of at most `max`.
pub open spec fn content_length(headers: Seq<HeaderView>, max: nat) -> Option<nat> {
    match field(headers, "content-length"@) {
        Some(v) => parsed(trimmed(v), max),
        None => None,
    }
}

/// Reads the declared length of the body.
pub fn declared_length(headers: &Vec<Header>, max: u64) -> (r: Option<u64>)
    ensures
        match r {
            Some(n) => content_length(header_views(headers@), max as nat) == Some(n as nat),
            None => content_length(header_views(headers@), max as nat) is None,
        },
{
    match header_value(headers, "content-length") {
        Some(v) => parse_number(&trim(&chars_of(&v)), max),
        None => None,
    }
}

/// Where the head in `buf` ends: just past the first empty line.
pub open spec fn head_end(buf: Seq<u8>) -> Option<int> {
    match first_where(|i: int| blank_line_at(buf, i), buf.len() - 3) {
        Some(i) => Some(i + 4),
        None => None,
    }
}

/// Whether a line end and an empty line stand in `buf` at `i`.
pub open spec fn blank_line_at(buf: Seq<u8>, i: int) -> bool {
    buf[i] == 13 && buf[i + 1] == 10 && buf[i + 2] == 13 && buf[i + 3] == 10
}

/// Finds the end of the head in `buf`.
pub fn find_header_end(buf: &[u8]) -> (r: Option<usize>)
    ensures
        match r {
            Some(end) => head_end(buf@) == Some(end as int) && 4 <= end <= buf@.len(),
            None => head_end(buf@) is None,
        },
{
    let n: usize = buf.len();
    let ghost p = |i: int| blank_line_at(buf@, i);
    if n < 4 {
        return None;
    }
    let mut i: usize = 0;
    while i < n - 3
        invariant
            n == buf@.len(),
            4 <= n,
            i <= n - 3,
            p == (|i: int| blank_line_at(buf@, i)),
            forall|j: int| 0 <= j < i ==> !#[trigger] p(j),
        decreases n - i,
    {
        if buf[i] == 13 && buf[i + 1] == 10 && buf[i + 2] == 13 && buf[i + 3] == 10 {
            proof {
                assert(p(i as int));
                first_where_is(p, buf@.len() - 3, i as int);
            }
            return Some(i + 4);
        }
        assert(!p(i as int));
        i = i + 1;
    }
    proof {
        first_where_none(p, buf@.len() - 3);
    }
    None
}

/// The head ends at a blank line, and no part of the buffer that ends earlier holds one.
pub proof fn the_head_ends_at_the_first_blank_line(buf: Seq<u8>, end: int)
    requires
        head_end(buf) == Some(end),
    ensures
        4 <= end <= buf.len(),
        blank_line_at(buf, end - 4),
        forall|i: int| 0 <= i < end - 4 ==> !#[trigger] blank_line_at(buf, i),
{
    let p = |i: int| blank_line_at(buf, i);
    crate::search::first_where_is_first(p, buf.len() - 3);
    assert forall|i: int| 0 <= i < end - 4 implies !#[trigger] blank_line_at(buf, i) by {
        assert(!p(i));
    }
}

/// Whether `t` ends with a line end and holds no empty line.
spec fn holds_lines(t: Seq<char>) -> bool {
    &&& t.len() >= 2
    &&& t[t.len() - 2] == '\r'
    &&& t[t.len() - 1] == '\n'
    &&& forall|i: int| 0 <= i < t.len() - 2 && #[trigger] t[i] == '\r' ==> t[i + 2] != '\r'
}

proof fn fields_hold_lines(first: Seq<char>, fields: Seq<(Seq<char>, Seq<char>)>)
    requires
        is_line(first),
        are_plain(fields),
    ensures
        holds_lines(first + "\r\n"@ + lines_of(fields)),
        is_ascii_chars(first + "\r\n"@ + lines_of(fields)),
    decreases fields.len(),
{
    reveal_strlit("\r\n");
    reveal_strlit(": ");
    let end = "\r\n"@;
    if fields.len() == 0 {
        assert(first + end + lines_of(fields) =~= first + end);
    } else {
        fields_hold_lines(first, fields.drop_last());
        let before = first + end + lines_of(fields.drop_last());
        let name = fields.last().0;
        let value = fields.last().1;
        let line = name + ": "@ + value + end;
        let all = first + end + lines_of(fields);
        assert(fields[fields.len() - 1] == fields.last());
        assert(is_word(name) && is_visible(value));
        assert(all =~= before + line);
        assert(line[0] == name[0]);
        assert forall|i: int| 0 <= i < line.len() - 2 implies ' ' <= #[trigger] line[i] <= '~' by {
            if i < name.len() {
                assert(line[i] == name[i]);
            } else if i >= name.len() + 2 {
                assert(line[i] == value[i - name.len() - 2]);
            }
        }
        assert forall|i: int| 0 <= i < all.len() - 2 && #[trigger] all[i] == '\r' implies all[i + 2]
            != '\r' by {
            if i < before.len() {
                assert(all[i] == before[i]);
                if i < before.len() - 2 {
                    assert(all[i + 2] == before[i + 2]);
                } else {
                    assert(before[before.len() - 1] == '\n');
                    assert(i == before.len() - 2);
                    assert(all[i + 2] == line[0]);
                }
            } else {
                assert(all[i] == line[i - before.len()]);
            }
        }
        assert(all[all.len() - 2] == line[line.len() - 2]);
        assert(all[all.len() - 1] == line[line.len() - 1]);
        assert forall|i: int| 0 <= i < all.len() implies (#[trigger] all[i] as nat) < 128 by {
            if i < before.len() {
                assert(all[i] == before[i]);
            } else {
                assert(all[i] == line[i - before.len()]);
            }
        }
    }
}

/// A head that is written out ends where it was written to end, and no shorter part of it ends
/// a head.
pub proof fn a_written_head_ends(
    first: Seq<char>,
    fields: Seq<(Seq<char>, Seq<char>)>,
    rest: Seq<u8>,
)
    requires
        is_line(first),
        are_plain(fields),
    ensures
        encode_utf8(head_text(first, fields)).len() == head_text(first, fields).len(),
        head_end(encode_utf8(head_text(first, fields)) + rest) == Some(
            encode_utf8(head_text(first, fields)).len() as int,
        ),
        forall|n: int|
            0 <= n < encode_utf8(head_text(first, fields)).len() ==> head_end(
                #[trigger] encode_utf8(head_text(first, fields)).take(n),
            ) is None,
{
    reveal_strlit("\r\n");
    let lines = first + "\r\n"@ + lines_of(fields);
    let text = head_text(first, fields);
    let bytes = encode_utf8(text);
    fields_hold_lines(first, fields);
    assert(text =~= lines + "\r\n"@);
    assert forall|i: int| 0 <= i < text.len() implies (#[trigger] text[i] as nat) < 128 by {
        if i < lines.len() {
            assert(text[i] == lines[i]);
        }
    }
    is_ascii_chars_encode_utf8(text);
    assert(bytes.len() == text.len());
    assert forall|i: int| 0 <= i < bytes.len() - 4 implies !#[trigger] blank_line_at(bytes, i) by {
        assert(bytes[i] as char == text[i]);
        assert(bytes[i + 2] as char == text[i + 2]);
        assert(text[i] == lines[i]);
        assert(text[i + 2] == lines[i + 2]);
    }
    let n = text.len();
    assert(bytes[n - 4] as char == text[n - 4] && bytes[n - 3] as char == text[n - 3]);
    assert(bytes[n - 2] as char == text[n - 2] && bytes[n - 1] as char == text[n - 1]);
    let whole = bytes + rest;
    let p = |i: int| blank_line_at(whole, i);
    assert(p(n - 4));
    assert forall|j: int| 0 <= j < n - 4 implies !#[trigger] p(j) by {
        assert(!blank_line_at(bytes, j));
    }
    first_where_is(p, whole.len() - 3, n - 4);
    assert forall|m: int| 0 <= m < bytes.len() implies head_end(#[trigger] bytes.take(m)) is None by {
        let part = bytes.take(m);
        let q = |i: int| blank_line_at(part, i);
        assert forall|j: int| 0 <= j < part.len() - 3 implies !#[trigger] q(j) by {
            assert(!blank_line_at(bytes, j));
        }
        first_where_none(q, part.len() - 3);
    }
}

/// The head of a bodyless response with the status line `status`.
pub open spec fn status_text(status: Seq<char>) -> Seq<char> {
    "HTTP/1.1 "@ + status + "\r\nContent-Length: 0\r\nConnection: close\r\n\r\n"@
}

/// Writes a bodyless response with the status line `status`.
pub fn status_response(status: &str) -> (r: String)
    ensures
        r@ == status_text(status@),
{
    let mut s = String::new();
    push_all(&mut s, "HTTP/1.1 ");
    push_all(&mut s, status);
    push_all(&mut s, "\r\nContent-Length: 0\r\nConnection: close\r\n\r\n");
    assert(s@ =~= status_text(status@));
    s
}

/// The head of a successful response with a body of `len` bytes of type `kind`.
pub open spec fn ok_head_text(kind: Seq<char>, len: nat) -> Seq<char> {
    "HTTP/1.1 200 OK\r\nContent-Type: "@ + kind + "\r\nContent-Length: "@ + decimal(len)
        + "\r\nConnection: close\r\n\r\n"@
}

/// Writes the head of a successful response.
pub fn ok_head(kind: &str, len: u64) -> (r: String)
    ensures
        r@ == ok_head_text(kind@, len as nat),
{
    let mut s = String::new();
    push_all(&mut s, "HTTP/1.1 200 OK\r\nContent-Type: ");
    push_all(&mut s, kind);
    push_all(&mut s, "\r\nContent-Length: ");
    push_decimal(&mut s, len);
    push_all(&mut s, "\r\nConnection: close\r\n\r\n");
    assert(s@ =~= ok_head_text(kind@, len as nat));
    s
}

/// The fields of a bodyless response.
pub open spec fn status_fields() -> Seq<(Seq<char>, Seq<char>)> {
    seq![("Content-Length"@, decimal(0)), ("Connection"@, "close"@)]
}

/// A bodyless response is a head of plain fields.
pub proof fn statuses_are_written_out(code: u16, reason: Seq<char>)
    ensures
        status_text(decimal(code as nat) + " "@ + reason) == head_text(
            status_line(code, reason),
            status_fields(),
        ),
        are_plain(status_fields()),
{
    let fields = status_fields();
    reveal_strlit("\r\n");
    reveal_strlit(": ");
    reveal_strlit("Content-Length");
    reveal_strlit("Connection");
    reveal_strlit("close");
    reveal_strlit("\r\nContent-Length: 0\r\nConnection: close\r\n\r\n");
    reveal_with_fuel(lines_of, 3);
    assert(fields.drop_last() =~= seq![("Content-Length"@, decimal(0))]);
    assert(fields.drop_last().drop_last() =~= Seq::<(Seq<char>, Seq<char>)>::empty());
    assert("\r\nContent-Length: 0\r\nConnection: close\r\n\r\n"@ =~= "\r\n"@ + lines_of(fields)
        + "\r\n"@);
    assert(status_text(decimal(code as nat) + " "@ + reason) =~= head_text(
        status_line(code, reason),
        fields,
    ));
}

/// The fields of a successful response with a body of `len` bytes of type `kind`.
pub open spec fn ok_fields(kind: Seq<char>, len: nat) -> Seq<(Seq<char>, Seq<char>)> {
    seq![("Content-Type"@, kind), ("Content-Length"@, decimal(len)), ("Connection"@, "close"@)]
}

/// The head of a successful response is one of plain fields, and its declared length is read back.
pub proof fn ok_heads_are_written_out(kind: Seq<char>, len: nat, max: nat)
    requires
        is_visible(kind),
        len <= max,
    ensures
        ok_head_text(kind, len) == head_text(status_line(200, "OK"@), ok_fields(kind, len)),
        is_line("OK"@),
        is_line(status_line(200, "OK"@)),
        are_plain(ok_fields(kind, len)),
        content_length(fields_of(ok_fields(kind, len)), max) == Some(len),
{
    let fields = ok_fields(kind, len);
    reveal_strlit("\r\n");
    reveal_strlit(": ");
    reveal_strlit(" ");
    reveal_strlit("OK");
    reveal_strlit("HTTP/1.1 ");
    reveal_strlit("Content-Type");
    reveal_strlit("Content-Length");
    reveal_strlit("Connection");
    reveal_strlit("close");
    reveal_strlit("HTTP/1.1 200 OK\r\nContent-Type: ");
    reveal_strlit("\r\nContent-Length: ");
    reveal_strlit("\r\nConnection: close\r\n\r\n");
    reveal_with_fuel(lines_of, 4);
    reveal_with_fuel(decimal, 3);
    let two = fields.drop_last();
    let one = two.drop_last();
    assert(two =~= seq![("Content-Type"@, kind), ("Content-Length"@, decimal(len))]);
    assert(one =~= seq![("Content-Type"@, kind)]);
    assert(one.drop_last() =~= Seq::<(Seq<char>, Seq<char>)>::empty());
    assert(decimal(200) =~= seq!['2', '0', '0']);
    assert("HTTP/1.1 200 OK\r\nContent-Type: "@ =~= status_line(200, "OK"@) + "\r\n"@
        + "Content-Type"@ + ": "@);
    assert("\r\nContent-Length: "@ =~= "\r\n"@ + "Content-Length"@ + ": "@);
    assert("\r\nConnection: close\r\n\r\n"@ =~= "\r\n"@ + "Connection"@ + ": "@ + "close"@
        + "\r\n"@ + "\r\n"@);
    assert(ok_head_text(kind, len) =~= head_text(status_line(200, "OK"@), fields));
    decimal_reads_back(len);
    assert(is_visible(decimal(len))) by {
        assert forall|i: int| 0 <= i < decimal(len).len() implies '!' <= #[trigger] decimal(len)[i]
            <= '~' by {
            assert(is_digit(decimal(len)[i]));
        }
    }
    reveal_strlit("content-length");
    assert(lower_all("Content-Type"@).len() != lower_all("content-length"@).len());
    a_written_length_is_read(fields, 1, len, max);
}

/// The length that a head declares in decimal is the length that is read.
pub proof fn a_written_length_is_read(
    fields: Seq<(Seq<char>, Seq<char>)>,
    i: int,
    len: nat,
    max: nat,
)
    requires
        0 <= i < fields.len(),
        fields[i] == ("Content-Length"@, decimal(len)),
        forall|j: int|
            0 <= j < i ==> lower_all((#[trigger] fields[j]).0) != lower_all("content-length"@),
        len <= max,
    ensures
        content_length(fields_of(fields), max) == Some(len),
{
    let headers = fields_of(fields);
    let p = |k: int| lower_all(headers[k].name) == lower_all("content-length"@);
    reveal_strlit("Content-Length");
    reveal_strlit("content-length");
    assert(lower_all("Content-Length"@) =~= lower_all("content-length"@));
    assert(p(i));
    assert forall|j: int| 0 <= j < i implies !#[trigger] p(j) by {
        assert(headers[j].name == fields[j].0);
    }
    first_where_is(p, headers.len() as int, i);
    encode_utf8_valid_utf8(decimal(len));
    encode_utf8_decode_utf8(decimal(len));
    decimal_reads_back(len);
    let s = decimal(len);
    assert(is_digit(s[0]) && is_digit(s[s.len() - 1]));
    assert(trimmed(s) == s);
    assert(unsigned(s) == s);
}

} // verus!
