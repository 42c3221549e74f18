//! What the peerAPI and DNS over HTTP owe, said of the requests as they are written.

use vstd::prelude::*;
use vstd::utf8::{decode_utf8, encode_utf8, valid_utf8};

use crate::addr::{IpAddr, Ipv4Addr, Ipv6Addr};
use crate::base64url::decoded;
use crate::decimal::{decimal, decimal_reads_back, is_digit, parsed, unsigned};
use crate::dns_laws::says;
use crate::dns_message::{size_checked, udp_limit, ClientTransport};
use crate::http::{
    blank_line_at, content_length, field, head_end, head_text, lines_of, ok_head_text, request_head,
    status_text, HeaderView, RequestView, ResponseView, MAX_HEADER_FIELDS,
};
use crate::lookup_laws::same_letter;
use crate::magic_dns::{DecisionView, QuestionView, Rcode, ViewModel};
use crate::peer_db::{listed_is_found, KeyView};
use crate::peerapi::{
    put_answer, range_offset, route_answer, routed, routed_read, unescaped, utf8_lossy,
    without_query, PutOutcome, RoutedView,
};
use crate::peerapi_doh::{
    answer_bytes, conn_steps, doh_start, get_request, head_step, off_tailnet, query_of,
    response_length, ConnStepView, DohError, DohRequestView, DohStartView, ReadStepView, ReaderView,
    ServerView,
};
use crate::search::{first_where_is, first_where_is_first, first_where_none};
use crate::text::{
    after, first_index, first_index_is, first_index_is_first, is_white, lower_all, split, trim_first,
    trim_last, trimmed,
};

verus! {

/// The hexadecimal digit for `n`, with letters in upper case.
pub open spec fn upper_digit(n: int) -> u8 {
    if n < 10 {
        (48 + n) as u8
    } else {
        (55 + n) as u8
    }
}

/// The hexadecimal digit for `n`, with letters in lower case.
pub open spec fn lower_digit(n: int) -> u8 {
    if n < 10 {
        (48 + n) as u8
    } else {
        (87 + n) as u8
    }
}

/// Whether `b` is a hexadecimal digit.
pub open spec fn is_hex(b: u8) -> bool {
    48 <= b <= 57 || 65 <= b <= 70 || 97 <= b <= 102
}

/// A percent sign and two hexadecimal digits stand for one byte, whatever the case of the digits.
pub proof fn an_escape_stands_for_its_byte(b: u8, rest: Seq<u8>)
    ensures
        unescaped(
            seq![37u8, upper_digit(b as int / 16), upper_digit(b as int % 16)] + rest,
        ) == seq![b] + unescaped(rest),
        unescaped(
            seq![37u8, lower_digit(b as int / 16), lower_digit(b as int % 16)] + rest,
        ) == seq![b] + unescaped(rest),
{
    let x = seq![37u8, upper_digit(b as int / 16), upper_digit(b as int % 16)] + rest;
    let y = seq![37u8, lower_digit(b as int / 16), lower_digit(b as int % 16)] + rest;
    assert(x.skip(3) =~= rest);
    assert(y.skip(3) =~= rest);
    assert(x[0] == 37 && y[0] == 37);
    assert(x[1] == upper_digit(b as int / 16) && x[2] == upper_digit(b as int % 16));
    assert(y[1] == lower_digit(b as int / 16) && y[2] == lower_digit(b as int % 16));
}

/// Every other byte stands for itself, a percent sign without two hexadecimal digits behind it
/// included.
pub proof fn other_bytes_stand_for_themselves(b: u8, rest: Seq<u8>)
    requires
        b == 37 ==> rest.len() < 2 || !is_hex(rest[0]) || !is_hex(rest[1]),
    ensures
        unescaped(seq![b] + rest) == seq![b] + unescaped(rest),
        unescaped(Seq::empty()) == Seq::<u8>::empty(),
{
    let x = seq![b] + rest;
    assert(x.skip(1) =~= rest);
    assert(x[0] == b);
    if rest.len() >= 2 {
        assert(x[1] == rest[0] && x[2] == rest[1]);
    }
}

/// The name of a file is what stands between `/v0/put/` and the query.
pub proof fn the_name_stands_behind_the_route(path: Seq<char>, name: Seq<char>, tail: Seq<char>)
    requires
        path == "/v0/put/"@ + name + tail,
        !name.contains('?'),
        tail.len() > 0 ==> tail[0] == '?',
    ensures
        without_query(path) == "/v0/put/"@ + name,
        without_query(path).skip(8) == name,
        after(without_query(path), "/v0/put/"@) == Some(name),
{
    reveal_strlit("/v0/put/");
    let prefix = "/v0/put/"@;
    let n = prefix.len() + name.len();
    assert forall|j: int| 0 <= j < n implies path[j] != '?' by {
        if j >= prefix.len() {
            assert(path[j] == name[j - prefix.len()]);
            assert(name.contains(name[j - prefix.len()]));
        } else {
            assert(path[j] == prefix[j]);
        }
    }
    if tail.len() > 0 {
        assert(path[n as int] == tail[0]);
    }
    first_index_is(path, '?', n as int);
    let bare = without_query(path);
    assert(bare =~= prefix + name);
    assert(bare.take(8) =~= prefix);
    assert(bare.skip(8) =~= name);
}

/// A request to `/v0/put/` and a name is a file sent under that name, with its escapes decoded,
/// from the offset that it asks for on; a query behind the name makes no difference. Any other
/// method than PUT is not allowed there.
pub proof fn a_file_is_put_under_its_name(h: RequestView, name: Seq<char>, tail: Seq<char>)
    requires
        h.path == "/v0/put/"@ + name + tail,
        !name.contains('?'),
        tail.len() > 0 ==> tail[0] == '?',
    ensures
        routed(Some(h)) == (if h.method == "PUT"@ {
            RoutedView::Put {
                name: utf8_lossy(unescaped(encode_utf8(name))),
                offset: range_offset(h.headers),
                content_length: content_length(h.headers, u64::MAX as nat),
            }
        } else {
            RoutedView::MethodNotAllowed
        }),
{
    the_name_stands_behind_the_route(h.path, name, tail);
}

/// A request to any other path is left to the DNS route, and a malformed one is refused.
pub proof fn other_paths_go_to_the_dns_route(h: RequestView)
    requires
        h.path.len() < 8 || h.path.take(8) != "/v0/put/"@,
    ensures
        routed(Some(h)) is Doh,
        routed(None) is BadRequest,
{
    reveal_strlit("/v0/put/");
    first_index_is_first(h.path, '?');
    let bare = without_query(h.path);
    if bare.len() >= 8 {
        assert(bare.take(8) =~= h.path.take(8));
    }
}

/// The value of the first field with a name, whatever its case, is found; one that is no text is as
/// good as none.
pub proof fn a_field_is_found_whatever_its_case(headers: Seq<HeaderView>, name: Seq<char>, i: int)
    requires
        0 <= i < headers.len(),
        is_called(headers[i], name),
        forall|j: int| 0 <= j < i ==> !is_called(#[trigger] headers[j], name),
    ensures
        field(headers, name) == (if valid_utf8(headers[i].value) {
            Some(decode_utf8(headers[i].value))
        } else {
            None
        }),
{
    let p = |k: int| lower_all(headers[k].name) == lower_all(name);
    called_is_lowered(headers[i], name);
    assert(p(i));
    assert forall|j: int| 0 <= j < i implies !#[trigger] p(j) by {
        called_is_lowered(headers[j], name);
        assert(!is_called(headers[j], name));
    }
    first_where_is(p, headers.len() as int, i);
}

/// A field that is not there is not found.
pub proof fn a_missing_field_is_not_found(headers: Seq<HeaderView>, name: Seq<char>)
    requires
        forall|j: int| 0 <= j < headers.len() ==> !is_called(#[trigger] headers[j], name),
    ensures
        field(headers, name) is None,
{
    let p = |k: int| lower_all(headers[k].name) == lower_all(name);
    assert forall|j: int| 0 <= j < headers.len() implies !#[trigger] p(j) by {
        called_is_lowered(headers[j], name);
        assert(!is_called(headers[j], name));
    }
    first_where_none(p, headers.len() as int);
}

/// Whether the field's name is `name` but for the case of ASCII letters.
pub open spec fn is_called(header: HeaderView, name: Seq<char>) -> bool {
    header.name.len() == name.len() && forall|i: int|
        0 <= i < name.len() ==> same_letter(#[trigger] header.name[i], name[i])
}

proof fn called_is_lowered(header: HeaderView, name: Seq<char>)
    ensures
        is_called(header, name) <==> lower_all(header.name) == lower_all(name),
{
    let x = lower_all(header.name);
    let y = lower_all(name);
    if x == y {
        assert(x.len() == header.name.len() && y.len() == name.len());
        assert forall|i: int| 0 <= i < name.len() implies same_letter(
            #[trigger] header.name[i],
            name[i],
        ) by {
            assert(x[i] == y[i]);
        }
    }
    if is_called(header, name) {
        assert forall|i: int| 0 <= i < name.len() implies x[i] == y[i] by {
            assert(same_letter(header.name[i], name[i]));
        }
        assert(x =~= y);
    }
}

/// White space is taken off both ends, and nothing else is.
pub proof fn white_space_is_taken_off(s: Seq<char>, left: Seq<char>, right: Seq<char>)
    requires
        forall|i: int| 0 <= i < left.len() ==> is_white(#[trigger] left[i]),
        forall|i: int| 0 <= i < right.len() ==> is_white(#[trigger] right[i]),
        s.len() > 0 ==> !is_white(s[0]) && !is_white(s.last()),
    ensures
        trimmed(left + s + right) == s,
{
    if s.len() > 0 {
        leading_space_goes(left, s + right);
        assert(left + s + right =~= left + (s + right));
        trailing_space_goes(s, right);
    } else {
        let all = left + s + right;
        assert(all =~= (left + right) + Seq::<char>::empty());
        assert forall|i: int| 0 <= i < (left + right).len() implies is_white(
            #[trigger] (left + right)[i],
        ) by {}
        leading_space_goes(left + right, Seq::empty());
        assert(s =~= Seq::<char>::empty());
    }
}

proof fn leading_space_goes(left: Seq<char>, s: Seq<char>)
    requires
        forall|i: int| 0 <= i < left.len() ==> is_white(#[trigger] left[i]),
        s.len() > 0 ==> !is_white(s[0]),
    ensures
        trim_first(left + s) == s,
    decreases left.len(),
{
    let all = left + s;
    if left.len() > 0 {
        let rest = left.drop_first();
        assert(all[0] == left[0]);
        assert(all.skip(1) =~= rest + s);
        assert forall|i: int| 0 <= i < rest.len() implies is_white(#[trigger] rest[i]) by {
            assert(rest[i] == left[i + 1]);
        }
        leading_space_goes(rest, s);
    } else {
        assert(all =~= s);
    }
}

proof fn trailing_space_goes(s: Seq<char>, right: Seq<char>)
    requires
        forall|i: int| 0 <= i < right.len() ==> is_white(#[trigger] right[i]),
        s.len() > 0 ==> !is_white(s.last()),
    ensures
        trim_last(s + right) == s,
    decreases right.len(),
{
    let all = s + right;
    if right.len() > 0 {
        let rest = right.drop_last();
        assert(all.last() == right.last());
        assert(is_white(right[right.len() - 1]));
        assert(all.drop_last() =~= s + rest);
        trailing_space_goes(s, rest);
    } else {
        assert(all =~= s);
    }
}

/// Of the ASCII characters, white space is the blank and the control characters from the tab to the
/// carriage return.
pub proof fn ascii_white_space(c: char)
    requires
        (c as u32) < 128,
    ensures
        is_white(c) <==> c == ' ' || '\t' <= c <= '\r',
{
}

proof fn plain_text_is_kept(s: Seq<char>)
    requires
        s.len() > 0 ==> !is_white(s[0]) && !is_white(s.last()),
    ensures
        trimmed(s) == s,
{
    let none = Seq::<char>::empty();
    white_space_is_taken_off(s, none, none);
    assert(none + s + none =~= s);
}

/// A number in decimal is read as that number where it is not beyond the bound, and as none where
/// it is.
pub proof fn a_decimal_is_read(n: nat, max: nat)
    ensures
        parsed(decimal(n), max) == (if n <= max {
            Some(n)
        } else {
            None
        }),
        decimal(n).last() as u32 == 48 + n % 10,
        n >= 10 ==> decimal(n).drop_last() == decimal(n / 10),
        n < 10 ==> decimal(n).len() == 1,
{
    decimal_reads_back(n);
    let s = decimal(n);
    assert(is_digit(s[0]));
    assert(unsigned(s) == s);
    if n >= 10 {
        assert(s.drop_last() =~= decimal(n / 10));
    }
}

/// A text that holds anything but digits, behind one plus sign at most, is no number.
pub proof fn other_texts_are_no_numbers(s: Seq<char>, max: nat, i: int)
    requires
        0 <= i < s.len(),
        !('0' <= s[i] <= '9'),
        i > 0 || s[0] != '+',
    ensures
        parsed(s, max) is None,
{
    let u = unsigned(s);
    if s[0] == '+' {
        assert(u[i - 1] == s[i]);
        assert(!is_digit(u[i - 1]));
    } else {
        assert(!is_digit(u[i]));
    }
}

/// The length that a head declares is the number in its field, white space aside; a field that
/// holds no number declares none.
pub proof fn the_declared_length_is_read(headers: Seq<HeaderView>, n: nat, max: nat)
    ensures
        field(headers, "content-length"@) == Some(decimal(n)) ==> content_length(headers, max) == (
        if n <= max {
            Some(n)
        } else {
            None
        }),
        field(headers, "content-length"@) is None ==> content_length(headers, max) is None,
{
    a_decimal_is_read(n, max);
    decimal_reads_back(n);
    let s = decimal(n);
    assert(is_digit(s[0]) && is_digit(s[s.len() - 1]));
    plain_text_is_kept(s);
}

/// A transfer that asks for the bytes from a number on is resumed there.
pub proof fn a_transfer_is_resumed_where_it_asks(
    headers: Seq<HeaderView>,
    n: nat,
    tail: Seq<char>,
)
    requires
        field(headers, "range"@) == Some("bytes="@ + decimal(n) + "-"@ + tail),
        n <= u64::MAX,
        tail.len() > 0 ==> !is_white(tail.last()),
    ensures
        range_offset(headers) == n,
{
    reveal_strlit("bytes=");
    reveal_strlit("-");
    let digits = decimal(n);
    let v = "bytes="@ + digits + "-"@ + tail;
    decimal_reads_back(n);
    a_decimal_is_read(n, u64::MAX as nat);
    assert(v[0] == 'b');
    assert(v.last() == (if tail.len() > 0 {
        tail.last()
    } else {
        '-'
    }));
    plain_text_is_kept(v);
    assert(v.take(6) =~= "bytes="@);
    let rest = v.skip(6);
    assert(rest =~= digits + "-"@ + tail);
    assert(rest[digits.len() as int] == '-');
    assert forall|j: int| 0 <= j < digits.len() implies rest[j] != '-' by {
        assert(is_digit(digits[j]));
    }
    first_index_is(rest, '-', digits.len() as int);
    first_index_is_first(rest, '-');
    assert(rest.take(digits.len() as int) =~= digits);
    assert(is_digit(digits[0]) && is_digit(digits[digits.len() - 1]));
    plain_text_is_kept(digits);
}

/// A transfer that asks for no range, or for one that is not in bytes, starts at the beginning.
pub proof fn other_transfers_start_at_the_beginning(headers: Seq<HeaderView>)
    requires
        field(headers, "range"@) is Some ==> after(
            trimmed(field(headers, "range"@)->0),
            "bytes="@,
        ) is None,
    ensures
        range_offset(headers) == 0,
{
}

/// A range without a hyphen, or with anything but a number before it, starts at the beginning too.
pub proof fn a_range_that_is_none_starts_at_the_beginning(
    headers: Seq<HeaderView>,
    start: Seq<char>,
    tail: Seq<char>,
    i: int,
)
    requires
        field(headers, "range"@) == Some("bytes="@ + start + tail),
        start.len() > 0,
        !start.contains('-'),
        !is_white(start[0]),
        !is_white(start.last()),
        tail.len() > 0 ==> tail[0] == '-' && !is_white(tail.last()),
        tail.len() > 0 ==> 0 <= i < start.len() && !('0' <= start[i] <= '9') && (i > 0 || start[0]
            != '+'),
    ensures
        range_offset(headers) == 0,
{
    reveal_strlit("bytes=");
    let v = "bytes="@ + start + tail;
    assert(v[0] == 'b');
    assert(v.last() == (if tail.len() > 0 {
        tail.last()
    } else {
        start.last()
    }));
    plain_text_is_kept(v);
    assert(v.take(6) =~= "bytes="@);
    let rest = v.skip(6);
    assert(rest =~= start + tail);
    assert forall|j: int| 0 <= j < start.len() implies rest[j] != '-' by {
        assert(start.contains(start[j]));
    }
    first_index_is_first(rest, '-');
    if tail.len() > 0 {
        assert(rest[start.len() as int] == tail[0]);
        first_index_is(rest, '-', start.len() as int);
        assert(rest.take(start.len() as int) =~= start);
        plain_text_is_kept(start);
        other_texts_are_no_numbers(start, u64::MAX as nat, i);
    } else {
        first_index_is(rest, '-', rest.len() as int);
    }
}

/// A file is taken exactly where files have a place to go, this node holds the capability to share
/// files, and the source is the address of a peer or of this node.
pub proof fn who_may_send_a_file(m: ViewModel, src: IpAddr, store_configured: bool)
    ensures
        m.takes_files_from(src, store_configured) <==> store_configured && m.self_node is Some
            && m.self_node->0.cap_map.contains("https://tailscale.com/cap/file-sharing"@)
            && m.node_by_ip(src) is Some,
{
}

/// Whether `bytes` are a bodyless response that starts with the status line `line`.
pub open spec fn is_status(bytes: Seq<u8>, line: Seq<char>) -> bool {
    bytes == encode_utf8(line + "\r\nContent-Length: 0\r\nConnection: close\r\n\r\n"@)
}

/// Each way in which a request or a file is refused has its status.
pub proof fn refusals_have_their_status()
    ensures
        is_status(route_answer(RoutedView::BadRequest)->0, "HTTP/1.1 400 Bad Request"@),
        is_status(
            route_answer(RoutedView::MethodNotAllowed)->0,
            "HTTP/1.1 405 Method Not Allowed"@,
        ),
        is_status(put_answer(PutOutcome::Forbidden), "HTTP/1.1 403 Forbidden"@),
        is_status(put_answer(PutOutcome::BadRequest), "HTTP/1.1 400 Bad Request"@),
        is_status(put_answer(PutOutcome::InvalidFileName), "HTTP/1.1 400 Bad Request"@),
        is_status(put_answer(PutOutcome::FileExists), "HTTP/1.1 409 Conflict"@),
        is_status(put_answer(PutOutcome::Io), "HTTP/1.1 500 Internal Server Error"@),
        is_status(
            conn_steps(Some(DohRequestView::TooLarge))->Answer_0,
            "HTTP/1.1 413 Payload Too Large"@,
        ),
        is_status(
            conn_steps(Some(DohRequestView::BadRequest))->Answer_0,
            "HTTP/1.1 400 Bad Request"@,
        ),
        is_status(
            conn_steps(Some(DohRequestView::NotFound))->Answer_0,
            "HTTP/1.1 404 Not Found"@,
        ),
{
    reveal_strlit("HTTP/1.1 ");
    reveal_strlit("400 Bad Request");
    reveal_strlit("HTTP/1.1 400 Bad Request");
    reveal_strlit("405 Method Not Allowed");
    reveal_strlit("HTTP/1.1 405 Method Not Allowed");
    reveal_strlit("403 Forbidden");
    reveal_strlit("HTTP/1.1 403 Forbidden");
    reveal_strlit("409 Conflict");
    reveal_strlit("HTTP/1.1 409 Conflict");
    reveal_strlit("500 Internal Server Error");
    reveal_strlit("HTTP/1.1 500 Internal Server Error");
    reveal_strlit("413 Payload Too Large");
    reveal_strlit("HTTP/1.1 413 Payload Too Large");
    reveal_strlit("404 Not Found");
    reveal_strlit("HTTP/1.1 404 Not Found");
    assert("HTTP/1.1 "@ + "400 Bad Request"@ =~= "HTTP/1.1 400 Bad Request"@);
    assert("HTTP/1.1 "@ + "405 Method Not Allowed"@ =~= "HTTP/1.1 405 Method Not Allowed"@);
    assert("HTTP/1.1 "@ + "403 Forbidden"@ =~= "HTTP/1.1 403 Forbidden"@);
    assert("HTTP/1.1 "@ + "409 Conflict"@ =~= "HTTP/1.1 409 Conflict"@);
    assert("HTTP/1.1 "@ + "500 Internal Server Error"@ =~= "HTTP/1.1 500 Internal Server Error"@);
    assert("HTTP/1.1 "@ + "413 Payload Too Large"@ =~= "HTTP/1.1 413 Payload Too Large"@);
    assert("HTTP/1.1 "@ + "404 Not Found"@ =~= "HTTP/1.1 404 Not Found"@);
}

/// A request that is neither malformed nor refused is not answered before its route has looked at
/// it; a query is resolved as it came, and a peer that closes is not answered.
pub proof fn other_requests_go_on(to: RoutedView, query: Seq<u8>)
    ensures
        to is Put || to is Doh ==> route_answer(to) is None,
        conn_steps(Some(DohRequestView::Query(query))) == ConnStepView::Resolve(query),
        conn_steps(None) is Close,
{
}

/// Whether the path of a request is the DNS route's, with or without a query behind it.
pub open spec fn is_for_dns(path: Seq<char>, query: Option<Seq<char>>) -> bool {
    match query {
        None => path == "/dns-query"@,
        Some(q) => path == "/dns-query?"@ + q,
    }
}

proof fn the_dns_path_is_known(path: Seq<char>, query: Option<Seq<char>>)
    requires
        is_for_dns(path, query),
    ensures
        path.take(first_index(path, '?')) == "/dns-query"@,
        query_of(path) == query,
{
    reveal_strlit("/dns-query");
    reveal_strlit("/dns-query?");
    first_index_is(path, '?', 10);
    first_index_is_first(path, '?');
    assert(path.take(10) =~= "/dns-query"@);
    if query is Some {
        assert(path[10] == '?');
        assert(path.skip(11) =~= query->0);
    }
}

/// A request by GET to the DNS route is its parameter, decoded, where its head is not too large.
pub proof fn a_get_is_its_parameter(h: RequestView, query: Option<Seq<char>>, head_len: nat)
    requires
        is_for_dns(h.path, query),
        h.method == "GET"@,
    ensures
        doh_start(Some(h), head_len) == DohStartView::Done(
            if head_len > 8192 {
                DohRequestView::TooLarge
            } else {
                get_request(query)
            },
        ),
{
    the_dns_path_is_known(h.path, query);
}

/// A request by POST to the DNS route has as many bytes of body as it declares, where it declares a
/// DNS message and is not too large with it.
pub proof fn a_post_is_its_body(h: RequestView, query: Option<Seq<char>>, head_len: nat)
    requires
        is_for_dns(h.path, query),
        h.method == "POST"@,
    ensures
        doh_start(Some(h), head_len) == (match content_length(h.headers, usize::MAX as nat) {
            None => DohStartView::Done(DohRequestView::BadRequest),
            Some(len) => if head_len + len > 8192 {
                DohStartView::Done(DohRequestView::TooLarge)
            } else if field(h.headers, "content-type"@) is Some && lower_all(
                trimmed(field(h.headers, "content-type"@)->0),
            ) == "application/dns-message"@ {
                DohStartView::Body(len)
            } else {
                DohStartView::Done(DohRequestView::BadRequest)
            },
        }),
{
    the_dns_path_is_known(h.path, query);
    reveal_strlit("POST");
    reveal_strlit("GET");
    assert("POST"@.len() != "GET"@.len());
    reveal_strlit("application/dns-message");
    assert(lower_all("application/dns-message"@) =~= "application/dns-message"@);
}

/// Any other method is refused at the DNS route, and any other path is not found.
pub proof fn other_requests_are_refused(h: RequestView, query: Option<Seq<char>>, head_len: nat)
    requires
        is_for_dns(h.path, query) ==> h.method != "GET"@ && h.method != "POST"@,
    ensures
        is_for_dns(h.path, query) ==> doh_start(Some(h), head_len) == DohStartView::Done(
            DohRequestView::BadRequest,
        ),
        (forall|q: Option<Seq<char>>| !#[trigger] is_for_dns(h.path, q)) ==> doh_start(
            Some(h),
            head_len,
        ) == DohStartView::Done(DohRequestView::NotFound),
        doh_start(None, head_len) == DohStartView::Done(DohRequestView::BadRequest),
{
    if is_for_dns(h.path, query) {
        the_dns_path_is_known(h.path, query);
    }
    if forall|q: Option<Seq<char>>| !#[trigger] is_for_dns(h.path, q) {
        first_index_is_first(h.path, '?');
        let at = first_index(h.path, '?');
        reveal_strlit("/dns-query");
        reveal_strlit("/dns-query?");
        if h.path.take(at) == "/dns-query"@ {
            assert(at == 10) by {
                assert(h.path.take(at).len() == 10);
            }
            if at == h.path.len() {
                assert(h.path =~= h.path.take(at));
                assert(is_for_dns(h.path, None));
            } else {
                let q = h.path.skip(11);
                assert(h.path =~= "/dns-query?"@ + q) by {
                    assert forall|i: int| 0 <= i < 10 implies h.path[i] == "/dns-query?"@[i] by {
                        assert(h.path.take(at)[i] == "/dns-query"@[i]);
                    }
                }
                assert(is_for_dns(h.path, Some(q)));
            }
        }
    }
}

/// The query of a request by GET is what its first parameter called `dns` encodes, where that is
/// not too large.
pub proof fn the_first_dns_parameter_counts(query: Seq<char>, i: int, value: Seq<char>)
    requires
        0 <= i < split(query, '&').len(),
        split(query, '&')[i] == "dns="@ + value,
        forall|j: int|
            0 <= j < i ==> (#[trigger] split(query, '&')[j]).len() < 4 || split(query, '&')[j].take(4)
                != "dns="@,
    ensures
        get_request(Some(query)) == (match decoded(value) {
            None => DohRequestView::BadRequest,
            Some(bytes) => if bytes.len() <= 8192 {
                DohRequestView::Query(bytes)
            } else {
                DohRequestView::TooLarge
            },
        }),
        get_request(None) is BadRequest,
{
    reveal_strlit("dns=");
    let parts = split(query, '&');
    let p = |k: int| after(parts[k], "dns="@) is Some;
    assert(parts[i].take(4) =~= "dns="@);
    assert(parts[i].skip(4) =~= value);
    assert(p(i));
    assert forall|j: int| 0 <= j < i implies !#[trigger] p(j) by {
        assert(parts[j].len() < 4 || parts[j].take(4) != "dns="@);
    }
    first_where_is(p, parts.len() as int, i);
}

/// A query without a parameter called `dns` is refused.
pub proof fn a_query_without_the_parameter_is_refused(query: Seq<char>)
    requires
        forall|j: int|
            0 <= j < split(query, '&').len() ==> (#[trigger] split(query, '&')[j]).len() < 4
                || split(query, '&')[j].take(4) != "dns="@,
    ensures
        get_request(Some(query)) is BadRequest,
{
    reveal_strlit("dns=");
    let parts = split(query, '&');
    let p = |k: int| after(parts[k], "dns="@) is Some;
    assert forall|j: int| 0 <= j < parts.len() implies !#[trigger] p(j) by {
        assert(parts[j].len() < 4 || parts[j].take(4) != "dns="@);
    }
    first_where_none(p, parts.len() as int);
}

/// A peer is answered exactly where a stored peer has its address and the filter accepts its probe,
/// which is to an address of its family that only the internet at large has.
pub proof fn who_is_answered(m: ViewModel, accepts: Option<bool>, src: IpAddr)
    ensures
        m.answers_peer(accepts, src) <==> accepts == Some(true) && m.peers is Some && exists|i: int|
            0 <= i < m.peers->0.entries.len() && (src == IpAddr::V4(
                (#[trigger] m.peers->0.entries[i]).node.ipv4,
            ) || src == IpAddr::V6(m.peers->0.entries[i].node.ipv6)),
        src is V4 ==> off_tailnet(src) == IpAddr::V4(Ipv4Addr { a: 0, b: 0, c: 0, d: 0 }),
        src is V6 ==> off_tailnet(src) == IpAddr::V6(
            Ipv6Addr { bits: 0x2000_0000_0000_0000_0000_0000_0000_0000 },
        ),
{
    if m.peers is Some {
        let db = m.peers->0;
        let key = KeyView::Ip(src);
        let p = |i: int| key.selects(db.entries[i]);
        first_where_is_first(p, db.entries.len() as int);
        if db.has(key) {
            let k = db.index_of(key)->0;
            assert(p(k));
        }
        if exists|i: int|
            0 <= i < db.entries.len() && (src == IpAddr::V4((#[trigger] db.entries[i]).node.ipv4)
                || src == IpAddr::V6(db.entries[i].node.ipv6)) {
            let i = choose|i: int|
                0 <= i < db.entries.len() && (src == IpAddr::V4(
                    (#[trigger] db.entries[i]).node.ipv4,
                ) || src == IpAddr::V6(db.entries[i].node.ipv6));
            listed_is_found(db, key, i);
        }
    }
}

/// What a peer is told is what this node would answer itself. What it would forward is forwarded,
/// to the same resolvers, where this node resolves for its peers, and else refused; a name that
/// exit nodes do not answer for is refused in any case.
pub proof fn a_peer_is_told_what_is_decided(
    m: ViewModel,
    q: QuestionView,
    query: Seq<u8>,
    filtered: bool,
    egress: bool,
    serial: u32,
)
    ensures
        m.server_decision(Some(q), query, filtered, egress, serial) == (if filtered {
            ServerView::Reply(says(Rcode::Refused))
        } else {
            match m.decision(q, query, serial) {
                DecisionView::Reply(r) => ServerView::Reply(r),
                DecisionView::Forward { upstreams, query, servfail, .. } => if egress {
                    ServerView::Forward { upstreams, query, servfail }
                } else {
                    ServerView::Reply(says(Rcode::Refused))
                },
            }
        }),
{
}

/// What is no query is answered with a bare header: the number that it came under, as far as it has
/// one, the response bit and the code for a format error.
pub proof fn what_is_no_query_is_a_format_error(
    m: ViewModel,
    query: Seq<u8>,
    filtered: bool,
    egress: bool,
    serial: u32,
)
    ensures
        match m.server_decision(None, query, filtered, egress, serial) {
            ServerView::Malformed(out) => out.len() == 12 && out[2] == 0x80 && out[3] == 1 && (
            query.len() >= 2 ==> out[0] == query[0] && out[1] == query[1]) && (query.len() < 2
                ==> out[0] == 0 && out[1] == 0) && forall|i: int|
                4 <= i < 12 ==> #[trigger] out[i] == 0,
            _ => false,
        },
{
}

/// An answer of the exit node has the length that its head declares, where its status is success
/// and the length is one that a DNS message may have; each other head is the error that it is.
pub proof fn the_length_of_an_answer(h: ResponseView)
    ensures
        response_length(None) == Err::<nat, DohError>(DohError::Malformed),
        h.code != Some(200u16) ==> response_length(Some(h)) == Err::<nat, DohError>(
            DohError::Status(h.code),
        ),
        h.code == Some(200u16) ==> response_length(Some(h)) == (match content_length(
            h.headers,
            usize::MAX as nat,
        ) {
            None => Err(DohError::MissingLength),
            Some(n) => if n <= 65535 {
                Ok(n)
            } else {
                Err(DohError::BodyTooLarge)
            },
        }),
{
}

/// An answer of the exit node reaches the client whole. Only the truncation bit is set, where the
/// client is reached over UDP and takes no datagram of that size.
pub proof fn answers_of_the_exit_node_are_not_cut(
    query: Seq<u8>,
    resp: Seq<u8>,
    client: ClientTransport,
)
    ensures
        ({
            let out = size_checked(query, resp, client);
            &&& out.len() == resp.len()
            &&& forall|i: int| 0 <= i < out.len() && i != 2 ==> #[trigger] out[i] == resp[i]
            &&& out.len() > 2 ==> out[2] == (if client is Udp && resp.len() > udp_limit(query) {
                resp[2] | 0x02
            } else {
                resp[2]
            })
        }),
{
}

/// What was read off a connection is refused where its head does not end within 16384 bytes, and
/// else goes by its head.
pub proof fn an_endless_head_is_refused(read: Seq<u8>, end: int)
    ensures
        end == 0 && read.len() > 16384 ==> routed_read(read, end) is BadRequest,
        end != 0 || read.len() <= 16384 ==> routed_read(read, end) == routed(
            request_head(read, MAX_HEADER_FIELDS as nat),
        ),
{
}

/// A source is known exactly where a peer or this node has its address.
pub proof fn who_is_known(m: ViewModel, src: IpAddr)
    ensures
        m.knows(src) <==> m.node_by_ip(src) is Some,
{
}

/// A file that was stored is answered with success and an empty object of three bytes.
pub proof fn a_stored_file_is_answered_with_success()
    ensures
        put_answer(PutOutcome::Stored) == encode_utf8(
            "HTTP/1.1 200 OK\r\nContent-Type: application/json\r\nContent-Length: 3\r\nConnection: close\r\n\r\n{}\n"@,
        ),
{
    reveal_strlit("HTTP/1.1 200 OK\r\nContent-Type: ");
    reveal_strlit("application/json");
    reveal_strlit("\r\nContent-Length: ");
    reveal_strlit("\r\nConnection: close\r\n\r\n");
    reveal_strlit("{}\n");
    reveal_strlit(
        "HTTP/1.1 200 OK\r\nContent-Type: application/json\r\nContent-Length: 3\r\nConnection: close\r\n\r\n{}\n",
    );
    a_decimal_is_read(3, 3);
    assert(decimal(3) =~= seq!['3']);
    assert(ok_head_text("application/json"@, 3) + "{}\n"@
        =~= "HTTP/1.1 200 OK\r\nContent-Type: application/json\r\nContent-Length: 3\r\nConnection: close\r\n\r\n{}\n"@);
}

/// The response that carries a DNS message says success, the type of the message and its length,
/// and closes with the message itself.
pub proof fn a_message_is_carried_whole(msg: Seq<u8>)
    ensures
        answer_bytes(msg) == encode_utf8(
            head_text(
                "HTTP/1.1 200 OK"@,
                seq![
                    ("Content-Type"@, "application/dns-message"@),
                    ("Content-Length"@, decimal(msg.len())),
                    ("Connection"@, "close"@),
                ],
            ),
        ) + msg,
{
    let fields = seq![
        ("Content-Type"@, "application/dns-message"@),
        ("Content-Length"@, decimal(msg.len())),
        ("Connection"@, "close"@),
    ];
    let two = fields.drop_last();
    let one = two.drop_last();
    reveal_strlit("HTTP/1.1 200 OK\r\nContent-Type: ");
    reveal_strlit("HTTP/1.1 200 OK");
    reveal_strlit("application/dns-message");
    reveal_strlit("\r\nContent-Length: ");
    reveal_strlit("\r\nConnection: close\r\n\r\n");
    reveal_strlit("Content-Type");
    reveal_strlit("Content-Length");
    reveal_strlit("Connection");
    reveal_strlit("close");
    reveal_strlit("\r\n");
    reveal_strlit(": ");
    assert(one.drop_last() =~= Seq::<(Seq<char>, Seq<char>)>::empty());
    assert(lines_of(one.drop_last()) =~= Seq::<char>::empty());
    assert(lines_of(one) =~= "Content-Type"@ + ": "@ + "application/dns-message"@ + "\r\n"@);
    assert(lines_of(two) =~= lines_of(one) + "Content-Length"@ + ": "@ + decimal(msg.len())
        + "\r\n"@);
    assert(lines_of(fields) =~= lines_of(two) + "Connection"@ + ": "@ + "close"@ + "\r\n"@);
    assert(ok_head_text("application/dns-message"@, msg.len()) =~= head_text(
        "HTTP/1.1 200 OK"@,
        fields,
    ));
}

/// The body of an answer is whole once as many bytes are there as its head declares, and is then
/// exactly those; more than a DNS message may hold is an error, and so is a head of that size.
pub proof fn an_answer_is_read_to_its_length(
    body: Seq<u8>,
    chunk: Seq<u8>,
    len: nat,
    length: Result<nat, DohError>,
)
    ensures
        ({
            let all = body + chunk;
            &&& all.len() > 65535 ==> ReaderView::Body(body, len).fed(chunk)
                == ReadStepView::Failed(DohError::BodyTooLarge)
            &&& len <= all.len() <= 65535 ==> ReaderView::Body(body, len).fed(chunk)
                == ReadStepView::Done(all.take(len as int))
            &&& all.len() < len && all.len() <= 65535 ==> ReaderView::Body(body, len).fed(chunk)
                == ReadStepView::More(ReaderView::Body(all, len))
            &&& head_end(all) is None ==> head_step(all, length) == (if all.len() > 65535 {
                ReadStepView::Failed(DohError::HeadTooLarge)
            } else {
                ReadStepView::More(ReaderView::Head(all))
            })
            &&& head_end(all) is Some && length is Err ==> head_step(all, length)
                == ReadStepView::Failed(length->Err_0)
            &&& head_end(all) is Some && length is Ok ==> ({
                let rest = all.skip(head_end(all)->0);
                head_step(all, length) == (if rest.len() >= length->Ok_0 {
                    ReadStepView::Done(rest.take(length->Ok_0 as int))
                } else {
                    ReadStepView::More(ReaderView::Body(rest, length->Ok_0))
                })
            })
        }),
{
}

/// The head of what is read ends behind the first empty line, and not before there is one.
pub proof fn heads_end_behind_the_first_empty_line(buf: Seq<u8>, i: int)
    ensures
        0 <= i <= buf.len() - 4 && is_empty_line(buf, i) && (forall|j: int|
            0 <= j < i ==> !#[trigger] is_empty_line(buf, j)) ==> head_end(buf) == Some(i + 4),
        (forall|j: int| 0 <= j <= buf.len() - 4 ==> !#[trigger] is_empty_line(buf, j)) ==> head_end(
            buf,
        ) is None,
{
    let p = |k: int| blank_line_at(buf, k);
    assert forall|j: int| 0 <= j <= buf.len() - 4 implies #[trigger] is_empty_line(buf, j)
        == blank_line_at(buf, j) by {
        let line = buf.subrange(j, j + 4);
        if blank_line_at(buf, j) {
            assert(line =~= seq![13u8, 10, 13, 10]);
        }
        if is_empty_line(buf, j) {
            assert(line[0] == 13 && line[1] == 10 && line[2] == 13 && line[3] == 10);
        }
    }
    if 0 <= i <= buf.len() - 4 && is_empty_line(buf, i) && (forall|j: int|
        0 <= j < i ==> !#[trigger] is_empty_line(buf, j)) {
        assert(p(i));
        assert forall|j: int| 0 <= j < i implies !#[trigger] p(j) by {
            assert(!is_empty_line(buf, j));
        }
        first_where_is(p, buf.len() - 3, i);
    }
    if forall|j: int| 0 <= j <= buf.len() - 4 ==> !#[trigger] is_empty_line(buf, j) {
        assert forall|j: int| 0 <= j < buf.len() - 3 implies !#[trigger] p(j) by {
            assert(!is_empty_line(buf, j));
        }
        first_where_none(p, buf.len() - 3);
    }
}

/// Whether a carriage return, a line feed and the two again stand in `buf` at `i`.
pub open spec fn is_empty_line(buf: Seq<u8>, i: int) -> bool {
    buf.subrange(i, i + 4) == seq![13u8, 10, 13, 10]
}

} // verus!
