//! What is relayed of upstream answers, said of the bytes of the messages.

use vstd::prelude::*;

use crate::addr::SocketAddr;
use crate::dns_message::{
    answers, capped, did_not_fit, name_end, question_bytes, question_end, rcode_of, soft_error,
    udp_limit, ClientTransport, UpstreamTransport,
};
use crate::forward::{
    accepted, asked, decisive, given_at, refused, walked, AnswerView, TcpRetry,
};
use crate::search::first_where_none;

verus! {

/// A domain name as it stands in a message: each label behind its length, and a zero.
pub open spec fn wire_name(labels: Seq<Seq<u8>>) -> Seq<u8>
    decreases labels.len(),
{
    if labels.len() == 0 {
        seq![0u8]
    } else {
        seq![labels[0].len() as u8] + labels[0] + wire_name(labels.drop_first())
    }
}

/// Whether each label is of a length that a message can hold.
pub open spec fn are_labels(labels: Seq<Seq<u8>>) -> bool {
    forall|i: int| 0 <= i < labels.len() ==> 1 <= (#[trigger] labels[i]).len() <= 63
}

proof fn the_name_ends(msg: Seq<u8>, off: int, labels: Seq<Seq<u8>>)
    requires
        are_labels(labels),
        0 <= off,
        off + wire_name(labels).len() <= msg.len(),
        msg.subrange(off, off + wire_name(labels).len()) == wire_name(labels),
    ensures
        name_end(msg, off) == Some(off + wire_name(labels).len()),
    decreases labels.len(),
{
    let wire = wire_name(labels);
    let here = msg.subrange(off, off + wire.len());
    assert(here[0] == msg[off]);
    if labels.len() > 0 {
        let n = labels[0].len();
        let rest = labels.drop_first();
        let tail = wire_name(rest);
        assert(are_labels(rest)) by {
            assert forall|i: int| 0 <= i < rest.len() implies 1 <= (#[trigger] rest[i]).len()
                <= 63 by {
                assert(rest[i] == labels[i + 1]);
            }
        }
        assert(msg[off] == n as u8);
        assert(wire.len() == 1 + n + tail.len());
        let next = off + 1 + n;
        assert(msg.subrange(next, next + tail.len()) =~= tail) by {
            assert forall|k: int| 0 <= k < tail.len() implies msg[next + k] == tail[k] by {
                assert(here[1 + n + k] == wire[1 + n + k]);
                assert(wire[1 + n + k] == tail[k]);
            }
        }
        the_name_ends(msg, next, rest);
    }
}

/// Whether the first question of `msg` is `question`: right behind a header of twelve bytes.
pub open spec fn asks(msg: Seq<u8>, question: Seq<u8>) -> bool {
    12 + question.len() <= msg.len() && msg.subrange(12, 12 + question.len() as int) == question
}

proof fn the_question_is_read(msg: Seq<u8>, labels: Seq<Seq<u8>>, kind: Seq<u8>)
    requires
        are_labels(labels),
        kind.len() == 4,
        asks(msg, wire_name(labels) + kind),
    ensures
        question_bytes(msg) == Some(wire_name(labels) + kind),
{
    let wire = wire_name(labels);
    let question = wire + kind;
    let here = msg.subrange(12, 12 + question.len() as int);
    assert(msg.subrange(12, 12 + wire.len() as int) =~= wire) by {
        assert forall|k: int| 0 <= k < wire.len() implies msg[12 + k] == wire[k] by {
            assert(here[k] == question[k]);
        }
    }
    the_name_ends(msg, 12, labels);
}

/// A response to a question is one that has the query's number, the response bit, and the question
/// word for word.
pub proof fn a_response_to_the_question_is_matched(
    query: Seq<u8>,
    resp: Seq<u8>,
    labels: Seq<Seq<u8>>,
    kind: Seq<u8>,
)
    requires
        are_labels(labels),
        kind.len() == 4,
        asks(query, wire_name(labels) + kind),
        asks(resp, wire_name(labels) + kind),
    ensures
        answers(query, resp) <==> query[0] == resp[0] && query[1] == resp[1] && resp[2] & 0x80 != 0,
{
    the_question_is_read(query, labels, kind);
    the_question_is_read(resp, labels, kind);
    let b = resp[2];
    assert((b & 0x80 != 0) == (b >= 128)) by (bit_vector);
}

proof fn names_end_inside(msg: Seq<u8>, off: int)
    ensures
        match name_end(msg, off) {
            Some(end) => 0 <= off < end <= msg.len(),
            None => true,
        },
    decreases msg.len() - off,
{
    if 0 <= off < msg.len() && 0 < msg[off] < 64 && off + 1 + msg[off] <= msg.len() {
        names_end_inside(msg, off + 1 + msg[off]);
    }
}

/// Whatever counts as a response has the query's number and the response bit, and repeats the bytes
/// of the query from the header to the end of a question.
pub proof fn a_matched_response_repeats_the_question(query: Seq<u8>, resp: Seq<u8>)
    requires
        answers(query, resp),
    ensures
        query[0] == resp[0],
        query[1] == resp[1],
        resp[2] & 0x80 != 0,
        exists|end: int|
            17 <= end <= query.len() && end <= resp.len() && #[trigger] query.subrange(12, end)
                == resp.subrange(12, end),
{
    let b = resp[2];
    assert((b & 0x80 != 0) == (b >= 128)) by (bit_vector);
    names_end_inside(query, 12);
    names_end_inside(resp, 12);
    let end = question_end(query)->0;
    assert(query.subrange(12, end).len() == resp.subrange(12, question_end(resp)->0).len());
    assert(query.subrange(12, end) == resp.subrange(12, end));
}

/// A refusal says SERVFAIL or REFUSED in the low half of its fourth byte.
pub proof fn refusals_say_so(msg: Seq<u8>)
    ensures
        soft_error(msg) <==> msg.len() >= 12 && (msg[3] & 0x0F == 2 || msg[3] & 0x0F == 5),
        rcode_of(msg) is Some <==> msg.len() >= 12,
        msg.len() >= 12 ==> rcode_of(msg) == Some(msg[3] & 0x0F),
{
    if msg.len() >= 12 {
        let b = msg[3];
        assert(b & 0x0F == b % 16) by (bit_vector);
    }
}

/// An answer is taken where it comes from the address that was asked and answers the question; it
/// ends the walk unless it is a refusal.
pub proof fn answers_are_taken_from_whom_was_asked(
    upstream: SocketAddr,
    query: Seq<u8>,
    answer: AnswerView,
)
    ensures
        accepted(upstream, query, Some(answer)) <==> answer.from.ip == upstream.ip && answers(
            query,
            answer.resp,
        ),
        decisive(upstream, query, Some(answer)) <==> answer.from.ip == upstream.ip && answers(
            query,
            answer.resp,
        ) && answer.resp[3] & 0x0F != 2 && answer.resp[3] & 0x0F != 5,
        refused(upstream, query, Some(answer)) <==> answer.from.ip == upstream.ip && answers(
            query,
            answer.resp,
        ) && (answer.resp[3] & 0x0F == 2 || answer.resp[3] & 0x0F == 5),
        !accepted(upstream, query, None),
        !decisive(upstream, query, None),
        !refused(upstream, query, None),
{
    refusals_say_so(answer.resp);
}

/// Where no upstream gave an answer to take, the client gets the fallback.
pub proof fn silence_gives_the_fallback(
    upstreams: Seq<SocketAddr>,
    query: Seq<u8>,
    fallback: Seq<u8>,
    client: ClientTransport,
    given: Seq<Option<AnswerView>>,
)
    requires
        forall|i: int|
            0 <= i < upstreams.len() && i < given.len() && (#[trigger] given[i]) is Some ==> !(
            given[i]->0.from.ip == upstreams[i].ip && answers(query, given[i]->0.resp)),
    ensures
        walked(upstreams, query, fallback, client, given) == fallback,
{
    let hard = |k: int| decisive(upstreams[k], query, given_at(given, k));
    let soft = |k: int| refused(upstreams[k], query, given_at(given, k));
    assert forall|k: int| 0 <= k < upstreams.len() implies !#[trigger] hard(k)
        && !#[trigger] soft(k) by {
        if k < given.len() && given[k] is Some {
            assert(!accepted(upstreams[k], query, given[k]));
        }
    }
    first_where_none(hard, upstreams.len() as int);
    first_where_none(soft, upstreams.len() as int);
}

/// The largest datagram that the sender of `query` takes is what the query's last eleven bytes say
/// where they are an OPT record without options, of version 0, and the query counts an additional
/// record; and else it is 512 bytes.
pub proof fn the_advertised_size_is_read(query: Seq<u8>)
    ensures
        ({
            let n = query.len();
            udp_limit(query) == (if n >= 23 && (query[10] != 0 || query[11] != 0) && query[n - 11]
                == 0 && query[n - 10] == 0 && query[n - 9] == 41 && query[n - 5] == 0 && query[n
                - 2] == 0 && query[n - 1] == 0 {
                query[n - 8] * 256 + query[n - 7]
            } else {
                512
            })
        }),
{
}

/// An answer keeps its bytes on the way to the client. Only one that crosses a datagram is cut, to
/// 4095 bytes. The truncation bit alone changes: it is set where it was set, where the answer was
/// cut, and where a UDP client takes no datagram of that size.
pub proof fn answers_keep_their_bytes(
    query: Seq<u8>,
    resp: Seq<u8>,
    client: ClientTransport,
    via: UpstreamTransport,
)
    ensures
        ({
            let out = capped(query, resp, client, via);
            let cut = (client is Udp || via is Udp) && resp.len() > 4095;
            &&& out.len() == (if cut {
                4095
            } else {
                resp.len() as int
            })
            &&& forall|i: int| 0 <= i < out.len() && i != 2 ==> #[trigger] out[i] == resp[i]
            &&& out.len() > 2 ==> out[2] == (if cut || (client is Udp && out.len() > udp_limit(
                query,
            )) {
                resp[2] | 0x02
            } else {
                resp[2]
            })
        }),
{
    let b = resp[2];
    assert((b | 0x02) | 0x02 == b | 0x02) by (bit_vector);
    if resp.len() > 4095 {
        let short = resp.take(4095);
        assert(short[2] == resp[2]);
    }
}

/// An answer is worth a second question over TCP where its resolver marked it as cut, or it is
/// longer than is relayed of one.
pub proof fn cut_answers_say_so(msg: Seq<u8>)
    ensures
        did_not_fit(msg) <==> msg.len() > 4095 || (msg.len() >= 12 && msg[2] & 0x02 != 0),
{
}

/// What a resolver gave is its TCP answer where the UDP answer was one to take, was cut, a second
/// question is allowed and got an answer; and else the UDP answer as it came. Without a UDP answer
/// it gave nothing.
pub proof fn a_cut_answer_is_asked_for_again(
    upstream: SocketAddr,
    query: Seq<u8>,
    retry: TcpRetry,
    from: SocketAddr,
    resp: Seq<u8>,
    tcp: Option<Seq<u8>>,
)
    ensures
        asked(upstream, query, retry, None, tcp) is None,
        asked(upstream, query, retry, Some((from, resp)), tcp) == Some(
            if retry == TcpRetry::Enabled && tcp is Some && from.ip == upstream.ip && answers(
                query,
                resp,
            ) && (resp.len() > 4095 || resp[2] & 0x02 != 0) {
                AnswerView { from: upstream, resp: tcp->0, via: UpstreamTransport::Tcp }
            } else {
                AnswerView { from, resp, via: UpstreamTransport::Udp }
            },
        ),
{
}

} // verus!
