//! Which upstream answer a forwarded query ends with.
//!
//! Asking a resolver is I/O and happens elsewhere. What came back is handed in here, one upstream
//! at a time, and the walk says whether it ends the forward.

use vstd::prelude::*;

use crate::addr::SocketAddr;
use crate::dns_message::{
    answers, cap_response, capped, did_not_fit, did_not_fit_the_datagram, is_soft_error,
    response_matches_query, soft_error, ClientTransport, UpstreamTransport,
};
use crate::search::{first_where, first_where_is_first, first_where_stays};

verus! {

/// Whether a truncated upstream answer may be asked for again over TCP.
#[derive(Clone, Copy, Debug, PartialEq, Eq, Structural)]
pub enum TcpRetry {
    /// Ask the same resolver again over TCP. The default.
    Enabled,
    /// Relay the truncated answer as it came.
    Disabled,
}

/// One upstream's answer: the bytes, where they came from, and the hop that carried them.
#[derive(Debug)]
pub struct UpstreamAnswer {
    /// Where the answer came from, unchecked.
    pub from: SocketAddr,
    /// The response, verbatim.
    pub resp: Vec<u8>,
    /// The hop that carried it.
    pub via: UpstreamTransport,
}

/// The model of an [`UpstreamAnswer`].
pub struct AnswerView {
    pub from: SocketAddr,
    pub resp: Seq<u8>,
    pub via: UpstreamTransport,
}

impl View for UpstreamAnswer {
    type V = AnswerView;

    open spec fn view(&self) -> AnswerView {
        AnswerView { from: self.from, resp: self.resp@, via: self.via }
    }
}

/// The model of what one upstream gave, if it gave anything.
pub open spec fn given(answer: Option<UpstreamAnswer>) -> Option<AnswerView> {
    match answer {
        Some(a) => Some(a@),
        None => None,
    }
}

fn copy_of(answer: &UpstreamAnswer) -> (r: UpstreamAnswer)
    ensures
        r@ == answer@,
{
    UpstreamAnswer { from: answer.from, resp: answer.resp.clone(), via: answer.via }
}

/// Whether `answer` came from the resolver that was asked and answers the question that was asked.
pub open spec fn accepted(
    upstream: SocketAddr,
    query: Seq<u8>,
    answer: Option<AnswerView>,
) -> bool {
    match answer {
        Some(a) => a.from.ip == upstream.ip && answers(query, a.resp),
        None => false,
    }
}

/// An accepted answer that ends the walk.
pub open spec fn decisive(
    upstream: SocketAddr,
    query: Seq<u8>,
    answer: Option<AnswerView>,
) -> bool {
    accepted(upstream, query, answer) && !soft_error(answer->0.resp)
}

/// An accepted answer that only says that the resolver could not do it.
pub open spec fn refused(upstream: SocketAddr, query: Seq<u8>, answer: Option<AnswerView>) -> bool {
    accepted(upstream, query, answer) && soft_error(answer->0.resp)
}

/// What upstream `i` gave, where `given` lists what each gave in turn.
pub open spec fn given_at(given: Seq<Option<AnswerView>>, i: int) -> Option<AnswerView> {
    if 0 <= i < given.len() {
        given[i]
    } else {
        None
    }
}

/// The index of the first upstream whose answer ends the walk.
pub open spec fn first_decisive(
    upstreams: Seq<SocketAddr>,
    query: Seq<u8>,
    given: Seq<Option<AnswerView>>,
) -> Option<int> {
    first_where(
        |i: int| decisive(upstreams[i], query, given_at(given, i)),
        upstreams.len() as int,
    )
}

/// The index of the first upstream that refused.
pub open spec fn first_refusal(
    upstreams: Seq<SocketAddr>,
    query: Seq<u8>,
    given: Seq<Option<AnswerView>>,
) -> Option<int> {
    first_where(
        |i: int| refused(upstreams[i], query, given_at(given, i)),
        upstreams.len() as int,
    )
}

/// An answer as the client gets it.
pub open spec fn relayed(query: Seq<u8>, client: ClientTransport, answer: AnswerView) -> Seq<u8> {
    capped(query, answer.resp, client, answer.via)
}

/// What the client gets of a walk over `upstreams`: the first decisive answer; failing that the
/// first refusal; failing that `fallback`.
pub open spec fn walked(
    upstreams: Seq<SocketAddr>,
    query: Seq<u8>,
    fallback: Seq<u8>,
    client: ClientTransport,
    given: Seq<Option<AnswerView>>,
) -> Seq<u8> {
    match first_decisive(upstreams, query, given) {
        Some(i) => relayed(query, client, given_at(given, i)->0),
        None => match first_refusal(upstreams, query, given) {
            Some(i) => relayed(query, client, given_at(given, i)->0),
            None => fallback,
        },
    }
}

/// A forward in progress: the upstreams asked so far gave nothing that ends it.
pub struct ForwardWalk {
    query: Vec<u8>,
    client: ClientTransport,
    /// The first REFUSED or SERVFAIL, held while the walk goes on.
    first_soft_error: Option<UpstreamAnswer>,
}

impl ForwardWalk {
    /// The query that is being forwarded.
    pub closed spec fn query(&self) -> Seq<u8> {
        self.query@
    }

    /// The transport of the client that waits for the answer.
    pub closed spec fn client(&self) -> ClientTransport {
        self.client
    }

    /// The refusal that is held back.
    pub closed spec fn held(&self) -> Option<AnswerView> {
        given(self.first_soft_error)
    }

    /// Starts a walk.
    pub fn new(query: &[u8], client: ClientTransport) -> (r: Self)
        ensures
            r.query() == query@,
            r.client() == client,
            r.held() is None,
    {
        let mut copy: Vec<u8> = Vec::new();
        copy.extend_from_slice(query);
        assert(copy@ =~= query@);
        ForwardWalk { query: copy, client, first_soft_error: None }
    }

    /// Takes what `upstream` gave. `Some` is the response for the client, and no further upstream
    /// is to be asked; `None` asks for the next one.
    ///
    /// An answer from elsewhere, or to another question, is dropped before anything else is looked
    /// at, so an injected refusal cannot be the one that is held.
    pub fn offer(&mut self, upstream: SocketAddr, answer: Option<UpstreamAnswer>) -> (r: Option<
        Vec<u8>,
    >)
        ensures
            final(self).query() == old(self).query(),
            final(self).client() == old(self).client(),
            match r {
                Some(resp) => decisive(upstream, old(self).query(), given(answer)) && resp@
                    == relayed(old(self).query(), old(self).client(), given(answer)->0),
                None => !decisive(upstream, old(self).query(), given(answer)),
            },
            final(self).held() == (if refused(upstream, old(self).query(), given(answer)) && old(
                self,
            ).held() is None {
                given(answer)
            } else {
                old(self).held()
            }),
    {
        let answer = match answer {
            Some(a) => a,
            None => {
                return None;
            },
        };
        if answer.from.ip != upstream.ip || !response_matches_query(&self.query, &answer.resp) {
            return None;
        }
        if is_soft_error(&answer.resp) {
            if self.first_soft_error.is_none() {
                self.first_soft_error = Some(answer);
            }
            return None;
        }
        Some(cap_response(&self.query, answer.resp, self.client, answer.via))
    }

    /// Ends a walk in which no upstream gave a decisive answer: a refusal is relayed in its
    /// resolver's own words, and `fallback` only where nobody said anything.
    pub fn finish(self, fallback: Vec<u8>) -> (r: Vec<u8>)
        ensures
            r@ == (match self.held() {
                Some(answer) => relayed(self.query(), self.client(), answer),
                None => fallback@,
            }),
    {
        match self.first_soft_error {
            Some(answer) => cap_response(&self.query, answer.resp, self.client, answer.via),
            None => fallback,
        }
    }
}

/// The models of a list of what was given.
pub open spec fn all_given(given_list: Seq<Option<UpstreamAnswer>>) -> Seq<Option<AnswerView>> {
    given_list.map_values(|a: Option<UpstreamAnswer>| given(a))
}

/// Walks `upstreams` in order over what each of them gave, and returns what the client gets.
///
/// An upstream beyond the end of `given_list` gave nothing.
pub fn forward_walk(
    upstreams: &[SocketAddr],
    query: &[u8],
    fallback: Vec<u8>,
    client: ClientTransport,
    given_list: &[Option<UpstreamAnswer>],
) -> (r: Vec<u8>)
    ensures
        r@ == walked(upstreams@, query@, fallback@, client, all_given(given_list@)),
{
    let mut walk = ForwardWalk::new(query, client);
    let ghost g = all_given(given_list@);
    let ghost hard = |i: int| decisive(upstreams@[i], query@, given_at(g, i));
    let ghost soft = |i: int| refused(upstreams@[i], query@, given_at(g, i));
    let mut i: usize = 0;
    while i < upstreams.len()
        invariant
            i <= upstreams@.len(),
            g == all_given(given_list@),
            hard == (|i: int| decisive(upstreams@[i], query@, given_at(g, i))),
            soft == (|i: int| refused(upstreams@[i], query@, given_at(g, i))),
            walk.query() == query@,
            walk.client() == client,
            first_where(hard, i as int) is None,
            walk.held() == (match first_where(soft, i as int) {
                Some(k) => given_at(g, k),
                None => None,
            }),
        decreases upstreams@.len() - i,
    {
        proof {
            first_where_is_first(soft, i as int);
        }
        let answer = if i < given_list.len() {
            match &given_list[i] {
                Some(a) => Some(copy_of(a)),
                None => None,
            }
        } else {
            None
        };
        assert(given(answer) == given_at(g, i as int));
        assert(hard(i as int) == decisive(upstreams@[i as int], query@, given(answer)));
        assert(soft(i as int) == refused(upstreams@[i as int], query@, given(answer)));
        match walk.offer(upstreams[i], answer) {
            Some(resp) => {
                proof {
                    assert(first_where(hard, i + 1) == Some(i as int));
                    first_where_stays(hard, i + 1, upstreams@.len() as int);
                }
                return resp;
            },
            None => {},
        }
        i = i + 1;
    }
    proof {
        first_where_is_first(soft, upstreams@.len() as int);
    }
    walk.finish(fallback)
}

/// A refusal never beats an answer: where any upstream gave a decisive answer, the client gets the
/// first of those, whatever refusals came before or after it.
pub proof fn an_answer_beats_every_refusal(
    upstreams: Seq<SocketAddr>,
    query: Seq<u8>,
    fallback: Seq<u8>,
    client: ClientTransport,
    given: Seq<Option<AnswerView>>,
    i: int,
)
    requires
        0 <= i < upstreams.len(),
        decisive(upstreams[i], query, given_at(given, i)),
        forall|j: int|
            0 <= j < i ==> !decisive(upstreams[j], query, #[trigger] given_at(given, j)),
    ensures
        walked(upstreams, query, fallback, client, given) == relayed(
            query,
            client,
            given_at(given, i)->0,
        ),
{
    let hard = |k: int| decisive(upstreams[k], query, given_at(given, k));
    first_where_is_first(hard, upstreams.len() as int);
    assert(hard(i));
    let k = first_where(hard, upstreams.len() as int)->0;
    if k < i {
        assert(!decisive(upstreams[k], query, given_at(given, k)));
    }
}

/// Where nobody gave a decisive answer, the client gets the first refusal, ahead of the fallback.
pub proof fn the_first_refusal_is_relayed(
    upstreams: Seq<SocketAddr>,
    query: Seq<u8>,
    fallback: Seq<u8>,
    client: ClientTransport,
    given: Seq<Option<AnswerView>>,
    i: int,
)
    requires
        0 <= i < upstreams.len(),
        refused(upstreams[i], query, given_at(given, i)),
        forall|j: int|
            0 <= j < i ==> !refused(upstreams[j], query, #[trigger] given_at(given, j)),
        forall|j: int|
            0 <= j < upstreams.len() ==> !decisive(
                upstreams[j],
                query,
                #[trigger] given_at(given, j),
            ),
    ensures
        walked(upstreams, query, fallback, client, given) == relayed(
            query,
            client,
            given_at(given, i)->0,
        ),
{
    let hard = |k: int| decisive(upstreams[k], query, given_at(given, k));
    let soft = |k: int| refused(upstreams[k], query, given_at(given, k));
    first_where_is_first(hard, upstreams.len() as int);
    first_where_is_first(soft, upstreams.len() as int);
    assert(soft(i));
    let k = first_where(soft, upstreams.len() as int)->0;
    if k < i {
        assert(!refused(upstreams[k], query, given_at(given, k)));
    }
    if first_where(hard, upstreams.len() as int) is Some {
        let h = first_where(hard, upstreams.len() as int)->0;
        assert(!decisive(upstreams[h], query, given_at(given, h)));
    }
}

/// Whatever the client gets is the fallback or an accepted answer: a datagram from elsewhere, or
/// one that answers another question, is never relayed.
pub proof fn only_accepted_answers_are_relayed(
    upstreams: Seq<SocketAddr>,
    query: Seq<u8>,
    fallback: Seq<u8>,
    client: ClientTransport,
    given: Seq<Option<AnswerView>>,
)
    ensures
        walked(upstreams, query, fallback, client, given) == fallback || exists|i: int|
            0 <= i < upstreams.len() && accepted(
                upstreams[i],
                query,
                #[trigger] given_at(given, i),
            ) && walked(upstreams, query, fallback, client, given) == relayed(
                query,
                client,
                given_at(given, i)->0,
            ),
{
    let hard = |k: int| decisive(upstreams[k], query, given_at(given, k));
    let soft = |k: int| refused(upstreams[k], query, given_at(given, k));
    first_where_is_first(hard, upstreams.len() as int);
    first_where_is_first(soft, upstreams.len() as int);
    match first_where(hard, upstreams.len() as int) {
        Some(i) => {
            assert(accepted(upstreams[i], query, given_at(given, i)));
        },
        None => match first_where(soft, upstreams.len() as int) {
            Some(i) => {
                assert(accepted(upstreams[i], query, given_at(given, i)));
            },
            None => {},
        },
    }
}

/// The upstreams after the first decisive answer do not matter, so they need not be asked.
pub proof fn later_upstreams_do_not_matter(
    upstreams: Seq<SocketAddr>,
    query: Seq<u8>,
    fallback: Seq<u8>,
    client: ClientTransport,
    given: Seq<Option<AnswerView>>,
    other: Seq<Option<AnswerView>>,
    i: int,
)
    requires
        0 <= i < upstreams.len(),
        decisive(upstreams[i], query, given_at(given, i)),
        forall|j: int| 0 <= j <= i ==> #[trigger] given_at(given, j) == given_at(other, j),
    ensures
        walked(upstreams, query, fallback, client, given) == walked(
            upstreams,
            query,
            fallback,
            client,
            other,
        ),
{
    let n = upstreams.len() as int;
    let p = |k: int| decisive(upstreams[k], query, given_at(given, k));
    let q = |k: int| decisive(upstreams[k], query, given_at(other, k));
    first_where_is_first(p, n);
    first_where_is_first(q, n);
    assert(p(i));
    assert(given_at(given, i) == given_at(other, i));
    assert(q(i));
    let a = first_where(p, n)->0;
    let b = first_where(q, n)->0;
    if a > i {
        assert(!p(i));
    }
    if b > i {
        assert(!q(i));
    }
    assert(given_at(given, a) == given_at(other, a));
    assert(given_at(given, b) == given_at(other, b));
    if a < b {
        assert(!q(a));
    }
    if b < a {
        assert(!p(b));
    }
}

/// Whether the answer that `upstream` gave over UDP is worth a second question over TCP.
pub open spec fn retry_wanted(
    upstream: SocketAddr,
    query: Seq<u8>,
    retry: TcpRetry,
    from: SocketAddr,
    resp: Seq<u8>,
) -> bool {
    retry is Enabled && did_not_fit(resp) && from.ip == upstream.ip && answers(query, resp)
}

/// Whether the UDP answer `resp` from `from` is to be asked for again over TCP, of the same
/// resolver.
///
/// An answer that fits is never asked for again, and neither is one that the walk would drop: a
/// sender that cannot match the question cannot make this node open a connection.
pub fn wants_tcp_retry(
    upstream: SocketAddr,
    query: &[u8],
    retry: TcpRetry,
    from: SocketAddr,
    resp: &[u8],
) -> (r: bool)
    ensures
        r == retry_wanted(upstream, query@, retry, from, resp@),
{
    retry == TcpRetry::Enabled && did_not_fit_the_datagram(resp) && from.ip == upstream.ip
        && response_matches_query(query, resp)
}

/// What `upstream` gave after the UDP hop gave `udp` and the TCP hop, where it was made, `tcp`.
pub open spec fn asked(
    upstream: SocketAddr,
    query: Seq<u8>,
    retry: TcpRetry,
    udp: Option<(SocketAddr, Seq<u8>)>,
    tcp: Option<Seq<u8>>,
) -> Option<AnswerView> {
    match udp {
        None => None,
        Some((from, resp)) => if retry_wanted(upstream, query, retry, from, resp) && tcp is Some {
            Some(AnswerView { from: upstream, resp: tcp->0, via: UpstreamTransport::Tcp })
        } else {
            Some(AnswerView { from, resp, via: UpstreamTransport::Udp })
        },
    }
}

/// Puts the two hops to one upstream together.
///
/// `udp` is the datagram that came back and its source; `tcp` is the message of the TCP hop, which
/// is made where [`wants_tcp_retry`] says so, and `None` where it was not made or failed. A failed
/// retry leaves the truncated UDP answer: it is still an answer. A TCP answer comes from the
/// resolver that was connected to, so its source is `upstream` itself.
pub fn ask_with_tcp_retry(
    upstream: SocketAddr,
    query: &[u8],
    retry: TcpRetry,
    udp: Option<(SocketAddr, Vec<u8>)>,
    tcp: Option<Vec<u8>>,
) -> (r: Option<UpstreamAnswer>)
    ensures
        given(r) == asked(
            upstream,
            query@,
            retry,
            match udp {
                Some((from, resp)) => Some((from, resp@)),
                None => None,
            },
            match tcp {
                Some(resp) => Some(resp@),
                None => None,
            },
        ),
{
    let (from, resp) = match udp {
        Some((from, resp)) => (from, resp),
        None => {
            return None;
        },
    };
    if wants_tcp_retry(upstream, query, retry, from, &resp) {
        match tcp {
            Some(body) => {
                return Some(
                    UpstreamAnswer { from: upstream, resp: body, via: UpstreamTransport::Tcp },
                );
            },
            None => {},
        }
    }
    Some(UpstreamAnswer { from, resp, via: UpstreamTransport::Udp })
}

/// What the TCP hop gives matters only where a retry was wanted; where it gives nothing, the UDP
/// answer stands.
pub proof fn the_udp_answer_stands_without_a_retry(
    upstream: SocketAddr,
    query: Seq<u8>,
    retry: TcpRetry,
    from: SocketAddr,
    resp: Seq<u8>,
    tcp: Option<Seq<u8>>,
)
    ensures
        retry is Disabled || !did_not_fit(resp) || tcp is None ==> asked(
            upstream,
            query,
            retry,
            Some((from, resp)),
            tcp,
        ) == Some(AnswerView { from, resp, via: UpstreamTransport::Udp }),
        asked(upstream, query, retry, Some((from, resp)), tcp) is Some,
{
}

} // verus!
