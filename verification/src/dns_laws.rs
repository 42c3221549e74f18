//! What the MagicDNS responder owes, said of its configuration and of its replies.
//!
//! Each statement here goes from the lists that control pushed, index by index, to the decision on
//! a question, and leaves aside how the responder arrives at it.

use vstd::prelude::*;

use crate::addr::{IpAddr, Ipv4Addr, Ipv6Addr, SocketAddr};
use crate::decimal::decimal;
use crate::dns_names::{qualified, under};
use crate::forward::TcpRetry;
use crate::magic_dns::{
    best_route, bounded, consulted, empty_config, labels_of, longest_zone, negative_suffixes,
    nonempty, parent, the_longest_zone_is_named, type_of, v4_only, DecisionView, DnsReplyView,
    PlanView, QType, QuestionView, RDataView, Rcode, RouteView, RoutedTo, ServeView, ViewModel,
};
use crate::node::{canonical, NodeView};
use crate::peer_db::KeyView;
use crate::search::{first_where_is, first_where_is_first, first_where_none};
use crate::text::{
    first_index, first_index_is_first, join, pieces_hold_no_separator, split, split_then_join,
};

verus! {

/// The IPv4 addresses among `v`, as often as they are listed and in their order.
pub open spec fn ipv4_among(v: Seq<SocketAddr>) -> Seq<SocketAddr> {
    v.filter(|a: SocketAddr| a.ip is V4)
}

proof fn narrowing_is_filtering(v: Seq<SocketAddr>)
    ensures
        v4_only(v) == ipv4_among(v),
    decreases v.len(),
{
    reveal(Seq::filter);
    if v.len() > 0 {
        narrowing_is_filtering(v.drop_last());
    }
}

/// Whether the question's name is neither the tailnet's own nor a reverse name of what may be a
/// tailnet address.
pub open spec fn is_foreign(m: ViewModel, q: QuestionView) -> bool {
    &&& forall|i: int|
        0 <= i < m.cfg.search_domains.len() ==> !under(q.canon, #[trigger] m.cfg.search_domains[i])
    &&& !under(q.canon, "ip6.arpa"@)
    &&& match q.ptr_v4 {
        Some(ip) => !(ip.a == 100 && 64 <= ip.b <= 127),
        None => true,
    }
}

/// Whether nothing here answers the question.
pub open spec fn is_unknown(m: ViewModel, q: QuestionView) -> bool {
    q.qclass != 1 || match q.qtype {
        QType::A => m.resolve(q.canon, true) is None,
        QType::Aaaa => m.resolve(q.canon, false) is None,
        QType::Ptr => q.ptr_v4 is Some ==> m.node_by_ip(IpAddr::V4(q.ptr_v4->0)) is None,
        QType::Other(_) => true,
    }
}

/// The reply that says `rcode` and nothing else.
pub open spec fn says(rcode: Rcode) -> DnsReplyView {
    DnsReplyView { rcode, answers: Seq::empty(), soa: None }
}

/// Whether the `i`th route is the one for `name`: no route that `name` is under has a longer
/// suffix, and none that stands before it has one as long.
pub open spec fn is_the_route(routes: Seq<RouteView>, name: Seq<char>, i: int) -> bool {
    &&& 0 <= i < routes.len()
    &&& under(name, routes[i].suffix)
    &&& forall|j: int|
        0 <= j < routes.len() && under(name, (#[trigger] routes[j]).suffix) ==> routes[j].suffix.len()
            <= routes[i].suffix.len()
    &&& forall|j: int|
        0 <= j < i && under(name, (#[trigger] routes[j]).suffix) ==> routes[j].suffix.len()
            < routes[i].suffix.len()
}

proof fn the_route_is_taken(m: ViewModel, name: Seq<char>, i: int)
    requires
        is_the_route(m.cfg.routes, name, i),
    ensures
        m.route(name) == (if m.cfg.routes[i].upstreams.len() == 0 {
            RoutedTo::Block
        } else {
            RoutedTo::Route(m.cfg.routes[i].upstreams)
        }),
{
    let routes = m.cfg.routes;
    assert(under(name, routes[i].suffix));
    assert(best_route(routes, name, i));
    let b = choose|b: int| best_route(routes, name, b);
    assert(under(name, routes[b].suffix));
    assert(b == i);
}

/// A name that nobody here answers for and that is under a split-DNS route goes to the IPv4
/// resolvers of that route: to every one of them, in the order in which control lists them. Where
/// the route lists none at all, the name does not exist; where it lists no IPv4 one, the failure is
/// soft.
pub proof fn a_routed_name_goes_to_its_resolvers(
    m: ViewModel,
    q: QuestionView,
    buf: Seq<u8>,
    serial: u32,
    i: int,
)
    requires
        m.cfg.magic_dns,
        m.accept_dns,
        is_foreign(m, q),
        is_unknown(m, q),
        is_the_route(m.cfg.routes, q.canon, i),
    ensures
        ({
            let listed = m.cfg.routes[i].upstreams;
            let asked = listed.filter(|a: SocketAddr| a.ip is V4);
            match m.decision(q, buf, serial) {
                DecisionView::Forward { upstreams, query, servfail, recursive } => asked.len() > 0
                    && upstreams == asked && query == buf && servfail == says(Rcode::ServFail)
                    && !recursive,
                DecisionView::Reply(r) => asked.len() == 0 && r.answers.len() == 0 && (
                listed.len() == 0 ==> r.rcode == Rcode::NxDomain) && (listed.len() > 0 ==> r
                    == says(Rcode::ServFail)),
            }
        }),
{
    the_route_is_taken(m, q.canon, i);
    let listed = m.cfg.routes[i].upstreams;
    narrowing_is_filtering(listed);
    reveal(Seq::filter);
}

/// A name that nobody here answers for and that is under no route goes to the recursive resolvers:
/// to every IPv4 one of the fallback resolvers, in their order, or of the plain ones where there
/// are no fallback resolvers. Where none is left, the failure is soft.
pub proof fn other_names_go_to_the_recursive_resolvers(
    m: ViewModel,
    q: QuestionView,
    buf: Seq<u8>,
    serial: u32,
)
    requires
        m.cfg.magic_dns,
        m.accept_dns,
        is_foreign(m, q),
        is_unknown(m, q),
        forall|i: int|
            0 <= i < m.cfg.routes.len() ==> !under(q.canon, (#[trigger] m.cfg.routes[i]).suffix),
    ensures
        ({
            let listed = if m.cfg.fallback_resolvers.len() > 0 {
                m.cfg.fallback_resolvers
            } else {
                m.cfg.resolvers
            };
            let asked = listed.filter(|a: SocketAddr| a.ip is V4);
            match m.decision(q, buf, serial) {
                DecisionView::Forward { upstreams, query, servfail, recursive } => asked.len() > 0
                    && upstreams == asked && query == buf && servfail == says(Rcode::ServFail)
                    && recursive,
                DecisionView::Reply(r) => asked.len() == 0 && r == says(Rcode::ServFail),
            }
        }),
{
    narrowing_is_filtering(m.cfg.fallback_resolvers);
    narrowing_is_filtering(m.cfg.resolvers);
    reveal(Seq::filter);
}

/// A forward is of a name that nobody here answers for, whatever its type, and goes to the route
/// for the name or, where there is none, to the recursive resolvers. So what
/// [`a_routed_name_goes_to_its_resolvers`] and [`other_names_go_to_the_recursive_resolvers`] say
/// holds of every forward.
pub proof fn only_foreign_names_are_forwarded(
    m: ViewModel,
    q: QuestionView,
    buf: Seq<u8>,
    serial: u32,
)
    requires
        m.decision(q, buf, serial) is Forward,
    ensures
        m.cfg.magic_dns,
        m.accept_dns,
        is_foreign(m, q),
        is_unknown(m, q),
{
    let records = m.cfg.extra_records;
    let p = |i: int| records[i].name == q.canon && (records[i].addr is V4) == true;
    let s = |i: int| records[i].name == q.canon && (records[i].addr is V4) == false;
    first_where_is_first(p, records.len() as int);
    first_where_is_first(s, records.len() as int);
}

/// While an exit node is selected, a recursive question goes to every IPv4 one of the resolvers
/// that stay in use beside it, in their order, or to the exit node where there is none. The
/// resolvers of a route are asked all the same, and without an exit node so are the recursive
/// ones.
pub proof fn an_exit_node_takes_recursive_questions(
    m: ViewModel,
    upstreams: Seq<SocketAddr>,
    recursive: bool,
)
    ensures
        m.exit_doh is None || !recursive ==> m.plan(upstreams, recursive) == PlanView::Udp(
            upstreams,
        ),
        m.exit_doh is Some && recursive ==> ({
            let kept = m.cfg.resolvers_with_exit_node.filter(|a: SocketAddr| a.ip is V4);
            m.plan(upstreams, recursive) == (if kept.len() == 0 {
                PlanView::Doh(m.exit_doh->0)
            } else {
                PlanView::Udp(kept)
            })
        }),
{
    narrowing_is_filtering(m.cfg.resolvers_with_exit_node);
}

/// A query that is to be forwarded goes out as it came. It is asked again over TCP unless this node
/// carries the attribute that forbids it.
pub proof fn a_forward_is_carried_out_as_planned(
    m: ViewModel,
    q: QuestionView,
    buf: Seq<u8>,
    serial: u32,
)
    ensures
        match (m.decision(q, buf, serial), m.served(Some(q), buf, serial)) {
            (DecisionView::Reply(r), ServeView::Reply(s)) => r == s,
            (
                DecisionView::Forward { upstreams, recursive, .. },
                ServeView::Udp { upstreams: asked, query, servfail, retry },
            ) => m.plan(upstreams, recursive) == PlanView::Udp(asked) && query == buf && servfail
                == says(Rcode::ServFail) && (retry == TcpRetry::Disabled <==> m.self_node is Some
                && m.self_node->0.cap_map.contains("dns-forwarder-disable-tcp-retries"@)),
            (
                DecisionView::Forward { upstreams, recursive, .. },
                ServeView::Doh { addr, query, servfail },
            ) => m.plan(upstreams, recursive) == PlanView::Doh(addr) && query == buf && servfail
                == says(Rcode::ServFail),
            _ => false,
        },
        m.served(None, buf, serial) is Drop,
{
}

/// Where no node answers to a name, neither as it stands nor under a search domain, the first
/// record of exactly that name and of the wanted family says what it resolves to.
pub proof fn the_first_record_of_a_family_answers(
    m: ViewModel,
    name: Seq<char>,
    want_v4: bool,
    i: int,
)
    requires
        m.node_by_name(name) is None,
        forall|d: int|
            0 <= d < m.cfg.search_domains.len() ==> m.node_by_name(
                name.push('.') + #[trigger] m.cfg.search_domains[d],
            ) is None,
        0 <= i < m.cfg.extra_records.len(),
        m.cfg.extra_records[i].name == name,
        m.cfg.extra_records[i].addr is V4 == want_v4,
        forall|j: int|
            0 <= j < i && (#[trigger] m.cfg.extra_records[j]).name == name
                ==> m.cfg.extra_records[j].addr is V4 != want_v4,
    ensures
        m.resolve(name, want_v4) == Some(m.cfg.extra_records[i].addr),
{
    no_node_has_the_name(m, name);
    let records = m.cfg.extra_records;
    let p = |i: int| records[i].name == name && (records[i].addr is V4) == want_v4;
    assert(p(i));
    assert forall|j: int| 0 <= j < i implies !#[trigger] p(j) by {
        assert(records[j].name == name ==> records[j].addr is V4 != want_v4);
    }
    first_where_is(p, records.len() as int, i);
    assert(m.has_record(name));
}

/// Where no node answers to a name and every record of it is of the other family, the name has no
/// address of the wanted one.
pub proof fn a_record_of_the_other_family_has_no_address(
    m: ViewModel,
    name: Seq<char>,
    want_v4: bool,
    i: int,
)
    requires
        m.node_by_name(name) is None,
        forall|d: int|
            0 <= d < m.cfg.search_domains.len() ==> m.node_by_name(
                name.push('.') + #[trigger] m.cfg.search_domains[d],
            ) is None,
        0 <= i < m.cfg.extra_records.len(),
        m.cfg.extra_records[i].name == name,
        forall|j: int|
            0 <= j < m.cfg.extra_records.len() && (#[trigger] m.cfg.extra_records[j]).name == name
                ==> m.cfg.extra_records[j].addr is V4 != want_v4,
    ensures
        m.resolve(name, want_v4) is None,
{
    no_node_has_the_name(m, name);
    let records = m.cfg.extra_records;
    let p = |i: int| records[i].name == name && (records[i].addr is V4) == want_v4;
    assert forall|j: int| 0 <= j < records.len() implies !#[trigger] p(j) by {
        assert(records[j].name == name ==> records[j].addr is V4 != want_v4);
    }
    first_where_none(p, records.len() as int);
    assert(m.has_record(name));
}

proof fn no_node_has_the_name(m: ViewModel, name: Seq<char>)
    requires
        m.node_by_name(name) is None,
        forall|d: int|
            0 <= d < m.cfg.search_domains.len() ==> m.node_by_name(
                name.push('.') + #[trigger] m.cfg.search_domains[d],
            ) is None,
    ensures
        m.exact_node(name) is None,
{
    let domains = m.cfg.search_domains;
    let p = |i: int|
        m.node_by_name(qualified(name, m.cfg.search_domains[i])) is Some;
    assert forall|d: int| 0 <= d < domains.len() implies !#[trigger] p(d) by {
        assert(m.node_by_name(name.push('.') + m.cfg.search_domains[d]) is None);
    }
    first_where_none(p, domains.len() as int);
}

/// A node that answers to a name is what the name resolves to, in either family and whatever the
/// records say.
pub proof fn a_node_has_its_name(m: ViewModel, name: Seq<char>)
    requires
        m.node_by_name(name) is Some,
    ensures
        m.resolve(name, true) == Some(IpAddr::V4(m.node_by_name(name)->0.ipv4)),
        m.resolve(name, false) == Some(IpAddr::V6(m.node_by_name(name)->0.ipv6)),
{
}

/// A name that no node answers to as it stands is tried under the search domains, in their order.
pub proof fn a_bare_name_is_tried_under_the_search_domains(m: ViewModel, name: Seq<char>, d: int)
    requires
        m.node_by_name(name) is None,
        0 <= d < m.cfg.search_domains.len(),
        m.node_by_name(name.push('.') + m.cfg.search_domains[d]) is Some,
        forall|e: int|
            0 <= e < d ==> m.node_by_name(name.push('.') + #[trigger] m.cfg.search_domains[e]) is None,
    ensures
        ({
            let node = m.node_by_name(name.push('.') + m.cfg.search_domains[d])->0;
            &&& m.resolve(name, true) == Some(IpAddr::V4(node.ipv4))
            &&& m.resolve(name, false) == Some(IpAddr::V6(node.ipv6))
        }),
{
    let domains = m.cfg.search_domains;
    let p = |i: int|
        m.node_by_name(qualified(name, m.cfg.search_domains[i])) is Some;
    assert(p(d));
    assert forall|e: int| 0 <= e < d implies !#[trigger] p(e) by {
        assert(m.node_by_name(name.push('.') + m.cfg.search_domains[e]) is None);
    }
    first_where_is(p, domains.len() as int, d);
}

/// A question for the IPv4 address of a name that resolves here is answered with that address, and
/// nothing else.
pub proof fn an_address_question_is_answered(
    m: ViewModel,
    q: QuestionView,
    buf: Seq<u8>,
    serial: u32,
    ip: Ipv4Addr,
)
    requires
        m.cfg.magic_dns,
        m.accept_dns,
        q.qclass == 1,
        q.qtype is A,
        m.resolve(q.canon, true) == Some(IpAddr::V4(ip)),
    ensures
        m.decision(q, buf, serial) == DecisionView::Reply(
            DnsReplyView { rcode: Rcode::NoError, answers: seq![RDataView::A(ip)], soa: None },
        ),
{
}

/// A question for the IPv6 address of a name that resolves here is answered with that address;
/// while IPv6 is off the name exists and has no such address.
pub proof fn an_ipv6_address_question_is_answered(
    m: ViewModel,
    q: QuestionView,
    buf: Seq<u8>,
    serial: u32,
    ip: Ipv6Addr,
)
    requires
        m.cfg.magic_dns,
        m.accept_dns,
        q.qclass == 1,
        q.qtype is Aaaa,
        m.resolve(q.canon, false) == Some(IpAddr::V6(ip)),
    ensures
        match m.decision(q, buf, serial) {
            DecisionView::Reply(r) => r.rcode == Rcode::NoError && r.answers == (
            if m.enable_ipv6 {
                seq![RDataView::Aaaa(ip)]
            } else {
                Seq::<RDataView>::empty()
            }) && (m.enable_ipv6 ==> r.soa is None),
            DecisionView::Forward { .. } => false,
        },
{
}

/// Every question is refused while MagicDNS is off or this node does not take the tailnet's
/// configuration.
pub proof fn every_question_is_refused_while_off(
    m: ViewModel,
    q: QuestionView,
    buf: Seq<u8>,
    serial: u32,
)
    requires
        !m.cfg.magic_dns || !m.accept_dns,
    ensures
        m.decision(q, buf, serial) == DecisionView::Reply(says(Rcode::Refused)),
{
}

/// Whether control has said that every name under the node's name is the node.
pub open spec fn takes_subdomains(node: Option<NodeView>) -> bool {
    node is Some && node->0.cap_map.contains("dns-subdomain-resolve"@)
}

/// Whether no node answers to `name`, as it stands or under a search domain, and no record has it.
pub open spec fn nobody_has(m: ViewModel, name: Seq<char>) -> bool {
    &&& m.node_by_name(name) is None
    &&& forall|d: int|
        0 <= d < m.cfg.search_domains.len() ==> m.node_by_name(
            name.push('.') + #[trigger] m.cfg.search_domains[d],
        ) is None
    &&& forall|j: int|
        0 <= j < m.cfg.extra_records.len() ==> (#[trigger] m.cfg.extra_records[j]).name != name
}

/// Whether the walk up from `name` goes past the dot at `d`: what follows is more than one label,
/// no search domain, and no node that takes its subdomains.
pub open spec fn passes(m: ViewModel, name: Seq<char>, d: int) -> bool {
    &&& name.skip(d + 1).contains('.')
    &&& !m.cfg.search_domains.contains(name.skip(d + 1))
    &&& !takes_subdomains(m.node_by_name(name.skip(d + 1)))
}

proof fn the_walk_reaches(m: ViewModel, name: Seq<char>, d: int)
    requires
        0 <= d < name.len(),
        name[d] == '.',
        forall|e: int| 0 <= e < d && name[e] == '.' ==> #[trigger] passes(m, name, e),
        !passes(m, name, d),
    ensures
        m.subdomain_host(name) == (if name.skip(d + 1).contains('.')
            && !m.cfg.search_domains.contains(name.skip(d + 1)) {
            m.node_by_name(name.skip(d + 1))
        } else {
            None
        }),
    decreases name.len(),
{
    assert(name.contains('.'));
    let i = first_index(name, '.');
    first_index_is_first(name, '.');
    let up = parent(name);
    if i < d {
        assert(passes(m, name, i));
        let at = d - i - 1;
        assert(up.skip(at + 1) =~= name.skip(d + 1));
        assert forall|e: int| 0 <= e < at && up[e] == '.' implies #[trigger] passes(m, up, e) by {
            assert(name[e + i + 1] == '.');
            assert(passes(m, name, e + i + 1));
            assert(up.skip(e + 1) =~= name.skip(e + i + 2));
        }
        the_walk_reaches(m, up, at);
    } else {
        if d < i {
            assert(name[d] != '.');
        }
        assert(i == d);
    }
}

proof fn the_walk_ends(m: ViewModel, name: Seq<char>)
    requires
        forall|e: int| 0 <= e < name.len() && name[e] == '.' ==> #[trigger] passes(m, name, e),
    ensures
        m.subdomain_host(name) is None,
    decreases name.len(),
{
    if name.contains('.') {
        let i = first_index(name, '.');
        first_index_is_first(name, '.');
        let up = parent(name);
        assert(passes(m, name, i));
        assert forall|e: int| 0 <= e < up.len() && up[e] == '.' implies #[trigger] passes(
            m,
            up,
            e,
        ) by {
            assert(name[e + i + 1] == '.');
            assert(passes(m, name, e + i + 1));
            assert(up.skip(e + 1) =~= name.skip(e + i + 2));
        }
        the_walk_ends(m, up);
    }
}

proof fn nobody_is_no_node(m: ViewModel, name: Seq<char>)
    requires
        nobody_has(m, name),
    ensures
        m.exact_node(name) is None,
        !m.has_record(name),
{
    no_node_has_the_name(m, name);
}

/// A name that nobody has is the nearest node above it that takes its subdomains, where the names
/// up to and including that node's are of more than one label and no search domains.
pub proof fn a_subdomain_is_its_host(m: ViewModel, name: Seq<char>, d: int)
    requires
        nobody_has(m, name),
        0 <= d < name.len(),
        name[d] == '.',
        forall|e: int| 0 <= e < d && name[e] == '.' ==> #[trigger] passes(m, name, e),
        name.skip(d + 1).contains('.'),
        !m.cfg.search_domains.contains(name.skip(d + 1)),
        takes_subdomains(m.node_by_name(name.skip(d + 1))),
    ensures
        ({
            let node = m.node_by_name(name.skip(d + 1))->0;
            &&& m.resolve(name, true) == Some(IpAddr::V4(node.ipv4))
            &&& m.resolve(name, false) == Some(IpAddr::V6(node.ipv6))
        }),
{
    nobody_is_no_node(m, name);
    the_walk_reaches(m, name, d);
}

/// A name that nobody has does not resolve where the walk up from it comes to a single label or a
/// search domain before it comes to a node that takes its subdomains, or comes to no such node.
pub proof fn other_subdomains_do_not_resolve(m: ViewModel, name: Seq<char>, d: int, want_v4: bool)
    requires
        nobody_has(m, name),
        0 <= d <= name.len(),
        forall|e: int| 0 <= e < d && name[e] == '.' ==> #[trigger] passes(m, name, e),
        d < name.len() ==> name[d] == '.' && (!name.skip(d + 1).contains('.')
            || m.cfg.search_domains.contains(name.skip(d + 1))),
    ensures
        m.resolve(name, want_v4) is None,
{
    nobody_is_no_node(m, name);
    if d < name.len() {
        the_walk_reaches(m, name, d);
    } else {
        the_walk_ends(m, name);
    }
}

/// Whether `node` answers to `name`, by its hostname or by its hostname and tailnet.
pub open spec fn answers_to(node: NodeView, name: Seq<char>) -> bool {
    canonical(name) == canonical(node.hostname) || (node.tailnet is Some && canonical(name)
        == canonical(node.hostname.push('.') + node.tailnet->0))
}

/// The node of a name is the first peer that answers to it.
pub proof fn the_first_peer_of_a_name_has_it(m: ViewModel, name: Seq<char>, i: int)
    requires
        m.peers is Some,
        0 <= i < m.peers->0.entries.len(),
        answers_to(m.peers->0.entries[i].node, name),
        forall|j: int|
            0 <= j < i ==> !answers_to((#[trigger] m.peers->0.entries[j]).node, name),
    ensures
        m.node_by_name(name) == Some(m.peers->0.entries[i].node),
{
    let db = m.peers->0;
    let key = KeyView::Name(name);
    let p = |i: int| key.selects(db.entries[i]);
    assert(p(i));
    assert forall|j: int| 0 <= j < i implies !#[trigger] p(j) by {
        assert(!answers_to(db.entries[j].node, name));
    }
    first_where_is(p, db.entries.len() as int, i);
}

/// A name that no peer answers to is this node where this node answers to it, and else nobody's.
pub proof fn this_node_comes_after_the_peers(m: ViewModel, name: Seq<char>)
    requires
        m.peers is Some ==> forall|j: int|
            0 <= j < m.peers->0.entries.len() ==> !answers_to(
                (#[trigger] m.peers->0.entries[j]).node,
                name,
            ),
    ensures
        m.node_by_name(name) == (if m.self_node is Some && answers_to(m.self_node->0, name) {
            m.self_node
        } else {
            None
        }),
{
    if m.peers is Some {
        let db = m.peers->0;
        let key = KeyView::Name(name);
        let p = |i: int| key.selects(db.entries[i]);
        assert forall|j: int| 0 <= j < db.entries.len() implies !#[trigger] p(j) by {
            assert(!answers_to(db.entries[j].node, name));
        }
        first_where_none(p, db.entries.len() as int);
    }
}

/// The node of an address is the first peer that has it, as its IPv4 or its IPv6 address.
pub proof fn the_first_peer_of_an_address_has_it(m: ViewModel, ip: IpAddr, i: int)
    requires
        m.peers is Some,
        0 <= i < m.peers->0.entries.len(),
        ip == IpAddr::V4(m.peers->0.entries[i].node.ipv4) || ip == IpAddr::V6(
            m.peers->0.entries[i].node.ipv6,
        ),
        forall|j: int|
            0 <= j < i ==> ip != IpAddr::V4((#[trigger] m.peers->0.entries[j]).node.ipv4) && ip
                != IpAddr::V6(m.peers->0.entries[j].node.ipv6),
    ensures
        m.node_by_ip(ip) == Some(m.peers->0.entries[i].node),
{
    let db = m.peers->0;
    let key = KeyView::Ip(ip);
    let p = |i: int| key.selects(db.entries[i]);
    assert(p(i));
    assert forall|j: int| 0 <= j < i implies !#[trigger] p(j) by {
        assert(ip != IpAddr::V4(db.entries[j].node.ipv4));
    }
    first_where_is(p, db.entries.len() as int, i);
}

/// An address that no peer has is this node's where this node has it, and else nobody's.
pub proof fn this_node_has_its_addresses(m: ViewModel, ip: IpAddr)
    requires
        m.peers is Some ==> forall|j: int|
            0 <= j < m.peers->0.entries.len() ==> ip != IpAddr::V4(
                (#[trigger] m.peers->0.entries[j]).node.ipv4,
            ) && ip != IpAddr::V6(m.peers->0.entries[j].node.ipv6),
    ensures
        m.node_by_ip(ip) == (if m.self_node is Some && (ip == IpAddr::V4(m.self_node->0.ipv4) || ip
            == IpAddr::V6(m.self_node->0.ipv6)) {
            m.self_node
        } else {
            None
        }),
{
    if m.peers is Some {
        let db = m.peers->0;
        let key = KeyView::Ip(ip);
        let p = |i: int| key.selects(db.entries[i]);
        assert forall|j: int| 0 <= j < db.entries.len() implies !#[trigger] p(j) by {
            assert(ip != IpAddr::V4(db.entries[j].node.ipv4));
        }
        first_where_none(p, db.entries.len() as int);
    }
}

/// A reverse question for the address of a node is answered with the node's full name, label by
/// label.
pub proof fn a_reverse_question_is_answered(
    m: ViewModel,
    q: QuestionView,
    buf: Seq<u8>,
    serial: u32,
)
    requires
        m.cfg.magic_dns,
        m.accept_dns,
        q.qclass == 1,
        q.qtype is Ptr,
        q.ptr_v4 is Some,
        m.node_by_ip(IpAddr::V4(q.ptr_v4->0)) is Some,
    ensures
        ({
            let node = m.node_by_ip(IpAddr::V4(q.ptr_v4->0))->0;
            let name = if node.tailnet is Some {
                node.hostname.push('.') + node.tailnet->0
            } else {
                node.hostname
            };
            match m.decision(q, buf, serial) {
                DecisionView::Reply(r) => r.rcode == Rcode::NoError && r.soa is None
                    && r.answers.len() == 1 && match r.answers[0] {
                    RDataView::Ptr(labels) => join(labels, '.') == name && forall|i: int|
                        0 <= i < labels.len() ==> !(#[trigger] labels[i]).contains('.'),
                    _ => false,
                },
                DecisionView::Forward { .. } => false,
            }
        }),
{
    let node = m.node_by_ip(IpAddr::V4(q.ptr_v4->0))->0;
    split_then_join(node.fqdn(), '.');
    pieces_hold_no_separator(node.fqdn(), '.');
}

/// A tailnet name that nobody here knows does not exist, and a reply to that effect names the zone.
/// A name under `ip6.arpa` that is asked for a reverse name is in no zone of this node.
pub proof fn an_unknown_tailnet_name_does_not_exist(
    m: ViewModel,
    q: QuestionView,
    buf: Seq<u8>,
    serial: u32,
    i: int,
)
    requires
        m.cfg.magic_dns,
        m.accept_dns,
        q.qclass == 1,
        !(q.qtype is Other),
        is_unknown(m, q),
        0 <= i < m.cfg.search_domains.len(),
        under(q.canon, m.cfg.search_domains[i]),
    ensures
        match m.decision(q, buf, serial) {
            DecisionView::Reply(r) => r.rcode == Rcode::NxDomain && r.answers.len() == 0 && r.soa
                == (if q.qtype is Ptr && q.ptr_v4 is None && under(q.canon, "ip6.arpa"@) {
                None
            } else {
                m.soa(q, serial)
            }),
            DecisionView::Forward { .. } => false,
        },
{
}

/// A reverse name of what may be a tailnet address, and that nobody here knows, does not exist.
/// Only for an IPv4 one is there a zone to name.
pub proof fn an_unknown_reverse_name_does_not_exist(
    m: ViewModel,
    q: QuestionView,
    buf: Seq<u8>,
    serial: u32,
)
    requires
        m.cfg.magic_dns,
        m.accept_dns,
        is_unknown(m, q),
        forall|i: int|
            0 <= i < m.cfg.search_domains.len() ==> !under(
                q.canon,
                #[trigger] m.cfg.search_domains[i],
            ),
        under(q.canon, "ip6.arpa"@) != (q.ptr_v4 is Some && q.ptr_v4->0.a == 100 && 64
            <= q.ptr_v4->0.b <= 127),
    ensures
        match m.decision(q, buf, serial) {
            DecisionView::Reply(r) => r.rcode == Rcode::NxDomain && r.answers.len() == 0 && r.soa
                == (if under(q.canon, "ip6.arpa"@) {
                None
            } else {
                m.soa(q, serial)
            }),
            DecisionView::Forward { .. } => false,
        },
{
}

/// A tailnet name exists for every type and class that is not served here: it has no data of that
/// type, or, for NS, SOA, HINFO and AXFR, the type is not implemented.
pub proof fn unserved_types_of_a_tailnet_name(
    m: ViewModel,
    q: QuestionView,
    buf: Seq<u8>,
    serial: u32,
    i: int,
)
    requires
        m.cfg.magic_dns,
        m.accept_dns,
        q.qclass != 1 || q.qtype is Other,
        0 <= i < m.cfg.search_domains.len(),
        under(q.canon, m.cfg.search_domains[i]),
    ensures
        m.decision(q, buf, serial) == DecisionView::Reply(
            says(
                match q.qtype {
                    QType::Other(n) => if n == 2 || n == 6 || n == 13 || n == 252 {
                        Rcode::NotImpl
                    } else {
                        Rcode::NoError
                    },
                    _ => Rcode::NoError,
                },
            ),
        ),
{
    assert(m.tailnet_name(q.canon));
}

proof fn negative_suffixes_are_listed(routes: Seq<RouteView>, zone: Seq<char>)
    ensures
        negative_suffixes(routes).contains(zone) <==> exists|i: int|
            0 <= i < routes.len() && (#[trigger] routes[i]).suffix == zone
                && routes[i].upstreams.len() == 0,
    decreases routes.len(),
{
    let found = negative_suffixes(routes);
    if routes.len() > 0 {
        let short = routes.drop_last();
        let before = negative_suffixes(short);
        negative_suffixes_are_listed(short, zone);
        if found.contains(zone) {
            let k = choose|k: int| 0 <= k < found.len() && found[k] == zone;
            if k < before.len() {
                assert(before[k] == zone);
                let i = choose|i: int|
                    0 <= i < short.len() && (#[trigger] short[i]).suffix == zone
                        && short[i].upstreams.len() == 0;
                assert(routes[i].suffix == zone);
            } else {
                assert(routes[routes.len() - 1].suffix == zone);
            }
        }
        if exists|i: int|
            0 <= i < routes.len() && (#[trigger] routes[i]).suffix == zone
                && routes[i].upstreams.len() == 0 {
            let i = choose|i: int|
                0 <= i < routes.len() && (#[trigger] routes[i]).suffix == zone
                    && routes[i].upstreams.len() == 0;
            if i < short.len() {
                assert(short[i].suffix == zone);
                let k = choose|k: int| 0 <= k < before.len() && before[k] == zone;
                assert(found[k] == zone);
            } else {
                assert(found[found.len() - 1] == zone);
            }
        }
    }
}

/// Whether `zone` is one that this node serves by name: a search domain, or the suffix of a route
/// without resolvers.
pub open spec fn serves(m: ViewModel, zone: Seq<char>) -> bool {
    m.cfg.search_domains.contains(zone) || exists|i: int|
        0 <= i < m.cfg.routes.len() && (#[trigger] m.cfg.routes[i]).suffix == zone
            && m.cfg.routes[i].upstreams.len() == 0
}

/// The zone that a negative answer names is, for a tailnet address, that of its first two octets;
/// for any other name the longest zone that this node serves and that the name is under, where
/// there is one. It goes out label by label, under the serial of the moment.
pub proof fn negative_answers_name_the_zone(m: ViewModel, q: QuestionView, serial: u32)
    ensures
        match m.soa(q, serial) {
            Some((labels, number)) => number == serial && (forall|i: int|
                0 <= i < labels.len() ==> !(#[trigger] labels[i]).contains('.')) && match q.ptr_v4 {
                Some(ip) if ip.a == 100 && 64 <= ip.b <= 127 => join(labels, '.') == decimal(
                    ip.b as nat,
                ) + ".100.in-addr.arpa"@,
                _ => serves(m, join(labels, '.')) && under(q.canon, join(labels, '.')) && forall|
                    zone: Seq<char>,
                |
                    #![trigger serves(m, zone)]
                    serves(m, zone) && under(q.canon, zone) ==> zone.len() <= join(
                        labels,
                        '.',
                    ).len(),
            },
            None => (q.ptr_v4 is Some ==> !(q.ptr_v4->0.a == 100 && 64 <= q.ptr_v4->0.b <= 127))
                && forall|zone: Seq<char>|
                #![trigger serves(m, zone)]
                serves(m, zone) ==> !under(q.canon, zone),
        },
{
    let zones = m.zones();
    let domains = m.cfg.search_domains;
    let suffixes = negative_suffixes(m.cfg.routes);
    assert forall|zone: Seq<char>| #[trigger] serves(m, zone) implies zones.contains(zone) by {
        negative_suffixes_are_listed(m.cfg.routes, zone);
        if domains.contains(zone) {
            let k = choose|k: int| 0 <= k < domains.len() && domains[k] == zone;
            assert(zones[k] == zone);
        } else {
            let k = choose|k: int| 0 <= k < suffixes.len() && suffixes[k] == zone;
            assert(zones[domains.len() + k] == zone);
        }
    }
    the_longest_zone_is_named(zones, q.canon);
    match m.authority(q) {
        Some(zone) => {
            split_then_join(zone, '.');
            pieces_hold_no_separator(zone, '.');
            if longest_zone(zones, q.canon) == Some(zone) {
                negative_suffixes_are_listed(m.cfg.routes, zone);
                let k = choose|k: int| 0 <= k < zones.len() && zones[k] == zone;
                if k < domains.len() {
                    assert(domains[k] == zone);
                } else {
                    assert(suffixes[k - domains.len()] == zone);
                }
                assert(serves(m, zone));
            }
        },
        None => {},
    }
}

/// A query is forwarded while fewer than 512 are in flight, and dropped from then on; a reply is
/// sent whatever is in flight.
pub proof fn forwards_beyond_the_bound_are_dropped(step: ServeView, in_flight: nat)
    ensures
        in_flight < 512 || step is Reply || step is Drop ==> bounded(step, in_flight) == step,
        in_flight >= 512 && (step is Udp || step is Doh) ==> bounded(step, in_flight) is Drop,
{
}

/// The resolvers that are named as consulted are those that were asked, or the exit node; for a
/// query that is answered here there are none.
pub proof fn those_asked_are_named(step: ServeView)
    ensures
        match step {
            ServeView::Udp { upstreams, .. } => consulted(step) == upstreams,
            ServeView::Doh { addr, .. } => consulted(step).len() == 1 && consulted(step)[0] == addr,
            _ => consulted(step).len() == 0,
        },
{
}

/// A question is of the type that its number stands for.
pub proof fn types_have_their_numbers(n: u16)
    ensures
        type_of(1) is A,
        type_of(28) is Aaaa,
        type_of(12) is Ptr,
        n != 1 && n != 28 && n != 12 ==> type_of(n) == QType::Other(n),
{
}

proof fn nonempty_is_filtering(parts: Seq<Seq<char>>)
    ensures
        nonempty(parts) == parts.filter(|p: Seq<char>| p.len() > 0),
    decreases parts.len(),
{
    reveal(Seq::filter);
    if parts.len() > 0 {
        nonempty_is_filtering(parts.drop_last());
    }
}

/// The labels to ask for are what stands between the dots of the name, without the empty ones; one
/// trailing dot is no part of the name.
pub proof fn labels_stand_between_the_dots(name: Seq<char>)
    requires
        name.len() > 0 ==> name.last() != '.',
    ensures
        labels_of(name) == split(name, '.').filter(|p: Seq<char>| p.len() > 0),
        labels_of(name.push('.')) == labels_of(name),
{
    nonempty_is_filtering(split(name, '.'));
    assert(name.push('.').drop_last() =~= name);
}

/// Before control has sent a configuration, and where it sends none, nothing is served.
pub proof fn no_configuration_serves_nothing(
    m: ViewModel,
    q: QuestionView,
    buf: Seq<u8>,
    serial: u32,
)
    requires
        m.cfg == empty_config(),
    ensures
        m.decision(q, buf, serial) == DecisionView::Reply(says(Rcode::Refused)),
{
}

} // verus!
