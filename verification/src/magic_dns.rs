//! The MagicDNS responder's decisions.
//!
//! The responder is authoritative for the names of the tailnet's nodes and for the records that
//! control pushes. For other names it forwards to the resolver of the longest matching split-DNS
//! route, else to the recursive resolvers. It fails closed: a tailnet name, and a reverse name of a
//! tailnet address, is answered here or not at all.
//!
//! A query arrives decoded, as the parts of its question that the rules read; a reply leaves as
//! what is to be encoded.

use vstd::prelude::*;

use crate::addr::{IpAddr, Ipv4Addr, Ipv6Addr, SocketAddr};
use crate::clock::{serial_of, soa_serial};
use crate::dns_message::{rcode_of, response_rcode};
use crate::dns_names::{
    cgnat, is_ip6_arpa, is_tailnet_cgnat, qualified, qualify, reverse_zone, reverse_zone_of,
    suffix_matches, under,
};
use crate::forward::TcpRetry;
use crate::node::{Node, NodeView};
use crate::peer_db::{DbView, KeyView, PeerDb, PeerKey};
use crate::search::{first_where, first_where_is, first_where_is_first, first_where_none};
use crate::text::{
    chars_of, find_char, first_index, first_index_is_first, split, split_on, str_eq, string_of,
    texts,
};

verus! {

/// The address of the responder.
pub fn magic_dns_ip() -> (r: Ipv4Addr)
    ensures
        r == service_ip(),
{
    Ipv4Addr { a: 100, b: 100, c: 100, d: 100 }
}

/// The address that MagicDNS is served at: 100.100.100.100.
pub open spec fn service_ip() -> Ipv4Addr {
    Ipv4Addr { a: 100, b: 100, c: 100, d: 100 }
}

/// The port of the responder.
pub const MAGIC_DNS_PORT: u16 = 53;

/// How many forwarded queries may be under way at once; further ones are dropped.
pub const MAX_INFLIGHT_FORWARDS: usize = 512;

/// The class of the internet, the one class that is served authoritatively.
pub const CLASS_IN: u16 = 1;

/// A split-DNS route: names under `suffix` go to `upstreams`, or nowhere where there are none.
#[derive(Debug)]
pub struct DnsRoute {
    pub suffix: String,
    pub upstreams: Vec<SocketAddr>,
}

/// A record that control pushes.
#[derive(Debug)]
pub struct ExtraRecord {
    pub name: String,
    pub addr: IpAddr,
}

/// The tailnet's DNS configuration.
#[derive(Debug)]
pub struct DnsConfig {
    /// Whether the responder serves at all.
    pub magic_dns: bool,
    /// The domains that the tailnet's names are under.
    pub search_domains: Vec<String>,
    /// The split-DNS routes.
    pub routes: Vec<DnsRoute>,
    /// The resolvers for names without a route.
    pub fallback_resolvers: Vec<SocketAddr>,
    /// The resolvers for names without a route, where there are no fallback resolvers.
    pub resolvers: Vec<SocketAddr>,
    /// The resolvers that stay in use while an exit node is selected.
    pub resolvers_with_exit_node: Vec<SocketAddr>,
    /// Records of names that no node has.
    pub extra_records: Vec<ExtraRecord>,
}

/// What the responder answers from.
pub struct DnsView {
    pub cfg: DnsConfig,
    /// The peers, once an update has come.
    pub peers: Option<PeerDb>,
    /// This node, once an update has come.
    pub self_node: Option<Node>,
    /// Where the selected exit node resolves names for us.
    pub exit_doh: Option<SocketAddr>,
    /// Whether IPv6 addresses are given out.
    pub enable_ipv6: bool,
    /// Whether this node takes the tailnet's DNS configuration.
    pub accept_dns: bool,
}

/// The model of a [`DnsRoute`].
#[verifier::ext_equal]
pub struct RouteView {
    pub suffix: Seq<char>,
    pub upstreams: Seq<SocketAddr>,
}

/// The model of an [`ExtraRecord`].
#[verifier::ext_equal]
pub struct RecordView {
    pub name: Seq<char>,
    pub addr: IpAddr,
}

/// The model of a [`DnsConfig`].
#[verifier::ext_equal]
pub struct ConfigView {
    pub magic_dns: bool,
    pub search_domains: Seq<Seq<char>>,
    pub routes: Seq<RouteView>,
    pub fallback_resolvers: Seq<SocketAddr>,
    pub resolvers: Seq<SocketAddr>,
    pub resolvers_with_exit_node: Seq<SocketAddr>,
    pub extra_records: Seq<RecordView>,
}

/// The model of a [`DnsView`].
#[verifier::ext_equal]
pub struct ViewModel {
    pub cfg: ConfigView,
    pub peers: Option<DbView>,
    pub self_node: Option<NodeView>,
    pub exit_doh: Option<SocketAddr>,
    pub enable_ipv6: bool,
    pub accept_dns: bool,
}

impl View for DnsRoute {
    type V = RouteView;

    open spec fn view(&self) -> RouteView {
        RouteView { suffix: self.suffix@, upstreams: self.upstreams@ }
    }
}

impl View for ExtraRecord {
    type V = RecordView;

    open spec fn view(&self) -> RecordView {
        RecordView { name: self.name@, addr: self.addr }
    }
}

impl View for DnsConfig {
    type V = ConfigView;

    open spec fn view(&self) -> ConfigView {
        ConfigView {
            magic_dns: self.magic_dns,
            search_domains: texts(self.search_domains@),
            routes: self.routes@.map_values(|r: DnsRoute| r@),
            fallback_resolvers: self.fallback_resolvers@,
            resolvers: self.resolvers@,
            resolvers_with_exit_node: self.resolvers_with_exit_node@,
            extra_records: self.extra_records@.map_values(|r: ExtraRecord| r@),
        }
    }
}

impl View for DnsView {
    type V = ViewModel;

    open spec fn view(&self) -> ViewModel {
        ViewModel {
            cfg: self.cfg@,
            peers: match self.peers {
                Some(db) => Some(db@),
                None => None,
            },
            self_node: match self.self_node {
                Some(n) => Some(n@),
                None => None,
            },
            exit_doh: self.exit_doh,
            enable_ipv6: self.enable_ipv6,
            accept_dns: self.accept_dns,
        }
    }
}

/// The type of a query.
#[derive(Clone, Copy, Debug, PartialEq, Eq, Structural)]
pub enum QType {
    A,
    Aaaa,
    Ptr,
    Other(u16),
}

/// The response codes that the responder gives.
#[derive(Clone, Copy, Debug, PartialEq, Eq, Structural)]
pub enum Rcode {
    NoError,
    ServFail,
    NxDomain,
    NotImpl,
    Refused,
}

/// The parts of a decoded question that the rules read.
#[derive(Debug)]
pub struct Question {
    /// The name in lower case, labels joined by dots, without a trailing dot.
    pub canon: String,
    /// The address that the name is the IPv4 reverse name of.
    pub ptr_v4: Option<Ipv4Addr>,
    pub qtype: QType,
    pub qclass: u16,
}

/// The model of a [`Question`].
#[verifier::ext_equal]
pub struct QuestionView {
    pub canon: Seq<char>,
    pub ptr_v4: Option<Ipv4Addr>,
    pub qtype: QType,
    pub qclass: u16,
}

impl View for Question {
    type V = QuestionView;

    open spec fn view(&self) -> QuestionView {
        QuestionView {
            canon: self.canon@,
            ptr_v4: self.ptr_v4,
            qtype: self.qtype,
            qclass: self.qclass,
        }
    }
}

/// A record to answer with.
#[derive(Debug, PartialEq, Eq)]
pub enum RData {
    A(Ipv4Addr),
    Aaaa(Ipv6Addr),
    /// A name, as its labels.
    Ptr(Vec<String>),
}

/// The zone that a negative answer is authoritative for, as its labels, and the serial to publish.
#[derive(Debug, PartialEq, Eq)]
pub struct SoaZone {
    pub zone: Vec<String>,
    pub serial: u32,
}

/// A reply to be encoded under the question it answers.
#[derive(Debug, PartialEq, Eq)]
pub struct DnsReply {
    pub rcode: Rcode,
    pub answers: Vec<RData>,
    pub soa: Option<SoaZone>,
}

/// What to do with a query.
#[derive(Debug, PartialEq, Eq)]
pub enum Decision {
    /// Answer it.
    Reply(DnsReply),
    /// Forward it, and answer with what comes of that.
    Forward {
        /// The resolvers to ask, in order.
        upstreams: Vec<SocketAddr>,
        /// The query, verbatim.
        query: Vec<u8>,
        /// The reply where no resolver says anything.
        servfail: DnsReply,
        /// Whether the recursive resolvers are asked, and not those of a route.
        recursive: bool,
    },
}

/// The model of an [`RData`].
pub enum RDataView {
    A(Ipv4Addr),
    Aaaa(Ipv6Addr),
    Ptr(Seq<Seq<char>>),
}

/// The model of a [`DnsReply`].
#[verifier::ext_equal]
pub struct DnsReplyView {
    pub rcode: Rcode,
    pub answers: Seq<RDataView>,
    pub soa: Option<(Seq<Seq<char>>, u32)>,
}

/// The model of a [`Decision`].
pub enum DecisionView {
    Reply(DnsReplyView),
    Forward {
        upstreams: Seq<SocketAddr>,
        query: Seq<u8>,
        servfail: DnsReplyView,
        recursive: bool,
    },
}

impl View for RData {
    type V = RDataView;

    open spec fn view(&self) -> RDataView {
        match *self {
            RData::A(ip) => RDataView::A(ip),
            RData::Aaaa(ip) => RDataView::Aaaa(ip),
            RData::Ptr(labels) => RDataView::Ptr(texts(labels@)),
        }
    }
}

/// The model of an optional zone.
pub open spec fn soa_view(soa: Option<SoaZone>) -> Option<(Seq<Seq<char>>, u32)> {
    match soa {
        Some(s) => Some((texts(s.zone@), s.serial)),
        None => None,
    }
}

impl View for DnsReply {
    type V = DnsReplyView;

    open spec fn view(&self) -> DnsReplyView {
        DnsReplyView {
            rcode: self.rcode,
            answers: self.answers@.map_values(|a: RData| a@),
            soa: soa_view(self.soa),
        }
    }
}

impl View for Decision {
    type V = DecisionView;

    open spec fn view(&self) -> DecisionView {
        match *self {
            Decision::Reply(r) => DecisionView::Reply(r@),
            Decision::Forward { upstreams, query, servfail, recursive } => DecisionView::Forward {
                upstreams: upstreams@,
                query: query@,
                servfail: servfail@,
                recursive,
            },
        }
    }
}

/// A reply without records.
pub open spec fn bare(rcode: Rcode) -> DnsReplyView {
    DnsReplyView { rcode, answers: Seq::empty(), soa: None }
}

/// A reply without answers that names the zone it is authoritative for.
pub open spec fn negative(rcode: Rcode, soa: Option<(Seq<Seq<char>>, u32)>) -> DnsReplyView {
    DnsReplyView { rcode, answers: Seq::empty(), soa }
}

/// A reply with one record.
pub open spec fn positive(answer: RDataView) -> DnsReplyView {
    DnsReplyView { rcode: Rcode::NoError, answers: seq![answer], soa: None }
}

fn bare_reply(rcode: Rcode) -> (r: DnsReply)
    ensures
        r@ == bare(rcode),
{
    let r = DnsReply { rcode, answers: Vec::new(), soa: None };
    assert(r@.answers =~= Seq::empty());
    r
}

fn negative_reply(rcode: Rcode, soa: Option<SoaZone>) -> (r: DnsReply)
    ensures
        r@ == negative(rcode, soa_view(soa)),
{
    let r = DnsReply { rcode, answers: Vec::new(), soa };
    assert(r@.answers =~= Seq::empty());
    r
}

fn positive_reply(answer: RData) -> (r: DnsReply)
    ensures
        r@ == positive(answer@),
{
    let ghost want = answer@;
    let mut answers: Vec<RData> = Vec::new();
    answers.push(answer);
    let r = DnsReply { rcode: Rcode::NoError, answers, soa: None };
    assert(r@.answers =~= seq![want]);
    r
}

/// Which resolvers a name that nobody here answers for goes to.
pub enum RoutedTo {
    /// The resolvers of a split-DNS route.
    Route(Seq<SocketAddr>),
    /// The recursive resolvers.
    Recursive(Seq<SocketAddr>),
    /// A route without resolvers: nowhere, the name does not exist.
    Block,
    /// Nowhere, for want of a resolver.
    Nowhere,
}

/// Which resolvers a name that nobody here answers for goes to.
pub enum Upstreams<'a> {
    /// The resolvers of a split-DNS route.
    Route(&'a Vec<SocketAddr>),
    /// The recursive resolvers.
    Recursive(&'a Vec<SocketAddr>),
    /// A route without resolvers: nowhere, the name does not exist.
    Block,
    /// Nowhere, for want of a resolver.
    Nowhere,
}

impl<'a> Upstreams<'a> {
    /// The model.
    pub open spec fn view(&self) -> RoutedTo {
        match *self {
            Upstreams::Route(v) => RoutedTo::Route(v@),
            Upstreams::Recursive(v) => RoutedTo::Recursive(v@),
            Upstreams::Block => RoutedTo::Block,
            Upstreams::Nowhere => RoutedTo::Nowhere,
        }
    }
}

/// Whether `i` is the route for `name`: it matches, no matching route has a longer suffix, and no
/// earlier one has one as long.
pub open spec fn best_route(routes: Seq<RouteView>, name: Seq<char>, i: int) -> bool {
    &&& 0 <= i < routes.len()
    &&& under(name, routes[i].suffix)
    &&& forall|j: int|
        0 <= j < routes.len() && under(name, (#[trigger] routes[j]).suffix) ==> routes[j].suffix.len()
            < routes[i].suffix.len() || (routes[j].suffix.len() == routes[i].suffix.len() && i <= j)
}

/// Whether any route matches `name`.
pub open spec fn any_route(routes: Seq<RouteView>, name: Seq<char>) -> bool {
    exists|i: int| 0 <= i < routes.len() && under(name, (#[trigger] routes[i]).suffix)
}

/// The longest of `zones` that `name` is under; of equal ones the last.
pub open spec fn longest_zone(zones: Seq<Seq<char>>, name: Seq<char>) -> Option<Seq<char>>
    decreases zones.len(),
{
    if zones.len() == 0 {
        None
    } else {
        let before = longest_zone(zones.drop_last(), name);
        let last = zones.last();
        if under(name, last) && (before is None || before->0.len() <= last.len()) {
            Some(last)
        } else {
            before
        }
    }
}

/// The suffixes of the routes without resolvers.
pub open spec fn negative_suffixes(routes: Seq<RouteView>) -> Seq<Seq<char>>
    decreases routes.len(),
{
    if routes.len() == 0 {
        Seq::empty()
    } else {
        let before = negative_suffixes(routes.drop_last());
        if routes.last().upstreams.len() == 0 {
            before.push(routes.last().suffix)
        } else {
            before
        }
    }
}

/// The addresses among `v` that are IPv4.
pub open spec fn v4_only(v: Seq<SocketAddr>) -> Seq<SocketAddr>
    decreases v.len(),
{
    if v.len() == 0 {
        Seq::empty()
    } else {
        let before = v4_only(v.drop_last());
        if v.last().ip is V4 {
            before.push(v.last())
        } else {
            before
        }
    }
}

/// Everything after the first dot of `name`.
pub open spec fn parent(name: Seq<char>) -> Seq<char> {
    name.skip(first_index(name, '.') + 1)
}

impl ViewModel {
    /// The node, peer or self, that answers to `name`.
    pub open spec fn node_by_name(self, name: Seq<char>) -> Option<NodeView> {
        match self.peers {
            Some(db) if db.has(KeyView::Name(name)) => Some(db.find(KeyView::Name(name))->0.node),
            _ => match self.self_node {
                Some(n) if n.named(name) => Some(n),
                _ => None,
            },
        }
    }

    /// The node, peer or self, with the address `ip`.
    pub open spec fn node_by_ip(self, ip: IpAddr) -> Option<NodeView> {
        match self.peers {
            Some(db) if db.has(KeyView::Ip(ip)) => Some(db.find(KeyView::Ip(ip))->0.node),
            _ => match self.self_node {
                Some(n) if n.owns(ip) => Some(n),
                _ => None,
            },
        }
    }

    /// The first parent of `name` that is a node which resolves its subdomains. The walk looks at
    /// parents of at least two labels, and stops at a search domain.
    pub open spec fn subdomain_host(self, name: Seq<char>) -> Option<NodeView>
        decreases name.len(),
    {
        if !name.contains('.') {
            None
        } else {
            proof {
                first_index_is_first(name, '.');
            }
            let p = parent(name);
            if !p.contains('.') || self.cfg.search_domains.contains(p) {
                None
            } else {
                match self.node_by_name(p) {
                    Some(n) if n.resolves_subdomains() => Some(n),
                    _ => self.subdomain_host(p),
                }
            }
        }
    }

    /// The node that `name` names as it stands, or qualified by a search domain.
    pub open spec fn exact_node(self, name: Seq<char>) -> Option<NodeView> {
        match self.node_by_name(name) {
            Some(n) => Some(n),
            None => match first_where(
                |i: int|
                    self.node_by_name(qualified(name, self.cfg.search_domains[i])) is Some,
                self.cfg.search_domains.len() as int,
            ) {
                Some(i) => self.node_by_name(qualified(name, self.cfg.search_domains[i])),
                None => None,
            },
        }
    }

    /// The first record for `name` of the wanted family.
    pub open spec fn record(self, name: Seq<char>, want_v4: bool) -> Option<IpAddr> {
        match first_where(
            |i: int|
                self.cfg.extra_records[i].name == name && (self.cfg.extra_records[i].addr is V4)
                    == want_v4,
            self.cfg.extra_records.len() as int,
        ) {
            Some(i) => Some(self.cfg.extra_records[i].addr),
            None => None,
        }
    }

    /// Whether there is a record for `name`, of either family.
    pub open spec fn has_record(self, name: Seq<char>) -> bool {
        exists|i: int|
            0 <= i < self.cfg.extra_records.len() && (#[trigger] self.cfg.extra_records[i]).name
                == name
    }

    /// The address of the wanted family that `name` resolves to here: that of the node it names,
    /// else that of a record, else, where no record has the name, that of the node whose subdomain
    /// it is.
    pub open spec fn resolve(self, name: Seq<char>, want_v4: bool) -> Option<IpAddr> {
        match self.exact_node(name) {
            Some(n) => Some(address_of(n, want_v4)),
            None => if self.has_record(name) {
                self.record(name, want_v4)
            } else {
                match self.subdomain_host(name) {
                    Some(n) => Some(address_of(n, want_v4)),
                    None => None,
                }
            },
        }
    }

    /// Whether `name` is a name of the tailnet.
    pub open spec fn tailnet_name(self, name: Seq<char>) -> bool {
        exists|i: int|
            0 <= i < self.cfg.search_domains.len() && under(
                name,
                #[trigger] self.cfg.search_domains[i],
            )
    }

    /// Where `name` is forwarded to.
    pub open spec fn route(self, name: Seq<char>) -> RoutedTo {
        if any_route(self.cfg.routes, name) {
            let i = choose|i: int| best_route(self.cfg.routes, name, i);
            if self.cfg.routes[i].upstreams.len() == 0 {
                RoutedTo::Block
            } else {
                RoutedTo::Route(self.cfg.routes[i].upstreams)
            }
        } else if self.cfg.fallback_resolvers.len() > 0 {
            RoutedTo::Recursive(self.cfg.fallback_resolvers)
        } else if self.cfg.resolvers.len() > 0 {
            RoutedTo::Recursive(self.cfg.resolvers)
        } else {
            RoutedTo::Nowhere
        }
    }

    /// The zones that this node is authoritative for by name.
    pub open spec fn zones(self) -> Seq<Seq<char>> {
        self.cfg.search_domains + negative_suffixes(self.cfg.routes)
    }

    /// The zone that this node is authoritative for and that holds the question's name.
    pub open spec fn authority(self, q: QuestionView) -> Option<Seq<char>> {
        match q.ptr_v4 {
            Some(ip) if cgnat(ip) => Some(reverse_zone(ip)),
            _ => longest_zone(self.zones(), q.canon),
        }
    }

    /// The zone to name in a negative answer.
    pub open spec fn soa(self, q: QuestionView, serial: u32) -> Option<(Seq<Seq<char>>, u32)> {
        match self.authority(q) {
            Some(zone) => Some((split(zone, '.'), serial)),
            None => None,
        }
    }

    /// What becomes of a question that nobody here answers.
    pub open spec fn forward(self, q: QuestionView, buf: Seq<u8>, serial: u32) -> DecisionView {
        if self.tailnet_name(q.canon) {
            DecisionView::Reply(negative(Rcode::NxDomain, self.soa(q, serial)))
        } else if reverse_of_tailnet(q) {
            reverse_refused(self, q, serial)
        } else {
            match self.route(q.canon) {
                RoutedTo::Route(v) => to_resolvers(v, buf, false),
                RoutedTo::Recursive(v) => to_resolvers(v, buf, true),
                RoutedTo::Block => DecisionView::Reply(
                    negative(Rcode::NxDomain, self.soa(q, serial)),
                ),
                RoutedTo::Nowhere => DecisionView::Reply(bare(Rcode::ServFail)),
            }
        }
    }

    /// What becomes of a question of a type or class that is not served here.
    pub open spec fn forward_unserved(
        self,
        q: QuestionView,
        buf: Seq<u8>,
        serial: u32,
    ) -> DecisionView {
        if self.tailnet_name(q.canon) {
            DecisionView::Reply(
                bare(
                    if unimplemented(q.qtype) {
                        Rcode::NotImpl
                    } else {
                        Rcode::NoError
                    },
                ),
            )
        } else {
            self.forward(q, buf, serial)
        }
    }

    /// What becomes of a question.
    pub open spec fn decision(self, q: QuestionView, buf: Seq<u8>, serial: u32) -> DecisionView {
        if !self.cfg.magic_dns || !self.accept_dns {
            DecisionView::Reply(bare(Rcode::Refused))
        } else if q.qclass != CLASS_IN {
            self.forward_unserved(q, buf, serial)
        } else {
            match q.qtype {
                QType::A => match self.resolve(q.canon, true) {
                    Some(IpAddr::V4(ip)) => DecisionView::Reply(positive(RDataView::A(ip))),
                    _ => self.forward(q, buf, serial),
                },
                QType::Aaaa => match self.resolve(q.canon, false) {
                    Some(IpAddr::V6(ip)) => if self.enable_ipv6 {
                        DecisionView::Reply(positive(RDataView::Aaaa(ip)))
                    } else {
                        DecisionView::Reply(negative(Rcode::NoError, self.soa(q, serial)))
                    },
                    _ => self.forward(q, buf, serial),
                },
                QType::Ptr => match q.ptr_v4 {
                    Some(ip) => match self.node_by_ip(IpAddr::V4(ip)) {
                        Some(n) => DecisionView::Reply(
                            positive(RDataView::Ptr(split(n.fqdn(), '.'))),
                        ),
                        None => if cgnat(ip) {
                            DecisionView::Reply(negative(Rcode::NxDomain, self.soa(q, serial)))
                        } else {
                            self.forward(q, buf, serial)
                        },
                    },
                    None => if under(q.canon, "ip6.arpa"@) {
                        DecisionView::Reply(bare(Rcode::NxDomain))
                    } else {
                        self.forward(q, buf, serial)
                    },
                },
                QType::Other(_) => self.forward_unserved(q, buf, serial),
            }
        }
    }
}

/// The address of `node` of the wanted family.
pub open spec fn address_of(node: NodeView, want_v4: bool) -> IpAddr {
    if want_v4 {
        IpAddr::V4(node.ipv4)
    } else {
        IpAddr::V6(node.ipv6)
    }
}

/// Whether the question's name is the reverse name of what may be a tailnet address: of an IPv4
/// address of the tailnet range, or any IPv6 reverse name.
pub open spec fn reverse_of_tailnet(q: QuestionView) -> bool {
    under(q.canon, "ip6.arpa"@) || (q.ptr_v4 is Some && cgnat(q.ptr_v4->0))
}

/// The answer for such a name: it does not exist. Only the IPv4 reverse zone is one that this node
/// serves.
pub open spec fn reverse_refused(m: ViewModel, q: QuestionView, serial: u32) -> DecisionView {
    if under(q.canon, "ip6.arpa"@) {
        DecisionView::Reply(bare(Rcode::NxDomain))
    } else {
        DecisionView::Reply(negative(Rcode::NxDomain, m.soa(q, serial)))
    }
}

/// A forward to those of `resolvers` that are reached over IPv4; where there are none, a soft
/// failure.
pub open spec fn to_resolvers(
    resolvers: Seq<SocketAddr>,
    buf: Seq<u8>,
    recursive: bool,
) -> DecisionView {
    if v4_only(resolvers).len() == 0 {
        DecisionView::Reply(bare(Rcode::ServFail))
    } else {
        DecisionView::Forward {
            upstreams: v4_only(resolvers),
            query: buf,
            servfail: bare(Rcode::ServFail),
            recursive,
        }
    }
}

/// Whether `qtype` is answered as not implemented for a tailnet name: NS, SOA, HINFO and AXFR.
pub open spec fn unimplemented(qtype: QType) -> bool {
    qtype == QType::Other(2) || qtype == QType::Other(6) || qtype == QType::Other(13) || qtype
        == QType::Other(252)
}

/// Whether `qtype` is answered as not implemented for a tailnet name.
pub fn is_unimplemented_tailnet_qtype(qtype: QType) -> (r: bool)
    ensures
        r == unimplemented(qtype),
{
    match qtype {
        QType::Other(n) => n == 2 || n == 6 || n == 13 || n == 252,
        _ => false,
    }
}

impl DnsView {
    /// The node, peer or self, that answers to `name`.
    pub fn node_by_name(&self, name: &str) -> (r: Option<Node>)
        ensures
            r is Some == self@.node_by_name(name@) is Some,
            r is Some ==> Some(r->0@) == self@.node_by_name(name@),
    {
        match &self.peers {
            Some(db) => match db.get(PeerKey::Name(name)) {
                Some(entry) => {
                    return Some(entry.node.copy());
                },
                None => {},
            },
            None => {},
        }
        match &self.self_node {
            Some(n) => if n.matches_name(name) {
                Some(n.copy())
            } else {
                None
            },
            None => None,
        }
    }

    /// The node, peer or self, with the address `ip`.
    pub fn node_by_ip(&self, ip: IpAddr) -> (r: Option<Node>)
        ensures
            r is Some == self@.node_by_ip(ip) is Some,
            r is Some ==> Some(r->0@) == self@.node_by_ip(ip),
    {
        match &self.peers {
            Some(db) => match db.get(PeerKey::Ip(ip)) {
                Some(entry) => {
                    return Some(entry.node.copy());
                },
                None => {},
            },
            None => {},
        }
        match &self.self_node {
            Some(n) => if n.owns_ip(ip) {
                Some(n.copy())
            } else {
                None
            },
            None => None,
        }
    }

    fn is_search_domain(&self, name: &str) -> (r: bool)
        ensures
            r == self@.cfg.search_domains.contains(name@),
    {
        let ghost domains = self@.cfg.search_domains;
        let mut i: usize = 0;
        while i < self.cfg.search_domains.len()
            invariant
                i <= self.cfg.search_domains@.len(),
                domains == texts(self.cfg.search_domains@),
                forall|j: int| 0 <= j < i ==> domains[j] != name@,
            decreases self.cfg.search_domains@.len() - i,
        {
            assert(domains[i as int] == self.cfg.search_domains@[i as int]@);
            if str_eq(&self.cfg.search_domains[i], name) {
                return true;
            }
            i = i + 1;
        }
        false
    }

    /// The node whose subdomain `canon` is, where control has said that it resolves them.
    ///
    /// The walk climbs every parent, but a parent of one label is no candidate (a peer named after
    /// a public suffix would swallow every name under it), and a search domain ends it.
    pub fn subdomain_host_for(&self, canon: &str) -> (r: Option<Node>)
        ensures
            r is Some == self@.subdomain_host(canon@) is Some,
            r is Some ==> Some(r->0@) == self@.subdomain_host(canon@),
    {
        let chars = chars_of(canon);
        let n: usize = chars.len();
        let mut from: usize = 0;
        assert(canon@.skip(0) =~= canon@);
        loop
            invariant
                n == chars@.len(),
                chars@ == canon@,
                from <= n,
                self@.subdomain_host(canon@) == self@.subdomain_host(canon@.skip(from as int)),
            decreases n - from,
        {
            let ghost here = canon@.skip(from as int);
            proof {
                first_index_is_first(here, '.');
            }
            let dot = find_char(&chars, from, '.');
            if dot == n {
                return None;
            }
            from = dot + 1;
            let ghost up = canon@.skip(from as int);
            assert(up =~= parent(here));
            proof {
                first_index_is_first(up, '.');
            }
            if find_char(&chars, from, '.') == n {
                return None;
            }
            let name = string_of(&chars, from, n);
            assert(name@ =~= up);
            if self.is_search_domain(&name) {
                return None;
            }
            match self.node_by_name(&name) {
                Some(node) => {
                    if node.resolves_subdomains() {
                        return Some(node);
                    }
                },
                None => {},
            }
        }
    }

    fn exact_node(&self, canon: &str) -> (r: Option<Node>)
        ensures
            r is Some == self@.exact_node(canon@) is Some,
            r is Some ==> Some(r->0@) == self@.exact_node(canon@),
    {
        match self.node_by_name(canon) {
            Some(n) => {
                return Some(n);
            },
            None => {},
        }
        let ghost m = self@;
        let ghost domains = m.cfg.search_domains;
        let ghost p = |i: int|
            m.node_by_name(qualified(canon@, m.cfg.search_domains[i])) is Some;
        let mut i: usize = 0;
        while i < self.cfg.search_domains.len()
            invariant
                i <= self.cfg.search_domains@.len(),
                m == self@,
                domains == texts(self.cfg.search_domains@),
                m.cfg.search_domains == domains,
                m.node_by_name(canon@) is None,
                p == (|i: int|
                    m.node_by_name(qualified(canon@, m.cfg.search_domains[i])) is Some),
                forall|j: int| 0 <= j < i ==> !#[trigger] p(j),
            decreases self.cfg.search_domains@.len() - i,
        {
            assert(domains[i as int] == self.cfg.search_domains@[i as int]@);
            let name = qualify(canon, &self.cfg.search_domains[i]);
            match self.node_by_name(&name) {
                Some(n) => {
                    assert(p(i as int));
                    proof {
                        first_where_is(p, domains.len() as int, i as int);
                    }
                    return Some(n);
                },
                None => {},
            }
            assert(!p(i as int));
            i = i + 1;
        }
        proof {
            first_where_none(p, domains.len() as int);
        }
        None
    }

    /// The address of the wanted family that `canon` resolves to here.
    ///
    /// A node's own name comes first, as it stands and then qualified by each search domain; then
    /// a record of exactly this name; then a parent that resolves its subdomains. A record of the
    /// other family alone means that the name exists and has no such address.
    pub fn resolve_addr(&self, canon: &str, want_v4: bool) -> (r: Option<IpAddr>)
        ensures
            r == self@.resolve(canon@, want_v4),
    {
        match self.exact_node(canon) {
            Some(n) => {
                return Some(
                    if want_v4 {
                        IpAddr::V4(n.ipv4)
                    } else {
                        IpAddr::V6(n.ipv6)
                    },
                );
            },
            None => {},
        }
        let ghost m = self@;
        let ghost records = m.cfg.extra_records;
        let ghost p = |i: int|
            m.cfg.extra_records[i].name == canon@ && (m.cfg.extra_records[i].addr is V4)
                == want_v4;
        let mut named: bool = false;
        let mut i: usize = 0;
        while i < self.cfg.extra_records.len()
            invariant
                i <= self.cfg.extra_records@.len(),
                m == self@,
                records == m.cfg.extra_records,
                records.len() == self.cfg.extra_records@.len(),
                m.exact_node(canon@) is None,
                p == (|i: int|
                    m.cfg.extra_records[i].name == canon@ && (m.cfg.extra_records[i].addr is V4)
                        == want_v4),
                forall|j: int| 0 <= j < i ==> !#[trigger] p(j),
                named <==> exists|j: int| 0 <= j < i && (#[trigger] records[j]).name == canon@,
            decreases self.cfg.extra_records@.len() - i,
        {
            assert(records[i as int] == self.cfg.extra_records@[i as int]@);
            let rec = &self.cfg.extra_records[i];
            if str_eq(&rec.name, canon) {
                named = true;
                if rec.addr.is_ipv4() == want_v4 {
                    assert(p(i as int));
                    proof {
                        first_where_is(p, records.len() as int, i as int);
                    }
                    assert(m.has_record(canon@)) by {
                        assert(records[i as int].name == canon@);
                    }
                    return Some(rec.addr);
                }
            }
            assert(!p(i as int));
            i = i + 1;
        }
        proof {
            first_where_none(p, records.len() as int);
        }
        if named {
            return None;
        }
        match self.subdomain_host_for(canon) {
            Some(n) => Some(
                if want_v4 {
                    IpAddr::V4(n.ipv4)
                } else {
                    IpAddr::V6(n.ipv6)
                },
            ),
            None => None,
        }
    }

    /// Where a name that nobody here answers for is forwarded to: the longest matching route wins.
    pub fn route_for(&self, name: &str) -> (r: Upstreams<'_>)
        ensures
            r@ == self@.route(name@),
    {
        let ghost m = self@;
        let ghost routes = m.cfg.routes;
        let mut best: Option<usize> = None;
        let mut best_len: usize = 0;
        let mut i: usize = 0;
        while i < self.cfg.routes.len()
            invariant
                i <= self.cfg.routes@.len(),
                m == self@,
                routes == m.cfg.routes,
                routes.len() == self.cfg.routes@.len(),
                match best {
                    Some(b) => b < i && under(name@, routes[b as int].suffix) && best_len
                        == routes[b as int].suffix.len() && forall|j: int|
                        0 <= j < i && under(name@, (#[trigger] routes[j]).suffix)
                            ==> routes[j].suffix.len() < routes[b as int].suffix.len() || (
                        routes[j].suffix.len() == routes[b as int].suffix.len() && b <= j),
                    None => forall|j: int|
                        0 <= j < i ==> !under(name@, (#[trigger] routes[j]).suffix),
                },
            decreases self.cfg.routes@.len() - i,
        {
            assert(routes[i as int] == self.cfg.routes@[i as int]@);
            if suffix_matches(name, &self.cfg.routes[i].suffix) {
                let len: usize = chars_of(&self.cfg.routes[i].suffix).len();
                if best.is_none() || len > best_len {
                    best = Some(i);
                    best_len = len;
                }
            }
            i = i + 1;
        }
        match best {
            Some(b) => {
                assert(best_route(routes, name@, b as int));
                assert(any_route(routes, name@)) by {
                    assert(under(name@, routes[b as int].suffix));
                }
                proof {
                    let c = choose|c: int| best_route(routes, name@, c);
                    one_best_route(routes, name@, b as int, c);
                }
                assert(routes[b as int] == self.cfg.routes@[b as int]@);
                if self.cfg.routes[b].upstreams.len() == 0 {
                    Upstreams::Block
                } else {
                    Upstreams::Route(&self.cfg.routes[b].upstreams)
                }
            },
            None => {
                assert(!any_route(routes, name@));
                if self.cfg.fallback_resolvers.len() > 0 {
                    Upstreams::Recursive(&self.cfg.fallback_resolvers)
                } else if self.cfg.resolvers.len() > 0 {
                    Upstreams::Recursive(&self.cfg.resolvers)
                } else {
                    Upstreams::Nowhere
                }
            },
        }
    }

    /// Whether a truncated upstream answer may be asked for again over TCP: yes, unless control
    /// has switched it off on this node.
    pub fn upstream_tcp_retry(&self) -> (r: TcpRetry)
        ensures
            r == self@.tcp_retry(),
    {
        match &self.self_node {
            Some(n) => if n.disable_dns_forwarder_tcp_retries() {
                TcpRetry::Disabled
            } else {
                TcpRetry::Enabled
            },
            None => TcpRetry::Enabled,
        }
    }

    /// Takes what control says of the configuration and of this node. No configuration is one that
    /// serves nothing.
    pub fn on_state_update(
        &mut self,
        cfg: Option<DnsConfig>,
        self_node: Option<Node>,
        accept_dns: bool,
    )
        ensures
            final(self)@ == (ViewModel {
                cfg: match cfg {
                    Some(c) => c@,
                    None => empty_config(),
                },
                self_node: match self_node {
                    Some(n) => Some(n@),
                    None => None,
                },
                accept_dns,
                ..old(self)@
            }),
    {
        self.cfg = match cfg {
            Some(c) => c,
            None => DnsConfig::empty(),
        };
        self.self_node = self_node;
        self.accept_dns = accept_dns;
    }

    /// Takes the peers.
    pub fn on_peer_state(&mut self, peers: PeerDb, accept_dns: bool)
        ensures
            final(self)@ == (ViewModel { peers: Some(peers@), accept_dns, ..old(self)@ }),
    {
        self.peers = Some(peers);
        self.accept_dns = accept_dns;
    }

    /// Takes where the selected exit node resolves names.
    pub fn on_exit_node(&mut self, exit_doh: Option<SocketAddr>)
        ensures
            final(self)@ == (ViewModel { exit_doh, ..old(self)@ }),
    {
        self.exit_doh = exit_doh;
    }

    /// The view before anything is known.
    pub fn new(enable_ipv6: bool, accept_dns: bool) -> (r: DnsView)
        ensures
            r@ == (ViewModel {
                cfg: empty_config(),
                peers: None,
                self_node: None,
                exit_doh: None,
                enable_ipv6,
                accept_dns,
            }),
    {
        DnsView {
            cfg: DnsConfig::empty(),
            peers: None,
            self_node: None,
            exit_doh: None,
            enable_ipv6,
            accept_dns,
        }
    }
}

/// The configuration that serves nothing.
pub open spec fn empty_config() -> ConfigView {
    ConfigView {
        magic_dns: false,
        search_domains: Seq::empty(),
        routes: Seq::empty(),
        fallback_resolvers: Seq::empty(),
        resolvers: Seq::empty(),
        resolvers_with_exit_node: Seq::empty(),
        extra_records: Seq::empty(),
    }
}

impl DnsConfig {
    /// The configuration that serves nothing.
    pub fn empty() -> (r: DnsConfig)
        ensures
            r@ == empty_config(),
    {
        let r = DnsConfig {
            magic_dns: false,
            search_domains: Vec::new(),
            routes: Vec::new(),
            fallback_resolvers: Vec::new(),
            resolvers: Vec::new(),
            resolvers_with_exit_node: Vec::new(),
            extra_records: Vec::new(),
        };
        assert(r@ =~= empty_config());
        r
    }
}

impl ViewModel {
    /// Whether a truncated upstream answer may be asked for again over TCP.
    pub open spec fn tcp_retry(self) -> TcpRetry {
        match self.self_node {
            Some(n) if n.disables_tcp_retries() => TcpRetry::Disabled,
            _ => TcpRetry::Enabled,
        }
    }
}

proof fn one_best_route(routes: Seq<RouteView>, name: Seq<char>, a: int, b: int)
    requires
        best_route(routes, name, a),
        best_route(routes, name, b),
    ensures
        a == b,
{
    assert(under(name, routes[a].suffix));
    assert(under(name, routes[b].suffix));
}

/// Whether `name` is a name of the tailnet.
pub fn is_tailnet_name(view: &DnsView, name: &str) -> (r: bool)
    ensures
        r == view@.tailnet_name(name@),
{
    let ghost domains = view@.cfg.search_domains;
    let mut i: usize = 0;
    while i < view.cfg.search_domains.len()
        invariant
            i <= view.cfg.search_domains@.len(),
            domains == texts(view.cfg.search_domains@),
            forall|j: int| 0 <= j < i ==> !under(name@, #[trigger] domains[j]),
        decreases view.cfg.search_domains@.len() - i,
    {
        assert(domains[i as int] == view.cfg.search_domains@[i as int]@);
        if suffix_matches(name, &view.cfg.search_domains[i]) {
            assert(under(name@, view@.cfg.search_domains[i as int]));
            return true;
        }
        i = i + 1;
    }
    false
}

proof fn longest_zone_extends(a: Seq<Seq<char>>, z: Seq<char>, name: Seq<char>)
    ensures
        longest_zone(a.push(z), name) == (if under(name, z) && (longest_zone(a, name) is None
            || longest_zone(a, name)->0.len() <= z.len()) {
            Some(z)
        } else {
            longest_zone(a, name)
        }),
{
    assert(a.push(z).drop_last() =~= a);
}

/// The zone that this node is authoritative for and that holds the question's name: the reverse
/// zone of a tailnet address, else the longest of the search domains and the routes without
/// resolvers that the name is under.
pub fn authoritative_zone_for(view: &DnsView, q: &Question) -> (r: Option<String>)
    ensures
        match r {
            Some(zone) => view@.authority(q@) == Some(zone@),
            None => view@.authority(q@) is None,
        },
{
    match q.ptr_v4 {
        Some(ip) => {
            if is_tailnet_cgnat(ip) {
                return Some(reverse_zone_of(ip));
            }
        },
        None => {},
    }
    let ghost m = view@;
    let ghost name = q@.canon;
    let ghost domains = m.cfg.search_domains;
    let mut best: Option<String> = None;
    let mut best_len: usize = 0;
    let ghost mut seen: Seq<Seq<char>> = Seq::empty();
    let mut i: usize = 0;
    while i < view.cfg.search_domains.len()
        invariant
            i <= view.cfg.search_domains@.len(),
            m == view@,
            name == q.canon@,
            domains == texts(view.cfg.search_domains@),
            seen == domains.take(i as int),
            match best {
                Some(z) => longest_zone(seen, name) == Some(z@) && best_len == z@.len(),
                None => longest_zone(seen, name) is None,
            },
        decreases view.cfg.search_domains@.len() - i,
    {
        assert(domains[i as int] == view.cfg.search_domains@[i as int]@);
        let zone = &view.cfg.search_domains[i];
        proof {
            longest_zone_extends(seen, zone@, name);
            seen = seen.push(zone@);
            assert(seen =~= domains.take(i + 1));
        }
        if suffix_matches(&q.canon, zone) {
            let len: usize = chars_of(zone).len();
            if best.is_none() || best_len <= len {
                best = Some(zone.clone());
                best_len = len;
            }
        }
        i = i + 1;
    }
    assert(seen =~= domains);
    let ghost routes = m.cfg.routes;
    assert(negative_suffixes(routes.take(0)) =~= Seq::empty());
    assert(seen =~= domains + negative_suffixes(routes.take(0)));
    let mut k: usize = 0;
    while k < view.cfg.routes.len()
        invariant
            k <= view.cfg.routes@.len(),
            m == view@,
            name == q.canon@,
            routes == m.cfg.routes,
            routes.len() == view.cfg.routes@.len(),
            seen == domains + negative_suffixes(routes.take(k as int)),
            match best {
                Some(z) => longest_zone(seen, name) == Some(z@) && best_len == z@.len(),
                None => longest_zone(seen, name) is None,
            },
        decreases view.cfg.routes@.len() - k,
    {
        assert(routes[k as int] == view.cfg.routes@[k as int]@);
        assert(routes.take(k + 1).drop_last() =~= routes.take(k as int));
        if view.cfg.routes[k].upstreams.len() == 0 {
            let zone = &view.cfg.routes[k].suffix;
            proof {
                longest_zone_extends(seen, zone@, name);
                seen = seen.push(zone@);
                assert(seen =~= domains + negative_suffixes(routes.take(k + 1)));
            }
            if suffix_matches(&q.canon, zone) {
                let len: usize = chars_of(zone).len();
                if best.is_none() || best_len <= len {
                    best = Some(zone.clone());
                    best_len = len;
                }
            }
        }
        k = k + 1;
    }
    assert(routes.take(routes.len() as int) =~= routes);
    best
}

/// The zone to name in a negative answer to `q`, published under `serial`.
pub fn soa_for(view: &DnsView, q: &Question, serial: u32) -> (r: Option<SoaZone>)
    ensures
        soa_view(r) == view@.soa(q@, serial),
{
    match authoritative_zone_for(view, q) {
        Some(zone) => Some(SoaZone { zone: split_on(&zone, '.'), serial }),
        None => None,
    }
}

fn v4_addresses(v: &Vec<SocketAddr>) -> (r: Vec<SocketAddr>)
    ensures
        r@ == v4_only(v@),
{
    let mut out: Vec<SocketAddr> = Vec::new();
    let n: usize = v.len();
    let mut i: usize = 0;
    assert(v@.take(0) =~= Seq::<SocketAddr>::empty());
    while i < n
        invariant
            i <= n,
            n == v@.len(),
            out@ == v4_only(v@.take(i as int)),
        decreases n - i,
    {
        assert(v@.take(i + 1).drop_last() =~= v@.take(i as int));
        if v[i].is_ipv4() {
            out.push(v[i]);
        }
        i = i + 1;
    }
    assert(v@.take(n as int) =~= v@);
    out
}

fn forward_to(resolvers: &Vec<SocketAddr>, buf: &[u8], recursive: bool) -> (r: Decision)
    ensures
        r@ == to_resolvers(resolvers@, buf@, recursive),
{
    let upstreams = v4_addresses(resolvers);
    if upstreams.len() == 0 {
        return Decision::Reply(bare_reply(Rcode::ServFail));
    }
    let mut query: Vec<u8> = Vec::new();
    query.extend_from_slice(buf);
    assert(query@ =~= buf@);
    Decision::Forward { upstreams, query, servfail: bare_reply(Rcode::ServFail), recursive }
}

/// Forwards a question that nobody here answers, or says why not.
///
/// A tailnet name, a reverse name of a tailnet address and a name under a route without resolvers
/// do not exist, and that is final. A name that is not the tailnet's and cannot be forwarded is a
/// soft failure: to say that it does not exist would be remembered.
pub fn forward_or_nxdomain(view: &DnsView, q: &Question, buf: &[u8], serial: u32) -> (r: Decision)
    ensures
        r@ == view@.forward(q@, buf@, serial),
{
    if is_tailnet_name(view, &q.canon) {
        return Decision::Reply(negative_reply(Rcode::NxDomain, soa_for(view, q, serial)));
    }
    if is_ip6_arpa(&q.canon) {
        return Decision::Reply(bare_reply(Rcode::NxDomain));
    }
    match q.ptr_v4 {
        Some(ip) => {
            if is_tailnet_cgnat(ip) {
                return Decision::Reply(negative_reply(Rcode::NxDomain, soa_for(view, q, serial)));
            }
        },
        None => {},
    }
    match view.route_for(&q.canon) {
        Upstreams::Route(v) => forward_to(v, buf, false),
        Upstreams::Recursive(v) => forward_to(v, buf, true),
        Upstreams::Block => Decision::Reply(
            negative_reply(Rcode::NxDomain, soa_for(view, q, serial)),
        ),
        Upstreams::Nowhere => Decision::Reply(bare_reply(Rcode::ServFail)),
    }
}

/// Forwards a question of a type or class that is not served here. A tailnet name exists, so it
/// has no data of that type, or the type is not implemented for it.
pub fn forward_or_nodata(view: &DnsView, q: &Question, buf: &[u8], serial: u32) -> (r: Decision)
    ensures
        r@ == view@.forward_unserved(q@, buf@, serial),
{
    if is_tailnet_name(view, &q.canon) {
        let rcode = if is_unimplemented_tailnet_qtype(q.qtype) {
            Rcode::NotImpl
        } else {
            Rcode::NoError
        };
        return Decision::Reply(bare_reply(rcode));
    }
    forward_or_nxdomain(view, q, buf, serial)
}

/// Decides a question whose query is `buf`, publishing `serial` in negative answers.
pub fn decide_at(view: &DnsView, q: &Question, buf: &[u8], serial: u32) -> (r: Decision)
    ensures
        r@ == view@.decision(q@, buf@, serial),
{
    if !view.cfg.magic_dns || !view.accept_dns {
        return Decision::Reply(bare_reply(Rcode::Refused));
    }
    if q.qclass != CLASS_IN {
        return forward_or_nodata(view, q, buf, serial);
    }
    match q.qtype {
        QType::A => match view.resolve_addr(&q.canon, true) {
            Some(IpAddr::V4(ip)) => Decision::Reply(positive_reply(RData::A(ip))),
            _ => forward_or_nxdomain(view, q, buf, serial),
        },
        QType::Aaaa => match view.resolve_addr(&q.canon, false) {
            Some(IpAddr::V6(ip)) => if view.enable_ipv6 {
                Decision::Reply(positive_reply(RData::Aaaa(ip)))
            } else {
                Decision::Reply(negative_reply(Rcode::NoError, soa_for(view, q, serial)))
            },
            _ => forward_or_nxdomain(view, q, buf, serial),
        },
        QType::Ptr => match q.ptr_v4 {
            Some(ip) => match view.node_by_ip(IpAddr::V4(ip)) {
                Some(node) => {
                    let name = node.fqdn();
                    Decision::Reply(positive_reply(RData::Ptr(split_on(&name, '.'))))
                },
                None => if is_tailnet_cgnat(ip) {
                    Decision::Reply(negative_reply(Rcode::NxDomain, soa_for(view, q, serial)))
                } else {
                    forward_or_nxdomain(view, q, buf, serial)
                },
            },
            None => if is_ip6_arpa(&q.canon) {
                Decision::Reply(bare_reply(Rcode::NxDomain))
            } else {
                forward_or_nxdomain(view, q, buf, serial)
            },
        },
        QType::Other(_) => forward_or_nodata(view, q, buf, serial),
    }
}

/// Decides the query `buf`, whose question is `question`. A query that could not be decoded is
/// dropped: `None`.
///
/// The serial of a negative answer is that of the clock; nothing else depends on it.
pub fn decide(view: &DnsView, question: Option<&Question>, buf: &[u8]) -> (r: Option<Decision>)
    ensures
        match question {
            Some(q) => r is Some && exists|reading: Option<(u64, u32)>|
                r->0@ == view@.decision(q@, buf@, #[trigger] serial_of(reading)),
            None => r is None,
        },
{
    match question {
        Some(q) => {
            let serial: u32 = soa_serial();
            Some(decide_at(view, q, buf, serial))
        },
        None => None,
    }
}

/// How a forward is carried out.
#[derive(Debug, PartialEq, Eq)]
pub enum RecursivePlan {
    /// Ask these resolvers over UDP.
    Udp(Vec<SocketAddr>),
    /// Hand the query to the exit node at this address.
    Doh(SocketAddr),
}

/// The model of a [`RecursivePlan`].
pub enum PlanView {
    Udp(Seq<SocketAddr>),
    Doh(SocketAddr),
}

impl View for RecursivePlan {
    type V = PlanView;

    open spec fn view(&self) -> PlanView {
        match *self {
            RecursivePlan::Udp(v) => PlanView::Udp(v@),
            RecursivePlan::Doh(addr) => PlanView::Doh(addr),
        }
    }
}

impl ViewModel {
    /// The plan for a recursive forward: the exit node resolves, where one is selected and no
    /// resolver is to stay in use beside it.
    pub open spec fn recursive_plan(self, upstreams: Seq<SocketAddr>) -> PlanView {
        match self.exit_doh {
            None => PlanView::Udp(upstreams),
            Some(doh) => if v4_only(self.cfg.resolvers_with_exit_node).len() == 0 {
                PlanView::Doh(doh)
            } else {
                PlanView::Udp(v4_only(self.cfg.resolvers_with_exit_node))
            },
        }
    }

    /// The plan for a forward. A split-DNS route always keeps its own resolvers.
    pub open spec fn plan(self, upstreams: Seq<SocketAddr>, recursive: bool) -> PlanView {
        if recursive {
            self.recursive_plan(upstreams)
        } else {
            PlanView::Udp(upstreams)
        }
    }
}

/// Plans a recursive forward.
pub fn recursive_plan(view: &DnsView, default_upstreams: Vec<SocketAddr>) -> (r: RecursivePlan)
    ensures
        r@ == view@.recursive_plan(default_upstreams@),
{
    let doh = match view.exit_doh {
        Some(addr) => addr,
        None => {
            return RecursivePlan::Udp(default_upstreams);
        },
    };
    let stay = v4_addresses(&view.cfg.resolvers_with_exit_node);
    if stay.len() == 0 {
        RecursivePlan::Doh(doh)
    } else {
        RecursivePlan::Udp(stay)
    }
}

/// Plans a forward.
pub fn forward_plan(view: &DnsView, upstreams: Vec<SocketAddr>, recursive: bool) -> (r:
    RecursivePlan)
    ensures
        r@ == view@.plan(upstreams@, recursive),
{
    if recursive {
        recursive_plan(view, upstreams)
    } else {
        RecursivePlan::Udp(upstreams)
    }
}

/// What is done with a query.
#[derive(Debug, PartialEq, Eq)]
pub enum ServeStep {
    /// Nothing: it is no query.
    Drop,
    /// Send this reply.
    Reply(DnsReply),
    /// Ask these resolvers, in order, and over TCP again where `retry` allows it.
    Udp { upstreams: Vec<SocketAddr>, query: Vec<u8>, servfail: DnsReply, retry: TcpRetry },
    /// Hand it to the exit node.
    Doh { addr: SocketAddr, query: Vec<u8>, servfail: DnsReply },
}

/// The model of a [`ServeStep`].
pub enum ServeView {
    Drop,
    Reply(DnsReplyView),
    Udp { upstreams: Seq<SocketAddr>, query: Seq<u8>, servfail: DnsReplyView, retry: TcpRetry },
    Doh { addr: SocketAddr, query: Seq<u8>, servfail: DnsReplyView },
}

impl View for ServeStep {
    type V = ServeView;

    open spec fn view(&self) -> ServeView {
        match *self {
            ServeStep::Drop => ServeView::Drop,
            ServeStep::Reply(r) => ServeView::Reply(r@),
            ServeStep::Udp { upstreams, query, servfail, retry } => ServeView::Udp {
                upstreams: upstreams@,
                query: query@,
                servfail: servfail@,
                retry,
            },
            ServeStep::Doh { addr, query, servfail } => ServeView::Doh {
                addr,
                query: query@,
                servfail: servfail@,
            },
        }
    }
}

impl ViewModel {
    /// What is done with a query.
    pub open spec fn served(
        self,
        question: Option<QuestionView>,
        buf: Seq<u8>,
        serial: u32,
    ) -> ServeView {
        match question {
            None => ServeView::Drop,
            Some(q) => match self.decision(q, buf, serial) {
                DecisionView::Reply(r) => ServeView::Reply(r),
                DecisionView::Forward { upstreams, query, servfail, recursive } => match self.plan(
                    upstreams,
                    recursive,
                ) {
                    PlanView::Udp(upstreams) => ServeView::Udp {
                        upstreams,
                        query,
                        servfail,
                        retry: self.tcp_retry(),
                    },
                    PlanView::Doh(addr) => ServeView::Doh { addr, query, servfail },
                },
            },
        }
    }
}

/// Decides the query `buf` and plans what follows, publishing `serial` in negative answers.
/// `question` is what the query decodes to, and nothing where it is none.
pub fn serve_step(
    view: &DnsView,
    question: Option<&Question>,
    buf: &[u8],
    serial: u32,
) -> (r: ServeStep)
    ensures
        r@ == view@.served(
            match question {
                Some(q) => Some(q@),
                None => None,
            },
            buf@,
            serial,
        ),
{
    let q = match question {
        Some(q) => q,
        None => {
            return ServeStep::Drop;
        },
    };
    match decide_at(view, q, buf, serial) {
        Decision::Reply(reply) => ServeStep::Reply(reply),
        Decision::Forward { upstreams, query, servfail, recursive } => match forward_plan(
            view,
            upstreams,
            recursive,
        ) {
            RecursivePlan::Udp(upstreams) => ServeStep::Udp {
                upstreams,
                query,
                servfail,
                retry: view.upstream_tcp_retry(),
            },
            RecursivePlan::Doh(addr) => ServeStep::Doh { addr, query, servfail },
        },
    }
}

/// What is done with a query while `in_flight` forwarded queries are unanswered: one that would be
/// forwarded is dropped once there are as many as there may be, and a reply is sent all the same.
pub open spec fn bounded(step: ServeView, in_flight: nat) -> ServeView {
    match step {
        ServeView::Drop => step,
        ServeView::Reply(_) => step,
        _ => if in_flight < MAX_INFLIGHT_FORWARDS {
            step
        } else {
            ServeView::Drop
        },
    }
}

/// Drops a query that would be forwarded while as many are in flight as there may be.
pub fn bound_forwards(step: ServeStep, in_flight: usize) -> (r: ServeStep)
    ensures
        r@ == bounded(step@, in_flight as nat),
{
    match step {
        ServeStep::Drop => ServeStep::Drop,
        ServeStep::Reply(reply) => ServeStep::Reply(reply),
        step => if in_flight < MAX_INFLIGHT_FORWARDS {
            step
        } else {
            ServeStep::Drop
        },
    }
}

/// A query is forwarded only while fewer are in flight than there may be, so that with it there are
/// at most that many.
pub proof fn forwards_in_flight_are_bounded(step: ServeView, in_flight: nat)
    requires
        bounded(step, in_flight) is Udp || bounded(step, in_flight) is Doh,
    ensures
        in_flight + 1 <= MAX_INFLIGHT_FORWARDS,
        bounded(step, in_flight) == step,
{
}

/// The resolvers that a query goes to.
pub open spec fn consulted(step: ServeView) -> Seq<SocketAddr> {
    match step {
        ServeView::Drop => Seq::empty(),
        ServeView::Reply(_) => Seq::empty(),
        ServeView::Udp { upstreams, .. } => upstreams,
        ServeView::Doh { addr, .. } => seq![addr],
    }
}

/// Lists the resolvers that a query goes to: none where it is answered here.
pub fn resolvers_consulted(step: &ServeStep) -> (r: Vec<SocketAddr>)
    ensures
        r@ == consulted(step@),
{
    let mut out: Vec<SocketAddr> = Vec::new();
    match step {
        ServeStep::Drop => {},
        ServeStep::Reply(_) => {},
        ServeStep::Udp { upstreams, .. } => {
            out.extend_from_slice(upstreams.as_slice());
        },
        ServeStep::Doh { addr, .. } => {
            out.push(*addr);
        },
    }
    assert(out@ =~= consulted(step@));
    out
}

/// A query made by a program on this node.
#[derive(Debug)]
pub struct Query {
    /// The name to resolve.
    pub name: String,
    /// The number of the type to ask for.
    pub qtype: u16,
}

/// The type with the number `n`.
pub open spec fn type_of(n: u16) -> QType {
    if n == 1 {
        QType::A
    } else if n == 28 {
        QType::Aaaa
    } else if n == 12 {
        QType::Ptr
    } else {
        QType::Other(n)
    }
}

/// The members of `parts` that are not empty.
pub open spec fn nonempty(parts: Seq<Seq<char>>) -> Seq<Seq<char>>
    decreases parts.len(),
{
    if parts.len() == 0 {
        Seq::empty()
    } else {
        let before = nonempty(parts.drop_last());
        if parts.last().len() > 0 {
            before.push(parts.last())
        } else {
            before
        }
    }
}

/// The labels of a name, without empty ones.
///
/// An empty label would be encoded as the end of the name. One trailing dot, the mark of a full
/// name, makes no label either way.
pub open spec fn labels_of(name: Seq<char>) -> Seq<Seq<char>> {
    nonempty(
        split(
            if name.len() > 0 && name.last() == '.' {
                name.drop_last()
            } else {
                name
            },
            '.',
        ),
    )
}

impl Query {
    /// The labels and the type of the question to ask.
    pub fn question(&self) -> (r: (Vec<String>, QType))
        ensures
            texts(r.0@) == labels_of(self.name@),
            r.1 == type_of(self.qtype),
    {
        let chars = chars_of(&self.name);
        let n: usize = chars.len();
        let end: usize = if n > 0 && chars[n - 1] == '.' {
            n - 1
        } else {
            n
        };
        let trimmed = string_of(&chars, 0, end);
        assert(trimmed@ =~= if self.name@.len() > 0 && self.name@.last() == '.' {
            self.name@.drop_last()
        } else {
            self.name@
        });
        let parts = split_on(&trimmed, '.');
        let ghost all = split(trimmed@, '.');
        let mut labels: Vec<String> = Vec::new();
        let mut i: usize = 0;
        assert(all.take(0) =~= Seq::<Seq<char>>::empty());
        assert(texts(labels@) =~= Seq::<Seq<char>>::empty());
        while i < parts.len()
            invariant
                i <= parts@.len(),
                texts(parts@) == all,
                all.len() == parts@.len(),
                texts(labels@) == nonempty(all.take(i as int)),
            decreases parts@.len() - i,
        {
            assert(all.take(i + 1).drop_last() =~= all.take(i as int));
            assert(all[i as int] == parts@[i as int]@);
            assert(all.take(i + 1).last() == all[i as int]);
            if !parts[i].as_str().is_empty() {
                let ghost before = labels@;
                let label = parts[i].clone();
                labels.push(label);
                assert(label@ == all[i as int]);
                assert(texts(labels@) =~= texts(before).push(label@));
            }
            assert(texts(labels@) == nonempty(all.take(i + 1)));
            i = i + 1;
        }
        assert(all.take(all.len() as int) =~= all);
        let qtype = match self.qtype {
            1 => QType::A,
            28 => QType::Aaaa,
            12 => QType::Ptr,
            other => QType::Other(other),
        };
        (labels, qtype)
    }
}

/// The outcome of a [`Query`].
#[derive(Debug)]
pub struct DnsQueryResult {
    /// The response, as it came or was made.
    pub response: Vec<u8>,
    /// Its response code.
    pub rcode: u8,
    /// The resolvers that the query went to; none where it was answered here.
    pub resolvers_consulted: Vec<SocketAddr>,
}

impl DnsQueryResult {
    /// The outcome with the response `response`. One too short to have a response code counts as
    /// code 0.
    pub fn new(response: Vec<u8>, resolvers_consulted: Vec<SocketAddr>) -> (r: Self)
        ensures
            r.response@ == response@,
            r.resolvers_consulted@ == resolvers_consulted@,
            r.rcode == (match rcode_of(response@) {
                Some(code) => code,
                None => 0,
            }),
    {
        let rcode: u8 = match response_rcode(&response) {
            Some(code) => code,
            None => 0,
        };
        DnsQueryResult { response, rcode, resolvers_consulted }
    }
}

/// Nothing is served, of any name, type or class, while MagicDNS is off or this node does not take
/// the tailnet's configuration.
pub proof fn nothing_is_served_while_off(
    m: ViewModel,
    q: QuestionView,
    buf: Seq<u8>,
    serial: u32,
)
    requires
        !m.cfg.magic_dns || !m.accept_dns,
    ensures
        m.decision(q, buf, serial) == DecisionView::Reply(bare(Rcode::Refused)),
{
}

/// A tailnet name never leaves this node, whatever the type and class it is asked for.
pub proof fn tailnet_names_are_never_forwarded(
    m: ViewModel,
    q: QuestionView,
    buf: Seq<u8>,
    serial: u32,
)
    requires
        m.tailnet_name(q.canon),
    ensures
        m.decision(q, buf, serial) is Reply,
{
}

/// A reverse name of what may be a tailnet address never leaves this node, whatever the type and
/// class it is asked for.
pub proof fn tailnet_reverse_names_are_never_forwarded(
    m: ViewModel,
    q: QuestionView,
    buf: Seq<u8>,
    serial: u32,
)
    requires
        reverse_of_tailnet(q),
    ensures
        m.decision(q, buf, serial) is Reply,
{
}

proof fn v4_only_is_v4(v: Seq<SocketAddr>)
    ensures
        forall|i: int| 0 <= i < v4_only(v).len() ==> (#[trigger] v4_only(v)[i]).ip is V4,
        forall|i: int| 0 <= i < v4_only(v).len() ==> v.contains(#[trigger] v4_only(v)[i]),
    decreases v.len(),
{
    if v.len() > 0 {
        let short = v.drop_last();
        v4_only_is_v4(short);
        assert forall|i: int| 0 <= i < v4_only(v).len() implies (#[trigger] v4_only(v)[i]).ip is V4
            && v.contains(v4_only(v)[i]) by {
            if i < v4_only(short).len() {
                assert(v4_only(v)[i] == v4_only(short)[i]);
                let k = choose|k: int| 0 <= k < short.len() && short[k] == v4_only(short)[i];
                assert(v[k] == v4_only(v)[i]);
            } else {
                assert(v[v.len() - 1] == v4_only(v)[i]);
            }
        }
    }
}

/// A query is forwarded verbatim, to at least one resolver, and to IPv4 resolvers only; where none
/// answers, the reply is a soft failure.
pub proof fn forwards_go_to_ipv4_resolvers(
    m: ViewModel,
    q: QuestionView,
    buf: Seq<u8>,
    serial: u32,
    i: int,
)
    ensures
        match m.decision(q, buf, serial) {
            DecisionView::Forward { upstreams, query, servfail, .. } => query == buf && servfail
                == bare(Rcode::ServFail) && upstreams.len() > 0 && (0 <= i < upstreams.len()
                ==> upstreams[i].ip is V4),
            DecisionView::Reply(_) => true,
        },
{
    match m.route(q.canon) {
        RoutedTo::Route(v) => {
            v4_only_is_v4(v);
        },
        RoutedTo::Recursive(v) => {
            v4_only_is_v4(v);
        },
        _ => {},
    }
}

/// The plan for a forward never turns to IPv6 resolvers where the forward did not, and keeps a
/// route's own resolvers.
pub proof fn plans_stay_on_ipv4(m: ViewModel, upstreams: Seq<SocketAddr>, recursive: bool, i: int)
    requires
        forall|k: int| 0 <= k < upstreams.len() ==> (#[trigger] upstreams[k]).ip is V4,
    ensures
        match m.plan(upstreams, recursive) {
            PlanView::Udp(v) => 0 <= i < v.len() ==> v[i].ip is V4,
            PlanView::Doh(addr) => recursive && m.exit_doh == Some(addr),
        },
        !recursive || m.exit_doh is None ==> m.plan(upstreams, recursive) == PlanView::Udp(
            upstreams,
        ),
{
    v4_only_is_v4(m.cfg.resolvers_with_exit_node);
}

/// No resolver learns of a tailnet name, nor of a reverse name of what may be a tailnet address.
pub proof fn tailnet_names_consult_nobody(
    m: ViewModel,
    q: QuestionView,
    buf: Seq<u8>,
    serial: u32,
)
    requires
        m.tailnet_name(q.canon) || reverse_of_tailnet(q),
    ensures
        consulted(m.served(Some(q), buf, serial)).len() == 0,
{
}

/// An IPv6 address is given out only where IPv6 is enabled.
pub proof fn no_ipv6_answers_while_off(m: ViewModel, q: QuestionView, buf: Seq<u8>, serial: u32)
    requires
        !m.enable_ipv6,
    ensures
        match m.decision(q, buf, serial) {
            DecisionView::Reply(r) => forall|i: int|
                0 <= i < r.answers.len() ==> !(#[trigger] r.answers[i] is Aaaa),
            DecisionView::Forward { .. } => true,
        },
{
}

/// A name that resolves here is answered here, whatever the routes say.
pub proof fn answers_here_beat_forwarding(m: ViewModel, q: QuestionView, buf: Seq<u8>, serial: u32)
    requires
        m.cfg.magic_dns,
        m.accept_dns,
        q.qclass == CLASS_IN,
        q.qtype is A,
        m.resolve(q.canon, true) is Some,
    ensures
        m.decision(q, buf, serial) is Reply,
        m.decision(q, buf, serial)->Reply_0.rcode == Rcode::NoError,
        m.decision(q, buf, serial)->Reply_0.answers.len() == 1,
{
    let p = |i: int|
        m.cfg.extra_records[i].name == q.canon && (m.cfg.extra_records[i].addr is V4) == true;
    first_where_is_first(p, m.cfg.extra_records.len() as int);
}

/// The zone that a negative answer names is one that the question's name is under, and no served
/// zone that it is under is longer.
pub proof fn the_longest_zone_is_named(zones: Seq<Seq<char>>, name: Seq<char>)
    ensures
        match longest_zone(zones, name) {
            Some(z) => under(name, z) && zones.contains(z) && forall|i: int|
                0 <= i < zones.len() && under(name, #[trigger] zones[i]) ==> zones[i].len()
                    <= z.len(),
            None => forall|i: int| 0 <= i < zones.len() ==> !under(name, #[trigger] zones[i]),
        },
    decreases zones.len(),
{
    if zones.len() > 0 {
        let short = zones.drop_last();
        the_longest_zone_is_named(short, name);
        assert forall|i: int| 0 <= i < zones.len() implies i == zones.len() - 1 || zones[i]
            == #[trigger] short[i] by {}
        match longest_zone(zones, name) {
            Some(z) => {
                if z == zones.last() && under(name, zones.last()) {
                    assert(zones[zones.len() - 1] == z);
                } else {
                    let k = choose|k: int| 0 <= k < short.len() && short[k] == z;
                    assert(zones[k] == z);
                }
                assert forall|i: int| 0 <= i < zones.len() && under(
                    name,
                    #[trigger] zones[i],
                ) implies zones[i].len() <= z.len() by {
                    if i < short.len() {
                        assert(zones[i] == short[i]);
                    }
                }
            },
            None => {
                assert forall|i: int| 0 <= i < zones.len() implies !under(
                    name,
                    #[trigger] zones[i],
                ) by {
                    if i < short.len() {
                        assert(zones[i] == short[i]);
                    }
                }
            },
        }
    }
}

/// Only the longest matching route is taken: where some route matches, the decision on the name is
/// that of a route that matches it and that no matching route outdoes.
pub proof fn the_longest_route_wins(m: ViewModel, name: Seq<char>)
    requires
        any_route(m.cfg.routes, name),
    ensures
        exists|i: int| #[trigger]
            best_route(m.cfg.routes, name, i) && m.route(name) == (if m.cfg.routes[i].upstreams.len()
                == 0 {
                RoutedTo::Block
            } else {
                RoutedTo::Route(m.cfg.routes[i].upstreams)
            }),
{
    let i = choose|i: int|
        0 <= i < m.cfg.routes.len() && under(name, (#[trigger] m.cfg.routes[i]).suffix);
    some_route_is_best(m.cfg.routes, name, i);
}

proof fn some_route_is_best(routes: Seq<RouteView>, name: Seq<char>, i: int)
    requires
        0 <= i < routes.len(),
        under(name, routes[i].suffix),
    ensures
        exists|b: int| best_route(routes, name, b),
    decreases name.len() - routes[i].suffix.len(), i,
{
    if !best_route(routes, name, i) {
        let j = choose|j: int|
            0 <= j < routes.len() && under(name, (#[trigger] routes[j]).suffix) && !(
            routes[j].suffix.len() < routes[i].suffix.len() || (routes[j].suffix.len()
                == routes[i].suffix.len() && i <= j));
        some_route_is_best(routes, name, j);
    }
}

} // verus!
