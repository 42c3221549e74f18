//! Tailnet nodes: what this crate reads of a node that control describes.

use vstd::prelude::*;

use crate::addr::{IpAddr, IpPrefix, Ipv4Addr, Ipv6Addr, SocketAddr};
use crate::text::{chars_eq, chars_of, lower, lower_all, lower_char, str_eq, texts};

verus! {

/// A node's number in control's netmap.
pub type NodeId = i64;

/// A user's number.
pub type UserId = i64;

/// A peer's number in this process.
#[derive(Clone, Copy, Debug, PartialEq, Eq, Structural)]
pub struct PeerId(pub u64);

/// A node's public key: 32 bytes, as two halves, first byte most significant.
#[derive(Clone, Copy, Debug, PartialEq, Eq, Structural)]
pub struct NodeKey {
    pub hi: u128,
    pub lo: u128,
}

/// A disco public key: 32 bytes, as two halves, first byte most significant.
#[derive(Clone, Copy, Debug, PartialEq, Eq, Structural)]
pub struct DiscoKey {
    pub hi: u128,
    pub lo: u128,
}

/// A point in time: seconds since the Unix epoch, and nanoseconds.
#[derive(Clone, Copy, Debug, PartialEq, Eq, Structural)]
pub struct Timestamp {
    pub secs: i64,
    pub nanos: u32,
}

impl DiscoKey {
    /// The key of 32 zero bytes, which stands for no key at all.
    pub open spec fn zero(self) -> bool {
        self.hi == 0 && self.lo == 0
    }
}

impl NodeKey {
    /// The 32 bytes of the key.
    pub open spec fn bytes(self) -> Seq<u8> {
        be_bytes(self.hi) + be_bytes(self.lo)
    }

    /// The 32 bytes of the key.
    pub fn to_bytes(&self) -> (r: Vec<u8>)
        ensures
            r@ == self.bytes(),
    {
        let mut out: Vec<u8> = Vec::new();
        push_be(&mut out, self.hi);
        push_be(&mut out, self.lo);
        assert(out@ =~= self.bytes());
        out
    }
}

/// `x` divided by 256, `n` times over.
pub open spec fn shifted(x: u128, n: nat) -> u128
    decreases n,
{
    if n == 0 {
        x
    } else {
        (shifted(x, (n - 1) as nat) / 256) as u128
    }
}

/// A 128-bit number as 16 bytes, most significant first.
pub open spec fn be_bytes(x: u128) -> Seq<u8> {
    Seq::new(16, |i: int| (shifted(x, (15 - i) as nat) % 256) as u8)
}

fn push_be(out: &mut Vec<u8>, x: u128)
    ensures
        final(out)@ == old(out)@ + be_bytes(x),
{
    let mut low: Vec<u8> = Vec::new();
    let mut rest: u128 = x;
    let mut i: usize = 0;
    while i < 16
        invariant
            i <= 16,
            rest == shifted(x, i as nat),
            low@.len() == i,
            forall|j: int| 0 <= j < i ==> low@[j] == (shifted(x, j as nat) % 256) as u8,
        decreases 16 - i,
    {
        low.push((rest % 256) as u8);
        rest = rest / 256;
        i = i + 1;
    }
    let ghost before = out@;
    let mut k: usize = 16;
    while k > 0
        invariant
            k <= 16,
            low@.len() == 16,
            forall|j: int| 0 <= j < 16 ==> low@[j] == (shifted(x, j as nat) % 256) as u8,
            out@ == before + be_bytes(x).take(16 - k),
        decreases k,
    {
        k = k - 1;
        out.push(low[k]);
        assert(out@ =~= before + be_bytes(x).take(16 - k));
    }
    assert(be_bytes(x).take(16) =~= be_bytes(x));
}

/// Two keys with the same bytes are the same key.
pub proof fn node_key_bytes_injective(a: NodeKey, b: NodeKey)
    ensures
        a.bytes() == b.bytes() ==> a == b,
        a.bytes().len() == 32,
{
    if a.bytes() == b.bytes() {
        assert forall|i: int| 0 <= i < 16 implies be_bytes(a.hi)[i] == be_bytes(b.hi)[i] by {
            assert(a.bytes()[i] == b.bytes()[i]);
        }
        assert forall|i: int| 0 <= i < 16 implies be_bytes(a.lo)[i] == be_bytes(b.lo)[i] by {
            assert(a.bytes()[16 + i] == b.bytes()[16 + i]);
        }
        be_bytes_injective(a.hi, b.hi);
        be_bytes_injective(a.lo, b.lo);
    }
}

proof fn be_bytes_injective(x: u128, y: u128)
    requires
        forall|i: int| 0 <= i < 16 ==> be_bytes(x)[i] == be_bytes(y)[i],
    ensures
        x == y,
{
    shifted_bound(x, 16);
    shifted_bound(y, 16);
    same_from(x, y, 0);
}

proof fn shifted_bound(x: u128, n: nat)
    requires
        n <= 16,
    ensures
        n == 16 ==> shifted(x, n) == 0,
{
    if n == 16 {
        reveal_with_fuel(shifted, 17);
        assert(x / 256 / 256 / 256 / 256 / 256 / 256 / 256 / 256 / 256 / 256 / 256 / 256 / 256 / 256
            / 256 / 256 == 0);
    }
}

proof fn same_from(x: u128, y: u128, n: nat)
    requires
        n <= 16,
        shifted(x, 16) == 0,
        shifted(y, 16) == 0,
        forall|i: int| 0 <= i < 16 ==> be_bytes(x)[i] == be_bytes(y)[i],
    ensures
        shifted(x, n) == shifted(y, n),
    decreases 16 - n,
{
    if n < 16 {
        same_from(x, y, n + 1);
        let a = shifted(x, n);
        let b = shifted(y, n);
        assert(be_bytes(x)[15 - n] == be_bytes(y)[15 - n]);
        assert(a % 256 == b % 256);
        assert(a / 256 == b / 256);
        assert(a == 256 * (a / 256) + a % 256);
        assert(b == 256 * (b / 256) + b % 256);
    }
}

/// The number that `bytes` stand for, most significant byte first.
pub open spec fn number_of(bytes: Seq<u8>) -> nat
    decreases bytes.len(),
{
    if bytes.len() == 0 {
        0
    } else {
        number_of(bytes.drop_last()) * 256 + bytes.last() as nat
    }
}

proof fn leading_bytes(x: u128, k: int)
    requires
        0 <= k <= 16,
    ensures
        number_of(be_bytes(x).take(k)) == shifted(x, (16 - k) as nat),
    decreases k,
{
    if k == 0 {
        shifted_bound(x, 16);
        assert(be_bytes(x).take(0) =~= Seq::<u8>::empty());
    } else {
        leading_bytes(x, k - 1);
        assert(be_bytes(x).take(k).drop_last() =~= be_bytes(x).take(k - 1));
        let low = shifted(x, (16 - k) as nat);
        assert(be_bytes(x)[k - 1] == (low % 256) as u8);
        assert(low == 256 * (low / 256) + low % 256);
    }
}

/// A key is written out with its most significant byte first: the first sixteen bytes are its upper
/// half, the others its lower half.
pub proof fn keys_are_written_most_significant_first(key: NodeKey)
    ensures
        key.bytes().len() == 32,
        number_of(key.bytes().take(16)) == key.hi,
        number_of(key.bytes().skip(16)) == key.lo,
{
    leading_bytes(key.hi, 16);
    leading_bytes(key.lo, 16);
    assert(be_bytes(key.hi).take(16) =~= key.bytes().take(16));
    assert(be_bytes(key.lo).take(16) =~= key.bytes().skip(16));
}

/// A node of the tailnet.
#[derive(Debug)]
pub struct Node {
    /// Control's number for the node.
    pub id: NodeId,
    /// The id that stays with the node for its whole life.
    pub stable_id: String,
    /// The node's name inside the tailnet.
    pub hostname: String,
    /// The tailnet's domain.
    pub tailnet: Option<String>,
    /// The user that owns the node.
    pub user_id: UserId,
    /// The node's IPv4 address in the tailnet.
    pub ipv4: Ipv4Addr,
    /// The node's IPv6 address in the tailnet.
    pub ipv6: Ipv6Addr,
    /// The addresses of the services that the node serves.
    pub service_addresses: Vec<IpAddr>,
    /// The key that identifies the node.
    pub node_key: NodeKey,
    /// When that key expires.
    pub node_key_expiry: Option<Timestamp>,
    /// Whether the node is connected to control, where control says.
    pub online: Option<bool>,
    /// When the node was last seen, where control says.
    pub last_seen: Option<Timestamp>,
    /// The tailnet-lock signature of the node key; empty where there is none.
    pub key_signature: Vec<u8>,
    /// The key that the node uses for path discovery.
    pub disco_key: Option<DiscoKey>,
    /// The address blocks that the node accepts packets for.
    pub accepted_routes: Vec<IpPrefix>,
    /// Where the node can be reached outside the tailnet.
    pub underlay_addresses: Vec<SocketAddr>,
    /// The node's home relay region.
    pub derp_region: Option<u32>,
    /// The node's capability version.
    pub cap: u32,
    /// The names of the node's attributes and capabilities.
    pub cap_map: Vec<String>,
    /// Whether the node is reachable unsigned, for its peer API alone.
    pub unsigned_peer_api_only: bool,
}

/// The model of a [`Node`].
#[verifier::ext_equal]
pub struct NodeView {
    pub id: NodeId,
    pub stable_id: Seq<char>,
    pub hostname: Seq<char>,
    pub tailnet: Option<Seq<char>>,
    pub user_id: UserId,
    pub ipv4: Ipv4Addr,
    pub ipv6: Ipv6Addr,
    pub service_addresses: Seq<IpAddr>,
    pub node_key: NodeKey,
    pub node_key_expiry: Option<Timestamp>,
    pub online: Option<bool>,
    pub last_seen: Option<Timestamp>,
    pub key_signature: Seq<u8>,
    pub disco_key: Option<DiscoKey>,
    pub accepted_routes: Seq<IpPrefix>,
    pub underlay_addresses: Seq<SocketAddr>,
    pub derp_region: Option<u32>,
    pub cap: u32,
    pub cap_map: Seq<Seq<char>>,
    pub unsigned_peer_api_only: bool,
}

/// The view of an optional string.
pub open spec fn opt_text(s: Option<String>) -> Option<Seq<char>> {
    match s {
        Some(t) => Some(t@),
        None => None,
    }
}

impl View for Node {
    type V = NodeView;

    open spec fn view(&self) -> NodeView {
        NodeView {
            id: self.id,
            stable_id: self.stable_id@,
            hostname: self.hostname@,
            tailnet: opt_text(self.tailnet),
            user_id: self.user_id,
            ipv4: self.ipv4,
            ipv6: self.ipv6,
            service_addresses: self.service_addresses@,
            node_key: self.node_key,
            node_key_expiry: self.node_key_expiry,
            online: self.online,
            last_seen: self.last_seen,
            key_signature: self.key_signature@,
            disco_key: self.disco_key,
            accepted_routes: self.accepted_routes@,
            underlay_addresses: self.underlay_addresses@,
            derp_region: self.derp_region,
            cap: self.cap,
            cap_map: texts(self.cap_map@),
            unsigned_peer_api_only: self.unsigned_peer_api_only,
        }
    }
}

/// A name as the name index holds it: without one trailing dot, ASCII letters in lower case.
pub open spec fn canonical(name: Seq<char>) -> Seq<char> {
    if name.len() > 0 && name.last() == '.' {
        lower_all(name.drop_last())
    } else {
        lower_all(name)
    }
}

/// Brings `name` into its canonical form.
pub fn canonical_chars(name: &str) -> (r: Vec<char>)
    ensures
        r@ == canonical(name@),
{
    let chars = chars_of(name);
    let n: usize = chars.len();
    let end: usize = if n > 0 && chars[n - 1] == '.' {
        n - 1
    } else {
        n
    };
    let mut out: Vec<char> = Vec::new();
    let mut i: usize = 0;
    while i < end
        invariant
            i <= end <= chars@.len(),
            chars@ == name@,
            out@.len() == i,
            forall|j: int| 0 <= j < i ==> out@[j] == lower(chars@[j]),
        decreases end - i,
    {
        out.push(lower_char(chars[i]));
        i = i + 1;
    }
    assert(out@ =~= canonical(name@));
    out
}

impl NodeView {
    /// The node's full name: `hostname.tailnet`, or the bare hostname outside a tailnet.
    pub open spec fn fqdn(self) -> Seq<char> {
        match self.tailnet {
            Some(t) => self.hostname.push('.') + t,
            None => self.hostname,
        }
    }

    /// Whether the node answers to `name`, by hostname or by full name, whatever the case and with
    /// or without a trailing dot.
    pub open spec fn named(self, name: Seq<char>) -> bool {
        canonical(name) == canonical(self.hostname) || canonical(name) == canonical(self.fqdn())
    }

    /// Whether the node has the attribute `attr`.
    pub open spec fn has_attr(self, attr: Seq<char>) -> bool {
        self.cap_map.contains(attr)
    }

    /// Whether `ip` is one of the node's tailnet addresses.
    pub open spec fn owns(self, ip: IpAddr) -> bool {
        ip == IpAddr::V4(self.ipv4) || ip == IpAddr::V6(self.ipv6)
    }

    /// Whether every name under the node's name resolves to the node.
    pub open spec fn resolves_subdomains(self) -> bool {
        self.has_attr("dns-subdomain-resolve"@)
    }

    /// Whether truncated upstream answers are not asked for again over TCP on this node.
    pub open spec fn disables_tcp_retries(self) -> bool {
        self.has_attr("dns-forwarder-disable-tcp-retries"@)
    }
}

fn copy_text(s: &Option<String>) -> (r: Option<String>)
    ensures
        opt_text(r) == opt_text(*s),
{
    match s {
        Some(t) => Some(t.clone()),
        None => None,
    }
}

/// A copy of a list of strings.
pub fn copy_texts(v: &Vec<String>) -> (r: Vec<String>)
    ensures
        texts(r@) == texts(v@),
{
    let r = v.clone();
    assert(texts(r@) =~= texts(v@));
    r
}

impl Node {
    /// A copy of the node.
    pub fn copy(&self) -> (r: Node)
        ensures
            r@ == self@,
    {
        let r = Node {
            id: self.id,
            stable_id: self.stable_id.clone(),
            hostname: self.hostname.clone(),
            tailnet: copy_text(&self.tailnet),
            user_id: self.user_id,
            ipv4: self.ipv4,
            ipv6: self.ipv6,
            service_addresses: self.service_addresses.clone(),
            node_key: self.node_key,
            node_key_expiry: self.node_key_expiry,
            online: self.online,
            last_seen: self.last_seen,
            key_signature: self.key_signature.clone(),
            disco_key: self.disco_key,
            accepted_routes: self.accepted_routes.clone(),
            underlay_addresses: self.underlay_addresses.clone(),
            derp_region: self.derp_region,
            cap: self.cap,
            cap_map: copy_texts(&self.cap_map),
            unsigned_peer_api_only: self.unsigned_peer_api_only,
        };
        assert(r.service_addresses@ =~= self.service_addresses@);
        assert(r.accepted_routes@ =~= self.accepted_routes@);
        assert(r.underlay_addresses@ =~= self.underlay_addresses@);
        assert(r@ =~= self@);
        r
    }

    /// The node's full name, without a trailing dot.
    pub fn fqdn(&self) -> (r: String)
        ensures
            r@ == self@.fqdn(),
    {
        match &self.tailnet {
            Some(t) => {
                let mut s = self.hostname.clone();
                s.push('.');
                let chars = chars_of(t);
                let mut i: usize = 0;
                while i < chars.len()
                    invariant
                        chars@ == t@,
                        i <= chars@.len(),
                        s@ == self.hostname@.push('.') + t@.take(i as int),
                    decreases chars@.len() - i,
                {
                    s.push(chars[i]);
                    i = i + 1;
                    assert(s@ =~= self.hostname@.push('.') + t@.take(i as int));
                }
                assert(t@.take(t@.len() as int) =~= t@);
                s
            },
            None => self.hostname.clone(),
        }
    }

    /// Whether the node answers to `name`.
    pub fn matches_name(&self, name: &str) -> (r: bool)
        ensures
            r == self@.named(name@),
    {
        let wanted = canonical_chars(name);
        let bare = canonical_chars(&self.hostname);
        if chars_eq(&wanted, &bare) {
            return true;
        }
        let full = self.fqdn();
        let whole = canonical_chars(&full);
        chars_eq(&wanted, &whole)
    }

    /// Whether the node has the attribute `attr`.
    pub fn has_node_attr(&self, attr: &str) -> (r: bool)
        ensures
            r == self@.has_attr(attr@),
    {
        let mut i: usize = 0;
        while i < self.cap_map.len()
            invariant
                i <= self.cap_map@.len(),
                forall|j: int| 0 <= j < i ==> self.cap_map@[j]@ != attr@,
            decreases self.cap_map@.len() - i,
        {
            if str_eq(&self.cap_map[i], attr) {
                assert(self@.cap_map[i as int] == attr@);
                return true;
            }
            i = i + 1;
        }
        assert forall|j: int| 0 <= j < self@.cap_map.len() implies self@.cap_map[j] != attr@ by {
            assert(self@.cap_map[j] == self.cap_map@[j]@);
        }
        false
    }

    /// Whether every name under this node's name resolves to it.
    pub fn resolves_subdomains(&self) -> (r: bool)
        ensures
            r == self@.resolves_subdomains(),
    {
        self.has_node_attr("dns-subdomain-resolve")
    }

    /// Whether control has switched off asking again over TCP.
    pub fn disable_dns_forwarder_tcp_retries(&self) -> (r: bool)
        ensures
            r == self@.disables_tcp_retries(),
    {
        self.has_node_attr("dns-forwarder-disable-tcp-retries")
    }

    /// Whether `ip` is one of the node's tailnet addresses.
    pub fn owns_ip(&self, ip: IpAddr) -> (r: bool)
        ensures
            r == self@.owns(ip),
    {
        ip == IpAddr::V4(self.ipv4) || ip == IpAddr::V6(self.ipv6)
    }
}

} // verus!
