//! Domain names: which zone a name is in, and which names are a tailnet's own.

use vstd::prelude::*;

use crate::addr::Ipv4Addr;
use crate::decimal::{decimal, push_decimal};
use crate::text::{chars_at, chars_eq, chars_of, push_all};

verus! {

/// Whether `name` is `suffix` or lies under it at a label boundary. An empty suffix has nothing
/// under it.
pub open spec fn under(name: Seq<char>, suffix: Seq<char>) -> bool {
    suffix.len() > 0 && (name == suffix || (name.len() > suffix.len() && name[name.len()
        - suffix.len() - 1] == '.' && name.skip(name.len() - suffix.len()) == suffix))
}

/// A name lies under a suffix exactly where it is the suffix, or some labels and a dot before it.
pub proof fn under_is_labels_before(name: Seq<char>, suffix: Seq<char>)
    ensures
        under(name, suffix) <==> suffix.len() > 0 && (name == suffix || exists|labels: Seq<char>|
            name == #[trigger] labels.push('.') + suffix),
{
    if under(name, suffix) && name != suffix {
        let labels = name.take(name.len() - suffix.len() - 1);
        assert(name =~= labels.push('.') + suffix);
    }
    if suffix.len() > 0 && exists|labels: Seq<char>| name == #[trigger] labels.push('.') + suffix {
        let labels = choose|labels: Seq<char>| name == #[trigger] labels.push('.') + suffix;
        assert(name.skip(name.len() - suffix.len()) =~= suffix);
    }
}

/// Of two suffixes that a name lies under, equally long ones are equal.
pub proof fn equally_long_suffixes_are_equal(name: Seq<char>, a: Seq<char>, b: Seq<char>)
    requires
        under(name, a),
        under(name, b),
        a.len() == b.len(),
    ensures
        a == b,
{
    assert(name.skip(0) =~= name);
}

/// Whether `name` is `suffix` or lies under it at a label boundary.
pub fn suffix_matches(name: &str, suffix: &str) -> (r: bool)
    ensures
        r == under(name@, suffix@),
{
    let s = chars_of(suffix);
    if s.len() == 0 {
        return false;
    }
    let n = chars_of(name);
    if chars_eq(&n, &s) {
        return true;
    }
    if n.len() <= s.len() {
        return false;
    }
    let at: usize = n.len() - s.len();
    assert(n@.subrange(at as int, at + s@.len()) =~= n@.skip(at as int));
    n[at - 1] == '.' && chars_at(&n, at, &s)
}

/// Whether `name` is an IPv6 reverse name.
pub fn is_ip6_arpa(name: &str) -> (r: bool)
    ensures
        r == under(name@, "ip6.arpa"@),
{
    suffix_matches(name, "ip6.arpa")
}

/// Whether `ip` is a tailnet IPv4 address: one in 100.64.0.0/10.
pub open spec fn cgnat(ip: Ipv4Addr) -> bool {
    ip.a == 100 && 64 <= ip.b <= 127
}

/// Whether `ip` is in the range that tailnets number their nodes from.
pub fn is_tailnet_cgnat(ip: Ipv4Addr) -> (r: bool)
    ensures
        r == cgnat(ip),
{
    ip.a == 100 && 64 <= ip.b && ip.b <= 127
}

/// The reverse zone of the addresses that share the first two octets of `ip`, for tailnet
/// addresses.
pub open spec fn reverse_zone(ip: Ipv4Addr) -> Seq<char> {
    decimal(ip.b as nat) + ".100.in-addr.arpa"@
}

/// Writes the reverse zone of a tailnet address.
pub fn reverse_zone_of(ip: Ipv4Addr) -> (r: String)
    ensures
        r@ == reverse_zone(ip),
{
    let mut s = String::new();
    push_decimal(&mut s, ip.b as u64);
    push_all(&mut s, ".100.in-addr.arpa");
    assert(s@ =~= reverse_zone(ip));
    s
}

/// `a`, a dot, and `b`.
pub open spec fn qualified(a: Seq<char>, b: Seq<char>) -> Seq<char> {
    a.push('.') + b
}

/// Qualifies a name by a domain.
pub fn qualify(a: &str, b: &str) -> (r: String)
    ensures
        r@ == qualified(a@, b@),
{
    let mut s = a.to_owned();
    s.push('.');
    push_all(&mut s, b);
    s
}

} // verus!
