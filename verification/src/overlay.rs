//! The addresses that this node has on the overlay.

use vstd::prelude::*;

use crate::addr::IpAddr;
use crate::magic_dns::{magic_dns_ip, service_ip};
use crate::node::{Node, NodeView};

verus! {

/// `addrs` and those of `vips` that are not among them yet, in order; IPv6 ones only where IPv6 is
/// enabled.
pub open spec fn with_services(
    addrs: Seq<IpAddr>,
    vips: Seq<IpAddr>,
    enable_ipv6: bool,
) -> Seq<IpAddr>
    decreases vips.len(),
{
    if vips.len() == 0 {
        addrs
    } else {
        let before = with_services(addrs, vips.drop_last(), enable_ipv6);
        let vip = vips.last();
        if (vip is V6 && !enable_ipv6) || before.contains(vip) {
            before
        } else {
            before.push(vip)
        }
    }
}

/// The addresses of `node` on the overlay: its own, that of MagicDNS, and those of the services it
/// hosts.
pub open spec fn addresses(node: NodeView, enable_ipv6: bool) -> Seq<IpAddr> {
    with_services(
        if enable_ipv6 {
            seq![IpAddr::V4(node.ipv4), IpAddr::V6(node.ipv6), IpAddr::V4(service_ip())]
        } else {
            seq![IpAddr::V4(node.ipv4), IpAddr::V4(service_ip())]
        },
        node.service_addresses,
        enable_ipv6,
    )
}

fn contains_ip(addrs: &Vec<IpAddr>, ip: IpAddr) -> (r: bool)
    ensures
        r == addrs@.contains(ip),
{
    let mut i: usize = 0;
    while i < addrs.len()
        invariant
            i <= addrs@.len(),
            forall|j: int| 0 <= j < i ==> addrs@[j] != ip,
        decreases addrs@.len() - i,
    {
        if addrs[i] == ip {
            return true;
        }
        i = i + 1;
    }
    false
}

/// Lists the addresses that the network stack accepts packets for.
pub fn overlay_addresses(self_node: &Node, enable_ipv6: bool) -> (r: Vec<IpAddr>)
    ensures
        r@ == addresses(self_node@, enable_ipv6),
{
    let mut addrs: Vec<IpAddr> = Vec::new();
    addrs.push(IpAddr::V4(self_node.ipv4));
    if enable_ipv6 {
        addrs.push(IpAddr::V6(self_node.ipv6));
    }
    addrs.push(IpAddr::V4(magic_dns_ip()));
    let ghost base = addrs@;
    assert(base =~= if enable_ipv6 {
        seq![
            IpAddr::V4(self_node@.ipv4),
            IpAddr::V6(self_node@.ipv6),
            IpAddr::V4(service_ip()),
        ]
    } else {
        seq![IpAddr::V4(self_node@.ipv4), IpAddr::V4(service_ip())]
    });
    let ghost vips = self_node@.service_addresses;
    let mut i: usize = 0;
    assert(vips.take(0) =~= Seq::<IpAddr>::empty());
    while i < self_node.service_addresses.len()
        invariant
            i <= self_node.service_addresses@.len(),
            vips == self_node.service_addresses@,
            addrs@ == with_services(base, vips.take(i as int), enable_ipv6),
        decreases self_node.service_addresses@.len() - i,
    {
        let vip = self_node.service_addresses[i];
        assert(vips.take(i + 1).drop_last() =~= vips.take(i as int));
        if (vip.is_ipv4() || enable_ipv6) && !contains_ip(&addrs, vip) {
            addrs.push(vip);
        }
        i = i + 1;
    }
    assert(vips.take(vips.len() as int) =~= vips);
    addrs
}

/// Lists the addresses that are refused while incoming connections are blocked: those that the
/// network stack accepts packets for.
pub fn self_node_addresses(self_node: &Node, enable_ipv6: bool) -> (r: Vec<IpAddr>)
    ensures
        r@ == addresses(self_node@, enable_ipv6),
{
    overlay_addresses(self_node, enable_ipv6)
}

proof fn services_are_added(addrs: Seq<IpAddr>, vips: Seq<IpAddr>, enable_ipv6: bool)
    ensures
        forall|i: int|
            0 <= i < addrs.len() ==> with_services(addrs, vips, enable_ipv6)[i]
                == #[trigger] addrs[i],
        with_services(addrs, vips, enable_ipv6).len() >= addrs.len(),
        forall|i: int|
            0 <= i < vips.len() && (vips[i] is V4 || enable_ipv6) ==> with_services(
                addrs,
                vips,
                enable_ipv6,
            ).contains(#[trigger] vips[i]),
        forall|ip: IpAddr| #[trigger]
            with_services(addrs, vips, enable_ipv6).contains(ip) ==> addrs.contains(ip) || (
            vips.contains(ip) && (ip is V4 || enable_ipv6)),
    decreases vips.len(),
{
    let all = with_services(addrs, vips, enable_ipv6);
    if vips.len() > 0 {
        let short = vips.drop_last();
        let before = with_services(addrs, short, enable_ipv6);
        services_are_added(addrs, short, enable_ipv6);
        let vip = vips.last();
        assert forall|i: int|
            0 <= i < vips.len() && (vips[i] is V4 || enable_ipv6) implies all.contains(
            #[trigger] vips[i],
        ) by {
            if i < short.len() {
                assert(short[i] == vips[i]);
                let k = choose|k: int| 0 <= k < before.len() && before[k] == vips[i];
                assert(all[k] == vips[i]);
            } else if before.contains(vip) {
                assert(all == before);
            } else {
                assert(all[before.len() as int] == vip);
            }
        }
        assert forall|ip: IpAddr| #[trigger] all.contains(ip) implies addrs.contains(ip) || (
        vips.contains(ip) && (ip is V4 || enable_ipv6)) by {
            let k = choose|k: int| 0 <= k < all.len() && all[k] == ip;
            if k < before.len() {
                assert(before[k] == ip);
                assert(before.contains(ip));
                if short.contains(ip) {
                    let j = choose|j: int| 0 <= j < short.len() && short[j] == ip;
                    assert(vips[j] == ip);
                }
            } else {
                assert(vips[vips.len() - 1] == ip);
            }
        }
    }
}

/// The addresses are the node's own, that of MagicDNS and those of its services; without IPv6 none
/// of them is an IPv6 address.
pub proof fn the_overlay_addresses(node: NodeView, enable_ipv6: bool, ip: IpAddr)
    ensures
        addresses(node, enable_ipv6).contains(ip) <==> (ip is V4 || enable_ipv6) && (node.owns(ip)
            || ip == IpAddr::V4(service_ip()) || node.service_addresses.contains(ip)),
{
    let base = if enable_ipv6 {
        seq![IpAddr::V4(node.ipv4), IpAddr::V6(node.ipv6), IpAddr::V4(service_ip())]
    } else {
        seq![IpAddr::V4(node.ipv4), IpAddr::V4(service_ip())]
    };
    let all = addresses(node, enable_ipv6);
    services_are_added(base, node.service_addresses, enable_ipv6);
    assert(base[0] == IpAddr::V4(node.ipv4));
    assert(all[0] == base[0]);
    let last = base.len() - 1;
    assert(base[last] == IpAddr::V4(service_ip()));
    assert(all[last] == base[last]);
    if enable_ipv6 {
        assert(base[1] == IpAddr::V6(node.ipv6));
        assert(all[1] == base[1]);
    }
    if node.service_addresses.contains(ip) {
        let k = choose|k: int|
            0 <= k < node.service_addresses.len() && node.service_addresses[k] == ip;
        assert(node.service_addresses[k] == ip);
    }
}

} // verus!
