//! The addresses of this node on the overlay.

use ts_runtime::addr::{IpAddr, Ipv4Addr, Ipv6Addr};
use ts_runtime::node::{Node, NodeKey};
use ts_runtime::overlay::{overlay_addresses, self_node_addresses};

const VIP4: IpAddr = IpAddr::V4(Ipv4Addr {
    a: 100,
    b: 65,
    c: 32,
    d: 1,
});

/// fd7a:115c:a1e0::1234
const VIP6: IpAddr = IpAddr::V6(Ipv6Addr {
    bits: 0xfd7a_115c_a1e0_0000_0000_0000_0000_1234,
});

fn self_node(service_addresses: Vec<IpAddr>) -> Node {
    Node {
        id: 1,
        stable_id: "n1".to_string(),
        hostname: "host".to_string(),
        tailnet: Some("tail1.ts.net".to_string()),
        user_id: 0,
        ipv4: Ipv4Addr::new(100, 64, 0, 1),
        ipv6: Ipv6Addr {
            bits: 0xfd7a_115c_a1e0_0000_0000_0000_0000_0001,
        },
        service_addresses,
        node_key: NodeKey { hi: 0, lo: 0 },
        node_key_expiry: None,
        online: None,
        last_seen: None,
        key_signature: vec![],
        disco_key: None,
        accepted_routes: vec![],
        underlay_addresses: vec![],
        derp_region: None,
        cap: 0,
        cap_map: vec![],
        unsigned_peer_api_only: false,
    }
}

#[test]
fn gate_off_drops_ipv6_overlay_address() {
    let node = self_node(vec![]);
    let ips = overlay_addresses(&node, false);
    assert!(ips.iter().all(|ip| ip.is_ipv4()), "no IPv6 address: {ips:?}");
    assert_eq!(
        ips,
        vec![IpAddr::V4(node.ipv4), IpAddr::V4(Ipv4Addr::new(100, 100, 100, 100))],
        "the list must be exactly [ipv4, 100.100.100.100]"
    );
}

#[test]
fn gate_on_includes_ipv6_overlay_address() {
    let node = self_node(vec![]);
    let ips = overlay_addresses(&node, true);
    assert!(ips.contains(&IpAddr::V6(node.ipv6)), "the IPv6 overlay address: {ips:?}");
    assert_eq!(
        ips,
        vec![
            IpAddr::V4(node.ipv4),
            IpAddr::V6(node.ipv6),
            IpAddr::V4(Ipv4Addr::new(100, 100, 100, 100)),
        ],
        "the list must be exactly [ipv4, ipv6, 100.100.100.100]"
    );
}

#[test]
fn vip_service_v4_address_is_accepted() {
    let ips = overlay_addresses(&self_node(vec![VIP4]), false);
    assert!(ips.contains(&VIP4), "the VIP-service address must be in the accepted set: {ips:?}");
}

#[test]
fn vip_service_v6_address_dropped_when_ipv6_disabled() {
    let ips = overlay_addresses(&self_node(vec![VIP4, VIP6]), false);
    assert!(ips.contains(&VIP4));
    assert!(!ips.contains(&VIP6), "IPv6 VIP must be dropped when IPv6 is disabled: {ips:?}");
}

#[test]
fn vip_service_v6_address_accepted_when_ipv6_enabled() {
    let ips = overlay_addresses(&self_node(vec![VIP6]), true);
    assert!(ips.contains(&VIP6));
}

#[test]
fn every_address_is_listed_once() {
    let own = IpAddr::V4(Ipv4Addr::new(100, 64, 0, 1));
    let node = self_node(vec![VIP4, own, VIP4, VIP6]);
    let service = IpAddr::V4(Ipv4Addr::new(100, 100, 100, 100));
    assert_eq!(overlay_addresses(&node, false), vec![own, service, VIP4]);
    assert_eq!(
        self_node_addresses(&node, true),
        vec![own, IpAddr::V6(node.ipv6), service, VIP4, VIP6]
    );
}
