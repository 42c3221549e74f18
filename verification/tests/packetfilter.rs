//! Which packet filter is in force.

use ts_runtime::addr::{IpAddr, IpPrefix, Ipv4Addr, Ipv6Addr};
use ts_runtime::node::{Node, NodeKey};
use ts_runtime::packetfilter::{FilterChoice, PacketfilterUpdater, Publication};
use ts_runtime::peer_tracker::PeerUpdate;

fn host(d: u8, len: u8) -> IpPrefix {
    IpPrefix {
        addr: IpAddr::V4(Ipv4Addr::new(100, 64, 0, d)),
        len,
    }
}

fn peer(id: i64, unsigned: bool) -> Node {
    Node {
        id,
        stable_id: format!("n{id}"),
        hostname: format!("peer{id}"),
        tailnet: None,
        user_id: 0,
        ipv4: Ipv4Addr::new(100, 64, 0, id as u8),
        ipv6: Ipv6Addr {
            bits: (0xfd7a << 112) | 1,
        },
        service_addresses: vec![],
        node_key: NodeKey { hi: 0, lo: 0 },
        node_key_expiry: None,
        online: None,
        last_seen: None,
        key_signature: vec![],
        disco_key: None,
        accepted_routes: vec![host(id as u8, 32)],
        underlay_addresses: vec![],
        derp_region: None,
        cap: 0,
        cap_map: vec![],
        unsigned_peer_api_only: unsigned,
    }
}

/// A filter that lets sources of these prefixes in.
struct Acl(Vec<IpPrefix>);

fn number(prefix: &IpPrefix) -> u64 {
    match prefix.addr {
        IpAddr::V4(ip) => ip.to_number() as u64,
        IpAddr::V6(_) => u64::MAX,
    }
}

impl Acl {
    fn grants(&self, prefix: &IpPrefix) -> bool {
        self.0.iter().any(|rule| {
            let shift = 32 - rule.len.min(prefix.len);
            number(rule) >> shift == number(prefix) >> shift
        })
    }
}

/// The updater, the filter that control sent last, and what was published last.
struct Node4 {
    updater: PacketfilterUpdater,
    acl: Acl,
    published: Option<Publication>,
}

fn updater() -> Node4 {
    Node4 {
        updater: PacketfilterUpdater::new(false, false),
        acl: Acl(vec![]),
        published: None,
    }
}

impl Node4 {
    fn deliver(&mut self, peers: Option<PeerUpdate>, rules: Option<Vec<IpPrefix>>) {
        let filter_changed = rules.is_some();
        if let Some(rules) = rules {
            self.acl = Acl(rules);
        }
        let asked = self.updater.handle(None, peers.as_ref(), filter_changed);
        let prefixes = asked.expect("the filter is to be judged again");
        let permitted = prefixes.iter().any(|prefix| self.acl.grants(prefix));
        let publication = self.updater.judged(permitted, filter_changed);
        self.published = Some(publication.expect("something is to be published"));
    }

    fn admits(&self, d: u8) -> bool {
        match self.published.as_ref().expect("a filter was published").filter {
            FilterChoice::Compiled => self.acl.grants(&host(d, 32)),
            FilterChoice::DenyAll => false,
        }
    }
}

#[test]
fn an_acl_granting_an_unlocked_peer_access_is_ignored_wholesale() {
    let mut node = updater();
    node.deliver(
        Some(PeerUpdate::Full(vec![peer(9, true), peer(10, false)])),
        Some(vec![host(9, 32), host(10, 32)]),
    );
    assert!(!node.admits(9), "an ACL naming a peer outside tailnet lock must not be installed");
    assert!(!node.admits(10), "the rest of that filter must go with it");
}

#[test]
fn the_same_acl_is_installed_when_no_peer_is_unlocked() {
    let mut node = updater();
    node.deliver(
        Some(PeerUpdate::Full(vec![peer(9, false), peer(10, false)])),
        Some(vec![host(9, 32), host(10, 32)]),
    );
    assert!(node.admits(9));
    assert!(node.admits(10));
}

#[test]
fn an_unlocked_peer_arriving_later_invalidates_the_installed_filter() {
    let mut node = updater();
    node.deliver(Some(PeerUpdate::Full(vec![peer(9, false)])), Some(vec![host(0, 24)]));
    assert!(node.admits(9), "a filter with no unlocked peer in the netmap is installed");
    node.deliver(
        Some(PeerUpdate::Delta {
            upsert: vec![peer(9, true)],
            remove: vec![],
        }),
        None,
    );
    assert!(!node.admits(9), "an unlocked peer under an existing ACL must invalidate that ACL");
}

#[test]
fn removing_the_unlocked_peer_restores_the_filter() {
    let mut node = updater();
    node.deliver(Some(PeerUpdate::Full(vec![peer(9, true)])), Some(vec![host(0, 24)]));
    assert!(!node.admits(9));
    node.deliver(
        Some(PeerUpdate::Delta {
            upsert: vec![],
            remove: vec![9],
        }),
        None,
    );
    assert!(node.admits(9), "the compiled filter is set aside, not dropped");
}

#[test]
fn nothing_is_published_while_nothing_changes() {
    let mut updater = PacketfilterUpdater::new(false, false);
    assert!(updater.handle(None, None, false).is_none());
    let update = PeerUpdate::Full(vec![peer(9, true)]);
    assert_eq!(updater.handle(None, Some(&update), false), Some(vec![host(9, 32)]));
    assert!(updater.judged(false, false).is_none());
    assert!(updater.handle(None, Some(&update), false).is_none(), "the same peers again");
    let gone = PeerUpdate::Full(vec![peer(9, false)]);
    assert_eq!(updater.handle(None, Some(&gone), false), Some(vec![]));
}

#[test]
fn the_shield_covers_this_node() {
    let own = peer(1, false);
    let mut open = PacketfilterUpdater::new(false, false);
    open.handle(Some(&own), None, true);
    assert!(open.judged(false, true).expect("a filter").shield.is_none());

    let mut blocked = PacketfilterUpdater::new(true, false);
    blocked.handle(Some(&own), None, true);
    let publication = blocked.judged(false, true).expect("a filter");
    assert_eq!(publication.filter, FilterChoice::Compiled);
    assert_eq!(
        publication.shield,
        Some(vec![
            IpAddr::V4(Ipv4Addr::new(100, 64, 0, 1)),
            IpAddr::V4(Ipv4Addr::new(100, 100, 100, 100)),
        ])
    );
    assert_eq!(blocked.published_filter().filter, FilterChoice::Compiled);
}
