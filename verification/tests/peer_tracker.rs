//! The peers that control describes, under the tailnet's lock.

use ts_runtime::addr::{IpAddr, IpPrefix, Ipv4Addr, Ipv6Addr, SocketAddr};
use ts_runtime::endpoint_disco::{DiscoTable, EndpointDisco};
use ts_runtime::id_set::IdSet;
use ts_runtime::node::{DiscoKey, Node, NodeKey, PeerId, Timestamp};
use ts_runtime::peer_db::{DiscoKeyMatch, PeerDb, PeerKey};
use ts_runtime::peer_tracker::{
    PeerChange, PeerTracker, PeerUpdate, Reply, RepublishState, StateUpdate, UserProfile,
};
use ts_runtime::rotation::{RotationDetails, RotationTracker, SigKind};
use ts_runtime::tailnet_lock::{Authority, AuthorizedKey};

/// The node key that the lock has signed.
const NODE_KEY: NodeKey = key(7);

const ADVERTISED: DiscoKey = disco(0xa5);
const READVERTISED: DiscoKey = disco(0x5a);
const FROM_CONTROL: DiscoKey = disco(0xc0);
const CONTROL_CAUGHT_UP: DiscoKey = disco(0x0c);
const PEER_NODE_KEY: NodeKey = key(1);

const fn half(byte: u8) -> u128 {
    u128::from_be_bytes([byte; 16])
}

/// The node key whose 32 bytes all are `byte`.
const fn key(byte: u8) -> NodeKey {
    NodeKey {
        hi: half(byte),
        lo: half(byte),
    }
}

/// The disco key whose 32 bytes all are `byte`.
const fn disco(byte: u8) -> DiscoKey {
    DiscoKey {
        hi: half(byte),
        lo: half(byte),
    }
}

fn peer_node(stable_id: &str, node_key: NodeKey, key_signature: Vec<u8>) -> Node {
    Node {
        id: 1,
        stable_id: stable_id.to_string(),
        hostname: stable_id.to_string(),
        tailnet: Some("ts.net".to_string()),
        user_id: 0,
        ipv4: Ipv4Addr::new(100, 64, 0, 1),
        ipv6: Ipv6Addr {
            bits: 0xfd7a_115c_a1e0_0000_0000_0000_0000_0001,
        },
        service_addresses: vec![],
        node_key,
        node_key_expiry: None,
        online: None,
        last_seen: None,
        key_signature,
        disco_key: None,
        accepted_routes: vec![],
        underlay_addresses: vec![],
        derp_region: None,
        cap: 0,
        cap_map: vec![],
        unsigned_peer_api_only: false,
    }
}

/// A signature, and a lock under which it signs [`NODE_KEY`] and nothing else.
fn authority_and_valid_sig() -> (Authority, Vec<u8>) {
    let sig = vec![0xa3, 0x01, 0x01, 0x02, 0x58];
    let authority = Authority {
        trusted_keys: 1,
        authorized: vec![AuthorizedKey {
            node_key: NODE_KEY,
            signature: sig.clone(),
            rotation: None,
        }],
    };
    (authority, sig)
}

fn tampered(sig: &[u8]) -> Vec<u8> {
    let mut bad = sig.to_vec();
    let last = bad.len() - 1;
    bad[last] ^= 0xff;
    bad
}

/// A lock under which `stale` and `rotated` are signed, and the rotation that `rotated` came from
/// names the key of `stale`.
fn rotating_authority() -> (Authority, Node, Node) {
    let pivot = key(9);
    let new_key = key(4);
    let direct = vec![1, 1, 1];
    let rotation = vec![2, 2, 2];
    let authority = Authority {
        trusted_keys: 1,
        authorized: vec![
            AuthorizedKey {
                node_key: pivot,
                signature: direct.clone(),
                rotation: None,
            },
            AuthorizedKey {
                node_key: new_key,
                signature: rotation.clone(),
                rotation: Some(RotationDetails {
                    prev_node_keys: vec![pivot.to_bytes()],
                    initial_sig_kind: SigKind::Direct,
                    initial_wrapping_pubkey: vec![42; 32],
                }),
            },
        ],
    };
    (authority, peer_node("stale", pivot, direct), peer_node("rotated", new_key, rotation))
}

fn stored(tracker: &PeerTracker, node: &Node) -> bool {
    tracker.peer_db().get(PeerKey::NodeKey(node.node_key)).is_some()
}

fn count(tracker: &PeerTracker) -> usize {
    tracker.peer_db().peers().len()
}

fn full(nodes: &[&Node]) -> PeerUpdate {
    PeerUpdate::Full(nodes.iter().map(|node| node.copy()).collect())
}

fn delta(nodes: &[&Node]) -> PeerUpdate {
    PeerUpdate::Delta {
        upsert: nodes.iter().map(|node| node.copy()).collect(),
        remove: vec![],
    }
}

fn change(id: i64) -> PeerChange {
    PeerChange {
        id,
        derp_region: None,
        cap: None,
        cap_map: None,
        underlay_addresses: None,
        node_key: None,
        key_signature: None,
        disco_key: None,
        node_key_expiry: None,
        online: None,
        last_seen: None,
    }
}

fn state(peer_update: Option<PeerUpdate>, user_profiles: Vec<UserProfile>) -> StateUpdate {
    StateUpdate {
        peer_update,
        peer_patches: vec![],
        user_profiles,
        online_change: vec![],
        peer_seen_change: vec![],
    }
}

const NOW: Timestamp = Timestamp {
    secs: 1_700_000_000,
    nanos: 0,
};

#[test]
fn tka_inactive_upserts_all_peers() {
    let mut tracker = PeerTracker::new(None);
    let signed = peer_node("signed", key(1), vec![0xde, 0xad, 0xbe, 0xef]);
    let unsigned = peer_node("unsigned", key(2), vec![]);
    assert!(tracker.tka_admits(&signed));
    assert!(tracker.tka_admits(&unsigned));
    tracker.apply_peer_update(&delta(&[&signed, &unsigned]));
    assert_eq!(count(&tracker), 2);
}

#[test]
fn tka_active_rejects_unsigned_peer() {
    let (authority, _sig) = authority_and_valid_sig();
    let mut tracker = PeerTracker::new(Some(authority));
    let unsigned = peer_node("unsigned", NODE_KEY, vec![]);
    assert!(!tracker.tka_admits(&unsigned));
    tracker.apply_peer_update(&full(&[&unsigned]));
    assert_eq!(count(&tracker), 0);
    assert!(!stored(&tracker, &unsigned));
}

#[test]
fn tka_active_rejects_bad_signature() {
    let (authority, sig) = authority_and_valid_sig();
    let mut tracker = PeerTracker::new(Some(authority));
    let bad = peer_node("bad", NODE_KEY, tampered(&sig));
    assert!(!tracker.tka_admits(&bad));
    tracker.apply_peer_update(&full(&[&bad]));
    assert_eq!(count(&tracker), 0);
}

#[test]
fn tka_active_admits_authorized_peer() {
    let (authority, sig) = authority_and_valid_sig();
    let mut tracker = PeerTracker::new(Some(authority));
    let good = peer_node("good", NODE_KEY, sig);
    assert!(tracker.tka_admits(&good));
    tracker.apply_peer_update(&full(&[&good]));
    assert_eq!(count(&tracker), 1);
    assert!(stored(&tracker, &good));
}

#[test]
fn tka_active_delta_upsert_rejects_unauthorized() {
    let (authority, _sig) = authority_and_valid_sig();
    let mut tracker = PeerTracker::new(Some(authority));
    let unsigned = peer_node("unsigned", NODE_KEY, vec![]);
    tracker.apply_peer_update(&delta(&[&unsigned]));
    assert_eq!(count(&tracker), 0);
    assert!(!stored(&tracker, &unsigned));
}

#[test]
fn tka_active_delta_upsert_admits_authorized() {
    let (authority, sig) = authority_and_valid_sig();
    let mut tracker = PeerTracker::new(Some(authority));
    let good = peer_node("good", NODE_KEY, sig);
    tracker.apply_peer_update(&delta(&[&good]));
    assert_eq!(count(&tracker), 1);
    assert!(stored(&tracker, &good));
}

#[test]
fn tka_active_full_admits_only_authorized_in_mixed_batch() {
    let (authority, sig) = authority_and_valid_sig();
    let bad_sig = tampered(&sig);
    let mut tracker = PeerTracker::new(Some(authority));
    let good = peer_node("good", NODE_KEY, sig);
    let unsigned = peer_node("unsigned", key(8), vec![]);
    let bad = peer_node("bad", key(9), bad_sig);
    tracker.apply_peer_update(&full(&[&good, &unsigned, &bad]));
    assert_eq!(count(&tracker), 1);
    assert!(stored(&tracker, &good));
    assert!(!stored(&tracker, &unsigned));
    assert!(!stored(&tracker, &bad));
}

#[test]
fn tka_authority_watch_enables_then_clears_enforcement() {
    let (authority, sig) = authority_and_valid_sig();
    let bad_sig = tampered(&sig);
    let mut tracker = PeerTracker::new(None);
    let good = peer_node("good", NODE_KEY, sig);
    let unsigned = peer_node("unsigned", key(8), vec![]);
    let bad = peer_node("bad", key(9), bad_sig);
    let batch = full(&[&good, &unsigned, &bad]);
    tracker.apply_peer_update(&batch);
    assert_eq!(count(&tracker), 3, "no lock: admit all");

    tracker.set_authority(Some(authority));
    tracker.apply_peer_update(&batch);
    assert_eq!(count(&tracker), 1, "lock active: only the signed peer survives");
    assert!(stored(&tracker, &good));
    assert!(!stored(&tracker, &unsigned));
    assert!(!stored(&tracker, &bad));

    tracker.set_authority(None);
    tracker.apply_peer_update(&batch);
    assert_eq!(count(&tracker), 3, "lock disabled: admit all again");
    assert!(stored(&tracker, &unsigned), "the dropped peer must come back");
    assert!(stored(&tracker, &bad));
}

#[test]
fn tka_authority_install_reevaluates_already_admitted_peers() {
    let (authority, sig) = authority_and_valid_sig();
    let bad_sig = tampered(&sig);
    let mut tracker = PeerTracker::new(None);
    let good = peer_node("good", NODE_KEY, sig);
    let unsigned = peer_node("unsigned", key(8), vec![]);
    let bad = peer_node("bad", key(9), bad_sig);
    tracker.apply_peer_update(&full(&[&good, &unsigned, &bad]));
    assert_eq!(count(&tracker), 3, "no lock yet: admit all");
    let unsigned_id = tracker.peer_db().has(PeerKey::NodeKey(unsigned.node_key)).unwrap();
    let bad_id = tracker.peer_db().has(PeerKey::NodeKey(bad.node_key)).unwrap();

    tracker.set_authority(Some(authority));
    let evicted = tracker.tka_reevaluate_peer_db();
    assert_eq!(evicted.ids().len(), 2);
    assert!(evicted.contains(unsigned_id) && evicted.contains(bad_id));
    assert_eq!(count(&tracker), 1);
    assert!(stored(&tracker, &good), "the authorized peer stays admitted");
    assert!(!stored(&tracker, &unsigned));
    assert!(!stored(&tracker, &bad));
    assert!(tracker.tka_reevaluate_peer_db().is_empty());
}

#[test]
fn tka_reevaluate_without_authority_evicts_nothing() {
    let (authority, sig) = authority_and_valid_sig();
    let mut tracker = PeerTracker::new(None);
    let good = peer_node("good", NODE_KEY, sig);
    let unsigned = peer_node("unsigned", key(8), vec![]);
    tracker.apply_peer_update(&full(&[&good, &unsigned]));
    assert!(tracker.tka_reevaluate_peer_db().is_empty());
    assert_eq!(count(&tracker), 2);
    tracker.set_authority(Some(authority));
    assert_eq!(tracker.tka_reevaluate_peer_db().ids().len(), 1);
    tracker.set_authority(None);
    assert!(tracker.tka_reevaluate_peer_db().is_empty());
    assert!(stored(&tracker, &good));
}

#[test]
fn tka_reevaluate_applies_the_cross_peer_rotation_filter() {
    let (authority, stale, rotated) = rotating_authority();
    let mut tracker = PeerTracker::new(None);
    tracker.apply_peer_update(&full(&[&stale, &rotated]));
    assert_eq!(count(&tracker), 2, "no lock yet: admit all");
    tracker.set_authority(Some(authority));
    let evicted = tracker.tka_reevaluate_peer_db();
    assert_eq!(evicted.ids().len(), 1, "only the rotation-obsolete peer is evicted");
    assert!(stored(&tracker, &rotated), "the freshly-rotated peer stays");
    assert!(!stored(&tracker, &stale));
}

#[test]
fn tka_authority_change_refilters_through_the_live_actor() {
    let (authority, sig) = authority_and_valid_sig();
    let mut tracker = PeerTracker::new(None);
    assert!(tracker.all_peers().is_empty());
    let good = peer_node("good", NODE_KEY, sig);
    let unsigned = peer_node("unsigned", key(8), vec![]);
    tracker.handle_state_update(&state(Some(full(&[&good, &unsigned])), vec![]), NOW);
    assert_eq!(tracker.all_peers().len(), 2);
    tracker.set_authority(Some(authority));
    let published = tracker.handle_authority_changed().expect("a peer is evicted");
    assert_eq!(published.deletions.ids().len(), 1);
    assert!(published.upserts.is_empty());
    let peers = tracker.all_peers();
    assert_eq!(peers.len(), 1);
    assert_eq!(peers[0].stable_id, good.stable_id);
    assert!(tracker.handle_authority_changed().is_none());
}

#[test]
fn tka_full_duplicate_stable_id_judges_each_node_on_its_own_signature() {
    let (authority, sig) = authority_and_valid_sig();
    let mut tracker = PeerTracker::new(Some(authority));
    let signed = peer_node("dup", NODE_KEY, sig);
    let unsigned = peer_node("dup", key(8), vec![]);
    tracker.apply_peer_update(&full(&[&signed, &unsigned]));
    assert!(!stored(&tracker, &unsigned));
    assert!(stored(&tracker, &signed));
}

#[test]
fn tka_full_duplicate_stable_id_both_kept_is_consistent() {
    let mut tracker = PeerTracker::new(None);
    let first = peer_node("dup", key(1), vec![]);
    let last = peer_node("dup", key(2), vec![]);
    tracker.apply_peer_update(&full(&[&first, &last]));
    assert_eq!(count(&tracker), 1, "one entry for the shared stable_id");
    assert!(stored(&tracker, &last));
    assert!(!stored(&tracker, &first));
}

#[test]
fn tka_full_rotation_obsolete_evicts_on_resync() {
    let (authority, stale, rotated) = rotating_authority();
    let mut tracker = PeerTracker::new(Some(authority));
    tracker.apply_peer_update(&full(&[&stale]));
    assert!(stored(&tracker, &stale), "no rotation has superseded it yet");
    tracker.apply_peer_update(&full(&[&rotated, &stale]));
    assert!(stored(&tracker, &rotated));
    assert!(!stored(&tracker, &stale));
}

#[test]
fn tka_empty_keyset_authority_admits_all() {
    let empty = Authority {
        trusted_keys: 0,
        authorized: vec![],
    };
    let mut tracker = PeerTracker::new(Some(empty));
    let signed = peer_node("signed", key(7), vec![0xde, 0xad]);
    let unsigned = peer_node("unsigned", key(8), vec![]);
    tracker.apply_peer_update(&full(&[&signed, &unsigned]));
    assert_eq!(count(&tracker), 2, "an authority without keys admits ALL peers");
}

#[test]
fn tka_active_rejects_valid_sig_for_wrong_node_key() {
    let (authority, sig) = authority_and_valid_sig();
    let mut tracker = PeerTracker::new(Some(authority));
    let imposter = peer_node("imposter", key(0x55), sig);
    assert!(!tracker.tka_admits(&imposter));
    tracker.apply_peer_update(&full(&[&imposter]));
    assert!(!stored(&tracker, &imposter));
}

#[test]
fn tka_active_rejects_sig_from_untrusted_key() {
    let (authority, _sig) = authority_and_valid_sig();
    let mut tracker = PeerTracker::new(Some(authority));
    let peer = peer_node("rogue-signed", NODE_KEY, vec![99; 64]);
    assert!(!tracker.tka_admits(&peer));
    tracker.apply_peer_update(&full(&[&peer]));
    assert!(!stored(&tracker, &peer));
}

#[test]
fn tka_watch_enable_enforces_delta_upsert() {
    let (authority, sig) = authority_and_valid_sig();
    let mut tracker = PeerTracker::new(None);
    tracker.set_authority(Some(authority));
    let good = peer_node("good", NODE_KEY, sig);
    let unsigned = peer_node("unsigned", key(8), vec![]);
    tracker.apply_peer_update(&delta(&[&good, &unsigned]));
    assert!(stored(&tracker, &good));
    assert!(!stored(&tracker, &unsigned));
}

#[test]
fn tka_delta_reupsert_with_invalid_sig_evicts_existing() {
    let (authority, sig) = authority_and_valid_sig();
    let mut tracker = PeerTracker::new(Some(authority));
    let good = peer_node("good", NODE_KEY, sig);
    tracker.apply_peer_update(&full(&[&good]));
    assert!(stored(&tracker, &good));
    let revoked = peer_node("good", NODE_KEY, vec![]);
    tracker.apply_peer_update(&delta(&[&revoked]));
    assert!(!stored(&tracker, &good));
}

#[test]
fn tka_full_resync_revocation_behavior() {
    let (authority, sig) = authority_and_valid_sig();
    let mut tracker = PeerTracker::new(Some(authority));
    let good = peer_node("revoked", NODE_KEY, sig.clone());
    tracker.apply_peer_update(&full(&[&good]));
    assert_eq!(count(&tracker), 1);
    assert!(stored(&tracker, &good));
    let revoked = peer_node("revoked", NODE_KEY, tampered(&sig));
    tracker.apply_peer_update(&full(&[&revoked]));
    assert_eq!(count(&tracker), 0);
    assert!(!stored(&tracker, &revoked));
}

#[test]
fn tka_inactive_full_resync_keeps_reincluded_peer() {
    let mut tracker = PeerTracker::new(None);
    let peer = peer_node("p", NODE_KEY, vec![0xde, 0xad]);
    tracker.apply_peer_update(&full(&[&peer]));
    assert_eq!(count(&tracker), 1);
    let resynced = peer_node("p", NODE_KEY, vec![0x00]);
    tracker.apply_peer_update(&full(&[&resynced]));
    assert_eq!(count(&tracker), 1);
    assert!(stored(&tracker, &resynced));
}

fn node_one(tracker: &PeerTracker) -> &Node {
    &tracker.peer_db().get(PeerKey::NodeId(1)).expect("node 1 is stored").node
}

#[test]
fn patch_merges_endpoints_and_derp_into_existing_peer() {
    let mut tracker = PeerTracker::new(None);
    let peer = peer_node("mover", key(1), vec![]);
    tracker.apply_peer_update(&full(&[&peer]));
    assert!(node_one(&tracker).underlay_addresses.is_empty());
    assert!(node_one(&tracker).derp_region.is_none());

    let new_ep = SocketAddr::v4(203, 0, 113, 7, 41641);
    let mut patch = change(1);
    patch.derp_region = Some(5);
    patch.underlay_addresses = Some(vec![new_ep]);
    let (upserts, deletions) = tracker.apply_peer_patches(&vec![patch]);
    assert_eq!(upserts.ids().len(), 1);
    assert_eq!(deletions.ids().len(), 0);
    assert_eq!(count(&tracker), 1);
    assert_eq!(node_one(&tracker).underlay_addresses, vec![new_ep]);
    assert_eq!(node_one(&tracker).derp_region, Some(5));
    assert_eq!(node_one(&tracker).node_key, peer.node_key);
}

#[test]
fn patch_applies_on_top_of_co_occurring_delta() {
    let mut tracker = PeerTracker::new(None);
    let peer = peer_node("mover", key(1), vec![]);
    let (set_upserts, _) = tracker.apply_peer_update(&delta(&[&peer]));
    assert_eq!(set_upserts.ids().len(), 1, "delta upserts the new peer");
    let new_ep = SocketAddr::v4(203, 0, 113, 7, 41641);
    let mut patch = change(1);
    patch.derp_region = Some(7);
    patch.underlay_addresses = Some(vec![new_ep]);
    let (upserts, deletions) = tracker.apply_peer_patches(&vec![patch]);
    assert_eq!(upserts.ids().len(), 1, "patch re-upserts the just-added peer");
    assert_eq!(deletions.ids().len(), 0);
    assert_eq!(node_one(&tracker).underlay_addresses, vec![new_ep]);
    assert_eq!(node_one(&tracker).derp_region, Some(7));
}

#[test]
fn patch_for_unknown_node_is_ignored() {
    let mut tracker = PeerTracker::new(None);
    tracker.apply_peer_update(&full(&[&peer_node("known", key(1), vec![])]));
    let mut patch = change(999);
    patch.underlay_addresses = Some(vec![SocketAddr::v4(198, 51, 100, 9, 1)]);
    let (upserts, deletions) = tracker.apply_peer_patches(&vec![patch]);
    assert_eq!(upserts.ids().len(), 0);
    assert_eq!(deletions.ids().len(), 0);
    assert_eq!(count(&tracker), 1);
    assert!(tracker.peer_db().get(PeerKey::NodeId(999)).is_none());
}

#[test]
fn patch_updates_node_key_expiry() {
    let mut tracker = PeerTracker::new(None);
    tracker.apply_peer_update(&full(&[&peer_node("expiring", key(1), vec![])]));
    let expiry = Timestamp {
        secs: 1_798_761_600,
        nanos: 0,
    };
    let mut patch = change(1);
    patch.node_key_expiry = Some(expiry);
    tracker.apply_peer_patches(&vec![patch]);
    assert_eq!(node_one(&tracker).node_key_expiry, Some(expiry));
}

#[test]
fn patch_updates_online() {
    let mut tracker = PeerTracker::new(None);
    tracker.apply_peer_update(&full(&[&peer_node("p", key(1), vec![])]));
    assert_eq!(node_one(&tracker).online, None);
    let mut patch = change(1);
    patch.online = Some(true);
    let mut patches = vec![patch];
    tracker.apply_peer_patches(&patches);
    assert_eq!(node_one(&tracker).online, Some(true));
    patches[0].online = Some(false);
    tracker.apply_peer_patches(&patches);
    assert_eq!(node_one(&tracker).online, Some(false));
}

#[test]
fn liveness_change_maps_apply_online() {
    let mut tracker = PeerTracker::new(None);
    tracker.apply_peer_update(&full(&[&peer_node("p", key(1), vec![])]));
    let none = vec![];
    assert!(tracker.apply_liveness_changes(&vec![(1, true), (999, true)], &none, NOW));
    assert_eq!(node_one(&tracker).online, Some(true));

    assert!(tracker.apply_liveness_changes(&none, &vec![(1, true)], NOW));
    assert_eq!(node_one(&tracker).last_seen, Some(NOW));
    assert_eq!(node_one(&tracker).online, Some(true), "a sighting must NOT touch online");

    assert!(tracker.apply_liveness_changes(&none, &vec![(1, false)], NOW));
    assert_eq!(node_one(&tracker).last_seen, None, "an absence clears last_seen");
    assert_eq!(node_one(&tracker).online, Some(true), "and must NOT mark offline");
    assert_eq!(count(&tracker), 1, "the node is retained, not removed");

    assert!(!tracker.apply_liveness_changes(&none, &none, NOW));
}

#[test]
fn patch_key_rotation_failing_tka_evicts_peer() {
    let (authority, sig) = authority_and_valid_sig();
    let mut tracker = PeerTracker::new(Some(authority));
    tracker.apply_peer_update(&full(&[&peer_node("rotator", NODE_KEY, sig)]));
    assert_eq!(count(&tracker), 1);
    let mut patch = change(1);
    patch.node_key = Some(key(0x33));
    patch.key_signature = Some(vec![0x00, 0x01, 0x02]);
    let (upserts, deletions) = tracker.apply_peer_patches(&vec![patch]);
    assert_eq!(upserts.ids().len(), 0);
    assert_eq!(deletions.ids().len(), 1);
    assert_eq!(count(&tracker), 0);
}

fn profile(id: i64, login: &str) -> UserProfile {
    UserProfile {
        id,
        login_name: login.to_string(),
        display_name: None,
    }
}

fn owner(tracker: &mut PeerTracker, addr: SocketAddr) -> Option<String> {
    match tracker.whois(0, addr) {
        Some(Reply::WhoIs(Some(who))) => who.user,
        _ => panic!("peer is known"),
    }
}

#[test]
fn whois_resolves_user_from_accumulated_profiles() {
    let mut tracker = PeerTracker::new(None);
    let mut peer = peer_node("p", NODE_KEY, vec![]);
    peer.user_id = 42;
    tracker.handle_state_update(&state(Some(full(&[&peer])), vec![]), NOW);
    let addr = SocketAddr::v4(100, 64, 0, 1, 0);
    assert_eq!(owner(&mut tracker, addr), None);
    tracker.handle_state_update(&state(None, vec![profile(7, "someone-else@example.com")]), NOW);
    assert_eq!(owner(&mut tracker, addr), None);
    tracker.handle_state_update(&state(None, vec![profile(42, "alice@example.com")]), NOW);
    assert_eq!(owner(&mut tracker, addr), Some("alice@example.com".to_string()));
}

#[test]
fn user_profile_best_label_prefers_login() {
    assert_eq!(
        profile(1, "alice@example.com").best_label(),
        Some("alice@example.com".to_string())
    );
    let display_only = UserProfile {
        id: 2,
        login_name: String::new(),
        display_name: Some("Bob".to_string()),
    };
    assert_eq!(display_only.best_label(), Some("Bob".to_string()));
    let empty = UserProfile {
        id: 3,
        login_name: String::new(),
        display_name: None,
    };
    assert_eq!(empty.best_label(), None);
}

fn rot_details(prev: &[&[u8]], wrapping: &[u8], kind: SigKind) -> RotationDetails {
    RotationDetails {
        prev_node_keys: prev.iter().map(|p| p.to_vec()).collect(),
        initial_sig_kind: kind,
        initial_wrapping_pubkey: wrapping.to_vec(),
    }
}

#[test]
fn rotation_tracker_prev_keys_always_obsolete() {
    let mut t = RotationTracker::new();
    t.add(b"newA".to_vec(), &rot_details(&[b"OLD1"], b"wrapA", SigKind::Direct));
    t.add(b"newB".to_vec(), &rot_details(&[b"OLD2"], b"wrapB", SigKind::Credential));
    let obsolete = t.obsolete_keys();
    assert!(obsolete.contains(b"OLD1"), "Direct chain's prior key obsolete");
    assert!(obsolete.contains(b"OLD2"), "Credential chain's prior key obsolete too");
    assert!(!obsolete.contains(b"newA"));
    assert!(!obsolete.contains(b"newB"));
}

#[test]
fn rotation_tracker_unequal_chain_keeps_longest() {
    let mut t = RotationTracker::new();
    t.add(b"long".to_vec(), &rot_details(&[b"p1", b"p2"], b"wrap", SigKind::Direct));
    t.add(b"short".to_vec(), &rot_details(&[b"q1"], b"wrap", SigKind::Direct));
    let obsolete = t.obsolete_keys();
    assert!(obsolete.contains(b"short"), "the shorter-chain clone is obsolete");
    assert!(!obsolete.contains(b"long"), "the longest-chain peer survives");
}

#[test]
fn rotation_tracker_equal_chain_drops_both() {
    let mut t = RotationTracker::new();
    t.add(b"cloneA".to_vec(), &rot_details(&[b"p1"], b"wrap", SigKind::Direct));
    t.add(b"cloneB".to_vec(), &rot_details(&[b"p2"], b"wrap", SigKind::Direct));
    let obsolete = t.obsolete_keys();
    assert!(obsolete.contains(b"cloneA"), "tied clone A dropped");
    assert!(obsolete.contains(b"cloneB"), "tied clone B dropped");
}

#[test]
fn rotation_tracker_credential_root_clones_both_kept() {
    let mut t = RotationTracker::new();
    t.add(b"credA".to_vec(), &rot_details(&[b"p1"], b"wrap", SigKind::Credential));
    t.add(b"credB".to_vec(), &rot_details(&[b"p2"], b"wrap", SigKind::Credential));
    let obsolete = t.obsolete_keys();
    assert!(!obsolete.contains(b"credA"), "credential-rooted clone A kept");
    assert!(!obsolete.contains(b"credB"), "credential-rooted clone B kept");
}

#[test]
fn rotation_tracker_already_obsolete_peer_not_a_survivor() {
    let mut t = RotationTracker::new();
    t.add(b"rotator".to_vec(), &rot_details(&[b"victim"], b"wRot", SigKind::Direct));
    t.add(b"victim".to_vec(), &rot_details(&[b"x"], b"w", SigKind::Direct));
    t.add(b"other".to_vec(), &rot_details(&[b"y"], b"w", SigKind::Direct));
    let obsolete = t.obsolete_keys();
    assert!(obsolete.contains(b"victim"), "victim rotated away by rotator");
    assert!(!obsolete.contains(b"other"), "other survives");
}

#[test]
fn rotation_tracker_empty_is_noop() {
    let t = RotationTracker::new();
    assert!(t.obsolete_keys().is_empty());
}

#[test]
fn rotated_keys_do_not_depend_on_their_order() {
    let chains: [(&[u8], &[&[u8]], &[u8]); 3] = [
        (b"long", &[b"p1", b"p2"], b"wrap"),
        (b"short", &[b"q1"], b"wrap"),
        (b"alone", &[b"r1"], b"apart"),
    ];
    for order in [[0, 1, 2], [2, 1, 0], [1, 2, 0]] {
        let mut t = RotationTracker::new();
        for i in order {
            let (node_key, prev, wrapping) = chains[i];
            t.add(node_key.to_vec(), &rot_details(prev, wrapping, SigKind::Direct));
        }
        let obsolete = t.obsolete_keys();
        let held: Vec<bool> = [&b"long"[..], b"short", b"alone", b"p1", b"q1", b"r1"]
            .iter()
            .map(|k| obsolete.contains(k))
            .collect();
        assert_eq!(held, vec![false, true, false, true, true, true]);
    }
}

#[test]
fn tka_full_drops_rotated_away_key_e2e() {
    let (authority, stale, rotated) = rotating_authority();
    let mut tracker = PeerTracker::new(Some(authority));
    tracker.apply_peer_update(&full(&[&rotated, &stale]));
    assert!(stored(&tracker, &rotated), "the freshly-rotated peer is admitted");
    assert!(!stored(&tracker, &stale), "the peer presenting the rotated-away key is dropped");
}

fn node_from_control(disco_key: Option<DiscoKey>) -> Node {
    let mut node = peer_node("peer", PEER_NODE_KEY, vec![]);
    node.disco_key = disco_key;
    node
}

fn control_full(disco_key: Option<DiscoKey>) -> PeerUpdate {
    PeerUpdate::Full(vec![node_from_control(disco_key)])
}

fn tracker_with_control_peer(disco_key: Option<DiscoKey>) -> (PeerTracker, PeerId) {
    let mut tracker = PeerTracker::new(None);
    tracker.apply_peer_update(&control_full(disco_key));
    let id = known_as(&tracker, PEER_NODE_KEY).expect("control delivered it");
    (tracker, id)
}

fn known_as(tracker: &PeerTracker, node_key: NodeKey) -> Option<PeerId> {
    tracker.peer_db().has(PeerKey::NodeKey(node_key))
}

fn disco_owner(tracker: &PeerTracker, key: DiscoKey) -> Option<PeerId> {
    tracker.peer_db().has(PeerKey::Disco(key))
}

fn effective_key(tracker: &PeerTracker, peer: PeerId) -> Option<DiscoKey> {
    tracker.peer_db().get(PeerKey::Id(peer)).expect("peer still present").node.disco_key
}

fn ingress_match(tracker: &PeerTracker, key: DiscoKey) -> Option<(PeerId, DiscoKeyMatch)> {
    tracker.peer_db().peer_by_known_disco_key(key).map(|(entry, matched)| (entry.id, matched))
}

#[test]
fn advertisement_learns_the_peers_disco_key() {
    let (mut tracker, peer) = tracker_with_control_peer(None);
    assert!(tracker.learn_disco_key(peer, ADVERTISED), "a first advertisement changes the db");
    assert_eq!(effective_key(&tracker, peer), Some(ADVERTISED));
    assert_eq!(disco_owner(&tracker, ADVERTISED), Some(peer));
    assert!(!tracker.learn_disco_key(peer, ADVERTISED), "re-advertising the same key is a no-op");
    assert!(tracker.learn_disco_key(peer, READVERTISED));
    assert_eq!(effective_key(&tracker, peer), Some(READVERTISED));
    assert_eq!(disco_owner(&tracker, READVERTISED), Some(peer));
    assert_eq!(disco_owner(&tracker, ADVERTISED), None);
}

#[test]
fn refused_advertisements_change_nothing() {
    let (mut tracker, peer) = tracker_with_control_peer(None);
    assert!(!tracker.learn_disco_key(peer, disco(0)), "the zero key is never learned");
    assert_eq!(effective_key(&tracker, peer), None);
    let unknown = PeerId(4242);
    assert!(tracker.peer_db().get(PeerKey::Id(unknown)).is_none(), "precondition");
    assert!(!tracker.learn_disco_key(unknown, ADVERTISED));
    assert_eq!(count(&tracker), 1, "an advertisement never creates a peer");
    assert_eq!(disco_owner(&tracker, ADVERTISED), None);
    assert!(tracker.handle_advertisement(unknown, ADVERTISED).is_none());
}

#[test]
fn netmap_restating_controls_stale_key_keeps_the_tsmp_key() {
    let (mut tracker, peer) = tracker_with_control_peer(Some(FROM_CONTROL));
    assert_eq!(effective_key(&tracker, peer), Some(FROM_CONTROL), "precondition");
    assert!(tracker.learn_disco_key(peer, ADVERTISED));
    assert_eq!(effective_key(&tracker, peer), Some(ADVERTISED));

    tracker.apply_peer_update(&control_full(Some(FROM_CONTROL)));
    assert_eq!(effective_key(&tracker, peer), Some(ADVERTISED));
    tracker.apply_peer_update(&delta(&[&node_from_control(Some(FROM_CONTROL))]));
    assert_eq!(effective_key(&tracker, peer), Some(ADVERTISED));
    assert_eq!(disco_owner(&tracker, ADVERTISED), Some(peer));
    assert_eq!(disco_owner(&tracker, FROM_CONTROL), None);

    tracker.apply_peer_update(&control_full(Some(CONTROL_CAUGHT_UP)));
    assert_eq!(effective_key(&tracker, peer), Some(ADVERTISED));
    assert_eq!(tracker.control_disco_key(PEER_NODE_KEY), Some(CONTROL_CAUGHT_UP));
}

#[test]
fn advertisement_restating_controls_key_is_recorded_as_the_tsmp_key() {
    let (mut tracker, peer) = tracker_with_control_peer(Some(FROM_CONTROL));
    assert!(tracker.learn_disco_key(peer, FROM_CONTROL), "recorded, not dropped");
    assert_eq!(
        tracker.endpoint_disco(PEER_NODE_KEY).and_then(|d| d.key_from_tsmp()),
        Some(FROM_CONTROL)
    );
    assert!(!tracker.learn_disco_key(peer, FROM_CONTROL), "re-advertising it IS unchanged");
    tracker.apply_peer_update(&control_full(None));
    assert_eq!(effective_key(&tracker, peer), Some(FROM_CONTROL));
    assert_eq!(disco_owner(&tracker, FROM_CONTROL), Some(peer));
}

#[test]
fn patch_without_a_disco_key_leaves_the_tsmp_key_active() {
    let (mut tracker, peer) = tracker_with_control_peer(Some(FROM_CONTROL));
    assert!(tracker.learn_disco_key(peer, ADVERTISED));
    let endpoint = SocketAddr::v4(203, 0, 113, 9, 41641);
    let mut patch = change(1);
    patch.underlay_addresses = Some(vec![endpoint]);
    let mut patches = vec![patch];
    tracker.apply_peer_patches(&patches);
    assert_eq!(effective_key(&tracker, peer), Some(ADVERTISED));
    assert_eq!(node_one(&tracker).underlay_addresses, vec![endpoint]);
    patches[0].disco_key = Some(CONTROL_CAUGHT_UP);
    tracker.apply_peer_patches(&patches);
    assert_eq!(effective_key(&tracker, peer), Some(ADVERTISED));
    assert_eq!(tracker.control_disco_key(PEER_NODE_KEY), Some(CONTROL_CAUGHT_UP));
}

#[test]
fn a_control_key_change_does_not_preempt_an_active_tsmp_key() {
    let (mut tracker, peer) = tracker_with_control_peer(Some(FROM_CONTROL));
    assert!(tracker.learn_disco_key(peer, ADVERTISED));
    tracker.apply_peer_update(&control_full(Some(CONTROL_CAUGHT_UP)));
    assert_eq!(effective_key(&tracker, peer), Some(ADVERTISED));
    assert_eq!(disco_owner(&tracker, ADVERTISED), Some(peer));
    assert_eq!(disco_owner(&tracker, CONTROL_CAUGHT_UP), None);
    assert_eq!(tracker.control_disco_key(PEER_NODE_KEY), Some(CONTROL_CAUGHT_UP));
    tracker.apply_peer_update(&control_full(Some(FROM_CONTROL)));
    tracker.apply_peer_update(&control_full(None));
    assert_eq!(effective_key(&tracker, peer), Some(ADVERTISED));
    assert!(tracker.learn_disco_key(peer, CONTROL_CAUGHT_UP));
    assert_eq!(effective_key(&tracker, peer), Some(CONTROL_CAUGHT_UP));
}

#[test]
fn a_first_control_key_is_active_even_after_control_sent_none() {
    let (mut tracker, peer) = tracker_with_control_peer(None);
    assert_eq!(effective_key(&tracker, peer), None, "precondition");
    assert_eq!(tracker.endpoint_disco_len(), 0);
    tracker.apply_peer_update(&control_full(Some(FROM_CONTROL)));
    assert_eq!(effective_key(&tracker, peer), Some(FROM_CONTROL));
    assert_eq!(disco_owner(&tracker, FROM_CONTROL), Some(peer));
}

#[test]
fn tsmp_key_does_not_outlive_the_peer_or_its_node_key() {
    let (mut tracker, peer) = tracker_with_control_peer(Some(FROM_CONTROL));
    assert!(tracker.learn_disco_key(peer, ADVERTISED));
    tracker.apply_peer_update(&PeerUpdate::Full(vec![]));
    assert_eq!(count(&tracker), 0);
    assert_eq!(tracker.endpoint_disco_len(), 0);
    tracker.apply_peer_update(&control_full(Some(FROM_CONTROL)));
    let peer = known_as(&tracker, PEER_NODE_KEY).expect("re-added");
    assert_eq!(effective_key(&tracker, peer), Some(FROM_CONTROL));

    assert!(tracker.learn_disco_key(peer, READVERTISED));
    let mut rotated = node_from_control(Some(FROM_CONTROL));
    rotated.node_key = key(2);
    tracker.apply_peer_update(&full(&[&rotated]));
    let peer = known_as(&tracker, key(2)).expect("rotated peer");
    assert_eq!(effective_key(&tracker, peer), Some(FROM_CONTROL));
    assert_eq!(tracker.endpoint_disco_len(), 1);
}

#[test]
fn disco_under_the_inactive_key_is_accepted_and_makes_that_key_active() {
    let (mut tracker, peer) = tracker_with_control_peer(Some(FROM_CONTROL));
    assert!(tracker.learn_disco_key(peer, ADVERTISED));
    assert_eq!(effective_key(&tracker, peer), Some(ADVERTISED), "precondition");
    assert_eq!(ingress_match(&tracker, FROM_CONTROL), Some((peer, DiscoKeyMatch::Inactive)));

    assert!(tracker.observe_disco_key(peer, FROM_CONTROL));
    assert_eq!(effective_key(&tracker, peer), Some(FROM_CONTROL));
    assert_eq!(disco_owner(&tracker, FROM_CONTROL), Some(peer));
    assert_eq!(ingress_match(&tracker, FROM_CONTROL), Some((peer, DiscoKeyMatch::Active)));
    assert_eq!(ingress_match(&tracker, ADVERTISED), Some((peer, DiscoKeyMatch::Inactive)));

    assert!(!tracker.observe_disco_key(peer, FROM_CONTROL));
    assert!(tracker.observe_disco_key(peer, ADVERTISED));
    assert_eq!(effective_key(&tracker, peer), Some(ADVERTISED));
    assert_eq!(ingress_match(&tracker, FROM_CONTROL), Some((peer, DiscoKeyMatch::Inactive)));
}

#[test]
fn disco_under_a_key_in_neither_slot_is_refused() {
    let (mut tracker, peer) = tracker_with_control_peer(Some(FROM_CONTROL));
    assert!(tracker.learn_disco_key(peer, ADVERTISED));
    assert!(!tracker.observe_disco_key(peer, READVERTISED));
    assert_eq!(effective_key(&tracker, peer), Some(ADVERTISED));
    assert_eq!(ingress_match(&tracker, READVERTISED), None);
    assert_eq!(ingress_match(&tracker, FROM_CONTROL), Some((peer, DiscoKeyMatch::Inactive)));

    assert!(!tracker.observe_disco_key(PeerId(4242), FROM_CONTROL));
    assert_eq!(count(&tracker), 1);

    let (mut bare, bare_peer) = tracker_with_control_peer(None);
    assert_eq!(effective_key(&bare, bare_peer), None, "precondition");
    assert!(!bare.observe_disco_key(bare_peer, FROM_CONTROL));
    assert_eq!(effective_key(&bare, bare_peer), None);
}

#[test]
fn a_single_key_peer_has_no_second_slot() {
    let (tracker, peer) = tracker_with_control_peer(Some(FROM_CONTROL));
    assert_eq!(ingress_match(&tracker, FROM_CONTROL), Some((peer, DiscoKeyMatch::Active)));
    assert_eq!(ingress_match(&tracker, ADVERTISED), None);
}

#[test]
fn the_same_key_in_both_slots_is_one_key() {
    let (mut tracker, peer) = tracker_with_control_peer(Some(FROM_CONTROL));
    assert!(tracker.learn_disco_key(peer, FROM_CONTROL));
    assert_eq!(tracker.endpoint_disco(PEER_NODE_KEY).and_then(|d| d.inactive_key()), None);
    assert_eq!(ingress_match(&tracker, FROM_CONTROL), Some((peer, DiscoKeyMatch::Active)));
    assert!(!tracker.observe_disco_key(peer, FROM_CONTROL));
}

#[test]
fn a_departed_peer_stops_resolving_under_either_key() {
    let (mut tracker, peer) = tracker_with_control_peer(Some(FROM_CONTROL));
    assert!(tracker.learn_disco_key(peer, ADVERTISED));
    assert!(ingress_match(&tracker, FROM_CONTROL).is_some());
    tracker.apply_peer_update(&PeerUpdate::Full(vec![]));
    assert_eq!(ingress_match(&tracker, ADVERTISED), None);
    assert_eq!(ingress_match(&tracker, FROM_CONTROL), None);
}

#[test]
fn zero_keys_from_control_are_no_keys() {
    let (tracker, peer) = tracker_with_control_peer(Some(disco(0)));
    assert_eq!(effective_key(&tracker, peer), None);
    let mut slots = EndpointDisco::new();
    assert!(slots.is_empty());
    slots.update_from_control(Some(FROM_CONTROL));
    assert_eq!(slots.key(), Some(FROM_CONTROL));
    assert_eq!(slots.check_and_update(FROM_CONTROL), Some(false));
    assert_eq!(slots.check_and_update(ADVERTISED), None);
    slots.update_from_tsmp(Some(ADVERTISED));
    assert_eq!(slots.check_and_update(FROM_CONTROL), Some(true));
    assert_eq!(slots.inactive_key(), Some(ADVERTISED));
}

#[test]
fn requests_wait_for_the_first_update() {
    let mut tracker = PeerTracker::new(None);
    let addr = SocketAddr::v4(100, 64, 0, 1, 22);
    assert!(tracker.peer_by_name(1, "p".to_string()).is_none());
    assert!(tracker.peer_by_tailnet_ip(2, addr.ip).is_none());
    assert!(tracker.get_status(3).is_none());
    assert!(tracker.whois(4, addr).is_none());
    assert!(tracker.peer_by_accepted_route(5, addr.ip).is_none());
    assert!(tracker.watch_netmap().is_empty());

    let mut peer = peer_node("p", NODE_KEY, vec![]);
    peer.accepted_routes = vec![IpPrefix {
        addr: addr.ip,
        len: 32,
    }];
    let outcome = tracker.handle_state_update(&state(Some(full(&[&peer])), vec![]), NOW);
    let published = outcome.publish.expect("a peer was added");
    assert_eq!(published.upserts.ids().len(), 1);
    assert_eq!(published.peers.peers().len(), 1);
    let tickets: Vec<u64> = outcome.replies.iter().map(|(ticket, _)| *ticket).collect();
    assert_eq!(tickets, vec![1, 2, 3, 4, 5]);
    match &outcome.replies[0].1 {
        Reply::Peer(Some(node)) => assert_eq!(node.stable_id, "p"),
        _ => panic!("the peer has that name"),
    }
    match &outcome.replies[2].1 {
        Reply::Status(peers) => assert_eq!(peers.len(), 1),
        _ => panic!("a status was asked for"),
    }
    match &outcome.replies[4].1 {
        Reply::Peers(peers) => assert_eq!(peers.len(), 1),
        _ => panic!("routes were asked for"),
    }
    assert!(tracker.service_pending_requests().is_empty());
    match tracker.peer_by_name(6, "P.TS.NET.".to_string()) {
        Some(Reply::Peer(Some(node))) => assert_eq!(node.stable_id, "p"),
        _ => panic!("answered at once"),
    }
    let again = tracker.handle_republish(RepublishState);
    assert!(again.upserts.is_empty() && again.deletions.is_empty());
    assert_eq!(again.peers.peers().len(), 1);
}

#[test]
fn the_most_specific_accepted_route_wins() {
    let net = |a: u8, b: u8, len: u8| IpPrefix {
        addr: IpAddr::V4(Ipv4Addr::new(a, b, 0, 0)),
        len,
    };
    let mut wide = peer_node("wide", key(1), vec![]);
    wide.accepted_routes = vec![net(10, 0, 8)];
    let mut narrow = peer_node("narrow", key(2), vec![]);
    narrow.id = 2;
    narrow.accepted_routes = vec![net(10, 1, 16)];
    let mut db = PeerDb::new();
    db.upsert(&wide);
    db.upsert(&narrow);
    let via = |ip: Ipv4Addr| -> Vec<String> {
        db.get_route(IpAddr::V4(ip)).iter().map(|node| node.stable_id.clone()).collect()
    };
    assert_eq!(via(Ipv4Addr::new(10, 1, 2, 3)), vec!["narrow"]);
    assert_eq!(via(Ipv4Addr::new(10, 2, 2, 3)), vec!["wide"]);
    assert!(via(Ipv4Addr::new(11, 0, 0, 1)).is_empty());
}

#[test]
fn advertised_keys_are_published() {
    let (mut tracker, peer) = tracker_with_control_peer(Some(FROM_CONTROL));
    let published = tracker.handle_advertisement(peer, ADVERTISED).expect("the key is new");
    assert_eq!(published.upserts.ids(), &vec![peer]);
    assert!(tracker.handle_advertisement(peer, ADVERTISED).is_none());
    let published = tracker.handle_disco_observed(peer, FROM_CONTROL).expect("the keys change");
    assert_eq!(published.upserts.ids(), &vec![peer]);
    assert!(tracker.handle_disco_observed(peer, FROM_CONTROL).is_none());
}

#[test]
fn a_response_names_each_peer_once() {
    let (authority, sig) = authority_and_valid_sig();
    let mut tracker = PeerTracker::new(Some(authority));
    let node = peer_node("signed", NODE_KEY, sig.clone());
    let mut update = state(Some(full(&[&node])), vec![]);
    update.peer_patches = vec![PeerChange {
        key_signature: Some(tampered(&sig)),
        ..change(1)
    }];
    let outcome = tracker.handle_state_update(&update, NOW);
    let state = outcome.publish.unwrap();
    assert!(state.upserts.is_empty());
    assert_eq!(state.deletions.ids().len(), 1);
    assert_eq!(state.peers.peers().len(), 0);
}

#[test]
fn sets_list_each_member_once() {
    let mut set = IdSet::from_ids(&vec![PeerId(3), PeerId(1), PeerId(3)]);
    assert_eq!(set.ids(), &vec![PeerId(3), PeerId(1)]);
    set.insert(PeerId(1));
    set.extend(&IdSet::from_ids(&vec![PeerId(1), PeerId(2)]));
    assert_eq!(set.ids(), &vec![PeerId(3), PeerId(1), PeerId(2)]);
    set.remove(PeerId(3));
    assert_eq!(set.ids(), &vec![PeerId(1), PeerId(2)]);
}

#[test]
fn disco_tables_are_counted_by_node_key() {
    let mut table = DiscoTable::new();
    assert_eq!(table.len(), 0);
    let mut keys = EndpointDisco::new();
    keys.update_from_control(Some(FROM_CONTROL));
    table.set(key(1), keys);
    table.set(key(2), keys);
    table.set(key(1), keys);
    assert_eq!(table.len(), 2);
}
