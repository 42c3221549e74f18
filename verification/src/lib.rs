//! The decision logic of a tailnet node's runtime.

pub mod addr;
pub mod base64url;
pub mod call_laws;
pub mod clock;
pub mod decimal;
pub mod disco_laws;
pub mod dns_laws;
pub mod dns_message;
pub mod dns_names;
pub mod endpoint_disco;
pub mod forward;
pub mod http;
pub mod http_laws;
pub mod id_set;
pub mod liveness_laws;
pub mod lookup_laws;
pub mod magic_dns;
pub mod multiderp;
pub mod netmon;
pub mod node;
pub mod overlay;
pub mod packetfilter;
pub mod patch_laws;
pub mod peer_db;
pub mod peer_laws;
pub mod peer_tracker;
pub mod peerapi;
pub mod peerapi_doh;
pub mod publication;
pub mod relay_laws;
pub mod rotation;
pub mod rotation_laws;
pub mod search;
pub mod tailnet_lock;
pub mod text;
pub mod transport_laws;
pub mod update_laws;
