//! Core of a mesh-network router agent: per-neighbor accounting and
//! tunnel lifecycle.
//!
//! The library keeps the books for every neighboring node: it tracks a
//! signed balance per peer identity, decides when to pay a peer and when
//! to sever the tunnel to it, owns the pools of local ports and tunnel
//! interface names, turns raw byte counters into charges, deduplicates
//! peer discovery, serializes outgoing payments per peer, vets inbound
//! payment notifications, and encodes the discovery wire frames. All
//! I/O (UDP discovery sockets, kernel commands, the payment RPC, the
//! dashboard HTTP layer) lives outside; the functions here take plain
//! values in and hand decisions back.

pub mod identity;
pub mod int256;
pub mod debt_keeper;
pub mod traffic_watcher;
pub mod tunnel_manager;
pub mod payments;
pub mod peer_listener;
pub mod codec;
pub mod strtool;
pub mod interfaces;
pub mod kernel;
pub mod middleware;
pub mod dashboard;
