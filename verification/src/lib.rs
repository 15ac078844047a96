//! The verified core of a mesh-network node: wire formats, routing filters,
//! addressing, onion layers and the routing state machine.

pub mod address;
pub mod admin;
pub mod bytes;
pub mod config;
pub mod conn;
pub mod crypto;
pub mod cuckoo;
pub mod discovery;
pub mod dispatch;
pub mod gossip;
pub mod hash;
pub mod hyperbolic;
pub mod keyshare;
pub mod lookup;
pub mod maintenance;
pub mod mdns;
pub mod metrics;
pub mod obfs;
pub mod onion;
pub mod onionkeys;
pub mod packet;
pub mod paths;
pub mod peercache;
pub mod peers;
pub mod pings;
pub mod pq_sign;
pub mod quic;
pub mod reputation;
pub mod router;
pub mod state;
pub mod tables;
pub mod text;
pub mod traffic;
pub mod tree;
