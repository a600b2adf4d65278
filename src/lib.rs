//! A learning Ethernet bridge between a local link and peers reachable over UDP.
//!
//! The library holds the forwarding engine: the table of learned peers, its
//! eviction policy and the routing decision taken for every frame. Reading and
//! writing frames, sockets and clocks are left to the caller, who hands the
//! engine plain values and carries out what it decides.
pub mod address;
pub mod frame;
pub mod peer_table;
pub mod engine;
