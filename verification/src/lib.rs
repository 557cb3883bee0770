//! Zero-copy packet I/O for a multi-core forwarding engine.

pub mod burst;
pub mod common;
pub mod eal;
pub mod ether;
pub mod headers;
pub mod ids;
pub mod l2fwd;
pub mod mpool;
pub mod names;
pub mod packet;
pub mod pkt_perf;
pub mod port;
pub mod queue;
pub mod tx_buffer;
pub mod utils;
pub mod worker;
