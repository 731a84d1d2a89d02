//! A userspace TCP/UDP port forwarder core: content-aware upstream selection,
//! per-source access control, bounded per-flow buffering with backpressure,
//! half-close tracking for TCP, and idle eviction for UDP sessions.
#![allow(non_snake_case)]

pub mod addr;
pub mod address_matcher;
pub mod connection_plugin;
pub mod forward_config;
pub mod kmp;
pub mod tcp_engine;
pub mod udp_engine;
pub mod utils;

pub use utils::convert_to_bytes;
