//! Reliable byte pipes over datagrams.

pub mod circ;
pub mod connection;
pub mod delivery;
pub mod error;
pub mod event_loop;
pub mod intake;
pub mod missing;
pub mod network;
pub mod ochen_circus_buf;
pub mod outgoing;
pub mod packetizer;
pub mod pipe;
pub mod range_set;
pub mod receive;
pub mod sende;
pub mod sequence;
pub mod transfer;
pub mod wire;
