//! A serverless, room-based peer-to-peer chat overlay: a Kademlia routing
//! table, the session layer that runs over one datagram socket, and the gossip
//! engine that floods chat messages between neighbours.
//!
//! Every function in this crate is verified. The few calls that leave the crate
//! (random numbers, the clock, the datagram envelope encoding) are made through
//! small wrappers whose contracts are assumed; each says so in its comment.

pub mod common;
pub mod network;
pub mod node;
pub mod tracker;
