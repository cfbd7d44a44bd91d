//! The tracker protocol: what a peer asks of a tracker and what it hears back.

use vstd::prelude::*;
use crate::common::id::Id;
use crate::network::Addr;

pub mod api;
pub mod server;

verus! {

/// things that can be requested of the tracker
#[derive(Debug, Clone, Copy, PartialEq, Eq, Structural)]
pub enum TrackQuery {
    /// update info about a room
    Update {
        /// room id to refresh
        id: Id,
        /// address where the room lives
        adr: Addr,
    },
    /// check where a room exists
    Lookup {
        /// id of room to find a room for
        id: Id,
        /// lookup reference, used to make multiple requests work, start as 0
        last_lookup: u32,
    },
}

/// things the tracker can respond with
#[derive(Debug, Clone, Copy, PartialEq, Eq, Structural)]
pub enum TrackResp {
    /// TrackQuery::Update was successful
    UpdateSuccess {
        /// this room was updated
        id: Id,
        /// it will now be remembered for this long, in milliseconds
        ttl: u64,
    },
    /// TrackQuery::Lookup was successful
    LookupAns {
        /// this is the node to connect to (if one was found)
        adr: Option<Addr>,
        /// reference to supply in the next request
        lookup_id: u32,
    },
}

impl TrackResp {
    pub fn is_lookup(&self) -> (r: bool)
        ensures
            r == (*self is LookupAns),
    {
        match self {
            TrackResp::LookupAns { .. } => true,
            _ => false,
        }
    }

    pub fn is_update(&self) -> (r: bool)
        ensures
            r == (*self is UpdateSuccess),
    {
        match self {
            TrackResp::UpdateSuccess { .. } => true,
            _ => false,
        }
    }
}

} // verus!
