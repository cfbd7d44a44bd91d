//! The peer's side of the tracker protocol: registering in a room, and walking
//! through the bootstrap addresses that a tracker knows for a room.

use vstd::prelude::*;
use crate::common::id::Id;
use crate::network::Addr;
use crate::network::udp::course;
use crate::network::udp::lemma_silence_times_out;
use crate::network::NetworkError;
use crate::tracker::TrackQuery;
use crate::tracker::TrackResp;

verus! {

/// How often a query is sent to a tracker before the tracker counts as silent.
pub const RETRIES: u32 = 3;

/// How long, in milliseconds, each try waits for the tracker's answer.
pub const TIMEOUT: u64 = 500;

/// A walk through the bootstrap addresses that one tracker knows for one room.
/// Each step sends the cursor that the tracker handed out with the address
/// before, so that every address comes once.
#[derive(Debug, Clone, Copy, PartialEq, Eq, Structural)]
pub struct LookupSession {
    /// The tracker.
    pub adr: Addr,
    /// The room.
    pub id: Id,
    /// The cursor of the address that was handed out last; 0 at the start.
    pub last_lookup: u32,
    /// Whether the walk has ended.
    pub empty: bool,
}

impl LookupSession {
    /// creates a session for looking up boot node addresses from a given tracker.
    pub fn new(track: Addr, room: Id) -> (s: LookupSession)
        ensures
            s == (LookupSession { adr: track, id: room, last_lookup: 0, empty: false }),
    {
        LookupSession { adr: track, id: room, last_lookup: 0, empty: false }
    }

    /// The query of the next step; `None` after the walk has ended.
    pub fn query(&self) -> (q: Option<TrackQuery>)
        ensures
            q == self.spec_query(),
    {
        if self.empty {
            None
        } else {
            Some(TrackQuery::Lookup { id: self.id, last_lookup: self.last_lookup })
        }
    }

    /// What `query` returns.
    pub open spec fn spec_query(self) -> Option<TrackQuery> {
        if self.empty {
            None
        } else {
            Some(TrackQuery::Lookup { id: self.id, last_lookup: self.last_lookup })
        }
    }

    /// The session and what it yields after the tracker's answer `resp` to the
    /// query of this step: the address and cursor of a `LookupAns`, or the
    /// error of the exchange.
    ///
    /// An address is yielded and its cursor kept. An answer without address
    /// ends the walk and yields nothing. An error is yielded once and ends the
    /// walk. A walk that has ended yields nothing.
    pub open spec fn spec_next(self, resp: Result<(Option<Addr>, u32), NetworkError>) -> (
        LookupSession,
        Option<Result<Addr, NetworkError>>,
    ) {
        if self.empty {
            (self, None)
        } else {
            match resp {
                Err(e) => (LookupSession { empty: true, ..self }, Some(Err(e))),
                Ok((Some(a), lookup_id)) => (
                    LookupSession { last_lookup: lookup_id, ..self },
                    Some(Ok(a)),
                ),
                Ok((None, _)) => (LookupSession { empty: true, ..self }, None),
            }
        }
    }

    /// returns Ok(adr) with the next address from the tracker
    /// Err(NetworkError::Timeout) if the tracker isn't responding
    /// Err(_) if a severe network error occured
    /// returns None if the last thing was an error or if there aren't any more
    /// addresses from the tracker.
    pub fn next(&mut self, resp: Result<(Option<Addr>, u32), NetworkError>) -> (item: Option<
        Result<Addr, NetworkError>,
    >)
        ensures
            (*final(self), item) == old(self).spec_next(resp),
    {
        if self.empty {
            return None;
        }
        match resp {
            Err(e) => {
                self.empty = true;
                Some(Err(e))
            },
            Ok((Some(a), lookup_id)) => {
                self.last_lookup = lookup_id;
                Some(Ok(a))
            },
            Ok((None, _)) => {
                self.empty = true;
                None
            },
        }
    }
}

/// The query that registers `my_adr` in the room `room`.
pub fn update_query(room: Id, my_adr: Addr) -> (q: TrackQuery)
    ensures
        q == (TrackQuery::Update { id: room, adr: my_adr }),
{
    TrackQuery::Update { id: room, adr: my_adr }
}

/// What an exchange with the tracker about a registration comes to: the time,
/// in milliseconds, for which the tracker will keep the entry, or the error of
/// the exchange. An answer of the wrong kind is no message.
pub fn update(resp: Result<TrackResp, NetworkError>) -> (r: Result<u64, NetworkError>)
    ensures
        r == match resp {
            Ok(TrackResp::UpdateSuccess { id, ttl }) => Ok::<u64, NetworkError>(ttl),
            Ok(TrackResp::LookupAns { adr, lookup_id }) => Err::<u64, NetworkError>(
                NetworkError::NoMessage,
            ),
            Err(e) => Err::<u64, NetworkError>(e),
        },
{
    match resp {
        Ok(TrackResp::UpdateSuccess { id: _, ttl }) => Ok(ttl),
        Ok(TrackResp::LookupAns { .. }) => Err(NetworkError::NoMessage),
        Err(e) => Err(e),
    }
}

/// A silent tracker. A query that the tracker never answers is sent `RETRIES`
/// times, and the exchange ends with `Timeout`, which is what `update` then
/// reports.
pub proof fn lemma_silent_tracker(outcomes: Seq<Result<(), NetworkError>>)
    requires
        outcomes.len() >= RETRIES,
        forall|i: int|
            0 <= i < RETRIES ==> #[trigger] outcomes[i] == Err::<(), NetworkError>(
                NetworkError::Timeout,
            ),
    ensures
        course(outcomes, 1, RETRIES) == (
            RETRIES as nat,
            Some(Err::<(), NetworkError>(NetworkError::Timeout)),
        ),
{
    lemma_silence_times_out(outcomes, 1, RETRIES);
}

} // verus!
