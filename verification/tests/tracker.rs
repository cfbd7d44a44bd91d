use peas_rf_cp::common::id::Id;
use peas_rf_cp::network::{Addr, NetworkError};
use peas_rf_cp::tracker::api;
use peas_rf_cp::tracker::api::LookupSession;
use peas_rf_cp::tracker::server::{Boot, Data, Tracker};
use peas_rf_cp::tracker::{TrackQuery, TrackResp};

fn addr(n: u32) -> Addr {
    Addr::V4 { ip: n, port: 12345 }
}

#[test]
fn response_kinds() {
    let u = TrackResp::UpdateSuccess { id: Id::from_u64(1), ttl: 5 };
    let l = TrackResp::LookupAns { adr: None, lookup_id: 0 };
    assert!(u.is_update() && !u.is_lookup());
    assert!(l.is_lookup() && !l.is_update());
}

#[test]
fn tracker_is_asked_three_times_for_half_a_second() {
    assert_eq!(api::RETRIES, 3);
    assert_eq!(api::TIMEOUT, 500);
}

#[test]
fn update_yields_the_granted_time() {
    assert_eq!(
        api::update_query(Id::from_u64(3), addr(1)),
        TrackQuery::Update { id: Id::from_u64(3), adr: addr(1) }
    );
    assert!(matches!(
        api::update(Ok(TrackResp::UpdateSuccess { id: Id::from_u64(3), ttl: 600_000 })),
        Ok(600_000)
    ));
    assert!(matches!(api::update(Err(NetworkError::Timeout)), Err(NetworkError::Timeout)));
    assert!(matches!(
        api::update(Ok(TrackResp::LookupAns { adr: None, lookup_id: 0 })),
        Err(NetworkError::NoMessage)
    ));
}

#[test]
fn session_walks_through_the_addresses() {
    let mut s = LookupSession::new(addr(9), Id::from_u64(3));
    assert_eq!(s.query(), Some(TrackQuery::Lookup { id: Id::from_u64(3), last_lookup: 0 }));
    assert!(matches!(s.next(Ok((Some(addr(1)), 4))), Some(Ok(a)) if a == addr(1)));
    assert_eq!(s.query(), Some(TrackQuery::Lookup { id: Id::from_u64(3), last_lookup: 4 }));
    assert!(matches!(s.next(Ok((Some(addr(2)), 7))), Some(Ok(a)) if a == addr(2)));
    assert_eq!(s.last_lookup, 7);
    assert!(s.next(Ok((None, 0))).is_none());
    assert_eq!(s.query(), None);
    // permanently empty
    assert!(s.next(Ok((Some(addr(3)), 8))).is_none());
}

#[test]
fn session_is_empty_after_an_error() {
    let mut s = LookupSession::new(addr(9), Id::from_u64(3));
    assert!(matches!(s.next(Err(NetworkError::Timeout)), Some(Err(NetworkError::Timeout))));
    assert!(s.next(Ok((Some(addr(3)), 8))).is_none());
    assert!(s.empty);
    assert_eq!(s.query(), None);
}

#[test]
fn book_hands_out_increasing_counters() {
    let mut d = Data::new();
    let mut counter = 0u32;
    let room = Id::from_u64(1);
    d.update(&mut counter, room, addr(1), 10);
    d.update(&mut counter, room, addr(2), 20);
    d.update(&mut counter, Id::from_u64(2), addr(3), 30);
    assert_eq!(counter, 3);
    // a known peer is seen anew and keeps its counter
    d.update(&mut counter, room, addr(1), 40);
    assert_eq!(counter, 3);
    assert_eq!(d.length(), 3);
    assert_eq!(d.lookup(room, 0), Some((addr(1), 1)));
    assert_eq!(d.lookup(room, 1), Some((addr(2), 2)));
    assert_eq!(d.lookup(room, 2), None);
    assert_eq!(d.lookup(Id::from_u64(2), 0), Some((addr(3), 3)));
    assert_eq!(d.lookup(Id::from_u64(2), 3), None);
    assert_eq!(d.lookup(Id::from_u64(9), 0), None);
}

#[test]
fn old_entries_are_removed() {
    let mut d = Data::new();
    let mut counter = 0u32;
    d.update(&mut counter, Id::from_u64(1), addr(1), 100);
    d.update(&mut counter, Id::from_u64(1), addr(2), 300);
    d.update(&mut counter, Id::from_u64(2), addr(3), 150);
    // at 400 with a threshold of 200: the entries of 100 and 150 are too old
    assert_eq!(d.remove_old(200, 400), Some(300));
    assert_eq!(d.length(), 1);
    assert_eq!(d.lookup(Id::from_u64(1), 0), Some((addr(2), 2)));
    assert_eq!(d.lookup(Id::from_u64(2), 0), None);
    // exactly at the threshold an entry stays
    assert_eq!(d.remove_old(100, 400), Some(300));
    assert_eq!(d.remove_old(99, 400), None);
    assert_eq!(d.length(), 0);
    assert_eq!(Data::new().remove_old(0, 0), None);
}

#[test]
fn tracker_answers_queries() {
    let mut t = Tracker::start(600, 0);
    assert!(!t.exhausted());
    let room = Id::from_u64(5);
    assert_eq!(
        t.handle(TrackQuery::Lookup { id: room, last_lookup: 0 }, 1),
        TrackResp::LookupAns { adr: None, lookup_id: 0 }
    );
    assert_eq!(
        t.handle(TrackQuery::Update { id: room, adr: addr(1) }, 2),
        TrackResp::UpdateSuccess { id: room, ttl: 600_000 }
    );
    assert_eq!(
        t.handle(TrackQuery::Update { id: room, adr: addr(2) }, 3),
        TrackResp::UpdateSuccess { id: room, ttl: 600_000 }
    );
    assert_eq!(
        t.handle(TrackQuery::Lookup { id: room, last_lookup: 0 }, 4),
        TrackResp::LookupAns { adr: Some(addr(1)), lookup_id: 1 }
    );
    assert_eq!(
        t.handle(TrackQuery::Lookup { id: room, last_lookup: 1 }, 5),
        TrackResp::LookupAns { adr: Some(addr(2)), lookup_id: 2 }
    );
    assert_eq!(
        t.handle(TrackQuery::Lookup { id: room, last_lookup: 2 }, 6),
        TrackResp::LookupAns { adr: None, lookup_id: 0 }
    );
}

#[test]
fn tracker_forgets_peers_after_their_time() {
    let mut t = Tracker::start(1, 0);
    let room = Id::from_u64(5);
    t.handle(TrackQuery::Update { id: room, adr: addr(1) }, 100);
    t.handle(TrackQuery::Update { id: room, adr: addr(2) }, 900);
    // at 1001 the book is pruned after the query: the lookup still sees the first peer
    assert_eq!(
        t.handle(TrackQuery::Lookup { id: room, last_lookup: 0 }, 1_101),
        TrackResp::LookupAns { adr: Some(addr(1)), lookup_id: 1 }
    );
    assert_eq!(
        t.handle(TrackQuery::Lookup { id: room, last_lookup: 0 }, 1_102),
        TrackResp::LookupAns { adr: Some(addr(2)), lookup_id: 2 }
    );
}

#[test]
fn a_walk_against_the_tracker_yields_strictly_increasing_counters() {
    let mut t = Tracker::start(600, 0);
    let room = Id::from_u64(5);
    for i in 1..=5u32 {
        t.handle(TrackQuery::Update { id: room, adr: addr(i) }, i as u64);
    }
    let mut s = LookupSession::new(addr(99), room);
    let mut cursors = Vec::new();
    let mut yielded = Vec::new();
    let mut now = 10;
    while let Some(q) = s.query() {
        now += 1;
        // a peer joins in the middle of the walk
        if cursors.len() == 2 {
            t.handle(TrackQuery::Update { id: room, adr: addr(50) }, now);
        }
        let resp = match t.handle(q, now) {
            TrackResp::LookupAns { adr, lookup_id } => Ok((adr, lookup_id)),
            _ => Err(NetworkError::NoMessage),
        };
        if let Some(Ok(a)) = s.next(resp) {
            yielded.push(a);
            cursors.push(s.last_lookup);
        }
    }
    assert_eq!(cursors, vec![1, 2, 3, 4, 5, 6]);
    assert_eq!(yielded, vec![addr(1), addr(2), addr(3), addr(4), addr(5), addr(50)]);
    for w in cursors.windows(2) {
        assert!(w[0] < w[1]);
    }
}

#[test]
fn entry_nodes_are_compared_by_address() {
    let a = Boot { adr: addr(1), ttl: 5, counter: 1 };
    let b = Boot { adr: addr(1), ttl: 9, counter: 4 };
    let c = Boot { adr: addr(2), ttl: 5, counter: 1 };
    assert!(a == b);
    assert!(a != c);
}
