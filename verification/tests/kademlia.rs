use peas_rf_cp::common::id::Id;
use peas_rf_cp::network::{Addr, NetworkError};
use peas_rf_cp::node::kademlia::{
    create_ktable, find_bootstrapper, handle_msg, handle_one, is_alive, BootStep, IdLookup,
    Inbound, KadMsg, BATCH, K,
};
use peas_rf_cp::node::ktable::{Entry, Ktable};
use peas_rf_cp::tracker::TrackQuery;

fn addr(n: u32) -> Addr {
    Addr::V4 { ip: 0x0a00_0000 + n, port: 4000 }
}

fn entry(id: u64) -> Entry {
    Entry::new(addr(id as u32), Id::from_u64(id))
}

fn ids(v: &Vec<Entry>) -> Vec<u64> {
    v.iter().map(|e| e.get_id().into_u64()).collect()
}

#[test]
fn message_kinds() {
    assert!(KadMsg::Pong(Id::from_u64(1)).is_pong());
    assert!(!KadMsg::Ping.is_pong());
    assert!(KadMsg::Answer(Vec::new()).is_answer());
    assert!(!KadMsg::Lookup(Id::from_u64(1), entry(2)).is_answer());
    assert_eq!(K, 3);
    assert_eq!(BATCH, 10);
}

#[test]
fn ping_is_answered_with_pong() {
    let mut t = create_ktable(Id::from_u64(100));
    match handle_one(KadMsg::Ping, Id::from_u64(100), &mut t) {
        Some(KadMsg::Pong(id)) => assert_eq!(id, Id::from_u64(100)),
        other => panic!("unexpected {:?}", other),
    }
    assert_eq!(t.len(), 0);
}

#[test]
fn other_messages_get_no_reply() {
    let mut t = create_ktable(Id::from_u64(100));
    assert!(handle_one(KadMsg::Pong(Id::from_u64(1)), Id::from_u64(100), &mut t).is_none());
    assert!(handle_one(KadMsg::Answer(vec![entry(5)]), Id::from_u64(100), &mut t).is_none());
    assert_eq!(t.len(), 0);
}

#[test]
fn lookup_is_answered_with_the_nearest_and_the_requester_is_offered() {
    let mut t = Ktable::new(20, Id::from_u64(0x1000));
    for id in [1u64, 2, 3, 4, 5, 6, 7] {
        t.offer(entry(id));
    }
    let requester = entry(0x77);
    match handle_one(KadMsg::Lookup(Id::from_u64(5), requester), Id::from_u64(0x1000), &mut t) {
        // distances to 5: 5 -> 0, 4 -> 1, 7 -> 2
        Some(KadMsg::Answer(list)) => assert_eq!(ids(&list), vec![5, 4, 7]),
        other => panic!("unexpected {:?}", other),
    }
    assert!(ids(&t.get(100)).contains(&0x77));
}

#[test]
fn the_requester_is_left_out_of_the_answer() {
    let mut t = Ktable::new(20, Id::from_u64(0x1000));
    for id in [1u64, 2, 3, 4, 5, 6, 7] {
        t.offer(entry(id));
    }
    // the requester is the nearest peer itself
    match handle_one(KadMsg::Lookup(Id::from_u64(5), entry(5)), Id::from_u64(0x1000), &mut t) {
        // of the four nearest (5, 4, 7, 6) the requester leaves
        Some(KadMsg::Answer(list)) => assert_eq!(ids(&list), vec![4, 7, 6]),
        other => panic!("unexpected {:?}", other),
    }
    assert_eq!(t.len(), 7);
}

#[test]
fn lookup_in_a_small_table() {
    let mut t = create_ktable(Id::from_u64(0x1000));
    t.offer(entry(1));
    match handle_one(KadMsg::Lookup(Id::from_u64(5), entry(2)), Id::from_u64(0x1000), &mut t) {
        Some(KadMsg::Answer(list)) => assert_eq!(ids(&list), vec![1]),
        other => panic!("unexpected {:?}", other),
    }
    assert_eq!(ids(&t.get(10)), vec![1, 2]);
}

#[test]
fn ten_requests_are_answered_in_one_go() {
    let mut t = create_ktable(Id::from_u64(100));
    let mut requests = Vec::new();
    for i in 0..12u64 {
        requests.push(Inbound { msg: KadMsg::Ping, sender: addr(i as u32), id: i });
    }
    requests[3].msg = KadMsg::Pong(Id::from_u64(1));
    let replies = handle_msg(requests, Id::from_u64(100), &mut t);
    // requests 0..10 are looked at; number 3 gets no reply
    assert_eq!(replies.len(), 9);
    let sessions: Vec<u64> = replies.iter().map(|r| r.id).collect();
    assert_eq!(sessions, vec![0, 1, 2, 4, 5, 6, 7, 8, 9]);
    for r in replies.iter() {
        assert_eq!(r.to, addr(r.id as u32));
        assert!(matches!(r.msg, KadMsg::Pong(id) if id == Id::from_u64(100)));
    }
}

#[test]
fn requests_change_the_table_in_their_order() {
    let mut t = create_ktable(Id::from_u64(0x1000));
    let requests = vec![
        Inbound { msg: KadMsg::Lookup(Id::from_u64(1), entry(1)), sender: addr(1), id: 1 },
        Inbound { msg: KadMsg::Lookup(Id::from_u64(1), entry(2)), sender: addr(2), id: 2 },
    ];
    let replies = handle_msg(requests, Id::from_u64(0x1000), &mut t);
    assert_eq!(replies.len(), 2);
    assert!(matches!(&replies[0].msg, KadMsg::Answer(l) if l.is_empty()));
    assert!(matches!(&replies[1].msg, KadMsg::Answer(l) if ids(l) == vec![1]));
}

#[test]
fn alive_is_who_answers_with_pong() {
    assert_eq!(is_alive(Some(KadMsg::Pong(Id::from_u64(9)))), Some(Id::from_u64(9)));
    assert_eq!(is_alive(Some(KadMsg::Ping)), None);
    assert_eq!(is_alive(Some(KadMsg::Answer(Vec::new()))), None);
    assert_eq!(is_alive(None), None);
}

#[test]
fn lookup_in_an_empty_table_is_done_at_once() {
    let t = create_ktable(Id::from_u64(1));
    let l = IdLookup::new(Id::from_u64(5), entry(1), &t);
    assert!(l.is_done());
    assert!(l.destinations().is_empty());
    assert!(l.into_answer().is_empty());
}

#[test]
fn lookup_asks_the_nearest_six_first() {
    let mut t = Ktable::new(20, Id::from_u64(0x1000));
    for id in 1..=10u64 {
        t.offer(entry(id));
    }
    let l = IdLookup::new(Id::from_u64(0), entry(0x1000), &t);
    assert!(!l.is_done());
    let dests = l.destinations();
    assert_eq!(dests, vec![addr(1), addr(2), addr(3), addr(4), addr(5), addr(6)]);
    assert!(matches!(l.message(), KadMsg::Lookup(t, me) if t == Id::from_u64(0) && me == entry(0x1000)));
}

#[test]
fn dead_peers_leave_the_table_and_answers_are_absorbed() {
    let me = Id::from_u64(0x1000);
    let mut t = Ktable::new(20, me);
    t.offer(entry(1));
    t.offer(entry(2));
    let mut l = IdLookup::new(Id::from_u64(0), entry(0x1000), &t);
    assert_eq!(l.destinations(), vec![addr(1), addr(2)]);
    // nothing happens before the round is over
    assert!(l.update(&mut t).is_empty());
    l.process_response(addr(1), None);
    assert!(l.update(&mut t).is_empty());
    l.process_response(addr(2), Some(KadMsg::Answer(vec![entry(3), entry(1)])));
    let next = l.update(&mut t);
    // 1 is dead and gone, and is not taken back because it was visited; 3 is new
    assert_eq!(ids(&t.get(100)), vec![2, 3]);
    assert_eq!(next, vec![addr(3)]);
    assert!(!l.is_done());
    l.process_response(addr(3), Some(KadMsg::Answer(vec![entry(2)])));
    let last = l.update(&mut t);
    assert!(last.is_empty());
    assert!(l.is_done());
    assert_eq!(ids(&l.into_answer()), vec![3]);
}

#[test]
fn a_report_that_nothing_waits_for_is_ignored() {
    let mut t = create_ktable(Id::from_u64(1));
    let mut l = IdLookup::new(Id::from_u64(5), entry(1), &t);
    l.process_response(addr(9), Some(KadMsg::Ping));
    assert!(l.update(&mut t).is_empty());
    assert!(l.is_done());
}

/// A network of peers that answer lookups from their own tables.
struct Network {
    peers: Vec<(Entry, Ktable)>,
}

impl Network {
    fn answer(&mut self, to: Addr, msg: KadMsg) -> Option<KadMsg> {
        for (e, t) in self.peers.iter_mut() {
            if e.get_addr() == to {
                return handle_one(msg, e.get_id(), t);
            }
        }
        None
    }
}

#[test]
fn lookup_converges_on_the_nearest_peers_of_the_network() {
    // twenty peers; each knows a few others, the ring of successors among them
    let all: Vec<u64> = (1..=20u64).map(|i| i * 37 % 64 + 64 * i).collect();
    let mut net = Network { peers: Vec::new() };
    for (i, id) in all.iter().enumerate() {
        let mut t = Ktable::new(20, Id::from_u64(*id));
        for step in [1usize, 2, 3, 5, 8, 13] {
            t.offer(entry(all[(i + step) % all.len()]));
        }
        net.peers.push((entry(*id), t));
    }
    let me = Entry::new(addr(0xffff), Id::from_u64(0xffff_0000));
    let mut mine = create_ktable(me.get_id());
    mine.offer(entry(all[0]));
    let target = Id::from_u64(all[11] ^ 1);
    let mut l = IdLookup::new(target, me, &mine);
    let mut rounds = 0;
    let mut dests = l.destinations();
    while !l.is_done() {
        rounds += 1;
        assert!(rounds <= 20);
        for d in dests.iter() {
            let a = net.answer(*d, l.message());
            l.process_response(*d, a);
        }
        dests = l.update(&mut mine);
    }
    let found = l.into_answer();
    assert!(!found.is_empty());
    assert!(found.len() <= K);
    // the nearest peer of the whole network is found
    let mut by_distance = all.clone();
    by_distance.sort_by_key(|id| id ^ target.into_u64());
    assert_eq!(by_distance[0], all[11]);
    assert!(ids(&found).contains(&all[11]));
    // and the routing table has learned peers on the way
    assert!(mine.len() > 1);
}

#[test]
fn bootstrap_without_trackers_times_out() {
    let (_, step) = find_bootstrapper(Id::from_u64(1), Vec::new());
    assert!(matches!(step, BootStep::Done(Err(NetworkError::Timeout))));
}

#[test]
fn bootstrap_finds_the_first_live_peer() {
    let room = Id::from_u64(7);
    let (mut b, step) = find_bootstrapper(room, vec![addr(100), addr(101)]);
    match step {
        BootStep::Ask { tracker, query } => {
            assert_eq!(tracker, addr(100));
            assert_eq!(query, TrackQuery::Lookup { id: room, last_lookup: 0 });
        }
        other => panic!("unexpected {:?}", other),
    }
    // the tracker names a peer that does not answer
    assert!(matches!(b.on_lookup(Ok((Some(addr(1)), 4))), BootStep::Ping(a) if a == addr(1)));
    match b.on_ping(None) {
        BootStep::Ask { tracker, query } => {
            assert_eq!(tracker, addr(100));
            assert_eq!(query, TrackQuery::Lookup { id: room, last_lookup: 4 });
        }
        other => panic!("unexpected {:?}", other),
    }
    // the next one answers with something else than a pong
    assert!(matches!(b.on_lookup(Ok((Some(addr(2)), 9))), BootStep::Ping(a) if a == addr(2)));
    assert!(matches!(
        b.on_ping(Some(KadMsg::Ping)),
        BootStep::Ask { query: TrackQuery::Lookup { last_lookup: 9, .. }, .. }
    ));
    // the third one is alive
    assert!(matches!(b.on_lookup(Ok((Some(addr(3)), 10))), BootStep::Ping(a) if a == addr(3)));
    match b.on_ping(Some(KadMsg::Pong(Id::from_u64(33)))) {
        BootStep::Done(Ok(Some((a, id)))) => {
            assert_eq!(a, addr(3));
            assert_eq!(id, Id::from_u64(33));
        }
        other => panic!("unexpected {:?}", other),
    }
    // the search is over
    assert!(matches!(b.on_lookup(Ok((None, 0))), BootStep::Done(Err(NetworkError::NoMessage))));
}

#[test]
fn bootstrap_goes_on_to_the_next_tracker() {
    let room = Id::from_u64(7);
    let (mut b, _) = find_bootstrapper(room, vec![addr(100), addr(101)]);
    // the first tracker is silent
    match b.on_lookup(Err(NetworkError::Timeout)) {
        BootStep::Ask { tracker, query } => {
            assert_eq!(tracker, addr(101));
            assert_eq!(query, TrackQuery::Lookup { id: room, last_lookup: 0 });
        }
        other => panic!("unexpected {:?}", other),
    }
    // the second knows nobody: the room is new
    assert!(matches!(b.on_lookup(Ok((None, 0))), BootStep::Done(Ok(None))));
}

#[test]
fn bootstrap_fails_when_every_tracker_is_silent() {
    let (mut b, _) = find_bootstrapper(Id::from_u64(7), vec![addr(100), addr(101)]);
    assert!(matches!(b.on_lookup(Err(NetworkError::Timeout)), BootStep::Ask { .. }));
    assert!(matches!(
        b.on_lookup(Err(NetworkError::Timeout)),
        BootStep::Done(Err(NetworkError::Timeout))
    ));
}

#[test]
fn bootstrap_stops_on_a_severe_error() {
    let (mut b, _) = find_bootstrapper(Id::from_u64(7), vec![addr(100), addr(101)]);
    assert!(matches!(
        b.on_lookup(Err(NetworkError::Other("broken"))),
        BootStep::Done(Err(NetworkError::Other("broken")))
    ));
}

#[test]
fn bootstrap_ignores_a_ping_answer_that_nothing_waits_for() {
    let (mut b, _) = find_bootstrapper(Id::from_u64(7), vec![addr(100)]);
    assert!(matches!(
        b.on_ping(Some(KadMsg::Pong(Id::from_u64(1)))),
        BootStep::Done(Err(NetworkError::NoMessage))
    ));
}
