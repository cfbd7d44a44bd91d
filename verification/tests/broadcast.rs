use peas_rf_cp::common::id::Id;
use peas_rf_cp::network::Addr;
use peas_rf_cp::node::broadcast::{
    BroadcastManager, Effect, Inbound, Msg, MsgPayload, BATCH, CACHE_SIZE, MAX_CONNECTIONS,
    TING_PERIOD, TING_WAIT,
};
use peas_rf_cp::node::kademlia::create_ktable;
use peas_rf_cp::node::ktable::{Entry, Ktable};
use peas_rf_cp::node::netthread::{Command, NetThread, MAX_MESSAGE, THREAD_SLEEP};
use peas_rf_cp::node::{FromNetMsg, Message, ToNetMsg, BROADCAST_SERVICE, KAD_SERVICE};
use peas_rf_cp::network::NetworkError;

fn addr(n: u32) -> Addr {
    Addr::V4 { ip: 0x0a00_0000 + n, port: 4000 }
}

fn id(n: u64) -> Id {
    Id::from_u64(n)
}

fn chat(text: &str) -> Message {
    Message::new(text.to_string(), id(500), "bee".to_string(), true)
}

fn chat_msg(hash: u64, from: u64, text: &str) -> Msg {
    Msg { hash, sender_id: id(from), payload: MsgPayload::Msg(chat(text)) }
}

/// An engine with the given neighbours, and the routing table that knows them.
fn engine(me: u64, neighbours: &[u64]) -> (BroadcastManager, Ktable) {
    let mut t = create_ktable(id(me));
    for n in neighbours {
        t.offer(Entry::new(addr(*n as u32), id(*n)));
    }
    let mut b = BroadcastManager::new_at(id(me), 0);
    b.connect_closest(&t);
    (b, t)
}

fn sends(effects: &Vec<Effect>) -> Vec<(u64, Vec<Addr>)> {
    effects
        .iter()
        .filter_map(|e| match e {
            Effect::Send { tag, targets, .. } => Some((*tag, targets.clone())),
            _ => None,
        })
        .collect()
}

fn delivered(effects: &Vec<Effect>) -> Vec<String> {
    effects
        .iter()
        .filter_map(|e| match e {
            Effect::Deliver(m) => Some(m.get_message().clone()),
            _ => None,
        })
        .collect()
}

fn not_sent(effects: &Vec<Effect>) -> usize {
    effects.iter().filter(|e| matches!(e, Effect::NotSent)).count()
}

#[test]
fn constants_of_the_protocol() {
    assert_eq!(KAD_SERVICE, 1);
    assert_eq!(BROADCAST_SERVICE, 2);
    assert_eq!(MAX_CONNECTIONS, 3);
    assert_eq!(CACHE_SIZE, 100);
    assert_eq!(TING_PERIOD, 10_000);
    assert_eq!(TING_WAIT, 3_000);
    assert_eq!(BATCH, 10);
    assert_eq!(THREAD_SLEEP, 40);
    assert_eq!(MAX_MESSAGE, 100);
}

#[test]
fn message_accessors() {
    let m = Message::new("hi".to_string(), id(4), "ann".to_string(), true);
    assert_eq!(m.get_message(), "hi");
    assert_eq!(m.get_sender_id(), id(4));
    assert_eq!(m.get_sender_name(), "ann");
    assert!(m.is_myself());
    assert!(m.get_timestamp() <= std::time::SystemTime::now());
    let r = m.as_received();
    assert!(!r.is_myself());
    assert_eq!(r.get_message(), "hi");
    assert_eq!(r.get_timestamp(), m.get_timestamp());
    let c = m.clone();
    assert_eq!(c.get_timestamp(), m.get_timestamp());
    assert_eq!(c.get_message(), "hi");
    let d = m.duplicate();
    assert!(d.is_myself());
    assert_eq!(d.get_sender_name(), "ann");
    let t = std::time::UNIX_EPOCH;
    let w = Message::with_timestamp("x".to_string(), id(1), "n".to_string(), t, false);
    assert_eq!(w.get_timestamp(), t);
    assert!(matches!(FromNetMsg::from_message(m), FromNetMsg::NewMsg(x) if x.get_message() == "hi"));
}

#[test]
fn lone_participant_cannot_send() {
    let (mut b, _t) = engine(1, &[]);
    let effects = b.broadcast(chat("hi"));
    assert_eq!(not_sent(&effects), 1);
    assert_eq!(effects.len(), 1);
    assert!(sends(&effects).is_empty());
    assert_eq!(b.waiting(), 0);
}

#[test]
fn broadcast_goes_to_every_neighbour() {
    let (mut b, _t) = engine(1, &[2, 3]);
    let effects = b.broadcast_as(chat("x"), 77);
    assert_eq!(effects.len(), 1);
    match &effects[0] {
        Effect::Send { msg, targets, .. } => {
            assert_eq!(msg.hash, 77);
            assert_eq!(msg.sender_id, id(1));
            assert!(matches!(&msg.payload, MsgPayload::Msg(m) if m.get_message() == "x"));
            let mut t = targets.clone();
            t.sort_by_key(|a| match a {
                Addr::V4 { ip, .. } => *ip,
                _ => 0,
            });
            assert_eq!(t, vec![addr(2), addr(3)]);
        }
        other => panic!("unexpected {:?}", other),
    }
    assert_eq!(b.waiting(), 1);
}

#[test]
fn two_peer_room_delivers_the_message() {
    // B has A for a neighbour and says "hi"
    let (mut b, _tb) = engine(2, &[1]);
    let (mut a, mut ta) = engine(1, &[]);
    let out = b.broadcast_as(
        Message::new("hi".to_string(), id(900), "B".to_string(), true),
        5,
    );
    let mut arrived = Vec::new();
    for e in out {
        if let Effect::Send { msg, targets, .. } = e {
            assert_eq!(targets, vec![addr(1)]);
            arrived = a.receive_at(&mut ta, msg, addr(2), 10, 1);
        }
    }
    let shown: Vec<&Message> = arrived
        .iter()
        .filter_map(|e| match e {
            Effect::Deliver(m) => Some(m),
            _ => None,
        })
        .collect();
    assert_eq!(shown.len(), 1);
    assert_eq!(shown[0].get_message(), "hi");
    assert_eq!(shown[0].get_sender_name(), "B");
    assert!(!shown[0].is_myself());
    // B has become a neighbour of A, and A knows it
    assert_eq!(a.neighbours(), vec![addr(2)]);
    assert_eq!(ta.get(10), vec![Entry::new(addr(2), id(2))]);
    // the message does not go back to where it came from
    assert!(sends(&arrived).is_empty());
}

#[test]
fn duplicates_are_suppressed_in_a_triangle() {
    let (mut a, _ta) = engine(1, &[2, 3]);
    let (mut b, mut tb) = engine(2, &[1, 3]);
    let (mut c, mut tc) = engine(3, &[1, 2]);
    let out = a.broadcast_as(chat("x"), 42);
    // A emits the message once, to B and to C
    let s = sends(&out);
    assert_eq!(s.len(), 1);
    assert_eq!(s[0].1.len(), 2);
    let at_b = b.receive_at(&mut tb, chat_msg(42, 1, "x"), addr(1), 0, 1);
    let at_c = c.receive_at(&mut tc, chat_msg(42, 1, "x"), addr(1), 0, 2);
    assert_eq!(delivered(&at_b), vec!["x".to_string()]);
    assert_eq!(delivered(&at_c), vec!["x".to_string()]);
    // B floods to C, C floods to B, none back to A
    assert_eq!(sends(&at_b).len(), 1);
    assert_eq!(sends(&at_b)[0].1, vec![addr(3)]);
    assert_eq!(sends(&at_c)[0].1, vec![addr(2)]);
    // the second copy is dropped silently at both
    let again_b = b.receive_at(&mut tb, chat_msg(42, 3, "x"), addr(3), 1, 3);
    let again_c = c.receive_at(&mut tc, chat_msg(42, 2, "x"), addr(2), 1, 4);
    assert!(again_b.is_empty());
    assert!(again_c.is_empty());
    // and a copy that comes back to A is dropped too
    let (_, mut ta) = engine(1, &[]);
    assert!(a.receive_at(&mut ta, chat_msg(42, 2, "x"), addr(2), 1, 5).is_empty());
    assert!(a.receive(&mut ta, chat_msg(42, 2, "x"), addr(2)).is_empty());
}

#[test]
fn the_flooded_copy_carries_the_name_of_the_link() {
    let (mut b, mut tb) = engine(2, &[1, 3]);
    let out = b.receive_at(&mut tb, chat_msg(8, 1, "x"), addr(1), 0, 1);
    let flooded: Vec<&Msg> = out
        .iter()
        .filter_map(|e| match e {
            Effect::Send { msg, .. } => Some(msg),
            _ => None,
        })
        .collect();
    assert_eq!(flooded.len(), 1);
    assert_eq!(flooded[0].hash, 8);
    assert_eq!(flooded[0].sender_id, id(2));
}

#[test]
fn dead_neighbour_is_dropped_and_the_message_sent_again() {
    let (mut a, mut ta) = engine(1, &[2, 3]);
    let out = a.broadcast_as(chat("x"), 42);
    let (tag, targets) = sends(&out)[0].clone();
    assert_eq!(targets.len(), 2);
    // C acknowledges, B never does
    a.process_response(tag, addr(3), true);
    assert!(a.advance(&mut ta).is_empty());
    assert_eq!(a.waiting(), 1);
    a.process_response(tag, addr(2), false);
    let effects = a.advance(&mut ta);
    assert_eq!(a.neighbours(), vec![addr(3)]);
    assert_eq!(ta.get(10), vec![Entry::new(addr(3), id(3))]);
    // the message goes out once more, to C only
    let again = sends(&effects);
    assert_eq!(again.len(), 1);
    assert_eq!(again[0].1, vec![addr(3)]);
    assert!(matches!(&effects[0], Effect::Send { msg, .. } if msg.hash == 42));
    assert_ne!(again[0].0, tag);
    assert_eq!(a.waiting(), 1);
    // C acknowledges again: nothing is left
    a.process_response(again[0].0, addr(3), true);
    assert!(a.advance(&mut ta).is_empty());
    assert_eq!(a.waiting(), 0);
    // C gets the second copy and drops it
    let (mut c, mut tc) = engine(3, &[1, 2]);
    assert_eq!(delivered(&c.receive_at(&mut tc, chat_msg(42, 1, "x"), addr(1), 0, 1)).len(), 1);
    assert!(c.receive_at(&mut tc, chat_msg(42, 1, "x"), addr(1), 0, 1).is_empty());
}

#[test]
fn when_every_neighbour_is_dead_the_user_is_told() {
    let (mut a, mut ta) = engine(1, &[2]);
    let out = a.broadcast_as(chat("x"), 42);
    let (tag, _) = sends(&out)[0].clone();
    a.process_response(tag, addr(2), false);
    let effects = a.advance(&mut ta);
    assert_eq!(not_sent(&effects), 1);
    assert!(a.neighbours().is_empty());
    assert_eq!(ta.len(), 0);
}

#[test]
fn reports_for_unknown_tags_are_dropped() {
    let (mut a, mut ta) = engine(1, &[2]);
    let out = a.broadcast_as(chat("x"), 42);
    let (tag, _) = sends(&out)[0].clone();
    a.process_response(tag + 1, addr(2), false);
    assert!(a.advance(&mut ta).is_empty());
    assert_eq!(a.waiting(), 1);
    assert_eq!(a.neighbours(), vec![addr(2)]);
}

#[test]
fn neighbours_are_taken_from_the_routing_table() {
    let mut t = Ktable::new(3, id(0));
    for n in [1u64, 2, 4, 8, 16] {
        t.offer(Entry::new(addr(n as u32), id(n)));
    }
    let mut b = BroadcastManager::new_at(id(0), 0);
    b.connect_closest(&t);
    assert_eq!(b.neighbours(), vec![addr(1), addr(2), addr(4)]);
    // with three neighbours no more are looked for
    t.delete_id(id(1));
    b.connect_closest(&t);
    assert_eq!(b.neighbours(), vec![addr(1), addr(2), addr(4)]);
}

#[test]
fn a_probe_is_answered_with_is_alive_and_goes_no_further() {
    // the answer goes to those who were neighbours before the probe came
    let (mut b, mut tb) = engine(2, &[1, 3]);
    let ting = Msg { hash: 9, sender_id: id(5), payload: MsgPayload::Ting };
    let out = b.receive_at(&mut tb, ting, addr(5), 0, 1234);
    assert_eq!(out.len(), 1);
    match &out[0] {
        Effect::Send { msg, targets, .. } => {
            assert_eq!(msg.hash, 1234);
            assert_eq!(msg.sender_id, id(2));
            assert!(matches!(msg.payload, MsgPayload::IsAlive(i) if i == id(2)));
            assert_eq!(targets.len(), 2);
        }
        other => panic!("unexpected {:?}", other),
    }
    // after that the prober is a neighbour too, and the routing table knows it
    assert_eq!(b.neighbours().len(), 3);
    assert!(b.neighbours().contains(&addr(5)));
    assert!(tb.get(10).contains(&Entry::new(addr(5), id(5))));
}

#[test]
fn is_alive_is_flooded_on() {
    let (mut b, mut tb) = engine(2, &[1, 3]);
    let alive = Msg { hash: 9, sender_id: id(1), payload: MsgPayload::IsAlive(id(7)) };
    let out = b.receive_at(&mut tb, alive, addr(1), 0, 1);
    assert!(delivered(&out).is_empty());
    let s = sends(&out);
    assert_eq!(s.len(), 1);
    assert_eq!(s[0].1, vec![addr(3)]);
}

#[test]
fn probe_of_a_live_peer_that_the_flood_reaches() {
    let (mut a, mut ta) = engine(1, &[2]);
    let target = Entry::new(addr(2), id(2));
    // nothing before the period has run out
    assert!(a.update_ting_at(&mut ta, 9_999, Some(target), 5).is_empty());
    assert!(!a.is_probing());
    let out = a.update_ting_at(&mut ta, 10_000, Some(target), 5);
    assert!(a.is_probing());
    let (tag, targets) = sends(&out)[0].clone();
    assert_eq!(targets, vec![addr(2)]);
    assert!(matches!(&out[0], Effect::Send { msg, .. } if matches!(msg.payload, MsgPayload::Ting) && msg.hash == 5));
    // while the probe is under way no second one starts
    assert!(a.update_ting_at(&mut ta, 30_000, Some(target), 6).is_empty());
    a.process_response(tag, addr(2), true);
    assert!(a.update_ting_at(&mut ta, 30_050, None, 7).is_empty());
    assert!(a.is_probing());
    // the peer's IsAlive comes through the flood
    let alive = Msg { hash: 99, sender_id: id(2), payload: MsgPayload::IsAlive(id(2)) };
    a.receive_at(&mut ta, alive, addr(2), 30_100, 8);
    assert!(!a.is_probing());
    // the next probe is due a period later
    assert!(a.update_ting_at(&mut ta, 40_099, None, 9).is_empty());
    assert!(!a.is_probing());
    a.update_ting_at(&mut ta, 40_100, Some(target), 10);
    assert!(a.is_probing());
}

#[test]
fn probe_of_a_dead_peer_removes_it() {
    let (mut a, mut ta) = engine(1, &[]);
    let target = Entry::new(addr(2), id(2));
    ta.offer(target);
    let out = a.update_ting_at(&mut ta, 10_000, Some(target), 5);
    let (tag, _) = sends(&out)[0].clone();
    a.process_response(tag, addr(2), false);
    a.update_ting_at(&mut ta, 10_200, None, 6);
    assert!(!a.is_probing());
    assert_eq!(ta.len(), 0);
    assert!(a.neighbours().is_empty());
}

#[test]
fn probe_that_the_flood_does_not_answer_makes_a_bridge() {
    let (mut a, mut ta) = engine(1, &[]);
    let target = Entry::new(addr(2), id(2));
    ta.offer(target);
    let out = a.update_ting_at(&mut ta, 10_000, Some(target), 5);
    let (tag, _) = sends(&out)[0].clone();
    a.process_response(tag, addr(2), true);
    a.update_ting_at(&mut ta, 10_100, None, 6);
    assert!(a.is_probing());
    a.update_ting_at(&mut ta, 13_099, None, 6);
    assert!(a.is_probing());
    assert!(a.neighbours().is_empty());
    a.update_ting_at(&mut ta, 13_100, None, 6);
    assert!(!a.is_probing());
    assert_eq!(a.neighbours(), vec![addr(2)]);
    assert_eq!(ta.len(), 1);
}

#[test]
fn without_a_peer_to_probe_the_period_starts_again() {
    let (mut a, mut ta) = engine(1, &[]);
    assert!(a.update_ting_at(&mut ta, 10_000, None, 5).is_empty());
    assert!(!a.is_probing());
    assert!(a.update_ting_at(&mut ta, 19_999, Some(Entry::new(addr(2), id(2))), 5).is_empty());
    assert!(!a.is_probing());
    assert_eq!(a.update_ting_at(&mut ta, 20_000, Some(Entry::new(addr(2), id(2))), 5).len(), 1);
}

#[test]
fn a_round_takes_ten_broadcasts() {
    let (mut a, mut ta) = engine(1, &[2]);
    let mut inbound = Vec::new();
    for i in 0..12u64 {
        inbound.push(Inbound { msg: chat_msg(1_000 + i, 2, "m"), sender: addr(2) });
    }
    let effects = a.update(&mut ta, inbound);
    assert_eq!(delivered(&effects).len(), 10);
}

#[test]
fn a_round_on_a_quiet_engine_does_nothing() {
    let mut t = create_ktable(id(1));
    let mut b = BroadcastManager::new(id(1));
    assert!(b.update(&mut t, Vec::new()).is_empty());
    assert!(b.neighbours().is_empty());
    assert!(!b.is_probing());
}

fn peer(boot: Option<(Addr, Id)>) -> NetThread {
    NetThread::run(id(900), "ann".to_string(), id(5), id(1), addr(1), boot, 1_000)
}

#[test]
fn lone_peer_tells_the_user_that_nothing_was_sent() {
    let mut n = peer(None);
    assert!(!n.is_looking());
    assert_eq!(n.ktable().len(), 0);
    let (go_on, effects) = n.control(Command::Request(ToNetMsg::NewMsg("hi".to_string())));
    assert!(go_on);
    // the own message is shown, and then exactly one NotSent: nothing leaves
    assert_eq!(delivered(&effects), vec!["hi".to_string()]);
    assert_eq!(not_sent(&effects), 1);
    assert!(sends(&effects).is_empty());
    assert_eq!(effects.len(), 2);
    assert!(matches!(&effects[0], Effect::Deliver(m) if m.is_myself() && m.get_sender_name() == "ann" && m.get_sender_id() == id(900)));
}

#[test]
fn long_messages_are_not_sent() {
    let mut n = peer(Some((addr(2), id(2))));
    let long = "a".repeat(101);
    let (go_on, effects) = n.control(Command::Request(ToNetMsg::NewMsg(long)));
    assert!(go_on);
    assert_eq!(effects.len(), 1);
    assert!(matches!(effects[0], Effect::NotSent));
    // a hundred bytes pass; the length counts bytes, not characters
    let exact = "a".repeat(100);
    let t = std::time::UNIX_EPOCH;
    let effects = n.say_at(exact, t, 3);
    assert_eq!(delivered(&effects).len(), 1);
    let umlauts = "ä".repeat(51);
    let effects = n.say_at(umlauts, t, 4);
    assert_eq!(effects.len(), 1);
    assert!(matches!(effects[0], Effect::NotSent));
}

#[test]
fn control_ends_the_loop() {
    let mut n = peer(None);
    assert!(matches!(n.control(Command::Empty), (true, e) if e.is_empty()));
    assert!(matches!(n.control(Command::Request(ToNetMsg::Terminate)), (false, e) if e.is_empty()));
    assert!(matches!(n.control(Command::Disconnected), (false, e) if e.is_empty()));
}

#[test]
fn peer_with_a_boot_node_looks_itself_up() {
    let mut n = peer(Some((addr(2), id(2))));
    assert!(n.is_looking());
    assert_eq!(n.ktable().get(10), vec![Entry::new(addr(2), id(2))]);
    assert!(n.lookup_message().is_some());
    // the boot node answers with a third peer
    n.lookup_response(
        addr(2),
        Some(peas_rf_cp::node::kademlia::KadMsg::Answer(vec![Entry::new(addr(3), id(3))])),
    );
    let dests = n.update_lookup_at(1_100, id(77));
    assert_eq!(dests, vec![addr(3)]);
    assert_eq!(n.ktable().len(), 2);
    n.lookup_response(addr(3), Some(peas_rf_cp::node::kademlia::KadMsg::Answer(vec![])));
    assert!(n.update_lookup_at(1_200, id(77)).is_empty());
    assert!(!n.is_looking());
    // the next lookup starts twenty seconds after the last one ended
    assert!(n.update_lookup_at(21_199, id(77)).is_empty());
    assert!(!n.is_looking());
    let dests = n.update_lookup_at(21_200, id(77));
    assert!(n.is_looking());
    assert_eq!(dests.len(), 2);
    // the engine has the two peers for neighbours after a round
    n.update_broadcast(Vec::new());
    assert_eq!(n.broadcast_manager().neighbours().len(), 2);
}

#[test]
fn random_lookup_of_a_lone_peer_ends_at_once() {
    let mut n = peer(None);
    assert!(n.update_lookup_at(21_000, id(77)).is_empty());
    assert!(n.is_looking());
    assert!(n.update_lookup_at(21_040, id(78)).is_empty());
    assert!(!n.is_looking());
    assert!(n.update_lookup().is_empty());
}

#[test]
fn tracker_registration_is_renewed_and_retried() {
    let mut n = peer(None);
    // due at once
    assert!(n.tracker_due(1_000));
    n.tracker_updated(Ok(600_000), 2_000);
    // renewed when 95 percent of the granted time have passed
    assert!(!n.tracker_due(2_000 + 569_999));
    assert!(n.tracker_due(2_000 + 570_000));
    // a silent tracker is asked again after a minute
    n.tracker_updated(Err(NetworkError::Timeout), 600_000);
    assert!(!n.tracker_due(600_000 + 56_999));
    assert!(n.tracker_due(600_000 + 57_000));
    // any other error ends the registration
    n.tracker_updated(Err(NetworkError::Other("broken")), 700_000);
    assert!(!n.tracker_due(u64::MAX));
}

#[test]
fn peer_answers_kademlia_requests() {
    let mut n = peer(None);
    let replies = n.handle_msg(vec![peas_rf_cp::node::kademlia::Inbound {
        msg: peas_rf_cp::node::kademlia::KadMsg::Ping,
        sender: addr(9),
        id: 4,
    }]);
    assert_eq!(replies.len(), 1);
    assert!(matches!(replies[0].msg, peas_rf_cp::node::kademlia::KadMsg::Pong(i) if i == id(1)));
    assert_eq!(replies[0].to, addr(9));
    assert_eq!(replies[0].id, 4);
}

#[test]
fn peer_hands_reports_to_its_engine() {
    let mut n = peer(Some((addr(2), id(2))));
    n.update_broadcast(Vec::new());
    let t = std::time::UNIX_EPOCH;
    let effects = n.say_at("x".to_string(), t, 3);
    let (tag, targets) = sends(&effects)[0].clone();
    assert_eq!(targets, vec![addr(2)]);
    n.broadcast_response(tag, addr(2), false);
    let effects = n.update_broadcast(Vec::new());
    assert_eq!(not_sent(&effects), 1);
    assert!(n.broadcast_manager().neighbours().is_empty());
    assert_eq!(n.ktable().len(), 0);
}
