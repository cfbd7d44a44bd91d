use peas_rf_cp::common::timer::Timer;
use peas_rf_cp::network::addrmap::{AddrMap, AddrSet};
use peas_rf_cp::network::udp;
use peas_rf_cp::network::udp::{Batch, Retry, Turn, Wait};
use peas_rf_cp::network::udpmanager::{
    send, service_respond, tickets_for, Due, Manager, Msg, Request, Routed, SendHandle, Service,
    Ticket, HEADER, RETRIES, TICKET_TTL,
};
use peas_rf_cp::network::{
    find_internet_interface, from_ipv4, Addr, Interface, IoKind, NetworkError, MAX_UDP,
};

fn addr(n: u32) -> Addr {
    Addr::V4 { ip: n, port: 9 }
}

fn io_error() -> std::io::Error {
    std::io::Error::new(std::io::ErrorKind::Other, "boom")
}

#[test]
fn addresses_compare_by_their_numbers() {
    assert_eq!(from_ipv4(0x7f00_0001, 80), Addr::V4 { ip: 0x7f00_0001, port: 80 });
    assert_ne!(addr(1), addr(2));
    assert_ne!(
        Addr::V4 { ip: 1, port: 2 },
        Addr::V6 { ip: 1, port: 2, flowinfo: 0, scope_id: 0 }
    );
}

#[test]
fn read_errors_are_told_apart() {
    assert!(NetworkError::from_read(IoKind::WouldBlock, io_error()).is_timeout());
    assert!(NetworkError::from_read(IoKind::TimedOut, io_error()).is_timeout());
    assert!(matches!(
        NetworkError::from_read(IoKind::Other, io_error()),
        NetworkError::IOError(_)
    ));
    let would_block = std::io::Error::new(std::io::ErrorKind::WouldBlock, "empty");
    assert!(NetworkError::from_read_error(would_block).is_timeout());
    let timed_out = std::io::Error::new(std::io::ErrorKind::TimedOut, "late");
    assert!(NetworkError::from_read_error(timed_out).is_timeout());
    let refused = std::io::Error::new(std::io::ErrorKind::ConnectionRefused, "no");
    match NetworkError::from_read_error(refused) {
        NetworkError::IOError(e) => assert_eq!(e.kind(), std::io::ErrorKind::ConnectionRefused),
        other => panic!("unexpected {:?}", other),
    }
    assert!(matches!(NetworkError::from(io_error()), NetworkError::IOError(_)));
    assert!(NetworkError::NoMessage.is_no_message());
    assert!(!NetworkError::Timeout.is_no_message());
    assert!(!NetworkError::Other("x").is_timeout());
}

#[test]
fn errors_describe_themselves() {
    assert_eq!(NetworkError::Timeout.description(), "the receiving timed out");
    assert_eq!(
        NetworkError::NoMessage.description(),
        "the received packet was not meant for us"
    );
    assert_eq!(NetworkError::Other("couldn't").description(), "couldn't");
    assert_eq!(NetworkError::IOError(io_error()).description(), "boom");
}

#[test]
fn first_usable_interface_is_chosen() {
    let ifaces = vec![
        Interface { loopback: true, up: true, ips: vec![0x7f00_0001] },
        Interface { loopback: false, up: false, ips: vec![1] },
        Interface { loopback: false, up: true, ips: vec![] },
        Interface { loopback: false, up: true, ips: vec![0xc0a8_0105, 7] },
        Interface { loopback: false, up: true, ips: vec![9] },
    ];
    assert!(matches!(find_internet_interface(&ifaces), Ok(0xc0a8_0105)));
    let none = vec![Interface { loopback: true, up: true, ips: vec![0x7f00_0001] }];
    assert!(matches!(find_internet_interface(&none), Err(NetworkError::Other(_))));
    assert!(matches!(find_internet_interface(&Vec::new()), Err(NetworkError::Other(_))));
}

#[test]
fn addr_map_behaves_like_a_map() {
    let mut m: AddrMap<u32> = AddrMap::new();
    assert!(m.is_empty());
    assert_eq!(m.insert(addr(1), 10), None);
    assert_eq!(m.insert(addr(2), 20), None);
    assert_eq!(m.insert(addr(1), 11), Some(10));
    assert_eq!(m.len(), 2);
    assert_eq!(m.get(&addr(1)), Some(&11));
    assert_eq!(m.get(&addr(3)), None);
    assert!(m.contains_key(&addr(2)));
    assert_eq!(m.keys(), vec![addr(1), addr(2)]);
    assert_eq!(m.remove(&addr(1)), Some(11));
    assert_eq!(m.remove(&addr(1)), None);
    assert_eq!(m.keys(), vec![addr(2)]);
    m.insert(addr(1), 1);
    assert_eq!(m.keys(), vec![addr(2), addr(1)]);
    m.clear();
    assert!(m.is_empty());
    assert_eq!(m.len(), 0);
}

#[test]
fn addr_set_behaves_like_a_set() {
    let mut s = AddrSet::new();
    assert!(!s.contains(&addr(1)));
    assert!(s.insert(addr(1)));
    assert!(!s.insert(addr(1)));
    assert!(s.contains(&addr(1)));
    assert!(!s.contains(&addr(2)));
}

#[test]
fn datagrams_of_more_than_512_bytes_do_not_leave() {
    assert_eq!(MAX_UDP, 512);
    assert!(udp::will_fit(&vec![0u8; 512]));
    assert!(!udp::will_fit(&vec![0u8; 513]));
    assert!(matches!(udp::send(vec![1u8; 512]), Ok(v) if v.len() == 512));
    assert!(matches!(udp::send(vec![1u8; 513]), Err(NetworkError::NoMessage)));
    assert!(matches!(udp::send(Vec::new()), Ok(v) if v.is_empty()));
}

#[test]
fn a_read_that_fills_the_buffer_is_refused() {
    let mut buf = vec![0u8; 512];
    buf[0] = 7;
    buf[1] = 8;
    assert!(matches!(udp::recv_once(&buf, 2), Ok(v) if v == vec![7, 8]));
    assert!(matches!(udp::recv_once(&buf, 0), Ok(v) if v.is_empty()));
    assert!(matches!(udp::recv_once(&buf, 511), Ok(v) if v.len() == 511));
    assert!(matches!(udp::recv_once(&buf, 512), Err(NetworkError::NoMessage)));
}

#[test]
fn bounded_wait_decides() {
    assert_eq!(udp::poll_interval(500), 50);
    assert!(matches!(udp::recv_until_timeout(Ok(true), 10, 100), Wait::Accept));
    assert!(matches!(udp::recv_until_timeout(Ok(true), 1000, 100), Wait::Accept));
    assert!(matches!(udp::recv_until_timeout(Ok(false), 10, 100), Wait::Again));
    assert!(matches!(
        udp::recv_until_timeout(Err(NetworkError::NoMessage), 99, 100),
        Wait::Again
    ));
    assert!(matches!(
        udp::recv_until_timeout(Err(NetworkError::Timeout), 100, 100),
        Wait::Fail(NetworkError::Timeout)
    ));
    assert!(matches!(
        udp::recv_until_timeout(Ok(false), 101, 100),
        Wait::Fail(NetworkError::Timeout)
    ));
    assert!(matches!(
        udp::recv_until_timeout(Err(NetworkError::IOError(io_error())), 0, 100),
        Wait::Fail(NetworkError::IOError(_))
    ));
    assert!(matches!(udp::recv_until_msg(Ok(())), Wait::Accept));
    assert!(matches!(udp::recv_until_msg(Err(NetworkError::Timeout)), Wait::Again));
    assert!(matches!(udp::recv_until_msg(Err(NetworkError::NoMessage)), Wait::Again));
    assert!(matches!(
        udp::recv_until_msg(Err(NetworkError::Other("x"))),
        Wait::Fail(NetworkError::Other(_))
    ));
}

#[test]
fn a_request_is_tried_three_times() {
    assert!(matches!(udp::send_with_response(Ok(()), 1, 3), Retry::Done));
    assert!(matches!(
        udp::send_with_response(Err(NetworkError::Timeout), 1, 3),
        Retry::Again(2)
    ));
    assert!(matches!(
        udp::send_with_response(Err(NetworkError::Timeout), 2, 3),
        Retry::Again(3)
    ));
    assert!(matches!(
        udp::send_with_response(Err(NetworkError::Timeout), 3, 3),
        Retry::Fail(NetworkError::Timeout)
    ));
    assert!(matches!(
        udp::send_with_response(Err(NetworkError::IOError(io_error())), 1, 3),
        Retry::Fail(NetworkError::IOError(_))
    ));
}

#[test]
fn envelope_has_the_documented_bytes() {
    let m = Msg { service: 1, id: 0x0102_0304_0506_0708, payload: vec![0xaa, 0xbb, 0xcc] };
    let bytes = m.encode().unwrap();
    assert_eq!(
        bytes,
        vec![
            1, 0, 0, 0, // service
            8, 7, 6, 5, 4, 3, 2, 1, // id
            3, 0, 0, 0, 0, 0, 0, 0, // length of the payload
            0xaa, 0xbb, 0xcc,
        ]
    );
    assert_eq!(HEADER, 20);
    let back = Msg::decode(&bytes).unwrap();
    assert_eq!(back.service, 1);
    assert_eq!(back.id, 0x0102_0304_0506_0708);
    assert_eq!(back.payload, vec![0xaa, 0xbb, 0xcc]);
}

#[test]
fn envelope_with_empty_payload() {
    let m = Msg { service: 0, id: 0, payload: Vec::new() };
    let bytes = m.encode().unwrap();
    assert_eq!(bytes, vec![0u8; 20]);
    let back = Msg::decode(&bytes).unwrap();
    assert_eq!((back.service, back.id, back.payload.len()), (0, 0, 0));
}

#[test]
fn envelope_that_is_cut_short_is_no_message() {
    let m = Msg { service: 2, id: 5, payload: vec![1, 2, 3, 4] };
    let bytes = m.encode().unwrap();
    for cut in 0..bytes.len() {
        let short = bytes[..cut].to_vec();
        assert!(matches!(Msg::decode(&short), Err(NetworkError::NoMessage)), "cut at {}", cut);
    }
    assert!(Msg::decode(&bytes).is_ok());
}

#[test]
fn bytes_behind_the_payload_are_ignored() {
    let m = Msg { service: 2, id: 5, payload: vec![1, 2] };
    let mut bytes = m.encode().unwrap();
    bytes.extend_from_slice(&[9, 9, 9]);
    let back = Msg::decode(&bytes).unwrap();
    assert_eq!(back.payload, vec![1, 2]);
    assert_eq!(back.service, 2);
    assert_eq!(back.id, 5);
}

#[test]
fn envelope_of_more_than_a_datagram_is_refused() {
    let fits = Msg { service: 1, id: 1, payload: vec![0; 492] };
    assert_eq!(fits.encode().unwrap().len(), 512);
    let too_large = Msg { service: 1, id: 1, payload: vec![0; 493] };
    assert!(matches!(too_large.encode(), Err(NetworkError::NoMessage)));
    assert!(matches!(service_respond(vec![0; 493], 1), Err(NetworkError::NoMessage)));
}

#[test]
fn a_response_carries_the_tag_zero() {
    let bytes = service_respond(vec![5, 6], 77).unwrap();
    let back = Msg::decode(&bytes).unwrap();
    assert_eq!(back.service, 0);
    assert_eq!(back.id, 77);
    assert_eq!(back.payload, vec![5, 6]);
}

fn ticket(id: u64, dest: Addr, requester: u64, now: u64) -> Ticket {
    Ticket {
        id,
        timer: Timer::started_at(now, 0),
        retries: RETRIES,
        requester,
        payload: vec![1, 2, 3],
        dest,
        service: 1,
    }
}

#[test]
fn requests_go_to_the_first_service_with_their_tag() {
    let mut m = Manager::start();
    assert!(m.is_running());
    m.register_service(1, 100);
    m.register_service(2, 200);
    m.register_service(1, 300);
    let r = m.deliver(addr(5), Msg { service: 1, id: 42, payload: vec![7] });
    match r {
        Routed::ToService { pipe, request } => {
            assert_eq!(pipe, 100);
            assert_eq!(request.payload, vec![7]);
            assert_eq!(request.source, addr(5));
            assert_eq!(request.id, 42);
        }
        other => panic!("unexpected {:?}", other),
    }
    assert!(matches!(
        m.deliver(addr(5), Msg { service: 2, id: 1, payload: vec![] }),
        Routed::ToService { pipe: 200, .. }
    ));
    assert!(matches!(
        m.deliver(addr(5), Msg { service: 3, id: 1, payload: vec![] }),
        Routed::Dropped
    ));
}

#[test]
fn a_response_is_delivered_once() {
    let mut m = Manager::start();
    m.add_ticket(ticket(42, addr(1), 7, 0));
    m.add_ticket(ticket(42, addr(2), 7, 0));
    assert_eq!(m.pending(), 2);
    // wrong session, wrong sender
    assert!(matches!(
        m.deliver(addr(1), Msg { service: 0, id: 41, payload: vec![] }),
        Routed::Dropped
    ));
    assert!(matches!(
        m.deliver(addr(3), Msg { service: 0, id: 42, payload: vec![] }),
        Routed::Dropped
    ));
    assert_eq!(m.pending(), 2);
    let bytes = service_respond(vec![9], 42).unwrap();
    match m.receive(addr(1), &bytes) {
        Routed::ToTicket { requester, response } => {
            assert_eq!(requester, 7);
            assert_eq!(response.payload, Some(vec![9]));
            assert_eq!(response.source, addr(1));
        }
        other => panic!("unexpected {:?}", other),
    }
    assert_eq!(m.pending(), 1);
    // the same datagram again: the ticket is gone
    assert!(matches!(m.receive(addr(1), &bytes), Routed::Dropped));
    assert_eq!(m.pending(), 1);
    // garbage is dropped
    assert!(matches!(m.receive(addr(2), &vec![1, 2, 3]), Routed::Dropped));
    assert_eq!(m.pending(), 1);
}

#[test]
fn the_last_matching_ticket_answers_first() {
    let mut m = Manager::start();
    m.add_ticket(ticket(1, addr(1), 10, 0));
    m.add_ticket(ticket(1, addr(1), 20, 0));
    assert!(matches!(
        m.deliver(addr(1), Msg { service: 0, id: 1, payload: vec![] }),
        Routed::ToTicket { requester: 20, .. }
    ));
    assert!(matches!(
        m.deliver(addr(1), Msg { service: 0, id: 1, payload: vec![] }),
        Routed::ToTicket { requester: 10, .. }
    ));
    assert!(matches!(
        m.deliver(addr(1), Msg { service: 0, id: 1, payload: vec![] }),
        Routed::Dropped
    ));
}

#[test]
fn a_ticket_is_sent_three_times_and_then_given_up() {
    assert_eq!(TICKET_TTL, 50);
    assert_eq!(RETRIES, 3);
    let mut m = Manager::start();
    m.add_ticket(ticket(5, addr(1), 3, 1_000));
    let mut now = 1_000;
    for round in 0..3 {
        let due = m.scan(now);
        assert_eq!(due.len(), 1, "round {}", round);
        match &due[0] {
            Due::Transmit { dest, envelope } => {
                assert_eq!(*dest, addr(1));
                assert_eq!(envelope.id, 5);
                assert_eq!(envelope.service, 1);
                assert_eq!(envelope.payload, vec![1, 2, 3]);
            }
            other => panic!("unexpected {:?}", other),
        }
        // nothing happens while the ticket waits
        assert_eq!(m.scan(now + 49).len(), 0);
        now += 50;
    }
    let due = m.scan(now);
    assert_eq!(due.len(), 1);
    match &due[0] {
        Due::Expire { requester, response } => {
            assert_eq!(*requester, 3);
            assert_eq!(response.payload, None);
            assert_eq!(response.source, addr(1));
        }
        other => panic!("unexpected {:?}", other),
    }
    assert_eq!(m.pending(), 0);
    assert_eq!(m.scan(now + 1_000).len(), 0);
}

#[test]
fn scan_looks_at_the_last_ticket_first_and_keeps_the_order() {
    let mut m = Manager::start();
    m.add_ticket(ticket(1, addr(1), 1, 0));
    let mut waiting = ticket(2, addr(2), 2, 0);
    waiting.timer = Timer::started_at(0, 1_000);
    m.add_ticket(waiting);
    let mut dead = ticket(3, addr(3), 3, 0);
    dead.retries = 0;
    m.add_ticket(dead);
    let due = m.scan(10);
    assert_eq!(due.len(), 2);
    assert!(matches!(&due[0], Due::Expire { requester: 3, .. }));
    assert!(matches!(&due[1], Due::Transmit { envelope, .. } if envelope.id == 1));
    assert_eq!(m.pending(), 2);
    // ticket 2 is still the second
    assert!(matches!(
        m.deliver(addr(2), Msg { service: 0, id: 2, payload: vec![] }),
        Routed::ToTicket { requester: 2, .. }
    ));
}

#[test]
fn requests_to_the_manager() {
    let mut m = Manager::start();
    assert!(m.handle_request(Request::Service(Service { service: 4, pipe: 1 })));
    assert!(m.handle_request(Request::Send(ticket(1, addr(1), 1, 0))));
    assert_eq!(m.pending(), 1);
    assert!(matches!(
        m.deliver(addr(9), Msg { service: 4, id: 0, payload: vec![] }),
        Routed::ToService { pipe: 1, .. }
    ));
    assert!(!m.handle_request(Request::Terminate));
    assert!(!m.is_running());
    let mut n = Manager::start();
    n.terminate();
    assert!(!n.is_running());
}

#[test]
fn send_makes_one_ticket_for_each_destination() {
    let dests = vec![addr(1), addr(2), addr(3)];
    let (handle, tickets): (SendHandle<u8>, Vec<Ticket>) = send(&vec![4, 5], dests.clone(), 2, 99);
    assert!(!handle.is_done());
    assert_eq!(tickets.len(), 3);
    for (t, d) in tickets.iter().zip(dests.iter()) {
        assert_eq!(t.id, tickets[0].id);
        assert_eq!(t.dest, *d);
        assert_eq!(t.retries, 3);
        assert_eq!(t.requester, 99);
        assert_eq!(t.payload, vec![4, 5]);
        assert_eq!(t.service, 2);
        assert!(t.timer.expired_at(0, 100));
    }
    let again = tickets_for(7, &vec![1], &dests, 1, 2);
    assert_eq!(again.len(), 3);
    assert!(again.iter().all(|t| t.id == 7));
}

#[test]
fn send_handle_counts_the_reports() {
    let mut h: SendHandle<u32> = SendHandle::new(vec![addr(1), addr(2), addr(3)]);
    assert!(!h.is_done());
    h.process_response(addr(2), Some(20));
    h.process_response(addr(1), None);
    assert!(!h.is_done());
    h.process_response(addr(3), Some(30));
    assert!(h.is_done());
    assert_eq!(h.iter(), &vec![addr(1), addr(2), addr(3)]);
    assert!(h.is_dead(&addr(1)));
    assert!(!h.is_dead(&addr(2)));
    assert_eq!(*h.borrow_answer(&addr(3)), 30);
    assert_eq!(h.get_answer(&addr(2)), 20);
    assert!(h.is_dead(&addr(2)));
}

#[test]
fn single_answer() {
    let mut h: SendHandle<u32> = SendHandle::new(vec![addr(1)]);
    h.process_response(addr(1), Some(5));
    assert_eq!(h.borrow_single_answer(), Some(&5));
    assert_eq!(h.get_single_answer(), Some(5));
    let mut d: SendHandle<u32> = SendHandle::new(vec![addr(1)]);
    d.process_response(addr(1), None);
    assert_eq!(d.borrow_single_answer(), None);
    assert_eq!(d.get_single_answer(), None);
}

#[test]
fn a_batch_sends_again_and_gives_up() {
    let mut b = Batch::send_with_responses(&vec![addr(1), addr(2)], 2, 100, 1_000);
    assert!(b.expects(&addr(1)));
    assert!(!b.expects(&addr(3)));
    assert_eq!(b.turn(1_050), Turn::Listen);
    b.answered(addr(2));
    assert!(!b.expects(&addr(2)));
    // the first request has waited long enough and is sent again
    assert_eq!(b.turn(1_100), Turn::Again(addr(1)));
    // the second has its answer
    assert_eq!(b.turn(1_100), Turn::Forget);
    assert_eq!(b.turn(1_100), Turn::Listen);
    assert_eq!(b.turn(1_199), Turn::Listen);
    // two tries were granted
    assert_eq!(b.turn(1_200), Turn::GiveUp(addr(1)));
    assert_eq!(b.turn(1_200), Turn::Finished);
    assert_eq!(b.turn(9_999), Turn::Finished);
}

#[test]
fn a_batch_with_every_answer_is_over() {
    let mut b = Batch::send_with_responses(&vec![addr(1)], 3, 100, 0);
    b.answered(addr(1));
    assert_eq!(b.turn(1), Turn::Forget);
    assert_eq!(b.turn(1), Turn::Finished);
    let mut e = Batch::send_with_responses(&Vec::new(), 3, 100, 0);
    assert_eq!(e.turn(0), Turn::Finished);
}
