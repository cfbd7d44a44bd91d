//! The session layer over one datagram socket.
//!
//! A *ticket* is one request to one peer that waits for one response and is
//! sent again a few times until it gets one. A *service* answers the requests
//! that carry its tag. Every datagram is an envelope `{service, id, payload}`;
//! the tag 0 marks a response to the ticket `id`.
//!
//! The manager in this module is the state of that layer and the rules by
//! which it moves. It neither reads the socket nor writes to it: it is told
//! what arrived and what time it is, and says what has to be sent and to whom
//! a response or a request has to be handed.

use vstd::prelude::*;
use vstd::bytes::spec_u32_from_le_bytes;
use vstd::bytes::spec_u32_to_le_bytes;
use vstd::bytes::spec_u64_from_le_bytes;
use vstd::bytes::spec_u64_to_le_bytes;
use crate::common::get_hash;
use crate::common::timer::Timer;
use crate::common::timer::TimerView;
use crate::network::addrmap::AddrMap;
use crate::network::Addr;
use crate::network::NetworkError;
use crate::network::MAX_UDP;

verus! {

/// The time, in milliseconds, that a ticket waits for its response before it is
/// sent again.
pub const TICKET_TTL: u64 = 50;

/// The time, in milliseconds, that the manager sleeps between two rounds.
pub const SLEEP_TIME: u64 = 20;

/// The number of times that a ticket is sent.
pub const RETRIES: u32 = 3;

/// The number of bytes of an envelope in front of its payload.
pub const HEADER: usize = 20;

/// The actual struct that is sent between nodes.
#[derive(Debug)]
pub struct Msg {
    /// The service that the payload is for; 0 for a response to a ticket.
    pub service: u32,
    /// The session that the datagram belongs to.
    pub id: u64,
    /// The message of the service, serialized.
    pub payload: Vec<u8>,
}

/// What an envelope holds.
pub struct MsgView {
    pub service: u32,
    pub id: u64,
    pub payload: Seq<u8>,
}

impl View for Msg {
    type V = MsgView;

    open spec fn view(&self) -> MsgView {
        MsgView { service: self.service, id: self.id, payload: self.payload@ }
    }
}

/// The bytes of an envelope on the wire: the tag in four bytes, the session in
/// eight, the length of the payload in eight, all least significant byte first,
/// and then the payload.
pub open spec fn envelope_bytes(m: MsgView) -> Seq<u8> {
    spec_u32_to_le_bytes(m.service) + spec_u64_to_le_bytes(m.id) + spec_u64_to_le_bytes(
        m.payload.len() as u64,
    ) + m.payload
}

/// The envelope that a datagram holds, if it holds one: its first twenty bytes
/// give the tag, the session and the length of the payload, and at least as
/// many bytes as that length follow. Bytes behind the payload are ignored.
pub open spec fn envelope_parse(bytes: Seq<u8>) -> Option<MsgView> {
    if bytes.len() < HEADER {
        None
    } else {
        let n = spec_u64_from_le_bytes(bytes.subrange(12, 20));
        if bytes.len() - HEADER < n {
            None
        } else {
            Some(
                MsgView {
                    service: spec_u32_from_le_bytes(bytes.subrange(0, 4)),
                    id: spec_u64_from_le_bytes(bytes.subrange(4, 12)),
                    payload: bytes.subrange(20, 20 + n),
                },
            )
        }
    }
}

/// Serializes an envelope with `bincode::serialize`, as the tuple of its three
/// fields. With the options of that function bincode writes integers in fixed
/// width, least significant byte first, the fields of a tuple one after
/// another, and a byte vector as its length in eight bytes followed by its
/// bytes. It runs without a size limit and writes into a vector, so that for
/// these three fields no step of it can fail: the contract states that the
/// bytes come back, and what they are.
#[verifier::external_body]
fn bincode_serialize(service: u32, id: u64, payload: &Vec<u8>) -> (r: Option<Vec<u8>>)
    ensures
        r is Some,
        r->Some_0@ == envelope_bytes(MsgView { service, id, payload: payload@ }),
{
    bincode::serialize(&(service, id, payload)).ok()
}

/// Reads an envelope with `bincode::deserialize`, as a tuple of a `u32`, a
/// `u64` and a byte vector. With the options of that function bincode reads
/// what `bincode_serialize` describes, fails where the bytes run out, and
/// ignores bytes that are left over.
#[verifier::external_body]
fn bincode_deserialize(bytes: &Vec<u8>) -> (r: Option<(u32, u64, Vec<u8>)>)
    ensures
        match r {
            Some(t) => envelope_parse(bytes@) == Some(
                MsgView { service: t.0, id: t.1, payload: t.2@ },
            ),
            None => envelope_parse(bytes@) is None,
        },
{
    bincode::deserialize::<(u32, u64, Vec<u8>)>(bytes.as_slice()).ok()
}

impl Msg {
    /// The datagram for this envelope. It is refused with `NoMessage` where it
    /// would have more than `MAX_UDP` bytes, and only there.
    pub fn encode(&self) -> (r: Result<Vec<u8>, NetworkError>)
        ensures
            match r {
                Ok(bytes) => bytes@ == envelope_bytes(self@) && bytes@.len() <= MAX_UDP,
                Err(e) => e == NetworkError::NoMessage,
            },
            r is Ok <==> self@.payload.len() + HEADER <= MAX_UDP,
    {
        proof {
            lemma_envelope_len(self@);
        }
        match bincode_serialize(self.service, self.id, &self.payload) {
            Some(bytes) => crate::network::udp::send(bytes),
            None => Err(NetworkError::NoMessage),
        }
    }

    /// The envelope that a datagram holds, or `NoMessage` where it holds none.
    pub fn decode(bytes: &Vec<u8>) -> (r: Result<Msg, NetworkError>)
        ensures
            match r {
                Ok(m) => envelope_parse(bytes@) == Some(m@),
                Err(e) => e == NetworkError::NoMessage && envelope_parse(bytes@) is None,
            },
    {
        match bincode_deserialize(bytes) {
            Some((service, id, payload)) => Ok(Msg { service, id, payload }),
            None => Err(NetworkError::NoMessage),
        }
    }
}

/// An envelope takes twenty bytes more than its payload.
pub proof fn lemma_envelope_len(m: MsgView)
    ensures
        envelope_bytes(m).len() == HEADER + m.payload.len(),
{
    vstd::bytes::lemma_auto_spec_u32_to_from_le_bytes();
    vstd::bytes::lemma_auto_spec_u64_to_from_le_bytes();
}

/// A datagram made of an envelope holds that envelope, as long as the length
/// of the payload can be written in eight bytes.
pub proof fn lemma_envelope_roundtrip(m: MsgView)
    requires
        m.payload.len() <= u64::MAX,
    ensures
        envelope_parse(envelope_bytes(m)) == Some(m),
{
    vstd::bytes::lemma_auto_spec_u32_to_from_le_bytes();
    vstd::bytes::lemma_auto_spec_u64_to_from_le_bytes();
    let a = spec_u32_to_le_bytes(m.service);
    let b = spec_u64_to_le_bytes(m.id);
    let c = spec_u64_to_le_bytes(m.payload.len() as u64);
    let bytes = envelope_bytes(m);
    assert(bytes.subrange(0, 4) =~= a);
    assert(bytes.subrange(4, 12) =~= b);
    assert(bytes.subrange(12, 20) =~= c);
    assert(bytes.subrange(20, 20 + m.payload.len() as int) =~= m.payload);
}

/// Results from a `Ticket`, sent by the manager to whoever asked.
#[derive(Debug)]
pub struct TicketResponse {
    /// The payload of the response; `None` where the peer never answered.
    pub payload: Option<Vec<u8>>,
    /// The peer that the ticket was for.
    pub source: Addr,
}

/// What a ticket response holds.
pub struct TicketResponseView {
    pub payload: Option<Seq<u8>>,
    pub source: Addr,
}

impl View for TicketResponse {
    type V = TicketResponseView;

    open spec fn view(&self) -> TicketResponseView {
        TicketResponseView {
            payload: match self.payload {
                Some(p) => Some(p@),
                None => None,
            },
            source: self.source,
        }
    }
}

/// A request to a service.
#[derive(Debug)]
pub struct ServiceResponse {
    /// The message for the service, serialized.
    pub payload: Vec<u8>,
    /// The peer that asks.
    pub source: Addr,
    /// The session, to be named in the answer.
    pub id: u64,
}

/// What a request to a service holds.
pub struct ServiceResponseView {
    pub payload: Seq<u8>,
    pub source: Addr,
    pub id: u64,
}

impl View for ServiceResponse {
    type V = ServiceResponseView;

    open spec fn view(&self) -> ServiceResponseView {
        ServiceResponseView { payload: self.payload@, source: self.source, id: self.id }
    }
}

/// Holds the necessary info for an active session with one peer.
pub struct Ticket {
    /// The session.
    pub id: u64,
    /// Runs out when the request has to be sent (again).
    pub timer: Timer,
    /// How often the request may still be sent.
    pub retries: u32,
    /// The channel on which the response is expected.
    pub requester: u64,
    /// The request, serialized.
    pub payload: Vec<u8>,
    /// The peer that is asked.
    pub dest: Addr,
    /// The service that is asked.
    pub service: u32,
}

/// What a ticket holds.
pub struct TicketView {
    pub id: u64,
    pub timer: TimerView,
    pub retries: u32,
    pub requester: u64,
    pub payload: Seq<u8>,
    pub dest: Addr,
    pub service: u32,
}

impl View for Ticket {
    type V = TicketView;

    open spec fn view(&self) -> TicketView {
        TicketView {
            id: self.id,
            timer: self.timer@,
            retries: self.retries,
            requester: self.requester,
            payload: self.payload@,
            dest: self.dest,
            service: self.service,
        }
    }
}

impl TicketView {
    /// Whether a response from `sender` in session `id` is the one that this
    /// ticket waits for.
    pub open spec fn awaits(self, id: u64, sender: Addr) -> bool {
        self.id == id && self.dest == sender
    }

    /// The envelope in which the request travels.
    pub open spec fn envelope(self) -> MsgView {
        MsgView { service: self.service, id: self.id, payload: self.payload }
    }
}

/// Holds the necessary info for a service.
#[derive(Debug, Clone, Copy, PartialEq, Eq, Structural)]
pub struct Service {
    /// The tag of the service; never 0.
    pub service: u32,
    /// The channel on which the service takes its requests.
    pub pipe: u64,
}

/// Instructions that can be sent to a manager.
pub enum Request {
    /// Request to activate a new session.
    Send(Ticket),
    /// Request to register a service.
    Service(Service),
    /// Request to stop.
    Terminate,
}

/// What the manager does with a datagram.
#[derive(Debug)]
pub enum Routed {
    /// It is a request: hand it to the service on the channel `pipe`.
    ToService { pipe: u64, request: ServiceResponse },
    /// It is the response to a ticket: hand it to `requester`.
    ToTicket { requester: u64, response: TicketResponse },
    /// It is for nobody.
    Dropped,
}

/// The view of `Routed`.
pub enum RoutedView {
    ToService { pipe: u64, request: ServiceResponseView },
    ToTicket { requester: u64, response: TicketResponseView },
    Dropped,
}

impl View for Routed {
    type V = RoutedView;

    open spec fn view(&self) -> RoutedView {
        match self {
            Routed::ToService { pipe, request } => RoutedView::ToService {
                pipe: *pipe,
                request: request@,
            },
            Routed::ToTicket { requester, response } => RoutedView::ToTicket {
                requester: *requester,
                response: response@,
            },
            Routed::Dropped => RoutedView::Dropped,
        }
    }
}

/// What the manager does about a ticket whose timer has run out.
#[derive(Debug)]
pub enum Due {
    /// Send the request (again): this envelope, to `dest`.
    Transmit { dest: Addr, envelope: Msg },
    /// Give the ticket up: tell `requester` that `response.source` is dead.
    Expire { requester: u64, response: TicketResponse },
}

/// The view of `Due`.
pub enum DueView {
    Transmit { dest: Addr, envelope: MsgView },
    Expire { requester: u64, response: TicketResponseView },
}

impl View for Due {
    type V = DueView;

    open spec fn view(&self) -> DueView {
        match self {
            Due::Transmit { dest, envelope } => DueView::Transmit {
                dest: *dest,
                envelope: envelope@,
            },
            Due::Expire { requester, response } => DueView::Expire {
                requester: *requester,
                response: response@,
            },
        }
    }
}

/// The index of the first service with the tag `tag`.
pub open spec fn first_service(services: Seq<Service>, tag: u32) -> Option<int>
    decreases services.len(),
{
    if services.len() == 0 {
        None
    } else {
        match first_service(services.drop_last(), tag) {
            Some(i) => Some(i),
            None => if services.last().service == tag {
                Some(services.len() - 1)
            } else {
                None
            },
        }
    }
}

/// The index of the last ticket that waits for a response from `sender` in
/// session `id`.
pub open spec fn last_ticket(tickets: Seq<TicketView>, id: u64, sender: Addr) -> Option<int>
    decreases tickets.len(),
{
    if tickets.len() == 0 {
        None
    } else if tickets.first().awaits(id, sender) && last_ticket(tickets.drop_first(), id, sender)
        is None {
        Some(0)
    } else {
        match last_ticket(tickets.drop_first(), id, sender) {
            Some(i) => Some(i + 1),
            None => None,
        }
    }
}

/// What becomes of one ticket when the manager looks at it at the time `now`:
/// it stays as it is while its timer runs; it is dropped when the timer has
/// run out and no retry is left; otherwise it loses a retry and its timer is
/// started again with `TICKET_TTL`.
pub open spec fn ticket_kept(t: TicketView, now: u64) -> Option<TicketView> {
    if !t.timer.expired_at(now, 100) {
        Some(t)
    } else if t.retries == 0 {
        None
    } else {
        Some(
            TicketView {
                retries: (t.retries - 1) as u32,
                timer: TimerView { start: now, duration: TICKET_TTL, enabled: true },
                ..t
            },
        )
    }
}

/// What has to be done about one ticket at the time `now`: nothing while its
/// timer runs; its requester is told that the peer is dead when no retry is
/// left; otherwise its request is sent.
pub open spec fn ticket_due(t: TicketView, now: u64) -> Option<DueView> {
    if !t.timer.expired_at(now, 100) {
        None
    } else if t.retries == 0 {
        Some(
            DueView::Expire {
                requester: t.requester,
                response: TicketResponseView { payload: None, source: t.dest },
            },
        )
    } else {
        Some(DueView::Transmit { dest: t.dest, envelope: t.envelope() })
    }
}

/// The tickets that are left after a look at all of them, in their order.
pub open spec fn scan_kept(tickets: Seq<TicketView>, now: u64) -> Seq<TicketView>
    decreases tickets.len(),
{
    if tickets.len() == 0 {
        Seq::empty()
    } else {
        let rest = scan_kept(tickets.drop_first(), now);
        match ticket_kept(tickets.first(), now) {
            Some(t) => seq![t] + rest,
            None => rest,
        }
    }
}

/// What has to be done after a look at all tickets; the last ticket comes
/// first.
pub open spec fn scan_due(tickets: Seq<TicketView>, now: u64) -> Seq<DueView>
    decreases tickets.len(),
{
    if tickets.len() == 0 {
        Seq::empty()
    } else {
        let rest = scan_due(tickets.drop_first(), now);
        match ticket_due(tickets.first(), now) {
            Some(d) => rest.push(d),
            None => rest,
        }
    }
}

/// The state of the session layer: the services that are registered, the
/// tickets that wait, and whether the manager has been told to stop.
pub struct Manager {
    services: Vec<Service>,
    tickets: Vec<Ticket>,
    running: bool,
}

/// What a manager holds.
pub struct ManagerView {
    pub services: Seq<Service>,
    pub tickets: Seq<TicketView>,
    pub running: bool,
}

impl ManagerView {
    /// The manager and its verdict after the datagram `m` from `sender`.
    ///
    /// A datagram with a tag other than 0 goes to the first service that was
    /// registered with that tag, and is dropped where there is none. A
    /// datagram with the tag 0 goes to the requester of the last ticket that
    /// waits for `sender` in the session `m.id`, and that ticket is gone
    /// afterwards; it is dropped where no ticket waits for it.
    pub open spec fn route(self, sender: Addr, m: MsgView) -> (ManagerView, RoutedView) {
        if m.service != 0 {
            match first_service(self.services, m.service) {
                Some(i) => (
                    self,
                    RoutedView::ToService {
                        pipe: self.services[i].pipe,
                        request: ServiceResponseView {
                            payload: m.payload,
                            source: sender,
                            id: m.id,
                        },
                    },
                ),
                None => (self, RoutedView::Dropped),
            }
        } else {
            match last_ticket(self.tickets, m.id, sender) {
                Some(i) => (
                    ManagerView { tickets: self.tickets.remove(i), ..self },
                    RoutedView::ToTicket {
                        requester: self.tickets[i].requester,
                        response: TicketResponseView { payload: Some(m.payload), source: sender },
                    },
                ),
                None => (self, RoutedView::Dropped),
            }
        }
    }

    /// Whether no two tickets wait for the same peer in the same session.
    pub open spec fn one_ticket_per_session(self) -> bool {
        forall|i: int, j: int|
            #![trigger self.tickets[i], self.tickets[j]]
            0 <= i < j < self.tickets.len() ==> !self.tickets[i].awaits(
                self.tickets[j].id,
                self.tickets[j].dest,
            )
    }
}

impl View for Manager {
    type V = ManagerView;

    closed spec fn view(&self) -> ManagerView {
        ManagerView {
            services: self.services@,
            tickets: Seq::new(self.tickets@.len(), |i: int| self.tickets@[i]@),
            running: self.running,
        }
    }
}

impl Manager {
    /// A manager with no service and no ticket.
    pub fn start() -> (m: Manager)
        ensures
            m@ == (ManagerView { services: Seq::empty(), tickets: Seq::empty(), running: true }),
    {
        let m = Manager { services: Vec::new(), tickets: Vec::new(), running: true };
        assert(m@.tickets =~= Seq::<TicketView>::empty());
        m
    }

    /// Tells the manager to stop.
    pub fn terminate(&mut self)
        ensures
            final(self)@ == (ManagerView { running: false, ..old(self)@ }),
    {
        self.running = false;
    }

    /// Whether the manager has not been told to stop.
    pub fn is_running(&self) -> (r: bool)
        ensures
            r == self@.running,
    {
        self.running
    }

    /// Registers a service: requests with the tag `service` will be handed to
    /// the channel `pipe`, unless an earlier service has the same tag.
    pub fn register_service(&mut self, service: u32, pipe: u64)
        ensures
            final(self)@ == (ManagerView {
                services: old(self)@.services.push(Service { service, pipe }),
                ..old(self)@
            }),
    {
        self.services.push(Service { service, pipe });
        assert(self@.tickets =~= old(self)@.tickets);
    }

    /// Takes on a ticket.
    pub fn add_ticket(&mut self, ticket: Ticket)
        ensures
            final(self)@ == (ManagerView {
                tickets: old(self)@.tickets.push(ticket@),
                ..old(self)@
            }),
    {
        self.tickets.push(ticket);
        assert(self@.tickets =~= old(self)@.tickets.push(ticket@));
    }

    /// Carries out an instruction. The result tells whether the manager goes
    /// on: it is false after `Terminate`.
    pub fn handle_request(&mut self, request: Request) -> (go_on: bool)
        ensures
            final(self)@ == match request {
                Request::Send(t) => ManagerView {
                    tickets: old(self)@.tickets.push(t@),
                    ..old(self)@
                },
                Request::Service(s) => ManagerView {
                    services: old(self)@.services.push(s),
                    ..old(self)@
                },
                Request::Terminate => ManagerView { running: false, ..old(self)@ },
            },
            go_on == !(request is Terminate),
    {
        match request {
            Request::Send(ticket) => {
                self.add_ticket(ticket);
                true
            },
            Request::Service(s) => {
                self.register_service(s.service, s.pipe);
                true
            },
            Request::Terminate => {
                self.terminate();
                false
            },
        }
    }

    /// The number of tickets that wait.
    pub fn pending(&self) -> (n: usize)
        ensures
            n == self@.tickets.len(),
    {
        self.tickets.len()
    }

    /// Takes a datagram that has been read from the socket: decides who gets
    /// what it holds, and forgets the ticket that it answers. A datagram that
    /// holds no envelope is dropped.
    pub fn receive(&mut self, sender: Addr, bytes: &Vec<u8>) -> (r: Routed)
        ensures
            match envelope_parse(bytes@) {
                Some(m) => (final(self)@, r@) == old(self)@.route(sender, m),
                None => final(self)@ == old(self)@ && r@ == RoutedView::Dropped,
            },
    {
        match Msg::decode(bytes) {
            Ok(m) => self.deliver(sender, m),
            Err(_) => Routed::Dropped,
        }
    }

    /// Takes an envelope that has arrived from `sender`: decides who gets it,
    /// and forgets the ticket that it answers.
    pub fn deliver(&mut self, sender: Addr, msg: Msg) -> (r: Routed)
        ensures
            (final(self)@, r@) == old(self)@.route(sender, msg@),
    {
        if msg.service != 0 {
            let mut i: usize = 0;
            while i < self.services.len()
                invariant
                    i <= self.services@.len(),
                    self.services@ == old(self).services@,
                    self@ == old(self)@,
                    msg.service != 0,
                    first_service(self.services@.take(i as int), msg.service) is None,
                decreases self.services@.len() - i,
            {
                proof {
                    assert(self.services@.take(i + 1).drop_last() =~= self.services@.take(i as int));
                }
                if self.services[i].service == msg.service {
                    proof {
                        let head = self.services@.take(i + 1);
                        assert(head.last() == self.services@[i as int]);
                        lemma_first_service_prefix(self.services@, msg.service, i + 1);
                    }
                    return Routed::ToService {
                        pipe: self.services[i].pipe,
                        request: ServiceResponse {
                            payload: msg.payload,
                            source: sender,
                            id: msg.id,
                        },
                    };
                }
                i += 1;
            }
            proof {
                assert(self.services@.take(i as int) =~= self.services@);
            }
            Routed::Dropped
        } else {
            let mut i: usize = self.tickets.len();
            let ghost ts = self@.tickets;
            proof {
                assert(ts.skip(i as int) =~= Seq::<TicketView>::empty());
            }
            while i > 0
                invariant
                    i <= self.tickets@.len(),
                    self@ == old(self)@,
                    msg.service == 0,
                    ts == self@.tickets,
                    ts.len() == self.tickets@.len(),
                    forall|j: int| 0 <= j < ts.len() ==> ts[j] == #[trigger] self.tickets@[j]@,
                    last_ticket(ts.skip(i as int), msg.id, sender) is None,
                decreases i,
            {
                i -= 1;
                proof {
                    assert(ts.skip(i as int).drop_first() =~= ts.skip(i + 1));
                    assert(ts.skip(i as int).first() == ts[i as int]);
                }
                if self.tickets[i].id == msg.id && sender == self.tickets[i].dest {
                    proof {
                        lemma_last_ticket_suffix(ts, msg.id, sender, i as int);
                    }
                    let ticket = self.tickets.remove(i);
                    proof {
                        assert(self@.tickets =~= ts.remove(i as int));
                    }
                    return Routed::ToTicket {
                        requester: ticket.requester,
                        response: TicketResponse { payload: Some(msg.payload), source: sender },
                    };
                }
            }
            proof {
                assert(ts.skip(0) =~= ts);
            }
            Routed::Dropped
        }
    }

    /// Looks at every ticket at the time `now`. A ticket whose timer has run
    /// out is sent (again) if it has a retry left, and given up otherwise. The
    /// result lists what has to be done, the last ticket first.
    pub fn scan(&mut self, now: u64) -> (due: Vec<Due>)
        ensures
            final(self)@ == (ManagerView {
                tickets: scan_kept(old(self)@.tickets, now),
                ..old(self)@
            }),
            due@.len() == scan_due(old(self)@.tickets, now).len(),
            forall|j: int| 0 <= j < due@.len() ==> (#[trigger] due@[j])@ == scan_due(
                old(self)@.tickets,
                now,
            )[j],
    {
        let mut due: Vec<Due> = Vec::new();
        let ghost ts = self@.tickets;
        let mut i: usize = self.tickets.len();
        proof {
            assert(ts.skip(i as int) =~= Seq::<TicketView>::empty());
            assert(self@.tickets =~= ts.take(i as int) + scan_kept(ts.skip(i as int), now));
        }
        while i > 0
            invariant
                i <= ts.len(),
                ts == old(self)@.tickets,
                self.services == old(self).services,
                self.running == old(self).running,
                self@.tickets == ts.take(i as int) + scan_kept(ts.skip(i as int), now),
                due@.len() == scan_due(ts.skip(i as int), now).len(),
                forall|j: int| 0 <= j < due@.len() ==> (#[trigger] due@[j])@ == scan_due(
                    ts.skip(i as int),
                    now,
                )[j],
            decreases i,
        {
            i -= 1;
            let ghost before = self@.tickets;
            let ghost rest = scan_kept(ts.skip(i + 1), now);
            proof {
                assert(ts.skip(i as int).drop_first() =~= ts.skip(i + 1));
                assert(ts.skip(i as int).first() == ts[i as int]);
                assert(before.len() == i + 1 + rest.len());
                assert(before.len() == self.tickets@.len());
                assert(before[i as int] == ts[i as int]);
                assert(self.tickets@[i as int]@ == before[i as int]);
            }
            if self.tickets[i].timer.expired_at(now, 100) {
                if self.tickets[i].retries == 0 {
                    let ticket = self.tickets.remove(i);
                    due.push(
                        Due::Expire {
                            requester: ticket.requester,
                            response: TicketResponse { payload: None, source: ticket.dest },
                        },
                    );
                    proof {
                        assert(self@.tickets =~= before.remove(i as int));
                        assert(before.remove(i as int) =~= ts.take(i as int) + rest);
                    }
                } else {
                    let retries = self.tickets[i].retries;
                    self.tickets[i].retries = retries - 1;
                    self.tickets[i].timer.reset_with_at(TICKET_TTL, now);
                    let t = &self.tickets[i];
                    due.push(
                        Due::Transmit {
                            dest: t.dest,
                            envelope: Msg { id: t.id, service: t.service, payload: t.payload.clone() },
                        },
                    );
                    proof {
                        let renewed = ticket_kept(ts[i as int], now)->Some_0;
                        assert(self.tickets@[i as int]@ == renewed);
                        assert(self@.tickets =~= before.update(i as int, renewed));
                        assert(before.update(i as int, renewed) =~= ts.take(i as int) + (
                        seq![renewed] + rest));
                    }
                }
            } else {
                proof {
                    assert(self@.tickets =~= ts.take(i as int) + (seq![ts[i as int]] + rest));
                }
            }
        }
        proof {
            assert(ts.skip(0) =~= ts);
            assert(ts.take(0) + scan_kept(ts, now) =~= scan_kept(ts, now));
        }
        due
    }
}

/// Where the first service with a tag is found among the first `k` services,
/// it is the first among all.
pub proof fn lemma_first_service_prefix(services: Seq<Service>, tag: u32, k: int)
    requires
        0 <= k <= services.len(),
        first_service(services.take(k), tag) is Some,
    ensures
        first_service(services, tag) == first_service(services.take(k), tag),
    decreases services.len() - k,
{
    if k < services.len() {
        assert(services.take(k + 1).drop_last() =~= services.take(k));
        lemma_first_service_prefix(services, tag, k + 1);
    } else {
        assert(services.take(k) =~= services);
    }
}

/// Where ticket `i` waits for a response and no later ticket does, ticket `i`
/// is the last that does.
pub proof fn lemma_last_ticket_suffix(tickets: Seq<TicketView>, id: u64, sender: Addr, i: int)
    requires
        0 <= i < tickets.len(),
        tickets[i].awaits(id, sender),
        last_ticket(tickets.skip(i + 1), id, sender) is None,
    ensures
        last_ticket(tickets, id, sender) == Some(i),
    decreases i,
{
    assert(tickets.skip(i).drop_first() =~= tickets.skip(i + 1));
    assert(tickets.skip(i).first() == tickets[i]);
    assert(last_ticket(tickets.skip(i), id, sender) == Some(0int));
    lemma_last_ticket_shift(tickets, id, sender, i, 0);
    assert(tickets.skip(0) =~= tickets);
}

/// The last waiting ticket of a list is the last waiting ticket of each of its
/// tails that hold it.
pub proof fn lemma_last_ticket_shift(
    tickets: Seq<TicketView>,
    id: u64,
    sender: Addr,
    k: int,
    m: int,
)
    requires
        0 <= k <= tickets.len(),
        0 <= m,
        last_ticket(tickets.skip(k), id, sender) == Some(m),
    ensures
        last_ticket(tickets.skip(0), id, sender) == Some(m + k),
    decreases k,
{
    if k > 0 {
        assert(tickets.skip(k - 1).drop_first() =~= tickets.skip(k));
        lemma_last_ticket_shift(tickets, id, sender, k - 1, m + 1);
    }
}

/// What can happen to one ticket.
pub enum TicketEvent {
    /// The manager looks at the ticket at this time.
    Look(u64),
    /// A response with this payload arrives for the ticket.
    Answer(Seq<u8>),
}

/// What the manager does about one ticket.
pub enum Happening {
    /// The request is sent at the time `at`.
    Sent { at: u64, dest: Addr, envelope: MsgView },
    /// The requester is told how the ticket ended.
    Reported { requester: u64, response: TicketResponseView },
}

/// The ticket after one event, if it still waits, and what the manager does
/// about it. A look at the ticket is what `scan` does to it; a response ends
/// it, as `route` does.
pub open spec fn ticket_step(t: TicketView, event: TicketEvent) -> (
    Option<TicketView>,
    Option<Happening>,
) {
    match event {
        TicketEvent::Look(now) => (
            ticket_kept(t, now),
            match ticket_due(t, now) {
                Some(DueView::Transmit { dest, envelope }) => Some(
                    Happening::Sent { at: now, dest, envelope },
                ),
                Some(DueView::Expire { requester, response }) => Some(
                    Happening::Reported { requester, response },
                ),
                None => None,
            },
        ),
        TicketEvent::Answer(payload) => (
            None,
            Some(
                Happening::Reported {
                    requester: t.requester,
                    response: TicketResponseView { payload: Some(payload), source: t.dest },
                },
            ),
        ),
    }
}

/// The life of one ticket under the events `events`: the ticket at the end, if
/// it still waits, and all that the manager has done about it. Once the ticket
/// is gone, nothing is done about it any more.
pub open spec fn ticket_life(t: TicketView, events: Seq<TicketEvent>) -> (
    Option<TicketView>,
    Seq<Happening>,
)
    decreases events.len(),
{
    if events.len() == 0 {
        (Some(t), Seq::empty())
    } else {
        let before = ticket_life(t, events.drop_last());
        match before.0 {
            None => before,
            Some(cur) => {
                let step = ticket_step(cur, events.last());
                (
                    step.0,
                    match step.1 {
                        Some(h) => before.1.push(h),
                        None => before.1,
                    },
                )
            },
        }
    }
}

/// Whether the looks among `events` come at times that do not go back.
pub open spec fn looks_in_order(events: Seq<TicketEvent>) -> bool {
    forall|i: int, j: int|
        #![trigger events[i], events[j]]
        0 <= i < j < events.len() && events[i] is Look && events[j] is Look
            ==> events[i]->Look_0 <= events[j]->Look_0
}

/// The life of a ticket. Whatever the events, as long as the clock does not go
/// back:
/// - the request goes to the ticket's destination, in the ticket's envelope,
///   and two sendings are at least `TICKET_TTL` apart;
/// - the requester gets at most one report, and the report is the last thing
///   that happens: the ticket is gone with it, and a later response or look
///   does nothing;
/// - while the ticket waits, it has been sent as often as it has lost retries;
///   when it is gone, it has been sent no more often than it had retries, and
///   exactly that often where the report is that the peer is dead.
pub proof fn lemma_ticket_life(t: TicketView, events: Seq<TicketEvent>)
    requires
        looks_in_order(events),
    ensures
        ({
            let end = ticket_life(t, events).0;
            let done = ticket_life(t, events).1;
            &&& forall|i: int| 0 <= i < done.len() - 1 ==> (#[trigger] done[i]) is Sent
            &&& forall|i: int|
                0 <= i < done.len() && (#[trigger] done[i]) is Sent ==> done[i]->dest == t.dest
                    && done[i]->envelope == t.envelope() && exists|k: int|
                    0 <= k < events.len() && #[trigger] events[k] == TicketEvent::Look(done[i]->at)
            &&& forall|i: int|
                0 <= i < done.len() - 1 && (#[trigger] done[i + 1]) is Sent ==> done[i + 1]->at
                    - done[i]->at >= TICKET_TTL
            &&& forall|i: int|
                0 <= i < done.len() && (#[trigger] done[i]) is Reported ==> done[i]->requester
                    == t.requester && done[i]->response.source == t.dest
            &&& end is None <==> done.len() > 0 && done.last() is Reported
            &&& end matches Some(e) ==> {
                &&& done.len() + e.retries == t.retries
                &&& e == (TicketView { retries: e.retries, timer: e.timer, ..t })
                &&& done.len() > 0 ==> e.timer == (TimerView {
                    start: done.last()->at,
                    duration: TICKET_TTL,
                    enabled: true,
                })
                &&& done.len() == 0 ==> e.timer == t.timer
            }
            &&& end is None ==> {
                &&& done.len() - 1 <= t.retries
                &&& done.last()->response.payload is None ==> done.len() - 1 == t.retries
            }
        }),
    decreases events.len(),
{
    if events.len() > 0 {
        let head = events.drop_last();
        let last = events.last();
        assert(forall|i: int| 0 <= i < head.len() ==> head[i] == events[i]);
        assert(looks_in_order(head));
        lemma_ticket_life(t, head);
        let before = ticket_life(t, head);
        let after = ticket_life(t, events);
        let n = before.1.len() as int;
        assert forall|i: int|
            0 <= i < before.1.len() && (#[trigger] before.1[i]) is Sent implies exists|k: int|
            0 <= k < events.len() && #[trigger] events[k] == TicketEvent::Look(before.1[i]->at) by {
            let k = choose|k: int|
                0 <= k < head.len() && #[trigger] head[k] == TicketEvent::Look(before.1[i]->at);
            assert(events[k] == TicketEvent::Look(before.1[i]->at));
        }
        match before.0 {
            None => {},
            Some(cur) => {
                match last {
                    TicketEvent::Look(now) => {
                        if cur.timer.expired_at(now, 100) {
                            if n > 0 {
                                // the clock has not gone back since the request was sent last
                                let at = before.1[n - 1]->at;
                                let k = choose|k: int|
                                    0 <= k < head.len() && #[trigger] head[k] == TicketEvent::Look(
                                        at,
                                    );
                                assert(events[k] is Look && events[events.len() - 1] is Look);
                                assert(at <= now);
                                assert(now - at >= TICKET_TTL);
                            }
                            if cur.retries > 0 {
                                assert(after.1 == before.1.push(
                                    Happening::Sent { at: now, dest: cur.dest, envelope: cur.envelope() },
                                ));
                                assert(events[events.len() - 1] == TicketEvent::Look(now));
                            } else {
                                assert(after.1 == before.1.push(
                                    Happening::Reported {
                                        requester: cur.requester,
                                        response: TicketResponseView {
                                            payload: None,
                                            source: cur.dest,
                                        },
                                    },
                                ));
                            }
                        }
                    },
                    TicketEvent::Answer(payload) => {
                        assert(after.1 == before.1.push(
                            Happening::Reported {
                                requester: cur.requester,
                                response: TicketResponseView {
                                    payload: Some(payload),
                                    source: cur.dest,
                                },
                            },
                        ));
                    },
                }
            },
        }
    }
}

/// Routing a response is the event `Answer` in the life of the last ticket
/// that waits for it: that ticket is gone, its requester gets the payload, and
/// no other ticket is touched.
pub proof fn lemma_route_answers(m: ManagerView, sender: Addr, msg: MsgView)
    requires
        msg.service == 0,
    ensures
        match last_ticket(m.tickets, msg.id, sender) {
            Some(i) => {
                &&& 0 <= i < m.tickets.len()
                &&& m.tickets[i].awaits(msg.id, sender)
                &&& m.route(sender, msg).0.tickets == m.tickets.remove(i)
                &&& m.route(sender, msg).1 matches RoutedView::ToTicket { requester, response }
                &&& ticket_step(m.tickets[i], TicketEvent::Answer(msg.payload)) == (
                    None::<TicketView>,
                    Some(Happening::Reported { requester, response }),
                )
            },
            None => m.route(sender, msg) == (m, RoutedView::Dropped),
        },
{
    lemma_last_ticket(m.tickets, msg.id, sender);
}

/// What `last_ticket` finds: a ticket that waits for the response, behind
/// which no other does; and nothing only where no ticket waits for it.
pub proof fn lemma_last_ticket(tickets: Seq<TicketView>, id: u64, sender: Addr)
    ensures
        match last_ticket(tickets, id, sender) {
            Some(i) => {
                &&& 0 <= i < tickets.len()
                &&& tickets[i].awaits(id, sender)
                &&& forall|j: int| i < j < tickets.len() ==> !(#[trigger] tickets[j]).awaits(id, sender)
            },
            None => forall|j: int| 0 <= j < tickets.len() ==> !(#[trigger] tickets[j]).awaits(id, sender),
        },
    decreases tickets.len(),
{
    if tickets.len() > 0 {
        let rest = tickets.drop_first();
        lemma_last_ticket(rest, id, sender);
        assert(forall|j: int| 0 <= j < rest.len() ==> rest[j] == tickets[j + 1]);
        match last_ticket(rest, id, sender) {
            Some(i) => {
                assert forall|j: int| i + 1 < j < tickets.len() implies !(#[trigger] tickets[j]).awaits(
                    id,
                    sender,
                ) by {
                    assert(rest[j - 1] == tickets[j]);
                }
            },
            None => {
                assert forall|j: int| 0 < j < tickets.len() implies !(#[trigger] tickets[j]).awaits(
                    id,
                    sender,
                ) by {
                    assert(rest[j - 1] == tickets[j]);
                }
            },
        }
    }
}

/// A response is handed out once. Where no two tickets wait for the same peer
/// in the same session, the datagram that has just been routed is dropped when
/// it arrives a second time: the ticket that it answered is gone.
pub proof fn lemma_no_second_delivery(m: ManagerView, sender: Addr, msg: MsgView)
    requires
        msg.service == 0,
        m.one_ticket_per_session(),
    ensures
        m.route(sender, msg).0.one_ticket_per_session(),
        m.route(sender, msg).0.route(sender, msg) == (m.route(sender, msg).0, RoutedView::Dropped),
        m.route(sender, msg).1 is ToTicket ==> m.route(sender, msg).0.tickets.len() + 1
            == m.tickets.len(),
{
    let ts = m.tickets;
    lemma_last_ticket(ts, msg.id, sender);
    let m1 = m.route(sender, msg).0;
    match last_ticket(ts, msg.id, sender) {
        Some(i) => {
            let rs = ts.remove(i);
            assert(m1.tickets == rs);
            assert(forall|j: int| 0 <= j < i ==> rs[j] == ts[j]);
            assert(forall|j: int| i <= j < rs.len() ==> rs[j] == ts[j + 1]);
            assert forall|x: int, y: int|
                #![trigger rs[x], rs[y]]
                0 <= x < y < rs.len() implies !rs[x].awaits(rs[y].id, rs[y].dest) by {
                let x0 = if x < i { x } else { x + 1 };
                let y0 = if y < i { y } else { y + 1 };
                assert(!ts[x0].awaits(ts[y0].id, ts[y0].dest));
            }
            lemma_last_ticket(rs, msg.id, sender);
            if last_ticket(rs, msg.id, sender) is Some {
                let k = last_ticket(rs, msg.id, sender)->Some_0;
                let k0 = if k < i { k } else { k + 1 };
                assert(rs[k] == ts[k0]);
                if k0 < i {
                    assert(!ts[k0].awaits(ts[i].id, ts[i].dest));
                } else {
                    assert(!ts[i].awaits(ts[k0].id, ts[k0].dest));
                }
            }
        },
        None => {},
    }
}

/// The tickets of one request: one for each destination, in the order of
/// `dests`, all in the session `id`, each with `RETRIES` tries ahead of it and
/// a timer that has run out, so that it is sent at the next look.
pub fn tickets_for(
    id: u64,
    payload: &Vec<u8>,
    dests: &Vec<Addr>,
    service: u32,
    requester: u64,
) -> (tickets: Vec<Ticket>)
    ensures
        tickets@.len() == dests@.len(),
        forall|i: int|
            0 <= i < tickets@.len() ==> {
                let t = (#[trigger] tickets@[i])@;
                &&& t.id == id
                &&& t.dest == dests@[i]
                &&& t.retries == RETRIES
                &&& t.requester == requester
                &&& t.payload == payload@
                &&& t.service == service
                &&& t.timer.enabled
                &&& t.timer.duration == 0
            },
{
    let mut tickets: Vec<Ticket> = Vec::new();
    let mut i: usize = 0;
    while i < dests.len()
        invariant
            i <= dests@.len(),
            tickets@.len() == i,
            forall|j: int|
                0 <= j < i ==> {
                    let t = (#[trigger] tickets@[j])@;
                    &&& t.id == id
                    &&& t.dest == dests@[j]
                    &&& t.retries == RETRIES
                    &&& t.requester == requester
                    &&& t.payload == payload@
                    &&& t.service == service
                    &&& t.timer.enabled
                    &&& t.timer.duration == 0
                },
        decreases dests@.len() - i,
    {
        tickets.push(
            Ticket {
                id,
                timer: Timer::new_expired(),
                retries: RETRIES,
                requester,
                payload: payload.clone(),
                dest: dests[i],
                service,
            },
        );
        i += 1;
    }
    tickets
}

/// The caller's side of one request to several peers: how many responses are
/// still awaited, all destinations, and the answers that have come.
pub struct SendHandle<T> {
    /// how many responses we are waiting for
    count: usize,
    /// all destinations
    all: Vec<Addr>,
    /// desinations mapped to their responses
    responses: AddrMap<T>,
}

/// What a send handle holds.
pub struct SendHandleView<T> {
    pub count: nat,
    pub all: Seq<Addr>,
    pub responses: Map<Addr, T>,
}

impl<T> View for SendHandle<T> {
    type V = SendHandleView<T>;

    closed spec fn view(&self) -> SendHandleView<T> {
        SendHandleView { count: self.count as nat, all: self.all@, responses: self.responses@ }
    }
}

impl<T> SendHandleView<T> {
    /// Whether every ticket has reported.
    pub open spec fn is_done(self) -> bool {
        self.count == 0
    }

    /// Whether `a` gave no answer that could be read.
    pub open spec fn is_dead(self, a: Addr) -> bool {
        !self.responses.contains_key(a)
    }

    /// The handle after the ticket for `source` has reported `answer`.
    pub open spec fn process_response(self, source: Addr, answer: Option<T>) -> SendHandleView<T> {
        SendHandleView {
            count: (self.count - 1) as nat,
            responses: match answer {
                Some(a) => self.responses.insert(source, a),
                None => self.responses,
            },
            ..self
        }
    }
}

impl<T> SendHandle<T> {
    /// The invariant of the handle.
    pub closed spec fn wf(&self) -> bool {
        self.responses.wf()
    }

    /// The handle of a request that has just been sent to `dests`.
    pub fn new(dests: Vec<Addr>) -> (h: SendHandle<T>)
        requires
            0 < dests@.len(),
        ensures
            h.wf(),
            h@ == (SendHandleView {
                count: dests@.len(),
                all: dests@,
                responses: Map::<Addr, T>::empty(),
            }),
    {
        SendHandle { count: dests.len(), all: dests, responses: AddrMap::new() }
    }

    /// Takes the report of one ticket: the answer of `source`, or `None` where
    /// `source` is dead or its answer could not be read.
    pub fn process_response(&mut self, source: Addr, answer: Option<T>)
        requires
            old(self).wf(),
            !old(self)@.is_done(),
        ensures
            final(self).wf(),
            final(self)@ == old(self)@.process_response(source, answer),
    {
        self.count -= 1;
        match answer {
            Some(a) => {
                self.responses.insert(source, a);
            },
            None => {},
        }
    }

    /// is this session done?
    pub fn is_done(&self) -> (r: bool)
        ensures
            r == self@.is_done(),
    {
        self.count == 0
    }

    /// all destination addresses
    pub fn iter(&self) -> (all: &Vec<Addr>)
        requires
            self@.is_done(),
        ensures
            all@ == self@.all,
    {
        &self.all
    }

    /// returns true if `a` didn't respond or responded with something that
    /// could not be read
    pub fn is_dead(&self, a: &Addr) -> (r: bool)
        requires
            self.wf(),
            self@.is_done(),
        ensures
            r == self@.is_dead(*a),
    {
        !self.responses.contains_key(a)
    }

    /// extracts the answer from `a`
    pub fn get_answer(&mut self, a: &Addr) -> (answer: T)
        requires
            old(self).wf(),
            old(self)@.is_done(),
            !old(self)@.is_dead(*a),
        ensures
            final(self).wf(),
            answer == old(self)@.responses[*a],
            final(self)@ == (SendHandleView {
                responses: old(self)@.responses.remove(*a),
                ..old(self)@
            }),
    {
        self.responses.remove(a).unwrap()
    }

    /// the answer from `a`
    pub fn borrow_answer(&self, a: &Addr) -> (answer: &T)
        requires
            self.wf(),
            self@.is_done(),
            !self@.is_dead(*a),
        ensures
            *answer == self@.responses[*a],
    {
        self.responses.get(a).unwrap()
    }

    /// convenience function to extract a single answer from this handle
    /// A return value of None means the same things as `is_dead` == true
    pub fn get_single_answer(self) -> (answer: Option<T>)
        requires
            self.wf(),
            self@.all.len() == 1,
        ensures
            answer == if self@.is_dead(self@.all[0]) {
                None
            } else {
                Some(self@.responses[self@.all[0]])
            },
    {
        let mut h = self;
        let a = h.all[0];
        h.responses.remove(&a)
    }

    /// The single answer of this handle, if it has come.
    pub fn borrow_single_answer(&self) -> (answer: Option<&T>)
        requires
            self.wf(),
            self@.all.len() == 1,
        ensures
            match answer {
                Some(t) => !self@.is_dead(self@.all[0]) && *t == self@.responses[self@.all[0]],
                None => self@.is_dead(self@.all[0]),
            },
    {
        self.responses.get(&self.all[0])
    }
}

/// Initiates a new session: `payload` is to be sent to all `dests`, for the
/// service `service`, and the responses are expected on the channel
/// `requester`. The result is the handle on which the responses are counted
/// and the tickets to hand to the manager: one for each destination, all with
/// the same fresh random session.
pub fn send<U>(payload: &Vec<u8>, dests: Vec<Addr>, service: u32, requester: u64) -> (r: (
    SendHandle<U>,
    Vec<Ticket>,
))
    requires
        0 < dests@.len(),
    ensures
        r.0.wf(),
        r.0@ == (SendHandleView {
            count: dests@.len(),
            all: dests@,
            responses: Map::<Addr, U>::empty(),
        }),
        r.1@.len() == dests@.len(),
        forall|i: int|
            0 <= i < r.1@.len() ==> {
                let t = (#[trigger] r.1@[i])@;
                &&& t.id == r.1@[0]@.id
                &&& t.dest == dests@[i]
                &&& t.retries == RETRIES
                &&& t.requester == requester
                &&& t.payload == payload@
                &&& t.service == service
                &&& t.timer.enabled
                &&& t.timer.duration == 0
            },
{
    let id = get_hash();
    let tickets = tickets_for(id, payload, &dests, service, requester);
    (SendHandle::new(dests), tickets)
}

/// The datagram that answers the request of session `id` with `payload`: an
/// envelope with the tag 0. It is refused with `NoMessage` where it would be
/// larger than a datagram may be, and only there.
pub fn service_respond(payload: Vec<u8>, id: u64) -> (r: Result<Vec<u8>, NetworkError>)
    ensures
        match r {
            Ok(bytes) => bytes@ == envelope_bytes(MsgView { service: 0, id, payload: payload@ })
                && bytes@.len() <= MAX_UDP,
            Err(e) => e == NetworkError::NoMessage,
        },
        r is Ok <==> payload@.len() + HEADER <= MAX_UDP,
{
    let to_send = Msg { service: 0, id, payload };
    to_send.encode()
}

} // verus!
