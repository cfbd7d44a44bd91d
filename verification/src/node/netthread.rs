//! The event loop of a peer, one step at a time.
//!
//! A `NetThread` holds everything that a peer knows: its routing table, the
//! lookup that is under way, the broadcast engine, and the two timers that
//! pace the registration with the tracker and the random lookups. Its caller
//! owns the sockets and the channels and calls the steps in turn: `tracker_due`
//! and `tracker_updated`, `handle_msg`, `update_lookup`, `update_broadcast`,
//! `control`, and then sleeps for `THREAD_SLEEP`.

use vstd::prelude::*;
use std::time::SystemTime;
use crate::common::get_hash;
use crate::common::id::Id;
use crate::common::timer::now_millis;
use crate::common::timer::system_now;
use crate::common::timer::Timer;
use crate::common::timer::TimerView;
use crate::network::Addr;
use crate::network::NetworkError;
use crate::node::broadcast::inbound_views;
use crate::node::broadcast::views;
use crate::node::broadcast::BroadcastManager;
use crate::node::broadcast::BroadcastView;
use crate::node::broadcast::Effect;
use crate::node::broadcast::EffectView;
use crate::node::broadcast::Inbound;
use crate::node::broadcast::MsgPayloadView;
use crate::node::broadcast::MsgView;
use crate::node::kademlia::at_most_requests;
use crate::node::kademlia::create_ktable;
use crate::node::kademlia::fill;
use crate::node::kademlia::handle_all;
use crate::node::kademlia::KadMsgView;
use crate::node::kademlia::K;
use crate::node::kademlia::IdLookup;
use crate::node::kademlia::IdLookupView;
use crate::node::kademlia::KadMsg;
use crate::node::kademlia::Reply;
use crate::node::ktable::Entry;
use crate::node::ktable::Ktable;
use crate::node::ktable::KtableView;
use crate::node::Message;
use crate::node::MessageView;
use crate::node::ToNetMsg;

verus! {

/// The time, in milliseconds, that the loop sleeps between two rounds.
pub const THREAD_SLEEP: u64 = 40;

/// The time, in milliseconds, between two lookups of a random identifier.
pub const LOOKUP_PERIOD: u64 = 20_000;

/// The time, in milliseconds, after which a silent tracker is asked again.
pub const TRACKER_RETRY: u64 = 60_000;

/// The percentage of the time granted by the tracker after which the
/// registration is renewed.
pub const TRACKER_MARGIN: u32 = 95;

/// The largest number of bytes of a chat message.
pub const MAX_MESSAGE: usize = 100;

/// What the loop finds on the channel from the user interface.
#[derive(Debug)]
pub enum Command {
    /// A request of the user interface.
    Request(ToNetMsg),
    /// Nothing.
    Empty,
    /// The user interface is gone.
    Disconnected,
}

/// The state of a peer.
pub struct NetThread {
    user_id: Id,
    user_name: String,
    room_id: Id,
    myself: Entry,
    ktab: Ktable,
    looking: Option<IdLookup>,
    broadcast_man: BroadcastManager,
    tracker_timer: Timer,
    lookup_timer: Timer,
}

/// What a peer holds.
pub struct NetThreadView {
    /// The identifier of the user.
    pub user_id: Id,
    /// The name of the user.
    pub user_name: Seq<char>,
    /// The room.
    pub room_id: Id,
    /// The peer's own directory record.
    pub myself: Entry,
    /// The routing table.
    pub ktab: KtableView,
    /// The lookup that is under way.
    pub looking: Option<IdLookupView>,
    /// The broadcast engine.
    pub broadcast_man: BroadcastView,
    /// Runs until the registration with the tracker has to be renewed.
    pub tracker_timer: TimerView,
    /// Runs until the next lookup of a random identifier.
    pub lookup_timer: TimerView,
}

impl View for NetThread {
    type V = NetThreadView;

    closed spec fn view(&self) -> NetThreadView {
        NetThreadView {
            user_id: self.user_id,
            user_name: self.user_name@,
            room_id: self.room_id,
            myself: self.myself,
            ktab: self.ktab@,
            looking: match self.looking {
                Some(l) => Some(l@),
                None => None,
            },
            broadcast_man: self.broadcast_man@,
            tracker_timer: self.tracker_timer@,
            lookup_timer: self.lookup_timer@,
        }
    }
}

/// The timer of the registration after an exchange with the tracker that
/// ended at `now`: it runs for the time that the tracker granted; after a
/// `Timeout` it runs for `TRACKER_RETRY`; after any other error it is
/// disarmed.
pub open spec fn tracker_timer_after(t: TimerView, result: Result<u64, NetworkError>, now: u64) -> TimerView {
    match result {
        Ok(ttl) => TimerView { start: now, duration: ttl, enabled: true },
        Err(NetworkError::Timeout) => TimerView { start: now, duration: TRACKER_RETRY, enabled: true },
        Err(_) => TimerView { enabled: false, ..t },
    }
}

/// The number of bytes of a text.
pub open spec fn byte_len(text: Seq<char>) -> usize {
    vstd::utf8::encode_utf8(text).len() as usize
}

impl NetThreadView {
    /// The peer after the lookup was looked at, at the time `now`, with
    /// `random_id` as the identifier to look up next.
    ///
    /// A round of the lookup that has ended is taken in; a lookup that is done
    /// is dropped, and the time to the next one starts. Then, with no lookup
    /// under way and that time run out, a lookup of `random_id` begins.
    pub open spec fn update_lookup(self, now: u64, random_id: Id) -> NetThreadView {
        let stepped = match self.looking {
            Some(l) => {
                let r = if l.round_over() {
                    l.round(self.ktab)
                } else {
                    (l, self.ktab)
                };
                if r.0.cur is None {
                    NetThreadView {
                        looking: None,
                        ktab: r.1,
                        lookup_timer: TimerView { start: now, enabled: true, ..self.lookup_timer },
                        ..self
                    }
                } else {
                    NetThreadView { looking: Some(r.0), ktab: r.1, ..self }
                }
            },
            None => self,
        };
        if stepped.looking is None && stepped.lookup_timer.expired_at(now, 100) {
            NetThreadView { looking: Some(stepped.first_round(random_id)), ..stepped }
        } else {
            stepped
        }
    }

    /// The lookup of `target` as it begins: it asks the `2 * K` nearest peers
    /// that the routing table knows.
    pub open spec fn first_round(self, target: Id) -> IdLookupView {
        let seeds = fill(
            self.ktab.closest_to((2 * K) as nat, target),
            Set::<Addr>::empty(),
            (2 * K) as nat,
        );
        IdLookupView {
            target,
            myself: self.myself,
            visited: Set::empty(),
            best: KtableView::empty(K as nat, target),
            ids: seeds.0,
            dests: seeds.1,
            cur: IdLookupView::fresh(seeds.1),
        }
    }


    /// The chat message that the user's text `text` makes, written at
    /// `timestamp`.
    pub open spec fn own_message(self, text: Seq<char>, timestamp: SystemTime) -> MessageView {
        MessageView {
            msg: text,
            sender_id: self.user_id,
            sender_name: self.user_name,
            timestamp,
            is_myself: true,
        }
    }

    /// The peer after the user said `text`, and the effects of that. A text of
    /// more than `MAX_MESSAGE` bytes is not sent, and the user is told so. Any
    /// other text is shown to the user as an own message and broadcast under
    /// the hash `hash`.
    pub open spec fn say(self, text: Seq<char>, timestamp: SystemTime, hash: u64) -> (
        NetThreadView,
        Seq<EffectView>,
    ) {
        if byte_len(text) > MAX_MESSAGE {
            (self, seq![EffectView::NotSent])
        } else {
            let m = self.own_message(text, timestamp);
            let out = self.broadcast_man.emit(
                MsgView {
                    hash,
                    sender_id: self.broadcast_man.my_id,
                    payload: MsgPayloadView::Msg(m),
                },
                None,
            );
            (NetThreadView { broadcast_man: out.0, ..self }, seq![EffectView::Deliver(m)] + out.1)
        }
    }
}

impl NetThread {
    /// The invariant of a peer: that of its parts.
    pub closed spec fn wf(&self) -> bool {
        &&& self.ktab.wf()
        &&& self.broadcast_man.wf()
        &&& self.looking matches Some(l) ==> l.wf()
    }

    /// What `wf` says of the view.
    pub proof fn lemma_wf(&self)
        requires
            self.wf(),
        ensures
            self@.ktab.wf(),
            self@.broadcast_man.wf(),
    {
        self.broadcast_man.lemma_wf();
    }

    /// Sets a peer up, at the time `now`: `my_id` is its identifier in the
    /// overlay, `local_addr` its address, and `boot_node` the live peer of the
    /// room that was found, if any. The routing table holds the boot node, and
    /// a lookup of the peer's own identifier is under way if there is one. The
    /// registration with the tracker is due at once; the first random lookup
    /// is due `LOOKUP_PERIOD` later.
    pub fn run(
        user_id: Id,
        user_name: String,
        room_id: Id,
        my_id: Id,
        local_addr: Addr,
        boot_node: Option<(Addr, Id)>,
        now: u64,
    ) -> (n: NetThread)
        ensures
            n.wf(),
            n@.user_id == user_id,
            n@.user_name == user_name@,
            n@.room_id == room_id,
            n@.myself == (Entry { sock: local_addr, id: my_id }),
            n@.ktab == match boot_node {
                Some((adr, id)) => KtableView::empty(K as nat, my_id).offer(
                    Entry { sock: adr, id },
                ),
                None => KtableView::empty(K as nat, my_id),
            },
            n@.looking == match boot_node {
                Some(_) => Some(n@.first_round(my_id)),
                None => None,
            },
            n@.broadcast_man == BroadcastView::initial(my_id, now),
            n@.tracker_timer == (TimerView { start: now, duration: 0, enabled: true }),
            n@.lookup_timer == (TimerView { start: now, duration: LOOKUP_PERIOD, enabled: true }),
    {
        let myself = Entry::new(local_addr, my_id);
        let mut ktab = create_ktable(my_id);
        let looking = match boot_node {
            Some((adr, id)) => {
                ktab.offer(Entry::new(adr, id));
                Some(IdLookup::new(my_id, myself, &ktab))
            },
            None => None,
        };
        let n = NetThread {
            user_id,
            user_name,
            room_id,
            myself,
            ktab,
            looking,
            broadcast_man: BroadcastManager::new_at(my_id, now),
            tracker_timer: Timer::started_at(now, 0),
            lookup_timer: Timer::started_at(now, LOOKUP_PERIOD),
        };
        n
    }

    /// The routing table.
    pub fn ktable(&self) -> (t: &Ktable)
        requires
            self.wf(),
        ensures
            t.wf(),
            t@ == self@.ktab,
    {
        &self.ktab
    }

    /// The broadcast engine.
    pub fn broadcast_manager(&self) -> (b: &BroadcastManager)
        requires
            self.wf(),
        ensures
            b.wf(),
            b@ == self@.broadcast_man,
    {
        &self.broadcast_man
    }

    /// The destinations of the round of the lookup that is under way; none
    /// without a lookup.
    pub fn lookup_destinations(&self) -> (dests: Vec<Addr>)
        requires
            self.wf(),
        ensures
            dests@ == match self@.looking {
                Some(l) => if l.cur is Some {
                    l.dests
                } else {
                    Seq::<Addr>::empty()
                },
                None => Seq::<Addr>::empty(),
            },
    {
        match &self.looking {
            Some(l) => l.destinations(),
            None => Vec::new(),
        }
    }

    /// Whether a lookup is under way.
    pub fn is_looking(&self) -> (r: bool)
        ensures
            r == (self@.looking is Some),
    {
        self.looking.is_some()
    }

    /// Whether the registration with the tracker has to be renewed at `now`:
    /// `TRACKER_MARGIN` percent of the granted time have passed.
    pub fn tracker_due(&self, now: u64) -> (r: bool)
        ensures
            r == self@.tracker_timer.expired_at(now, TRACKER_MARGIN),
    {
        self.tracker_timer.expired_at(now, TRACKER_MARGIN)
    }

    /// Takes the outcome of the exchange with the tracker: the time for which
    /// the registration holds, in milliseconds, or the error. See
    /// `tracker_timer_after`.
    pub fn tracker_updated(&mut self, result: Result<u64, NetworkError>, now: u64)
        requires
            old(self).wf(),
        ensures
            final(self).wf(),
            final(self)@ == (NetThreadView {
                tracker_timer: tracker_timer_after(old(self)@.tracker_timer, result, now),
                ..old(self)@
            }),
    {
        match result {
            Ok(ttl) => {
                self.tracker_timer.reset_with_at(ttl, now);
            },
            Err(NetworkError::Timeout) => {
                self.tracker_timer.reset_with_at(TRACKER_RETRY, now);
            },
            Err(_) => {
                self.tracker_timer.disable();
            },
        }
    }

    /// Answers the Kademlia requests that have come in: the first
    /// `kademlia::BATCH` of them.
    pub fn handle_msg(&mut self, requests: Vec<crate::node::kademlia::Inbound>) -> (replies: Vec<
        Reply,
    >)
        requires
            old(self).wf(),
        ensures
            final(self).wf(),
            final(self)@ == (NetThreadView {
                ktab: handle_all(
                    old(self)@.ktab,
                    old(self)@.myself.id,
                    at_most_requests(requests@),
                ).0,
                ..old(self)@
            }),
            replies@.map_values(|r: Reply| r@) == handle_all(
                old(self)@.ktab,
                old(self)@.myself.id,
                at_most_requests(requests@),
            ).1,
    {
        let my_id = self.myself.get_id();
        crate::node::kademlia::handle_msg(requests, my_id, &mut self.ktab)
    }

    /// Takes the report of one ticket of the lookup that is under way: the
    /// answer of `source`, or `None` where `source` is dead. Without a lookup
    /// the report is dropped.
    pub fn lookup_response(&mut self, source: Addr, answer: Option<KadMsg>)
        requires
            old(self).wf(),
        ensures
            final(self).wf(),
            final(self)@ == (NetThreadView {
                looking: match old(self)@.looking {
                    Some(l) => Some(
                        match l.cur {
                            Some(h) => if h.is_done() {
                                l
                            } else {
                                IdLookupView {
                                    cur: Some(h.process_response(source, answer)),
                                    ..l
                                }
                            },
                            None => l,
                        },
                    ),
                    None => None,
                },
                ..old(self)@
            }),
    {
        match &mut self.looking {
            Some(l) => {
                l.process_response(source, answer);
            },
            None => {},
        }
    }

    /// Looks at the lookup, at the time `now`: see
    /// `NetThreadView::update_lookup`. The result lists the destinations to
    /// which the request of the lookup has to be sent now; `lookup_message`
    /// gives the request.
    pub fn update_lookup_at(&mut self, now: u64, random_id: Id) -> (dests: Vec<Addr>)
        requires
            old(self).wf(),
        ensures
            final(self).wf(),
            final(self)@ == old(self)@.update_lookup(now, random_id),
    {
        let mut dests: Vec<Addr> = Vec::new();
        let mut finished = false;
        match &mut self.looking {
            Some(l) => {
                dests = l.update(&mut self.ktab);
                finished = l.is_done();
            },
            None => {},
        }
        if finished {
            self.looking = None;
            self.lookup_timer.reset_at(now);
        }
        if self.looking.is_none() && self.lookup_timer.expired_at(now, 100) {
            let l = IdLookup::new(random_id, self.myself, &self.ktab);
            dests = l.destinations();
            self.looking = Some(l);
        }
        dests
    }

    /// Looks at the lookup, at the present time; the identifier of a lookup
    /// that begins is drawn at random. Whatever the time and the identifier,
    /// the step is `NetThreadView::update_lookup` for them.
    pub fn update_lookup(&mut self) -> (dests: Vec<Addr>)
        requires
            old(self).wf(),
        ensures
            final(self).wf(),
            exists|now: u64, random_id: Id|
                final(self)@ == #[trigger] old(self)@.update_lookup(now, random_id),
    {
        let now = now_millis();
        let random_id = Id::new_random();
        self.update_lookup_at(now, random_id)
    }

    /// The request that the lookup under way sends, if there is one.
    pub fn lookup_message(&self) -> (m: Option<KadMsg>)
        ensures
            match m {
                Some(m) => self@.looking is Some && m@ == KadMsgView::Lookup(
                    self@.looking->Some_0.target,
                    self@.looking->Some_0.myself,
                ),
                None => self@.looking is None,
            },
    {
        match &self.looking {
            Some(l) => Some(l.message()),
            None => None,
        }
    }

    /// One round of the broadcast engine: see `BroadcastManager::update`.
    pub fn update_broadcast(&mut self, inbound: Vec<Inbound>) -> (effects: Vec<Effect>)
        requires
            old(self).wf(),
        ensures
            final(self).wf(),
            exists|now: u64, hashes: Seq<u64>, pick: Option<Entry>, ting_hash: u64|
                (final(self)@.broadcast_man, final(self)@.ktab, views(effects@)) == #[trigger] old(
                    self,
                )@.broadcast_man.tick(
                    old(self)@.ktab,
                    now,
                    inbound_views(inbound@),
                    hashes,
                    pick,
                    ting_hash,
                ),
            final(self)@ == (NetThreadView {
                broadcast_man: final(self)@.broadcast_man,
                ktab: final(self)@.ktab,
                ..old(self)@
            }),
    {
        let ghost engine = self.broadcast_man@;
        let ghost table = self.ktab@;
        let ghost ins = inbound_views(inbound@);
        let effects = self.broadcast_man.update(&mut self.ktab, inbound);
        proof {
            let (now, hashes, pick, ting_hash) = choose|
                now: u64,
                hashes: Seq<u64>,
                pick: Option<Entry>,
                ting_hash: u64,
            |
                (self.broadcast_man@, self.ktab@, views(effects@)) == #[trigger] engine.tick(
                    table,
                    now,
                    ins,
                    hashes,
                    pick,
                    ting_hash,
                );
            assert((self@.broadcast_man, self@.ktab, views(effects@)) == old(
                self,
            )@.broadcast_man.tick(old(self)@.ktab, now, ins, hashes, pick, ting_hash));
        }
        effects
    }

    /// Takes the report of one ticket of a broadcast: see
    /// `BroadcastManager::process_response`.
    pub fn broadcast_response(&mut self, tag: u64, source: Addr, alive: bool)
        requires
            old(self).wf(),
        ensures
            final(self).wf(),
            final(self)@ == (NetThreadView {
                broadcast_man: old(self)@.broadcast_man.process_response(tag, source, alive),
                ..old(self)@
            }),
    {
        self.broadcast_man.process_response(tag, source, alive);
    }

    /// The user says `text`, at `timestamp`: see `NetThreadView::say`.
    pub fn say_at(&mut self, text: String, timestamp: SystemTime, hash: u64) -> (effects: Vec<
        Effect,
    >)
        requires
            old(self).wf(),
        ensures
            final(self).wf(),
            (final(self)@, views(effects@)) == old(self)@.say(text@, timestamp, hash),
    {
        let mut effects: Vec<Effect> = Vec::new();
        if text.as_str().len() > MAX_MESSAGE {
            effects.push(Effect::NotSent);
            assert(views(effects@) =~= seq![EffectView::NotSent]);
            return effects;
        }
        let m = Message::with_timestamp(text, self.user_id, self.user_name.clone(), timestamp, true);
        effects.push(Effect::Deliver(m.duplicate()));
        let mut more = self.broadcast_man.broadcast_as(m, hash);
        let ghost first = views(effects@);
        let ghost second = views(more@);
        effects.append(&mut more);
        proof {
            assert(views(effects@) =~= first + second);
            assert(first =~= seq![EffectView::Deliver(m@)]);
        }
        effects
    }

    /// Takes what was found on the channel from the user interface. The first
    /// part of the result tells whether the loop goes on: it ends on
    /// `Terminate` and when the user interface is gone. A text of the user is
    /// said (`NetThreadView::say`), now and under a random hash.
    pub fn control(&mut self, command: Command) -> (r: (bool, Vec<Effect>))
        requires
            old(self).wf(),
        ensures
            final(self).wf(),
            r.0 == !(command is Disconnected || command == Command::Request(ToNetMsg::Terminate)),
            match command {
                Command::Request(ToNetMsg::NewMsg(text)) => exists|timestamp: SystemTime, hash: u64|
                    (final(self)@, views(r.1@)) == #[trigger] old(self)@.say(text@, timestamp, hash),
                _ => final(self)@ == old(self)@ && r.1@.len() == 0,
            },
            command matches Command::Request(ToNetMsg::NewMsg(text)) && byte_len(text@)
                > MAX_MESSAGE ==> final(self)@ == old(self)@ && views(r.1@) == seq![
                EffectView::NotSent,
            ],
    {
        match command {
            Command::Request(ToNetMsg::Terminate) => (false, Vec::new()),
            Command::Request(ToNetMsg::NewMsg(text)) => {
                let timestamp = system_now();
                let hash = get_hash();
                let effects = self.say_at(text, timestamp, hash);
                (true, effects)
            },
            Command::Empty => (true, Vec::new()),
            Command::Disconnected => (false, Vec::new()),
        }
    }
}

} // verus!
